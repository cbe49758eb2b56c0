//! A registry of defined units, looked up by name.
use vstd::prelude::*;
use std::sync::Arc;
use crate::rational::Rational;
use crate::unit::{DefinedUnit, Unit, dims_of, share};
use crate::parser::{ParserError, ParseErrorKind, parse, spec_parse, error_kind};
use crate::tokenizer::{
    spec_tokenize, has_malformed_number, is_ident_char, run_end, CharClass, lemma_run_end_bounds, lex,
    TokenView,
};
use crate::chars::is_ascii_letter;

verus! {

/// The map from names to defined units that a sequence of definitions makes,
/// a later definition of a name replacing an earlier one.
pub open spec fn definitions_map<S>(us: Seq<DefinedUnit<S>>) -> Map<Seq<char>, DefinedUnit<S>>
    decreases us.len(),
{
    if us.len() == 0 {
        Map::empty()
    } else {
        definitions_map(us.drop_last()).insert(us.last().name@, us.last())
    }
}

pub open spec fn unit_name<S>(u: Arc<DefinedUnit<S>>) -> Seq<char> {
    u.name@
}

pub open spec fn distinct_unit_names<S>(us: Seq<Arc<DefinedUnit<S>>>) -> bool {
    forall|i: int, j: int|
        0 <= i < us.len() && 0 <= j < us.len() && i != j ==> unit_name(#[trigger] us[i]) != unit_name(
        #[trigger] us[j])
}

/// The map from names to the units stored.
pub open spec fn stored_map<S>(us: Seq<Arc<DefinedUnit<S>>>) -> Map<Seq<char>, DefinedUnit<S>>
    decreases us.len(),
{
    if us.len() == 0 {
        Map::empty()
    } else {
        stored_map(us.drop_last()).insert(unit_name(us.last()), *us.last())
    }
}

pub open spec fn stores_name<S>(us: Seq<Arc<DefinedUnit<S>>>, k: Seq<char>) -> bool {
    exists|i: int| 0 <= i < us.len() && unit_name(#[trigger] us[i]) == k
}

pub proof fn lemma_stored_map<S>(us: Seq<Arc<DefinedUnit<S>>>)
    requires
        distinct_unit_names(us),
    ensures
        forall|k: Seq<char>| #[trigger] stored_map(us).contains_key(k) <==> stores_name(us, k),
        forall|i: int| 0 <= i < us.len() ==> #[trigger] stored_map(us)[unit_name(us[i])] == *us[i],
    decreases us.len(),
{
    if us.len() > 0 {
        let init = us.drop_last();
        assert forall|i: int, j: int|
            0 <= i < init.len() && 0 <= j < init.len() && i != j implies unit_name(#[trigger] init[i])
            != unit_name(#[trigger] init[j]) by {
            assert(init[i] == us[i] && init[j] == us[j]);
        }
        lemma_stored_map(init);
        let n = us.len() - 1;
        assert(stored_map(us) == stored_map(init).insert(unit_name(us.last()), *us.last()));
        assert(forall|k: Seq<char>| stored_map(init).contains_key(k) <==> stores_name(init, k));
        assert forall|k: Seq<char>| #[trigger] stored_map(us).contains_key(k) <==> stores_name(us, k) by {
            if stores_name(us, k) {
                let i = choose|i: int| 0 <= i < us.len() && unit_name(#[trigger] us[i]) == k;
                if i < n {
                    assert(init[i] == us[i]);
                }
            }
            if stores_name(init, k) {
                let i = choose|i: int| 0 <= i < init.len() && unit_name(#[trigger] init[i]) == k;
                assert(us[i] == init[i]);
            }
            assert(us[n] == us.last());
            if k == unit_name(us.last()) {
                assert(stores_name(us, k));
            }
        }
        assert forall|i: int| 0 <= i < us.len() implies #[trigger] stored_map(us)[unit_name(us[i])] == *us[i] by {
            assert(us[n] == us.last());
            if i < n {
                assert(init[i] == us[i]);
                assert(unit_name(us[i]) != unit_name(us[n]));
            }
        }
    }
}

pub proof fn lemma_stored_map_push<S>(us: Seq<Arc<DefinedUnit<S>>>, u: Arc<DefinedUnit<S>>)
    ensures
        stored_map(us.push(u)) == stored_map(us).insert(unit_name(u), *u),
{
    assert(us.push(u).drop_last() =~= us);
}

/// The names of the SI base units, by the dimension each measures: length,
/// mass, time, electric current, temperature, amount of substance, luminous
/// intensity.
pub open spec fn si_names() -> Seq<Seq<char>> {
    seq!["m"@, "kg"@, "s"@, "A"@, "K"@, "mol"@, "cd"@]
}

/// The dimensions of the `i`th base dimension: one there, zero elsewhere.
pub open spec fn base_dimensions(i: int) -> Seq<(int, int)> {
    Seq::new(
        7,
        |j: int|
            if j == i {
                (1int, 1int)
            } else {
                (0int, 1int)
            },
    )
}

/// The dimensions, with one at `index` and zero elsewhere.
fn base_dimension_vector(index: usize) -> (d: [Rational; 7])
    requires
        index < 7,
    ensures
        d@.map_values(|x: Rational| x@) == base_dimensions(index as int),
{
    let mut d: [Rational; 7] = [
        Rational::zero(),
        Rational::zero(),
        Rational::zero(),
        Rational::zero(),
        Rational::zero(),
        Rational::zero(),
        Rational::zero(),
    ];
    d[index] = Rational::one();
    proof {
        assert(d@.map_values(|x: Rational| x@) =~= base_dimensions(index as int));
    }
    d
}

/// The SI base unit named `name` for dimension `index`, with scale one.
fn si_unit<S: From<u8>>(name: &str, index: usize) -> (u: DefinedUnit<S>)
    requires
        index < 7,
    ensures
        u.name@ == name@,
        dims_of(&u) == base_dimensions(index as int),
        u.aliases@.len() == 0,
        call_ensures(S::from, (1u8,), u.scale),
{
    let scale = S::from(1u8);
    DefinedUnit::new(String::from_str(name), base_dimension_vector(index), scale, Vec::new())
}

/// A registry of defined units, each found by its name.
pub struct UnitRegistry<S> {
    defined_units: Vec<Arc<DefinedUnit<S>>>,
}

impl<S> View for UnitRegistry<S> {
    type V = Map<Seq<char>, DefinedUnit<S>>;

    closed spec fn view(&self) -> Map<Seq<char>, DefinedUnit<S>> {
        stored_map(self.defined_units@)
    }
}

/// Searches the stored units for the one named `name`.
fn find_unit<S>(us: &Vec<Arc<DefinedUnit<S>>>, name: &String) -> (r: Option<usize>)
    ensures
        r matches Some(i) ==> i < us@.len() && unit_name(us@[i as int]) == name@,
        r is None ==> !stores_name(us@, name@),
{
    let mut i: usize = 0;
    while i < us.len()
        invariant
            i <= us@.len(),
            forall|p: int| 0 <= p < i ==> unit_name(#[trigger] us@[p]) != name@,
        decreases us.len() - i,
    {
        if us[i].name == *name {
            return Some(i);
        }
        i = i + 1;
    }
    None
}

impl<S> UnitRegistry<S> {
    #[verifier::type_invariant]
    spec fn inv(self) -> bool {
        distinct_unit_names(self.defined_units@)
    }

    /// A registry holding the given units; of several with the same name,
    /// the last is kept.
    pub fn new(defined_units: Vec<DefinedUnit<S>>) -> (r: UnitRegistry<S>)
        ensures
            r@ == definitions_map(defined_units@),
    {
        let mut rest = defined_units;
        let ghost all = rest@;
        let mut stored: Vec<Arc<DefinedUnit<S>>> = Vec::new();
        proof {
            assert(definitions_map(all).union_prefer_right(stored_map(stored@)) =~= definitions_map(all));
        }
        while rest.len() > 0
            invariant
                distinct_unit_names(stored@),
                definitions_map(rest@).union_prefer_right(stored_map(stored@)) == definitions_map(all),
            decreases rest.len(),
        {
            let ghost before = rest@;
            let u = rest.pop().unwrap();
            proof {
                assert(before.drop_last() =~= rest@);
                assert(before.last() == u);
                lemma_stored_map(stored@);
            }
            match find_unit(&stored, &u.name) {
                Some(_) => {
                    proof {
                        assert(definitions_map(before) == definitions_map(rest@).insert(u.name@, u));
                        assert(stored_map(stored@).contains_key(u.name@));
                        assert(definitions_map(rest@).union_prefer_right(stored_map(stored@))
                            =~= definitions_map(before).union_prefer_right(stored_map(stored@)));
                    }
                },
                None => {
                    let a = Arc::new(u);
                    proof {
                        lemma_stored_map_push(stored@, a);
                        assert forall|i: int, j: int|
                            0 <= i < stored@.push(a).len() && 0 <= j < stored@.push(a).len() && i != j implies unit_name(
                            #[trigger] stored@.push(a)[i]) != unit_name(#[trigger] stored@.push(a)[j]) by {
                            if i < stored@.len() && j < stored@.len() {
                                assert(stored@.push(a)[i] == stored@[i]);
                                assert(stored@.push(a)[j] == stored@[j]);
                            } else if i < stored@.len() {
                                assert(stored@.push(a)[i] == stored@[i]);
                            } else {
                                assert(stored@.push(a)[j] == stored@[j]);
                            }
                        }
                    }
                    let ghost old_stored = stored@;
                    stored.push(a);
                    proof {
                        assert(!stored_map(old_stored).contains_key(u.name@));
                        assert(definitions_map(before) == definitions_map(rest@).insert(u.name@, u));
                        assert(stored_map(stored@) == stored_map(old_stored).insert(u.name@, u));
                        assert(definitions_map(rest@).union_prefer_right(stored_map(stored@))
                            =~= definitions_map(before).union_prefer_right(stored_map(old_stored)));
                    }
                },
            }
        }
        proof {
            assert(definitions_map(rest@) =~= Map::empty());
            assert(definitions_map(all) =~= stored_map(stored@));
        }
        UnitRegistry { defined_units: stored }
    }

    /// The unit named `name`, if any.
    pub fn get(&self, name: &String) -> (r: Option<Arc<DefinedUnit<S>>>)
        ensures
            self@.contains_key(name@) ==> (r matches Some(u) && *u == self@[name@] && u.name@ == name@),
            !self@.contains_key(name@) ==> r is None,
    {
        proof {
            use_type_invariant(self);
            lemma_stored_map(self.defined_units@);
        }
        match find_unit(&self.defined_units, name) {
            Some(i) => Some(share(&self.defined_units[i])),
            None => None,
        }
    }

    /// Adds `unit`, replacing a unit of the same name.
    pub fn define_unit(&mut self, unit: DefinedUnit<S>)
        ensures
            final(self)@ == old(self)@.insert(unit.name@, unit),
    {
        proof {
            use_type_invariant(&*self);
            lemma_stored_map(self.defined_units@);
        }
        let ghost old_units = self.defined_units@;
        let ghost u = unit;
        match find_unit(&self.defined_units, &unit.name) {
            Some(i) => {
                let a = Arc::new(unit);
                let mut units: Vec<Arc<DefinedUnit<S>>> = Vec::new();
                std::mem::swap(&mut units, &mut self.defined_units);
                units.set(i, a);
                proof {
                    assert(units@ == old_units.update(i as int, a));
                    assert forall|p: int, q: int|
                        0 <= p < units@.len() && 0 <= q < units@.len() && p != q implies unit_name(
                        #[trigger] units@[p],
                    ) != unit_name(#[trigger] units@[q]) by {
                        if p != i {
                            assert(units@[p] == old_units[p]);
                        }
                        if q != i {
                            assert(units@[q] == old_units[q]);
                        }
                    }
                    lemma_stored_map(units@);
                    assert forall|k: Seq<char>| true implies (stores_name(units@, k) <==> stores_name(old_units, k)) by {
                        if stores_name(units@, k) {
                            let p = choose|p: int| 0 <= p < units@.len() && unit_name(#[trigger] units@[p]) == k;
                            if p != i {
                                assert(units@[p] == old_units[p]);
                            } else {
                                assert(unit_name(old_units[p]) == k);
                            }
                        }
                        if stores_name(old_units, k) {
                            let p = choose|p: int| 0 <= p < old_units.len() && unit_name(#[trigger] old_units[p]) == k;
                            if p != i {
                                assert(units@[p] == old_units[p]);
                            } else {
                                assert(unit_name(units@[p]) == k);
                            }
                        }
                    }
                    assert forall|k: Seq<char>| #[trigger] stored_map(units@).contains_key(k) implies stored_map(units@)[k]
                        == stored_map(old_units).insert(u.name@, u)[k] by {
                        let p = choose|p: int| 0 <= p < units@.len() && unit_name(#[trigger] units@[p]) == k;
                        assert(stored_map(units@)[unit_name(units@[p])] == *units@[p]);
                        if p != i {
                            assert(units@[p] == old_units[p]);
                            assert(stored_map(old_units)[unit_name(old_units[p])] == *old_units[p]);
                        }
                    }
                    assert(unit_name(old_units[i as int]) == u.name@);
                    assert(stores_name(old_units, u.name@));
                    assert forall|k: Seq<char>| true implies (#[trigger] stored_map(units@).contains_key(k)
                        == stored_map(old_units).insert(u.name@, u).contains_key(k)) by {
                        if k == u.name@ {
                            assert(stores_name(old_units, k));
                        }
                    }
                    assert(stored_map(units@) =~= stored_map(old_units).insert(u.name@, u));
                }
                self.defined_units = units;
            },
            None => {
                let a = Arc::new(unit);
                proof {
                    lemma_stored_map_push(old_units, a);
                    assert forall|p: int, q: int|
                        0 <= p < old_units.push(a).len() && 0 <= q < old_units.push(a).len() && p != q implies unit_name(
                        #[trigger] old_units.push(a)[p],
                    ) != unit_name(#[trigger] old_units.push(a)[q]) by {
                        if p < old_units.len() {
                            assert(old_units.push(a)[p] == old_units[p]);
                        }
                        if q < old_units.len() {
                            assert(old_units.push(a)[q] == old_units[q]);
                        }
                    }
                }
                let mut units: Vec<Arc<DefinedUnit<S>>> = Vec::new();
                std::mem::swap(&mut units, &mut self.defined_units);
                units.push(a);
                self.defined_units = units;
            },
        }
    }

    /// A registry of the seven SI base units (`kg`, `m`, `s`, `A`, `K`,
    /// `mol`, `cd`), each of scale `S::from(1)`, with no aliases.
    pub fn new_with_si() -> (r: UnitRegistry<S>)
        where
            S: From<u8>,
        ensures
            r@.dom() == si_names().to_set(),
            forall|i: int|
                0 <= i < 7 ==> {
                    let u = #[trigger] r@[si_names()[i]];
                    &&& dims_of(&u) == base_dimensions(i)
                    &&& u.aliases@.len() == 0
                    &&& call_ensures(S::from, (1u8,), u.scale)
                },
    {
        let units: Vec<DefinedUnit<S>> = vec![
            si_unit("kg", 1),
            si_unit("m", 0),
            si_unit("s", 2),
            si_unit("A", 3),
            si_unit("K", 4),
            si_unit("mol", 5),
            si_unit("cd", 6),
        ];
        let ghost us = units@;
        proof {
            reveal_strlit("kg");
            reveal_strlit("m");
            reveal_strlit("s");
            reveal_strlit("A");
            reveal_strlit("K");
            reveal_strlit("mol");
            reveal_strlit("cd");
            let m = definitions_map(us);
            assert(us.len() == 7);
            assert("m"@.len() == 1 && "kg"@.len() == 2 && "s"@.len() == 1 && "A"@.len() == 1);
            assert("K"@.len() == 1 && "mol"@.len() == 3 && "cd"@.len() == 2);
            assert("m"@[0] == 'm' && "kg"@[0] == 'k' && "s"@[0] == 's' && "A"@[0] == 'A');
            assert("K"@[0] == 'K' && "mol"@[0] == 'm' && "cd"@[0] == 'c');
            assert(forall|i: int, j: int|
                0 <= i < 7 && 0 <= j < 7 && i != j ==> si_names()[i] != si_names()[j]) by {
                assert forall|i: int, j: int| 0 <= i < 7 && 0 <= j < 7 && i != j implies si_names()[i]
                    != si_names()[j] by {
                    let a = si_names()[i];
                    let b = si_names()[j];
                    if a.len() == b.len() {
                        assert(a[0] != b[0]);
                    }
                }
            }
            assert(m == definitions_map(us.take(6)).insert(us[6].name@, us[6])) by {
                assert(us.drop_last() =~= us.take(6));
            }
            assert(definitions_map(us.take(6)) == definitions_map(us.take(5)).insert(us[5].name@, us[5])) by {
                assert(us.take(6).drop_last() =~= us.take(5));
            }
            assert(definitions_map(us.take(5)) == definitions_map(us.take(4)).insert(us[4].name@, us[4])) by {
                assert(us.take(5).drop_last() =~= us.take(4));
            }
            assert(definitions_map(us.take(4)) == definitions_map(us.take(3)).insert(us[3].name@, us[3])) by {
                assert(us.take(4).drop_last() =~= us.take(3));
            }
            assert(definitions_map(us.take(3)) == definitions_map(us.take(2)).insert(us[2].name@, us[2])) by {
                assert(us.take(3).drop_last() =~= us.take(2));
            }
            assert(definitions_map(us.take(2)) == definitions_map(us.take(1)).insert(us[1].name@, us[1])) by {
                assert(us.take(2).drop_last() =~= us.take(1));
            }
            assert(definitions_map(us.take(1)) == definitions_map(us.take(0)).insert(us[0].name@, us[0])) by {
                assert(us.take(1).drop_last() =~= us.take(0));
            }
            assert(definitions_map(us.take(0)) == Map::<Seq<char>, DefinedUnit<S>>::empty());
            assert(m.dom() =~= si_names().to_set()) by {
                assert forall|k: Seq<char>| si_names().to_set().contains(k) implies m.contains_key(k) by {
                    let i = choose|i: int| 0 <= i < si_names().len() && si_names()[i] == k;
                }
            }
            assert(m[si_names()[0]] == us[1]);
            assert(m[si_names()[1]] == us[0]);
            assert(m[si_names()[2]] == us[2]);
            assert(m[si_names()[3]] == us[3]);
            assert(m[si_names()[4]] == us[4]);
            assert(m[si_names()[5]] == us[5]);
            assert(m[si_names()[6]] == us[6]);
        }
        UnitRegistry::new(units)
    }

    /// Parses `string` as a unit expression over this registry's units.
    pub fn parse_string(&self, string: String) -> (r: Result<Unit<S>, ParserError>)
        requires
            !(spec_tokenize(string@) is MalformedNumber),
        ensures
            match spec_parse(self@, string@) {
                Ok(u) => r matches Ok(unit) && unit@ == u,
                Err(k) => r matches Err(e) && error_kind(e) == k,
            },
    {
        parse(self, string.as_str())
    }

    /// Parses `string` as `parse_string` does; `None` where the string holds
    /// a number that is not a decimal literal (such as `1.2.3`), which
    /// `parse_string` does not accept.
    pub fn try_parse_string(&self, string: String) -> (r: Option<Result<Unit<S>, ParserError>>)
        ensures
            r is None <==> spec_tokenize(string@) is MalformedNumber,
            r matches Some(res) ==> match spec_parse(self@, string@) {
                Ok(u) => res matches Ok(unit) && unit@ == u,
                Err(k) => res matches Err(e) && error_kind(e) == k,
            },
    {
        if has_malformed_number(string.as_str()) {
            None
        } else {
            Some(self.parse_string(string))
        }
    }
}

/// What a lookup gives back after a definition: after `define_unit(unit)`
/// (which makes `after` out of `before`), the unit's name finds `unit`, and
/// every other name finds what it found before.
pub proof fn law_get_after_define<S>(
    before: Map<Seq<char>, DefinedUnit<S>>,
    after: Map<Seq<char>, DefinedUnit<S>>,
    unit: DefinedUnit<S>,
)
    requires
        after == before.insert(unit.name@, unit),
    ensures
        after.contains_key(unit.name@),
        after[unit.name@] == unit,
        forall|k: Seq<char>|
            k != unit.name@ ==> (#[trigger] after.contains_key(k) == before.contains_key(k)) && (
            before.contains_key(k) ==> after[k] == before[k]),
{
}

/// A run over characters that are all of class `k` reaches the end.
proof fn lemma_run_to_end(s: Seq<char>, i: int, k: CharClass)
    requires
        0 <= i <= s.len(),
        forall|j: int| i <= j < s.len() ==> #[trigger] crate::tokenizer::in_class(k, s[j]),
    ensures
        run_end(s, i, k) == s.len(),
    decreases s.len() - i,
{
    if i < s.len() {
        lemma_run_to_end(s, i + 1, k);
    }
}

/// Reading a definition back through the parser: after `define_unit(unit)`
/// (which makes `after` out of `before`), parsing the unit's name gives that
/// unit to the power one, when the name is an identifier (an ASCII letter,
/// then alphanumeric characters or `_`).
pub proof fn law_parse_name_after_define<S>(
    before: Map<Seq<char>, DefinedUnit<S>>,
    after: Map<Seq<char>, DefinedUnit<S>>,
    unit: DefinedUnit<S>,
)
    requires
        after == before.insert(unit.name@, unit),
        unit.name@.len() > 0,
        is_ascii_letter(unit.name@[0]),
        forall|i: int| 1 <= i < unit.name@.len() ==> #[trigger] is_ident_char(unit.name@[i]),
    ensures
        spec_parse(after, unit.name@) == Ok::<_, ParseErrorKind>(
            Map::<Seq<char>, (DefinedUnit<S>, (int, int))>::empty().insert(unit.name@, (unit, (1int, 1int))),
        ),
{
    let s = unit.name@;
    assert forall|j: int| 1 <= j < s.len() implies #[trigger] crate::tokenizer::in_class(
        CharClass::IdentChar,
        s[j],
    ) by {
        assert(is_ident_char(s[j]));
    }
    lemma_run_to_end(s, 1, CharClass::IdentChar);
    assert(s.subrange(0, s.len() as int) =~= s);
    let toks = Seq::<TokenView>::empty().push(TokenView::Identifier(s));
    assert(lex(s, s.len() as int, toks) == crate::tokenizer::LexOutcome::Tokens(toks));
    assert(spec_tokenize(s) == crate::tokenizer::LexOutcome::Tokens(toks));
    assert(after.contains_key(s));
    assert(crate::parser::parse_loop(after, toks, 1, crate::parser::single_unit(after, s), 0) == Ok::<
        _,
        ParseErrorKind,
    >((crate::parser::single_unit(after, s), 1int)));
}

} // verus!
