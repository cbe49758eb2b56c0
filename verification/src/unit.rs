//! Defined units and compound units (products of powers of defined units).
use vstd::prelude::*;
use std::sync::Arc;
use crate::rational::{
    Rational, fits, rat_add, rat_sub, rat_neg, rat_mul, rat_zero, is_reduced, norm, gcd, abs,
    same_value, lemma_norm, lemma_reduced_unique, lemma_norm_of_reduced,
};
use crate::dimension_sum::{
    exact_dim, positive_dims, same_definitions, lemma_dims_upto_exact, law_exact_dimensions_of_combine,
};

verus! {

/// A named unit with its dimensions (exponents of the base dimensions:
/// length, mass, time, electric current, temperature, amount of substance,
/// luminous intensity) and its scale relative to the base units. The scale
/// is carried, never computed with, by this library.
#[derive(Debug)]
pub struct DefinedUnit<S> {
    pub name: String,
    pub dimensions: [Rational; 7],
    pub scale: S,
    pub aliases: Vec<String>,
}

impl<S> DefinedUnit<S> {
    pub fn new(name: String, dimensions: [Rational; 7], scale: S, aliases: Vec<String>) -> (d:
        DefinedUnit<S>)
        ensures
            d.name == name,
            d.dimensions == dimensions,
            d.scale == scale,
            d.aliases == aliases,
    {
        DefinedUnit { name, dimensions, scale, aliases }
    }

    pub fn aliases(&self) -> (a: &Vec<String>)
        ensures
            *a == self.aliases,
    {
        &self.aliases
    }
}

/// Two units that were to be added, subtracted or converted into each other
/// do not have the same dimensions; the units as written.
#[derive(Debug, Clone)]
pub struct IncompatibleUnitsError {
    pub lhs: String,
    pub rhs: String,
}

impl IncompatibleUnitsError {
    /// The message of this error.
    pub fn message(&self) -> (s: String)
        ensures
            s@ == "cannot add/subtract incompatible units: "@ + self.lhs@ + " and "@ + self.rhs@,
    {
        String::from_str("cannot add/subtract incompatible units: ").concat(self.lhs.as_str()).concat(
            " and ",
        ).concat(self.rhs.as_str())
    }
}

/// A component of a compound unit: a defined unit and its exponent.
pub type Component<S> = (Arc<DefinedUnit<S>>, Rational);

/// The mathematical content of a compound unit: for each unit name, the
/// defined unit and its exponent.
pub type UnitMap<S> = Map<Seq<char>, (DefinedUnit<S>, (int, int))>;

pub open spec fn comp_name<S>(c: Component<S>) -> Seq<char> {
    c.0.name@
}

pub open spec fn distinct_names<S>(cs: Seq<Component<S>>) -> bool {
    forall|i: int, j: int|
        0 <= i < cs.len() && 0 <= j < cs.len() && i != j ==> comp_name(#[trigger] cs[i]) != comp_name(
            #[trigger] cs[j],
        )
}

/// Every exponent is a reduced fraction that fits a `Rational`.
pub open spec fn exponents_wf_seq<S>(cs: Seq<Component<S>>) -> bool {
    forall|i: int| 0 <= i < cs.len() ==> is_reduced((#[trigger] cs[i]).1@) && fits(cs[i].1@)
}

/// Every exponent of the map is a reduced fraction that fits a `Rational`.
pub open spec fn exponents_wf<S>(m: UnitMap<S>) -> bool {
    forall|k: Seq<char>| #[trigger] m.contains_key(k) ==> is_reduced(m[k].1) && fits(m[k].1)
}

pub open spec fn has_name<S>(cs: Seq<Component<S>>, k: Seq<char>) -> bool {
    exists|i: int| 0 <= i < cs.len() && comp_name(#[trigger] cs[i]) == k
}

/// The map that a sequence of components stands for.
pub open spec fn comps_map<S>(cs: Seq<Component<S>>) -> UnitMap<S>
    decreases cs.len(),
{
    if cs.len() == 0 {
        Map::empty()
    } else {
        comps_map(cs.drop_last()).insert(comp_name(cs.last()), (*cs.last().0, cs.last().1@))
    }
}

/// The exponents of a unit map.
pub open spec fn exponents<S>(m: UnitMap<S>) -> Map<Seq<char>, (int, int)> {
    m.map_values(|v: (DefinedUnit<S>, (int, int))| v.1)
}

/// The exponent of `k` in the product (`sub == false`) or quotient
/// (`sub == true`) of `a` and `b`.
pub open spec fn merged_exponent<S>(a: UnitMap<S>, b: UnitMap<S>, k: Seq<char>, sub: bool) -> (
    int,
    int,
) {
    if a.contains_key(k) && b.contains_key(k) {
        if sub {
            rat_sub(a[k].1, b[k].1)
        } else {
            rat_add(a[k].1, b[k].1)
        }
    } else if a.contains_key(k) {
        a[k].1
    } else if sub {
        rat_neg(b[k].1)
    } else {
        b[k].1
    }
}

/// The product or quotient of two units: exponents are added (subtracted),
/// the defined unit of the left operand is kept for a name in both, and
/// names whose exponent comes to zero are dropped.
pub open spec fn spec_combine<S>(a: UnitMap<S>, b: UnitMap<S>, sub: bool) -> UnitMap<S> {
    Map::new(
        |k: Seq<char>| (a.contains_key(k) || b.contains_key(k)) && merged_exponent(a, b, k, sub).0 != 0,
        |k: Seq<char>|
            (
                if a.contains_key(k) {
                    a[k].0
                } else {
                    b[k].0
                },
                merged_exponent(a, b, k, sub),
            ),
    )
}

pub open spec fn spec_mul<S>(a: UnitMap<S>, b: UnitMap<S>) -> UnitMap<S> {
    spec_combine(a, b, false)
}

pub open spec fn spec_div<S>(a: UnitMap<S>, b: UnitMap<S>) -> UnitMap<S> {
    spec_combine(a, b, true)
}

/// Every exponent multiplied by `p` (zero exponents are kept).
pub open spec fn spec_pow<S>(a: UnitMap<S>, p: (int, int)) -> UnitMap<S> {
    a.map_values(|v: (DefinedUnit<S>, (int, int))| (v.0, rat_mul(v.1, p)))
}

/// The unit map with zero exponents removed.
pub open spec fn drop_zeros<S>(m: UnitMap<S>) -> UnitMap<S> {
    Map::new(|k: Seq<char>| m.contains_key(k) && m[k].1.0 != 0, |k: Seq<char>| m[k])
}

pub proof fn lemma_comps_map<S>(cs: Seq<Component<S>>)
    requires
        distinct_names(cs),
    ensures
        forall|k: Seq<char>| #[trigger] comps_map(cs).contains_key(k) <==> has_name(cs, k),
        forall|i: int|
            0 <= i < cs.len() ==> #[trigger] comps_map(cs)[comp_name(cs[i])] == (*cs[i].0, cs[i].1@),
        comps_map(cs).dom().finite(),
    decreases cs.len(),
{
    if cs.len() > 0 {
        let init = cs.drop_last();
        assert(distinct_names(init)) by {
            assert forall|i: int, j: int|
                0 <= i < init.len() && 0 <= j < init.len() && i != j implies comp_name(
                #[trigger] init[i],
            ) != comp_name(#[trigger] init[j]) by {
                assert(init[i] == cs[i] && init[j] == cs[j]);
            }
        }
        lemma_comps_map(init);
        let n = cs.len() - 1;
        assert forall|k: Seq<char>| #[trigger] comps_map(cs).contains_key(k) <==> has_name(cs, k) by {
            if has_name(cs, k) {
                let i = choose|i: int| 0 <= i < cs.len() && comp_name(#[trigger] cs[i]) == k;
                if i < n {
                    assert(init[i] == cs[i]);
                    assert(has_name(init, k));
                }
            }
            if has_name(init, k) {
                let i = choose|i: int| 0 <= i < init.len() && comp_name(#[trigger] init[i]) == k;
                assert(cs[i] == init[i]);
            }
        }
        assert forall|i: int| 0 <= i < cs.len() implies #[trigger] comps_map(cs)[comp_name(cs[i])] == (*cs[i].0, cs[i].1@) by {
            if i < n {
                assert(init[i] == cs[i]);
                assert(comp_name(cs[i]) != comp_name(cs[n]));
            }
        }
    }
}

pub proof fn lemma_comps_map_len<S>(cs: Seq<Component<S>>)
    requires
        distinct_names(cs),
    ensures
        comps_map(cs).len() == cs.len(),
    decreases cs.len(),
{
    if cs.len() > 0 {
        let init = cs.drop_last();
        assert(distinct_names(init)) by {
            assert forall|i: int, j: int|
                0 <= i < init.len() && 0 <= j < init.len() && i != j implies comp_name(
                #[trigger] init[i],
            ) != comp_name(#[trigger] init[j]) by {
                assert(init[i] == cs[i] && init[j] == cs[j]);
            }
        }
        lemma_comps_map_len(init);
        lemma_comps_map(init);
        if has_name(init, comp_name(cs.last())) {
            let p = choose|p: int| 0 <= p < init.len() && comp_name(#[trigger] init[p]) == comp_name(cs.last());
            assert(init[p] == cs[p]);
        }
    }
}

pub proof fn lemma_comps_map_push<S>(cs: Seq<Component<S>>, c: Component<S>)
    ensures
        comps_map(cs.push(c)) == comps_map(cs).insert(comp_name(c), (*c.0, c.1@)),
{
    assert(cs.push(c).drop_last() =~= cs);
}

pub proof fn lemma_has_name_take<S>(cs: Seq<Component<S>>, i: int, k: Seq<char>)
    requires
        0 <= i < cs.len(),
    ensures
        has_name(cs.take(i + 1), k) <==> (has_name(cs.take(i), k) || k == comp_name(cs[i])),
{
    if has_name(cs.take(i + 1), k) {
        let p = choose|p: int| 0 <= p < i + 1 && comp_name(#[trigger] cs.take(i + 1)[p]) == k;
        if p < i {
            assert(cs.take(i)[p] == cs.take(i + 1)[p]);
        }
    }
    if has_name(cs.take(i), k) {
        let p = choose|p: int| 0 <= p < i && comp_name(#[trigger] cs.take(i)[p]) == k;
        assert(cs.take(i + 1)[p] == cs.take(i)[p]);
    }
    if k == comp_name(cs[i]) {
        assert(cs.take(i + 1)[i] == cs[i]);
    }
}

pub proof fn lemma_has_name_full<S>(cs: Seq<Component<S>>, k: Seq<char>)
    ensures
        has_name(cs.take(cs.len() as int), k) <==> has_name(cs, k),
{
    assert(cs.take(cs.len() as int) =~= cs);
}

/// Pushing a component whose name is new extends the map by that name.
pub proof fn lemma_push_fresh<S>(out: Seq<Component<S>>, c: Component<S>)
    requires
        distinct_names(out),
        !comps_map(out).contains_key(comp_name(c)),
    ensures
        distinct_names(out.push(c)),
        comps_map(out.push(c)) == comps_map(out).insert(comp_name(c), (*c.0, c.1@)),
{
    lemma_comps_map(out);
    lemma_comps_map_push(out, c);
    let o2 = out.push(c);
    assert forall|x: int, y: int|
        0 <= x < o2.len() && 0 <= y < o2.len() && x != y implies comp_name(#[trigger] o2[x])
        != comp_name(#[trigger] o2[y]) by {
        if x < out.len() && y < out.len() {
            assert(o2[x] == out[x] && o2[y] == out[y]);
        } else if x < out.len() {
            assert(o2[x] == out[x]);
            assert(has_name(out, comp_name(out[x])));
        } else {
            assert(o2[y] == out[y]);
            assert(has_name(out, comp_name(out[y])));
        }
    }
}

/// Unit map of the first `i` components of `a` in a product or quotient.
pub open spec fn combine_first<S>(
    acs: Seq<Component<S>>,
    a: UnitMap<S>,
    b: UnitMap<S>,
    i: int,
    sub: bool,
) -> UnitMap<S> {
    Map::new(
        |k: Seq<char>| has_name(acs.take(i), k) && merged_exponent(a, b, k, sub).0 != 0,
        |k: Seq<char>| (a[k].0, merged_exponent(a, b, k, sub)),
    )
}

/// Unit map of all of `a` and the first `j` components of `b`.
pub open spec fn combine_second<S>(
    a: UnitMap<S>,
    bcs: Seq<Component<S>>,
    b: UnitMap<S>,
    j: int,
    sub: bool,
) -> UnitMap<S> {
    Map::new(
        |k: Seq<char>|
            (a.contains_key(k) || has_name(bcs.take(j), k)) && merged_exponent(a, b, k, sub).0 != 0,
        |k: Seq<char>|
            (
                if a.contains_key(k) {
                    a[k].0
                } else {
                    b[k].0
                },
                merged_exponent(a, b, k, sub),
            ),
    )
}

/// The dimensions of a defined unit, as fractions.
pub open spec fn dims_of<S>(d: &DefinedUnit<S>) -> Seq<(int, int)> {
    d.dimensions@.map_values(|r: Rational| r@)
}

pub open spec fn zero_dims() -> Seq<(int, int)> {
    Seq::new(7, |i: int| rat_zero())
}

/// `acc + e * d`, dimension by dimension.
pub open spec fn add_scaled(acc: Seq<(int, int)>, d: Seq<(int, int)>, e: (int, int)) -> Seq<(int, int)> {
    Seq::new(7, |i: int| rat_add(acc[i], rat_mul(d[i], e)))
}

/// The dimensions of the first `n` components, summed in order.
pub open spec fn dims_upto<S>(cs: Seq<Component<S>>, n: int) -> Seq<(int, int)>
    decreases n,
{
    if n <= 0 {
        zero_dims()
    } else {
        add_scaled(dims_upto(cs, n - 1), dims_of(&*cs[n - 1].0), cs[n - 1].1@)
    }
}

/// Unit map of the first `i` components raised to the power `p`.
pub open spec fn pow_first<S>(acs: Seq<Component<S>>, a: UnitMap<S>, i: int, p: (int, int)) -> UnitMap<S> {
    Map::new(|k: Seq<char>| has_name(acs.take(i), k), |k: Seq<char>| (a[k].0, rat_mul(a[k].1, p)))
}

/// Calls `Arc::clone`, which makes another pointer to the same allocation:
/// the value pointed to is the same.
#[verifier::external_body]
pub(crate) fn share<T>(a: &Arc<T>) -> (r: Arc<T>)
    ensures
        r == *a,
{
    Arc::clone(a)
}

/// A compound unit: distinct defined units, each with a rational exponent.
#[derive(Debug)]
pub struct Unit<S> {
    components: Vec<Component<S>>,
}

impl<S> View for Unit<S> {
    type V = UnitMap<S>;

    closed spec fn view(&self) -> UnitMap<S> {
        comps_map(self.components@)
    }
}

/// Two components with the same defined unit and the same exponent.
pub open spec fn same_comp<S>(x: Component<S>, y: Component<S>) -> bool {
    x.0 == y.0 && x.1@ == y.1@
}

/// Component sequences that agree place by place stand for the same map.
pub proof fn lemma_comps_map_same<S>(x: Seq<Component<S>>, y: Seq<Component<S>>)
    requires
        x.len() == y.len(),
        forall|i: int| 0 <= i < x.len() ==> same_comp(#[trigger] x[i], y[i]),
    ensures
        comps_map(x) == comps_map(y),
    decreases x.len(),
{
    if x.len() > 0 {
        assert forall|i: int| 0 <= i < x.drop_last().len() implies same_comp(
            #[trigger] x.drop_last()[i],
            y.drop_last()[i],
        ) by {
            assert(x.drop_last()[i] == x[i] && y.drop_last()[i] == y[i]);
        }
        lemma_comps_map_same(x.drop_last(), y.drop_last());
        assert(same_comp(x.last(), y.last()));
    }
}

impl<S> Clone for Unit<S> {
    /// The same components, each sharing its defined unit.
    fn clone(&self) -> (r: Unit<S>)
        ensures
            r@ == self@,
    {
        proof {
            use_type_invariant(self);
        }
        let mut out: Vec<Component<S>> = Vec::new();
        let mut i: usize = 0;
        while i < self.components.len()
            invariant
                i <= self.comps().len(),
                out@.len() == i,
                forall|q: int| 0 <= q < i ==> same_comp(#[trigger] out@[q], self.comps()[q]),
                distinct_names(self.comps()),
                exponents_wf_seq(self.comps()),
            decreases self.comps().len() - i,
        {
            let c = &self.components[i];
            let e = c.1.copy();
            out.push((share(&c.0), e));
            i = i + 1;
        }
        proof {
            lemma_comps_map_same(out@, self.comps());
            assert forall|x: int, y: int|
                0 <= x < out@.len() && 0 <= y < out@.len() && x != y implies comp_name(#[trigger] out@[x])
                != comp_name(#[trigger] out@[y]) by {
                assert(same_comp(out@[x], self.comps()[x]) && same_comp(out@[y], self.comps()[y]));
            }
            assert forall|q: int| 0 <= q < out@.len() implies is_reduced((#[trigger] out@[q]).1@) && fits(
                out@[q].1@,
            ) by {
                assert(same_comp(out@[q], self.comps()[q]));
            }
        }
        Unit { components: out }
    }
}

/// Searches `cs` for the component named `name`.
fn find_component<S>(cs: &Vec<Component<S>>, name: &String) -> (r: Option<usize>)
    ensures
        r matches Some(i) ==> i < cs@.len() && comp_name(cs@[i as int]) == name@,
        r is None ==> !has_name(cs@, name@),
{
    let mut i: usize = 0;
    while i < cs.len()
        invariant
            i <= cs@.len(),
            forall|p: int| 0 <= p < i ==> comp_name(#[trigger] cs@[p]) != name@,
        decreases cs.len() - i,
    {
        if cs[i].0.name == *name {
            return Some(i);
        }
        i = i + 1;
    }
    None
}

impl<S> Unit<S> {
    #[verifier::type_invariant]
    spec fn inv(self) -> bool {
        &&& distinct_names(self.components@)
        &&& exponents_wf_seq(self.components@)
    }

    /// The components are distinct by name and stand for the unit's map.
    pub fn facts(&self)
        ensures
            distinct_names(self.comps()),
            self@ == comps_map(self.comps()),
            forall|k: Seq<char>| #[trigger] self@.contains_key(k) <==> has_name(self.comps(), k),
            forall|i: int|
                0 <= i < self.comps().len() ==> #[trigger] self@[comp_name(self.comps()[i])] == (*self.comps()[i].0, self.comps()[i].1@),
            self@.dom().finite(),
            exponents_wf_seq(self.comps()),
            exponents_wf(self@),
    {
        proof {
            use_type_invariant(self);
            lemma_comps_map(self.components@);
            assert forall|k: Seq<char>| #[trigger] self@.contains_key(k) implies is_reduced(self@[k].1) && fits(self@[k].1) by {
                let i = choose|i: int| 0 <= i < self.components@.len() && comp_name(#[trigger] self.components@[i]) == k;
                assert(self@[comp_name(self.components@[i])] == (*self.components@[i].0, self.components@[i].1@));
            }
        }
    }

    /// Every dimension of every defined unit of this unit has a positive
    /// denominator (each is a `Rational`).
    pub fn dimension_facts(&self)
        ensures
            positive_dims(self@),
    {
        self.facts();
        let ghost cs = self.comps();
        let mut j: usize = 0;
        while j < self.components.len()
            invariant
                cs == self.comps(),
                j <= cs.len(),
                forall|p: int, i: int|
                    0 <= p < j && 0 <= i < 7 ==> (#[trigger] dims_of(&*cs[p].0)[i]).1 > 0,
            decreases cs.len() - j,
        {
            let mut i: usize = 0;
            while i < 7
                invariant
                    cs == self.comps(),
                    j < cs.len(),
                    i <= 7,
                    forall|p: int, q: int|
                        0 <= p < j && 0 <= q < 7 ==> (#[trigger] dims_of(&*cs[p].0)[q]).1 > 0,
                    forall|q: int| 0 <= q < i ==> (#[trigger] dims_of(&*cs[j as int].0)[q]).1 > 0,
                decreases 7 - i,
            {
                self.components[j].0.dimensions[i].wf_facts();
                i = i + 1;
            }
            j = j + 1;
        }
        proof {
            assert forall|k: Seq<char>, i: int| self@.contains_key(k) && 0 <= i < 7 implies (
            #[trigger] dims_of(&self@[k].0)[i]).1 > 0 by {
                let p = choose|p: int| 0 <= p < cs.len() && comp_name(#[trigger] cs[p]) == k;
                assert(self@[comp_name(cs[p])] == (*cs[p].0, cs[p].1@));
            }
        }
    }

    /// The number of components.
    pub fn len(&self) -> (n: usize)
        ensures
            n == self@.len(),
    {
        proof {
            use_type_invariant(self);
            lemma_comps_map(self.components@);
            lemma_comps_map_len(self.components@);
        }
        self.components.len()
    }

    /// Whether the unit has no component (is dimensionless and unscaled).
    pub fn is_empty(&self) -> (b: bool)
        ensures
            b == (self@ == Map::<Seq<char>, (DefinedUnit<S>, (int, int))>::empty()),
    {
        proof {
            use_type_invariant(self);
            lemma_comps_map(self.components@);
            if self.components@.len() > 0 {
                assert(self@.contains_key(comp_name(self.components@[0])));
            } else {
                assert(self@ =~= Map::empty());
            }
        }
        self.components.len() == 0
    }

    /// The components, in their stored order.
    pub fn components(&self) -> (c: &Vec<Component<S>>)
        ensures
            c@ == self.comps(),
    {
        &self.components
    }

    /// The exponent of the defined unit named `unit_name`, if it is a
    /// component.
    pub fn get_exponent(&self, unit_name: &String) -> (r: Option<Rational>)
        ensures
            self@.contains_key(unit_name@) ==> (r matches Some(e) && e@ == self@[unit_name@].1),
            !self@.contains_key(unit_name@) ==> r is None,
    {
        self.facts();
        match find_component(&self.components, unit_name) {
            Some(i) => Some(self.components[i].1.copy()),
            None => None,
        }
    }

    /// The product (`sub == false`) or quotient (`sub == true`).
    fn combine(&self, other: &Unit<S>, sub: bool) -> (r: Unit<S>)
        ensures
            r@ == spec_combine(self@, other@, sub),
    {
        self.facts();
        other.facts();
        let ghost a = self@;
        let ghost b = other@;
        let ghost acs = self.comps();
        let ghost bcs = other.comps();
        let mut out: Vec<Component<S>> = Vec::new();
        proof {
            assert(comps_map(out@) =~= combine_first(acs, a, b, 0, sub));
        }
        let mut i: usize = 0;
        while i < self.components.len()
            invariant
                i <= acs.len(),
                acs == self.comps(),
                bcs == other.comps(),
                a == self@,
                b == other@,
                distinct_names(acs),
                distinct_names(bcs),
                forall|k: Seq<char>| #[trigger] a.contains_key(k) <==> has_name(acs, k),
                forall|p: int| 0 <= p < acs.len() ==> #[trigger] a[comp_name(acs[p])] == (*acs[p].0, acs[p].1@),
                forall|k: Seq<char>| #[trigger] b.contains_key(k) <==> has_name(bcs, k),
                forall|p: int| 0 <= p < bcs.len() ==> #[trigger] b[comp_name(bcs[p])] == (*bcs[p].0, bcs[p].1@),
                distinct_names(out@),
                exponents_wf_seq(out@),
                comps_map(out@) == combine_first(acs, a, b, i as int, sub),
                forall|k: Seq<char>|
                    has_name(acs.take(i as int), k) ==> fits(#[trigger] merged_exponent(a, b, k, sub)),
            decreases acs.len() - i,
        {
            let c = &self.components[i];
            let ghost k = comp_name(acs[i as int]);
            assert(a[k] == (*c.0, c.1@));
            let v = match find_component(&other.components, &c.0.name) {
                Some(j) => {
                    let f = &other.components[j];
                    assert(b.contains_key(k));
                    assert(b[k] == (*f.0, f.1@));
                    if sub {
                        c.1.sub(&f.1)
                    } else {
                        c.1.add(&f.1)
                    }
                },
                None => {
                    assert(!b.contains_key(k));
                    c.1.copy()
                },
            };
            v.wf_facts();
            proof {
                assert(v@ == merged_exponent(a, b, k, sub));
                assert forall|k2: Seq<char>| has_name(acs.take(i + 1), k2) implies fits(
                    #[trigger] merged_exponent(a, b, k2, sub),
                ) by {
                    lemma_has_name_take(acs, i as int, k2);
                }
                // k is new among the first i names
                if has_name(acs.take(i as int), k) {
                    let p = choose|p: int| 0 <= p < i && comp_name(#[trigger] acs.take(i as int)[p]) == k;
                    assert(acs.take(i as int)[p] == acs[p]);
                }
            }
            if !v.is_zero() {
                let d = share(&c.0);
                proof {
                    lemma_push_fresh(out@, (d, v));
                }
                let ghost before_push = out@;
                v.wf_facts();
                out.push((d, v));
                proof {
                    assert forall|q: int| 0 <= q < out@.len() implies is_reduced((#[trigger] out@[q]).1@) && fits(out@[q].1@) by {
                        if q < before_push.len() {
                            assert(out@[q] == before_push[q]);
                        }
                    }
                }
                proof {
                    assert forall|k2: Seq<char>| true implies (#[trigger] comps_map(out@).contains_key(k2)
                        == combine_first(acs, a, b, i + 1, sub).contains_key(k2)) by {
                        lemma_has_name_take(acs, i as int, k2);
                    }
                    assert(comps_map(out@) =~= combine_first(acs, a, b, i + 1, sub));
                }
            } else {
                proof {
                    assert forall|k2: Seq<char>| true implies (#[trigger] comps_map(out@).contains_key(k2)
                        == combine_first(acs, a, b, i + 1, sub).contains_key(k2)) by {
                        lemma_has_name_take(acs, i as int, k2);
                    }
                    assert(comps_map(out@) =~= combine_first(acs, a, b, i + 1, sub));
                }
            }
            i = i + 1;
        }
        proof {
            assert forall|k: Seq<char>| true implies (#[trigger] combine_first(acs, a, b, acs.len() as int, sub).contains_key(k)
                == combine_second(a, bcs, b, 0, sub).contains_key(k)) by {
                lemma_has_name_full(acs, k);
                assert(!has_name(bcs.take(0), k));
            }
            assert(combine_first(acs, a, b, acs.len() as int, sub) =~= combine_second(a, bcs, b, 0, sub));
            assert forall|k: Seq<char>| a.contains_key(k) implies fits(#[trigger] merged_exponent(a, b, k, sub)) by {
                lemma_has_name_full(acs, k);
            }
        }
        let mut j: usize = 0;
        while j < other.components.len()
            invariant
                j <= bcs.len(),
                acs == self.comps(),
                bcs == other.comps(),
                a == self@,
                b == other@,
                distinct_names(bcs),
                forall|k: Seq<char>| #[trigger] a.contains_key(k) <==> has_name(acs, k),
                forall|k: Seq<char>| #[trigger] b.contains_key(k) <==> has_name(bcs, k),
                forall|p: int| 0 <= p < bcs.len() ==> #[trigger] b[comp_name(bcs[p])] == (*bcs[p].0, bcs[p].1@),
                distinct_names(out@),
                exponents_wf_seq(out@),
                comps_map(out@) == combine_second(a, bcs, b, j as int, sub),
                forall|k: Seq<char>| a.contains_key(k) ==> fits(#[trigger] merged_exponent(a, b, k, sub)),
                forall|k: Seq<char>|
                    has_name(bcs.take(j as int), k) ==> fits(#[trigger] merged_exponent(a, b, k, sub)),
            decreases bcs.len() - j,
        {
            let c = &other.components[j];
            let ghost k = comp_name(bcs[j as int]);
            assert(b[k] == (*c.0, c.1@));
            let found = find_component(&self.components, &c.0.name);
            proof {
                if has_name(bcs.take(j as int), k) {
                    let p = choose|p: int| 0 <= p < j && comp_name(#[trigger] bcs.take(j as int)[p]) == k;
                    assert(bcs.take(j as int)[p] == bcs[p]);
                }
                assert forall|k2: Seq<char>| true implies (has_name(bcs.take(j + 1), k2) <==> (has_name(
                    bcs.take(j as int),
                    k2,
                ) || k2 == k)) by {
                    lemma_has_name_take(bcs, j as int, k2);
                }
            }
            if found.is_none() {
                assert(!a.contains_key(k));
                let v = if sub {
                    c.1.neg()
                } else {
                    c.1.copy()
                };
                v.wf_facts();
                proof {
                    assert(v@ == merged_exponent(a, b, k, sub));
                }
                if !v.is_zero() {
                    let d = share(&c.0);
                    proof {
                        lemma_push_fresh(out@, (d, v));
                    }
                    let ghost before_push = out@;
                v.wf_facts();
                out.push((d, v));
                proof {
                    assert forall|q: int| 0 <= q < out@.len() implies is_reduced((#[trigger] out@[q]).1@) && fits(out@[q].1@) by {
                        if q < before_push.len() {
                            assert(out@[q] == before_push[q]);
                        }
                    }
                }
                }
                proof {
                    assert(comps_map(out@) =~= combine_second(a, bcs, b, j + 1, sub));
                }
            } else {
                proof {
                    assert(a.contains_key(k));
                    assert(comps_map(out@) =~= combine_second(a, bcs, b, j + 1, sub));
                }
            }
            j = j + 1;
        }
        proof {
            assert forall|k: Seq<char>| true implies (#[trigger] combine_second(a, bcs, b, bcs.len() as int, sub).contains_key(k)
                == spec_combine(a, b, sub).contains_key(k)) by {
                lemma_has_name_full(bcs, k);
            }
            assert(combine_second(a, bcs, b, bcs.len() as int, sub) =~= spec_combine(a, b, sub));
            assert forall|k: Seq<char>| (a.contains_key(k) || b.contains_key(k)) implies fits(
                #[trigger] merged_exponent(a, b, k, sub),
            ) by {
                lemma_has_name_full(bcs, k);
            }
        }
        Unit { components: out }
    }

    /// Every exponent multiplied by `power` (components whose exponent
    /// becomes zero are kept).
    pub fn pow(&self, power: Rational) -> (r: Unit<S>)
        ensures
            r@ == spec_pow(self@, power@),
    {
        self.facts();
        let ghost a = self@;
        let ghost acs = self.comps();
        let mut out: Vec<Component<S>> = Vec::new();
        proof {
            assert(comps_map(out@) =~= pow_first(acs, a, 0, power@));
        }
        let mut i: usize = 0;
        while i < self.components.len()
            invariant
                i <= acs.len(),
                acs == self.comps(),
                a == self@,
                distinct_names(acs),
                forall|k: Seq<char>| #[trigger] a.contains_key(k) <==> has_name(acs, k),
                forall|p: int| 0 <= p < acs.len() ==> #[trigger] a[comp_name(acs[p])] == (*acs[p].0, acs[p].1@),
                distinct_names(out@),
                exponents_wf_seq(out@),
                comps_map(out@) == pow_first(acs, a, i as int, power@),
                forall|k: Seq<char>|
                    has_name(acs.take(i as int), k) ==> fits(#[trigger] rat_mul(a[k].1, power@)),
            decreases acs.len() - i,
        {
            let c = &self.components[i];
            let ghost k = comp_name(acs[i as int]);
            assert(a[k] == (*c.0, c.1@));
            let v = c.1.mul(&power);
            v.wf_facts();
            proof {
                if has_name(acs.take(i as int), k) {
                    let p = choose|p: int| 0 <= p < i && comp_name(#[trigger] acs.take(i as int)[p]) == k;
                    assert(acs.take(i as int)[p] == acs[p]);
                }
                assert forall|k2: Seq<char>| true implies (has_name(acs.take(i + 1), k2) <==> (has_name(
                    acs.take(i as int),
                    k2,
                ) || k2 == k)) by {
                    lemma_has_name_take(acs, i as int, k2);
                }
            }
            let d = share(&c.0);
            proof {
                lemma_push_fresh(out@, (d, v));
            }
            let ghost before_push = out@;
            v.wf_facts();
            out.push((d, v));
            proof {
                assert forall|q: int| 0 <= q < out@.len() implies is_reduced((#[trigger] out@[q]).1@) && fits(out@[q].1@) by {
                    if q < before_push.len() {
                        assert(out@[q] == before_push[q]);
                    }
                }
            }
            proof {
                assert(comps_map(out@) =~= pow_first(acs, a, i + 1, power@));
            }
            i = i + 1;
        }
        proof {
            assert forall|k: Seq<char>| true implies (has_name(acs.take(acs.len() as int), k) <==> has_name(acs, k)) by {
                lemma_has_name_full(acs, k);
            }
            assert(pow_first(acs, a, acs.len() as int, power@) =~= spec_pow(a, power@));
        }
        Unit { components: out }
    }

    /// The dimensions of this unit: each component's dimensions scaled by
    /// its exponent, summed.
    pub fn dimensions(&self) -> (r: [Rational; 7])
        ensures
            dims_upto(self.comps(), self.comps().len() as int) == r@.map_values(|x: Rational| x@),
            forall|i: int| 0 <= i < 7 ==> (#[trigger] r@[i])@ == exact_dim(self@, i),
    {
        self.facts();
        let ghost cs = self.comps();
        let mut dims: [Rational; 7] = [
            Rational::zero(),
            Rational::zero(),
            Rational::zero(),
            Rational::zero(),
            Rational::zero(),
            Rational::zero(),
            Rational::zero(),
        ];
        proof {
            assert(dims@.map_values(|x: Rational| x@) =~= zero_dims());
        }
        let mut c: usize = 0;
        while c < self.components.len()
            invariant
                cs == self.comps(),
                c <= cs.len(),
                dims_upto(cs, c as int) == dims@.map_values(|x: Rational| x@),
            decreases cs.len() - c,
        {
            let comp = &self.components[c];
            let e = comp.1.copy();
            let ghost acc = dims@.map_values(|x: Rational| x@);
            let ghost d = dims_of(&*cs[c as int].0);
            let mut i: usize = 0;
            while i < 7
                invariant
                    cs == self.comps(),
                    c < cs.len(),
                    comp == cs[c as int],
                    e@ == comp.1@,
                    d == dims_of(&*cs[c as int].0),
                    dims_upto(cs, c as int) == acc,
                    i <= 7,
                    acc.len() == 7,
                    forall|j: int| 0 <= j < i ==> fits(#[trigger] rat_mul(d[j], e@)) && fits(rat_add(acc[j], rat_mul(d[j], e@))),
                    forall|j: int| 0 <= j < i ==> (#[trigger] dims@[j])@ == rat_add(acc[j], rat_mul(d[j], e@)),
                    forall|j: int| i <= j < 7 ==> (#[trigger] dims@[j])@ == acc[j],
                decreases 7 - i,
            {
                let dim = comp.0.dimensions[i].copy();
                assert(dim@ == d[i as int]);
                let p = dim.mul(&e);
                p.wf_facts();
                let sum = dims[i].add(&p);
                sum.wf_facts();
                dims[i] = sum;
                i = i + 1;
            }
            proof {
                assert(dims@.map_values(|x: Rational| x@) =~= add_scaled(acc, d, e@));
            }
            c = c + 1;
        }
        self.dimension_facts();
        proof {
            lemma_unit_dims_exact(self);
            let m = dims@.map_values(|x: Rational| x@);
            assert forall|i: int| 0 <= i < 7 implies (#[trigger] dims@[i])@ == exact_dim(self@, i) by {
                assert(m[i] == dims@[i]@);
            }
        }
        dims
    }

    /// Whether the two units have the same dimensions. Dimensions are exact,
    /// so they are compared for equality, with no tolerance.
    pub fn is_compatible(&self, other: &Unit<S>) -> (b: bool)
        ensures
            b == (dims_upto(self.comps(), self.comps().len() as int) == dims_upto(
                other.comps(),
                other.comps().len() as int,
            )),
            b == compatible(self, other),
            b == (forall|i: int| 0 <= i < 7 ==> #[trigger] exact_dim(self@, i) == exact_dim(other@, i)),
    {
        let d1 = self.dimensions();
        let d2 = other.dimensions();
        let mut i: usize = 0;
        while i < 7
            invariant
                i <= 7,
                dims_upto(self.comps(), self.comps().len() as int) == d1@.map_values(|x: Rational| x@),
                dims_upto(other.comps(), other.comps().len() as int) == d2@.map_values(|x: Rational| x@),
                forall|j: int| 0 <= j < i ==> (#[trigger] d1@[j])@ == d2@[j]@,
                forall|j: int| 0 <= j < 7 ==> (#[trigger] d1@[j])@ == exact_dim(self@, j),
                forall|j: int| 0 <= j < 7 ==> (#[trigger] d2@[j])@ == exact_dim(other@, j),
            decreases 7 - i,
        {
            if !d1[i].same_value_as(&d2[i]) {
                proof {
                    let m1 = d1@.map_values(|x: Rational| x@);
                    let m2 = d2@.map_values(|x: Rational| x@);
                    assert(m1[i as int] != m2[i as int]);
                    assert(exact_dim(self@, i as int) != exact_dim(other@, i as int));
                }
                return false;
            }
            i = i + 1;
        }
        proof {
            let m1 = d1@.map_values(|x: Rational| x@);
            let m2 = d2@.map_values(|x: Rational| x@);
            assert(m1 =~= m2);
            assert forall|j: int| 0 <= j < 7 implies #[trigger] exact_dim(self@, j) == exact_dim(other@, j) by {
                assert(d1@[j]@ == d2@[j]@);
            }
        }
        true
    }

    /// Whether the two units have the same components (by name) with the
    /// same exponents.
    pub fn same_exponents(&self, other: &Unit<S>) -> (b: bool)
        ensures
            b == (exponents(self@) == exponents(other@)),
    {
        self.facts();
        other.facts();
        let ghost cs = self.comps();
        if self.len() != other.len() {
            proof {
                if exponents(self@) == exponents(other@) {
                    assert(self@.dom() =~= exponents(self@).dom());
                    assert(other@.dom() =~= exponents(other@).dom());
                }
            }
            return false;
        }
        let mut i: usize = 0;
        while i < self.components.len()
            invariant
                cs == self.comps(),
                i <= cs.len(),
                self@.len() == other@.len(),
                forall|k: Seq<char>| #[trigger] self@.contains_key(k) <==> has_name(cs, k),
                forall|p: int| 0 <= p < cs.len() ==> #[trigger] self@[comp_name(cs[p])] == (*cs[p].0, cs[p].1@),
                self@.dom().finite(),
                other@.dom().finite(),
                forall|p: int|
                    0 <= p < i ==> other@.contains_key(comp_name(#[trigger] cs[p])) && other@[comp_name(
                        cs[p],
                    )].1 == cs[p].1@,
            decreases cs.len() - i,
        {
            let c = &self.components[i];
            match other.get_exponent(&c.0.name) {
                Some(e) => {
                    if !e.same_value_as(&c.1) {
                        proof {
                            let k = comp_name(cs[i as int]);
                            assert(has_name(cs, k));
                            assert(exponents(self@)[k] != exponents(other@)[k]);
                        }
                        return false;
                    }
                },
                None => {
                    proof {
                        let k = comp_name(cs[i as int]);
                        assert(has_name(cs, k));
                        assert(exponents(self@).contains_key(k));
                        assert(!exponents(other@).contains_key(k));
                    }
                    return false;
                },
            }
            i = i + 1;
        }
        proof {
            assert forall|k: Seq<char>| self@.contains_key(k) implies other@.contains_key(k) by {
                let p = choose|p: int| 0 <= p < cs.len() && comp_name(#[trigger] cs[p]) == k;
            }
            assert(self@.dom().subset_of(other@.dom()));
            vstd::set_lib::lemma_subset_equality(self@.dom(), other@.dom());
            assert forall|k: Seq<char>| #[trigger] exponents(self@).contains_key(k) implies exponents(self@)[k]
                == exponents(other@)[k] by {
                let p = choose|p: int| 0 <= p < cs.len() && comp_name(#[trigger] cs[p]) == k;
            }
            assert(exponents(self@) =~= exponents(other@));
        }
        true
    }

    /// The product of two units.
    pub fn mul(&self, other: &Unit<S>) -> (r: Unit<S>)
        ensures
            r@ == spec_mul(self@, other@),
    {
        self.combine(other, false)
    }

    /// The quotient of two units. Exponents are exact, so exactly the names
    /// whose exponent comes to zero are dropped.
    pub fn div(&self, other: &Unit<S>) -> (r: Unit<S>)
        ensures
            r@ == spec_div(self@, other@),
    {
        self.combine(other, true)
    }

    /// The components, in their stored order.
    pub closed spec fn comps(&self) -> Seq<Component<S>> {
        self.components@
    }

    /// The unit with the given components; those with a zero exponent are
    /// left out.
    pub fn new(units: Vec<Component<S>>) -> (u: Unit<S>)
        requires
            distinct_names(units@),
        ensures
            u@ == drop_zeros(comps_map(units@)),
    {
        let ghost m = comps_map(units@);
        proof {
            lemma_comps_map(units@);
        }
        let mut out: Vec<Component<S>> = Vec::new();
        let mut i: usize = 0;
        while i < units.len()
            invariant
                i <= units@.len(),
                distinct_names(units@),
                exponents_wf_seq(out@),
                m == comps_map(units@),
                distinct_names(out@),
                exponents_wf_seq(out@),
                forall|k: Seq<char>| #[trigger] has_name(out@, k) ==> m.contains_key(k) && m[k].1.0 != 0,
                forall|p: int|
                    0 <= p < i && (#[trigger] units@[p]).1@.0 != 0 ==> has_name(out@, comp_name(units@[p])),
                forall|q: int|
                    0 <= q < out@.len() ==> exists|p: int|
                        0 <= p < i && same_comp(#[trigger] out@[q], #[trigger] units@[p]),
            decreases units.len() - i,
        {
            let c = &units[i];
            if !c.1.is_zero() {
                let e = c.1.copy();
                let d = share(&c.0);
                let ghost old_out = out@;
                proof {
                    lemma_comps_map(units@);
                    if has_name(old_out, comp_name(units@[i as int])) {
                        let q = choose|q: int|
                            0 <= q < old_out.len() && comp_name(#[trigger] old_out[q]) == comp_name(
                                units@[i as int],
                            );
                        let p = choose|p: int| 0 <= p < i && same_comp(#[trigger] old_out[q], #[trigger] units@[p]);
                        assert(comp_name(units@[p]) == comp_name(units@[i as int]));
                    }
                }
                let ghost before_push = out@;
                e.wf_facts();
                out.push((d, e));
                proof {
                    assert forall|q: int| 0 <= q < out@.len() implies is_reduced((#[trigger] out@[q]).1@) && fits(out@[q].1@) by {
                        if q < before_push.len() {
                            assert(out@[q] == before_push[q]);
                        }
                    }
                }
                proof {
                    assert(same_comp(out@[old_out.len() as int], units@[i as int]));
                    assert forall|k: Seq<char>| #[trigger] has_name(out@, k) implies m.contains_key(k)
                        && m[k].1.0 != 0 by {
                        let q = choose|q: int| 0 <= q < out@.len() && comp_name(#[trigger] out@[q]) == k;
                        if q < old_out.len() {
                            assert(out@[q] == old_out[q]);
                            assert(has_name(old_out, k));
                        } else {
                            assert(m[comp_name(units@[i as int])] == (*units@[i as int].0, units@[i as int].1@));
                        }
                    }
                    assert forall|p: int|
                        0 <= p < i + 1 && (#[trigger] units@[p]).1@.0 != 0 implies has_name(
                        out@,
                        comp_name(units@[p]),
                    ) by {
                        if p < i {
                            let q = choose|q: int|
                                0 <= q < old_out.len() && comp_name(#[trigger] old_out[q]) == comp_name(
                                    units@[p],
                                );
                            assert(out@[q] == old_out[q]);
                        } else {
                            assert(comp_name(out@[old_out.len() as int]) == comp_name(units@[p]));
                        }
                    }
                    assert forall|q: int| 0 <= q < out@.len() implies exists|p: int|
                        0 <= p < i + 1 && same_comp(#[trigger] out@[q], #[trigger] units@[p]) by {
                        if q < old_out.len() {
                            assert(out@[q] == old_out[q]);
                            let p = choose|p: int| 0 <= p < i && same_comp(#[trigger] old_out[q], #[trigger] units@[p]);
                            assert(same_comp(out@[q], units@[p]));
                        } else {
                            assert(same_comp(out@[q], units@[i as int]));
                        }
                    }
                    assert forall|x: int, y: int|
                        0 <= x < out@.len() && 0 <= y < out@.len() && x != y implies comp_name(
                        #[trigger] out@[x],
                    ) != comp_name(#[trigger] out@[y]) by {
                        if x < old_out.len() && y < old_out.len() {
                            assert(out@[x] == old_out[x] && out@[y] == old_out[y]);
                        } else if x < old_out.len() {
                            assert(out@[x] == old_out[x]);
                            assert(has_name(old_out, comp_name(old_out[x])));
                        } else {
                            assert(out@[y] == old_out[y]);
                            assert(has_name(old_out, comp_name(old_out[y])));
                        }
                    }
                }
            }
            i = i + 1;
        }
        let u = Unit { components: out };
        proof {
            lemma_comps_map(out@);
            assert forall|k: Seq<char>| #[trigger] u@.contains_key(k) implies u@[k] == m[k] by {
                let q = choose|q: int| 0 <= q < out@.len() && comp_name(#[trigger] out@[q]) == k;
                let p = choose|p: int| 0 <= p < units@.len() && same_comp(#[trigger] out@[q], #[trigger] units@[p]);
                assert(u@[comp_name(out@[q])] == (*out@[q].0, out@[q].1@));
                assert(m[comp_name(units@[p])] == (*units@[p].0, units@[p].1@));
            }
            assert forall|k: Seq<char>| drop_zeros(m).contains_key(k) implies #[trigger] u@.contains_key(k) by {
                let p = choose|p: int| 0 <= p < units@.len() && comp_name(#[trigger] units@[p]) == k;
                assert(m[comp_name(units@[p])] == (*units@[p].0, units@[p].1@));
            }
            assert(u@ =~= drop_zeros(m));
        }
        u
    }
}

// ---------------------------------------------------------------------------
// Laws of the unit algebra
// ---------------------------------------------------------------------------

proof fn lemma_norm_zero(d: nat)
    requires
        d > 0,
    ensures
        norm(0, d) == (0int, 1int),
{
    assert(gcd(0, d) == gcd(d, 0));
    assert(abs(0) == 0);
    assert(d / d == 1) by (nonlinear_arith)
        requires
            d > 0,
    ;
}

/// `(x + y) - y == x` for reduced fractions.
proof fn lemma_add_sub_cancel(x: (int, int), y: (int, int))
    requires
        is_reduced(x),
        is_reduced(y),
    ensures
        rat_sub(rat_add(x, y), y) == x,
{
    let n = x.0 * y.1 + y.0 * x.1;
    assert(x.1 * y.1 > 0) by (nonlinear_arith)
        requires
            x.1 > 0,
            y.1 > 0,
    ;
    let d = (x.1 * y.1) as nat;
    let z = rat_add(x, y);
    lemma_norm(n, d);
    assert(z.1 * y.1 > 0) by (nonlinear_arith)
        requires
            z.1 > 0,
            y.1 > 0,
    ;
    let m = z.0 * y.1 - y.0 * z.1;
    let e = (z.1 * y.1) as nat;
    let w = rat_sub(z, y);
    assert(w == norm(m, e));
    lemma_norm(m, e);
    // (z0 y1 - y0 z1) x1 == z1 x0 y1
    assert(m * x.1 == z.1 * x.0 * y.1) by (nonlinear_arith)
        requires
            z.0 * d == n * z.1,
            d == x.1 * y.1,
            n == x.0 * y.1 + y.0 * x.1,
            m == z.0 * y.1 - y.0 * z.1,
            y.1 > 0,
    ;
    assert(w.0 * x.1 == x.0 * w.1) by (nonlinear_arith)
        requires
            w.0 * e == m * w.1,
            e == z.1 * y.1,
            m * x.1 == z.1 * x.0 * y.1,
            z.1 > 0,
            y.1 > 0,
    ;
    lemma_reduced_unique(w, x);
}

/// When `x + y` is zero, `x` is `-y`.
proof fn lemma_add_zero_neg(x: (int, int), y: (int, int))
    requires
        is_reduced(x),
        is_reduced(y),
        rat_add(x, y).0 == 0,
    ensures
        x == rat_neg(y),
{
    let n = x.0 * y.1 + y.0 * x.1;
    assert(x.1 * y.1 > 0) by (nonlinear_arith)
        requires
            x.1 > 0,
            y.1 > 0,
    ;
    let d = (x.1 * y.1) as nat;
    lemma_norm(n, d);
    let z = rat_add(x, y);
    assert(n == 0) by (nonlinear_arith)
        requires
            z.0 * d == n * z.1,
            z.0 == 0,
            z.1 > 0,
    ;
    assert(abs(-y.0) == abs(y.0));
    assert(is_reduced(rat_neg(y)));
    assert(same_value(x, rat_neg(y))) by (nonlinear_arith)
        requires
            x.0 * y.1 + y.0 * x.1 == 0,
    ;
    lemma_reduced_unique(x, rat_neg(y));
}

/// Multiplication of units is commutative (on exponents).
pub proof fn law_mul_commutative<S>(a: UnitMap<S>, b: UnitMap<S>)
    ensures
        exponents(spec_mul(a, b)) == exponents(spec_mul(b, a)),
{
    assert forall|k: Seq<char>| a.contains_key(k) || b.contains_key(k) implies merged_exponent(
        a,
        b,
        k,
        false,
    ) == merged_exponent(b, a, k, false) by {
        if a.contains_key(k) && b.contains_key(k) {
            let x = a[k].1;
            let y = b[k].1;
            assert(x.0 * y.1 + y.0 * x.1 == y.0 * x.1 + x.0 * y.1);
            assert(x.1 * y.1 == y.1 * x.1) by (nonlinear_arith);
            assert(x.0 * y.1 == y.1 * x.0) by (nonlinear_arith);
            assert(y.0 * x.1 == x.1 * y.0) by (nonlinear_arith);
            assert(rat_add(x, y) == norm(x.0 * y.1 + y.0 * x.1, (x.1 * y.1) as nat));
            assert(rat_add(y, x) == norm(y.0 * x.1 + x.0 * y.1, (y.1 * x.1) as nat));
            assert(rat_add(x, y) == rat_add(y, x));
        }
    }
    assert(exponents(spec_mul(a, b)) =~= exponents(spec_mul(b, a)));
}

/// Dividing a unit by itself leaves no component (a dimensionless unit).
pub proof fn law_div_self_dimensionless<S>(a: UnitMap<S>)
    requires
        exponents_wf(a),
    ensures
        spec_div(a, a) == Map::<Seq<char>, (DefinedUnit<S>, (int, int))>::empty(),
{
    assert forall|k: Seq<char>| a.contains_key(k) implies merged_exponent(a, a, k, true) == (
        0int,
        1int,
    ) by {
        let x = a[k].1;
        assert(x.0 * x.1 - x.0 * x.1 == 0);
        assert(x.1 * x.1 > 0) by (nonlinear_arith)
            requires
                x.1 > 0,
        ;
        lemma_norm_zero((x.1 * x.1) as nat);
    }
    assert(spec_div(a, a) =~= Map::<Seq<char>, (DefinedUnit<S>, (int, int))>::empty());
}

/// Multiplying by the dimensionless unit (no components) only drops
/// components whose exponent is zero.
pub proof fn law_mul_dimensionless_identity<S>(a: UnitMap<S>)
    requires
        exponents_wf(a),
    ensures
        spec_mul(a, Map::empty()) == drop_zeros(a),
{
    assert(spec_mul(a, Map::empty()) =~= drop_zeros(a));
}

/// Dividing a product by one of its factors gives back the other factor
/// (without its zero exponents).
pub proof fn law_mul_then_div<S>(a: UnitMap<S>, b: UnitMap<S>)
    requires
        exponents_wf(a),
        exponents_wf(b),
    ensures
        exponents(spec_div(spec_mul(a, b), b)) == exponents(drop_zeros(a)),
{
    let m = spec_mul(a, b);
    let r = spec_div(m, b);
    assert forall|k: Seq<char>| true implies (#[trigger] r.contains_key(k) == drop_zeros(a).contains_key(k))
        && (r.contains_key(k) ==> r[k].1 == a[k].1) by {
        if a.contains_key(k) && b.contains_key(k) {
            let x = a[k].1;
            let y = b[k].1;
            let z = rat_add(x, y);
            if z.0 != 0 {
                lemma_add_sub_cancel(x, y);
            } else {
                lemma_add_zero_neg(x, y);
            }
        } else if b.contains_key(k) {
            let y = b[k].1;
            if y.0 != 0 {
                assert(y.0 * y.1 - y.0 * y.1 == 0);
                assert(y.1 * y.1 > 0) by (nonlinear_arith)
                    requires
                        y.1 > 0,
                ;
                lemma_norm_zero((y.1 * y.1) as nat);
            }
        }
    }
    assert(exponents(r) =~= exponents(drop_zeros(a)));
}

proof fn lemma_same_value_transitive(a: (int, int), b: (int, int), c: (int, int))
    requires
        same_value(a, b),
        same_value(b, c),
        b.1 > 0,
    ensures
        same_value(a, c),
{
    assert(a.0 * c.1 == c.0 * a.1) by (nonlinear_arith)
        requires
            a.0 * b.1 == b.0 * a.1,
            b.0 * c.1 == c.0 * b.1,
            b.1 > 0,
    ;
}

proof fn lemma_same_value_scale(a: (int, int), b: (int, int), q: (int, int))
    requires
        same_value(a, b),
    ensures
        same_value((a.0 * q.0, a.1 * q.1), (b.0 * q.0, b.1 * q.1)),
{
    assert((a.0 * q.0) * (b.1 * q.1) == (b.0 * q.0) * (a.1 * q.1)) by (nonlinear_arith)
        requires
            a.0 * b.1 == b.0 * a.1,
    ;
}

proof fn lemma_same_value_symmetric(a: (int, int), b: (int, int))
    requires
        same_value(a, b),
    ensures
        same_value(b, a),
{
}

/// Multiplication of reduced fractions is associative.
proof fn lemma_rat_mul_assoc(x: (int, int), p: (int, int), q: (int, int))
    requires
        is_reduced(x),
        is_reduced(p),
        is_reduced(q),
    ensures
        rat_mul(rat_mul(x, p), q) == rat_mul(x, rat_mul(p, q)),
{
    assert(x.1 * p.1 > 0 && p.1 * q.1 > 0) by (nonlinear_arith)
        requires
            x.1 > 0,
            p.1 > 0,
            q.1 > 0,
    ;
    let a = rat_mul(x, p);
    lemma_norm(x.0 * p.0, (x.1 * p.1) as nat);
    let b = rat_mul(p, q);
    lemma_norm(p.0 * q.0, (p.1 * q.1) as nat);
    assert(a.1 * q.1 > 0 && x.1 * b.1 > 0) by (nonlinear_arith)
        requires
            a.1 > 0,
            b.1 > 0,
            x.1 > 0,
            q.1 > 0,
    ;
    let l = rat_mul(a, q);
    lemma_norm(a.0 * q.0, (a.1 * q.1) as nat);
    let r = rat_mul(x, b);
    lemma_norm(x.0 * b.0, (x.1 * b.1) as nat);
    let t = (x.0 * p.0 * q.0, x.1 * p.1 * q.1);
    assert(x.1 * p.1 * q.1 > 0) by (nonlinear_arith)
        requires
            x.1 > 0,
            p.1 > 0,
            q.1 > 0,
    ;
    // l ~ a * q ~ (x p) q
    lemma_same_value_scale(a, (x.0 * p.0, x.1 * p.1), q);
    assert(((x.0 * p.0) * q.0, (x.1 * p.1) * q.1) == t);
    lemma_same_value_transitive(l, (a.0 * q.0, a.1 * q.1), t);
    // r ~ x * b ~ x (p q)
    lemma_same_value_scale(b, (p.0 * q.0, p.1 * q.1), x);
    assert((b.0 * x.0, b.1 * x.1) == (x.0 * b.0, x.1 * b.1)) by (nonlinear_arith);
    assert((p.0 * q.0) * x.0 == x.0 * p.0 * q.0) by (nonlinear_arith);
    assert((p.1 * q.1) * x.1 == x.1 * p.1 * q.1) by (nonlinear_arith);
    assert(((p.0 * q.0) * x.0, (p.1 * q.1) * x.1) == t);
    lemma_same_value_transitive(r, (x.0 * b.0, x.1 * b.1), t);
    lemma_same_value_symmetric(r, t);
    lemma_same_value_transitive(l, t, r);
    lemma_reduced_unique(l, r);
}

/// Powers compose: raising to `p` and then to `q` gives the exponents of
/// raising to `p * q`; and a power keeps every component.
pub proof fn law_pow_compose<S>(a: UnitMap<S>, p: (int, int), q: (int, int))
    requires
        exponents_wf(a),
        is_reduced(p),
        is_reduced(q),
    ensures
        exponents(spec_pow(spec_pow(a, p), q)) == exponents(spec_pow(a, rat_mul(p, q))),
        spec_pow(a, p).dom() == a.dom(),
{
    assert forall|k: Seq<char>| a.contains_key(k) implies #[trigger] rat_mul(rat_mul(a[k].1, p), q) == rat_mul(
        a[k].1,
        rat_mul(p, q),
    ) by {
        lemma_rat_mul_assoc(a[k].1, p, q);
    }
    assert(exponents(spec_pow(spec_pow(a, p), q)) =~= exponents(spec_pow(a, rat_mul(p, q))));
}

/// A unit times its inverse (its power `-1`) is dimensionless: no component
/// is left, so every exponent of the power is the negated exponent.
pub proof fn law_pow_inverse<S>(a: UnitMap<S>)
    requires
        exponents_wf(a),
    ensures
        spec_mul(a, spec_pow(a, (-1int, 1int))) == Map::<Seq<char>, (DefinedUnit<S>, (int, int))>::empty(),
        forall|k: Seq<char>| #[trigger] a.contains_key(k) ==> spec_pow(a, (-1int, 1int))[k].1 == rat_neg(a[k].1),
{
    let b = spec_pow(a, (-1int, 1int));
    assert forall|k: Seq<char>| #[trigger] a.contains_key(k) implies b[k].1 == rat_neg(a[k].1) && merged_exponent(
        a,
        b,
        k,
        false,
    ).0 == 0 by {
        let x = a[k].1;
        assert(x.0 * -1 == -x.0 && x.1 * 1 == x.1);
        assert(abs(-x.0) == abs(x.0));
        lemma_norm_of_reduced(rat_neg(x));
        assert(rat_mul(x, (-1int, 1int)) == rat_neg(x));
        assert(x.0 * x.1 + (-x.0) * x.1 == 0) by (nonlinear_arith);
        assert(x.1 * x.1 > 0) by (nonlinear_arith)
            requires
                x.1 > 0,
        ;
        lemma_norm_zero((x.1 * x.1) as nat);
    }
    assert(spec_mul(a, b) =~= Map::<Seq<char>, (DefinedUnit<S>, (int, int))>::empty());
}

/// Raising a unit to the power one leaves it unchanged.
pub proof fn law_pow_one<S>(a: UnitMap<S>)
    requires
        exponents_wf(a),
    ensures
        spec_pow(a, (1int, 1int)) == a,
{
    assert forall|k: Seq<char>| a.contains_key(k) implies #[trigger] rat_mul(a[k].1, (1int, 1int)) == a[k].1 by {
        let x = a[k].1;
        assert(x.0 * 1 == x.0 && x.1 * 1 == x.1);
        lemma_norm_of_reduced(x);
    }
    assert(spec_pow(a, (1int, 1int)) =~= a);
}

/// The dimensions of a unit, as `dimensions` computes them.
pub open spec fn unit_dims<S>(u: &Unit<S>) -> Seq<(int, int)> {
    dims_upto(u.comps(), u.comps().len() as int)
}

/// Two units have the same dimensions.
pub open spec fn compatible<S>(a: &Unit<S>, b: &Unit<S>) -> bool {
    unit_dims(a) == unit_dims(b)
}

/// Dimensional compatibility is an equivalence: each unit is compatible with
/// itself, and compatibility is symmetric and transitive.
pub proof fn law_compatible_equivalence<S>(a: &Unit<S>, b: &Unit<S>, c: &Unit<S>)
    ensures
        compatible(a, a),
        compatible(a, b) == compatible(b, a),
        compatible(a, b) && compatible(b, c) ==> compatible(a, c),
{
}

/// The dimensions of a product are the sums of the dimensions of its
/// factors, and those of a quotient the differences, whenever the two
/// factors agree on the defined unit of every name they share. (The other
/// requirements are what every `Unit` and every `DefinedUnit` satisfy;
/// `facts` and `dimension_facts` give them.)
pub proof fn law_dimensions_of_combine<S>(x: &Unit<S>, y: &Unit<S>, z: &Unit<S>, sub: bool)
    requires
        distinct_names(x.comps()),
        distinct_names(y.comps()),
        distinct_names(z.comps()),
        exponents_wf_seq(x.comps()),
        exponents_wf_seq(y.comps()),
        exponents_wf_seq(z.comps()),
        x@ == comps_map(x.comps()),
        y@ == comps_map(y.comps()),
        z@ == comps_map(z.comps()),
        exponents_wf(x@),
        exponents_wf(y@),
        positive_dims(x@),
        positive_dims(y@),
        positive_dims(z@),
        same_definitions(x@, y@),
        z@ == spec_combine(x@, y@, sub),
    ensures
        forall|i: int|
            0 <= i < 7 ==> #[trigger] unit_dims(z)[i] == (if sub {
                rat_sub(unit_dims(x)[i], unit_dims(y)[i])
            } else {
                rat_add(unit_dims(x)[i], unit_dims(y)[i])
            }),
{
    lemma_unit_dims_exact(x);
    lemma_unit_dims_exact(y);
    lemma_unit_dims_exact(z);
    lemma_comps_map(x.comps());
    lemma_comps_map(y.comps());
    law_exact_dimensions_of_combine(x@, y@, sub);
    assert forall|i: int| 0 <= i < 7 implies #[trigger] unit_dims(z)[i] == (if sub {
        rat_sub(unit_dims(x)[i], unit_dims(y)[i])
    } else {
        rat_add(unit_dims(x)[i], unit_dims(y)[i])
    }) by {
        assert(unit_dims(x)[i] == exact_dim(x@, i));
        assert(unit_dims(y)[i] == exact_dim(y@, i));
        assert(unit_dims(z)[i] == exact_dim(z@, i));
    }
}

/// The dimensions of a unit, as `dimensions` computes them, are its exact
/// dimensions.
proof fn lemma_unit_dims_exact<S>(u: &Unit<S>)
    requires
        distinct_names(u.comps()),
        exponents_wf_seq(u.comps()),
        positive_dims(u@),
        u@ == comps_map(u.comps()),
    ensures
        unit_dims(u).len() == 7,
        forall|i: int| 0 <= i < 7 ==> #[trigger] unit_dims(u)[i] == exact_dim(u@, i),
{
    let cs = u.comps();
    lemma_comps_map(cs);
    assert forall|p: int, i: int| 0 <= p < cs.len() && 0 <= i < 7 implies (#[trigger] dims_of(
        &*cs[p].0,
    )[i]).1 > 0 by {
        let k = comp_name(cs[p]);
        assert(u@.contains_key(k));
        assert(u@[k] == (*cs[p].0, cs[p].1@));
        assert(dims_of(&u@[k].0)[i].1 > 0);
    }
    lemma_dims_upto_exact(cs, cs.len() as int);
    assert(cs.take(cs.len() as int) =~= cs);
}

} // verus!
