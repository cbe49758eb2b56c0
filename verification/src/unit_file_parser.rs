//! Entries of a unit definition file: each defines a unit either by its
//! dimensions or by a unit expression over units already defined.
use vstd::prelude::*;
use crate::rational::Rational;
use crate::unit::{Unit, dims_upto};
use crate::dimension_sum::exact_dim;
use crate::unit_registry::UnitRegistry;
use crate::parser::{ParserError, spec_parse, error_kind};
use crate::tokenizer::spec_tokenize;

verus! {

/// One `[[unit]]` entry of a definition file.
pub struct UnitDefinitionEntry<S> {
    pub name: String,
    pub dimensions: Option<[Rational; 7]>,
    pub unit: Option<String>,
    pub scale: Option<S>,
    pub aliases: Vec<String>,
}

/// Why an entry defines no unit.
#[derive(Debug)]
pub enum EntryError {
    /// Both `dimensions` and `unit` are given.
    BothDimensionsAndUnit,
    /// Neither `dimensions` nor `unit` is given.
    NeitherDimensionsNorUnit,
    /// The `unit` expression does not parse.
    UnresolvedUnit(ParserError),
}

/// What an entry defines: the name, dimensions, scale factor and aliases of
/// the new unit. For an entry given by a unit expression, `base` is the unit
/// of that expression, whose scale multiplies `scale`.
pub struct ResolvedEntry<S> {
    pub name: String,
    pub dimensions: [Rational; 7],
    pub scale: S,
    pub base: Option<Unit<S>>,
    pub aliases: Vec<String>,
}

/// Checks an entry and, for one given by a unit expression, parses the
/// expression and computes its dimensions. The scale is the entry's, or
/// `S::from(1)` when it gives none.
///
/// `None` where the expression holds a number that is not a decimal literal
/// (such as `1.2.3`), which the parser does not accept.
pub fn resolve_entry<S: From<u8>>(registry: &UnitRegistry<S>, entry: UnitDefinitionEntry<S>) -> (r:
    Option<Result<ResolvedEntry<S>, EntryError>>)
    ensures
        entry.dimensions is Some && entry.unit is Some ==> r matches Some(
            Err(EntryError::BothDimensionsAndUnit),
        ),
        entry.dimensions is None && entry.unit is None ==> r matches Some(
            Err(EntryError::NeitherDimensionsNorUnit),
        ),
        r matches Some(Ok(re)) ==> {
            &&& re.name == entry.name
            &&& re.aliases == entry.aliases
            &&& entry.scale matches Some(s) ==> re.scale == s
            &&& entry.scale is None ==> call_ensures(S::from, (1u8,), re.scale)
        },
        entry.dimensions is Some && entry.unit is None ==> (r matches Some(Ok(re))
            && re.dimensions == entry.dimensions->Some_0 && re.base is None),
        entry.dimensions is None && entry.unit is Some ==> {
            let e = entry.unit->Some_0;
            &&& r is None <==> spec_tokenize(e@) is MalformedNumber
            &&& r is Some ==> match spec_parse(registry@, e@) {
                Err(k) => r matches Some(Err(EntryError::UnresolvedUnit(err))) && error_kind(err) == k,
                Ok(u) => r matches Some(Ok(re)) && re.base matches Some(b) && b@ == u && dims_upto(
                    b.comps(),
                    b.comps().len() as int,
                ) == re.dimensions@.map_values(|x: Rational| x@) && forall|i: int|
                    0 <= i < 7 ==> (#[trigger] re.dimensions@[i])@ == exact_dim(u, i),
            }
        },
{
    let UnitDefinitionEntry { name, dimensions, unit, scale, aliases } = entry;
    let scale = match scale {
        Some(s) => s,
        None => S::from(1u8),
    };
    match (dimensions, unit) {
        (Some(_), Some(_)) => Some(Err(EntryError::BothDimensionsAndUnit)),
        (None, None) => Some(Err(EntryError::NeitherDimensionsNorUnit)),
        (Some(d), None) => Some(Ok(ResolvedEntry { name, dimensions: d, scale, base: None, aliases })),
        (None, Some(expression)) => match registry.try_parse_string(expression) {
            None => None,
            Some(Err(e)) => Some(Err(EntryError::UnresolvedUnit(e))),
            Some(Ok(u)) => {
                let d = u.dimensions();
                Some(Ok(ResolvedEntry { name, dimensions: d, scale, base: Some(u), aliases }))
            },
        },
    }
}

} // verus!
