use concorde::rational::Rational;
use concorde::unit::DefinedUnit;
use concorde::unit_file_parser::{resolve_entry, EntryError, UnitDefinitionEntry};
use concorde::unit_registry::UnitRegistry;

fn dims(v: [i64; 7]) -> [Rational; 7] {
    v.map(|x| Rational::from_integer(x))
}

fn entry(
    name: &str,
    dimensions: Option<[Rational; 7]>,
    unit: Option<&str>,
    scale: Option<f64>,
) -> UnitDefinitionEntry<f64> {
    UnitDefinitionEntry {
        name: name.to_string(),
        dimensions,
        unit: unit.map(|u| u.to_string()),
        scale,
        aliases: vec!["alias".to_string()],
    }
}

#[test]
fn resolve_base_unit() {
    let registry: UnitRegistry<f64> = UnitRegistry::new_with_si();
    let e = entry("furlong", Some(dims([1, 0, 0, 0, 0, 0, 0])), None, Some(201.168));
    let r = resolve_entry(&registry, e).unwrap().unwrap();
    assert_eq!(r.name, "furlong");
    assert_eq!(r.scale, 201.168);
    assert_eq!(r.dimensions, dims([1, 0, 0, 0, 0, 0, 0]));
    assert!(r.base.is_none());
    assert_eq!(r.aliases, vec!["alias".to_string()]);
}

#[test]
fn resolve_derived_unit() {
    let registry: UnitRegistry<f64> = UnitRegistry::new_with_si();
    let e = entry("N", None, Some("kg * m / s^2"), None);
    let r = resolve_entry(&registry, e).unwrap().unwrap();
    assert_eq!(r.dimensions, dims([1, 1, -2, 0, 0, 0, 0]));
    assert_eq!(r.scale, 1.0);
    assert_eq!(r.base.unwrap().len(), 3);
}

#[test]
fn resolve_default_scale_is_one() {
    let registry: UnitRegistry<f64> = UnitRegistry::new_with_si();
    let e = entry("thing", Some(dims([0; 7])), None, None);
    assert_eq!(resolve_entry(&registry, e).unwrap().unwrap().scale, 1.0);
}

#[test]
fn resolve_both_dimensions_and_unit() {
    let registry: UnitRegistry<f64> = UnitRegistry::new_with_si();
    let e = entry("bad", Some(dims([1, 0, 0, 0, 0, 0, 0])), Some("m"), None);
    assert!(matches!(resolve_entry(&registry, e), Some(Err(EntryError::BothDimensionsAndUnit))));
}

#[test]
fn resolve_neither_dimensions_nor_unit() {
    let registry: UnitRegistry<f64> = UnitRegistry::new_with_si();
    let e = entry("bad", None, None, None);
    assert!(matches!(resolve_entry(&registry, e), Some(Err(EntryError::NeitherDimensionsNorUnit))));
}

#[test]
fn resolve_unknown_base() {
    let registry: UnitRegistry<f64> = UnitRegistry::new_with_si();
    let e = entry("bad", None, Some("nonexistent"), None);
    assert!(matches!(resolve_entry(&registry, e), Some(Err(EntryError::UnresolvedUnit(_)))));
}

#[test]
fn resolve_malformed_number() {
    let registry: UnitRegistry<f64> = UnitRegistry::new_with_si();
    let e = entry("bad", None, Some("m^1.2.3"), None);
    assert!(resolve_entry(&registry, e).is_none());
}

#[test]
fn resolve_large_dimensions() {
    let big = DefinedUnit::new(
        "big".to_string(),
        std::array::from_fn(|_| Rational::from_integer(1i64 << 62)),
        1.0,
        vec![],
    );
    let registry: UnitRegistry<f64> = UnitRegistry::new(vec![big]);
    let e = entry("huge", None, Some("big^2"), None);
    let resolved = resolve_entry(&registry, e).unwrap().unwrap();
    let expected = Rational::from_integer(1i64 << 62).add(&Rational::from_integer(1i64 << 62));
    assert_eq!(expected.num(), None);
    for i in 0..7 {
        assert_eq!(resolved.dimensions[i], expected);
    }
}
