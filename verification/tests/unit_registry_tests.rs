use concorde::rational::Rational;
use concorde::unit::{DefinedUnit, Unit};
use concorde::unit_registry::UnitRegistry;

fn dims(v: [f64; 7]) -> [Rational; 7] {
    v.map(|x| Rational::from_integer(x as i64))
}

fn create_unit_registry() -> UnitRegistry<f64> {
    let kg_unit = DefinedUnit::new(
        "kg".to_string(),
        dims([0.0, 1.0, 0.0, 0.0, 0.0, 0.0, 0.0]), // Mass dimension
        1.0,
        vec![],
    );
    let s = DefinedUnit::new(
        "s".to_string(),
        dims([0.0, 0.0, 1.0, 0.0, 0.0, 0.0, 0.0]),
        1.0,
        vec![],
    );
    let m = DefinedUnit::new(
        "m".to_string(),
        dims([1.0, 0.0, 0.0, 0.0, 0.0, 0.0, 0.0]),
        1.0,
        vec![],
    );
    return UnitRegistry::new(Vec::from_iter([kg_unit, s, m]));
}

fn as_f64(r: Rational) -> f64 {
    r.num().unwrap() as f64 / r.den().unwrap() as f64
}

fn exponent(unit: &Unit<f64>, name: &str) -> Option<f64> {
    unit.get_exponent(&name.to_string()).map(as_f64)
}

/// The exponent of the component whose defined unit is `def`.
fn component_exponent(unit: &Unit<f64>, def: &DefinedUnit<f64>) -> Option<f64> {
    unit.get_exponent(&def.name).map(as_f64)
}

#[test]
fn unit_registry_test_parse_integer_exponent() {
    let unit_registry = create_unit_registry();
    let unit = unit_registry.parse_string("kg**2".to_string());

    assert!(unit.is_ok());
    let unit = unit.unwrap();
    let kg_def = unit_registry.get(&"kg".to_string()).unwrap();
    assert_eq!(component_exponent(&unit, &kg_def), Some(2.0));
}

#[test]
fn unit_registry_test_parse_decimal_exponent() {
    let unit_registry = create_unit_registry();
    let unit = unit_registry.parse_string("kg**2.5".to_string());

    assert!(unit.is_ok());
    let unit = unit.unwrap();
    let kg_def = unit_registry.get(&"kg".to_string()).unwrap();
    assert_eq!(component_exponent(&unit, &kg_def), Some(2.5));
}

#[test]
fn unit_registry_test_parse_fraction_exponent() {
    let unit_registry = create_unit_registry();
    let unit = unit_registry.parse_string("kg**(2/5)".to_string());

    assert!(unit.is_ok());
    let unit = unit.unwrap();
    let kg_def = unit_registry.get(&"kg".to_string()).unwrap();
    assert_eq!(component_exponent(&unit, &kg_def), Some(0.4));
}

#[test]
fn unit_registry_test_parse_unit_multiplication_with_asterisk() {
    let unit_registry = create_unit_registry();
    let unit = unit_registry.parse_string("kg * s".to_string());

    assert!(unit.is_ok());
    let unit = unit.unwrap();
    let kg_def = unit_registry.get(&"kg".to_string()).unwrap();
    let s_def = unit_registry.get(&"s".to_string()).unwrap();
    assert_eq!(component_exponent(&unit, &kg_def), Some(1.0));
    assert_eq!(component_exponent(&unit, &s_def), Some(1.0));
    assert_eq!(unit.len(), 2)
}

#[test]
fn unit_registry_test_parse_unit_division() {
    let unit_registry = create_unit_registry();
    let unit = unit_registry.parse_string("kg / s".to_string());

    assert!(unit.is_ok());
    let unit = unit.unwrap();
    let kg_def = unit_registry.get(&"kg".to_string()).unwrap();
    let s_def = unit_registry.get(&"s".to_string()).unwrap();
    assert_eq!(component_exponent(&unit, &kg_def), Some(1.0));
    assert_eq!(component_exponent(&unit, &s_def), Some(-1.0));
    assert_eq!(unit.len(), 2)
}

#[test]
fn unit_registry_test_multiplication_and_division_precedence() {
    let unit_registry = create_unit_registry();
    let unit = unit_registry.parse_string("kg / s * s".to_string());

    assert!(unit.is_ok());
    let unit = unit.unwrap();
    let kg_def = unit_registry.get(&"kg".to_string()).unwrap();
    let s_def = unit_registry.get(&"s".to_string()).unwrap();
    assert_eq!(component_exponent(&unit, &kg_def), Some(1.0));
    assert!(component_exponent(&unit, &s_def).is_none());
    assert_eq!(unit.len(), 1)
}

#[test]
fn unit_registry_test_brackets() {
    let unit_registry = create_unit_registry();
    let unit = unit_registry.parse_string("kg / (s * s)".to_string());

    assert!(unit.is_ok());
    let unit = unit.unwrap();
    let kg_def = unit_registry.get(&"kg".to_string()).unwrap();
    let s_def = unit_registry.get(&"s".to_string()).unwrap();
    assert_eq!(component_exponent(&unit, &kg_def), Some(1.0));
    assert_eq!(component_exponent(&unit, &s_def), Some(-2.0));
}

#[test]
fn unit_registry_test_complex_precedence_mixed_operators() {
    let registry = create_unit_registry();
    let unit = registry.parse_string("kg * m^2 / s^2".to_string()).unwrap();
    assert_eq!(exponent(&unit, "kg"), Some(1.0));
    assert_eq!(exponent(&unit, "m"), Some(2.0));
    assert_eq!(exponent(&unit, "s"), Some(-2.0));
}

#[test]
fn unit_registry_test_chained_exponentiation_with_fractions() {
    let registry = create_unit_registry();
    let unit = registry
        .parse_string("m^(3/2) * kg^(1/3) / s^(2/3)".to_string())
        .unwrap();
    assert_eq!(exponent(&unit, "m"), Some(1.5));
    assert_eq!(exponent(&unit, "kg"), Some(1.0 / 3.0));
    assert_eq!(exponent(&unit, "s"), Some(-2.0 / 3.0));
}

#[test]
fn unit_registry_test_same_unit_multiple_times() {
    let registry = create_unit_registry();
    let unit = registry.parse_string("kg * kg * kg".to_string()).unwrap();
    assert_eq!(exponent(&unit, "kg"), Some(3.0));
}

#[test]
fn unit_registry_test_same_unit_cancellation() {
    let registry = create_unit_registry();
    let unit = registry.parse_string("kg / kg".to_string()).unwrap();
    assert_eq!(exponent(&unit, "kg"), None);
}

#[test]
fn unit_registry_test_implicit_multiplication() {
    let registry = create_unit_registry();
    let unit = registry.parse_string("kg s".to_string()).unwrap();
    assert_eq!(exponent(&unit, "kg"), Some(1.0));
    assert_eq!(exponent(&unit, "s"), Some(1.0));
}

#[test]
fn get_after_define_finds_the_new_unit() {
    let mut registry = create_unit_registry();
    assert!(registry.get(&"km".to_string()).is_none());
    registry.define_unit(DefinedUnit::new(
        "km".to_string(),
        dims([1.0, 0.0, 0.0, 0.0, 0.0, 0.0, 0.0]),
        1000.0,
        vec!["kilometer".to_string()],
    ));
    let km = registry.get(&"km".to_string()).unwrap();
    assert_eq!(km.scale, 1000.0);
    assert_eq!(km.aliases(), &vec!["kilometer".to_string()]);
    // other names unchanged
    assert_eq!(registry.get(&"kg".to_string()).unwrap().scale, 1.0);
}

#[test]
fn define_unit_replaces_a_unit_of_the_same_name() {
    let mut registry = create_unit_registry();
    registry.define_unit(DefinedUnit::new(
        "kg".to_string(),
        dims([0.0, 1.0, 0.0, 0.0, 0.0, 0.0, 0.0]),
        2.0,
        vec![],
    ));
    assert_eq!(registry.get(&"kg".to_string()).unwrap().scale, 2.0);
}

#[test]
fn new_keeps_the_last_definition_of_a_name() {
    let a = DefinedUnit::new("u".to_string(), dims([0.0; 7]), 1.0, vec![]);
    let b = DefinedUnit::new("u".to_string(), dims([0.0; 7]), 3.0, vec![]);
    let registry = UnitRegistry::new(vec![a, b]);
    assert_eq!(registry.get(&"u".to_string()).unwrap().scale, 3.0);
}

#[test]
fn new_with_si_has_the_seven_base_units() {
    let registry: UnitRegistry<f64> = UnitRegistry::new_with_si();
    let names = ["m", "kg", "s", "A", "K", "mol", "cd"];
    for (i, name) in names.iter().enumerate() {
        let unit = registry.get(&name.to_string()).unwrap();
        assert_eq!(unit.scale, 1.0);
        assert!(unit.aliases().is_empty());
        for j in 0..7 {
            let expected = if i == j { 1 } else { 0 };
            assert_eq!(unit.dimensions[j].num(), Some(expected));
            assert_eq!(unit.dimensions[j].den(), Some(1));
        }
    }
    assert!(registry.get(&"g".to_string()).is_none());
}

#[test]
fn try_parse_string_refuses_a_malformed_number() {
    let registry = create_unit_registry();
    assert!(registry.try_parse_string("kg^1.2.3".to_string()).is_none());
    assert!(registry.try_parse_string("kg^2".to_string()).unwrap().is_ok());
}

#[test]
fn parse_string_reads_back_a_defined_unit() {
    let mut registry = create_unit_registry();
    assert!(registry.parse_string("furlong_2".to_string()).is_err());
    registry.define_unit(DefinedUnit::new(
        "furlong_2".to_string(),
        dims([1.0, 0.0, 0.0, 0.0, 0.0, 0.0, 0.0]),
        201.168,
        vec![],
    ));
    let unit = registry.parse_string("furlong_2".to_string()).unwrap();
    assert_eq!(unit.len(), 1);
    assert_eq!(exponent(&unit, "furlong_2"), Some(1.0));
}
