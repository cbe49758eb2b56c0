use concorde::nom_parser::{decimal_to_rational, expression, parse, Halt, ErrorCode, ParserError};
use concorde::rational::Rational;
use concorde::unit::{DefinedUnit, Unit};
use concorde::unit_registry::UnitRegistry;

fn dims(v: [f64; 7]) -> [Rational; 7] {
    v.map(|x| Rational::from_integer(x as i64))
}

fn create_unit_registry() -> UnitRegistry<f64> {
    let kg_unit = DefinedUnit::new(
        "kg".to_string(),
        dims([0.0, 1.0, 0.0, 0.0, 0.0, 0.0, 0.0]),
        1.0,
        vec![],
    );
    let s = DefinedUnit::new(
        "s".to_string(),
        dims([0.0, 0.0, 1.0, 0.0, 0.0, 0.0, 0.0]),
        1.0,
        vec![],
    );
    let m = DefinedUnit::new(
        "m".to_string(),
        dims([1.0, 0.0, 0.0, 0.0, 0.0, 0.0, 0.0]),
        1.0,
        vec![],
    );
    UnitRegistry::new(Vec::from_iter([kg_unit, s, m]))
}

fn exponent(unit: &Unit<f64>, name: &str) -> Option<f64> {
    unit.get_exponent(&name.to_string())
        .map(|r| r.num().unwrap() as f64 / r.den().unwrap() as f64)
}


#[test]
fn nom_parser_test_parse_integer_exponent() {
    let registry = create_unit_registry();
    let unit = parse(&registry, "kg**2").unwrap();
    assert_eq!(exponent(&unit, "kg"), Some(2.0));
}

#[test]
fn nom_parser_test_parse_decimal_exponent() {
    let registry = create_unit_registry();
    let unit = parse(&registry, "kg**2.5").unwrap();
    assert_eq!(exponent(&unit, "kg"), Some(2.5));
}

#[test]
fn nom_parser_test_parse_fraction_exponent() {
    let registry = create_unit_registry();
    let unit = parse(&registry, "kg**(2/5)").unwrap();
    assert_eq!(exponent(&unit, "kg"), Some(0.4));
}

#[test]
fn nom_parser_test_parse_unit_multiplication_with_asterisk() {
    let registry = create_unit_registry();
    let unit = parse(&registry, "kg * s").unwrap();
    assert_eq!(exponent(&unit, "kg"), Some(1.0));
    assert_eq!(exponent(&unit, "s"), Some(1.0));
    assert_eq!(unit.len(), 2);
}

#[test]
fn nom_parser_test_parse_unit_division() {
    let registry = create_unit_registry();
    let unit = parse(&registry, "kg / s").unwrap();
    assert_eq!(exponent(&unit, "kg"), Some(1.0));
    assert_eq!(exponent(&unit, "s"), Some(-1.0));
    assert_eq!(unit.len(), 2);
}

#[test]
fn nom_parser_test_multiplication_and_division_precedence() {
    let registry = create_unit_registry();
    let unit = parse(&registry, "kg / s * s").unwrap();
    assert_eq!(exponent(&unit, "kg"), Some(1.0));
    assert_eq!(exponent(&unit, "s"), None);
    assert_eq!(unit.len(), 1);
}

#[test]
fn nom_parser_test_brackets() {
    let registry = create_unit_registry();
    let unit = parse(&registry, "kg / (s * s)").unwrap();
    assert_eq!(exponent(&unit, "kg"), Some(1.0));
    assert_eq!(exponent(&unit, "s"), Some(-2.0));
}

#[test]
fn nom_parser_test_complex_precedence_mixed_operators() {
    let registry = create_unit_registry();
    let unit = parse(&registry, "kg * m^2 / s^2").unwrap();
    assert_eq!(exponent(&unit, "kg"), Some(1.0));
    assert_eq!(exponent(&unit, "m"), Some(2.0));
    assert_eq!(exponent(&unit, "s"), Some(-2.0));
}

#[test]
fn nom_parser_test_chained_exponentiation_with_fractions() {
    let registry = create_unit_registry();
    let unit = parse(&registry, "m^(3/2) * kg^(1/3) / s^(2/3)").unwrap();
    assert_eq!(exponent(&unit, "m"), Some(1.5));
    assert_eq!(exponent(&unit, "kg"), Some(1.0 / 3.0));
    assert_eq!(exponent(&unit, "s"), Some(-2.0 / 3.0));
}

#[test]
fn nom_parser_test_same_unit_multiple_times() {
    let registry = create_unit_registry();
    let unit = parse(&registry, "kg * kg * kg").unwrap();
    assert_eq!(exponent(&unit, "kg"), Some(3.0));
}

#[test]
fn nom_parser_test_same_unit_cancellation() {
    let registry = create_unit_registry();
    let unit = parse(&registry, "kg / kg").unwrap();
    assert_eq!(exponent(&unit, "kg"), None);
}

#[test]
fn nom_parser_test_implicit_multiplication() {
    let registry = create_unit_registry();
    let unit = parse(&registry, "kg s").unwrap();
    assert_eq!(exponent(&unit, "kg"), Some(1.0));
    assert_eq!(exponent(&unit, "s"), Some(1.0));
}

fn message(r: Result<Unit<f64>, ParserError>) -> String {
    match r {
        Err(ParserError::NomError(m)) => m,
        other => panic!("expected a grammar error, got {:?}", other.map(|u| u.len())),
    }
}

#[test]
fn nom_parser_empty_input_wants_an_identifier() {
    let registry = create_unit_registry();
    assert_eq!(
        message(parse(&registry, "")),
        "Parsing Error: Error { input: \"\", code: Alpha }"
    );
}

#[test]
fn nom_parser_unknown_unit_is_a_failure() {
    let registry = create_unit_registry();
    assert_eq!(
        message(parse(&registry, "kg * lb")),
        "Parsing Failure: Error { input: \"\", code: Tag }"
    );
    let cs: Vec<char> = "kg * lb s".chars().collect();
    assert!(matches!(expression(&registry, &cs, 0), Err(Halt::Failure(7, ErrorCode::Tag))));
}

#[test]
fn nom_parser_exponent_marker_without_digits_is_a_failure() {
    let registry = create_unit_registry();
    let cs: Vec<char> = "kg^2e".chars().collect();
    assert!(matches!(expression(&registry, &cs, 0), Err(Halt::Failure(3, ErrorCode::Float))));
}

#[test]
fn nom_parser_missing_operand_after_operator() {
    let registry = create_unit_registry();
    let cs: Vec<char> = "kg *  ".chars().collect();
    assert!(matches!(expression(&registry, &cs, 0), Err(Halt::Error(6, ErrorCode::Alpha))));
}

#[test]
fn nom_parser_unclosed_bracket() {
    let registry = create_unit_registry();
    let cs: Vec<char> = "(kg s".chars().collect();
    assert!(matches!(expression(&registry, &cs, 0), Err(Halt::Error(5, ErrorCode::Char))));
}

#[test]
fn nom_parser_rest_of_input_is_not_read() {
    let registry = create_unit_registry();
    let cs: Vec<char> = "kg ) m".chars().collect();
    match expression(&registry, &cs, 0) {
        Ok((unit, end)) => {
            assert_eq!(end, 3);
            assert_eq!(exponent(&unit, "kg"), Some(1.0));
            assert_eq!(unit.len(), 1);
        }
        Err(h) => panic!("unexpected halt {:?}", h),
    }
    // a power marker that is not followed by an exponent is left unread
    let unit = parse(&registry, "kg^ 2").unwrap();
    assert_eq!(exponent(&unit, "kg"), Some(1.0));
    let unit = parse(&registry, "kg^(2/x)").unwrap();
    assert_eq!(exponent(&unit, "kg"), Some(1.0));
}

#[test]
fn nom_parser_number_forms() {
    let registry = create_unit_registry();
    assert_eq!(exponent(&parse(&registry, "kg^-1").unwrap(), "kg"), Some(-1.0));
    assert_eq!(exponent(&parse(&registry, "kg^+3").unwrap(), "kg"), Some(3.0));
    assert_eq!(exponent(&parse(&registry, "kg^1e1").unwrap(), "kg"), Some(10.0));
    assert_eq!(exponent(&parse(&registry, "kg^25E-1").unwrap(), "kg"), Some(2.5));
    assert_eq!(exponent(&parse(&registry, "kg^.5").unwrap(), "kg"), Some(0.5));
    assert_eq!(exponent(&parse(&registry, "kg^2.").unwrap(), "kg"), Some(2.0));
    assert_eq!(exponent(&parse(&registry, "kg^( 3 / -4 )").unwrap(), "kg"), Some(-0.75));
    assert_eq!(exponent(&parse(&registry, "kg^2m").unwrap(), "m"), Some(1.0));
}

#[test]
fn nom_parser_zero_exponents() {
    let registry = create_unit_registry();
    // a unit name to the power zero leaves no component
    assert_eq!(parse(&registry, "kg^0").unwrap().len(), 0);
    // a power of a bracket keeps components whose exponent becomes zero
    let unit = parse(&registry, "(kg)^0").unwrap();
    assert_eq!(unit.len(), 1);
    assert_eq!(exponent(&unit, "kg"), Some(0.0));
}

#[test]
fn nom_parser_exponents_that_are_not_rationals() {
    let registry = create_unit_registry();
    for text in ["kg^nan", "kg^INF", "kg^infinity", "kg^(1/0)", "kg^1e99999999999999999999"] {
        assert!(matches!(parse(&registry, text), Err(ParserError::ExponentOutOfRange)), "{}", text);
    }
    // large and precise numbers are exact
    let unit = parse(&registry, "kg^1e40").unwrap();
    let expected = Rational::from_integer(10).checked_pow(&Rational::from_integer(40)).unwrap();
    assert_eq!(unit.get_exponent(&"kg".to_string()), Some(expected));
    let unit = parse(&registry, "kg^-2.5e-30").unwrap();
    let expected = Rational::new(-5, 2)
        .unwrap()
        .checked_div(&Rational::from_integer(10).checked_pow(&Rational::from_integer(30)).unwrap())
        .unwrap();
    assert_eq!(unit.get_exponent(&"kg".to_string()), Some(expected));
    // a number that is never used does not matter
    let unit = parse(&registry, "kg^(1e99/x)").unwrap();
    assert_eq!(exponent(&unit, "kg"), Some(1.0));
}

#[test]
fn nom_parser_reads_back_a_defined_unit() {
    let mut registry = create_unit_registry();
    registry.define_unit(DefinedUnit::new(
        "mi2".to_string(),
        dims([1.0, 0.0, 0.0, 0.0, 0.0, 0.0, 0.0]),
        1609.344,
        vec![],
    ));
    let cs: Vec<char> = "mi2".chars().collect();
    match expression(&registry, &cs, 0) {
        Ok((unit, end)) => {
            assert_eq!(end, 3);
            assert_eq!(unit.len(), 1);
            assert_eq!(exponent(&unit, "mi2"), Some(1.0));
        }
        Err(h) => panic!("unexpected halt {:?}", h),
    }
}

#[test]
fn nom_parser_decimal_text() {
    let half = decimal_to_rational("0.5").unwrap();
    assert_eq!((half.num(), half.den()), (Some(1), Some(2)));
    let v = decimal_to_rational("-2.5e-1").unwrap();
    assert_eq!((v.num(), v.den()), (Some(-1), Some(4)));
    let v = decimal_to_rational("1e3").unwrap();
    assert_eq!((v.num(), v.den()), (Some(1000), Some(1)));
    assert!(decimal_to_rational("1.5x").is_none());
    assert!(decimal_to_rational("NaN").is_none());
    assert!(decimal_to_rational("inf").is_none());
    assert!(decimal_to_rational("").is_none());
}

#[test]
fn nom_parser_error_messages() {
    let registry = create_unit_registry();
    assert_eq!(
        parse(&registry, "").unwrap_err().message(),
        "Parse error: Parsing Error: Error { input: \"\", code: Alpha }"
    );
    assert_eq!(parse(&registry, "kg^nan").unwrap_err().message(), "Exponent out of range");
}

#[test]
fn nom_error_messages_quote_the_rest_of_the_input() {
    let registry = create_unit_registry();
    match parse(&registry, "kg * \"x\"\t") {
        Err(ParserError::NomError(m)) => {
            assert_eq!(m, "Parsing Error: Error { input: \"\\\"x\\\"\\t\", code: Alpha }")
        }
        other => panic!("unexpected result: {}", other.is_ok()),
    }
    match parse(&registry, "kg * \u{1}") {
        Err(ParserError::NomError(m)) => {
            assert_eq!(m, "Parsing Error: Error { input: \"\\u{1}\", code: Alpha }")
        }
        other => panic!("unexpected result: {}", other.is_ok()),
    }
}
