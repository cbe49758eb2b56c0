use concorde::parser::{parse, ParserError};
use concorde::rational::Rational;
use concorde::unit::{DefinedUnit, Unit};
use concorde::unit_registry::UnitRegistry;

fn dims(v: [f64; 7]) -> [Rational; 7] {
    v.map(|x| Rational::from_integer(x as i64))
}

fn create_unit_registry() -> UnitRegistry<f64> {
    let kg_unit = DefinedUnit::new(
        "kg".to_string(),
        dims([0.0, 1.0, 0.0, 0.0, 0.0, 0.0, 0.0]),
        1.0,
        vec![],
    );
    let s = DefinedUnit::new(
        "s".to_string(),
        dims([0.0, 0.0, 1.0, 0.0, 0.0, 0.0, 0.0]),
        1.0,
        vec![],
    );
    let m = DefinedUnit::new(
        "m".to_string(),
        dims([1.0, 0.0, 0.0, 0.0, 0.0, 0.0, 0.0]),
        1.0,
        vec![],
    );
    UnitRegistry::new(Vec::from_iter([kg_unit, s, m]))
}

fn exponent(unit: &Unit<f64>, name: &str) -> Option<f64> {
    unit.get_exponent(&name.to_string())
        .map(|r| r.num().unwrap() as f64 / r.den().unwrap() as f64)
}

#[test]
fn parser_test_parse_integer_exponent() {
    let registry = create_unit_registry();
    let unit = parse(&registry, "kg**2").unwrap();
    assert_eq!(exponent(&unit, "kg"), Some(2.0));
}

#[test]
fn parser_test_parse_decimal_exponent() {
    let registry = create_unit_registry();
    let unit = parse(&registry, "kg**2.5").unwrap();
    assert_eq!(exponent(&unit, "kg"), Some(2.5));
}

#[test]
fn parser_test_parse_fraction_exponent() {
    let registry = create_unit_registry();
    let unit = parse(&registry, "kg**(2/5)").unwrap();
    assert_eq!(exponent(&unit, "kg"), Some(0.4));
}

#[test]
fn parser_test_parse_unit_multiplication_with_asterisk() {
    let registry = create_unit_registry();
    let unit = parse(&registry, "kg * s").unwrap();
    assert_eq!(exponent(&unit, "kg"), Some(1.0));
    assert_eq!(exponent(&unit, "s"), Some(1.0));
    assert_eq!(unit.len(), 2);
}

#[test]
fn parser_test_parse_unit_division() {
    let registry = create_unit_registry();
    let unit = parse(&registry, "kg / s").unwrap();
    assert_eq!(exponent(&unit, "kg"), Some(1.0));
    assert_eq!(exponent(&unit, "s"), Some(-1.0));
    assert_eq!(unit.len(), 2);
}

#[test]
fn parser_test_multiplication_and_division_precedence() {
    let registry = create_unit_registry();
    let unit = parse(&registry, "kg / s * s").unwrap();
    assert_eq!(exponent(&unit, "kg"), Some(1.0));
    assert_eq!(exponent(&unit, "s"), None);
    assert_eq!(unit.len(), 1);
}

#[test]
fn parser_test_brackets() {
    let registry = create_unit_registry();
    let unit = parse(&registry, "kg / (s * s)").unwrap();
    assert_eq!(exponent(&unit, "kg"), Some(1.0));
    assert_eq!(exponent(&unit, "s"), Some(-2.0));
}

#[test]
fn parser_test_complex_precedence_mixed_operators() {
    let registry = create_unit_registry();
    let unit = parse(&registry, "kg * m^2 / s^2").unwrap();
    assert_eq!(exponent(&unit, "kg"), Some(1.0));
    assert_eq!(exponent(&unit, "m"), Some(2.0));
    assert_eq!(exponent(&unit, "s"), Some(-2.0));
}

#[test]
fn parser_test_chained_exponentiation_with_fractions() {
    let registry = create_unit_registry();
    let unit = parse(&registry, "m^(3/2) * kg^(1/3) / s^(2/3)").unwrap();
    assert_eq!(exponent(&unit, "m"), Some(1.5));
    assert_eq!(exponent(&unit, "kg"), Some(1.0 / 3.0));
    assert_eq!(exponent(&unit, "s"), Some(-2.0 / 3.0));
}

#[test]
fn parser_test_same_unit_multiple_times() {
    let registry = create_unit_registry();
    let unit = parse(&registry, "kg * kg * kg").unwrap();
    assert_eq!(exponent(&unit, "kg"), Some(3.0));
}

#[test]
fn parser_test_same_unit_cancellation() {
    let registry = create_unit_registry();
    let unit = parse(&registry, "kg / kg").unwrap();
    assert_eq!(exponent(&unit, "kg"), None);
}

#[test]
fn parser_test_implicit_multiplication() {
    let registry = create_unit_registry();
    let unit = parse(&registry, "kg s").unwrap();
    assert_eq!(exponent(&unit, "kg"), Some(1.0));
    assert_eq!(exponent(&unit, "s"), Some(1.0));
}

#[test]
fn parse_unknown_unit_is_an_error() {
    let registry = create_unit_registry();
    assert!(matches!(parse(&registry, "furlong"), Err(ParserError::UnknownUnit)));
}

#[test]
fn parse_unexpected_character_is_a_tokenizer_error() {
    let registry = create_unit_registry();
    assert!(matches!(parse(&registry, "kg + s"), Err(ParserError::TokenizerError(_))));
}

#[test]
fn parse_missing_closing_paren_is_unexpected_token() {
    let registry = create_unit_registry();
    assert!(matches!(parse(&registry, "(kg * s"), Err(ParserError::UnexpectedToken(_))));
}

#[test]
fn parse_empty_input_is_unexpected_token() {
    let registry = create_unit_registry();
    assert!(matches!(parse(&registry, ""), Err(ParserError::UnexpectedToken(_))));
}

#[test]
fn parse_missing_exponent_is_expected_number() {
    let registry = create_unit_registry();
    assert!(matches!(parse(&registry, "kg^"), Err(ParserError::ExpectedNumber(_))));
    assert!(matches!(parse(&registry, "kg^(/2)"), Err(ParserError::ExpectedNumber(_))));
    assert!(matches!(parse(&registry, "kg^(2/)"), Err(ParserError::ExpectedNumber(_))));
}

#[test]
fn parse_unclosed_fraction_is_unexpected_token() {
    let registry = create_unit_registry();
    assert!(matches!(parse(&registry, "kg^(2/3"), Err(ParserError::UnexpectedToken(_))));
    assert!(matches!(parse(&registry, "kg^(2 3)"), Err(ParserError::UnexpectedToken(_))));
}

#[test]
fn parse_zero_denominator_is_out_of_range() {
    let registry = create_unit_registry();
    assert!(matches!(parse(&registry, "kg^(1/0)"), Err(ParserError::ExponentOutOfRange)));
}

#[test]
fn parse_large_exponents_exactly() {
    let registry = create_unit_registry();
    let unit = parse(&registry, "kg^99999999999999999999").unwrap();
    let expected = Rational::from_integer(10)
        .checked_pow(&Rational::from_integer(20))
        .unwrap()
        .sub(&Rational::one());
    assert_eq!(unit.get_exponent(&"kg".to_string()), Some(expected));
    let unit = parse(&registry, "kg^0.000000000000000000001").unwrap();
    let expected = Rational::one()
        .checked_div(&Rational::from_integer(10).checked_pow(&Rational::from_integer(21)).unwrap())
        .unwrap();
    assert_eq!(unit.get_exponent(&"kg".to_string()), Some(expected));
}

#[test]
fn parse_power_binds_tighter_than_division() {
    let registry = create_unit_registry();
    let unit = parse(&registry, "m / s^2").unwrap();
    assert_eq!(exponent(&unit, "m"), Some(1.0));
    assert_eq!(exponent(&unit, "s"), Some(-2.0));
}

#[test]
fn parse_chained_powers_are_right_associative() {
    let registry = create_unit_registry();
    let unit = parse(&registry, "m^2^3").unwrap();
    assert_eq!(exponent(&unit, "m"), Some(8.0));
    let unit = parse(&registry, "m**3**2").unwrap();
    assert_eq!(exponent(&unit, "m"), Some(9.0));
    let unit = parse(&registry, "m^(1/2)^2").unwrap();
    assert_eq!(exponent(&unit, "m"), Some(0.25));
    let unit = parse(&registry, "m^(2/3)^2").unwrap();
    assert_eq!(exponent(&unit, "m"), Some(4.0 / 9.0));
    let unit = parse(&registry, "m^0^0").unwrap();
    assert_eq!(exponent(&unit, "m"), Some(1.0));
    let unit = parse(&registry, "m^2^3 * s").unwrap();
    assert_eq!(exponent(&unit, "m"), Some(8.0));
    assert_eq!(exponent(&unit, "s"), Some(1.0));
}

#[test]
fn parse_tower_with_a_fractional_upper_exponent() {
    let registry = create_unit_registry();
    let unit = parse(&registry, "m^4^0.5").unwrap();
    assert_eq!(exponent(&unit, "m"), Some(2.0));
    let unit = parse(&registry, "m^(8/27)^(2/3)").unwrap();
    assert_eq!(exponent(&unit, "m"), Some(4.0 / 9.0));
    let unit = parse(&registry, "m^(1/4)^(1/2)").unwrap();
    assert_eq!(exponent(&unit, "m"), Some(0.5));
    assert!(matches!(parse(&registry, "m^2^0.5"), Err(ParserError::ExponentOutOfRange)));
    let unit = parse(&registry, "m^10^30").unwrap();
    let expected = Rational::from_integer(10).checked_pow(&Rational::from_integer(30)).unwrap();
    assert_eq!(unit.get_exponent(&"m".to_string()), Some(expected));
}

#[test]
fn parse_power_of_parenthesized_expression() {
    let registry = create_unit_registry();
    let unit = parse(&registry, "(m / s)^2").unwrap();
    assert_eq!(exponent(&unit, "m"), Some(2.0));
    assert_eq!(exponent(&unit, "s"), Some(-2.0));
}

#[test]
fn parse_zero_power_keeps_the_component() {
    let registry = create_unit_registry();
    let unit = parse(&registry, "kg^0").unwrap();
    assert_eq!(exponent(&unit, "kg"), Some(0.0));
    assert_eq!(unit.len(), 1);
}

#[test]
fn parse_ignores_tokens_after_the_expression() {
    let registry = create_unit_registry();
    let unit = parse(&registry, "kg 5").unwrap();
    assert_eq!(exponent(&unit, "kg"), Some(1.0));
    assert_eq!(unit.len(), 1);
}

#[test]
fn parse_error_messages() {
    let registry = create_unit_registry();
    assert_eq!(parse(&registry, "lb").unwrap_err().message(), "Unknown unit");
    assert_eq!(
        parse(&registry, "kg $").unwrap_err().message(),
        "Tokenizer error: unexpected character"
    );
    assert_eq!(parse(&registry, "kg^(1/0)").unwrap_err().message(), "Exponent out of range");
    assert!(parse(&registry, "kg^").unwrap_err().message().starts_with("Expected number: "));
    assert!(parse(&registry, "(kg").unwrap_err().message().starts_with("Unexpected token: "));
}

#[test]
fn the_two_readers_agree_on_the_test_strings() {
    let registry = create_unit_registry();
    let strings = [
        "kg**2", "kg**2.5", "kg**(2/5)", "kg * s", "kg / s", "kg / s * s", "kg / (s * s)",
        "kg * m^2 / s^2", "m^(3/2) * kg^(1/3) / s^(2/3)", "kg * kg * kg", "kg / kg", "kg s",
    ];
    for text in strings {
        let a = parse(&registry, text).unwrap();
        let b = concorde::nom_parser::parse(&registry, text).unwrap();
        assert!(a.same_exponents(&b), "{}", text);
        assert_eq!(a.len(), b.len(), "{}", text);
        for name in ["kg", "s", "m"] {
            assert_eq!(exponent(&a, name), exponent(&b, name), "{} {}", text, name);
        }
    }
}

#[test]
fn unexpected_token_messages_write_tokens_as_debug_does() {
    let registry = create_unit_registry();
    match parse(&registry, "kg^(2 3)") {
        Err(ParserError::UnexpectedToken(m)) => assert_eq!(m, "expected ')' or '/', got Some(Number(3.0))"),
        other => panic!("unexpected result: {}", other.is_ok()),
    }
    match parse(&registry, "kg^*") {
        Err(ParserError::ExpectedNumber(m)) => {
            assert_eq!(m, "expected number or '(' after '^', got Some(Multiply)")
        }
        other => panic!("unexpected result: {}", other.is_ok()),
    }
    match parse(&registry, "(kg") {
        Err(ParserError::UnexpectedToken(m)) => assert_eq!(m, "expected ')', got None"),
        other => panic!("unexpected result: {}", other.is_ok()),
    }
    match parse(&registry, "kg^(1/2 kg") {
        Err(ParserError::UnexpectedToken(m)) => {
            assert_eq!(m, "expected ')', got Some(Identifier(\"kg\"))")
        }
        other => panic!("unexpected result: {}", other.is_ok()),
    }
    match parse(&registry, "kg^(007.2500 x") {
        Err(ParserError::UnexpectedToken(m)) => {
            assert_eq!(m, "expected ')' or '/', got Some(Identifier(\"x\"))")
        }
        other => panic!("unexpected result: {}", other.is_ok()),
    }
}
