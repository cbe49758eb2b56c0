use concorde::text::number_text;
use concorde::tokenizer::{has_malformed_number, skip_whitespace, tokenize, Token, TokenizerError};

fn describe(tokens: &[Token]) -> Vec<String> {
    tokens
        .iter()
        .map(|t| match t {
            Token::Identifier(s) => format!("id:{}", s),
            Token::Number(s) => format!("num:{}", s),
            Token::Multiply => "*".to_string(),
            Token::Divide => "/".to_string(),
            Token::Power => "^".to_string(),
            Token::LeftParen => "(".to_string(),
            Token::RightParen => ")".to_string(),
        })
        .collect()
}

#[test]
fn tokenize_operators_and_names() {
    let t = tokenize("kg*m**2/s^(3/2)").unwrap();
    assert_eq!(
        describe(&t),
        vec!["id:kg", "*", "id:m", "^", "num:2", "/", "id:s", "^", "(", "num:3", "/", "num:2", ")"]
    );
}

#[test]
fn whitespace_between_factors_is_multiplication() {
    let t = tokenize("kg m").unwrap();
    assert_eq!(describe(&t), vec!["id:kg", "*", "id:m"]);
    let t = tokenize("(kg)  (m)").unwrap();
    assert_eq!(describe(&t), vec!["(", "id:kg", ")", "*", "(", "id:m", ")"]);
    let t = tokenize("kg * m").unwrap();
    assert_eq!(describe(&t), vec!["id:kg", "*", "id:m"]);
    let t = tokenize("m^2 s").unwrap();
    assert_eq!(describe(&t), vec!["id:m", "^", "num:2", "id:s"]);
    let t = tokenize("  kg  ").unwrap();
    assert_eq!(describe(&t), vec!["id:kg"]);
}

#[test]
fn identifiers_take_digits_and_underscores() {
    let t = tokenize("m2_x 2.5").unwrap();
    assert_eq!(describe(&t), vec!["id:m2_x", "num:2.5"]);
}

#[test]
fn unexpected_character_is_an_error() {
    assert!(matches!(tokenize("kg + m"), Err(TokenizerError::UnexpectedCharacter)));
    assert!(matches!(tokenize("_kg"), Err(TokenizerError::UnexpectedCharacter)));
    assert!(matches!(tokenize("kg\r"), Err(TokenizerError::UnexpectedCharacter)));
}

#[test]
fn malformed_numbers_are_detected() {
    assert!(has_malformed_number("kg^1.2.3"));
    assert!(!has_malformed_number("kg^1.2"));
    assert!(!has_malformed_number("kg^2."));
}

#[test]
fn skip_whitespace_stops_at_the_first_other_character() {
    let chars: Vec<char> = " \t\n x ".chars().collect();
    assert_eq!(skip_whitespace(&chars, 0), 4);
    assert_eq!(skip_whitespace(&chars, 4), 4);
    assert_eq!(skip_whitespace(&chars, 5), 6);
}

#[test]
fn spaces_at_the_ends_add_no_token() {
    for s in ["kg", "kg m", "m^2 / s", "(kg s)", "2.5", "kg*"] {
        let base = describe(&tokenize(s).unwrap());
        assert_eq!(describe(&tokenize(&format!(" {}", s)).unwrap()), base);
        assert_eq!(describe(&tokenize(&format!("{} ", s)).unwrap()), base);
        assert_eq!(describe(&tokenize(&format!("  {}  ", s)).unwrap()), base);
    }
    assert!(matches!(tokenize(" kg $"), Err(TokenizerError::UnexpectedCharacter)));
    assert!(matches!(tokenize("kg $ "), Err(TokenizerError::UnexpectedCharacter)));
}

#[test]
fn spaces_around_explicit_operators_add_no_token() {
    assert_eq!(
        describe(&tokenize("kg * m / s ^ 2").unwrap()),
        describe(&tokenize("kg*m/s^2").unwrap())
    );
}

#[test]
fn unicode_spaces_continue_a_whitespace_run() {
    let t = tokenize("kg \u{00A0}m").unwrap();
    assert_eq!(describe(&t), vec!["id:kg", "*", "id:m"]);
}

#[test]
fn number_tokens_are_written_as_floats() {
    assert_eq!(number_text(&"2".to_string()), "2.0");
    assert_eq!(number_text(&"007.2500".to_string()), "7.25");
    assert_eq!(number_text(&"0.5".to_string()), "0.5");
    assert_eq!(number_text(&"10.".to_string()), "10.0");
    assert_eq!(number_text(&"000".to_string()), "0.0");
    assert_eq!(concorde::text::describe("x", None), "x, got None");
    assert_eq!(concorde::text::describe("x", Some(&Token::Power)), "x, got Some(Power)");
}

#[test]
fn at_most_one_token_per_character() {
    for s in ["kg m", "kg**2", "(m)(s)", "a b c d", "1.5"] {
        assert!(tokenize(s).unwrap().len() <= s.chars().count());
    }
    assert_eq!(tokenize("a b").unwrap().len(), 3);
}

#[test]
fn whitespace_is_the_unicode_white_space_property() {
    for n in 0..=0x10FFFFu32 {
        if let Some(c) = char::from_u32(n) {
            assert_eq!(concorde::chars::is_whitespace(c), c.is_whitespace(), "{:x}", n);
        }
    }
}
