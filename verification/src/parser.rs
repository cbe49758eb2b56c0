//! A Pratt parser for unit expressions such as `kg * m^2 / s^2`,
//! `m^(3/2)` or `kg s` (juxtaposition is multiplication).
//!
//! `*` and `/` are left-associative at the lowest precedence; `^` (or `**`)
//! binds tighter and takes a number or a parenthesized fraction as exponent.
//! `^` is right-associative: `kg^2^3` is `kg^(2^3)`, that is `kg^8`.
use vstd::prelude::*;
use std::sync::Arc;
use crate::chars::is_ascii_digit;
use crate::rational::{Rational, fits, norm, rat_div, rat_pow, rat_mul, is_reduced};
use crate::natural::Natural;
use crate::text::{describe, describe_text};
use crate::tokenizer::{
    Token, TokenView, TokenizerError, LexOutcome, spec_tokenize, tokens_view, has_dot, tokenize,
    chars_of,
};
use crate::unit::{
    DefinedUnit, Unit, UnitMap, spec_combine, spec_pow, drop_zeros, comps_map,
    comp_name, distinct_names, Component, lemma_comps_map,
};
use crate::unit_registry::UnitRegistry;

verus! {

/// Why a unit expression cannot be parsed.
#[derive(Debug)]
pub enum ParserError {
    TokenizerError(TokenizerError),
    ExpectedNumber(String),
    UnknownUnit,
    UnexpectedToken(String),
    UnexpectedEnd,
    /// An exponent has no rational value: a fraction with denominator zero,
    /// or a power of exponents whose value is irrational, not real, or held
    /// by no machine (see `rat_pow`).
    ExponentOutOfRange,
}

/// The kind of a `ParserError`, without its message.
pub enum ParseErrorKind {
    Tokenizer,
    ExpectedNumber(Seq<char>),
    UnknownUnit,
    UnexpectedToken(Seq<char>),
    UnexpectedEnd,
    ExponentOutOfRange,
}

pub open spec fn error_kind(e: ParserError) -> ParseErrorKind {
    match e {
        ParserError::TokenizerError(_) => ParseErrorKind::Tokenizer,
        ParserError::ExpectedNumber(m) => ParseErrorKind::ExpectedNumber(m@),
        ParserError::UnknownUnit => ParseErrorKind::UnknownUnit,
        ParserError::UnexpectedToken(m) => ParseErrorKind::UnexpectedToken(m@),
        ParserError::UnexpectedEnd => ParseErrorKind::UnexpectedEnd,
        ParserError::ExponentOutOfRange => ParseErrorKind::ExponentOutOfRange,
    }
}

/// The message of a parse error.
pub open spec fn error_message(e: ParserError) -> Seq<char> {
    match e {
        ParserError::TokenizerError(t) => crate::tokenizer::tokenizer_message(t),
        ParserError::ExpectedNumber(m) => "Expected number: "@ + m@,
        ParserError::UnknownUnit => "Unknown unit"@,
        ParserError::UnexpectedToken(m) => "Unexpected token: "@ + m@,
        ParserError::UnexpectedEnd => "Unexpected end of input"@,
        ParserError::ExponentOutOfRange => "Exponent out of range"@,
    }
}

impl ParserError {
    /// The message of this error.
    pub fn message(&self) -> (s: String)
        ensures
            s@ == error_message(*self),
    {
        match self {
            ParserError::TokenizerError(t) => t.message(),
            ParserError::ExpectedNumber(m) => String::from_str("Expected number: ").concat(m.as_str()),
            ParserError::UnknownUnit => String::from_str("Unknown unit"),
            ParserError::UnexpectedToken(m) => String::from_str("Unexpected token: ").concat(m.as_str()),
            ParserError::UnexpectedEnd => String::from_str("Unexpected end of input"),
            ParserError::ExponentOutOfRange => String::from_str("Exponent out of range"),
        }
    }
}

impl From<TokenizerError> for ParserError {
    fn from(e: TokenizerError) -> (r: ParserError) {
        ParserError::TokenizerError(e)
    }
}

impl vstd::std_specs::convert::FromSpecImpl<TokenizerError> for ParserError {
    open spec fn obeys_from_spec() -> bool {
        true
    }

    open spec fn from_spec(v: TokenizerError) -> ParserError {
        ParserError::TokenizerError(v)
    }
}

// ---------------------------------------------------------------------------
// Numbers
// ---------------------------------------------------------------------------

pub open spec fn pow10(k: nat) -> nat
    decreases k,
{
    if k == 0 {
        1
    } else {
        10 * pow10((k - 1) as nat)
    }
}

pub open spec fn digit_value(c: char) -> nat {
    (c as int - '0' as int) as nat
}

/// The digits of a decimal literal read as one integer (the `.` ignored).
pub open spec fn lit_mantissa(t: Seq<char>) -> nat
    decreases t.len(),
{
    if t.len() == 0 {
        0
    } else if t.last() == '.' {
        lit_mantissa(t.drop_last())
    } else {
        lit_mantissa(t.drop_last()) * 10 + digit_value(t.last())
    }
}

/// The number of digits after the `.` of a decimal literal.
pub open spec fn lit_scale(t: Seq<char>) -> nat
    decreases t.len(),
{
    if t.len() == 0 {
        0
    } else if t.last() == '.' {
        0
    } else if has_dot(t.drop_last()) {
        lit_scale(t.drop_last()) + 1
    } else {
        0
    }
}

/// The value of a decimal literal, `mantissa / 10^scale` in lowest terms,
/// when the literal is valid.
pub open spec fn literal_rational(t: Seq<char>) -> Option<(int, int)> {
    if crate::tokenizer::is_valid_literal(t) {
        Some(norm(lit_mantissa(t) as int, pow10(lit_scale(t))))
    } else {
        None
    }
}

pub(crate) proof fn lemma_pow10_grows(k: nat, l: nat)
    requires
        k <= l,
    ensures
        1 <= pow10(k) <= pow10(l),
    decreases l,
{
    if k < l {
        lemma_pow10_grows(k, (l - 1) as nat);
    } else if k > 0 {
        lemma_pow10_grows((k - 1) as nat, (k - 1) as nat);
    }
}

/// The value of the literal `text` (ASCII digits, at most one `.`), or
/// `None` when it is not such a literal.
fn literal_to_rational(text: &String) -> (r: Option<Rational>)
    ensures
        r is Some <==> literal_rational(text@) is Some,
        r matches Some(x) ==> x@ == literal_rational(text@)->Some_0,
{
    let chars = chars_of(text.as_str());
    let ghost t = chars@;
    let n = chars.len();
    let ten = Natural::from_u64(10);
    let mut mantissa = Natural::zero();
    let ghost mut scale: nat = 0;
    let mut ten_pow = Natural::from_u64(1);
    let mut seen_dot = false;
    let mut i: usize = 0;
    proof {
        assert(t.take(0) =~= Seq::<char>::empty());
    }
    while i < n
        invariant
            n == t.len(),
            t == text@,
            chars@ == t,
            i <= n,
            ten@ == 10,
            forall|k: int| 0 <= k < i ==> is_ascii_digit(#[trigger] t[k]) || t[k] == '.',
            forall|j: int, k: int|
                0 <= j < i && 0 <= k < i && j != k && #[trigger] t[j] == '.' ==> #[trigger] t[k] != '.',
            mantissa@ == lit_mantissa(t.take(i as int)),
            scale == lit_scale(t.take(i as int)),
            ten_pow@ == pow10(scale),
            seen_dot == has_dot(t.take(i as int)),
        decreases n - i,
    {
        let c = chars[i];
        let ghost p = t.take(i as int);
        let ghost q = t.take(i + 1);
        proof {
            assert(q.drop_last() =~= p);
            assert(q.last() == c);
        }
        if '0' <= c && c <= '9' {
            let d = (c as u32 - '0' as u32) as u64;
            mantissa = mantissa.mul(&ten).add(&Natural::from_u64(d));
            if seen_dot {
                ten_pow = ten_pow.mul(&ten);
                proof {
                    scale = scale + 1;
                }
            }
            proof {
                if has_dot(q) {
                    let k = choose|k: int| 0 <= k < q.len() && q[k] == '.';
                    if k < i {
                        assert(p[k] == q[k]);
                    }
                }
                if has_dot(p) {
                    let k = choose|k: int| 0 <= k < p.len() && p[k] == '.';
                    assert(q[k] == p[k]);
                }
            }
        } else if c == '.' && !seen_dot {
            seen_dot = true;
            proof {
                assert(q[i as int] == '.');
                assert(has_dot(q));
                assert forall|j: int, k: int|
                    0 <= j < i + 1 && 0 <= k < i + 1 && j != k && #[trigger] t[j] == '.' implies #[trigger] t[k]
                        != '.' by {
                    if j < i && k < i {
                    } else if j < i {
                        assert(p[j] == t[j]);
                    } else {
                        assert(p[k] == t[k]);
                    }
                }
                // before the dot, no digit was after a dot
                assert(lit_scale(p) == 0) by {
                    if p.len() > 0 && p.last() != '.' {
                        assert(!has_dot(p.drop_last())) by {
                            if has_dot(p.drop_last()) {
                                let k = choose|k: int| 0 <= k < p.drop_last().len() && p.drop_last()[k] == '.';
                                assert(p[k] == '.');
                            }
                        }
                    }
                }
                scale = 0;
            }
        } else {
            proof {
                if c == '.' {
                    let k = choose|k: int| 0 <= k < p.len() && p[k] == '.';
                    assert(t[k] == '.' && t[i as int] == '.');
                } else {
                    assert(!(is_ascii_digit(t[i as int]) || t[i as int] == '.'));
                }
                assert(!crate::tokenizer::is_valid_literal(t));
            }
            return None;
        }
        i = i + 1;
    }
    proof {
        assert(t.take(n as int) =~= t);
        lemma_pow10_grows(0, scale);
    }
    Some(crate::rational::reduce(false, mantissa, ten_pow))
}

// ---------------------------------------------------------------------------
// Grammar
// ---------------------------------------------------------------------------

/// The unit `name` of the registry, to the power one.
pub open spec fn single_unit<S>(reg: Map<Seq<char>, DefinedUnit<S>>, name: Seq<char>) -> UnitMap<S> {
    Map::empty().insert(name, (reg[name], (1int, 1int)))
}

/// Binding powers (left, right) of the infix operators: `*` and `/` are
/// left-associative at the lowest level, `^` binds tighter and is
/// right-associative.
pub open spec fn spec_infix_bp(t: TokenView) -> Option<(int, int)> {
    match t {
        TokenView::Multiply => Some((1, 2)),
        TokenView::Divide => Some((1, 2)),
        TokenView::Power => Some((4, 3)),
        _ => None,
    }
}

/// The token at `i`, if there is one.
pub open spec fn token_at(toks: Seq<TokenView>, i: int) -> Option<TokenView> {
    if 0 <= i < toks.len() {
        Some(toks[i])
    } else {
        None
    }
}

/// The message of an unexpected token: what was expected, and the token
/// at `i` (if any).
pub open spec fn found(toks: Seq<TokenView>, i: int, expected: Seq<char>) -> Seq<char> {
    describe_text(expected, token_at(toks, i))
}

/// The exponent after a power operator, the token after `^` being at `pos`:
/// a number, or `(` number `)`, or `(` number `/` number `)`. Gives the value
/// and the position after it.
pub open spec fn exponent_value(toks: Seq<TokenView>, pos: int) -> Result<((int, int), int), ParseErrorKind> {
    if 0 <= pos < toks.len() && toks[pos] is Number {
        match literal_rational(toks[pos]->Number_0) {
            Some(v) => Ok((v, pos + 1)),
            None => Err(ParseErrorKind::ExponentOutOfRange),
        }
    } else if 0 <= pos < toks.len() && toks[pos] is LeftParen {
        if !(pos + 1 < toks.len() && toks[pos + 1] is Number) {
            Err(ParseErrorKind::ExpectedNumber(found(toks, pos + 1, "expected number"@)))
        } else if pos + 2 < toks.len() && toks[pos + 2] is Divide {
            if !(pos + 3 < toks.len() && toks[pos + 3] is Number) {
                Err(ParseErrorKind::ExpectedNumber(found(toks, pos + 3, "expected number"@)))
            } else if !(pos + 4 < toks.len() && toks[pos + 4] is RightParen) {
                Err(ParseErrorKind::UnexpectedToken(found(toks, pos + 4, "expected ')'"@)))
            } else {
                match (literal_rational(toks[pos + 1]->Number_0), literal_rational(toks[pos + 3]->Number_0)) {
                    (Some(a), Some(b)) => if b.0 != 0 {
                        Ok((rat_div(a, b), pos + 5))
                    } else {
                        Err(ParseErrorKind::ExponentOutOfRange)
                    },
                    _ => Err(ParseErrorKind::ExponentOutOfRange),
                }
            }
        } else if pos + 2 < toks.len() && toks[pos + 2] is RightParen {
            match literal_rational(toks[pos + 1]->Number_0) {
                Some(a) => Ok((a, pos + 3)),
                None => Err(ParseErrorKind::ExponentOutOfRange),
            }
        } else {
            Err(ParseErrorKind::UnexpectedToken(found(toks, pos + 2, "expected ')' or '/'"@)))
        }
    } else {
        Err(ParseErrorKind::ExpectedNumber(found(toks, pos, "expected number or '(' after '^'"@)))
    }
}

/// The exponent after a power operator, with the powers that follow it
/// applied first (right-associativity): `2^3^2` is `2^9`, `4^0.5` is `2`. A
/// tower whose value is not rational (such as `2^0.5`) is out of range (see
/// `rat_pow`).
pub open spec fn exponent_tower(toks: Seq<TokenView>, pos: int) -> Result<((int, int), int), ParseErrorKind>
    decreases toks.len() - pos,
{
    match exponent_value(toks, pos) {
        Ok((e, p)) => if pos < p < toks.len() && toks[p] is Power {
            match exponent_tower(toks, p + 1) {
                Ok((f, q)) => match rat_pow(e, f) {
                    Some(v) => Ok((v, q)),
                    None => Err(ParseErrorKind::ExponentOutOfRange),
                },
                Err(k) => Err(k),
            }
        } else {
            Ok((e, p))
        },
        Err(k) => Err(k),
    }
}

/// An expression starting at `pos` whose operators bind at least as tightly
/// as `min_bp`: a unit name or a parenthesized expression, then the
/// operators that follow. Gives the unit and the position after it.
pub open spec fn parse_expr<S>(
    reg: Map<Seq<char>, DefinedUnit<S>>,
    toks: Seq<TokenView>,
    pos: int,
    min_bp: int,
) -> Result<(UnitMap<S>, int), ParseErrorKind>
    decreases toks.len() - pos, 1int,
{
    if pos < 0 || pos >= toks.len() {
        Err(ParseErrorKind::UnexpectedToken(found(toks, pos, "expected unit name or '('"@)))
    } else {
        match toks[pos] {
            TokenView::Identifier(name) => if reg.contains_key(name) {
                parse_loop(reg, toks, pos + 1, single_unit(reg, name), min_bp)
            } else {
                Err(ParseErrorKind::UnknownUnit)
            },
            TokenView::LeftParen => match parse_expr(reg, toks, pos + 1, 0) {
                Ok((inner, p)) => if pos < p < toks.len() && toks[p] is RightParen {
                    parse_loop(reg, toks, p + 1, inner, min_bp)
                } else {
                    Err(ParseErrorKind::UnexpectedToken(found(toks, p, "expected ')'"@)))
                },
                Err(e) => Err(e),
            },
            _ => Err(ParseErrorKind::UnexpectedToken(found(toks, pos, "expected unit name or '('"@))),
        }
    }
}

/// The operators that follow a left operand `lhs`, from `pos` on.
pub open spec fn parse_loop<S>(
    reg: Map<Seq<char>, DefinedUnit<S>>,
    toks: Seq<TokenView>,
    pos: int,
    lhs: UnitMap<S>,
    min_bp: int,
) -> Result<(UnitMap<S>, int), ParseErrorKind>
    decreases toks.len() - pos, 0int,
{
    if pos < 0 || pos >= toks.len() {
        Ok((lhs, pos))
    } else if toks[pos] is RightParen {
        Ok((lhs, pos))
    } else {
        match spec_infix_bp(toks[pos]) {
            None => Ok((lhs, pos)),
            Some((l_bp, r_bp)) => if l_bp < min_bp {
                Ok((lhs, pos))
            } else if toks[pos] is Power {
                match exponent_tower(toks, pos + 1) {
                    Ok((e, p)) => if !(pos < p <= toks.len()) {
                        Err(ParseErrorKind::UnexpectedToken(Seq::empty()))
                    } else {
                        parse_loop(reg, toks, p, spec_pow(lhs, e), min_bp)
                    },
                    Err(k) => Err(k),
                }
            } else {
                let div = toks[pos] is Divide;
                match parse_expr(reg, toks, pos + 1, r_bp) {
                    Ok((rhs, p)) => if !(pos < p <= toks.len()) {
                        Err(ParseErrorKind::UnexpectedToken(Seq::empty()))
                    } else {
                        parse_loop(reg, toks, p, spec_combine(lhs, rhs, div), min_bp)
                    },
                    Err(k) => Err(k),
                }
            },
        }
    }
}

/// Parsing a whole token sequence: one expression from the start; tokens
/// after it are not read.
pub open spec fn parse_tokens<S>(reg: Map<Seq<char>, DefinedUnit<S>>, toks: Seq<TokenView>) -> Result<
    UnitMap<S>,
    ParseErrorKind,
> {
    match parse_expr(reg, toks, 0, 0) {
        Ok((u, _)) => Ok(u),
        Err(k) => Err(k),
    }
}

/// Parsing a string: tokenize it, then parse the tokens.
pub open spec fn spec_parse<S>(reg: Map<Seq<char>, DefinedUnit<S>>, input: Seq<char>) -> Result<
    UnitMap<S>,
    ParseErrorKind,
> {
    match spec_tokenize(input) {
        LexOutcome::Tokens(ts) => parse_tokens(reg, ts),
        _ => Err(ParseErrorKind::Tokenizer),
    }
}

/// The binding powers of an infix operator.
fn infix_bp(token: &Token) -> (r: Option<(u8, u8)>)
    ensures
        match spec_infix_bp(token@) {
            Some((l, rr)) => r matches Some((a, b)) && a == l && b == rr,
            None => r is None,
        },
{
    match token {
        Token::Multiply => Some((1, 2)),
        Token::Divide => Some((1, 2)),
        Token::Power => Some((4, 3)),
        _ => None,
    }
}

/// A parser over a sequence of tokens.
pub struct PrattParser {
    tokens: Vec<Token>,
}

impl PrattParser {
    pub closed spec fn toks(&self) -> Seq<TokenView> {
        tokens_view(self.tokens@)
    }

    pub fn new(tokens: Vec<Token>) -> (p: PrattParser)
        ensures
            p.toks() == tokens_view(tokens@),
    {
        PrattParser { tokens }
    }

    /// The token at `pos`, if any.
    fn peek(&self, pos: usize) -> (r: Option<&Token>)
        ensures
            pos < self.toks().len() ==> (r matches Some(t) && t@ == self.toks()[pos as int]),
            pos >= self.toks().len() ==> r is None,
    {
        if pos < self.tokens.len() {
            Some(&self.tokens[pos])
        } else {
            None
        }
    }

    /// The literal of the number token at `pos`, if there is one.
    fn expect_number(&self, pos: usize) -> (r: Result<&String, ParserError>)
        ensures
            (pos < self.toks().len() && self.toks()[pos as int] is Number) ==> (r matches Ok(s) && s@
                == self.toks()[pos as int]->Number_0),
            !(pos < self.toks().len() && self.toks()[pos as int] is Number) ==> (r matches Err(e)
                && error_kind(e) == ParseErrorKind::ExpectedNumber(found(self.toks(), pos as int, "expected number"@))),
    {
        match self.peek(pos) {
            Some(Token::Number(n)) => Ok(n),
            t => Err(ParserError::ExpectedNumber(describe("expected number", t))),
        }
    }

    /// Parses the exponent that follows a power operator; the token after
    /// the operator is at `pos`.
    fn parse_exponent_value(&self, pos: usize) -> (r: Result<(Rational, usize), ParserError>)
        requires
            pos <= self.toks().len(),
        ensures
            match exponent_value(self.toks(), pos as int) {
                Ok((v, p)) => r matches Ok((x, q)) && x@ == v && q == p,
                Err(k) => r matches Err(e) && error_kind(e) == k,
            },
    {
        let ghost toks = self.toks();
        let n = self.tokens.len();
        proof {
            assert(self.tokens@.len() == toks.len());
        }
        match self.peek(pos) {
            Some(Token::Number(n)) => match literal_to_rational(n) {
                Some(v) => Ok((v, pos + 1)),
                None => Err(ParserError::ExponentOutOfRange),
            },
            Some(Token::LeftParen) => {
                let numerator = self.expect_number(pos + 1)?;
                match self.peek(pos + 2) {
                    Some(Token::Divide) => {
                        let denominator = self.expect_number(pos + 3)?;
                        match self.peek(pos + 4) {
                            Some(Token::RightParen) => {
                                let a = literal_to_rational(numerator);
                                let b = literal_to_rational(denominator);
                                match (a, b) {
                                    (Some(a), Some(b)) => match a.checked_div(&b) {
                                        Some(v) => Ok((v, pos + 5)),
                                        None => Err(ParserError::ExponentOutOfRange),
                                    },
                                    _ => Err(ParserError::ExponentOutOfRange),
                                }
                            },
                            t => Err(ParserError::UnexpectedToken(describe("expected ')'", t))),
                        }
                    },
                    Some(Token::RightParen) => match literal_to_rational(numerator) {
                        Some(v) => Ok((v, pos + 3)),
                        None => Err(ParserError::ExponentOutOfRange),
                    },
                    t => Err(ParserError::UnexpectedToken(describe("expected ')' or '/'", t))),
                }
            },
            t => Err(
                ParserError::ExpectedNumber(describe("expected number or '(' after '^'", t)),
            ),
        }
    }

    /// Parses the exponent tower that follows a power operator; the token
    /// after the operator is at `pos`.
    fn parse_exponent_tower(&self, pos: usize) -> (r: Result<(Rational, usize), ParserError>)
        requires
            pos <= self.toks().len(),
        ensures
            match exponent_tower(self.toks(), pos as int) {
                Ok((v, p)) => r matches Ok((x, q)) && x@ == v && q == p,
                Err(k) => r matches Err(e) && error_kind(e) == k,
            },
            r matches Ok((_, q)) ==> pos < q <= self.toks().len(),
        decreases self.toks().len() - pos,
    {
        let ghost toks = self.toks();
        let n = self.tokens.len();
        proof {
            assert(self.tokens@.len() == toks.len());
        }
        let (e, p) = match self.parse_exponent_value(pos) {
            Ok(x) => x,
            Err(err) => {
                return Err(err);
            },
        };
        assert(pos < p <= toks.len());
        match self.peek(p) {
            Some(Token::Power) => {
                assert(p < n);
                let (f, q) = match self.parse_exponent_tower(p + 1) {
                    Ok(x) => x,
                    Err(err) => {
                        return Err(err);
                    },
                };
                match e.checked_pow(&f) {
                    Some(v) => Ok((v, q)),
                    None => Err(ParserError::ExponentOutOfRange),
                }
            },
            _ => Ok((e, p)),
        }
    }

    /// Parses the expression at `pos` whose operators bind at least as
    /// tightly as `min_bp`; gives the unit and the position after it.
    pub fn expr_bp<S>(&self, registry: &UnitRegistry<S>, pos: usize, min_bp: u8) -> (r: Result<
        (Unit<S>, usize),
        ParserError,
    >)
        requires
            pos <= self.toks().len(),
        ensures
            match parse_expr(registry@, self.toks(), pos as int, min_bp as int) {
                Ok((u, p)) => r matches Ok((unit, q)) && unit@ == u && q == p,
                Err(k) => r matches Err(e) && error_kind(e) == k,
            },
            r matches Ok((_, q)) ==> pos < q <= self.toks().len(),
        decreases self.toks().len() - pos, 1int,
    {
        let ghost toks = self.toks();
        let ghost reg = registry@;
        let n = self.tokens.len();
        proof {
            assert(self.tokens@.len() == toks.len());
        }
        let (mut lhs, mut cur) = match self.peek(pos) {
            Some(Token::Identifier(name)) => match registry.get(name) {
                Some(u) => {
                    let ghost name_v = name@;
                    let comps: Vec<Component<S>> = vec![(u, Rational::one())];
                    proof {
                        assert(distinct_names(comps@));
                    }
                    let unit = Unit::new(comps);
                    proof {
                        assert(comps@.drop_last() =~= Seq::<Component<S>>::empty());
                        assert(comps_map(Seq::<Component<S>>::empty()) == Map::<Seq<char>, (DefinedUnit<S>, (int, int))>::empty());
                        assert(comps_map(comps@) =~= Map::empty().insert(name_v, (reg[name_v], (1int, 1int))));
                        assert(unit@ =~= single_unit(reg, name_v));
                    }
                    (unit, pos + 1)
                },
                None => {
                    return Err(ParserError::UnknownUnit);
                },
            },
            Some(Token::LeftParen) => {
                let (inner, p) = match self.expr_bp(registry, pos + 1, 0) {
                    Ok(x) => x,
                    Err(e) => {
                        return Err(e);
                    },
                };
                match self.peek(p) {
                    Some(Token::RightParen) => {},
                    t => {
                        return Err(ParserError::UnexpectedToken(describe("expected ')'", t)));
                    },
                }
                (inner, p + 1)
            },
            t => {
                return Err(ParserError::UnexpectedToken(describe("expected unit name or '('", t)));
            },
        };
        loop
            invariant
                toks == self.toks(),
                reg == registry@,
                toks.len() == self.tokens@.len(),
                n == self.tokens@.len(),
                pos < cur <= toks.len(),
                parse_expr(reg, toks, pos as int, min_bp as int) == parse_loop(
                    reg,
                    toks,
                    cur as int,
                    lhs@,
                    min_bp as int,
                ),
            ensures
                pos < cur <= toks.len(),
                parse_expr(reg, toks, pos as int, min_bp as int) == Ok::<(UnitMap<S>, int), ParseErrorKind>((lhs@, cur as int)),
            decreases toks.len() - cur,
        {
            let op = match self.peek(cur) {
                None => {
                    break ;
                },
                Some(Token::RightParen) => {
                    break ;
                },
                Some(t) => t,
            };
            let (l_bp, r_bp) = match infix_bp(op) {
                Some(bp) => bp,
                None => {
                    break ;
                },
            };
            if l_bp < min_bp {
                break ;
            }
            match op {
                Token::Power => {
                    let (exponent, p) = match self.parse_exponent_tower(cur + 1) {
                        Ok(x) => x,
                        Err(e) => {
                            return Err(e);
                        },
                    };
                    lhs = lhs.pow(exponent);
                    cur = p;
                },
                Token::Multiply => {
                    let (rhs, p) = match self.expr_bp(registry, cur + 1, r_bp) {
                        Ok(x) => x,
                        Err(e) => {
                            return Err(e);
                        },
                    };
                    lhs = lhs.mul(&rhs);
                    cur = p;
                },
                _ => {
                    let (rhs, p) = match self.expr_bp(registry, cur + 1, r_bp) {
                        Ok(x) => x,
                        Err(e) => {
                            return Err(e);
                        },
                    };
                    lhs = lhs.div(&rhs);
                    cur = p;
                },
            }
        }
        Ok((lhs, cur))
    }
}

/// Parses `input` as a unit expression over the units of `registry`.
///
/// Tokens after the first complete expression are not read.
pub fn parse<S>(registry: &UnitRegistry<S>, input: &str) -> (r: Result<Unit<S>, ParserError>)
    requires
        !(spec_tokenize(input@) is MalformedNumber),
    ensures
        match spec_parse(registry@, input@) {
            Ok(u) => r matches Ok(unit) && unit@ == u,
            Err(k) => r matches Err(e) && error_kind(e) == k,
        },
{
    let tokens = match tokenize(input) {
        Ok(t) => t,
        Err(e) => {
            return Err(ParserError::TokenizerError(e));
        },
    };
    let parser = PrattParser::new(tokens);
    match parser.expr_bp(registry, 0, 0) {
        Ok((unit, _)) => Ok(unit),
        Err(e) => Err(e),
    }
}

// ---------------------------------------------------------------------------
// What is read from a position on
// ---------------------------------------------------------------------------

/// `t2` from `a2` on is `t1` from `a1` on.
pub open spec fn same_suffix(t1: Seq<TokenView>, t2: Seq<TokenView>, a1: int, a2: int) -> bool {
    &&& 0 <= a1 <= t1.len()
    &&& 0 <= a2
    &&& t1.len() - a1 == t2.len() - a2
    &&& forall|j: int| 0 <= j < t1.len() - a1 ==> #[trigger] t1[a1 + j] == t2[a2 + j]
}

/// A result with its end position moved by `d`.
pub open spec fn moved<T>(r: Result<(T, int), ParseErrorKind>, d: int) -> Result<(T, int), ParseErrorKind> {
    match r {
        Ok((x, q)) => Ok((x, q + d)),
        Err(k) => Err(k),
    }
}

/// A result that, when it succeeds, ends at or after `i`.
pub open spec fn ends_at_or_after<T>(r: Result<(T, int), ParseErrorKind>, i: int) -> bool {
    r matches Ok((_, q)) ==> q >= i
}

proof fn lemma_same_suffix_at(t1: Seq<TokenView>, t2: Seq<TokenView>, a1: int, a2: int, i: int)
    requires
        same_suffix(t1, t2, a1, a2),
        a1 <= i,
    ensures
        (i < t1.len()) == (i + (a2 - a1) < t2.len()),
        i < t1.len() ==> t1[i] == t2[i + (a2 - a1)],
        token_at(t1, i) == token_at(t2, i + (a2 - a1)),
{
    if i < t1.len() {
        let j = i - a1;
        assert(t1[a1 + j] == t2[a2 + j]);
    }
}

proof fn lemma_exponent_value_shift(t1: Seq<TokenView>, t2: Seq<TokenView>, a1: int, a2: int, pos: int)
    requires
        same_suffix(t1, t2, a1, a2),
        a1 <= pos,
    ensures
        exponent_value(t2, pos + (a2 - a1)) == moved(exponent_value(t1, pos), a2 - a1),
        ends_at_or_after(exponent_value(t1, pos), pos),
{
    lemma_same_suffix_at(t1, t2, a1, a2, pos);
    lemma_same_suffix_at(t1, t2, a1, a2, pos + 1);
    lemma_same_suffix_at(t1, t2, a1, a2, pos + 2);
    lemma_same_suffix_at(t1, t2, a1, a2, pos + 3);
    lemma_same_suffix_at(t1, t2, a1, a2, pos + 4);
}

proof fn lemma_exponent_tower_shift(t1: Seq<TokenView>, t2: Seq<TokenView>, a1: int, a2: int, pos: int)
    requires
        same_suffix(t1, t2, a1, a2),
        a1 <= pos,
    ensures
        exponent_tower(t2, pos + (a2 - a1)) == moved(exponent_tower(t1, pos), a2 - a1),
        ends_at_or_after(exponent_tower(t1, pos), pos),
    decreases t1.len() - pos,
{
    let d = a2 - a1;
    lemma_exponent_value_shift(t1, t2, a1, a2, pos);
    if let Ok((e, p)) = exponent_value(t1, pos) {
        lemma_same_suffix_at(t1, t2, a1, a2, p);
        if pos < p < t1.len() && t1[p] is Power {
            lemma_exponent_tower_shift(t1, t2, a1, a2, p + 1);
        }
    }
}

proof fn lemma_parse_expr_shift<S>(
    reg: Map<Seq<char>, DefinedUnit<S>>,
    t1: Seq<TokenView>,
    t2: Seq<TokenView>,
    a1: int,
    a2: int,
    pos: int,
    min_bp: int,
)
    requires
        same_suffix(t1, t2, a1, a2),
        a1 <= pos,
    ensures
        parse_expr(reg, t2, pos + (a2 - a1), min_bp) == moved(parse_expr(reg, t1, pos, min_bp), a2 - a1),
        ends_at_or_after(parse_expr(reg, t1, pos, min_bp), pos),
    decreases t1.len() - pos, 1int,
{
    lemma_same_suffix_at(t1, t2, a1, a2, pos);
    if pos < t1.len() {
        match t1[pos] {
            TokenView::Identifier(name) => {
                if reg.contains_key(name) {
                    lemma_parse_loop_shift(reg, t1, t2, a1, a2, pos + 1, single_unit(reg, name), min_bp);
                }
            },
            TokenView::LeftParen => {
                lemma_parse_expr_shift(reg, t1, t2, a1, a2, pos + 1, 0);
                if let Ok((inner, p)) = parse_expr(reg, t1, pos + 1, 0) {
                    lemma_same_suffix_at(t1, t2, a1, a2, p);
                    if pos < p < t1.len() && t1[p] is RightParen {
                        lemma_parse_loop_shift(reg, t1, t2, a1, a2, p + 1, inner, min_bp);
                    }
                }
            },
            _ => {},
        }
    }
}

proof fn lemma_parse_loop_shift<S>(
    reg: Map<Seq<char>, DefinedUnit<S>>,
    t1: Seq<TokenView>,
    t2: Seq<TokenView>,
    a1: int,
    a2: int,
    pos: int,
    lhs: UnitMap<S>,
    min_bp: int,
)
    requires
        same_suffix(t1, t2, a1, a2),
        a1 <= pos,
    ensures
        parse_loop(reg, t2, pos + (a2 - a1), lhs, min_bp) == moved(parse_loop(reg, t1, pos, lhs, min_bp), a2 - a1),
        ends_at_or_after(parse_loop(reg, t1, pos, lhs, min_bp), pos),
    decreases t1.len() - pos, 0int,
{
    lemma_same_suffix_at(t1, t2, a1, a2, pos);
    if pos < t1.len() && !(t1[pos] is RightParen) {
        if let Some((l_bp, r_bp)) = spec_infix_bp(t1[pos]) {
            if l_bp >= min_bp {
                if t1[pos] is Power {
                    lemma_exponent_tower_shift(t1, t2, a1, a2, pos + 1);
                    if let Ok((e, p)) = exponent_tower(t1, pos + 1) {
                        if pos < p <= t1.len() {
                            lemma_parse_loop_shift(reg, t1, t2, a1, a2, p, spec_pow(lhs, e), min_bp);
                        }
                    }
                } else {
                    lemma_parse_expr_shift(reg, t1, t2, a1, a2, pos + 1, r_bp);
                    if let Ok((rhs, p)) = parse_expr(reg, t1, pos + 1, r_bp) {
                        if pos < p <= t1.len() {
                            lemma_parse_loop_shift(
                                reg,
                                t1,
                                t2,
                                a1,
                                a2,
                                p,
                                spec_combine(lhs, rhs, t1[pos] is Divide),
                                min_bp,
                            );
                        }
                    }
                }
            }
        }
    }
}

/// A parenthesized number as an exponent reads as the bare number: after a
/// left operand, `^ ( n )` followed by any tokens `rest` gives what `^ n`
/// followed by `rest` gives, with the end two tokens further on (past the
/// `)`), so the operators in `rest` are applied alike.
pub proof fn law_parenthesized_exponent<S>(
    reg: Map<Seq<char>, DefinedUnit<S>>,
    before: Seq<TokenView>,
    n: Seq<char>,
    rest: Seq<TokenView>,
    lhs: UnitMap<S>,
    min_bp: int,
)
    ensures
        ({
            let pos = before.len() as int;
            let bracketed = before + seq![TokenView::Power, TokenView::LeftParen, TokenView::Number(n), TokenView::RightParen]
                + rest;
            let bare = before + seq![TokenView::Power, TokenView::Number(n)] + rest;
            match parse_loop(reg, bare, pos, lhs, min_bp) {
                Ok((u, q)) => parse_loop(reg, bracketed, pos, lhs, min_bp) == Ok::<(UnitMap<S>, int), ParseErrorKind>(
                    (u, if q == pos { pos } else { q + 2 }),
                ),
                Err(k) => parse_loop(reg, bracketed, pos, lhs, min_bp) == Err::<(UnitMap<S>, int), ParseErrorKind>(k),
            }
        }),
{
    let pos = before.len() as int;
    let t1 = before + seq![TokenView::Power, TokenView::LeftParen, TokenView::Number(n), TokenView::RightParen] + rest;
    let t2 = before + seq![TokenView::Power, TokenView::Number(n)] + rest;
    assert(t1[pos] == TokenView::Power && t1[pos + 1] == TokenView::LeftParen);
    assert(t1[pos + 2] == TokenView::Number(n) && t1[pos + 3] == TokenView::RightParen);
    assert(t2[pos] == TokenView::Power && t2[pos + 1] == TokenView::Number(n));
    assert(same_suffix(t2, t1, pos + 2, pos + 4)) by {
        assert forall|j: int| 0 <= j < t2.len() - (pos + 2) implies #[trigger] t2[pos + 2 + j] == t1[pos + 4 + j] by {
            assert(t2[pos + 2 + j] == rest[j]);
            assert(t1[pos + 4 + j] == rest[j]);
        }
    }
    lemma_same_suffix_at(t2, t1, pos + 2, pos + 4, pos + 2);
    // the exponents read
    assert(exponent_value(t1, pos + 1) == match literal_rational(n) {
        Some(v) => Ok::<((int, int), int), ParseErrorKind>((v, pos + 4)),
        None => Err(ParseErrorKind::ExponentOutOfRange),
    });
    assert(exponent_value(t2, pos + 1) == match literal_rational(n) {
        Some(v) => Ok::<((int, int), int), ParseErrorKind>((v, pos + 2)),
        None => Err(ParseErrorKind::ExponentOutOfRange),
    });
    lemma_exponent_tower_shift(t2, t1, pos + 2, pos + 4, pos + 3);
    if let Ok((e, p)) = exponent_tower(t2, pos + 1) {
        if pos < p <= t2.len() {
            lemma_parse_loop_shift(reg, t2, t1, pos + 2, pos + 4, p, spec_pow(lhs, e), min_bp);
        }
    }
}

proof fn lemma_literal_reduced(t: Seq<char>)
    requires
        literal_rational(t) is Some,
    ensures
        is_reduced(literal_rational(t)->Some_0),
{
    lemma_pow10_grows(0, lit_scale(t));
    crate::rational::lemma_norm(lit_mantissa(t) as int, pow10(lit_scale(t)));
}

/// A fraction exponent `( a / b )` is the quotient: it is read up to and
/// including the `)`, and its value times `b` is `a`; with `b` zero it has
/// no value.
pub proof fn law_fraction_exponent(toks: Seq<TokenView>, pos: int, a: Seq<char>, b: Seq<char>)
    requires
        0 <= pos,
        pos + 4 < toks.len(),
        toks[pos] is LeftParen,
        toks[pos + 1] == TokenView::Number(a),
        toks[pos + 2] is Divide,
        toks[pos + 3] == TokenView::Number(b),
        toks[pos + 4] is RightParen,
        literal_rational(a) is Some,
        literal_rational(b) is Some,
    ensures
        literal_rational(b)->Some_0.0 == 0 ==> exponent_value(toks, pos) == Err::<((int, int), int), ParseErrorKind>(
            ParseErrorKind::ExponentOutOfRange,
        ),
        literal_rational(b)->Some_0.0 != 0 ==> (exponent_value(toks, pos) matches Ok((v, q)) && q == pos + 5
            && rat_mul(v, literal_rational(b)->Some_0) == literal_rational(a)->Some_0),
{
    lemma_literal_reduced(a);
    lemma_literal_reduced(b);
    let va = literal_rational(a)->Some_0;
    let vb = literal_rational(b)->Some_0;
    if vb.0 != 0 {
        crate::rational::law_div_mul_cancel(va, vb);
    }
}

} // verus!
