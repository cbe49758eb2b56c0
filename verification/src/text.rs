//! Text of tokens and of input, written as Rust's `Debug` writes the values
//! they stand for: a number token as the float it denotes (`Number(2.0)`), a
//! piece of input as a quoted, escaped string.
use vstd::prelude::*;
use crate::chars::push_char;
use crate::tokenizer::{Token, TokenView, chars_of};

verus! {

// ---------------------------------------------------------------------------
// Numbers
// ---------------------------------------------------------------------------

/// The first `.` of `t` from `i` on, or the end of `t`.
pub open spec fn dot_from(t: Seq<char>, i: int) -> int
    decreases t.len() - i,
{
    if i < 0 || i >= t.len() {
        t.len() as int
    } else if t[i] == '.' {
        i
    } else {
        dot_from(t, i + 1)
    }
}

/// Past the leading zeros of `t[i..end]`, keeping its last digit.
pub open spec fn skip_zeros(t: Seq<char>, i: int, end: int) -> int
    decreases end - i,
{
    if i + 1 < end && t[i] == '0' {
        skip_zeros(t, i + 1, end)
    } else {
        i
    }
}

/// Before the trailing zeros of `t[start..j]`.
pub open spec fn trim_zeros(t: Seq<char>, start: int, j: int) -> int
    decreases j - start,
{
    if start < j && t[j - 1] == '0' {
        trim_zeros(t, start, j - 1)
    } else {
        j
    }
}

/// A decimal literal (ASCII digits, at most one `.`) as `Debug` writes the
/// float it denotes, for literals that a float holds exactly in its shortest
/// form: the integer part without leading zeros (`0` if none is left), a
/// point, and the fraction without trailing zeros (`0` if none is left).
pub open spec fn number_debug(t: Seq<char>) -> Seq<char> {
    let d = dot_from(t, 0);
    let int_part = if d <= 0 {
        seq!['0']
    } else {
        t.subrange(skip_zeros(t, 0, d), d)
    };
    let e = trim_zeros(t, d + 1, t.len() as int);
    let frac = if d < t.len() && e > d + 1 {
        t.subrange(d + 1, e)
    } else {
        seq!['0']
    };
    int_part + seq!['.'] + frac
}

proof fn lemma_dot_from(t: Seq<char>, i: int)
    requires
        0 <= i <= t.len(),
    ensures
        i <= dot_from(t, i) <= t.len(),
    decreases t.len() - i,
{
    if i < t.len() && t[i] != '.' {
        lemma_dot_from(t, i + 1);
    }
}

proof fn lemma_skip_zeros(t: Seq<char>, i: int, end: int)
    requires
        0 <= i < end,
    ensures
        i <= skip_zeros(t, i, end) < end,
    decreases end - i,
{
    if i + 1 < end && t[i] == '0' {
        lemma_skip_zeros(t, i + 1, end);
    }
}

proof fn lemma_trim_zeros(t: Seq<char>, start: int, j: int)
    requires
        start <= j,
    ensures
        start <= trim_zeros(t, start, j) <= j,
    decreases j - start,
{
    if start < j && t[j - 1] == '0' {
        lemma_trim_zeros(t, start, j - 1);
    }
}

/// Appends `t[a..b]` to `s`.
fn push_range(s: &mut String, t: &Vec<char>, a: usize, b: usize)
    requires
        a <= b <= t@.len(),
    ensures
        final(s)@ == old(s)@ + t@.subrange(a as int, b as int),
{
    let ghost start = s@;
    let mut k = a;
    while k < b
        invariant
            a <= k <= b,
            b <= t@.len(),
            s@ == start + t@.subrange(a as int, k as int),
        decreases b - k,
    {
        push_char(s, t[k]);
        proof {
            assert(t@.subrange(a as int, k + 1) =~= t@.subrange(a as int, k as int).push(t@[k as int]));
        }
        k = k + 1;
    }
}

/// The text of a number token, as `number_debug` says.
pub fn number_text(text: &String) -> (r: String)
    ensures
        r@ == number_debug(text@),
{
    let t = chars_of(text.as_str());
    let ghost s = t@;
    let n = t.len();
    proof {
        lemma_dot_from(s, 0);
    }
    let mut d: usize = 0;
    while d < n && t[d] != '.'
        invariant
            d <= n,
            n == s.len(),
            s == t@,
            dot_from(s, d as int) == dot_from(s, 0),
        decreases n - d,
    {
        d = d + 1;
    }
    assert(d as int == dot_from(s, 0));
    let mut r = String::new();
    if d == 0 {
        push_char(&mut r, '0');
    } else {
        let mut a: usize = 0;
        proof {
            lemma_skip_zeros(s, 0, d as int);
        }
        while a + 1 < d && t[a] == '0'
            invariant
                a < d <= n,
                n == s.len(),
                s == t@,
                skip_zeros(s, a as int, d as int) == skip_zeros(s, 0, d as int),
            decreases d - a,
        {
            a = a + 1;
        }
        push_range(&mut r, &t, a, d);
    }
    push_char(&mut r, '.');
    let mut e: usize = n;
    if d < n {
        proof {
            lemma_trim_zeros(s, d + 1, n as int);
        }
        while e > d + 1 && t[e - 1] == '0'
            invariant
                d < n,
                d + 1 <= e <= n,
                n == s.len(),
                s == t@,
                trim_zeros(s, d + 1, e as int) == trim_zeros(s, d + 1, n as int),
            decreases e,
        {
            e = e - 1;
        }
    }
    if d < n && e > d + 1 {
        push_range(&mut r, &t, d + 1, e);
    } else {
        push_char(&mut r, '0');
    }
    proof {
        if d < n {
            assert(e as int == trim_zeros(s, d + 1, n as int));
        } else {
            assert(trim_zeros(s, d + 1, n as int) == n);
        }
        assert(r@ =~= number_debug(s));
    }
    r
}

// ---------------------------------------------------------------------------
// Tokens
// ---------------------------------------------------------------------------

/// A token as `Debug` writes it (a unit name, made of letters, digits and
/// `_`, needs no escape).
pub open spec fn token_debug(t: TokenView) -> Seq<char> {
    match t {
        TokenView::Identifier(s) => "Identifier(\""@ + s + "\")"@,
        TokenView::Number(s) => "Number("@ + number_debug(s) + ")"@,
        TokenView::Multiply => "Multiply"@,
        TokenView::Divide => "Divide"@,
        TokenView::Power => "Power"@,
        TokenView::LeftParen => "LeftParen"@,
        TokenView::RightParen => "RightParen"@,
    }
}

/// An optional token as `Debug` writes it.
pub open spec fn found_debug(t: Option<TokenView>) -> Seq<char> {
    match t {
        Some(v) => "Some("@ + token_debug(v) + ")"@,
        None => "None"@,
    }
}

pub open spec fn opt_token_view(t: Option<&Token>) -> Option<TokenView> {
    match t {
        Some(x) => Some(x@),
        None => None,
    }
}

fn token_text(t: &Token) -> (r: String)
    ensures
        r@ == token_debug(t@),
{
    match t {
        Token::Identifier(s) => {
            let mut r = String::from_str("Identifier(\"");
            r.append(s.as_str());
            r.append("\")");
            r
        },
        Token::Number(s) => {
            let mut r = String::from_str("Number(");
            let n = number_text(s);
            r.append(n.as_str());
            r.append(")");
            r
        },
        Token::Multiply => String::from_str("Multiply"),
        Token::Divide => String::from_str("Divide"),
        Token::Power => String::from_str("Power"),
        Token::LeftParen => String::from_str("LeftParen"),
        Token::RightParen => String::from_str("RightParen"),
    }
}

/// What was expected, and the token found (if any), as `Debug` writes it.
pub open spec fn describe_text(expected: Seq<char>, found: Option<TokenView>) -> Seq<char> {
    expected + ", got "@ + found_debug(found)
}

/// What was expected, and the token found (if any), as `Debug` writes it.
pub fn describe(expected: &str, found: Option<&Token>) -> (r: String)
    ensures
        r@ == describe_text(expected@, opt_token_view(found)),
{
    let mut r = String::from_str(expected);
    r.append(", got ");
    match found {
        Some(t) => {
            r.append("Some(");
            let s = token_text(t);
            r.append(s.as_str());
            r.append(")");
        },
        None => {
            r.append("None");
        },
    }
    r
}

// ---------------------------------------------------------------------------
// Strings
// ---------------------------------------------------------------------------

pub open spec fn hex_digit(n: nat) -> char {
    if n < 10 {
        ((n + 48) as u8) as char
    } else {
        ((n + 87) as u8) as char
    }
}

/// `n` in lower-case hexadecimal.
pub open spec fn hex(n: nat) -> Seq<char>
    decreases n,
{
    if n < 16 {
        seq![hex_digit(n)]
    } else {
        hex(n / 16) + seq![hex_digit(n % 16)]
    }
}

/// A character of a string as `Debug` writes it: `\0`, `\t`, `\r`, `\n`,
/// `\"` and `\\` escaped, other ASCII control characters as `\u{..}`, the
/// rest as it is.
pub open spec fn char_debug(c: char) -> Seq<char> {
    if c == '\0' {
        "\\0"@
    } else if c == '\t' {
        "\\t"@
    } else if c == '\r' {
        "\\r"@
    } else if c == '\n' {
        "\\n"@
    } else if c == '"' {
        "\\\""@
    } else if c == '\\' {
        "\\\\"@
    } else if (c as u32) < 32 || c as u32 == 127 {
        "\\u{"@ + hex(c as u32 as nat) + "}"@
    } else {
        seq![c]
    }
}

/// The characters of `s`, each as `Debug` writes it inside a string.
pub open spec fn chars_debug(s: Seq<char>) -> Seq<char>
    decreases s.len(),
{
    if s.len() == 0 {
        Seq::empty()
    } else {
        chars_debug(s.drop_last()) + char_debug(s.last())
    }
}

/// A string as `Debug` writes it: quoted and escaped.
pub open spec fn str_debug(s: Seq<char>) -> Seq<char> {
    seq!['"'] + chars_debug(s) + seq!['"']
}

fn hex_char(n: u32) -> (c: char)
    requires
        n < 16,
    ensures
        c == hex_digit(n as nat),
{
    if n < 10 {
        ((n + 48) as u8) as char
    } else {
        ((n + 87) as u8) as char
    }
}

fn push_hex(s: &mut String, n: u32)
    ensures
        final(s)@ == old(s)@ + hex(n as nat),
    decreases n,
{
    if n < 16 {
        push_char(s, hex_char(n));
    } else {
        push_hex(s, n / 16);
        push_char(s, hex_char(n % 16));
    }
}

fn push_char_debug(s: &mut String, c: char)
    ensures
        final(s)@ == old(s)@ + char_debug(c),
{
    if c == '\0' {
        s.append("\\0");
    } else if c == '\t' {
        s.append("\\t");
    } else if c == '\r' {
        s.append("\\r");
    } else if c == '\n' {
        s.append("\\n");
    } else if c == '"' {
        s.append("\\\"");
    } else if c == '\\' {
        s.append("\\\\");
    } else if (c as u32) < 32 || c as u32 == 127 {
        s.append("\\u{");
        push_hex(s, c as u32);
        s.append("}");
    } else {
        push_char(s, c);
    }
}

/// `text` as `Debug` writes a string.
pub fn quoted(text: &str) -> (r: String)
    ensures
        r@ == str_debug(text@),
{
    let cs = chars_of(text);
    let mut r = String::new();
    push_char(&mut r, '"');
    let mut i: usize = 0;
    while i < cs.len()
        invariant
            i <= cs@.len(),
            r@ == seq!['"'] + chars_debug(cs@.take(i as int)),
        decreases cs.len() - i,
    {
        proof {
            assert(cs@.take(i + 1).drop_last() =~= cs@.take(i as int));
        }
        push_char_debug(&mut r, cs[i]);
        i = i + 1;
    }
    push_char(&mut r, '"');
    proof {
        assert(cs@.take(cs@.len() as int) =~= cs@);
    }
    r
}

} // verus!
