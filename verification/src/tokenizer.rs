//! Splitting a unit expression into tokens.
use vstd::prelude::*;
use crate::chars::{
    alphabetic, alphanumeric, numeric, whitespace, is_alphabetic,
    is_alphanumeric, is_ascii_digit, is_ascii_letter, is_numeric, is_whitespace, push_char,
};

verus! {

/// A token of a unit expression.
#[derive(Debug, Clone)]
pub enum Token {
    /// A unit name such as `kg` or `meter`.
    Identifier(String),
    /// A number, as written: ASCII digits with at most one `.`.
    Number(String),
    /// `*`
    Multiply,
    /// `/`
    Divide,
    /// `**` or `^`
    Power,
    /// `(`
    LeftParen,
    /// `)`
    RightParen,
}

/// The mathematical content of a token.
pub enum TokenView {
    Identifier(Seq<char>),
    Number(Seq<char>),
    Multiply,
    Divide,
    Power,
    LeftParen,
    RightParen,
}

impl View for Token {
    type V = TokenView;

    open spec fn view(&self) -> TokenView {
        match self {
            Token::Identifier(s) => TokenView::Identifier(s@),
            Token::Number(s) => TokenView::Number(s@),
            Token::Multiply => TokenView::Multiply,
            Token::Divide => TokenView::Divide,
            Token::Power => TokenView::Power,
            Token::LeftParen => TokenView::LeftParen,
            Token::RightParen => TokenView::RightParen,
        }
    }
}

/// The views of a sequence of tokens.
pub open spec fn tokens_view(ts: Seq<Token>) -> Seq<TokenView> {
    ts.map_values(|t: Token| t@)
}

/// Why a string cannot be tokenized.
#[derive(Debug)]
pub enum TokenizerError {
    UnexpectedCharacter,
}

/// The message of a tokenizer error.
pub open spec fn tokenizer_message(e: TokenizerError) -> Seq<char> {
    match e {
        TokenizerError::UnexpectedCharacter => "Tokenizer error: unexpected character"@,
    }
}

impl TokenizerError {
    /// The message of this error.
    pub fn message(&self) -> (s: String)
        ensures
            s@ == tokenizer_message(*self),
    {
        match self {
            TokenizerError::UnexpectedCharacter => String::from_str("Tokenizer error: unexpected character"),
        }
    }
}

/// What tokenizing a string gives: its tokens, a character that starts no
/// token, or a number that is not a valid decimal literal (such as `1.2.3`).
pub enum LexOutcome {
    Tokens(Seq<TokenView>),
    UnexpectedCharacter,
    MalformedNumber,
}

pub open spec fn is_ident_char(c: char) -> bool {
    alphanumeric(c) || c == '_'
}

pub open spec fn is_number_char(c: char) -> bool {
    numeric(c) || c == '.'
}

/// The classes of characters that make up runs: whitespace, the rest of an
/// identifier, the rest of a number.
pub enum CharClass {
    Whitespace,
    IdentChar,
    NumberChar,
}

pub open spec fn in_class(k: CharClass, c: char) -> bool {
    match k {
        CharClass::Whitespace => whitespace(c),
        CharClass::IdentChar => is_ident_char(c),
        CharClass::NumberChar => is_number_char(c),
    }
}

/// The end of the longest run of characters of class `k` that starts at `i`.
pub open spec fn run_end(s: Seq<char>, i: int, k: CharClass) -> int
    decreases s.len() - i,
{
    if 0 <= i < s.len() && in_class(k, s[i]) {
        run_end(s, i + 1, k)
    } else {
        i
    }
}

/// The end of the whitespace that starts at `i`.
pub open spec fn whitespace_end(s: Seq<char>, i: int) -> int {
    run_end(s, i, CharClass::Whitespace)
}

/// The end of the identifier whose first letter is at `i`.
pub open spec fn identifier_end(s: Seq<char>, i: int) -> int {
    run_end(s, i + 1, CharClass::IdentChar)
}

/// The end of the number whose first digit is at `i`.
pub open spec fn number_end(s: Seq<char>, i: int) -> int {
    run_end(s, i + 1, CharClass::NumberChar)
}

/// A number as the tokenizer reads it is a valid decimal literal: ASCII
/// digits and at most one `.`.
pub open spec fn is_valid_literal(t: Seq<char>) -> bool {
    &&& forall|k: int| 0 <= k < t.len() ==> is_ascii_digit(#[trigger] t[k]) || t[k] == '.'
    &&& forall|j: int, k: int|
        0 <= j < t.len() && 0 <= k < t.len() && j != k && #[trigger] t[j] == '.' ==> #[trigger] t[k]
            != '.'
}

pub proof fn lemma_run_end_bounds(s: Seq<char>, i: int, k: CharClass)
    requires
        0 <= i <= s.len(),
    ensures
        i <= run_end(s, i, k) <= s.len(),
        forall|j: int| i <= j < run_end(s, i, k) ==> #[trigger] in_class(k, s[j]),
        run_end(s, i, k) < s.len() ==> !in_class(k, s[run_end(s, i, k)]),
    decreases s.len() - i,
{
    if i < s.len() && in_class(k, s[i]) {
        lemma_run_end_bounds(s, i + 1, k);
    }
}

/// Whether a whitespace character at `i` is followed (after more whitespace)
/// by the start of a factor, when the last token ends a factor: then the
/// whitespace stands for a multiplication.
pub open spec fn implicit_multiplication(s: Seq<char>, j: int) -> bool {
    0 <= j < s.len() && (alphabetic(s[j]) || s[j] == '(')
}

pub open spec fn ends_factor(toks: Seq<TokenView>) -> bool {
    toks.len() > 0 && (toks.last() is Identifier || toks.last() is RightParen)
}

/// Tokenizing `s` from position `i`, with `toks` already read.
pub open spec fn lex(s: Seq<char>, i: int, toks: Seq<TokenView>) -> LexOutcome
    decreases s.len() - i,
{
    if i < 0 || i >= s.len() {
        LexOutcome::Tokens(toks)
    } else {
        let c = s[i];
        if c == ' ' || c == '\t' || c == '\n' {
            proof {
                lemma_run_end_bounds(s, i + 1, CharClass::Whitespace);
            }
            let j = whitespace_end(s, i + 1);
            if ends_factor(toks) {
                if j >= s.len() {
                    LexOutcome::Tokens(toks)
                } else if implicit_multiplication(s, j) {
                    lex(s, j, toks.push(TokenView::Multiply))
                } else {
                    lex(s, j, toks)
                }
            } else if toks.len() > 0 {
                lex(s, j, toks)
            } else {
                lex(s, i + 1, toks)
            }
        } else if is_ascii_letter(c) {
            proof {
                lemma_run_end_bounds(s, i + 1, CharClass::IdentChar);
            }
            let j = identifier_end(s, i);
            lex(s, j, toks.push(TokenView::Identifier(s.subrange(i, j))))
        } else if is_ascii_digit(c) {
            proof {
                lemma_run_end_bounds(s, i + 1, CharClass::NumberChar);
            }
            let j = number_end(s, i);
            if is_valid_literal(s.subrange(i, j)) {
                lex(s, j, toks.push(TokenView::Number(s.subrange(i, j))))
            } else {
                LexOutcome::MalformedNumber
            }
        } else if c == '*' {
            if i + 1 < s.len() && s[i + 1] == '*' {
                lex(s, i + 2, toks.push(TokenView::Power))
            } else {
                lex(s, i + 1, toks.push(TokenView::Multiply))
            }
        } else if c == '/' {
            lex(s, i + 1, toks.push(TokenView::Divide))
        } else if c == '^' {
            lex(s, i + 1, toks.push(TokenView::Power))
        } else if c == '(' {
            lex(s, i + 1, toks.push(TokenView::LeftParen))
        } else if c == ')' {
            lex(s, i + 1, toks.push(TokenView::RightParen))
        } else {
            LexOutcome::UnexpectedCharacter
        }
    }
}

/// Tokenizing the whole of `s`.
pub open spec fn spec_tokenize(s: Seq<char>) -> LexOutcome {
    lex(s, 0, Seq::empty())
}

/// The characters of a string, in order.
pub(crate) fn chars_of(input: &str) -> (v: Vec<char>)
    ensures
        v@ == input@,
{
    let mut v: Vec<char> = Vec::new();
    for c in it: input.chars()
        invariant
            v@ == it.seq().take(it.index() as int),
    {
        v.push(c);
    }
    assert(v@ == input@);
    v
}

/// Skips the whitespace that starts at `pos`; returns the position after it.
pub fn skip_whitespace(chars: &Vec<char>, pos: usize) -> (end: usize)
    requires
        pos <= chars.len(),
    ensures
        end == whitespace_end(chars@, pos as int),
        pos <= end <= chars.len(),
{
    let ghost p = CharClass::Whitespace;
    let mut i = pos;
    proof {
        lemma_run_end_bounds(chars@, pos as int, p);
    }
    while i < chars.len()
        invariant
            pos <= i <= chars.len(),
            p == CharClass::Whitespace,
            run_end(chars@, i as int, p) == run_end(chars@, pos as int, p),
        ensures
            i == run_end(chars@, pos as int, p),
        decreases chars.len() - i,
    {
        let c = chars[i];
        let w = is_whitespace(c);
        assert(run_end(chars@, i as int, p) == if w {
            run_end(chars@, i + 1, p)
        } else {
            i as int
        });
        if w {
            i = i + 1;
        } else {
            break;
        }
    }
    i
}

/// Why lexing stopped short.
pub(crate) enum LexFailure {
    UnexpectedCharacter,
    MalformedNumber,
}

fn is_letter(c: char) -> (b: bool)
    ensures
        b == is_ascii_letter(c),
{
    ('a' <= c && c <= 'z') || ('A' <= c && c <= 'Z')
}

fn is_digit(c: char) -> (b: bool)
    ensures
        b == is_ascii_digit(c),
{
    '0' <= c && c <= '9'
}

proof fn lemma_push_view(ts: Seq<Token>, t: Token)
    ensures
        tokens_view(ts.push(t)) == tokens_view(ts).push(t@),
{
    assert(tokens_view(ts.push(t)) =~= tokens_view(ts).push(t@));
}

/// Reads the rest of an identifier whose first letter is at `i`.
fn read_identifier(chars: &Vec<char>, i: usize) -> (r: (String, usize))
    requires
        i < chars.len(),
        is_ascii_letter(chars@[i as int]),
    ensures
        r.1 == identifier_end(chars@, i as int),
        i < r.1 <= chars.len(),
        r.0@ == chars@.subrange(i as int, r.1 as int),
{
    let n = chars.len();
    let mut ident = String::new();
    // The first letter is alphanumeric.
    let first = chars[i];
    let ok = is_alphanumeric(first);
    assert(ok);
    push_char(&mut ident, first);
    let mut j = i + 1;
    proof {
        lemma_run_end_bounds(chars@, j as int, CharClass::IdentChar);
        assert(ident@ =~= chars@.subrange(i as int, j as int));
    }
    while j < n
        invariant
            n == chars.len(),
            i < j <= n,
            run_end(chars@, j as int, CharClass::IdentChar) == identifier_end(chars@, i as int),
            ident@ == chars@.subrange(i as int, j as int),
        ensures
            j == identifier_end(chars@, i as int),
            ident@ == chars@.subrange(i as int, j as int),
        decreases n - j,
    {
        let c = chars[j];
        let a = is_alphanumeric(c);
        if a || c == '_' {
            push_char(&mut ident, c);
            j = j + 1;
            assert(ident@ =~= chars@.subrange(i as int, j as int));
        } else {
            break;
        }
    }
    (ident, j)
}

/// Whether a literal has a `.`.
pub open spec fn has_dot(t: Seq<char>) -> bool {
    exists|k: int| 0 <= k < t.len() && t[k] == '.'
}

/// Reads the rest of a number whose first digit is at `i`; the flag says
/// whether it is a valid literal.
fn read_number(chars: &Vec<char>, i: usize) -> (r: (String, usize, bool))
    requires
        i < chars.len(),
        is_ascii_digit(chars@[i as int]),
    ensures
        r.1 == number_end(chars@, i as int),
        i < r.1 <= chars.len(),
        r.0@ == chars@.subrange(i as int, r.1 as int),
        r.2 == is_valid_literal(r.0@),
{
    let n = chars.len();
    let mut num = String::new();
    let first = chars[i];
    let ok = is_numeric(first);
    assert(ok);
    push_char(&mut num, first);
    let mut j = i + 1;
    let mut valid = true;
    let mut seen_dot = false;
    proof {
        assert(num@ =~= chars@.subrange(i as int, j as int));
        assert(num@ =~= seq![first]);
    }
    while j < n
        invariant
            n == chars.len(),
            i < j <= n,
            run_end(chars@, j as int, CharClass::NumberChar) == number_end(chars@, i as int),
            num@ == chars@.subrange(i as int, j as int),
            valid == is_valid_literal(num@),
            seen_dot == has_dot(num@),
        ensures
            j == number_end(chars@, i as int),
            num@ == chars@.subrange(i as int, j as int),
            valid == is_valid_literal(num@),
        decreases n - j,
    {
        let c = chars[j];
        let a = is_numeric(c);
        if a || c == '.' {
            let ghost old_num = num@;
            push_char(&mut num, c);
            proof {
                assert(num@ == old_num.push(c));
                assert(num@[num@.len() - 1] == c);
                if c == '.' {
                    assert(has_dot(num@));
                } else {
                    if has_dot(num@) {
                        let k = choose|k: int| 0 <= k < num@.len() && num@[k] == '.';
                        assert(k < old_num.len());
                        assert(old_num[k] == '.');
                    }
                }
                let now_valid = valid && (is_ascii_digit(c) || (c == '.' && !seen_dot));
                if now_valid {
                    assert forall|k: int| 0 <= k < num@.len() implies is_ascii_digit(#[trigger] num@[k])
                        || num@[k] == '.' by {
                        if k < old_num.len() {
                            assert(num@[k] == old_num[k]);
                        }
                    }
                    assert forall|p: int, q: int|
                        0 <= p < num@.len() && 0 <= q < num@.len() && p != q && #[trigger] num@[p]
                            == '.' implies #[trigger] num@[q] != '.' by {
                        if p < old_num.len() && q < old_num.len() {
                            assert(num@[p] == old_num[p]);
                            assert(num@[q] == old_num[q]);
                        } else if p < old_num.len() {
                            assert(num@[p] == old_num[p]);
                        } else {
                            assert(num@[q] == old_num[q]);
                        }
                    }
                } else {
                    if !valid {
                        if !(forall|k: int| 0 <= k < old_num.len() ==> is_ascii_digit(#[trigger] old_num[k])
                            || old_num[k] == '.') {
                            let k = choose|k: int|
                                0 <= k < old_num.len() && !(is_ascii_digit(#[trigger] old_num[k])
                                    || old_num[k] == '.');
                            assert(num@[k] == old_num[k]);
                        } else {
                            let (p, q) = choose|p: int, q: int|
                                0 <= p < old_num.len() && 0 <= q < old_num.len() && p != q
                                    && #[trigger] old_num[p] == '.' && #[trigger] old_num[q] == '.';
                            assert(num@[p] == old_num[p]);
                            assert(num@[q] == old_num[q]);
                        }
                    } else if !(is_ascii_digit(c) || c == '.') {
                        assert(num@[num@.len() - 1] == c);
                    } else {
                        let k = choose|k: int| 0 <= k < old_num.len() && old_num[k] == '.';
                        assert(num@[k] == '.');
                        assert(num@[num@.len() - 1] == '.');
                    }
                }
            }
            if is_digit(c) {
            } else if c == '.' && !seen_dot {
                seen_dot = true;
            } else {
                valid = false;
            }
            j = j + 1;
            assert(num@ =~= chars@.subrange(i as int, j as int));
        } else {
            break;
        }
    }
    (num, j, valid)
}

/// Tokenizes `chars`; fails on a character that starts no token and on a
/// malformed number.
pub(crate) fn lex_chars(chars: &Vec<char>) -> (r: Result<Vec<Token>, LexFailure>)
    ensures
        match spec_tokenize(chars@) {
            LexOutcome::Tokens(ts) => r matches Ok(v) && tokens_view(v@) == ts,
            LexOutcome::UnexpectedCharacter => r matches Err(LexFailure::UnexpectedCharacter),
            LexOutcome::MalformedNumber => r matches Err(LexFailure::MalformedNumber),
        },
{
    let n = chars.len();
    let mut tokens: Vec<Token> = Vec::new();
    let mut i: usize = 0;
    proof {
        assert(tokens_view(tokens@) =~= Seq::<TokenView>::empty());
    }
    while i < n
        invariant
            n == chars.len(),
            i <= n,
            lex(chars@, i as int, tokens_view(tokens@)) == spec_tokenize(chars@),
        decreases n - i,
    {
        let ghost s = chars@;
        let ghost ts = tokens_view(tokens@);
        let c = chars[i];
        if c == ' ' || c == '\t' || c == '\n' {
            let j = skip_whitespace(chars, i + 1);
            let len = tokens.len();
            if len > 0 {
                let ends = match &tokens[len - 1] {
                    Token::Identifier(_) => true,
                    Token::RightParen => true,
                    _ => false,
                };
                assert(ts.last() == tokens@[len - 1]@);
                assert(ends == ends_factor(ts));
                if ends && j < n {
                    let d = chars[j];
                    let alpha = is_alphabetic(d);
                    if alpha || d == '(' {
                        proof {
                            lemma_push_view(tokens@, Token::Multiply);
                        }
                        tokens.push(Token::Multiply);
                    }
                }
                i = j;
            } else {
                i = i + 1;
            }
        } else if is_letter(c) {
            let (ident, j) = read_identifier(chars, i);
            proof {
                lemma_push_view(tokens@, Token::Identifier(ident));
            }
            tokens.push(Token::Identifier(ident));
            i = j;
        } else if is_digit(c) {
            let (num, j, valid) = read_number(chars, i);
            if !valid {
                return Err(LexFailure::MalformedNumber);
            }
            proof {
                lemma_push_view(tokens@, Token::Number(num));
            }
            tokens.push(Token::Number(num));
            i = j;
        } else if c == '*' {
            if i + 1 < n && chars[i + 1] == '*' {
                proof {
                    lemma_push_view(tokens@, Token::Power);
                }
                tokens.push(Token::Power);
                i = i + 2;
            } else {
                proof {
                    lemma_push_view(tokens@, Token::Multiply);
                }
                tokens.push(Token::Multiply);
                i = i + 1;
            }
        } else if c == '/' {
            proof {
                lemma_push_view(tokens@, Token::Divide);
            }
            tokens.push(Token::Divide);
            i = i + 1;
        } else if c == '^' {
            proof {
                lemma_push_view(tokens@, Token::Power);
            }
            tokens.push(Token::Power);
            i = i + 1;
        } else if c == '(' {
            proof {
                lemma_push_view(tokens@, Token::LeftParen);
            }
            tokens.push(Token::LeftParen);
            i = i + 1;
        } else if c == ')' {
            proof {
                lemma_push_view(tokens@, Token::RightParen);
            }
            tokens.push(Token::RightParen);
            i = i + 1;
        } else {
            return Err(LexFailure::UnexpectedCharacter);
        }
    }
    Ok(tokens)
}

/// Splits `input` into tokens.
///
/// Whitespace between a unit name or `)` and a following unit name or `(`
/// stands for a multiplication. A number is read as the run of numeric
/// characters and `.` that starts at a digit; it must be a decimal literal
/// (ASCII digits, at most one `.`), which `requires` asks of the input.
pub fn tokenize(input: &str) -> (r: Result<Vec<Token>, TokenizerError>)
    requires
        !(spec_tokenize(input@) is MalformedNumber),
    ensures
        match spec_tokenize(input@) {
            LexOutcome::Tokens(ts) => r matches Ok(v) && tokens_view(v@) == ts,
            _ => r matches Err(TokenizerError::UnexpectedCharacter),
        },
        r matches Ok(v) ==> v.len() <= input@.len(),
{
    proof {
        law_token_count(input@);
    }
    let chars = chars_of(input);
    match lex_chars(&chars) {
        Ok(v) => Ok(v),
        Err(_) => Err(TokenizerError::UnexpectedCharacter),
    }
}

/// Whether `input` holds a number that is not a valid decimal literal (which
/// `tokenize` does not accept).
pub fn has_malformed_number(input: &str) -> (b: bool)
    ensures
        b == (spec_tokenize(input@) is MalformedNumber),
{
    let chars = chars_of(input);
    match lex_chars(&chars) {
        Err(LexFailure::MalformedNumber) => true,
        _ => false,
    }
}

// ---------------------------------------------------------------------------
// Whitespace at the ends of the input
// ---------------------------------------------------------------------------

/// A run in `s` shifted by one character.
proof fn lemma_run_end_shift(s: Seq<char>, j: int, k: CharClass)
    requires
        0 <= j <= s.len(),
    ensures
        run_end(seq![' '] + s, j + 1, k) == run_end(s, j, k) + 1,
    decreases s.len() - j,
{
    let t = seq![' '] + s;
    if j < s.len() {
        assert(t[j + 1] == s[j]);
        if in_class(k, s[j]) {
            lemma_run_end_shift(s, j + 1, k);
        }
    }
}

/// Lexing `s` behind one leading space, from one position further on, is
/// lexing `s`.
proof fn lemma_lex_shift(s: Seq<char>, i: int, toks: Seq<TokenView>)
    requires
        0 <= i <= s.len(),
    ensures
        lex(seq![' '] + s, i + 1, toks) == lex(s, i, toks),
    decreases s.len() - i,
{
    let t = seq![' '] + s;
    if i < s.len() {
        let c = s[i];
        assert(t[i + 1] == c);
        if c == ' ' || c == '\t' || c == '\n' {
            lemma_run_end_bounds(s, i + 1, CharClass::Whitespace);
            lemma_run_end_shift(s, i + 1, CharClass::Whitespace);
            let j = whitespace_end(s, i + 1);
            if j < s.len() {
                assert(t[j + 1] == s[j]);
            }
            lemma_lex_shift(s, j, toks);
            lemma_lex_shift(s, j, toks.push(TokenView::Multiply));
            lemma_lex_shift(s, i + 1, toks);
        } else if is_ascii_letter(c) {
            lemma_run_end_bounds(s, i + 1, CharClass::IdentChar);
            lemma_run_end_shift(s, i + 1, CharClass::IdentChar);
            let j = identifier_end(s, i);
            assert(t.subrange(i + 1, j + 1) =~= s.subrange(i, j));
            lemma_lex_shift(s, j, toks.push(TokenView::Identifier(s.subrange(i, j))));
        } else if is_ascii_digit(c) {
            lemma_run_end_bounds(s, i + 1, CharClass::NumberChar);
            lemma_run_end_shift(s, i + 1, CharClass::NumberChar);
            let j = number_end(s, i);
            assert(t.subrange(i + 1, j + 1) =~= s.subrange(i, j));
            lemma_lex_shift(s, j, toks.push(TokenView::Number(s.subrange(i, j))));
        } else if c == '*' {
            if i + 1 < s.len() {
                assert(t[i + 2] == s[i + 1]);
            }
            if i + 2 <= s.len() {
                lemma_lex_shift(s, i + 2, toks.push(TokenView::Power));
            }
            lemma_lex_shift(s, i + 1, toks.push(TokenView::Multiply));
        } else {
            lemma_lex_shift(s, i + 1, toks.push(TokenView::Divide));
            lemma_lex_shift(s, i + 1, toks.push(TokenView::Power));
            lemma_lex_shift(s, i + 1, toks.push(TokenView::LeftParen));
            lemma_lex_shift(s, i + 1, toks.push(TokenView::RightParen));
        }
    }
}

/// A space at the start of the input adds no token and changes none.
pub proof fn law_leading_space(s: Seq<char>)
    ensures
        spec_tokenize(seq![' '] + s) == spec_tokenize(s),
{
    let t = seq![' '] + s;
    assert(t[0] == ' ');
    lemma_lex_shift(s, 0, Seq::empty());
    assert(lex(t, 0, Seq::empty()) == lex(t, 1, Seq::empty()));
}

/// A run in `s` followed by one space.
proof fn lemma_run_end_append(s: Seq<char>, j: int, k: CharClass)
    requires
        0 <= j <= s.len(),
    ensures
        run_end(s + seq![' '], j, k) == (if run_end(s, j, k) == s.len() && in_class(k, ' ') {
            s.len() as int + 1
        } else {
            run_end(s, j, k)
        }),
    decreases s.len() - j,
{
    let t = s + seq![' '];
    if j < s.len() {
        assert(t[j] == s[j]);
        if in_class(k, s[j]) {
            lemma_run_end_append(s, j + 1, k);
        }
    } else {
        assert(t[j] == ' ');
        if in_class(k, ' ') {
            assert(run_end(t, j + 1, k) == j + 1);
        }
    }
}

/// Lexing `s` followed by one space is lexing `s`.
proof fn lemma_lex_append(s: Seq<char>, i: int, toks: Seq<TokenView>)
    requires
        0 <= i <= s.len(),
    ensures
        lex(s + seq![' '], i, toks) == lex(s, i, toks),
    decreases s.len() - i,
{
    let t = s + seq![' '];
    assert(whitespace(' '));
    assert(!is_ident_char(' '));
    assert(!is_number_char(' '));
    if i == s.len() {
        assert(t[i] == ' ');
        assert(whitespace_end(t, i + 1) == i + 1);
        assert(lex(t, i + 1, toks) == LexOutcome::Tokens(toks));
    } else {
        let c = s[i];
        assert(t[i] == c);
        if c == ' ' || c == '\t' || c == '\n' {
            lemma_run_end_bounds(s, i + 1, CharClass::Whitespace);
            lemma_run_end_append(s, i + 1, CharClass::Whitespace);
            let j = whitespace_end(s, i + 1);
            if j < s.len() {
                assert(t[j] == s[j]);
                lemma_lex_append(s, j, toks);
                lemma_lex_append(s, j, toks.push(TokenView::Multiply));
            } else {
                assert(lex(t, s.len() as int + 1, toks) == LexOutcome::Tokens(toks));
                assert(lex(s, s.len() as int, toks) == LexOutcome::Tokens(toks));
            }
            lemma_lex_append(s, i + 1, toks);
        } else if is_ascii_letter(c) {
            lemma_run_end_bounds(s, i + 1, CharClass::IdentChar);
            lemma_run_end_append(s, i + 1, CharClass::IdentChar);
            let j = identifier_end(s, i);
            assert(t.subrange(i, j) =~= s.subrange(i, j));
            lemma_lex_append(s, j, toks.push(TokenView::Identifier(s.subrange(i, j))));
        } else if is_ascii_digit(c) {
            lemma_run_end_bounds(s, i + 1, CharClass::NumberChar);
            lemma_run_end_append(s, i + 1, CharClass::NumberChar);
            let j = number_end(s, i);
            assert(t.subrange(i, j) =~= s.subrange(i, j));
            lemma_lex_append(s, j, toks.push(TokenView::Number(s.subrange(i, j))));
        } else if c == '*' {
            assert(t[i + 1] == (if i + 1 < s.len() {
                s[i + 1]
            } else {
                ' '
            }));
            if i + 2 <= s.len() {
                lemma_lex_append(s, i + 2, toks.push(TokenView::Power));
            }
            lemma_lex_append(s, i + 1, toks.push(TokenView::Multiply));
        } else {
            lemma_lex_append(s, i + 1, toks.push(TokenView::Divide));
            lemma_lex_append(s, i + 1, toks.push(TokenView::Power));
            lemma_lex_append(s, i + 1, toks.push(TokenView::LeftParen));
            lemma_lex_append(s, i + 1, toks.push(TokenView::RightParen));
        }
    }
}

/// A space at the end of the input adds no token and changes none.
pub proof fn law_trailing_space(s: Seq<char>)
    ensures
        spec_tokenize(s + seq![' ']) == spec_tokenize(s),
{
    lemma_lex_append(s, 0, Seq::empty());
}

/// Lexing from `i` adds at most one token for each character left.
proof fn lemma_lex_count(s: Seq<char>, i: int, toks: Seq<TokenView>)
    requires
        0 <= i <= s.len(),
    ensures
        lex(s, i, toks) matches LexOutcome::Tokens(ts) ==> ts.len() <= toks.len() + s.len() - i,
    decreases s.len() - i,
{
    if i < s.len() {
        let c = s[i];
        if c == ' ' || c == '\t' || c == '\n' {
            lemma_run_end_bounds(s, i + 1, CharClass::Whitespace);
            let j = whitespace_end(s, i + 1);
            lemma_lex_count(s, j, toks);
            lemma_lex_count(s, j, toks.push(TokenView::Multiply));
            lemma_lex_count(s, i + 1, toks);
        } else if is_ascii_letter(c) {
            lemma_run_end_bounds(s, i + 1, CharClass::IdentChar);
            let j = identifier_end(s, i);
            lemma_lex_count(s, j, toks.push(TokenView::Identifier(s.subrange(i, j))));
        } else if is_ascii_digit(c) {
            lemma_run_end_bounds(s, i + 1, CharClass::NumberChar);
            let j = number_end(s, i);
            lemma_lex_count(s, j, toks.push(TokenView::Number(s.subrange(i, j))));
        } else if c == '*' {
            if i + 2 <= s.len() {
                lemma_lex_count(s, i + 2, toks.push(TokenView::Power));
            }
            lemma_lex_count(s, i + 1, toks.push(TokenView::Multiply));
        } else {
            lemma_lex_count(s, i + 1, toks.push(TokenView::Divide));
            lemma_lex_count(s, i + 1, toks.push(TokenView::Power));
            lemma_lex_count(s, i + 1, toks.push(TokenView::LeftParen));
            lemma_lex_count(s, i + 1, toks.push(TokenView::RightParen));
        }
    }
}

/// Tokenizing gives at most one token for each character of the input.
pub proof fn law_token_count(s: Seq<char>)
    ensures
        spec_tokenize(s) matches LexOutcome::Tokens(ts) ==> ts.len() <= s.len(),
{
    lemma_lex_count(s, 0, Seq::empty());
}

/// Two strings of one length that agree from `k` on.
pub open spec fn agree_from(s1: Seq<char>, s2: Seq<char>, k: int) -> bool {
    s1.len() == s2.len() && forall|j: int| k <= j < s1.len() ==> s1[j] == s2[j]
}

proof fn lemma_run_end_agree(s1: Seq<char>, s2: Seq<char>, k: int, i: int, c: CharClass)
    requires
        agree_from(s1, s2, k),
        k <= i,
    ensures
        run_end(s1, i, c) == run_end(s2, i, c),
    decreases s1.len() - i,
{
    if 0 <= i < s1.len() && in_class(c, s1[i]) {
        lemma_run_end_agree(s1, s2, k, i + 1, c);
    }
}

/// Lexing from `i` on reads nothing before `i`.
proof fn lemma_lex_agree(s1: Seq<char>, s2: Seq<char>, k: int, i: int, toks: Seq<TokenView>)
    requires
        agree_from(s1, s2, k),
        k <= i,
    ensures
        lex(s1, i, toks) == lex(s2, i, toks),
    decreases s1.len() - i,
{
    if 0 <= i < s1.len() {
        let c = s1[i];
        assert(s2[i] == c);
        if c == ' ' || c == '\t' || c == '\n' {
            lemma_run_end_bounds(s1, i + 1, CharClass::Whitespace);
            lemma_run_end_agree(s1, s2, k, i + 1, CharClass::Whitespace);
            let j = whitespace_end(s1, i + 1);
            if j < s1.len() {
                assert(s2[j] == s1[j]);
            }
            lemma_lex_agree(s1, s2, k, j, toks);
            lemma_lex_agree(s1, s2, k, j, toks.push(TokenView::Multiply));
            lemma_lex_agree(s1, s2, k, i + 1, toks);
        } else if is_ascii_letter(c) {
            lemma_run_end_bounds(s1, i + 1, CharClass::IdentChar);
            lemma_run_end_agree(s1, s2, k, i + 1, CharClass::IdentChar);
            let j = identifier_end(s1, i);
            assert(s1.subrange(i, j) =~= s2.subrange(i, j));
            lemma_lex_agree(s1, s2, k, j, toks.push(TokenView::Identifier(s1.subrange(i, j))));
        } else if is_ascii_digit(c) {
            lemma_run_end_bounds(s1, i + 1, CharClass::NumberChar);
            lemma_run_end_agree(s1, s2, k, i + 1, CharClass::NumberChar);
            let j = number_end(s1, i);
            assert(s1.subrange(i, j) =~= s2.subrange(i, j));
            lemma_lex_agree(s1, s2, k, j, toks.push(TokenView::Number(s1.subrange(i, j))));
        } else if c == '*' {
            if i + 1 < s1.len() {
                assert(s2[i + 1] == s1[i + 1]);
                lemma_lex_agree(s1, s2, k, i + 2, toks.push(TokenView::Power));
            }
            lemma_lex_agree(s1, s2, k, i + 1, toks.push(TokenView::Multiply));
        } else {
            lemma_lex_agree(s1, s2, k, i + 1, toks.push(TokenView::Divide));
            lemma_lex_agree(s1, s2, k, i + 1, toks.push(TokenView::Power));
            lemma_lex_agree(s1, s2, k, i + 1, toks.push(TokenView::LeftParen));
            lemma_lex_agree(s1, s2, k, i + 1, toks.push(TokenView::RightParen));
        }
    }
}

/// A character that can start a factor: a letter (one that is not also
/// whitespace) or `(`.
pub open spec fn starts_factor(c: char) -> bool {
    (alphabetic(c) && !whitespace(c)) || c == '('
}

proof fn lemma_run_end_exact(s: Seq<char>, x: int, y: int, c: CharClass)
    requires
        0 <= x <= y < s.len(),
        forall|m: int| x <= m < y ==> #[trigger] in_class(c, s[m]),
        !in_class(c, s[y]),
    ensures
        run_end(s, x, c) == y,
    decreases y - x,
{
    if x < y {
        lemma_run_end_exact(s, x + 1, y, c);
    }
}

/// Whitespace between the end of a factor (an identifier or `)`, whichever
/// it is) and the start of the next (a letter or `(`, whichever it is) is a
/// multiplication: lexing the text reads exactly what it reads with `*` in
/// place of the last whitespace character (`x (y)` as `x*(y)`, `(x)  y` as
/// `(x) *y`).
pub proof fn law_space_between_factors_is_multiplication(s: Seq<char>, i: int, toks: Seq<TokenView>)
    requires
        0 <= i < s.len(),
        s[i] == ' ' || s[i] == '\t' || s[i] == '\n',
        whitespace_end(s, i + 1) < s.len(),
        starts_factor(s[whitespace_end(s, i + 1)]),
        toks.len() > 0,
        toks.last() is Identifier || toks.last() is RightParen,
    ensures
        lex(s, i, toks) == lex(s.update(whitespace_end(s, i + 1) - 1, '*'), i, toks),
{
    lemma_run_end_bounds(s, i + 1, CharClass::Whitespace);
    let j = whitespace_end(s, i + 1);
    let t = s.update(j - 1, '*');
    assert(agree_from(s, t, j));
    assert(t[j] == s[j]);
    assert(t[j - 1] == '*');
    assert(!whitespace('*'));
    lemma_lex_agree(s, t, j, j, toks.push(TokenView::Multiply));
    if j - 1 > i {
        assert(t[i] == s[i]);
        assert forall|m: int| i + 1 <= m < j - 1 implies #[trigger] in_class(CharClass::Whitespace, t[m]) by {
            assert(t[m] == s[m]);
            assert(in_class(CharClass::Whitespace, s[m]));
        }
        lemma_run_end_exact(t, i + 1, j - 1, CharClass::Whitespace);
        assert(whitespace_end(t, i + 1) == j - 1);
        assert(lex(t, j - 1, toks) == lex(t, j, toks.push(TokenView::Multiply)));
    }
}

/// Whitespace that does not stand between the end of a factor and the
/// start of the next adds no token: lexing from it reads what lexing from
/// the first character after it reads (so `2 kg`, `kg *  m` and `kg ` get
/// no multiplication from their spaces).
pub proof fn law_other_whitespace_is_ignored(s: Seq<char>, i: int, toks: Seq<TokenView>)
    requires
        0 <= i < s.len(),
        s[i] == ' ' || s[i] == '\t' || s[i] == '\n',
        toks.len() > 0,
        !((toks.last() is Identifier || toks.last() is RightParen) && whitespace_end(s, i + 1) < s.len()
            && starts_factor(s[whitespace_end(s, i + 1)])),
    ensures
        lex(s, i, toks) == lex(s, whitespace_end(s, i + 1), toks),
{
    lemma_run_end_bounds(s, i + 1, CharClass::Whitespace);
    let j = whitespace_end(s, i + 1);
    if j < s.len() {
        assert(!whitespace(s[j]));
    }
}

} // verus!
