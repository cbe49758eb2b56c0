//! A reader of unit expressions written as small combinators over the
//! characters of the input, in the style of `nom`:
//!
//! ```text
//! expression   := factor ( ws ('*' | '/') factor | factor-starting-here )*
//! factor       := ws '(' expression ws ')' ws power? | identifier power?
//! power        := ('**' | '^') exponent
//! exponent     := ws '(' ws fraction ws ')' ws | number
//! fraction     := number ( ws '/' ws number )?
//! identifier   := [A-Za-z] [A-Za-z0-9_]*
//! number       := [+-]? ( digits ('.' digits?)? | '.' digits ) ( [eE] [+-]? digits )?
//!               | "nan" | "infinity" | "inf"          (any ASCII case)
//! ```
//!
//! Juxtaposition is multiplication: after a factor, a character that is
//! alphabetic or `(` starts another factor. Whatever follows the expression
//! is not read. A parse stops with an *error* (after which an optional part
//! is taken as absent) or a *failure* (which ends the parse); the unknown
//! unit name and an exponent marker `e` without digits are failures.
use vstd::prelude::*;
use crate::chars::{alphabetic, is_alphabetic, is_ascii_digit, is_ascii_letter, push_char};
use crate::parser::{digit_value, pow10};
use crate::rational::{Rational, norm, rat_div, abs, gcd, with_sign};
use crate::natural::Natural;
use crate::text::{quoted, str_debug};
use crate::tokenizer::{chars_of, agree_from};
use crate::unit::{
    DefinedUnit, Unit, UnitMap, Component, spec_combine, spec_pow,
    drop_zeros, comps_map, distinct_names,
};
use crate::unit_registry::UnitRegistry;
use std::sync::Arc;

verus! {

/// Why `parse` rejected its input.
#[derive(Debug)]
pub enum ParserError {
    /// The grammar rejected the input: a message that says whether the parse
    /// stopped with an error or a failure, at which remaining text, and on
    /// which check.
    NomError(String),
    /// An exponent that has to be applied has no rational value: a word
    /// such as `nan` or `inf` (values of floating point only), a quotient by
    /// zero, or a number whose exact value no machine holds.
    ExponentOutOfRange,
}

/// The message of a parse error.
pub open spec fn error_message(e: ParserError) -> Seq<char> {
    match e {
        ParserError::NomError(m) => "Parse error: "@ + m@,
        ParserError::ExponentOutOfRange => "Exponent out of range"@,
    }
}

impl ParserError {
    /// The message of this error.
    pub fn message(&self) -> (s: String)
        ensures
            s@ == error_message(*self),
    {
        match self {
            ParserError::NomError(m) => String::from_str("Parse error: ").concat(m.as_str()),
            ParserError::ExponentOutOfRange => String::from_str("Exponent out of range"),
        }
    }
}

// ---------------------------------------------------------------------------
// Outcomes
// ---------------------------------------------------------------------------

/// The check that failed where a parse stopped.
#[derive(Debug, Clone, Copy)]
pub enum ErrorCode {
    /// An identifier was expected (no ASCII letter).
    Alpha,
    /// A given character was expected.
    Char,
    /// A given tag was expected; also an identifier that names no unit.
    Tag,
    /// A number was expected.
    Float,
}

/// Where and how a parse stopped: an error (recoverable by an enclosing
/// optional part), a failure (not recoverable), or an exponent that is not
/// a `Rational`.
#[derive(Debug, Clone, Copy)]
pub enum Halt {
    Error(usize, ErrorCode),
    Failure(usize, ErrorCode),
    OutOfRange,
}

pub enum HaltView {
    Error(int, ErrorCode),
    Failure(int, ErrorCode),
    OutOfRange,
}

impl View for Halt {
    type V = HaltView;

    open spec fn view(&self) -> HaltView {
        match self {
            Halt::Error(p, c) => HaltView::Error(*p as int, *c),
            Halt::Failure(p, c) => HaltView::Failure(*p as int, *c),
            Halt::OutOfRange => HaltView::OutOfRange,
        }
    }
}

/// A halt of `r`, if any, is at a position within the input of length `n`.
pub open spec fn halt_within<T>(r: Result<T, Halt>, n: int) -> bool {
    match r {
        Err(Halt::Error(p, _)) => p <= n,
        Err(Halt::Failure(p, _)) => p <= n,
        _ => true,
    }
}

/// What a parser gives at a position: a value and the position after it, or
/// a halt.
pub enum Outcome<T> {
    Done(T, int),
    Halted(HaltView),
}

/// The value of an optional rational (`None` stands for a number that is
/// not a `Rational`: too large, too precise, infinite or not a number).
pub open spec fn opt_view(x: Option<Rational>) -> Option<(int, int)> {
    match x {
        Some(r) => Some(r@),
        None => None,
    }
}

// ---------------------------------------------------------------------------
// Runs of characters
// ---------------------------------------------------------------------------

/// The characters that `multispace0` skips.
pub open spec fn is_multispace(c: char) -> bool {
    c == ' ' || c == '\t' || c == '\r' || c == '\n'
}

pub open spec fn is_ident_rest(c: char) -> bool {
    is_ascii_letter(c) || is_ascii_digit(c) || c == '_'
}

pub enum Class {
    Multispace,
    Digit,
    IdentRest,
}

pub open spec fn in_class(k: Class, c: char) -> bool {
    match k {
        Class::Multispace => is_multispace(c),
        Class::Digit => is_ascii_digit(c),
        Class::IdentRest => is_ident_rest(c),
    }
}

/// The end of the longest run of class `k` that starts at `i`.
pub open spec fn run(s: Seq<char>, i: int, k: Class) -> int
    decreases s.len() - i,
{
    if 0 <= i < s.len() && in_class(k, s[i]) {
        run(s, i + 1, k)
    } else {
        i
    }
}

pub open spec fn ws_end(s: Seq<char>, i: int) -> int {
    run(s, i, Class::Multispace)
}

pub open spec fn digits_end(s: Seq<char>, i: int) -> int {
    run(s, i, Class::Digit)
}

pub proof fn lemma_run(s: Seq<char>, i: int, k: Class)
    requires
        0 <= i <= s.len(),
    ensures
        i <= run(s, i, k) <= s.len(),
        forall|j: int| i <= j < run(s, i, k) ==> #[trigger] in_class(k, s[j]),
        run(s, i, k) < s.len() ==> !in_class(k, s[run(s, i, k)]),
    decreases s.len() - i,
{
    if i < s.len() && in_class(k, s[i]) {
        lemma_run(s, i + 1, k);
    }
}

fn class_has(k: &Class, c: char) -> (b: bool)
    ensures
        b == in_class(*k, c),
{
    match k {
        Class::Multispace => c == ' ' || c == '\t' || c == '\r' || c == '\n',
        Class::Digit => '0' <= c && c <= '9',
        Class::IdentRest => ('a' <= c && c <= 'z') || ('A' <= c && c <= 'Z') || ('0' <= c && c <= '9')
            || c == '_',
    }
}

/// The end of the run of class `k` from `i`.
fn run_exec(cs: &Vec<char>, i: usize, k: Class) -> (r: usize)
    requires
        i <= cs@.len(),
    ensures
        r == run(cs@, i as int, k),
        i <= r <= cs@.len(),
{
    proof {
        lemma_run(cs@, i as int, k);
    }
    let mut j = i;
    while j < cs.len()
        invariant
            i <= j <= cs@.len(),
            run(cs@, j as int, k) == run(cs@, i as int, k),
        ensures
            j == run(cs@, i as int, k),
        decreases cs.len() - j,
    {
        if class_has(&k, cs[j]) {
            j = j + 1;
        } else {
            break;
        }
    }
    j
}

// ---------------------------------------------------------------------------
// Numbers
// ---------------------------------------------------------------------------

/// The value of a string of decimal digits.
pub open spec fn digits_value(t: Seq<char>) -> nat
    decreases t.len(),
{
    if t.len() == 0 {
        0
    } else {
        digits_value(t.drop_last()) * 10 + digit_value(t.last())
    }
}

/// The value `± m × 10^k`. When `m` is not zero and the point moves by
/// more than `u64::MAX` places, the exact value (or its denominator) has
/// more than `2^64` decimal digits, which no machine holds: `None`.
pub open spec fn decimal_value(neg: bool, m: nat, k: int) -> Option<(int, int)> {
    if m == 0 {
        Some((0, 1))
    } else if k < -(u64::MAX as int) || k > u64::MAX {
        None
    } else {
        let n = with_sign(neg, m);
        if k >= 0 {
            Some(norm(n * pow10(k as nat), 1))
        } else {
            Some(norm(n, pow10((-k) as nat)))
        }
    }
}

/// What `recognize_float` finds at a position.
pub enum FloatScan {
    NoMatch,
    /// An exponent marker without digits.
    Cut,
    /// The end of the number, and its value.
    Match(int, Option<(int, int)>),
}

/// The exponent part (if any) that follows the digits of a number, at `q`.
pub open spec fn float_exponent(s: Seq<char>, neg: bool, digits: Seq<char>, scale: int, q: int) -> FloatScan {
    if 0 <= q < s.len() && (s[q] == 'e' || s[q] == 'E') {
        let eneg = q + 1 < s.len() && s[q + 1] == '-';
        let r = if q + 1 < s.len() && (s[q + 1] == '+' || s[q + 1] == '-') {
            q + 2
        } else {
            q + 1
        };
        if r < s.len() && is_ascii_digit(s[r]) {
            let e = digits_end(s, r);
            let ev = digits_value(s.subrange(r, e)) as int;
            FloatScan::Match(
                e,
                decimal_value(neg, digits_value(digits), (if eneg {
                    -ev
                } else {
                    ev
                }) - scale),
            )
        } else {
            FloatScan::Cut
        }
    } else {
        FloatScan::Match(q, decimal_value(neg, digits_value(digits), -scale))
    }
}

/// A decimal number at `i`: sign, digits with an optional point (at least
/// one digit), and an optional exponent.
#[verifier::opaque]
pub open spec fn recognize_float(s: Seq<char>, i: int) -> FloatScan {
    if !(0 <= i <= s.len()) {
        FloatScan::NoMatch
    } else {
        let neg = i < s.len() && s[i] == '-';
        let p = if i < s.len() && (s[i] == '+' || s[i] == '-') {
            i + 1
        } else {
            i
        };
        if p < s.len() && is_ascii_digit(s[p]) {
            let d = digits_end(s, p);
            if d < s.len() && s[d] == '.' {
                let f = digits_end(s, d + 1);
                float_exponent(s, neg, s.subrange(p, d) + s.subrange(d + 1, f), f - (d + 1), f)
            } else {
                float_exponent(s, neg, s.subrange(p, d), 0, d)
            }
        } else if p + 1 < s.len() && s[p] == '.' && is_ascii_digit(s[p + 1]) {
            let f = digits_end(s, p + 1);
            float_exponent(s, neg, s.subrange(p + 1, f), f - (p + 1), f)
        } else {
            FloatScan::NoMatch
        }
    }
}

/// `c` with ASCII capitals made small.
pub open spec fn ascii_lower(c: char) -> char {
    if 'A' <= c && c <= 'Z' {
        ((c as u32 + 32) as u8) as char
    } else {
        c
    }
}

/// Whether `s` starts with the lower-case ASCII word `w`, in any case.
pub open spec fn starts_with_no_case(s: Seq<char>, w: Seq<char>) -> bool {
    w.len() <= s.len() && forall|i: int| 0 <= i < w.len() ==> #[trigger] ascii_lower(s[i]) == w[i]
}

/// What `nom`'s `recognize_float_or_exceptions` recognizes at the start of
/// `s`: the text of a number as `recognize_float` reads it (sign, digits
/// with an optional point, optional exponent); `Err(true)` (its failure)
/// for an exponent marker without digits; else one of the words `nan`,
/// `infinity`, `inf` in any case; else `Err(false)` (its error).
pub open spec fn recognized_float(s: Seq<char>) -> Result<Seq<char>, bool> {
    match recognize_float(s, 0) {
        FloatScan::Match(e, _) => Ok(s.subrange(0, e)),
        FloatScan::Cut => Err(true),
        FloatScan::NoMatch => if starts_with_no_case(s, "nan"@) {
            Ok(s.subrange(0, 3))
        } else if starts_with_no_case(s, "infinity"@) {
            Ok(s.subrange(0, 8))
        } else if starts_with_no_case(s, "inf"@) {
            Ok(s.subrange(0, 3))
        } else {
            Err(false)
        },
    }
}

/// A number at `i`, as `nom`'s `double` reads it: the text that
/// `recognized_float` gives, whose value is `decimal_text_value` (a word such
/// as `nan`, or a number whose exact value no machine holds, has no value).
#[verifier::opaque]
pub open spec fn double(s: Seq<char>, i: int) -> Outcome<Option<(int, int)>> {
    match recognized_float(s.subrange(i, s.len() as int)) {
        Ok(t) => Outcome::Done(decimal_text_value(t), i + t.len()),
        Err(true) => Outcome::Halted(HaltView::Failure(i, ErrorCode::Float)),
        Err(false) => Outcome::Halted(HaltView::Error(i, ErrorCode::Float)),
    }
}

pub proof fn lemma_digits_value_push(t: Seq<char>, c: char)
    ensures
        digits_value(t.push(c)) == digits_value(t) * 10 + digit_value(c),
{
    assert(t.push(c).drop_last() =~= t);
}

/// The number read so far from a run of digits: exact while it is at most
/// `cap`, else only known to exceed it.
pub open spec fn tracks(acc: u128, big: bool, v: nat, cap: u128) -> bool {
    &&& !big ==> acc == v && acc <= cap
    &&& big ==> v > cap
}

/// Reads the run of ASCII digits from `i` on, continuing a number whose
/// digits so far are `prefix`.
fn read_digits(cs: &Vec<char>, i: usize, acc: u128, big: bool, cap: u128, Ghost(prefix): Ghost<Seq<char>>) -> (r: (
    usize,
    u128,
    bool,
))
    requires
        i <= cs@.len(),
        cap < 0xffff_ffff_ffff_ffff_ffff_ffff_ffff_fff0,
        tracks(acc, big, digits_value(prefix), cap),
    ensures
        r.0 == digits_end(cs@, i as int),
        i <= r.0 <= cs@.len(),
        i < cs@.len() && is_ascii_digit(cs@[i as int]) ==> i < r.0,
        tracks(r.1, r.2, digits_value(prefix + cs@.subrange(i as int, r.0 as int)), cap),
{
    let ghost s = cs@;
    proof {
        lemma_run(s, i as int, Class::Digit);
        if i < s.len() && is_ascii_digit(s[i as int]) {
            lemma_run(s, i + 1, Class::Digit);
        }
        assert(prefix + s.subrange(i as int, i as int) =~= prefix);
    }
    let mut j = i;
    let mut acc = acc;
    let mut big = big;
    while j < cs.len()
        invariant
            s == cs@,
            i <= j <= s.len(),
            cap < 0xffff_ffff_ffff_ffff_ffff_ffff_ffff_fff0,
            run(s, j as int, Class::Digit) == run(s, i as int, Class::Digit),
            tracks(acc, big, digits_value(prefix + s.subrange(i as int, j as int)), cap),
        ensures
            j == digits_end(s, i as int),
            tracks(acc, big, digits_value(prefix + s.subrange(i as int, j as int)), cap),
        decreases cs.len() - j,
    {
        let c = cs[j];
        if !('0' <= c && c <= '9') {
            break;
        }
        let ghost t = prefix + s.subrange(i as int, j as int);
        proof {
            assert(t.push(c) =~= prefix + s.subrange(i as int, j + 1));
            lemma_digits_value_push(t, c);
        }
        let d = (c as u32 - '0' as u32) as u128;
        if !big {
            if acc > cap / 10 {
                big = true;
                assert(acc * 10 > cap) by (nonlinear_arith)
                    requires
                        acc > cap / 10,
                ;
            } else {
                assert(acc * 10 <= cap) by (nonlinear_arith)
                    requires
                        acc <= cap / 10,
                ;
                let next = acc * 10 + d;
                if next > cap {
                    big = true;
                } else {
                    acc = next;
                }
            }
        }
        j = j + 1;
    }
    (j, acc, big)
}


/// `10^k`.
fn pow10_exec(k: u64) -> (r: Natural)
    ensures
        r@ == pow10(k as nat),
{
    let ten = Natural::from_u64(10);
    let mut r = Natural::from_u64(1);
    let mut i: u64 = 0;
    while i < k
        invariant
            i <= k,
            ten@ == 10,
            r@ == pow10(i as nat),
        decreases k - i,
    {
        r = r.mul(&ten);
        i = i + 1;
    }
    r
}

proof fn lemma_pow10_positive(k: nat)
    ensures
        pow10(k) >= 1,
    decreases k,
{
    if k > 0 {
        lemma_pow10_positive((k - 1) as nat);
    }
}

/// The value `± m × 10^k` of `decimal_value`, from the digits read (`m`)
/// and the shift of the point (`k`, exact unless `k_far`, in which case it
/// is beyond `u64::MAX` places).
fn decimal_value_exec(neg: bool, m: Natural, k: i128, k_far: bool, Ghost(kv): Ghost<int>) -> (r: Option<
    Rational,
>)
    requires
        k_far ==> (kv < -(u64::MAX as int) || kv > u64::MAX),
        !k_far ==> k == kv,
    ensures
        opt_view(r) == decimal_value(neg, m@, kv),
{
    if m.is_zero() {
        return Some(Rational::zero());
    }
    if k_far || k < -0xffff_ffff_ffff_ffff || k > 0xffff_ffff_ffff_ffff {
        return None;
    }
    if k >= 0 {
        let p = pow10_exec(k as u64);
        proof {
            crate::rational::lemma_with_sign_mul(neg, m@, p@);
        }
        Some(crate::rational::reduce(neg, m.mul(&p), Natural::from_u64(1)))
    } else {
        let p = pow10_exec((-k) as u64);
        proof {
            lemma_pow10_positive((-k) as nat);
        }
        Some(crate::rational::reduce(neg, m, p))
    }
}

/// What the executable reader of numbers finds.
enum FloatRead {
    NoMatch,
    Cut,
    Match(usize, Option<Rational>),
}

spec fn read_matches(r: FloatRead, f: FloatScan) -> bool {
    match f {
        FloatScan::NoMatch => r is NoMatch,
        FloatScan::Cut => r is Cut,
        FloatScan::Match(e, v) => r matches FloatRead::Match(q, x) && q == e && opt_view(x) == v,
    }
}

/// Reads the run of ASCII digits from `i` on, continuing a number whose
/// digits so far are `prefix` (of value `acc`).
fn read_digits_exact(cs: &Vec<char>, i: usize, acc: Natural, Ghost(prefix): Ghost<Seq<char>>) -> (r: (usize, Natural))
    requires
        i <= cs@.len(),
        acc@ == digits_value(prefix),
    ensures
        r.0 == digits_end(cs@, i as int),
        i <= r.0 <= cs@.len(),
        i < cs@.len() && is_ascii_digit(cs@[i as int]) ==> i < r.0,
        r.1@ == digits_value(prefix + cs@.subrange(i as int, r.0 as int)),
{
    let ghost s = cs@;
    proof {
        lemma_run(s, i as int, Class::Digit);
        if i < s.len() && is_ascii_digit(s[i as int]) {
            lemma_run(s, i + 1, Class::Digit);
        }
        assert(prefix + s.subrange(i as int, i as int) =~= prefix);
    }
    let ten = Natural::from_u64(10);
    let mut j = i;
    let mut acc = acc;
    while j < cs.len()
        invariant
            s == cs@,
            i <= j <= s.len(),
            ten@ == 10,
            run(s, j as int, Class::Digit) == run(s, i as int, Class::Digit),
            acc@ == digits_value(prefix + s.subrange(i as int, j as int)),
        ensures
            j == digits_end(s, i as int),
            acc@ == digits_value(prefix + s.subrange(i as int, j as int)),
        decreases cs.len() - j,
    {
        let c = cs[j];
        if !('0' <= c && c <= '9') {
            break;
        }
        let ghost t = prefix + s.subrange(i as int, j as int);
        proof {
            assert(t.push(c) =~= prefix + s.subrange(i as int, j + 1));
            lemma_digits_value_push(t, c);
        }
        let d = (c as u32 - '0' as u32) as u64;
        acc = acc.mul(&ten).add(&Natural::from_u64(d));
        j = j + 1;
    }
    (j, acc)
}

fn is_digit(c: char) -> (b: bool)
    ensures
        b == is_ascii_digit(c),
{
    '0' <= c && c <= '9'
}

/// Reads the exponent part (if any) at `q` and gives the number's value.
fn float_exponent_exec(
    cs: &Vec<char>,
    neg: bool,
    m: Natural,
    scale: usize,
    q: usize,
    Ghost(digits): Ghost<Seq<char>>,
) -> (r: FloatRead)
    requires
        q <= cs@.len(),
        m@ == digits_value(digits),
    ensures
        read_matches(r, float_exponent(cs@, neg, digits, scale as int, q as int)),
        r matches FloatRead::Match(e, _) ==> q <= e <= cs@.len(),
{
    let ghost s = cs@;
    let n = cs.len();
    if q < n && (cs[q] == 'e' || cs[q] == 'E') {
        let eneg = q + 1 < n && cs[q + 1] == '-';
        let r = if q + 1 < n && (cs[q + 1] == '+' || cs[q + 1] == '-') {
            q + 2
        } else {
            q + 1
        };
        if !(r < n && is_digit(cs[r])) {
            return FloatRead::Cut;
        }
        let cap: u128 = 0xffff_ffff_ffff_ffff_ffff_ffff;
        proof {
            assert(digits_value(Seq::<char>::empty()) == 0);
        }
        let (e, ev, e_big) = read_digits(cs, r, 0, false, cap, Ghost(Seq::empty()));
        let ghost evv = digits_value(s.subrange(r as int, e as int)) as int;
        let ghost kv = (if eneg {
            -evv
        } else {
            evv
        }) - scale;
        proof {
            assert(Seq::<char>::empty() + s.subrange(r as int, e as int) =~= s.subrange(r as int, e as int));
        }
        let k: i128 = if e_big {
            0
        } else if eneg {
            -(ev as i128) - scale as i128
        } else {
            ev as i128 - scale as i128
        };
        let v = decimal_value_exec(neg, m, k, e_big, Ghost(kv));
        FloatRead::Match(e, v)
    } else {
        let v = decimal_value_exec(neg, m, -(scale as i128), false, Ghost(-(scale as int)));
        FloatRead::Match(q, v)
    }
}

/// Reads a decimal number at `i` (`recognize_float`) and its value.
fn recognize_float_exec(cs: &Vec<char>, i: usize) -> (r: FloatRead)
    requires
        i <= cs@.len(),
    ensures
        read_matches(r, recognize_float(cs@, i as int)),
        r matches FloatRead::Match(e, _) ==> i < e <= cs@.len(),
{
    proof {
        reveal(recognize_float);
    }
    let ghost s = cs@;
    let n = cs.len();
    let neg = i < n && cs[i] == '-';
    let p = if i < n && (cs[i] == '+' || cs[i] == '-') {
        i + 1
    } else {
        i
    };
    proof {
        assert(digits_value(Seq::<char>::empty()) == 0);
    }
    if p < n && is_digit(cs[p]) {
        let (d, m1) = read_digits_exact(cs, p, Natural::zero(), Ghost(Seq::empty()));
        proof {
            assert(Seq::<char>::empty() + s.subrange(p as int, d as int) =~= s.subrange(p as int, d as int));
        }
        if d < n && cs[d] == '.' {
            let (f, m2) = read_digits_exact(cs, d + 1, m1, Ghost(s.subrange(p as int, d as int)));
            float_exponent_exec(
                cs,
                neg,
                m2,
                f - (d + 1),
                f,
                Ghost(s.subrange(p as int, d as int) + s.subrange(d + 1, f as int)),
            )
        } else {
            float_exponent_exec(cs, neg, m1, 0, d, Ghost(s.subrange(p as int, d as int)))
        }
    } else if p < n && p + 1 < n && cs[p] == '.' && is_digit(cs[p + 1]) {
        let (f, m2) = read_digits_exact(cs, p + 1, Natural::zero(), Ghost(Seq::empty()));
        proof {
            assert(Seq::<char>::empty() + s.subrange(p + 1, f as int) =~= s.subrange(p + 1, f as int));
        }
        float_exponent_exec(cs, neg, m2, f - (p + 1), f, Ghost(s.subrange(p + 1, f as int)))
    } else {
        FloatRead::NoMatch
    }
}

/// Calls `nom::number::complete::recognize_float_or_exceptions` on `text`,
/// which recognizes what `recognized_float` says (nom 8's
/// `recognize_float`, then the words it accepts with `tag_no_case`); the
/// recognized text is a nonempty prefix of `text`.
#[verifier::external_body]
fn recognize_number(text: &str) -> (r: Result<String, bool>)
    ensures
        match r {
            Ok(t) => recognized_float(text@) == Ok::<Seq<char>, bool>(t@) && 0 < t@.len() <= text@.len()
                && text@.subrange(0, t@.len() as int) == t@,
            Err(b) => recognized_float(text@) == Err::<Seq<char>, bool>(b),
        },
{
    match nom::number::complete::recognize_float_or_exceptions::<&str, nom::error::Error<&str>>(text) {
        Ok((_, recognized)) => Ok(recognized.to_string()),
        Err(nom::Err::Failure(_)) => Err(true),
        Err(_) => Err(false),
    }
}

/// Reads a number at `i` (`double`).
fn double_exec(cs: &Vec<char>, i: usize) -> (r: Result<(Option<Rational>, usize), Halt>)
    requires
        i <= cs@.len(),
    ensures
        halt_within(r, cs@.len() as int),
        match double(cs@, i as int) {
            Outcome::Done(v, e) => r matches Ok((x, q)) && opt_view(x) == v && q == e,
            Outcome::Halted(h) => r matches Err(hh) && hh@ == h,
        },
        r matches Ok((_, q)) ==> i < q <= cs@.len(),
{
    proof {
        reveal(double);
    }
    let n = cs.len();
    let rest = collect(cs, i, n);
    match recognize_number(rest.as_str()) {
        Ok(t) => {
            let len = chars_of(t.as_str()).len();
            let v = decimal_to_rational(t.as_str());
            Ok((v, i + len))
        },
        Err(true) => Err(Halt::Failure(i, ErrorCode::Float)),
        Err(false) => Err(Halt::Error(i, ErrorCode::Float)),
    }
}

// ---------------------------------------------------------------------------
// Exponents
// ---------------------------------------------------------------------------

/// `a / b`, when both are rationals and `b` is not zero.
pub open spec fn quotient(a: Option<(int, int)>, b: Option<(int, int)>) -> Option<(int, int)> {
    match (a, b) {
        (Some(x), Some(y)) => if y.0 != 0 {
            Some(rat_div(x, y))
        } else {
            None
        },
        _ => None,
    }
}

/// A number, optionally followed by `/` and a second number (the quotient).
#[verifier::opaque]
pub open spec fn fraction(s: Seq<char>, i: int) -> Outcome<Option<(int, int)>> {
    match double(s, i) {
        Outcome::Done(a, p) => {
            let q = ws_end(s, p);
            if 0 <= q < s.len() && s[q] == '/' {
                match double(s, ws_end(s, q + 1)) {
                    Outcome::Done(b, e) => Outcome::Done(quotient(a, b), e),
                    Outcome::Halted(HaltView::Failure(x, c)) => Outcome::Halted(HaltView::Failure(x, c)),
                    Outcome::Halted(_) => Outcome::Done(a, p),
                }
            } else {
                Outcome::Done(a, p)
            }
        },
        Outcome::Halted(h) => Outcome::Halted(h),
    }
}

/// An exponent: a fraction in parentheses, or else a number.
#[verifier::opaque]
pub open spec fn exponent_value(s: Seq<char>, i: int) -> Outcome<Option<(int, int)>> {
    let p = ws_end(s, i);
    let first = if 0 <= p < s.len() && s[p] == '(' {
        match fraction(s, ws_end(s, p + 1)) {
            Outcome::Done(v, r) => {
                let t = ws_end(s, r);
                if 0 <= t < s.len() && s[t] == ')' {
                    Outcome::Done(v, ws_end(s, t + 1))
                } else {
                    Outcome::Halted(HaltView::Error(t, ErrorCode::Char))
                }
            },
            Outcome::Halted(h) => Outcome::Halted(h),
        }
    } else {
        Outcome::Halted(HaltView::Error(p, ErrorCode::Char))
    };
    match first {
        Outcome::Halted(HaltView::Error(_, _)) => double(s, i),
        other => other,
    }
}

/// `**` or `^`, then an exponent.
#[verifier::opaque]
pub open spec fn power_suffix(s: Seq<char>, i: int) -> Outcome<Option<(int, int)>> {
    if 0 <= i && i + 1 < s.len() && s[i] == '*' && s[i + 1] == '*' {
        exponent_value(s, i + 2)
    } else if 0 <= i < s.len() && s[i] == '^' {
        exponent_value(s, i + 1)
    } else {
        Outcome::Halted(HaltView::Error(i, ErrorCode::Tag))
    }
}

/// The executable result `r` is the outcome `o`.
pub open spec fn value_result(r: Result<(Option<Rational>, usize), Halt>, o: Outcome<Option<(int, int)>>) -> bool {
    match o {
        Outcome::Done(v, e) => r matches Ok((x, q)) && opt_view(x) == v && q == e,
        Outcome::Halted(h) => r matches Err(hh) && hh@ == h,
    }
}

fn quotient_exec(a: Option<Rational>, b: Option<Rational>) -> (r: Option<Rational>)
    ensures
        opt_view(r) == quotient(opt_view(a), opt_view(b)),
{
    match (a, b) {
        (Some(x), Some(y)) => x.checked_div(&y),
        _ => None,
    }
}

fn fraction_exec(cs: &Vec<char>, i: usize) -> (r: Result<(Option<Rational>, usize), Halt>)
    requires
        i <= cs@.len(),
    ensures
        halt_within(r, cs@.len() as int),
        value_result(r, fraction(cs@, i as int)),
        r matches Ok((_, q)) ==> i < q <= cs@.len(),
{
    proof {
        reveal(fraction);
    }
    let (a, p) = match double_exec(cs, i) {
        Ok(x) => x,
        Err(h) => {
            return Err(h);
        },
    };
    let q = run_exec(cs, p, Class::Multispace);
    if q < cs.len() && cs[q] == '/' {
        let w = run_exec(cs, q + 1, Class::Multispace);
        match double_exec(cs, w) {
            Ok((b, e)) => Ok((quotient_exec(a, b), e)),
            Err(Halt::Failure(x, c)) => Err(Halt::Failure(x, c)),
            Err(_) => Ok((a, p)),
        }
    } else {
        Ok((a, p))
    }
}

fn exponent_value_exec(cs: &Vec<char>, i: usize) -> (r: Result<(Option<Rational>, usize), Halt>)
    requires
        i <= cs@.len(),
    ensures
        halt_within(r, cs@.len() as int),
        value_result(r, exponent_value(cs@, i as int)),
        r matches Ok((_, q)) ==> i < q <= cs@.len(),
{
    proof {
        reveal(exponent_value);
    }
    let p = run_exec(cs, i, Class::Multispace);
    let first: Result<(Option<Rational>, usize), Halt> = if p < cs.len() && cs[p] == '(' {
        let w = run_exec(cs, p + 1, Class::Multispace);
        match fraction_exec(cs, w) {
            Ok((v, r)) => {
                let t = run_exec(cs, r, Class::Multispace);
                if t < cs.len() && cs[t] == ')' {
                    let z = run_exec(cs, t + 1, Class::Multispace);
                    Ok((v, z))
                } else {
                    Err(Halt::Error(t, ErrorCode::Char))
                }
            },
            Err(h) => Err(h),
        }
    } else {
        Err(Halt::Error(p, ErrorCode::Char))
    };
    match first {
        Err(Halt::Error(_, _)) => double_exec(cs, i),
        other => other,
    }
}

fn power_suffix_exec(cs: &Vec<char>, i: usize) -> (r: Result<(Option<Rational>, usize), Halt>)
    requires
        i <= cs@.len(),
    ensures
        halt_within(r, cs@.len() as int),
        value_result(r, power_suffix(cs@, i as int)),
        r matches Ok((_, q)) ==> i < q <= cs@.len(),
{
    proof {
        reveal(power_suffix);
    }
    let n = cs.len();
    if i < n && i + 1 < n && cs[i] == '*' && cs[i + 1] == '*' {
        exponent_value_exec(cs, i + 2)
    } else if i < n && cs[i] == '^' {
        exponent_value_exec(cs, i + 1)
    } else {
        Err(Halt::Error(i, ErrorCode::Tag))
    }
}


// ---------------------------------------------------------------------------
// Factors and expressions
// ---------------------------------------------------------------------------

/// The unit `name` of the registry to the power `v`; no component at all
/// when `v` is zero.
pub open spec fn named_unit<S>(reg: Map<Seq<char>, DefinedUnit<S>>, name: Seq<char>, v: (int, int)) -> UnitMap<S> {
    if v.0 == 0 {
        Map::empty()
    } else {
        Map::empty().insert(name, (reg[name], v))
    }
}

/// The end of the identifier whose first letter is at `p`.
pub open spec fn ident_end(s: Seq<char>, p: int) -> int {
    run(s, p + 1, Class::IdentRest)
}

/// A factor at `i`: after whitespace, a parenthesized expression with an
/// optional power, or a unit name with an optional power.
pub open spec fn factor_outcome<S>(reg: Map<Seq<char>, DefinedUnit<S>>, s: Seq<char>, i: int) -> Outcome<UnitMap<S>>
    decreases s.len() - i, 1int,
{
    if !(0 <= i <= s.len()) {
        Outcome::Halted(HaltView::Error(i, ErrorCode::Char))
    } else {
        let p = ws_end(s, i);
        if !(i <= p <= s.len()) {
            Outcome::Halted(HaltView::Error(p, ErrorCode::Char))
        } else if p < s.len() && s[p] == '(' {
            match expression_outcome(reg, s, p + 1) {
                Outcome::Done(u, q) => {
                    let r = ws_end(s, q);
                    if 0 <= r < s.len() && s[r] == ')' {
                        let t = ws_end(s, r + 1);
                        match power_suffix(s, t) {
                            Outcome::Done(Some(v), z) => Outcome::Done(spec_pow(u, v), z),
                            Outcome::Done(None, _) => Outcome::Halted(HaltView::OutOfRange),
                            Outcome::Halted(HaltView::Error(_, _)) => Outcome::Done(u, t),
                            Outcome::Halted(h) => Outcome::Halted(h),
                        }
                    } else {
                        Outcome::Halted(HaltView::Error(r, ErrorCode::Char))
                    }
                },
                Outcome::Halted(h) => Outcome::Halted(h),
            }
        } else if p < s.len() && is_ascii_letter(s[p]) {
            let q = ident_end(s, p);
            let name = s.subrange(p, q);
            if reg.contains_key(name) {
                match power_suffix(s, q) {
                    Outcome::Done(Some(v), z) => Outcome::Done(named_unit(reg, name, v), z),
                    Outcome::Done(None, _) => Outcome::Halted(HaltView::OutOfRange),
                    Outcome::Halted(HaltView::Error(_, _)) => Outcome::Done(named_unit(reg, name, (1, 1)), q),
                    Outcome::Halted(h) => Outcome::Halted(h),
                }
            } else {
                Outcome::Halted(HaltView::Failure(q, ErrorCode::Tag))
            }
        } else {
            Outcome::Halted(HaltView::Error(p, ErrorCode::Alpha))
        }
    }
}

/// An expression at `i`: a factor, then what `expr_loop_outcome` reads.
pub open spec fn expression_outcome<S>(reg: Map<Seq<char>, DefinedUnit<S>>, s: Seq<char>, i: int) -> Outcome<
    UnitMap<S>,
>
    decreases s.len() - i, 2int,
{
    if !(0 <= i <= s.len()) {
        Outcome::Halted(HaltView::Error(i, ErrorCode::Char))
    } else {
        match factor_outcome(reg, s, i) {
            Outcome::Done(u, p) => if i < p <= s.len() {
                expr_loop_outcome(reg, s, p, u)
            } else {
                Outcome::Done(u, p)
            },
            Outcome::Halted(h) => Outcome::Halted(h),
        }
    }
}

/// After a left operand `acc` that ends at `p`: past whitespace, `*` or `/`
/// and a factor, or a factor that starts with an alphabetic character or
/// `(` (a product), as long as there are; the expression ends after the
/// whitespace.
pub open spec fn expr_loop_outcome<S>(
    reg: Map<Seq<char>, DefinedUnit<S>>,
    s: Seq<char>,
    p: int,
    acc: UnitMap<S>,
) -> Outcome<UnitMap<S>>
    decreases s.len() - p, 3int,
{
    if !(0 <= p <= s.len()) {
        Outcome::Done(acc, p)
    } else {
        let r = ws_end(s, p);
        if !(p <= r <= s.len()) {
            Outcome::Done(acc, r)
        } else if r < s.len() && (s[r] == '*' || s[r] == '/') {
            let div = s[r] == '/';
            match factor_outcome(reg, s, r + 1) {
                Outcome::Done(rhs, z) => if !(p < z <= s.len()) {
                    Outcome::Done(acc, z)
                } else {
                    expr_loop_outcome(reg, s, z, spec_combine(acc, rhs, div))
                },
                Outcome::Halted(h) => Outcome::Halted(h),
            }
        } else if r < s.len() && (alphabetic(s[r]) || s[r] == '(') {
            match factor_outcome(reg, s, r) {
                Outcome::Done(rhs, z) => if !(p < z <= s.len()) {
                    Outcome::Done(acc, z)
                } else {
                    expr_loop_outcome(reg, s, z, spec_combine(acc, rhs, false))
                },
                Outcome::Halted(h) => Outcome::Halted(h),
            }
        } else {
            Outcome::Done(acc, r)
        }
    }
}

/// The executable result `r` is the outcome `o`.
pub open spec fn unit_result<S>(r: Result<(Unit<S>, usize), Halt>, o: Outcome<UnitMap<S>>) -> bool {
    match o {
        Outcome::Done(u, e) => r matches Ok((unit, q)) && unit@ == u && q == e,
        Outcome::Halted(h) => r matches Err(hh) && hh@ == h,
    }
}

/// The characters of `cs` from `a` to `b`, as a string.
fn collect(cs: &Vec<char>, a: usize, b: usize) -> (r: String)
    requires
        a <= b <= cs@.len(),
    ensures
        r@ == cs@.subrange(a as int, b as int),
{
    let mut out = String::new();
    let mut j = a;
    proof {
        assert(out@ =~= cs@.subrange(a as int, a as int));
    }
    while j < b
        invariant
            a <= j <= b <= cs@.len(),
            out@ == cs@.subrange(a as int, j as int),
        decreases b - j,
    {
        push_char(&mut out, cs[j]);
        j = j + 1;
        assert(out@ =~= cs@.subrange(a as int, j as int));
    }
    out
}

/// The unit made of the defined unit `d` to the power `v`.
fn power_of<S>(d: Arc<DefinedUnit<S>>, v: Rational) -> (u: Unit<S>)
    ensures
        u@ == (if v@.0 == 0 {
            Map::<Seq<char>, (DefinedUnit<S>, (int, int))>::empty()
        } else {
            Map::empty().insert(d.name@, (*d, v@))
        }),
{
    let ghost gd = d;
    let comps: Vec<Component<S>> = vec![(d, v)];
    proof {
        assert(distinct_names(comps@));
        assert(comps@.drop_last() =~= Seq::<Component<S>>::empty());
        assert(comps_map(Seq::<Component<S>>::empty()) == Map::<Seq<char>, (DefinedUnit<S>, (int, int))>::empty());
        assert(comps@.last() == (gd, v));
        assert(comps_map(comps@) =~= Map::empty().insert(gd.name@, (*gd, v@)));
    }
    let u = Unit::new(comps);
    proof {
        if v@.0 == 0 {
            assert(u@ =~= Map::<Seq<char>, (DefinedUnit<S>, (int, int))>::empty());
        } else {
            assert(u@ =~= Map::empty().insert(gd.name@, (*gd, v@)));
        }
    }
    u
}

/// Reads a factor at `i`.
fn factor<S>(registry: &UnitRegistry<S>, cs: &Vec<char>, i: usize) -> (r: Result<(Unit<S>, usize), Halt>)
    requires
        i <= cs@.len(),
    ensures
        halt_within(r, cs@.len() as int),
        unit_result(r, factor_outcome(registry@, cs@, i as int)),
        r matches Ok((_, q)) ==> i < q <= cs@.len(),
    decreases cs@.len() - i, 1int,
{
    let ghost s = cs@;
    let ghost reg = registry@;
    let n = cs.len();
    let p = run_exec(cs, i, Class::Multispace);
    if p < n && cs[p] == '(' {
        let (u, q) = match expression(registry, cs, p + 1) {
            Ok(x) => x,
            Err(h) => {
                return Err(h);
            },
        };
        let r = run_exec(cs, q, Class::Multispace);
        if r < n && cs[r] == ')' {
            let t = run_exec(cs, r + 1, Class::Multispace);
            match power_suffix_exec(cs, t) {
                Ok((Some(v), z)) => Ok((u.pow(v), z)),
                Ok((None, _)) => Err(Halt::OutOfRange),
                Err(Halt::Error(_, _)) => Ok((u, t)),
                Err(h) => Err(h),
            }
        } else {
            Err(Halt::Error(r, ErrorCode::Char))
        }
    } else if p < n && (('a' <= cs[p] && cs[p] <= 'z') || ('A' <= cs[p] && cs[p] <= 'Z')) {
        let q = run_exec(cs, p + 1, Class::IdentRest);
        let name = collect(cs, p, q);
        match registry.get(&name) {
            Some(d) => {
                proof {
                    assert(*d == reg[s.subrange(p as int, q as int)]);
                }
                match power_suffix_exec(cs, q) {
                    Ok((Some(v), z)) => Ok((power_of(d, v), z)),
                    Ok((None, _)) => Err(Halt::OutOfRange),
                    Err(Halt::Error(_, _)) => Ok((power_of(d, Rational::one()), q)),
                    Err(h) => Err(h),
                }
            },
            None => Err(Halt::Failure(q, ErrorCode::Tag)),
        }
    } else {
        Err(Halt::Error(p, ErrorCode::Alpha))
    }
}

/// What one step after a left operand gives: a new left operand and the
/// position after it, or the end of the expression.
enum Step<S> {
    More(Unit<S>, usize),
    End(usize),
}

/// One step of `expr_loop_outcome` after the left operand `acc`, which ends
/// at `cur`.
fn expr_step<S>(registry: &UnitRegistry<S>, cs: &Vec<char>, cur: usize, acc: &Unit<S>) -> (r: Result<Step<S>, Halt>)
    requires
        cur <= cs@.len(),
    ensures
        halt_within(r, cs@.len() as int),
        match r {
            Ok(Step::More(u, z)) => cur < z <= cs@.len() && expr_loop_outcome(registry@, cs@, cur as int, acc@)
                == expr_loop_outcome(registry@, cs@, z as int, u@),
            Ok(Step::End(e)) => cur <= e <= cs@.len() && expr_loop_outcome(registry@, cs@, cur as int, acc@)
                == Outcome::Done(acc@, e as int),
            Err(h) => expr_loop_outcome(registry@, cs@, cur as int, acc@) == Outcome::<UnitMap<S>>::Halted(h@),
        },
    decreases cs@.len() - cur, 3int,
{
    let n = cs.len();
    let r = run_exec(cs, cur, Class::Multispace);
    let c = if r < n {
        cs[r]
    } else {
        ' '
    };
    if r < n && (c == '*' || c == '/') {
        let div = c == '/';
        let (rhs, z) = match factor(registry, cs, r + 1) {
            Ok(x) => x,
            Err(h) => {
                return Err(h);
            },
        };
        let next = if div {
            acc.div(&rhs)
        } else {
            acc.mul(&rhs)
        };
        Ok(Step::More(next, z))
    } else if r < n && (is_alphabetic(c) || c == '(') {
        let (rhs, z) = match factor(registry, cs, r) {
            Ok(x) => x,
            Err(h) => {
                return Err(h);
            },
        };
        Ok(Step::More(acc.mul(&rhs), z))
    } else {
        Ok(Step::End(r))
    }
}

/// Reads an expression at `i`; gives the unit and the position after it
/// (and after the whitespace that follows it).
pub fn expression<S>(registry: &UnitRegistry<S>, cs: &Vec<char>, i: usize) -> (r: Result<(Unit<S>, usize), Halt>)
    requires
        i <= cs@.len(),
    ensures
        halt_within(r, cs@.len() as int),
        unit_result(r, expression_outcome(registry@, cs@, i as int)),
        r matches Ok((_, q)) ==> i < q <= cs@.len(),
    decreases cs@.len() - i, 2int,
{
    let ghost s = cs@;
    let ghost reg = registry@;
    let n = cs.len();
    let (mut acc, mut cur) = match factor(registry, cs, i) {
        Ok(x) => x,
        Err(h) => {
            return Err(h);
        },
    };
    loop
        invariant
            s == cs@,
            reg == registry@,
            n == s.len(),
            i < cur <= n,
            expression_outcome(reg, s, i as int) == expr_loop_outcome(reg, s, cur as int, acc@),
        decreases n - cur,
    {
        match expr_step(registry, cs, cur, &acc) {
            Ok(Step::More(u, z)) => {
                acc = u;
                cur = z;
            },
            Ok(Step::End(e)) => {
                return Ok((acc, e));
            },
            Err(h) => {
                return Err(h);
            },
        }
    }
}

/// The value of `s` when the whole of it is one decimal number as
/// `recognize_float` reads it (sign, digits with an optional point, optional
/// exponent), and that value is a `Rational` as `decimal_value` says.
pub open spec fn decimal_text_value(s: Seq<char>) -> Option<(int, int)> {
    match recognize_float(s, 0) {
        FloatScan::Match(e, v) => if e == s.len() {
            v
        } else {
            None
        },
        _ => None,
    }
}

/// The exact value of a decimal number written as text, such as `-0.25` or
/// `1e-3`; `None` when the text is not one such number or its value is not a
/// `Rational`.
pub fn decimal_to_rational(text: &str) -> (r: Option<Rational>)
    ensures
        opt_view(r) == decimal_text_value(text@),
{
    let cs = chars_of(text);
    match recognize_float_exec(&cs, 0) {
        FloatRead::Match(e, v) => if e == cs.len() {
            v
        } else {
            None
        },
        _ => None,
    }
}

// ---------------------------------------------------------------------------
// Parsing a string
// ---------------------------------------------------------------------------

/// The name of an error code, as `Debug` writes it.
pub open spec fn code_name(code: ErrorCode) -> Seq<char> {
    match code {
        ErrorCode::Alpha => "Alpha"@,
        ErrorCode::Char => "Char"@,
        ErrorCode::Tag => "Tag"@,
        ErrorCode::Float => "Float"@,
    }
}

/// Where a parse stopped, as `nom` displays its errors:
/// `Parsing <kind>: Error { input: <rest, quoted>, code: <code> }`.
pub open spec fn nom_message(kind: Seq<char>, rest: Seq<char>, code: ErrorCode) -> Seq<char> {
    "Parsing "@ + kind + ": Error { input: "@ + str_debug(rest) + ", code: "@ + code_name(code) + " }"@
}

fn message(kind: &str, rest: &str, code: ErrorCode) -> (r: String)
    ensures
        r@ == nom_message(kind@, rest@, code),
{
    let mut r = String::from_str("Parsing ");
    r.append(kind);
    r.append(": Error { input: ");
    let q = quoted(rest);
    r.append(q.as_str());
    r.append(", code: ");
    match code {
        ErrorCode::Alpha => r.append("Alpha"),
        ErrorCode::Char => r.append("Char"),
        ErrorCode::Tag => r.append("Tag"),
        ErrorCode::Float => r.append("Float"),
    }
    r.append(" }");
    r
}

/// Parses `input` as a unit expression over the units of `registry`.
///
/// The expression is read from the start; what follows it is not read.
pub fn parse<S>(registry: &UnitRegistry<S>, input: &str) -> (r: Result<Unit<S>, ParserError>)
    ensures
        match expression_outcome(registry@, input@, 0) {
            Outcome::Done(u, _) => r matches Ok(unit) && unit@ == u,
            Outcome::Halted(HaltView::OutOfRange) => r matches Err(ParserError::ExponentOutOfRange),
            Outcome::Halted(HaltView::Error(at, code)) => r matches Err(ParserError::NomError(m)) && m@
                == nom_message("Error"@, input@.subrange(at, input@.len() as int), code),
            Outcome::Halted(HaltView::Failure(at, code)) => r matches Err(ParserError::NomError(m)) && m@
                == nom_message("Failure"@, input@.subrange(at, input@.len() as int), code),
        },
{
    let cs = chars_of(input);
    let n = cs.len();
    match expression(registry, &cs, 0) {
        Ok((unit, _)) => Ok(unit),
        Err(Halt::OutOfRange) => Err(ParserError::ExponentOutOfRange),
        Err(Halt::Error(at, code)) => {
            let rest = collect(&cs, at, n);
            Err(ParserError::NomError(message("Error", rest.as_str(), code)))
        },
        Err(Halt::Failure(at, code)) => {
            let rest = collect(&cs, at, n);
            Err(ParserError::NomError(message("Failure", rest.as_str(), code)))
        },
    }
}

// ---------------------------------------------------------------------------
// Laws
// ---------------------------------------------------------------------------

proof fn lemma_run_to_end(s: Seq<char>, i: int, k: Class)
    requires
        0 <= i <= s.len(),
        forall|j: int| i <= j < s.len() ==> #[trigger] in_class(k, s[j]),
    ensures
        run(s, i, k) == s.len(),
    decreases s.len() - i,
{
    if i < s.len() {
        lemma_run_to_end(s, i + 1, k);
    }
}

/// Reading a definition back: after a definition of `unit` (which makes
/// `after` out of `before`), parsing the unit's name gives that unit to the
/// power one and reads the whole name, when the name is an identifier (an
/// ASCII letter, then ASCII letters, digits or `_`).
pub proof fn law_parse_name_after_define<S>(
    before: Map<Seq<char>, DefinedUnit<S>>,
    after: Map<Seq<char>, DefinedUnit<S>>,
    unit: DefinedUnit<S>,
)
    requires
        after == before.insert(unit.name@, unit),
        unit.name@.len() > 0,
        is_ascii_letter(unit.name@[0]),
        forall|i: int| 1 <= i < unit.name@.len() ==> #[trigger] is_ident_rest(unit.name@[i]),
    ensures
        expression_outcome(after, unit.name@, 0) == Outcome::Done(
            Map::<Seq<char>, (DefinedUnit<S>, (int, int))>::empty().insert(unit.name@, (unit, (1int, 1int))),
            unit.name@.len() as int,
        ),
{
    let s = unit.name@;
    let n = s.len() as int;
    assert forall|j: int| 1 <= j < n implies #[trigger] in_class(Class::IdentRest, s[j]) by {
        assert(is_ident_rest(s[j]));
    }
    lemma_run_to_end(s, 1, Class::IdentRest);
    assert(ws_end(s, 0) == 0);
    assert(ws_end(s, n) == n);
    assert(s.subrange(0, n) =~= s);
    reveal(power_suffix);
    assert(power_suffix(s, n) == Outcome::<Option<(int, int)>>::Halted(HaltView::Error(n, ErrorCode::Tag)));
    let u = named_unit(after, s, (1, 1));
    assert(factor_outcome(after, s, 0) == Outcome::Done(u, n));
    assert(expr_loop_outcome(after, s, n, u) == Outcome::Done(u, n));
}

// ---------------------------------------------------------------------------
// What is read from a position on
// ---------------------------------------------------------------------------

/// A position past the end, or a done outcome ending at or after `i`.
pub open spec fn ends_after<T>(o: Outcome<T>, i: int) -> bool {
    o matches Outcome::Done(_, q) ==> q >= i
}

proof fn lemma_run_agree(s1: Seq<char>, s2: Seq<char>, k: int, i: int, c: Class)
    requires
        agree_from(s1, s2, k),
        0 <= k,
        k <= i,
    ensures
        run(s1, i, c) == run(s2, i, c),
        run(s1, i, c) >= i,
        0 <= i <= s1.len() ==> run(s1, i, c) <= s1.len(),
    decreases s1.len() - i,
{
    if 0 <= i < s1.len() && in_class(c, s1[i]) {
        assert(s2[i] == s1[i]);
        lemma_run_agree(s1, s2, k, i + 1, c);
    } else if 0 <= i < s1.len() {
        assert(s2[i] == s1[i]);
    }
}

proof fn lemma_double_agree(s1: Seq<char>, s2: Seq<char>, k: int, i: int)
    requires
        agree_from(s1, s2, k),
        0 <= k,
        k <= i <= s1.len(),
    ensures
        double(s1, i) == double(s2, i),
        ends_after(double(s1, i), i),
{
    reveal(double);
    assert(s1.len() == s2.len());
    assert forall|j: int| 0 <= j < s1.len() - i implies s1.subrange(i, s1.len() as int)[j] == s2.subrange(
        i,
        s2.len() as int,
    )[j] by {
        assert(s1[i + j] == s2[i + j]);
    }
    assert(s1.subrange(i, s1.len() as int) =~= s2.subrange(i, s2.len() as int));
}

proof fn lemma_fraction_agree(s1: Seq<char>, s2: Seq<char>, k: int, i: int)
    requires
        agree_from(s1, s2, k),
        0 <= k,
        k <= i <= s1.len(),
    ensures
        fraction(s1, i) == fraction(s2, i),
        ends_after(fraction(s1, i), i),
{
    reveal(fraction);
    lemma_double_agree(s1, s2, k, i);
    if let Outcome::Done(a, p) = double(s1, i) {
        lemma_run_agree(s1, s2, k, p, Class::Multispace);
        let q = ws_end(s1, p);
        if 0 <= q < s1.len() && s1[q] == '/' {
            assert(s2[q] == '/');
            lemma_run_agree(s1, s2, k, q + 1, Class::Multispace);
            lemma_double_agree(s1, s2, k, ws_end(s1, q + 1));
        } else if 0 <= q < s1.len() {
            assert(s2[q] == s1[q]);
        }
    }
}

proof fn lemma_exponent_value_agree(s1: Seq<char>, s2: Seq<char>, k: int, i: int)
    requires
        agree_from(s1, s2, k),
        0 <= k,
        k <= i <= s1.len(),
    ensures
        exponent_value(s1, i) == exponent_value(s2, i),
        ends_after(exponent_value(s1, i), i),
{
    reveal(exponent_value);
    lemma_double_agree(s1, s2, k, i);
    lemma_run_agree(s1, s2, k, i, Class::Multispace);
    let p = ws_end(s1, i);
    if 0 <= p < s1.len() {
        assert(s2[p] == s1[p]);
        if s1[p] == '(' {
            lemma_run_agree(s1, s2, k, p + 1, Class::Multispace);
            lemma_fraction_agree(s1, s2, k, ws_end(s1, p + 1));
            if let Outcome::Done(v, r) = fraction(s1, ws_end(s1, p + 1)) {
                lemma_run_agree(s1, s2, k, r, Class::Multispace);
                let t = ws_end(s1, r);
                if 0 <= t < s1.len() {
                    assert(s2[t] == s1[t]);
                    if s1[t] == ')' {
                        lemma_run_agree(s1, s2, k, t + 1, Class::Multispace);
                    }
                }
            }
        }
    }
}

proof fn lemma_power_suffix_agree(s1: Seq<char>, s2: Seq<char>, k: int, i: int)
    requires
        agree_from(s1, s2, k),
        0 <= k,
        k <= i,
    ensures
        power_suffix(s1, i) == power_suffix(s2, i),
        ends_after(power_suffix(s1, i), i),
{
    reveal(power_suffix);
    if 0 <= i < s1.len() {
        assert(s2[i] == s1[i]);
        if i + 1 < s1.len() {
            assert(s2[i + 1] == s1[i + 1]);
        }
        if i + 1 < s1.len() && s1[i] == '*' && s1[i + 1] == '*' {
            lemma_exponent_value_agree(s1, s2, k, i + 2);
        } else if s1[i] == '^' {
            lemma_exponent_value_agree(s1, s2, k, i + 1);
        }
    }
}

proof fn lemma_factor_agree<S>(reg: Map<Seq<char>, DefinedUnit<S>>, s1: Seq<char>, s2: Seq<char>, k: int, i: int)
    requires
        agree_from(s1, s2, k),
        0 <= k,
        k <= i,
    ensures
        factor_outcome(reg, s1, i) == factor_outcome(reg, s2, i),
        ends_after(factor_outcome(reg, s1, i), i),
    decreases s1.len() - i, 1int,
{
    if 0 <= i <= s1.len() {
        lemma_run_agree(s1, s2, k, i, Class::Multispace);
        let p = ws_end(s1, i);
        if p < s1.len() {
            assert(s2[p] == s1[p]);
            if s1[p] == '(' {
                lemma_expression_agree(reg, s1, s2, k, p + 1);
                if let Outcome::Done(u, q) = expression_outcome(reg, s1, p + 1) {
                    lemma_run_agree(s1, s2, k, q, Class::Multispace);
                    let r = ws_end(s1, q);
                    if 0 <= r < s1.len() {
                        assert(s2[r] == s1[r]);
                        if s1[r] == ')' {
                            lemma_run_agree(s1, s2, k, r + 1, Class::Multispace);
                            lemma_power_suffix_agree(s1, s2, k, ws_end(s1, r + 1));
                        }
                    }
                }
            } else if is_ascii_letter(s1[p]) {
                lemma_run_agree(s1, s2, k, p + 1, Class::IdentRest);
                let q = ident_end(s1, p);
                assert(s1.subrange(p, q) =~= s2.subrange(p, q));
                lemma_power_suffix_agree(s1, s2, k, q);
            }
        }
    }
}

proof fn lemma_expression_agree<S>(
    reg: Map<Seq<char>, DefinedUnit<S>>,
    s1: Seq<char>,
    s2: Seq<char>,
    k: int,
    i: int,
)
    requires
        agree_from(s1, s2, k),
        0 <= k,
        k <= i,
    ensures
        expression_outcome(reg, s1, i) == expression_outcome(reg, s2, i),
        ends_after(expression_outcome(reg, s1, i), i),
    decreases s1.len() - i, 2int,
{
    if 0 <= i <= s1.len() {
        lemma_factor_agree(reg, s1, s2, k, i);
        if let Outcome::Done(u, p) = factor_outcome(reg, s1, i) {
            if i < p <= s1.len() {
                lemma_loop_agree(reg, s1, s2, k, p, u);
            }
        }
    }
}

proof fn lemma_loop_agree<S>(
    reg: Map<Seq<char>, DefinedUnit<S>>,
    s1: Seq<char>,
    s2: Seq<char>,
    k: int,
    p: int,
    acc: UnitMap<S>,
)
    requires
        agree_from(s1, s2, k),
        0 <= k,
        k <= p,
    ensures
        expr_loop_outcome(reg, s1, p, acc) == expr_loop_outcome(reg, s2, p, acc),
        ends_after(expr_loop_outcome(reg, s1, p, acc), p),
    decreases s1.len() - p, 3int,
{
    if 0 <= p <= s1.len() {
        lemma_run_agree(s1, s2, k, p, Class::Multispace);
        let r = ws_end(s1, p);
        if r < s1.len() {
            assert(s2[r] == s1[r]);
            if s1[r] == '*' || s1[r] == '/' {
                lemma_factor_agree(reg, s1, s2, k, r + 1);
                if let Outcome::Done(rhs, z) = factor_outcome(reg, s1, r + 1) {
                    if p < z <= s1.len() {
                        lemma_loop_agree(reg, s1, s2, k, z, spec_combine(acc, rhs, s1[r] == '/'));
                    }
                }
            } else if alphabetic(s1[r]) || s1[r] == '(' {
                lemma_factor_agree(reg, s1, s2, k, r);
                if let Outcome::Done(rhs, z) = factor_outcome(reg, s1, r) {
                    if p < z <= s1.len() {
                        lemma_loop_agree(reg, s1, s2, k, z, spec_combine(acc, rhs, false));
                    }
                }
            }
        }
    }
}

/// Juxtaposition is multiplication: after a left operand, a space followed
/// by a factor (one that starts with `(` or a letter) reads as `*` followed
/// by that factor. So `A (B)` reads as `A*(B)` and `A B` as `A*B`.
pub proof fn law_juxtaposition_is_multiplication<S>(
    reg: Map<Seq<char>, DefinedUnit<S>>,
    s: Seq<char>,
    p: int,
    acc: UnitMap<S>,
)
    requires
        0 <= p,
        p + 1 < s.len(),
        s[p] == ' ',
        s[p + 1] == '(' || (alphabetic(s[p + 1]) && !is_multispace(s[p + 1])),
    ensures
        expr_loop_outcome(reg, s, p, acc) == expr_loop_outcome(reg, s.update(p, '*'), p, acc),
{
    let t = s.update(p, '*');
    assert(agree_from(s, t, p + 1));
    assert(t[p] == '*');
    assert(t[p + 1] == s[p + 1]);
    assert(ws_end(s, p + 1) == p + 1);
    assert(ws_end(s, p) == p + 1);
    assert(ws_end(t, p) == p);
    lemma_factor_agree(reg, s, t, p + 1, p + 1);
    if let Outcome::Done(rhs, z) = factor_outcome(reg, s, p + 1) {
        if p < z <= s.len() {
            lemma_loop_agree(reg, s, t, p + 1, z, spec_combine(acc, rhs, false));
        }
    }
}

} // verus!
