//! Exact rational numbers of any size, always kept in lowest terms with a
//! positive denominator; numerator and denominator are `Natural`s.
//!
//! These are the library's exponents and dimensions. They are exact where a
//! float would round. Sums, differences and products always exist; a
//! quotient by zero has no rational value and is reported (`None`), as is a
//! power whose exponent is not an integer.
use vstd::prelude::*;
use crate::natural::{Natural, nat_root};
use vstd::arithmetic::div_mod::{
    lemma_fundamental_div_mod,
    lemma_fundamental_div_mod_converse,
    lemma_mod_multiples_basic,
    lemma_mod_multiples_vanish,
    lemma_mod_self_0,
};

verus! {

/// Absolute value of an integer.
pub open spec fn abs(x: int) -> nat {
    if x < 0 {
        (-x) as nat
    } else {
        x as nat
    }
}

/// Greatest common divisor, by Euclid's algorithm.
pub open spec fn gcd(a: nat, b: nat) -> nat
    decreases b,
{
    if b == 0 {
        a
    } else {
        gcd(b, a % b)
    }
}

/// The fraction `n / d` (with `d > 0`) in lowest terms.
pub open spec fn norm(n: int, d: nat) -> (int, int) {
    let g = gcd(abs(n), d);
    let q = (abs(n) / g) as int;
    (if n < 0 {
        -q
    } else {
        q
    }, (d / g) as int)
}

/// A pair is a well-formed fraction: positive denominator, lowest terms.
pub open spec fn is_reduced(r: (int, int)) -> bool {
    r.1 > 0 && gcd(abs(r.0), r.1 as nat) == 1
}

/// A pair is held by a `Rational` once reduced: its denominator is
/// positive (numerator and denominator are of any size).
pub open spec fn fits(r: (int, int)) -> bool {
    r.1 > 0
}

/// Two fractions denote the same rational number.
pub open spec fn same_value(a: (int, int), b: (int, int)) -> bool {
    a.0 * b.1 == b.0 * a.1
}

pub open spec fn rat_zero() -> (int, int) {
    (0, 1)
}

pub open spec fn rat_add(a: (int, int), b: (int, int)) -> (int, int) {
    norm(a.0 * b.1 + b.0 * a.1, (a.1 * b.1) as nat)
}

pub open spec fn rat_sub(a: (int, int), b: (int, int)) -> (int, int) {
    norm(a.0 * b.1 - b.0 * a.1, (a.1 * b.1) as nat)
}

pub open spec fn rat_neg(a: (int, int)) -> (int, int) {
    (-a.0, a.1)
}

pub open spec fn rat_mul(a: (int, int), b: (int, int)) -> (int, int) {
    norm(a.0 * b.0, (a.1 * b.1) as nat)
}

/// Quotient `a / b`; meaningful when `b` is not zero.
pub open spec fn rat_div(a: (int, int), b: (int, int)) -> (int, int) {
    if b.0 < 0 {
        norm(-(a.0 * b.1), (a.1 * (-b.0)) as nat)
    } else {
        norm(a.0 * b.1, (a.1 * b.0) as nat)
    }
}


/// `b^n` computed by repeated multiplication.
pub open spec fn power_chain(b: (int, int), n: nat) -> (int, int)
    decreases n,
{
    if n == 0 {
        (1, 1)
    } else {
        rat_mul(power_chain(b, (n - 1) as nat), b)
    }
}

/// `b^n` for a natural `n`: exact for `0`, `1` and `-1`; else by repeated
/// multiplication, for `n` up to `u64::MAX`. Beyond that the power of any
/// other base has more than `2^64` binary digits, which no machine holds
/// (`None`).
pub open spec fn nat_power(b: (int, int), n: nat) -> Option<(int, int)> {
    if b.0 == 0 {
        if n == 0 {
            Some((1, 1))
        } else {
            Some((0, 1))
        }
    } else if b == (1int, 1int) {
        Some((1, 1))
    } else if b == (-1int, 1int) {
        if n % 2 == 0 {
            Some((1, 1))
        } else {
            Some((-1, 1))
        }
    } else if n <= u64::MAX {
        Some(power_chain(b, n))
    } else {
        None
    }
}

/// `b^n` for an integer `n`: `None` for zero to a negative power (no
/// finite value) or when no machine holds the power (see `nat_power`).
pub open spec fn int_power(b: (int, int), n: int) -> Option<(int, int)> {
    if n >= 0 {
        nat_power(b, n as nat)
    } else if b.0 == 0 {
        None
    } else {
        nat_power(rat_div((1, 1), b), (-n) as nat)
    }
}

/// The `q`-th root of `b`, when it is rational: `None` when `b` is negative
/// and `q` even (no real root), or when the numerator or the denominator is
/// not a `q`-th power (the root is irrational). Beyond `u64::MAX`, only `0`,
/// `1` and `-1` are `q`-th powers among numbers with fewer than `2^64`
/// binary digits.
pub open spec fn rat_root(b: (int, int), q: nat) -> Option<(int, int)> {
    if b.0 < 0 && q % 2 == 0 {
        None
    } else if q > u64::MAX {
        if b.0 == 0 || b == (1int, 1int) || b == (-1int, 1int) {
            Some(b)
        } else {
            None
        }
    } else {
        match (nat_root(abs(b.0), q), nat_root(b.1 as nat, q)) {
            (Some(a), Some(c)) => Some(norm(with_sign(b.0 < 0, a), c)),
            _ => None,
        }
    }
}

/// `b^e`: the `e.1`-th root of `b` (when rational) to the integer power
/// `e.0` (see `rat_root` and `int_power`). `None` where the power has no
/// rational value or no machine holds it.
pub open spec fn rat_pow(b: (int, int), e: (int, int)) -> Option<(int, int)> {
    if e.1 == 1 {
        int_power(b, e.0)
    } else {
        match rat_root(b, e.1 as nat) {
            Some(r) => int_power(r, e.0),
            None => None,
        }
    }
}

// ---------------------------------------------------------------------------
// Facts about gcd
// ---------------------------------------------------------------------------

/// The gcd divides both arguments, and is positive unless both are zero.
pub proof fn lemma_gcd_divides(a: nat, b: nat)
    ensures
        (a > 0 || b > 0) ==> gcd(a, b) > 0,
        gcd(a, b) > 0 ==> a % gcd(a, b) == 0 && b % gcd(a, b) == 0,
        a == 0 && b == 0 ==> gcd(a, b) == 0,
    decreases b,
{
    if b == 0 {
        if a > 0 {
            lemma_mod_self_0(a as int);
        }
    } else {
        let r = a % b;
        lemma_gcd_divides(b, r);
        let g = gcd(b, r);
        assert(g == gcd(a, b));
        assert(g > 0);
        lemma_fundamental_div_mod(a as int, b as int);
        lemma_fundamental_div_mod(b as int, g as int);
        lemma_fundamental_div_mod(r as int, g as int);
        let q = a as int / b as int;
        let bg = b as int / g as int;
        let rg = r as int / g as int;
        assert(a == g * (bg * q + rg)) by (nonlinear_arith)
            requires
                a == b * q + r,
                b == g * bg,
                r == g * rg,
        ;
        lemma_mod_multiples_basic(bg * q + rg, g as int);
        assert((bg * q + rg) * g == g * (bg * q + rg)) by (nonlinear_arith);
    }
}

/// Scaling both arguments scales the gcd.
pub proof fn lemma_gcd_scale(k: nat, a: nat, b: nat)
    requires
        k > 0,
    ensures
        gcd(k * a, k * b) == k * gcd(a, b),
    decreases b,
{
    if b == 0 {
        assert(k * b == 0) by (nonlinear_arith)
            requires
                b == 0,
        ;
    } else {
        let q = a as int / b as int;
        let r = a as int % b as int;
        lemma_fundamental_div_mod(a as int, b as int);
        assert(0 <= r < b);
        assert(k * a == q * (k * b) + k * r && 0 <= k * r < k * b) by (nonlinear_arith)
            requires
                a == b * q + r,
                0 <= r < b,
                k > 0,
        ;
        lemma_fundamental_div_mod_converse((k * a) as int, (k * b) as int, q, k * r);
        assert(k * b > 0) by (nonlinear_arith)
            requires
                k > 0,
                b > 0,
        ;
        assert(((k * a) as nat) % ((k * b) as nat) == (k * (r as nat)) as nat);
        lemma_gcd_scale(k, b, r as nat);
    }
}

/// Dividing both arguments by their gcd leaves coprime numbers.
pub proof fn lemma_gcd_quotients_coprime(a: nat, b: nat)
    requires
        a > 0 || b > 0,
    ensures
        gcd(a / gcd(a, b), b / gcd(a, b)) == 1,
{
    let g = gcd(a, b);
    lemma_gcd_divides(a, b);
    lemma_fundamental_div_mod(a as int, g as int);
    lemma_fundamental_div_mod(b as int, g as int);
    let x = a / g;
    let y = b / g;
    assert(a == g * x && b == g * y);
    lemma_gcd_scale(g, x, y);
    assert(g == g * gcd(x, y));
    assert(gcd(x, y) == 1) by (nonlinear_arith)
        requires
            g > 0,
            g == g * gcd(x, y),
    ;
}

/// Every common divisor divides the gcd.
pub proof fn lemma_common_divisor_divides_gcd(k: nat, a: nat, b: nat)
    requires
        k > 0,
        a % k == 0,
        b % k == 0,
    ensures
        gcd(a, b) % k == 0,
    decreases b,
{
    if b != 0 {
        let q = a as int / b as int;
        let r = a as int % b as int;
        lemma_fundamental_div_mod(a as int, b as int);
        lemma_fundamental_div_mod(a as int, k as int);
        lemma_fundamental_div_mod(b as int, k as int);
        let ak = a as int / k as int;
        let bk = b as int / k as int;
        assert(r == (ak - bk * q) * k) by (nonlinear_arith)
            requires
                a == b * q + r,
                a == k * ak,
                b == k * bk,
        ;
        lemma_mod_multiples_basic(ak - bk * q, k as int);
        lemma_common_divisor_divides_gcd(k, b, r as nat);
    }
}

/// `norm` returns a reduced fraction of the same value.
pub proof fn lemma_norm(n: int, d: nat)
    requires
        d > 0,
    ensures
        is_reduced(norm(n, d)),
        same_value(norm(n, d), (n, d as int)),
        norm(n, d).1 <= d,
        abs(norm(n, d).0) <= abs(n),
{
    let g = gcd(abs(n), d);
    lemma_gcd_divides(abs(n), d);
    lemma_gcd_quotients_coprime(abs(n), d);
    lemma_fundamental_div_mod(abs(n) as int, g as int);
    lemma_fundamental_div_mod(d as int, g as int);
    let x = abs(n) / g;
    let y = d / g;
    assert(abs(n) == g * x && d == g * y);
    assert(y > 0 && y <= d && x <= abs(n)) by (nonlinear_arith)
        requires
            d == g * y,
            abs(n) == g * x,
            d > 0,
            g > 0,
            x >= 0,
    ;
    assert(x * d == abs(n) * y) by (nonlinear_arith)
        requires
            abs(n) == g * x,
            d == g * y,
    ;
    let r = norm(n, d);
    if n < 0 {
        assert(r.0 * d == n * r.1) by (nonlinear_arith)
            requires
                r.0 == -x,
                r.1 == y,
                n == -abs(n),
                x * d == abs(n) * y,
        ;
        assert(abs(r.0) == x);
    } else {
        assert(r.0 * d == n * r.1) by (nonlinear_arith)
            requires
                r.0 == x,
                r.1 == y,
                n == abs(n),
                x * d == abs(n) * y,
        ;
    }
}

/// If `x * q == y * p` and `gcd(x, p) == 1`, then `p` divides `q`.
proof fn lemma_divides_other_denominator(x: nat, p: nat, y: nat, q: nat)
    requires
        p > 0,
        q > 0,
        gcd(x, p) == 1,
        x * q == y * p,
    ensures
        q % p == 0,
{
    lemma_gcd_scale(q, x, p);
    let qx = (q * x) as nat;
    let qp = (q * p) as nat;
    assert(qx == y * p) by (nonlinear_arith)
        requires
            x * q == y * p,
            qx == q * x,
    ;
    lemma_mod_multiples_basic(y as int, p as int);
    lemma_mod_multiples_basic(q as int, p as int);
    assert(qx % p == 0);
    assert(qp == q * p);
    assert(qp % p == 0);
    lemma_common_divisor_divides_gcd(p, qx, qp);
    assert(q * gcd(x, p) == q) by (nonlinear_arith)
        requires
            gcd(x, p) == 1,
    ;
    assert(gcd(qx, qp) == q);
}

/// Two reduced fractions of the same value are identical.
pub proof fn lemma_reduced_unique(a: (int, int), b: (int, int))
    requires
        is_reduced(a),
        is_reduced(b),
        same_value(a, b),
    ensures
        a == b,
{
    let x = abs(a.0);
    let y = abs(b.0);
    let p = a.1 as nat;
    let q = b.1 as nat;
    // |a.0| * q == |b.0| * p
    assert(x * q == y * p) by (nonlinear_arith)
        requires
            a.0 * b.1 == b.0 * a.1,
            x == abs(a.0),
            y == abs(b.0),
            p == a.1,
            q == b.1,
            p > 0,
            q > 0,
    ;
    // p divides q
    lemma_divides_other_denominator(x, p, y, q);
    // q divides p
    lemma_divides_other_denominator(y, q, x, p);
    lemma_fundamental_div_mod(p as int, q as int);
    lemma_fundamental_div_mod(q as int, p as int);
    let m = p as int / q as int;
    let l = q as int / p as int;
    assert(p == q) by (nonlinear_arith)
        requires
            p == q * m,
            q == p * l,
            p > 0,
            q > 0,
    ;
    assert(a.0 == b.0) by (nonlinear_arith)
        requires
            a.0 * b.1 == b.0 * a.1,
            a.1 == b.1,
            a.1 > 0,
    ;
}

/// A reduced fraction is its own normal form.
pub proof fn lemma_norm_of_reduced(r: (int, int))
    requires
        is_reduced(r),
    ensures
        norm(r.0, r.1 as nat) == r,
{
    lemma_norm(r.0, r.1 as nat);
    assert(same_value(norm(r.0, r.1 as nat), r)) by (nonlinear_arith)
        requires
            norm(r.0, r.1 as nat).0 * r.1 == r.0 * norm(r.0, r.1 as nat).1,
    ;
    lemma_reduced_unique(norm(r.0, r.1 as nat), r);
}

/// Dividing by `b` and multiplying back by `b` gives back the number.
pub proof fn law_div_mul_cancel(a: (int, int), b: (int, int))
    requires
        is_reduced(a),
        is_reduced(b),
        b.0 != 0,
    ensures
        rat_mul(rat_div(a, b), b) == a,
{
    // the quotient before reduction: (n, d) with d > 0 and n * b.0 == a.0 * d * ... scaled
    let n: int = if b.0 < 0 { -(a.0 * b.1) } else { a.0 * b.1 };
    let d: int = if b.0 < 0 { a.1 * (-b.0) } else { a.1 * b.0 };
    assert(d > 0) by (nonlinear_arith)
        requires
            a.1 > 0,
            b.0 != 0,
            d == (if b.0 < 0 { a.1 * (-b.0) } else { a.1 * b.0 }),
    ;
    let q = rat_div(a, b);
    assert(q == norm(n, d as nat));
    lemma_norm(n, d as nat);
    assert(q.1 * b.1 > 0) by (nonlinear_arith)
        requires
            q.1 > 0,
            b.1 > 0,
    ;
    let m = rat_mul(q, b);
    lemma_norm(q.0 * b.0, (q.1 * b.1) as nat);
    // q ~ (n, d): q.0 * a.1 * b.0 == a.0 * b.1 * q.1
    if b.0 < 0 {
        assert(q.0 * a.1 * b.0 == a.0 * b.1 * q.1) by (nonlinear_arith)
            requires
                q.0 * (a.1 * (-b.0)) == (-(a.0 * b.1)) * q.1,
        ;
    } else {
        assert(q.0 * a.1 * b.0 == a.0 * b.1 * q.1) by (nonlinear_arith)
            requires
                q.0 * (a.1 * b.0) == (a.0 * b.1) * q.1,
        ;
    }
    // m ~ (q.0 b.0, q.1 b.1)
    let x = q.1 * b.1;
    let (m0, m1, a0, a1, q0, q1, b0, b1) = (m.0, m.1, a.0, a.1, q.0, q.1, b.0, b.1);
    assert(m0 * x == (q0 * b0) * m1);
    assert((m0 * a1) * x == a1 * (m0 * x)) by (nonlinear_arith);
    assert(a1 * ((q0 * b0) * m1) == (q0 * a1 * b0) * m1) by (nonlinear_arith);
    assert((a0 * b1 * q1) * m1 == (a0 * m1) * (q1 * b1)) by (nonlinear_arith);
    assert((m.0 * a.1) * x == (a.0 * m.1) * x);
    assert(m.0 * a.1 == a.0 * m.1) by (nonlinear_arith)
        requires
            (m.0 * a.1) * x == (a.0 * m.1) * x,
            x > 0,
    ;
    lemma_reduced_unique(m, a);
}

// ---------------------------------------------------------------------------
// Executable rationals
// ---------------------------------------------------------------------------

/// The integer with magnitude `m`, negated when `neg`.
pub open spec fn with_sign(neg: bool, m: nat) -> int {
    if neg {
        -(m as int)
    } else {
        m as int
    }
}

pub(crate) proof fn lemma_with_sign_mul(s: bool, x: nat, y: nat)
    ensures
        with_sign(s, x) * (y as int) == with_sign(s, x * y),
        with_sign(s, x) * with_sign(false, y) == with_sign(s, x * y),
{
    assert((-(x as int)) * (y as int) == -((x * y) as int)) by (nonlinear_arith);
}

proof fn lemma_with_sign_product(s: bool, t: bool, x: nat, y: nat)
    ensures
        with_sign(s, x) * with_sign(t, y) == with_sign(s != t, x * y),
{
    assert((-(x as int)) * (y as int) == -((x * y) as int)) by (nonlinear_arith);
    assert((x as int) * (-(y as int)) == -((x * y) as int)) by (nonlinear_arith);
    assert((-(x as int)) * (-(y as int)) == (x * y) as int) by (nonlinear_arith);
}

/// A rational number `num / den` in lowest terms, `den > 0`, with
/// numerator and denominator of any size.
#[derive(Debug)]
pub struct Rational {
    negative: bool,
    num: Natural,
    den: Natural,
}

impl View for Rational {
    type V = (int, int);

    closed spec fn view(&self) -> (int, int) {
        (with_sign(self.negative, self.num@), self.den@ as int)
    }
}

/// `n / d`, with `n` negated when `neg`, in lowest terms.
pub(crate) fn reduce(neg: bool, n: Natural, d: Natural) -> (r: Rational)
    requires
        d@ > 0,
    ensures
        r@ == norm(with_sign(neg, n@), d@),
{
    let g = n.gcd(&d);
    proof {
        lemma_gcd_divides(n@, d@);
        assert(abs(with_sign(neg, n@)) == n@);
        lemma_norm(with_sign(neg, n@), d@);
    }
    let (qn, _) = n.div_rem(&g);
    let (qd, _) = d.div_rem(&g);
    let negative = neg && !qn.is_zero();
    let r = Rational { negative, num: qn, den: qd };
    proof {
        if qn@ == 0 {
            assert(with_sign(negative, qn@) == 0);
        }
    }
    r
}

impl Rational {
    #[verifier::type_invariant]
    spec fn inv(self) -> bool {
        &&& is_reduced(self@)
        &&& self.negative ==> self.num@ > 0
    }

    /// Every rational is reduced and has a positive denominator.
    pub(crate) fn wf_facts(&self)
        ensures
            is_reduced(self@),
            fits(self@),
    {
        proof {
            use_type_invariant(self);
        }
    }

    /// The same number.
    pub fn copy(&self) -> (r: Rational)
        ensures
            r@ == self@,
    {
        proof {
            use_type_invariant(self);
        }
        Rational { negative: self.negative, num: self.num.copy(), den: self.den.copy() }
    }

    /// Whether the number is negative.
    pub fn is_negative(&self) -> (b: bool)
        ensures
            b == (self@.0 < 0),
    {
        proof {
            use_type_invariant(self);
        }
        self.negative
    }

    /// The magnitude of the numerator.
    pub fn numerator(&self) -> (n: Natural)
        ensures
            n@ == abs(self@.0),
    {
        self.num.copy()
    }

    /// The (positive) denominator.
    pub fn denominator(&self) -> (d: Natural)
        ensures
            d@ == self@.1,
    {
        proof {
            use_type_invariant(self);
        }
        self.den.copy()
    }

    /// The numerator, when it fits an `i64`.
    pub fn num(&self) -> (n: Option<i64>)
        ensures
            n matches Some(v) ==> v == self@.0,
            n is None ==> !(i64::MIN < self@.0 <= i64::MAX),
    {
        match self.num.to_u64() {
            Some(m) => if m <= 0x7fff_ffff_ffff_ffffu64 {
                let v = m as i64;
                if self.negative {
                    Some(-v)
                } else {
                    Some(v)
                }
            } else {
                None
            },
            None => None,
        }
    }

    /// The denominator, when it fits an `i64`.
    pub fn den(&self) -> (d: Option<i64>)
        ensures
            d matches Some(v) ==> v == self@.1,
            d is None ==> self@.1 > i64::MAX,
    {
        match self.den.to_u64() {
            Some(m) => if m <= 0x7fff_ffff_ffff_ffffu64 {
                Some(m as i64)
            } else {
                None
            },
            None => None,
        }
    }

    /// The natural number `n`.
    pub fn from_natural(n: Natural) -> (r: Rational)
        ensures
            r@ == (n@ as int, 1int),
    {
        proof {
            assert(n@ % 1 == 0);
            assert(gcd(1, 0) == 1);
            assert(gcd(n@, 1) == gcd(1, n@ % 1));
            assert(abs(n@ as int) == n@);
            lemma_norm_of_reduced((n@ as int, 1int));
        }
        reduce(false, n, Natural::from_u64(1))
    }

    /// The integer `n`.
    pub fn from_integer(n: i64) -> (r: Rational)
        ensures
            r@ == (n as int, 1int),
    {
        let m: u64 = if n < 0 {
            (-(n as i128)) as u64
        } else {
            n as u64
        };
        let r = Rational::from_natural(Natural::from_u64(m));
        if n < 0 {
            r.neg()
        } else {
            r
        }
    }

    /// Zero, as `0 / 1`.
    pub fn zero() -> (r: Rational)
        ensures
            r@ == rat_zero(),
    {
        Rational::from_natural(Natural::zero())
    }

    /// One, as `1 / 1`.
    pub fn one() -> (r: Rational)
        ensures
            r@ == (1int, 1int),
    {
        Rational::from_natural(Natural::from_u64(1))
    }

    /// The fraction `num / den` in lowest terms; `None` when `den` is zero.
    pub fn new(num: i64, den: i64) -> (r: Option<Rational>)
        ensures
            den == 0 <==> r is None,
            den > 0 ==> (r matches Some(x) && x@ == norm(num as int, den as nat)),
            den < 0 ==> (r matches Some(x) && x@ == norm(-num, (-den) as nat)),
    {
        if den == 0 {
            None
        } else {
            let n = Rational::from_integer(num);
            let d = Rational::from_integer(den);
            let q = n.div(&d);
            proof {
                assert(num as int * 1 == num as int);
                assert((1 * den) as nat == den as nat);
                assert(1 * (-den) == -den);
            }
            Some(q)
        }
    }

    /// Whether this is zero.
    pub fn is_zero(&self) -> (b: bool)
        ensures
            b == (self@.0 == 0),
    {
        self.num.is_zero()
    }

    /// Whether this is one.
    pub fn is_one(&self) -> (b: bool)
        ensures
            b == (self@ == (1int, 1int)),
    {
        let one = Natural::from_u64(1);
        !self.negative && self.num.equals(&one) && self.den.equals(&one)
    }

    /// Negation.
    pub fn neg(&self) -> (r: Rational)
        ensures
            r@ == rat_neg(self@),
    {
        proof {
            use_type_invariant(self);
            assert(abs(-self@.0) == abs(self@.0));
        }
        let negative = !self.negative && !self.num.is_zero();
        Rational { negative, num: self.num.copy(), den: self.den.copy() }
    }

    /// Exact sum.
    pub fn add(&self, other: &Rational) -> (r: Rational)
        ensures
            r@ == rat_add(self@, other@),
    {
        proof {
            use_type_invariant(self);
            use_type_invariant(other);
        }
        let p = self.num.mul(&other.den);
        let q = other.num.mul(&self.den);
        let d = self.den.mul(&other.den);
        proof {
            lemma_with_sign_mul(self.negative, self.num@, other.den@);
            lemma_with_sign_mul(other.negative, other.num@, self.den@);
            assert(self.den@ * other.den@ > 0) by (nonlinear_arith)
                requires
                    self.den@ > 0,
                    other.den@ > 0,
            ;
        }
        if self.negative == other.negative {
            reduce(self.negative, p.add(&q), d)
        } else if q.less_than(&p) {
            reduce(self.negative, p.sub(&q), d)
        } else {
            reduce(other.negative, q.sub(&p), d)
        }
    }

    /// Exact difference.
    pub fn sub(&self, other: &Rational) -> (r: Rational)
        ensures
            r@ == rat_sub(self@, other@),
    {
        let r = self.add(&other.neg());
        proof {
            assert((-other@.0) * self@.1 == -(other@.0 * self@.1)) by (nonlinear_arith);
        }
        r
    }

    /// Exact product.
    pub fn mul(&self, other: &Rational) -> (r: Rational)
        ensures
            r@ == rat_mul(self@, other@),
    {
        proof {
            use_type_invariant(self);
            use_type_invariant(other);
            lemma_with_sign_product(self.negative, other.negative, self.num@, other.num@);
            assert(self.den@ * other.den@ > 0) by (nonlinear_arith)
                requires
                    self.den@ > 0,
                    other.den@ > 0,
            ;
        }
        let n = self.num.mul(&other.num);
        let d = self.den.mul(&other.den);
        reduce(self.negative != other.negative, n, d)
    }

    /// Exact quotient by a number other than zero.
    pub fn div(&self, other: &Rational) -> (r: Rational)
        requires
            other@.0 != 0,
        ensures
            r@ == rat_div(self@, other@),
    {
        proof {
            use_type_invariant(self);
            use_type_invariant(other);
            lemma_with_sign_mul(self.negative, self.num@, other.den@);
            assert(self.den@ * other.num@ > 0) by (nonlinear_arith)
                requires
                    self.den@ > 0,
                    other.num@ > 0,
            ;
            assert(-(with_sign(self.negative, self.num@) * other.den@) == with_sign(
                !self.negative,
                self.num@ * other.den@,
            ));
        }
        let n = self.num.mul(&other.den);
        let d = self.den.mul(&other.num);
        reduce(self.negative != other.negative, n, d)
    }

    /// Exact quotient; `None` when `other` is zero.
    pub fn checked_div(&self, other: &Rational) -> (r: Option<Rational>)
        ensures
            r is Some <==> other@.0 != 0,
            r matches Some(x) ==> x@ == rat_div(self@, other@),
    {
        if other.is_zero() {
            None
        } else {
            Some(self.div(other))
        }
    }

    /// `self^n` for a natural `n` (see `nat_power`).
    fn nat_pow(&self, n: &Natural) -> (r: Option<Rational>)
        ensures
            match nat_power(self@, n@) {
                Some(v) => r matches Some(x) && x@ == v,
                None => r is None,
            },
    {
        if self.is_zero() {
            if n.is_zero() {
                return Some(Rational::one());
            } else {
                return Some(Rational::zero());
            }
        }
        if self.is_one() {
            return Some(Rational::one());
        }
        let minus_one = Rational::one().neg();
        if self.same_value_as(&minus_one) {
            if n.is_even() {
                return Some(Rational::one());
            } else {
                return Some(minus_one);
            }
        }
        let k = match n.to_u64() {
            Some(k) => k,
            None => {
                return None;
            },
        };
        let mut acc = Rational::one();
        let mut i: u64 = 0;
        while i < k
            invariant
                i <= k,
                power_chain(self@, i as nat) == acc@,
            decreases k - i,
        {
            acc = acc.mul(self);
            i = i + 1;
        }
        Some(acc)
    }

    /// `self` to the integer power `n.0` (see `int_power`).
    fn int_pow(&self, n: &Rational) -> (r: Option<Rational>)
        ensures
            match int_power(self@, n@.0) {
                Some(v) => r matches Some(x) && x@ == v,
                None => r is None,
            },
    {
        proof {
            use_type_invariant(n);
        }
        if !n.negative {
            self.nat_pow(&n.num)
        } else if self.is_zero() {
            None
        } else {
            Rational::one().div(self).nat_pow(&n.num)
        }
    }

    /// The `q`-th root, when it is rational (see `rat_root`).
    fn root(&self, q: &Natural) -> (r: Option<Rational>)
        requires
            q@ >= 2,
        ensures
            match rat_root(self@, q@) {
                Some(v) => r matches Some(x) && x@ == v,
                None => r is None,
            },
    {
        proof {
            use_type_invariant(self);
        }
        if self.negative && q.is_even() {
            return None;
        }
        match q.to_u64() {
            None => {
                let minus_one = Rational::one().neg();
                if self.is_zero() || self.is_one() || self.same_value_as(&minus_one) {
                    Some(self.copy())
                } else {
                    None
                }
            },
            Some(k) => match (self.num.root(k), self.den.root(k)) {
                (Some(a), Some(c)) => {
                    proof {
                        if c@ == 0 {
                            crate::natural::lemma_power_zero_base(k as nat);
                        }
                    }
                    Some(reduce(self.negative, a, c))
                },
                _ => None,
            },
        }
    }

    /// `self` to the power `exponent`, when the power has a rational value
    /// that a machine holds (see `rat_pow`).
    pub fn checked_pow(&self, exponent: &Rational) -> (r: Option<Rational>)
        ensures
            match rat_pow(self@, exponent@) {
                Some(v) => r matches Some(x) && x@ == v,
                None => r is None,
            },
    {
        proof {
            use_type_invariant(exponent);
        }
        if exponent.den.equals(&Natural::from_u64(1)) {
            self.int_pow(exponent)
        } else {
            match self.root(&exponent.den) {
                Some(b) => b.int_pow(exponent),
                None => None,
            }
        }
    }

    /// Value equality (which, for reduced fractions, is equality).
    pub fn same_value_as(&self, other: &Rational) -> (b: bool)
        ensures
            b == same_value(self@, other@),
            b == (self@ == other@),
    {
        proof {
            use_type_invariant(self);
            use_type_invariant(other);
            if same_value(self@, other@) {
                lemma_reduced_unique(self@, other@);
            }
        }
        self.negative == other.negative && self.num.equals(&other.num) && self.den.equals(&other.den)
    }
}

impl PartialEq for Rational {
    /// Value equality.
    fn eq(&self, other: &Rational) -> (b: bool) {
        self.same_value_as(other)
    }
}

impl vstd::std_specs::cmp::PartialEqSpecImpl for Rational {
    open spec fn obeys_eq_spec() -> bool {
        true
    }

    open spec fn eq_spec(&self, other: &Rational) -> bool {
        self@ == other@
    }
}

impl Eq for Rational {
}

} // verus!
