//! Natural numbers of any size, as sequences of binary digits (least
//! significant first). They are the parts of `Rational`, so that exponents
//! and dimensions are exact whatever their size.
use vstd::prelude::*;
use vstd::arithmetic::div_mod::lemma_fundamental_div_mod_converse;
use crate::rational::gcd;

verus! {

pub open spec fn bit_value(b: bool) -> nat {
    if b {
        1
    } else {
        0
    }
}

/// The number written by the digits of `s` from position `i` on.
pub open spec fn value_from(s: Seq<bool>, i: int) -> nat
    decreases s.len() - i,
{
    if i < 0 || i >= s.len() {
        0
    } else {
        bit_value(s[i]) + 2 * value_from(s, i + 1)
    }
}

/// The digit at `i`, zero past the end.
pub open spec fn digit(s: Seq<bool>, i: int) -> bool {
    0 <= i < s.len() && s[i]
}

proof fn lemma_value_from_past(s: Seq<bool>, i: int)
    requires
        i >= 0,
    ensures
        value_from(s, i) == bit_value(digit(s, i)) + 2 * value_from(s, i + 1),
{
    if i >= s.len() {
        assert(value_from(s, i + 1) == 0);
    }
}

/// Putting a digit in front doubles the rest and adds the digit.
proof fn lemma_value_prepend(x: bool, s: Seq<bool>, i: int)
    requires
        0 <= i,
    ensures
        value_from(seq![x] + s, i + 1) == value_from(s, i),
    decreases s.len() - i,
{
    let t = seq![x] + s;
    if i < s.len() {
        assert(t[i + 1] == s[i]);
        lemma_value_prepend(x, s, i + 1);
    }
}

proof fn lemma_value_insert(x: bool, s: Seq<bool>)
    ensures
        value_from(s.insert(0, x), 0) == bit_value(x) + 2 * value_from(s, 0),
{
    assert(s.insert(0, x) =~= seq![x] + s);
    lemma_value_prepend(x, s, 0);
}

/// A natural number of any size.
#[derive(Debug)]
pub struct Natural {
    bits: Vec<bool>,
}

impl View for Natural {
    type V = nat;

    closed spec fn view(&self) -> nat {
        value_from(self.bits@, 0)
    }
}

/// `s` with digit `x` put in front: `x + 2 * s`.
fn prepend(x: bool, mut s: Vec<bool>) -> (r: Vec<bool>)
    ensures
        value_from(r@, 0) == bit_value(x) + 2 * value_from(s@, 0),
{
    proof {
        lemma_value_insert(x, s@);
    }
    s.insert(0, x);
    s
}

fn digit_at(s: &Vec<bool>, i: usize) -> (b: bool)
    ensures
        b == digit(s@, i as int),
{
    i < s.len() && s[i]
}

/// The sum of the numbers from `i` on, plus the carry.
fn add_from(a: &Vec<bool>, b: &Vec<bool>, i: usize, carry: bool) -> (r: Vec<bool>)
    ensures
        value_from(r@, 0) == value_from(a@, i as int) + value_from(b@, i as int) + bit_value(carry),
    decreases a.len() + b.len() - i,
{
    proof {
        lemma_value_from_past(a@, i as int);
        lemma_value_from_past(b@, i as int);
    }
    if i >= a.len() && i >= b.len() {
        let mut r: Vec<bool> = Vec::new();
        if carry {
            r.push(true);
            assert(value_from(r@, 1) == 0);
        }
        r
    } else {
        let x = digit_at(a, i);
        let y = digit_at(b, i);
        let ones: u8 = (if x { 1u8 } else { 0u8 }) + (if y { 1u8 } else { 0u8 }) + (if carry { 1u8 } else { 0u8 });
        let rest = add_from(a, b, i + 1, ones >= 2);
        prepend(ones % 2 == 1, rest)
    }
}

/// The difference of the numbers from `i` on, less the borrow.
fn sub_from(a: &Vec<bool>, b: &Vec<bool>, i: usize, borrow: bool) -> (r: Vec<bool>)
    requires
        value_from(a@, i as int) >= value_from(b@, i as int) + bit_value(borrow),
    ensures
        value_from(r@, 0) == value_from(a@, i as int) - value_from(b@, i as int) - bit_value(borrow),
    decreases a.len() + b.len() - i,
{
    proof {
        lemma_value_from_past(a@, i as int);
        lemma_value_from_past(b@, i as int);
    }
    if i >= a.len() && i >= b.len() {
        Vec::new()
    } else {
        let x = digit_at(a, i);
        let y = digit_at(b, i);
        let take: u8 = (if y { 1u8 } else { 0u8 }) + (if borrow { 1u8 } else { 0u8 });
        let have: u8 = if x { 1u8 } else { 0u8 };
        if have >= take {
            let rest = sub_from(a, b, i + 1, false);
            prepend(have - take == 1, rest)
        } else {
            let rest = sub_from(a, b, i + 1, true);
            prepend(have + 2 - take == 1, rest)
        }
    }
}

/// How the numbers from `i` on compare: (less, equal).
fn compare_from(a: &Vec<bool>, b: &Vec<bool>, i: usize) -> (r: (bool, bool))
    ensures
        r.0 == (value_from(a@, i as int) < value_from(b@, i as int)),
        r.1 == (value_from(a@, i as int) == value_from(b@, i as int)),
    decreases a.len() + b.len() - i,
{
    proof {
        lemma_value_from_past(a@, i as int);
        lemma_value_from_past(b@, i as int);
    }
    if i >= a.len() && i >= b.len() {
        (false, true)
    } else {
        let (lt, eq) = compare_from(a, b, i + 1);
        if !eq {
            (lt, false)
        } else {
            let x = digit_at(a, i);
            let y = digit_at(b, i);
            (!x && y, x == y)
        }
    }
}

/// The product of the number of `a` from `i` on and the number of `b`.
fn mul_from(a: &Vec<bool>, i: usize, b: &Vec<bool>) -> (r: Vec<bool>)
    ensures
        value_from(r@, 0) == value_from(a@, i as int) * value_from(b@, 0),
    decreases a.len() - i,
{
    if i >= a.len() {
        proof {
            let big_b = value_from(b@, 0) as int;
            assert(0 * big_b == 0) by (nonlinear_arith);
        }
        Vec::new()
    } else {
        let rest = mul_from(a, i + 1, b);
        let twice = prepend(false, rest);
        proof {
            let x = bit_value(a@[i as int]) as int;
            let big_a = value_from(a@, i as int + 1) as int;
            let big_b = value_from(b@, 0) as int;
            assert((x + 2 * big_a) * big_b == x * big_b + 2 * (big_a * big_b)) by (nonlinear_arith);
            assert(value_from(a@, i as int) == x + 2 * big_a);
            if a@[i as int] {
                assert(x * big_b == big_b) by (nonlinear_arith)
                    requires
                        x == 1,
                ;
            } else {
                assert(x * big_b == 0) by (nonlinear_arith)
                    requires
                        x == 0,
                ;
            }
        }
        if a[i] {
            add_from(&twice, b, 0, false)
        } else {
            twice
        }
    }
}

/// Quotient and remainder of the number of `a` from `i` on by `d`.
fn divmod_from(a: &Vec<bool>, i: usize, d: &Vec<bool>) -> (r: (Vec<bool>, Vec<bool>))
    requires
        value_from(d@, 0) > 0,
    ensures
        value_from(r.0@, 0) * value_from(d@, 0) + value_from(r.1@, 0) == value_from(a@, i as int),
        value_from(r.1@, 0) < value_from(d@, 0),
    decreases a.len() - i,
{
    if i >= a.len() {
        proof {
            let dv = value_from(d@, 0) as int;
            assert(0 * dv == 0) by (nonlinear_arith);
        }
        (Vec::new(), Vec::new())
    } else {
        let (q, rem) = divmod_from(a, i + 1, d);
        let ghost q0 = value_from(q@, 0) as int;
        let ghost r0 = value_from(rem@, 0) as int;
        let ghost dv = value_from(d@, 0) as int;
        let x = a[i];
        let r2 = prepend(x, rem);
        let (lt, _) = compare_from(&r2, d, 0);
        proof {
            assert(2 * (q0 * dv) == (2 * q0) * dv) by (nonlinear_arith);
            assert((2 * q0 + 1) * dv == (2 * q0) * dv + dv) by (nonlinear_arith);
            assert(value_from(a@, i as int) == bit_value(x) + 2 * value_from(a@, i as int + 1));
            assert(value_from(r2@, 0) == bit_value(x) + 2 * r0);
        }
        if lt {
            (prepend(false, q), r2)
        } else {
            let r3 = sub_from(&r2, d, 0, false);
            (prepend(true, q), r3)
        }
    }
}

impl Natural {
    /// The binary digits, least significant first.
    pub closed spec fn digits(&self) -> Seq<bool> {
        self.bits@
    }

    /// The number is the value of its digits.
    pub proof fn lemma_digits(&self)
        ensures
            self@ == value_from(self.digits(), 0),
    {
    }

    /// Zero.
    pub fn zero() -> (n: Natural)
        ensures
            n@ == 0,
    {
        Natural { bits: Vec::new() }
    }

    /// The number `n`.
    pub fn from_u64(n: u64) -> (r: Natural)
        ensures
            r@ == n,
        decreases n,
    {
        if n == 0 {
            Natural::zero()
        } else {
            let half = Natural::from_u64(n / 2);
            Natural { bits: prepend(n % 2 == 1, half.bits) }
        }
    }

    /// The same number.
    pub fn copy(&self) -> (r: Natural)
        ensures
            r@ == self@,
    {
        let mut bits: Vec<bool> = Vec::new();
        let mut i: usize = 0;
        while i < self.bits.len()
            invariant
                i <= self.bits.len(),
                bits@ == self.bits@.take(i as int),
            decreases self.bits.len() - i,
        {
            bits.push(self.bits[i]);
            i = i + 1;
        }
        assert(bits@ =~= self.bits@);
        Natural { bits }
    }

    /// The number of binary digits held (some leading ones may be zero).
    pub fn digit_count(&self) -> (n: usize)
        ensures
            n == self.digits().len(),
    {
        self.bits.len()
    }

    /// The binary digit of weight `2^i` (zero past the digits held).
    pub fn digit(&self, i: usize) -> (b: bool)
        ensures
            b == digit(self.digits(), i as int),
    {
        digit_at(&self.bits, i)
    }

    pub fn is_even(&self) -> (b: bool)
        ensures
            b == (self@ % 2 == 0),
    {
        proof {
            lemma_value_from_past(self.bits@, 0);
        }
        !digit_at(&self.bits, 0)
    }

    pub fn is_zero(&self) -> (b: bool)
        ensures
            b == (self@ == 0),
    {
        let (_, eq) = compare_from(&self.bits, &Vec::new(), 0);
        eq
    }

    pub fn add(&self, other: &Natural) -> (r: Natural)
        ensures
            r@ == self@ + other@,
    {
        Natural { bits: add_from(&self.bits, &other.bits, 0, false) }
    }

    /// The difference, when `other` is not larger.
    pub fn sub(&self, other: &Natural) -> (r: Natural)
        requires
            other@ <= self@,
        ensures
            r@ == self@ - other@,
    {
        Natural { bits: sub_from(&self.bits, &other.bits, 0, false) }
    }

    pub fn mul(&self, other: &Natural) -> (r: Natural)
        ensures
            r@ == self@ * other@,
    {
        Natural { bits: mul_from(&self.bits, 0, &other.bits) }
    }

    pub fn less_than(&self, other: &Natural) -> (b: bool)
        ensures
            b == (self@ < other@),
    {
        compare_from(&self.bits, &other.bits, 0).0
    }

    pub fn equals(&self, other: &Natural) -> (b: bool)
        ensures
            b == (self@ == other@),
    {
        compare_from(&self.bits, &other.bits, 0).1
    }

    /// Quotient and remainder by a positive divisor.
    pub fn div_rem(&self, d: &Natural) -> (r: (Natural, Natural))
        requires
            d@ > 0,
        ensures
            r.0@ == self@ / d@,
            r.1@ == self@ % d@,
    {
        let (q, m) = divmod_from(&self.bits, 0, &d.bits);
        let q = Natural { bits: q };
        let m = Natural { bits: m };
        proof {
            lemma_fundamental_div_mod_converse(self@ as int, d@ as int, q@ as int, m@ as int);
        }
        (q, m)
    }

    /// The greatest common divisor.
    pub fn gcd(&self, other: &Natural) -> (g: Natural)
        ensures
            g@ == gcd(self@, other@),
        decreases other@,
    {
        if other.is_zero() {
            self.copy()
        } else {
            let (_, m) = self.div_rem(other);
            other.gcd(&m)
        }
    }

    /// The number, when it is below `2^64`.
    pub fn to_u64(&self) -> (r: Option<u64>)
        ensures
            r matches Some(n) ==> n == self@,
            r is None ==> self@ > u64::MAX,
    {
        let limit = Natural::from_u64(u64::MAX);
        if limit.less_than(self) {
            return None;
        }
        let mut acc: u64 = 0;
        let mut i: usize = self.bits.len();
        while i > 0
            invariant
                i <= self.bits.len(),
                self@ <= u64::MAX,
                value_from(self.bits@, 0) == self@,
                acc == value_from(self.bits@, i as int),
            decreases i,
        {
            proof {
                lemma_value_prefix_bound(self.bits@, (i - 1) as int);
            }
            i = i - 1;
            acc = 2 * acc + if self.bits[i] { 1u64 } else { 0u64 };
        }
        Some(acc)
    }
}

/// Each suffix value is at most the whole value.
proof fn lemma_value_prefix_bound(s: Seq<bool>, i: int)
    requires
        0 <= i,
    ensures
        value_from(s, i) <= value_from(s, 0),
    decreases i,
{
    if i > 0 {
        lemma_value_prefix_bound(s, i - 1);
        lemma_value_from_past(s, i - 1);
    }
}

/// `b` to the power `e`.
pub open spec fn power(b: nat, e: nat) -> nat
    decreases e,
{
    if e == 0 {
        1
    } else {
        b * power(b, (e - 1) as nat)
    }
}

/// Powers with a positive exponent grow strictly with the base.
pub proof fn lemma_power_monotone(x: nat, y: nat, q: nat)
    requires
        x < y,
        q >= 1,
    ensures
        power(x, q) < power(y, q),
    decreases q,
{
    if q > 1 {
        lemma_power_monotone(x, y, (q - 1) as nat);
        let px = power(x, (q - 1) as nat);
        let py = power(y, (q - 1) as nat);
        assert(x * px < y * py) by (nonlinear_arith)
            requires
                x < y,
                px < py,
        ;
    } else {
        assert(power(x, 0) == 1 && power(y, 0) == 1);
        assert(x * 1 == x && y * 1 == y);
    }
}

/// A power with a positive exponent of a positive base is at least the base.
proof fn lemma_power_at_least_base(b: nat, q: nat)
    requires
        b >= 1,
        q >= 1,
    ensures
        power(b, q) >= b,
    decreases q,
{
    if q > 1 {
        lemma_power_at_least_base(b, (q - 1) as nat);
        let p = power(b, (q - 1) as nat);
        assert(b * p >= b) by (nonlinear_arith)
            requires
                p >= b,
                b >= 1,
        ;
    } else {
        assert(power(b, 0) == 1);
        assert(b * 1 == b);
    }
}

pub proof fn lemma_power_zero_base(q: nat)
    requires
        q >= 1,
    ensures
        power(0, q) == 0,
{
    assert(0 * power(0, (q - 1) as nat) == 0) by (nonlinear_arith);
}

/// The natural `q`-th root of `n`, when `n` is a `q`-th power.
pub open spec fn nat_root(n: nat, q: nat) -> Option<nat> {
    if exists|x: nat| power(x, q) == n {
        Some(choose|x: nat| power(x, q) == n)
    } else {
        None
    }
}

impl Natural {
    /// `self` to the power `e`.
    pub fn pow(&self, e: u64) -> (r: Natural)
        ensures
            r@ == power(self@, e as nat),
    {
        let mut r = Natural::from_u64(1);
        let mut i: u64 = 0;
        while i < e
            invariant
                i <= e,
                r@ == power(self@, i as nat),
            decreases e - i,
        {
            r = self.mul(&r);
            i = i + 1;
        }
        r
    }

    /// The `q`-th root of `self`, when `self` is a `q`-th power.
    pub fn root(&self, q: u64) -> (r: Option<Natural>)
        requires
            q >= 1,
        ensures
            r == None::<Natural> <==> nat_root(self@, q as nat) is None,
            r matches Some(x) ==> nat_root(self@, q as nat) == Some(x@),
    {
        let one = Natural::from_u64(1);
        let two = Natural::from_u64(2);
        let mut lo = Natural::zero();
        let mut hi = self.add(&one);
        proof {
            lemma_power_zero_base(q as nat);
            lemma_power_at_least_base(hi@, q as nat);
        }
        while lo.add(&one).less_than(&hi)
            invariant
                one@ == 1,
                two@ == 2,
                q >= 1,
                lo@ < hi@,
                power(lo@, q as nat) <= self@,
                self@ < power(hi@, q as nat),
            decreases hi@ - lo@,
        {
            let (mid, _) = lo.add(&hi).div_rem(&two);
            let p = mid.pow(q);
            if self.less_than(&p) {
                hi = mid;
            } else {
                lo = mid;
            }
        }
        let p = lo.pow(q);
        let found = p.equals(self);
        proof {
            assert(hi@ == lo@ + 1);
            if found {
                assert(power(lo@, q as nat) == self@);
                assert forall|x: nat| power(x, q as nat) == self@ implies x == lo@ by {
                    if x < lo@ {
                        lemma_power_monotone(x, lo@, q as nat);
                    } else if x > lo@ {
                        lemma_power_monotone(lo@, x, q as nat);
                    }
                }
            } else {
                assert forall|x: nat| power(x, q as nat) != self@ by {
                    if x < lo@ {
                        lemma_power_monotone(x, lo@, q as nat);
                    } else if x > lo@ {
                        if x > hi@ {
                            lemma_power_monotone(hi@, x, q as nat);
                        }
                    }
                }
            }
        }
        if found {
            Some(lo)
        } else {
            None
        }
    }
}

} // verus!
