use concorde::natural::Natural;
use concorde::rational::Rational;

fn r(n: i64, d: i64) -> Rational {
    Rational::new(n, d).unwrap()
}

#[test]
fn new_reduces_to_lowest_terms() {
    let x = r(6, -8);
    assert_eq!((x.num(), x.den()), (Some(-3), Some(4)));
    let z = r(0, 5);
    assert_eq!((z.num(), z.den()), (Some(0), Some(1)));
    assert!(Rational::new(1, 0).is_none());
    let m = r(i64::MIN, 1);
    assert_eq!(m.num(), None);
    assert!(m.is_negative());
    let h = r(i64::MIN, 2);
    assert_eq!((h.num(), h.den()), (Some(i64::MIN / 2), Some(1)));
}

#[test]
fn arithmetic_is_exact() {
    assert_eq!(r(1, 3).add(&r(1, 6)), r(1, 2));
    assert_eq!(r(1, 3).sub(&r(1, 2)), r(-1, 6));
    assert_eq!(r(2, 3).mul(&r(9, 4)), r(3, 2));
    assert_eq!(r(2, 3).checked_div(&r(-4, 9)), Some(r(-3, 2)));
    assert_eq!(r(2, 3).checked_div(&r(0, 1)), None);
    assert_eq!(r(5, 7).neg(), r(-5, 7));
    assert!(r(0, 1).is_zero());
    assert!(Rational::one().is_one());
    assert!(r(3, 7).same_value_as(&r(6, 14)));
    assert_eq!(Rational::from_integer(-4), r(-4, 1));
}

#[test]
fn arithmetic_has_no_fixed_range() {
    let max = r(i64::MAX, 1);
    let sum = max.add(&r(1, 1));
    assert_eq!(sum.num(), None);
    assert_eq!(sum.sub(&r(1, 1)), max);
    let square = max.mul(&max);
    assert_eq!(square.checked_div(&max), Some(r(i64::MAX, 1)));
    let tiny = r(1, i64::MAX).mul(&r(1, i64::MAX));
    assert_eq!(tiny.den(), None);
    assert_eq!(tiny.mul(&square), r(1, 1));
    let n = square.numerator();
    assert_eq!(n.to_u64(), None);
    let mut value: u128 = 0;
    for i in (0..n.digit_count()).rev() {
        value = 2 * value + if n.digit(i) { 1 } else { 0 };
    }
    assert_eq!(value, (i64::MAX as u128) * (i64::MAX as u128));
}

#[test]
fn powers_with_integer_exponents() {
    assert_eq!(r(2, 3).checked_pow(&r(3, 1)), Some(r(8, 27)));
    assert_eq!(r(2, 3).checked_pow(&r(-2, 1)), Some(r(9, 4)));
    assert_eq!(r(0, 1).checked_pow(&r(0, 1)), Some(r(1, 1)));
    assert_eq!(r(0, 1).checked_pow(&r(-1, 1)), None);
    assert_eq!(r(4, 1).checked_pow(&r(1, 2)), Some(r(2, 1)));
    assert_eq!(r(2, 1).checked_pow(&r(1, 2)), None);
    assert_eq!(r(-8, 27).checked_pow(&r(2, 3)), Some(r(4, 9)));
    assert_eq!(r(-4, 1).checked_pow(&r(1, 2)), None);
    assert_eq!(r(1, 9).checked_pow(&r(-3, 2)), Some(r(27, 1)));
    assert_eq!(r(0, 1).checked_pow(&r(-1, 2)), None);
    assert_eq!(r(-1, 1).checked_pow(&r(7, 1)), Some(r(-1, 1)));
    let ten_to_forty = r(10, 1).checked_pow(&r(40, 1)).unwrap();
    assert_eq!(ten_to_forty.den(), Some(1));
    assert_eq!(ten_to_forty.checked_div(&r(10, 1).checked_pow(&r(39, 1)).unwrap()), Some(r(10, 1)));
}

#[test]
fn naturals_of_any_size() {
    let a = Natural::from_u64(u64::MAX);
    let b = a.mul(&a).add(&Natural::from_u64(5));
    let (q, m) = b.div_rem(&a);
    assert_eq!(q.to_u64(), Some(u64::MAX));
    assert_eq!(m.to_u64(), Some(5));
    assert!(b.sub(&Natural::from_u64(5)).equals(&a.mul(&a)));
    assert_eq!(Natural::from_u64(84).gcd(&Natural::from_u64(36)).to_u64(), Some(12));
    assert!(Natural::from_u64(3).less_than(&Natural::from_u64(4)));
    assert!(Natural::from_u64(6).is_even());
    assert!(Natural::zero().is_zero());
}
