use concorde::rational::Rational;
use concorde::unit::{DefinedUnit, Unit};
use std::sync::Arc;

fn dims(v: [f64; 7]) -> [Rational; 7] {
    v.map(|x| Rational::from_integer(x as i64))
}

fn create_kg_unit() -> Arc<DefinedUnit<f64>> {
    Arc::new(DefinedUnit::new(
        "kg".to_string(),
        dims([0.0, 1.0, 0.0, 0.0, 0.0, 0.0, 0.0]), // Mass dimension
        1.0,
        vec![],
    ))
}

fn create_s_unit() -> Arc<DefinedUnit<f64>> {
    Arc::new(DefinedUnit::new(
        "s".to_string(),
        dims([0.0, 0.0, 1.0, 0.0, 0.0, 0.0, 0.0]), // Time dimension
        1.0,
        vec![],
    ))
}

fn one() -> Rational {
    Rational::one()
}

fn exponent_of(unit: &Unit<f64>, def: &DefinedUnit<f64>) -> Option<f64> {
    unit.get_exponent(&def.name).map(|r| r.num().unwrap() as f64 / r.den().unwrap() as f64)
}

#[test]
fn test_mul_two_kg_unit() {
    let kg = create_kg_unit();

    let unit_1 = Unit::new(vec![(kg.clone(), one())]);
    let unit_2 = Unit::new(vec![(kg.clone(), one())]);

    let unit_3 = unit_1.mul(&unit_2);
    let kg_exponent = exponent_of(&unit_3, &kg);
    assert_eq!(kg_exponent, Some(2.0));
}

#[test]
fn test_div_two_kg_unit() {
    let kg = create_kg_unit();

    let unit_1 = Unit::new(vec![(kg.clone(), one())]);
    let unit_2 = Unit::new(vec![(kg.clone(), one())]);

    let unit_3 = unit_1.div(&unit_2);
    assert!(unit_3.is_empty());
}

#[test]
fn test_mul_two_different_unit() {
    let kg = create_kg_unit();
    let s = create_s_unit();

    let unit_1 = Unit::new(vec![(kg.clone(), one())]);
    let unit_2 = Unit::new(vec![(s.clone(), one())]);

    let unit_3 = unit_1.mul(&unit_2);
    assert_eq!(exponent_of(&unit_3, &kg), Some(1.0));
    assert_eq!(exponent_of(&unit_3, &s), Some(1.0));
}

#[test]
fn test_div_two_different_unit() {
    let kg = create_kg_unit();
    let s = create_s_unit();

    let unit_1 = Unit::new(vec![(kg.clone(), one())]);
    let unit_2 = Unit::new(vec![(s.clone(), one())]);

    let unit_3 = unit_1.div(&unit_2);
    assert_eq!(exponent_of(&unit_3, &kg), Some(1.0));
    assert_eq!(exponent_of(&unit_3, &s), Some(-1.0));
}

fn r(n: i64, d: i64) -> Rational {
    Rational::new(n, d).unwrap()
}

#[test]
fn new_leaves_out_zero_exponents() {
    let kg = create_kg_unit();
    let s = create_s_unit();
    let unit = Unit::new(vec![(kg.clone(), r(0, 1)), (s.clone(), r(2, 1))]);
    assert_eq!(unit.len(), 1);
    assert_eq!(exponent_of(&unit, &kg), None);
    assert_eq!(exponent_of(&unit, &s), Some(2.0));
}

#[test]
fn mul_is_commutative_on_exponents() {
    let kg = create_kg_unit();
    let s = create_s_unit();
    let a = Unit::new(vec![(kg.clone(), r(3, 2)), (s.clone(), r(-1, 1))]);
    let b = Unit::new(vec![(s.clone(), r(1, 3))]);
    let ab = a.mul(&b);
    let ba = b.mul(&a);
    assert_eq!(ab.len(), ba.len());
    assert_eq!(exponent_of(&ab, &kg), exponent_of(&ba, &kg));
    assert_eq!(exponent_of(&ab, &s), exponent_of(&ba, &s));
    assert_eq!(ab.get_exponent(&"s".to_string()), Some(r(-2, 3)));
}

#[test]
fn div_by_itself_is_dimensionless() {
    let kg = create_kg_unit();
    let s = create_s_unit();
    let a = Unit::new(vec![(kg.clone(), r(3, 2)), (s.clone(), r(-1, 7))]);
    assert!(a.div(&a).is_empty());
}

#[test]
fn mul_then_div_gives_back_the_unit() {
    let kg = create_kg_unit();
    let s = create_s_unit();
    let a = Unit::new(vec![(kg.clone(), r(3, 2)), (s.clone(), r(-1, 7))]);
    let b = Unit::new(vec![(s.clone(), r(1, 7)), (kg.clone(), r(1, 3))]);
    let back = a.mul(&b).div(&b);
    assert_eq!(back.len(), 2);
    assert_eq!(back.get_exponent(&"kg".to_string()), Some(r(3, 2)));
    assert_eq!(back.get_exponent(&"s".to_string()), Some(r(-1, 7)));
}

#[test]
fn mul_by_dimensionless_is_identity() {
    let kg = create_kg_unit();
    let a = Unit::new(vec![(kg.clone(), r(5, 3))]);
    let none: Unit<f64> = Unit::new(vec![]);
    let p = a.mul(&none);
    assert_eq!(p.get_exponent(&"kg".to_string()), Some(r(5, 3)));
    assert_eq!(p.len(), 1);
}

#[test]
fn pow_multiplies_exponents_and_keeps_zeros() {
    let kg = create_kg_unit();
    let s = create_s_unit();
    let a = Unit::new(vec![(kg.clone(), r(3, 2)), (s.clone(), r(-1, 1))]);
    let p = a.pow(r(2, 3));
    assert_eq!(p.get_exponent(&"kg".to_string()), Some(r(1, 1)));
    assert_eq!(p.get_exponent(&"s".to_string()), Some(r(-2, 3)));
    let z = a.pow(r(0, 1));
    assert_eq!(z.len(), 2);
    assert_eq!(z.get_exponent(&"kg".to_string()), Some(r(0, 1)));
    let same = a.pow(Rational::one());
    assert_eq!(same.get_exponent(&"kg".to_string()), Some(r(3, 2)));
    assert_eq!(same.get_exponent(&"s".to_string()), Some(r(-1, 1)));
}

#[test]
fn large_exponents_stay_exact() {
    let kg = create_kg_unit();
    let big = Unit::new(vec![(kg.clone(), r(i64::MAX, 1))]);
    let twice = r(i64::MAX, 1).add(&r(i64::MAX, 1));
    assert_eq!(twice.num(), None);
    assert_eq!(big.mul(&big).get_exponent(&"kg".to_string()), Some(twice.copy()));
    assert_eq!(big.pow(r(2, 1)).get_exponent(&"kg".to_string()), Some(twice));
    assert!(big.div(&big).is_empty());
}

#[test]
fn dimensions_with_large_denominators_are_exact() {
    let kg = create_kg_unit();
    let g = Arc::new(DefinedUnit::new(
        "g".to_string(),
        dims([0.0, 1.0, 0.0, 0.0, 0.0, 0.0, 0.0]),
        0.001,
        vec![],
    ));
    let u = Unit::new(vec![(kg.clone(), r(1, 4000000007)), (g.clone(), r(1, 4000000009))]);
    let d = u.dimensions();
    let expected = r(1, 4000000007).add(&r(1, 4000000009));
    assert_eq!(expected.den(), None);
    assert_eq!(d[1], expected);
    assert_eq!(d[0], r(0, 1));
}

#[test]
fn dimensions_sum_the_scaled_components() {
    // N = kg * m / s^2
    let kg = create_kg_unit();
    let s = create_s_unit();
    let m = Arc::new(DefinedUnit::new(
        "m".to_string(),
        dims([1.0, 0.0, 0.0, 0.0, 0.0, 0.0, 0.0]),
        1.0,
        vec![],
    ));
    let n = Unit::new(vec![(kg.clone(), one()), (m.clone(), one()), (s.clone(), r(-2, 1))]);
    let d = n.dimensions();
    let nums: Vec<i64> = d.iter().map(|x| x.num().unwrap()).collect();
    assert_eq!(nums, vec![1, 1, -2, 0, 0, 0, 0]);
    let m_per_kg = Unit::new(vec![(m.clone(), one()), (kg.clone(), r(-1, 1))]);
    let joule_like = Unit::new(vec![(kg.clone(), one()), (m.clone(), r(2, 1)), (s.clone(), r(-2, 1))]);
    assert_eq!(n.is_compatible(&n), true);
    assert_eq!(n.is_compatible(&m_per_kg), false);
    assert_eq!(n.is_compatible(&joule_like), false);
    let m_unit = Unit::new(vec![(m.clone(), one())]);
    let km = Arc::new(DefinedUnit::new(
        "km".to_string(),
        dims([1.0, 0.0, 0.0, 0.0, 0.0, 0.0, 0.0]),
        1000.0,
        vec![],
    ));
    let km_unit = Unit::new(vec![(km.clone(), one())]);
    assert_eq!(m_unit.is_compatible(&km_unit), true);
    assert_eq!(km_unit.is_compatible(&m_unit), true);
}

#[test]
fn dimensions_of_a_product_and_a_quotient() {
    let kg = create_kg_unit();
    let s = create_s_unit();
    let m = Arc::new(DefinedUnit::new(
        "m".to_string(),
        dims([1.0, 0.0, 0.0, 0.0, 0.0, 0.0, 0.0]),
        1.0,
        vec![],
    ));
    let x = Unit::new(vec![(kg.clone(), one()), (m.clone(), r(1, 2))]);
    let y = Unit::new(vec![(s.clone(), r(-2, 1)), (m.clone(), r(3, 2))]);
    let dx = x.dimensions();
    let dy = y.dimensions();
    let product = x.mul(&y).dimensions();
    let quotient = x.div(&y).dimensions();
    for i in 0..7 {
        assert_eq!(product[i], dx[i].add(&dy[i]));
        assert_eq!(quotient[i], dx[i].sub(&dy[i]));
    }
    let nums: Vec<i64> = product.iter().map(|v| v.num().unwrap()).collect();
    assert_eq!(nums, vec![2, 1, -2, 0, 0, 0, 0]);
    let nums: Vec<i64> = quotient.iter().map(|v| v.num().unwrap()).collect();
    assert_eq!(nums, vec![-1, 1, 2, 0, 0, 0, 0]);
}

#[test]
fn compatibility_is_symmetric() {
    let kg = create_kg_unit();
    let s = create_s_unit();
    let a = Unit::new(vec![(kg.clone(), one())]);
    let b = Unit::new(vec![(s.clone(), one())]);
    assert_eq!(a.is_compatible(&b), b.is_compatible(&a));
    assert_eq!(a.is_compatible(&a), true);
}

#[test]
fn same_exponents_compares_components_by_name() {
    let kg = create_kg_unit();
    let s = create_s_unit();
    let a = Unit::new(vec![(kg.clone(), one()), (s.clone(), r(-1, 1))]);
    let b = Unit::new(vec![(s.clone(), r(-2, 2)), (kg.clone(), one())]);
    let c = Unit::new(vec![(kg.clone(), one())]);
    let d = Unit::new(vec![(kg.clone(), one()), (s.clone(), one())]);
    assert!(a.same_exponents(&b));
    assert!(!a.same_exponents(&c));
    assert!(!a.same_exponents(&d));
    assert!(a.same_exponents(&a.clone()));
}

#[test]
fn incompatible_units_message() {
    let e = concorde::unit::IncompatibleUnitsError { lhs: "kg".to_string(), rhs: "m".to_string() };
    assert_eq!(e.message(), "cannot add/subtract incompatible units: kg and m");
}
