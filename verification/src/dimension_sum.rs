//! The dimensions of a unit as an exact sum over its components, and how
//! they behave under products and quotients of units.
//!
//! `dimensions` adds, component by component in stored order, each defined
//! unit's dimensions scaled by its exponent. Over exact rationals that sum
//! does not depend on the order, which lets the dimensions of a product be
//! compared with those of its factors.
use vstd::prelude::*;
use vstd::arithmetic::mul::{
    lemma_mul_is_associative, lemma_mul_is_commutative, lemma_mul_is_distributive_add,
    lemma_mul_is_distributive_add_other_way,
};
use vstd::set::fold::{lemma_fold_insert, lemma_fold_empty, is_fun_commutative};
use crate::rational::{
    abs, fits, is_reduced, norm, rat_add, rat_mul, rat_neg, rat_sub, same_value, lemma_norm,
    lemma_reduced_unique,
};
use crate::unit::{
    Component, UnitMap, comp_name, comps_map, dims_of, dims_upto, distinct_names, merged_exponent,
    spec_combine, zero_dims, add_scaled, exponents_wf_seq, exponents_wf, lemma_comps_map,
    lemma_comps_map_push,
};

verus! {

// ---------------------------------------------------------------------------
// Unreduced sums
// ---------------------------------------------------------------------------

/// The sum of two fractions without reduction: `a/b + c/d = (ad + cb) / bd`.
pub open spec fn uadd(x: (int, int), y: (int, int)) -> (int, int) {
    (x.0 * y.1 + y.0 * x.1, x.1 * y.1)
}

/// The contribution of the component named `k` of `m` to dimension `i`
/// (zero when `m` has no such component).
pub open spec fn term<S>(m: UnitMap<S>, i: int, k: Seq<char>) -> (int, int) {
    if m.contains_key(k) {
        rat_mul(dims_of(&m[k].0)[i], m[k].1)
    } else {
        (0, 1)
    }
}

pub open spec fn adder<S>(m: UnitMap<S>, i: int) -> spec_fn((int, int), Seq<char>) -> (int, int) {
    |acc: (int, int), k: Seq<char>| uadd(acc, term(m, i, k))
}

/// The sum, unreduced, of the contributions to dimension `i` of the
/// components of `m` named in `keys`.
pub open spec fn sum_over<S>(m: UnitMap<S>, i: int, keys: Set<Seq<char>>) -> (int, int) {
    keys.fold((0int, 1int), adder(m, i))
}

/// The sum, unreduced, over all components of `m`.
pub open spec fn exact_sum<S>(m: UnitMap<S>, i: int) -> (int, int) {
    sum_over(m, i, m.dom())
}

/// Dimension `i` of a unit map, exactly: over its components, the defined
/// unit's dimension times the exponent, summed, in lowest terms.
pub open spec fn exact_dim<S>(m: UnitMap<S>, i: int) -> (int, int) {
    norm(exact_sum(m, i).0, exact_sum(m, i).1 as nat)
}

proof fn lemma_uadd_swap(b: (int, int), x: (int, int), y: (int, int))
    ensures
        uadd(uadd(b, x), y) == uadd(uadd(b, y), x),
{
    lemma_mul_is_distributive_add_other_way(y.1, b.0 * x.1, x.0 * b.1);
    lemma_mul_is_distributive_add_other_way(x.1, b.0 * y.1, y.0 * b.1);
    lemma_mul_is_associative(b.0, x.1, y.1);
    lemma_mul_is_associative(b.0, y.1, x.1);
    lemma_mul_is_commutative(x.1, y.1);
    lemma_mul_is_associative(y.0, b.1, x.1);
    lemma_mul_is_associative(x.0, b.1, y.1);
    lemma_mul_is_associative(b.1, x.1, y.1);
    lemma_mul_is_associative(b.1, y.1, x.1);
}

proof fn lemma_adder_commutative<S>(m: UnitMap<S>, i: int)
    ensures
        is_fun_commutative(adder(m, i)),
{
    let f = adder(m, i);
    assert forall|a1: Seq<char>, a2: Seq<char>, b: (int, int)| #[trigger] f(f(b, a2), a1) == f(f(b, a1), a2) by {
        lemma_uadd_swap(b, term(m, i, a2), term(m, i, a1));
    }
}

/// Folding over `s.insert(x)` for `x` in `s`'s complement.
proof fn lemma_sum_insert<S>(m: UnitMap<S>, i: int, s: Set<Seq<char>>, x: Seq<char>)
    requires
        s.finite(),
        !s.contains(x),
    ensures
        sum_over(m, i, s.insert(x)) == uadd(sum_over(m, i, s), term(m, i, x)),
{
    lemma_adder_commutative(m, i);
    lemma_fold_insert(s, (0int, 1int), adder(m, i), x);
}

proof fn lemma_sum_empty<S>(m: UnitMap<S>, i: int)
    ensures
        sum_over(m, i, Set::empty()) == (0int, 1int),
{
    lemma_fold_empty((0int, 1int), adder(m, i));
}

/// Sums of two maps over keys on which their contributions agree are equal.
proof fn lemma_sum_agree<S>(m1: UnitMap<S>, m2: UnitMap<S>, i: int, s: Set<Seq<char>>)
    requires
        s.finite(),
        forall|k: Seq<char>| s.contains(k) ==> term(m1, i, k) == term(m2, i, k),
    ensures
        sum_over(m1, i, s) == sum_over(m2, i, s),
    decreases s.len(),
{
    if s.len() == 0 {
        assert(s =~= Set::empty());
        lemma_sum_empty(m1, i);
        lemma_sum_empty(m2, i);
    } else {
        let x = s.choose();
        let r = s.remove(x);
        assert(r.insert(x) =~= s);
        lemma_sum_agree(m1, m2, i, r);
        lemma_sum_insert(m1, i, r, x);
        lemma_sum_insert(m2, i, r, x);
    }
}

// ---------------------------------------------------------------------------
// Values of fractions
// ---------------------------------------------------------------------------

proof fn lemma_same_value_trans(a: (int, int), b: (int, int), c: (int, int))
    requires
        same_value(a, b),
        same_value(b, c),
        b.1 != 0,
    ensures
        same_value(a, c),
{
    assert(a.0 * b.1 * c.1 == b.0 * a.1 * c.1) by (nonlinear_arith)
        requires
            a.0 * b.1 == b.0 * a.1,
    ;
    assert(b.0 * c.1 * a.1 == c.0 * b.1 * a.1) by (nonlinear_arith)
        requires
            b.0 * c.1 == c.0 * b.1,
    ;
    assert((a.0 * c.1 - c.0 * a.1) * b.1 == 0) by (nonlinear_arith)
        requires
            a.0 * b.1 * c.1 == b.0 * a.1 * c.1,
            b.0 * c.1 * a.1 == c.0 * b.1 * a.1,
    ;
    assert(a.0 * c.1 - c.0 * a.1 == 0) by (nonlinear_arith)
        requires
            (a.0 * c.1 - c.0 * a.1) * b.1 == 0,
            b.1 != 0,
    ;
}

proof fn lemma_uadd_congr(x: (int, int), x2: (int, int), y: (int, int), y2: (int, int))
    requires
        same_value(x, x2),
        same_value(y, y2),
    ensures
        same_value(uadd(x, y), uadd(x2, y2)),
{
    let l = uadd(x, y);
    let r = uadd(x2, y2);
    assert(x.0 * y.1 * (x2.1 * y2.1) == x2.0 * y2.1 * (x.1 * y.1)) by (nonlinear_arith)
        requires
            x.0 * x2.1 == x2.0 * x.1,
    ;
    assert(y.0 * x.1 * (x2.1 * y2.1) == y2.0 * x2.1 * (x.1 * y.1)) by (nonlinear_arith)
        requires
            y.0 * y2.1 == y2.0 * y.1,
    ;
    lemma_mul_is_distributive_add_other_way(x2.1 * y2.1, x.0 * y.1, y.0 * x.1);
    lemma_mul_is_distributive_add_other_way(x.1 * y.1, x2.0 * y2.1, y2.0 * x2.1);
}

/// Fractions of the same value have the same normal form.
proof fn lemma_norm_same(p: (int, int), q: (int, int))
    requires
        same_value(p, q),
        p.1 > 0,
        q.1 > 0,
    ensures
        norm(p.0, p.1 as nat) == norm(q.0, q.1 as nat),
{
    lemma_norm(p.0, p.1 as nat);
    lemma_norm(q.0, q.1 as nat);
    let np = norm(p.0, p.1 as nat);
    let nq = norm(q.0, q.1 as nat);
    lemma_same_value_trans(np, p, q);
    assert(same_value(q, nq)) by (nonlinear_arith)
        requires
            nq.0 * q.1 == q.0 * nq.1,
    ;
    lemma_same_value_trans(np, q, nq);
    lemma_reduced_unique(np, nq);
}

/// A fraction has the value of its normal form.
proof fn lemma_norm_value(p: (int, int))
    requires
        p.1 > 0,
    ensures
        same_value(p, norm(p.0, p.1 as nat)),
        norm(p.0, p.1 as nat).1 > 0,
{
    lemma_norm(p.0, p.1 as nat);
    let np = norm(p.0, p.1 as nat);
    assert(same_value(p, np)) by (nonlinear_arith)
        requires
            np.0 * p.1 == p.0 * np.1,
    ;
}

/// `rat_add` is the normal form of the unreduced sum.
proof fn lemma_rat_add_uadd(a: (int, int), b: (int, int))
    ensures
        rat_add(a, b) == norm(uadd(a, b).0, uadd(a, b).1 as nat),
{
}

// ---------------------------------------------------------------------------
// The sum in stored order is the exact sum
// ---------------------------------------------------------------------------

proof fn lemma_distinct_take<S>(cs: Seq<Component<S>>, n: int)
    requires
        distinct_names(cs),
        0 <= n <= cs.len(),
    ensures
        distinct_names(cs.take(n)),
{
    let t = cs.take(n);
    assert forall|i: int, j: int| 0 <= i < t.len() && 0 <= j < t.len() && i != j implies comp_name(
        #[trigger] t[i],
    ) != comp_name(#[trigger] t[j]) by {
        assert(t[i] == cs[i] && t[j] == cs[j]);
    }
}

/// What `dims_upto` computes is the exact sum over the components read so
/// far.
pub(crate) proof fn lemma_dims_upto_exact<S>(cs: Seq<Component<S>>, n: int)
    requires
        distinct_names(cs),
        exponents_wf_seq(cs),
        forall|p: int, i: int| 0 <= p < cs.len() && 0 <= i < 7 ==> (#[trigger] dims_of(&*cs[p].0)[i]).1 > 0,
        0 <= n <= cs.len(),
    ensures
        dims_upto(cs, n).len() == 7,
        forall|i: int| 0 <= i < 7 ==> (#[trigger] exact_sum(comps_map(cs.take(n)), i)).1 > 0,
        forall|i: int|
            0 <= i < 7 ==> #[trigger] dims_upto(cs, n)[i] == norm(
                exact_sum(comps_map(cs.take(n)), i).0,
                exact_sum(comps_map(cs.take(n)), i).1 as nat,
            ),
    decreases n,
{
    let t = cs.take(n);
    let m = comps_map(t);
    lemma_distinct_take(cs, n);
    lemma_comps_map(t);
    if n == 0 {
        assert(t =~= Seq::<Component<S>>::empty());
        assert(m =~= Map::<Seq<char>, (crate::unit::DefinedUnit<S>, (int, int))>::empty());
        assert(m.dom() =~= Set::<Seq<char>>::empty());
        assert forall|i: int| 0 <= i < 7 implies (#[trigger] exact_sum(m, i)).1 > 0 && dims_upto(cs, n)[i]
            == norm(exact_sum(m, i).0, exact_sum(m, i).1 as nat) by {
            lemma_sum_empty(m, i);
            assert(m.dom() == Set::<Seq<char>>::empty());
            assert(exact_sum(m, i) == (0int, 1int));
            assert(crate::rational::gcd(0, 1) == 1) by {
                assert(0nat % 1nat == 0);
                assert(crate::rational::gcd(1, 0) == 1);
            }
            assert(abs(0) == 0);
            assert(norm(0, 1) == (0int, 1int));
            assert(dims_upto(cs, n) == zero_dims());
            assert(zero_dims()[i] == (0int, 1int));
        }
    } else {
        lemma_dims_upto_exact(cs, n - 1);
        let t0 = cs.take(n - 1);
        let m0 = comps_map(t0);
        lemma_distinct_take(cs, n - 1);
        lemma_comps_map(t0);
        assert(t.drop_last() =~= t0);
        let c = cs[n - 1];
        assert(t.last() == c);
        let name = comp_name(c);
        assert(m == m0.insert(name, (*c.0, c.1@)));
        assert(!m0.contains_key(name)) by {
            if m0.contains_key(name) {
                let j = choose|j: int| 0 <= j < t0.len() && comp_name(#[trigger] t0[j]) == name;
                assert(t0[j] == cs[j]);
            }
        }
        assert(m.dom() =~= m0.dom().insert(name));
        let acc = dims_upto(cs, n - 1);
        let d = dims_of(&*c.0);
        let e = c.1@;
        assert(dims_upto(cs, n) == add_scaled(acc, d, e));
        assert forall|i: int| 0 <= i < 7 implies (#[trigger] exact_sum(m, i)).1 > 0 && dims_upto(cs, n)[i]
            == norm(exact_sum(m, i).0, exact_sum(m, i).1 as nat) by {
            let w0 = exact_sum(m0, i);
            let tt = rat_mul(d[i], e);
            assert(d[i].1 > 0 && e.1 > 0);
            assert(d[i].1 * e.1 > 0) by (nonlinear_arith)
                requires
                    d[i].1 > 0,
                    e.1 > 0,
            ;
            lemma_norm(d[i].0 * e.0, (d[i].1 * e.1) as nat);
            assert(fits(tt));
            lemma_sum_insert(m, i, m0.dom(), name);
            assert forall|k: Seq<char>| m0.dom().contains(k) implies term(m, i, k) == term(m0, i, k) by {
                assert(k != name);
            }
            lemma_sum_agree(m, m0, i, m0.dom());
            assert(term(m, i, name) == tt);
            let w = exact_sum(m, i);
            assert(w == uadd(w0, tt));
            // acc[i] is the normal form of w0
            let a = acc[i];
            assert(a == norm(w0.0, w0.1 as nat));
            lemma_norm_value(w0);
            assert(same_value(a, w0)) by {
                assert(same_value(w0, a));
            }
            assert(same_value(tt, tt));
            lemma_uadd_congr(a, w0, tt, tt);
            assert(a.1 * tt.1 > 0) by (nonlinear_arith)
                requires
                    a.1 > 0,
                    tt.1 > 0,
            ;
            assert(w0.1 * tt.1 > 0) by (nonlinear_arith)
                requires
                    w0.1 > 0,
                    tt.1 > 0,
            ;
            lemma_norm_same(uadd(a, tt), uadd(w0, tt));
            lemma_rat_add_uadd(a, tt);
        }
    }
}

// ---------------------------------------------------------------------------
// Products and quotients
// ---------------------------------------------------------------------------

/// The product of two fractions without reduction.
pub open spec fn umul(x: (int, int), y: (int, int)) -> (int, int) {
    (x.0 * y.0, x.1 * y.1)
}

/// `x`, negated when `neg`.
pub open spec fn signed(neg: bool, x: (int, int)) -> (int, int) {
    if neg {
        (-x.0, x.1)
    } else {
        x
    }
}

/// Every dimension of every defined unit of `m` has a positive denominator
/// (as the dimensions of a `DefinedUnit`, being `Rational`s, do).
pub open spec fn positive_dims<S>(m: UnitMap<S>) -> bool {
    forall|k: Seq<char>, i: int|
        m.contains_key(k) && 0 <= i < 7 ==> (#[trigger] dims_of(&m[k].0)[i]).1 > 0
}

/// Where two unit maps share a name, they share the defined unit.
pub open spec fn same_definitions<S>(a: UnitMap<S>, b: UnitMap<S>) -> bool {
    forall|k: Seq<char>| a.contains_key(k) && b.contains_key(k) ==> #[trigger] a[k].0 == b[k].0
}

proof fn lemma_zero_values(p: (int, int), q: (int, int))
    requires
        p.0 == 0,
        q.0 == 0,
    ensures
        same_value(p, q),
{
    assert(p.0 * q.1 == 0 && q.0 * p.1 == 0) by (nonlinear_arith)
        requires
            p.0 == 0,
            q.0 == 0,
    ;
}

proof fn lemma_same_value_sym(a: (int, int), b: (int, int))
    requires
        same_value(a, b),
    ensures
        same_value(b, a),
{
}

proof fn lemma_umul_congr(x: (int, int), x2: (int, int), y: (int, int), y2: (int, int))
    requires
        same_value(x, x2),
        same_value(y, y2),
    ensures
        same_value(umul(x, y), umul(x2, y2)),
{
    assert((x.0 * y.0) * (x2.1 * y2.1) == (x.0 * x2.1) * (y.0 * y2.1)) by (nonlinear_arith);
    assert((x2.0 * y2.0) * (x.1 * y.1) == (x2.0 * x.1) * (y2.0 * y.1)) by (nonlinear_arith);
}

proof fn lemma_umul_distributes(d: (int, int), x: (int, int), y: (int, int))
    ensures
        same_value(umul(d, uadd(x, y)), uadd(umul(d, x), umul(d, y))),
{
    let l = umul(d, uadd(x, y));
    let r = uadd(umul(d, x), umul(d, y));
    assert(l.0 == d.0 * (x.0 * y.1 + y.0 * x.1));
    assert(r.0 == (d.0 * x.0) * (d.1 * y.1) + (d.0 * y.0) * (d.1 * x.1));
    assert((d.0 * x.0) * (d.1 * y.1) == d.1 * (d.0 * (x.0 * y.1))) by (nonlinear_arith);
    assert((d.0 * y.0) * (d.1 * x.1) == d.1 * (d.0 * (y.0 * x.1))) by (nonlinear_arith);
    lemma_mul_is_distributive_add(d.0, x.0 * y.1, y.0 * x.1);
    lemma_mul_is_distributive_add(d.1, d.0 * (x.0 * y.1), d.0 * (y.0 * x.1));
    assert(r.1 == d.1 * l.1) by (nonlinear_arith)
        requires
            r.1 == (d.1 * x.1) * (d.1 * y.1),
            l.1 == d.1 * (x.1 * y.1),
    ;
    assert(l.0 * r.1 == r.0 * l.1) by (nonlinear_arith)
        requires
            r.0 == d.1 * l.0,
            r.1 == d.1 * l.1,
    ;
}

proof fn lemma_signed_congr(neg: bool, x: (int, int), y: (int, int))
    requires
        same_value(x, y),
    ensures
        same_value(signed(neg, x), signed(neg, y)),
{
    if neg {
        assert((-x.0) * y.1 == -(x.0 * y.1)) by (nonlinear_arith);
        assert((-y.0) * x.1 == -(y.0 * x.1)) by (nonlinear_arith);
    }
}

proof fn lemma_umul_signed(neg: bool, d: (int, int), x: (int, int))
    ensures
        umul(d, signed(neg, x)) == signed(neg, umul(d, x)),
{
    if neg {
        assert(d.0 * (-x.0) == -(d.0 * x.0)) by (nonlinear_arith);
    }
}

proof fn lemma_positive_product(x: int, y: int)
    requires
        x > 0,
        y > 0,
    ensures
        x * y > 0,
{
    assert(x * y > 0) by (nonlinear_arith)
        requires
            x > 0,
            y > 0,
    ;
}

/// A product `rat_mul(d, e)` has the value of the unreduced product.
proof fn lemma_rat_mul_value(d: (int, int), e: (int, int))
    requires
        d.1 > 0,
        e.1 > 0,
    ensures
        same_value(rat_mul(d, e), umul(d, e)),
        rat_mul(d, e).1 > 0,
{
    lemma_positive_product(d.1, e.1);
    lemma_norm_value(umul(d, e));
    lemma_same_value_sym(umul(d, e), rat_mul(d, e));
}

/// The merged exponent has the value of the unreduced sum (difference).
proof fn lemma_merged_value(x: (int, int), y: (int, int), sub: bool)
    requires
        x.1 > 0,
        y.1 > 0,
    ensures
        same_value(
            if sub {
                rat_sub(x, y)
            } else {
                rat_add(x, y)
            },
            uadd(x, signed(sub, y)),
        ),
        (if sub {
            rat_sub(x, y)
        } else {
            rat_add(x, y)
        }).1 > 0,
{
    lemma_positive_product(x.1, y.1);
    let u = uadd(x, signed(sub, y));
    if sub {
        assert((-y.0) * x.1 == -(y.0 * x.1)) by (nonlinear_arith);
        assert(rat_sub(x, y) == norm(u.0, u.1 as nat));
    }
    lemma_norm_value(u);
    lemma_same_value_sym(u, norm(u.0, u.1 as nat));
}

/// Each name contributes to a product (quotient) of unit maps the sum
/// (difference) of what it contributes to the two factors.
proof fn lemma_term_combine<S>(a: UnitMap<S>, b: UnitMap<S>, sub: bool, i: int, k: Seq<char>)
    requires
        exponents_wf(a),
        exponents_wf(b),
        positive_dims(a),
        positive_dims(b),
        same_definitions(a, b),
        0 <= i < 7,
    ensures
        same_value(term(spec_combine(a, b, sub), i, k), uadd(term(a, i, k), signed(sub, term(b, i, k)))),
        term(a, i, k).1 > 0,
        term(b, i, k).1 > 0,
        term(spec_combine(a, b, sub), i, k).1 > 0,
{
    let c = spec_combine(a, b, sub);
    let ta = term(a, i, k);
    let tb = term(b, i, k);
    let tc = term(c, i, k);
    if a.contains_key(k) && b.contains_key(k) {
        let d = dims_of(&a[k].0)[i];
        assert(d == dims_of(&b[k].0)[i]);
        assert(d.1 > 0);
        let ea = a[k].1;
        let eb = b[k].1;
        let e = merged_exponent(a, b, k, sub);
        lemma_merged_value(ea, eb, sub);
        let u = uadd(ea, signed(sub, eb));
        let x = umul(d, e);
        let m1 = umul(d, u);
        let m2 = uadd(umul(d, ea), umul(d, signed(sub, eb)));
        assert(same_value(d, d));
        lemma_umul_congr(d, d, e, u);
        lemma_umul_distributes(d, ea, signed(sub, eb));
        lemma_umul_signed(sub, d, eb);
        lemma_rat_mul_value(d, ea);
        lemma_rat_mul_value(d, eb);
        lemma_signed_congr(sub, tb, umul(d, eb));
        lemma_uadd_congr(ta, umul(d, ea), signed(sub, tb), signed(sub, umul(d, eb)));
        // x ~ m1 ~ m2 ~ uadd(ta, signed(tb))
        lemma_positive_product(ea.1, eb.1);
        lemma_positive_product(d.1, ea.1 * eb.1);
        lemma_positive_product(d.1, ea.1);
        lemma_positive_product(d.1, eb.1);
        lemma_positive_product(d.1 * ea.1, d.1 * eb.1);
        lemma_same_value_trans(x, m1, m2);
        lemma_same_value_sym(uadd(ta, signed(sub, tb)), m2);
        lemma_same_value_trans(x, m2, uadd(ta, signed(sub, tb)));
        lemma_positive_product(d.1, e.1);
        if e.0 != 0 {
            assert(c.contains_key(k));
            assert(c[k] == (a[k].0, e));
            lemma_rat_mul_value(d, e);
            lemma_same_value_trans(tc, x, uadd(ta, signed(sub, tb)));
        } else {
            assert(!c.contains_key(k));
            assert(tc == (0int, 1int));
            assert(x.0 == 0) by (nonlinear_arith)
                requires
                    x.0 == d.0 * e.0,
                    e.0 == 0,
            ;
            lemma_zero_values(tc, x);
            lemma_same_value_trans(tc, x, uadd(ta, signed(sub, tb)));
        }
    } else if a.contains_key(k) {
        let d = dims_of(&a[k].0)[i];
        assert(d.1 > 0);
        let ea = a[k].1;
        lemma_rat_mul_value(d, ea);
        assert(uadd(ta, signed(sub, tb)) == ta);
        if ea.0 != 0 {
            assert(c.contains_key(k));
            assert(c[k] == (a[k].0, ea));
        } else {
            assert(!c.contains_key(k));
            assert(d.0 * ea.0 == 0) by (nonlinear_arith)
                requires
                    ea.0 == 0,
            ;
            assert(umul(d, ea).0 == 0);
            lemma_positive_product(d.1, ea.1);
            assert(ta.0 == 0) by (nonlinear_arith)
                requires
                    ta.0 * umul(d, ea).1 == umul(d, ea).0 * ta.1,
                    umul(d, ea).0 == 0,
                    umul(d, ea).1 > 0,
            ;
        }
    } else if b.contains_key(k) {
        let d = dims_of(&b[k].0)[i];
        assert(d.1 > 0);
        let eb = b[k].1;
        let e = merged_exponent(a, b, k, sub);
        assert(e == signed(sub, eb));
        assert(uadd(ta, signed(sub, tb)) == signed(sub, tb));
        let x = umul(d, e);
        lemma_umul_signed(sub, d, eb);
        lemma_rat_mul_value(d, eb);
        lemma_signed_congr(sub, tb, umul(d, eb));
        lemma_same_value_sym(signed(sub, tb), x);
        lemma_positive_product(d.1, eb.1);
        if e.0 != 0 {
            assert(c.contains_key(k));
            assert(c[k] == (b[k].0, e));
            lemma_rat_mul_value(d, e);
            lemma_same_value_trans(tc, x, signed(sub, tb));
        } else {
            assert(!c.contains_key(k));
            assert(x.0 == 0) by (nonlinear_arith)
                requires
                    x.0 == d.0 * e.0,
                    e.0 == 0,
            ;
            lemma_zero_values(tc, x);
            lemma_same_value_trans(tc, x, signed(sub, tb));
        }
    } else {
        assert(!c.contains_key(k));
    }
}

proof fn lemma_uadd_comm(x: (int, int), y: (int, int))
    ensures
        uadd(x, y) == uadd(y, x),
{
    lemma_mul_is_commutative(x.1, y.1);
}

proof fn lemma_uadd_assoc(x: (int, int), y: (int, int), z: (int, int))
    ensures
        uadd(uadd(x, y), z) == uadd(x, uadd(y, z)),
{
    lemma_mul_is_distributive_add_other_way(z.1, x.0 * y.1, y.0 * x.1);
    lemma_mul_is_distributive_add_other_way(x.1, y.0 * z.1, z.0 * y.1);
    lemma_mul_is_associative(x.0, y.1, z.1);
    lemma_mul_is_associative(y.0, x.1, z.1);
    lemma_mul_is_associative(y.0, z.1, x.1);
    lemma_mul_is_commutative(x.1, z.1);
    lemma_mul_is_associative(z.0, x.1, y.1);
    lemma_mul_is_associative(z.0, y.1, x.1);
    lemma_mul_is_commutative(x.1, y.1);
    lemma_mul_is_associative(x.1, y.1, z.1);
}

/// Regrouping four summands.
proof fn lemma_uadd_regroup(a: (int, int), b: (int, int), c: (int, int), d: (int, int))
    ensures
        uadd(uadd(a, b), uadd(c, d)) == uadd(uadd(a, c), uadd(b, d)),
{
    lemma_uadd_assoc(a, b, uadd(c, d));
    lemma_uadd_assoc(b, c, d);
    lemma_uadd_comm(b, c);
    lemma_uadd_assoc(c, b, d);
    lemma_uadd_assoc(a, c, uadd(b, d));
}

proof fn lemma_signed_uadd(neg: bool, x: (int, int), y: (int, int))
    ensures
        signed(neg, uadd(x, y)) == uadd(signed(neg, x), signed(neg, y)),
{
    if neg {
        assert((-x.0) * y.1 == -(x.0 * y.1)) by (nonlinear_arith);
        assert((-y.0) * x.1 == -(y.0 * x.1)) by (nonlinear_arith);
    }
}

/// Summed over any finite set of names, the contributions to a product
/// (quotient) are the sum (difference) of those to its factors.
proof fn lemma_sum_combine<S>(a: UnitMap<S>, b: UnitMap<S>, sub: bool, i: int, s: Set<Seq<char>>)
    requires
        s.finite(),
        exponents_wf(a),
        exponents_wf(b),
        positive_dims(a),
        positive_dims(b),
        same_definitions(a, b),
        0 <= i < 7,
    ensures
        same_value(
            sum_over(spec_combine(a, b, sub), i, s),
            uadd(sum_over(a, i, s), signed(sub, sum_over(b, i, s))),
        ),
        sum_over(a, i, s).1 > 0,
        sum_over(b, i, s).1 > 0,
        sum_over(spec_combine(a, b, sub), i, s).1 > 0,
    decreases s.len(),
{
    let c = spec_combine(a, b, sub);
    if s.len() == 0 {
        assert(s =~= Set::empty());
        lemma_sum_empty(a, i);
        lemma_sum_empty(b, i);
        lemma_sum_empty(c, i);
    } else {
        let x = s.choose();
        let r = s.remove(x);
        assert(r.insert(x) =~= s);
        lemma_sum_combine(a, b, sub, i, r);
        lemma_sum_insert(a, i, r, x);
        lemma_sum_insert(b, i, r, x);
        lemma_sum_insert(c, i, r, x);
        lemma_term_combine(a, b, sub, i, x);
        let sa = sum_over(a, i, r);
        let sb = sum_over(b, i, r);
        let sc = sum_over(c, i, r);
        let ta = term(a, i, x);
        let tb = term(b, i, x);
        let tc = term(c, i, x);
        // sc + tc ~ (sa + ±sb) + (ta + ±tb) == (sa + ta) + ±(sb + tb)
        lemma_uadd_congr(sc, uadd(sa, signed(sub, sb)), tc, uadd(ta, signed(sub, tb)));
        lemma_uadd_regroup(sa, signed(sub, sb), ta, signed(sub, tb));
        lemma_signed_uadd(sub, sb, tb);
        lemma_positive_product(sa.1, ta.1);
        lemma_positive_product(sb.1, tb.1);
        lemma_positive_product(sc.1, tc.1);
    }
}

/// Names outside the map contribute nothing.
proof fn lemma_sum_restrict<S>(m: UnitMap<S>, i: int, s: Set<Seq<char>>)
    requires
        s.finite(),
    ensures
        sum_over(m, i, s) == sum_over(m, i, s.intersect(m.dom())),
    decreases s.len(),
{
    if s.len() == 0 {
        assert(s =~= Set::empty());
        assert(s.intersect(m.dom()) =~= Set::empty());
    } else {
        let x = s.choose();
        let r = s.remove(x);
        assert(r.insert(x) =~= s);
        lemma_sum_restrict(m, i, r);
        lemma_sum_insert(m, i, r, x);
        let ri = r.intersect(m.dom());
        if m.contains_key(x) {
            assert(s.intersect(m.dom()) =~= ri.insert(x));
            lemma_sum_insert(m, i, ri, x);
        } else {
            assert(s.intersect(m.dom()) =~= ri);
            let w = sum_over(m, i, r);
            assert(uadd(w, (0int, 1int)) == w);
        }
    }
}

/// The exact dimensions of a product of unit maps are the sums of those of
/// the factors, and of a quotient the differences, when the factors agree on
/// the defined unit of every name they share. (The other requirements are
/// what the maps of `Unit`s satisfy.)
pub proof fn law_exact_dimensions_of_combine<S>(a: UnitMap<S>, b: UnitMap<S>, sub: bool)
    requires
        a.dom().finite(),
        b.dom().finite(),
        exponents_wf(a),
        exponents_wf(b),
        positive_dims(a),
        positive_dims(b),
        same_definitions(a, b),
    ensures
        forall|i: int|
            0 <= i < 7 ==> #[trigger] exact_dim(spec_combine(a, b, sub), i) == (if sub {
                rat_sub(exact_dim(a, i), exact_dim(b, i))
            } else {
                rat_add(exact_dim(a, i), exact_dim(b, i))
            }),
{
    let c = spec_combine(a, b, sub);
    let u = a.dom().union(b.dom());
    assert(u.intersect(a.dom()) =~= a.dom());
    assert(u.intersect(b.dom()) =~= b.dom());
    assert(u.intersect(c.dom()) =~= c.dom());
    assert forall|i: int| 0 <= i < 7 implies #[trigger] exact_dim(c, i) == (if sub {
        rat_sub(exact_dim(a, i), exact_dim(b, i))
    } else {
        rat_add(exact_dim(a, i), exact_dim(b, i))
    }) by {
        let wa = exact_sum(a, i);
        let wb = exact_sum(b, i);
        let wc = exact_sum(c, i);
        let dx = exact_dim(a, i);
        let dy = exact_dim(b, i);
        lemma_sum_restrict(a, i, u);
        lemma_sum_restrict(b, i, u);
        lemma_sum_restrict(c, i, u);
        lemma_sum_combine(a, b, sub, i, u);
        // wc ~ wa + ±wb
        let v = uadd(wa, signed(sub, wb));
        lemma_positive_product(wa.1, wb.1);
        lemma_norm_same(wc, v);
        // dx + ±dy ~ wa + ±wb
        lemma_norm_value(wa);
        lemma_norm_value(wb);
        lemma_signed_congr(sub, dy, wb);
        lemma_same_value_sym(wa, dx);
        lemma_same_value_sym(wb, dy);
        lemma_uadd_congr(dx, wa, signed(sub, dy), signed(sub, wb));
        let w = uadd(dx, signed(sub, dy));
        lemma_positive_product(dx.1, dy.1);
        lemma_norm_same(w, v);
        if sub {
            assert((-dy.0) * dx.1 == -(dy.0 * dx.1)) by (nonlinear_arith);
            assert(rat_sub(dx, dy) == norm(w.0, w.1 as nat));
        } else {
            assert(rat_add(dx, dy) == norm(w.0, w.1 as nat));
        }
    }
}

} // verus!
