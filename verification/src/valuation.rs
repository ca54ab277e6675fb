//! The value of a symbolic expression under an assignment of field elements
//! to signals, and what arithmetic does to it.

use vstd::prelude::*;
use vstd::arithmetic::div_mod::*;
use crate::lc::law_combination_value;
use crate::lc::lc_eval;
use crate::lc::lc_zero;
use crate::lc::lemma_zero_eval;
use crate::lc::LcView;
use crate::value::normalize_quad;
use crate::value::quad_of;
use crate::value::QuadView;
use crate::value::ValueView;

verus! {

/// The sum of the values of the products `ps` under the assignment `w`.
pub open spec fn products_sum(ps: Seq<(LcView, LcView)>, w: Seq<nat>, p: nat) -> nat
    decreases ps.len(),
{
    if ps.len() == 0 {
        0
    } else {
        products_sum(ps.drop_last(), w, p) + lc_eval(ps.last().0, w, p) * lc_eval(ps.last().1, w, p)
    }
}

/// The value of a quadratic expression under the assignment `w`.
pub open spec fn quad_eval(q: QuadView, w: Seq<nat>, p: nat) -> nat {
    (products_sum(q.products, w, p) + lc_eval(q.rest, w, p)) % p
}

/// The value of a value under the assignment `w`.
pub open spec fn value_eval(v: ValueView, w: Seq<nat>, p: nat) -> nat {
    quad_eval(quad_of(v), w, p)
}

/// The products of two expressions together sum to the sum of their sums.
pub proof fn lemma_products_concat(a: Seq<(LcView, LcView)>, b: Seq<(LcView, LcView)>, w: Seq<nat>, p: nat)
    ensures
        products_sum(a + b, w, p) == products_sum(a, w, p) + products_sum(b, w, p),
    decreases b.len(),
{
    if b.len() == 0 {
        assert(a + b =~= a);
    } else {
        lemma_products_concat(a, b.drop_last(), w, p);
        assert((a + b).drop_last() =~= a + b.drop_last());
        assert((a + b).last() == b.last());
    }
}

/// The value of least degree that stands for an expression is that
/// expression again when taken as a quadratic expression.
pub proof fn lemma_quad_of_normalized(q: QuadView)
    ensures
        quad_of(normalize_quad(q)) == q,
{
    if q.products.len() == 0 {
        assert(q.products =~= Seq::empty());
        let l = q.rest;
        if l.terms.len() == 0 {
            assert(l.terms =~= Seq::empty());
        } else if l.terms.len() == 1 && l.terms[0].coeff@ == 1 && l.constant@ == 0 {
            crate::bigint::lemma_view_injective(
                l.terms[0].coeff,
                crate::bigint::U256 { l0: 1, l1: 0, l2: 0, l3: 0 },
            );
            crate::bigint::lemma_view_injective(
                l.constant,
                crate::bigint::U256 { l0: 0, l1: 0, l2: 0, l3: 0 },
            );
            assert(l.terms =~= crate::value::lc_signal(l.terms[0].signal).terms);
        }
    }
}

/// The value of a sum of expressions is the sum of their values.
pub proof fn lemma_add_value(qa: QuadView, qb: QuadView, rest: LcView, w: Seq<nat>, p: nat)
    requires
        p >= 2,
        rest.is_combination(1, qa.rest, qb.rest, p),
    ensures
        quad_eval(QuadView { products: qa.products + qb.products, rest }, w, p) == (quad_eval(qa, w, p)
            + quad_eval(qb, w, p)) % p,
{
    let sa = products_sum(qa.products, w, p);
    let sb = products_sum(qb.products, w, p);
    let ea = lc_eval(qa.rest, w, p);
    let eb = lc_eval(qb.rest, w, p);
    lemma_products_concat(qa.products, qb.products, w, p);
    law_combination_value(rest, 1, qa.rest, qb.rest, w, p);
    assert(lc_eval(rest, w, p) == (ea + eb) % p);
    assert(((sa + sb) + (ea + eb) % p) % p == ((sa + sb) + (ea + eb)) % p) by {
        lemma_add_mod_noop_right((sa + sb) as int, (ea + eb) as int, p as int);
    }
    assert(((sa + ea) % p + (sb + eb) % p) % p == ((sa + ea) + (sb + eb)) % p) by {
        lemma_add_mod_noop((sa + ea) as int, (sb + eb) as int, p as int);
    }
}

/// A product whose first factor was multiplied by `k` has `k` times its
/// value.
pub proof fn lemma_scaled_product(k: nat, a: LcView, a2: LcView, b: LcView, w: Seq<nat>, p: nat)
    requires
        p >= 2,
        a2.is_combination(k, a, lc_zero(), p),
    ensures
        (lc_eval(a2, w, p) * lc_eval(b, w, p)) % p == (k * (lc_eval(a, w, p) * lc_eval(b, w, p))) % p,
{
    let ea = lc_eval(a, w, p);
    let eb = lc_eval(b, w, p);
    law_combination_value(a2, k, a, lc_zero(), w, p);
    lemma_zero_eval(lc_zero(), w, p);
    assert(lc_eval(a2, w, p) == (k * ea) % p);
    lemma_mul_mod_noop_left((k * ea) as int, eb as int, p as int);
    assert((k * ea) * eb == k * (ea * eb)) by (nonlinear_arith);
}

/// The value of an expression whose products and rest were multiplied by
/// `k` is `k` times its value.
pub proof fn lemma_scale_value(
    k: nat,
    q: QuadView,
    products: Seq<(LcView, LcView)>,
    rest: LcView,
    w: Seq<nat>,
    p: nat,
)
    requires
        p >= 2,
        rest.is_combination(k, q.rest, lc_zero(), p),
        products_sum(products, w, p) % p == (k * products_sum(q.products, w, p)) % p,
    ensures
        quad_eval(QuadView { products, rest }, w, p) == (k * quad_eval(q, w, p)) % p,
{
    let s = products_sum(q.products, w, p);
    let s2 = products_sum(products, w, p);
    let e = lc_eval(q.rest, w, p);
    law_combination_value(rest, k, q.rest, lc_zero(), w, p);
    lemma_zero_eval(lc_zero(), w, p);
    assert(lc_eval(rest, w, p) == (k * e) % p);
    assert((s2 + (k * e) % p) % p == (k * s + k * e) % p) by {
        lemma_add_mod_noop(s2 as int, ((k * e) % p) as int, p as int);
        lemma_mod_twice((k * e) as int, p as int);
        lemma_add_mod_noop((k * s) as int, (k * e) as int, p as int);
    }
    assert(k * s + k * e == k * (s + e)) by (nonlinear_arith);
    lemma_mul_mod_noop_right(k as int, (s + e) as int, p as int);
}

/// In the field, `x + (p - 1) * y` is zero exactly if `x` and `y` are the
/// same element.
pub proof fn lemma_difference_zero(x: nat, y: nat, p: nat)
    requires
        p >= 2,
        x < p,
        y < p,
    ensures
        (x + ((p - 1) as nat) * y) % p == 0 <==> x == y,
{
    let k = (p - 1) as nat;
    assert(x + k * y == p * y + (x - y)) by (nonlinear_arith)
        requires
            k == p - 1,
    ;
    lemma_mod_multiples_vanish(y as int, x - y, p as int);
    assert((x + k * y) % p == (x - y) % (p as int));
    if x >= y {
        lemma_small_mod((x - y) as nat, p);
    } else {
        lemma_mod_add_multiples_vanish(x - y, p as int);
        lemma_small_mod((x - y + p) as nat, p);
    }
}

} // verus!
