//! Quadratic forms `A * B + C = 0`, the shape in which constraints are kept.

use vstd::prelude::*;
use crate::field::Field;
use crate::lc::lc_zero;
use crate::lc::LcView;
use crate::lc::LinearCombination;
use crate::bigint::U256;
use crate::value::quad_of;
use crate::value::value_degree;
use crate::value::value_sub;
use crate::value::AlgebraError;
use crate::value::QuadraticExpr;
use crate::value::Value;
use crate::value::ValueView;
use crate::lc::lc_eval;
use crate::lc::lemma_zero_eval;
use crate::valuation::lemma_difference_zero;
use crate::valuation::products_sum;
use crate::valuation::value_eval;
use vstd::arithmetic::div_mod::*;

verus! {

/// The polynomial constraint `a * b + c = 0`.
#[derive(Debug)]
pub struct QuadraticForm {
    pub a: LinearCombination,
    pub b: LinearCombination,
    pub c: LinearCombination,
}

/// A quadratic form as contracts see it.
pub struct FormView {
    pub a: LcView,
    pub b: LcView,
    pub c: LcView,
}

impl View for QuadraticForm {
    type V = FormView;

    open spec fn view(&self) -> FormView {
        FormView { a: self.a@, b: self.b@, c: self.c@ }
    }
}

impl FormView {
    /// Whether the three parts are canonical over the field modulo `p`, and
    /// `a` and `b` are both zero or both not.
    pub open spec fn wf(self, p: nat) -> bool {
        &&& self.a.wf(p)
        &&& self.b.wf(p)
        &&& self.c.wf(p)
        &&& self.a.is_zero() <==> self.b.is_zero()
    }

    /// Whether the form names no signal at or above `n`.
    pub open spec fn within(self, n: nat) -> bool {
        self.a.within(n) && self.b.within(n) && self.c.within(n)
    }

    /// Whether the form is linear: `a` and `b` are zero.
    pub open spec fn is_linear(self) -> bool {
        self.a.is_zero() && self.b.is_zero()
    }
}

/// Whether the assignment `w` satisfies `a * b + c = 0`.
pub open spec fn form_holds(f: FormView, w: Seq<nat>, p: nat) -> bool {
    (lc_eval(f.a, w, p) * lc_eval(f.b, w, p) + lc_eval(f.c, w, p)) % p == 0
}

/// The constraint that states `lhs = rhs`.
///
/// Where `lhs - rhs` has degree one at most, it is `(0, 0, lhs - rhs)`.
/// Where `lhs` holds a single product `u * v` and `rhs` has degree one at
/// most, it is `(u, v, rest)` with `rest` the linear part of `lhs - rhs`.
/// No other equation has a constraint.
pub open spec fn constraint_of(lhs: ValueView, rhs: ValueView, p: nat) -> Result<FormView, AlgebraError> {
    let d = value_sub(lhs, rhs, p);
    if value_degree(d) <= 1 {
        Ok(FormView { a: lc_zero(), b: lc_zero(), c: quad_of(d).rest })
    } else if quad_of(d).products.len() == 1 && value_degree(rhs) <= 1 {
        Ok(FormView { a: quad_of(d).products[0].0, b: quad_of(d).products[0].1, c: quad_of(d).rest })
    } else {
        Err(AlgebraError::NonQuadraticConstraint)
    }
}

impl Clone for QuadraticForm {
    fn clone(&self) -> (r: Self)
        ensures
            r@ == self@,
    {
        QuadraticForm { a: self.a.clone(), b: self.b.clone(), c: self.c.clone() }
    }
}

/// The constraint that states `lhs = rhs`, where there is one: the
/// assignments that satisfy it are those under which both sides have the
/// same value.
pub fn make_constraint(lhs: &Value, rhs: &Value, field: &Field) -> (r: Result<QuadraticForm, AlgebraError>)
    requires
        lhs@.wf(field.p()),
        rhs@.wf(field.p()),
    ensures
        match r {
            Ok(q) => {
                &&& constraint_of(lhs@, rhs@, field.p()) == Ok::<FormView, AlgebraError>(q@)
                &&& q@.wf(field.p())
                &&& forall|w: Seq<nat>| #[trigger]
                    form_holds(q@, w, field.p()) <==> value_eval(lhs@, w, field.p()) == value_eval(
                        rhs@,
                        w,
                        field.p(),
                    )
            },
            Err(e) => constraint_of(lhs@, rhs@, field.p()) == Err::<FormView, AlgebraError>(e),
        },
{
    let ghost p = field.p();
    proof {
        use_type_invariant(field);
        field.lemma_valid();
    }
    let d = lhs.sub(rhs, field);
    let ghost dv = d@;
    proof {
        assert forall|w: Seq<nat>| #[trigger]
            value_eval(dv, w, p) == 0 <==> value_eval(lhs@, w, p) == value_eval(rhs@, w, p) by {
            let x = value_eval(lhs@, w, p);
            let y = value_eval(rhs@, w, p);
            lemma_mod_bound(
                (products_sum(quad_of(lhs@).products, w, p) + lc_eval(quad_of(lhs@).rest, w, p)) as int,
                p as int,
            );
            lemma_mod_bound(
                (products_sum(quad_of(rhs@).products, w, p) + lc_eval(quad_of(rhs@).rest, w, p)) as int,
                p as int,
            );
            lemma_difference_zero(x, y, p);
        }
    }
    let simple = rhs.degree() <= 1;
    match d {
        Value::Quadratic(q) => {
            if q.products.len() == 1 && simple {
                let QuadraticExpr { products, rest } = q;
                let mut products = products;
                let ghost before = products@;
                match products.pop() {
                    Some(pair) => {
                        let f = QuadraticForm { a: pair.0, b: pair.1, c: rest };
                        proof {
                            assert(q@.products[0] == (before[0].0@, before[0].1@));
                            assert forall|w: Seq<nat>| #[trigger]
                                form_holds(f@, w, p) <==> value_eval(lhs@, w, p) == value_eval(rhs@, w, p) by {
                                reveal_with_fuel(products_sum, 2);
                                assert(q@.products.drop_last() =~= Seq::empty());
                                assert(products_sum(q@.products, w, p) == lc_eval(f@.a, w, p) * lc_eval(
                                    f@.b,
                                    w,
                                    p,
                                ));
                                assert(value_eval(dv, w, p) == 0 <==> value_eval(lhs@, w, p) == value_eval(
                                    rhs@,
                                    w,
                                    p,
                                ));
                            }
                        }
                        Ok(f)
                    },
                    None => Err(AlgebraError::NonQuadraticConstraint),
                }
            } else {
                Err(AlgebraError::NonQuadraticConstraint)
            }
        },
        other => {
            let c = other.to_quadratic(field).rest;
            let f = QuadraticForm {
                a: LinearCombination::from_constant(U256::zero()),
                b: LinearCombination::from_constant(U256::zero()),
                c,
            };
            proof {
                assert(quad_of(dv).products.len() == 0);
                assert forall|w: Seq<nat>| #[trigger]
                    form_holds(f@, w, p) <==> value_eval(lhs@, w, p) == value_eval(rhs@, w, p) by {
                    lemma_zero_eval(f@.a, w, p);
                    lemma_zero_eval(f@.b, w, p);
                    assert(0 * 0 == 0);
                    assert(products_sum(quad_of(dv).products, w, p) == 0);
                    assert(value_eval(dv, w, p) == 0 <==> value_eval(lhs@, w, p) == value_eval(rhs@, w, p));
                }
            }
            Ok(f)
        },
    }
}

} // verus!
