//! Symbolic values of degree at most two, and their arithmetic.

use vstd::prelude::*;
use crate::bigint::U256;
use crate::field::fermat_inverse;
use crate::field::Field;
use crate::lc::lc_add;
use crate::lc::lemma_coeff_at;
use crate::lc::lc_scale;
use crate::lc::lc_zero;
use crate::lc::LcView;
use crate::lc::LinearCombination;
use crate::lc::Term;
use crate::valuation::lemma_add_value;
use crate::valuation::lemma_quad_of_normalized;
use crate::valuation::lemma_scale_value;
use crate::valuation::lemma_scaled_product;
use crate::valuation::products_sum;
use crate::valuation::value_eval;
use crate::lc::lc_eval;
use crate::lc::lemma_zero_eval;
use vstd::arithmetic::div_mod::*;

verus! {

/// Why an operation on values has no result.
#[derive(Clone, Copy, Debug, PartialEq, Eq, Structural)]
pub enum AlgebraError {
    /// The result would have a degree above two.
    NonQuadratic,
    /// The divisor is no field constant.
    NonConstantDivisor,
    /// The divisor has no inverse.
    DivisionByZero,
    /// The constraint has degree two and no single product on its left side.
    NonQuadraticConstraint,
}

/// A sum of products of linear combinations plus a linear rest.
#[derive(Debug)]
pub struct QuadraticExpr {
    pub products: Vec<(LinearCombination, LinearCombination)>,
    pub rest: LinearCombination,
}

/// What an algebraic expression evaluates to.
#[derive(Debug)]
pub enum Value {
    FieldConst(U256),
    Signal(u64),
    Linear(LinearCombination),
    Quadratic(QuadraticExpr),
}

/// A quadratic expression as contracts see it.
pub struct QuadView {
    pub products: Seq<(LcView, LcView)>,
    pub rest: LcView,
}

/// A value as contracts see it.
pub enum ValueView {
    FieldConst(U256),
    Signal(u64),
    Linear(LcView),
    Quadratic(QuadView),
}

/// The products of a quadratic expression, each factor by its view.
pub open spec fn products_view(v: Seq<(LinearCombination, LinearCombination)>) -> Seq<(LcView, LcView)> {
    Seq::new(v.len(), |i: int| (v[i].0@, v[i].1@))
}

impl View for QuadraticExpr {
    type V = QuadView;

    open spec fn view(&self) -> QuadView {
        QuadView { products: products_view(self.products@), rest: self.rest@ }
    }
}

impl View for Value {
    type V = ValueView;

    open spec fn view(&self) -> ValueView {
        match self {
            Value::FieldConst(c) => ValueView::FieldConst(*c),
            Value::Signal(id) => ValueView::Signal(*id),
            Value::Linear(l) => ValueView::Linear(l@),
            Value::Quadratic(q) => ValueView::Quadratic(q@),
        }
    }
}

/// The values of a vector, each by its view.
pub open spec fn values_view(v: Seq<Value>) -> Seq<ValueView> {
    Seq::new(v.len(), |i: int| v[i]@)
}

/// The combination that is the signal `id` alone.
pub open spec fn lc_signal(id: u64) -> LcView {
    LcView {
        terms: seq![Term { signal: id, coeff: U256 { l0: 1, l1: 0, l2: 0, l3: 0 } }],
        constant: U256 { l0: 0, l1: 0, l2: 0, l3: 0 },
    }
}

/// The combination that is the constant `c`.
pub open spec fn lc_constant(c: U256) -> LcView {
    LcView { terms: Seq::empty(), constant: c }
}

/// The value of least degree that stands for the combination `l`.
pub open spec fn normalize_lc(l: LcView) -> ValueView {
    if l.terms.len() == 0 {
        ValueView::FieldConst(l.constant)
    } else if l.terms.len() == 1 && l.terms[0].coeff@ == 1 && l.constant@ == 0 {
        ValueView::Signal(l.terms[0].signal)
    } else {
        ValueView::Linear(l)
    }
}

/// The value of least degree that stands for the expression `q`.
pub open spec fn normalize_quad(q: QuadView) -> ValueView {
    if q.products.len() == 0 {
        normalize_lc(q.rest)
    } else {
        ValueView::Quadratic(q)
    }
}

/// The value as a quadratic expression.
pub open spec fn quad_of(v: ValueView) -> QuadView {
    match v {
        ValueView::FieldConst(c) => QuadView { products: Seq::empty(), rest: lc_constant(c) },
        ValueView::Signal(id) => QuadView { products: Seq::empty(), rest: lc_signal(id) },
        ValueView::Linear(l) => QuadView { products: Seq::empty(), rest: l },
        ValueView::Quadratic(q) => q,
    }
}

/// The degree of the value: 0 for a constant, 1 for a signal or a linear
/// combination, 2 for a quadratic expression.
pub open spec fn value_degree(v: ValueView) -> nat {
    match v {
        ValueView::FieldConst(_) => 0,
        ValueView::Signal(_) => 1,
        ValueView::Linear(_) => 1,
        ValueView::Quadratic(_) => 2,
    }
}

/// Every factor is canonical and none is zero.
pub open spec fn products_wf(ps: Seq<(LcView, LcView)>, p: nat) -> bool {
    forall|i: int|
        0 <= i < ps.len() ==> {
            &&& (#[trigger] ps[i]).0.wf(p)
            &&& ps[i].1.wf(p)
            &&& !ps[i].0.is_zero()
            &&& !ps[i].1.is_zero()
        }
}

impl QuadView {
    /// Whether all parts are canonical over the field modulo `p` and no
    /// product has a zero factor.
    pub open spec fn wf(self, p: nat) -> bool {
        products_wf(self.products, p) && self.rest.wf(p)
    }
}

impl ValueView {
    /// Whether the value is canonical over the field modulo `p` and has the
    /// least tag that can hold it.
    pub open spec fn wf(self, p: nat) -> bool {
        match self {
            ValueView::FieldConst(c) => c@ < p,
            ValueView::Signal(_) => true,
            ValueView::Linear(l) => l.wf(p) && normalize_lc(l) == self,
            ValueView::Quadratic(q) => q.wf(p) && q.products.len() > 0,
        }
    }
}

/// The products `ps` with each first factor multiplied by `k`, without those
/// that vanish.
pub open spec fn scale_products(k: nat, ps: Seq<(LcView, LcView)>, p: nat) -> Seq<(LcView, LcView)>
    decreases ps.len(),
{
    if ps.len() == 0 {
        Seq::empty()
    } else {
        let head = scale_products(k, ps.drop_last(), p);
        let a = lc_scale(k, ps.last().0, p);
        if a.is_zero() {
            head
        } else {
            head.push((a, ps.last().1))
        }
    }
}

/// The sum of two values.
pub open spec fn value_add(a: ValueView, b: ValueView, p: nat) -> ValueView {
    normalize_quad(
        QuadView {
            products: quad_of(a).products + quad_of(b).products,
            rest: lc_add(quad_of(a).rest, quad_of(b).rest, p),
        },
    )
}

/// The product of a value and the constant `k`.
pub open spec fn value_scale(k: nat, v: ValueView, p: nat) -> ValueView {
    normalize_quad(
        QuadView {
            products: scale_products(k, quad_of(v).products, p),
            rest: lc_scale(k, quad_of(v).rest, p),
        },
    )
}

/// The additive inverse of a value.
pub open spec fn value_neg(v: ValueView, p: nat) -> ValueView {
    value_scale((p - 1) as nat, v, p)
}

/// The difference of two values.
pub open spec fn value_sub(a: ValueView, b: ValueView, p: nat) -> ValueView {
    value_add(a, value_neg(b, p), p)
}

/// The product of two values, where its degree is at most two.
pub open spec fn value_mul(a: ValueView, b: ValueView, p: nat) -> Result<ValueView, AlgebraError> {
    match (a, b) {
        (ValueView::FieldConst(c), _) => Ok(value_scale(c@, b, p)),
        (_, ValueView::FieldConst(c)) => Ok(value_scale(c@, a, p)),
        _ => if value_degree(a) == 1 && value_degree(b) == 1 {
            Ok(
                ValueView::Quadratic(
                    QuadView { products: seq![(quad_of(a).rest, quad_of(b).rest)], rest: lc_zero() },
                ),
            )
        } else {
            Err(AlgebraError::NonQuadratic)
        },
    }
}

/// The quotient of a value and a field constant that has an inverse.
pub open spec fn value_div(a: ValueView, b: ValueView, p: nat) -> Result<ValueView, AlgebraError> {
    match b {
        ValueView::FieldConst(c) => if (c@ * fermat_inverse(c@, p)) % p == 1 {
            Ok(value_scale(fermat_inverse(c@, p), a, p))
        } else {
            Err(AlgebraError::DivisionByZero)
        },
        _ => Err(AlgebraError::NonConstantDivisor),
    }
}

/// The value of a field constant is the constant.
pub proof fn lemma_constant_value(c: U256, w: Seq<nat>, p: nat)
    requires
        c@ < p,
    ensures
        value_eval(ValueView::FieldConst(c), w, p) == c@,
{
    let l = lc_constant(c);
    crate::lc::lemma_zero_sum(l, w, w.len());
    lemma_small_mod(c@, p);
}

/// Scaling drops products and adds none.
pub proof fn lemma_scale_products_len(k: nat, ps: Seq<(LcView, LcView)>, p: nat)
    ensures
        scale_products(k, ps, p).len() <= ps.len(),
    decreases ps.len(),
{
    if ps.len() > 0 {
        lemma_scale_products_len(k, ps.drop_last(), p);
    }
}

/// A canonical combination of two combinations without terms has no terms.
pub proof fn lemma_combination_of_constants(r: LcView, k: nat, a: LcView, b: LcView, p: nat)
    requires
        r.is_combination(k, a, b, p),
        a.terms.len() == 0,
        b.terms.len() == 0,
        p >= 2,
    ensures
        r.terms.len() == 0,
{
    if r.terms.len() > 0 {
        lemma_coeff_at(r.terms, 0);
        let id = r.terms[0].signal as nat;
        assert(r.coeff(id) == (k * a.coeff(id) + b.coeff(id)) % p);
        assert(k * 0 == 0);
        vstd::arithmetic::div_mod::lemma_small_mod(0, p);
        assert(r.terms[0].coeff@ > 0);
    }
}

/// Appending a product appends its view.
pub proof fn lemma_products_push(v: Seq<(LinearCombination, LinearCombination)>, x: (LinearCombination, LinearCombination))
    ensures
        products_view(v.push(x)) == products_view(v).push((x.0@, x.1@)),
{
    assert(products_view(v.push(x)) =~= products_view(v).push((x.0@, x.1@)));
}

impl Clone for QuadraticExpr {
    fn clone(&self) -> (r: Self)
        ensures
            r@ == self@,
    {
        let mut products: Vec<(LinearCombination, LinearCombination)> = Vec::new();
        let mut i: usize = 0;
        while i < self.products.len()
            invariant
                i <= self.products.len(),
                products_view(products@) == products_view(self.products@.subrange(0, i as int)),
            decreases self.products.len() - i,
        {
            let pair = (self.products[i].0.clone(), self.products[i].1.clone());
            proof {
                lemma_products_push(products@, pair);
                lemma_products_push(self.products@.subrange(0, i as int), self.products@[i as int]);
                assert(self.products@.subrange(0, i as int + 1) =~= self.products@.subrange(0, i as int).push(
                    self.products@[i as int],
                ));
            }
            products.push(pair);
            i += 1;
        }
        proof {
            assert(self.products@.subrange(0, self.products.len() as int) =~= self.products@);
        }
        QuadraticExpr { products, rest: self.rest.clone() }
    }
}

impl Clone for Value {
    fn clone(&self) -> (r: Self)
        ensures
            r@ == self@,
    {
        match self {
            Value::FieldConst(c) => Value::FieldConst(*c),
            Value::Signal(id) => Value::Signal(*id),
            Value::Linear(l) => Value::Linear(l.clone()),
            Value::Quadratic(q) => Value::Quadratic(q.clone()),
        }
    }
}

impl LinearCombination {
    /// The value of least degree that stands for the combination.
    pub fn normalize(self) -> (r: Value)
        ensures
            r@ == normalize_lc(self@),
            forall|p: nat| self@.wf(p) ==> r@.wf(p),
    {
        if self.terms.len() == 0 {
            Value::FieldConst(self.constant)
        } else if self.terms.len() == 1 && self.terms[0].coeff.equals(&U256::one()) && self.constant.is_zero() {
            Value::Signal(self.terms[0].signal)
        } else {
            Value::Linear(self)
        }
    }
}

impl QuadraticExpr {
    /// The value of least degree that stands for the expression.
    pub fn normalize(self) -> (r: Value)
        ensures
            r@ == normalize_quad(self@),
            forall|p: nat| self@.wf(p) ==> r@.wf(p),
    {
        if self.products.len() == 0 {
            self.rest.normalize()
        } else {
            Value::Quadratic(self)
        }
    }

    /// The expression with every product and the rest multiplied by `k`.
    pub fn scale(&self, k: &U256, field: &Field) -> (r: Self)
        requires
            self@.wf(field.p()),
            field.contains(*k),
        ensures
            r@.products == scale_products(k@, self@.products, field.p()),
            r@.rest == lc_scale(k@, self@.rest, field.p()),
            r@.rest.is_combination(k@, self@.rest, lc_zero(), field.p()),
            r@.wf(field.p()),
            forall|w: Seq<nat>| #[trigger]
                products_sum(r@.products, w, field.p()) % field.p() == (k@ * products_sum(
                    self@.products,
                    w,
                    field.p(),
                )) % field.p(),
    {
        let ghost p = field.p();
        let ghost ps = self@.products;
        let mut products: Vec<(LinearCombination, LinearCombination)> = Vec::new();
        let mut i: usize = 0;
        proof {
            use_type_invariant(field);
            field.lemma_valid();
            assert(ps.subrange(0, 0) =~= Seq::empty());
            assert(products_view(products@) =~= Seq::empty());
            assert(k@ * 0 == 0);
        }
        while i < self.products.len()
            invariant
                i <= self.products.len(),
                p == field.p(),
                p >= 2,
                ps == self@.products,
                self@.wf(p),
                field.contains(*k),
                products_view(products@) == scale_products(k@, ps.subrange(0, i as int), p),
                products_wf(products_view(products@), p),
                forall|w: Seq<nat>| #[trigger]
                    products_sum(products_view(products@), w, p) % p == (k@ * products_sum(
                        ps.subrange(0, i as int),
                        w,
                        p,
                    )) % p,
            decreases self.products.len() - i,
        {
            let ghost before = products_view(products@);
            let ghost head = ps.subrange(0, i as int);
            let ghost next = ps.subrange(0, i as int + 1);
            proof {
                assert(ps.subrange(0, i as int + 1).drop_last() =~= ps.subrange(0, i as int));
                assert(ps[i as int] == (self.products@[i as int].0@, self.products@[i as int].1@));
                assert(ps[i as int].0.wf(p));
                assert(ps[i as int].1.wf(p) && !ps[i as int].1.is_zero());
            }
            let a = self.products[i].0.scale(k, field);
            let ghost a2 = a@;
            let ghost zero = a@.is_zero();
            if !a.is_zero() {
                let pair = (a, self.products[i].1.clone());
                proof {
                    lemma_products_push(products@, pair);
                    let after = before.push((pair.0@, pair.1@));
                    assert forall|x: int| 0 <= x < after.len() implies {
                        &&& (#[trigger] after[x]).0.wf(p)
                        &&& after[x].1.wf(p)
                        &&& !after[x].0.is_zero()
                        &&& !after[x].1.is_zero()
                    } by {
                        if x < before.len() {
                            assert(after[x] == before[x]);
                        }
                    }
                }
                products.push(pair);
            }
            proof {
                let now = products_view(products@);
                let fa = ps[i as int].0;
                let fb = ps[i as int].1;
                assert(next.drop_last() =~= head);
                assert(next.last() == ps[i as int]);
                assert forall|w: Seq<nat>| #[trigger]
                    products_sum(now, w, p) % p == (k@ * products_sum(next, w, p)) % p by {
                    let s0 = products_sum(before, w, p);
                    let t0 = products_sum(head, w, p);
                    let ea = lc_eval(fa, w, p);
                    let eb = lc_eval(fb, w, p);
                    let e2 = lc_eval(a2, w, p);
                    assert(s0 % p == (k@ * t0) % p);
                    lemma_scaled_product(k@, fa, a2, fb, w, p);
                    assert(products_sum(next, w, p) == t0 + ea * eb);
                    assert(k@ * (t0 + ea * eb) == k@ * t0 + k@ * (ea * eb)) by (nonlinear_arith);
                    lemma_add_mod_noop((k@ * t0) as int, (k@ * (ea * eb)) as int, p as int);
                    if zero {
                        lemma_zero_eval(a2, w, p);
                        assert(e2 * eb == 0) by (nonlinear_arith)
                            requires
                                e2 == 0,
                        ;
                        lemma_small_mod(0, p);
                        lemma_add_mod_noop(s0 as int, 0, p as int);
                        lemma_mod_twice(s0 as int, p as int);
                    } else {
                        assert(now.drop_last() =~= before);
                        assert(now.last() == (a2, fb));
                        assert(products_sum(now, w, p) == s0 + e2 * eb);
                        lemma_add_mod_noop(s0 as int, (e2 * eb) as int, p as int);
                    }
                }
            }
            i += 1;
        }
        proof {
            assert(ps.subrange(0, self.products.len() as int) =~= ps);
        }
        QuadraticExpr { products, rest: self.rest.scale(k, field) }
    }
}

impl Value {
    /// The degree of the value.
    pub fn degree(&self) -> (r: u8)
        ensures
            r == value_degree(self@),
    {
        match self {
            Value::FieldConst(_) => 0,
            Value::Signal(_) => 1,
            Value::Linear(_) => 1,
            Value::Quadratic(_) => 2,
        }
    }

    /// The value as a quadratic expression.
    pub fn to_quadratic(&self, field: &Field) -> (r: QuadraticExpr)
        ensures
            r@ == quad_of(self@),
            self@.wf(field.p()) ==> r@.wf(field.p()),
    {
        match self {
            Value::FieldConst(c) => {
                let r = QuadraticExpr { products: Vec::new(), rest: LinearCombination::from_constant(*c) };
                proof {
                    assert(r@.products =~= Seq::empty());
                }
                r
            },
            Value::Signal(id) => {
                let r = QuadraticExpr { products: Vec::new(), rest: LinearCombination::from_signal(*id, field) };
                proof {
                    assert(r@.products =~= Seq::empty());
                }
                r
            },
            Value::Linear(l) => {
                let r = QuadraticExpr { products: Vec::new(), rest: l.clone() };
                proof {
                    assert(r@.products =~= Seq::empty());
                }
                r
            },
            Value::Quadratic(q) => q.clone(),
        }
    }

    /// The sum of two values; its degree is the larger of theirs at most.
    pub fn add(&self, other: &Value, field: &Field) -> (r: Value)
        requires
            self@.wf(field.p()),
            other@.wf(field.p()),
        ensures
            r@ == value_add(self@, other@, field.p()),
            r@.wf(field.p()),
            value_degree(r@) <= value_degree(self@) || value_degree(r@) <= value_degree(other@),
            forall|w: Seq<nat>| #[trigger]
                value_eval(r@, w, field.p()) == (value_eval(self@, w, field.p()) + value_eval(
                    other@,
                    w,
                    field.p(),
                )) % field.p(),
    {
        let ghost p = field.p();
        proof {
            use_type_invariant(field);
            field.lemma_valid();
        }
        let qa = self.to_quadratic(field);
        let qb = other.to_quadratic(field);
        let rest = qa.rest.add(&qb.rest, field);
        let mut products = qa.products;
        let mut more = qb.products;
        let ghost pa = products@;
        let ghost pb = more@;
        products.append(&mut more);
        let q = QuadraticExpr { products, rest };
        proof {
            if self@ is FieldConst && other@ is FieldConst {
                lemma_combination_of_constants(rest@, 1, quad_of(self@).rest, quad_of(other@).rest, p);
            }
            assert(q@.products =~= quad_of(self@).products + quad_of(other@).products);
            assert forall|x: int| 0 <= x < q@.products.len() implies {
                &&& (#[trigger] q@.products[x]).0.wf(p)
                &&& q@.products[x].1.wf(p)
                &&& !q@.products[x].0.is_zero()
                &&& !q@.products[x].1.is_zero()
            } by {
                if x < pa.len() {
                    assert(q@.products[x] == quad_of(self@).products[x]);
                } else {
                    assert(q@.products[x] == quad_of(other@).products[x - pa.len()]);
                }
            }
        }
        let r = q.normalize();
        proof {
            lemma_quad_of_normalized(q@);
            assert forall|w: Seq<nat>| #[trigger]
                value_eval(r@, w, p) == (value_eval(self@, w, p) + value_eval(other@, w, p)) % p by {
                lemma_add_value(quad_of(self@), quad_of(other@), q@.rest, w, p);
            }
        }
        r
    }

    /// The product of the value and the constant `k`.
    pub fn scale(&self, k: &U256, field: &Field) -> (r: Value)
        requires
            self@.wf(field.p()),
            field.contains(*k),
        ensures
            r@ == value_scale(k@, self@, field.p()),
            r@.wf(field.p()),
            value_degree(r@) <= value_degree(self@),
            forall|w: Seq<nat>| #[trigger]
                value_eval(r@, w, field.p()) == (k@ * value_eval(self@, w, field.p())) % field.p(),
    {
        let ghost p = field.p();
        let q = self.to_quadratic(field);
        let s = q.scale(k, field);
        proof {
            use_type_invariant(field);
            field.lemma_valid();
            lemma_scale_products_len(k@, q@.products, field.p());
            if self@ is FieldConst {
                lemma_combination_of_constants(s@.rest, k@, q@.rest, lc_zero(), field.p());
            }
        }
        let r = s.normalize();
        proof {
            lemma_quad_of_normalized(s@);
            assert forall|w: Seq<nat>| #[trigger] value_eval(r@, w, p) == (k@ * value_eval(self@, w, p)) % p by {
                assert(products_sum(s@.products, w, p) % p == (k@ * products_sum(q@.products, w, p)) % p);
                lemma_scale_value(k@, q@, s@.products, s@.rest, w, p);
            }
        }
        r
    }

    /// The additive inverse of the value.
    pub fn neg(&self, field: &Field) -> (r: Value)
        requires
            self@.wf(field.p()),
        ensures
            r@ == value_neg(self@, field.p()),
            r@.wf(field.p()),
            value_degree(r@) <= value_degree(self@),
            forall|w: Seq<nat>| #[trigger]
                value_eval(r@, w, field.p()) == (((field.p() - 1) as nat) * value_eval(self@, w, field.p()))
                    % field.p(),
    {
        let m = field.modulus();
        let (k, _) = m.overflowing_sub(&U256::one());
        self.scale(&k, field)
    }

    /// The difference of two values.
    pub fn sub(&self, other: &Value, field: &Field) -> (r: Value)
        requires
            self@.wf(field.p()),
            other@.wf(field.p()),
        ensures
            r@ == value_sub(self@, other@, field.p()),
            r@.wf(field.p()),
            value_degree(r@) <= value_degree(self@) || value_degree(r@) <= value_degree(other@),
            forall|w: Seq<nat>| #[trigger]
                value_eval(r@, w, field.p()) == (value_eval(self@, w, field.p()) + ((field.p() - 1) as nat)
                    * value_eval(other@, w, field.p())) % field.p(),
    {
        let ghost p = field.p();
        let n = other.neg(field);
        let r = self.add(&n, field);
        proof {
            use_type_invariant(field);
            field.lemma_valid();
            assert forall|w: Seq<nat>| #[trigger]
                value_eval(r@, w, p) == (value_eval(self@, w, p) + ((p - 1) as nat) * value_eval(other@, w, p))
                    % p by {
                let x = value_eval(self@, w, p);
                let y = value_eval(other@, w, p);
                let k = (p - 1) as nat;
                assert(value_eval(n@, w, p) == (k * y) % p);
                assert(value_eval(r@, w, p) == (x + value_eval(n@, w, p)) % p);
                lemma_add_mod_noop_right(x as int, (k * y) as int, p as int);
            }
        }
        r
    }

    /// The product of two values, unless its degree would exceed two.
    pub fn mul(&self, other: &Value, field: &Field) -> (r: Result<Value, AlgebraError>)
        requires
            self@.wf(field.p()),
            other@.wf(field.p()),
        ensures
            match r {
                Ok(v) => {
                    &&& value_mul(self@, other@, field.p()) == Ok::<ValueView, AlgebraError>(v@)
                    &&& v@.wf(field.p())
                    &&& forall|w: Seq<nat>| #[trigger]
                        value_eval(v@, w, field.p()) == (value_eval(self@, w, field.p()) * value_eval(
                            other@,
                            w,
                            field.p(),
                        )) % field.p()
                },
                Err(e) => value_mul(self@, other@, field.p()) == Err::<ValueView, AlgebraError>(e),
            },
            r is Err <==> value_degree(self@) + value_degree(other@) > 2,
    {
        let ghost p = field.p();
        proof {
            use_type_invariant(field);
            field.lemma_valid();
        }
        match self {
            Value::FieldConst(c) => {
                let v = other.scale(c, field);
                proof {
                    assert forall|w: Seq<nat>| #[trigger]
                        value_eval(v@, w, p) == (value_eval(self@, w, p) * value_eval(other@, w, p)) % p by {
                        lemma_constant_value(*c, w, p);
                    }
                }
                Ok(v)
            },
            _ => match other {
                Value::FieldConst(c) => {
                    let v = self.scale(c, field);
                    proof {
                        assert forall|w: Seq<nat>| #[trigger]
                            value_eval(v@, w, p) == (value_eval(self@, w, p) * value_eval(other@, w, p))
                                % p by {
                            lemma_constant_value(*c, w, p);
                            assert(c@ * value_eval(self@, w, p) == value_eval(self@, w, p) * c@)
                                by (nonlinear_arith);
                        }
                    }
                    Ok(v)
                },
                _ => {
                    if self.degree() == 1 && other.degree() == 1 {
                        let a = self.to_quadratic(field).rest;
                        let b = other.to_quadratic(field).rest;
                        let mut products: Vec<(LinearCombination, LinearCombination)> = Vec::new();
                        products.push((a, b));
                        let q = QuadraticExpr {
                            products,
                            rest: LinearCombination::from_constant(U256::zero()),
                        };
                        proof {
                            assert(q@.products =~= seq![(quad_of(self@).rest, quad_of(other@).rest)]);
                            assert(quad_of(self@).products.len() == 0);
                            assert(quad_of(other@).products.len() == 0);
                            assert forall|w: Seq<nat>| #[trigger]
                                value_eval(ValueView::Quadratic(q@), w, p) == (value_eval(self@, w, p)
                                    * value_eval(other@, w, p)) % p by {
                                let ea = lc_eval(quad_of(self@).rest, w, p);
                                let eb = lc_eval(quad_of(other@).rest, w, p);
                                reveal_with_fuel(products_sum, 2);
                                assert(q@.products.drop_last() =~= Seq::empty());
                                assert(products_sum(q@.products, w, p) == ea * eb);
                                lemma_zero_eval(q@.rest, w, p);
                                lemma_mod_twice(
                                    (crate::lc::weighted_sum(quad_of(self@).rest, w, w.len()) + quad_of(
                                        self@,
                                    ).rest.constant@) as int,
                                    p as int,
                                );
                                lemma_mod_twice(
                                    (crate::lc::weighted_sum(quad_of(other@).rest, w, w.len()) + quad_of(
                                        other@,
                                    ).rest.constant@) as int,
                                    p as int,
                                );
                                assert(value_eval(self@, w, p) == ea);
                                assert(value_eval(other@, w, p) == eb);
                            }
                        }
                        Ok(Value::Quadratic(q))
                    } else {
                        Err(AlgebraError::NonQuadratic)
                    }
                },
            },
        }
    }

    /// The quotient of the value and a field constant.
    pub fn div(&self, other: &Value, field: &Field) -> (r: Result<Value, AlgebraError>)
        requires
            self@.wf(field.p()),
            other@.wf(field.p()),
        ensures
            match r {
                Ok(v) => {
                    &&& value_div(self@, other@, field.p()) == Ok::<ValueView, AlgebraError>(v@)
                    &&& v@.wf(field.p())
                    &&& forall|w: Seq<nat>| #[trigger]
                        (value_eval(v@, w, field.p()) * value_eval(other@, w, field.p())) % field.p()
                            == value_eval(self@, w, field.p())
                },
                Err(e) => value_div(self@, other@, field.p()) == Err::<ValueView, AlgebraError>(e),
            },
    {
        let ghost p = field.p();
        proof {
            use_type_invariant(field);
            field.lemma_valid();
        }
        match other {
            Value::FieldConst(c) => match field.inv(c) {
                Some(y) => {
                    let v = self.scale(&y, field);
                    proof {
                        assert forall|w: Seq<nat>| #[trigger]
                            (value_eval(v@, w, p) * value_eval(other@, w, p)) % p == value_eval(self@, w, p) by {
                            let x = value_eval(self@, w, p);
                            lemma_constant_value(*c, w, p);
                            assert(value_eval(v@, w, p) == (y@ * x) % p);
                            lemma_mul_mod_noop_left((y@ * x) as int, c@ as int, p as int);
                            assert((y@ * x) * c@ == x * (c@ * y@)) by (nonlinear_arith);
                            lemma_mul_mod_noop_right(x as int, (c@ * y@) as int, p as int);
                            assert(x * 1 == x);
                            lemma_mod_twice(
                                (products_sum(quad_of(self@).products, w, p) + lc_eval(
                                    quad_of(self@).rest,
                                    w,
                                    p,
                                )) as int,
                                p as int,
                            );
                        }
                    }
                    Ok(v)
                },
                None => Err(AlgebraError::DivisionByZero),
            },
            _ => Err(AlgebraError::NonConstantDivisor),
        }
    }

    /// Whether the value is canonical over `field` and has the least tag that
    /// can hold it.
    pub fn is_wf(&self, field: &Field) -> (r: bool)
        ensures
            r == self@.wf(field.p()),
    {
        match self {
            Value::FieldConst(c) => field.is_element(c),
            Value::Signal(_) => true,
            Value::Linear(l) => {
                if !l.is_wf(field) {
                    return false;
                }
                if l.terms.len() == 0 {
                    return false;
                }
                !(l.terms.len() == 1 && l.terms[0].coeff.equals(&U256::one()) && l.constant.is_zero())
            },
            Value::Quadratic(q) => {
                if q.products.len() == 0 || !q.rest.is_wf(field) {
                    return false;
                }
                let mut i: usize = 0;
                while i < q.products.len()
                    invariant
                        i <= q.products.len(),
                        self@ == ValueView::Quadratic(q@),
                        q@.products.len() > 0,
                        q@.rest.wf(field.p()),
                        forall|j: int|
                            0 <= j < i ==> {
                                &&& (#[trigger] q@.products[j]).0.wf(field.p())
                                &&& q@.products[j].1.wf(field.p())
                                &&& !q@.products[j].0.is_zero()
                                &&& !q@.products[j].1.is_zero()
                            },
                    decreases q.products.len() - i,
                {
                    let pair = &q.products[i];
                    proof {
                        assert(q@.products[i as int] == (pair.0@, pair.1@));
                    }
                    if !pair.0.is_wf(field) || !pair.1.is_wf(field) || pair.0.is_zero() || pair.1.is_zero() {
                        return false;
                    }
                    i += 1;
                }
                true
            },
        }
    }
}

} // verus!
