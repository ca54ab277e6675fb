//! Linear combinations of signals over the field.
//!
//! A combination is kept in canonical form: its terms are ordered by
//! ascending signal id, no signal occurs twice, and no coefficient is zero.

use vstd::prelude::*;
use vstd::arithmetic::div_mod::*;
use crate::bigint::U256;
use crate::field::Field;

verus! {

/// One weighted signal of a linear combination.
#[derive(Clone, Copy, Debug, PartialEq, Eq, Structural)]
pub struct Term {
    pub signal: u64,
    pub coeff: U256,
}

/// A weighted sum of signals plus a constant.
#[derive(Debug)]
pub struct LinearCombination {
    pub terms: Vec<Term>,
    pub constant: U256,
}

/// A linear combination as contracts see it.
pub struct LcView {
    pub terms: Seq<Term>,
    pub constant: U256,
}

impl View for LinearCombination {
    type V = LcView;

    open spec fn view(&self) -> LcView {
        LcView { terms: self.terms@, constant: self.constant }
    }
}

/// The coefficient that `ts` gives the signal `id`; zero where it has none.
pub open spec fn coeff_of(ts: Seq<Term>, id: nat) -> nat
    decreases ts.len(),
{
    if ts.len() == 0 {
        0
    } else if ts.last().signal == id {
        ts.last().coeff@
    } else {
        coeff_of(ts.drop_last(), id)
    }
}

/// The signals of `ts` ascend strictly.
pub open spec fn sorted(ts: Seq<Term>) -> bool {
    forall|i: int, j: int| 0 <= i < j < ts.len() ==> ts[i].signal < ts[j].signal
}

/// Every coefficient of `ts` is a non-zero element of the field modulo `p`.
pub open spec fn reduced(ts: Seq<Term>, p: nat) -> bool {
    forall|i: int| 0 <= i < ts.len() ==> 0 < (#[trigger] ts[i]).coeff@ < p
}

/// Every signal of `ts` is below `b`.
pub open spec fn below(ts: Seq<Term>, b: int) -> bool {
    forall|i: int| 0 <= i < ts.len() ==> (#[trigger] ts[i]).signal < b
}

/// A signal that no term names has the coefficient zero.
pub proof fn lemma_coeff_absent(ts: Seq<Term>, id: nat)
    requires
        forall|i: int| 0 <= i < ts.len() ==> (#[trigger] ts[i]).signal != id,
    ensures
        coeff_of(ts, id) == 0,
    decreases ts.len(),
{
    if ts.len() > 0 {
        let t = ts.drop_last();
        assert(ts.last() == ts[ts.len() - 1]);
        assert forall|i: int| 0 <= i < t.len() implies (#[trigger] t[i]).signal != id by {
            assert(t[i] == ts[i]);
        }
        lemma_coeff_absent(t, id);
    }
}

/// What a term appended to `ts` does to the coefficients.
pub proof fn lemma_coeff_push(ts: Seq<Term>, t: Term, id: nat)
    ensures
        coeff_of(ts.push(t), id) == (if t.signal == id {
            t.coeff@
        } else {
            coeff_of(ts, id)
        }),
{
    assert(ts.push(t).drop_last() =~= ts);
}

/// In ordered terms each signal has the coefficient of its own term.
pub proof fn lemma_coeff_at(ts: Seq<Term>, i: int)
    requires
        sorted(ts),
        0 <= i < ts.len(),
    ensures
        coeff_of(ts, ts[i].signal as nat) == ts[i].coeff@,
    decreases ts.len(),
{
    if i < ts.len() - 1 {
        let t = ts.drop_last();
        assert(ts.last() == ts[ts.len() - 1]);
        assert(t[i] == ts[i]);
        lemma_coeff_at(t, i);
    }
}

/// A coefficient is zero or that of some term.
pub proof fn lemma_coeff_witness(ts: Seq<Term>, id: nat)
    ensures
        coeff_of(ts, id) == 0 || exists|i: int|
            0 <= i < ts.len() && (#[trigger] ts[i]).signal == id && ts[i].coeff@ == coeff_of(ts, id),
    decreases ts.len(),
{
    if ts.len() > 0 {
        if ts.last().signal == id {
            assert(ts[ts.len() - 1].signal == id);
        } else {
            let t = ts.drop_last();
            lemma_coeff_witness(t, id);
            if coeff_of(t, id) != 0 {
                let i = choose|i: int|
                    0 <= i < t.len() && (#[trigger] t[i]).signal == id && t[i].coeff@ == coeff_of(t, id);
                assert(ts[i] == t[i]);
            }
        }
    }
}

/// Canonical terms are determined by their coefficients: two canonical
/// sequences that give every signal the same coefficient are equal.
pub proof fn lemma_canonical(a: Seq<Term>, b: Seq<Term>, p: nat)
    requires
        sorted(a),
        sorted(b),
        reduced(a, p),
        reduced(b, p),
        forall|id: nat| coeff_of(a, id) == coeff_of(b, id),
    ensures
        a == b,
    decreases a.len() + b.len(),
{
    if a.len() == 0 && b.len() == 0 {
        assert(a =~= b);
    } else if a.len() == 0 {
        lemma_coeff_at(b, 0);
        assert(coeff_of(a, b[0].signal as nat) == 0);
        assert(b[0].coeff@ > 0);
    } else if b.len() == 0 {
        lemma_coeff_at(a, 0);
        assert(coeff_of(b, a[0].signal as nat) == 0);
        assert(a[0].coeff@ > 0);
    } else {
        let x = a.last();
        let y = b.last();
        assert(x == a[a.len() - 1]);
        assert(y == b[b.len() - 1]);
        lemma_coeff_at(a, a.len() - 1);
        lemma_coeff_at(b, b.len() - 1);
        if x.signal != y.signal {
            // the larger of the two last signals is missing on the other side
            if x.signal > y.signal {
                assert forall|i: int| 0 <= i < b.len() implies (#[trigger] b[i]).signal != x.signal as nat by {
                    if i < b.len() - 1 {
                        assert(b[i].signal < b[b.len() - 1].signal);
                    }
                }
                lemma_coeff_absent(b, x.signal as nat);
            } else {
                assert forall|i: int| 0 <= i < a.len() implies (#[trigger] a[i]).signal != y.signal as nat by {
                    if i < a.len() - 1 {
                        assert(a[i].signal < a[a.len() - 1].signal);
                    }
                }
                lemma_coeff_absent(a, y.signal as nat);
            }
            assert(x.coeff@ > 0 && y.coeff@ > 0);
            assert(false);
        }
        crate::bigint::lemma_view_injective(x.coeff, y.coeff);
        let s = a.drop_last();
        let t = b.drop_last();
        assert forall|id: nat| coeff_of(s, id) == coeff_of(t, id) by {
            if id == x.signal as nat {
                assert forall|i: int| 0 <= i < s.len() implies (#[trigger] s[i]).signal != id by {
                    assert(s[i] == a[i]);
                    assert(a[i].signal < a[a.len() - 1].signal);
                }
                assert forall|i: int| 0 <= i < t.len() implies (#[trigger] t[i]).signal != id by {
                    assert(t[i] == b[i]);
                    assert(b[i].signal < b[b.len() - 1].signal);
                }
                lemma_coeff_absent(s, id);
                lemma_coeff_absent(t, id);
            } else {
                assert(coeff_of(a, id) == coeff_of(b, id));
            }
        }
        assert(sorted(s)) by {
            assert forall|i: int, j: int| 0 <= i < j < s.len() implies s[i].signal < s[j].signal by {
                assert(s[i] == a[i] && s[j] == a[j]);
            }
        }
        assert(sorted(t)) by {
            assert forall|i: int, j: int| 0 <= i < j < t.len() implies t[i].signal < t[j].signal by {
                assert(t[i] == b[i] && t[j] == b[j]);
            }
        }
        assert(reduced(s, p)) by {
            assert forall|i: int| 0 <= i < s.len() implies 0 < (#[trigger] s[i]).coeff@ < p by {
                assert(s[i] == a[i]);
            }
        }
        assert(reduced(t, p)) by {
            assert forall|i: int| 0 <= i < t.len() implies 0 < (#[trigger] t[i]).coeff@ < p by {
                assert(t[i] == b[i]);
            }
        }
        lemma_canonical(s, t, p);
        assert(a =~= s.push(x));
        assert(b =~= t.push(y));
    }
}

impl LcView {
    /// Whether the combination is in canonical form over the field modulo `p`.
    pub open spec fn wf(self, p: nat) -> bool {
        &&& sorted(self.terms)
        &&& reduced(self.terms, p)
        &&& self.constant@ < p
    }

    /// The coefficient of the signal `id`.
    pub open spec fn coeff(self, id: nat) -> nat {
        coeff_of(self.terms, id)
    }

    /// Whether the combination names no signal at or above `n`.
    pub open spec fn within(self, n: nat) -> bool {
        below(self.terms, n as int)
    }

    /// Whether the combination is the constant zero.
    pub open spec fn is_zero(self) -> bool {
        self.terms.len() == 0 && self.constant@ == 0
    }

    /// Whether `self` is canonical and is `k * a + b`, coefficient by
    /// coefficient and in the constant.
    pub open spec fn is_combination(self, k: nat, a: LcView, b: LcView, p: nat) -> bool {
        &&& self.wf(p)
        &&& self.constant@ == (k * a.constant@ + b.constant@) % p
        &&& forall|id: nat| #[trigger] self.coeff(id) == (k * a.coeff(id) + b.coeff(id)) % p
    }
}

/// The canonical combination `k * a + b` over the field modulo `p`.
pub open spec fn lc_combine(k: nat, a: LcView, b: LcView, p: nat) -> LcView {
    choose|r: LcView| r.is_combination(k, a, b, p)
}

/// The combination without terms and with the constant zero.
pub open spec fn lc_zero() -> LcView {
    LcView { terms: Seq::empty(), constant: U256 { l0: 0, l1: 0, l2: 0, l3: 0 } }
}

/// The sum of two combinations.
pub open spec fn lc_add(a: LcView, b: LcView, p: nat) -> LcView {
    lc_combine(1, a, b, p)
}

/// The product of a combination and a constant.
pub open spec fn lc_scale(k: nat, a: LcView, p: nat) -> LcView {
    lc_combine(k, a, lc_zero(), p)
}

/// The additive inverse of a combination.
pub open spec fn lc_neg(a: LcView, p: nat) -> LcView {
    lc_scale((p - 1) as nat, a, p)
}

/// The difference of two combinations.
pub open spec fn lc_sub(a: LcView, b: LcView, p: nat) -> LcView {
    lc_combine((p - 1) as nat, b, a, p)
}

/// The sum of `coefficient * value` over the signals below `n`.
pub open spec fn weighted_sum(l: LcView, w: Seq<nat>, n: nat) -> nat
    decreases n,
{
    if n == 0 {
        0
    } else {
        weighted_sum(l, w, (n - 1) as nat) + l.coeff((n - 1) as nat) * w[n - 1]
    }
}

/// The value of the combination `l` under the assignment `w`.
pub open spec fn lc_eval(l: LcView, w: Seq<nat>, p: nat) -> nat {
    (weighted_sum(l, w, w.len()) + l.constant@) % p
}

/// The weighted sum of `k * a + b` is `k` times that of `a` plus that of
/// `b`, modulo `p`.
pub proof fn lemma_sum_combination(r: LcView, k: nat, a: LcView, b: LcView, w: Seq<nat>, n: nat, p: nat)
    requires
        p >= 2,
        forall|id: nat| #[trigger] r.coeff(id) == (k * a.coeff(id) + b.coeff(id)) % p,
    ensures
        weighted_sum(r, w, n) % p == (k * weighted_sum(a, w, n) + weighted_sum(b, w, n)) % p,
    decreases n,
{
    if n > 0 {
        let m = (n - 1) as nat;
        lemma_sum_combination(r, k, a, b, w, m, p);
        let x = w[n - 1];
        let ca = a.coeff(m);
        let cb = b.coeff(m);
        let cr = r.coeff(m);
        let sr = weighted_sum(r, w, m);
        let sa = weighted_sum(a, w, m);
        let sb = weighted_sum(b, w, m);
        assert(cr == (k * ca + cb) % p);
        assert((cr * x) % p == ((k * ca + cb) * x) % p) by {
            lemma_mul_mod_noop_left((k * ca + cb) as int, x as int, p as int);
        }
        assert((sr + cr * x) % p == ((k * sa + sb) + (k * ca + cb) * x) % p) by {
            lemma_add_mod_noop(sr as int, (cr * x) as int, p as int);
            lemma_add_mod_noop((k * sa + sb) as int, ((k * ca + cb) * x) as int, p as int);
        }
        assert((k * sa + sb) + (k * ca + cb) * x == k * (sa + ca * x) + (sb + cb * x)) by (nonlinear_arith);
        assert(weighted_sum(r, w, n) == sr + cr * x);
        assert(weighted_sum(a, w, n) == sa + ca * x);
        assert(weighted_sum(b, w, n) == sb + cb * x);
    } else {
        assert(k * 0 == 0);
    }
}

/// The value of `k * a + b` under an assignment is `k` times the value of
/// `a` plus the value of `b`, in the field: canonical combination is
/// combination of values.
pub proof fn law_combination_value(r: LcView, k: nat, a: LcView, b: LcView, w: Seq<nat>, p: nat)
    requires
        p >= 2,
        r.is_combination(k, a, b, p),
    ensures
        lc_eval(r, w, p) == (k * lc_eval(a, w, p) + lc_eval(b, w, p)) % p,
{
    let n = w.len();
    lemma_sum_combination(r, k, a, b, w, n, p);
    let sr = weighted_sum(r, w, n);
    let sa = weighted_sum(a, w, n);
    let sb = weighted_sum(b, w, n);
    let cr = r.constant@;
    let ca = a.constant@;
    let cb = b.constant@;
    let ea = sa + ca;
    let eb = sb + cb;
    // left side
    assert((sr + cr) % p == ((k * sa + sb) + (k * ca + cb)) % p) by {
        lemma_add_mod_noop(sr as int, cr as int, p as int);
        lemma_add_mod_noop((k * sa + sb) as int, (k * ca + cb) as int, p as int);
        lemma_mod_twice((k * ca + cb) as int, p as int);
    }
    assert((k * sa + sb) + (k * ca + cb) == k * ea + eb) by (nonlinear_arith)
        requires
            ea == sa + ca,
            eb == sb + cb,
    ;
    // right side
    assert((k * (ea % p) + (eb % p)) % p == (k * ea + eb) % p) by {
        lemma_mul_mod_noop_right(k as int, ea as int, p as int);
        lemma_add_mod_noop((k * (ea % p)) as int, (eb % p) as int, p as int);
        lemma_add_mod_noop((k * ea) as int, eb as int, p as int);
        lemma_mod_twice(eb as int, p as int);
    }
}

/// The constant zero has the value zero.
pub proof fn lemma_zero_eval(l: LcView, w: Seq<nat>, p: nat)
    requires
        p >= 2,
        l.is_zero(),
    ensures
        lc_eval(l, w, p) == 0,
{
    lemma_zero_sum(l, w, w.len());
    lemma_small_mod(0, p);
}

/// A combination without terms has the weighted sum zero.
pub proof fn lemma_zero_sum(l: LcView, w: Seq<nat>, n: nat)
    requires
        l.terms.len() == 0,
    ensures
        weighted_sum(l, w, n) == 0,
    decreases n,
{
    if n > 0 {
        lemma_zero_sum(l, w, (n - 1) as nat);
        assert(l.coeff((n - 1) as nat) == 0);
        assert(0 * w[n - 1] == 0);
    }
}

/// There is only one canonical `k * a + b`.
pub proof fn lemma_combination_unique(r: LcView, k: nat, a: LcView, b: LcView, p: nat)
    requires
        r.is_combination(k, a, b, p),
    ensures
        r == lc_combine(k, a, b, p),
{
    let c = lc_combine(k, a, b, p);
    assert(c.is_combination(k, a, b, p));
    assert forall|id: nat| coeff_of(r.terms, id) == coeff_of(c.terms, id) by {
        assert(r.coeff(id) == c.coeff(id));
    }
    lemma_canonical(r.terms, c.terms, p);
    crate::bigint::lemma_view_injective(r.constant, c.constant);
}

impl Clone for LinearCombination {
    fn clone(&self) -> (r: Self)
        ensures
            r@ == self@,
    {
        LinearCombination { terms: self.terms.clone(), constant: self.constant }
    }
}

impl LinearCombination {
    /// The combination that is the constant `c`.
    pub fn from_constant(c: U256) -> (r: Self)
        ensures
            r@ == (LcView { terms: Seq::empty(), constant: c }),
            forall|p: nat| c@ < p ==> r@.wf(p),
    {
        LinearCombination { terms: Vec::new(), constant: c }
    }

    /// The combination that is the signal `id` alone.
    pub fn from_signal(id: u64, field: &Field) -> (r: Self)
        ensures
            r@ == (LcView {
                terms: seq![Term { signal: id, coeff: U256 { l0: 1, l1: 0, l2: 0, l3: 0 } }],
                constant: U256 { l0: 0, l1: 0, l2: 0, l3: 0 },
            }),
            r@.wf(field.p()),
    {
        proof {
            use_type_invariant(field);
            field.lemma_valid();
        }
        let mut terms: Vec<Term> = Vec::new();
        terms.push(Term { signal: id, coeff: U256::one() });
        let r = LinearCombination { terms, constant: U256::zero() };
        proof {
            assert(r@.terms =~= seq![Term { signal: id, coeff: U256 { l0: 1, l1: 0, l2: 0, l3: 0 } }]);
        }
        r
    }

    /// Whether the combination names no signal.
    pub fn is_constant(&self) -> (r: bool)
        ensures
            r == (self@.terms.len() == 0),
    {
        self.terms.len() == 0
    }

    /// `k * self + other` in canonical form.
    pub fn combine(&self, k: &U256, other: &LinearCombination, field: &Field) -> (r: Self)
        requires
            self@.wf(field.p()),
            other@.wf(field.p()),
            field.contains(*k),
        ensures
            r@.is_combination(k@, self@, other@, field.p()),
            r@ == lc_combine(k@, self@, other@, field.p()),
    {
        let ghost p = field.p();
        proof {
            use_type_invariant(field);
            field.lemma_valid();
        }
        let a = &self.terms;
        let b = &other.terms;
        let n = a.len();
        let l = b.len();
        let mut out: Vec<Term> = Vec::new();
        let mut i: usize = 0;
        let mut j: usize = 0;
        proof {
            assert(a@.subrange(0, 0) =~= Seq::<Term>::empty());
            assert(b@.subrange(0, 0) =~= Seq::<Term>::empty());
            lemma_small_mod(0, p);
            assert forall|id: nat| #[trigger] coeff_of(out@, id) == (k@ * coeff_of(a@.subrange(0, 0), id)
                + coeff_of(b@.subrange(0, 0), id)) % p by {
                assert(k@ * 0 == 0);
            }
        }
        while i < n || j < l
            invariant
                i <= n,
                j <= l,
                n == a@.len(),
                l == b@.len(),
                p == field.p(),
                p >= 2,
                field.contains(*k),
                sorted(a@),
                sorted(b@),
                reduced(a@, p),
                reduced(b@, p),
                sorted(out@),
                reduced(out@, p),
                i < n ==> below(out@, a@[i as int].signal as int),
                j < l ==> below(out@, b@[j as int].signal as int),
                i < n ==> below(b@.subrange(0, j as int), a@[i as int].signal as int),
                j < l ==> below(a@.subrange(0, i as int), b@[j as int].signal as int),
                forall|id: nat| #[trigger]
                    coeff_of(out@, id) == (k@ * coeff_of(a@.subrange(0, i as int), id) + coeff_of(
                        b@.subrange(0, j as int),
                        id,
                    )) % p,
            decreases (n - i) + (l - j),
        {
            let ghost out0 = out@;
            let ghost ai = a@.subrange(0, i as int);
            let ghost bj = b@.subrange(0, j as int);
            let take_a = i < n && (j >= l || a[i].signal <= b[j].signal);
            let take_b = j < l && (i >= n || b[j].signal <= a[i].signal);
            let signal = if take_a { a[i].signal } else { b[j].signal };
            let zero = U256::zero();
            proof {
                lemma_small_mod(0, p);
            }
            let scaled = if take_a { field.mul(k, &a[i].coeff) } else { zero };
            let c = if take_b { field.add(&scaled, &b[j].coeff) } else { scaled };
            let ghost ai2 = if take_a { a@.subrange(0, i as int + 1) } else { ai };
            let ghost bj2 = if take_b { b@.subrange(0, j as int + 1) } else { bj };
            proof {
                if take_a {
                    assert(ai2 =~= ai.push(a@[i as int]));
                }
                if take_b {
                    assert(bj2 =~= bj.push(b@[j as int]));
                }
                // the signal is new on both sides
                assert forall|x: int| 0 <= x < ai.len() implies (#[trigger] ai[x]).signal != signal as nat by {
                    if take_a {
                        assert(ai[x] == a@[x]);
                        assert(a@[x].signal < a@[i as int].signal);
                    } else {
                        assert(ai[x].signal < b@[j as int].signal);
                    }
                }
                assert forall|x: int| 0 <= x < bj.len() implies (#[trigger] bj[x]).signal != signal as nat by {
                    if take_b {
                        assert(bj[x] == b@[x]);
                        assert(b@[x].signal < b@[j as int].signal);
                    } else {
                        assert(bj[x].signal < a@[i as int].signal);
                    }
                }
                assert forall|x: int| 0 <= x < out0.len() implies (#[trigger] out0[x]).signal != signal as nat by {
                    if take_a {
                        assert(out0[x].signal < a@[i as int].signal);
                    } else {
                        assert(out0[x].signal < b@[j as int].signal);
                    }
                }
                lemma_coeff_absent(ai, signal as nat);
                lemma_coeff_absent(bj, signal as nat);
                lemma_coeff_absent(out0, signal as nat);
                lemma_coeff_push(ai, a@[i as int], signal as nat);
                lemma_coeff_push(bj, b@[j as int], signal as nat);
                // the coefficient of the signal
                if take_a && take_b {
                    lemma_add_mod_noop((k@ * a@[i as int].coeff@) as int, b@[j as int].coeff@ as int, p as int);
                    lemma_small_mod(b@[j as int].coeff@, p);
                } else if take_a {
                } else {
                    assert(k@ * 0 == 0);
                    lemma_small_mod(b@[j as int].coeff@, p);
                }
                assert(c@ == (k@ * coeff_of(ai2, signal as nat) + coeff_of(bj2, signal as nat)) % p);
            }
            if !c.is_zero() {
                out.push(Term { signal, coeff: c });
            }
            proof {
                assert forall|id: nat| #[trigger]
                    coeff_of(out@, id) == (k@ * coeff_of(ai2, id) + coeff_of(bj2, id)) % p by {
                    if c@ != 0 {
                        lemma_coeff_push(out0, Term { signal, coeff: c }, id);
                    }
                    if take_a {
                        lemma_coeff_push(ai, a@[i as int], id);
                    }
                    if take_b {
                        lemma_coeff_push(bj, b@[j as int], id);
                    }
                    if id != signal as nat {
                        assert(coeff_of(out0, id) == (k@ * coeff_of(ai, id) + coeff_of(bj, id)) % p);
                    }
                }
                assert(sorted(out@)) by {
                    assert forall|x: int, y: int| 0 <= x < y < out@.len() implies out@[x].signal
                        < out@[y].signal by {
                        if y < out0.len() {
                            assert(out@[x] == out0[x] && out@[y] == out0[y]);
                        } else {
                            assert(out@[x] == out0[x]);
                            if take_a {
                                assert(out0[x].signal < a@[i as int].signal);
                            } else {
                                assert(out0[x].signal < b@[j as int].signal);
                            }
                        }
                    }
                }
                assert(reduced(out@, p)) by {
                    assert forall|x: int| 0 <= x < out@.len() implies 0 < (#[trigger] out@[x]).coeff@ < p by {
                        if x < out0.len() {
                            assert(out@[x] == out0[x]);
                        }
                    }
                }
            }
            let ghost i0 = i;
            let ghost j0 = j;
            if take_a {
                i += 1;
            }
            if take_b {
                j += 1;
            }
            proof {
                if i < n {
                    let s = a@[i as int].signal as int;
                    assert(signal < s) by {
                        if take_a {
                            assert(a@[i0 as int].signal < a@[i as int].signal);
                        }
                    }
                    assert forall|x: int| 0 <= x < out@.len() implies (#[trigger] out@[x]).signal < s by {
                        if x < out0.len() {
                            assert(out@[x] == out0[x]);
                            if take_a {
                                assert(out0[x].signal < a@[i0 as int].signal);
                            } else {
                                assert(out0[x].signal < a@[i as int].signal);
                            }
                        }
                    }
                    assert forall|x: int| 0 <= x < bj2.len() implies (#[trigger] bj2[x]).signal < s by {
                        if x < bj.len() {
                            assert(bj2[x] == bj[x]);
                            assert(bj[x].signal < a@[i0 as int].signal);
                        }
                    }
                }
                if j < l {
                    let s = b@[j as int].signal as int;
                    assert(signal < s) by {
                        if take_b {
                            assert(b@[j0 as int].signal < b@[j as int].signal);
                        }
                    }
                    assert forall|x: int| 0 <= x < out@.len() implies (#[trigger] out@[x]).signal < s by {
                        if x < out0.len() {
                            assert(out@[x] == out0[x]);
                            if take_b {
                                assert(out0[x].signal < b@[j0 as int].signal);
                            } else {
                                assert(out0[x].signal < b@[j as int].signal);
                            }
                        }
                    }
                    assert forall|x: int| 0 <= x < ai2.len() implies (#[trigger] ai2[x]).signal < s by {
                        if x < ai.len() {
                            assert(ai2[x] == ai[x]);
                            assert(ai[x].signal < b@[j0 as int].signal);
                        }
                    }
                }
            }
        }
        let t = field.mul(k, &self.constant);
        let constant = field.add(&t, &other.constant);
        let r = LinearCombination { terms: out, constant };
        proof {
            assert(a@.subrange(0, n as int) =~= a@);
            assert(b@.subrange(0, l as int) =~= b@);
            lemma_add_mod_noop((k@ * self.constant@) as int, other.constant@ as int, p as int);
            lemma_small_mod(other.constant@, p);
            assert forall|id: nat| #[trigger] r@.coeff(id) == (k@ * self@.coeff(id) + other@.coeff(id)) % p by {
                assert(coeff_of(out@, id) == (k@ * coeff_of(a@.subrange(0, n as int), id) + coeff_of(
                    b@.subrange(0, l as int),
                    id,
                )) % p);
            }
            lemma_combination_unique(r@, k@, self@, other@, p);
        }
        r
    }

    /// The sum of two combinations.
    pub fn add(&self, other: &LinearCombination, field: &Field) -> (r: Self)
        requires
            self@.wf(field.p()),
            other@.wf(field.p()),
        ensures
            r@ == lc_add(self@, other@, field.p()),
            r@.is_combination(1, self@, other@, field.p()),
    {
        let one = field.from_u64(1);
        proof {
            use_type_invariant(field);
            field.lemma_valid();
            lemma_small_mod(1, field.p());
        }
        self.combine(&one, other, field)
    }

    /// The product of the combination and the constant `k`.
    pub fn scale(&self, k: &U256, field: &Field) -> (r: Self)
        requires
            self@.wf(field.p()),
            field.contains(*k),
        ensures
            r@ == lc_scale(k@, self@, field.p()),
            r@.is_combination(k@, self@, lc_zero(), field.p()),
    {
        let zero = LinearCombination::from_constant(U256::zero());
        proof {
            use_type_invariant(field);
            field.lemma_valid();
        }
        self.combine(k, &zero, field)
    }

    /// The additive inverse of the combination.
    pub fn neg(&self, field: &Field) -> (r: Self)
        requires
            self@.wf(field.p()),
        ensures
            r@ == lc_neg(self@, field.p()),
            r@.is_combination((field.p() - 1) as nat, self@, lc_zero(), field.p()),
    {
        let m = field.modulus();
        let (k, _) = m.overflowing_sub(&U256::one());
        self.scale(&k, field)
    }

    /// The difference of two combinations.
    pub fn sub(&self, other: &LinearCombination, field: &Field) -> (r: Self)
        requires
            self@.wf(field.p()),
            other@.wf(field.p()),
        ensures
            r@ == lc_sub(self@, other@, field.p()),
            r@.is_combination((field.p() - 1) as nat, other@, self@, field.p()),
    {
        let m = field.modulus();
        let (k, _) = m.overflowing_sub(&U256::one());
        other.combine(&k, self, field)
    }

    /// Whether the combination is the constant zero.
    pub fn is_zero(&self) -> (r: bool)
        ensures
            r == self@.is_zero(),
    {
        self.terms.len() == 0 && self.constant.is_zero()
    }

    /// Whether the combination names no signal at or above `n`.
    pub fn is_within(&self, n: u64) -> (r: bool)
        ensures
            r == self@.within(n as nat),
    {
        let mut i: usize = 0;
        while i < self.terms.len()
            invariant
                i <= self.terms.len(),
                forall|j: int| 0 <= j < i ==> (#[trigger] self.terms@[j]).signal < n,
            decreases self.terms.len() - i,
        {
            if self.terms[i].signal >= n {
                return false;
            }
            i += 1;
        }
        true
    }

    /// Whether the combination gives the signal `id` a coefficient other
    /// than zero.
    pub fn names(&self, id: u64, field: &Field) -> (r: bool)
        requires
            self@.wf(field.p()),
        ensures
            r == (self@.coeff(id as nat) != 0),
    {
        let mut i: usize = 0;
        while i < self.terms.len()
            invariant
                i <= self.terms.len(),
                self@.wf(field.p()),
                forall|j: int| 0 <= j < i ==> (#[trigger] self.terms@[j]).signal != id,
            decreases self.terms.len() - i,
        {
            if self.terms[i].signal == id {
                proof {
                    lemma_coeff_at(self.terms@, i as int);
                }
                return true;
            }
            i += 1;
        }
        proof {
            lemma_coeff_absent(self.terms@, id as nat);
        }
        false
    }

    /// Whether the combination is in canonical form over `field`.
    pub fn is_wf(&self, field: &Field) -> (r: bool)
        ensures
            r == self@.wf(field.p()),
    {
        if !field.is_element(&self.constant) {
            return false;
        }
        let mut i: usize = 0;
        while i < self.terms.len()
            invariant
                i <= self.terms.len(),
                forall|j: int| 0 <= j < i ==> 0 < (#[trigger] self.terms@[j]).coeff@ < field.p(),
                forall|j: int| 0 < j < i ==> self.terms@[j - 1].signal < (#[trigger] self.terms@[j]).signal,
            decreases self.terms.len() - i,
        {
            let t = &self.terms[i];
            if t.coeff.is_zero() || !field.is_element(&t.coeff) {
                return false;
            }
            if i > 0 && self.terms[i - 1].signal >= t.signal {
                assert(!sorted(self.terms@));
                return false;
            }
            i += 1;
        }
        proof {
            lemma_adjacent_sorted(self.terms@);
        }
        true
    }
}

/// Terms whose neighbours ascend are sorted.
pub proof fn lemma_adjacent_sorted(ts: Seq<Term>)
    requires
        forall|j: int| 0 < j < ts.len() ==> ts[j - 1].signal < (#[trigger] ts[j]).signal,
    ensures
        sorted(ts),
{
    assert forall|i: int, j: int| 0 <= i < j < ts.len() implies ts[i].signal < ts[j].signal by {
        lemma_ascending(ts, i, j);
    }
}

/// Along ascending neighbours every later signal is larger.
pub proof fn lemma_ascending(ts: Seq<Term>, i: int, j: int)
    requires
        forall|j: int| 0 < j < ts.len() ==> ts[j - 1].signal < (#[trigger] ts[j]).signal,
        0 <= i < j < ts.len(),
    ensures
        ts[i].signal < ts[j].signal,
    decreases j - i,
{
    if i + 1 < j {
        lemma_ascending(ts, i, j - 1);
    }
}

/// A combination gives no coefficient to a signal beyond its range.
pub proof fn lemma_within_coeff(l: LcView, n: nat, id: nat)
    requires
        l.within(n),
        id >= n,
    ensures
        l.coeff(id) == 0,
{
    lemma_coeff_absent(l.terms, id);
}

/// A signal with a coefficient other than zero is the signal of a term.
pub proof fn lemma_named_in_range(l: LcView, n: nat, id: nat)
    requires
        l.within(n),
        l.coeff(id) != 0,
    ensures
        id < n,
{
    if id >= n {
        lemma_within_coeff(l, n, id);
    }
}

} // verus!
