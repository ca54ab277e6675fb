//! What it means for an assignment of field elements to signals to satisfy
//! the stored constraints, and what the optimizer keeps of that.

use vstd::prelude::*;
use vstd::arithmetic::div_mod::*;
use crate::constraint::form_holds;
use crate::constraint::FormView;
use crate::lc::lc_eval;
use crate::lc::lemma_zero_eval;
use crate::lc::weighted_sum;
use crate::lc::LcView;
use crate::store::candidate_upto;
use crate::store::elimination_candidate;
use crate::store::form_names;
use crate::store::qualifies;
use crate::store::referenced;
use crate::store::store_after_add;
use crate::store::StoreView;

verus! {

/// Whether `w` gives every signal of the store a field element and
/// satisfies every stored constraint.
pub open spec fn satisfies(st: StoreView, w: Seq<nat>) -> bool {
    &&& w.len() == st.signals.len()
    &&& forall|i: int| 0 <= i < w.len() ==> #[trigger] w[i] < st.p
    &&& forall|k: int| 0 <= k < st.constraints.len() ==> form_holds(#[trigger] st.constraints[k].form, w, st.p)
}

/// Changing the value of one signal changes the sum by that signal's share.
pub proof fn lemma_sum_update(l: LcView, w: Seq<nat>, s: int, v: nat, n: nat)
    requires
        0 <= s < w.len(),
        n <= w.len(),
    ensures
        weighted_sum(l, w.update(s, v), n) + (if s < n {
            l.coeff(s as nat) * w[s]
        } else {
            0
        }) == weighted_sum(l, w, n) + (if s < n {
            l.coeff(s as nat) * v
        } else {
            0
        }),
    decreases n,
{
    if n > 0 {
        lemma_sum_update(l, w, s, v, (n - 1) as nat);
    }
}

/// A signal that the combination does not name has no influence on its
/// value.
pub proof fn lemma_eval_ignores(l: LcView, w: Seq<nat>, s: int, v: nat, p: nat)
    requires
        0 <= s < w.len(),
        l.coeff(s as nat) == 0,
    ensures
        lc_eval(l, w.update(s, v), p) == lc_eval(l, w, p),
{
    lemma_sum_update(l, w, s, v, w.len());
    assert(0 * v == 0);
    assert(0 * w[s] == 0);
}

/// A witness of the stored constraints and of `f` is a witness of the store
/// after `f` was added, whatever the optimizer did with `f`.
pub proof fn law_optimizer_keeps_witnesses(st: StoreView, f: FormView, pos: Seq<char>, w: Seq<nat>)
    requires
        satisfies(st, w),
        form_holds(f, w, st.p),
    ensures
        satisfies(store_after_add(st, f, pos), w),
{
    let after = store_after_add(st, f, pos);
    assert forall|k: int| 0 <= k < after.constraints.len() implies form_holds(
        #[trigger] after.constraints[k].form,
        w,
        after.p,
    ) by {
        if k < st.constraints.len() {
            assert(after.constraints[k] == st.constraints[k]);
        }
    }
}

/// Where a linear constraint `f` gives the signal `s` a coefficient `k` with
/// inverse `kinv`, and no stored constraint names `s`, every witness of the
/// stored constraints becomes a witness of them and of `f` by a change of
/// the value of `s` alone: dropping `f` and eliminating `s` loses no
/// solution but for the value of `s`.
pub proof fn law_elimination_conserves_solutions(
    st: StoreView,
    f: FormView,
    s: int,
    kinv: nat,
    w: Seq<nat>,
) -> (v: nat)
    requires
        st.p >= 2,
        satisfies(st, w),
        0 <= s < st.signals.len(),
        f.is_linear(),
        !referenced(st, s as nat),
        (f.c.coeff(s as nat) * kinv) % st.p == 1,
    ensures
        v < st.p,
        satisfies(st, w.update(s, v)),
        form_holds(f, w.update(s, v), st.p),
{
    let p = st.p;
    let k = f.c.coeff(s as nat);
    let w0 = w.update(s, 0);
    let r = weighted_sum(f.c, w0, w.len()) + f.c.constant@;
    let m = (p - r % p) as nat;
    let v = (m * kinv) % p;
    let w1 = w.update(s, v);
    assert(w1 =~= w0.update(s, v));
    // the stored constraints do not see the change
    assert forall|j: int| 0 <= j < st.constraints.len() implies form_holds(
        #[trigger] st.constraints[j].form,
        w1,
        p,
    ) by {
        let g = st.constraints[j].form;
        assert(!form_names(g, s as nat));
        lemma_eval_ignores(g.a, w, s, v, p);
        lemma_eval_ignores(g.b, w, s, v, p);
        lemma_eval_ignores(g.c, w, s, v, p);
    }
    // the linear parts of `f` are zero
    lemma_zero_eval(f.a, w1, p);
    lemma_zero_eval(f.b, w1, p);
    assert(0 * 0 == 0);
    // `k * v` cancels the rest of `f.c`
    lemma_sum_update(f.c, w0, s, v, w.len());
    assert(k * 0 == 0);
    assert(weighted_sum(f.c, w1, w.len()) == weighted_sum(f.c, w0, w.len()) + k * v);
    assert((k * v) % p == m % p) by {
        lemma_mul_mod_noop_right(k as int, (m * kinv) as int, p as int);
        assert(k * (m * kinv) == (k * kinv) * m) by (nonlinear_arith);
        lemma_mul_mod_noop_left((k * kinv) as int, m as int, p as int);
        assert(1 * m == m);
    }
    assert((r + k * v) % p == 0) by {
        lemma_add_mod_noop(r as int, (k * v) as int, p as int);
        lemma_add_mod_noop_right((r % p) as int, m as int, p as int);
        lemma_mod_self_0(p as int);
    }
    assert(lc_eval(f.c, w1, p) == 0) by {
        assert(weighted_sum(f.c, w1, w1.len()) + f.c.constant@ == r + k * v);
    }
    lemma_small_mod(0, p);
    v
}

/// The signal that the eliminating optimizer picks meets what
/// `law_elimination_conserves_solutions` asks for.
pub proof fn law_candidate_is_determined(st: StoreView, f: FormView)
    requires
        st.valid(),
        f.wf(st.p),
        f.within(st.signals.len()),
        elimination_candidate(st, f) is Some,
    ensures
        ({
            let s = elimination_candidate(st, f).unwrap();
            &&& s < st.signals.len()
            &&& f.is_linear()
            &&& !referenced(st, s as nat)
            &&& (f.c.coeff(s as nat) * crate::field::fermat_inverse(f.c.coeff(s as nat), st.p)) % st.p == 1
        }),
{
    lemma_candidate(st, f, f.c.terms.len() as int);
    let i = candidate_upto(st, f, f.c.terms.len() as int).unwrap();
    crate::lc::lemma_coeff_at(f.c.terms, i);
}

/// What `candidate_upto` returns is the index of a qualifying term.
pub proof fn lemma_candidate(st: StoreView, f: FormView, n: int)
    requires
        n <= f.c.terms.len(),
    ensures
        match candidate_upto(st, f, n) {
            Some(i) => 0 <= i < n && qualifies(st, f, i),
            None => true,
        },
    decreases n,
{
    if n > 0 && !qualifies(st, f, n - 1) {
        lemma_candidate(st, f, n - 1);
    }
}

} // verus!
