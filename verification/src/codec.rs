//! The byte layout in which a store is kept and exchanged.
//!
//! Integers are written most significant byte first in a fixed width: eight
//! bytes for counts, lengths and signal ids, thirty-two for field elements.
//! Text is written as its length in bytes and its UTF-8 bytes.

use vstd::prelude::*;
use vstd::utf8::decode_utf8;
use vstd::utf8::encode_utf8;
use vstd::utf8::valid_utf8;
use crate::ast::SignalKind;
use crate::bigint::u256_of;
use crate::bigint::U256;
use crate::constraint::FormView;
use crate::lc::LcView;
use crate::lc::Term;
use crate::constraint::QuadraticForm;
use crate::error::Error;
use crate::error::ErrorKind;
use crate::field::Field;
use crate::lc::LinearCombination;
use crate::store::component_of;
use crate::store::constraints_view;
use crate::store::restored;
use crate::store::Constraint;
use crate::store::Store;
use crate::store::ConstraintView;
use crate::store::Optimizer;
use crate::store::SignalView;
use crate::store::StoreView;
use crate::literal::be_value;

verus! {

/// The `n` bytes that write `x`, most significant first; the lowest `n`
/// bytes of `x` where it is too large for them.
pub open spec fn be_bytes(x: nat, n: nat) -> Seq<u8>
    decreases n,
{
    if n == 0 {
        Seq::empty()
    } else {
        be_bytes(x / 256, (n - 1) as nat).push((x % 256) as u8)
    }
}

/// `256^n`.
pub open spec fn pow256(n: nat) -> nat
    decreases n,
{
    if n == 0 {
        1
    } else {
        256 * pow256((n - 1) as nat)
    }
}

/// The eight bytes that write `x`, most significant first.
pub open spec fn enc_u64(x: u64) -> Seq<u8> {
    be_bytes(x as nat, 8)
}

/// The integer that the first eight bytes of `s` write.
pub open spec fn u64_of(s: Seq<u8>) -> u64 {
    be_value(s.take(8)) as u64
}

/// The integer at the front of `s`, and what follows it.
pub open spec fn dec_u64(s: Seq<u8>) -> Option<(u64, Seq<u8>)> {
    if s.len() < 8 {
        None
    } else {
        Some((u64_of(s), s.skip(8)))
    }
}

/// A number that fits in `n` bytes is read back from them.
pub proof fn lemma_be_round_trip(x: nat, n: nat)
    requires
        x < pow256(n),
    ensures
        be_bytes(x, n).len() == n,
        be_value(be_bytes(x, n)) == x,
    decreases n,
{
    if n > 0 {
        lemma_be_round_trip(x / 256, (n - 1) as nat);
        assert(be_bytes(x, n).drop_last() =~= be_bytes(x / 256, (n - 1) as nat));
    }
}

/// `256^8` is `2^64`.
pub proof fn lemma_pow256_8()
    ensures
        pow256(8) == 0x1_0000_0000_0000_0000,
{
    reveal_with_fuel(pow256, 9);
}

/// What was written as eight bytes is read back from them.
pub proof fn lemma_u64_round_trip(x: u64, rest: Seq<u8>)
    ensures
        enc_u64(x).len() == 8,
        dec_u64(enc_u64(x) + rest) == Some((x, rest)),
{
    lemma_pow256_8();
    lemma_be_round_trip(x as nat, 8);
    let s = enc_u64(x) + rest;
    assert(s.skip(8) =~= rest);
    assert(s.take(8) =~= enc_u64(x));
}

/// The thirty-two bytes that write `x`, most significant first.
pub open spec fn enc_u256(x: U256) -> Seq<u8> {
    enc_u64(x.l3) + enc_u64(x.l2) + enc_u64(x.l1) + enc_u64(x.l0)
}

/// The integer at the front of `s`, and what follows it.
pub open spec fn dec_u256(s: Seq<u8>) -> Option<(U256, Seq<u8>)> {
    if s.len() < 32 {
        None
    } else {
        Some(
            (
                U256 { l3: u64_of(s), l2: u64_of(s.skip(8)), l1: u64_of(s.skip(16)), l0: u64_of(s.skip(24)) },
                s.skip(32),
            ),
        )
    }
}

/// What was written as thirty-two bytes is read back from them.
pub proof fn lemma_u256_round_trip(x: U256, rest: Seq<u8>)
    ensures
        enc_u256(x).len() == 32,
        dec_u256(enc_u256(x) + rest) == Some((x, rest)),
{
    let s = enc_u256(x) + rest;
    lemma_u64_round_trip(x.l3, enc_u64(x.l2) + enc_u64(x.l1) + enc_u64(x.l0) + rest);
    lemma_u64_round_trip(x.l2, enc_u64(x.l1) + enc_u64(x.l0) + rest);
    lemma_u64_round_trip(x.l1, enc_u64(x.l0) + rest);
    lemma_u64_round_trip(x.l0, rest);
    assert(s =~= enc_u64(x.l3) + (enc_u64(x.l2) + enc_u64(x.l1) + enc_u64(x.l0) + rest));
    assert(s.skip(8) =~= enc_u64(x.l2) + (enc_u64(x.l1) + enc_u64(x.l0) + rest));
    assert(s.skip(16) =~= enc_u64(x.l1) + (enc_u64(x.l0) + rest));
    assert(s.skip(24) =~= enc_u64(x.l0) + rest);
    assert(s.skip(32) =~= rest);
}

/// The bytes that write the text `t`: the number of its UTF-8 bytes, and
/// those bytes.
pub open spec fn enc_text(t: Seq<char>) -> Seq<u8> {
    enc_u64(encode_utf8(t).len() as u64) + encode_utf8(t)
}

/// The text at the front of `s`, and what follows it.
pub open spec fn dec_text(s: Seq<u8>) -> Option<(Seq<char>, Seq<u8>)> {
    match dec_u64(s) {
        Some((n, rest)) => if rest.len() < n || !valid_utf8(rest.take(n as int)) {
            None
        } else {
            Some((decode_utf8(rest.take(n as int)), rest.skip(n as int)))
        },
        None => None,
    }
}

/// Text of a length that eight bytes can write is read back from its bytes.
pub proof fn lemma_text_round_trip(t: Seq<char>, rest: Seq<u8>)
    requires
        encode_utf8(t).len() <= u64::MAX,
    ensures
        dec_text(enc_text(t) + rest) == Some((t, rest)),
{
    let b = encode_utf8(t);
    lemma_u64_round_trip(b.len() as u64, b + rest);
    assert(enc_text(t) + rest =~= enc_u64(b.len() as u64) + (b + rest));
    assert((b + rest).take(b.len() as int) =~= b);
    assert((b + rest).skip(b.len() as int) =~= rest);
    vstd::utf8::encode_utf8_valid_utf8(t);
    vstd::utf8::encode_utf8_decode_utf8(t);
}

/// The byte that writes a truth value.
pub open spec fn enc_bool(b: bool) -> Seq<u8> {
    seq![if b { 1u8 } else { 0u8 }]
}

/// The truth value at the front of `s`, and what follows it.
pub open spec fn dec_bool(s: Seq<u8>) -> Option<(bool, Seq<u8>)> {
    if s.len() < 1 || s[0] > 1 {
        None
    } else {
        Some((s[0] == 1, s.skip(1)))
    }
}

/// The byte that writes the kind of a signal.
pub open spec fn enc_kind(k: SignalKind) -> Seq<u8> {
    seq![
        match k {
            SignalKind::Input => 0u8,
            SignalKind::Output => 1u8,
            SignalKind::Internal => 2u8,
        },
    ]
}

/// The kind at the front of `s`, and what follows it.
pub open spec fn dec_kind(s: Seq<u8>) -> Option<(SignalKind, Seq<u8>)> {
    if s.len() < 1 || s[0] > 2 {
        None
    } else {
        Some(
            (
                if s[0] == 0 {
                    SignalKind::Input
                } else if s[0] == 1 {
                    SignalKind::Output
                } else {
                    SignalKind::Internal
                },
                s.skip(1),
            ),
        )
    }
}

/// The byte that writes the optimizer.
pub open spec fn enc_optimizer(o: Optimizer) -> Seq<u8> {
    enc_bool(o == Optimizer::Eliminate)
}

/// The bytes that write an optional text.
pub open spec fn enc_opt_text(t: Option<Seq<char>>) -> Seq<u8> {
    match t {
        Some(x) => enc_bool(true) + enc_text(x),
        None => enc_bool(false),
    }
}

/// The optional text at the front of `s`, and what follows it.
pub open spec fn dec_opt_text(s: Seq<u8>) -> Option<(Option<Seq<char>>, Seq<u8>)> {
    match dec_bool(s) {
        Some((true, rest)) => match dec_text(rest) {
            Some((t, r)) => Some((Some(t), r)),
            None => None,
        },
        Some((false, rest)) => Some((None, rest)),
        None => None,
    }
}

/// The bytes that write a term: its signal and its coefficient.
pub open spec fn enc_term(t: Term) -> Seq<u8> {
    enc_u64(t.signal) + enc_u256(t.coeff)
}

/// The term at the front of `s`, and what follows it.
pub open spec fn dec_term(s: Seq<u8>) -> Option<(Term, Seq<u8>)> {
    match dec_u64(s) {
        Some((signal, rest)) => match dec_u256(rest) {
            Some((coeff, r)) => Some((Term { signal, coeff }, r)),
            None => None,
        },
        None => None,
    }
}

/// The bytes that write the terms `ts[i..]`, one behind the other.
pub open spec fn enc_terms(ts: Seq<Term>, i: int) -> Seq<u8>
    decreases ts.len() - i,
{
    if i < 0 || i >= ts.len() {
        Seq::empty()
    } else {
        enc_term(ts[i]) + enc_terms(ts, i + 1)
    }
}

/// The `n` terms at the front of `s` behind those in `acc`, and what
/// follows them.
pub open spec fn dec_terms(s: Seq<u8>, n: nat, acc: Seq<Term>) -> Option<(Seq<Term>, Seq<u8>)>
    decreases n,
{
    if n == 0 {
        Some((acc, s))
    } else {
        match dec_term(s) {
            Some((t, rest)) => dec_terms(rest, (n - 1) as nat, acc.push(t)),
            None => None,
        }
    }
}

/// The bytes that write a linear combination: the number of its terms, the
/// terms, and the constant.
pub open spec fn enc_lc(l: LcView) -> Seq<u8> {
    enc_u64(l.terms.len() as u64) + enc_terms(l.terms, 0) + enc_u256(l.constant)
}

/// The counted terms at the front of `s`, and what follows them.
pub open spec fn dec_term_list(s: Seq<u8>) -> Option<(Seq<Term>, Seq<u8>)> {
    match dec_u64(s) {
        Some((n, rest)) => dec_terms(rest, n as nat, Seq::empty()),
        None => None,
    }
}

/// The linear combination at the front of `s`, and what follows it.
pub open spec fn dec_lc(s: Seq<u8>) -> Option<(LcView, Seq<u8>)> {
    match dec_term_list(s) {
        Some((terms, r)) => match dec_u256(r) {
            Some((constant, r2)) => Some((LcView { terms, constant }, r2)),
            None => None,
        },
        None => None,
    }
}

/// The bytes that write a constraint: the three parts of its form and the
/// position of its statement.
pub open spec fn enc_constraint(c: ConstraintView) -> Seq<u8> {
    enc_lc(c.form.a) + enc_lc(c.form.b) + enc_lc(c.form.c) + enc_text(c.pos)
}

/// The constraint at the front of `s`, and what follows it.
pub open spec fn dec_constraint(s: Seq<u8>) -> Option<(ConstraintView, Seq<u8>)> {
    match dec_lc(s) {
        Some((a, r1)) => match dec_lc(r1) {
            Some((b, r2)) => match dec_lc(r2) {
                Some((c, r3)) => match dec_text(r3) {
                    Some((pos, r4)) => Some((ConstraintView { form: FormView { a, b, c }, pos }, r4)),
                    None => None,
                },
                None => None,
            },
            None => None,
        },
        None => None,
    }
}

/// The bytes that write the constraints `cs[i..]`, one behind the other.
pub open spec fn enc_constraints(cs: Seq<ConstraintView>, i: int) -> Seq<u8>
    decreases cs.len() - i,
{
    if i < 0 || i >= cs.len() {
        Seq::empty()
    } else {
        enc_constraint(cs[i]) + enc_constraints(cs, i + 1)
    }
}

/// The `n` constraints at the front of `s` behind those in `acc`, and what
/// follows them.
pub open spec fn dec_constraints(s: Seq<u8>, n: nat, acc: Seq<ConstraintView>) -> Option<
    (Seq<ConstraintView>, Seq<u8>),
>
    decreases n,
{
    if n == 0 {
        Some((acc, s))
    } else {
        match dec_constraint(s) {
            Some((c, rest)) => dec_constraints(rest, (n - 1) as nat, acc.push(c)),
            None => None,
        }
    }
}

/// What is written of a signal: its full name, its kind, and whether it is
/// eliminated.
pub struct SignalEntry {
    pub full_name: Seq<char>,
    pub kind: SignalKind,
    pub eliminated: bool,
}

/// The bytes that write a signal.
pub open spec fn enc_signal(e: SignalEntry) -> Seq<u8> {
    enc_text(e.full_name) + enc_kind(e.kind) + enc_bool(e.eliminated)
}

/// The signal at the front of `s`, and what follows it.
pub open spec fn dec_signal(s: Seq<u8>) -> Option<(SignalEntry, Seq<u8>)> {
    match dec_text(s) {
        Some((full_name, r1)) => match dec_kind(r1) {
            Some((kind, r2)) => match dec_bool(r2) {
                Some((eliminated, r3)) => Some((SignalEntry { full_name, kind, eliminated }, r3)),
                None => None,
            },
            None => None,
        },
        None => None,
    }
}

/// The bytes that write the signals `es[i..]`, one behind the other.
pub open spec fn enc_signals(es: Seq<SignalEntry>, i: int) -> Seq<u8>
    decreases es.len() - i,
{
    if i < 0 || i >= es.len() {
        Seq::empty()
    } else {
        enc_signal(es[i]) + enc_signals(es, i + 1)
    }
}

/// The `n` signals at the front of `s` behind those in `acc`, and what
/// follows them.
pub open spec fn dec_signals(s: Seq<u8>, n: nat, acc: Seq<SignalEntry>) -> Option<(Seq<SignalEntry>, Seq<u8>)>
    decreases n,
{
    if n == 0 {
        Some((acc, s))
    } else {
        match dec_signal(s) {
            Some((e, rest)) => dec_signals(rest, (n - 1) as nat, acc.push(e)),
            None => None,
        }
    }
}

/// What is written of the signals of a store.
pub open spec fn entries_of(st: StoreView) -> Seq<SignalEntry> {
    Seq::new(
        st.signals.len(),
        |i: int|
            SignalEntry {
                full_name: st.signals[i].full_name,
                kind: st.signals[i].kind,
                eliminated: st.eliminated[i],
            },
    )
}

/// The store that holds the signals `es` under the ids `0, 1, ...` and the
/// constraints `cs`.
pub open spec fn assemble(
    p: nat,
    optimizer: Optimizer,
    top_component: Option<Seq<char>>,
    es: Seq<SignalEntry>,
    cs: Seq<ConstraintView>,
) -> StoreView {
    StoreView {
        p,
        optimizer,
        signals: Seq::new(
            es.len(),
            |i: int|
                SignalView {
                    id: i as u64,
                    full_name: es[i].full_name,
                    kind: es[i].kind,
                    component_path: component_of(es[i].full_name),
                },
        ),
        eliminated: Seq::new(es.len(), |i: int| es[i].eliminated),
        constraints: cs,
        top_component,
    }
}

/// The counted signals at the front of `s`, and what follows them.
pub open spec fn dec_signal_list(s: Seq<u8>) -> Option<(Seq<SignalEntry>, Seq<u8>)> {
    match dec_u64(s) {
        Some((n, rest)) => dec_signals(rest, n as nat, Seq::empty()),
        None => None,
    }
}

/// The counted constraints at the front of `s`, and what follows them.
pub open spec fn dec_constraint_list(s: Seq<u8>) -> Option<(Seq<ConstraintView>, Seq<u8>)> {
    match dec_u64(s) {
        Some((n, rest)) => dec_constraints(rest, n as nat, Seq::empty()),
        None => None,
    }
}

/// The valid store over the field modulo `p` that the bytes `s` write
/// behind its header, if they write one and nothing more.
pub open spec fn dec_body(p: nat, optimizer: Optimizer, top: Option<Seq<char>>, s: Seq<u8>) -> Option<
    StoreView,
> {
    match dec_signal_list(s) {
        Some((es, r5)) => match dec_constraint_list(r5) {
            Some((cs, r7)) => {
                let st = assemble(p, optimizer, top, es, cs);
                if r7.len() == 0 && st.valid() {
                    Some(st)
                } else {
                    None
                }
            },
            None => None,
        },
        None => None,
    }
}

/// The header at the front of `s`: the modulus, the optimizer and the
/// top-level component; and what follows it.
pub open spec fn dec_header(s: Seq<u8>) -> Option<(nat, Optimizer, Option<Seq<char>>, Seq<u8>)> {
    match dec_u256(s) {
        Some((modulus, r1)) => match dec_bool(r1) {
            Some((eliminate, r2)) => match dec_opt_text(r2) {
                Some((top, r3)) => Some(
                    (
                        modulus@,
                        if eliminate {
                            Optimizer::Eliminate
                        } else {
                            Optimizer::Identity
                        },
                        top,
                        r3,
                    ),
                ),
                None => None,
            },
            None => None,
        },
        None => None,
    }
}

/// The bytes that write the header of a store.
pub open spec fn enc_header(st: StoreView) -> Seq<u8> {
    enc_u256(u256_of(st.p)) + enc_optimizer(st.optimizer) + enc_opt_text(st.top_component)
}

/// The valid store that the bytes `s` write, if they write one and nothing
/// more.
pub open spec fn dec_store(s: Seq<u8>) -> Option<StoreView> {
    match dec_header(s) {
        Some((p, optimizer, top, rest)) => dec_body(p, optimizer, top, rest),
        None => None,
    }
}

/// The bytes that write a store: the modulus, the optimizer, the top-level
/// component, the signals in the order of their ids, and the constraints in
/// the order of their insertion.
pub open spec fn enc_store(st: StoreView) -> Seq<u8> {
    enc_header(st) + enc_body(st)
}

/// The bytes that write a store behind its header.
pub open spec fn enc_body(st: StoreView) -> Seq<u8> {
    enc_u64(st.signals.len() as u64) + enc_signals(entries_of(st), 0) + enc_u64(
        st.constraints.len() as u64,
    ) + enc_constraints(st.constraints, 0)
}

/// Whether a text is short enough for its length to be written.
pub open spec fn text_fits(t: Seq<char>) -> bool {
    encode_utf8(t).len() <= u64::MAX
}

/// Whether the position and the term counts of a constraint can be
/// written in eight bytes each.
pub open spec fn constraint_fits(c: ConstraintView) -> bool {
    &&& text_fits(c.pos)
    &&& c.form.a.terms.len() <= u64::MAX
    &&& c.form.b.terms.len() <= u64::MAX
    &&& c.form.c.terms.len() <= u64::MAX
}

/// Whether every count and every length of the store can be written in
/// eight bytes.
pub open spec fn encodable(st: StoreView) -> bool {
    &&& st.p < crate::bigint::bound()
    &&& st.signals.len() <= u64::MAX
    &&& st.constraints.len() <= u64::MAX
    &&& st.top_component matches Some(t) ==> text_fits(t)
    &&& forall|i: int| 0 <= i < st.signals.len() ==> text_fits((#[trigger] st.signals[i]).full_name)
    &&& forall|k: int| 0 <= k < st.constraints.len() ==> constraint_fits(#[trigger] st.constraints[k])
}

/// Terms are read back from their bytes.
#[verifier::rlimit(50)]
pub proof fn lemma_terms_round_trip(ts: Seq<Term>, i: int, acc: Seq<Term>, rest: Seq<u8>)
    requires
        0 <= i <= ts.len(),
        acc == ts.take(i),
    ensures
        dec_terms(enc_terms(ts, i) + rest, (ts.len() - i) as nat, acc) == Some((ts, rest)),
    decreases ts.len() - i,
{
    if i == ts.len() {
        assert(enc_terms(ts, i) + rest =~= rest);
        assert(ts.take(i) =~= ts);
    } else {
        let t = ts[i];
        let tail = enc_terms(ts, i + 1) + rest;
        assert(enc_terms(ts, i) + rest =~= enc_u64(t.signal) + (enc_u256(t.coeff) + tail));
        lemma_u64_round_trip(t.signal, enc_u256(t.coeff) + tail);
        lemma_u256_round_trip(t.coeff, tail);
        assert(acc.push(t) =~= ts.take(i + 1));
        lemma_terms_round_trip(ts, i + 1, acc.push(t), rest);
    }
}

/// A linear combination is read back from its bytes.
#[verifier::rlimit(50)]
pub proof fn lemma_lc_round_trip(l: LcView, rest: Seq<u8>)
    requires
        l.terms.len() <= u64::MAX,
    ensures
        dec_lc(enc_lc(l) + rest) == Some((l, rest)),
{
    let tail = enc_terms(l.terms, 0) + (enc_u256(l.constant) + rest);
    assert(enc_lc(l) + rest =~= enc_u64(l.terms.len() as u64) + tail);
    lemma_u64_round_trip(l.terms.len() as u64, tail);
    assert(l.terms.take(0) =~= Seq::<Term>::empty());
    lemma_terms_round_trip(l.terms, 0, Seq::empty(), enc_u256(l.constant) + rest);
    lemma_u256_round_trip(l.constant, rest);
}

/// A constraint is read back from its bytes.
#[verifier::rlimit(50)]
pub proof fn lemma_constraint_round_trip(c: ConstraintView, rest: Seq<u8>)
    requires
        constraint_fits(c),
    ensures
        dec_constraint(enc_constraint(c) + rest) == Some((c, rest)),
{
    let t3 = enc_text(c.pos) + rest;
    let t2 = enc_lc(c.form.c) + t3;
    let t1 = enc_lc(c.form.b) + t2;
    assert(enc_constraint(c) + rest =~= enc_lc(c.form.a) + t1);
    lemma_lc_round_trip(c.form.a, t1);
    lemma_lc_round_trip(c.form.b, t2);
    lemma_lc_round_trip(c.form.c, t3);
    lemma_text_round_trip(c.pos, rest);
}

/// Constraints are read back from their bytes.
#[verifier::rlimit(50)]
pub proof fn lemma_constraints_round_trip(
    cs: Seq<ConstraintView>,
    i: int,
    acc: Seq<ConstraintView>,
    rest: Seq<u8>,
)
    requires
        0 <= i <= cs.len(),
        acc == cs.take(i),
        forall|k: int| 0 <= k < cs.len() ==> constraint_fits(#[trigger] cs[k]),
    ensures
        dec_constraints(enc_constraints(cs, i) + rest, (cs.len() - i) as nat, acc) == Some((cs, rest)),
    decreases cs.len() - i,
{
    if i == cs.len() {
        assert(enc_constraints(cs, i) + rest =~= rest);
        assert(cs.take(i) =~= cs);
    } else {
        let tail = enc_constraints(cs, i + 1) + rest;
        assert(enc_constraints(cs, i) + rest =~= enc_constraint(cs[i]) + tail);
        lemma_constraint_round_trip(cs[i], tail);
        assert(acc.push(cs[i]) =~= cs.take(i + 1));
        lemma_constraints_round_trip(cs, i + 1, acc.push(cs[i]), rest);
    }
}

/// A signal is read back from its bytes.
pub proof fn lemma_signal_round_trip(e: SignalEntry, rest: Seq<u8>)
    requires
        text_fits(e.full_name),
    ensures
        dec_signal(enc_signal(e) + rest) == Some((e, rest)),
{
    let t2 = enc_bool(e.eliminated) + rest;
    let t1 = enc_kind(e.kind) + t2;
    assert(enc_signal(e) + rest =~= enc_text(e.full_name) + t1);
    lemma_text_round_trip(e.full_name, t1);
    assert(t1.skip(1) =~= t2);
    assert(t2.skip(1) =~= rest);
}

/// Signals are read back from their bytes.
#[verifier::rlimit(50)]
pub proof fn lemma_signals_round_trip(es: Seq<SignalEntry>, i: int, acc: Seq<SignalEntry>, rest: Seq<u8>)
    requires
        0 <= i <= es.len(),
        acc == es.take(i),
        forall|k: int| 0 <= k < es.len() ==> text_fits((#[trigger] es[k]).full_name),
    ensures
        dec_signals(enc_signals(es, i) + rest, (es.len() - i) as nat, acc) == Some((es, rest)),
    decreases es.len() - i,
{
    if i == es.len() {
        assert(enc_signals(es, i) + rest =~= rest);
        assert(es.take(i) =~= es);
    } else {
        let tail = enc_signals(es, i + 1) + rest;
        assert(enc_signals(es, i) + rest =~= enc_signal(es[i]) + tail);
        lemma_signal_round_trip(es[i], tail);
        assert(acc.push(es[i]) =~= es.take(i + 1));
        lemma_signals_round_trip(es, i + 1, acc.push(es[i]), rest);
    }
}

/// The signals of a store are read back from their bytes.
pub proof fn lemma_store_signals_round_trip(st: StoreView, rest: Seq<u8>)
    requires
        encodable(st),
        st.eliminated.len() == st.signals.len(),
    ensures
        dec_signals(enc_signals(entries_of(st), 0) + rest, st.signals.len(), Seq::empty()) == Some(
            (entries_of(st), rest),
        ),
{
    let es = entries_of(st);
    assert(es.take(0) =~= Seq::<SignalEntry>::empty());
    assert forall|k: int| 0 <= k < es.len() implies text_fits((#[trigger] es[k]).full_name) by {
        assert(text_fits(st.signals[k].full_name));
    }
    lemma_signals_round_trip(es, 0, Seq::empty(), rest);
}

/// The constraints of a store are read back from their bytes.
pub proof fn lemma_store_constraints_round_trip(st: StoreView)
    requires
        encodable(st),
    ensures
        dec_constraints(enc_constraints(st.constraints, 0), st.constraints.len(), Seq::empty()) == Some(
            (st.constraints, Seq::<u8>::empty()),
        ),
{
    let cs = st.constraints;
    assert(cs.take(0) =~= Seq::<ConstraintView>::empty());
    lemma_constraints_round_trip(cs, 0, Seq::empty(), Seq::empty());
    assert(enc_constraints(cs, 0) + Seq::<u8>::empty() =~= enc_constraints(cs, 0));
}

/// A valid store is what its written signals and constraints assemble to.
pub proof fn lemma_assemble(st: StoreView)
    requires
        st.valid(),
    ensures
        assemble(st.p, st.optimizer, st.top_component, entries_of(st), st.constraints) == st,
{
    let back = assemble(st.p, st.optimizer, st.top_component, entries_of(st), st.constraints);
    assert(back.signals =~= st.signals);
    assert(back.eliminated =~= st.eliminated);
}

/// The body of a valid store is read back from its bytes.
#[verifier::rlimit(50)]
pub proof fn lemma_body_round_trip(st: StoreView)
    requires
        st.valid(),
        encodable(st),
    ensures
        dec_body(st.p, st.optimizer, st.top_component, enc_body(st)) == Some(st),
{
    let es = entries_of(st);
    let cs = st.constraints;
    let t6 = enc_constraints(cs, 0);
    let t5 = enc_u64(cs.len() as u64) + t6;
    let t4 = enc_signals(es, 0) + t5;
    assert(enc_body(st) =~= enc_u64(st.signals.len() as u64) + t4);
    lemma_u64_round_trip(st.signals.len() as u64, t4);
    lemma_store_signals_round_trip(st, t5);
    lemma_u64_round_trip(cs.len() as u64, t6);
    lemma_store_constraints_round_trip(st);
    lemma_assemble(st);
}

/// The header of a store is read back from its bytes.
#[verifier::rlimit(50)]
pub proof fn lemma_header_round_trip(st: StoreView, rest: Seq<u8>)
    requires
        st.p < crate::bigint::bound(),
        st.top_component matches Some(t) ==> text_fits(t),
    ensures
        dec_header(enc_header(st) + rest) == Some((st.p, st.optimizer, st.top_component, rest)),
{
    let m = u256_of(st.p);
    lemma_u256_exists(st.p);
    let t2 = enc_opt_text(st.top_component) + rest;
    let t1 = enc_optimizer(st.optimizer) + t2;
    assert(enc_header(st) + rest =~= enc_u256(m) + t1);
    lemma_u256_round_trip(m, t1);
    assert(t1.skip(1) =~= t2);
    match st.top_component {
        Some(t) => {
            assert(t2 =~= enc_bool(true) + (enc_text(t) + rest));
            assert(t2.skip(1) =~= enc_text(t) + rest);
            lemma_text_round_trip(t, rest);
        },
        None => {
            assert(t2 =~= enc_bool(false) + rest);
            assert(t2.skip(1) =~= rest);
        },
    }
}

/// A valid store is read back from the bytes that write it: the signals
/// with their ids, names, kinds and owners, the constraints in their order,
/// and all the rest, are those that were written.
pub proof fn law_round_trip(st: StoreView)
    requires
        st.valid(),
        encodable(st),
    ensures
        dec_store(enc_store(st)) == Some(st),
{
    lemma_header_round_trip(st, enc_body(st));
    lemma_body_round_trip(st);
}

/// Every number below `2^256` is the value of a `U256`.
pub proof fn lemma_u256_exists(n: nat)
    requires
        n < crate::bigint::bound(),
    ensures
        u256_of(n)@ == n,
{
    let l0 = (n % 0x1_0000_0000_0000_0000) as u64;
    let n1 = n / 0x1_0000_0000_0000_0000;
    let l1 = (n1 % 0x1_0000_0000_0000_0000) as u64;
    let n2 = n1 / 0x1_0000_0000_0000_0000;
    let l2 = (n2 % 0x1_0000_0000_0000_0000) as u64;
    let n3 = n2 / 0x1_0000_0000_0000_0000;
    let l3 = n3 as u64;
    let u = U256 { l0, l1, l2, l3 };
    assert(u@ == n);
}

/// Appends the eight bytes that write `x`.
pub fn write_u64(out: &mut Vec<u8>, x: u64)
    ensures
        final(out)@ == old(out)@ + enc_u64(x),
{
    let b7 = (x % 256) as u8;
    let x6 = x / 256;
    let b6 = (x6 % 256) as u8;
    let x5 = x6 / 256;
    let b5 = (x5 % 256) as u8;
    let x4 = x5 / 256;
    let b4 = (x4 % 256) as u8;
    let x3 = x4 / 256;
    let b3 = (x3 % 256) as u8;
    let x2 = x3 / 256;
    let b2 = (x2 % 256) as u8;
    let x1 = x2 / 256;
    let b1 = (x1 % 256) as u8;
    let x0 = x1 / 256;
    let b0 = (x0 % 256) as u8;
    out.push(b0);
    out.push(b1);
    out.push(b2);
    out.push(b3);
    out.push(b4);
    out.push(b5);
    out.push(b6);
    out.push(b7);
    proof {
        reveal_with_fuel(be_bytes, 9);
        assert(enc_u64(x) =~= seq![b0, b1, b2, b3, b4, b5, b6, b7]);
        assert(out@ =~= old(out)@ + enc_u64(x));
    }
}

/// Appends the thirty-two bytes that write `x`.
pub fn write_u256(out: &mut Vec<u8>, x: &U256)
    ensures
        final(out)@ == old(out)@ + enc_u256(*x),
{
    write_u64(out, x.l3);
    write_u64(out, x.l2);
    write_u64(out, x.l1);
    write_u64(out, x.l0);
    assert(out@ =~= old(out)@ + enc_u256(*x));
}

/// Appends the bytes that write the text `t`.
pub fn write_text(out: &mut Vec<u8>, t: &str)
    ensures
        final(out)@ == old(out)@ + enc_text(t@),
        encode_utf8(t@).len() <= u64::MAX,
{
    let bytes = t.as_bytes();
    write_u64(out, bytes.len() as u64);
    let mut i: usize = 0;
    let ghost head = out@;
    while i < bytes.len()
        invariant
            i <= bytes.len(),
            out@ == head + bytes@.subrange(0, i as int),
        decreases bytes.len() - i,
    {
        out.push(bytes[i]);
        assert(out@ =~= head + bytes@.subrange(0, i as int + 1));
        i += 1;
    }
    assert(bytes@.subrange(0, bytes.len() as int) =~= bytes@);
    assert(out@ =~= old(out)@ + enc_text(t@));
}

/// The integer written at `pos`, and the position behind it.
pub fn read_u64(bytes: &[u8], pos: usize) -> (r: Option<(u64, usize)>)
    requires
        pos <= bytes@.len(),
    ensures
        match r {
            Some((x, q)) => q == pos + 8 && q <= bytes@.len() && dec_u64(bytes@.skip(pos as int)) == Some(
                (x, bytes@.skip(q as int)),
            ),
            None => bytes@.len() - pos < 8 && dec_u64(bytes@.skip(pos as int)) is None,
        },
{
    if bytes.len() - pos < 8 {
        return None;
    }
    let ghost s = bytes@.skip(pos as int).take(8);
    let mut acc: u64 = 0;
    let mut i: usize = 0;
    proof {
        assert(s.take(0) =~= Seq::<u8>::empty());
    }
    while i < 8
        invariant
            i <= 8,
            pos + 8 <= bytes.len(),
            s == bytes@.skip(pos as int).take(8),
            acc == be_value(s.take(i as int)),
            acc < pow256(i as nat),
        decreases 8 - i,
    {
        proof {
            reveal_with_fuel(pow256, 9);
            assert(s.take(i as int + 1).drop_last() =~= s.take(i as int));
            assert(s.take(i as int + 1).last() == bytes@[pos + i]);
        }
        acc = acc * 256 + bytes[pos + i] as u64;
        i += 1;
    }
    proof {
        assert(s.take(8) =~= s);
        assert(bytes@.skip(pos as int).skip(8) =~= bytes@.skip(pos as int + 8));
    }
    Some((acc, pos + 8))
}

/// The integer written at `pos`, and the position behind it.
pub fn read_u256(bytes: &[u8], pos: usize) -> (r: Option<(U256, usize)>)
    requires
        pos <= bytes@.len(),
    ensures
        match r {
            Some((x, q)) => pos <= q <= bytes@.len() && dec_u256(bytes@.skip(pos as int)) == Some(
                (x, bytes@.skip(q as int)),
            ),
            None => dec_u256(bytes@.skip(pos as int)) is None,
        },
{
    if bytes.len() - pos < 32 {
        return None;
    }
    let ghost s = bytes@.skip(pos as int);
    proof {
        assert(s.skip(8) =~= bytes@.skip(pos as int + 8));
        assert(s.skip(16) =~= bytes@.skip(pos as int + 16));
        assert(s.skip(24) =~= bytes@.skip(pos as int + 24));
        assert(s.skip(32) =~= bytes@.skip(pos as int + 32));
        assert(bytes@.skip(pos as int + 8).len() >= 8);
        assert(bytes@.skip(pos as int + 16).len() >= 8);
        assert(bytes@.skip(pos as int + 24).len() >= 8);
    }
    match (read_u64(bytes, pos), read_u64(bytes, pos + 8), read_u64(bytes, pos + 16), read_u64(bytes, pos + 24)) {
        (Some((l3, _)), Some((l2, _)), Some((l1, _)), Some((l0, _))) => Some((U256 { l0, l1, l2, l3 }, pos + 32)),
        _ => None,
    }
}

/// Reads UTF-8 bytes as text with `String::from_utf8`, which accepts
/// exactly the valid UTF-8 sequences and keeps their characters.
#[verifier::external_body]
fn text_from_utf8(bytes: Vec<u8>) -> (r: Option<String>)
    ensures
        r is Some <==> valid_utf8(bytes@),
        r is Some ==> r.unwrap()@ == decode_utf8(bytes@),
{
    String::from_utf8(bytes).ok()
}

/// The text written at `pos`, and the position behind it.
pub fn read_text(bytes: &[u8], pos: usize) -> (r: Option<(String, usize)>)
    requires
        pos <= bytes@.len(),
    ensures
        match r {
            Some((t, q)) => pos <= q <= bytes@.len() && dec_text(bytes@.skip(pos as int)) == Some(
                (t@, bytes@.skip(q as int)),
            ),
            None => dec_text(bytes@.skip(pos as int)) is None,
        },
{
    let (n, start) = match read_u64(bytes, pos) {
        Some(r) => r,
        None => {
            return None;
        },
    };
    if ((bytes.len() - start) as u64) < n {
        return None;
    }
    let n = n as usize;
    let mut buf: Vec<u8> = Vec::new();
    let mut i: usize = 0;
    while i < n
        invariant
            i <= n,
            start + n <= bytes.len(),
            buf@ == bytes@.subrange(start as int, start + i),
        decreases n - i,
    {
        buf.push(bytes[start + i]);
        assert(buf@ =~= bytes@.subrange(start as int, start + i + 1));
        i += 1;
    }
    proof {
        let rest = bytes@.skip(start as int);
        assert(rest.take(n as int) =~= buf@);
        assert(rest.skip(n as int) =~= bytes@.skip(start + n));
    }
    match text_from_utf8(buf) {
        Some(t) => Some((t, start + n)),
        None => None,
    }
}

/// Appends the byte that writes a truth value.
pub fn write_bool(out: &mut Vec<u8>, b: bool)
    ensures
        final(out)@ == old(out)@ + enc_bool(b),
{
    out.push(if b { 1u8 } else { 0u8 });
    assert(out@ =~= old(out)@ + enc_bool(b));
}

/// Appends the byte that writes the kind of a signal.
pub fn write_kind(out: &mut Vec<u8>, k: SignalKind)
    ensures
        final(out)@ == old(out)@ + enc_kind(k),
{
    out.push(
        match k {
            SignalKind::Input => 0u8,
            SignalKind::Output => 1u8,
            SignalKind::Internal => 2u8,
        },
    );
    assert(out@ =~= old(out)@ + enc_kind(k));
}

/// Appends the bytes that write a linear combination.
pub fn write_lc(out: &mut Vec<u8>, l: &LinearCombination)
    ensures
        final(out)@ == old(out)@ + enc_lc(l@),
        l@.terms.len() <= u64::MAX,
{
    write_u64(out, l.terms.len() as u64);
    let ghost head = out@;
    let mut i: usize = 0;
    proof {
        assert(out@ + enc_terms(l@.terms, 0) =~= head + enc_terms(l@.terms, 0));
    }
    while i < l.terms.len()
        invariant
            i <= l.terms.len(),
            out@ + enc_terms(l@.terms, i as int) == head + enc_terms(l@.terms, 0),
        decreases l.terms.len() - i,
    {
        let ghost before = out@;
        write_u64(out, l.terms[i].signal);
        write_u256(out, &l.terms[i].coeff);
        proof {
            assert(out@ =~= before + enc_term(l@.terms[i as int]));
            assert(out@ + enc_terms(l@.terms, i as int + 1) =~= before + enc_terms(l@.terms, i as int));
        }
        i += 1;
    }
    proof {
        assert(out@ + enc_terms(l@.terms, l@.terms.len() as int) =~= out@);
    }
    write_u256(out, &l.constant);
    assert(out@ =~= old(out)@ + enc_lc(l@));
}

/// Appends the bytes that write a constraint.
pub fn write_constraint(out: &mut Vec<u8>, c: &Constraint)
    ensures
        final(out)@ == old(out)@ + enc_constraint(c@),
        constraint_fits(c@),
{
    write_lc(out, &c.form.a);
    write_lc(out, &c.form.b);
    write_lc(out, &c.form.c);
    write_text(out, c.pos.as_str());
    assert(out@ =~= old(out)@ + enc_constraint(c@));
}

/// Appends the bytes that write the header of the store.
pub fn write_header(out: &mut Vec<u8>, store: &Store)
    requires
        store.wf(),
    ensures
        final(out)@ == old(out)@ + enc_header(store@),
        store@.p < crate::bigint::bound(),
        store@.top_component matches Some(t) ==> text_fits(t),
{
    let modulus = store.field().modulus();
    proof {
        store.lemma_wf();
        crate::bigint::lemma_u256_of(modulus);
    }
    write_u256(out, &modulus);
    write_bool(
        out,
        match store.optimizer() {
            Optimizer::Eliminate => true,
            Optimizer::Identity => false,
        },
    );
    match store.top_component() {
        Some(t) => {
            write_bool(out, true);
            write_text(out, t.as_str());
        },
        None => {
            write_bool(out, false);
        },
    }
    assert(out@ =~= old(out)@ + enc_header(store@));
}

/// Appends the bytes that write the signals of the store behind their
/// count.
pub fn write_signals(out: &mut Vec<u8>, store: &Store)
    requires
        store.wf(),
    ensures
        final(out)@ == old(out)@ + enc_u64(store@.signals.len() as u64) + enc_signals(entries_of(store@), 0),
        store@.signals.len() <= u64::MAX,
        forall|j: int| 0 <= j < store@.signals.len() ==> text_fits((#[trigger] store@.signals[j]).full_name),
{
    let signals = store.signals();
    let flags = store.eliminated();
    proof {
        store.lemma_wf();
    }
    write_u64(out, signals.len() as u64);
    let ghost st = store@;
    let ghost es = entries_of(st);
    let ghost head = out@;
    let mut i: usize = 0;
    proof {
        assert(out@ + enc_signals(es, 0) =~= head + enc_signals(es, 0));
    }
    while i < signals.len()
        invariant
            i <= signals.len(),
            st == store@,
            st.eliminated.len() == st.signals.len(),
            es == entries_of(st),
            crate::store::signals_view(signals@) == st.signals,
            flags@ == st.eliminated,
            out@ + enc_signals(es, i as int) == head + enc_signals(es, 0),
            forall|j: int| 0 <= j < i ==> text_fits((#[trigger] st.signals[j]).full_name),
        decreases signals.len() - i,
    {
        let ghost before = out@;
        proof {
            assert(st.signals[i as int] == signals@[i as int]@);
        }
        write_text(out, signals[i].full_name.as_str());
        write_kind(out, signals[i].kind);
        write_bool(out, flags[i]);
        proof {
            assert(out@ =~= before + enc_signal(es[i as int]));
            assert(out@ + enc_signals(es, i as int + 1) =~= before + enc_signals(es, i as int));
        }
        i += 1;
    }
    proof {
        assert(out@ + enc_signals(es, es.len() as int) =~= out@);
        assert(out@ =~= old(out)@ + enc_u64(st.signals.len() as u64) + enc_signals(es, 0));
    }
}

/// Appends the bytes that write the constraints of the store behind their
/// count.
pub fn write_constraints(out: &mut Vec<u8>, store: &Store)
    ensures
        final(out)@ == old(out)@ + enc_u64(store@.constraints.len() as u64) + enc_constraints(
            store@.constraints,
            0,
        ),
        store@.constraints.len() <= u64::MAX,
        forall|j: int| 0 <= j < store@.constraints.len() ==> constraint_fits(#[trigger] store@.constraints[j]),
{
    let constraints = store.constraints();
    write_u64(out, constraints.len() as u64);
    let ghost head = out@;
    let ghost cs = store@.constraints;
    let mut k: usize = 0;
    proof {
        assert(out@ + enc_constraints(cs, 0) =~= head + enc_constraints(cs, 0));
    }
    while k < constraints.len()
        invariant
            k <= constraints.len(),
            constraints_view(constraints@) == cs,
            out@ + enc_constraints(cs, k as int) == head + enc_constraints(cs, 0),
            forall|j: int| 0 <= j < k ==> constraint_fits(#[trigger] cs[j]),
        decreases constraints.len() - k,
    {
        let ghost before = out@;
        proof {
            assert(cs[k as int] == constraints@[k as int]@);
        }
        write_constraint(out, &constraints[k]);
        proof {
            assert(out@ + enc_constraints(cs, k as int + 1) =~= before + enc_constraints(cs, k as int));
        }
        k += 1;
    }
    proof {
        assert(out@ + enc_constraints(cs, cs.len() as int) =~= out@);
        assert(out@ =~= old(out)@ + enc_u64(cs.len() as u64) + enc_constraints(cs, 0));
    }
}

/// The bytes that write the store.
pub fn encode(store: &Store) -> (r: Vec<u8>)
    requires
        store.wf(),
    ensures
        r@ == enc_store(store@),
        encodable(store@),
{
    let mut out: Vec<u8> = Vec::new();
    write_header(&mut out, store);
    write_signals(&mut out, store);
    write_constraints(&mut out, store);
    proof {
        assert(out@ =~= enc_header(store@) + enc_body(store@));
    }
    out
}

/// The truth value written at `pos`, and the position behind it.
pub fn read_bool(bytes: &[u8], pos: usize) -> (r: Option<(bool, usize)>)
    requires
        pos <= bytes@.len(),
    ensures
        match r {
            Some((x, q)) => q == pos + 1 && q <= bytes@.len() && dec_bool(bytes@.skip(pos as int)) == Some(
                (x, bytes@.skip(q as int)),
            ),
            None => dec_bool(bytes@.skip(pos as int)) is None,
        },
{
    if pos >= bytes.len() || bytes[pos] > 1 {
        return None;
    }
    proof {
        assert(bytes@.skip(pos as int).skip(1) =~= bytes@.skip(pos as int + 1));
    }
    Some((bytes[pos] == 1, pos + 1))
}

/// The kind written at `pos`, and the position behind it.
pub fn read_kind(bytes: &[u8], pos: usize) -> (r: Option<(SignalKind, usize)>)
    requires
        pos <= bytes@.len(),
    ensures
        match r {
            Some((x, q)) => q == pos + 1 && q <= bytes@.len() && dec_kind(bytes@.skip(pos as int)) == Some(
                (x, bytes@.skip(q as int)),
            ),
            None => dec_kind(bytes@.skip(pos as int)) is None,
        },
{
    if pos >= bytes.len() || bytes[pos] > 2 {
        return None;
    }
    proof {
        assert(bytes@.skip(pos as int).skip(1) =~= bytes@.skip(pos as int + 1));
    }
    let k = if bytes[pos] == 0 {
        SignalKind::Input
    } else if bytes[pos] == 1 {
        SignalKind::Output
    } else {
        SignalKind::Internal
    };
    Some((k, pos + 1))
}

/// The counted terms written at `pos`, and the position behind them.
#[verifier::loop_isolation(false)]
pub fn read_term_list(bytes: &[u8], pos: usize) -> (r: Option<(Vec<Term>, usize)>)
    requires
        pos <= bytes@.len(),
    ensures
        match r {
            Some((ts, q)) => pos <= q <= bytes@.len() && dec_term_list(bytes@.skip(pos as int)) == Some(
                (ts@, bytes@.skip(q as int)),
            ),
            None => dec_term_list(bytes@.skip(pos as int)) is None,
        },
{
    let (n, start) = match read_u64(bytes, pos) {
        Some(r) => r,
        None => {
            return None;
        },
    };
    let mut terms: Vec<Term> = Vec::new();
    let mut at: usize = start;
    let mut i: u64 = 0;
    while i < n
        invariant
            i <= n,
            start <= at <= bytes@.len(),
            dec_terms(bytes@.skip(start as int), n as nat, Seq::empty()) == dec_terms(
                bytes@.skip(at as int),
                (n - i) as nat,
                terms@,
            ),
        decreases n - i,
    {
        let (signal, q1) = match read_u64(bytes, at) {
            Some(r) => r,
            None => {
                return None;
            },
        };
        let (coeff, q2) = match read_u256(bytes, q1) {
            Some(r) => r,
            None => {
                return None;
            },
        };
        terms.push(Term { signal, coeff });
        at = q2;
        i += 1;
    }
    Some((terms, at))
}

/// The linear combination written at `pos`, and the position behind it.
pub fn read_lc(bytes: &[u8], pos: usize) -> (r: Option<(LinearCombination, usize)>)
    requires
        pos <= bytes@.len(),
    ensures
        match r {
            Some((l, q)) => pos <= q <= bytes@.len() && dec_lc(bytes@.skip(pos as int)) == Some(
                (l@, bytes@.skip(q as int)),
            ),
            None => dec_lc(bytes@.skip(pos as int)) is None,
        },
{
    let (terms, at) = match read_term_list(bytes, pos) {
        Some(r) => r,
        None => {
            return None;
        },
    };
    match read_u256(bytes, at) {
        Some((constant, q)) => Some((LinearCombination { terms, constant }, q)),
        None => None,
    }
}

/// The constraint written at `pos`, and the position behind it.
pub fn read_constraint(bytes: &[u8], pos: usize) -> (r: Option<(Constraint, usize)>)
    requires
        pos <= bytes@.len(),
    ensures
        match r {
            Some((c, q)) => pos <= q <= bytes@.len() && dec_constraint(bytes@.skip(pos as int)) == Some(
                (c@, bytes@.skip(q as int)),
            ),
            None => dec_constraint(bytes@.skip(pos as int)) is None,
        },
{
    let (a, q1) = match read_lc(bytes, pos) {
        Some(r) => r,
        None => {
            return None;
        },
    };
    let (b, q2) = match read_lc(bytes, q1) {
        Some(r) => r,
        None => {
            return None;
        },
    };
    let (c, q3) = match read_lc(bytes, q2) {
        Some(r) => r,
        None => {
            return None;
        },
    };
    match read_text(bytes, q3) {
        Some((pos, q4)) => Some((Constraint { form: QuadraticForm { a, b, c }, pos }, q4)),
        None => None,
    }
}

/// What is written of the signals, each entry by its view.
pub open spec fn entries_view(v: Seq<(String, SignalKind, bool)>) -> Seq<SignalEntry> {
    Seq::new(v.len(), |i: int| SignalEntry { full_name: v[i].0@, kind: v[i].1, eliminated: v[i].2 })
}

/// The signal written at `pos`, and the position behind it.
pub fn read_signal(bytes: &[u8], pos: usize) -> (r: Option<((String, SignalKind, bool), usize)>)
    requires
        pos <= bytes@.len(),
    ensures
        match r {
            Some((e, q)) => pos <= q <= bytes@.len() && dec_signal(bytes@.skip(pos as int)) == Some(
                (SignalEntry { full_name: e.0@, kind: e.1, eliminated: e.2 }, bytes@.skip(q as int)),
            ),
            None => dec_signal(bytes@.skip(pos as int)) is None,
        },
{
    let (name, q1) = match read_text(bytes, pos) {
        Some(r) => r,
        None => {
            return None;
        },
    };
    let (kind, q2) = match read_kind(bytes, q1) {
        Some(r) => r,
        None => {
            return None;
        },
    };
    match read_bool(bytes, q2) {
        Some((eliminated, q3)) => Some(((name, kind, eliminated), q3)),
        None => None,
    }
}

/// The counted signals written at `pos`, and the position behind them.
#[verifier::loop_isolation(false)]
pub fn read_signal_list(bytes: &[u8], pos: usize) -> (r: Option<(Vec<(String, SignalKind, bool)>, usize)>)
    requires
        pos <= bytes@.len(),
    ensures
        match r {
            Some((es, q)) => pos <= q <= bytes@.len() && dec_signal_list(bytes@.skip(pos as int)) == Some(
                (entries_view(es@), bytes@.skip(q as int)),
            ),
            None => dec_signal_list(bytes@.skip(pos as int)) is None,
        },
{
    let (n, start) = match read_u64(bytes, pos) {
        Some(r) => r,
        None => {
            return None;
        },
    };
    let mut entries: Vec<(String, SignalKind, bool)> = Vec::new();
    let mut at: usize = start;
    let mut i: u64 = 0;
    proof {
        assert(entries_view(entries@) =~= Seq::<SignalEntry>::empty());
    }
    while i < n
        invariant
            i <= n,
            start <= at <= bytes@.len(),
            dec_signals(bytes@.skip(start as int), n as nat, Seq::empty()) == dec_signals(
                bytes@.skip(at as int),
                (n - i) as nat,
                entries_view(entries@),
            ),
        decreases n - i,
    {
        let (e, q) = match read_signal(bytes, at) {
            Some(r) => r,
            None => {
                return None;
            },
        };
        proof {
            assert(entries_view(entries@.push(e)) =~= entries_view(entries@).push(
                SignalEntry { full_name: e.0@, kind: e.1, eliminated: e.2 },
            ));
        }
        entries.push(e);
        at = q;
        i += 1;
    }
    Some((entries, at))
}

/// The counted constraints written at `pos`, and the position behind them.
#[verifier::loop_isolation(false)]
pub fn read_constraint_list(bytes: &[u8], pos: usize) -> (r: Option<(Vec<Constraint>, usize)>)
    requires
        pos <= bytes@.len(),
    ensures
        match r {
            Some((cs, q)) => pos <= q <= bytes@.len() && dec_constraint_list(bytes@.skip(pos as int))
                == Some((constraints_view(cs@), bytes@.skip(q as int))),
            None => dec_constraint_list(bytes@.skip(pos as int)) is None,
        },
{
    let (k, start) = match read_u64(bytes, pos) {
        Some(r) => r,
        None => {
            return None;
        },
    };
    let mut constraints: Vec<Constraint> = Vec::new();
    let mut at: usize = start;
    let mut j: u64 = 0;
    proof {
        assert(constraints_view(constraints@) =~= Seq::<ConstraintView>::empty());
    }
    while j < k
        invariant
            j <= k,
            start <= at <= bytes@.len(),
            dec_constraints(bytes@.skip(start as int), k as nat, Seq::empty()) == dec_constraints(
                bytes@.skip(at as int),
                (k - j) as nat,
                constraints_view(constraints@),
            ),
        decreases k - j,
    {
        let (c, q) = match read_constraint(bytes, at) {
            Some(r) => r,
            None => {
                return None;
            },
        };
        proof {
            assert(constraints_view(constraints@.push(c)) =~= constraints_view(constraints@).push(c@));
        }
        constraints.push(c);
        at = q;
        j += 1;
    }
    Some((constraints, at))
}

/// The top-level component as contracts see it.
pub open spec fn top_view(top: Option<String>) -> Option<Seq<char>> {
    match top {
        Some(t) => Some(t@),
        None => None,
    }
}

/// The header written at `pos`, and the position behind it.
pub fn read_header(bytes: &[u8], pos: usize) -> (r: Option<(U256, Optimizer, Option<String>, usize)>)
    requires
        pos <= bytes@.len(),
    ensures
        match r {
            Some((m, o, t, q)) => pos <= q <= bytes@.len() && dec_header(bytes@.skip(pos as int)) == Some(
                (m@, o, top_view(t), bytes@.skip(q as int)),
            ),
            None => dec_header(bytes@.skip(pos as int)) is None,
        },
{
    let (modulus, q1) = match read_u256(bytes, pos) {
        Some(r) => r,
        None => {
            return None;
        },
    };
    let (eliminate, q2) = match read_bool(bytes, q1) {
        Some(r) => r,
        None => {
            return None;
        },
    };
    let optimizer = if eliminate {
        Optimizer::Eliminate
    } else {
        Optimizer::Identity
    };
    let (has_top, q3) = match read_bool(bytes, q2) {
        Some(r) => r,
        None => {
            return None;
        },
    };
    if has_top {
        match read_text(bytes, q3) {
            Some((t, q)) => Some((modulus, optimizer, Some(t), q)),
            None => None,
        }
    } else {
        Some((modulus, optimizer, None, q3))
    }
}

/// What `Store::restore` describes is what the decoder assembles.
pub proof fn lemma_restored_is_assembled(
    p: nat,
    optimizer: Optimizer,
    top: Option<String>,
    entries: Seq<(String, SignalKind, bool)>,
    constraints: Seq<Constraint>,
)
    ensures
        restored(p, optimizer, top, entries, constraints) == assemble(
            p,
            optimizer,
            top_view(top),
            entries_view(entries),
            constraints_view(constraints),
        ),
{
    let back = restored(p, optimizer, top, entries, constraints);
    let goal = assemble(p, optimizer, top_view(top), entries_view(entries), constraints_view(constraints));
    assert(back.signals =~= goal.signals);
    assert(back.eliminated =~= goal.eliminated);
}

/// The store that the bytes write.
#[verifier::rlimit(50)]
pub fn decode(bytes: &[u8]) -> (r: Result<Store, Error>)
    ensures
        match r {
            Ok(st) => st.wf() && dec_store(bytes@) == Some(st@),
            Err(e) => dec_store(bytes@) is None && e@.kind == ErrorKind::StorageCorruption,
        },
{
    proof {
        assert(bytes@.skip(0) =~= bytes@);
    }
    let (modulus, optimizer, top, q1) = match read_header(bytes, 0) {
        Some(r) => r,
        None => {
            return Err(Error::StorageCorruption("header".to_owned()));
        },
    };
    let (entries, q2) = match read_signal_list(bytes, q1) {
        Some(r) => r,
        None => {
            return Err(Error::StorageCorruption("signals".to_owned()));
        },
    };
    let (constraints, q3) = match read_constraint_list(bytes, q2) {
        Some(r) => r,
        None => {
            return Err(Error::StorageCorruption("constraints".to_owned()));
        },
    };
    if q3 != bytes.len() {
        return Err(Error::StorageCorruption("trailing bytes".to_owned()));
    }
    let ghost goal = assemble(
        modulus@,
        optimizer,
        top_view(top),
        entries_view(entries@),
        constraints_view(constraints@),
    );
    let field = match Field::new(modulus) {
        Some(f) => f,
        None => {
            return Err(Error::StorageCorruption("modulus".to_owned()));
        },
    };
    proof {
        lemma_restored_is_assembled(field.p(), optimizer, top, entries@, constraints@);
        assert(bytes@.skip(q3 as int).len() == 0);
        assert(dec_header(bytes@) == Some((modulus@, optimizer, top_view(top), bytes@.skip(q1 as int))));
        assert(dec_store(bytes@) == (if goal.valid() {
            Some(goal)
        } else {
            None
        }));
    }
    match Store::restore(field, optimizer, top, entries, constraints) {
        Some(st) => {
            proof {
                st.lemma_wf();
            }
            Ok(st)
        },
        None => Err(Error::StorageCorruption("content".to_owned())),
    }
}

/// The BLAKE2b hash of `n` bytes of the bytes `data` under the key `key`.
pub uninterp spec fn blake2b_hash(n: nat, key: Seq<u8>, data: Seq<u8>) -> Seq<u8>;

/// Hashes `data` with `blake2_rfc::blake2b::blake2b`, which returns `n`
/// bytes that depend on `n`, the key and the data alone; it needs `n`
/// between 1 and 64 and, as stated here, no key.
#[verifier::external_body]
fn blake2b(n: usize, key: &[u8], data: &[u8]) -> (r: Vec<u8>)
    requires
        1 <= n <= 64,
        key@.len() == 0,
    ensures
        r@ == blake2b_hash(n as nat, key@, data@),
        r@.len() == n,
{
    blake2_rfc::blake2b::blake2b(n, key, data).as_bytes().to_vec()
}

/// The digest of the store: the BLAKE2b hash of 32 bytes of the bytes that
/// write it. Stores that are written alike have the same digest.
pub fn digest(store: &Store) -> (r: Vec<u8>)
    requires
        store.wf(),
    ensures
        r@ == blake2b_hash(32, Seq::empty(), enc_store(store@)),
        r@.len() == 32,
{
    let bytes = encode(store);
    let key: Vec<u8> = Vec::new();
    blake2b(32, key.as_slice(), bytes.as_slice())
}

} // verus!
