//! The catalogue of declared signals and accumulated constraints.

use vstd::prelude::*;
use crate::ast::SignalKind;
use crate::constraint::FormView;
use crate::constraint::QuadraticForm;
use crate::error::Error;
use crate::field::Field;
use crate::field::fermat_inverse;
use crate::lc::lemma_coeff_at;
use crate::lc::lemma_coeff_witness;
use crate::lc::lemma_named_in_range;
use crate::lc::LinearCombination;
use crate::namemap::NameMap;

verus! {

/// A declared signal.
#[derive(Debug)]
pub struct SignalRecord {
    pub id: u64,
    /// The dotted path from the top-level component to the signal.
    pub full_name: String,
    pub kind: SignalKind,
    /// The dotted path of the component that declared the signal.
    pub component_path: String,
}

/// A stored constraint and the position of the statement that stated it.
#[derive(Debug)]
pub struct Constraint {
    pub form: QuadraticForm,
    pub pos: String,
}

/// What is done with a constraint when it is added.
#[derive(Clone, Copy, Debug, PartialEq, Eq, Structural)]
pub enum Optimizer {
    /// Every constraint is stored as it comes.
    Identity,
    /// A linear constraint that determines a signal which no stored
    /// constraint names is not stored; the signal is marked eliminated.
    Eliminate,
}

/// A signal record as contracts see it.
pub struct SignalView {
    pub id: u64,
    pub full_name: Seq<char>,
    pub kind: SignalKind,
    pub component_path: Seq<char>,
}

/// A stored constraint as contracts see it.
pub struct ConstraintView {
    pub form: FormView,
    pub pos: Seq<char>,
}

impl View for SignalRecord {
    type V = SignalView;

    open spec fn view(&self) -> SignalView {
        SignalView {
            id: self.id,
            full_name: self.full_name@,
            kind: self.kind,
            component_path: self.component_path@,
        }
    }
}

impl View for Constraint {
    type V = ConstraintView;

    open spec fn view(&self) -> ConstraintView {
        ConstraintView { form: self.form@, pos: self.pos@ }
    }
}

/// The store as contracts see it.
pub struct StoreView {
    /// The modulus of the field.
    pub p: nat,
    pub optimizer: Optimizer,
    /// The signals in the order of their declaration.
    pub signals: Seq<SignalView>,
    /// For each signal, whether the optimizer has eliminated it.
    pub eliminated: Seq<bool>,
    /// The constraints in the order of their insertion.
    pub constraints: Seq<ConstraintView>,
    pub top_component: Option<Seq<char>>,
}

/// The id of the signal named `name`.
pub open spec fn lookup(signals: Seq<SignalView>, name: Seq<char>) -> Option<u64> {
    if exists|i: int| 0 <= i < signals.len() && (#[trigger] signals[i]).full_name == name {
        let i = choose|i: int| 0 <= i < signals.len() && (#[trigger] signals[i]).full_name == name;
        Some(signals[i].id)
    } else {
        None
    }
}

/// The index of the last `.` in `s`.
pub open spec fn last_dot(s: Seq<char>) -> Option<int>
    decreases s.len(),
{
    if s.len() == 0 {
        None
    } else if s.last() == '.' {
        Some(s.len() - 1)
    } else {
        last_dot(s.drop_last())
    }
}

/// The path of the component that owns the signal `full_name`: the text in
/// front of the last `.`, or nothing where there is no `.`.
pub open spec fn component_of(full_name: Seq<char>) -> Seq<char> {
    match last_dot(full_name) {
        Some(i) => full_name.subrange(0, i),
        None => Seq::empty(),
    }
}

/// Whether the form names the signal `id`.
pub open spec fn form_names(f: FormView, id: nat) -> bool {
    f.a.coeff(id) != 0 || f.b.coeff(id) != 0 || f.c.coeff(id) != 0
}

impl StoreView {
    /// What holds of every store: ids are dense and in declaration order,
    /// full names are unique, and every constraint is a well-formed
    /// quadratic form over declared signals that are not eliminated.
    pub open spec fn valid(self) -> bool {
        &&& self.p >= 2
        &&& self.signals.len() <= u64::MAX
        &&& self.eliminated.len() == self.signals.len()
        &&& forall|i: int| 0 <= i < self.signals.len() ==> (#[trigger] self.signals[i]).id == i
        &&& forall|i: int|
            0 <= i < self.signals.len() ==> (#[trigger] self.signals[i]).component_path == component_of(
                self.signals[i].full_name,
            )
        &&& forall|i: int, j: int|
            0 <= i < j < self.signals.len() ==> (#[trigger] self.signals[i]).full_name != (
            #[trigger] self.signals[j]).full_name
        &&& forall|k: int|
            0 <= k < self.constraints.len() ==> {
                &&& (#[trigger] self.constraints[k]).form.wf(self.p)
                &&& self.constraints[k].form.within(self.signals.len())
            }
        &&& forall|k: int, s: int|
            0 <= k < self.constraints.len() && 0 <= s < self.signals.len() && #[trigger] form_names(
                self.constraints[k].form,
                s as nat,
            ) ==> !self.eliminated[s]
    }
}

/// Whether some stored constraint names the signal `id`.
pub open spec fn referenced(st: StoreView, id: nat) -> bool {
    exists|k: int| 0 <= k < st.constraints.len() && form_names(#[trigger] st.constraints[k].form, id)
}

/// Whether the form names a signal that has been eliminated.
pub open spec fn names_eliminated(st: StoreView, f: FormView) -> bool {
    exists|s: int| 0 <= s < st.eliminated.len() && #[trigger] st.eliminated[s] && form_names(f, s as nat)
}

/// Whether the linear constraint `f` determines the signal of its term `i`
/// and nothing else depends on that signal: the signal is internal, no stored
/// constraint names it, and its coefficient has an inverse.
pub open spec fn qualifies(st: StoreView, f: FormView, i: int) -> bool {
    let t = f.c.terms[i];
    &&& st.signals[t.signal as int].kind == SignalKind::Internal
    &&& !referenced(st, t.signal as nat)
    &&& (t.coeff@ * fermat_inverse(t.coeff@, st.p)) % st.p == 1
}

/// The last of the first `n` terms of `f.c` that qualifies.
pub open spec fn candidate_upto(st: StoreView, f: FormView, n: int) -> Option<int>
    decreases n,
{
    if n <= 0 {
        None
    } else if qualifies(st, f, n - 1) {
        Some(n - 1)
    } else {
        candidate_upto(st, f, n - 1)
    }
}

/// The signal that the eliminating optimizer removes when `f` is added: that
/// of the last qualifying term of a linear `f`.
pub open spec fn elimination_candidate(st: StoreView, f: FormView) -> Option<u64> {
    if f.is_linear() {
        match candidate_upto(st, f, f.c.terms.len() as int) {
            Some(i) => Some(f.c.terms[i].signal),
            None => None,
        }
    } else {
        None
    }
}

/// The store after the constraint `f`, stated at `pos`, was added to `st`.
pub open spec fn store_after_add(st: StoreView, f: FormView, pos: Seq<char>) -> StoreView {
    let stored = StoreView { constraints: st.constraints.push(ConstraintView { form: f, pos }), ..st };
    match st.optimizer {
        Optimizer::Identity => stored,
        Optimizer::Eliminate => match elimination_candidate(st, f) {
            Some(s) => StoreView { eliminated: st.eliminated.update(s as int, true), ..st },
            None => stored,
        },
    }
}

/// The store that holds the signals `entries` under the ids `0, 1, ...` and
/// the constraints `constraints`.
pub open spec fn restored(
    p: nat,
    optimizer: Optimizer,
    top_component: Option<String>,
    entries: Seq<(String, SignalKind, bool)>,
    constraints: Seq<Constraint>,
) -> StoreView {
    StoreView {
        p,
        optimizer,
        signals: Seq::new(
            entries.len(),
            |i: int|
                SignalView {
                    id: i as u64,
                    full_name: entries[i].0@,
                    kind: entries[i].1,
                    component_path: component_of(entries[i].0@),
                },
        ),
        eliminated: Seq::new(entries.len(), |i: int| entries[i].2),
        constraints: constraints_view(constraints),
        top_component: match top_component {
            Some(t) => Some(t@),
            None => None,
        },
    }
}

/// In a valid store a name is looked up to the index of the one signal that
/// has it.
pub proof fn lemma_lookup(st: StoreView, name: Seq<char>)
    requires
        st.valid(),
    ensures
        match lookup(st.signals, name) {
            Some(id) => id < st.signals.len() && st.signals[id as int].full_name == name,
            None => forall|i: int| 0 <= i < st.signals.len() ==> (#[trigger] st.signals[i]).full_name != name,
        },
{
}

/// In a valid store the ids are the indices `0, 1, ...` in the order of
/// declaration, no two signals share a full name, and a full name is looked
/// up to the id of its signal: names and ids correspond one to one.
pub proof fn law_names_and_ids_correspond(st: StoreView, i: int, j: int)
    requires
        st.valid(),
        0 <= i < st.signals.len(),
        0 <= j < st.signals.len(),
    ensures
        st.signals[i].id == i,
        st.signals[i].full_name == st.signals[j].full_name <==> i == j,
        st.signals[i].id == st.signals[j].id <==> i == j,
        lookup(st.signals, st.signals[i].full_name) == Some(i as u64),
{
    lemma_lookup(st, st.signals[i].full_name);
    if i < j {
        assert(st.signals[i].full_name != st.signals[j].full_name);
    }
    if j < i {
        assert(st.signals[j].full_name != st.signals[i].full_name);
    }
    let found = lookup(st.signals, st.signals[i].full_name).unwrap() as int;
    if found < i {
        assert(st.signals[found].full_name != st.signals[i].full_name);
    }
    if i < found {
        assert(st.signals[i].full_name != st.signals[found].full_name);
    }
}

/// In a valid store no constraint names an eliminated signal.
pub proof fn lemma_named_not_eliminated(st: StoreView, k: int, s: int)
    requires
        st.valid(),
        0 <= k < st.constraints.len(),
        0 <= s < st.signals.len(),
        form_names(st.constraints[k].form, s as nat),
    ensures
        !st.eliminated[s],
{
}

/// In a valid store every constraint is a quadratic form `a * b + c` of
/// canonical linear combinations, `a` and `b` are both zero or both not,
/// and every signal that the constraint names is declared and not
/// eliminated.
pub proof fn law_constraints_are_well_formed(st: StoreView, k: int, id: nat)
    requires
        st.valid(),
        0 <= k < st.constraints.len(),
    ensures
        st.constraints[k].form.a.wf(st.p),
        st.constraints[k].form.b.wf(st.p),
        st.constraints[k].form.c.wf(st.p),
        st.constraints[k].form.a.is_zero() <==> st.constraints[k].form.b.is_zero(),
        form_names(st.constraints[k].form, id) ==> id < st.signals.len() && !st.eliminated[id as int],
{
    let f = st.constraints[k].form;
    assert(f.wf(st.p) && f.within(st.signals.len()));
    if form_names(f, id) {
        if f.a.coeff(id) != 0 {
            lemma_named_in_range(f.a, st.signals.len(), id);
        } else if f.b.coeff(id) != 0 {
            lemma_named_in_range(f.b, st.signals.len(), id);
        } else {
            lemma_named_in_range(f.c, st.signals.len(), id);
        }
        lemma_named_not_eliminated(st, k, id as int);
    }
}

/// The signals, each by its view.
pub open spec fn signals_view(v: Seq<SignalRecord>) -> Seq<SignalView> {
    Seq::new(v.len(), |i: int| v[i]@)
}

/// The constraints, each by its view.
pub open spec fn constraints_view(v: Seq<Constraint>) -> Seq<ConstraintView> {
    Seq::new(v.len(), |i: int| v[i]@)
}

/// The signals and constraints that evaluation has produced.
#[derive(Debug)]
pub struct Store {
    field: Field,
    optimizer: Optimizer,
    signals: Vec<SignalRecord>,
    index: NameMap<u64>,
    eliminated: Vec<bool>,
    constraints: Vec<Constraint>,
    top_component: Option<String>,
}

impl View for Store {
    type V = StoreView;

    closed spec fn view(&self) -> StoreView {
        StoreView {
            p: self.field.p(),
            optimizer: self.optimizer,
            signals: signals_view(self.signals@),
            eliminated: self.eliminated@,
            constraints: constraints_view(self.constraints@),
            top_component: match self.top_component {
                Some(s) => Some(s@),
                None => None,
            },
        }
    }
}

impl Store {
    /// Whether the store is valid and its name index agrees with its signals.
    pub closed spec fn wf(&self) -> bool {
        &&& self@.valid()
        &&& forall|name: Seq<char>| #[trigger]
            self.index@.dom().contains(name) <==> lookup(self@.signals, name) is Some
        &&& forall|name: Seq<char>| #[trigger]
            self.index@.dom().contains(name) ==> Some(self.index@[name]) == lookup(self@.signals, name)
    }

    /// The field that the store's constraints are stated over.
    pub closed spec fn spec_field(&self) -> Field {
        self.field
    }

    /// A well-formed store is valid.
    pub proof fn lemma_wf(&self)
        requires
            self.wf(),
        ensures
            self@.valid(),
            self@.p == self.spec_field().p(),
    {
    }

    /// A store without signals and constraints.
    pub fn new(field: Field, optimizer: Optimizer) -> (r: Store)
        ensures
            r.wf(),
            r.spec_field() == field,
            r@ == (StoreView {
                p: field.p(),
                optimizer,
                signals: Seq::empty(),
                eliminated: Seq::empty(),
                constraints: Seq::empty(),
                top_component: None,
            }),
    {
        let r = Store {
            field,
            optimizer,
            signals: Vec::new(),
            index: NameMap::new(),
            eliminated: Vec::new(),
            constraints: Vec::new(),
            top_component: None,
        };
        proof {
            use_type_invariant(&field);
            field.lemma_valid();
            assert(r@.signals =~= Seq::empty());
            assert(r@.constraints =~= Seq::empty());
        }
        r
    }

    /// The field that the store's constraints are stated over.
    pub fn field(&self) -> (r: &Field)
        ensures
            *r == self.spec_field(),
            r.p() == self@.p,
    {
        &self.field
    }

    /// The signals in the order of their ids.
    pub fn signals(&self) -> (r: &Vec<SignalRecord>)
        ensures
            signals_view(r@) == self@.signals,
    {
        &self.signals
    }

    /// The constraints in the order of their insertion.
    pub fn constraints(&self) -> (r: &Vec<Constraint>)
        ensures
            constraints_view(r@) == self@.constraints,
    {
        &self.constraints
    }

    /// The number of declared signals, which is the id of the next one.
    pub fn next_signal_id(&self) -> (r: u64)
        requires
            self.wf(),
        ensures
            r == self@.signals.len(),
    {
        self.signals.len() as u64
    }

    /// The id of the signal named `full_name`.
    pub fn lookup_signal(&self, full_name: &str) -> (r: Option<u64>)
        requires
            self.wf(),
        ensures
            r == lookup(self@.signals, full_name@),
            r is Some ==> r.unwrap() < self@.signals.len(),
    {
        let k = full_name.to_owned();
        proof {
            lemma_lookup(self@, full_name@);
        }
        match self.index.get(&k) {
            Some(id) => Some(*id),
            None => None,
        }
    }

    /// Whether the optimizer has eliminated the signal `id`.
    pub fn is_eliminated(&self, id: u64) -> (r: bool)
        requires
            self.wf(),
        ensures
            r == (id < self@.signals.len() && self@.eliminated[id as int]),
    {
        if (id as usize) < self.eliminated.len() && id <= usize::MAX as u64 {
            self.eliminated[id as usize]
        } else {
            false
        }
    }

    /// The top-level component that the store was filled for.
    pub fn top_component(&self) -> (r: &Option<String>)
        ensures
            match *r {
                Some(s) => self@.top_component == Some(s@),
                None => self@.top_component is None,
            },
    {
        &self.top_component
    }

    /// Names the top-level component.
    pub fn set_top_component(&mut self, name: String)
        requires
            old(self).wf(),
        ensures
            final(self).wf(),
            final(self).spec_field() == old(self).spec_field(),
            final(self)@ == (StoreView { top_component: Some(name@), ..old(self)@ }),
    {
        self.top_component = Some(name);
    }

    /// Whether `l` names a signal that has been eliminated.
    fn lc_names_eliminated(&self, l: &LinearCombination) -> (r: bool)
        requires
            self.wf(),
            l@.wf(self@.p),
            l@.within(self@.signals.len()),
        ensures
            r == exists|s: int|
                0 <= s < self@.eliminated.len() && #[trigger] self@.eliminated[s] && l@.coeff(s as nat) != 0,
    {
        let mut i: usize = 0;
        while i < l.terms.len()
            invariant
                i <= l.terms.len(),
                self.wf(),
                l@.wf(self@.p),
                l@.within(self@.signals.len()),
                forall|j: int| 0 <= j < i ==> !self@.eliminated[(#[trigger] l.terms@[j]).signal as int],
            decreases l.terms.len() - i,
        {
            let s = l.terms[i].signal;
            let count = self.eliminated.len();
            assert(l@.terms[i as int].signal < self@.signals.len());
            assert(s < count);
            if self.eliminated[s as usize] {
                proof {
                    lemma_coeff_at(l@.terms, i as int);
                    assert(self@.eliminated[s as int] && l@.coeff(s as nat) != 0);
                }
                return true;
            }
            i += 1;
        }
        proof {
            assert forall|s: int|
                0 <= s < self@.eliminated.len() && #[trigger] self@.eliminated[s] implies l@.coeff(s as nat)
                == 0 by {
                lemma_coeff_witness(l@.terms, s as nat);
            }
        }
        false
    }

    /// Whether some stored constraint names the signal `id`.
    fn is_referenced(&self, id: u64) -> (r: bool)
        requires
            self.wf(),
        ensures
            r == referenced(self@, id as nat),
    {
        let mut k: usize = 0;
        while k < self.constraints.len()
            invariant
                k <= self.constraints.len(),
                self.wf(),
                forall|j: int| 0 <= j < k ==> !form_names(#[trigger] self@.constraints[j].form, id as nat),
            decreases self.constraints.len() - k,
        {
            let f = &self.constraints[k].form;
            proof {
                assert(self@.constraints[k as int].form == f@);
                assert(self@.constraints[k as int].form.wf(self@.p));
            }
            if f.a.names(id, &self.field) || f.b.names(id, &self.field) || f.c.names(id, &self.field) {
                return true;
            }
            k += 1;
        }
        false
    }

    /// The signal that the eliminating optimizer removes when `q` is added.
    fn find_candidate(&self, q: &QuadraticForm) -> (r: Option<u64>)
        requires
            self.wf(),
            q@.wf(self@.p),
            q@.within(self@.signals.len()),
        ensures
            r == elimination_candidate(self@, q@),
            r is Some ==> r.unwrap() < self@.signals.len() && !referenced(self@, r.unwrap() as nat),
    {
        if !(q.a.is_zero() && q.b.is_zero()) {
            return None;
        }
        let mut i: usize = q.c.terms.len();
        while i > 0
            invariant
                i <= q.c.terms.len(),
                self.wf(),
                q@.wf(self@.p),
                q@.within(self@.signals.len()),
                q@.is_linear(),
                candidate_upto(self@, q@, q@.c.terms.len() as int) == candidate_upto(self@, q@, i as int),
            decreases i,
        {
            let t = q.c.terms[i - 1];
            let count = self.signals.len();
            proof {
                assert(q@.c.terms[i - 1].signal < self@.signals.len());
                assert(t.signal < count);
                assert(0 < q@.c.terms[i - 1].coeff@ < self@.p);
                assert(self@.signals[t.signal as int] == self.signals@[t.signal as int]@);
            }
            let internal = match self.signals[t.signal as usize].kind {
                SignalKind::Internal => true,
                _ => false,
            };
            if internal && !self.is_referenced(t.signal) && self.field.inv(&t.coeff).is_some() {
                return Some(t.signal);
            }
            i -= 1;
        }
        None
    }

    /// Adds the constraint `q`, stated at `pos`, and lets the optimizer act
    /// on it.
    pub fn add_constraint(&mut self, q: QuadraticForm, pos: String) -> (r: Result<(), Error>)
        requires
            old(self).wf(),
            q@.wf(old(self)@.p),
        ensures
            final(self).wf(),
            final(self).spec_field() == old(self).spec_field(),
            match r {
                Ok(_) => {
                    &&& q@.within(old(self)@.signals.len())
                    &&& !names_eliminated(old(self)@, q@)
                    &&& final(self)@ == store_after_add(old(self)@, q@, pos@)
                },
                Err(e) => {
                    &&& final(self)@ == old(self)@
                    &&& if !q@.within(old(self)@.signals.len()) {
                        e matches Error::InvalidConstraintSignal(x) && x@ == pos@
                    } else {
                        &&& names_eliminated(old(self)@, q@)
                        &&& e matches Error::InternalInvariant(x)
                        &&& x@ == pos@
                    }
                },
            },
    {
        let n = self.signals.len() as u64;
        if !(q.a.is_within(n) && q.b.is_within(n) && q.c.is_within(n)) {
            return Err(Error::InvalidConstraintSignal(pos));
        }
        if self.lc_names_eliminated(&q.a) || self.lc_names_eliminated(&q.b) || self.lc_names_eliminated(
            &q.c,
        ) {
            return Err(Error::InternalInvariant(pos));
        }
        let ghost before = self@;
        let candidate = match self.optimizer {
            Optimizer::Identity => None,
            Optimizer::Eliminate => self.find_candidate(&q),
        };
        match candidate {
            Some(s) => {
                self.eliminated.set(s as usize, true);
                proof {
                    let after = self@;
                    assert(after.constraints == before.constraints);
                    assert(after.signals == before.signals);
                    assert forall|k: int, x: int|
                        0 <= k < after.constraints.len() && 0 <= x < after.signals.len()
                            && #[trigger] form_names(after.constraints[k].form, x as nat) implies !after.eliminated[x] by {
                        assert(form_names(before.constraints[k].form, x as nat));
                        assert(!before.eliminated[x]);
                    }
                }
            },
            None => {
                let c = Constraint { form: q, pos };
                let ghost cv = c@;
                self.constraints.push(c);
                proof {
                    let after = self@;
                    assert(after.constraints =~= before.constraints.push(cv));
                    assert forall|k: int, x: int|
                        0 <= k < after.constraints.len() && 0 <= x < after.signals.len()
                            && #[trigger] form_names(after.constraints[k].form, x as nat) implies !after.eliminated[x] by {
                        if k < before.constraints.len() {
                            assert(form_names(before.constraints[k].form, x as nat));
                        } else {
                            assert(form_names(q@, x as nat));
                        }
                    }
                }
            },
        }
        Ok(())
    }

    /// What is done with a constraint when it is added.
    pub fn optimizer(&self) -> (r: Optimizer)
        ensures
            r == self@.optimizer,
    {
        self.optimizer
    }

    /// For each signal, whether the optimizer has eliminated it.
    pub fn eliminated(&self) -> (r: &Vec<bool>)
        ensures
            r@ == self@.eliminated,
    {
        &self.eliminated
    }

    /// Whether the form `f` may be stored: it is well-formed over the field,
    /// names declared signals only, and none that is eliminated.
    fn admits(&self, f: &QuadraticForm) -> (r: bool)
        requires
            self.wf(),
        ensures
            r == (f@.wf(self@.p) && f@.within(self@.signals.len()) && !names_eliminated(self@, f@)),
    {
        let n = self.signals.len() as u64;
        if !(f.a.is_wf(&self.field) && f.b.is_wf(&self.field) && f.c.is_wf(&self.field)) {
            return false;
        }
        if f.a.is_zero() != f.b.is_zero() {
            return false;
        }
        if !(f.a.is_within(n) && f.b.is_within(n) && f.c.is_within(n)) {
            return false;
        }
        !(self.lc_names_eliminated(&f.a) || self.lc_names_eliminated(&f.b) || self.lc_names_eliminated(&f.c))
    }

    /// The store that holds the signals `entries`, each with its full name,
    /// its kind and whether it is eliminated, under the ids `0, 1, ...`, and
    /// the constraints `constraints`; nothing where that is no valid store.
    pub fn restore(
        field: Field,
        optimizer: Optimizer,
        top_component: Option<String>,
        entries: Vec<(String, SignalKind, bool)>,
        constraints: Vec<Constraint>,
    ) -> (r: Option<Store>)
        ensures
            match r {
                Some(st) => st.wf() && st.spec_field() == field && st@ == restored(
                    field.p(),
                    optimizer,
                    top_component,
                    entries@,
                    constraints@,
                ),
                None => !restored(field.p(), optimizer, top_component, entries@, constraints@).valid(),
            },
    {
        let ghost goal = restored(field.p(), optimizer, top_component, entries@, constraints@);
        let mut st = Store::new(field, optimizer);
        let mut flags: Vec<bool> = Vec::new();
        let mut i: usize = 0;
        while i < entries.len()
            invariant
                i <= entries.len(),
                goal == restored(field.p(), optimizer, top_component, entries@, constraints@),
                st.wf(),
                st.spec_field() == field,
                st@.p == field.p(),
                st@.optimizer == optimizer,
                st@.top_component is None,
                st@.constraints.len() == 0,
                st@.signals == goal.signals.take(i as int),
                flags@ == goal.eliminated.take(i as int),
            decreases entries.len() - i,
        {
            let ghost before = st@.signals;
            match st.declare_signal(entries[i].0.clone(), entries[i].1) {
                Ok(_) => {},
                Err(_) => {
                    proof {
                        lemma_lookup(st@, entries@[i as int].0@);
                        let j = lookup(st@.signals, entries@[i as int].0@).unwrap() as int;
                        assert(goal.signals[j] == goal.signals.take(i as int)[j]);
                        assert(goal.signals[j].full_name == goal.signals[i as int].full_name);
                    }
                    return None;
                },
            }
            flags.push(entries[i].2);
            proof {
                assert(st@.signals =~= goal.signals.take(i as int + 1));
                assert(flags@ =~= goal.eliminated.take(i as int + 1));
            }
            i += 1;
        }
        proof {
            assert(goal.signals.take(entries.len() as int) =~= goal.signals);
            assert(goal.eliminated.take(entries.len() as int) =~= goal.eliminated);
        }
        st.eliminated = flags;
        st.top_component = top_component;
        proof {
            assert(st@.constraints =~= Seq::<ConstraintView>::empty());
            assert(st.wf());
        }
        let mut k: usize = 0;
        while k < constraints.len()
            invariant
                k <= constraints.len(),
                goal == restored(field.p(), optimizer, top_component, entries@, constraints@),
                st.wf(),
                st.spec_field() == field,
                st@.p == field.p(),
                st@.optimizer == optimizer,
                st.top_component == top_component,
                st@.constraints.len() == 0,
                st@.signals == goal.signals,
                st@.eliminated == goal.eliminated,
                forall|j: int|
                    0 <= j < k ==> {
                        &&& (#[trigger] goal.constraints[j]).form.wf(goal.p)
                        &&& goal.constraints[j].form.within(goal.signals.len())
                        &&& !names_eliminated(st@, goal.constraints[j].form)
                    },
            decreases constraints.len() - k,
        {
            proof {
                assert(goal.constraints[k as int] == constraints@[k as int]@);
            }
            if !st.admits(&constraints[k].form) {
                proof {
                    let f = goal.constraints[k as int].form;
                    if f.wf(goal.p) && f.within(goal.signals.len()) {
                        let x = choose|x: int|
                            0 <= x < st@.eliminated.len() && #[trigger] st@.eliminated[x] && form_names(
                                f,
                                x as nat,
                            );
                        assert(form_names(goal.constraints[k as int].form, x as nat));
                        assert(goal.eliminated[x]);
                    }
                }
                return None;
            }
            k += 1;
        }
        st.constraints = constraints;
        proof {
            assert(st@.constraints =~= goal.constraints);
            assert forall|j: int, x: int|
                0 <= j < st@.constraints.len() && 0 <= x < st@.signals.len() && #[trigger] form_names(
                    st@.constraints[j].form,
                    x as nat,
                ) implies !st@.eliminated[x] by {
                assert(!names_eliminated(st@, goal.constraints[j].form));
            }
            assert(st@ == goal);
        }
        Some(st)
    }

    /// Declares the signal `full_name` and returns its id, the next free one.
    pub fn declare_signal(&mut self, full_name: String, kind: SignalKind) -> (r: Result<u64, Error>)
        requires
            old(self).wf(),
        ensures
            final(self).wf(),
            final(self).spec_field() == old(self).spec_field(),
            match r {
                Ok(id) => {
                    &&& lookup(old(self)@.signals, full_name@) is None
                    &&& id == old(self)@.signals.len()
                    &&& final(self)@ == (StoreView {
                        signals: old(self)@.signals.push(
                            SignalView {
                                id,
                                full_name: full_name@,
                                kind,
                                component_path: component_of(full_name@),
                            },
                        ),
                        eliminated: old(self)@.eliminated.push(false),
                        ..old(self)@
                    })
                },
                Err(e) => {
                    &&& lookup(old(self)@.signals, full_name@) is Some
                    &&& final(self)@ == old(self)@
                    &&& e matches Error::DuplicateSignal(name)
                    &&& name@ == full_name@
                },
            },
    {
        proof {
            lemma_lookup(self@, full_name@);
        }
        if self.index.contains_key(&full_name) {
            return Err(Error::DuplicateSignal(full_name));
        }
        let id = self.signals.len() as u64;
        let component_path = component_path_of(full_name.as_str());
        let record = SignalRecord { id, full_name: full_name.clone(), kind, component_path };
        let ghost rv = record@;
        let ghost before = self@;
        let ghost old_index = self.index@;
        self.signals.push(record);
        self.eliminated.push(false);
        self.index.insert(full_name, id);
        let count = self.signals.len();
        proof {
            let after = self@;
            assert(after.signals.len() == count);
            assert(after.signals =~= before.signals.push(rv));
            assert(after.constraints == before.constraints);
            assert forall|k: int| 0 <= k < after.constraints.len() implies {
                &&& (#[trigger] after.constraints[k]).form.wf(after.p)
                &&& after.constraints[k].form.within(after.signals.len())
            } by {
                assert(before.constraints[k].form.within(before.signals.len()));
            }
            assert forall|k: int, s: int|
                0 <= k < after.constraints.len() && 0 <= s < after.signals.len() && #[trigger] form_names(
                    after.constraints[k].form,
                    s as nat,
                ) implies !after.eliminated[s] by {
                if s < before.signals.len() {
                    assert(form_names(before.constraints[k].form, s as nat));
                }
            }
            assert(after.valid());
            assert forall|name: Seq<char>| #[trigger]
                self.index@.dom().contains(name) <==> lookup(after.signals, name) is Some by {
                lemma_lookup(after, name);
                lemma_lookup(before, name);
                if name == rv.full_name {
                    assert(after.signals[id as int].full_name == name);
                } else {
                    assert(old_index.dom().contains(name) <==> lookup(before.signals, name) is Some);
                    if lookup(before.signals, name) is Some {
                        let i = lookup(before.signals, name).unwrap() as int;
                        assert(after.signals[i].full_name == name);
                    }
                    if lookup(after.signals, name) is Some {
                        let i = lookup(after.signals, name).unwrap() as int;
                        assert(before.signals[i].full_name == name);
                    }
                }
            }
            assert forall|name: Seq<char>| #[trigger] self.index@.dom().contains(name) implies Some(
                self.index@[name],
            ) == lookup(after.signals, name) by {
                lemma_lookup(after, name);
                lemma_lookup(before, name);
                if name == rv.full_name {
                    let i = lookup(after.signals, name).unwrap() as int;
                    if i != id {
                        assert(before.signals[i].full_name == name);
                    }
                } else {
                    assert(old_index.dom().contains(name));
                    assert(Some(old_index[name]) == lookup(before.signals, name));
                    let i = lookup(before.signals, name).unwrap() as int;
                    let j = lookup(after.signals, name).unwrap() as int;
                    assert(after.signals[i].full_name == name);
                    assert(i == j);
                }
            }
        }
        Ok(id)
    }
}

/// The path of the component that owns the signal `full_name`.
pub fn component_path_of(full_name: &str) -> (r: String)
    ensures
        r@ == component_of(full_name@),
{
    let n = full_name.unicode_len();
    let mut i: usize = n;
    proof {
        assert(full_name@.subrange(0, n as int) =~= full_name@);
    }
    while i > 0
        invariant
            i <= n,
            n == full_name@.len(),
            last_dot(full_name@) == last_dot(full_name@.subrange(0, i as int)),
        decreases i,
    {
        proof {
            assert(full_name@.subrange(0, i as int).drop_last() =~= full_name@.subrange(0, i as int - 1));
        }
        if full_name.get_char(i - 1) == '.' {
            return full_name.substring_char(0, i - 1).to_owned();
        }
        i -= 1;
    }
    String::new()
}

} // verus!
