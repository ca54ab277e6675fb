//! The interpreter that walks a program and fills the store.

use vstd::prelude::*;
use crate::ast::BinaryOp;
use crate::ast::Expression;
use crate::ast::SignalKind;
use crate::ast::Statement;
use crate::ast::UnaryOp;
use crate::bigint::lemma_u256_of;
use crate::bigint::U256;
use crate::error::Error;
use crate::error::ErrorKind;
use crate::field::Field;
use crate::machine::make_child_path;
use crate::machine::make_signal_name;
use crate::machine::parse_literal;
use crate::machine::Machine;
use crate::machine::MachineView;
use crate::error::ErrorView;
use crate::constraint::make_constraint;
use crate::store::Store;
use crate::retval::clone_values;
use crate::retval::RetView;
use crate::retval::ReturnValue;
use crate::scope::Scope;
use crate::scope::ScopeValue;
use crate::semantics::assignment_mismatch;
use crate::semantics::binary_value;
use crate::semantics::bind_params;
use crate::semantics::clamp;
use crate::semantics::compare;
use crate::semantics::expr_size;
use crate::semantics::exprs_size;
use crate::semantics::find_id;
use crate::semantics::inputs_of;
use crate::semantics::is_constant_argument;
use crate::semantics::pop_frame;
use crate::semantics::push_frame;
use crate::semantics::ret_wf;
use crate::semantics::sem_args;
use crate::semantics::sem_block;
use crate::semantics::sem_call;
use crate::semantics::sem_constrain;
use crate::semantics::sem_expr;
use crate::semantics::sem_indices;
use crate::semantics::sem_instantiate;
use crate::semantics::sem_loop;
use crate::semantics::sem_pin;
use crate::semantics::sem_scoped;
use crate::semantics::sem_signal;
use crate::semantics::sem_stmt;
use crate::semantics::sem_target;
use crate::semantics::sem_variable;
use crate::semantics::short_circuit;
use crate::semantics::stmt_size;
use crate::semantics::stmts_size;
use crate::semantics::target_indices;
use crate::semantics::truth;
use crate::semantics::unary_value;
use crate::semantics::Definitions;
use crate::value::AlgebraError;
use crate::value::Value;

verus! {

/// The definitions that the global frame `defs` holds.
pub open spec fn defs_view(defs: &Scope) -> Definitions {
    defs@[0].locals
}

/// Puts a new innermost frame in front of the scope chain.
pub fn enter_frame(m: &mut Machine, boundary: bool, pos: String)
    ensures
        final(m)@ == push_frame(old(m)@, boundary, pos@),
        final(m).store == old(m).store,
        final(m).steps == old(m).steps,
{
    let mut tmp = Scope::new(false, None, String::new());
    core::mem::swap(&mut m.scope, &mut tmp);
    m.scope = Scope::new(boundary, Some(tmp), pos);
}

/// Drops the innermost frame of the scope chain.
pub fn leave_frame(m: &mut Machine, pos: &str) -> (r: Result<(), Error>)
    ensures
        final(m).store == old(m).store,
        final(m).steps == old(m).steps,
        match r {
            Ok(_) => pop_frame(old(m)@, pos@) == Ok::<crate::machine::MachineView, crate::error::ErrorView>(
                final(m)@,
            ),
            Err(e) => pop_frame(old(m)@, pos@) == Err::<crate::machine::MachineView, crate::error::ErrorView>(
                e@,
            ),
        },
{
    let mut tmp = Scope::new(false, None, String::new());
    core::mem::swap(&mut m.scope, &mut tmp);
    proof {
        tmp.lemma_frames();
    }
    match tmp.into_prev() {
        Some(p) => {
            proof {
                p.lemma_frames();
            }
            m.scope = p;
            Ok(())
        },
        None => Err(Error::InternalInvariant(pos.to_owned())),
    }
}

/// The truth value of a condition.
pub fn truth_of(v: &ReturnValue) -> (r: Option<bool>)
    ensures
        r == truth(v@),
{
    match v {
        ReturnValue::Bool(b) => Some(*b),
        ReturnValue::Algebra(Value::FieldConst(c)) => Some(!c.is_zero()),
        _ => None,
    }
}

/// The result of a unary operator.
pub fn apply_unary(op: UnaryOp, v: &ReturnValue, field: &Field) -> (r: Result<ReturnValue, ErrorKind>)
    requires
        ret_wf(v@, field.p()),
    ensures
        match r {
            Ok(x) => unary_value(op, v@, field.p()) == Ok::<RetView, ErrorKind>(x@) && ret_wf(x@, field.p()),
            Err(k) => unary_value(op, v@, field.p()) == Err::<RetView, ErrorKind>(k),
        },
{
    match op {
        UnaryOp::Neg => match v {
            ReturnValue::Algebra(a) => Ok(ReturnValue::Algebra(a.neg(field))),
            _ => Err(ErrorKind::ExpectedFieldConstant),
        },
        UnaryOp::Not => match truth_of(v) {
            Some(b) => Ok(ReturnValue::Bool(!b)),
            None => Err(ErrorKind::ExpectedBool),
        },
    }
}

/// What the left operand alone decides of `&&` and `||`, if anything.
pub fn decide_early(op: BinaryOp, a: &ReturnValue) -> (r: Option<Result<ReturnValue, ErrorKind>>)
    ensures
        match r {
            Some(Ok(x)) => short_circuit(op, a@) == Some(Ok::<RetView, ErrorKind>(x@)),
            Some(Err(k)) => short_circuit(op, a@) == Some(Err::<RetView, ErrorKind>(k)),
            None => short_circuit(op, a@) is None,
        },
{
    match op {
        BinaryOp::And => match truth_of(a) {
            None => Some(Err(ErrorKind::ExpectedBool)),
            Some(false) => Some(Ok(ReturnValue::Bool(false))),
            Some(true) => None,
        },
        BinaryOp::Or => match truth_of(a) {
            None => Some(Err(ErrorKind::ExpectedBool)),
            Some(true) => Some(Ok(ReturnValue::Bool(true))),
            Some(false) => None,
        },
        _ => None,
    }
}

/// The result of comparing two field constants.
pub fn compare_constants(op: BinaryOp, x: &U256, y: &U256) -> (r: bool)
    ensures
        r == compare(op, x@, y@),
{
    match op {
        BinaryOp::Eq => x.equals(y),
        BinaryOp::Ne => !x.equals(y),
        BinaryOp::Lt => x.less_than(y),
        BinaryOp::Le => !y.less_than(x),
        BinaryOp::Gt => y.less_than(x),
        _ => !x.less_than(y),
    }
}

/// The result of a binary operator on two evaluated operands.
pub fn apply_binary(op: BinaryOp, a: &ReturnValue, b: &ReturnValue, field: &Field) -> (r: Result<
    ReturnValue,
    ErrorKind,
>)
    requires
        ret_wf(a@, field.p()),
        ret_wf(b@, field.p()),
    ensures
        match r {
            Ok(x) => binary_value(op, a@, b@, field.p()) == Ok::<RetView, ErrorKind>(x@) && ret_wf(
                x@,
                field.p(),
            ),
            Err(k) => binary_value(op, a@, b@, field.p()) == Err::<RetView, ErrorKind>(k),
        },
{
    match op {
        BinaryOp::Add => match (a, b) {
            (ReturnValue::Algebra(x), ReturnValue::Algebra(y)) => Ok(ReturnValue::Algebra(x.add(y, field))),
            _ => Err(ErrorKind::ExpectedFieldConstant),
        },
        BinaryOp::Sub => match (a, b) {
            (ReturnValue::Algebra(x), ReturnValue::Algebra(y)) => Ok(ReturnValue::Algebra(x.sub(y, field))),
            _ => Err(ErrorKind::ExpectedFieldConstant),
        },
        BinaryOp::Mul => match (a, b) {
            (ReturnValue::Algebra(x), ReturnValue::Algebra(y)) => match x.mul(y, field) {
                Ok(v) => Ok(ReturnValue::Algebra(v)),
                Err(_) => Err(ErrorKind::NonQuadratic),
            },
            _ => Err(ErrorKind::ExpectedFieldConstant),
        },
        BinaryOp::Div => match (a, b) {
            (ReturnValue::Algebra(x), ReturnValue::Algebra(y)) => match x.div(y, field) {
                Ok(v) => Ok(ReturnValue::Algebra(v)),
                Err(AlgebraError::NonConstantDivisor) => Err(ErrorKind::NonConstantDivisor),
                Err(_) => Err(ErrorKind::DivisionByZero),
            },
            _ => Err(ErrorKind::ExpectedFieldConstant),
        },
        BinaryOp::And => match (truth_of(a), truth_of(b)) {
            (Some(x), Some(y)) => Ok(ReturnValue::Bool(x && y)),
            _ => Err(ErrorKind::ExpectedBool),
        },
        BinaryOp::Or => match (truth_of(a), truth_of(b)) {
            (Some(x), Some(y)) => Ok(ReturnValue::Bool(x || y)),
            _ => Err(ErrorKind::ExpectedBool),
        },
        _ => match (a, b) {
            (ReturnValue::Algebra(Value::FieldConst(x)), ReturnValue::Algebra(Value::FieldConst(y))) => Ok(
                ReturnValue::Bool(compare_constants(op, x, y)),
            ),
            (ReturnValue::Bool(x), ReturnValue::Bool(y)) => match op {
                BinaryOp::Eq => Ok(ReturnValue::Bool(*x == *y)),
                BinaryOp::Ne => Ok(ReturnValue::Bool(*x != *y)),
                _ => Err(ErrorKind::ExpectedFieldConstant),
            },
            _ => Err(ErrorKind::ExpectedFieldConstant),
        },
    }
}

/// The signal named `full`, unless it is unknown or eliminated.
pub fn read_signal(m: &Machine, full: &str, pos: &str) -> (r: Result<ReturnValue, Error>)
    requires
        m.store.wf(),
    ensures
        match r {
            Ok(v) => sem_signal(m@, full@, pos@) == Ok::<RetView, crate::error::ErrorView>(v@) && ret_wf(
                v@,
                m@.store.p,
            ),
            Err(e) => sem_signal(m@, full@, pos@) == Err::<RetView, crate::error::ErrorView>(e@),
        },
{
    match m.store.lookup_signal(full) {
        Some(id) => {
            if m.store.is_eliminated(id) {
                Err(Error::InternalInvariant(pos.to_owned()))
            } else {
                Ok(ReturnValue::Algebra(Value::Signal(id)))
            }
        },
        None => Err(Error::NotFound(pos.to_owned())),
    }
}

/// What the name `name` with the indices `idx` evaluates to.
pub fn read_variable(m: &Machine, name: &str, idx: &Vec<u64>, pos: &str) -> (r: Result<ReturnValue, Error>)
    requires
        m.store.wf(),
    ensures
        match r {
            Ok(v) => sem_variable(m@, name@, idx@, pos@) == Ok::<RetView, crate::error::ErrorView>(v@)
                && ret_wf(v@, m@.store.p),
            Err(e) => sem_variable(m@, name@, idx@, pos@) == Err::<RetView, crate::error::ErrorView>(e@),
        },
{
    let field: Field = *m.store.field();
    match m.scope.lookup_local(name) {
        Some(ScopeValue::Undefined) => Err(Error::UseOfUndefined(pos.to_owned())),
        Some(ScopeValue::Bool(b)) => {
            if idx.len() == 0 {
                Ok(ReturnValue::Bool(*b))
            } else {
                Err(Error::ExpectedArray(pos.to_owned()))
            }
        },
        Some(ScopeValue::Algebra(v)) => {
            if idx.len() != 0 {
                Err(Error::ExpectedArray(pos.to_owned()))
            } else if v.is_wf(&field) {
                Ok(ReturnValue::Algebra(v.clone()))
            } else {
                Err(Error::InternalInvariant(pos.to_owned()))
            }
        },
        Some(ScopeValue::Array(vs)) => {
            if idx.len() == 0 {
                Ok(ReturnValue::Array(clone_values(vs)))
            } else if idx.len() != 1 {
                Err(Error::ExpectedArray(pos.to_owned()))
            } else if idx[0] >= vs.len() as u64 {
                Err(Error::OutOfBounds(pos.to_owned()))
            } else if vs[idx[0] as usize].is_wf(&field) {
                Ok(ReturnValue::Algebra(vs[idx[0] as usize].clone()))
            } else {
                Err(Error::InternalInvariant(pos.to_owned()))
            }
        },
        Some(_) => Err(Error::ExpectedFieldConstant(pos.to_owned())),
        None => {
            if m.in_function {
                Err(Error::NotFound(pos.to_owned()))
            } else {
                let full = make_signal_name(m.path.as_str(), name, idx);
                read_signal(m, full.as_str(), pos)
            }
        },
    }
}

/// What `component.signal` with the indices `idx` evaluates to.
pub fn read_pin(m: &Machine, component: &str, signal: &str, idx: &Vec<u64>, pos: &str) -> (r: Result<
    ReturnValue,
    Error,
>)
    requires
        m.store.wf(),
    ensures
        match r {
            Ok(v) => sem_pin(m@, component@, signal@, idx@, pos@) == Ok::<RetView, crate::error::ErrorView>(
                v@,
            ) && ret_wf(v@, m@.store.p),
            Err(e) => sem_pin(m@, component@, signal@, idx@, pos@) == Err::<
                RetView,
                crate::error::ErrorView,
            >(e@),
        },
{
    let cp = make_child_path(m.path.as_str(), component);
    if m.in_function {
        return Err(Error::NotFound(pos.to_owned()));
    }
    match m.components.get(&cp) {
        None => Err(Error::NotFound(pos.to_owned())),
        Some(pending) => {
            let full = make_signal_name(cp.as_str(), signal, idx);
            match m.store.lookup_signal(full.as_str()) {
                Some(id) => {
                    let signals = m.store.signals();
                    proof {
                        m.store.lemma_wf();
                        assert(m@.store.signals[id as int] == signals@[id as int]@);
                    }
                    let count = signals.len();
                    assert(id < count);
                    let is_output = match signals[id as usize].kind {
                        SignalKind::Output => true,
                        _ => false,
                    };
                    if is_output && pending.len() > 0 {
                        Err(Error::PrematureOutputRead(pos.to_owned()))
                    } else if m.store.is_eliminated(id) {
                        Err(Error::InternalInvariant(pos.to_owned()))
                    } else {
                        Ok(ReturnValue::Algebra(Value::Signal(id)))
                    }
                },
                None => Err(Error::NotFound(pos.to_owned())),
            }
        },
    }
}

/// The values of a vector, each by its view.
pub open spec fn rets_view(v: Seq<ReturnValue>) -> Seq<RetView> {
    Seq::new(v.len(), |i: int| v[i]@)
}

/// Whether the executable result `r` and the machine `after` are what the
/// semantics `sem` says.
pub open spec fn agree_value(
    sem: Result<(MachineView, RetView), ErrorView>,
    after: MachineView,
    r: Result<ReturnValue, Error>,
) -> bool {
    match r {
        Ok(v) => sem == Ok::<(MachineView, RetView), ErrorView>((after, v@)) && ret_wf(v@, after.store.p),
        Err(e) => sem == Err::<(MachineView, RetView), ErrorView>(e@),
    }
}

/// Whether the executable result `r` and the machine `after` are what the
/// semantics `sem` says.
pub open spec fn agree_unit(sem: Result<MachineView, ErrorView>, after: MachineView, r: Result<(), Error>) -> bool {
    match r {
        Ok(_) => sem == Ok::<MachineView, ErrorView>(after),
        Err(e) => sem == Err::<MachineView, ErrorView>(e@),
    }
}

/// Whether the executable result `r` and the machine `after` are what the
/// semantics `sem` says.
pub open spec fn agree_indices(
    sem: Result<(MachineView, Seq<u64>), ErrorView>,
    after: MachineView,
    r: Result<Vec<u64>, Error>,
) -> bool {
    match r {
        Ok(v) => sem == Ok::<(MachineView, Seq<u64>), ErrorView>((after, v@)),
        Err(e) => sem == Err::<(MachineView, Seq<u64>), ErrorView>(e@),
    }
}

/// Whether the executable result `r` and the machine `after` are what the
/// semantics `sem` says.
pub open spec fn agree_args(
    sem: Result<(MachineView, Seq<RetView>), ErrorView>,
    after: MachineView,
    r: Result<Vec<ReturnValue>, Error>,
) -> bool {
    match r {
        Ok(v) => sem == Ok::<(MachineView, Seq<RetView>), ErrorView>((after, rets_view(v@))),
        Err(e) => sem == Err::<(MachineView, Seq<RetView>), ErrorView>(e@),
    }
}

/// Whether evaluation from `before` to `after` kept the store well-formed
/// and over its field, and used no step that it did not have.
pub open spec fn kept(before: &Machine, after: &Machine) -> bool {
    &&& after.store.wf()
    &&& after.store.spec_field() == before.store.spec_field()
    &&& after.steps <= before.steps
}

/// The expressions behind `i` are no larger than all of them.
pub proof fn lemma_exprs_size(es: Seq<Expression>, i: int)
    requires
        0 <= i <= es.len(),
    ensures
        exprs_size(es, i) <= exprs_size(es, 0),
    decreases i,
{
    if i > 0 {
        lemma_exprs_size(es, i - 1);
    }
}

/// The statements behind `i` are no larger than all of them.
pub proof fn lemma_stmts_size(ss: Seq<Statement>, i: int)
    requires
        0 <= i <= ss.len(),
    ensures
        stmts_size(ss, i) <= stmts_size(ss, 0),
    decreases i,
{
    if i > 0 {
        lemma_stmts_size(ss, i - 1);
    }
}

/// Whether an evaluated expression, where it is algebraic, is canonical.
pub fn ret_is_wf(v: &ReturnValue, field: &Field) -> (r: bool)
    ensures
        r == ret_wf(v@, field.p()),
{
    match v {
        ReturnValue::Algebra(a) => a.is_wf(field),
        _ => true,
    }
}

/// Why a variable bound to `cur` cannot be assigned `r`, if it cannot.
pub fn mismatch_of(cur: &ScopeValue, r: &ReturnValue) -> (k: Option<ErrorKind>)
    ensures
        k == assignment_mismatch(cur@, r@),
{
    match cur {
        ScopeValue::Undefined => None,
        ScopeValue::Bool(_) => match r {
            ReturnValue::Bool(_) => None,
            _ => Some(ErrorKind::ExpectedBool),
        },
        ScopeValue::Algebra(_) => match r {
            ReturnValue::Algebra(_) => None,
            _ => Some(ErrorKind::ExpectedFieldConstant),
        },
        ScopeValue::Array(_) => match r {
            ReturnValue::Array(_) => None,
            _ => Some(ErrorKind::ExpectedArray),
        },
        _ => Some(ErrorKind::BadAst),
    }
}

/// Adds the constraint `lhs = rhs`, stated at `pos`, to the store.
pub fn constrain(m: &mut Machine, lhs: &ReturnValue, rhs: &ReturnValue, pos: &String) -> (r: Result<(), Error>)
    requires
        old(m).store.wf(),
        ret_wf(lhs@, old(m)@.store.p),
        ret_wf(rhs@, old(m)@.store.p),
    ensures
        kept(old(m), final(m)),
        agree_unit(sem_constrain(old(m)@, lhs@, rhs@, pos@), final(m)@, r),
{
    let field: Field = *m.store.field();
    match (lhs, rhs) {
        (ReturnValue::Algebra(a), ReturnValue::Algebra(b)) => match make_constraint(a, b, &field) {
            Ok(q) => m.store.add_constraint(q, pos.clone()),
            Err(_) => Err(Error::NonQuadraticConstraint(pos.clone())),
        },
        _ => Err(Error::ExpectedFieldConstant(pos.clone())),
    }
}

/// The ids of the input signals that the component at `path` declared.
pub fn collect_inputs(store: &Store, path: &String) -> (r: Vec<u64>)
    ensures
        r@ == inputs_of(store@.signals, path@, store@.signals.len() as int),
{
    let signals = store.signals();
    let mut out: Vec<u64> = Vec::new();
    let mut i: usize = 0;
    while i < signals.len()
        invariant
            i <= signals.len(),
            crate::store::signals_view(signals@) == store@.signals,
            out@ == inputs_of(store@.signals, path@, i as int),
        decreases signals.len() - i,
    {
        let record = &signals[i];
        proof {
            assert(store@.signals[i as int] == record@);
        }
        let is_input = match record.kind {
            SignalKind::Input => true,
            _ => false,
        };
        if record.component_path == *path && is_input {
            out.push(record.id);
        }
        i += 1;
    }
    out
}

/// Whether every argument is a field constant or an array of field
/// constants.
pub fn all_constant(vals: &Vec<ReturnValue>) -> (r: bool)
    ensures
        r == !(exists|i: int| 0 <= i < vals@.len() && !is_constant_argument(#[trigger] rets_view(vals@)[i])),
{
    let mut i: usize = 0;
    while i < vals.len()
        invariant
            i <= vals.len(),
            forall|j: int| 0 <= j < i ==> is_constant_argument(#[trigger] rets_view(vals@)[j]),
        decreases vals.len() - i,
    {
        let ok = match &vals[i] {
            ReturnValue::Algebra(Value::FieldConst(_)) => true,
            ReturnValue::Array(vs) => {
                let mut j: usize = 0;
                let mut all = true;
                while j < vs.len()
                    invariant
                        j <= vs.len(),
                        all ==> (forall|k: int| 0 <= k < j ==> (#[trigger] vs@[k]@) is FieldConst),
                        !all ==> (exists|k: int| 0 <= k < vs@.len() && !((#[trigger] vs@[k]@) is FieldConst)),
                    decreases vs.len() - j,
                {
                    match &vs[j] {
                        Value::FieldConst(_) => {},
                        _ => {
                            assert(!(vs@[j as int]@ is FieldConst));
                            all = false;
                        },
                    }
                    j += 1;
                }
                proof {
                    let w = crate::value::values_view(vs@);
                    if all {
                        assert forall|k: int| 0 <= k < w.len() implies (#[trigger] w[k]) is FieldConst by {
                            assert(vs@[k]@ is FieldConst);
                        }
                    } else {
                        let k = choose|k: int| 0 <= k < vs@.len() && !((#[trigger] vs@[k]@) is FieldConst);
                        assert(!(w[k] is FieldConst));
                    }
                }
                all
            },
            _ => false,
        };
        proof {
            assert(ok == is_constant_argument(rets_view(vals@)[i as int]));
        }
        if !ok {
            return false;
        }
        i += 1;
    }
    true
}

/// Binds the parameters to copies of the argument values in the innermost
/// frame.
pub fn bind_arguments(m: &mut Machine, params: &Vec<String>, vals: &Vec<ReturnValue>) -> (r: Result<(), Error>)
    ensures
        final(m).store == old(m).store,
        final(m).steps == old(m).steps,
        final(m).path == old(m).path,
        final(m).in_function == old(m).in_function,
        final(m).components == old(m).components,
        match r {
            Ok(_) => bind_params(old(m)@.frames, params@, rets_view(vals@), 0) == Ok::<
                Seq<crate::scope::FrameView>,
                ErrorView,
            >(final(m)@.frames),
            Err(e) => bind_params(old(m)@.frames, params@, rets_view(vals@), 0) == Err::<
                Seq<crate::scope::FrameView>,
                ErrorView,
            >(e@),
        },
{
    let mut i: usize = 0;
    while i < params.len() && i < vals.len()
        invariant
            i <= params.len(),
            i <= vals.len(),
            m.store == old(m).store,
            m.steps == old(m).steps,
            m.path == old(m).path,
            m.in_function == old(m).in_function,
            m.components == old(m).components,
            bind_params(old(m)@.frames, params@, rets_view(vals@), 0) == bind_params(
                m@.frames,
                params@,
                rets_view(vals@),
                i as int,
            ),
        decreases params.len() - i,
    {
        let value = ScopeValue::from(vals[i].clone());
        proof {
            m.scope.lemma_frames();
        }
        match m.scope.insert(params[i].clone(), value) {
            Ok(_) => {},
            Err(e) => {
                return Err(e);
            },
        }
        i += 1;
    }
    Ok(())
}

/// Notes that the signal `id` is written by a constrain-and-assign
/// statement whose target is `component.signal`, and checks that it may be.
pub fn note_write(m: &mut Machine, cp: &String, id: u64, pos: &String) -> (r: Result<(), Error>)
    requires
        old(m).store.wf(),
        id < old(m)@.store.signals.len(),
        old(m)@.components.dom().contains(cp@),
    ensures
        final(m).store == old(m).store,
        final(m).steps == old(m).steps,
        match r {
            Ok(_) => match find_id(old(m)@.components[cp@], id, 0) {
                Some(i) => final(m)@ == (MachineView {
                    components: old(m)@.components.insert(cp@, old(m)@.components[cp@].remove(i)),
                    ..old(m)@
                }),
                None => false,
            },
            Err(e) => find_id(old(m)@.components[cp@], id, 0) is None && e@ == (ErrorView {
                kind: if old(m)@.store.signals[id as int].kind == SignalKind::Input {
                    ErrorKind::AlreadyDefined
                } else {
                    ErrorKind::BadAst
                },
                detail: pos@,
            }),
        },
{
    let signals = m.store.signals();
    let count = signals.len();
    proof {
        m.store.lemma_wf();
        assert(m@.store.signals[id as int] == signals@[id as int]@);
    }
    assert(id < count);
    let is_input = match signals[id as usize].kind {
        SignalKind::Input => true,
        _ => false,
    };
    let found = match m.components.get(cp) {
        Some(pending) => find_index(pending, id),
        None => None,
    };
    let ghost before = m.components@;
    let ghost list = before[cp@]@;
    match found {
        Some(i) => match m.components.get_mut(cp) {
            Some(pending) => {
                pending.remove(i);
                proof {
                    assert forall|v: Vec<u64>| v@ == list.remove(i as int) implies crate::machine::pending_view(
                        #[trigger] before.insert(cp@, v),
                    ) == crate::machine::pending_view(before).insert(cp@, list.remove(i as int)) by {
                        assert(crate::machine::pending_view(before.insert(cp@, v))
                            =~= crate::machine::pending_view(before).insert(cp@, list.remove(i as int)));
                    }
                }
                Ok(())
            },
            None => Err(Error::BadAst(pos.clone())),
        },
        None => {
            if is_input {
                Err(Error::AlreadyDefined(pos.clone()))
            } else {
                Err(Error::BadAst(pos.clone()))
            }
        },
    }
}

/// The first index at which `v` holds `id`.
pub fn find_index(v: &Vec<u64>, id: u64) -> (r: Option<usize>)
    ensures
        match r {
            Some(i) => i < v@.len() && find_id(v@, id, 0) == Some(i as int),
            None => find_id(v@, id, 0) is None,
        },
{
    let mut i: usize = 0;
    while i < v.len()
        invariant
            i <= v.len(),
            find_id(v@, id, 0) == find_id(v@, id, i as int),
        decreases v.len() - i,
    {
        if v[i] == id {
            return Some(i);
        }
        i += 1;
    }
    None
}

/// The step of a loop as the semantics takes it.
pub open spec fn step_view(step: Option<&Statement>) -> Option<Statement> {
    match step {
        Some(s) => Some(*s),
        None => None,
    }
}

/// The size of the step of a loop.
pub open spec fn step_size(step: Option<&Statement>) -> nat {
    match step {
        Some(s) => stmt_size(*s),
        None => 0,
    }
}

/// Evaluates a literal.
pub fn eval_number(defs: &Scope, m: &mut Machine, e: &Expression) -> (r: Result<ReturnValue, Error>)
    requires
        old(m).store.wf(),
        *e is Number,
    ensures
        kept(old(m), final(m)),
        agree_value(sem_expr(defs_view(defs), old(m)@, *e), final(m)@, r),
    decreases old(m).steps, expr_size(*e), 0nat,
{
    let field: Field = *m.store.field();
    proof {
        m.store.lemma_wf();
    }
    match e {
        Expression::Number { text, pos } => match parse_literal(text.as_str(), &field) {
            Some(v) => {
                proof {
                    lemma_u256_of(v);
                }
                Ok(ReturnValue::Algebra(Value::FieldConst(v)))
            },
            None => Err(Error::BadAst(pos.clone())),
        },
        _ => Ok(ReturnValue::Bool(false)),
    }
}

/// Evaluates a variable, an array element or a signal of the current component.
pub fn eval_variable(defs: &Scope, m: &mut Machine, e: &Expression) -> (r: Result<ReturnValue, Error>)
    requires
        old(m).store.wf(),
        *e is Variable,
    ensures
        kept(old(m), final(m)),
        agree_value(sem_expr(defs_view(defs), old(m)@, *e), final(m)@, r),
    decreases old(m).steps, expr_size(*e), 0nat,
{
    let field: Field = *m.store.field();
    proof {
        m.store.lemma_wf();
    }
    match e {
        Expression::Variable { name, indices, pos } => match eval_indices(defs, m, indices, pos) {
            Ok(idx) => read_variable(m, name.as_str(), &idx, pos.as_str()),
            Err(e) => Err(e),
        },
        _ => Ok(ReturnValue::Bool(false)),
    }
}

/// Evaluates a signal of a sub-component.
pub fn eval_pin(defs: &Scope, m: &mut Machine, e: &Expression) -> (r: Result<ReturnValue, Error>)
    requires
        old(m).store.wf(),
        *e is Pin,
    ensures
        kept(old(m), final(m)),
        agree_value(sem_expr(defs_view(defs), old(m)@, *e), final(m)@, r),
    decreases old(m).steps, expr_size(*e), 0nat,
{
    let field: Field = *m.store.field();
    proof {
        m.store.lemma_wf();
    }
    match e {
        Expression::Pin { component, signal, indices, pos } => match eval_indices(defs, m, indices, pos) {
            Ok(idx) => read_pin(m, component.as_str(), signal.as_str(), &idx, pos.as_str()),
            Err(e) => Err(e),
        },
        _ => Ok(ReturnValue::Bool(false)),
    }
}

/// Evaluates a unary operation.
pub fn eval_unary(defs: &Scope, m: &mut Machine, e: &Expression) -> (r: Result<ReturnValue, Error>)
    requires
        old(m).store.wf(),
        *e is Unary,
    ensures
        kept(old(m), final(m)),
        agree_value(sem_expr(defs_view(defs), old(m)@, *e), final(m)@, r),
    decreases old(m).steps, expr_size(*e), 0nat,
{
    let field: Field = *m.store.field();
    proof {
        m.store.lemma_wf();
    }
    match e {
        Expression::Unary { op, operand, pos } => match eval_expr(defs, m, &**operand) {
            Ok(v) => {
                proof {
                    m.store.lemma_wf();
                }
                match apply_unary(*op, &v, &field) {
                    Ok(r) => Ok(r),
                    Err(kind) => Err(Error::new(kind, pos.clone())),
                }
            },
            Err(e) => Err(e),
        },
        _ => Ok(ReturnValue::Bool(false)),
    }
}

/// Evaluates a binary operation.
pub fn eval_binary(defs: &Scope, m: &mut Machine, e: &Expression) -> (r: Result<ReturnValue, Error>)
    requires
        old(m).store.wf(),
        *e is Binary,
    ensures
        kept(old(m), final(m)),
        agree_value(sem_expr(defs_view(defs), old(m)@, *e), final(m)@, r),
    decreases old(m).steps, expr_size(*e), 0nat,
{
    let field: Field = *m.store.field();
    proof {
        m.store.lemma_wf();
    }
    match e {
        Expression::Binary { op, lhs, rhs, pos } => match eval_expr(defs, m, &**lhs) {
            Ok(a) => {
                proof {
                    m.store.lemma_wf();
                }
                match decide_early(*op, &a) {
                    Some(Ok(r)) => Ok(r),
                    Some(Err(kind)) => Err(Error::new(kind, pos.clone())),
                    None => match eval_expr(defs, m, &**rhs) {
                        Ok(b) => {
                            proof {
                                m.store.lemma_wf();
                            }
                            match apply_binary(*op, &a, &b, &field) {
                                Ok(r) => Ok(r),
                                Err(kind) => Err(Error::new(kind, pos.clone())),
                            }
                        },
                        Err(e) => Err(e),
                    },
                }
            },
            Err(e) => Err(e),
        },
        _ => Ok(ReturnValue::Bool(false)),
    }
}

/// Evaluates a call of a function.
pub fn eval_call(defs: &Scope, m: &mut Machine, e: &Expression) -> (r: Result<ReturnValue, Error>)
    requires
        old(m).store.wf(),
        *e is Call,
    ensures
        kept(old(m), final(m)),
        agree_value(sem_expr(defs_view(defs), old(m)@, *e), final(m)@, r),
    decreases old(m).steps, expr_size(*e), 0nat,
{
    let field: Field = *m.store.field();
    proof {
        m.store.lemma_wf();
    }
    match e {
        Expression::Call { name, args, pos } => {
            proof {
                defs.lemma_frames();
            }
            match defs.vars.get(name) {
                Some(ScopeValue::Function(params, body, fpos)) => {
                    if params.len() != args.len() {
                        Err(Error::ArityMismatch(pos.clone()))
                    } else {
                        match eval_args(defs, m, args) {
                            Ok(vals) => call_function(defs, m, params, &**body, fpos, &vals, pos),
                            Err(e) => Err(e),
                        }
                    }
                },
                _ => Err(Error::NotFound(pos.clone())),
            }
        },
        _ => Ok(ReturnValue::Bool(false)),
    }
}

/// Evaluates the expression `e`.
pub fn eval_expr(defs: &Scope, m: &mut Machine, e: &Expression) -> (r: Result<ReturnValue, Error>)
    requires
        old(m).store.wf(),
    ensures
        kept(old(m), final(m)),
        agree_value(sem_expr(defs_view(defs), old(m)@, *e), final(m)@, r),
    decreases old(m).steps, expr_size(*e), 1nat,
{
    match e {
        Expression::Number { .. } => eval_number(defs, m, e),
        Expression::Variable { .. } => eval_variable(defs, m, e),
        Expression::Pin { .. } => eval_pin(defs, m, e),
        Expression::Unary { .. } => eval_unary(defs, m, e),
        Expression::Binary { .. } => eval_binary(defs, m, e),
        Expression::Call { .. } => eval_call(defs, m, e),
    }
}

/// Evaluates index expressions to integers.
pub fn eval_indices(defs: &Scope, m: &mut Machine, es: &Vec<Expression>, pos: &String) -> (r: Result<
    Vec<u64>,
    Error,
>)
    requires
        old(m).store.wf(),
    ensures
        kept(old(m), final(m)),
        agree_indices(
            sem_indices(defs_view(defs), old(m)@, es@, 0, Seq::empty(), pos@),
            final(m)@,
            r,
        ),
    decreases old(m).steps, exprs_size(es@, 0), 0nat,
{
    let mut acc: Vec<u64> = Vec::new();
    let mut i: usize = 0;
    while i < es.len()
        invariant
            i <= es.len(),
            m.store.wf(),
            m.store.spec_field() == old(m).store.spec_field(),
            m.steps <= old(m).steps,
            sem_indices(defs_view(defs), old(m)@, es@, 0, Seq::empty(), pos@) == sem_indices(
                defs_view(defs),
                m@,
                es@,
                i as int,
                acc@,
                pos@,
            ),
        decreases es.len() - i,
    {
        proof {
            lemma_exprs_size(es@, i as int);
        }
        let ghost before = m@;
        match eval_expr(defs, m, &es[i]) {
            Ok(ReturnValue::Algebra(Value::FieldConst(c))) => match c.to_u64() {
                Some(x) => {
                    acc.push(x);
                    proof {
                        assert(clamp(m@, before.steps) == m@);
                    }
                },
                None => {
                    return Err(Error::NonConstantIndex(pos.clone()));
                },
            },
            Ok(_) => {
                return Err(Error::NonConstantIndex(pos.clone()));
            },
            Err(e) => {
                return Err(e);
            },
        }
        i += 1;
    }
    Ok(acc)
}

/// Evaluates argument expressions from left to right.
pub fn eval_args(defs: &Scope, m: &mut Machine, es: &Vec<Expression>) -> (r: Result<Vec<ReturnValue>, Error>)
    requires
        old(m).store.wf(),
    ensures
        kept(old(m), final(m)),
        agree_args(sem_args(defs_view(defs), old(m)@, es@, 0, Seq::empty()), final(m)@, r),
    decreases old(m).steps, exprs_size(es@, 0), 0nat,
{
    let mut acc: Vec<ReturnValue> = Vec::new();
    let mut i: usize = 0;
    proof {
        assert(rets_view(acc@) =~= Seq::<RetView>::empty());
    }
    while i < es.len()
        invariant
            i <= es.len(),
            m.store.wf(),
            m.store.spec_field() == old(m).store.spec_field(),
            m.steps <= old(m).steps,
            sem_args(defs_view(defs), old(m)@, es@, 0, Seq::empty()) == sem_args(
                defs_view(defs),
                m@,
                es@,
                i as int,
                rets_view(acc@),
            ),
        decreases es.len() - i,
    {
        proof {
            lemma_exprs_size(es@, i as int);
        }
        let ghost before = m@;
        let ghost views = rets_view(acc@);
        match eval_expr(defs, m, &es[i]) {
            Ok(v) => {
                proof {
                    assert(clamp(m@, before.steps) == m@);
                    assert(rets_view(acc@.push(v)) =~= views.push(v@));
                }
                acc.push(v);
            },
            Err(e) => {
                return Err(e);
            },
        }
        i += 1;
    }
    Ok(acc)
}

/// Calls a function with the argument values `vals`.
#[verifier::rlimit(100)]
pub fn call_function(
    defs: &Scope,
    m: &mut Machine,
    params: &Vec<String>,
    body: &Statement,
    fpos: &String,
    vals: &Vec<ReturnValue>,
    pos: &String,
) -> (r: Result<ReturnValue, Error>)
    requires
        old(m).store.wf(),
    ensures
        kept(old(m), final(m)),
        agree_value(
            sem_call(defs_view(defs), old(m)@, params@, *body, fpos@, rets_view(vals@), pos@),
            final(m)@,
            r,
        ),
    decreases old(m).steps, 0nat, 0nat,
{
    if m.steps == 0 {
        return Err(Error::StepLimitExceeded(pos.clone()));
    }
    let field: Field = *m.store.field();
    let saved = m.in_function;
    enter_frame(m, true, fpos.clone());
    match bind_arguments(m, params, vals) {
        Ok(_) => {},
        Err(e) => {
            return Err(e);
        },
    }
    m.in_function = true;
    m.steps = m.steps - 1;
    match exec_stmt(defs, m, body) {
        Ok(_) => {},
        Err(e) => {
            return Err(e);
        },
    }
    proof {
        m.store.lemma_wf();
    }
    match m.scope.take_return() {
        Some(v) => {
            if !ret_is_wf(&v, &field) {
                return Err(Error::InternalInvariant(pos.clone()));
            }
            match leave_frame(m, pos.as_str()) {
                Ok(_) => {
                    m.in_function = saved;
                    Ok(v)
                },
                Err(e) => Err(e),
            }
        },
        None => Err(Error::MissingReturn(pos.clone())),
    }
}

/// Instantiates a template at the path `ip`.
pub fn instantiate(
    defs: &Scope,
    m: &mut Machine,
    ip: String,
    params: &Vec<String>,
    body: &Statement,
    tpos: &String,
    vals: &Vec<ReturnValue>,
    pos: &String,
) -> (r: Result<(), Error>)
    requires
        old(m).store.wf(),
    ensures
        kept(old(m), final(m)),
        agree_unit(
            sem_instantiate(defs_view(defs), old(m)@, ip@, params@, *body, tpos@, rets_view(vals@), pos@),
            final(m)@,
            r,
        ),
    decreases old(m).steps, 0nat, 0nat,
{
    if m.steps == 0 {
        return Err(Error::StepLimitExceeded(pos.clone()));
    }
    enter_frame(m, true, tpos.clone());
    match bind_arguments(m, params, vals) {
        Ok(_) => {},
        Err(e) => {
            return Err(e);
        },
    }
    let mut outer = ip.clone();
    core::mem::swap(&mut m.path, &mut outer);
    m.steps = m.steps - 1;
    match exec_stmt(defs, m, body) {
        Ok(_) => {},
        Err(e) => {
            return Err(e);
        },
    }
    match leave_frame(m, pos.as_str()) {
        Ok(_) => {},
        Err(e) => {
            return Err(e);
        },
    }
    m.path = outer;
    let pending = collect_inputs(&m.store, &ip);
    let ghost before = m.components@;
    m.components.insert(ip, pending);
    proof {
        assert(crate::machine::pending_view(m.components@) =~= crate::machine::pending_view(before).insert(
            ip@,
            pending@,
        ));
    }
    Ok(())
}

/// Runs the statement `s` in a frame of its own.
pub fn exec_scoped(defs: &Scope, m: &mut Machine, s: &Statement, pos: &String) -> (r: Result<(), Error>)
    requires
        old(m).store.wf(),
    ensures
        kept(old(m), final(m)),
        agree_unit(sem_scoped(defs_view(defs), old(m)@, *s, pos@), final(m)@, r),
    decreases old(m).steps, stmt_size(*s), 2nat,
{
    enter_frame(m, false, pos.clone());
    match exec_stmt(defs, m, s) {
        Ok(_) => leave_frame(m, pos.as_str()),
        Err(e) => Err(e),
    }
}

/// Runs the statements of a block up to the first that leaves a return
/// pending.
pub fn exec_statements(defs: &Scope, m: &mut Machine, body: &Vec<Statement>) -> (r: Result<(), Error>)
    requires
        old(m).store.wf(),
    ensures
        kept(old(m), final(m)),
        agree_unit(sem_block(defs_view(defs), old(m)@, body@, 0), final(m)@, r),
    decreases old(m).steps, stmts_size(body@, 0), 0nat,
{
    let mut i: usize = 0;
    while i < body.len()
        invariant
            i <= body.len(),
            m.store.wf(),
            m.store.spec_field() == old(m).store.spec_field(),
            m.steps <= old(m).steps,
            sem_block(defs_view(defs), old(m)@, body@, 0) == sem_block(defs_view(defs), m@, body@, i as int),
        decreases body.len() - i,
    {
        proof {
            lemma_stmts_size(body@, i as int);
        }
        if m.scope.has_return() {
            return Ok(());
        }
        let ghost before = m@;
        match exec_stmt(defs, m, &body[i]) {
            Ok(_) => {
                proof {
                    assert(clamp(m@, before.steps) == m@);
                }
            },
            Err(e) => {
                return Err(e);
            },
        }
        i += 1;
    }
    Ok(())
}

/// Runs a loop until its condition is false or a return is pending.
pub fn exec_loop(
    defs: &Scope,
    m: &mut Machine,
    cond: &Expression,
    body: &Statement,
    step: Option<&Statement>,
    pos: &String,
) -> (r: Result<(), Error>)
    requires
        old(m).store.wf(),
    ensures
        kept(old(m), final(m)),
        agree_unit(
            sem_loop(defs_view(defs), old(m)@, *cond, *body, step_view(step), pos@),
            final(m)@,
            r,
        ),
    decreases old(m).steps, expr_size(*cond) + stmt_size(*body) + step_size(step), 0nat,
{
    loop
        invariant
            m.store.wf(),
            m.store.spec_field() == old(m).store.spec_field(),
            m.steps <= old(m).steps,
            sem_loop(defs_view(defs), old(m)@, *cond, *body, step_view(step), pos@) == sem_loop(
                defs_view(defs),
                m@,
                *cond,
                *body,
                step_view(step),
                pos@,
            ),
        decreases m.steps,
    {
        if m.scope.has_return() {
            return Ok(());
        }
        let ghost before = m@;
        let c = match eval_expr(defs, m, cond) {
            Ok(c) => c,
            Err(e) => {
                return Err(e);
            },
        };
        match truth_of(&c) {
            None => {
                return Err(Error::NonConstantLoopCondition(pos.clone()));
            },
            Some(false) => {
                return Ok(());
            },
            Some(true) => {
                proof {
                    assert(clamp(m@, before.steps) == m@);
                }
                if m.steps == 0 {
                    return Err(Error::StepLimitExceeded(pos.clone()));
                }
                m.steps = m.steps - 1;
                let ghost limit = m@.steps;
                match exec_scoped(defs, m, body, pos) {
                    Ok(_) => {},
                    Err(e) => {
                        return Err(e);
                    },
                }
                proof {
                    assert(clamp(m@, limit) == m@);
                }
                match step {
                    Some(s) => {
                        if m.scope.has_return() {
                            return Ok(());
                        }
                        match exec_stmt(defs, m, s) {
                            Ok(_) => {
                                proof {
                                    assert(clamp(m@, limit) == m@);
                                }
                            },
                            Err(e) => {
                                return Err(e);
                            },
                        }
                    },
                    None => {},
                }
            },
        }
    }
}

/// The signal that a constrain-and-assign statement writes.
pub fn resolve_target(m: &mut Machine, target: &Expression, idx: &Vec<u64>, pos: &String) -> (r: Result<
    u64,
    Error,
>)
    requires
        old(m).store.wf(),
    ensures
        final(m).store == old(m).store,
        final(m).steps == old(m).steps,
        match r {
            Ok(id) => sem_target(old(m)@, *target, idx@, pos@) == Ok::<(MachineView, u64), ErrorView>(
                (final(m)@, id),
            ),
            Err(e) => sem_target(old(m)@, *target, idx@, pos@) == Err::<(MachineView, u64), ErrorView>(e@),
        },
{
    match target {
        Expression::Variable { name, .. } => {
            let full = make_signal_name(m.path.as_str(), name.as_str(), idx);
            match m.store.lookup_signal(full.as_str()) {
                Some(id) => Ok(id),
                None => Err(Error::NotFound(pos.clone())),
            }
        },
        Expression::Pin { component, signal, .. } => {
            let cp = make_child_path(m.path.as_str(), component.as_str());
            if !m.components.contains_key(&cp) {
                return Err(Error::NotFound(pos.clone()));
            }
            let full = make_signal_name(cp.as_str(), signal.as_str(), idx);
            match m.store.lookup_signal(full.as_str()) {
                Some(id) => match note_write(m, &cp, id, pos) {
                    Ok(_) => Ok(id),
                    Err(e) => Err(e),
                },
                None => Err(Error::NotFound(pos.clone())),
            }
        },
        _ => Err(Error::BadAst(pos.clone())),
    }
}

/// Runs a variable declaration.
pub fn exec_declaration(defs: &Scope, m: &mut Machine, s: &Statement) -> (r: Result<(), Error>)
    requires
        old(m).store.wf(),
        *s is Declaration,
    ensures
        kept(old(m), final(m)),
        agree_unit(sem_stmt(defs_view(defs), old(m)@, *s), final(m)@, r),
    decreases old(m).steps, stmt_size(*s), 0nat,
{
    match s {
        Statement::Declaration { name, init, pos } => {
            let value = match init {
                Some(e) => match eval_expr(defs, m, e) {
                    Ok(v) => ScopeValue::from(v),
                    Err(e) => {
                        return Err(e);
                    },
                },
                None => ScopeValue::Undefined,
            };
            proof {
                m.scope.lemma_frames();
            }
            m.scope.insert(name.clone(), value)
        },
        _ => Ok(()),
    }
}

/// Runs an assignment to a variable.
pub fn exec_assignment(defs: &Scope, m: &mut Machine, s: &Statement) -> (r: Result<(), Error>)
    requires
        old(m).store.wf(),
        *s is Assignment,
    ensures
        kept(old(m), final(m)),
        agree_unit(sem_stmt(defs_view(defs), old(m)@, *s), final(m)@, r),
    decreases old(m).steps, stmt_size(*s), 0nat,
{
    match s {
        Statement::Assignment { name, value, pos } => {
            let v = match eval_expr(defs, m, value) {
                Ok(v) => v,
                Err(e) => {
                    return Err(e);
                },
            };
            let mismatch = match m.scope.lookup_local(name.as_str()) {
                Some(cur) => mismatch_of(cur, &v),
                None => {
                    return Err(Error::NotFound(name.clone()));
                },
            };
            match mismatch {
                Some(kind) => Err(Error::new(kind, pos.clone())),
                None => m.scope.update_local(name.as_str(), ScopeValue::from(v)),
            }
        },
        _ => Ok(()),
    }
}

/// Runs a signal declaration.
pub fn exec_signal_declaration(defs: &Scope, m: &mut Machine, s: &Statement) -> (r: Result<(), Error>)
    requires
        old(m).store.wf(),
        *s is SignalDeclaration,
    ensures
        kept(old(m), final(m)),
        agree_unit(sem_stmt(defs_view(defs), old(m)@, *s), final(m)@, r),
    decreases old(m).steps, stmt_size(*s), 0nat,
{
    match s {
        Statement::SignalDeclaration { kind, name, indices, pos } => {
            if m.in_function {
                return Err(Error::SignalInFunction(pos.clone()));
            }
            match eval_indices(defs, m, indices, pos) {
                Ok(idx) => {
                    let full = make_signal_name(m.path.as_str(), name.as_str(), &idx);
                    match m.store.declare_signal(full, *kind) {
                        Ok(_) => Ok(()),
                        Err(e) => Err(e),
                    }
                },
                Err(e) => Err(e),
            }
        },
        _ => Ok(()),
    }
}

/// Runs a component declaration.
pub fn exec_component_declaration(defs: &Scope, m: &mut Machine, s: &Statement) -> (r: Result<(), Error>)
    requires
        old(m).store.wf(),
        *s is ComponentDeclaration,
    ensures
        kept(old(m), final(m)),
        agree_unit(sem_stmt(defs_view(defs), old(m)@, *s), final(m)@, r),
    decreases old(m).steps, stmt_size(*s), 0nat,
{
    match s {
        Statement::ComponentDeclaration { name, template, args, pos } => {
            if m.in_function {
                return Err(Error::SignalInFunction(pos.clone()));
            }
            proof {
                defs.lemma_frames();
            }
            match defs.vars.get(template) {
                Some(ScopeValue::Template(_, params, body, tpos)) => {
                    if params.len() != args.len() {
                        return Err(Error::ArityMismatch(pos.clone()));
                    }
                    match eval_args(defs, m, args) {
                        Ok(vals) => {
                            if !all_constant(&vals) {
                                return Err(Error::ExpectedFieldConstant(pos.clone()));
                            }
                            let ip = make_child_path(m.path.as_str(), name.as_str());
                            if m.components.contains_key(&ip) {
                                return Err(Error::AlreadyDefined(pos.clone()));
                            }
                            instantiate(defs, m, ip, params, &**body, tpos, &vals, pos)
                        },
                        Err(e) => Err(e),
                    }
                },
                _ => Err(Error::NotFound(pos.clone())),
            }
        },
        _ => Ok(()),
    }
}

/// Runs a constraint statement.
pub fn exec_constraint(defs: &Scope, m: &mut Machine, s: &Statement) -> (r: Result<(), Error>)
    requires
        old(m).store.wf(),
        *s is Constraint,
    ensures
        kept(old(m), final(m)),
        agree_unit(sem_stmt(defs_view(defs), old(m)@, *s), final(m)@, r),
    decreases old(m).steps, stmt_size(*s), 0nat,
{
    match s {
        Statement::Constraint { lhs, rhs, pos } => {
            if m.in_function {
                return Err(Error::SignalInFunction(pos.clone()));
            }
            match eval_expr(defs, m, lhs) {
                Ok(a) => {
                    proof {
                        m.store.lemma_wf();
                    }
                    match eval_expr(defs, m, rhs) {
                        Ok(b) => {
                            proof {
                                m.store.lemma_wf();
                            }
                            constrain(m, &a, &b, pos)
                        },
                        Err(e) => Err(e),
                    }
                },
                Err(e) => Err(e),
            }
        },
        _ => Ok(()),
    }
}

/// Evaluates the index expressions of the target of a constrain-and-assign
/// statement.
pub fn eval_target_indices(defs: &Scope, m: &mut Machine, target: &Expression, pos: &String) -> (r: Result<
    Vec<u64>,
    Error,
>)
    requires
        old(m).store.wf(),
    ensures
        kept(old(m), final(m)),
        agree_indices(
            sem_indices(defs_view(defs), old(m)@, target_indices(*target), 0, Seq::empty(), pos@),
            final(m)@,
            r,
        ),
    decreases old(m).steps, expr_size(*target), 0nat,
{
    match target {
        Expression::Variable { indices, .. } => eval_indices(defs, m, indices, pos),
        Expression::Pin { indices, .. } => eval_indices(defs, m, indices, pos),
        _ => Ok(Vec::new()),
    }
}

/// Runs a constrain-and-assign statement.
pub fn exec_constrain_assign(defs: &Scope, m: &mut Machine, s: &Statement) -> (r: Result<(), Error>)
    requires
        old(m).store.wf(),
        *s is ConstrainAssign,
    ensures
        kept(old(m), final(m)),
        agree_unit(sem_stmt(defs_view(defs), old(m)@, *s), final(m)@, r),
    decreases old(m).steps, stmt_size(*s), 0nat,
{
    match s {
        Statement::ConstrainAssign { target, value, pos } => {
            if m.in_function {
                return Err(Error::SignalInFunction(pos.clone()));
            }
            let v = match eval_expr(defs, m, value) {
                Ok(v) => v,
                Err(e) => {
                    return Err(e);
                },
            };
            proof {
                m.store.lemma_wf();
                assert(clamp(m@, old(m)@.steps) == m@);
            }
            let idx = match eval_target_indices(defs, m, target, pos) {
                Ok(idx) => idx,
                Err(e) => {
                    return Err(e);
                },
            };
            proof {
                m.store.lemma_wf();
            }
            match resolve_target(m, target, &idx, pos) {
                Ok(id) => constrain(m, &v, &ReturnValue::Algebra(Value::Signal(id)), pos),
                Err(e) => Err(e),
            }
        },
        _ => Ok(()),
    }
}

/// Runs a block.
pub fn exec_block(defs: &Scope, m: &mut Machine, s: &Statement) -> (r: Result<(), Error>)
    requires
        old(m).store.wf(),
        *s is Block,
    ensures
        kept(old(m), final(m)),
        agree_unit(sem_stmt(defs_view(defs), old(m)@, *s), final(m)@, r),
    decreases old(m).steps, stmt_size(*s), 0nat,
{
    match s {
        Statement::Block { body, pos } => {
            enter_frame(m, false, pos.clone());
            match exec_statements(defs, m, body) {
                Ok(_) => leave_frame(m, pos.as_str()),
                Err(e) => Err(e),
            }
        },
        _ => Ok(()),
    }
}

/// Runs a conditional statement.
pub fn exec_if(defs: &Scope, m: &mut Machine, s: &Statement) -> (r: Result<(), Error>)
    requires
        old(m).store.wf(),
        *s is If,
    ensures
        kept(old(m), final(m)),
        agree_unit(sem_stmt(defs_view(defs), old(m)@, *s), final(m)@, r),
    decreases old(m).steps, stmt_size(*s), 0nat,
{
    match s {
        Statement::If { cond, then_branch, else_branch, pos } => {
            let c = match eval_expr(defs, m, cond) {
                Ok(c) => c,
                Err(e) => {
                    return Err(e);
                },
            };
            match truth_of(&c) {
                None => Err(Error::ExpectedBool(pos.clone())),
                Some(true) => exec_scoped(defs, m, &**then_branch, pos),
                Some(false) => match else_branch {
                    Some(s) => exec_scoped(defs, m, &**s, pos),
                    None => Ok(()),
                },
            }
        },
        _ => Ok(()),
    }
}

/// Runs a `while` loop.
pub fn exec_while(defs: &Scope, m: &mut Machine, s: &Statement) -> (r: Result<(), Error>)
    requires
        old(m).store.wf(),
        *s is While,
    ensures
        kept(old(m), final(m)),
        agree_unit(sem_stmt(defs_view(defs), old(m)@, *s), final(m)@, r),
    decreases old(m).steps, stmt_size(*s), 0nat,
{
    match s {
        Statement::While { cond, body, pos } => exec_loop(defs, m, cond, &**body, None, pos),
        _ => Ok(()),
    }
}

/// Runs a `for` loop.
pub fn exec_for(defs: &Scope, m: &mut Machine, s: &Statement) -> (r: Result<(), Error>)
    requires
        old(m).store.wf(),
        *s is For,
    ensures
        kept(old(m), final(m)),
        agree_unit(sem_stmt(defs_view(defs), old(m)@, *s), final(m)@, r),
    decreases old(m).steps, stmt_size(*s), 0nat,
{
    match s {
        Statement::For { init, cond, step, body, pos } => {
            enter_frame(m, false, pos.clone());
            match exec_stmt(defs, m, &**init) {
                Ok(_) => {},
                Err(e) => {
                    return Err(e);
                },
            }
            match exec_loop(defs, m, cond, &**body, Some(&**step), pos) {
                Ok(_) => leave_frame(m, pos.as_str()),
                Err(e) => Err(e),
            }
        },
        _ => Ok(()),
    }
}

/// Runs a `return` statement.
pub fn exec_return(defs: &Scope, m: &mut Machine, s: &Statement) -> (r: Result<(), Error>)
    requires
        old(m).store.wf(),
        *s is Return,
    ensures
        kept(old(m), final(m)),
        agree_unit(sem_stmt(defs_view(defs), old(m)@, *s), final(m)@, r),
    decreases old(m).steps, stmt_size(*s), 0nat,
{
    match s {
        Statement::Return { value, pos } => match eval_expr(defs, m, value) {
            Ok(v) => m.scope.set_return(v),
            Err(e) => Err(e),
        },
        _ => Ok(()),
    }
}

/// Runs the statement `s`.
pub fn exec_stmt(defs: &Scope, m: &mut Machine, s: &Statement) -> (r: Result<(), Error>)
    requires
        old(m).store.wf(),
    ensures
        kept(old(m), final(m)),
        agree_unit(sem_stmt(defs_view(defs), old(m)@, *s), final(m)@, r),
    decreases old(m).steps, stmt_size(*s), 1nat,
{
    match s {
        Statement::Declaration { .. } => exec_declaration(defs, m, s),
        Statement::Assignment { .. } => exec_assignment(defs, m, s),
        Statement::SignalDeclaration { .. } => exec_signal_declaration(defs, m, s),
        Statement::ComponentDeclaration { .. } => exec_component_declaration(defs, m, s),
        Statement::Constraint { .. } => exec_constraint(defs, m, s),
        Statement::ConstrainAssign { .. } => exec_constrain_assign(defs, m, s),
        Statement::Block { .. } => exec_block(defs, m, s),
        Statement::If { .. } => exec_if(defs, m, s),
        Statement::While { .. } => exec_while(defs, m, s),
        Statement::For { .. } => exec_for(defs, m, s),
        Statement::Return { .. } => exec_return(defs, m, s),
        Statement::FunctionDefinition { pos, .. } => Err(Error::BadAst(pos.clone())),
        Statement::TemplateDefinition { pos, .. } => Err(Error::BadAst(pos.clone())),
    }
}

} // verus!
