//! What evaluation computes, as functions from machine to machine.
//!
//! Every function here is the meaning of one executable function of the
//! evaluator; the executable functions are proved to compute them.

use vstd::prelude::*;
use crate::ast::BinaryOp;
use crate::ast::Expression;
use crate::ast::SignalKind;
use crate::ast::Statement;
use crate::ast::UnaryOp;
use crate::bigint::u256_of;
use crate::constraint::constraint_of;
use crate::constraint::FormView;
use crate::error::ErrorKind;
use crate::error::ErrorView;
use crate::machine::child_path;
use crate::machine::literal_value;
use crate::machine::signal_name;
use crate::machine::MachineView;
use crate::retval::RetView;
use crate::scope::frames_boundary;
use crate::scope::frames_pending_return;
use crate::scope::frames_resolve_local;
use crate::scope::frames_update_local;
use crate::scope::frames_with_return;
use crate::scope::scope_view_of_return;
use crate::scope::FrameView;
use crate::scope::ScopeValueView;
use crate::store::component_of;
use crate::store::lookup;
use crate::store::names_eliminated;
use crate::store::store_after_add;
use crate::store::Optimizer;
use crate::store::SignalView;
use crate::store::StoreView;
use crate::value::value_add;
use crate::value::value_div;
use crate::value::value_mul;
use crate::value::value_neg;
use crate::value::value_sub;
use crate::value::AlgebraError;
use crate::value::ValueView;

verus! {

/// The global definitions: functions and templates by name.
pub type Definitions = Map<Seq<char>, ScopeValueView>;

/// The failure of kind `kind` about `detail`.
pub open spec fn fail<T>(kind: ErrorKind, detail: Seq<char>) -> Result<T, ErrorView> {
    Err(ErrorView { kind, detail })
}

/// The machine with at most `steps` steps left.
pub open spec fn clamp(m: MachineView, steps: nat) -> MachineView {
    MachineView {
        steps: if m.steps <= steps {
            m.steps
        } else {
            steps
        },
        ..m
    }
}

/// The number of nodes of an expression.
pub open spec fn expr_size(e: Expression) -> nat
    decreases e,
{
    match e {
        Expression::Number { .. } => 1,
        Expression::Variable { indices, .. } => 1 + exprs_size(indices@, 0),
        Expression::Pin { indices, .. } => 1 + exprs_size(indices@, 0),
        Expression::Unary { operand, .. } => 1 + expr_size(*operand),
        Expression::Binary { lhs, rhs, .. } => 1 + expr_size(*lhs) + expr_size(*rhs),
        Expression::Call { args, .. } => 1 + exprs_size(args@, 0),
    }
}

/// The number of nodes of the expressions `es[from..]`, and one for each.
pub open spec fn exprs_size(es: Seq<Expression>, from: int) -> nat
    decreases es, es.len() - from,
{
    if from < 0 || from >= es.len() {
        0
    } else {
        1 + expr_size(es[from]) + exprs_size(es, from + 1)
    }
}

/// The number of nodes of a statement.
pub open spec fn stmt_size(s: Statement) -> nat
    decreases s,
{
    match s {
        Statement::Declaration { init, .. } => 1 + (match init {
            Some(e) => expr_size(e),
            None => 0,
        }),
        Statement::Assignment { value, .. } => 1 + expr_size(value),
        Statement::SignalDeclaration { indices, .. } => 1 + exprs_size(indices@, 0),
        Statement::ComponentDeclaration { args, .. } => 1 + exprs_size(args@, 0),
        Statement::Constraint { lhs, rhs, .. } => 1 + expr_size(lhs) + expr_size(rhs),
        Statement::ConstrainAssign { target, value, .. } => 1 + expr_size(target) + expr_size(value),
        Statement::Block { body, .. } => 1 + stmts_size(body@, 0),
        Statement::If { cond, then_branch, else_branch, .. } => 1 + expr_size(cond) + stmt_size(
            *then_branch,
        ) + (match else_branch {
            Some(s) => stmt_size(*s),
            None => 0,
        }),
        Statement::While { cond, body, .. } => 1 + expr_size(cond) + stmt_size(*body),
        Statement::For { init, cond, step, body, .. } => 1 + stmt_size(*init) + expr_size(cond)
            + stmt_size(*step) + stmt_size(*body),
        Statement::Return { value, .. } => 1 + expr_size(value),
        Statement::FunctionDefinition { .. } => 1,
        Statement::TemplateDefinition { .. } => 1,
    }
}

/// The number of nodes of the statements `ss[from..]`, and one for each.
pub open spec fn stmts_size(ss: Seq<Statement>, from: int) -> nat
    decreases ss, ss.len() - from,
{
    if from < 0 || from >= ss.len() {
        0
    } else {
        1 + stmt_size(ss[from]) + stmts_size(ss, from + 1)
    }
}

/// The truth value of a condition: a boolean, or a field constant, which is
/// true unless it is zero.
pub open spec fn truth(v: RetView) -> Option<bool> {
    match v {
        RetView::Bool(b) => Some(b),
        RetView::Algebra(ValueView::FieldConst(c)) => Some(c@ != 0),
        _ => None,
    }
}

/// The result of a unary operator.
pub open spec fn unary_value(op: UnaryOp, v: RetView, p: nat) -> Result<RetView, ErrorKind> {
    match op {
        UnaryOp::Neg => match v {
            RetView::Algebra(a) => Ok(RetView::Algebra(value_neg(a, p))),
            _ => Err(ErrorKind::ExpectedFieldConstant),
        },
        UnaryOp::Not => match truth(v) {
            Some(b) => Ok(RetView::Bool(!b)),
            None => Err(ErrorKind::ExpectedBool),
        },
    }
}

/// What the left operand alone decides of `&&` and `||`, if anything.
pub open spec fn short_circuit(op: BinaryOp, a: RetView) -> Option<Result<RetView, ErrorKind>> {
    match op {
        BinaryOp::And => match truth(a) {
            None => Some(Err(ErrorKind::ExpectedBool)),
            Some(false) => Some(Ok(RetView::Bool(false))),
            Some(true) => None,
        },
        BinaryOp::Or => match truth(a) {
            None => Some(Err(ErrorKind::ExpectedBool)),
            Some(true) => Some(Ok(RetView::Bool(true))),
            Some(false) => None,
        },
        _ => None,
    }
}

/// The result of comparing two field constants by their representatives in
/// `[0, p)`.
pub open spec fn compare(op: BinaryOp, x: nat, y: nat) -> bool {
    match op {
        BinaryOp::Eq => x == y,
        BinaryOp::Ne => x != y,
        BinaryOp::Lt => x < y,
        BinaryOp::Le => x <= y,
        BinaryOp::Gt => x > y,
        _ => x >= y,
    }
}

/// The result of a binary operator on two evaluated operands.
pub open spec fn binary_value(op: BinaryOp, a: RetView, b: RetView, p: nat) -> Result<RetView, ErrorKind> {
    match op {
        BinaryOp::Add => match (a, b) {
            (RetView::Algebra(x), RetView::Algebra(y)) => Ok(RetView::Algebra(value_add(x, y, p))),
            _ => Err(ErrorKind::ExpectedFieldConstant),
        },
        BinaryOp::Sub => match (a, b) {
            (RetView::Algebra(x), RetView::Algebra(y)) => Ok(RetView::Algebra(value_sub(x, y, p))),
            _ => Err(ErrorKind::ExpectedFieldConstant),
        },
        BinaryOp::Mul => match (a, b) {
            (RetView::Algebra(x), RetView::Algebra(y)) => match value_mul(x, y, p) {
                Ok(v) => Ok(RetView::Algebra(v)),
                Err(_) => Err(ErrorKind::NonQuadratic),
            },
            _ => Err(ErrorKind::ExpectedFieldConstant),
        },
        BinaryOp::Div => match (a, b) {
            (RetView::Algebra(x), RetView::Algebra(y)) => match value_div(x, y, p) {
                Ok(v) => Ok(RetView::Algebra(v)),
                Err(AlgebraError::NonConstantDivisor) => Err(ErrorKind::NonConstantDivisor),
                Err(_) => Err(ErrorKind::DivisionByZero),
            },
            _ => Err(ErrorKind::ExpectedFieldConstant),
        },
        BinaryOp::And => match (truth(a), truth(b)) {
            (Some(x), Some(y)) => Ok(RetView::Bool(x && y)),
            _ => Err(ErrorKind::ExpectedBool),
        },
        BinaryOp::Or => match (truth(a), truth(b)) {
            (Some(x), Some(y)) => Ok(RetView::Bool(x || y)),
            _ => Err(ErrorKind::ExpectedBool),
        },
        _ => match (a, b) {
            (RetView::Algebra(ValueView::FieldConst(x)), RetView::Algebra(ValueView::FieldConst(y))) => Ok(
                RetView::Bool(compare(op, x@, y@)),
            ),
            (RetView::Bool(x), RetView::Bool(y)) => match op {
                BinaryOp::Eq => Ok(RetView::Bool(x == y)),
                BinaryOp::Ne => Ok(RetView::Bool(x != y)),
                _ => Err(ErrorKind::ExpectedFieldConstant),
            },
            _ => Err(ErrorKind::ExpectedFieldConstant),
        },
    }
}

/// Whether an evaluated expression, where it is algebraic, is canonical.
pub open spec fn ret_wf(v: RetView, p: nat) -> bool {
    match v {
        RetView::Algebra(a) => a.wf(p),
        _ => true,
    }
}

/// What the name `name` with the indices `idx` evaluates to: a variable, an
/// element of an array variable, or a signal of the current component.
///
/// Variables are resolved inside the innermost body only: a callee does
/// not see the names of its caller.
pub open spec fn sem_variable(m: MachineView, name: Seq<char>, idx: Seq<u64>, pos: Seq<char>) -> Result<
    RetView,
    ErrorView,
> {
    match frames_resolve_local(m.frames, name) {
        Some(ScopeValueView::Undefined) => fail(ErrorKind::UseOfUndefined, pos),
        Some(ScopeValueView::Bool(b)) => if idx.len() == 0 {
            Ok(RetView::Bool(b))
        } else {
            fail(ErrorKind::ExpectedArray, pos)
        },
        Some(ScopeValueView::Algebra(v)) => if idx.len() != 0 {
            fail(ErrorKind::ExpectedArray, pos)
        } else if v.wf(m.store.p) {
            Ok(RetView::Algebra(v))
        } else {
            fail(ErrorKind::InternalInvariant, pos)
        },
        Some(ScopeValueView::Array(vs)) => if idx.len() == 0 {
            Ok(RetView::Array(vs))
        } else if idx.len() != 1 {
            fail(ErrorKind::ExpectedArray, pos)
        } else if idx[0] >= vs.len() {
            fail(ErrorKind::OutOfBounds, pos)
        } else if vs[idx[0] as int].wf(m.store.p) {
            Ok(RetView::Algebra(vs[idx[0] as int]))
        } else {
            fail(ErrorKind::InternalInvariant, pos)
        },
        Some(_) => fail(ErrorKind::ExpectedFieldConstant, pos),
        None => if m.in_function {
            fail(ErrorKind::NotFound, pos)
        } else {
            sem_signal(m, signal_name(m.path, name, idx), pos)
        },
    }
}

/// The signal named `full`, unless it is unknown or eliminated.
pub open spec fn sem_signal(m: MachineView, full: Seq<char>, pos: Seq<char>) -> Result<RetView, ErrorView> {
    match lookup(m.store.signals, full) {
        Some(id) => if m.store.eliminated[id as int] {
            fail(ErrorKind::InternalInvariant, pos)
        } else {
            Ok(RetView::Algebra(ValueView::Signal(id)))
        },
        None => fail(ErrorKind::NotFound, pos),
    }
}

/// What `component.signal` with the indices `idx` evaluates to.
pub open spec fn sem_pin(
    m: MachineView,
    component: Seq<char>,
    signal: Seq<char>,
    idx: Seq<u64>,
    pos: Seq<char>,
) -> Result<RetView, ErrorView> {
    let cp = child_path(m.path, component);
    if m.in_function || !m.components.dom().contains(cp) {
        fail(ErrorKind::NotFound, pos)
    } else {
        match lookup(m.store.signals, signal_name(cp, signal, idx)) {
            Some(id) => if m.store.signals[id as int].kind == SignalKind::Output && m.components[cp].len()
                > 0 {
                fail(ErrorKind::PrematureOutputRead, pos)
            } else if m.store.eliminated[id as int] {
                fail(ErrorKind::InternalInvariant, pos)
            } else {
                Ok(RetView::Algebra(ValueView::Signal(id)))
            },
            None => fail(ErrorKind::NotFound, pos),
        }
    }
}

/// The frames after `name` was bound to `v` in the innermost frame.
pub open spec fn frames_insert(fs: Seq<FrameView>, name: Seq<char>, v: ScopeValueView) -> Result<
    Seq<FrameView>,
    ErrorView,
> {
    if fs[0].locals.dom().contains(name) {
        fail(ErrorKind::AlreadyDefined, name)
    } else {
        Ok(fs.update(0, FrameView { locals: fs[0].locals.insert(name, v), ..fs[0] }))
    }
}

/// The machine with a new innermost frame.
pub open spec fn push_frame(m: MachineView, boundary: bool, pos: Seq<char>) -> MachineView {
    MachineView {
        frames: seq![FrameView { is_boundary: boundary, pos, return_slot: None, locals: Map::empty() }]
            + m.frames,
        ..m
    }
}

/// The machine without its innermost frame.
pub open spec fn pop_frame(m: MachineView, pos: Seq<char>) -> Result<MachineView, ErrorView> {
    if m.frames.len() >= 2 {
        Ok(MachineView { frames: m.frames.drop_first(), ..m })
    } else {
        fail(ErrorKind::InternalInvariant, pos)
    }
}

/// The frames after the parameters `params[i..]` were bound to the values
/// `vals[i..]` in the innermost frame.
pub open spec fn bind_params(fs: Seq<FrameView>, params: Seq<String>, vals: Seq<RetView>, i: int) -> Result<
    Seq<FrameView>,
    ErrorView,
>
    decreases params.len() - i,
{
    if i < 0 || i >= params.len() || i >= vals.len() {
        Ok(fs)
    } else {
        match frames_insert(fs, params[i]@, scope_view_of_return(vals[i])) {
            Ok(next) => bind_params(next, params, vals, i + 1),
            Err(e) => Err(e),
        }
    }
}

/// Why a variable bound to `cur` cannot be assigned `r`, if it cannot.
pub open spec fn assignment_mismatch(cur: ScopeValueView, r: RetView) -> Option<ErrorKind> {
    match cur {
        ScopeValueView::Undefined => None,
        ScopeValueView::Bool(_) => if r is Bool {
            None
        } else {
            Some(ErrorKind::ExpectedBool)
        },
        ScopeValueView::Algebra(_) => if r is Algebra {
            None
        } else {
            Some(ErrorKind::ExpectedFieldConstant)
        },
        ScopeValueView::Array(_) => if r is Array {
            None
        } else {
            Some(ErrorKind::ExpectedArray)
        },
        _ => Some(ErrorKind::BadAst),
    }
}

/// Whether a template argument is a field constant or an array of field
/// constants.
pub open spec fn is_constant_argument(v: RetView) -> bool {
    match v {
        RetView::Algebra(ValueView::FieldConst(_)) => true,
        RetView::Array(vs) => forall|i: int| 0 <= i < vs.len() ==> (#[trigger] vs[i]) is FieldConst,
        _ => false,
    }
}

/// The ids of the input signals among the first `n` signals that the
/// component at `path` declared, in ascending order.
pub open spec fn inputs_of(signals: Seq<SignalView>, path: Seq<char>, n: int) -> Seq<u64>
    decreases n,
{
    if n <= 0 {
        Seq::empty()
    } else {
        let rest = inputs_of(signals, path, n - 1);
        if signals[n - 1].component_path == path && signals[n - 1].kind == SignalKind::Input {
            rest.push(signals[n - 1].id)
        } else {
            rest
        }
    }
}

/// The first index at or behind `i` at which `s` holds `id`.
pub open spec fn find_id(s: Seq<u64>, id: u64, i: int) -> Option<int>
    decreases s.len() - i,
{
    if i < 0 || i >= s.len() {
        None
    } else if s[i] == id {
        Some(i)
    } else {
        find_id(s, id, i + 1)
    }
}

/// The machine after the constraint `lhs = rhs`, stated at `pos`, was added.
pub open spec fn sem_constrain(m: MachineView, lhs: RetView, rhs: RetView, pos: Seq<char>) -> Result<
    MachineView,
    ErrorView,
> {
    match (lhs, rhs) {
        (RetView::Algebra(a), RetView::Algebra(b)) => match constraint_of(a, b, m.store.p) {
            Ok(q) => sem_add(m, q, pos),
            Err(_) => fail(ErrorKind::NonQuadraticConstraint, pos),
        },
        _ => fail(ErrorKind::ExpectedFieldConstant, pos),
    }
}

/// The machine after the form `q`, stated at `pos`, was added to its store.
pub open spec fn sem_add(m: MachineView, q: FormView, pos: Seq<char>) -> Result<MachineView, ErrorView> {
    if !q.within(m.store.signals.len()) {
        fail(ErrorKind::InvalidConstraintSignal, pos)
    } else if names_eliminated(m.store, q) {
        fail(ErrorKind::InternalInvariant, pos)
    } else {
        Ok(MachineView { store: store_after_add(m.store, q, pos), ..m })
    }
}

/// The machine after the signal `full` of kind `kind` was declared.
pub open spec fn sem_declare(m: MachineView, full: Seq<char>, kind: SignalKind) -> Result<
    MachineView,
    ErrorView,
> {
    match lookup(m.store.signals, full) {
        Some(_) => fail(ErrorKind::DuplicateSignal, full),
        None => Ok(
            MachineView {
                store: StoreView {
                    signals: m.store.signals.push(
                        SignalView {
                            id: m.store.signals.len() as u64,
                            full_name: full,
                            kind,
                            component_path: component_of(full),
                        },
                    ),
                    eliminated: m.store.eliminated.push(false),
                    ..m.store
                },
                ..m
            },
        ),
    }
}

/// The signal that a constrain-and-assign statement writes, and the machine
/// after the write was noted: a signal of the current component, or an
/// input of a sub-component that has not been written before.
pub open spec fn sem_target(
    m: MachineView,
    target: Expression,
    idx: Seq<u64>,
    pos: Seq<char>,
) -> Result<(MachineView, u64), ErrorView> {
    match target {
        Expression::Variable { name, .. } => match lookup(
            m.store.signals,
            signal_name(m.path, name@, idx),
        ) {
            Some(id) => Ok((m, id)),
            None => fail(ErrorKind::NotFound, pos),
        },
        Expression::Pin { component, signal, .. } => {
            let cp = child_path(m.path, component@);
            if !m.components.dom().contains(cp) {
                fail(ErrorKind::NotFound, pos)
            } else {
                match lookup(m.store.signals, signal_name(cp, signal@, idx)) {
                    Some(id) => match find_id(m.components[cp], id, 0) {
                        Some(i) => Ok(
                            (
                                MachineView {
                                    components: m.components.insert(cp, m.components[cp].remove(i)),
                                    ..m
                                },
                                id,
                            ),
                        ),
                        None => if m.store.signals[id as int].kind == SignalKind::Input {
                            fail(ErrorKind::AlreadyDefined, pos)
                        } else {
                            fail(ErrorKind::BadAst, pos)
                        },
                    },
                    None => fail(ErrorKind::NotFound, pos),
                }
            }
        },
        _ => fail(ErrorKind::BadAst, pos),
    }
}

/// The index expressions of a target; none for another kind of expression.
pub open spec fn target_indices(target: Expression) -> Seq<Expression> {
    match target {
        Expression::Variable { indices, .. } => indices@,
        Expression::Pin { indices, .. } => indices@,
        _ => Seq::empty(),
    }
}

/// What an expression evaluates to, and the machine after its evaluation.
pub open spec fn sem_expr(defs: Definitions, m: MachineView, e: Expression) -> Result<
    (MachineView, RetView),
    ErrorView,
>
    decreases m.steps, expr_size(e), 0nat,
{
    match e {
        Expression::Number { text, pos } => match literal_value(text@, m.store.p) {
            Some(n) => Ok((m, RetView::Algebra(ValueView::FieldConst(u256_of(n))))),
            None => fail(ErrorKind::BadAst, pos@),
        },
        Expression::Variable { name, indices, pos } => match sem_indices(
            defs,
            m,
            indices@,
            0,
            Seq::empty(),
            pos@,
        ) {
            Ok((m1, idx)) => match sem_variable(m1, name@, idx, pos@) {
                Ok(v) => Ok((m1, v)),
                Err(e) => Err(e),
            },
            Err(e) => Err(e),
        },
        Expression::Pin { component, signal, indices, pos } => match sem_indices(
            defs,
            m,
            indices@,
            0,
            Seq::empty(),
            pos@,
        ) {
            Ok((m1, idx)) => match sem_pin(m1, component@, signal@, idx, pos@) {
                Ok(v) => Ok((m1, v)),
                Err(e) => Err(e),
            },
            Err(e) => Err(e),
        },
        Expression::Unary { op, operand, pos } => match sem_expr(defs, m, *operand) {
            Ok((m1, v)) => match unary_value(op, v, m1.store.p) {
                Ok(r) => Ok((m1, r)),
                Err(kind) => fail(kind, pos@),
            },
            Err(e) => Err(e),
        },
        Expression::Binary { op, lhs, rhs, pos } => match sem_expr(defs, m, *lhs) {
            Ok((m1, a)) => match short_circuit(op, a) {
                Some(Ok(r)) => Ok((m1, r)),
                Some(Err(kind)) => fail(kind, pos@),
                None => match sem_expr(defs, clamp(m1, m.steps), *rhs) {
                    Ok((m2, b)) => match binary_value(op, a, b, m2.store.p) {
                        Ok(r) => Ok((m2, r)),
                        Err(kind) => fail(kind, pos@),
                    },
                    Err(e) => Err(e),
                },
            },
            Err(e) => Err(e),
        },
        Expression::Call { name, args, pos } => if !defs.dom().contains(name@) {
            fail(ErrorKind::NotFound, pos@)
        } else {
            match defs[name@] {
                ScopeValueView::Function(params, body, fpos) => if params@.len() != args@.len() {
                    fail(ErrorKind::ArityMismatch, pos@)
                } else {
                    match sem_args(defs, m, args@, 0, Seq::empty()) {
                        Ok((m1, vals)) => sem_call(
                            defs,
                            clamp(m1, m.steps),
                            params@,
                            *body,
                            fpos@,
                            vals,
                            pos@,
                        ),
                        Err(e) => Err(e),
                    }
                },
                _ => fail(ErrorKind::NotFound, pos@),
            }
        },
    }
}

/// The values of the index expressions `es[i..]` behind those in `acc`.
pub open spec fn sem_indices(
    defs: Definitions,
    m: MachineView,
    es: Seq<Expression>,
    i: int,
    acc: Seq<u64>,
    pos: Seq<char>,
) -> Result<(MachineView, Seq<u64>), ErrorView>
    decreases m.steps, exprs_size(es, i), 0nat,
{
    if i < 0 || i >= es.len() {
        Ok((m, acc))
    } else {
        match sem_expr(defs, m, es[i]) {
            Ok((m1, RetView::Algebra(ValueView::FieldConst(c)))) => if c@ <= u64::MAX {
                sem_indices(defs, clamp(m1, m.steps), es, i + 1, acc.push(c@ as u64), pos)
            } else {
                fail(ErrorKind::NonConstantIndex, pos)
            },
            Ok(_) => fail(ErrorKind::NonConstantIndex, pos),
            Err(e) => Err(e),
        }
    }
}

/// The values of the argument expressions `es[i..]` behind those in `acc`.
pub open spec fn sem_args(
    defs: Definitions,
    m: MachineView,
    es: Seq<Expression>,
    i: int,
    acc: Seq<RetView>,
) -> Result<(MachineView, Seq<RetView>), ErrorView>
    decreases m.steps, exprs_size(es, i), 0nat,
{
    if i < 0 || i >= es.len() {
        Ok((m, acc))
    } else {
        match sem_expr(defs, m, es[i]) {
            Ok((m1, v)) => sem_args(defs, clamp(m1, m.steps), es, i + 1, acc.push(v)),
            Err(e) => Err(e),
        }
    }
}

/// The result of calling a function with the argument values `vals`.
pub open spec fn sem_call(
    defs: Definitions,
    m: MachineView,
    params: Seq<String>,
    body: Statement,
    fpos: Seq<char>,
    vals: Seq<RetView>,
    pos: Seq<char>,
) -> Result<(MachineView, RetView), ErrorView>
    decreases m.steps, 0nat, 0nat,
{
    if m.steps == 0 {
        fail(ErrorKind::StepLimitExceeded, pos)
    } else {
        let entered = push_frame(m, true, fpos);
        match bind_params(entered.frames, params, vals, 0) {
            Ok(frames) => {
                let start = MachineView {
                    frames,
                    in_function: true,
                    steps: (m.steps - 1) as nat,
                    ..entered
                };
                match sem_stmt(defs, start, body) {
                    Ok(end) => match frames_pending_return(end.frames) {
                        Some(r) => if !ret_wf(r, end.store.p) {
                            fail(ErrorKind::InternalInvariant, pos)
                        } else {
                            match pop_frame(
                                MachineView { frames: frames_with_return(end.frames, None), ..end },
                                pos,
                            ) {
                                Ok(left) => Ok((MachineView { in_function: m.in_function, ..left }, r)),
                                Err(e) => Err(e),
                            }
                        },
                        None => fail(ErrorKind::MissingReturn, pos),
                    },
                    Err(e) => Err(e),
                }
            },
            Err(e) => Err(e),
        }
    }
}

/// The machine after a template was instantiated at the path `ip`.
pub open spec fn sem_instantiate(
    defs: Definitions,
    m: MachineView,
    ip: Seq<char>,
    params: Seq<String>,
    body: Statement,
    tpos: Seq<char>,
    vals: Seq<RetView>,
    pos: Seq<char>,
) -> Result<MachineView, ErrorView>
    decreases m.steps, 0nat, 0nat,
{
    if m.steps == 0 {
        fail(ErrorKind::StepLimitExceeded, pos)
    } else {
        let entered = push_frame(m, true, tpos);
        match bind_params(entered.frames, params, vals, 0) {
            Ok(frames) => {
                let start = MachineView { frames, path: ip, steps: (m.steps - 1) as nat, ..entered };
                match sem_stmt(defs, start, body) {
                    Ok(end) => match pop_frame(end, pos) {
                        Ok(left) => Ok(
                            MachineView {
                                path: m.path,
                                components: left.components.insert(
                                    ip,
                                    inputs_of(left.store.signals, ip, left.store.signals.len() as int),
                                ),
                                ..left
                            },
                        ),
                        Err(e) => Err(e),
                    },
                    Err(e) => Err(e),
                }
            },
            Err(e) => Err(e),
        }
    }
}

/// The machine after the statement `s` ran in a frame of its own.
pub open spec fn sem_scoped(defs: Definitions, m: MachineView, s: Statement, pos: Seq<char>) -> Result<
    MachineView,
    ErrorView,
>
    decreases m.steps, stmt_size(s), 1nat,
{
    match sem_stmt(defs, push_frame(m, false, pos), s) {
        Ok(end) => pop_frame(end, pos),
        Err(e) => Err(e),
    }
}

/// The machine after the statements `ss[i..]` ran, up to the first that
/// leaves a return pending.
pub open spec fn sem_block(defs: Definitions, m: MachineView, ss: Seq<Statement>, i: int) -> Result<
    MachineView,
    ErrorView,
>
    decreases m.steps, stmts_size(ss, i), 0nat,
{
    if i < 0 || i >= ss.len() || frames_pending_return(m.frames) is Some {
        Ok(m)
    } else {
        match sem_stmt(defs, m, ss[i]) {
            Ok(m1) => sem_block(defs, clamp(m1, m.steps), ss, i + 1),
            Err(e) => Err(e),
        }
    }
}

/// The machine after the loop of `cond`, `body` and `step` ran to its end:
/// until the condition is false or a return is pending.
pub open spec fn sem_loop(
    defs: Definitions,
    m: MachineView,
    cond: Expression,
    body: Statement,
    step: Option<Statement>,
    pos: Seq<char>,
) -> Result<MachineView, ErrorView>
    decreases m.steps, expr_size(cond) + stmt_size(body) + (match step {
        Some(s) => stmt_size(s),
        None => 0,
    }), 0nat,
{
    if frames_pending_return(m.frames) is Some {
        Ok(m)
    } else {
        match sem_expr(defs, m, cond) {
            Ok((m1, c)) => match truth(c) {
                None => fail(ErrorKind::NonConstantLoopCondition, pos),
                Some(false) => Ok(m1),
                Some(true) => {
                    let m1 = clamp(m1, m.steps);
                    if m1.steps == 0 {
                        fail(ErrorKind::StepLimitExceeded, pos)
                    } else {
                        let limit = (m1.steps - 1) as nat;
                        match sem_scoped(defs, MachineView { steps: limit, ..m1 }, body, pos) {
                            Ok(m2) => {
                                let m2 = clamp(m2, limit);
                                match step {
                                    Some(s) => if frames_pending_return(m2.frames) is Some {
                                        Ok(m2)
                                    } else {
                                        match sem_stmt(defs, m2, s) {
                                            Ok(m3) => sem_loop(defs, clamp(m3, limit), cond, body, step, pos),
                                            Err(e) => Err(e),
                                        }
                                    },
                                    None => sem_loop(defs, m2, cond, body, step, pos),
                                }
                            },
                            Err(e) => Err(e),
                        }
                    }
                },
            },
            Err(e) => Err(e),
        }
    }
}

/// The machine after the statement `s` ran.
pub open spec fn sem_stmt(defs: Definitions, m: MachineView, s: Statement) -> Result<MachineView, ErrorView>
    decreases m.steps, stmt_size(s), 0nat,
{
    match s {
        Statement::Declaration { name, init, pos } => match init {
            Some(e) => match sem_expr(defs, m, e) {
                Ok((m1, v)) => match frames_insert(m1.frames, name@, scope_view_of_return(v)) {
                    Ok(frames) => Ok(MachineView { frames, ..m1 }),
                    Err(e) => Err(e),
                },
                Err(e) => Err(e),
            },
            None => match frames_insert(m.frames, name@, ScopeValueView::Undefined) {
                Ok(frames) => Ok(MachineView { frames, ..m }),
                Err(e) => Err(e),
            },
        },
        Statement::Assignment { name, value, pos } => match sem_expr(defs, m, value) {
            Ok((m1, v)) => match frames_resolve_local(m1.frames, name@) {
                Some(cur) => match assignment_mismatch(cur, v) {
                    Some(kind) => fail(kind, pos@),
                    None => Ok(
                        MachineView {
                            frames: frames_update_local(m1.frames, name@, scope_view_of_return(v)),
                            ..m1
                        },
                    ),
                },
                None => fail(ErrorKind::NotFound, name@),
            },
            Err(e) => Err(e),
        },
        Statement::SignalDeclaration { kind, name, indices, pos } => if m.in_function {
            fail(ErrorKind::SignalInFunction, pos@)
        } else {
            match sem_indices(defs, m, indices@, 0, Seq::empty(), pos@) {
                Ok((m1, idx)) => sem_declare(m1, signal_name(m1.path, name@, idx), kind),
                Err(e) => Err(e),
            }
        },
        Statement::ComponentDeclaration { name, template, args, pos } => if m.in_function {
            fail(ErrorKind::SignalInFunction, pos@)
        } else if !defs.dom().contains(template@) {
            fail(ErrorKind::NotFound, pos@)
        } else {
            match defs[template@] {
                ScopeValueView::Template(_, params, body, tpos) => if params@.len() != args@.len() {
                    fail(ErrorKind::ArityMismatch, pos@)
                } else {
                    match sem_args(defs, m, args@, 0, Seq::empty()) {
                        Ok((m1, vals)) => if exists|i: int|
                            0 <= i < vals.len() && !is_constant_argument(#[trigger] vals[i]) {
                            fail(ErrorKind::ExpectedFieldConstant, pos@)
                        } else if m1.components.dom().contains(child_path(m1.path, name@)) {
                            fail(ErrorKind::AlreadyDefined, pos@)
                        } else {
                            sem_instantiate(
                                defs,
                                clamp(m1, m.steps),
                                child_path(m1.path, name@),
                                params@,
                                *body,
                                tpos@,
                                vals,
                                pos@,
                            )
                        },
                        Err(e) => Err(e),
                    }
                },
                _ => fail(ErrorKind::NotFound, pos@),
            }
        },
        Statement::Constraint { lhs, rhs, pos } => if m.in_function {
            fail(ErrorKind::SignalInFunction, pos@)
        } else {
            match sem_expr(defs, m, lhs) {
                Ok((m1, a)) => match sem_expr(defs, clamp(m1, m.steps), rhs) {
                    Ok((m2, b)) => sem_constrain(m2, a, b, pos@),
                    Err(e) => Err(e),
                },
                Err(e) => Err(e),
            }
        },
        Statement::ConstrainAssign { target, value, pos } => if m.in_function {
            fail(ErrorKind::SignalInFunction, pos@)
        } else {
            match sem_expr(defs, m, value) {
                Ok((m1, v)) => match sem_indices(
                    defs,
                    clamp(m1, m.steps),
                    target_indices(target),
                    0,
                    Seq::empty(),
                    pos@,
                ) {
                    Ok((m2, idx)) => match sem_target(m2, target, idx, pos@) {
                        Ok((m3, id)) => sem_constrain(m3, v, RetView::Algebra(ValueView::Signal(id)), pos@),
                        Err(e) => Err(e),
                    },
                    Err(e) => Err(e),
                },
                Err(e) => Err(e),
            }
        },
        Statement::Block { body, pos } => match sem_block(defs, push_frame(m, false, pos@), body@, 0) {
            Ok(end) => pop_frame(end, pos@),
            Err(e) => Err(e),
        },
        Statement::If { cond, then_branch, else_branch, pos } => match sem_expr(defs, m, cond) {
            Ok((m1, c)) => match truth(c) {
                None => fail(ErrorKind::ExpectedBool, pos@),
                Some(true) => sem_scoped(defs, clamp(m1, m.steps), *then_branch, pos@),
                Some(false) => match else_branch {
                    Some(s) => sem_scoped(defs, clamp(m1, m.steps), *s, pos@),
                    None => Ok(m1),
                },
            },
            Err(e) => Err(e),
        },
        Statement::While { cond, body, pos } => sem_loop(defs, m, cond, *body, None, pos@),
        Statement::For { init, cond, step, body, pos } => match sem_stmt(
            defs,
            push_frame(m, false, pos@),
            *init,
        ) {
            Ok(m1) => match sem_loop(defs, clamp(m1, m.steps), cond, *body, Some(*step), pos@) {
                Ok(end) => pop_frame(end, pos@),
                Err(e) => Err(e),
            },
            Err(e) => Err(e),
        },
        Statement::Return { value, pos } => match sem_expr(defs, m, value) {
            Ok((m1, v)) => match frames_boundary(m1.frames) {
                Some(_) => Ok(MachineView { frames: frames_with_return(m1.frames, Some(v)), ..m1 }),
                None => fail(ErrorKind::NoEnclosingReturnTarget, m1.frames.last().pos),
            },
            Err(e) => Err(e),
        },
        Statement::FunctionDefinition { pos, .. } => fail(ErrorKind::BadAst, pos@),
        Statement::TemplateDefinition { pos, .. } => fail(ErrorKind::BadAst, pos@),
    }
}

/// The name and the definition that a top-level statement gives.
pub open spec fn definition_of(s: Statement) -> Option<(Seq<char>, ScopeValueView)> {
    match s {
        Statement::FunctionDefinition { name, params, body, pos } => Some(
            (name@, ScopeValueView::Function(params, body, pos)),
        ),
        Statement::TemplateDefinition { attributes, name, params, body, pos } => Some(
            (name@, ScopeValueView::Template(attributes, params, body, pos)),
        ),
        _ => None,
    }
}

/// The source position of a statement.
pub open spec fn stmt_pos(s: Statement) -> Seq<char> {
    match s {
        Statement::Declaration { pos, .. } => pos@,
        Statement::Assignment { pos, .. } => pos@,
        Statement::SignalDeclaration { pos, .. } => pos@,
        Statement::ComponentDeclaration { pos, .. } => pos@,
        Statement::Constraint { pos, .. } => pos@,
        Statement::ConstrainAssign { pos, .. } => pos@,
        Statement::Block { pos, .. } => pos@,
        Statement::If { pos, .. } => pos@,
        Statement::While { pos, .. } => pos@,
        Statement::For { pos, .. } => pos@,
        Statement::Return { pos, .. } => pos@,
        Statement::FunctionDefinition { pos, .. } => pos@,
        Statement::TemplateDefinition { pos, .. } => pos@,
    }
}

/// The definitions `defs` and those that the statements `ss[i..]` give.
pub open spec fn seed(defs: Definitions, ss: Seq<Statement>, i: int) -> Result<Definitions, ErrorView>
    decreases ss.len() - i,
{
    if i < 0 || i >= ss.len() {
        Ok(defs)
    } else {
        match definition_of(ss[i]) {
            None => fail(ErrorKind::BadAst, stmt_pos(ss[i])),
            Some((name, v)) => if defs.dom().contains(name) {
                fail(ErrorKind::AlreadyDefined, name)
            } else {
                seed(defs.insert(name, v), ss, i + 1)
            },
        }
    }
}

/// The path of the top-level component.
pub open spec fn main_path() -> Seq<char> {
    seq!['m', 'a', 'i', 'n']
}

/// Whether `v` can be given to the top-level template: a canonical field
/// constant or an array of field constants.
pub open spec fn valid_argument(v: RetView, p: nat) -> bool {
    is_constant_argument(v) && ret_wf(v, p)
}

/// The machine that evaluation starts from.
pub open spec fn initial_machine(p: nat, optimizer: Optimizer, template: Seq<char>, steps: nat) -> MachineView {
    MachineView {
        store: StoreView {
            p,
            optimizer,
            signals: Seq::empty(),
            eliminated: Seq::empty(),
            constraints: Seq::empty(),
            top_component: Some(template),
        },
        frames: seq![
            FrameView { is_boundary: true, pos: Seq::empty(), return_slot: None, locals: Map::empty() },
        ],
        path: Seq::empty(),
        in_function: false,
        components: Map::empty(),
        steps,
    }
}

/// The store that evaluation of `program` fills: the top-level statements
/// define functions and templates, and the template named `template` is
/// instantiated once, as the component `main`, with the arguments `args`.
pub open spec fn sem_run(
    program: Seq<Statement>,
    template: Seq<char>,
    args: Seq<RetView>,
    p: nat,
    optimizer: Optimizer,
    steps: nat,
) -> Result<StoreView, ErrorView> {
    match seed(Map::empty(), program, 0) {
        Err(e) => Err(e),
        Ok(defs) => if !defs.dom().contains(template) {
            fail(ErrorKind::NotFound, template)
        } else {
            match defs[template] {
                ScopeValueView::Template(_, params, body, tpos) => if params@.len() != args.len() {
                    fail(ErrorKind::ArityMismatch, template)
                } else if exists|i: int| 0 <= i < args.len() && !valid_argument(#[trigger] args[i], p) {
                    fail(ErrorKind::ExpectedFieldConstant, template)
                } else {
                    match sem_instantiate(
                        defs,
                        initial_machine(p, optimizer, template, steps),
                        main_path(),
                        params@,
                        *body,
                        tpos@,
                        args,
                        template,
                    ) {
                        Ok(m) => Ok(m.store),
                        Err(e) => Err(e),
                    }
                },
                _ => fail(ErrorKind::NotFound, template),
            }
        },
    }
}

/// Evaluation is a function of the program, the template, its arguments,
/// the field, the optimizer and the step limit: two runs on the same inputs
/// end in the same error, or in stores with the same signals under the same
/// ids and the same constraints in the same order, which are written as the
/// same bytes.
pub proof fn law_evaluation_is_deterministic(
    program: Seq<Statement>,
    template: Seq<char>,
    args: Seq<RetView>,
    p: nat,
    optimizer: Optimizer,
    steps: nat,
    first: Result<StoreView, ErrorView>,
    second: Result<StoreView, ErrorView>,
)
    requires
        first == sem_run(program, template, args, p, optimizer, steps),
        second == sem_run(program, template, args, p, optimizer, steps),
    ensures
        first == second,
        first matches Ok(a) ==> second matches Ok(b) && a.signals == b.signals && a.constraints
            == b.constraints && crate::codec::enc_store(a) == crate::codec::enc_store(b),
{
}

/// Once a return is pending, the rest of a block does not run.
pub proof fn law_pending_return_ends_block(defs: Definitions, m: MachineView, ss: Seq<Statement>, i: int)
    requires
        frames_pending_return(m.frames) is Some,
    ensures
        sem_block(defs, m, ss, i) == Ok::<MachineView, ErrorView>(m),
{
}

/// Once a return is pending, a loop does not go on.
pub proof fn law_pending_return_ends_loop(
    defs: Definitions,
    m: MachineView,
    cond: Expression,
    body: Statement,
    step: Option<Statement>,
    pos: Seq<char>,
)
    requires
        frames_pending_return(m.frames) is Some,
    ensures
        sem_loop(defs, m, cond, body, step, pos) == Ok::<MachineView, ErrorView>(m),
{
}

/// A `return` statement whose value evaluates to `v`, inside any number of
/// frames that are no boundaries, leaves `v` pending in the boundary frame
/// that encloses them.
pub proof fn law_return_is_pending(
    defs: Definitions,
    m: MachineView,
    s: Statement,
    m1: MachineView,
    v: RetView,
)
    requires
        s is Return,
        sem_expr(defs, m, s->Return_value) == Ok::<(MachineView, RetView), ErrorView>((m1, v)),
        frames_boundary(m1.frames) is Some,
    ensures
        sem_stmt(defs, m, s) == Ok::<MachineView, ErrorView>(
            MachineView { frames: frames_with_return(m1.frames, Some(v)), ..m1 },
        ),
        frames_pending_return(frames_with_return(m1.frames, Some(v))) == Some(v),
{
    let n = frames_boundary(m1.frames)->Some_0;
    crate::scope::lemma_boundary_index(m1.frames);
    crate::scope::law_return_reaches_enclosing_boundary(m1.frames, n, v);
}

} // verus!
