//! Frames are entered and left in strict order: whatever a statement or an
//! expression does, it leaves the scope chain with the frames that it found.

use vstd::prelude::*;
use crate::ast::Expression;
use crate::ast::Statement;
use crate::machine::MachineView;
use crate::retval::RetView;
use crate::scope::frames_update_local;
use crate::scope::frames_with_return;
use crate::scope::lemma_boundary_index;
use crate::scope::FrameView;
use crate::scope::ScopeValueView;
use crate::semantics::bind_params;
use crate::semantics::clamp;
use crate::semantics::expr_size;
use crate::semantics::exprs_size;
use crate::semantics::frames_insert;
use crate::semantics::push_frame;
use crate::semantics::sem_args;
use crate::semantics::sem_block;
use crate::semantics::sem_call;
use crate::semantics::sem_expr;
use crate::semantics::sem_indices;
use crate::semantics::sem_instantiate;
use crate::semantics::sem_loop;
use crate::semantics::sem_scoped;
use crate::semantics::sem_stmt;
use crate::semantics::short_circuit;
use crate::semantics::stmt_size;
use crate::semantics::stmts_size;
use crate::semantics::target_indices;
use crate::semantics::truth;
use crate::semantics::Definitions;

verus! {

/// Whether two chains have the same frames but for bindings and return
/// slots: as many, each a boundary or not as its counterpart, and each from
/// the same source position.
pub open spec fn same_shape(a: Seq<FrameView>, b: Seq<FrameView>) -> bool {
    &&& a.len() == b.len()
    &&& forall|i: int|
        0 <= i < a.len() ==> (#[trigger] a[i]).is_boundary == b[i].is_boundary && a[i].pos == b[i].pos
}

/// Whether the machine `after` has the frames, the component path and the
/// function flag of `before`, and no more steps left than it.
pub open spec fn restored(before: MachineView, after: MachineView) -> bool {
    &&& same_shape(before.frames, after.frames)
    &&& after.path == before.path
    &&& after.in_function == before.in_function
    &&& after.steps <= before.steps
}

/// An update of a binding changes no frame's shape.
pub proof fn lemma_update_shape(fs: Seq<FrameView>, key: Seq<char>, v: ScopeValueView)
    ensures
        same_shape(fs, frames_update_local(fs, key, v)),
    decreases fs.len(),
{
    if fs.len() > 0 && !fs[0].locals.dom().contains(key) && !fs[0].is_boundary {
        let t = fs.drop_first();
        lemma_update_shape(t, key, v);
        let u = frames_update_local(t, key, v);
        let r = seq![fs[0]] + u;
        assert forall|i: int| 0 <= i < fs.len() implies (#[trigger] fs[i]).is_boundary == r[i].is_boundary
            && fs[i].pos == r[i].pos by {
            if i > 0 {
                assert(fs[i] == t[i - 1]);
                assert(r[i] == u[i - 1]);
            }
        }
    }
}

/// A change of the return slot changes no frame's shape.
pub proof fn lemma_return_shape(fs: Seq<FrameView>, slot: Option<RetView>)
    ensures
        same_shape(fs, frames_with_return(fs, slot)),
{
    lemma_boundary_index(fs);
}

/// Chains of one shape with a third are of one shape.
pub proof fn lemma_shape_trans(a: Seq<FrameView>, b: Seq<FrameView>, c: Seq<FrameView>)
    requires
        same_shape(a, b),
        same_shape(b, c),
    ensures
        same_shape(a, c),
{
    assert forall|i: int| 0 <= i < a.len() implies (#[trigger] a[i]).is_boundary == c[i].is_boundary
        && a[i].pos == c[i].pos by {
        assert(a[i].is_boundary == b[i].is_boundary);
        assert(b[i].is_boundary == c[i].is_boundary);
    }
}

/// A new binding changes no frame's shape.
pub proof fn lemma_insert_shape(fs: Seq<FrameView>, name: Seq<char>, v: ScopeValueView)
    requires
        fs.len() >= 1,
    ensures
        frames_insert(fs, name, v) matches Ok(gs) ==> same_shape(fs, gs),
{
}

/// Binding parameters changes no frame's shape.
pub proof fn lemma_bind_shape(fs: Seq<FrameView>, params: Seq<String>, vals: Seq<RetView>, i: int)
    requires
        fs.len() >= 1,
    ensures
        bind_params(fs, params, vals, i) matches Ok(gs) ==> same_shape(fs, gs),
    decreases params.len() - i,
{
    if !(i < 0 || i >= params.len() || i >= vals.len()) {
        let v = crate::scope::scope_view_of_return(vals[i]);
        lemma_insert_shape(fs, params[i]@, v);
        match frames_insert(fs, params[i]@, v) {
            Ok(next) => {
                lemma_bind_shape(next, params, vals, i + 1);
                if bind_params(next, params, vals, i + 1) is Ok {
                    lemma_shape_trans(fs, next, bind_params(next, params, vals, i + 1)->Ok_0);
                }
            },
            Err(_) => {},
        }
    }
}

/// The part of `law_expr_restores_frames` for a `Variable` node.
pub proof fn lemma_expr_variable(defs: Definitions, m: MachineView, e: Expression)
    requires
        m.frames.len() >= 1,
        e is Variable,
    ensures
        sem_expr(defs, m, e) matches Ok(r) ==> restored(m, r.0),
    decreases m.steps, expr_size(e), 0nat,
{
    match e {
        Expression::Variable { indices, pos, .. } => {
            lemma_indices_shape(defs, m, indices@, 0, Seq::empty(), pos@);
        },
        _ => {},
    }
}

/// The part of `law_expr_restores_frames` for a `Pin` node.
pub proof fn lemma_expr_pin(defs: Definitions, m: MachineView, e: Expression)
    requires
        m.frames.len() >= 1,
        e is Pin,
    ensures
        sem_expr(defs, m, e) matches Ok(r) ==> restored(m, r.0),
    decreases m.steps, expr_size(e), 0nat,
{
    match e {
        Expression::Pin { indices, pos, .. } => {
            lemma_indices_shape(defs, m, indices@, 0, Seq::empty(), pos@);
        },
        _ => {},
    }
}

/// The part of `law_expr_restores_frames` for a `Unary` node.
pub proof fn lemma_expr_unary(defs: Definitions, m: MachineView, e: Expression)
    requires
        m.frames.len() >= 1,
        e is Unary,
    ensures
        sem_expr(defs, m, e) matches Ok(r) ==> restored(m, r.0),
    decreases m.steps, expr_size(e), 0nat,
{
    match e {
        Expression::Unary { operand, .. } => {
            law_expr_restores_frames(defs, m, *operand);
        },
        _ => {},
    }
}

/// The part of `law_expr_restores_frames` for a `Binary` node.
pub proof fn lemma_expr_binary(defs: Definitions, m: MachineView, e: Expression)
    requires
        m.frames.len() >= 1,
        e is Binary,
    ensures
        sem_expr(defs, m, e) matches Ok(r) ==> restored(m, r.0),
    decreases m.steps, expr_size(e), 0nat,
{
    match e {
        Expression::Binary { op, lhs, rhs, .. } => {
            law_expr_restores_frames(defs, m, *lhs);
            match sem_expr(defs, m, *lhs) {
                Ok((m1, a)) => {
                    if short_circuit(op, a) is None {
                        law_expr_restores_frames(defs, clamp(m1, m.steps), *rhs);
                    }
                },
                Err(_) => {},
            }
        },
        _ => {},
    }
}

/// The part of `law_expr_restores_frames` for a `Call` node.
pub proof fn lemma_expr_call(defs: Definitions, m: MachineView, e: Expression)
    requires
        m.frames.len() >= 1,
        e is Call,
    ensures
        sem_expr(defs, m, e) matches Ok(r) ==> restored(m, r.0),
    decreases m.steps, expr_size(e), 0nat,
{
    match e {
        Expression::Call { name, args, pos } => {
            if defs.dom().contains(name@) {
                match defs[name@] {
                    ScopeValueView::Function(params, body, fpos) => {
                        if params@.len() == args@.len() {
                            lemma_args_shape(defs, m, args@, 0, Seq::empty());
                            match sem_args(defs, m, args@, 0, Seq::empty()) {
                                Ok((m1, vals)) => {
                                    law_call_restores_frames(
                                        defs,
                                        clamp(m1, m.steps),
                                        params@,
                                        *body,
                                        fpos@,
                                        vals,
                                        pos@,
                                    );
                                },
                                Err(_) => {},
                            }
                        }
                    },
                    _ => {},
                }
            }
        },
        _ => {},
    }
}

/// An expression leaves the machine with the frames that it found.
pub proof fn law_expr_restores_frames(defs: Definitions, m: MachineView, e: Expression)
    requires
        m.frames.len() >= 1,
    ensures
        sem_expr(defs, m, e) matches Ok(r) ==> restored(m, r.0),
    decreases m.steps, expr_size(e), 1nat,
{
    match e {
        Expression::Number { .. } => {},
        Expression::Variable { .. } => {
            lemma_expr_variable(defs, m, e);
        },
        Expression::Pin { .. } => {
            lemma_expr_pin(defs, m, e);
        },
        Expression::Unary { .. } => {
            lemma_expr_unary(defs, m, e);
        },
        Expression::Binary { .. } => {
            lemma_expr_binary(defs, m, e);
        },
        Expression::Call { .. } => {
            lemma_expr_call(defs, m, e);
        },
    }
}

/// Index expressions leave the machine with the frames that they found.
pub proof fn lemma_indices_shape(
    defs: Definitions,
    m: MachineView,
    es: Seq<Expression>,
    i: int,
    acc: Seq<u64>,
    pos: Seq<char>,
)
    requires
        m.frames.len() >= 1,
    ensures
        sem_indices(defs, m, es, i, acc, pos) matches Ok(r) ==> restored(m, r.0),
    decreases m.steps, exprs_size(es, i), 0nat,
{
    if !(i < 0 || i >= es.len()) {
        law_expr_restores_frames(defs, m, es[i]);
        match sem_expr(defs, m, es[i]) {
            Ok((m1, RetView::Algebra(crate::value::ValueView::FieldConst(c)))) => {
                if c@ <= u64::MAX {
                    lemma_indices_shape(defs, clamp(m1, m.steps), es, i + 1, acc.push(c@ as u64), pos);
                }
            },
            _ => {},
        }
    }
}

/// Argument expressions leave the machine with the frames that they found.
pub proof fn lemma_args_shape(defs: Definitions, m: MachineView, es: Seq<Expression>, i: int, acc: Seq<RetView>)
    requires
        m.frames.len() >= 1,
    ensures
        sem_args(defs, m, es, i, acc) matches Ok(r) ==> restored(m, r.0),
    decreases m.steps, exprs_size(es, i), 0nat,
{
    if !(i < 0 || i >= es.len()) {
        law_expr_restores_frames(defs, m, es[i]);
        match sem_expr(defs, m, es[i]) {
            Ok((m1, v)) => {
                lemma_args_shape(defs, clamp(m1, m.steps), es, i + 1, acc.push(v));
            },
            Err(_) => {},
        }
    }
}

/// A call leaves the caller's frames as it found them: the frame of the
/// callee is entered and left again.
#[verifier::rlimit(50)]
pub proof fn law_call_restores_frames(
    defs: Definitions,
    m: MachineView,
    params: Seq<String>,
    body: Statement,
    fpos: Seq<char>,
    vals: Seq<RetView>,
    pos: Seq<char>,
)
    requires
        m.frames.len() >= 1,
    ensures
        sem_call(defs, m, params, body, fpos, vals, pos) matches Ok(r) ==> restored(m, r.0),
    decreases m.steps, 0nat, 0nat,
{
    if m.steps > 0 {
        let entered = push_frame(m, true, fpos);
        lemma_bind_shape(entered.frames, params, vals, 0);
        match bind_params(entered.frames, params, vals, 0) {
            Ok(frames) => {
                let start = MachineView {
                    frames,
                    in_function: true,
                    steps: (m.steps - 1) as nat,
                    ..entered
                };
                law_stmt_restores_frames(defs, start, body);
                match sem_stmt(defs, start, body) {
                    Ok(end) => {
                        lemma_entered(m, true, fpos);
                        lemma_return_shape(end.frames, None);
                        lemma_shape_trans(entered.frames, frames, end.frames);
                        lemma_shape_trans(entered.frames, end.frames, frames_with_return(end.frames, None));
                        lemma_left(m.frames, entered.frames, frames_with_return(end.frames, None));
                    },
                    Err(_) => {},
                }
            },
            Err(_) => {},
        }
    }
}

/// Frames of the shape of those that were entered by one more frame than
/// `fs` are, without that frame, of the shape of `fs`.
pub proof fn lemma_left(fs: Seq<FrameView>, entered: Seq<FrameView>, end: Seq<FrameView>)
    requires
        entered.len() == fs.len() + 1,
        forall|i: int| 0 <= i < fs.len() ==> entered[i + 1] == #[trigger] fs[i],
        same_shape(entered, end),
    ensures
        end.len() == fs.len() + 1,
        same_shape(fs, end.drop_first()),
{
    let t = end.drop_first();
    assert forall|i: int| 0 <= i < fs.len() implies (#[trigger] fs[i]).is_boundary == t[i].is_boundary
        && fs[i].pos == t[i].pos by {
        assert(fs[i] == entered[i + 1]);
        assert(entered[i + 1].is_boundary == end[i + 1].is_boundary);
        assert(t[i] == end[i + 1]);
    }
}

/// A frame that was entered lies in front of the frames that were there.
pub proof fn lemma_entered(m: MachineView, boundary: bool, pos: Seq<char>)
    ensures
        push_frame(m, boundary, pos).frames.len() == m.frames.len() + 1,
        forall|i: int|
            0 <= i < m.frames.len() ==> push_frame(m, boundary, pos).frames[i + 1] == #[trigger] m.frames[i],
{
}

/// An instantiation leaves the frames as it found them.
pub proof fn law_instantiate_restores_frames(
    defs: Definitions,
    m: MachineView,
    ip: Seq<char>,
    params: Seq<String>,
    body: Statement,
    tpos: Seq<char>,
    vals: Seq<RetView>,
    pos: Seq<char>,
)
    requires
        m.frames.len() >= 1,
    ensures
        sem_instantiate(defs, m, ip, params, body, tpos, vals, pos) matches Ok(r) ==> restored(m, r),
    decreases m.steps, 0nat, 0nat,
{
    if m.steps > 0 {
        let entered = push_frame(m, true, tpos);
        lemma_bind_shape(entered.frames, params, vals, 0);
        match bind_params(entered.frames, params, vals, 0) {
            Ok(frames) => {
                let start = MachineView { frames, path: ip, steps: (m.steps - 1) as nat, ..entered };
                law_stmt_restores_frames(defs, start, body);
                match sem_stmt(defs, start, body) {
                    Ok(end) => {
                        lemma_entered(m, true, tpos);
                        lemma_shape_trans(entered.frames, frames, end.frames);
                        lemma_left(m.frames, entered.frames, end.frames);
                    },
                    Err(_) => {},
                }
            },
            Err(_) => {},
        }
    }
}

/// A statement in a frame of its own leaves the frames as it found them.
pub proof fn lemma_scoped_shape(defs: Definitions, m: MachineView, s: Statement, pos: Seq<char>)
    requires
        m.frames.len() >= 1,
    ensures
        sem_scoped(defs, m, s, pos) matches Ok(r) ==> restored(m, r),
    decreases m.steps, stmt_size(s), 2nat,
{
    let entered = push_frame(m, false, pos);
    law_stmt_restores_frames(defs, entered, s);
    match sem_stmt(defs, entered, s) {
        Ok(end) => {
            lemma_entered(m, false, pos);
            lemma_left(m.frames, entered.frames, end.frames);
        },
        Err(_) => {},
    }
}

/// The statements of a block leave the frames as they found them.
pub proof fn lemma_block_shape(defs: Definitions, m: MachineView, ss: Seq<Statement>, i: int)
    requires
        m.frames.len() >= 1,
    ensures
        sem_block(defs, m, ss, i) matches Ok(r) ==> restored(m, r),
    decreases m.steps, stmts_size(ss, i), 0nat,
{
    if !(i < 0 || i >= ss.len() || crate::scope::frames_pending_return(m.frames) is Some) {
        law_stmt_restores_frames(defs, m, ss[i]);
        match sem_stmt(defs, m, ss[i]) {
            Ok(m1) => {
                lemma_block_shape(defs, clamp(m1, m.steps), ss, i + 1);
            },
            Err(_) => {},
        }
    }
}

/// A loop leaves the frames as it found them.
pub proof fn lemma_loop_shape(
    defs: Definitions,
    m: MachineView,
    cond: Expression,
    body: Statement,
    step: Option<Statement>,
    pos: Seq<char>,
)
    requires
        m.frames.len() >= 1,
    ensures
        sem_loop(defs, m, cond, body, step, pos) matches Ok(r) ==> restored(m, r),
    decreases m.steps, expr_size(cond) + stmt_size(body) + (match step {
        Some(s) => stmt_size(s),
        None => 0,
    }), 0nat,
{
    if crate::scope::frames_pending_return(m.frames) is None {
        law_expr_restores_frames(defs, m, cond);
        match sem_expr(defs, m, cond) {
            Ok((m1, c)) => {
                if truth(c) == Some(true) {
                    let m1 = clamp(m1, m.steps);
                    if m1.steps > 0 {
                        let limit = (m1.steps - 1) as nat;
                        let inner = MachineView { steps: limit, ..m1 };
                        lemma_scoped_shape(defs, inner, body, pos);
                        match sem_scoped(defs, inner, body, pos) {
                            Ok(m2) => {
                                let m2 = clamp(m2, limit);
                                match step {
                                    Some(s) => {
                                        if crate::scope::frames_pending_return(m2.frames) is None {
                                            law_stmt_restores_frames(defs, m2, s);
                                            match sem_stmt(defs, m2, s) {
                                                Ok(m3) => {
                                                    lemma_loop_shape(
                                                        defs,
                                                        clamp(m3, limit),
                                                        cond,
                                                        body,
                                                        step,
                                                        pos,
                                                    );
                                                },
                                                Err(_) => {},
                                            }
                                        }
                                    },
                                    None => {
                                        lemma_loop_shape(defs, m2, cond, body, step, pos);
                                    },
                                }
                            },
                            Err(_) => {},
                        }
                    }
                }
            },
            Err(_) => {},
        }
    }
}

/// The part of `law_stmt_restores_frames` for a `Declaration` node.
pub proof fn lemma_stmt_declaration(defs: Definitions, m: MachineView, s: Statement)
    requires
        m.frames.len() >= 1,
        s is Declaration,
    ensures
        sem_stmt(defs, m, s) matches Ok(r) ==> restored(m, r),
    decreases m.steps, stmt_size(s), 0nat,
{
    match s {
        Statement::Declaration { init, .. } => {
            match init {
                Some(e) => {
                    law_expr_restores_frames(defs, m, e);
                },
                None => {},
            }
        },
        _ => {},
    }
}

/// The part of `law_stmt_restores_frames` for a `Assignment` node.
pub proof fn lemma_stmt_assignment(defs: Definitions, m: MachineView, s: Statement)
    requires
        m.frames.len() >= 1,
        s is Assignment,
    ensures
        sem_stmt(defs, m, s) matches Ok(r) ==> restored(m, r),
    decreases m.steps, stmt_size(s), 0nat,
{
    match s {
        Statement::Assignment { name, value, .. } => {
            law_expr_restores_frames(defs, m, value);
            match sem_expr(defs, m, value) {
                Ok((m1, v)) => {
                    lemma_update_shape(m1.frames, name@, crate::scope::scope_view_of_return(v));
                },
                Err(_) => {},
            }
        },
        _ => {},
    }
}

/// The part of `law_stmt_restores_frames` for a `SignalDeclaration` node.
pub proof fn lemma_stmt_signal_declaration(defs: Definitions, m: MachineView, s: Statement)
    requires
        m.frames.len() >= 1,
        s is SignalDeclaration,
    ensures
        sem_stmt(defs, m, s) matches Ok(r) ==> restored(m, r),
    decreases m.steps, stmt_size(s), 0nat,
{
    match s {
        Statement::SignalDeclaration { indices, pos, .. } => {
            lemma_indices_shape(defs, m, indices@, 0, Seq::empty(), pos@);
        },
        _ => {},
    }
}

/// The part of `law_stmt_restores_frames` for a `ComponentDeclaration` node.
pub proof fn lemma_stmt_component_declaration(defs: Definitions, m: MachineView, s: Statement)
    requires
        m.frames.len() >= 1,
        s is ComponentDeclaration,
    ensures
        sem_stmt(defs, m, s) matches Ok(r) ==> restored(m, r),
    decreases m.steps, stmt_size(s), 0nat,
{
    match s {
        Statement::ComponentDeclaration { name, template, args, pos } => {
            if !m.in_function && defs.dom().contains(template@) {
                match defs[template@] {
                    ScopeValueView::Template(_, params, body, tpos) => {
                        if params@.len() == args@.len() {
                            lemma_args_shape(defs, m, args@, 0, Seq::empty());
                            match sem_args(defs, m, args@, 0, Seq::empty()) {
                                Ok((m1, vals)) => {
                                    law_instantiate_restores_frames(
                                        defs,
                                        clamp(m1, m.steps),
                                        crate::machine::child_path(m1.path, name@),
                                        params@,
                                        *body,
                                        tpos@,
                                        vals,
                                        pos@,
                                    );
                                },
                                Err(_) => {},
                            }
                        }
                    },
                    _ => {},
                }
            }
        },
        _ => {},
    }
}

/// The part of `law_stmt_restores_frames` for a `Constraint` node.
pub proof fn lemma_stmt_constraint(defs: Definitions, m: MachineView, s: Statement)
    requires
        m.frames.len() >= 1,
        s is Constraint,
    ensures
        sem_stmt(defs, m, s) matches Ok(r) ==> restored(m, r),
    decreases m.steps, stmt_size(s), 0nat,
{
    match s {
        Statement::Constraint { lhs, rhs, .. } => {
            law_expr_restores_frames(defs, m, lhs);
            match sem_expr(defs, m, lhs) {
                Ok((m1, _)) => {
                    law_expr_restores_frames(defs, clamp(m1, m.steps), rhs);
                },
                Err(_) => {},
            }
        },
        _ => {},
    }
}

/// The part of `law_stmt_restores_frames` for a `ConstrainAssign` node.
pub proof fn lemma_stmt_constrain_assign(defs: Definitions, m: MachineView, s: Statement)
    requires
        m.frames.len() >= 1,
        s is ConstrainAssign,
    ensures
        sem_stmt(defs, m, s) matches Ok(r) ==> restored(m, r),
    decreases m.steps, stmt_size(s), 0nat,
{
    match s {
        Statement::ConstrainAssign { target, value, pos } => {
            law_expr_restores_frames(defs, m, value);
            match sem_expr(defs, m, value) {
                Ok((m1, _)) => {
                    lemma_indices_shape(
                        defs,
                        clamp(m1, m.steps),
                        target_indices(target),
                        0,
                        Seq::empty(),
                        pos@,
                    );
                },
                Err(_) => {},
            }
        },
        _ => {},
    }
}

/// The part of `law_stmt_restores_frames` for a `Block` node.
pub proof fn lemma_stmt_block(defs: Definitions, m: MachineView, s: Statement)
    requires
        m.frames.len() >= 1,
        s is Block,
    ensures
        sem_stmt(defs, m, s) matches Ok(r) ==> restored(m, r),
    decreases m.steps, stmt_size(s), 0nat,
{
    match s {
        Statement::Block { body, pos } => {
            let entered = push_frame(m, false, pos@);
            lemma_block_shape(defs, entered, body@, 0);
            match sem_block(defs, entered, body@, 0) {
                Ok(end) => {
                    lemma_entered(m, false, pos@);
                    lemma_left(m.frames, entered.frames, end.frames);
                },
                Err(_) => {},
            }
        },
        _ => {},
    }
}

/// The part of `law_stmt_restores_frames` for a `If` node.
pub proof fn lemma_stmt_if(defs: Definitions, m: MachineView, s: Statement)
    requires
        m.frames.len() >= 1,
        s is If,
    ensures
        sem_stmt(defs, m, s) matches Ok(r) ==> restored(m, r),
    decreases m.steps, stmt_size(s), 0nat,
{
    match s {
        Statement::If { cond, then_branch, else_branch, pos } => {
            law_expr_restores_frames(defs, m, cond);
            match sem_expr(defs, m, cond) {
                Ok((m1, c)) => {
                    match truth(c) {
                        Some(true) => {
                            lemma_scoped_shape(defs, clamp(m1, m.steps), *then_branch, pos@);
                        },
                        Some(false) => {
                            match else_branch {
                                Some(b) => {
                                    lemma_scoped_shape(defs, clamp(m1, m.steps), *b, pos@);
                                },
                                None => {},
                            }
                        },
                        None => {},
                    }
                },
                Err(_) => {},
            }
        },
        _ => {},
    }
}

/// The part of `law_stmt_restores_frames` for a `While` node.
pub proof fn lemma_stmt_while(defs: Definitions, m: MachineView, s: Statement)
    requires
        m.frames.len() >= 1,
        s is While,
    ensures
        sem_stmt(defs, m, s) matches Ok(r) ==> restored(m, r),
    decreases m.steps, stmt_size(s), 0nat,
{
    match s {
        Statement::While { cond, body, pos } => {
            lemma_loop_shape(defs, m, cond, *body, None, pos@);
        },
        _ => {},
    }
}

/// The part of `law_stmt_restores_frames` for a `For` node.
pub proof fn lemma_stmt_for(defs: Definitions, m: MachineView, s: Statement)
    requires
        m.frames.len() >= 1,
        s is For,
    ensures
        sem_stmt(defs, m, s) matches Ok(r) ==> restored(m, r),
    decreases m.steps, stmt_size(s), 0nat,
{
    match s {
        Statement::For { init, cond, step, body, pos } => {
            let entered = push_frame(m, false, pos@);
            law_stmt_restores_frames(defs, entered, *init);
            match sem_stmt(defs, entered, *init) {
                Ok(m1) => {
                    lemma_loop_shape(defs, clamp(m1, m.steps), cond, *body, Some(*step), pos@);
                    match sem_loop(defs, clamp(m1, m.steps), cond, *body, Some(*step), pos@) {
                        Ok(end) => {
                            lemma_entered(m, false, pos@);
                            lemma_shape_trans(entered.frames, m1.frames, end.frames);
                            lemma_left(m.frames, entered.frames, end.frames);
                        },
                        Err(_) => {},
                    }
                },
                Err(_) => {},
            }
        },
        _ => {},
    }
}

/// The part of `law_stmt_restores_frames` for a `Return` node.
pub proof fn lemma_stmt_return(defs: Definitions, m: MachineView, s: Statement)
    requires
        m.frames.len() >= 1,
        s is Return,
    ensures
        sem_stmt(defs, m, s) matches Ok(r) ==> restored(m, r),
    decreases m.steps, stmt_size(s), 0nat,
{
    match s {
        Statement::Return { value, .. } => {
            law_expr_restores_frames(defs, m, value);
            match sem_expr(defs, m, value) {
                Ok((m1, v)) => {
                    lemma_return_shape(m1.frames, Some(v));
                },
                Err(_) => {},
            }
        },
        _ => {},
    }
}

/// A statement leaves the machine with the frames that it found: the same
/// number of frames, each a boundary or not as before and from the same
/// position; with the same component path and function flag; and with no
/// more steps left than it had. Frames that it entered it has left again.
pub proof fn law_stmt_restores_frames(defs: Definitions, m: MachineView, s: Statement)
    requires
        m.frames.len() >= 1,
    ensures
        sem_stmt(defs, m, s) matches Ok(r) ==> restored(m, r),
    decreases m.steps, stmt_size(s), 1nat,
{
    match s {
        Statement::Declaration { .. } => {
            lemma_stmt_declaration(defs, m, s);
        },
        Statement::Assignment { .. } => {
            lemma_stmt_assignment(defs, m, s);
        },
        Statement::SignalDeclaration { .. } => {
            lemma_stmt_signal_declaration(defs, m, s);
        },
        Statement::ComponentDeclaration { .. } => {
            lemma_stmt_component_declaration(defs, m, s);
        },
        Statement::Constraint { .. } => {
            lemma_stmt_constraint(defs, m, s);
        },
        Statement::ConstrainAssign { .. } => {
            lemma_stmt_constrain_assign(defs, m, s);
        },
        Statement::Block { .. } => {
            lemma_stmt_block(defs, m, s);
        },
        Statement::If { .. } => {
            lemma_stmt_if(defs, m, s);
        },
        Statement::While { .. } => {
            lemma_stmt_while(defs, m, s);
        },
        Statement::For { .. } => {
            lemma_stmt_for(defs, m, s);
        },
        Statement::Return { .. } => {
            lemma_stmt_return(defs, m, s);
        },
        Statement::FunctionDefinition { .. } => {},
        Statement::TemplateDefinition { .. } => {},
    }
}

} // verus!
