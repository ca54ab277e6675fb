//! Evaluation of a whole program.

use vstd::prelude::*;
use crate::ast::Statement;
use crate::error::Error;
use crate::error::ErrorView;
use crate::evaluator::all_constant;
use crate::evaluator::defs_view;
use crate::evaluator::instantiate;
use crate::evaluator::ret_is_wf;
use crate::evaluator::rets_view;
use crate::field::Field;
use crate::machine::Machine;
use crate::namemap::NameMap;
use crate::retval::ReturnValue;
use crate::scope::Scope;
use crate::scope::ScopeValue;
use crate::semantics::initial_machine;
use crate::semantics::is_constant_argument;
use crate::semantics::main_path;
use crate::semantics::ret_wf;
use crate::semantics::seed;
use crate::semantics::sem_run;
use crate::semantics::stmt_pos;
use crate::semantics::valid_argument;
use crate::semantics::Definitions;
use crate::store::Optimizer;
use crate::store::Store;
use crate::store::StoreView;

verus! {

/// The source position of a statement.
pub fn position_of(s: &Statement) -> (r: &String)
    ensures
        r@ == stmt_pos(*s),
{
    match s {
        Statement::Declaration { pos, .. } => pos,
        Statement::Assignment { pos, .. } => pos,
        Statement::SignalDeclaration { pos, .. } => pos,
        Statement::ComponentDeclaration { pos, .. } => pos,
        Statement::Constraint { pos, .. } => pos,
        Statement::ConstrainAssign { pos, .. } => pos,
        Statement::Block { pos, .. } => pos,
        Statement::If { pos, .. } => pos,
        Statement::While { pos, .. } => pos,
        Statement::For { pos, .. } => pos,
        Statement::Return { pos, .. } => pos,
        Statement::FunctionDefinition { pos, .. } => pos,
        Statement::TemplateDefinition { pos, .. } => pos,
    }
}

/// The global frame that holds the functions and templates which the
/// top-level statements of `program` define.
pub fn seed_definitions(program: Vec<Statement>) -> (r: Result<Scope, Error>)
    ensures
        match r {
            Ok(defs) => seed(Map::empty(), program@, 0) == Ok::<Definitions, ErrorView>(defs_view(&defs)),
            Err(e) => seed(Map::empty(), program@, 0) == Err::<Definitions, ErrorView>(e@),
        },
{
    let mut defs = Scope::new(true, None, String::new());
    let mut rest = program;
    let ghost orig = program@;
    let ghost mut k: int = 0;
    proof {
        assert(rest@ =~= orig.subrange(0, orig.len() as int));
    }
    while rest.len() > 0
        invariant
            0 <= k <= orig.len(),
            orig == program@,
            rest@ == orig.subrange(k, orig.len() as int),
            defs@.len() >= 1,
            seed(Map::empty(), orig, 0) == seed(defs_view(&defs), orig, k),
        decreases rest.len(),
    {
        let s = rest.remove(0);
        proof {
            assert(s == orig[k]);
            assert(rest@ =~= orig.subrange(k + 1, orig.len() as int));
        }
        match s {
            Statement::FunctionDefinition { name, params, body, pos } => {
                match defs.insert(name, ScopeValue::Function(params, body, pos)) {
                    Ok(_) => {},
                    Err(e) => {
                        return Err(e);
                    },
                }
            },
            Statement::TemplateDefinition { attributes, name, params, body, pos } => {
                match defs.insert(name, ScopeValue::Template(attributes, params, body, pos)) {
                    Ok(_) => {},
                    Err(e) => {
                        return Err(e);
                    },
                }
            },
            other => {
                return Err(Error::BadAst(position_of(&other).clone()));
            },
        }
        proof {
            k = k + 1;
        }
    }
    Ok(defs)
}

/// Whether every argument is a canonical field constant or an array of
/// field constants.
pub fn all_valid(args: &Vec<ReturnValue>, field: &Field) -> (r: bool)
    ensures
        r == !(exists|i: int|
            0 <= i < args@.len() && !valid_argument(#[trigger] rets_view(args@)[i], field.p())),
{
    if !all_constant(args) {
        return false;
    }
    let mut i: usize = 0;
    while i < args.len()
        invariant
            i <= args.len(),
            forall|j: int| 0 <= j < args@.len() ==> is_constant_argument(#[trigger] rets_view(args@)[j]),
            forall|j: int| 0 <= j < i ==> ret_wf(#[trigger] rets_view(args@)[j], field.p()),
        decreases args.len() - i,
    {
        if !ret_is_wf(&args[i], field) {
            proof {
                assert(!valid_argument(rets_view(args@)[i as int], field.p()));
            }
            return false;
        }
        i += 1;
    }
    true
}

/// Evaluates `program`: instantiates the template named `template` once, as
/// the component `main`, with the arguments `args`, and returns the store
/// that this fills.
///
/// At most `step_limit` calls, instantiations and loop iterations are begun.
pub fn evaluate(
    program: Vec<Statement>,
    template: &str,
    args: Vec<ReturnValue>,
    field: Field,
    optimizer: Optimizer,
    step_limit: u64,
) -> (r: Result<Store, Error>)
    ensures
        match r {
            Ok(store) => store.wf() && sem_run(
                program@,
                template@,
                rets_view(args@),
                field.p(),
                optimizer,
                step_limit as nat,
            ) == Ok::<StoreView, ErrorView>(store@),
            Err(e) => sem_run(program@, template@, rets_view(args@), field.p(), optimizer, step_limit as nat)
                == Err::<StoreView, ErrorView>(e@),
        },
{
    let defs = match seed_definitions(program) {
        Ok(defs) => defs,
        Err(e) => {
            return Err(e);
        },
    };
    proof {
        defs.lemma_frames();
    }
    let name = template.to_owned();
    match defs.vars.get(&name) {
        Some(ScopeValue::Template(_, params, body, tpos)) => {
            if params.len() != args.len() {
                return Err(Error::ArityMismatch(name));
            }
            if !all_valid(&args, &field) {
                return Err(Error::ExpectedFieldConstant(name));
            }
            let mut store = Store::new(field, optimizer);
            store.set_top_component(template.to_owned());
            let mut m = Machine {
                store,
                scope: Scope::new(true, None, String::new()),
                path: String::new(),
                in_function: false,
                components: NameMap::new(),
                steps: step_limit,
            };
            proof {
                reveal_strlit("main");
                assert("main"@ =~= main_path());
                assert(m@.components =~= Map::<Seq<char>, Seq<u64>>::empty());
                assert(m@.frames =~= initial_machine(field.p(), optimizer, template@, step_limit as nat).frames);
                assert(m@ == initial_machine(field.p(), optimizer, template@, step_limit as nat));
            }
            match instantiate(&defs, &mut m, "main".to_owned(), params, &**body, tpos, &args, &name) {
                Ok(_) => Ok(m.store),
                Err(e) => Err(e),
            }
        },
        _ => Err(Error::NotFound(name)),
    }
}

} // verus!
