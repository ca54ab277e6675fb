use circom2_compiler::ast::Attributes;
use circom2_compiler::ast::BinaryOp;
use circom2_compiler::ast::Expression;
use circom2_compiler::ast::SignalKind;
use circom2_compiler::ast::Statement;
use circom2_compiler::ast::UnaryOp;
use circom2_compiler::bigint::U256;
use circom2_compiler::error::Error;
use circom2_compiler::evaluator::eval_expr;
use circom2_compiler::evaluator::exec_stmt;
use circom2_compiler::field::Field;
use circom2_compiler::lc::Term;
use circom2_compiler::machine::Machine;
use circom2_compiler::namemap::NameMap;
use circom2_compiler::retval::ReturnValue;
use circom2_compiler::run::evaluate;
use circom2_compiler::run::seed_definitions;
use circom2_compiler::scope::Scope;
use circom2_compiler::scope::ScopeValue;
use circom2_compiler::store::Optimizer;
use circom2_compiler::store::Store;
use circom2_compiler::value::Value;

fn s(text: &str) -> String {
    text.to_string()
}

fn num(text: &str) -> Expression {
    Expression::Number { text: s(text), pos: s("lit") }
}

fn var(name: &str) -> Expression {
    Expression::Variable { name: s(name), indices: vec![], pos: s(name) }
}

fn elem(name: &str, index: Expression) -> Expression {
    Expression::Variable { name: s(name), indices: vec![index], pos: s(name) }
}

fn pin(component: &str, signal: &str) -> Expression {
    Expression::Pin { component: s(component), signal: s(signal), indices: vec![], pos: s("pin") }
}

fn bin(op: BinaryOp, lhs: Expression, rhs: Expression, pos: &str) -> Expression {
    Expression::Binary { op, lhs: Box::new(lhs), rhs: Box::new(rhs), pos: s(pos) }
}

fn call(name: &str, args: Vec<Expression>) -> Expression {
    Expression::Call { name: s(name), args, pos: s("call") }
}

fn signal(kind: SignalKind, name: &str) -> Statement {
    Statement::SignalDeclaration { kind, name: s(name), indices: vec![], pos: s("signal") }
}

fn block(body: Vec<Statement>) -> Statement {
    Statement::Block { body, pos: s("block") }
}

fn declare(name: &str, init: Option<Expression>) -> Statement {
    Statement::Declaration { name: s(name), init, pos: s("var") }
}

fn assign(name: &str, value: Expression) -> Statement {
    Statement::Assignment { name: s(name), value, pos: s("assign") }
}

fn ret(value: Expression) -> Statement {
    Statement::Return { value, pos: s("return") }
}

fn template(name: &str, params: Vec<&str>, body: Vec<Statement>) -> Statement {
    Statement::TemplateDefinition {
        attributes: Attributes { tags: vec![] },
        name: s(name),
        params: params.into_iter().map(s).collect(),
        body: Box::new(block(body)),
        pos: s(name),
    }
}

fn function(name: &str, params: Vec<&str>, body: Vec<Statement>) -> Statement {
    Statement::FunctionDefinition {
        name: s(name),
        params: params.into_iter().map(s).collect(),
        body: Box::new(block(body)),
        pos: s(name),
    }
}

fn constant(field: &Field, x: u64) -> U256 {
    field.from_u64(x)
}

fn machine(steps: u64) -> Machine {
    Machine {
        store: Store::new(Field::bn254(), Optimizer::Identity),
        scope: Scope::new(true, None, s("top")),
        path: s("main"),
        in_function: false,
        components: NameMap::new(),
        steps,
    }
}

fn run(program: Vec<Statement>, name: &str) -> Result<Store, Error> {
    evaluate(program, name, vec![], Field::bn254(), Optimizer::Identity, 10_000)
}

fn one_term(signal: u64, coeff: U256) -> Vec<Term> {
    vec![Term { signal, coeff }]
}

#[test]
fn multiplier_gives_three_signals_and_one_product_constraint() {
    let program = vec![template(
        "Multiplier",
        vec![],
        vec![
            signal(SignalKind::Input, "a"),
            signal(SignalKind::Input, "b"),
            signal(SignalKind::Output, "c"),
            Statement::ConstrainAssign {
                target: var("c"),
                value: bin(BinaryOp::Mul, var("a"), var("b"), "mul"),
                pos: s("wire"),
            },
        ],
    )];
    let store = run(program, "Multiplier").unwrap();
    let field = Field::bn254();
    let names: Vec<(u64, &str, SignalKind)> =
        store.signals().iter().map(|r| (r.id, r.full_name.as_str(), r.kind)).collect();
    assert_eq!(
        names,
        vec![
            (0, "main.a", SignalKind::Input),
            (1, "main.b", SignalKind::Input),
            (2, "main.c", SignalKind::Output)
        ]
    );
    assert_eq!(store.signals()[2].component_path, "main");
    assert_eq!(store.constraints().len(), 1);
    let form = &store.constraints()[0].form;
    assert_eq!(form.a.terms, one_term(0, U256::one()));
    assert_eq!(form.a.constant, U256::zero());
    assert_eq!(form.b.terms, one_term(1, U256::one()));
    assert_eq!(form.b.constant, U256::zero());
    assert_eq!(form.c.terms, one_term(2, field.neg(&U256::one())));
    assert_eq!(form.c.constant, U256::zero());
    assert_eq!(store.constraints()[0].pos, "wire");
    assert_eq!(store.top_component().as_deref(), Some("Multiplier"));
    assert_eq!(store.next_signal_id(), 3);
}

#[test]
fn function_call_binds_the_returned_constant() {
    let program = vec![function(
        "f",
        vec!["n"],
        vec![ret(bin(
            BinaryOp::Add,
            bin(BinaryOp::Mul, var("n"), var("n"), "mul"),
            num("1"),
            "add",
        ))],
    )];
    let defs = seed_definitions(program).unwrap();
    let mut m = machine(100);
    exec_stmt(&defs, &mut m, &declare("x", Some(call("f", vec![num("3")])))).unwrap();
    let field = Field::bn254();
    let ten = constant(&field, 10);
    assert!(matches!(m.scope.lookup("x"), Some(ScopeValue::Algebra(Value::FieldConst(c))) if *c == ten));
    assert_eq!(m.store.signals().len(), 0);
    assert_eq!(m.store.constraints().len(), 0);
    assert!(!m.in_function);
    assert_eq!(m.steps, 99);
}

#[test]
fn loop_declares_one_signal_and_one_constraint_per_round() {
    let body = block(vec![
        Statement::SignalDeclaration {
            kind: SignalKind::Internal,
            name: s("s"),
            indices: vec![var("i")],
            pos: s("signal"),
        },
        Statement::Constraint { lhs: elem("s", var("i")), rhs: var("i"), pos: s("eq") },
    ]);
    let program = vec![template(
        "Rows",
        vec![],
        vec![Statement::For {
            init: Box::new(declare("i", Some(num("0")))),
            cond: bin(BinaryOp::Lt, var("i"), num("3"), "lt"),
            step: Box::new(assign("i", bin(BinaryOp::Add, var("i"), num("1"), "inc"))),
            body: Box::new(body),
            pos: s("for"),
        }],
    )];
    let store = run(program, "Rows").unwrap();
    let field = Field::bn254();
    let names: Vec<&str> = store.signals().iter().map(|r| r.full_name.as_str()).collect();
    assert_eq!(names, vec!["main.s_0", "main.s_1", "main.s_2"]);
    assert_eq!(store.constraints().len(), 3);
    for k in 0..3u64 {
        let form = &store.constraints()[k as usize].form;
        assert!(form.a.terms.is_empty() && form.a.constant == U256::zero());
        assert!(form.b.terms.is_empty() && form.b.constant == U256::zero());
        assert_eq!(form.c.terms, one_term(k, U256::one()));
        assert_eq!(form.c.constant, field.neg(&constant(&field, k)));
    }
}

#[test]
fn product_of_three_signals_is_not_quadratic() {
    let program = vec![template(
        "Cubic",
        vec![],
        vec![
            signal(SignalKind::Internal, "a"),
            signal(SignalKind::Internal, "b"),
            signal(SignalKind::Internal, "c"),
            Statement::Constraint {
                lhs: bin(BinaryOp::Mul, bin(BinaryOp::Mul, var("a"), var("b"), "inner"), var("c"), "outer"),
                rhs: num("0"),
                pos: s("eq"),
            },
        ],
    )];
    let r = run(program, "Cubic");
    assert!(matches!(r, Err(Error::NonQuadratic(ref p)) if p == "outer"));
}

fn sub_template() -> Statement {
    template(
        "Sub",
        vec![],
        vec![
            signal(SignalKind::Input, "in"),
            signal(SignalKind::Output, "out"),
            Statement::ConstrainAssign { target: var("out"), value: var("in"), pos: s("copy") },
        ],
    )
}

fn component(name: &str, template: &str) -> Statement {
    Statement::ComponentDeclaration { name: s(name), template: s(template), args: vec![], pos: s("component") }
}

#[test]
fn output_of_a_component_without_its_inputs_cannot_be_read() {
    let program = vec![
        sub_template(),
        template(
            "Main",
            vec![],
            vec![
                component("sub", "Sub"),
                signal(SignalKind::Internal, "x"),
                Statement::ConstrainAssign { target: var("x"), value: pin("sub", "out"), pos: s("read") },
            ],
        ),
    ];
    let r = run(program, "Main");
    assert!(matches!(r, Err(Error::PrematureOutputRead(ref p)) if p == "pin"));
}

#[test]
fn output_of_a_component_can_be_read_once_its_inputs_are_written() {
    let program = vec![
        sub_template(),
        template(
            "Main",
            vec![],
            vec![
                signal(SignalKind::Input, "y"),
                component("sub", "Sub"),
                Statement::ConstrainAssign { target: pin("sub", "in"), value: var("y"), pos: s("feed") },
                signal(SignalKind::Output, "x"),
                Statement::ConstrainAssign { target: var("x"), value: pin("sub", "out"), pos: s("read") },
            ],
        ),
    ];
    let store = run(program, "Main").unwrap();
    let names: Vec<&str> = store.signals().iter().map(|r| r.full_name.as_str()).collect();
    assert_eq!(names, vec!["main.y", "main.sub.in", "main.sub.out", "main.x"]);
    assert_eq!(store.signals()[1].component_path, "main.sub");
    assert_eq!(store.constraints().len(), 3);
    let positions: Vec<&str> = store.constraints().iter().map(|c| c.pos.as_str()).collect();
    assert_eq!(positions, vec!["copy", "feed", "read"]);
}

#[test]
fn input_of_a_component_cannot_be_written_twice() {
    let program = vec![
        sub_template(),
        template(
            "Main",
            vec![],
            vec![
                signal(SignalKind::Input, "y"),
                component("sub", "Sub"),
                Statement::ConstrainAssign { target: pin("sub", "in"), value: var("y"), pos: s("first") },
                Statement::ConstrainAssign { target: pin("sub", "in"), value: var("y"), pos: s("second") },
            ],
        ),
    ];
    let r = run(program, "Main");
    assert!(matches!(r, Err(Error::AlreadyDefined(ref p)) if p == "second"));
}

#[test]
fn second_declaration_of_a_signal_is_a_duplicate() {
    let program = vec![template(
        "Twice",
        vec![],
        vec![signal(SignalKind::Internal, "x"), signal(SignalKind::Internal, "x")],
    )];
    let r = run(program, "Twice");
    assert!(matches!(r, Err(Error::DuplicateSignal(ref n)) if n == "main.x"));
}

#[test]
fn two_runs_give_the_same_store() {
    let make = || {
        vec![template(
            "Multiplier",
            vec![],
            vec![
                signal(SignalKind::Input, "a"),
                signal(SignalKind::Input, "b"),
                signal(SignalKind::Output, "c"),
                Statement::ConstrainAssign {
                    target: var("c"),
                    value: bin(BinaryOp::Mul, var("a"), var("b"), "mul"),
                    pos: s("wire"),
                },
            ],
        )]
    };
    let first = run(make(), "Multiplier").unwrap();
    let second = run(make(), "Multiplier").unwrap();
    assert_eq!(format!("{:?}", first.signals()), format!("{:?}", second.signals()));
    assert_eq!(format!("{:?}", first.constraints()), format!("{:?}", second.constraints()));
}

#[test]
fn return_inside_nested_blocks_skips_the_rest_of_the_body() {
    let program = vec![function(
        "early",
        vec!["n"],
        vec![
            declare("seen", Some(num("0"))),
            Statement::If {
                cond: bin(BinaryOp::Eq, var("n"), num("1"), "eq"),
                then_branch: Box::new(block(vec![block(vec![ret(num("7")), assign("seen", num("1"))])])),
                else_branch: None,
                pos: s("if"),
            },
            ret(num("9")),
        ],
    )];
    let defs = seed_definitions(program).unwrap();
    let field = Field::bn254();
    let mut m = machine(100);
    let r = eval_expr(&defs, &mut m, &call("early", vec![num("1")])).unwrap();
    assert!(matches!(r, ReturnValue::Algebra(Value::FieldConst(c)) if c == constant(&field, 7)));
    let r = eval_expr(&defs, &mut m, &call("early", vec![num("2")])).unwrap();
    assert!(matches!(r, ReturnValue::Algebra(Value::FieldConst(c)) if c == constant(&field, 9)));
}

#[test]
fn while_loop_runs_until_its_condition_is_false() {
    let defs = seed_definitions(vec![]).unwrap();
    let field = Field::bn254();
    let mut m = machine(100);
    exec_stmt(&defs, &mut m, &declare("i", Some(num("0")))).unwrap();
    exec_stmt(&defs, &mut m, &declare("sum", Some(num("0")))).unwrap();
    let w = Statement::While {
        cond: bin(BinaryOp::Lt, var("i"), num("5"), "lt"),
        body: Box::new(block(vec![
            assign("sum", bin(BinaryOp::Add, var("sum"), var("i"), "add")),
            assign("i", bin(BinaryOp::Add, var("i"), num("1"), "inc")),
        ])),
        pos: s("while"),
    };
    exec_stmt(&defs, &mut m, &w).unwrap();
    assert!(matches!(m.scope.lookup("sum"), Some(ScopeValue::Algebra(Value::FieldConst(c))) if *c == constant(&field, 10)));
    assert_eq!(m.steps, 95);
}

#[test]
fn loop_that_outlasts_the_step_limit_is_stopped() {
    let defs = seed_definitions(vec![]).unwrap();
    let mut m = machine(3);
    let w = Statement::While { cond: num("1"), body: Box::new(block(vec![])), pos: s("while") };
    let r = exec_stmt(&defs, &mut m, &w);
    assert!(matches!(r, Err(Error::StepLimitExceeded(ref p)) if p == "while"));
}

#[test]
fn loop_condition_must_be_a_known_truth_value() {
    let defs = seed_definitions(vec![]).unwrap();
    let mut m = machine(10);
    exec_stmt(&defs, &mut m, &signal(SignalKind::Internal, "x")).unwrap();
    let w = Statement::While { cond: var("x"), body: Box::new(block(vec![])), pos: s("while") };
    let r = exec_stmt(&defs, &mut m, &w);
    assert!(matches!(r, Err(Error::NonConstantLoopCondition(ref p)) if p == "while"));
    let i = Statement::If { cond: var("x"), then_branch: Box::new(block(vec![])), else_branch: None, pos: s("if") };
    let r = exec_stmt(&defs, &mut m, &i);
    assert!(matches!(r, Err(Error::ExpectedBool(ref p)) if p == "if"));
}

#[test]
fn if_takes_the_branch_of_its_condition() {
    let defs = seed_definitions(vec![]).unwrap();
    let field = Field::bn254();
    let mut m = machine(10);
    exec_stmt(&defs, &mut m, &declare("x", None)).unwrap();
    let i = Statement::If {
        cond: num("0"),
        then_branch: Box::new(assign("x", num("1"))),
        else_branch: Some(Box::new(assign("x", num("2")))),
        pos: s("if"),
    };
    exec_stmt(&defs, &mut m, &i).unwrap();
    assert!(matches!(m.scope.lookup("x"), Some(ScopeValue::Algebra(Value::FieldConst(c))) if *c == constant(&field, 2)));
}

#[test]
fn variables_must_be_declared_and_assigned_before_use() {
    let defs = seed_definitions(vec![]).unwrap();
    let mut m = machine(10);
    exec_stmt(&defs, &mut m, &declare("x", None)).unwrap();
    let r = eval_expr(&defs, &mut m, &var("x"));
    assert!(matches!(r, Err(Error::UseOfUndefined(ref p)) if p == "x"));
    let r = eval_expr(&defs, &mut m, &var("y"));
    assert!(matches!(r, Err(Error::NotFound(ref p)) if p == "y"));
    let r = exec_stmt(&defs, &mut m, &assign("y", num("1")));
    assert!(matches!(r, Err(Error::NotFound(ref n)) if n == "y"));
    let r = exec_stmt(&defs, &mut m, &declare("x", None));
    assert!(matches!(r, Err(Error::AlreadyDefined(ref n)) if n == "x"));
}

#[test]
fn assignment_keeps_the_kind_of_the_variable() {
    let defs = seed_definitions(vec![]).unwrap();
    let mut m = machine(10);
    exec_stmt(&defs, &mut m, &declare("flag", Some(bin(BinaryOp::Eq, num("1"), num("1"), "eq")))).unwrap();
    assert!(matches!(m.scope.lookup("flag"), Some(ScopeValue::Bool(true))));
    let r = exec_stmt(&defs, &mut m, &assign("flag", num("1")));
    assert!(matches!(r, Err(Error::ExpectedBool(ref p)) if p == "assign"));
    exec_stmt(&defs, &mut m, &declare("n", Some(num("1")))).unwrap();
    let r = exec_stmt(&defs, &mut m, &assign("n", bin(BinaryOp::Eq, num("1"), num("1"), "eq")));
    assert!(matches!(r, Err(Error::ExpectedFieldConstant(ref p)) if p == "assign"));
}

#[test]
fn arrays_are_indexed_by_constants_within_their_length() {
    let defs = seed_definitions(vec![]).unwrap();
    let field = Field::bn254();
    let mut m = machine(10);
    let values = vec![Value::FieldConst(constant(&field, 5)), Value::FieldConst(constant(&field, 6))];
    m.scope.insert(s("a"), ScopeValue::Array(values)).unwrap();
    let r = eval_expr(&defs, &mut m, &elem("a", num("1"))).unwrap();
    assert!(matches!(r, ReturnValue::Algebra(Value::FieldConst(c)) if c == constant(&field, 6)));
    let r = eval_expr(&defs, &mut m, &elem("a", num("2")));
    assert!(matches!(r, Err(Error::OutOfBounds(ref p)) if p == "a"));
    exec_stmt(&defs, &mut m, &signal(SignalKind::Internal, "x")).unwrap();
    let r = eval_expr(&defs, &mut m, &elem("a", var("x")));
    assert!(matches!(r, Err(Error::NonConstantIndex(ref p)) if p == "a"));
    exec_stmt(&defs, &mut m, &declare("n", Some(num("1")))).unwrap();
    let r = eval_expr(&defs, &mut m, &elem("n", num("0")));
    assert!(matches!(r, Err(Error::ExpectedArray(ref p)) if p == "n"));
    let r = eval_expr(&defs, &mut m, &var("a")).unwrap();
    assert!(matches!(r, ReturnValue::Array(ref v) if v.len() == 2));
}

#[test]
fn division_needs_a_constant_divisor_other_than_zero() {
    let defs = seed_definitions(vec![]).unwrap();
    let field = Field::bn254();
    let mut m = machine(10);
    exec_stmt(&defs, &mut m, &signal(SignalKind::Internal, "x")).unwrap();
    let r = eval_expr(&defs, &mut m, &bin(BinaryOp::Div, num("6"), num("3"), "div")).unwrap();
    assert!(matches!(r, ReturnValue::Algebra(Value::FieldConst(c)) if c == constant(&field, 2)));
    let r = eval_expr(&defs, &mut m, &bin(BinaryOp::Div, num("6"), num("0"), "div"));
    assert!(matches!(r, Err(Error::DivisionByZero(ref p)) if p == "div"));
    let r = eval_expr(&defs, &mut m, &bin(BinaryOp::Div, num("6"), var("x"), "div"));
    assert!(matches!(r, Err(Error::NonConstantDivisor(ref p)) if p == "div"));
}

#[test]
fn logical_operators_short_circuit() {
    let defs = seed_definitions(vec![]).unwrap();
    let mut m = machine(10);
    let r = eval_expr(&defs, &mut m, &bin(BinaryOp::And, num("0"), var("missing"), "and")).unwrap();
    assert!(matches!(r, ReturnValue::Bool(false)));
    let r = eval_expr(&defs, &mut m, &bin(BinaryOp::Or, num("2"), var("missing"), "or")).unwrap();
    assert!(matches!(r, ReturnValue::Bool(true)));
    let r = eval_expr(&defs, &mut m, &bin(BinaryOp::And, num("1"), var("missing"), "and"));
    assert!(matches!(r, Err(Error::NotFound(_))));
    let not = Expression::Unary { op: UnaryOp::Not, operand: Box::new(num("0")), pos: s("not") };
    assert!(matches!(eval_expr(&defs, &mut m, &not).unwrap(), ReturnValue::Bool(true)));
}

#[test]
fn comparisons_use_the_representatives_below_the_modulus() {
    let defs = seed_definitions(vec![]).unwrap();
    let mut m = machine(10);
    let minus_one = Expression::Unary { op: UnaryOp::Neg, operand: Box::new(num("1")), pos: s("neg") };
    let r = eval_expr(&defs, &mut m, &bin(BinaryOp::Gt, minus_one, num("5"), "gt")).unwrap();
    assert!(matches!(r, ReturnValue::Bool(true)));
    let r = eval_expr(&defs, &mut m, &bin(BinaryOp::Le, num("5"), num("5"), "le")).unwrap();
    assert!(matches!(r, ReturnValue::Bool(true)));
    let r = eval_expr(&defs, &mut m, &bin(BinaryOp::Ne, num("0x10"), num("16"), "ne")).unwrap();
    assert!(matches!(r, ReturnValue::Bool(false)));
}

#[test]
fn literals_are_decimal_or_hexadecimal() {
    let defs = seed_definitions(vec![]).unwrap();
    let field = Field::bn254();
    let mut m = machine(10);
    let r = eval_expr(&defs, &mut m, &num("0xabc")).unwrap();
    assert!(matches!(r, ReturnValue::Algebra(Value::FieldConst(c)) if c == constant(&field, 0xabc)));
    let r = eval_expr(&defs, &mut m, &num("12x"));
    assert!(matches!(r, Err(Error::BadAst(ref p)) if p == "lit"));
    let r = eval_expr(&defs, &mut m, &num("0x"));
    assert!(matches!(r, Err(Error::BadAst(_))));
}

#[test]
fn functions_check_arity_and_need_a_return() {
    let program = vec![
        function("f", vec!["n"], vec![ret(var("n"))]),
        function("silent", vec![], vec![declare("x", None)]),
        function("wires", vec![], vec![signal(SignalKind::Internal, "x"), ret(num("0"))]),
    ];
    let defs = seed_definitions(program).unwrap();
    let mut m = machine(10);
    let r = eval_expr(&defs, &mut m, &call("f", vec![]));
    assert!(matches!(r, Err(Error::ArityMismatch(ref p)) if p == "call"));
    let r = eval_expr(&defs, &mut m, &call("silent", vec![]));
    assert!(matches!(r, Err(Error::MissingReturn(ref p)) if p == "call"));
    let mut m = machine(10);
    let r = eval_expr(&defs, &mut m, &call("wires", vec![]));
    assert!(matches!(r, Err(Error::SignalInFunction(ref p)) if p == "signal"));
    let mut m = machine(10);
    let r = eval_expr(&defs, &mut m, &call("nope", vec![]));
    assert!(matches!(r, Err(Error::NotFound(ref p)) if p == "call"));
}

#[test]
fn recursion_is_bounded_by_the_step_limit() {
    let program = vec![function("again", vec!["n"], vec![ret(call("again", vec![var("n")]))])];
    let defs = seed_definitions(program).unwrap();
    let mut m = machine(50);
    let r = eval_expr(&defs, &mut m, &call("again", vec![num("1")]));
    assert!(matches!(r, Err(Error::StepLimitExceeded(_))));
}

#[test]
fn return_outside_of_a_body_has_no_target() {
    let defs = seed_definitions(vec![]).unwrap();
    let mut m = Machine {
        store: Store::new(Field::bn254(), Optimizer::Identity),
        scope: Scope::new(false, None, s("loose")),
        path: s("main"),
        in_function: false,
        components: NameMap::new(),
        steps: 10,
    };
    let r = exec_stmt(&defs, &mut m, &ret(num("1")));
    assert!(matches!(r, Err(Error::NoEnclosingReturnTarget(ref p)) if p == "loose"));
}

#[test]
fn programs_hold_definitions_only_and_each_name_once() {
    let r = seed_definitions(vec![declare("x", None)]);
    assert!(matches!(r, Err(Error::BadAst(ref p)) if p == "var"));
    let r = seed_definitions(vec![function("f", vec![], vec![]), template("f", vec![], vec![])]);
    assert!(matches!(r, Err(Error::AlreadyDefined(ref n)) if n == "f"));
    let r = run(vec![function("f", vec![], vec![])], "f");
    assert!(matches!(r, Err(Error::NotFound(ref n)) if n == "f"));
    let r = run(vec![], "Main");
    assert!(matches!(r, Err(Error::NotFound(ref n)) if n == "Main"));
}

#[test]
fn template_parameters_are_constants() {
    let field = Field::bn254();
    let program = || {
        vec![template(
            "Scaled",
            vec!["k"],
            vec![
                signal(SignalKind::Input, "a"),
                signal(SignalKind::Output, "b"),
                Statement::ConstrainAssign {
                    target: var("b"),
                    value: bin(BinaryOp::Mul, var("k"), var("a"), "mul"),
                    pos: s("wire"),
                },
            ],
        )]
    };
    let three = ReturnValue::Algebra(Value::FieldConst(constant(&field, 3)));
    let store = evaluate(program(), "Scaled", vec![three], field, Optimizer::Identity, 100).unwrap();
    let form = &store.constraints()[0].form;
    assert!(form.a.terms.is_empty() && form.b.terms.is_empty());
    assert_eq!(
        form.c.terms,
        vec![Term { signal: 0, coeff: constant(&field, 3) }, Term { signal: 1, coeff: field.neg(&U256::one()) }]
    );
    let r = evaluate(program(), "Scaled", vec![], field, Optimizer::Identity, 100);
    assert!(matches!(r, Err(Error::ArityMismatch(ref n)) if n == "Scaled"));
    let r = evaluate(program(), "Scaled", vec![ReturnValue::Bool(true)], field, Optimizer::Identity, 100);
    assert!(matches!(r, Err(Error::ExpectedFieldConstant(ref n)) if n == "Scaled"));
    let big = ReturnValue::Algebra(Value::FieldConst(field.modulus()));
    let r = evaluate(program(), "Scaled", vec![big], field, Optimizer::Identity, 100);
    assert!(matches!(r, Err(Error::ExpectedFieldConstant(_))));
}

#[test]
fn definitions_are_not_statements_of_a_body() {
    let defs = seed_definitions(vec![]).unwrap();
    let mut m = machine(10);
    let r = exec_stmt(&defs, &mut m, &function("f", vec![], vec![]));
    assert!(matches!(r, Err(Error::BadAst(ref p)) if p == "f"));
}

#[test]
fn a_callee_does_not_see_the_names_of_its_caller() {
    let program = vec![function("peek", vec![], vec![ret(var("hidden"))])];
    let defs = seed_definitions(program).unwrap();
    let mut m = machine(100);
    exec_stmt(&defs, &mut m, &declare("hidden", Some(num("5")))).unwrap();
    let r = eval_expr(&defs, &mut m, &call("peek", vec![]));
    assert!(matches!(r, Err(Error::NotFound(ref p)) if p == "hidden"));
    assert!(matches!(m.scope.lookup("hidden"), Some(ScopeValue::Algebra(_))));
}
