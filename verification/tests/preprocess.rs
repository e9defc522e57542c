use earp::buildtree::{BTExpression, BTStatementValue};
use earp::model::{ArgTypeSpec, AtomicTypeSpec, Constant, OrBundle, OrBundleRepeater, TypeSpec, TypedArgument, Variable};
use earp::parsetree::{PTCall, PTExpression, PTFuncDef, PTStatement, PTStatementValue};
use earp::preprocess::Phase2Misc;

fn var(name: &str) -> PTExpression {
    PTExpression::Variable(Variable { prefix: None, name: name.to_string() })
}

fn num(n: u64) -> PTExpression {
    PTExpression::Constant(Constant::Number(n))
}

fn infix(a: PTExpression, f: &str, b: PTExpression) -> PTExpression {
    PTExpression::Infix(Box::new(a), f.to_string(), Box::new(b))
}

fn prefix(f: &str, a: PTExpression) -> PTExpression {
    PTExpression::Prefix(f.to_string(), Box::new(a))
}

fn stmt(value: PTStatementValue, line_no: usize) -> PTStatement {
    PTStatement { value, file: vec!["main".to_string()], line_no, context: 0 }
}

/// The called function and its arguments, if `e` is a call.
fn called(e: &PTExpression) -> (&str, &Vec<OrBundleRepeater<PTExpression>>) {
    match e {
        PTExpression::Call(PTCall { name, args, is_macro }) => {
            assert!(!is_macro);
            (name.as_str(), args)
        },
        other => panic!("expected a call, got {:?}", other),
    }
}

fn normal(a: &OrBundleRepeater<PTExpression>) -> &PTExpression {
    match a {
        OrBundleRepeater::Normal(x) => x,
        other => panic!("expected an expression, got {:?}", other),
    }
}

#[test]
fn test_preprocess() {
    let program = vec![
        stmt(PTStatementValue::Flag("no-libcore".to_string()), 1),
        stmt(
            PTStatementValue::LetStatement(
                vec![OrBundleRepeater::Normal((Variable { prefix: None, name: "x".to_string() }, vec![]))],
                vec![OrBundle::Normal(infix(num(1), "+", infix(prefix("-", num(2)), "*", var("y"))))],
            ),
            2,
        ),
        stmt(
            PTStatementValue::FuncDef(PTFuncDef {
                name: "f".to_string(),
                modifiers: vec![],
                args: vec![],
                captures: vec![],
                block: vec![
                    stmt(PTStatementValue::Flag("debug".to_string()), 4),
                    stmt(
                        PTStatementValue::ModifyStatement(
                            vec![Variable { prefix: None, name: "z".to_string() }],
                            vec![prefix("!", var("b"))],
                        ),
                        5,
                    ),
                ],
                value: OrBundle::Normal(infix(var("a"), "==", var("b"))),
                value_type: None,
            }),
            3,
        ),
        stmt(PTStatementValue::Include("lib".to_string()), 6),
    ];
    let mut flags = Phase2Misc::new();
    let out = PTStatement::transform_list(program, &mut flags).unwrap();
    assert!(flags.has_flag("no-libcore"));
    assert!(flags.has_flag("debug"));
    assert!(!flags.has_flag("x"));
    assert_eq!(out.len(), 3);
    assert_eq!(out[0].line_no, 2);
    match &out[0].value {
        PTStatementValue::LetStatement(_, rv) => {
            let e = match &rv[0] {
                OrBundle::Normal(e) => e,
                other => panic!("expected an expression, got {:?}", other),
            };
            let (name, args) = called(e);
            assert_eq!(name, "__operator_add");
            assert!(matches!(normal(&args[0]), PTExpression::Constant(Constant::Number(1))));
            let (name, args) = called(normal(&args[1]));
            assert_eq!(name, "__operator_mul");
            let (inner, inner_args) = called(normal(&args[0]));
            assert_eq!(inner, "__operator_minus");
            assert_eq!(inner_args.len(), 1);
            assert!(matches!(normal(&args[1]), PTExpression::Variable(v) if v.name == "y"));
        },
        other => panic!("expected a let, got {:?}", other),
    }
    match &out[1].value {
        PTStatementValue::FuncDef(d) => {
            assert_eq!(d.block.len(), 1);
            match &d.block[0].value {
                PTStatementValue::ModifyStatement(_, xs) => assert_eq!(called(&xs[0]).0, "__operator_not"),
                other => panic!("expected an assignment, got {:?}", other),
            }
            match &d.value {
                OrBundle::Normal(e) => assert_eq!(called(e).0, "__operator_eq"),
                other => panic!("expected an expression, got {:?}", other),
            }
        },
        other => panic!("expected a function, got {:?}", other),
    }
    assert!(matches!(&out[2].value, PTStatementValue::Include(p) if p == "lib"));
}

#[test]
fn test_preprocess_every_operator() {
    let infixes = [
        ("*", "__operator_mul"),
        ("/", "__operator_div"),
        ("+", "__operator_add"),
        ("-", "__operator_sub"),
        (">", "__operator_gt"),
        (">=", "__operator_ge"),
        ("<", "__operator_lt"),
        ("<=", "__operator_le"),
        ("==", "__operator_eq"),
        ("!=", "__operator_ne"),
        ("&&", "__operator_and"),
        ("||", "__operator_or"),
    ];
    for (op, name) in infixes.iter() {
        let e = infix(num(1), op, num(2)).replace_operators();
        let (got, args) = called(&e);
        assert_eq!(got, *name);
        assert_eq!(args.len(), 2);
    }
    for (op, name) in [("-", "__operator_minus"), ("!", "__operator_not")].iter() {
        let e = prefix(op, num(1)).replace_operators();
        assert_eq!(called(&e).0, *name);
    }
    let seq = PTExpression::InfiniteSequence(Box::new(PTExpression::FiniteSequence(vec![infix(num(1), "+", num(2))])));
    match seq.replace_operators() {
        PTExpression::InfiniteSequence(x) => match *x {
            PTExpression::FiniteSequence(items) => assert_eq!(called(&items[0]).0, "__operator_add"),
            other => panic!("expected a sequence, got {:?}", other),
        },
        other => panic!("expected a sequence, got {:?}", other),
    }
}

#[test]
fn test_preprocess_errors() {
    let mut flags = Phase2Misc::new();
    let looping = vec![
        stmt(PTStatementValue::Flag("early".to_string()), 1),
        PTStatement {
            value: PTStatementValue::Include("a".to_string()),
            file: vec!["a".to_string(), "b".to_string()],
            line_no: 4,
            context: 0,
        },
        stmt(PTStatementValue::Flag("late".to_string()), 5),
    ];
    assert_eq!(
        PTStatement::transform_list(looping, &mut flags).unwrap_err(),
        "recursive include of a at b:4 (included from a)"
    );
    assert!(flags.has_flag("early"));
    assert!(!flags.has_flag("late"));
    let repeats = stmt(
        PTStatementValue::LetStatement(
            vec![OrBundleRepeater::Repeater("r".to_string()), OrBundleRepeater::Repeater("s".to_string())],
            vec![OrBundle::Normal(num(1))],
        ),
        7,
    );
    assert_eq!(repeats.transform(&mut flags).unwrap_err(), "only one repeat permitted per statement");
    let one_repeat = stmt(
        PTStatementValue::LetStatement(
            vec![OrBundleRepeater::Repeater("r".to_string())],
            vec![OrBundle::Normal(infix(num(1), "-", num(2)))],
        ),
        8,
    );
    let out = one_repeat.transform(&mut flags).unwrap();
    assert_eq!(out.len(), 1);
    assert_eq!(out[0].line_no, 8);
}

#[test]
fn test_preprocess_feeds_builder() {
    let number = || ArgTypeSpec { arg_types: vec![TypeSpec::Atomic(AtomicTypeSpec::Number)], checks: vec![] };
    let add = PTFuncDef {
        name: "__operator_add".to_string(),
        modifiers: vec![],
        args: vec![
            OrBundle::Normal(TypedArgument { id: "a".to_string(), typespec: number() }),
            OrBundle::Normal(TypedArgument { id: "b".to_string(), typespec: number() }),
        ],
        captures: vec![],
        block: vec![],
        value: OrBundle::Normal(var("a")),
        value_type: Some(number()),
    };
    let program = vec![
        stmt(PTStatementValue::Flag("fast".to_string()), 1),
        stmt(PTStatementValue::FuncDef(add), 2),
        stmt(
            PTStatementValue::LetStatement(
                vec![OrBundleRepeater::Normal((Variable { prefix: None, name: "x".to_string() }, vec![]))],
                vec![OrBundle::Normal(infix(num(1), "+", num(2)))],
            ),
            3,
        ),
    ];
    let mut flags = Phase2Misc::new();
    let passed = PTStatement::transform_list(program, &mut flags).unwrap();
    let bt = PTStatement::to_build_tree(passed).unwrap();
    assert_eq!(bt.definitions.len(), 1);
    match &bt.statements[1].value {
        BTStatementValue::BundledStatement(c) => match &c.args[0] {
            OrBundleRepeater::Normal(BTExpression::Function(f)) => {
                assert_eq!(f.func_index, 0);
                assert_eq!(f.args.len(), 2);
            },
            other => panic!("expected a function call, got {:?}", other),
        },
        other => panic!("expected a call, got {:?}", other),
    }
}
