use earp::buildtree::{BTDefinition, BTExpression, BTLValue, BTRegisterType, BTStatementValue, BuildTree};
use earp::buildtreebuilder::BuildContext;
use earp::codeblocks::CodeBlock;
use earp::model::{
    ArgTypeSpec, AtomicTypeSpec, Constant, FuncProcModifier, OrBundle, OrBundleRepeater, TypeSpec,
    TypedArgument, Variable,
};
use earp::parsetree::{PTCall, PTExpression, PTFuncDef, PTProcDef, PTStatement, PTStatementValue};

fn var(name: &str) -> Variable {
    Variable { prefix: None, name: name.to_string() }
}

fn number() -> ArgTypeSpec {
    ArgTypeSpec { arg_types: vec![TypeSpec::Atomic(AtomicTypeSpec::Number)], checks: vec![] }
}

fn stmt(value: PTStatementValue, file: &[&str], line_no: usize) -> PTStatement {
    PTStatement { value, file: file.iter().map(|f| f.to_string()).collect(), line_no, context: 0 }
}

fn call(name: &str, args: Vec<PTExpression>) -> PTCall {
    PTCall {
        name: name.to_string(),
        args: args.into_iter().map(OrBundleRepeater::Normal).collect(),
        is_macro: false,
    }
}

fn identity(name: &str) -> PTStatementValue {
    PTStatementValue::FuncDef(PTFuncDef {
        name: name.to_string(),
        modifiers: vec![],
        args: vec![OrBundle::Normal(TypedArgument { id: "x".to_string(), typespec: number() })],
        captures: vec![],
        block: vec![],
        value: OrBundle::Normal(PTExpression::Variable(var("x"))),
        value_type: Some(number()),
    })
}

fn let_one(name: &str, x: PTExpression) -> PTStatementValue {
    PTStatementValue::LetStatement(vec![OrBundleRepeater::Normal((var(name), vec![]))], vec![OrBundle::Normal(x)])
}

fn code(name: &str) -> CodeBlock {
    CodeBlock { name: name.to_string(), arguments: vec![], results: vec![], impls: vec![], modifiers: vec![] }
}

fn call_index(v: &BTStatementValue) -> usize {
    match v {
        BTStatementValue::BundledStatement(c) => c.call_index,
        _ => panic!("expected a call, got {:?}", v),
    }
}

#[test]
fn test_builder_function_and_let() {
    let program = vec![
        stmt(identity("f"), &["main"], 1),
        stmt(let_one("y", PTExpression::Call(call("f", vec![PTExpression::Constant(Constant::Number(5))]))), &["main"], 2),
    ];
    let bt = PTStatement::to_build_tree(program).unwrap();
    assert_eq!(bt.definitions.len(), 1);
    match &bt.definitions[0] {
        BTDefinition::Func(f) => {
            assert_eq!(f.at(), "main:1");
            assert_eq!(f.ret.len(), 1);
            assert!(matches!(&f.ret[0], OrBundle::Normal(BTExpression::Variable(v)) if v.name == "x"));
            assert!(f.block.is_empty());
        },
        other => panic!("expected a function, got {:?}", other),
    }
    assert_eq!(bt.statements.len(), 4);
    assert!(matches!(bt.statements[0].value, BTStatementValue::Define(0)));
    assert_eq!(bt.statements[0].line_no, 1);
    for s in &bt.statements[1..] {
        assert_eq!(s.line_no, 2);
        assert_eq!(s.file, vec!["main".to_string()]);
    }
    match &bt.statements[1].value {
        BTStatementValue::BundledStatement(c) => {
            assert_eq!(c.call_index, 2);
            assert_eq!(c.proc_index, None);
            match &c.args[0] {
                OrBundleRepeater::Normal(BTExpression::Function(fc)) => {
                    assert_eq!(fc.func_index, 0);
                    assert_eq!(fc.call_index, 1);
                    assert!(matches!(&fc.args[0], OrBundleRepeater::Normal(BTExpression::Constant(Constant::Number(5)))));
                },
                other => panic!("expected a function call, got {:?}", other),
            }
            let rets = c.rets.as_ref().unwrap();
            assert!(matches!(&rets[0], OrBundleRepeater::Normal(BTLValue::Register(1, BTRegisterType::Normal))));
        },
        other => panic!("expected a call, got {:?}", other),
    }
    assert!(matches!(&bt.statements[2].value, BTStatementValue::Declare(OrBundleRepeater::Normal(v)) if v.name == "y"));
    match &bt.statements[3].value {
        BTStatementValue::BundledStatement(c) => {
            assert_eq!(c.call_index, 3);
            assert!(matches!(&c.args[0], OrBundleRepeater::Normal(BTExpression::RegisterValue(1, BTRegisterType::Normal))));
            let rets = c.rets.as_ref().unwrap();
            assert!(matches!(&rets[0], OrBundleRepeater::Normal(BTLValue::Variable(v)) if v.name == "y"));
        },
        other => panic!("expected a call, got {:?}", other),
    }
}

#[test]
fn test_builder_modify_and_bare_calls() {
    let program = vec![
        stmt(identity("f"), &["main"], 1),
        stmt(PTStatementValue::Code(code("c")), &["main"], 2),
        stmt(
            PTStatementValue::ModifyStatement(vec![var("z")], vec![PTExpression::Constant(Constant::Boolean(true))]),
            &["main"],
            3,
        ),
        stmt(PTStatementValue::BareCall(call("f", vec![PTExpression::Variable(var("z"))])), &["main"], 4),
        stmt(PTStatementValue::BareCall(call("c", vec![])), &["main"], 5),
    ];
    let bt = PTStatement::to_build_tree(program).unwrap();
    assert_eq!(bt.definitions.len(), 2);
    assert!(matches!(bt.definitions[1], BTDefinition::Code(_)));
    let values: Vec<&BTStatementValue> = bt.statements.iter().map(|s| &s.value).collect();
    assert_eq!(values.len(), 5);
    assert!(matches!(values[0], BTStatementValue::Define(0)));
    assert_eq!(call_index(values[1]), 1);
    assert_eq!(call_index(values[2]), 2);
    match values[2] {
        BTStatementValue::BundledStatement(c) => {
            let rets = c.rets.as_ref().unwrap();
            assert!(matches!(&rets[0], OrBundleRepeater::Normal(BTLValue::Variable(v)) if v.name == "z"));
        },
        _ => unreachable!(),
    }
    match values[3] {
        BTStatementValue::BundledStatement(c) => {
            assert_eq!(c.call_index, 4);
            assert!(c.rets.is_none());
            assert!(matches!(&c.args[0], OrBundleRepeater::Normal(BTExpression::Function(fc)) if fc.call_index == 3));
        },
        other => panic!("expected a call, got {:?}", other),
    }
    match values[4] {
        BTStatementValue::BundledStatement(c) => {
            assert_eq!(c.proc_index, Some(1));
            assert_eq!(c.call_index, 5);
        },
        other => panic!("expected a call, got {:?}", other),
    }
    assert_eq!(bt.statements[4].line_no, 5);
}

#[test]
fn test_builder_procedure_body() {
    let body = vec![stmt(let_one("t", PTExpression::Variable(var("a"))), &["ignored"], 99)];
    let program = vec![stmt(
        PTStatementValue::ProcDef(PTProcDef {
            name: "p".to_string(),
            modifiers: vec![FuncProcModifier::Export],
            args: vec![OrBundle::Normal(TypedArgument { id: "a".to_string(), typespec: number() })],
            captures: vec![],
            block: body,
            ret: vec![OrBundle::Normal(PTExpression::Variable(var("t")))],
            ret_type: Some(vec![number()]),
        }),
        &["lib", "main"],
        8,
    )];
    let bt = PTStatement::to_build_tree(program).unwrap();
    assert_eq!(bt.statements.len(), 1);
    assert!(matches!(bt.statements[0].value, BTStatementValue::Define(0)));
    match &bt.definitions[0] {
        BTDefinition::Proc(p) => {
            assert_eq!(p.at(), "main:8");
            assert_eq!(p.block.len(), 3);
            for s in &p.block {
                assert_eq!(s.line_no, 8);
            }
            assert_eq!(p.ret.len(), 1);
            assert_eq!(p.ret_type.as_ref().unwrap().len(), 1);
        },
        other => panic!("expected a procedure, got {:?}", other),
    }
}

#[test]
fn test_builder_errors() {
    let missing = vec![stmt(PTStatementValue::BareCall(call("g", vec![])), &["a", "b"], 7)];
    assert_eq!(
        PTStatement::to_build_tree(missing).unwrap_err(),
        "No such function/procedure g at b:7 (included from a)"
    );
    let uneven = vec![stmt(
        PTStatementValue::LetStatement(
            vec![OrBundleRepeater::Normal((var("a"), vec![])), OrBundleRepeater::Normal((var("b"), vec![]))],
            vec![OrBundle::Normal(PTExpression::Constant(Constant::Number(1)))],
        ),
        &["main"],
        3,
    )];
    assert_eq!(
        PTStatement::to_build_tree(uneven).unwrap_err(),
        "let tuples differ in length: 2 lvalues but 1 rvalues at main:3"
    );
    let twice = vec![stmt(identity("f"), &["main"], 1), stmt(identity("f"), &["main"], 2)];
    assert_eq!(PTStatement::to_build_tree(twice).unwrap_err(), "duplicate definition for f at main:2");
    let not_a_function = vec![
        stmt(PTStatementValue::Code(code("c")), &["main"], 1),
        stmt(identity("f"), &["main"], 2),
        stmt(let_one("v", PTExpression::Call(call("c", vec![]))), &["main"], 3),
        stmt(let_one("w", PTExpression::Call(call("f", vec![PTExpression::Call(call("c", vec![]))]))), &["main"], 4),
    ];
    assert_eq!(PTStatement::to_build_tree(not_a_function).unwrap_err(), "cannot find function c at main:4");
    let no_library = vec![stmt(let_one("s", PTExpression::FiniteSequence(vec![])), &["main"], 5)];
    assert_eq!(
        PTStatement::to_build_tree(no_library).unwrap_err(),
        "cannot find function __operator_finseq at main:5"
    );
}

#[test]
fn test_builder_context() {
    let mut bc = BuildContext::new();
    let mut bt = BuildTree::new();
    assert_eq!(bc.location().1, 0);
    assert_eq!(bc.location().0, &["*anon*".to_string()]);
    bc.set_location(&vec!["x".to_string()], 4);
    assert_eq!(bc.location().1, 4);
    assert_eq!(bc.lookup_func("f").unwrap_err(), "cannot find function f");
    bc.build_statement(&mut bt, stmt(identity("f"), &["x"], 4)).unwrap();
    assert_eq!(bc.lookup_func("f").unwrap(), 0);
    assert_eq!(bc.lookup_top("f").unwrap_err(), "cannot find procedure/code f");
    bc.set_file_context(1);
    assert_eq!(bc.lookup_func("f").unwrap_err(), "cannot find function f");
    assert_eq!(bc.allocate_register(), 1);
    assert_eq!(bc.allocate_register(), 2);
}
