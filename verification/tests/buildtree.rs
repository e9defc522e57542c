use earp::buildtree::{BTDefinition, BTFuncCall, BTFuncProcDefinition, BTProcCall, BTTopDefn, BuildTree};
use earp::codeblocks::{CodeBlock, CodeDefinition};
use earp::model::{AtomicTypeSpec, CodeArgument, TypeSpec};

fn funcproc(file: &[&str], line: usize) -> BTFuncProcDefinition {
    BTFuncProcDefinition {
        position: (file.iter().map(|f| f.to_string()).collect(), line),
        args: vec![],
        captures: vec![],
        block: vec![],
        ret: vec![],
        ret_type: None,
    }
}

fn block(results: usize) -> CodeBlock {
    CodeBlock {
        name: "c".to_string(),
        arguments: vec![],
        results: (0..results)
            .map(|_| CodeArgument { arg_type: TypeSpec::Atomic(AtomicTypeSpec::Number), checks: vec![] })
            .collect(),
        impls: vec![],
        modifiers: vec![],
    }
}

#[test]
fn test_buildtree_smoke() {
    let mut bt = BuildTree::new();
    let f = bt.add_definition(BTDefinition::Func(funcproc(&["main", "lib"], 12)));
    let p = bt.add_definition(BTDefinition::Proc(funcproc(&[], 3)));
    let c = bt.add_definition(BTDefinition::Code(CodeDefinition::new()));
    assert_eq!((f, p, c), (0, 1, 2));
    assert!(bt.add_code(c, block(1)).is_ok());
    assert_eq!(bt.add_code(c, block(2)).unwrap_err(), "code blocks must match in return value count: 2 vs 1");
    assert_eq!(bt.get_block(c, 0).results.len(), 1);
    let call = BTFuncCall { func_index: f, args: vec![], call_index: 0 };
    assert_eq!(bt.get_function(&call).unwrap().at(), "lib:12");
    let bad = BTFuncCall { func_index: p, args: vec![], call_index: 1 };
    assert_eq!(bt.get_function(&bad).err().unwrap(), "expected function, got non-function");
    match bt.get_by_index(p).unwrap() {
        BTTopDefn::FuncProc(d) => assert_eq!(d.at(), "*anon*:3"),
        BTTopDefn::Code(_) => panic!("expected a procedure"),
    }
    assert!(matches!(bt.get_by_index(c).unwrap(), BTTopDefn::Code(_)));
    let none = BTProcCall { proc_index: None, args: vec![], rets: None, call_index: 2 };
    assert!(bt.get_any(&none).unwrap().is_none());
    let code = BTProcCall { proc_index: Some(c), args: vec![], rets: None, call_index: 3 };
    assert!(matches!(bt.get_any(&code).unwrap(), Some(BTTopDefn::Code(_))));
}
