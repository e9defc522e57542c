use earp::codeblocks::{CodeBlock, CodeDefinition, ImplBlock};
use earp::model::{
    AtomicTypeSpec, CodeArgument, CodeImplArgument, CodeImplVariable, CodeModifier, CodeReturn, Constant, FullConstant,
    Opcode, TypeSpec,
};

fn var(reg_id: usize) -> CodeImplVariable {
    CodeImplVariable { reg_id, arg_type: TypeSpec::Atomic(AtomicTypeSpec::Number) }
}

fn num(n: u64) -> Option<FullConstant> {
    Some(FullConstant::Atomic(Constant::Number(n)))
}

fn number_arg() -> CodeArgument {
    CodeArgument { arg_type: TypeSpec::Atomic(AtomicTypeSpec::Number), checks: vec![] }
}

fn block(results: usize, impls: Vec<ImplBlock>, modifiers: Vec<CodeModifier>) -> CodeBlock {
    CodeBlock {
        name: "b".to_string(),
        arguments: vec![number_arg(), number_arg()],
        results: (0..results).map(|_| number_arg()).collect(),
        impls,
        modifiers,
    }
}

#[test]
fn test_impl_unifies() {
    let imp = ImplBlock {
        arguments: vec![CodeImplArgument::Register(var(1)), CodeImplArgument::Constant(Constant::Number(0))],
        results: vec![CodeReturn::Register(var(2))],
        command: Some(Opcode(5, vec![2, 1])),
    };
    assert!(imp.unifies(&[None, num(0)]));
    assert!(imp.unifies(&[num(7), num(0)]));
    assert!(!imp.unifies(&[num(7), num(1)]));
    assert!(!imp.unifies(&[num(7), None]));
    assert!(imp.unifies(&[num(7)]));
}

#[test]
fn test_impl_reg_reuse() {
    let imp = ImplBlock {
        arguments: vec![CodeImplArgument::Register(var(1)), CodeImplArgument::Register(var(2)), CodeImplArgument::Register(var(1))],
        results: vec![CodeReturn::Register(var(3)), CodeReturn::Repeat(1), CodeReturn::Repeat(2)],
        command: None,
    };
    assert_eq!(imp.reg_reuse().unwrap(), vec![(1, 2), (2, 1)]);
    let bad = ImplBlock { arguments: vec![], results: vec![CodeReturn::Repeat(4)], command: None };
    assert_eq!(bad.reg_reuse().unwrap_err(), "return repeat register not in argument list");
}

#[test]
fn test_choose_imps_and_world() {
    let general = ImplBlock {
        arguments: vec![CodeImplArgument::Register(var(1)), CodeImplArgument::Register(var(2))],
        results: vec![],
        command: None,
    };
    let zero = ImplBlock {
        arguments: vec![CodeImplArgument::Register(var(1)), CodeImplArgument::Constant(Constant::Number(0))],
        results: vec![],
        command: None,
    };
    let b = block(0, vec![zero, general], vec![CodeModifier::World]);
    assert_eq!(b.choose_imps(&[None, num(0)]), vec![0, 1]);
    assert_eq!(b.choose_imps(&[None, num(3)]), vec![1]);
    assert!(b.is_world());
    assert!(!block(0, vec![], vec![]).is_world());
}

#[test]
fn test_code_definition_ret_count() {
    let mut d = CodeDefinition::new();
    assert!(d.add(block(1, vec![], vec![])).is_ok());
    assert_eq!(d.ret_count(), 1);
    assert_eq!(d.add(block(2, vec![], vec![])).unwrap_err(), "code blocks must match in return value count: 2 vs 1");
    assert!(d.add(block(1, vec![], vec![])).is_ok());
    assert_eq!(d.get_block(1).results.len(), 1);
}
