use earp::buildtree::{BTDefinition, BuildTree};
use earp::codeblocks::{CodeBlock, CodeDefinition};
use earp::culdesac::culdesac;
use earp::model::{CodeModifier, Constant, FullConstant, Operation, OperationValue};
use earp::position::ParsePosition;
use std::collections::HashMap;

fn op(value: OperationValue) -> Operation {
    Operation { position: ParsePosition::new("f", "included"), value }
}

fn block(world: bool) -> CodeBlock {
    CodeBlock {
        name: if world { "print".to_string() } else { "add".to_string() },
        arguments: vec![],
        results: vec![],
        impls: vec![],
        modifiers: if world { vec![CodeModifier::World] } else { vec![] },
    }
}

/// Definition 0 is a plain block, definition 1 a world block.
fn defs() -> BuildTree {
    let mut plain = CodeDefinition::new();
    assert!(plain.add(block(false)).is_ok());
    let mut world = CodeDefinition::new();
    assert!(world.add(block(true)).is_ok());
    let mut bt = BuildTree::new();
    bt.add_definition(BTDefinition::Code(plain));
    bt.add_definition(BTDefinition::Code(world));
    bt
}

fn regs(v: &OperationValue) -> (usize, Vec<usize>, Vec<usize>) {
    match v {
        OperationValue::Code(c, _, r, a) => (*c, r.clone(), a.clone()),
        _ => panic!("expected code"),
    }
}

#[test]
fn test_culdesac_keeps_what_the_world_needs() {
    let opers = vec![
        op(OperationValue::Constant(1, FullConstant::Atomic(Constant::Number(2)))),
        op(OperationValue::Constant(2, FullConstant::Atomic(Constant::Number(3)))),
        op(OperationValue::Constant(9, FullConstant::Atomic(Constant::Number(4)))),
        op(OperationValue::Code(10, 0, vec![3, 8], vec![1, 2])),
        op(OperationValue::Code(11, 0, vec![7], vec![9])),
        op(OperationValue::Code(12, 1, vec![], vec![3])),
    ];
    let mut bi = HashMap::new();
    bi.insert(10, 0);
    bi.insert(11, 0);
    bi.insert(12, 0);
    let out = culdesac(&defs(), &bi, &opers);
    assert_eq!(out.len(), 4);
    assert!(matches!(out[0].value, OperationValue::Constant(1, _)));
    assert!(matches!(out[1].value, OperationValue::Constant(2, _)));
    assert_eq!(regs(&out[2].value), (10, vec![3, 0], vec![1, 2]));
    assert_eq!(regs(&out[3].value), (12, vec![], vec![3]));
}

#[test]
fn test_culdesac_without_world_keeps_nothing() {
    let opers = vec![
        op(OperationValue::Constant(1, FullConstant::Atomic(Constant::Number(2)))),
        op(OperationValue::Code(10, 0, vec![3], vec![1])),
    ];
    let mut bi = HashMap::new();
    bi.insert(10, 0);
    let out = culdesac(&defs(), &bi, &opers);
    assert_eq!(out.len(), 0);
}

#[test]
fn test_culdesac_last_setter_counts() {
    let opers = vec![
        op(OperationValue::Constant(1, FullConstant::Atomic(Constant::Number(2)))),
        op(OperationValue::Constant(2, FullConstant::Atomic(Constant::Number(5)))),
        op(OperationValue::Code(10, 0, vec![3], vec![1])),
        op(OperationValue::Code(11, 0, vec![3], vec![2])),
        op(OperationValue::Code(12, 1, vec![], vec![3])),
    ];
    let mut bi = HashMap::new();
    bi.insert(10, 0);
    bi.insert(11, 0);
    bi.insert(12, 0);
    let out = culdesac(&defs(), &bi, &opers);
    assert!(out.iter().any(|o| matches!(o.value, OperationValue::Constant(2, _))));
    assert!(!out.iter().any(|o| matches!(o.value, OperationValue::Constant(1, _))));
}
