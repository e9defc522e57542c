use earp::checking::Equiv;
use earp::equiv::EquivalenceClass;

#[test]
fn test_checking() {
    let mut eq = EquivalenceClass::new();
    assert_eq!(eq.canon(5), 5);
    eq.equiv(1, 2);
    assert_eq!(eq.canon(2), 1);
    eq.equiv(3, 2);
    assert_eq!(eq.canon(1), 3);
    assert_eq!(eq.canon(2), 3);
    eq.equiv(4, 4);
    assert_eq!(eq.canon(4), 4);
    assert_eq!(eq.get(2), 1);
    eq.build();
    assert_eq!(eq.get(2), 3);
    assert_eq!(eq.get(1), 3);
    assert_eq!(eq.get(3), 3);
    assert_eq!(eq.get(9), 9);
}

#[test]
fn test_checking_opt() {
    let mut eq = Equiv::new();
    eq.set_reg(10, 1);
    eq.set_reg(11, 2);
    assert_eq!(eq.canon(1), 1);
    eq.set_reg(10, 2);
    assert_eq!(eq.canon(1), 2);
    eq.set_equiv_index(2, 5);
    assert_eq!(eq.canon(1), 5);
    assert_eq!(eq.canon(2), 5);
    eq.set_equiv(20, 21);
    assert_eq!(eq.canon(7), 7);
}

use earp::checking::{run_checking, Allocator, Specials};
use earp::buildtree::{BTDefinition, BuildTree};
use earp::codeblocks::{CodeBlock, CodeDefinition};
use earp::model::{AtomicTypeSpec, Check, CheckType, CodeArgument, Constant, LinearStatement, LinearStatementValue, TypeSpec};
use earp::position::ParsePosition;
use std::collections::HashMap;

const CHECK_FUNCTIONS: [&str; 10] = [
    "length",
    "bound",
    "total",
    "check_length",
    "check_length_total",
    "check_length_bound",
    "check_length_inf",
    "check_bound",
    "check_total",
    "check_inf",
];

fn specials() -> Specials {
    let mut s = Specials::new();
    for (i, name) in CHECK_FUNCTIONS.iter().enumerate() {
        s.add(name, 200 + i);
    }
    s
}

fn at(value: LinearStatementValue) -> LinearStatement {
    LinearStatement { value, position: ParsePosition::new("prog", "included") }
}

fn checked_arg(ct: CheckType, name: &str) -> CodeArgument {
    CodeArgument {
        arg_type: TypeSpec::Atomic(AtomicTypeSpec::Number),
        checks: vec![Check { check_type: ct, name: name.to_string(), force: false }],
    }
}

/// One definition with one block whose single argument and single result
/// carry the same length check.
fn passing_defs() -> BuildTree {
    let mut d = CodeDefinition::new();
    let block = CodeBlock {
        name: "pass".to_string(),
        arguments: vec![checked_arg(CheckType::Length, "a")],
        results: vec![checked_arg(CheckType::Length, "a")],
        impls: vec![],
        modifiers: vec![],
    };
    assert!(d.add(block).is_ok());
    let mut bt = BuildTree::new();
    assert_eq!(bt.add_definition(BTDefinition::Code(d)), 0);
    bt
}

fn code_regs(v: &LinearStatementValue) -> (usize, usize, Vec<usize>, Vec<usize>) {
    match v {
        LinearStatementValue::Code(c, n, r, a) => (*c, *n, r.clone(), a.clone()),
        _ => panic!("expected code"),
    }
}

#[test]
fn test_run_checking_through_call() {
    let stmts = vec![
        at(LinearStatementValue::Check("a".to_string(), 1, CheckType::Length, 0, true)),
        at(LinearStatementValue::Code(7, 0, vec![2], vec![1])),
        at(LinearStatementValue::Check("a".to_string(), 2, CheckType::Length, 0, false)),
    ];
    let mut bi = HashMap::new();
    bi.insert(7, 0);
    let mut alloc = Allocator::new(100, 50);
    let mut broad = vec![];
    let out = run_checking(&stmts, &passing_defs(), &bi, &specials(), &mut alloc, &mut broad).unwrap();
    assert_eq!(out.len(), 2);
    assert_eq!(code_regs(&out[0].value), (50, 200, vec![100], vec![1]));
    assert_eq!(code_regs(&out[1].value), (7, 0, vec![2], vec![1]));
    assert_eq!(broad.len(), 1);
    assert!(broad[0].0 == 100 && matches!(broad[0].1, AtomicTypeSpec::Number));
    assert_eq!(alloc.next_register(), 101);
    assert_eq!(alloc.next_call(), 51);
}

#[test]
fn test_run_checking_unguaranteed() {
    let stmts = vec![
        at(LinearStatementValue::Check("a".to_string(), 1, CheckType::Length, 0, true)),
        at(LinearStatementValue::Check("b".to_string(), 2, CheckType::Sum, 0, false)),
    ];
    let bi = HashMap::new();
    let mut alloc = Allocator::new(100, 50);
    let mut broad = vec![];
    let err = run_checking(&stmts, &passing_defs(), &bi, &specials(), &mut alloc, &mut broad).unwrap_err();
    assert_eq!(err, "checking error: cannot guarantee Sum at prog:0");
    assert_eq!(broad.len(), 1);
    assert_eq!(alloc.next_register(), 101);
}

#[test]
fn test_run_checking_compares_runtime_values() {
    let stmts = vec![
        at(LinearStatementValue::Check("x".to_string(), 1, CheckType::Length, 4, true)),
        at(LinearStatementValue::Constant(9, Constant::Number(3))),
        at(LinearStatementValue::Check("y".to_string(), 2, CheckType::Length, 4, true)),
    ];
    let bi = HashMap::new();
    let mut alloc = Allocator::new(100, 50);
    let mut broad = vec![];
    let out = run_checking(&stmts, &passing_defs(), &bi, &specials(), &mut alloc, &mut broad).unwrap();
    assert_eq!(out.len(), 5);
    assert_eq!(code_regs(&out[0].value), (50, 200, vec![100], vec![1]));
    assert!(matches!(out[1].value, LinearStatementValue::Constant(9, Constant::Number(3))));
    assert_eq!(code_regs(&out[2].value), (51, 200, vec![101], vec![2]));
    match &out[3].value {
        LinearStatementValue::Constant(102, Constant::String(s)) => assert_eq!(s, "y"),
        _ => panic!("expected the check's name"),
    }
    assert_eq!(code_regs(&out[4].value), (52, 203, vec![], vec![102, 101, 100]));
    assert_eq!(broad.len(), 3);
    assert!(matches!(broad[2].1, AtomicTypeSpec::String));
}

#[test]
fn test_run_checking_bound_against_length() {
    let stmts = vec![
        at(LinearStatementValue::Check("l".to_string(), 1, CheckType::Length, 0, true)),
        at(LinearStatementValue::Check("b".to_string(), 2, CheckType::Reference, 0, true)),
    ];
    let bi = HashMap::new();
    let mut alloc = Allocator::new(10, 20);
    let mut broad = vec![];
    let out = run_checking(&stmts, &passing_defs(), &bi, &specials(), &mut alloc, &mut broad).unwrap();
    assert_eq!(out.len(), 4);
    assert_eq!(code_regs(&out[1].value), (21, 201, vec![11], vec![2]));
    assert_eq!(code_regs(&out[3].value), (22, 205, vec![], vec![12, 10, 11]));
}
