use earp::model::{Constant, LinearStatement, LinearStatementValue, Variable, CheckType};
use earp::position::ParsePosition;
use earp::reduce::{reduce, Reduce};
use earp::unbundleaux::{Position, Transits, TransitsBuilder, VarRegisters};

fn stmt(value: LinearStatementValue) -> LinearStatement {
    LinearStatement { value, position: ParsePosition::new("f", "included") }
}

fn var(prefix: Option<&str>, name: &str) -> Variable {
    Variable { prefix: prefix.map(|p| p.to_string()), name: name.to_string() }
}

#[test]
fn test_reduce_drops_copies() {
    let stmts = vec![
        stmt(LinearStatementValue::Constant(1, Constant::Boolean(true))),
        stmt(LinearStatementValue::Copy(2, 1)),
        stmt(LinearStatementValue::Copy(3, 2)),
        stmt(LinearStatementValue::Check("c".to_string(), 3, CheckType::Length, 0, false)),
    ];
    let out = reduce(&stmts);
    assert_eq!(out.len(), 2);
    assert!(matches!(out[0].value, LinearStatementValue::Constant(1, Constant::Boolean(true))));
    match &out[1].value {
        LinearStatementValue::Check(name, reg, ct, ci, force) => {
            assert_eq!(name, "c");
            assert_eq!(*reg, 1);
            assert_eq!(*ct, CheckType::Length);
            assert_eq!(*ci, 0);
            assert!(!*force);
        },
        _ => panic!("expected a check"),
    }
    let mut r = Reduce::new();
    assert_eq!(r.canon(7), 7);
    assert!(r.reduce(&stmt(LinearStatementValue::Copy(8, 7))).is_none());
    assert_eq!(r.canon(8), 7);
}

#[test]
fn test_var_registers_scopes() {
    let mut regs = VarRegisters::new();
    regs.add(&var(None, "x"), 3);
    regs.add(&var(Some("b"), "y"), 4);
    assert_eq!(regs.get(&var(None, "x")).unwrap(), 3);
    assert_eq!(regs.get(&var(Some("b"), "y")).unwrap(), 4);
    assert_eq!(regs.get(&var(None, "z")).unwrap_err(), "unknown variable 'z'");
    assert_eq!(regs.get(&var(Some("b"), "x")).unwrap_err(), "unknown variable 'b.x'");
    assert!(regs.check_used("b"));
    assert!(!regs.check_used("c"));
    regs.push();
    assert_eq!(regs.get(&var(None, "x")).unwrap_err(), "unknown variable 'x'");
    assert_eq!(regs.get_outer(&var(None, "x")).unwrap(), 3);
    regs.add(&var(None, "x"), 9);
    assert_eq!(regs.get(&var(None, "x")).unwrap(), 9);
    regs.pop();
    assert_eq!(regs.get(&var(None, "x")).unwrap(), 3);
}

#[test]
fn test_reduce_code_arguments() {
    let stmts = vec![
        stmt(LinearStatementValue::Copy(5, 1)),
        stmt(LinearStatementValue::Copy(6, 2)),
        stmt(LinearStatementValue::Code(0, 4, vec![7], vec![5, 6, 3])),
        stmt(LinearStatementValue::WildEquiv(vec![6, 7])),
    ];
    let out = reduce(&stmts);
    assert_eq!(out.len(), 2);
    match &out[0].value {
        LinearStatementValue::Code(call, name, rets, args) => {
            assert_eq!((*call, *name), (0, 4));
            assert_eq!(rets, &vec![7]);
            assert_eq!(args, &vec![1, 2, 3]);
        },
        _ => panic!("expected code"),
    }
    match &out[1].value {
        LinearStatementValue::WildEquiv(regs) => assert_eq!(regs, &vec![2, 7]),
        _ => panic!("expected an equivalence"),
    }
}

#[test]
fn test_transits_builder_sorted() {
    let mut b = TransitsBuilder::new();
    b.push(3);
    b.add(Position::Arg(0), vec!["z".to_string(), "a".to_string(), "m".to_string()]);
    b.push(5);
    b.add(Position::Return(1), vec!["q".to_string()]);
    b.pop();
    b.add(Position::Repeater, vec![]);
    b.add(Position::Arg(0), vec!["b".to_string(), "a".to_string()]);
    assert_eq!(b.call_stack(), &vec![3]);
    let t = b.build();
    assert_eq!(t.get(&[3], &Position::Arg(0)).unwrap(), &["a".to_string(), "b".to_string()]);
    assert_eq!(t.get(&[3, 5], &Position::Return(1)).unwrap(), &["q".to_string()]);
    assert!(t.get(&[3], &Position::Repeater).unwrap().is_empty());
    assert_eq!(t.get(&[5], &Position::Repeater).unwrap_err(), "missing bundle");
    let mut keys = t.keys();
    keys.sort();
    assert_eq!(keys, vec![
        (vec![3], Position::Arg(0)),
        (vec![3], Position::Repeater),
        (vec![3, 5], Position::Return(1)),
    ]);
    let outer = {
        let mut regs = VarRegisters::new();
        regs.add(&var(Some("p"), "zeta"), 1);
        regs.add(&var(Some("p"), "alpha"), 2);
        regs.add(&var(Some("p"), "mu"), 3);
        regs.add(&var(Some("p"), "alpha"), 4);
        regs.add(&var(None, "beta"), 5);
        regs.outer_all_prefix("p")
    };
    assert_eq!(outer, vec!["alpha", "mu", "zeta"]);
}

#[test]
fn test_transits_record_directly() {
    let mut t = Transits::new();
    t.push(2);
    t.add(Position::Arg(1), vec!["y".to_string(), "x".to_string()]);
    t.push(4);
    t.add(Position::Return(0), vec!["k".to_string()]);
    t.pop();
    t.add(Position::Arg(1), vec!["w".to_string()]);
    t.pop();
    t.pop();
    t.add(Position::Repeater, vec![]);
    assert_eq!(t.get(&[2], &Position::Arg(1)).unwrap(), &["w".to_string()]);
    assert_eq!(t.get(&[2, 4], &Position::Return(0)).unwrap(), &["k".to_string()]);
    assert!(t.get(&[], &Position::Repeater).unwrap().is_empty());
    assert_eq!(t.get(&[4], &Position::Return(0)).unwrap_err(), "missing bundle");
    let mut u = Transits::new();
    u.add(Position::Arg(0), vec!["c".to_string(), "a".to_string(), "b".to_string()]);
    assert_eq!(u.get(&[], &Position::Arg(0)).unwrap(), &["a".to_string(), "b".to_string(), "c".to_string()]);
    assert_eq!(u.keys(), vec![(vec![], Position::Arg(0))]);
}
