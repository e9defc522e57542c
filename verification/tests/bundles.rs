use earp::bundlestack::{BundleKey, BundleStack};
use earp::unbundleaux::BundleNamespace;
use earp::buildtree::{
    BTDefinition, BTExpression, BTFuncCall, BTFuncProcDefinition, BTLValue, BTProcCall, BTRegisterType, BTStatement,
    BTStatementValue, BuildTree,
};
use earp::buildunbundle::{build_unbundle, find_repeater_arguments, BuildUnbundle};
use earp::model::{ArgTypeSpec, OrBundle, OrBundleRepeater, TypedArgument, Variable};
use earp::unbundleaux::Position;

fn sorted_names(v: &Vec<String>) -> Vec<String> {
    let mut v = v.clone();
    v.sort();
    v
}

#[test]
fn test_bundle_stack_scopes() {
    let mut stack = BundleStack::new();
    let a = stack.get_by_name("a");
    let a2 = stack.get_by_name("a");
    assert_eq!(a.0, a2.0);
    stack.get_mut(&a).name_used("x");
    stack.get_mut(&a).name_used("y");
    stack.get_mut(&a).name_used("x");
    assert_eq!(sorted_names(stack.get_mut(&a).names()), vec!["x", "y"]);
    stack.get_mut(&a).name_unused("x");
    assert_eq!(sorted_names(stack.get_mut(&a).names()), vec!["y"]);
    let anon = stack.new_anon_bundle();
    assert_ne!(anon.0, a.0);
    stack.merge(&anon, &a);
    assert_eq!(sorted_names(stack.get_mut(&anon).names()), vec!["y"]);
    stack.get_mut(&a).kill();
    assert!(stack.get_mut(&a).names().is_empty());
    let a3 = stack.get_by_name("a");
    assert_ne!(a3.0, a.0);
    assert!(stack.try_get_by_register(4).is_none());
    let r = stack.get_by_register(4);
    assert_eq!(stack.try_get_by_register(4).unwrap().0, r.0);
    stack.push_level();
    assert_eq!(stack.try_get_by_register(4).unwrap().0, r.0);
    assert_eq!(stack.get(BundleKey::Name("a".to_string()), false).unwrap().0, a3.0);
    assert_eq!(stack.get_by_name("a").0, a3.0);
    assert!(stack.get(BundleKey::Name("b".to_string()), false).is_none());
    let inner = stack.get(BundleKey::Name("b".to_string()), true).unwrap();
    assert_eq!(stack.get_by_name("b").0, inner.0);
    stack.get_mut(&a3).kill();
    let fresh = stack.get(BundleKey::Name("a".to_string()), true).unwrap();
    assert_ne!(fresh.0, a3.0);
    stack.pop_level();
    assert!(stack.get(BundleKey::Name("b".to_string()), false).is_none());
}

#[test]
fn test_bundle_namespace_levels() {
    let mut ns = BundleNamespace::new();
    assert!(ns.get("p").is_none());
    ns.add("p", "w");
    assert_eq!(sorted_names(ns.get("p").unwrap().get_used()), vec!["w"]);
    ns.push();
    assert!(ns.get("p").is_none());
    ns.add("p", "x");
    ns.add("p", "y");
    assert_eq!(sorted_names(ns.get("p").unwrap().get_used()), vec!["x", "y"]);
    ns.remove("p", "x");
    assert_eq!(sorted_names(ns.get("p").unwrap().get_used()), vec!["y"]);
    ns.add_all("q", &vec!["z".to_string(), "y".to_string()]);
    ns.merge("p", "q");
    assert_eq!(sorted_names(ns.get("p").unwrap().get_used()), vec!["y", "z"]);
    ns.clear("p");
    assert!(ns.get("p").unwrap().get_used().is_empty());
    ns.merge("r", "missing");
    assert!(ns.get("r").unwrap().get_used().is_empty());
    ns.push();
    assert!(ns.get("q").is_none());
    ns.pop();
    assert_eq!(sorted_names(ns.get("q").unwrap().get_used()), vec!["y", "z"]);
    ns.pop();
    assert_eq!(sorted_names(ns.get("p").unwrap().get_used()), vec!["w"]);
}

#[test]
fn test_unbundle_helpers() {
    let sets = vec![Some(vec!["b".to_string(), "a".to_string()]), None];
    let sorted = earp::buildunbundle::all_sorted(&sets);
    assert_eq!(sorted[0], Some(vec!["a".to_string(), "b".to_string()]));
    assert_eq!(sorted[1], None);
    assert!(earp::buildunbundle::non_bundle(None).is_ok());
    let expects = vec!["x".to_string()];
    assert_eq!(earp::buildunbundle::non_bundle(Some(&expects)).unwrap_err(), "unexpected bundle");
    assert_eq!(earp::buildunbundle::bundle(Some(&expects)).unwrap(), &expects);
    assert_eq!(earp::buildunbundle::bundle(None).unwrap_err(), "expected bundle");
}

#[test]
fn test_find_repeater_arguments() {
    let rep = |s: &str| OrBundleRepeater::<BTLValue>::Repeater(s.to_string());
    let nested = OrBundleRepeater::Normal(BTExpression::Function(BTFuncCall {
        func_index: 0,
        args: vec![OrBundleRepeater::Repeater("b".to_string())],
        call_index: 1,
    }));
    let call = BTProcCall { proc_index: Some(1), args: vec![nested], rets: Some(vec![rep("a")]), call_index: 2 };
    assert_eq!(find_repeater_arguments(&call).unwrap(), Some(("a".to_string(), "b".to_string())));
    let plain: BTProcCall<OrBundleRepeater<BTLValue>> = BTProcCall { proc_index: None, args: vec![], rets: None, call_index: 3 };
    assert_eq!(find_repeater_arguments(&plain).unwrap(), None);
    let left_only = BTProcCall { proc_index: None, args: vec![], rets: Some(vec![rep("a")]), call_index: 4 };
    assert_eq!(find_repeater_arguments(&left_only).unwrap_err(), "must be single repeater on left and right");
    let two = BTProcCall { proc_index: None, args: vec![], rets: Some(vec![rep("a"), rep("c")]), call_index: 5 };
    assert_eq!(find_repeater_arguments(&two).unwrap_err(), "too many repeaters in lvalue");
    let beside = BTProcCall {
        proc_index: None,
        args: vec![],
        rets: Some(vec![rep("a"), OrBundleRepeater::Bundle("x".to_string())]),
        call_index: 6,
    };
    assert_eq!(find_repeater_arguments(&beside).unwrap_err(), "repeater must be the only result in lvalue");
    let many_right = BTProcCall {
        proc_index: None,
        args: vec![OrBundleRepeater::Repeater("b".to_string()), OrBundleRepeater::Repeater("d".to_string())],
        rets: Some(vec![rep("a")]),
        call_index: 7,
    };
    assert_eq!(find_repeater_arguments(&many_right).unwrap_err(), "too many repeaters in rvalue");
}

#[test]
fn test_unbundle_state_steps() {
    let rep = |s: &str| OrBundleRepeater::<BTLValue>::Repeater(s.to_string());
    let mut u = BuildUnbundle::new();
    // a bundle result, a bundle register, a plain register and a repeater
    let call = BTProcCall {
        proc_index: Some(0),
        args: vec![],
        rets: Some(vec![
            OrBundleRepeater::Bundle("p".to_string()),
            OrBundleRepeater::Normal(BTLValue::Register(4, BTRegisterType::Bundle)),
            OrBundleRepeater::Normal(BTLValue::Register(5, BTRegisterType::Normal)),
            OrBundleRepeater::Normal(BTLValue::Variable(Variable { prefix: Some("p".to_string()), name: "x".to_string() })),
        ]),
        call_index: 9,
    };
    let expected = u.return_bundles(&call);
    assert_eq!(expected, vec![Some(vec![]), Some(vec![]), None, None]);
    assert!(u.clear_lvalue_bundles(&call).is_ok());
    let none: BTProcCall<OrBundleRepeater<BTLValue>> = BTProcCall { proc_index: None, args: vec![], rets: None, call_index: 1 };
    assert!(u.return_bundles(&none).is_empty());
    let args = vec![
        OrBundle::Normal(TypedArgument { id: "a".to_string(), typespec: ArgTypeSpec { arg_types: vec![], checks: vec![] } }),
        OrBundle::Bundle("q".to_string()),
    ];
    assert_eq!(u.arg_bundles(&args).unwrap(), vec![None, Some(vec![])]);
    assert!(u.declare(&OrBundleRepeater::Bundle("q".to_string())).is_ok());
    assert!(u.declare(&OrBundleRepeater::Normal(Variable { prefix: None, name: "y".to_string() })).is_ok());
    // a repeater pair records its transit inside the call
    let nested = OrBundleRepeater::Normal(BTExpression::Function(BTFuncCall {
        func_index: 0,
        args: vec![OrBundleRepeater::Repeater("b".to_string())],
        call_index: 1,
    }));
    let repeat = BTProcCall { proc_index: Some(1), args: vec![nested], rets: Some(vec![rep("a")]), call_index: 2 };
    assert!(u.check_for_repeater(&repeat).is_ok());
    // a malformed one is refused and records nothing
    let bad = BTProcCall { proc_index: None, args: vec![], rets: Some(vec![rep("a")]), call_index: 3 };
    assert_eq!(u.check_for_repeater(&bad).unwrap_err(), "must be single repeater on left and right");
    assert!(u.check_for_repeater(&none).is_ok());
    let t = u.finish();
    assert!(t.get(&[2], &Position::Repeater).unwrap().is_empty());
    assert_eq!(t.get(&[3], &Position::Repeater).unwrap_err(), "missing bundle");
    assert_eq!(t.keys(), vec![(vec![2], Position::Repeater)]);
}

fn func_def(args: Vec<OrBundle<TypedArgument>>, block: Vec<BTStatement>, ret: Vec<OrBundle<BTExpression>>) -> BTFuncProcDefinition {
    BTFuncProcDefinition { position: (vec![], 0), args, captures: vec![], block, ret, ret_type: None }
}

fn prefixed(prefix: &str, name: &str) -> Variable {
    Variable { prefix: Some(prefix.to_string()), name: name.to_string() }
}

fn call_stmt(call: BTProcCall<OrBundleRepeater<BTLValue>>, line_no: usize) -> BTStatement {
    BTStatement { value: BTStatementValue::BundledStatement(call), file: vec!["main.earp".to_string()], line_no }
}

/// `let y = f(*q);` where `function f(*p) { p.x }`: the bundle `q` passed
/// to `f` carries `x`.
fn bundle_argument_tree(def: BTDefinition) -> BuildTree {
    let call = BTExpression::Function(BTFuncCall { func_index: 0, args: vec![OrBundleRepeater::Bundle("q".to_string())], call_index: 5 });
    let assign = BTProcCall {
        proc_index: None,
        args: vec![OrBundleRepeater::Normal(call)],
        rets: Some(vec![OrBundleRepeater::Normal(BTLValue::Variable(Variable { prefix: None, name: "y".to_string() }))]),
        call_index: 4,
    };
    BuildTree { statements: vec![call_stmt(assign, 3)], definitions: vec![def] }
}

#[test]
fn test_build_unbundle_argument_transit() {
    let f = func_def(
        vec![OrBundle::Bundle("p".to_string())],
        vec![],
        vec![OrBundle::Normal(BTExpression::Variable(prefixed("p", "x")))],
    );
    let tree = bundle_argument_tree(BTDefinition::Func(f));
    let t = build_unbundle(&tree).unwrap();
    assert_eq!(t.get(&[4, 5], &Position::Arg(0)).unwrap(), &["x".to_string()]);
    assert_eq!(t.keys(), vec![(vec![4, 5], Position::Arg(0))]);
}

#[test]
fn test_build_unbundle_errors_located() {
    let p = func_def(vec![], vec![], vec![]);
    let tree = bundle_argument_tree(BTDefinition::Proc(p));
    assert_eq!(build_unbundle(&tree).unwrap_err(), "expected function, got non-function at main.earp:3");
    // a function whose result calls itself
    let looping = BTExpression::Function(BTFuncCall { func_index: 0, args: vec![], call_index: 7 });
    let f = func_def(vec![], vec![], vec![OrBundle::Normal(looping)]);
    let tree = bundle_argument_tree(BTDefinition::Func(f));
    assert_eq!(build_unbundle(&tree).unwrap_err(), "recursive definition at main.earp:3");
}

#[test]
fn test_build_unbundle_returned_bundle() {
    // procedure g() -> *r { let r.a = 1; } called as `*out = g();`, then `out.a` used
    let inner = BTProcCall {
        proc_index: None,
        args: vec![OrBundleRepeater::Normal(BTExpression::Constant(earp::model::Constant::Boolean(true)))],
        rets: Some(vec![OrBundleRepeater::Normal(BTLValue::Variable(prefixed("r", "a")))]),
        call_index: 1,
    };
    let g = func_def(vec![], vec![call_stmt(inner, 10)], vec![OrBundle::Bundle("r".to_string())]);
    let outer = BTProcCall {
        proc_index: Some(0),
        args: vec![],
        rets: Some(vec![OrBundleRepeater::Bundle("out".to_string())]),
        call_index: 2,
    };
    let use_it = BTProcCall {
        proc_index: None,
        args: vec![OrBundleRepeater::Normal(BTExpression::Variable(prefixed("out", "a")))],
        rets: Some(vec![OrBundleRepeater::Normal(BTLValue::Variable(Variable { prefix: None, name: "z".to_string() }))]),
        call_index: 3,
    };
    let tree = BuildTree {
        statements: vec![call_stmt(outer, 1), call_stmt(use_it, 2)],
        definitions: vec![BTDefinition::Proc(g)],
    };
    let t = build_unbundle(&tree).unwrap();
    assert_eq!(t.get(&[2], &Position::Return(0)).unwrap(), &["a".to_string()]);
    let mut u = BuildUnbundle::new();
    assert!(u.statement(&tree, &tree.statements[1]).is_ok());
    assert_eq!(u.return_bundles(match &tree.statements[0].value {
        BTStatementValue::BundledStatement(s) => s,
        _ => unreachable!(),
    }), vec![Some(vec!["a".to_string()])]);
}

fn assign(args: Vec<OrBundleRepeater<BTExpression>>, rets: Vec<OrBundleRepeater<BTLValue>>, call_index: usize) -> BTProcCall<OrBundleRepeater<BTLValue>> {
    BTProcCall { proc_index: None, args, rets: Some(rets), call_index }
}

fn one() -> OrBundleRepeater<BTExpression> {
    OrBundleRepeater::Normal(BTExpression::Constant(earp::model::Constant::Boolean(true)))
}

/// `procedure p(*b) { let y = b.x; }` called as `let q.x = ...; p(*q);`:
/// the bundle `q` carries `x` into the call.
#[test]
fn test_bundle_smoke() {
    let inner = assign(
        vec![OrBundleRepeater::Normal(BTExpression::Variable(prefixed("b", "x")))],
        vec![OrBundleRepeater::Normal(BTLValue::Variable(Variable { prefix: None, name: "y".to_string() }))],
        3,
    );
    let p = func_def(vec![OrBundle::Bundle("b".to_string())], vec![call_stmt(inner, 20)], vec![]);
    let set = assign(vec![one()], vec![OrBundleRepeater::Normal(BTLValue::Variable(prefixed("q", "x")))], 1);
    let call = BTProcCall { proc_index: Some(0), args: vec![OrBundleRepeater::Bundle("q".to_string())], rets: None, call_index: 2 };
    let tree = BuildTree { statements: vec![call_stmt(set, 1), call_stmt(call, 2)], definitions: vec![BTDefinition::Proc(p)] };
    let t = build_unbundle(&tree).unwrap();
    assert_eq!(t.keys(), vec![(vec![2], Position::Arg(0))]);
    assert_eq!(t.get(&[2], &Position::Arg(0)).unwrap(), &["x".to_string()]);
}

/// `function a() { let a.a = 1; *a }`, `function b() { a() }`, then
/// `*x = b(); let z = x.a;`: b returns a bundle only through a, and the
/// name `a` is carried out of both.
#[test]
fn test_bundle_inch() {
    let set = assign(vec![one()], vec![OrBundleRepeater::Normal(BTLValue::Variable(prefixed("a", "a")))], 1);
    let a = func_def(vec![], vec![call_stmt(set, 10)], vec![OrBundle::Bundle("a".to_string())]);
    let call_a = BTExpression::Function(BTFuncCall { func_index: 0, args: vec![], call_index: 2 });
    let b = func_def(vec![], vec![], vec![OrBundle::Normal(call_a)]);
    let call_b = BTExpression::Function(BTFuncCall { func_index: 1, args: vec![], call_index: 3 });
    let top = assign(vec![OrBundleRepeater::Normal(call_b)], vec![OrBundleRepeater::Bundle("x".to_string())], 4);
    let use_x = assign(
        vec![OrBundleRepeater::Normal(BTExpression::Variable(prefixed("x", "a")))],
        vec![OrBundleRepeater::Normal(BTLValue::Variable(Variable { prefix: None, name: "z".to_string() }))],
        5,
    );
    let tree = BuildTree {
        statements: vec![call_stmt(top, 1), call_stmt(use_x, 2)],
        definitions: vec![BTDefinition::Func(a), BTDefinition::Func(b)],
    };
    let t = build_unbundle(&tree).unwrap();
    let mut keys = t.keys();
    keys.sort();
    assert_eq!(keys, vec![
        (vec![4], Position::Arg(0)),
        (vec![4], Position::Return(0)),
        (vec![4, 3], Position::Return(0)),
        (vec![4, 3, 2], Position::Return(0)),
    ]);
    for k in keys {
        assert_eq!(t.get(&k.0, &k.1).unwrap(), &["a".to_string()]);
    }
}
