use earp::model::{
    ArgTypeSpec, AtomicTypeSpec, Check, CheckType, CodeArgument, CodeImplVariable, CodeModifier, CodeReturn, Opcode,
    TypeRestriction, TypeSpec, TypedArgument, Variable,
};

fn check(ct: CheckType, name: &str) -> Check {
    Check { check_type: ct, name: name.to_string(), force: false }
}

#[test]
fn test_render_types() {
    assert_eq!(AtomicTypeSpec::Handle("file".to_string()).to_text(), "handle(file)");
    assert_eq!(TypeRestriction::Sequence(AtomicTypeSpec::Boolean).to_text(), "seq(boolean)");
    assert_eq!(TypeRestriction::AnySequence.to_text(), "seq");
    assert_eq!(TypeSpec::SequenceWildcard("a".to_string()).to_text(), "seq(?a)");
    assert_eq!(TypeSpec::Wildcard("b".to_string()).to_text(), "?b");
    assert_eq!(TypeSpec::Atomic(AtomicTypeSpec::String).to_text(), "string");
}

#[test]
fn test_render_checks_and_arguments() {
    assert_eq!(check(CheckType::LengthOrInfinite, "n").to_text(), "length(n...)");
    assert_eq!(check(CheckType::Reference, "r").to_text(), "ref(r)");
    assert_eq!(check(CheckType::Sum, "s").to_text(), "total(s)");
    let arg = CodeArgument {
        arg_type: TypeSpec::Sequence(AtomicTypeSpec::Number),
        checks: vec![check(CheckType::Length, "a"), check(CheckType::Sum, "b")],
    };
    assert_eq!(arg.to_text(), "seq(number) length(a) total(b)");
    let spec = ArgTypeSpec {
        arg_types: vec![TypeSpec::Atomic(AtomicTypeSpec::Number), TypeSpec::Atomic(AtomicTypeSpec::String)],
        checks: vec![check(CheckType::Length, "a")],
    };
    assert_eq!(spec.to_text(), "number|string length(a)");
    let typed = TypedArgument { id: "x".to_string(), typespec: spec };
    assert_eq!(typed.to_text(), "x: number|string length(a)");
    let bare = TypedArgument { id: "y".to_string(), typespec: ArgTypeSpec { arg_types: vec![], checks: vec![] } };
    assert_eq!(bare.to_text(), "y");
}

#[test]
fn test_render_code_parts() {
    assert_eq!(CodeModifier::World.to_text(), "world");
    assert_eq!(CodeModifier::Fold("f".to_string()).to_text(), "fold(f)");
    let v = Variable { prefix: Some("b".to_string()), name: "x".to_string() };
    assert_eq!(v.to_text(), "b.x");
    assert_eq!(Variable { prefix: None, name: "z".to_string() }.to_text(), "z");
    let r = CodeImplVariable { reg_id: 3, arg_type: TypeSpec::Atomic(AtomicTypeSpec::Number) };
    assert_eq!(r.to_text(), "r3 : number");
    assert_eq!(CodeReturn::Repeat(7).to_text(), "r7");
    assert_eq!(CodeReturn::Register(r).to_text(), "r3 : number");
    assert_eq!(Opcode(4, vec![1, 2]).to_text(), "opcode 4, r1, r2;");
    assert_eq!(Opcode(9, vec![]).to_text(), "opcode 9;");
}
