use earp::model::{AtomicTypeSpec, Constant, OrBundle, OrBundleRepeater, TypeRestriction, TypeSpec, sepfmt};

#[test]
fn test_repeat_smoke() {
    let n: OrBundleRepeater<u32> = OrBundleRepeater::Normal(4);
    let b: OrBundleRepeater<u32> = OrBundleRepeater::Bundle("b".to_string());
    let r: OrBundleRepeater<u32> = OrBundleRepeater::Repeater("r".to_string());
    assert!(!n.is_repeater());
    assert!(r.is_repeater());
    assert!(matches!(n.no_repeater(), Ok(OrBundle::Normal(4))));
    assert!(matches!(b.no_repeater(), Ok(OrBundle::Bundle(ref s)) if s == "b"));
    assert_eq!(r.no_repeater().unwrap_err(), "unexpected repeater");
    assert!(matches!(n.skip_repeater(), Some(OrBundle::Normal(4))));
    assert!(r.skip_repeater().is_none());
    // skip_repeater is no_repeater with the error dropped
    assert_eq!(format!("{:?}", n.skip_repeater()), format!("{:?}", n.no_repeater().ok()));
    assert_eq!(format!("{:?}", b.skip_repeater()), format!("{:?}", b.no_repeater().ok()));
    assert_eq!(format!("{:?}", r.skip_repeater()), format!("{:?}", r.no_repeater().ok()));
    assert!(matches!(n.map(|x| x * 2), OrBundleRepeater::Normal(8)));
    assert!(matches!(r.map(|x| x * 2), OrBundleRepeater::Repeater(ref s) if s == "r"));
    let failed: Result<OrBundleRepeater<u32>, String> = n.map_result(|_| Err("no".to_string()));
    assert_eq!(failed.unwrap_err(), "no");
}

#[test]
fn test_types() {
    assert!(matches!(TypeSpec::Atomic(AtomicTypeSpec::Number).as_restriction(),
        Some(TypeRestriction::Atomic(AtomicTypeSpec::Number))));
    assert!(TypeSpec::Wildcard("a".to_string()).as_restriction().is_none());
    assert!(matches!(TypeSpec::SequenceWildcard("a".to_string()).as_restriction(),
        Some(TypeRestriction::AnySequence)));
    assert_eq!(AtomicTypeSpec::Boolean.ord_key(), (0, ""));
    assert_eq!(AtomicTypeSpec::String.ord_key(), (2, ""));
    let h = AtomicTypeSpec::Handle("h".to_string());
    assert_eq!(h.ord_key(), (3, "h"));
    assert!(AtomicTypeSpec::Number.ord_key() < h.ord_key());
    assert!(Constant::String("a".to_string()).same_as(&Constant::String("a".to_string())));
    assert!(!Constant::Number(1).same_as(&Constant::Boolean(true)));
    assert!(matches!(Constant::Boolean(false).to_atomic_type(), AtomicTypeSpec::Boolean));
    assert_eq!(sepfmt(&[1, 22, 3], " ", "r"), "r1 r22 r3");
    assert_eq!(sepfmt(&[], ",", "r"), "");
}
