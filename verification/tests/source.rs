use earp::position::ParsePosition;
use earp::source::{FixedSourceSource, SourceSourceImpl};

fn sources() -> FixedSourceSource {
    FixedSourceSource::new(vec![
        ("main".to_string(), "include \"lib\";".to_string()),
        ("lib".to_string(), "old".to_string()),
        ("lib".to_string(), "code x();".to_string()),
    ])
}

#[test]
fn test_fixed_source_lookup() {
    let pos = ParsePosition::new("main", "included");
    let s = sources();
    let (inner, text) = s.lookup(&pos, "main").unwrap();
    assert_eq!(text, "include \"lib\";");
    let (_, lib) = inner.lookup(&pos, "lib").unwrap();
    assert_eq!(lib, "code x();");
    assert_eq!(s.lookup(&pos, "nowhere").err().unwrap(), "cannot find 'nowhere'");
    let wrapped = SourceSourceImpl::new(sources());
    assert_eq!(wrapped.lookup(&pos, "lib").ok().unwrap().1, "code x();");
    assert_eq!(wrapped.lookup(&pos, "x").err().unwrap(), "cannot find 'x'");
}
