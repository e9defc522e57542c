use earp::parsetree::at;
use earp::position::{FilePosition, ParsePosition};
use earp::strings::parse_string;

#[test]
fn test_parse_constants() {
    assert_eq!(parse_string("hello").unwrap(), "hello");
    assert_eq!(parse_string("a\\nb\\tc\\rd").unwrap(), "a\nb\tc\rd");
    assert_eq!(parse_string("\\u0041\\u00e9").unwrap(), "A\u{e9}");
    assert_eq!(parse_string("\\f\\b\\0").unwrap(), "\x0C\x08\0");
    assert_eq!(parse_string("a\\fb").unwrap(), "a\u{0C}b");
    assert_eq!(parse_string("\\\"q\\\\").unwrap(), "\"q\\");
    assert_eq!(parse_string("\\q").unwrap(), "q");
    assert_eq!(parse_string("x\\ud800y").unwrap_err(), "bad unicode");
    assert_eq!(parse_string("").unwrap(), "");
}

#[test]
fn test_error_location() {
    assert_eq!(at("oops", None), "oops");
    let files = vec!["a".to_string(), "b".to_string()];
    assert_eq!(at("oops", Some((&files, 7))), "oops at b:7 (included from a)");
    let files = vec!["a".to_string(), "b".to_string(), "c".to_string()];
    assert_eq!(at("x", Some((&files, 1))), "x at c:1 (included from b, a)");
    let files: Vec<String> = vec![];
    assert_eq!(at("x", Some((&files, 12))), "x at *anon*:12");
    let files = vec!["only".to_string()];
    assert_eq!(at("x", Some((&files, 0))), "x at only:0");
}

#[test]
fn test_parse_position() {
    let pos = ParsePosition::new("a", "included").push("b").at_line(3);
    assert_eq!(pos.last_str(), "b:3");
    assert_eq!(pos.full_str(), "b:3 (included from a:0)");
    assert_eq!(pos.message("boom"), "boom at b:3 (included from a:0)");
    assert!(pos.contains("a"));
    assert!(pos.contains("b"));
    assert!(!pos.contains("c"));
    let mut deeper = pos.add(&FilePosition::new("c"));
    deeper.update(&FilePosition { filename: "d".to_string(), line_no: 9 });
    assert_eq!(deeper.full_str(), "d:9 (included from b:3) (included from a:0)");
    let anon = ParsePosition::empty("called");
    assert_eq!(anon.full_str(), "*anon*:0");
    assert_eq!(FilePosition::anon().to_text(), "*anon*:0");
}
