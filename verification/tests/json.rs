use ragnarok_stack::groups::Grants;
use ragnarok_stack::json::{json_string, quote, Json};

#[test]
fn a_string_is_quoted_with_its_escapes() {
    assert_eq!(quote("plain"), "\"plain\"");
    assert_eq!(quote("a \"b\" \\ c\nd"), "\"a \\\"b\\\" \\\\ c\\nd\"");
    assert_eq!(quote("\u{1}"), "\"\\u0001\"");
}

#[test]
fn a_value_is_written_compactly() {
    let v = Json::Object(vec![
        ("a".to_string(), Json::Array(vec![Json::Number("1".to_string()), Json::Bool(true), Json::Null])),
        ("b".to_string(), Json::Str("x".to_string())),
    ]);
    assert_eq!(json_string(&v), "{\"a\":[1,true,null],\"b\":\"x\"}");
}

#[test]
fn a_member_is_found_by_its_key() {
    let v = Json::Object(vec![("k".to_string(), Json::Str("v".to_string()))]);
    assert_eq!(v.str_of("k"), Some("v"));
    assert!(v.get("missing").is_none());
    assert!(v.is_object());
    assert!(!Json::Null.is_object());
    assert!(Json::Null.get("k").is_none());
}

#[test]
fn a_grant_repeated_by_a_later_copy_is_left_out() {
    let header = "Header:\n  Type: PLAYER_GROUP_DB\n  Version: 1\n\nBody:\n";
    let mut grants = Grants::stock();
    let (first, notes) = grants.dedupe(&format!("{header}  - Id: 0\n    Commands:\n      autoloot: true\n"), "a");
    assert!(first.contains("autoloot: true"));
    assert!(notes.is_empty());
    let (second, notes) = grants.dedupe(&format!("{header}  - Id: 0\n    Commands:\n      autoloot: true\n      go: true\n"), "b");
    assert!(!second.contains("autoloot"), "{second}");
    assert!(second.contains("go: true"), "{second}");
    assert_eq!(notes.len(), 1);
    assert!(notes[0].contains("b gives group 0 @autoloot, which a already gives it"), "{}", notes[0]);
}

#[test]
fn a_grant_taken_away_and_given_again_is_held_once() {
    let header = "Header:\n  Type: PLAYER_GROUP_DB\n  Version: 1\n\nBody:\n";
    let mut grants = Grants::stock();
    let (_, notes) = grants.dedupe(&format!("{header}  - Id: 0\n    Commands:\n      go: true\n"), "a");
    assert!(notes.is_empty());
    let (_, notes) = grants.dedupe(&format!("{header}  - Id: 0\n    Commands:\n      go: false\n"), "b");
    assert!(notes.is_empty(), "{notes:?}");
    let (kept, notes) = grants.dedupe(&format!("{header}  - Id: 0\n    Commands:\n      go: true\n"), "c");
    assert!(notes.is_empty(), "{notes:?}");
    assert!(kept.contains("go: true"));
    let (_, notes) = grants.dedupe(&format!("{header}  - Id: 0\n    Commands:\n      go: true\n"), "d");
    assert_eq!(notes.len(), 1, "{notes:?}");
    let (_, notes) = grants.dedupe(&format!("{header}  - Id: 1\n    Commands:\n      go: false\n"), "e");
    assert!(notes[0].contains("e takes @go away from group 1, which does not have it"), "{notes:?}");
}
