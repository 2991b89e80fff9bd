use flboot::model::{config_path, filter_only, objects_path, strip_json_comments, LibEntry, Objects};
use indexmap::IndexMap;

#[test]
fn strips_line_and_block_comments() {
    let input = "{\n  // a comment\n  \"a\": 1, /* inline */ \"b\": 2\n}";
    let stripped = strip_json_comments(input);
    let value: serde_json::Value = serde_json::from_str(&stripped).unwrap();
    assert_eq!(value["a"], 1);
    assert_eq!(value["b"], 2);
}

#[test]
fn leaves_slashes_inside_strings_alone() {
    let input = r#"{ "url": "http://example.com" }"#;
    let stripped = strip_json_comments(input);
    let value: serde_json::Value = serde_json::from_str(&stripped).unwrap();
    assert_eq!(value["url"], "http://example.com");
}

fn lib(name: &str) -> LibEntry {
    LibEntry {
        progress_category: name.to_string(),
        cflags: name.to_string(),
        idapro: "x".to_string(),
        delink: None,
        binary: None,
        objects: IndexMap::new(),
    }
}

fn libs(names: &[&str]) -> Objects {
    let mut objects = Objects::new();
    for name in names {
        objects.insert(name.to_string(), lib(name));
    }
    objects
}

#[test]
fn filter_only_keeps_wanted_and_warns_on_missing() {
    let objects = libs(&["A.dll", "B.dll"]);
    let (filtered, warning) = filter_only(objects, &vec!["A.dll".to_string(), "Z.dll".to_string()]);
    assert_eq!(filtered.keys().collect::<Vec<_>>(), vec!["A.dll"]);
    assert_eq!(warning.unwrap(), "--only names not in objects.json: Z.dll");
}

#[test]
fn filter_only_keeps_the_order_of_the_libraries() {
    let objects = libs(&["c", "a", "d", "b"]);
    let only: Vec<String> = ["b", "a", "c"].iter().map(|s| s.to_string()).collect();
    let (filtered, warning) = filter_only(objects, &only);
    assert_eq!(filtered.keys().collect::<Vec<_>>(), vec!["c", "a", "b"]);
    assert!(warning.is_none());
}

#[test]
fn filter_only_without_names_keeps_everything() {
    let (filtered, warning) = filter_only(libs(&["c", "a"]), &vec![]);
    assert_eq!(filtered.len(), 2);
    assert!(warning.is_none());
}

#[test]
fn filter_only_lists_what_is_missing_in_order() {
    let only: Vec<String> = ["z", "b", "m", "b"].iter().map(|s| s.to_string()).collect();
    let (filtered, warning) = filter_only(libs(&["m"]), &only);
    assert_eq!(filtered.len(), 1);
    assert_eq!(warning.unwrap(), "--only names not in objects.json: b, b, z");
}

#[test]
fn comments_end_where_they_should() {
    assert_eq!(strip_json_comments("a // b\nc"), "a \nc");
    assert_eq!(strip_json_comments("a // b"), "a ");
    assert_eq!(strip_json_comments("a /* b *//c"), "a /c");
    assert_eq!(strip_json_comments("/*/ x */y"), "y");
    assert_eq!(strip_json_comments("/***/y"), "y");
    assert_eq!(strip_json_comments("a /* open"), "a ");
    assert_eq!(strip_json_comments("a / b"), "a / b");
    assert_eq!(strip_json_comments("/"), "/");
}

#[test]
fn an_escaped_quote_does_not_end_a_string() {
    let text = r#"{"a\"//b": "c\\" /* gone */ }"#;
    assert_eq!(strip_json_comments(text), r#"{"a\"//b": "c\\"  }"#);
    assert_eq!(strip_json_comments("\"\\"), "\"\\");
}

#[test]
fn stripping_twice_changes_nothing_more() {
    for text in ["/ /* x */ /y", "// a\n/* b */\"/*\"/", "/\"//\"/"] {
        let once = strip_json_comments(text);
        assert_eq!(strip_json_comments(&once), once);
    }
}

#[test]
fn configuration_paths() {
    assert_eq!(objects_path("id"), "config/id/objects.json");
    assert_eq!(config_path("id", None), "config/id/config.json");
    assert_eq!(config_path("id", Some("other.json")), "other.json");
}
