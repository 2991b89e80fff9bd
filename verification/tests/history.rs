use flboot::claims::{claim_pairs, first_commit, render_claims, render_total, total_claims};
use flboot::rename::{
    apply_renames, delink_path, missing_symbols, parse_renames, split_path, RenameError,
};

#[test]
fn pairs_adjacent_removed_and_added_keys() {
    let diff = "@@ -1,6 +1,6 @@\n {\n   \"x86math.dll.obj\": {\n-    \"sub_6F71DE0\": {\n+    \"_inv_sqrt_dynamic_init\": {\n       \"address\": 116854784,\n";
    let pairs = claim_pairs(diff);
    assert_eq!(pairs, vec![("sub_6F71DE0".to_string(), "_inv_sqrt_dynamic_init".to_string())]);
}

#[test]
fn ignores_unrelated_lines() {
    let diff = "@@ -1,3 +1,3 @@\n {\n-  \"address\": 1,\n+  \"address\": 2,\n }\n";
    let pairs = claim_pairs(diff);
    assert!(pairs.is_empty());
}

/// What the key pattern makes of one line, told by pairing it with a plain line
/// of the other sign.
fn key(line: &str) -> Option<String> {
    let pairs = if line.starts_with('+') {
        claim_pairs(&format!("-\"x\":{{\n{line}"))
    } else {
        claim_pairs(&format!("{line}\n+\"x\":{{"))
    };
    pairs.into_iter().next().map(|(old, new)| if line.starts_with('+') { new } else { old })
}

#[test]
fn key_lines_are_told_from_others() {
    assert_eq!(key("-\"a\":{").as_deref(), Some("a"));
    assert_eq!(key("+ \u{2003}\"a b\":\t{ ").as_deref(), Some("a b"));
    assert_eq!(key("-\"a:b{\": {").as_deref(), Some("a:b{"));
    assert_eq!(key(" \"a\": {"), None);
    assert_eq!(key("-x\"a\": {"), None);
    assert_eq!(key("-\"\": {"), None);
    assert_eq!(key("-\"a\" : {"), None);
    assert_eq!(key("-\"a\": { x"), None);
    assert_eq!(key("-\"a\": "), None);
    assert_eq!(key("-\"a"), None);
    assert_eq!(key("-\"a\": {}"), None);
    assert_eq!(key("-"), None);
}

#[test]
fn only_a_removal_before_an_addition_is_a_claim() {
    assert!(claim_pairs("+\"a\": {\n-\"b\": {").is_empty());
    assert!(claim_pairs("-\"a\": {\n\n+\"b\": {").is_empty());
    assert!(claim_pairs("-\"a\": {").is_empty());
    assert!(claim_pairs("").is_empty());
    let pairs = claim_pairs("-\"a\": {\n-\"b\": {\r\n+\"c\": {\n+\"d\": {\n");
    assert_eq!(pairs, vec![("b".to_string(), "c".to_string())]);
}

#[test]
fn the_first_commit_is_the_last_listed() {
    assert_eq!(first_commit("aaa\nbbb\n").as_deref(), Some("bbb"));
    assert_eq!(first_commit("one").as_deref(), Some("one"));
    assert_eq!(first_commit(" \n"), None);
}

#[test]
fn claims_are_reported_per_unit() {
    let pairs = vec![("a".to_string(), "b".to_string()), ("c".to_string(), "d".to_string())];
    assert_eq!(
        render_claims("u", Some(&pairs), false),
        "u: 2 claim(s) (original -> claimed):\n  a  ->  b\n  c  ->  d\n"
    );
    assert_eq!(render_claims("u", Some(&vec![]), false), "");
    assert_eq!(render_claims("u", Some(&vec![]), true), "u: 0 claim(s)\n");
    assert_eq!(render_claims("u", None, true), "u: split config not tracked in git\n");
    assert_eq!(render_claims("u", None, false), "");
    assert_eq!(render_total(17), "total: 17 claim(s)\n");
    assert_eq!(total_claims(&vec![3, 0, 4]), Some(7));
    assert_eq!(total_claims(&vec![usize::MAX, 1]), None);
}

#[test]
fn apply_renames_replaces_only_quoted_key_occurrences() {
    let text = "{\n  \"sub_6F71DE0\": {\n    \"address\": 1\n  }\n}";
    let pairs = vec![("sub_6F71DE0".to_string(), "@sub_6F71DE0@12".to_string())];
    let mut found = vec![("sub_6F71DE0".to_string(), false)];
    let updated = apply_renames(text, &pairs, &mut found).unwrap();
    assert!(updated.contains("\"@sub_6F71DE0@12\""));
    assert!(!updated.contains("\"sub_6F71DE0\""));
    assert!(found[0].1);
}

#[test]
fn apply_renames_leaves_found_false_when_symbol_absent() {
    let text = "{\n  \"other_symbol\": {}\n}";
    let pairs = vec![("sub_6F71DE0".to_string(), "@sub_6F71DE0@12".to_string())];
    let mut found = vec![("sub_6F71DE0".to_string(), false)];
    assert!(apply_renames(text, &pairs, &mut found).is_none());
    assert!(!found[0].1);
}

#[test]
fn renames_are_done_one_after_the_other() {
    let pairs = vec![("a".to_string(), "b".to_string()), ("b".to_string(), "c".to_string())];
    let mut found = vec![("a".to_string(), false), ("b".to_string(), false)];
    let updated = apply_renames("\"a\" a \"ab\" \"a\"", &pairs, &mut found).unwrap();
    assert_eq!(updated, "\"c\" a \"ab\" \"c\"");
    assert_eq!(found, vec![("a".to_string(), true), ("b".to_string(), true)]);
}

#[test]
fn only_the_first_entry_of_a_name_is_marked() {
    let pairs = vec![("a".to_string(), "x".to_string()), ("a".to_string(), "y".to_string())];
    let mut found = vec![("a".to_string(), false), ("a".to_string(), false)];
    let updated = apply_renames("\"a\"", &pairs, &mut found).unwrap();
    assert_eq!(updated, "\"x\"");
    assert_eq!(missing_symbols(&found).unwrap(), "symbol(s) not found in split or delink: a");
}

#[test]
fn missing_symbols_are_listed() {
    let found = vec![("a".to_string(), false), ("b".to_string(), true), ("c".to_string(), false)];
    assert_eq!(missing_symbols(&found).unwrap(), "symbol(s) not found in split or delink: a, c");
    assert_eq!(missing_symbols(&vec![("b".to_string(), true)]), None);
}

#[test]
fn renames_part_at_their_first_sign() {
    let pairs = parse_renames(&vec!["a=b=c".to_string(), "=".to_string()]).unwrap();
    assert_eq!(pairs, vec![("a".to_string(), "b=c".to_string()), (String::new(), String::new())]);
    assert!(matches!(parse_renames(&vec![]), Err(RenameError::Empty)));
    let bad = parse_renames(&vec!["a=b".to_string(), "c".to_string(), "d".to_string()]);
    assert!(matches!(bad, Err(RenameError::Malformed(s)) if s == "c"));
}

#[test]
fn claim_file_paths() {
    assert_eq!(split_path("id", "u.dll"), "config/id/splits/u.dll.json");
    assert_eq!(delink_path("id", "u.dll"), "config/id/delink/u.dll.delink.json");
}
