use bettercurl::kv::{
    join_strings, parse_body_args, parse_form_args, parse_key_value, split_whitespace, FieldMap,
};

fn pair(k: &str, v: &str) -> Option<(String, String)> {
    Some((k.to_string(), v.to_string()))
}

fn strings(v: &[&str]) -> Vec<String> {
    v.iter().map(|s| s.to_string()).collect()
}

#[test]
fn key_value_splits_at_first_equals() {
    assert_eq!(parse_key_value("name=John"), pair("name", "John"));
    assert_eq!(parse_key_value("a=b=c"), pair("a", "b=c"));
    assert_eq!(parse_key_value("=x"), pair("", "x"));
    assert_eq!(parse_key_value("k="), pair("k", ""));
    assert_eq!(parse_key_value(" spaced = kept "), pair(" spaced ", " kept "));
}

#[test]
fn key_value_equals_wins_over_colon() {
    assert_eq!(parse_key_value("a:b=c"), pair("a:b", "c"));
}

#[test]
fn key_value_colon_form_is_trimmed() {
    assert_eq!(
        parse_key_value("Content-Type: application/json"),
        pair("Content-Type", "application/json")
    );
    assert_eq!(parse_key_value("  k :  v \t"), pair("k", "v"));
    assert_eq!(parse_key_value("Authorization:Bearer a:b"), pair("Authorization", "Bearer a:b"));
    assert_eq!(parse_key_value("\u{3000}x\u{3000}:\u{a0}y"), pair("x", "y"));
}

#[test]
fn key_value_without_separator_is_none() {
    assert_eq!(parse_key_value("novalue"), None);
    assert_eq!(parse_key_value(""), None);
}

#[test]
fn body_args_later_key_wins_and_non_pairs_skipped() {
    let m = parse_body_args(&strings(&["name=John", "age=30", "junk", "name=Jane"]));
    assert_eq!(serde_json::Value::Object(m).to_string(), "{\"age\":\"30\",\"name\":\"Jane\"}");
}

#[test]
fn form_args_later_key_wins_in_place() {
    let m = parse_form_args(&strings(&["name=John", "age=30", "junk", "name=Jane"]));
    assert_eq!(m.len(), 2);
    let e = m.entries();
    assert_eq!(e[0], ("name".to_string(), "Jane".to_string()));
    assert_eq!(e[1], ("age".to_string(), "30".to_string()));
}

#[test]
fn field_map_insert_replaces_in_place() {
    let mut m = FieldMap::new();
    assert_eq!(m.len(), 0);
    m.insert("a".to_string(), "1".to_string());
    m.insert("b".to_string(), "2".to_string());
    m.insert("a".to_string(), "3".to_string());
    assert_eq!(m.len(), 2);
    assert_eq!(
        m.entries().clone(),
        vec![("a".to_string(), "3".to_string()), ("b".to_string(), "2".to_string())]
    );
}

#[test]
fn split_whitespace_matches_std() {
    for s in [" a  b\tc\n", "", "   ", "one", "x\u{3000}y\u{2028}z", "  lead", "trail  "] {
        let expected: Vec<String> = s.split_whitespace().map(String::from).collect();
        assert_eq!(split_whitespace(s), expected, "input {:?}", s);
    }
}

#[test]
fn join_strings_puts_separator_between() {
    assert_eq!(join_strings(&strings(&[]), " "), "");
    assert_eq!(join_strings(&strings(&["a"]), " "), "a");
    assert_eq!(join_strings(&strings(&["a", "b", "c"]), ", "), "a, b, c");
}
