use json_signature::{sorter, Value};

fn tree_from(parsed: &serde_json::Value) -> Value {
    match parsed {
        serde_json::Value::Null => Value::Null,
        serde_json::Value::Bool(b) => Value::Bool(*b),
        serde_json::Value::Number(n) => Value::Number(n.to_string()),
        serde_json::Value::String(s) => Value::String(s.clone()),
        serde_json::Value::Array(items) => Value::Array(items.iter().map(tree_from).collect()),
        serde_json::Value::Object(entries) => Value::Object(
            entries
                .iter()
                .map(|(key, value)| (key.clone(), tree_from(value)))
                .collect(),
        ),
    }
}

fn json_from(input: &str) -> Value {
    tree_from(&serde_json::from_str(input).expect("Invalid JSON"))
}

#[test]
fn sorter_of_data() {
    let data: Value = json_from(
        r#"[7, ["b", 2], [4, "b"], [1, 2], ["c", "b"], "c", 3, [2, "a"], [3, 2], ["a", 1]]"#,
    );
    let result: Value = sorter(data);
    let expected: Value = json_from(
        r#"[3, 7, ["a", 1], ["b", 2], ["c", "b"], [1, 2], [2, "a"], [3, 2], [4, "b"], "c"]"#,
    );
    assert_eq!(result, expected);
}

#[test]
fn sort_short_array_of_data() {
    let data: Value = json_from(r#"[["c", "b"], ["a", 1]]"#);
    let result: Value = sorter(data);
    let expected: Value = json_from(r#"[["a", 1], ["c", "b"]]"#);
    assert_eq!(result, expected);
}

#[test]
fn sort_array_of_simple_values() {
    let data: Value = json_from(r#"["a", 1]"#);
    let result: Value = sorter(data);
    let expected: Value = json_from(r#"[1, "a"]"#);
    assert_eq!(result, expected);
}

#[test]
fn sort_array_of_simple_numbers() {
    let data: Value = json_from(r#"[2, 1]"#);
    let result: Value = sorter(data);
    let expected: Value = json_from(r#"[1, 2]"#);
    assert_eq!(result, expected);
}

#[test]
fn sort_array_of_simple_strings() {
    let data: Value = json_from(r#"["b", "a"]"#);
    let result: Value = sorter(data);
    let expected: Value = json_from(r#"["a", "b"]"#);
    assert_eq!(result, expected);
}

#[test]
fn sort_array_of_simple_items() {
    let data: Value = json_from(r#"[[1], "c", ["b"]]"#);
    let result: Value = sorter(data);
    let expected: Value = json_from(r#"[["b"], [1], "c"]"#);
    assert_eq!(result, expected);
}

#[test]
fn sort_floating_point() {
    let data: Value = json_from(r#"[7.1, 3.2, 1.6]"#);
    let result: Value = sorter(data);
    let expected: Value = json_from(r#"[1.6, 3.2, 7.1]"#);
    assert_eq!(result, expected);
}

#[test]
fn sort_array_of_same_values_different_types() {
    let data: Value = json_from(r#"[1, "1", 2, "2"]"#);
    let result: Value = sorter(data);
    let expected: Value = json_from(r#"[1, "1", 2, "2"]"#);
    assert_eq!(result, expected);
}

#[test]
fn sort_array_of_simple_top_level_values() {
    let data: Value = json_from(r#"[3, null, 1, "1"]"#);
    let result: Value = sorter(data);
    let expected: Value = json_from(r#"[null, 1, "1", 3]"#);
    assert_eq!(result, expected);
}

#[test]
fn sort_hash() {
    let data: Value = json_from(r#"{"a": 1}"#);
    let result: Value = sorter(data);
    let expected: Value = json_from(r#"[["a", 1]]"#);
    assert_eq!(result, expected);
}

#[test]
fn sort_nested_hash_data_structure() {
    let data: Value = json_from(r#"{"a": {"c": null, "2": 2 }}"#);
    let result: Value = sorter(data);
    let expected: Value = json_from(r#"[["a", {"2": 2, "c": null}]]"#);
    assert_eq!(result, expected);
}
