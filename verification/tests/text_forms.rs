use json_signature::digest::to_lower_hex;
use json_signature::notation::Notation;
use json_signature::text::pair_text;
use json_signature::{notation_within, signature, signature_within, SignatureError, Value};

fn number(literal: &str) -> Value {
    Value::Number(literal.to_string())
}

fn string(content: &str) -> Value {
    Value::String(content.to_string())
}

fn tree_of(outside: &serde_json::Value) -> Value {
    match outside {
        serde_json::Value::Null => Value::Null,
        serde_json::Value::Bool(b) => Value::Bool(*b),
        serde_json::Value::Number(n) => Value::Number(n.to_string()),
        serde_json::Value::String(s) => Value::String(s.clone()),
        serde_json::Value::Array(items) => Value::Array(items.iter().map(tree_of).collect()),
        serde_json::Value::Object(entries) => Value::Object(
            entries
                .iter()
                .map(|(key, value)| (key.clone(), tree_of(value)))
                .collect(),
        ),
    }
}

fn nested(levels: usize) -> Value {
    let mut value = Value::Null;
    for _ in 0..levels {
        value = Value::Array(vec![value]);
    }
    value
}

#[test]
fn minified_text_of_scalars() {
    assert_eq!(Value::Null.to_string(), "null");
    assert_eq!(Value::Bool(true).to_string(), "true");
    assert_eq!(Value::Bool(false).to_string(), "false");
    assert_eq!(number("-1.50e3").to_string(), "-1.50e3");
    assert_eq!(string("abc").to_string(), "\"abc\"");
    assert_eq!(string("").to_string(), "\"\"");
}

#[test]
fn minified_text_of_composites() {
    assert_eq!(Value::Array(vec![]).to_string(), "[]");
    assert_eq!(Value::Object(vec![]).to_string(), "{}");
    assert_eq!(Value::Array(vec![number("1")]).to_string(), "[1]");
    assert_eq!(
        Value::Array(vec![number("1"), Value::Null, string("a")]).to_string(),
        "[1,null,\"a\"]"
    );
    assert_eq!(
        Value::Object(vec![
            ("b".to_string(), Value::Array(vec![Value::Bool(true)])),
            ("a".to_string(), Value::Object(vec![("c".to_string(), Value::Null)])),
        ])
        .to_string(),
        "{\"a\":{\"c\":null},\"b\":[true]}"
    );
}

#[test]
fn minified_text_escapes_what_a_string_may_not_hold() {
    assert_eq!(string("a\"b").to_string(), "\"a\\\"b\"");
    assert_eq!(string("a\\b").to_string(), "\"a\\\\b\"");
    assert_eq!(
        string("\u{8}\u{c}\n\r\t").to_string(),
        "\"\\b\\f\\n\\r\\t\""
    );
    assert_eq!(string("\u{0}").to_string(), "\"\\u0000\"");
    assert_eq!(string("\u{1f}").to_string(), "\"\\u001f\"");
    assert_eq!(string("\u{b}").to_string(), "\"\\u000b\"");
    assert_eq!(string("\u{7f}/ \u{e9}\u{1f600}").to_string(), "\"\u{7f}/ \u{e9}\u{1f600}\"");
}

#[test]
fn minified_text_agrees_with_serde_json() {
    let documents = [
        r#"null"#,
        r#"[1, 2.5, -3, 1e10, "a\"b\\c\n\u0001\u001f\u007f", true, false, null]"#,
        r#"{"z": [], "a": {}, "m": {"k": [1, {"x": "y"}]}, "\t": "\u00e9\ud83d\ude00"}"#,
        r#"[[[[]]], [{"a": [{"b": null}]}]]"#,
        r#""plain""#,
    ];
    for document in documents {
        let outside: serde_json::Value = serde_json::from_str(document).expect("a document");
        assert_eq!(tree_of(&outside).to_string(), outside.to_string());
    }
}

#[test]
fn entries_are_written_in_the_order_of_the_character_codes() {
    let keys = ["\u{10000}", "z", "\u{ffff}", "", "Z", "\u{e9}", "a", "aa", "\u{7f}", "\u{80}"];
    let entries: Vec<(String, Value)> =
        keys.iter().map(|key| (key.to_string(), Value::Null)).collect();
    assert_eq!(
        Value::Object(entries.clone()).to_string(),
        "{\"\":null,\"Z\":null,\"a\":null,\"aa\":null,\"z\":null,\"\u{7f}\":null,\
         \"\u{80}\":null,\"\u{e9}\":null,\"\u{ffff}\":null,\"\u{10000}\":null}"
    );
    let mut map = serde_json::Map::new();
    for key in keys {
        map.insert(key.to_string(), serde_json::Value::Null);
    }
    assert_eq!(
        Value::Object(entries).to_string(),
        serde_json::Value::Object(map).to_string()
    );
}

#[test]
fn every_character_below_u0080_is_escaped_as_serde_json_does() {
    for code in 0u32..0x80 {
        let content: String = char::from_u32(code).into_iter().collect();
        let outside = serde_json::Value::String(content.clone()).to_string();
        assert_eq!(Value::String(content).to_string(), outside);
    }
}

#[test]
fn pair_text_is_the_text_of_a_two_item_array() {
    assert_eq!(pair_text(&"a".to_string(), &number("1")), "[\"a\",1]");
    assert_eq!(
        pair_text(&"k\"".to_string(), &Value::Array(vec![])),
        "[\"k\\\"\",[]]"
    );
    assert_eq!(
        pair_text(&"a".to_string(), &number("1")),
        Value::Array(vec![string("a"), number("1")]).to_string()
    );
}

#[test]
fn notation_of_strings_and_booleans_alone() {
    assert_eq!("abc".to_string().notate(), "abcS");
    assert_eq!(String::new().notate(), "S");
    assert_eq!(true.notate(), "trueB");
    assert_eq!(false.notate(), "falseB");
}

#[test]
fn notation_of_empty_composites() {
    assert_eq!(Value::Array(vec![]).notate(), "A");
    assert_eq!(Value::Object(vec![]).notate(), "H");
    assert_eq!(Value::Array(vec![Value::Array(vec![])]).notate(), "AA");
    assert_eq!(
        Value::Object(vec![("".to_string(), Value::Object(vec![]))]).notate(),
        "SHAH"
    );
}

#[test]
fn a_parsed_number_keeps_its_literal() {
    for literal in ["1.20", "1.0", "-0", "-0.000", "1e+10", "2e-3", "0.10000000000000000000000001"]
    {
        let outside: serde_json::Value = serde_json::from_str(literal).expect("a number");
        assert_eq!(tree_of(&outside), number(literal));
        assert_eq!(tree_of(&outside).notate(), format!("{}N", literal));
    }
    let outside: serde_json::Value = serde_json::from_str("[1.20, 1.2]").expect("an array");
    assert_eq!(tree_of(&outside).notate(), "1.2N1.20NA");
    let outside: serde_json::Value = serde_json::from_str("1E10").expect("a number");
    assert_eq!(tree_of(&outside), number("1e+10"));
}

#[test]
fn notation_keeps_the_literal_of_a_number() {
    assert_eq!(number("1.0").notate(), "1.0N");
    assert_eq!(number("1.20").notate(), "1.20N");
    assert_eq!(number("-0").notate(), "-0N");
}

#[test]
fn notation_tells_the_kinds_apart() {
    assert_eq!(number("1").notate(), "1N");
    assert_eq!(string("1").notate(), "1S");
    assert_eq!(number("1.0").notate(), "1.0N");
    assert_eq!(string("true").notate(), "trueS");
    assert_eq!(string("_").notate(), "_S");
    assert_ne!(signature(number("1")), signature(string("1")));
    assert_ne!(signature(string("1")), signature(number("1.0")));
    assert_ne!(signature(number("1")), signature(number("1.0")));
    assert_ne!(signature(Value::Array(vec![])), signature(Value::Object(vec![])));
}

#[test]
fn a_pair_is_sorted_like_any_array() {
    let value_first = Value::Object(vec![("b".to_string(), string("a"))]);
    assert_eq!(value_first.notate(), "aSbSAH");
    let key_first = Value::Object(vec![("a".to_string(), string("b"))]);
    assert_eq!(key_first.notate(), "aSbSAH");
    let null_value = Value::Object(vec![("a".to_string(), Value::Null)]);
    assert_eq!(null_value.notate(), "_aSAH");
    let tie = Value::Object(vec![("1".to_string(), number("1"))]);
    assert_eq!(tie.notate(), "1S1NAH");
}

#[test]
fn notation_sorts_at_every_level() {
    let value = Value::Array(vec![
        Value::Array(vec![string("b"), string("a")]),
        Value::Object(vec![
            ("y".to_string(), Value::Array(vec![number("2"), number("1")])),
            ("x".to_string(), Value::Null),
        ]),
    ]);
    assert_eq!(value.notate(), "aSbSA_xSA1N2NAySAHA");
}

#[test]
fn lower_hex_of_bytes() {
    assert_eq!(to_lower_hex(&[]), "");
    assert_eq!(to_lower_hex(&[0x00, 0x0f, 0xf0, 0xff, 0x1a, 0xa1, 0x9c]), "000ff0ff1aa19c");
}

#[test]
fn signature_is_thirty_two_lower_case_digits() {
    let values = [
        Value::Null,
        string(""),
        Value::Array(vec![number("1"), string("\u{1f600}")]),
        Value::Object(vec![("k".to_string(), Value::Bool(false))]),
    ];
    for value in values {
        let hex = signature(value);
        assert_eq!(hex.len(), 32);
        assert!(hex.chars().all(|c| c.is_ascii_digit() || ('a'..='f').contains(&c)));
    }
}

#[test]
fn signature_is_the_md5_of_the_notation() {
    assert_eq!(signature(Value::Null), "b14a7b8059d9c055954c92674ce60032");
    assert_eq!(signature(Value::Array(vec![])), "7fc56270e7a70fa81a5935b72eacbe29");
    let value = Value::Array(vec![string("\u{e9}")]);
    assert_eq!(value.notate(), "\u{e9}SA");
    assert_eq!(signature(value), format!("{:x}", md5::compute("\u{e9}SA".as_bytes())));
}

#[test]
fn depth_counts_arrays_and_objects() {
    assert!(Value::Null.fits_depth(0));
    assert!(string("a").fits_depth(0));
    assert!(!Value::Array(vec![]).fits_depth(0));
    assert!(Value::Array(vec![]).fits_depth(1));
    assert!(!Value::Object(vec![]).fits_depth(0));
    assert!(Value::Object(vec![]).fits_depth(1));
    assert!(!nested(3).fits_depth(2));
    assert!(nested(3).fits_depth(3));
    assert!(nested(3).fits_depth(usize::MAX));
    let mixed = Value::Array(vec![
        number("1"),
        Value::Object(vec![("k".to_string(), Value::Array(vec![]))]),
    ]);
    assert!(!mixed.fits_depth(2));
    assert!(mixed.fits_depth(3));
}

#[test]
fn notation_within_the_limit() {
    assert_eq!(notation_within(&Value::Null, 0), Ok("_".to_string()));
    assert_eq!(notation_within(&Value::Array(vec![]), 1), Ok("A".to_string()));
    assert_eq!(notation_within(&nested(3), 3), Ok("_AAA".to_string()));
    assert_eq!(notation_within(&nested(3), 128), Ok(nested(3).notate()));
}

#[test]
fn notation_beyond_the_limit() {
    assert_eq!(notation_within(&Value::Array(vec![]), 0), Err(SignatureError::TooDeep));
    assert_eq!(notation_within(&nested(3), 2), Err(SignatureError::TooDeep));
    let deep = nested(1_000_000);
    assert_eq!(notation_within(&deep, 128), Err(SignatureError::TooDeep));
    std::mem::forget(deep);
}

#[test]
fn signature_within_the_limit() {
    assert_eq!(
        signature_within(&Value::Null, 0),
        Ok("b14a7b8059d9c055954c92674ce60032".to_string())
    );
    assert_eq!(signature_within(&nested(5), 5), Ok(signature(nested(5))));
    assert_eq!(signature_within(&nested(5), 128), Ok(signature(nested(5))));
}

#[test]
fn signature_beyond_the_limit() {
    assert_eq!(signature_within(&Value::Array(vec![]), 0), Err(SignatureError::TooDeep));
    assert_eq!(signature_within(&nested(6), 5), Err(SignatureError::TooDeep));
    let object = Value::Object(vec![("k".to_string(), Value::Object(vec![]))]);
    assert_eq!(signature_within(&object, 1), Err(SignatureError::TooDeep));
}

#[test]
fn signature_of_a_very_deep_value_fails_fast() {
    let deep = nested(1_000_000);
    assert_eq!(signature_within(&deep, 128), Err(SignatureError::TooDeep));
    assert!(!deep.fits_depth(1_000));
    std::mem::forget(deep);
}

#[test]
fn distinct_keys_make_a_value_well_formed() {
    assert!(Value::Null.is_well_formed());
    assert!(Value::Object(vec![]).is_well_formed());
    assert!(Value::Object(vec![
        ("a".to_string(), Value::Null),
        ("A".to_string(), Value::Null),
        ("".to_string(), Value::Null),
    ])
    .is_well_formed());
    assert!(Value::Array(vec![number("1"), number("1")]).is_well_formed());
}

#[test]
fn a_repeated_key_makes_a_value_ill_formed() {
    let repeated = Value::Object(vec![
        ("a".to_string(), number("1")),
        ("b".to_string(), number("2")),
        ("a".to_string(), number("3")),
    ]);
    assert!(!repeated.is_well_formed());
    assert!(!Value::Array(vec![Value::Null, repeated.clone()]).is_well_formed());
    assert!(!Value::Object(vec![("k".to_string(), repeated)]).is_well_formed());
}

#[test]
fn a_copy_is_equal_and_apart() {
    let value = Value::Object(vec![
        ("k".to_string(), Value::Array(vec![number("1"), string("a"), Value::Null])),
        ("l".to_string(), Value::Bool(true)),
    ]);
    let copy = value.clone();
    assert_eq!(copy, value);
    drop(value);
    assert_eq!(copy.notate(), "_1NaSAkSAlStrueBAH");
}
