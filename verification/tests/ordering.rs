use json_signature::notation::Notation;
use json_signature::merge_sort::sort_by_key;
use json_signature::order::key_le;
use json_signature::sorter::{canonicalize, normalise_value, sorter, string_to_ascii};
use json_signature::{signature, Value};

fn number(literal: &str) -> Value {
    Value::Number(literal.to_string())
}

fn string(content: &str) -> Value {
    Value::String(content.to_string())
}

fn permutations(items: &[Value]) -> Vec<Vec<Value>> {
    if items.len() <= 1 {
        return vec![items.to_vec()];
    }
    let mut all = Vec::new();
    for chosen in 0..items.len() {
        let mut rest = items.to_vec();
        let first = rest.remove(chosen);
        for mut tail in permutations(&rest) {
            tail.insert(0, first.clone());
            all.push(tail);
        }
    }
    all
}

#[test]
fn string_to_ascii_keeps_plain_letters() {
    assert_eq!(string_to_ascii("abc".to_string()), vec![97u8, 98, 99]);
    assert_eq!(string_to_ascii(String::new()), Vec::<u8>::new());
}

#[test]
fn string_to_ascii_keeps_the_low_eight_bits() {
    assert_eq!(string_to_ascii("\u{e9}".to_string()), vec![0xe9u8]);
    assert_eq!(string_to_ascii("\u{161}".to_string()), vec![0x61u8]);
    assert_eq!(string_to_ascii("\u{1f600}".to_string()), vec![0x00u8]);
    assert_eq!(string_to_ascii("a\u{100}b".to_string()), vec![0x61u8, 0x00, 0x62]);
}

#[test]
fn key_le_is_lexicographic() {
    assert!(key_le(&vec![], &vec![]));
    assert!(key_le(&vec![], &vec![0]));
    assert!(!key_le(&vec![0], &vec![]));
    assert!(key_le(&vec![1, 2], &vec![1, 2]));
    assert!(key_le(&vec![1, 2], &vec![1, 2, 0]));
    assert!(!key_le(&vec![1, 2, 0], &vec![1, 2]));
    assert!(key_le(&vec![1, 2, 9], &vec![1, 3]));
    assert!(!key_le(&vec![1, 3], &vec![1, 2, 9]));
    assert!(key_le(&vec![b'A'], &vec![b'a']));
    assert!(!key_le(&vec![200], &vec![100]));
}

#[test]
fn sort_by_key_is_stable() {
    let items = vec![
        (vec![2u8], "first two"),
        (vec![1u8], "first one"),
        (vec![2u8], "second two"),
        (vec![], "empty"),
        (vec![1u8], "second one"),
        (vec![1u8, 0], "longer one"),
    ];
    let sorted = sort_by_key(items);
    let names: Vec<&str> = sorted.iter().map(|item| item.1).collect();
    assert_eq!(
        names,
        vec!["empty", "first one", "second one", "longer one", "first two", "second two"]
    );
}

#[test]
fn sort_by_key_agrees_with_the_standard_stable_sort() {
    let mut state: u64 = 0x2545f4914f6cdd1d;
    let mut step = || {
        state ^= state << 13;
        state ^= state >> 7;
        state ^= state << 17;
        state
    };
    for count in [1usize, 2, 3, 7, 64, 1000, 4097] {
        let mut items: Vec<(Vec<u8>, usize)> = Vec::new();
        for place in 0..count {
            let length = (step() % 4) as usize;
            let key: Vec<u8> = (0..length).map(|_| (step() % 3) as u8 * 100).collect();
            items.push((key, place));
        }
        let mut expected = items.clone();
        expected.sort_by(|a, b| a.0.cmp(&b.0));
        assert_eq!(sort_by_key(items), expected);
    }
}

#[test]
fn sort_by_key_keeps_what_is_sorted_and_turns_what_is_reversed() {
    let ascending: Vec<(Vec<u8>, usize)> = (0..300usize).map(|i| (vec![(i / 2) as u8], i)).collect();
    assert_eq!(sort_by_key(ascending.clone()), ascending);
    let descending: Vec<(Vec<u8>, usize)> =
        (0..300usize).map(|i| (vec![255 - (i / 2) as u8], i)).collect();
    let mut expected = descending.clone();
    expected.sort_by(|a, b| a.0.cmp(&b.0));
    assert_eq!(sort_by_key(descending), expected);
}

#[test]
fn sort_by_key_of_nothing_is_nothing() {
    let sorted = sort_by_key(Vec::<(Vec<u8>, u32)>::new());
    assert!(sorted.is_empty());
}

#[test]
fn normalise_value_by_kind() {
    assert_eq!(normalise_value(&Value::Null), "");
    assert_eq!(normalise_value(&string("a\"b")), "a\"b");
    assert_eq!(normalise_value(&Value::Bool(true)), "true");
    assert_eq!(normalise_value(&Value::Bool(false)), "false");
    assert_eq!(normalise_value(&number("1.20")), "1.20");
    assert_eq!(
        normalise_value(&Value::Array(vec![string("a"), number("1")])),
        "[\"a\",1]"
    );
    assert_eq!(
        normalise_value(&Value::Object(vec![("a".to_string(), number("1"))])),
        "{\"a\":1}"
    );
    assert_eq!(
        normalise_value(&Value::Object(vec![
            ("b".to_string(), number("1")),
            ("a".to_string(), number("2")),
        ])),
        "{\"a\":2,\"b\":1}"
    );
}

#[test]
fn sorter_leaves_scalars_alone() {
    assert_eq!(sorter(Value::Null), Value::Null);
    assert_eq!(sorter(Value::Bool(true)), Value::Bool(true));
    assert_eq!(sorter(number("7")), number("7"));
    assert_eq!(sorter(string("b")), string("b"));
}

#[test]
fn sorter_of_empty_composites() {
    assert_eq!(sorter(Value::Array(vec![])), Value::Array(vec![]));
    assert_eq!(sorter(Value::Object(vec![])), Value::Array(vec![]));
}

#[test]
fn sorter_sorts_one_level_only() {
    let inner = Value::Array(vec![number("2"), number("1")]);
    let sorted = sorter(Value::Array(vec![string("z"), inner.clone()]));
    assert_eq!(sorted, Value::Array(vec![inner, string("z")]));
}

#[test]
fn sorter_sorts_the_pairs_of_an_object() {
    let object = Value::Object(vec![
        ("b".to_string(), number("1")),
        ("a".to_string(), number("2")),
    ]);
    let expected = Value::Array(vec![
        Value::Array(vec![string("a"), number("2")]),
        Value::Array(vec![string("b"), number("1")]),
    ]);
    assert_eq!(sorter(object), expected);
}

#[test]
fn sorter_orders_pairs_by_their_text_not_by_their_keys() {
    let object = Value::Object(vec![
        ("a".to_string(), Value::Null),
        ("a!".to_string(), Value::Null),
    ]);
    let expected = Value::Array(vec![
        Value::Array(vec![string("a!"), Value::Null]),
        Value::Array(vec![string("a"), Value::Null]),
    ]);
    assert_eq!(sorter(object), expected);
}

#[test]
fn canonicalize_gives_the_children_in_order() {
    let array = Value::Array(vec![number("2"), string("10"), Value::Null]);
    assert_eq!(canonicalize(&array), vec![Value::Null, string("10"), number("2")]);
    assert_eq!(array, Value::Array(vec![number("2"), string("10"), Value::Null]));
    let object = Value::Object(vec![
        ("b".to_string(), number("1")),
        ("a".to_string(), number("2")),
    ]);
    assert_eq!(
        canonicalize(&object),
        vec![
            Value::Array(vec![string("a"), number("2")]),
            Value::Array(vec![string("b"), number("1")]),
        ]
    );
    assert_eq!(canonicalize(&Value::Array(vec![])), Vec::<Value>::new());
    assert_eq!(canonicalize(&Value::Object(vec![])), Vec::<Value>::new());
    assert_eq!(canonicalize(&string("ba")), Vec::<Value>::new());
    assert_eq!(canonicalize(&Value::Null), Vec::<Value>::new());
}

#[test]
fn ties_keep_the_order_given() {
    let one_first = Value::Array(vec![number("1"), string("1")]);
    assert_eq!(sorter(one_first.clone()), one_first);
    assert_eq!(one_first.notate(), "1N1SA");
    let text_first = Value::Array(vec![string("1"), number("1")]);
    assert_eq!(sorter(text_first.clone()), text_first);
    assert_eq!(text_first.notate(), "1S1NA");
}

#[test]
fn ties_on_the_low_bytes_keep_the_order_given() {
    let plain_first = Value::Array(vec![string("a"), string("\u{161}")]);
    assert_eq!(sorter(plain_first.clone()), plain_first);
    let plain_last = Value::Array(vec![string("\u{161}"), string("a")]);
    assert_eq!(sorter(plain_last.clone()), plain_last);
}

#[test]
fn entries_that_tie_on_the_low_bytes_come_in_key_order() {
    let plain_first = Value::Object(vec![
        ("a".to_string(), number("1")),
        ("\u{161}".to_string(), number("1")),
    ]);
    assert_eq!(plain_first.notate(), "1NaSA1N\u{161}SAH");
    let plain_last = Value::Object(vec![
        ("\u{161}".to_string(), number("1")),
        ("a".to_string(), number("1")),
    ]);
    assert_eq!(plain_last.notate(), "1NaSA1N\u{161}SAH");
    assert_eq!(signature(plain_last), signature(plain_first));
}

#[test]
fn entry_order_of_an_object_inside_an_array_does_not_show() {
    let given = Value::Array(vec![
        Value::Object(vec![("b".to_string(), number("1")), ("a".to_string(), number("2"))]),
        Value::Object(vec![("a".to_string(), number("3"))]),
    ]);
    let in_key_order = Value::Array(vec![
        Value::Object(vec![("a".to_string(), number("2")), ("b".to_string(), number("1"))]),
        Value::Object(vec![("a".to_string(), number("3"))]),
    ]);
    assert_eq!(given.notate(), "2NaSA1NbSAH3NaSAHA");
    assert_eq!(in_key_order.notate(), "2NaSA1NbSAH3NaSAHA");
    assert_eq!(signature(given), signature(in_key_order));
}

#[test]
fn entry_order_does_not_show_at_any_depth() {
    let inner = |reversed: bool| {
        let mut entries = vec![
            ("k".to_string(), Value::Array(vec![number("2"), number("1")])),
            ("K".to_string(), Value::Null),
            ("\u{e9}".to_string(), string("x")),
        ];
        if reversed {
            entries.reverse();
        }
        Value::Object(entries)
    };
    let outer = |reversed: bool| {
        let mut entries = vec![
            ("z".to_string(), inner(reversed)),
            ("a".to_string(), Value::Array(vec![inner(reversed), inner(!reversed), string("s")])),
            ("m".to_string(), Value::Object(vec![("deep".to_string(), inner(reversed))])),
        ];
        if reversed {
            entries.rotate_left(1);
        }
        Value::Object(entries)
    };
    assert!(outer(false).is_well_formed());
    assert_ne!(outer(false), outer(true));
    assert_eq!(outer(false).to_string(), outer(true).to_string());
    assert_eq!(outer(false).notate(), outer(true).notate());
    assert_eq!(sorter(outer(false)).to_string(), sorter(outer(true)).to_string());
    assert_eq!(sorter(outer(false)).notate(), sorter(outer(true)).notate());
    assert_eq!(signature(outer(false)), signature(outer(true)));
}

#[test]
fn entries_with_one_key_keep_the_order_given() {
    let repeated = Value::Object(vec![
        ("k".to_string(), number("2")),
        ("a".to_string(), Value::Null),
        ("k".to_string(), number("1")),
    ]);
    assert!(!repeated.is_well_formed());
    assert_eq!(repeated.to_string(), "{\"a\":null,\"k\":2,\"k\":1}");
}

#[test]
fn sorting_twice_is_sorting_once() {
    let value = Value::Array(vec![
        string("b"),
        number("1"),
        Value::Null,
        string("1"),
        Value::Array(vec![string("z"), string("a")]),
    ]);
    let once = sorter(value);
    assert_eq!(sorter(once.clone()), once);
    let object = Value::Object(vec![
        ("b".to_string(), number("1")),
        ("a".to_string(), number("2")),
    ]);
    let once = sorter(object);
    assert_eq!(sorter(once.clone()), once);
}

#[test]
fn null_ties_with_the_empty_string() {
    let value = Value::Array(vec![string(""), Value::Null, string("")]);
    assert_eq!(sorter(value.clone()), value);
    assert_eq!(value.notate(), "S_SA");
}

#[test]
fn strings_inside_arrays_are_ordered_with_their_quotes() {
    let value = Value::Array(vec![
        Value::Array(vec![number("1")]),
        Value::Array(vec![string("b")]),
    ]);
    let expected = Value::Array(vec![
        Value::Array(vec![string("b")]),
        Value::Array(vec![number("1")]),
    ]);
    assert_eq!(sorter(value), expected);
}

#[test]
fn every_order_of_the_items_has_one_signature() {
    let items = vec![
        number("3"),
        Value::Null,
        string("x"),
        Value::Bool(false),
        Value::Array(vec![string("b"), number("2")]),
    ];
    let expected_text = Value::Array(items.clone()).notate();
    let expected = signature(Value::Array(items.clone()));
    let all = permutations(&items);
    assert_eq!(all.len(), 120);
    for order in all {
        assert_eq!(Value::Array(order.clone()).notate(), expected_text);
        assert_eq!(signature(Value::Array(order)), expected);
    }
}

#[test]
fn equal_items_may_change_places() {
    let items = vec![number("1"), number("1"), string("1x"), number("1")];
    let expected = Value::Array(items.clone()).notate();
    assert_eq!(expected, "1N1N1N1xSA");
    for order in permutations(&items) {
        assert_eq!(Value::Array(order).notate(), expected);
    }
}

#[test]
fn every_order_of_the_entries_has_one_signature() {
    let entries = vec![
        Value::Array(vec![string("b"), number("1")]),
        Value::Array(vec![string("a"), Value::Null]),
        Value::Array(vec![string("c"), Value::Array(vec![number("2"), number("1")])]),
        Value::Array(vec![string("B"), string("b")]),
    ];
    let as_object = |pairs: &[Value]| {
        Value::Object(
            pairs
                .iter()
                .map(|pair| match pair {
                    Value::Array(both) => match &both[0] {
                        Value::String(key) => (key.clone(), both[1].clone()),
                        _ => unreachable!(),
                    },
                    _ => unreachable!(),
                })
                .collect(),
        )
    };
    let expected_text = as_object(&entries).notate();
    let expected = signature(as_object(&entries));
    for order in permutations(&entries) {
        assert_eq!(as_object(&order).notate(), expected_text);
        assert_eq!(signature(as_object(&order)), expected);
    }
}

#[test]
fn a_long_array_is_sorted_like_a_short_one() {
    let mut items: Vec<Value> = Vec::new();
    for i in 0..2000u32 {
        let literal = ((i * 7919) % 1000).to_string();
        items.push(if i % 3 == 0 { string(&literal) } else { number(&literal) });
    }
    let mut keyed: Vec<(Vec<u8>, Value)> = items
        .iter()
        .map(|item| (string_to_ascii(normalise_value(item)), item.clone()))
        .collect();
    keyed.sort_by(|a, b| a.0.cmp(&b.0));
    let expected: Vec<Value> = keyed.into_iter().map(|item| item.1).collect();
    assert_eq!(sorter(Value::Array(items.clone())), Value::Array(expected.clone()));
    let text: String = expected.iter().map(|item| item.notate()).collect();
    assert_eq!(Value::Array(items).notate(), text + "A");
}

#[test]
fn equal_values_have_equal_signatures() {
    let value = Value::Object(vec![
        ("k".to_string(), Value::Array(vec![number("1"), string("a")])),
        ("l".to_string(), Value::Bool(true)),
    ]);
    let copy = value.clone();
    assert_eq!(copy, value);
    let first = signature(value);
    assert_eq!(signature(copy.clone()), first);
    assert_eq!(signature(copy), first);
}
