use json_diff_patch::codec::{read_json_str, value_of_tree};
use json_diff_patch::error::JsonPatchError;
use json_diff_patch::members::{find_member, is_well_formed, object_of, put_member, take_member};
use json_diff_patch::text::{chars_of, decimal_chars, str_eq, str_lt, string_of};
use json_diff_patch::value::{copy_value, values_equal, JsonValue, Number};

#[test]
fn scalars_are_read_as_written() {
    assert_eq!(read_json_str("null").unwrap(), JsonValue::Null);
    assert_eq!(read_json_str(" true ").unwrap(), JsonValue::Bool(true));
    assert_eq!(read_json_str("false").unwrap(), JsonValue::Bool(false));
    assert_eq!(
        read_json_str("\"a\\u00e9\\n\\\"\"").unwrap(),
        JsonValue::String("a\u{e9}\n\"".to_string())
    );
    assert_eq!(read_json_str("\"\"").unwrap(), JsonValue::String(String::new()));
}

#[test]
fn numbers_are_read_in_their_proper_form() {
    assert_eq!(read_json_str("0").unwrap(), JsonValue::Number(Number::PosInt(0)));
    assert_eq!(read_json_str("-0").unwrap(), JsonValue::Number(Number::Float((-0.0f64).to_bits())));
    assert_eq!(read_json_str("17").unwrap(), JsonValue::Number(Number::PosInt(17)));
    assert_eq!(read_json_str("-17").unwrap(), JsonValue::Number(Number::NegInt(-17)));
    assert_eq!(
        read_json_str("18446744073709551615").unwrap(),
        JsonValue::Number(Number::PosInt(u64::MAX))
    );
    assert_eq!(
        read_json_str("9223372036854775808").unwrap(),
        JsonValue::Number(Number::PosInt(9223372036854775808))
    );
    assert_eq!(
        read_json_str("-9223372036854775808").unwrap(),
        JsonValue::Number(Number::NegInt(i64::MIN))
    );
    assert_eq!(
        read_json_str("1.5").unwrap(),
        JsonValue::Number(Number::Float(1.5f64.to_bits()))
    );
    assert_eq!(
        read_json_str("1.0").unwrap(),
        JsonValue::Number(Number::Float(1.0f64.to_bits()))
    );
    assert_eq!(
        read_json_str("-2e3").unwrap(),
        JsonValue::Number(Number::Float((-2000.0f64).to_bits()))
    );
    assert_eq!(
        read_json_str("18446744073709551616").unwrap(),
        JsonValue::Number(Number::Float(18446744073709551616.0f64.to_bits()))
    );
    assert_ne!(read_json_str("1").unwrap(), read_json_str("1.0").unwrap());
}

#[test]
fn members_are_kept_in_the_order_of_their_keys() {
    let doc = read_json_str(r#"{"b": 1, "a": 2, "": 3, "ab": 4, "B": 5, "é": 6, "a": 7}"#).unwrap();
    let n = |v: u64| JsonValue::Number(Number::PosInt(v));
    assert_eq!(
        doc,
        JsonValue::Object(vec![
            ("".to_string(), n(3)),
            ("B".to_string(), n(5)),
            ("a".to_string(), n(7)),
            ("ab".to_string(), n(4)),
            ("b".to_string(), n(1)),
            ("é".to_string(), n(6)),
        ])
    );
    assert_eq!(doc, read_json_str(r#"{"é": 6, "ab": 4, "a": 7, "b": 1, "B": 5, "": 3}"#).unwrap());
}

#[test]
fn arrays_and_objects_nest() {
    let doc = read_json_str(r#"[[], {}, [{"k": [null]}]]"#).unwrap();
    assert_eq!(
        doc,
        JsonValue::Array(vec![
            JsonValue::Array(vec![]),
            JsonValue::Object(vec![]),
            JsonValue::Array(vec![JsonValue::Object(vec![(
                "k".to_string(),
                JsonValue::Array(vec![JsonValue::Null])
            )])]),
        ])
    );
}

#[test]
fn a_tree_is_turned_into_a_document() {
    let tree: serde_json::Value = serde_json::from_str(r#"{"z": [1, -1, 0.5], "a": "s"}"#).unwrap();
    assert_eq!(
        value_of_tree(&tree),
        JsonValue::Object(vec![
            ("a".to_string(), JsonValue::String("s".to_string())),
            (
                "z".to_string(),
                JsonValue::Array(vec![
                    JsonValue::Number(Number::PosInt(1)),
                    JsonValue::Number(Number::NegInt(-1)),
                    JsonValue::Number(Number::Float(0.5f64.to_bits())),
                ])
            ),
        ])
    );
}

#[test]
fn what_is_no_document_is_refused() {
    for text in ["", "{", "[1,]", "{\"a\" 1}", "tru", "1 2", "'a'", "{\"a\": }"] {
        assert!(
            matches!(read_json_str(text), Err(JsonPatchError::InvalidJson { .. })),
            "{}",
            text
        );
    }
}

#[test]
fn documents_are_equal_by_what_they_hold() {
    let a = read_json_str(r#"{"a": [1, {"b": null}], "c": "x"}"#).unwrap();
    let b = read_json_str(r#"{"c": "x", "a": [1, {"b": null}]}"#).unwrap();
    let c = read_json_str(r#"{"c": "x", "a": [1, {"b": false}]}"#).unwrap();
    let d = read_json_str(r#"{"c": "x", "a": [1, {"b": null}, 2]}"#).unwrap();
    assert!(values_equal(&a, &b));
    assert!(a == b);
    assert!(!values_equal(&a, &c));
    assert!(a != d);
    assert!(!values_equal(&JsonValue::Null, &JsonValue::Bool(false)));
    assert!(!values_equal(&JsonValue::Array(vec![]), &JsonValue::Object(vec![])));
    let copy = copy_value(&a);
    assert_eq!(copy, a);
    assert_eq!(a.clone(), a);
}

#[test]
fn members_are_found_bound_and_dropped() {
    let n = |v: u64| JsonValue::Number(Number::PosInt(v));
    let mut members: Vec<(String, JsonValue)> = Vec::new();
    put_member(&mut members, "m".to_string(), n(1));
    put_member(&mut members, "a".to_string(), n(2));
    put_member(&mut members, "z".to_string(), n(3));
    put_member(&mut members, "mm".to_string(), n(4));
    put_member(&mut members, "m".to_string(), n(5));
    assert_eq!(
        members,
        vec![
            ("a".to_string(), n(2)),
            ("m".to_string(), n(5)),
            ("mm".to_string(), n(4)),
            ("z".to_string(), n(3)),
        ]
    );
    assert_eq!(find_member(&members, "m"), Some(1));
    assert_eq!(find_member(&members, "z"), Some(3));
    assert_eq!(find_member(&members, "b"), None);
    assert_eq!(take_member(&mut members, "mm"), Some(n(4)));
    assert_eq!(take_member(&mut members, "mm"), None);
    assert_eq!(
        members,
        vec![("a".to_string(), n(2)), ("m".to_string(), n(5)), ("z".to_string(), n(3))]
    );
}

#[test]
fn text_helpers() {
    assert_eq!(chars_of("a\u{e9}b"), vec!['a', '\u{e9}', 'b']);
    assert_eq!(string_of(&vec!['x', '/', '\u{1F600}']), "x/\u{1F600}");
    assert_eq!(string_of(&vec![]), "");
    assert!(str_eq("abc", "abc"));
    assert!(!str_eq("abc", "abd"));
    assert!(!str_eq("abc", "ab"));
    assert!(str_lt("", "a"));
    assert!(str_lt("a", "b"));
    assert!(str_lt("a", "aa"));
    assert!(str_lt("Z", "a"));
    assert!(str_lt("z", "\u{e9}"));
    assert!(!str_lt("b", "a"));
    assert!(!str_lt("a", "a"));
    assert!(!str_lt("", ""));
    assert_eq!(decimal_chars(0), vec!['0']);
    assert_eq!(decimal_chars(7), vec!['7']);
    assert_eq!(decimal_chars(10), vec!['1', '0']);
    assert_eq!(decimal_chars(9051), vec!['9', '0', '5', '1']);
    assert_eq!(
        string_of(&decimal_chars(usize::MAX)),
        usize::MAX.to_string()
    );
}

#[test]
fn an_object_is_made_of_members_in_any_order() {
    let n = |v: u64| JsonValue::Number(Number::PosInt(v));
    let made = object_of(vec![
        ("b".to_string(), n(1)),
        ("a".to_string(), n(2)),
        ("b".to_string(), n(3)),
        ("".to_string(), n(4)),
    ]);
    assert_eq!(made, read_json_str(r#"{"": 4, "a": 2, "b": 3}"#).unwrap());
    assert_eq!(object_of(vec![]), read_json_str("{}").unwrap());
    assert!(is_well_formed(&made));
}

#[test]
fn well_formed_documents_have_their_members_in_order() {
    let n = |v: u64| JsonValue::Number(Number::PosInt(v));
    for text in ["null", "[1, {\"b\": [], \"a\": {\"z\": -1, \"y\": 2.5}}]", "{}"] {
        assert!(is_well_formed(&read_json_str(text).unwrap()), "{}", text);
    }
    let unordered = JsonValue::Object(vec![("b".to_string(), n(1)), ("a".to_string(), n(2))]);
    assert!(!is_well_formed(&unordered));
    let twice = JsonValue::Object(vec![("a".to_string(), n(1)), ("a".to_string(), n(2))]);
    assert!(!is_well_formed(&twice));
    let inside = JsonValue::Array(vec![JsonValue::Null, unordered]);
    assert!(!is_well_formed(&inside));
    assert!(!is_well_formed(&JsonValue::Number(Number::NegInt(3))));
    assert!(is_well_formed(&JsonValue::Number(Number::NegInt(-3))));
    let below = JsonValue::Object(vec![("k".to_string(), twice)]);
    assert!(!is_well_formed(&below));
}
