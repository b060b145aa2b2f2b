use json_diff_patch::{
    diff_json, diff_json_simple, read_json_str, DiffChange, DiffElem, JsonValue, Number, Path,
    PathElem,
};

fn check_diff(original: &str, dest: &str, mut expect_diff: Vec<DiffElem>) {
    let origin_json = read_json_str(original);
    assert!(origin_json.is_ok(), "origin json not valid");
    let dest_json = read_json_str(dest);
    assert!(dest_json.is_ok(), "origin json not valid");
    let mut actual_diff = diff_json(original, dest).unwrap();
    actual_diff.sort_by(|a, b| a.path().partial_cmp(b.path()).unwrap());
    expect_diff.sort_by(|a, b| a.path().partial_cmp(b.path()).unwrap());
    assert_eq!(actual_diff, expect_diff);
}

fn check_diff_same(original: &str, dest: &str) {
    check_diff(original, dest, vec![]);
}

#[test]
fn test_bool() {
    let s0 = r#"{"x": true}"#;
    let s1 = r#"{"x": true}"#;
    check_diff_same(s0, s1);

    let s0 = r#"{"x": false}"#;
    let s1 = r#"{"x": false}"#;
    check_diff_same(s0, s1);

    let s0 = r#"{"x": true}"#;
    let s1 = r#"{"x": false}"#;

    let diff = DiffElem::new(
        DiffChange::Replace {
            old_val: JsonValue::Bool(true),
            new_val: JsonValue::Bool(false),
        },
        Path::new(vec![PathElem::Key("x".to_string())]),
    );

    check_diff(s0, s1, vec![diff])
}

#[test]
fn test_same_json() {
    let json = "true";
    check_diff(json, json, vec![]);
}

#[test]
fn test_add_op() {
    let json1 = r#"{"a": 1}"#;
    let json2 = r#"{"a": 1, "new": false}"#;
    let json3 = r#"{"a": 1, "new1": false, "new2": null}"#;
    let json4 = r#"{"a": 1, "b": {"a": true}}"#;
    let json5 = r#"{"a": 1, "b": {"a": true, "b": "new_val"}, "c": null}"#;
    check_diff(
        json1,
        json2,
        vec![DiffElem::new(
            DiffChange::Add(JsonValue::Bool(false)),
            Path::new(vec![PathElem::Key("new".to_string())]),
        )],
    );

    check_diff(
        json1,
        json3,
        vec![
            DiffElem::new(
                DiffChange::Add(JsonValue::Bool(false)),
                Path::new(vec![PathElem::Key("new1".to_string())]),
            ),
            DiffElem::new(
                DiffChange::Add(JsonValue::Null),
                Path::new(vec![PathElem::Key("new2".to_string())]),
            ),
        ],
    );

    check_diff(
        json4,
        json5,
        vec![
            DiffElem::new(
                DiffChange::Add(JsonValue::String("new_val".to_string())),
                Path::new(vec![
                    PathElem::Key("b".to_string()),
                    PathElem::Key("b".to_string()),
                ]),
            ),
            DiffElem::new(
                DiffChange::Add(JsonValue::Null),
                Path::new(vec![PathElem::Key("c".to_string())]),
            ),
        ],
    );
}

#[test]
fn test_remove() {
    let json1 = r#"{"a": 1}"#;
    let json2 = r#"{"a": 1, "old": false}"#;
    let json3 = r#"{"a": 1, "old1": false, "old2": null}"#;
    let json4 = r#"{"a": 1, "b": {"a": true}}"#;
    let json5 = r#"{"a": 1, "b": {"a": true, "b": "old_val"}, "c": null}"#;
    check_diff(
        json2,
        json1,
        vec![DiffElem::new(
            DiffChange::Remove(JsonValue::Bool(false)),
            Path::new(vec![PathElem::Key("old".to_string())]),
        )],
    );

    check_diff(
        json3,
        json1,
        vec![
            DiffElem::new(
                DiffChange::Remove(JsonValue::Bool(false)),
                Path::new(vec![PathElem::Key("old1".to_string())]),
            ),
            DiffElem::new(
                DiffChange::Remove(JsonValue::Null),
                Path::new(vec![PathElem::Key("old2".to_string())]),
            ),
        ],
    );

    check_diff(
        json5,
        json4,
        vec![
            DiffElem::new(
                DiffChange::Remove(JsonValue::String("old_val".to_string())),
                Path::new(vec![
                    PathElem::Key("b".to_string()),
                    PathElem::Key("b".to_string()),
                ]),
            ),
            DiffElem::new(
                DiffChange::Remove(JsonValue::Null),
                Path::new(vec![PathElem::Key("c".to_string())]),
            ),
        ],
    );
}

#[test]
fn test_arr_diff() {
    let json1 = r#"{"a": [1, 2, 3, 6, 7, 8, 9, 10]}"#;
    let json2 = r#"{"a": [0, 1, 3, 7, 8, 9, 13]}"#;
    check_diff(
        json1,
        json2,
        vec![
            DiffElem::new(
                DiffChange::Add(JsonValue::Number(Number::PosInt(0))),
                Path::new(vec![PathElem::Key("a".to_owned()), PathElem::Index(0)]),
            ),
            DiffElem::new(
                DiffChange::Remove(JsonValue::Number(Number::PosInt(2))),
                Path::new(vec![PathElem::Key("a".to_owned()), PathElem::Index(2)]),
            ),
            DiffElem::new(
                DiffChange::Remove(JsonValue::Number(Number::PosInt(6))),
                Path::new(vec![PathElem::Key("a".to_owned()), PathElem::Index(3)]),
            ),
            DiffElem::new(
                DiffChange::Replace {
                    old_val: JsonValue::Number(Number::PosInt(10)),
                    new_val: JsonValue::Number(Number::PosInt(13)),
                },
                Path::new(vec![PathElem::Key("a".to_owned()), PathElem::Index(6)]),
            ),
        ],
    );
}

#[test]
fn test_obj_nested_in_arr() {
    let json1 = r#"
    {
        "key": [
            13,
            {
                "a": "b",
                "c": "d"
            },
            10
        ]
    }
    "#;
    let json2 = r#"
    {
        "key": [
            13,
            {
                "a": "b",
                "c": "z",
                "e": "f"
            },
            10
        ]
    }
    "#;
    check_diff(
        json1,
        json2,
        vec![
            DiffElem::new(
                DiffChange::Add(JsonValue::String("f".to_owned())),
                Path::new(vec![
                    PathElem::Key("key".to_owned()),
                    PathElem::Index(1),
                    PathElem::Key("e".to_owned()),
                ]),
            ),
            DiffElem::new(
                DiffChange::Replace {
                    old_val: JsonValue::String("d".to_owned()),
                    new_val: JsonValue::String("z".to_owned()),
                },
                Path::new(vec![
                    PathElem::Key("key".to_owned()),
                    PathElem::Index(1),
                    PathElem::Key("c".to_owned()),
                ]),
            ),
        ],
    );

    let json3 = r#"
    {
        "key": [
            13,
            {
                "a": "b",
                "c": "d"
            }
        ]
    }
    "#;
    let json4 = r#"
    {
        "key": [
            13,
            {
                "a": "b",
                "c": "z",
                "e": "f"
            }
        ]
    }
    "#;
    check_diff(
        json3,
        json4,
        vec![
            DiffElem::new(
                DiffChange::Add(JsonValue::String("f".to_owned())),
                Path::new(vec![
                    PathElem::Key("key".to_owned()),
                    PathElem::Index(1),
                    PathElem::Key("e".to_owned()),
                ]),
            ),
            DiffElem::new(
                DiffChange::Replace {
                    old_val: JsonValue::String("d".to_owned()),
                    new_val: JsonValue::String("z".to_owned()),
                },
                Path::new(vec![
                    PathElem::Key("key".to_owned()),
                    PathElem::Index(1),
                    PathElem::Key("c".to_owned()),
                ]),
            ),
        ],
    );
}

#[test]
fn diff_of_a_document_with_itself_is_empty() {
    let texts = [
        "null",
        "[1, [2, 3], {\"a\": [4, 5]}]",
        "{\"b\": {\"c\": [true, false, null]}, \"a\": -3, \"d\": 1.5}",
    ];
    for text in texts {
        assert_eq!(diff_json(text, text).unwrap(), vec![]);
        assert_eq!(diff_json_simple(text, text).unwrap(), vec![]);
    }
}

#[test]
fn simple_diff_replaces_unequal_arrays_whole() {
    let left = r#"{"a": [1, 2, 3]}"#;
    let right = r#"{"a": [1, 3]}"#;
    let diffs = diff_json_simple(left, right).unwrap();
    let expected = DiffElem::new(
        DiffChange::Replace {
            old_val: read_json_str("[1, 2, 3]").unwrap(),
            new_val: read_json_str("[1, 3]").unwrap(),
        },
        Path::new(vec![PathElem::Key("a".to_string())]),
    );
    assert_eq!(diffs, vec![expected]);
}

#[test]
fn diff_of_different_kinds_is_one_replace_at_the_root() {
    let diffs = diff_json("{\"a\": 1}", "[1]").unwrap();
    let expected = DiffElem::new(
        DiffChange::Replace {
            old_val: read_json_str("{\"a\": 1}").unwrap(),
            new_val: read_json_str("[1]").unwrap(),
        },
        Path::empty(),
    );
    assert_eq!(diffs, vec![expected]);
}

#[test]
fn diff_removes_at_a_held_index_and_adds_at_the_tail() {
    let diffs = diff_json("[1, 2, 3]", "[]").unwrap();
    let at0 = || Path::new(vec![PathElem::Index(0)]);
    assert_eq!(
        diffs,
        vec![
            DiffElem::new(DiffChange::Remove(JsonValue::Number(Number::PosInt(1))), at0()),
            DiffElem::new(DiffChange::Remove(JsonValue::Number(Number::PosInt(2))), at0()),
            DiffElem::new(DiffChange::Remove(JsonValue::Number(Number::PosInt(3))), at0()),
        ]
    );
    let diffs = diff_json("[]", "[7, 8]").unwrap();
    assert_eq!(
        diffs,
        vec![
            DiffElem::new(
                DiffChange::Add(JsonValue::Number(Number::PosInt(7))),
                Path::new(vec![PathElem::Index(0)])
            ),
            DiffElem::new(
                DiffChange::Add(JsonValue::Number(Number::PosInt(8))),
                Path::new(vec![PathElem::Index(1)])
            ),
        ]
    );
}

#[test]
fn diff_of_a_malformed_text_fails() {
    assert!(diff_json("{", "{}").is_err());
    assert!(diff_json("{}", "[1,").is_err());
}

#[test]
fn an_insertion_at_the_head_costs_one_edit() {
    let diffs = diff_json("[1, 2, 3, 4, 5, 6]", "[0, 1, 2, 3, 4, 5, 6]").unwrap();
    assert_eq!(
        diffs,
        vec![DiffElem::new(
            DiffChange::Add(JsonValue::Number(Number::PosInt(0))),
            Path::new(vec![PathElem::Index(0)])
        )]
    );
}

#[test]
fn diff_elem_hands_out_its_parts() {
    let elem = DiffElem::new(
        DiffChange::Add(JsonValue::Null),
        Path::new(vec![
            PathElem::Key("a".to_string()),
            PathElem::Index(12),
            PathElem::Key("_b".to_string()),
        ]),
    );
    assert_eq!(elem.path_str(), "/a/_12/\\_b");
    assert_eq!(elem.diff_change(), &DiffChange::Add(JsonValue::Null));
    assert_eq!(elem.path().len(), 3);
    assert_eq!(Path::empty().to_string(), "/");
}
