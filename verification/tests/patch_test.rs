use json_diff_patch::codec::read_json_str;
use json_diff_patch::error::JsonPatchError;
use json_diff_patch::patch::{
    add_json, remove_json, replace_json, retrieve_json, JsonPatch, Patch, PatchElem,
};
use json_diff_patch::path::{Path, PathElem};
use json_diff_patch::value::{JsonValue, Number};

fn doc(text: &str) -> JsonValue {
    read_json_str(text).unwrap()
}

fn patch(text: &str) -> JsonPatch {
    JsonPatch::try_from(text).unwrap()
}

fn key(s: &str) -> PathElem {
    PathElem::Key(s.to_string())
}

#[test]
fn an_empty_patch_changes_nothing() {
    let data = doc(r#"{"a": [1, {"b": null}]}"#);
    assert_eq!(patch("[]").apply(&data).unwrap(), data);
}

#[test]
fn a_patch_of_tests_that_hold_changes_nothing() {
    let data = doc(r#"{"baz": "qux", "foo": ["a", 2, "c"], "n": {"x": -1.5}}"#);
    let tests = patch(
        r#"[
            {"op": "test", "path": "/baz", "value": "qux"},
            {"op": "test", "path": "/foo/1", "value": 2},
            {"op": "test", "path": "/foo", "value": ["a", 2, "c"]},
            {"op": "test", "path": "/n", "value": {"x": -1.5}},
            {"op": "test", "path": "", "value": {"n": {"x": -1.5}, "foo": ["a", 2, "c"], "baz": "qux"}}
        ]"#,
    );
    assert_eq!(tests.apply(&data).unwrap(), data);
}

#[test]
fn a_test_that_does_not_hold_carries_both_values() {
    let data = doc(r#"{"baz": [1, 2]}"#);
    match patch(r#"[{"op": "test", "path": "/baz", "value": [1, 3]}]"#).apply(&data) {
        Err(JsonPatchError::TestFail { path, expected, actual }) => {
            assert_eq!(path, Path::new(vec![key("baz")]));
            assert_eq!(expected, doc("[1, 3]"));
            assert_eq!(actual, doc("[1, 2]"));
        }
        other => panic!("{:?}", other),
    }
}

#[test]
fn a_test_of_what_is_not_there_fails_as_reading_it_fails() {
    let data = doc(r#"{"baz": [1, 2]}"#);
    match patch(r#"[{"op": "test", "path": "/nope", "value": 1}]"#).apply(&data) {
        Err(JsonPatchError::KeyNotFound { key }) => assert_eq!(key, "nope"),
        other => panic!("{:?}", other),
    }
    assert!(matches!(
        patch(r#"[{"op": "test", "path": "/baz/-", "value": 1}]"#).apply(&data),
        Err(JsonPatchError::InvalidIndex)
    ));
}

#[test]
fn operations_see_what_the_ones_before_them_made() {
    let data = doc(r#"{"a": []}"#);
    let p = patch(
        r#"[
            {"op": "add", "path": "/a/-", "value": 1},
            {"op": "add", "path": "/a/-", "value": 3},
            {"op": "add", "path": "/a/1", "value": 2},
            {"op": "copy", "from": "/a", "path": "/b"},
            {"op": "remove", "path": "/a/0"},
            {"op": "replace", "path": "/b/2", "value": "three"},
            {"op": "move", "from": "/a", "path": "/b/0"},
            {"op": "test", "path": "/b", "value": [[2, 3], 1, 2, "three"]}
        ]"#,
    );
    assert_eq!(p.apply(&data).unwrap(), doc(r#"{"b": [[2, 3], 1, 2, "three"]}"#));
    assert_eq!(data, doc(r#"{"a": []}"#));
}

#[test]
fn the_first_operation_that_fails_ends_the_work() {
    let data = doc(r#"{"a": 1}"#);
    let p = patch(
        r#"[
            {"op": "add", "path": "/b", "value": 2},
            {"op": "remove", "path": "/c"},
            {"op": "remove", "path": "/d/e"}
        ]"#,
    );
    match p.apply(&data) {
        Err(JsonPatchError::KeyNotExist { key }) => assert_eq!(key, "c"),
        other => panic!("{:?}", other),
    }
    assert_eq!(data, doc(r#"{"a": 1}"#));
}

#[test]
fn replace_needs_its_target_and_add_does_not() {
    let data = doc(r#"{"a": 1}"#);
    match patch(r#"[{"op": "replace", "path": "/b", "value": 2}]"#).apply(&data) {
        Err(JsonPatchError::KeyNotExist { key }) => assert_eq!(key, "b"),
        other => panic!("{:?}", other),
    }
    assert_eq!(
        patch(r#"[{"op": "add", "path": "/b", "value": 2}]"#).apply(&data).unwrap(),
        doc(r#"{"a": 1, "b": 2}"#)
    );
    assert_eq!(
        patch(r#"[{"op": "add", "path": "/a", "value": 2}]"#).apply(&data).unwrap(),
        doc(r#"{"a": 2}"#)
    );
    assert_eq!(
        patch(r#"[{"op": "replace", "path": "", "value": [0]}]"#).apply(&data).unwrap(),
        doc("[0]")
    );
    assert_eq!(
        patch(r#"[{"op": "add", "path": "", "value": [0]}]"#).apply(&data).unwrap(),
        doc("[0]")
    );
}

#[test]
fn remove_fails_where_nothing_is() {
    let data = doc(r#"{"a": [1]}"#);
    assert!(matches!(
        patch(r#"[{"op": "remove", "path": "/a/1"}]"#).apply(&data),
        Err(JsonPatchError::IndexOutOfRange { index: 1, len: 1 })
    ));
    assert!(matches!(
        patch(r#"[{"op": "remove", "path": ""}]"#).apply(&data),
        Err(JsonPatchError::CannotDeleteRoot)
    ));
    assert!(matches!(
        patch(r#"[{"op": "remove", "path": "/a/0/x"}]"#).apply(&data),
        Err(JsonPatchError::NotContainer)
    ));
    assert_eq!(
        patch(r#"[{"op": "remove", "path": "/a/-"}]"#).apply(&data).unwrap(),
        doc(r#"{"a": []}"#)
    );
}

#[test]
fn add_into_an_array_is_bounded_by_its_length() {
    let data = doc("[1, 2]");
    assert_eq!(
        patch(r#"[{"op": "add", "path": "/2", "value": 3}]"#).apply(&data).unwrap(),
        doc("[1, 2, 3]")
    );
    assert!(matches!(
        patch(r#"[{"op": "add", "path": "/3", "value": 3}]"#).apply(&data),
        Err(JsonPatchError::IndexOutOfRange { index: 3, len: 2 })
    ));
    assert!(matches!(
        patch(r#"[{"op": "add", "path": "/x", "value": 3}]"#).apply(&data),
        Err(JsonPatchError::InvalidIndex)
    ));
}

#[test]
fn move_takes_out_before_it_adds() {
    let data = doc(r#"{"a": {"b": 1}, "c": [1, 2, 3]}"#);
    match patch(r#"[{"op": "move", "from": "/a", "path": "/a/b"}]"#).apply(&data) {
        Err(JsonPatchError::KeyNotFound { key }) => assert_eq!(key, "a"),
        other => panic!("{:?}", other),
    }
    assert_eq!(
        patch(r#"[{"op": "move", "from": "/c/0", "path": "/c/2"}]"#).apply(&data).unwrap(),
        doc(r#"{"a": {"b": 1}, "c": [2, 3, 1]}"#)
    );
    assert_eq!(
        patch(r#"[{"op": "move", "from": "/a/b", "path": "/a/b"}]"#).apply(&data).unwrap(),
        data
    );
    match patch(r#"[{"op": "move", "from": "/x", "path": "/y"}]"#).apply(&data) {
        Err(JsonPatchError::KeyNotExist { key }) => assert_eq!(key, "x"),
        other => panic!("{:?}", other),
    }
}

#[test]
fn copy_reads_the_document_as_it_was() {
    let data = doc(r#"{"a": {"b": 1}}"#);
    assert_eq!(
        patch(r#"[{"op": "copy", "from": "/a", "path": "/a/c"}]"#).apply(&data).unwrap(),
        doc(r#"{"a": {"b": 1, "c": {"b": 1}}}"#)
    );
    assert_eq!(
        patch(r#"[{"op": "copy", "from": "", "path": "/a/b"}]"#).apply(&data).unwrap(),
        doc(r#"{"a": {"b": {"a": {"b": 1}}}}"#)
    );
    match patch(r#"[{"op": "copy", "from": "/x", "path": "/y"}]"#).apply(&data) {
        Err(JsonPatchError::KeyNotFound { key }) => assert_eq!(key, "x"),
        other => panic!("{:?}", other),
    }
}

#[test]
fn one_operation_applies_to_a_copy() {
    let data = doc(r#"{"foo": ["bar", "baz"]}"#);
    let elem = PatchElem {
        patch: Patch::Add(JsonValue::String("qux".to_string())),
        path: Path::new(vec![key("foo"), PathElem::Index(1)]),
    };
    assert_eq!(elem.apply(&data).unwrap(), doc(r#"{"foo": ["bar", "qux", "baz"]}"#));
    assert_eq!(data, doc(r#"{"foo": ["bar", "baz"]}"#));
    let same = elem.clone();
    assert_eq!(same.path, elem.path);
}

#[test]
fn a_key_step_on_an_array_is_read_as_the_place_it_writes() {
    let data = doc(r#"{"foo": ["bar", "baz"]}"#);
    let elem = PatchElem {
        patch: Patch::Remove,
        path: Path::new(vec![key("foo"), key("0")]),
    };
    assert_eq!(elem.apply(&data).unwrap(), doc(r#"{"foo": ["baz"]}"#));
    let elem = PatchElem {
        patch: Patch::Add(JsonValue::Null),
        path: Path::new(vec![key("foo"), key("-")]),
    };
    assert_eq!(elem.apply(&data).unwrap(), doc(r#"{"foo": ["bar", "baz", null]}"#));
    let elem = PatchElem {
        patch: Patch::Add(JsonValue::Null),
        path: Path::new(vec![PathElem::Index(7)]),
    };
    assert_eq!(elem.apply(&data).unwrap(), doc(r#"{"foo": ["bar", "baz"], "7": null}"#));
}

#[test]
fn the_four_acts_on_a_document() {
    let one = JsonValue::Number(Number::PosInt(1));
    let mut data = doc(r#"{"a": [0]}"#);
    let a0 = Path::new(vec![key("a"), PathElem::Index(0)]);
    add_json(&mut data, &a0, &one).unwrap();
    assert_eq!(data, doc(r#"{"a": [1, 0]}"#));
    assert_eq!(retrieve_json(&data, &a0).unwrap(), &one);
    replace_json(&mut data, &a0, &JsonValue::Null).unwrap();
    assert_eq!(data, doc(r#"{"a": [null, 0]}"#));
    assert_eq!(remove_json(&mut data, &a0).unwrap(), JsonValue::Null);
    assert_eq!(data, doc(r#"{"a": [0]}"#));
    let b = Path::new(vec![key("b")]);
    assert!(matches!(retrieve_json(&data, &b), Err(JsonPatchError::KeyNotFound { .. })));
    assert!(matches!(remove_json(&mut data, &b), Err(JsonPatchError::KeyNotExist { .. })));
    assert!(matches!(replace_json(&mut data, &b, &one), Err(JsonPatchError::KeyNotExist { .. })));
    assert_eq!(retrieve_json(&data, &Path::empty()).unwrap(), &doc(r#"{"a": [0]}"#));
}
