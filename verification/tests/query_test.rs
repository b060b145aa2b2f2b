use json_diff_patch::codec::read_json_str;
use json_diff_patch::diff::{DiffChange, DiffElem};
use json_diff_patch::path::{Path, PathElem};
use json_diff_patch::query::JsonDiff;
use json_diff_patch::value::{JsonValue, Number};

fn key(s: &str) -> PathElem {
    PathElem::Key(s.to_string())
}

fn num(n: u64) -> JsonValue {
    JsonValue::Number(Number::PosInt(n))
}

#[test]
fn the_change_at_a_path() {
    let diff = JsonDiff::diff_json(
        r#"{"a": [1, 2, 3, 6, 7, 8, 9, 10], "x": true}"#,
        r#"{"a": [0, 1, 3, 7, 8, 9, 13], "x": false}"#,
    )
    .unwrap();
    let a = |i: usize| Path::new(vec![key("a"), PathElem::Index(i)]);
    assert_eq!(diff.get_diffchange(&a(0)), Some(&DiffChange::Add(num(0))));
    assert_eq!(diff.get_diffchange(&a(1)), None);
    assert_eq!(diff.get_diffchange(&a(2)), Some(&DiffChange::Remove(num(2))));
    assert_eq!(diff.get_diffchange(&a(3)), Some(&DiffChange::Remove(num(6))));
    assert_eq!(
        diff.get_diffchange(&a(6)),
        Some(&DiffChange::Replace { old_val: num(10), new_val: num(13) })
    );
    assert_eq!(
        diff.get_diffchange(&Path::new(vec![key("x")])),
        Some(&DiffChange::Replace {
            old_val: JsonValue::Bool(true),
            new_val: JsonValue::Bool(false)
        })
    );
    assert_eq!(diff.get_diffchange(&Path::empty()), None);
    assert_eq!(diff.get_diffchange(&Path::new(vec![key("a")])), None);
    assert_eq!(diff.changes().len(), 5);
}

#[test]
fn a_later_edit_at_a_path_takes_the_place_of_an_earlier_one() {
    let diff = JsonDiff::diff_json("[1, 2, 3]", "[]").unwrap();
    assert_eq!(diff.changes().len(), 3);
    assert_eq!(
        diff.get_diffchange(&Path::new(vec![PathElem::Index(0)])),
        Some(&DiffChange::Remove(num(3)))
    );
}

#[test]
fn the_keys_added_to_an_object() {
    let diff = JsonDiff::diff_json(
        r#"{"a": 1, "b": {"a": true}, "k": [{}]}"#,
        r#"{"a": 1, "b": {"a": true, "y": "new", "b": "new_val"}, "c": null, "k": [{"z": 1}, 2], "0": 0}"#,
    )
    .unwrap();
    assert_eq!(
        diff.get_add_keys(&Path::empty()),
        Some(&vec!["0".to_string(), "c".to_string()])
    );
    assert_eq!(
        diff.get_add_keys(&Path::new(vec![key("b")])),
        Some(&vec!["b".to_string(), "y".to_string()])
    );
    assert_eq!(
        diff.get_add_keys(&Path::new(vec![key("k"), PathElem::Index(0)])),
        Some(&vec!["z".to_string()])
    );
    assert_eq!(diff.get_add_keys(&Path::new(vec![key("k")])), None);
    assert_eq!(diff.get_add_keys(&Path::new(vec![key("a")])), None);
    assert_eq!(
        diff.get_diffchange(&Path::new(vec![key("k"), PathElem::Index(1)])),
        Some(&DiffChange::Add(num(2)))
    );
}

#[test]
fn a_diff_of_equal_documents_answers_nothing() {
    let diff = JsonDiff::diff_json(r#"{"a": [1, {"b": 2}]}"#, r#"{"a": [1, {"b": 2}]}"#).unwrap();
    assert_eq!(diff.changes().len(), 0);
    assert_eq!(diff.get_diffchange(&Path::empty()), None);
    assert_eq!(diff.get_add_keys(&Path::empty()), None);
}

#[test]
fn an_index_over_given_edits() {
    let at = |steps: Vec<PathElem>| Path::new(steps);
    let edits = vec![
        DiffElem::new(DiffChange::Add(num(1)), at(vec![key("o"), key("b")])),
        DiffElem::new(DiffChange::Remove(num(2)), at(vec![key("o"), key("gone")])),
        DiffElem::new(DiffChange::Add(num(3)), at(vec![key("o"), PathElem::Index(4)])),
        DiffElem::new(DiffChange::Add(num(4)), at(vec![key("o"), key("a")])),
        DiffElem::new(DiffChange::Add(num(5)), at(vec![key("top")])),
        DiffElem::new(DiffChange::Add(num(6)), at(vec![])),
        DiffElem::new(DiffChange::Add(num(7)), at(vec![key("o"), key("b")])),
    ];
    let diff = JsonDiff::new(edits);
    assert_eq!(
        diff.get_add_keys(&at(vec![key("o")])),
        Some(&vec!["b".to_string(), "a".to_string(), "b".to_string()])
    );
    assert_eq!(diff.get_add_keys(&Path::empty()), Some(&vec!["top".to_string()]));
    assert_eq!(diff.get_add_keys(&at(vec![key("top")])), None);
    assert_eq!(
        diff.get_diffchange(&at(vec![key("o"), key("b")])),
        Some(&DiffChange::Add(num(7)))
    );
    assert_eq!(diff.get_diffchange(&Path::empty()), Some(&DiffChange::Add(num(6))));
}

#[test]
fn a_diff_of_documents_given_as_values() {
    let left = read_json_str(r#"{"a": 1}"#).unwrap();
    let right = read_json_str(r#"{"a": 1, "new": false}"#).unwrap();
    let diff = JsonDiff::diff_values(&left, &right);
    assert_eq!(
        diff.get_diffchange(&Path::new(vec![key("new")])),
        Some(&DiffChange::Add(JsonValue::Bool(false)))
    );
    assert_eq!(diff.get_add_keys(&Path::empty()), Some(&vec!["new".to_string()]));
    assert!(JsonDiff::diff_json("{", "{}").is_err());
}

#[test]
fn the_edits_of_the_items_of_an_array() {
    let diff = JsonDiff::diff_json(
        r#"{"a": [1, 2, 3, 6, 7, 8, 9, 10], "b": [{"k": 1}], "c": {"0": 1}}"#,
        r#"{"a": [0, 1, 3, 7, 8, 9, 13], "b": [{"k": 2}, 5], "c": {"0": 2}}"#,
    )
    .unwrap();
    let a = |i: usize| Path::new(vec![key("a"), PathElem::Index(i)]);
    assert_eq!(
        diff.get_arr_changes(&Path::new(vec![key("a")])),
        vec![
            DiffElem::new(DiffChange::Add(num(0)), a(0)),
            DiffElem::new(DiffChange::Remove(num(2)), a(2)),
            DiffElem::new(DiffChange::Remove(num(6)), a(3)),
            DiffElem::new(DiffChange::Replace { old_val: num(10), new_val: num(13) }, a(6)),
        ]
    );
    assert_eq!(
        diff.get_arr_changes(&Path::new(vec![key("b")])),
        vec![DiffElem::new(
            DiffChange::Add(num(5)),
            Path::new(vec![key("b"), PathElem::Index(1)])
        )]
    );
    assert_eq!(diff.get_arr_changes(&Path::new(vec![key("c")])), vec![]);
    assert_eq!(diff.get_arr_changes(&Path::empty()), vec![]);
}

#[test]
fn what_a_change_and_a_path_end_in() {
    let removal = DiffChange::Remove(num(1));
    assert!(removal.is_remove());
    assert_eq!(removal.as_remove(), Some(&num(1)));
    let addition = DiffChange::Add(num(1));
    assert!(!addition.is_remove());
    assert_eq!(addition.as_remove(), None);
    let replacement = DiffChange::Replace { old_val: num(1), new_val: num(2) };
    assert!(!replacement.is_remove());
    assert_eq!(replacement.clone(), replacement);
    let path = Path::new(vec![key("a"), PathElem::Index(3)]);
    assert_eq!(path.arr_idx(), Some(3));
    assert_eq!(path.current_key(), None);
    let path = Path::new(vec![PathElem::Index(3), key("a")]);
    assert_eq!(path.arr_idx(), None);
    assert_eq!(path.current_key(), Some("a".to_string()));
    assert_eq!(Path::empty().arr_idx(), None);
    assert_eq!(Path::empty().current_key(), None);
}
