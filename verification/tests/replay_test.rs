use json_diff_patch::patch::{JsonPatch, Patch};
use json_diff_patch::{diff_json, read_json_str, Path, PathElem};

const DOCUMENTS: [&str; 12] = [
    "null",
    "true",
    "17",
    "\"text\"",
    "[]",
    "{}",
    "[1, 2, 3, 6, 7, 8, 9, 10]",
    "[0, 1, 3, 7, 8, 9, 13]",
    r#"{"a": [1, 2, 3, 6, 7, 8, 9, 10], "x": true, "gone": {"k": 1}}"#,
    r#"{"a": [0, 1, 3, 7, 8, 9, 13], "x": false, "new": [{"k": null}]}"#,
    r#"{"key": [13, {"a": "b", "c": "d"}, 10, [1, [2, 3]]], "1": {"0": []}}"#,
    r#"{"key": [{"a": "b", "c": "z", "e": "f"}, 13, [[2, 3], 1], 10], "1": {"0": [[]], "-": 0}}"#,
];

#[test]
fn the_edits_between_two_documents_turn_the_first_into_the_second() {
    for left_text in DOCUMENTS {
        for right_text in DOCUMENTS {
            let left = read_json_str(left_text).unwrap();
            let right = read_json_str(right_text).unwrap();
            let patch = JsonPatch::between(&left, &right);
            assert_eq!(
                patch.apply(&left).unwrap(),
                right,
                "{} -> {}",
                left_text,
                right_text
            );
            let edits = diff_json(left_text, right_text).unwrap();
            assert_eq!(patch.patches.len(), edits.len());
            assert_eq!(JsonPatch::from_diff(&edits).apply(&left).unwrap(), right);
        }
    }
}

#[test]
fn each_edit_becomes_the_operation_of_its_kind() {
    let edits = diff_json(r#"{"a": 1, "b": [1], "c": 2}"#, r#"{"b": [1, 2], "c": 3, "d": 4}"#)
        .unwrap();
    let patch = JsonPatch::from_diff(&edits);
    let shown: Vec<String> = patch
        .patches
        .iter()
        .map(|elem| {
            let kind = match &elem.patch {
                Patch::Add(_) => "add",
                Patch::Remove => "remove",
                Patch::Replace(_) => "replace",
                _ => "other",
            };
            format!("{} {}", kind, elem.path.to_pointer_string())
        })
        .collect();
    assert_eq!(shown, vec!["add /b/1", "replace /c", "remove /a", "add /d"]);
    assert_eq!(
        patch.patches[0].path,
        Path::new(vec![PathElem::Key("b".to_string()), PathElem::Index(1)])
    );
}
