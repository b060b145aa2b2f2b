use json_diff_patch::patch::{JsonPatch, JsonPatchError, Patch, PatchElem};
use json_diff_patch::{read_json_str, JsonValue, Number, Path, PathElem};

#[test]
fn add_simple_key() {
    let data = r#"
    {
        "foo": {
            "bar": 2
        }
    }
    "#;
    let patch = PatchElem {
        patch: Patch::Add(JsonValue::String("hello".to_string())),
        path: Path::new(vec![
            PathElem::Key("foo".to_string()),
            PathElem::Key("baz".to_string()),
        ]),
    };

    let jp = JsonPatch {
        patches: vec![patch],
    };
    let res = jp.apply(&read_json_str(data).unwrap()).unwrap();
    let expected_str = r#"
    {
        "foo": {
            "bar": 2,
            "baz": "hello"
        }
    }
    "#;
    let expected: JsonValue = read_json_str(expected_str).unwrap();
    assert_eq!(res, expected);
}

#[test]
fn add_simple_index_key() {
    let data = r#"
    {
        "foo": {
            "bar": 2,
            "baz": [1, 3]
        }
    }
    "#;
    let patch = PatchElem {
        patch: Patch::Add(JsonValue::Number(Number::PosInt(2))),
        path: Path::new(vec![
            PathElem::Key("foo".to_string()),
            PathElem::Key("baz".to_string()),
            PathElem::Index(1),
        ]),
    };

    let jp = JsonPatch {
        patches: vec![patch],
    };
    let res = jp.apply(&read_json_str(data).unwrap()).unwrap();
    let expected_str = r#"
    {
        "foo": {
            "bar": 2,
            "baz": [1, 2, 3]
        }
    }
    "#;
    let expected: JsonValue = read_json_str(expected_str).unwrap();
    assert_eq!(res, expected);
}

#[test]
fn add_an_array_element() {
    let data = r#"{ "foo": [ "bar", "baz" ] }"#;
    let patches_str = r#"
        [
            { "op": "add", "path": "/foo/1", "value": "qux" }
        ]
        "#;
    let expected_str = r#"{ "foo": [ "bar", "qux", "baz" ] }"#;
    test_json_patch_arr(data, patches_str, expected_str).unwrap();
}

#[test]
fn add_an_object_member() {
    let data = r#"{ "foo": "bar"}"#;
    let patches_str = r#"
        [
            { "op": "add", "path": "/baz", "value": "qux" }
        ]"#;
    let expected_str = r#"{
            "baz": "qux",
            "foo": "bar"
        }"#;
    test_json_patch_arr(data, patches_str, expected_str).unwrap();
}

#[test]
fn add_a_nested_member_object() {
    let data = r#"{ "foo": "bar"}"#;
    let patches_str = r#"
        [
            { "op": "add", "path": "/child", "value": { "grandchild": { } } }
        ]
        "#;
    let expected_str = r#"
            {
                "foo": "bar",
                "child": {
                    "grandchild": {}
                }
            }
            "#;
    test_json_patch_arr(data, patches_str, expected_str).unwrap();
}

#[test]
fn remove_simple_key() {
    let data = r#"
    {
        "foo": {
            "bar": 2,
            "baz": "hello"
        }
    }
    "#;
    let patch = PatchElem {
        patch: Patch::Remove,
        path: Path::new(vec![
            PathElem::Key("foo".to_string()),
            PathElem::Key("baz".to_string()),
        ]),
    };

    let jp = JsonPatch {
        patches: vec![patch],
    };
    let res = jp.apply(&read_json_str(data).unwrap()).unwrap();
    let expected_str = r#"
    {
        "foo": {
            "bar": 2
        }
    }
    "#;
    let expected: JsonValue = read_json_str(expected_str).unwrap();
    assert_eq!(res, expected);
}

#[test]
fn remove_simple_index_key() {
    let data = r#"
    {
        "foo": {
            "bar": 2,
            "baz": [1, 2, 3]
        }
    }
    "#;
    let patch = PatchElem {
        patch: Patch::Remove,
        path: Path::new(vec![
            PathElem::Key("foo".to_string()),
            PathElem::Key("baz".to_string()),
            PathElem::Index(1),
        ]),
    };

    let jp = JsonPatch {
        patches: vec![patch],
    };
    let res = jp.apply(&read_json_str(data).unwrap()).unwrap();
    let expected_str = r#"
    {
        "foo": {
            "bar": 2,
            "baz": [1, 3]
        }
    }
    "#;
    let expected: JsonValue = read_json_str(expected_str).unwrap();
    assert_eq!(res, expected);
}

#[test]
fn remove_an_object_member() {
    let data = r#"{
            "baz": "qux",
            "foo": "bar"
        }"#;
    let patches_str = r#"
        [
            { "op": "remove", "path": "/baz" }
        ]
        "#;
    let expected_str = r#"{ "foo": "bar" }"#;
    test_json_patch_arr(data, patches_str, expected_str).unwrap();
}

#[test]
fn remove_an_array_element() {
    let data = r#"{ "foo": [ "bar", "qux", "baz" ] }"#;
    let patches_str = r#"
        [
            { "op": "remove", "path": "/foo/1" }
        ]
        "#;
    let expected_str = r#"{ "foo": [ "bar", "baz" ] }"#;
    test_json_patch_arr(data, patches_str, expected_str).unwrap();
}

#[test]
fn replace_simple_key() {
    let data = r#"
    {
        "foo": {
            "bar": 2,
            "baz": "world"
        }
    }
    "#;
    let patch = PatchElem {
        patch: Patch::Replace(JsonValue::String("hello".to_string())),
        path: Path::new(vec![
            PathElem::Key("foo".to_string()),
            PathElem::Key("baz".to_string()),
        ]),
    };

    let jp = JsonPatch {
        patches: vec![patch],
    };
    let res = jp.apply(&read_json_str(data).unwrap()).unwrap();
    let expected_str = r#"
    {
        "foo": {
            "bar": 2,
            "baz": "hello"
        }
    }
    "#;
    let expected: JsonValue = read_json_str(expected_str).unwrap();
    assert_eq!(res, expected);
}

#[test]
fn replace_simple_index_key() {
    let data = r#"
    {
        "foo": {
            "bar": 2,
            "baz": [1, 2, 3]
        }
    }
    "#;
    let patch = PatchElem {
        patch: Patch::Replace(JsonValue::String("hello".to_string())),
        path: Path::new(vec![
            PathElem::Key("foo".to_string()),
            PathElem::Key("baz".to_string()),
            PathElem::Index(1),
        ]),
    };

    let jp = JsonPatch {
        patches: vec![patch],
    };
    let res = jp.apply(&read_json_str(data).unwrap()).unwrap();
    let expected_str = r#"
    {
        "foo": {
            "bar": 2,
            "baz": [1, "hello", 3]
        }
    }
    "#;
    let expected: JsonValue = read_json_str(expected_str).unwrap();
    assert_eq!(res, expected);
}

#[test]
fn replace_a_value() {
    let data = r#"
        {
            "baz": "qux",
            "foo": "bar"
        }"#;
    let patches_str = r#"
        [
            { "op": "replace", "path": "/baz", "value": "boo" }
        ]
        "#;
    let expected_str = r#"
            {
                "baz": "boo",
                "foo": "bar"
            }
            "#;
    test_json_patch_arr(data, patches_str, expected_str).unwrap();
}

fn test_json_patch(
    json: &str,
    patch_str: &str,
    expected_json_str: &str,
) -> Result<(), JsonPatchError> {
    let patch: PatchElem = PatchElem::try_from(patch_str)?;
    let jp = JsonPatch {
        patches: vec![patch],
    };
    let res = jp.apply(&read_json_str(json)?)?;
    let expected: JsonValue = read_json_str(expected_json_str)?;
    assert_eq!(res, expected);
    Ok(())
}

fn test_json_patch_arr(
    json: &str,
    patches_str: &str,
    expected_json_str: &str,
) -> Result<(), JsonPatchError> {
    let jp: JsonPatch = JsonPatch::try_from(patches_str)?;
    let res = jp.apply(&read_json_str(json)?)?;
    let expected: JsonValue = read_json_str(expected_json_str)?;
    assert_eq!(res, expected);
    Ok(())
}

fn to_tree(value: &JsonValue) -> serde_json::Value {
    match value {
        JsonValue::Null => serde_json::Value::Null,
        JsonValue::Bool(b) => serde_json::Value::Bool(*b),
        JsonValue::Number(Number::PosInt(n)) => serde_json::Value::from(*n),
        JsonValue::Number(Number::NegInt(n)) => serde_json::Value::from(*n),
        JsonValue::Number(Number::Float(bits)) => serde_json::Value::from(f64::from_bits(*bits)),
        JsonValue::String(s) => serde_json::Value::String(s.clone()),
        JsonValue::Array(items) => serde_json::Value::Array(items.iter().map(to_tree).collect()),
        JsonValue::Object(members) => serde_json::Value::Object(
            members
                .iter()
                .map(|(k, v)| (k.clone(), to_tree(v)))
                .collect(),
        ),
    }
}

fn to_text(value: &JsonValue) -> String {
    to_tree(value).to_string()
}

#[test]
fn move_a_value() {
    let data = r#"
        {
            "foo": {
                "bar": "baz",
                "waldo": "fred"
        },
            "qux": {
                "corge": "grault"
            }
        }"#;
    let patch_str = r#"{ "op": "move", "from": "/foo/waldo", "path": "/qux/thud" }"#;
    let expected_str = r#"
        {
            "foo": {
                "bar": "baz"
            },
            "qux": {
                "corge": "grault",
                "thud": "fred"
            }
       }"#;

    test_json_patch(data, patch_str, expected_str).unwrap();
}

#[test]
fn move_an_array_element() {
    let data = r#"{ "foo": [ "all", "grass", "cows", "eat" ] }"#;
    let patch_str = r#"{ "op": "move", "from": "/foo/1", "path": "/foo/3" }"#;
    let expected_str = r#"{ "foo": [ "all", "cows", "eat", "grass" ] }"#;
    test_json_patch(data, patch_str, expected_str).unwrap();
}

#[test]
fn copy_a_value() {
    let data = r#"
        {
            "foo": {
                "bar": "baz",
                "waldo": "fred"
        },
            "qux": {
                "corge": "grault"
            }
        }"#;
    let patch_str = r#"{ "op": "copy", "from": "/foo/waldo", "path": "/qux/thud" }"#;
    let expected_str = r#"
        {
            "foo": {
                "bar": "baz",
                "waldo": "fred"
            },
            "qux": {
                "corge": "grault",
                "thud": "fred"
            }
       }"#;

    test_json_patch(data, patch_str, expected_str).unwrap();
}

#[test]
fn copy_an_array_element() {
    let data = r#"{ "foo": [ "all", "grass", "cows", "eat" ] }"#;
    let patch_str = r#"{ "op": "copy", "from": "/foo/1", "path": "/foo/3" }"#;
    let expected_str = r#"{ "foo": [ "all", "grass", "cows", "grass", "eat" ] }"#;
    test_json_patch(data, patch_str, expected_str).unwrap();
}

#[test]
fn test_a_value_success() {
    let data = r#"
       {
            "baz": "qux",
            "foo": [ "a", 2, "c" ]
       }"#;
    let patches_str = r#"
        [
            { "op": "test", "path": "/baz", "value": "qux" },
            { "op": "test", "path": "/foo/1", "value": 2 }
        ]"#;
    test_json_patch_arr(data, patches_str, data).unwrap();
}

#[test]
fn test_a_value_error() {
    let data = r#"{ "baz": "qux" }"#;
    let patches_str = r#"
        [
            { "op": "test", "path": "/baz", "value": "bar" }
        ]
        "#;
    match test_json_patch_arr(data, patches_str, data) {
        Ok(_) => panic!("not get test error"),
        Err(e) => match &e {
            JsonPatchError::TestFail {
                path,
                expected,
                actual,
            } => {
                if path.to_string() == "/baz"
                    && to_text(expected) == "\"bar\""
                    && to_text(actual) == "\"qux\""
                {
                } else {
                    panic!("Wrong test fail error: {:?}", e)
                }
            }
            _ => panic!("Get the wrong JsonPatchError {:?}", e),
        },
    }
}

#[test]
fn ignore_unrecognized_elements() {
    let data = r#"{ "foo": "bar" }"#;
    let patch_str = r#"
        [
            { "op": "add", "path": "/baz", "value": "qux", "xyz": 123 }
        ]
        "#;
    let expected_str = r#"
        {
            "foo": "bar",
            "baz": "qux"
        }
        "#;
    test_json_patch_arr(data, patch_str, expected_str).unwrap();
}

#[test]
fn add_to_nonexistent_target() {
    let data = r#"{ "foo": "bar" }"#;
    let patch_str = r#"
       [
            { "op": "add", "path": "/baz/bat", "value": "qux" }
       ]
    "#;
    match test_json_patch_arr(data, patch_str, data) {
        Ok(_) => panic!("not get test error"),
        Err(e) => {
            println!("######{:?}", e);
            match e {
                JsonPatchError::KeyNotFound { key } => assert_eq!(key, "baz"),
                _ => panic!("Get the wrong JsonPatchError {:?}", e),
            }
        }
    }
}
