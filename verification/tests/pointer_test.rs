use json_diff_patch::codec::read_json_str;
use json_diff_patch::error::JsonPatchError;
use json_diff_patch::jsonptr::operate_by_jsonptr::OperateByJsonptr;
use json_diff_patch::path::{Path, PathElem};
use json_diff_patch::jsonptr::pointer::JsonPointer;
use json_diff_patch::jsonptr::token::{Token, TokenIndex};
use json_diff_patch::value::{JsonValue, Number};
use json_diff_patch::jsonptr::value_mut_ref::{Action, ValueMutRef};

fn doc(text: &str) -> JsonValue {
    read_json_str(text).unwrap()
}

fn ptr(text: &str) -> JsonPointer {
    JsonPointer::new(text).unwrap()
}

fn num(n: u64) -> JsonValue {
    JsonValue::Number(Number::PosInt(n))
}

fn string(s: &str) -> JsonValue {
    JsonValue::String(s.to_string())
}

#[test]
fn the_empty_text_is_the_pointer_to_the_root() {
    let p = ptr("");
    assert_eq!(p.len(), 0);
    assert_eq!(p.to_escaped_string(), "");
    let d = doc("[1, 2]");
    assert_eq!(p.get(&d).unwrap(), &d);
}

#[test]
fn a_single_slash_writes_one_empty_token() {
    let p = ptr("/");
    assert_eq!(p.len(), 1);
    assert_eq!(p.token(0).as_key(), "");
    assert_eq!(p.to_escaped_string(), "/");
    let d = doc(r#"{"": 7}"#);
    assert_eq!(p.get(&d).unwrap(), &num(7));
}

#[test]
fn a_text_without_leading_slash_is_malformed() {
    for text in ["a", "a/b", " /a", "~0"] {
        match JsonPointer::new(text) {
            Err(JsonPatchError::MalformedPointer) => {}
            other => panic!("{:?}", other),
        }
    }
}

#[test]
fn tokens_are_unescaped_when_read_and_escaped_when_written() {
    let p = ptr("/a~1b/m~0n/~01/~/x~");
    assert_eq!(p.len(), 5);
    assert_eq!(p.token(0).as_key(), "a/b");
    assert_eq!(p.token(1).as_key(), "m~n");
    assert_eq!(p.token(2).as_key(), "~1");
    assert_eq!(p.token(3).as_key(), "~");
    assert_eq!(p.token(4).as_key(), "x~");
    assert_eq!(p.to_escaped_string(), "/a~1b/m~0n/~01/~0/x~0");
}

#[test]
fn a_pointer_read_from_its_own_text_is_the_same_pointer() {
    for text in ["", "/", "//", "/a/b", "/a~1b/~0~1/0/-", "/ /\u{e9}/\"\\"] {
        let p = ptr(text);
        let again = ptr(&p.to_escaped_string());
        assert_eq!(again.to_escaped_string(), text);
        assert_eq!(again.len(), p.len());
        for i in 0..p.len() {
            assert_eq!(again.token(i).as_key(), p.token(i).as_key());
        }
    }
}

#[test]
fn token_escaping() {
    assert_eq!(Token::new("~01").as_key(), "~1");
    assert_eq!(Token::new("~1~0").as_key(), "/~");
    assert_eq!(Token::new("~2").as_key(), "~2");
    assert_eq!(Token::from_key("a/b~c").to_escaped_string(), "a~1b~0c");
    assert_eq!(Token::new("a~1b~0c").to_escaped_string(), "a~1b~0c");
}

#[test]
fn token_as_index() {
    assert_eq!(Token::new("0").as_index(), Some(TokenIndex::Index(0)));
    assert_eq!(Token::new("7").as_index(), Some(TokenIndex::Index(7)));
    assert_eq!(Token::new("120").as_index(), Some(TokenIndex::Index(120)));
    assert_eq!(Token::new("-").as_index(), Some(TokenIndex::IndexAfterLastElem));
    assert_eq!(Token::new("").as_index(), None);
    assert_eq!(Token::new("00").as_index(), None);
    assert_eq!(Token::new("01").as_index(), None);
    assert_eq!(Token::new("+1").as_index(), None);
    assert_eq!(Token::new("-1").as_index(), None);
    assert_eq!(Token::new("--").as_index(), None);
    assert_eq!(Token::new("1a").as_index(), None);
    assert_eq!(Token::new(" 1").as_index(), None);
    assert_eq!(Token::new("\u{661}").as_index(), None);
    let max = usize::MAX.to_string();
    assert_eq!(Token::new(&max).as_index(), Some(TokenIndex::Index(usize::MAX)));
    assert_eq!(Token::new("18446744073709551616").as_index(), None);
    assert_eq!(Token::new("99999999999999999999999").as_index(), None);
}

#[test]
fn get_walks_objects_and_arrays() {
    let d = doc(r#"{"foo": ["bar", {"1": "one", "baz": [10, 20]}], "": 0, "a/b": 1, "m~n": 2}"#);
    assert_eq!(ptr("/foo/0").get(&d).unwrap(), &string("bar"));
    assert_eq!(ptr("/foo/1/1").get(&d).unwrap(), &string("one"));
    assert_eq!(ptr("/foo/1/baz/1").get(&d).unwrap(), &num(20));
    assert_eq!(ptr("/").get(&d).unwrap(), &num(0));
    assert_eq!(ptr("/a~1b").get(&d).unwrap(), &num(1));
    assert_eq!(ptr("/m~0n").get(&d).unwrap(), &num(2));
    assert_eq!(d.get_by_ptr(&ptr("/foo/1/baz/0")).unwrap(), &num(10));
}

#[test]
fn get_fails_with_the_kind_of_the_first_step_that_fails() {
    let d = doc(r#"{"foo": ["bar", "baz"], "n": 1}"#);
    match ptr("/nope/0").get(&d) {
        Err(JsonPatchError::KeyNotFound { key }) => assert_eq!(key, "nope"),
        other => panic!("{:?}", other),
    }
    match ptr("/foo/2").get(&d) {
        Err(JsonPatchError::IndexOutOfRange { index: 2, len: 2 }) => {}
        other => panic!("{:?}", other),
    }
    match ptr("/foo/-").get(&d) {
        Err(JsonPatchError::InvalidIndex) => {}
        other => panic!("{:?}", other),
    }
    match ptr("/foo/x").get(&d) {
        Err(JsonPatchError::InvalidIndex) => {}
        other => panic!("{:?}", other),
    }
    match ptr("/foo/01").get(&d) {
        Err(JsonPatchError::InvalidIndex) => {}
        other => panic!("{:?}", other),
    }
    match ptr("/n/0").get(&d) {
        Err(JsonPatchError::NotContainer) => {}
        other => panic!("{:?}", other),
    }
    match ptr("/foo/0/x").get(&d) {
        Err(JsonPatchError::NotContainer) => {}
        other => panic!("{:?}", other),
    }
}

#[test]
fn get_mut_names_the_place_of_the_last_token() {
    let d = doc(r#"{"foo": ["bar", "baz"], "n": 1}"#);
    assert!(matches!(ptr("").get_mut(&d), Ok(ValueMutRef::Root)));
    match ptr("/foo/1").get_mut(&d) {
        Ok(ValueMutRef::ArrayElem { parent, idx }) => {
            assert_eq!(parent.to_escaped_string(), "/foo");
            assert_eq!(idx, TokenIndex::Index(1));
        }
        other => panic!("{:?}", other),
    }
    match ptr("/foo/9").get_mut(&d) {
        Ok(ValueMutRef::ArrayElem { idx, .. }) => assert_eq!(idx, TokenIndex::Index(9)),
        other => panic!("{:?}", other),
    }
    match ptr("/foo/-").get_mut(&d) {
        Ok(ValueMutRef::ArrayElem { idx, .. }) => assert_eq!(idx, TokenIndex::IndexAfterLastElem),
        other => panic!("{:?}", other),
    }
    match ptr("/absent").get_mut(&d) {
        Ok(ValueMutRef::ObjElem { parent, key }) => {
            assert_eq!(parent.len(), 0);
            assert_eq!(key, "absent");
        }
        other => panic!("{:?}", other),
    }
    assert!(matches!(ptr("/foo/x").get_mut(&d), Err(JsonPatchError::InvalidIndex)));
    assert!(matches!(ptr("/n/x").get_mut(&d), Err(JsonPatchError::NotContainer)));
    assert!(matches!(ptr("/foo/-/x").get_mut(&d), Err(JsonPatchError::InvalidIndex)));
    assert!(matches!(
        ptr("/foo/5/x").get_mut(&d),
        Err(JsonPatchError::IndexOutOfRange { index: 5, len: 2 })
    ));
    match ptr("/absent/x").get_mut(&d) {
        Err(JsonPatchError::KeyNotFound { key }) => assert_eq!(key, "absent"),
        other => panic!("{:?}", other),
    }
}

#[test]
fn set_overwrites_and_appends() {
    let mut d = doc(r#"{"foo": ["bar", "baz"]}"#);
    ptr("/foo/1").get_mut(&d).unwrap().set(&mut d, num(5)).unwrap();
    assert_eq!(d, doc(r#"{"foo": ["bar", 5]}"#));
    ptr("/foo/-").get_mut(&d).unwrap().set(&mut d, num(6)).unwrap();
    assert_eq!(d, doc(r#"{"foo": ["bar", 5, 6]}"#));
    ptr("/new").get_mut(&d).unwrap().set(&mut d, JsonValue::Null).unwrap();
    assert_eq!(d, doc(r#"{"foo": ["bar", 5, 6], "new": null}"#));
    ptr("/new").get_mut(&d).unwrap().set(&mut d, JsonValue::Bool(true)).unwrap();
    assert_eq!(d, doc(r#"{"foo": ["bar", 5, 6], "new": true}"#));
    let before = d.clone();
    match ptr("/foo/3").get_mut(&d).unwrap().set(&mut d, num(7)) {
        Err(JsonPatchError::IndexOutOfRange { index: 3, len: 3 }) => {}
        other => panic!("{:?}", other),
    }
    assert_eq!(d, before);
    ptr("").get_mut(&d).unwrap().set(&mut d, num(1)).unwrap();
    assert_eq!(d, num(1));
}

#[test]
fn add_inserts_before_an_item() {
    let mut d = doc(r#"{"foo": ["bar", "baz"]}"#);
    ptr("/foo/1").get_mut(&d).unwrap().add(&mut d, string("qux")).unwrap();
    assert_eq!(d, doc(r#"{"foo": ["bar", "qux", "baz"]}"#));
    ptr("/foo/3").get_mut(&d).unwrap().add(&mut d, string("end")).unwrap();
    assert_eq!(d, doc(r#"{"foo": ["bar", "qux", "baz", "end"]}"#));
    ptr("/foo/0").get_mut(&d).unwrap().add(&mut d, string("head")).unwrap();
    assert_eq!(d, doc(r#"{"foo": ["head", "bar", "qux", "baz", "end"]}"#));
    ptr("/foo/-").get_mut(&d).unwrap().add(&mut d, string("tail")).unwrap();
    assert_eq!(d, doc(r#"{"foo": ["head", "bar", "qux", "baz", "end", "tail"]}"#));
    match ptr("/foo/7").get_mut(&d).unwrap().add(&mut d, num(0)) {
        Err(JsonPatchError::IndexOutOfRange { index: 7, len: 6 }) => {}
        other => panic!("{:?}", other),
    }
    ptr("/foo").get_mut(&d).unwrap().add(&mut d, num(1)).unwrap();
    assert_eq!(d, doc(r#"{"foo": 1}"#));
    ptr("/bar").get_mut(&d).unwrap().add(&mut d, num(2)).unwrap();
    assert_eq!(d, doc(r#"{"foo": 1, "bar": 2}"#));
    ptr("").get_mut(&d).unwrap().add(&mut d, JsonValue::Null).unwrap();
    assert_eq!(d, JsonValue::Null);
}

#[test]
fn replace_needs_the_member_to_be_there() {
    let mut d = doc(r#"{"foo": ["bar", "baz"], "n": 1}"#);
    ptr("/n").get_mut(&d).unwrap().replace(&mut d, num(2)).unwrap();
    assert_eq!(d, doc(r#"{"foo": ["bar", "baz"], "n": 2}"#));
    match ptr("/m").get_mut(&d).unwrap().replace(&mut d, num(3)) {
        Err(JsonPatchError::KeyNotExist { key }) => assert_eq!(key, "m"),
        other => panic!("{:?}", other),
    }
    assert_eq!(d, doc(r#"{"foo": ["bar", "baz"], "n": 2}"#));
    ptr("/foo/0").get_mut(&d).unwrap().replace(&mut d, num(0)).unwrap();
    assert_eq!(d, doc(r#"{"foo": [0, "baz"], "n": 2}"#));
    assert!(matches!(
        ptr("/foo/2").get_mut(&d).unwrap().replace(&mut d, num(0)),
        Err(JsonPatchError::IndexOutOfRange { index: 2, len: 2 })
    ));
    ptr("/foo/-").get_mut(&d).unwrap().replace(&mut d, num(9)).unwrap();
    assert_eq!(d, doc(r#"{"foo": [0, "baz", 9], "n": 2}"#));
    ptr("").get_mut(&d).unwrap().replace(&mut d, num(1)).unwrap();
    assert_eq!(d, num(1));
}

#[test]
fn delete_hands_out_what_it_takes() {
    let mut d = doc(r#"{"foo": ["bar", "qux", "baz"], "n": 1}"#);
    let out = ptr("/foo/1").get_mut(&d).unwrap().delete(&mut d).unwrap();
    assert_eq!(out, string("qux"));
    assert_eq!(d, doc(r#"{"foo": ["bar", "baz"], "n": 1}"#));
    let out = ptr("/foo/-").get_mut(&d).unwrap().delete(&mut d).unwrap();
    assert_eq!(out, string("baz"));
    assert_eq!(d, doc(r#"{"foo": ["bar"], "n": 1}"#));
    let out = ptr("/n").get_mut(&d).unwrap().delete(&mut d).unwrap();
    assert_eq!(out, num(1));
    assert_eq!(d, doc(r#"{"foo": ["bar"]}"#));
    match ptr("/n").get_mut(&d).unwrap().delete(&mut d) {
        Err(JsonPatchError::KeyNotExist { key }) => assert_eq!(key, "n"),
        other => panic!("{:?}", other),
    }
    assert!(matches!(
        ptr("/foo/1").get_mut(&d).unwrap().delete(&mut d),
        Err(JsonPatchError::IndexOutOfRange { index: 1, len: 1 })
    ));
    assert!(matches!(
        ptr("").get_mut(&d).unwrap().delete(&mut d),
        Err(JsonPatchError::CannotDeleteRoot)
    ));
    assert_eq!(d, doc(r#"{"foo": ["bar"]}"#));
}

#[test]
fn deleting_behind_the_last_item_of_an_empty_array_fails() {
    let mut d = doc(r#"{"foo": []}"#);
    assert!(matches!(
        ptr("/foo/-").get_mut(&d).unwrap().delete(&mut d),
        Err(JsonPatchError::IndexOutOfRange { index: 0, len: 0 })
    ));
    assert_eq!(d, doc(r#"{"foo": []}"#));
}

#[test]
fn a_place_reads_the_value_that_stands_there() {
    let d = doc(r#"{"foo": ["bar", "baz"], "n": 1}"#);
    assert_eq!(ptr("").get_mut(&d).unwrap().get(&d), Some(&d));
    assert_eq!(ptr("/foo/1").get_mut(&d).unwrap().get(&d), Some(&string("baz")));
    assert_eq!(ptr("/foo/2").get_mut(&d).unwrap().get(&d), None);
    assert_eq!(ptr("/foo/-").get_mut(&d).unwrap().get(&d), None);
    assert_eq!(ptr("/n").get_mut(&d).unwrap().get(&d), Some(&num(1)));
    assert_eq!(ptr("/m").get_mut(&d).unwrap().get(&d), None);
}

#[test]
fn a_place_used_on_another_document_fails_or_finds_the_node_there() {
    let d = doc(r#"{"foo": ["bar", "baz"]}"#);
    let place = ptr("/foo/1").get_mut(&d).unwrap();
    let mut other = doc(r#"{"foo": {"1": true}}"#);
    assert!(matches!(place.set(&mut other, num(0)), Err(JsonPatchError::NotContainer)));
    let place = ptr("/foo/1").get_mut(&d).unwrap();
    let mut other = doc(r#"{"bar": 1}"#);
    match place.set(&mut other, num(0)) {
        Err(JsonPatchError::KeyNotFound { key }) => assert_eq!(key, "foo"),
        other => panic!("{:?}", other),
    }
    let place = ptr("/foo/1").get_mut(&d).unwrap();
    let mut other = doc(r#"{"foo": [1, 2, 3]}"#);
    place.set(&mut other, num(0)).unwrap();
    assert_eq!(other, doc(r#"{"foo": [1, 0, 3]}"#));
}

#[test]
fn operating_on_a_document_by_pointer() {
    let mut d = doc(r#"{"a": {"b": [1, 2]}}"#);
    d.add(&ptr("/a/b/1"), num(9)).unwrap();
    assert_eq!(d, doc(r#"{"a": {"b": [1, 9, 2]}}"#));
    d.replace(&ptr("/a/b/0"), num(8)).unwrap();
    assert_eq!(d, doc(r#"{"a": {"b": [8, 9, 2]}}"#));
    assert_eq!(d.delete(&ptr("/a/b/2")).unwrap(), num(2));
    assert_eq!(d, doc(r#"{"a": {"b": [8, 9]}}"#));
    d.add(&ptr("/a/c"), string("x")).unwrap();
    assert_eq!(d, doc(r#"{"a": {"b": [8, 9], "c": "x"}}"#));
    match d.replace(&ptr("/a/d"), num(0)) {
        Err(JsonPatchError::KeyNotExist { key }) => assert_eq!(key, "d"),
        other => panic!("{:?}", other),
    }
    match d.add(&ptr("/x/y"), num(0)) {
        Err(JsonPatchError::KeyNotFound { key }) => assert_eq!(key, "x"),
        other => panic!("{:?}", other),
    }
    assert!(matches!(d.delete(&ptr("")), Err(JsonPatchError::CannotDeleteRoot)));
    assert_eq!(d, doc(r#"{"a": {"b": [8, 9], "c": "x"}}"#));
}

#[test]
fn a_token_on_an_object_is_a_key_whatever_it_looks_like() {
    let mut d = doc(r#"{"1": "one", "-": "dash"}"#);
    assert_eq!(ptr("/1").get(&d).unwrap(), &string("one"));
    assert_eq!(ptr("/-").get(&d).unwrap(), &string("dash"));
    d.add(&ptr("/01"), num(1)).unwrap();
    assert_eq!(d, doc(r#"{"1": "one", "-": "dash", "01": 1}"#));
}

#[test]
fn paths_and_pointers() {
    let path = Path::parse("/a/1/-/01/~1").unwrap();
    assert_eq!(
        path,
        Path::new(vec![
            PathElem::Key("a".to_string()),
            PathElem::Index(1),
            PathElem::Key("-".to_string()),
            PathElem::Key("01".to_string()),
            PathElem::Key("/".to_string()),
        ])
    );
    assert_eq!(path.to_pointer_string(), "/a/1/-/01/~1");
    assert_eq!(path.to_string(), "/a/_1/-/01//");
    assert_eq!(Path::parse("").unwrap(), Path::empty());
    assert_eq!(Path::empty().to_pointer_string(), "");
    assert!(matches!(Path::parse("a"), Err(JsonPatchError::MalformedPointer)));
    let p = JsonPointer::from_path(&path);
    assert_eq!(p.to_path(), path);
    assert_eq!(p.len(), 5);
}

#[test]
fn a_key_that_looks_like_an_index_comes_back_as_an_index() {
    let path = Path::new(vec![PathElem::Key("1".to_string())]);
    let text = path.to_pointer_string();
    assert_eq!(text, "/1");
    assert_eq!(Path::parse(&text).unwrap(), Path::new(vec![PathElem::Index(1)]));
}

#[test]
fn path_building() {
    let root = Path::empty();
    assert_eq!(root.len(), 0);
    assert_eq!(root.parent_path(), None);
    assert_eq!(root.last(), None);
    let a = root.clone_then_add_key("a");
    let a3 = a.clone_then_add_idx(3);
    assert_eq!(a, Path::new(vec![PathElem::Key("a".to_string())]));
    assert_eq!(a3, Path::new(vec![PathElem::Key("a".to_string()), PathElem::Index(3)]));
    assert_eq!(a3.parent_path(), Some(a.clone()));
    assert_eq!(a.parent_path(), Some(Path::empty()));
    assert_eq!(a3.last(), Some(&PathElem::Index(3)));
    let mut p = Path::empty();
    p.push_key("k");
    p.push_idx(0);
    assert_eq!(p, Path::new(vec![PathElem::Key("k".to_string()), PathElem::Index(0)]));
    assert_eq!(p.to_string(), "/k/_0");
    assert_ne!(p, a3);
}

#[test]
fn a_pointer_is_made_of_tokens_and_cut_to_its_front() {
    let p = JsonPointer::from_tokens(vec![
        Token::from_key("a/b"),
        Token::new("1"),
        Token::from_key("~"),
    ]);
    assert_eq!(p.to_escaped_string(), "/a~1b/1/~0");
    assert_eq!(p.prefix(0).to_escaped_string(), "");
    assert_eq!(p.prefix(2).to_escaped_string(), "/a~1b/1");
    assert_eq!(p.prefix(3).to_escaped_string(), "/a~1b/1/~0");
    assert_eq!(p.clone().to_escaped_string(), p.to_escaped_string());
    assert_eq!(p.token(1).clone().as_index(), Some(TokenIndex::Index(1)));
}

#[test]
fn an_act_at_a_place_hands_out_what_it_takes() {
    let mut d = doc(r#"{"foo": ["bar", "baz"]}"#);
    let place = ptr("/foo/0").get_mut(&d).unwrap();
    assert_eq!(place.act(&mut d, Action::Delete).unwrap(), Some(string("bar")));
    assert_eq!(place.act(&mut d, Action::Add(num(1))).unwrap(), None);
    assert_eq!(place.act(&mut d, Action::SetTo(num(2))).unwrap(), None);
    assert_eq!(place.act(&mut d, Action::Replace(num(3))).unwrap(), None);
    assert_eq!(d, doc(r#"{"foo": [3, "baz"]}"#));
}
