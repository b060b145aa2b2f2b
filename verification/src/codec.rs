//! Documents as text: reading a text with `serde_json` and turning the tree
//! that it hands back into a [`JsonValue`].

use vstd::prelude::*;
use crate::error::JsonPatchError;
use crate::members::{lemma_with_member_after, lemma_with_member_sorted, put_member};
use crate::text::key_lt;
use crate::value::{
    keys_sorted, lemma_array_view, lemma_object_view, members_view, values_view, with_member, Json,
    JsonValue, Number,
};

verus! {

/// The document that a text writes as `serde_json` reads it, if it writes
/// one.
pub uninterp spec fn json_text(text: Seq<char>) -> Option<Json>;

/// What a tree of `serde_json` holds: null, a truth value, a number (a
/// whole number that is not negative, a negative whole number, or else the
/// bits of a double), a text, its items, or its members in the order in
/// which its map hands them out.
pub uninterp spec fn tree_model(tree: serde_json::Value) -> Json;

/// Reads a text with `serde_json::from_str`. A tree comes back exactly when
/// the text writes a document, and it holds that document.
#[verifier::external_body]
fn tree_of_text(text: &str) -> (r: Result<serde_json::Value, serde_json::Error>)
    ensures
        match r {
            Ok(tree) => json_text(text@) == Some(tree_model(tree)),
            Err(_) => json_text(text@) is None,
        },
{
    serde_json::from_str(text)
}

/// What `serde_json::Error` says of itself, by its `to_string`.
#[verifier::external_body]
fn error_message(e: &serde_json::Error) -> (r: String) {
    e.to_string()
}

/// `serde_json::Value::is_null`: whether the tree is the null document.
#[verifier::external_body]
fn tree_is_null(tree: &serde_json::Value) -> (r: bool)
    ensures
        r == (tree_model(*tree) is Null),
{
    tree.is_null()
}

/// `serde_json::Value::as_bool`: the truth value that the tree is, if it is
/// one.
#[verifier::external_body]
fn tree_bool(tree: &serde_json::Value) -> (r: Option<bool>)
    ensures
        r == (match tree_model(*tree) {
            Json::Bool(b) => Some(b),
            _ => None,
        }),
{
    tree.as_bool()
}

/// `serde_json::Value::as_u64`: the number that the tree is, if it is a
/// whole number that is not negative.
#[verifier::external_body]
fn tree_u64(tree: &serde_json::Value) -> (r: Option<u64>)
    ensures
        r == (match tree_model(*tree) {
            Json::Number(Number::PosInt(n)) => Some(n),
            _ => None,
        }),
{
    tree.as_u64()
}

/// `serde_json::Value::as_i64`: the number that the tree is, if it is a
/// whole number within `i64`. A negative number that comes back is what the
/// tree holds as a negative whole number.
#[verifier::external_body]
fn tree_i64(tree: &serde_json::Value) -> (r: Option<i64>)
    ensures
        match r {
            Some(n) => if n < 0 {
                tree_model(*tree) == Json::Number(Number::NegInt(n))
            } else {
                tree_model(*tree) == Json::Number(Number::PosInt(n as u64))
            },
            None => !(tree_model(*tree) matches Json::Number(Number::NegInt(_))),
        },
{
    tree.as_i64()
}

/// `serde_json::Value::as_f64`, as the bits of the double: some bits for
/// every number, and for a number that is no whole number the bits that the
/// tree holds.
#[verifier::external_body]
fn tree_float_bits(tree: &serde_json::Value) -> (r: Option<u64>)
    ensures
        match tree_model(*tree) {
            Json::Number(Number::Float(bits)) => r == Some(bits),
            Json::Number(_) => r is Some,
            _ => r is None,
        },
{
    tree.as_f64().map(|x| x.to_bits())
}

/// `serde_json::Value::as_str`: the text that the tree is, if it is one.
#[verifier::external_body]
fn tree_str(tree: &serde_json::Value) -> (r: Option<&str>)
    ensures
        match r {
            Some(s) => tree_model(*tree) == Json::String(s@),
            None => !(tree_model(*tree) is String),
        },
{
    tree.as_str()
}

/// `serde_json::Value::as_array`: the items of the tree, if it is an array.
#[verifier::external_body]
fn tree_items(tree: &serde_json::Value) -> (r: Option<&Vec<serde_json::Value>>)
    ensures
        match r {
            Some(items) => tree_model(*tree) == Json::Array(
                Seq::new(items@.len(), |i: int| tree_model(items@[i])),
            ),
            None => !(tree_model(*tree) is Array),
        },
{
    tree.as_array()
}

/// `serde_json::Value::as_object` and `serde_json::Map::iter`: the members
/// of the tree, if it is an object, in the order in which the map hands
/// them out, each key copied.
#[verifier::external_body]
fn tree_members(tree: &serde_json::Value) -> (r: Option<Vec<(String, &serde_json::Value)>>)
    ensures
        match r {
            Some(members) => tree_model(*tree) == Json::Object(
                Seq::new(members@.len(), |i: int| (members@[i].0@, tree_model(*members@[i].1))),
            ),
            None => !(tree_model(*tree) is Object),
        },
{
    tree.as_object().map(|m| m.iter().map(|(k, v)| (k.clone(), v)).collect())
}


/// A document in the form that this library keeps: the members of every
/// object in the order of their keys, a later member of a name taking the
/// place of an earlier one.
pub open spec fn normal(doc: Json) -> Json
    decreases doc, 0nat,
{
    match doc {
        Json::Array(items) => Json::Array(
            Seq::new(
                items.len(),
                |i: int|
                    if 0 <= i < items.len() {
                        normal(items[i])
                    } else {
                        Json::Null
                    },
            ),
        ),
        Json::Object(members) => Json::Object(normal_members(members, members.len() as int)),
        _ => doc,
    }
}

/// The first `n` members of an object, each in the form that this library
/// keeps, bound one after another.
pub open spec fn normal_members(members: Seq<(Seq<char>, Json)>, n: int) -> Seq<(Seq<char>, Json)>
    decreases members, n,
{
    if n <= 0 || n > members.len() {
        Seq::empty()
    } else {
        with_member(normal_members(members, n - 1), members[n - 1].0, normal(members[n - 1].1))
    }
}

/// The members of a well-formed object are in the form that this library
/// keeps already.
proof fn lemma_normal_members_of_well_formed(members: Seq<(Seq<char>, Json)>, n: int)
    requires
        Json::Object(members).wf(),
        0 <= n <= members.len(),
    ensures
        normal_members(members, n) == members.take(n),
    decreases members, n,
{
    if n > 0 {
        lemma_normal_members_of_well_formed(members, n - 1);
        let front = members.take(n - 1);
        let last = members[n - 1];
        assert(last.1.wf());
        lemma_normal_of_well_formed(last.1);
        assert forall|j: int| 0 <= j < front.len() implies key_lt(
            (#[trigger] front[j]).0,
            last.0,
        ) by {
            assert(front[j] == members[j]);
        }
        lemma_with_member_after(front, last.0, last.1, front.len() as int);
        assert(front.skip(front.len() as int) =~= Seq::<(Seq<char>, Json)>::empty());
        assert(front.take(front.len() as int) =~= front);
        assert(front + seq![last] =~= members.take(n));
    } else {
        assert(members.take(0) =~= Seq::<(Seq<char>, Json)>::empty());
    }
}

/// A well-formed document is in the form that this library keeps already.
pub proof fn lemma_normal_of_well_formed(doc: Json)
    requires
        doc.wf(),
    ensures
        normal(doc) == doc,
    decreases doc, 0nat,
{
    match doc {
        Json::Array(items) => {
            assert forall|i: int| 0 <= i < items.len() implies normal(doc)->Array_0[i]
                == items[i] by {
                assert(items[i].wf());
                lemma_normal_of_well_formed(items[i]);
            }
            assert(normal(doc)->Array_0 =~= items);
        },
        Json::Object(members) => {
            lemma_normal_members_of_well_formed(members, members.len() as int);
            assert(members.take(members.len() as int) =~= members);
        },
        _ => {},
    }
}

/// The document that a text writes, in the form that this library keeps.
pub open spec fn document_of_text(text: Seq<char>) -> Option<Json> {
    match json_text(text) {
        Some(doc) => Some(normal(doc)),
        None => None,
    }
}

/// The document that a tree of `serde_json` holds.
pub fn value_of_tree(tree: &serde_json::Value) -> (r: JsonValue)
    ensures
        r@ == normal(tree_model(*tree)),
        r@.wf(),
    decreases tree_model(*tree),
{
    let ghost model = tree_model(*tree);
    if tree_is_null(tree) {
        return JsonValue::Null;
    }
    if let Some(b) = tree_bool(tree) {
        return JsonValue::Bool(b);
    }
    if let Some(n) = tree_u64(tree) {
        return JsonValue::Number(Number::PosInt(n));
    }
    if let Some(n) = tree_i64(tree) {
        if n < 0 {
            return JsonValue::Number(Number::NegInt(n));
        } else {
            return JsonValue::Number(Number::PosInt(n as u64));
        }
    }
    if let Some(bits) = tree_float_bits(tree) {
        return JsonValue::Number(Number::Float(bits));
    }
    if let Some(s) = tree_str(tree) {
        return JsonValue::String(s.to_owned());
    }
    if let Some(items) = tree_items(tree) {
        let mut out: Vec<JsonValue> = Vec::new();
        let mut i: usize = 0;
        while i < items.len()
            invariant
                model == tree_model(*tree),
                model == Json::Array(Seq::new(items@.len(), |k: int| tree_model(items@[k]))),
                i <= items@.len(),
                out@.len() == i,
                forall|k: int|
                    0 <= k < i ==> (#[trigger] out@[k])@ == normal(tree_model(items@[k]))
                        && out@[k]@.wf(),
            decreases items@.len() - i,
        {
            proof {
                assert(model->Array_0[i as int] == tree_model(items@[i as int]));
                assert(decreases_to!(model => model->Array_0));
                assert(decreases_to!(model->Array_0 => model->Array_0[i as int]));
            }
            out.push(value_of_tree(&items[i]));
            i += 1;
        }
        let r = JsonValue::Array(out);
        proof {
            lemma_array_view(r);
            assert(values_view(out@) =~= normal(model)->Array_0);
        }
        return r;
    }
    match tree_members(tree) {
        Some(members) => {
            let mut out: Vec<(String, JsonValue)> = Vec::new();
            let mut i: usize = 0;
            let ghost ms = model->Object_0;
            while i < members.len()
                invariant
                    model == tree_model(*tree),
                    model == Json::Object(ms),
                    ms == Seq::new(
                        members@.len(),
                        |k: int| (members@[k].0@, tree_model(*members@[k].1)),
                    ),
                    i <= members@.len(),
                    members_view(out@) == normal_members(ms, i as int),
                    keys_sorted(members_view(out@)),
                    forall|k: int|
                        0 <= k < out@.len() ==> (#[trigger] members_view(out@)[k]).1.wf(),
                decreases members@.len() - i,
            {
                proof {
                    assert(ms[i as int] == (
                        members@[i as int].0@,
                        tree_model(*members@[i as int].1),
                    ));
                    assert(decreases_to!(model => model->Object_0));
                    assert(decreases_to!(ms => ms[i as int]));
                    assert(decreases_to!(ms[i as int] => ms[i as int].1));
                }
                let child = value_of_tree(members[i].1);
                let ghost before = members_view(out@);
                proof {
                    lemma_with_member_sorted(before, members@[i as int].0@, child@);
                }
                put_member(&mut out, members[i].0.clone(), child);
                proof {
                    let after = members_view(out@);
                    assert forall|k: int| 0 <= k < out@.len() implies (
                    #[trigger] after[k]).1.wf() by {
                        let m = after[k];
                        if m != (members@[i as int].0@, child@) {
                            let j = choose|j: int| 0 <= j < before.len() && before[j] == m;
                            assert(before[j].1.wf());
                        }
                    }
                }
                i += 1;
            }
            let r = JsonValue::Object(out);
            proof {
                lemma_object_view(r);
            }
            r
        },
        None => JsonValue::Null,
    }
}

/// The document that a text writes.
pub fn read_json_str(s: &str) -> (r: Result<JsonValue, JsonPatchError>)
    ensures
        match r {
            Ok(doc) => document_of_text(s@) == Some(doc@) && doc@.wf(),
            Err(e) => document_of_text(s@) is None && e@ is InvalidJson,
        },
{
    match tree_of_text(s) {
        Ok(tree) => Ok(value_of_tree(&tree)),
        Err(e) => Err(JsonPatchError::InvalidJson { message: error_message(&e) }),
    }
}

} // verus!
