//! A place in a document at which a value can be put, changed or taken out.
//!
//! A place holds no part of the document. It names the array or object that
//! holds the node, by the tokens that lead there, and the node in it; every
//! use finds that container anew in the document it is given.

use vstd::prelude::*;
use crate::error::{Failure, JsonPatchError};
use crate::members::{
    find_member, lemma_member_found, lemma_replace_member_at, lemma_replace_member_sorted,
    lemma_with_member_sorted, lemma_without_member_sorted, put_member, take_member,
};
use crate::jsonptr::pointer::{resolve, step_into, JsonPointer};
use crate::jsonptr::token::{token_index, TokenIndex};
use crate::value::{
    lemma_array_view, lemma_object_view, member, members_view, replace_member, values_view,
    with_member, without_member, Json, JsonValue,
};

verus! {

/// A place in a document: the root, an item of the array that `parent`
/// leads to, or a member of the object that `parent` leads to.
#[derive(Debug)]
pub enum ValueMutRef {
    ArrayElem { parent: JsonPointer, idx: TokenIndex },
    ObjElem { parent: JsonPointer, key: String },
    Root,
}

/// The mathematical model of a [`ValueMutRef`].
pub enum Place {
    Item { parent: Seq<Seq<char>>, idx: TokenIndex },
    Member { parent: Seq<Seq<char>>, key: Seq<char> },
    Root,
}

/// A node within its container: an item of an array or a member of an
/// object.
pub enum Slot {
    Item(TokenIndex),
    Member(Seq<char>),
}

/// What is done at a place.
pub enum Act {
    /// Overwrite the node, or append to the array behind its last item.
    SetTo(Json),
    /// Insert before the item, append behind the last, or bind the key.
    Add(Json),
    /// Overwrite a node that is there.
    Replace(Json),
    /// Take the node out.
    Delete,
}

impl Act {
    /// The value that the act brings, if it brings one.
    pub open spec fn value(self) -> Json {
        match self {
            Act::SetTo(v) => v,
            Act::Add(v) => v,
            Act::Replace(v) => v,
            Act::Delete => Json::Null,
        }
    }
}

impl View for ValueMutRef {
    type V = Place;

    open spec fn view(&self) -> Place {
        match self {
            ValueMutRef::ArrayElem { parent, idx } => Place::Item { parent: parent@, idx: *idx },
            ValueMutRef::ObjElem { parent, key } => Place::Member { parent: parent@, key: key@ },
            ValueMutRef::Root => Place::Root,
        }
    }
}

/// The place that the tokens name in `tree`: the root for no token, else
/// the last token in the container that the tokens before it lead to. The
/// node itself need not be there.
pub open spec fn locate(tree: Json, tokens: Seq<Seq<char>>) -> Result<Place, Failure> {
    if tokens.len() == 0 {
        Ok(Place::Root)
    } else {
        match resolve(tree, tokens.drop_last()) {
            Err(e) => Err(e),
            Ok(Json::Array(_)) => match token_index(tokens.last()) {
                Some(idx) => Ok(Place::Item { parent: tokens.drop_last(), idx }),
                None => Err(Failure::InvalidIndex),
            },
            Ok(Json::Object(_)) => Ok(
                Place::Member { parent: tokens.drop_last(), key: tokens.last() },
            ),
            Ok(_) => Err(Failure::NotContainer),
        }
    }
}

/// What an act at `slot` makes of the container `node`: the new container,
/// and the value taken out if the act takes one out.
pub open spec fn act_in(node: Json, slot: Slot, act: Act) -> Result<(Json, Option<Json>), Failure> {
    match (slot, node) {
        (Slot::Item(TokenIndex::IndexAfterLastElem), Json::Array(items)) => match act {
            Act::Delete => if items.len() > 0 {
                Ok((Json::Array(items.drop_last()), Some(items.last())))
            } else {
                Err(Failure::IndexOutOfRange { index: 0, len: 0 })
            },
            _ => Ok((Json::Array(items.push(act.value())), None)),
        },
        (Slot::Item(TokenIndex::Index(i)), Json::Array(items)) => match act {
            Act::Add(v) => if i <= items.len() {
                Ok((Json::Array(items.insert(i as int, v)), None))
            } else {
                Err(Failure::IndexOutOfRange { index: i as nat, len: items.len() })
            },
            Act::Delete => if i < items.len() {
                Ok((Json::Array(items.remove(i as int)), Some(items[i as int])))
            } else {
                Err(Failure::IndexOutOfRange { index: i as nat, len: items.len() })
            },
            _ => if i < items.len() {
                Ok((Json::Array(items.update(i as int, act.value())), None))
            } else {
                Err(Failure::IndexOutOfRange { index: i as nat, len: items.len() })
            },
        },
        (Slot::Member(key), Json::Object(members)) => match act {
            Act::Replace(v) => if member(members, key) is Some {
                Ok((Json::Object(replace_member(members, key, v)), None))
            } else {
                Err(Failure::KeyNotExist { key })
            },
            Act::Delete => match member(members, key) {
                Some(v) => Ok((Json::Object(without_member(members, key)), Some(v))),
                None => Err(Failure::KeyNotExist { key }),
            },
            _ => Ok((Json::Object(with_member(members, key, act.value())), None)),
        },
        _ => Err(Failure::NotContainer),
    }
}

/// What an act makes of `tree` where the tokens lead to the container and
/// `slot` names the node in it: the new tree and the value taken out. The
/// way to the container fails as reading it fails.
pub open spec fn act_at(tree: Json, tokens: Seq<Seq<char>>, slot: Slot, act: Act) -> Result<
    (Json, Option<Json>),
    Failure,
>
    decreases tokens.len(),
{
    if tokens.len() == 0 {
        act_in(tree, slot, act)
    } else {
        match step_into(tree, tokens[0]) {
            Err(e) => Err(e),
            Ok(child) => match act_at(child, tokens.drop_first(), slot, act) {
                Err(e) => Err(e),
                Ok((new_child, out)) => match tree {
                    Json::Array(items) => Ok(
                        (
                            Json::Array(
                                items.update(token_index(tokens[0])->0->Index_0 as int, new_child),
                            ),
                            out,
                        ),
                    ),
                    Json::Object(members) => Ok(
                        (Json::Object(replace_member(members, tokens[0], new_child)), out),
                    ),
                    _ => Err(Failure::NotContainer),
                },
            },
        }
    }
}

/// What an act at `place` makes of `tree`: the new tree and the value taken
/// out. At the root a value takes the place of the whole tree, and nothing
/// can be deleted.
pub open spec fn act_on(tree: Json, place: Place, act: Act) -> Result<
    (Json, Option<Json>),
    Failure,
> {
    match place {
        Place::Root => match act {
            Act::Delete => Err(Failure::CannotDeleteRoot),
            _ => Ok((act.value(), None)),
        },
        Place::Item { parent, idx } => act_at(tree, parent, Slot::Item(idx), act),
        Place::Member { parent, key } => act_at(tree, parent, Slot::Member(key), act),
    }
}

/// The value at `place` in `tree`, if one is there.
pub open spec fn value_at(tree: Json, place: Place) -> Option<Json> {
    match place {
        Place::Root => Some(tree),
        Place::Item { parent, idx } => match (resolve(tree, parent), idx) {
            (Ok(Json::Array(items)), TokenIndex::Index(i)) => if i < items.len() {
                Some(items[i as int])
            } else {
                None
            },
            _ => None,
        },
        Place::Member { parent, key } => match resolve(tree, parent) {
            Ok(Json::Object(members)) => member(members, key),
            _ => None,
        },
    }
}


/// What is done at a place, with the value that it brings.
#[derive(Debug)]
pub enum Action {
    SetTo(JsonValue),
    Add(JsonValue),
    Replace(JsonValue),
    Delete,
}

impl View for Action {
    type V = Act;

    open spec fn view(&self) -> Act {
        match self {
            Action::SetTo(v) => Act::SetTo(v@),
            Action::Add(v) => Act::Add(v@),
            Action::Replace(v) => Act::Replace(v@),
            Action::Delete => Act::Delete,
        }
    }
}

/// The model of a value that may be missing.
pub open spec fn option_view(v: Option<JsonValue>) -> Option<Json> {
    match v {
        Some(v) => Some(v@),
        None => None,
    }
}

/// Does `action` to the item at `idx` of the array `items`.
fn act_on_items(items: &mut Vec<JsonValue>, idx: TokenIndex, action: Action) -> (r: Result<
    Option<JsonValue>,
    JsonPatchError,
>)
    ensures
        match r {
            Ok(out) => act_in(Json::Array(values_view(old(items)@)), Slot::Item(idx), action@)
                == Ok::<(Json, Option<Json>), Failure>(
                (Json::Array(values_view(final(items)@)), option_view(out)),
            ),
            Err(e) => act_in(Json::Array(values_view(old(items)@)), Slot::Item(idx), action@)
                == Err::<(Json, Option<Json>), Failure>(e@) && final(items)@ == old(items)@,
        },
{
    let ghost before = values_view(items@);
    let len = items.len();
    match idx {
        TokenIndex::IndexAfterLastElem => match action {
            Action::Delete => {
                if len > 0 {
                    let out = items.pop().unwrap();
                    assert(values_view(items@) =~= before.drop_last());
                    Ok(Some(out))
                } else {
                    Err(JsonPatchError::IndexOutOfRange { index: 0, len: 0 })
                }
            },
            Action::SetTo(v) => {
                items.push(v);
                assert(values_view(items@) =~= before.push(v@));
                Ok(None)
            },
            Action::Add(v) => {
                items.push(v);
                assert(values_view(items@) =~= before.push(v@));
                Ok(None)
            },
            Action::Replace(v) => {
                items.push(v);
                assert(values_view(items@) =~= before.push(v@));
                Ok(None)
            },
        },
        TokenIndex::Index(i) => match action {
            Action::Add(v) => {
                if i <= len {
                    items.insert(i, v);
                    assert(values_view(items@) =~= before.insert(i as int, v@));
                    Ok(None)
                } else {
                    Err(JsonPatchError::IndexOutOfRange { index: i, len })
                }
            },
            Action::Delete => {
                if i < len {
                    let out = items.remove(i);
                    assert(values_view(items@) =~= before.remove(i as int));
                    Ok(Some(out))
                } else {
                    Err(JsonPatchError::IndexOutOfRange { index: i, len })
                }
            },
            Action::SetTo(v) => {
                if i < len {
                    items.set(i, v);
                    assert(values_view(items@) =~= before.update(i as int, v@));
                    Ok(None)
                } else {
                    Err(JsonPatchError::IndexOutOfRange { index: i, len })
                }
            },
            Action::Replace(v) => {
                if i < len {
                    items.set(i, v);
                    assert(values_view(items@) =~= before.update(i as int, v@));
                    Ok(None)
                } else {
                    Err(JsonPatchError::IndexOutOfRange { index: i, len })
                }
            },
        },
    }
}

/// Does `action` to the member named `key` of the object with `members`.
fn act_on_members(members: &mut Vec<(String, JsonValue)>, key: &str, action: Action) -> (r: Result<
    Option<JsonValue>,
    JsonPatchError,
>)
    ensures
        match r {
            Ok(out) => act_in(
                Json::Object(members_view(old(members)@)),
                Slot::Member(key@),
                action@,
            ) == Ok::<(Json, Option<Json>), Failure>(
                (Json::Object(members_view(final(members)@)), option_view(out)),
            ),
            Err(e) => act_in(
                Json::Object(members_view(old(members)@)),
                Slot::Member(key@),
                action@,
            ) == Err::<(Json, Option<Json>), Failure>(e@) && final(members)@ == old(members)@,
        },
{
    let ghost before = members_view(members@);
    match action {
        Action::Replace(v) => match find_member(members, key) {
            Some(at) => {
                proof {
                    assert forall|j: int| 0 <= j < at implies (#[trigger] before[j]).0 != key@ by {
                        assert(members@[j].0@ != key@);
                    }
                    lemma_replace_member_at(before, key@, v@, at as int);
                }
                members.set(at, (key.to_owned(), v));
                assert(members_view(members@) =~= before.update(at as int, (key@, v@)));
                Ok(None)
            },
            None => Err(JsonPatchError::KeyNotExist { key: key.to_owned() }),
        },
        Action::Delete => match take_member(members, key) {
            Some(out) => Ok(Some(out)),
            None => Err(JsonPatchError::KeyNotExist { key: key.to_owned() }),
        },
        Action::SetTo(v) => {
            put_member(members, key.to_owned(), v);
            Ok(None)
        },
        Action::Add(v) => {
            put_member(members, key.to_owned(), v);
            Ok(None)
        },
    }
}


impl Place {
    /// The tokens that lead to the container of the place; none at the root.
    pub open spec fn parent(self) -> Seq<Seq<char>> {
        match self {
            Place::Item { parent, idx } => parent,
            Place::Member { parent, key } => parent,
            Place::Root => Seq::empty(),
        }
    }

    /// The node of the place within its container.
    pub open spec fn slot(self) -> Slot {
        match self {
            Place::Item { parent, idx } => Slot::Item(idx),
            Place::Member { parent, key } => Slot::Member(key),
            Place::Root => Slot::Member(Seq::empty()),
        }
    }
}

/// Does `action` at `place`, whose container the tokens of its parent lead
/// to from `tree`, the first `depth` of them being behind.
fn act_below(tree: &mut JsonValue, place: &ValueMutRef, depth: usize, action: Action) -> (r: Result<
    Option<JsonValue>,
    JsonPatchError,
>)
    requires
        !(place@ is Root),
        depth <= place@.parent().len(),
    ensures
        match r {
            Ok(out) => act_at(
                old(tree)@,
                place@.parent().skip(depth as int),
                place@.slot(),
                action@,
            ) == Ok::<(Json, Option<Json>), Failure>((final(tree)@, option_view(out))),
            Err(e) => act_at(
                old(tree)@,
                place@.parent().skip(depth as int),
                place@.slot(),
                action@,
            ) == Err::<(Json, Option<Json>), Failure>(e@) && final(tree)@ == old(tree)@,
        },
    decreases place@.parent().len() - depth,
{
    let ghost tokens = place@.parent().skip(depth as int);
    let ghost before = tree@;
    let parent = match place {
        ValueMutRef::ArrayElem { parent, idx } => parent,
        ValueMutRef::ObjElem { parent, key } => parent,
        ValueMutRef::Root => {
            return Err(JsonPatchError::NotContainer);
        },
    };
    if depth == parent.len() {
        assert(tokens.len() == 0);
        return match tree {
            JsonValue::Array(items) => {
                proof {
                    lemma_array_view(*old(tree));
                }
                match place {
                    ValueMutRef::ArrayElem { parent, idx } => {
                        let r = act_on_items(items, *idx, action);
                        proof {
                            lemma_array_view(*tree);
                        }
                        r
                    },
                    _ => Err(JsonPatchError::NotContainer),
                }
            },
            JsonValue::Object(members) => {
                proof {
                    lemma_object_view(*old(tree));
                }
                match place {
                    ValueMutRef::ObjElem { parent, key } => {
                        let r = act_on_members(members, key.as_str(), action);
                        proof {
                            lemma_object_view(*tree);
                        }
                        r
                    },
                    _ => Err(JsonPatchError::NotContainer),
                }
            },
            _ => Err(JsonPatchError::NotContainer),
        };
    }
    let token = parent.token(depth);
    proof {
        assert(tokens[0] == token@);
        assert(tokens.drop_first() =~= place@.parent().skip(depth + 1));
    }
    match tree {
        JsonValue::Array(items) => {
            proof {
                lemma_array_view(*old(tree));
            }
            match token.as_index() {
                Some(TokenIndex::Index(i)) => {
                    if i < items.len() {
                        let ghost old_items = values_view(items@);
                        let r = act_below(&mut items[i], place, depth + 1, action);
                        proof {
                            lemma_array_view(*tree);
                            if r is Ok {
                                assert(values_view(items@) =~= old_items.update(
                                    i as int,
                                    items@[i as int]@,
                                ));
                            } else {
                                assert(values_view(items@) =~= old_items);
                            }
                        }
                        r
                    } else {
                        Err(JsonPatchError::IndexOutOfRange { index: i, len: items.len() })
                    }
                },
                _ => Err(JsonPatchError::InvalidIndex),
            }
        },
        JsonValue::Object(members) => {
            proof {
                lemma_object_view(*old(tree));
            }
            let key = token.as_key();
            match find_member(members, key) {
                Some(at) => {
                    let ghost old_members = members_view(members@);
                    proof {
                        assert forall|j: int| 0 <= j < at implies (#[trigger] old_members[j]).0
                            != key@ by {
                            assert(members@[j].0@ != key@);
                        }
                    }
                    let r = act_below(&mut members[at].1, place, depth + 1, action);
                    proof {
                        lemma_object_view(*tree);
                        if r is Ok {
                            lemma_replace_member_at(
                                old_members,
                                key@,
                                members@[at as int].1@,
                                at as int,
                            );
                            assert(members_view(members@) =~= old_members.update(
                                at as int,
                                (key@, members@[at as int].1@),
                            ));
                        } else {
                            assert(members_view(members@) =~= old_members);
                        }
                    }
                    r
                },
                None => Err(JsonPatchError::KeyNotFound { key: key.to_owned() }),
            }
        },
        _ => Err(JsonPatchError::NotContainer),
    }
}

impl ValueMutRef {
    /// Does `action` at this place in `tree`.
    pub fn act(&self, tree: &mut JsonValue, action: Action) -> (r: Result<
        Option<JsonValue>,
        JsonPatchError,
    >)
        ensures
            match r {
                Ok(out) => act_on(old(tree)@, self@, action@) == Ok::<
                    (Json, Option<Json>),
                    Failure,
                >((final(tree)@, option_view(out))),
                Err(e) => act_on(old(tree)@, self@, action@) == Err::<
                    (Json, Option<Json>),
                    Failure,
                >(e@) && final(tree)@ == old(tree)@,
            },
    {
        match self {
            ValueMutRef::Root => match action {
                Action::Delete => Err(JsonPatchError::CannotDeleteRoot),
                Action::SetTo(v) => {
                    *tree = v;
                    Ok(None)
                },
                Action::Add(v) => {
                    *tree = v;
                    Ok(None)
                },
                Action::Replace(v) => {
                    *tree = v;
                    Ok(None)
                },
            },
            _ => {
                assert(self@.parent().skip(0) =~= self@.parent());
                act_below(tree, self, 0, action)
            },
        }
    }

    /// Overwrites the node at this place in `tree` with `val`. The place
    /// behind the last item of an array gets `val` as a new last item, and a
    /// key that is not bound yet is bound.
    pub fn set(self, tree: &mut JsonValue, val: JsonValue) -> (r: Result<(), JsonPatchError>)
        ensures
            match r {
                Ok(_) => act_on(old(tree)@, self@, Act::SetTo(val@)) == Ok::<
                    (Json, Option<Json>),
                    Failure,
                >((final(tree)@, None)),
                Err(e) => act_on(old(tree)@, self@, Act::SetTo(val@)) == Err::<
                    (Json, Option<Json>),
                    Failure,
                >(e@) && final(tree)@ == old(tree)@,
            },
    {
        proof {
            lemma_hands_out_iff_delete(tree@, self@, Act::SetTo(val@));
        }
        match self.act(tree, Action::SetTo(val)) {
            Ok(_) => Ok(()),
            Err(e) => Err(e),
        }
    }

    /// Puts `val` at this place in `tree`: before the item that stands
    /// there, the later items moving up; behind the last item; as the value
    /// of the key, bound or not; or in place of the whole document.
    pub fn add(self, tree: &mut JsonValue, val: JsonValue) -> (r: Result<(), JsonPatchError>)
        ensures
            match r {
                Ok(_) => act_on(old(tree)@, self@, Act::Add(val@)) == Ok::<
                    (Json, Option<Json>),
                    Failure,
                >((final(tree)@, None)),
                Err(e) => act_on(old(tree)@, self@, Act::Add(val@)) == Err::<
                    (Json, Option<Json>),
                    Failure,
                >(e@) && final(tree)@ == old(tree)@,
            },
    {
        proof {
            lemma_hands_out_iff_delete(tree@, self@, Act::Add(val@));
        }
        match self.act(tree, Action::Add(val)) {
            Ok(_) => Ok(()),
            Err(e) => Err(e),
        }
    }

    /// Overwrites the node at this place in `tree` with `val`, like `set`,
    /// but a key must be bound already.
    pub fn replace(self, tree: &mut JsonValue, val: JsonValue) -> (r: Result<(), JsonPatchError>)
        ensures
            match r {
                Ok(_) => act_on(old(tree)@, self@, Act::Replace(val@)) == Ok::<
                    (Json, Option<Json>),
                    Failure,
                >((final(tree)@, None)),
                Err(e) => act_on(old(tree)@, self@, Act::Replace(val@)) == Err::<
                    (Json, Option<Json>),
                    Failure,
                >(e@) && final(tree)@ == old(tree)@,
            },
    {
        proof {
            lemma_hands_out_iff_delete(tree@, self@, Act::Replace(val@));
        }
        match self.act(tree, Action::Replace(val)) {
            Ok(_) => Ok(()),
            Err(e) => Err(e),
        }
    }

    /// Takes the node at this place out of `tree` and hands it out: an item
    /// of an array, the later items moving down; the last item, for the
    /// place behind it; or a member. The root cannot be taken out, and
    /// neither can what is not there: a member that the object lacks, an
    /// item beyond the end, or the last item of an empty array.
    pub fn delete(self, tree: &mut JsonValue) -> (r: Result<JsonValue, JsonPatchError>)
        ensures
            match r {
                Ok(out) => act_on(old(tree)@, self@, Act::Delete) == Ok::<
                    (Json, Option<Json>),
                    Failure,
                >((final(tree)@, Some(out@))),
                Err(e) => act_on(old(tree)@, self@, Act::Delete) == Err::<
                    (Json, Option<Json>),
                    Failure,
                >(e@) && final(tree)@ == old(tree)@,
            },
    {
        proof {
            lemma_hands_out_iff_delete(tree@, self@, Act::Delete);
        }
        match self.act(tree, Action::Delete) {
            Ok(Some(out)) => Ok(out),
            Ok(None) => Err(JsonPatchError::CannotDeleteRoot),
            Err(e) => Err(e),
        }
    }

    /// The value at this place in `tree`, if one is there.
    pub fn get<'a>(&self, tree: &'a JsonValue) -> (r: Option<&'a JsonValue>)
        ensures
            match r {
                Some(v) => value_at(tree@, self@) == Some(v@),
                None => value_at(tree@, self@) is None,
            },
    {
        match self {
            ValueMutRef::Root => Some(tree),
            ValueMutRef::ArrayElem { parent, idx } => match (parent.get(tree), idx) {
                (Ok(JsonValue::Array(items)), TokenIndex::Index(i)) => {
                    proof {
                        lemma_array_view(JsonValue::Array(*items));
                    }
                    if *i < items.len() {
                        Some(&items[*i])
                    } else {
                        None
                    }
                },
                _ => None,
            },
            ValueMutRef::ObjElem { parent, key } => match parent.get(tree) {
                Ok(JsonValue::Object(members)) => {
                    proof {
                        lemma_object_view(JsonValue::Object(*members));
                    }
                    match find_member(members, key.as_str()) {
                        Some(at) => Some(&members[at].1),
                        None => None,
                    }
                },
                _ => None,
            },
        }
    }
}

/// An act that succeeds hands a value out exactly when it is a deletion.
pub proof fn lemma_hands_out_iff_delete(tree: Json, place: Place, act: Act)
    ensures
        act_on(tree, place, act) is Ok ==> (act_on(tree, place, act)->Ok_0.1 is Some <==> act
            is Delete),
{
    match place {
        Place::Root => {},
        Place::Item { parent, idx } => lemma_hands_out_below_iff_delete(
            tree,
            parent,
            Slot::Item(idx),
            act,
        ),
        Place::Member { parent, key } => lemma_hands_out_below_iff_delete(
            tree,
            parent,
            Slot::Member(key),
            act,
        ),
    }
}

/// An act below some tokens that succeeds hands a value out exactly when it
/// is a deletion.
proof fn lemma_hands_out_below_iff_delete(tree: Json, tokens: Seq<Seq<char>>, slot: Slot, act: Act)
    ensures
        act_at(tree, tokens, slot, act) is Ok ==> (act_at(tree, tokens, slot, act)->Ok_0.1
            is Some <==> act is Delete),
    decreases tokens.len(),
{
    if tokens.len() > 0 {
        match step_into(tree, tokens[0]) {
            Ok(child) => lemma_hands_out_below_iff_delete(child, tokens.drop_first(), slot, act),
            Err(_) => {},
        }
    }
}


/// The node that tokens lead to in a well-formed tree is well-formed.
pub proof fn lemma_resolve_wf(tree: Json, tokens: Seq<Seq<char>>)
    requires
        tree.wf(),
    ensures
        resolve(tree, tokens) is Ok ==> resolve(tree, tokens)->Ok_0.wf(),
    decreases tokens.len(),
{
    if tokens.len() > 0 {
        match step_into(tree, tokens[0]) {
            Ok(child) => {
                lemma_step_wf(tree, tokens[0]);
                lemma_resolve_wf(child, tokens.drop_first());
            },
            Err(_) => {},
        }
    }
}

/// One step down from a well-formed node leads to a well-formed node.
pub proof fn lemma_step_wf(node: Json, token: Seq<char>)
    requires
        node.wf(),
    ensures
        step_into(node, token) is Ok ==> step_into(node, token)->Ok_0.wf(),
{
    match node {
        Json::Object(members) => {
            if member(members, token) is Some {
                lemma_member_found(members, token);
            }
        },
        _ => {},
    }
}

/// An act that brings a well-formed value makes of a well-formed container
/// a well-formed container, and what it takes out is well-formed.
pub proof fn lemma_act_in_wf(node: Json, slot: Slot, act: Act)
    requires
        node.wf(),
        act.value().wf(),
    ensures
        match act_in(node, slot, act) {
            Ok((new_node, out)) => new_node.wf() && (out is Some ==> out->0.wf()),
            Err(_) => true,
        },
{
    match (slot, node) {
        (Slot::Member(key), Json::Object(members)) => {
            lemma_with_member_sorted(members, key, act.value());
            lemma_replace_member_sorted(members, key, act.value());
            lemma_without_member_sorted(members, key);
            if member(members, key) is Some {
                lemma_member_found(members, key);
            }
            let bound = with_member(members, key, act.value());
            assert forall|k: int| 0 <= k < bound.len() implies (#[trigger] bound[k]).1.wf() by {
                if bound[k] != (key, act.value()) {
                    let j = choose|j: int| 0 <= j < members.len() && members[j] == bound[k];
                    assert(members[j].1.wf());
                }
            }
            let changed = replace_member(members, key, act.value());
            assert forall|k: int| 0 <= k < changed.len() implies (#[trigger] changed[k]).1.wf() by {
                assert(members[k].1.wf());
            }
            let less = without_member(members, key);
            assert forall|k: int| 0 <= k < less.len() implies (#[trigger] less[k]).1.wf() by {
                let j = choose|j: int| 0 <= j < members.len() && members[j] == less[k];
                assert(members[j].1.wf());
            }
        },
        (Slot::Item(idx), Json::Array(items)) => {
            match act_in(node, slot, act) {
                Ok((new_node, out)) => {
                    let new_items = new_node->Array_0;
                    assert forall|k: int| 0 <= k < new_items.len() implies (
                    #[trigger] new_items[k]).wf() by {
                        match (idx, act) {
                            (TokenIndex::IndexAfterLastElem, Act::Delete) => {
                                assert(new_items[k] == items[k]);
                            },
                            (TokenIndex::IndexAfterLastElem, _) => {
                                if k < items.len() {
                                    assert(new_items[k] == items[k]);
                                }
                            },
                            (TokenIndex::Index(i), Act::Add(v)) => {
                                if k < i {
                                    assert(new_items[k] == items[k]);
                                } else if k > i {
                                    assert(new_items[k] == items[k - 1]);
                                }
                            },
                            (TokenIndex::Index(i), Act::Delete) => {
                                if k < i {
                                    assert(new_items[k] == items[k]);
                                } else {
                                    assert(new_items[k] == items[k + 1]);
                                }
                            },
                            (TokenIndex::Index(i), _) => {
                                if k != i {
                                    assert(new_items[k] == items[k]);
                                }
                            },
                        }
                    }
                    if out is Some {
                        match idx {
                            TokenIndex::IndexAfterLastElem => {
                                assert(items[items.len() - 1].wf());
                            },
                            TokenIndex::Index(i) => {
                                assert(items[i as int].wf());
                            },
                        }
                    }
                },
                Err(_) => {},
            }
        },
        _ => {},
    }
}

/// An act that brings a well-formed value makes of a well-formed tree a
/// well-formed tree, and what it takes out is well-formed.
pub proof fn lemma_act_at_wf(tree: Json, tokens: Seq<Seq<char>>, slot: Slot, act: Act)
    requires
        tree.wf(),
        act.value().wf(),
    ensures
        match act_at(tree, tokens, slot, act) {
            Ok((new_tree, out)) => new_tree.wf() && (out is Some ==> out->0.wf()),
            Err(_) => true,
        },
    decreases tokens.len(),
{
    if tokens.len() == 0 {
        lemma_act_in_wf(tree, slot, act);
    } else {
        match step_into(tree, tokens[0]) {
            Err(_) => {},
            Ok(child) => {
                lemma_step_wf(tree, tokens[0]);
                lemma_act_at_wf(child, tokens.drop_first(), slot, act);
                match act_at(child, tokens.drop_first(), slot, act) {
                    Err(_) => {},
                    Ok((new_child, out)) => match tree {
                        Json::Array(items) => {
                            let i = token_index(tokens[0])->0->Index_0 as int;
                            let new_items = items.update(i, new_child);
                            assert forall|k: int| 0 <= k < new_items.len() implies (
                            #[trigger] new_items[k]).wf() by {
                                if k != i {
                                    assert(new_items[k] == items[k]);
                                }
                            }
                        },
                        Json::Object(members) => {
                            lemma_replace_member_sorted(members, tokens[0], new_child);
                            let changed = replace_member(members, tokens[0], new_child);
                            assert forall|k: int| 0 <= k < changed.len() implies (
                            #[trigger] changed[k]).1.wf() by {
                                assert(members[k].1.wf());
                            }
                        },
                        _ => {},
                    },
                }
            },
        }
    }
}

/// An act at a place that brings a well-formed value makes of a well-formed
/// tree a well-formed tree, and what it takes out is well-formed.
pub proof fn lemma_act_on_wf(tree: Json, place: Place, act: Act)
    requires
        tree.wf(),
        act.value().wf(),
    ensures
        match act_on(tree, place, act) {
            Ok((new_tree, out)) => new_tree.wf() && (out is Some ==> out->0.wf()),
            Err(_) => true,
        },
{
    match place {
        Place::Root => {},
        Place::Item { parent, idx } => lemma_act_at_wf(tree, parent, Slot::Item(idx), act),
        Place::Member { parent, key } => lemma_act_at_wf(tree, parent, Slot::Member(key), act),
    }
}

} // verus!
