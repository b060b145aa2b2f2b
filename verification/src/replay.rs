//! A diff replayed as a patch: the edits between two documents, applied one
//! after another as operations, turn the first document into the second.

use vstd::prelude::*;
use crate::diff::{
    added_edits, anchors, array_edits, common_edits, edits_between, diff_values, edits_view,
    removed_edits, ArrDiffMethod, Change, DiffChange, DiffElem, Edit,
};
use crate::members::{
    has_member, lemma_member_found, lemma_member_of_sorted, lemma_member_some_iff_has,
    lemma_members_by_lookup, lemma_replace_member_at, lemma_with_member_lookup,
    lemma_with_member_sorted, lemma_without_member_lookup, lemma_without_member_sorted,
};
use crate::error::Failure;
use crate::jsonptr::operate_by_jsonptr::act_by_pointer;
use crate::lcs::{is_common_subsequence, lemma_lcs_pairs_common};
use crate::jsonptr::pointer::{path_tokens, resolve, step_into, step_token};
use crate::jsonptr::token::{token_index, TokenIndex};
use crate::jsonptr::value_mut_ref::{act_at, act_in, Act, Slot};
use crate::patch::{apply_step, apply_steps, JsonPatch, Patch, PatchElem, PatchStep, PatchView};
use crate::path::Step;
use crate::text::{decimal, digit_value, key_lt, lemma_decimal_numeral, lemma_key_lt_irreflexive};
use crate::value::{
    keys_sorted, lemma_array_view, lemma_item_smaller, lemma_member_smaller, lemma_object_view,
    member, members_view, replace_member, values_view, with_member, without_member, Json, JsonValue,
};

verus! {

/// The tree with the node that the tokens lead to replaced by `sub`; the
/// tree as it is where the tokens lead nowhere.
pub open spec fn rewrite(tree: Json, tokens: Seq<Seq<char>>, sub: Json) -> Json
    decreases tokens.len(),
{
    if tokens.len() == 0 {
        sub
    } else {
        match step_into(tree, tokens[0]) {
            Err(_) => tree,
            Ok(child) => {
                let new_child = rewrite(child, tokens.drop_first(), sub);
                match tree {
                    Json::Array(items) => Json::Array(
                        items.update(token_index(tokens[0])->0->Index_0 as int, new_child),
                    ),
                    Json::Object(members) => Json::Object(
                        replace_member(members, tokens[0], new_child),
                    ),
                    _ => tree,
                }
            },
        }
    }
}

/// Tokens followed by more tokens lead to where the second lead from the
/// node that the first lead to.
pub proof fn lemma_resolve_concat(tree: Json, p: Seq<Seq<char>>, q: Seq<Seq<char>>)
    ensures
        resolve(tree, p + q) == match resolve(tree, p) {
            Ok(node) => resolve(node, q),
            Err(e) => Err(e),
        },
    decreases p.len(),
{
    if p.len() == 0 {
        assert(p + q =~= q);
    } else {
        assert((p + q)[0] == p[0]);
        assert((p + q).drop_first() =~= p.drop_first() + q);
        match step_into(tree, p[0]) {
            Ok(child) => lemma_resolve_concat(child, p.drop_first(), q),
            Err(_) => {},
        }
    }
}

/// Replacing a node below a node replaces the upper node by itself with the
/// lower node replaced.
pub proof fn lemma_rewrite_concat(tree: Json, p: Seq<Seq<char>>, q: Seq<Seq<char>>, sub: Json)
    requires
        resolve(tree, p) is Ok,
    ensures
        rewrite(tree, p + q, sub) == rewrite(tree, p, rewrite(resolve(tree, p)->Ok_0, q, sub)),
    decreases p.len(),
{
    if p.len() == 0 {
        assert(p + q =~= q);
    } else {
        assert((p + q)[0] == p[0]);
        assert((p + q).drop_first() =~= p.drop_first() + q);
        match step_into(tree, p[0]) {
            Ok(child) => lemma_rewrite_concat(child, p.drop_first(), q, sub),
            Err(_) => {},
        }
    }
}

/// Giving a value to a member that is there binds its key to that value.
pub proof fn lemma_replace_member_lookup(
    members: Seq<(Seq<char>, Json)>,
    key: Seq<char>,
    val: Json,
    other: Seq<char>,
)
    ensures
        member(replace_member(members, key, val), other) == if other == key && member(
            members,
            key,
        ) is Some {
            Some(val)
        } else {
            member(members, other)
        },
    decreases members.len(),
{
    let out = replace_member(members, key, val);
    if members.len() == 0 {
    } else if members[0].0 == key {
        assert(out[0] == (key, val));
        assert(out.drop_first() =~= members.drop_first());
    } else {
        lemma_replace_member_lookup(members.drop_first(), key, val, other);
        assert(out[0] == members[0]);
        assert(out.drop_first() =~= replace_member(members.drop_first(), key, val));
    }
}

/// Giving a member a value and then another gives it the second.
pub proof fn lemma_replace_member_twice(
    members: Seq<(Seq<char>, Json)>,
    key: Seq<char>,
    first: Json,
    second: Json,
)
    ensures
        replace_member(replace_member(members, key, first), key, second) == replace_member(
            members,
            key,
            second,
        ),
    decreases members.len(),
{
    let once = replace_member(members, key, first);
    if members.len() == 0 {
    } else if members[0].0 == key {
        assert(once[0] == (key, first));
        assert(once.drop_first() =~= members.drop_first());
    } else {
        lemma_replace_member_twice(members.drop_first(), key, first, second);
        assert(once[0] == members[0]);
        assert(once.drop_first() =~= replace_member(members.drop_first(), key, first));
    }
}

/// The tokens lead, in the tree with a node replaced, to what replaced it.
pub proof fn lemma_resolve_rewritten(tree: Json, p: Seq<Seq<char>>, sub: Json)
    requires
        resolve(tree, p) is Ok,
    ensures
        resolve(rewrite(tree, p, sub), p) == Ok::<Json, Failure>(sub),
    decreases p.len(),
{
    if p.len() > 0 {
        match step_into(tree, p[0]) {
            Ok(child) => {
                lemma_resolve_rewritten(child, p.drop_first(), sub);
                let new_child = rewrite(child, p.drop_first(), sub);
                match tree {
                    Json::Object(members) => {
                        lemma_replace_member_lookup(members, p[0], new_child, p[0]);
                    },
                    _ => {},
                }
            },
            Err(_) => {},
        }
    }
}

/// Replacing a node and then replacing it again leaves the second
/// replacement.
pub proof fn lemma_rewrite_twice(tree: Json, p: Seq<Seq<char>>, first: Json, second: Json)
    requires
        resolve(tree, p) is Ok,
    ensures
        rewrite(rewrite(tree, p, first), p, second) == rewrite(tree, p, second),
    decreases p.len(),
{
    if p.len() > 0 {
        match step_into(tree, p[0]) {
            Ok(child) => {
                lemma_rewrite_twice(child, p.drop_first(), first, second);
                let mid = rewrite(child, p.drop_first(), first);
                match tree {
                    Json::Object(members) => {
                        lemma_replace_member_lookup(members, p[0], mid, p[0]);
                        lemma_replace_member_twice(
                            members,
                            p[0],
                            mid,
                            rewrite(child, p.drop_first(), second),
                        );
                    },
                    Json::Array(items) => {
                        let i = token_index(p[0])->0->Index_0 as int;
                        assert(items.update(i, mid).update(
                            i,
                            rewrite(child, p.drop_first(), second),
                        ) =~= items.update(i, rewrite(child, p.drop_first(), second)));
                    },
                    _ => {},
                }
            },
            Err(_) => {},
        }
    }
}

/// An act in the container that the tokens lead to replaces that container
/// by what the act makes of it.
pub proof fn lemma_act_at_container(tree: Json, p: Seq<Seq<char>>, slot: Slot, act: Act)
    requires
        resolve(tree, p) is Ok,
    ensures
        act_at(tree, p, slot, act) == match act_in(resolve(tree, p)->Ok_0, slot, act) {
            Ok((node, out)) => Ok::<(Json, Option<Json>), Failure>(
                (rewrite(tree, p, node), out),
            ),
            Err(e) => Err(e),
        },
    decreases p.len(),
{
    if p.len() > 0 {
        match step_into(tree, p[0]) {
            Ok(child) => lemma_act_at_container(child, p.drop_first(), slot, act),
            Err(_) => {},
        }
    }
}


/// An act at the place that one more token names in the container that the
/// tokens lead to replaces that container by what the act makes of it.
pub proof fn lemma_act_in_container(
    tree: Json,
    p: Seq<Seq<char>>,
    token: Seq<char>,
    act: Act,
)
    requires
        resolve(tree, p) is Ok,
    ensures
        act_by_pointer(tree, p.push(token), act) == match resolve(tree, p)->Ok_0 {
            Json::Array(items) => match token_index(token) {
                Some(idx) => match act_in(Json::Array(items), Slot::Item(idx), act) {
                    Ok((node, out)) => Ok::<(Json, Option<Json>), Failure>(
                        (rewrite(tree, p, node), out),
                    ),
                    Err(e) => Err(e),
                },
                None => Err(Failure::InvalidIndex),
            },
            Json::Object(members) => match act_in(
                Json::Object(members),
                Slot::Member(token),
                act,
            ) {
                Ok((node, out)) => Ok::<(Json, Option<Json>), Failure>(
                    (rewrite(tree, p, node), out),
                ),
                Err(e) => Err(e),
            },
            _ => Err(Failure::NotContainer),
        },
{
    let all = p.push(token);
    assert(all.drop_last() =~= p);
    assert(all.last() == token);
    match resolve(tree, p)->Ok_0 {
        Json::Array(items) => match token_index(token) {
            Some(idx) => lemma_act_at_container(tree, p, Slot::Item(idx), act),
            None => {},
        },
        Json::Object(members) => lemma_act_at_container(tree, p, Slot::Member(token), act),
        _ => {},
    }
}

/// Replacing the node that tokens lead to puts the new value in its place.
pub proof fn lemma_replace_at_node(tree: Json, p: Seq<Seq<char>>, val: Json)
    requires
        resolve(tree, p) is Ok,
    ensures
        act_by_pointer(tree, p, Act::Replace(val)) == Ok::<(Json, Option<Json>), Failure>(
            (rewrite(tree, p, val), None),
        ),
{
    if p.len() > 0 {
        let parent = p.drop_last();
        let token = p.last();
        assert(parent.push(token) =~= p);
        assert(parent + seq![token] =~= p);
        lemma_resolve_concat(tree, parent, seq![token]);
        let container = resolve(tree, parent)->Ok_0;
        assert(seq![token].drop_first() =~= Seq::<Seq<char>>::empty());
        assert(step_into(container, token) is Ok);
        lemma_act_in_container(tree, parent, token, Act::Replace(val));
        lemma_rewrite_concat(tree, parent, seq![token], val);
        let child = step_into(container, token)->Ok_0;
        assert(seq![token][0] == token);
        assert(rewrite(child, seq![token].drop_first(), val) == val);
        assert(act_by_pointer(tree, p, Act::Replace(val)) == act_by_pointer(
            tree,
            parent.push(token),
            Act::Replace(val),
        ));
        assert(rewrite(tree, p, val) == rewrite(tree, parent + seq![token], val));
    }
}

/// Operations done one after another are the first of them and then the
/// rest.
pub proof fn lemma_apply_concat(first: Seq<PatchStep>, second: Seq<PatchStep>, tree: Json)
    ensures
        apply_steps(first + second, tree) == match apply_steps(first, tree) {
            Ok(mid) => apply_steps(second, mid),
            Err(e) => Err(e),
        },
    decreases first.len(),
{
    if first.len() == 0 {
        assert(first + second =~= second);
    } else {
        assert((first + second)[0] == first[0]);
        assert((first + second).drop_first() =~= first.drop_first() + second);
        match apply_step(first[0], tree) {
            Ok(next) => lemma_apply_concat(first.drop_first(), second, next),
            Err(_) => {},
        }
    }
}

/// The operation that makes an edit: an addition adds, a removal removes,
/// and a replacement replaces by the new value.
pub open spec fn edit_step(edit: Edit) -> PatchStep {
    match edit.change {
        Change::Add(v) => PatchStep { patch: PatchView::Add(v), path: edit.path },
        Change::Remove(_) => PatchStep { patch: PatchView::Remove, path: edit.path },
        Change::Replace { old_val, new_val } => PatchStep {
            patch: PatchView::Replace(new_val),
            path: edit.path,
        },
    }
}

/// The operations that make the edits, in their order.
pub open spec fn edits_steps(edits: Seq<Edit>) -> Seq<PatchStep> {
    Seq::new(edits.len(), |i: int| edit_step(edits[i]))
}

/// What replaying the edits makes of `tree`.
pub open spec fn replay(edits: Seq<Edit>, tree: Json) -> Result<Json, Failure> {
    apply_steps(edits_steps(edits), tree)
}

/// Edits replayed one after another are the first of them and then the
/// rest.
pub proof fn lemma_replay_concat(first: Seq<Edit>, second: Seq<Edit>, tree: Json)
    ensures
        replay(first + second, tree) == match replay(first, tree) {
            Ok(mid) => replay(second, mid),
            Err(e) => Err(e),
        },
{
    assert(edits_steps(first + second) =~= edits_steps(first) + edits_steps(second));
    lemma_apply_concat(edits_steps(first), edits_steps(second), tree);
}

/// Replaying one edit does its operation.
pub proof fn lemma_replay_one(edit: Edit, tree: Json)
    ensures
        replay(seq![edit], tree) == apply_step(edit_step(edit), tree),
{
    let steps = edits_steps(seq![edit]);
    assert(steps[0] == edit_step(edit));
    assert(steps.drop_first() =~= Seq::<PatchStep>::empty());
    match apply_step(steps[0], tree) {
        Ok(next) => {
            assert(apply_steps(steps.drop_first(), next) == Ok::<Json, Failure>(next));
        },
        Err(_) => {},
    }
}

/// Replaying no edit changes nothing.
pub proof fn lemma_replay_none(tree: Json)
    ensures
        replay(Seq::empty(), tree) == Ok::<Json, Failure>(tree),
{
    assert(edits_steps(Seq::empty()) =~= Seq::<PatchStep>::empty());
}


/// Every array of the document has a length that the machine can hold.
pub open spec fn fits(doc: Json) -> bool
    decreases doc,
{
    match doc {
        Json::Array(items) => items.len() <= usize::MAX && forall|i: int|
            0 <= i < items.len() ==> fits(#[trigger] items[i]),
        Json::Object(members) => forall|i: int|
            0 <= i < members.len() ==> fits((#[trigger] members[i]).1),
        _ => true,
    }
}

/// The model of a document that the machine holds fits the machine.
pub proof fn lemma_value_fits(v: JsonValue)
    ensures
        fits(v@),
    decreases v,
{
    match v {
        JsonValue::Array(items) => {
            lemma_array_view(v);
            assert forall|i: int| 0 <= i < items@.len() implies fits(
                #[trigger] values_view(items@)[i],
            ) by {
                lemma_item_smaller(v, i);
                lemma_value_fits(items@[i]);
            }
            assert(v@->Array_0 == values_view(items@));
            assert(items@.len() == items.len());
        },
        JsonValue::Object(members) => {
            lemma_object_view(v);
            assert forall|i: int| 0 <= i < members@.len() implies fits(
                (#[trigger] members_view(members@)[i]).1,
            ) by {
                lemma_member_smaller(v, i);
                lemma_value_fits(members@[i].1);
            }
            assert(v@->Object_0 == members_view(members@));
        },
        _ => {},
    }
}

/// The numeral of a number that the machine can hold is the token of the
/// place of that number.
pub proof fn lemma_index_token(j: nat)
    requires
        j <= usize::MAX,
    ensures
        token_index(decimal(j)) == Some(TokenIndex::Index(j as usize)),
{
    lemma_decimal_numeral(j);
    assert(decimal(j) != seq!['-']) by {
        if decimal(j) == seq!['-'] {
            assert(digit_value(decimal(j)[0]) is Some);
        }
    }
}

/// The tokens of a path with one more step are the tokens of the path and
/// the token of that step.
pub proof fn lemma_path_tokens_push(path: Seq<Step>, step: Step)
    ensures
        path_tokens(path.push(step)) == path_tokens(path).push(step_token(step)),
{
    assert(path_tokens(path.push(step)) =~= path_tokens(path).push(step_token(step)));
}

/// Giving a member the value that it has changes nothing.
pub proof fn lemma_replace_member_same(members: Seq<(Seq<char>, Json)>, key: Seq<char>)
    requires
        member(members, key) is Some,
    ensures
        replace_member(members, key, member(members, key)->0) == members,
    decreases members.len(),
{
    if members[0].0 == key {
        assert(seq![(key, members[0].1)] + members.drop_first() =~= members);
    } else {
        lemma_replace_member_same(members.drop_first(), key);
        assert(seq![members[0]] + members.drop_first() =~= members);
    }
}

/// Replacing a node by itself changes nothing.
pub proof fn lemma_rewrite_same(tree: Json, p: Seq<Seq<char>>)
    requires
        resolve(tree, p) is Ok,
    ensures
        rewrite(tree, p, resolve(tree, p)->Ok_0) == tree,
    decreases p.len(),
{
    if p.len() > 0 {
        match step_into(tree, p[0]) {
            Ok(child) => {
                lemma_rewrite_same(child, p.drop_first());
                match tree {
                    Json::Object(members) => {
                        lemma_replace_member_same(members, p[0]);
                    },
                    Json::Array(items) => {
                        let i = token_index(p[0])->0->Index_0 as int;
                        assert(items.update(i, items[i]) =~= items);
                    },
                    _ => {},
                }
            },
            Err(_) => {},
        }
    }
}

/// A replacement replayed at a node that is there puts the new value in its
/// place.
pub proof fn lemma_replay_replace(tree: Json, path: Seq<Step>, old_val: Json, new_val: Json)
    requires
        resolve(tree, path_tokens(path)) is Ok,
    ensures
        replay(seq![Edit { path, change: Change::Replace { old_val, new_val } }], tree) == Ok::<
            Json,
            Failure,
        >(rewrite(tree, path_tokens(path), new_val)),
{
    let edit = Edit { path, change: Change::Replace { old_val, new_val } };
    lemma_replay_one(edit, tree);
    lemma_replace_at_node(tree, path_tokens(path), new_val);
}

/// An edit replayed at a key of the object that the path leads to binds
/// the key, for an addition, and takes the member of that name out, for a
/// removal of a member that is there.
pub proof fn lemma_replay_at_key(
    tree: Json,
    path: Seq<Step>,
    members: Seq<(Seq<char>, Json)>,
    key: Seq<char>,
    val: Json,
)
    requires
        resolve(tree, path_tokens(path)) == Ok::<Json, Failure>(Json::Object(members)),
    ensures
        replay(seq![Edit { path: path.push(Step::Key(key)), change: Change::Add(val) }], tree)
            == Ok::<Json, Failure>(
            rewrite(tree, path_tokens(path), Json::Object(with_member(members, key, val))),
        ),
        member(members, key) is Some ==> replay(
            seq![Edit { path: path.push(Step::Key(key)), change: Change::Remove(val) }],
            tree,
        ) == Ok::<Json, Failure>(
            rewrite(tree, path_tokens(path), Json::Object(without_member(members, key))),
        ),
{
    let here = path.push(Step::Key(key));
    lemma_path_tokens_push(path, Step::Key(key));
    let adding = Edit { path: here, change: Change::Add(val) };
    lemma_replay_one(adding, tree);
    lemma_act_in_container(tree, path_tokens(path), key, Act::Add(val));
    let removing = Edit { path: here, change: Change::Remove(val) };
    lemma_replay_one(removing, tree);
    lemma_act_in_container(tree, path_tokens(path), key, Act::Delete);
}

/// An edit replayed at a place of the array that the path leads to inserts
/// before the item there, for an addition, and takes the item there out, for
/// a removal.
pub proof fn lemma_replay_at_index(
    tree: Json,
    path: Seq<Step>,
    items: Seq<Json>,
    j: nat,
    val: Json,
)
    requires
        resolve(tree, path_tokens(path)) == Ok::<Json, Failure>(Json::Array(items)),
        j <= usize::MAX,
    ensures
        j <= items.len() ==> replay(
            seq![Edit { path: path.push(Step::Index(j)), change: Change::Add(val) }],
            tree,
        ) == Ok::<Json, Failure>(
            rewrite(tree, path_tokens(path), Json::Array(items.insert(j as int, val))),
        ),
        j < items.len() ==> replay(
            seq![Edit { path: path.push(Step::Index(j)), change: Change::Remove(val) }],
            tree,
        ) == Ok::<Json, Failure>(
            rewrite(tree, path_tokens(path), Json::Array(items.remove(j as int))),
        ),
{
    let here = path.push(Step::Index(j));
    lemma_path_tokens_push(path, Step::Index(j));
    lemma_index_token(j);
    let adding = Edit { path: here, change: Change::Add(val) };
    lemma_replay_one(adding, tree);
    lemma_act_in_container(tree, path_tokens(path), decimal(j), Act::Add(val));
    let removing = Edit { path: here, change: Change::Remove(val) };
    lemma_replay_one(removing, tree);
    lemma_act_in_container(tree, path_tokens(path), decimal(j), Act::Delete);
}


/// Whether one of the first `n` members has the key.
spec fn among(members: Seq<(Seq<char>, Json)>, n: int, key: Seq<char>) -> bool {
    exists|i: int| 0 <= i < n && i < members.len() && (#[trigger] members[i]).0 == key
}

/// The members of the left object, the first `n` of them with the value
/// that the right object has for their key, where it has one.
spec fn merged(ms0: Seq<(Seq<char>, Json)>, ms1: Seq<(Seq<char>, Json)>, n: int) -> Seq<
    (Seq<char>, Json),
> {
    Seq::new(
        ms0.len(),
        |i: int|
            if i < n && member(ms1, ms0[i].0) is Some {
                (ms0[i].0, member(ms1, ms0[i].0)->0)
            } else {
                ms0[i]
            },
    )
}

/// The members `cur` without those of the first `n` keys of the left object
/// that the right object lacks.
spec fn pruned(
    cur: Seq<(Seq<char>, Json)>,
    ms0: Seq<(Seq<char>, Json)>,
    ms1: Seq<(Seq<char>, Json)>,
    n: int,
) -> Seq<(Seq<char>, Json)>
    decreases n,
{
    if n <= 0 || n > ms0.len() {
        cur
    } else if member(ms1, ms0[n - 1].0) is None {
        without_member(pruned(cur, ms0, ms1, n - 1), ms0[n - 1].0)
    } else {
        pruned(cur, ms0, ms1, n - 1)
    }
}

/// The members `cur` with those of the first `n` members of the right
/// object whose keys the left object lacks.
spec fn grown(
    cur: Seq<(Seq<char>, Json)>,
    ms0: Seq<(Seq<char>, Json)>,
    ms1: Seq<(Seq<char>, Json)>,
    n: int,
) -> Seq<(Seq<char>, Json)>
    decreases n,
{
    if n <= 0 || n > ms1.len() {
        cur
    } else if member(ms0, ms1[n - 1].0) is None {
        with_member(grown(cur, ms0, ms1, n - 1), ms1[n - 1].0, ms1[n - 1].1)
    } else {
        grown(cur, ms0, ms1, n - 1)
    }
}

/// A key is bound among members in order exactly when one of them has it.
proof fn lemma_bound_iff_among(members: Seq<(Seq<char>, Json)>, key: Seq<char>)
    ensures
        member(members, key) is Some <==> among(members, members.len() as int, key),
{
    lemma_member_some_iff_has(members, key);
    if has_member(members, key) {
        let i = choose|i: int| 0 <= i < members.len() && (#[trigger] members[i]).0 == key;
        assert(among(members, members.len() as int, key));
    }
    if among(members, members.len() as int, key) {
        let i = choose|i: int|
            0 <= i < members.len() && i < members.len() && (#[trigger] members[i]).0 == key;
        assert(has_member(members, key));
    }
}

/// The merged members have the keys of the left object at their places, so
/// they are in order, and each key of the left object is bound among them
/// to the value at its place.
proof fn lemma_merged(ms0: Seq<(Seq<char>, Json)>, ms1: Seq<(Seq<char>, Json)>, n: int)
    requires
        keys_sorted(ms0),
    ensures
        keys_sorted(merged(ms0, ms1, n)),
        forall|i: int|
            0 <= i < ms0.len() ==> member(merged(ms0, ms1, n), (#[trigger] ms0[i]).0) == Some(
                merged(ms0, ms1, n)[i].1,
            ),
        forall|key: Seq<char>|
            member(ms0, key) is None ==> (#[trigger] member(merged(ms0, ms1, n), key)) is None,
{
    let m = merged(ms0, ms1, n);
    assert forall|i: int, j: int| 0 <= i < j < m.len() implies key_lt(
        (#[trigger] m[i]).0,
        (#[trigger] m[j]).0,
    ) by {
        assert(key_lt(ms0[i].0, ms0[j].0));
    }
    assert forall|i: int| 0 <= i < ms0.len() implies member(m, (#[trigger] ms0[i]).0) == Some(
        m[i].1,
    ) by {
        assert(m[i].0 == ms0[i].0);
        lemma_member_of_sorted(m, i);
    }
    assert forall|key: Seq<char>| member(ms0, key) is None implies (#[trigger] member(m, key))
        is None by {
        lemma_member_some_iff_has(ms0, key);
        lemma_member_some_iff_has(m, key);
        if has_member(m, key) {
            let i = choose|i: int| 0 <= i < m.len() && (#[trigger] m[i]).0 == key;
            assert(ms0[i].0 == key);
        }
    }
}

/// The pruned members are in order, and a key is bound among them as in
/// `cur`, but not at all where it is one of the first `n` keys of the left
/// object and the right object lacks it.
proof fn lemma_pruned(
    cur: Seq<(Seq<char>, Json)>,
    ms0: Seq<(Seq<char>, Json)>,
    ms1: Seq<(Seq<char>, Json)>,
    n: int,
    key: Seq<char>,
)
    requires
        keys_sorted(cur),
        0 <= n <= ms0.len(),
    ensures
        keys_sorted(pruned(cur, ms0, ms1, n)),
        member(pruned(cur, ms0, ms1, n), key) == if among(ms0, n, key) && member(ms1, key)
            is None {
            None
        } else {
            member(cur, key)
        },
    decreases n,
{
    if n > 0 {
        lemma_pruned(cur, ms0, ms1, n - 1, key);
        let prev = pruned(cur, ms0, ms1, n - 1);
        let k = ms0[n - 1].0;
        if among(ms0, n - 1, key) {
            let i = choose|i: int| 0 <= i < n - 1 && i < ms0.len() && (#[trigger] ms0[i]).0 == key;
            assert(among(ms0, n, key));
        }
        if among(ms0, n, key) && !among(ms0, n - 1, key) {
            let i = choose|i: int| 0 <= i < n && i < ms0.len() && (#[trigger] ms0[i]).0 == key;
            assert(i == n - 1);
        }
        if key == k {
            assert(ms0[n - 1].0 == key);
            assert(among(ms0, n, key));
        }
        if member(ms1, k) is None {
            lemma_without_member_sorted(prev, k);
            lemma_without_member_lookup(prev, k, key);
        }
    }
}

/// The grown members are in order where `cur` is, and a key is bound among
/// them as in `cur`, but as in the right object where it is one of the
/// first `n` keys of that object and the left object lacks it.
proof fn lemma_grown(
    cur: Seq<(Seq<char>, Json)>,
    ms0: Seq<(Seq<char>, Json)>,
    ms1: Seq<(Seq<char>, Json)>,
    n: int,
    key: Seq<char>,
)
    requires
        keys_sorted(cur),
        keys_sorted(ms1),
        0 <= n <= ms1.len(),
    ensures
        keys_sorted(grown(cur, ms0, ms1, n)),
        member(grown(cur, ms0, ms1, n), key) == if among(ms1, n, key) && member(ms0, key)
            is None {
            member(ms1, key)
        } else {
            member(cur, key)
        },
    decreases n,
{
    if n > 0 {
        lemma_grown(cur, ms0, ms1, n - 1, key);
        let prev = grown(cur, ms0, ms1, n - 1);
        let k = ms1[n - 1].0;
        if among(ms1, n - 1, key) {
            let i = choose|i: int| 0 <= i < n - 1 && i < ms1.len() && (#[trigger] ms1[i]).0 == key;
            assert(among(ms1, n, key));
        }
        if among(ms1, n, key) && !among(ms1, n - 1, key) {
            let i = choose|i: int| 0 <= i < n && i < ms1.len() && (#[trigger] ms1[i]).0 == key;
            assert(i == n - 1);
        }
        if key == k {
            assert(ms1[n - 1].0 == key);
            assert(among(ms1, n, key));
            lemma_member_of_sorted(ms1, n - 1);
        }
        if member(ms0, k) is None {
            lemma_with_member_sorted(prev, k, ms1[n - 1].1);
            lemma_with_member_lookup(prev, k, ms1[n - 1].1, key);
        }
    }
}

/// The removals among the edits of two objects, replayed, take out of the
/// object at the path the members whose keys the right object lacks.
proof fn lemma_replay_removed(
    ms0: Seq<(Seq<char>, Json)>,
    ms1: Seq<(Seq<char>, Json)>,
    path: Seq<Step>,
    n: int,
    tree: Json,
    cur: Seq<(Seq<char>, Json)>,
)
    requires
        keys_sorted(ms0),
        keys_sorted(cur),
        0 <= n <= ms0.len(),
        resolve(tree, path_tokens(path)) == Ok::<Json, Failure>(Json::Object(cur)),
        forall|i: int| 0 <= i < ms0.len() ==> member(cur, (#[trigger] ms0[i]).0) is Some,
    ensures
        replay(removed_edits(ms0, ms1, path, n), tree) == Ok::<Json, Failure>(
            rewrite(tree, path_tokens(path), Json::Object(pruned(cur, ms0, ms1, n))),
        ),
    decreases n,
{
    let tokens = path_tokens(path);
    if n == 0 {
        lemma_replay_none(tree);
        lemma_rewrite_same(tree, tokens);
    } else {
        lemma_replay_removed(ms0, ms1, path, n - 1, tree, cur);
        let prev = pruned(cur, ms0, ms1, n - 1);
        let mid = rewrite(tree, tokens, Json::Object(prev));
        let k = ms0[n - 1].0;
        let front = removed_edits(ms0, ms1, path, n - 1);
        if member(ms1, k) is None {
            let edit = Edit { path: path.push(Step::Key(k)), change: Change::Remove(ms0[n - 1].1) };
            lemma_replay_concat(front, seq![edit], tree);
            lemma_resolve_rewritten(tree, tokens, Json::Object(prev));
            lemma_pruned(cur, ms0, ms1, n - 1, k);
            if among(ms0, n - 1, k) {
                let i = choose|i: int|
                    0 <= i < n - 1 && i < ms0.len() && (#[trigger] ms0[i]).0 == k;
                assert(key_lt(ms0[i].0, ms0[n - 1].0));
                lemma_key_lt_irreflexive(k);
            }
            assert(member(cur, ms0[n - 1].0) is Some);
            lemma_replay_at_key(mid, path, prev, k, ms0[n - 1].1);
            lemma_rewrite_twice(
                tree,
                tokens,
                Json::Object(prev),
                Json::Object(without_member(prev, k)),
            );
        } else {
            assert(removed_edits(ms0, ms1, path, n) =~= front);
        }
    }
}

/// The additions among the edits of two objects, replayed, bind in the
/// object at the path the keys that the left object lacks.
proof fn lemma_replay_added(
    ms0: Seq<(Seq<char>, Json)>,
    ms1: Seq<(Seq<char>, Json)>,
    path: Seq<Step>,
    n: int,
    tree: Json,
    cur: Seq<(Seq<char>, Json)>,
)
    requires
        0 <= n <= ms1.len(),
        resolve(tree, path_tokens(path)) == Ok::<Json, Failure>(Json::Object(cur)),
    ensures
        replay(added_edits(ms0, ms1, path, n), tree) == Ok::<Json, Failure>(
            rewrite(tree, path_tokens(path), Json::Object(grown(cur, ms0, ms1, n))),
        ),
    decreases n,
{
    let tokens = path_tokens(path);
    if n == 0 {
        lemma_replay_none(tree);
        lemma_rewrite_same(tree, tokens);
    } else {
        lemma_replay_added(ms0, ms1, path, n - 1, tree, cur);
        let prev = grown(cur, ms0, ms1, n - 1);
        let mid = rewrite(tree, tokens, Json::Object(prev));
        let k = ms1[n - 1].0;
        let front = added_edits(ms0, ms1, path, n - 1);
        if member(ms0, k) is None {
            let edit = Edit { path: path.push(Step::Key(k)), change: Change::Add(ms1[n - 1].1) };
            lemma_replay_concat(front, seq![edit], tree);
            lemma_resolve_rewritten(tree, tokens, Json::Object(prev));
            lemma_replay_at_key(mid, path, prev, k, ms1[n - 1].1);
            lemma_rewrite_twice(
                tree,
                tokens,
                Json::Object(prev),
                Json::Object(with_member(prev, k, ms1[n - 1].1)),
            );
        } else {
            assert(added_edits(ms0, ms1, path, n) =~= front);
        }
    }
}


/// A path with one more step, a key of the object that the path leads to,
/// leads to the member of that name; and replacing that member replaces the
/// object by itself with the member given the new value.
proof fn lemma_below_key(
    tree: Json,
    path: Seq<Step>,
    members: Seq<(Seq<char>, Json)>,
    key: Seq<char>,
    sub: Json,
)
    requires
        resolve(tree, path_tokens(path)) == Ok::<Json, Failure>(Json::Object(members)),
        member(members, key) is Some,
    ensures
        resolve(tree, path_tokens(path.push(Step::Key(key)))) == Ok::<Json, Failure>(
            member(members, key)->0,
        ),
        rewrite(tree, path_tokens(path.push(Step::Key(key))), sub) == rewrite(
            tree,
            path_tokens(path),
            Json::Object(replace_member(members, key, sub)),
        ),
{
    let tokens = path_tokens(path);
    let child = member(members, key)->0;
    lemma_path_tokens_push(path, Step::Key(key));
    assert(tokens.push(key) =~= tokens + seq![key]);
    lemma_resolve_concat(tree, tokens, seq![key]);
    lemma_rewrite_concat(tree, tokens, seq![key], sub);
    assert(seq![key][0] == key);
    assert(seq![key].drop_first() =~= Seq::<Seq<char>>::empty());
    assert(step_into(Json::Object(members), key) == Ok::<Json, Failure>(child));
    assert(resolve(child, seq![key].drop_first()) == Ok::<Json, Failure>(child));
    assert(rewrite(child, seq![key].drop_first(), sub) == sub);
}

/// A path with one more step, a place in the array that the path leads to,
/// leads to the item there; and replacing that item replaces the array by
/// itself with the new item at that place.
proof fn lemma_below_index(tree: Json, path: Seq<Step>, items: Seq<Json>, j: nat, sub: Json)
    requires
        resolve(tree, path_tokens(path)) == Ok::<Json, Failure>(Json::Array(items)),
        j < items.len(),
        j <= usize::MAX,
    ensures
        resolve(tree, path_tokens(path.push(Step::Index(j)))) == Ok::<Json, Failure>(
            items[j as int],
        ),
        rewrite(tree, path_tokens(path.push(Step::Index(j))), sub) == rewrite(
            tree,
            path_tokens(path),
            Json::Array(items.update(j as int, sub)),
        ),
{
    let tokens = path_tokens(path);
    let token = decimal(j);
    let child = items[j as int];
    lemma_path_tokens_push(path, Step::Index(j));
    lemma_index_token(j);
    assert(tokens.push(token) =~= tokens + seq![token]);
    lemma_resolve_concat(tree, tokens, seq![token]);
    lemma_rewrite_concat(tree, tokens, seq![token], sub);
    assert(seq![token][0] == token);
    assert(seq![token].drop_first() =~= Seq::<Seq<char>>::empty());
    assert(step_into(Json::Array(items), token) == Ok::<Json, Failure>(child));
    assert(resolve(child, seq![token].drop_first()) == Ok::<Json, Failure>(child));
    assert(rewrite(child, seq![token].drop_first(), sub) == sub);
}

/// After a container was replaced, the tokens lead to the new container,
/// and replacing it again is replacing the first one.
proof fn lemma_after_rewrite(tree: Json, p: Seq<Seq<char>>, first: Json, second: Json)
    requires
        resolve(tree, p) is Ok,
    ensures
        resolve(rewrite(tree, p, first), p) == Ok::<Json, Failure>(first),
        rewrite(rewrite(tree, p, first), p, second) == rewrite(tree, p, second),
{
    lemma_resolve_rewritten(tree, p, first);
    lemma_rewrite_twice(tree, p, first, second);
}

/// The edits below the common keys of two objects, replayed, give the
/// members of the object at the path the values of the right object.
proof fn lemma_replay_common(
    ms0: Seq<(Seq<char>, Json)>,
    ms1: Seq<(Seq<char>, Json)>,
    path: Seq<Step>,
    aligned: bool,
    n: int,
    tree: Json,
)
    requires
        Json::Object(ms0).wf(),
        Json::Object(ms1).wf(),
        fits(Json::Object(ms1)),
        0 <= n <= ms0.len(),
        resolve(tree, path_tokens(path)) == Ok::<Json, Failure>(Json::Object(ms0)),
    ensures
        replay(common_edits(ms0, ms1, path, aligned, n), tree) == Ok::<Json, Failure>(
            rewrite(tree, path_tokens(path), Json::Object(merged(ms0, ms1, n))),
        ),
    decreases ms0, n,
{
    let tokens = path_tokens(path);
    if n == 0 {
        lemma_replay_none(tree);
        lemma_rewrite_same(tree, tokens);
        assert(merged(ms0, ms1, 0) =~= ms0);
    } else {
        lemma_replay_common(ms0, ms1, path, aligned, n - 1, tree);
        let prev = merged(ms0, ms1, n - 1);
        let next = merged(ms0, ms1, n);
        let mid = rewrite(tree, tokens, Json::Object(prev));
        let k = ms0[n - 1].0;
        let front = common_edits(ms0, ms1, path, aligned, n - 1);
        match member(ms1, k) {
            None => {
                assert(common_edits(ms0, ms1, path, aligned, n) =~= front);
                assert(next =~= prev);
            },
            Some(v1) => {
                let here = path.push(Step::Key(k));
                let below = edits_between(ms0[n - 1].1, v1, here, aligned);
                lemma_replay_concat(front, below, tree);
                lemma_after_rewrite(tree, tokens, Json::Object(prev), Json::Object(next));
                lemma_merged(ms0, ms1, n - 1);
                assert(prev[n - 1] == ms0[n - 1]);
                assert(member(prev, ms0[n - 1].0) == Some(prev[n - 1].1));
                lemma_below_key(mid, path, prev, k, v1);
                lemma_member_found(ms1, k);
                let j = choose|j: int| 0 <= j < ms1.len() && #[trigger] ms1[j] == (k, v1);
                assert(ms1[j].1.wf());
                assert(fits(ms1[j].1));
                assert(ms0[n - 1].1.wf());
                lemma_diff_replays_at(ms0[n - 1].1, v1, here, aligned, mid);
                assert forall|x: int| 0 <= x < n - 1 implies (#[trigger] prev[x]).0 != k by {
                    assert(key_lt(ms0[x].0, ms0[n - 1].0));
                    lemma_key_lt_irreflexive(k);
                }
                lemma_replace_member_at(prev, k, v1, n - 1);
                assert(prev.update(n - 1, (k, v1)) =~= next);
            },
        }
    }
}

/// One removal of the walk along two arrays, replayed, takes the item at
/// its place out of the array at the path.
proof fn lemma_replay_item_removed(
    tree: Json,
    path: Seq<Step>,
    cur: Seq<Json>,
    j: nat,
    val: Json,
    last: Json,
)
    requires
        resolve(tree, path_tokens(path)) == Ok::<Json, Failure>(Json::Array(cur)),
        j < cur.len(),
        j <= usize::MAX,
    ensures
        ({
            let mid = rewrite(tree, path_tokens(path), Json::Array(cur.remove(j as int)));
            &&& replay(
                seq![Edit { path: path.push(Step::Index(j)), change: Change::Remove(val) }],
                tree,
            ) == Ok::<Json, Failure>(mid)
            &&& resolve(mid, path_tokens(path)) == Ok::<Json, Failure>(
                Json::Array(cur.remove(j as int)),
            )
            &&& rewrite(mid, path_tokens(path), last) == rewrite(tree, path_tokens(path), last)
        }),
{
    lemma_replay_at_index(tree, path, cur, j, val);
    lemma_after_rewrite(tree, path_tokens(path), Json::Array(cur.remove(j as int)), last);
}

/// One addition of the walk along two arrays, replayed, puts its value at
/// its place into the array at the path.
proof fn lemma_replay_item_added(
    tree: Json,
    path: Seq<Step>,
    cur: Seq<Json>,
    j: nat,
    val: Json,
    last: Json,
)
    requires
        resolve(tree, path_tokens(path)) == Ok::<Json, Failure>(Json::Array(cur)),
        j <= cur.len(),
        j <= usize::MAX,
    ensures
        ({
            let mid = rewrite(tree, path_tokens(path), Json::Array(cur.insert(j as int, val)));
            &&& replay(
                seq![Edit { path: path.push(Step::Index(j)), change: Change::Add(val) }],
                tree,
            ) == Ok::<Json, Failure>(mid)
            &&& resolve(mid, path_tokens(path)) == Ok::<Json, Failure>(
                Json::Array(cur.insert(j as int, val)),
            )
            &&& rewrite(mid, path_tokens(path), last) == rewrite(tree, path_tokens(path), last)
        }),
{
    lemma_replay_at_index(tree, path, cur, j, val);
    lemma_after_rewrite(tree, path_tokens(path), Json::Array(cur.insert(j as int, val)), last);
}

/// What the steps of the walk along two arrays make of the array between
/// them: the items of the right array up to its place, then those of the
/// left array from its place on.
proof fn lemma_walk_arrays(a: Seq<Json>, b: Seq<Json>, i: int, j: int)
    requires
        0 <= i <= a.len(),
        0 <= j <= b.len(),
    ensures
        i < a.len() ==> (b.take(j) + a.skip(i)).remove(j) == b.take(j) + a.skip(i + 1),
        j < b.len() ==> (b.take(j) + a.skip(i)).insert(j, b[j]) == b.take(j + 1) + a.skip(i),
        i < a.len() && j < b.len() ==> (b.take(j) + a.skip(i)).update(j, b[j]) == b.take(j + 1)
            + a.skip(i + 1),
        i < a.len() && j < b.len() && a[i] == b[j] ==> b.take(j) + a.skip(i) == b.take(j + 1)
            + a.skip(i + 1),
        i < a.len() ==> (b.take(j) + a.skip(i))[j] == a[i],
        i == a.len() && j == b.len() ==> b.take(j) + a.skip(i) == b,
        (b.take(j) + a.skip(i)).len() == j + a.len() - i,
{
    let cur = b.take(j) + a.skip(i);
    if i < a.len() {
        assert(cur.remove(j) =~= b.take(j) + a.skip(i + 1));
        if j < b.len() {
            assert(cur.update(j, b[j]) =~= b.take(j + 1) + a.skip(i + 1));
            if a[i] == b[j] {
                assert(cur =~= b.take(j + 1) + a.skip(i + 1));
            }
        }
    }
    if j < b.len() {
        assert(cur.insert(j, b[j]) =~= b.take(j + 1) + a.skip(i));
    }
    if i == a.len() && j == b.len() {
        assert(cur =~= b);
    }
}

/// The items of well-formed arrays are well-formed, and the items and the
/// length of an array that fits the machine fit it.
proof fn lemma_items_fit(a: Seq<Json>, b: Seq<Json>)
    requires
        Json::Array(a).wf(),
        Json::Array(b).wf(),
        fits(Json::Array(b)),
    ensures
        forall|i: int| 0 <= i < a.len() ==> (#[trigger] a[i]).wf(),
        forall|j: int| 0 <= j < b.len() ==> (#[trigger] b[j]).wf() && fits(b[j]),
        b.len() <= usize::MAX,
{
    assert(Json::Array(a)->Array_0 == a);
    assert(Json::Array(b)->Array_0 == b);
}

/// Where the walk along two arrays stands before a pair of aligned places,
/// that pair lies within the arrays, joins equal items, and lies before the
/// pair that follows it.
proof fn lemma_next_anchor(a: Seq<Json>, b: Seq<Json>, pairs: Seq<(int, int)>, k: int)
    requires
        is_common_subsequence(
            a,
            b,
            |x: Json, y: Json| x == y,
            a.len() as int,
            b.len() as int,
            pairs,
        ),
        0 <= k < pairs.len(),
    ensures
        0 <= pairs[k].0 < a.len(),
        0 <= pairs[k].1 < b.len(),
        a[pairs[k].0] == b[pairs[k].1],
        k + 1 < pairs.len() ==> pairs[k].0 < pairs[k + 1].0 && pairs[k].1 < pairs[k + 1].1,
{
    assert(0 <= pairs[k].0 < a.len());
    if k + 1 < pairs.len() {
        assert(pairs[k].0 < pairs[k + 1].0);
    }
}

/// The edits of the walk along two arrays, replayed, turn what is left of
/// the left array into what is left of the right array.
proof fn lemma_replay_items(
    a: Seq<Json>,
    b: Seq<Json>,
    pairs: Seq<(int, int)>,
    k: int,
    i: int,
    j: int,
    path: Seq<Step>,
    tree: Json,
)
    requires
        Json::Array(a).wf(),
        Json::Array(b).wf(),
        fits(Json::Array(b)),
        is_common_subsequence(
            a,
            b,
            |x: Json, y: Json| x == y,
            a.len() as int,
            b.len() as int,
            pairs,
        ),
        0 <= k <= pairs.len(),
        0 <= i <= a.len(),
        0 <= j <= b.len(),
        k < pairs.len() ==> i <= pairs[k].0 && j <= pairs[k].1,
        resolve(tree, path_tokens(path)) == Ok::<Json, Failure>(
            Json::Array(b.take(j) + a.skip(i)),
        ),
    ensures
        replay(array_edits(a, b, pairs, k, i, j, path), tree) == Ok::<Json, Failure>(
            rewrite(tree, path_tokens(path), Json::Array(b)),
        ),
    decreases a, a.len() - i + b.len() - j,
{
    let tokens = path_tokens(path);
    let cur = b.take(j) + a.skip(i);
    let last = Json::Array(b);
    let stop0 = if k < pairs.len() {
        pairs[k].0
    } else {
        a.len() as int
    };
    let stop1 = if k < pairs.len() {
        pairs[k].1
    } else {
        b.len() as int
    };
    if k < pairs.len() {
        lemma_next_anchor(a, b, pairs, k);
    }
    lemma_walk_arrays(a, b, i, j);
    lemma_items_fit(a, b);
    let here = path.push(Step::Index(j as nat));
    if i == stop0 && j == stop1 {
        if k < pairs.len() {
            lemma_replay_items(a, b, pairs, k + 1, i + 1, j + 1, path, tree);
        } else {
            lemma_replay_none(tree);
            lemma_rewrite_same(tree, tokens);
        }
    } else if i < stop0 && j < stop1 {
        let below = edits_between(a[i], b[j], here, true);
        let rest = array_edits(a, b, pairs, k, i + 1, j + 1, path);
        lemma_replay_concat(below, rest, tree);
        lemma_below_index(tree, path, cur, j as nat, b[j]);
        lemma_diff_replays_at(a[i], b[j], here, true, tree);
        let next = b.take(j + 1) + a.skip(i + 1);
        let mid = rewrite(tree, tokens, Json::Array(next));
        lemma_after_rewrite(tree, tokens, Json::Array(next), last);
        lemma_replay_items(a, b, pairs, k, i + 1, j + 1, path, mid);
    } else if i < stop0 {
        let edit = Edit { path: here, change: Change::Remove(a[i]) };
        let rest = array_edits(a, b, pairs, k, i + 1, j, path);
        lemma_replay_concat(seq![edit], rest, tree);
        lemma_replay_item_removed(tree, path, cur, j as nat, a[i], last);
        let next = b.take(j) + a.skip(i + 1);
        let mid = rewrite(tree, tokens, Json::Array(next));
        lemma_replay_items(a, b, pairs, k, i + 1, j, path, mid);
    } else if j < stop1 {
        let edit = Edit { path: here, change: Change::Add(b[j]) };
        let rest = array_edits(a, b, pairs, k, i, j + 1, path);
        lemma_replay_concat(seq![edit], rest, tree);
        lemma_replay_item_added(tree, path, cur, j as nat, b[j], last);
        let next = b.take(j + 1) + a.skip(i);
        let mid = rewrite(tree, tokens, Json::Array(next));
        lemma_replay_items(a, b, pairs, k, i, j + 1, path, mid);
    }
}

/// The edits between two documents, replayed in a tree that holds the left
/// document at the path, put the right document in its place.
pub proof fn lemma_diff_replays_at(
    left: Json,
    right: Json,
    path: Seq<Step>,
    aligned: bool,
    tree: Json,
)
    requires
        left.wf(),
        right.wf(),
        fits(right),
        resolve(tree, path_tokens(path)) == Ok::<Json, Failure>(left),
    ensures
        replay(edits_between(left, right, path, aligned), tree) == Ok::<Json, Failure>(
            rewrite(tree, path_tokens(path), right),
        ),
    decreases left, 0nat,
{
    let tokens = path_tokens(path);
    if left is Object && right is Object {
        let ms0 = left->Object_0;
        let ms1 = right->Object_0;
        let n0 = ms0.len() as int;
        let n1 = ms1.len() as int;
        let common = common_edits(ms0, ms1, path, aligned, n0);
        let removed = removed_edits(ms0, ms1, path, n0);
        let added = added_edits(ms0, ms1, path, n1);
        lemma_replay_common(ms0, ms1, path, aligned, n0, tree);
        let m = merged(ms0, ms1, n0);
        let t1 = rewrite(tree, tokens, Json::Object(m));
        lemma_resolve_rewritten(tree, tokens, Json::Object(m));
        lemma_merged(ms0, ms1, n0);
        lemma_replay_removed(ms0, ms1, path, n0, t1, m);
        let p = pruned(m, ms0, ms1, n0);
        lemma_rewrite_twice(tree, tokens, Json::Object(m), Json::Object(p));
        let t2 = rewrite(tree, tokens, Json::Object(p));
        lemma_resolve_rewritten(tree, tokens, Json::Object(p));
        lemma_replay_added(ms0, ms1, path, n1, t2, p);
        let g = grown(p, ms0, ms1, n1);
        lemma_rewrite_twice(tree, tokens, Json::Object(p), Json::Object(g));
        lemma_replay_concat(common, removed, tree);
        lemma_replay_concat(common + removed, added, tree);
        assert forall|key: Seq<char>| member(g, key) == member(ms1, key) by {
            lemma_pruned(m, ms0, ms1, n0, key);
            lemma_grown(p, ms0, ms1, n1, key);
            lemma_bound_iff_among(ms0, key);
            lemma_bound_iff_among(ms1, key);
            if member(ms0, key) is Some {
                let i = choose|i: int|
                    0 <= i < n0 && i < ms0.len() && (#[trigger] ms0[i]).0 == key;
                assert(member(m, ms0[i].0) == Some(m[i].1));
            }
        }
        lemma_pruned(m, ms0, ms1, n0, Seq::empty());
        lemma_grown(p, ms0, ms1, n1, Seq::empty());
        lemma_members_by_lookup(g, ms1);
    } else if left is Array && right is Array {
        let a = left->Array_0;
        let b = right->Array_0;
        if aligned {
            lemma_lcs_pairs_common(a, b, |x: Json, y: Json| x == y, a.len() as int, b.len() as int);
            assert(b.take(0) + a.skip(0) =~= a);
            lemma_replay_items(a, b, anchors(a, b), 0, 0, 0, path, tree);
        } else if left == right {
            lemma_replay_none(tree);
            lemma_rewrite_same(tree, tokens);
        } else {
            lemma_replay_replace(tree, path, left, right);
        }
    } else if left == right {
        lemma_replay_none(tree);
        lemma_rewrite_same(tree, tokens);
    } else {
        lemma_replay_replace(tree, path, left, right);
    }
}

/// The edits between two documents, replayed on the first, give the second.
pub proof fn lemma_diff_replays(left: Json, right: Json, aligned: bool)
    requires
        left.wf(),
        right.wf(),
        fits(right),
    ensures
        replay(edits_between(left, right, Seq::empty(), aligned), left) == Ok::<Json, Failure>(
            right,
        ),
{
    assert(path_tokens(Seq::empty()) =~= Seq::<Seq<char>>::empty());
    lemma_diff_replays_at(left, right, Seq::empty(), aligned, left);
}

impl JsonPatch {
    /// The patch that makes the given edits, one operation for each edit and
    /// in their order.
    pub fn from_diff(diffs: &Vec<DiffElem>) -> (r: Self)
        ensures
            r@ == edits_steps(edits_view(diffs@)),
    {
        let mut patches: Vec<PatchElem> = Vec::new();
        let mut i: usize = 0;
        while i < diffs.len()
            invariant
                i <= diffs@.len(),
                patches@.len() == i,
                forall|k: int| 0 <= k < i ==> (#[trigger] patches@[k])@ == edit_step(diffs@[k]@),
            decreases diffs@.len() - i,
        {
            let path = diffs[i].path().clone();
            let patch = match diffs[i].diff_change() {
                DiffChange::Add(v) => Patch::Add(v.clone()),
                DiffChange::Remove(_) => Patch::Remove,
                DiffChange::Replace { old_val, new_val } => Patch::Replace(new_val.clone()),
            };
            patches.push(PatchElem { patch, path });
            i += 1;
        }
        let r = JsonPatch { patches };
        assert(r@ =~= edits_steps(edits_view(diffs@)));
        r
    }

    /// A patch that turns `left` into `right`: the edits between the two,
    /// with arrays compared along a longest common subsequence, as
    /// operations.
    pub fn between(left: &JsonValue, right: &JsonValue) -> (r: Self)
        ensures
            r@ == edits_steps(edits_between(left@, right@, Seq::empty(), true)),
            left@.wf() && right@.wf() ==> apply_steps(r@, left@) == Ok::<Json, Failure>(right@),
    {
        proof {
            lemma_value_fits(*right);
            if left@.wf() && right@.wf() {
                lemma_diff_replays(left@, right@, true);
            }
        }
        let diffs = diff_values(left, right, ArrDiffMethod::Lcs);
        Self::from_diff(&diffs)
    }
}

} // verus!
