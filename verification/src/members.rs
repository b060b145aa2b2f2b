//! The members of an object: finding one by its key, binding a key and
//! dropping one, with the members kept in the order of their keys.

use vstd::prelude::*;
use crate::text::{
    key_lt, lemma_key_lt_irreflexive, lemma_key_lt_total, lemma_key_lt_transitive, str_eq, str_lt,
};
use crate::value::{
    keys_sorted, lemma_array_view, lemma_item_smaller, lemma_member_smaller, lemma_object_view,
    member, members_view, replace_member, values_view, with_member, without_member, Json, JsonValue,
    Number,
};

verus! {

/// Whether some member is named `key`.
pub open spec fn has_member(members: Seq<(Seq<char>, Json)>, key: Seq<char>) -> bool {
    exists|i: int| 0 <= i < members.len() && (#[trigger] members[i]).0 == key
}

/// The member found first is the one at the first place where the key
/// stands.
pub proof fn lemma_member_first(members: Seq<(Seq<char>, Json)>, key: Seq<char>, i: int)
    requires
        0 <= i <= members.len(),
        forall|j: int| 0 <= j < i ==> (#[trigger] members[j]).0 != key,
    ensures
        i < members.len() && members[i].0 == key ==> member(members, key) == Some(members[i].1),
        i == members.len() ==> member(members, key) is None,
    decreases members.len(),
{
    if members.len() > 0 && i > 0 {
        let rest = members.drop_first();
        assert(members[0].0 != key);
        assert forall|j: int| 0 <= j < i - 1 implies (#[trigger] rest[j]).0 != key by {
            assert(rest[j] == members[j + 1]);
        }
        lemma_member_first(rest, key, i - 1);
        if i < members.len() {
            assert(rest[i - 1] == members[i]);
        }
    }
}

/// The value that a key is bound to is the value of a member of that name.
pub proof fn lemma_member_found(members: Seq<(Seq<char>, Json)>, key: Seq<char>)
    requires
        member(members, key) is Some,
    ensures
        exists|i: int|
            0 <= i < members.len() && #[trigger] members[i] == (key, member(members, key)->0),
    decreases members.len(),
{
    if members[0].0 == key {
        assert(members[0] == (key, member(members, key)->0));
    } else {
        let rest = members.drop_first();
        lemma_member_found(rest, key);
        let i = choose|i: int|
            0 <= i < rest.len() && #[trigger] rest[i] == (key, member(rest, key)->0);
        assert(members[i + 1] == rest[i]);
    }
}

/// Giving a value to a member keeps the members in the order of their keys,
/// and every member is then the changed one or one of the old ones.
pub proof fn lemma_replace_member_sorted(
    members: Seq<(Seq<char>, Json)>,
    key: Seq<char>,
    val: Json,
)
    requires
        keys_sorted(members),
    ensures
        keys_sorted(replace_member(members, key, val)),
        replace_member(members, key, val).len() == members.len(),
        forall|k: int|
            0 <= k < members.len() ==> {
                let m = #[trigger] replace_member(members, key, val)[k];
                m == (key, val) && members[k].0 == key || m == members[k]
            },
    decreases members.len(),
{
    let out = replace_member(members, key, val);
    if members.len() == 0 {
    } else if members[0].0 == key {
        assert(out =~= members.update(0, (key, val)));
        assert forall|i: int, j: int| 0 <= i < j < out.len() implies key_lt(
            (#[trigger] out[i]).0,
            (#[trigger] out[j]).0,
        ) by {
            assert(key_lt(members[i].0, members[j].0));
        }
    } else {
        let rest = members.drop_first();
        lemma_sorted_rest(members);
        lemma_replace_member_sorted(rest, key, val);
        let tail = replace_member(rest, key, val);
        assert(out.drop_first() =~= tail);
        assert(out[0] == members[0]);
        assert forall|k: int| 0 <= k < members.len() implies {
            let m = #[trigger] out[k];
            m == (key, val) && members[k].0 == key || m == members[k]
        } by {
            if k > 0 {
                assert(out[k] == tail[k - 1]);
                assert(rest[k - 1] == members[k]);
            }
        }
        assert forall|i: int, j: int| 0 <= i < j < out.len() implies key_lt(
            (#[trigger] out[i]).0,
            (#[trigger] out[j]).0,
        ) by {
            assert(key_lt(members[i].0, members[j].0));
            assert(out[i].0 == members[i].0);
            assert(out[j].0 == members[j].0);
        }
    }
}

/// A key is bound among the members exactly when some member has it.
pub proof fn lemma_member_some_iff_has(members: Seq<(Seq<char>, Json)>, key: Seq<char>)
    ensures
        member(members, key) is Some <==> has_member(members, key),
    decreases members.len(),
{
    if members.len() > 0 {
        let rest = members.drop_first();
        lemma_member_some_iff_has(rest, key);
        if members[0].0 != key {
            if has_member(members, key) {
                let i = choose|i: int| 0 <= i < members.len() && (#[trigger] members[i]).0 == key;
                assert(rest[i - 1] == members[i]);
            }
            if has_member(rest, key) {
                let i = choose|i: int| 0 <= i < rest.len() && (#[trigger] rest[i]).0 == key;
                assert(members[i + 1] == rest[i]);
            }
        }
    }
}

/// Giving a value to the first member named `key`, which stands at place
/// `i`, changes that member and no other.
pub proof fn lemma_replace_member_at(
    members: Seq<(Seq<char>, Json)>,
    key: Seq<char>,
    val: Json,
    i: int,
)
    requires
        0 <= i < members.len(),
        members[i].0 == key,
        forall|j: int| 0 <= j < i ==> (#[trigger] members[j]).0 != key,
    ensures
        replace_member(members, key, val) == members.update(i, (key, val)),
    decreases i,
{
    let rest = members.drop_first();
    if i == 0 {
        assert(seq![(key, val)] + rest =~= members.update(0, (key, val)));
    } else {
        assert(members[0].0 != key);
        assert forall|j: int| 0 <= j < i - 1 implies (#[trigger] rest[j]).0 != key by {
            assert(rest[j] == members[j + 1]);
        }
        assert(rest[i - 1] == members[i]);
        lemma_replace_member_at(rest, key, val, i - 1);
        assert(seq![members[0]] + rest.update(i - 1, (key, val)) =~= members.update(
            i,
            (key, val),
        ));
    }
}

/// Binding a key that comes after the first `i` keys leaves those members
/// where they are.
pub proof fn lemma_with_member_after(
    members: Seq<(Seq<char>, Json)>,
    key: Seq<char>,
    val: Json,
    i: int,
)
    requires
        0 <= i <= members.len(),
        forall|j: int| 0 <= j < i ==> key_lt((#[trigger] members[j]).0, key),
    ensures
        with_member(members, key, val) == members.take(i) + with_member(
            members.skip(i),
            key,
            val,
        ),
    decreases i,
{
    if i == 0 {
        assert(members.skip(0) =~= members);
        assert(members.take(0) + with_member(members, key, val) =~= with_member(
            members,
            key,
            val,
        ));
    } else {
        let rest = members.drop_first();
        assert(key_lt(members[0].0, key));
        lemma_key_lt_irreflexive(key);
        lemma_key_lt_total(members[0].0, key);
        assert forall|j: int| 0 <= j < i - 1 implies key_lt((#[trigger] rest[j]).0, key) by {
            assert(rest[j] == members[j + 1]);
        }
        lemma_with_member_after(rest, key, val, i - 1);
        assert(rest.skip(i - 1) =~= members.skip(i));
        assert(seq![members[0]] + (rest.take(i - 1) + with_member(members.skip(i), key, val))
            =~= members.take(i) + with_member(members.skip(i), key, val));
    }
}

/// Dropping a key that is not among the first `i` keys leaves those members
/// where they are.
pub proof fn lemma_without_member_after(members: Seq<(Seq<char>, Json)>, key: Seq<char>, i: int)
    requires
        0 <= i <= members.len(),
        forall|j: int| 0 <= j < i ==> (#[trigger] members[j]).0 != key,
    ensures
        without_member(members, key) == members.take(i) + without_member(members.skip(i), key),
    decreases i,
{
    if i == 0 {
        assert(members.skip(0) =~= members);
        assert(members.take(0) + without_member(members, key) =~= without_member(members, key));
    } else {
        let rest = members.drop_first();
        assert(members[0].0 != key);
        assert forall|j: int| 0 <= j < i - 1 implies (#[trigger] rest[j]).0 != key by {
            assert(rest[j] == members[j + 1]);
        }
        lemma_without_member_after(rest, key, i - 1);
        assert(rest.skip(i - 1) =~= members.skip(i));
        assert(seq![members[0]] + (rest.take(i - 1) + without_member(members.skip(i), key))
            =~= members.take(i) + without_member(members.skip(i), key));
    }
}

/// After binding a key, the key is bound to the new value and every other
/// key to what it was bound to before.
pub proof fn lemma_with_member_lookup(
    members: Seq<(Seq<char>, Json)>,
    key: Seq<char>,
    val: Json,
    other: Seq<char>,
)
    ensures
        member(with_member(members, key, val), other) == if other == key {
            Some(val)
        } else {
            member(members, other)
        },
    decreases members.len(),
{
    let out = with_member(members, key, val);
    if members.len() == 0 {
        assert(out[0] == (key, val));
        assert(out.drop_first() =~= members);
    } else if members[0].0 == key {
        assert(out[0] == (key, val));
        assert(out.drop_first() =~= members.drop_first());
    } else if key_lt(key, members[0].0) {
        assert(out[0] == (key, val));
        assert(out.drop_first() =~= members);
    } else {
        lemma_with_member_lookup(members.drop_first(), key, val, other);
        assert(out[0] == members[0]);
        assert(out.drop_first() =~= with_member(members.drop_first(), key, val));
    }
}

/// After dropping a key, the key is no longer bound, where the members were
/// in order, and every other key is bound to what it was bound to before.
pub proof fn lemma_without_member_lookup(
    members: Seq<(Seq<char>, Json)>,
    key: Seq<char>,
    other: Seq<char>,
)
    ensures
        other != key ==> member(without_member(members, key), other) == member(members, other),
        keys_sorted(members) ==> member(without_member(members, key), key) is None,
    decreases members.len(),
{
    let out = without_member(members, key);
    if members.len() == 0 {
    } else if members[0].0 == key {
        let rest = members.drop_first();
        if keys_sorted(members) {
            assert forall|j: int| 0 <= j < rest.len() implies (#[trigger] rest[j]).0 != key by {
                assert(rest[j] == members[j + 1]);
                assert(key_lt(members[0].0, members[j + 1].0));
                lemma_key_lt_irreflexive(key);
            }
            lemma_member_first(rest, key, rest.len() as int);
        }
    } else {
        let rest = members.drop_first();
        lemma_without_member_lookup(rest, key, other);
        assert(out[0] == members[0]);
        assert(out.drop_first() =~= without_member(rest, key));
        if keys_sorted(members) {
            lemma_sorted_rest(members);
        }
    }
}

/// Members in order stay in order without the first of them.
pub proof fn lemma_sorted_rest(members: Seq<(Seq<char>, Json)>)
    requires
        keys_sorted(members),
        members.len() > 0,
    ensures
        keys_sorted(members.drop_first()),
{
    let rest = members.drop_first();
    assert forall|i: int, j: int| 0 <= i < j < rest.len() implies key_lt(
        (#[trigger] rest[i]).0,
        (#[trigger] rest[j]).0,
    ) by {
        assert(rest[i] == members[i + 1]);
        assert(rest[j] == members[j + 1]);
    }
}

/// Every member after binding a key is the new one or one of the old ones,
/// and the members stay in the order of their keys.
pub proof fn lemma_with_member_sorted(members: Seq<(Seq<char>, Json)>, key: Seq<char>, val: Json)
    requires
        keys_sorted(members),
    ensures
        keys_sorted(with_member(members, key, val)),
        forall|k: int|
            0 <= k < with_member(members, key, val).len() ==> {
                let m = #[trigger] with_member(members, key, val)[k];
                m == (key, val) || exists|j: int| 0 <= j < members.len() && members[j] == m
            },
    decreases members.len(),
{
    let out = with_member(members, key, val);
    if members.len() == 0 {
        assert(out[0] == (key, val));
    } else if members[0].0 == key {
        let rest = members.drop_first();
        assert(out.drop_first() =~= rest);
        assert forall|i: int, j: int| 0 <= i < j < out.len() implies key_lt(
            (#[trigger] out[i]).0,
            (#[trigger] out[j]).0,
        ) by {
            assert(out[j] == members[j]);
            if i > 0 {
                assert(out[i] == members[i]);
            } else {
                assert(key_lt(members[0].0, members[j].0));
            }
        }
        assert forall|k: int| 0 <= k < out.len() implies {
            let m = #[trigger] out[k];
            m == (key, val) || exists|j: int| 0 <= j < members.len() && members[j] == m
        } by {
            if k > 0 {
                assert(out[k] == members[k]);
            }
        }
    } else if key_lt(key, members[0].0) {
        assert(out.drop_first() =~= members);
        assert forall|i: int, j: int| 0 <= i < j < out.len() implies key_lt(
            (#[trigger] out[i]).0,
            (#[trigger] out[j]).0,
        ) by {
            assert(out[j] == members[j - 1]);
            if i > 0 {
                assert(out[i] == members[i - 1]);
            } else if j > 1 {
                assert(key_lt(members[0].0, members[j - 1].0));
                lemma_key_lt_transitive(key, members[0].0, members[j - 1].0);
            }
        }
        assert forall|k: int| 0 <= k < out.len() implies {
            let m = #[trigger] out[k];
            m == (key, val) || exists|j: int| 0 <= j < members.len() && members[j] == m
        } by {
            if k > 0 {
                assert(out[k] == members[k - 1]);
            }
        }
    } else {
        let rest = members.drop_first();
        lemma_sorted_rest(members);
        lemma_with_member_sorted(rest, key, val);
        lemma_key_lt_total(key, members[0].0);
        let tail = with_member(rest, key, val);
        assert(out.drop_first() =~= tail);
        assert(out[0] == members[0]);
        assert forall|k: int| 0 <= k < tail.len() implies key_lt(
            members[0].0,
            (#[trigger] tail[k]).0,
        ) by {
            let m = tail[k];
            if m != (key, val) {
                let j = choose|j: int| 0 <= j < rest.len() && rest[j] == m;
                assert(rest[j] == members[j + 1]);
                assert(key_lt(members[0].0, members[j + 1].0));
            }
        }
        assert forall|i: int, j: int| 0 <= i < j < out.len() implies key_lt(
            (#[trigger] out[i]).0,
            (#[trigger] out[j]).0,
        ) by {
            assert(out[j] == tail[j - 1]);
            if i > 0 {
                assert(out[i] == tail[i - 1]);
            }
        }
        assert forall|k: int| 0 <= k < out.len() implies {
            let m = #[trigger] out[k];
            m == (key, val) || exists|j: int| 0 <= j < members.len() && members[j] == m
        } by {
            if k > 0 {
                let m = out[k];
                assert(m == tail[k - 1]);
                if m != (key, val) {
                    let j = choose|j: int| 0 <= j < rest.len() && rest[j] == m;
                    assert(members[j + 1] == m);
                }
            }
        }
    }
}

/// Every member after dropping a key is one of the old ones, and the
/// members stay in the order of their keys.
pub proof fn lemma_without_member_sorted(members: Seq<(Seq<char>, Json)>, key: Seq<char>)
    requires
        keys_sorted(members),
    ensures
        keys_sorted(without_member(members, key)),
        forall|k: int|
            0 <= k < without_member(members, key).len() ==> exists|j: int|
                0 <= j < members.len() && members[j] == #[trigger] without_member(members, key)[k],
    decreases members.len(),
{
    let out = without_member(members, key);
    if members.len() == 0 {
    } else if members[0].0 == key {
        lemma_sorted_rest(members);
        assert forall|k: int| 0 <= k < out.len() implies exists|j: int|
            0 <= j < members.len() && members[j] == #[trigger] out[k] by {
            assert(members[k + 1] == out[k]);
        }
    } else {
        let rest = members.drop_first();
        lemma_sorted_rest(members);
        lemma_without_member_sorted(rest, key);
        let tail = without_member(rest, key);
        assert(out.drop_first() =~= tail);
        assert(out[0] == members[0]);
        assert forall|k: int| 0 <= k < out.len() implies exists|j: int|
            0 <= j < members.len() && members[j] == #[trigger] out[k] by {
            if k > 0 {
                assert(out[k] == tail[k - 1]);
                let j = choose|j: int| 0 <= j < rest.len() && rest[j] == tail[k - 1];
                assert(members[j + 1] == out[k]);
            }
        }
        assert forall|i: int, j: int| 0 <= i < j < out.len() implies key_lt(
            (#[trigger] out[i]).0,
            (#[trigger] out[j]).0,
        ) by {
            assert(out[j] == tail[j - 1]);
            if i > 0 {
                assert(out[i] == tail[i - 1]);
            } else {
                let x = choose|x: int| 0 <= x < rest.len() && rest[x] == tail[j - 1];
                assert(rest[x] == members[x + 1]);
                assert(key_lt(members[0].0, members[x + 1].0));
            }
        }
    }
}

/// Among members in the order of their keys, each key is bound to the
/// value of the member that has it.
pub proof fn lemma_member_of_sorted(ms: Seq<(Seq<char>, Json)>, i: int)
    requires
        keys_sorted(ms),
        0 <= i < ms.len(),
    ensures
        member(ms, ms[i].0) == Some(ms[i].1),
{
    assert forall|j: int| 0 <= j < i implies (#[trigger] ms[j]).0 != ms[i].0 by {
        assert(key_lt(ms[j].0, ms[i].0));
        lemma_key_lt_irreflexive(ms[i].0);
    }
    lemma_member_first(ms, ms[i].0, i);
}

/// Two lists of members in the order of their keys, each holding every key
/// of the other, hold the same keys at the same places.
pub proof fn lemma_same_keys(ms0: Seq<(Seq<char>, Json)>, ms1: Seq<(Seq<char>, Json)>)
    requires
        keys_sorted(ms0),
        keys_sorted(ms1),
        forall|i: int| 0 <= i < ms0.len() ==> member(ms1, (#[trigger] ms0[i]).0) is Some,
        forall|j: int| 0 <= j < ms1.len() ==> member(ms0, (#[trigger] ms1[j]).0) is Some,
    ensures
        ms0.len() == ms1.len(),
        forall|i: int| 0 <= i < ms0.len() ==> (#[trigger] ms0[i]).0 == ms1[i].0,
    decreases ms0.len(),
{
    if ms0.len() == 0 {
        if ms1.len() > 0 {
            assert(member(ms0, ms1[0].0) is Some);
        }
    } else {
        assert(member(ms1, ms0[0].0) is Some);
        lemma_member_found(ms1, ms0[0].0);
        let j = choose|j: int|
            0 <= j < ms1.len() && #[trigger] ms1[j] == (ms0[0].0, member(ms1, ms0[0].0)->0);
        assert(member(ms0, ms1[0].0) is Some);
        lemma_member_found(ms0, ms1[0].0);
        let i = choose|i: int|
            0 <= i < ms0.len() && #[trigger] ms0[i] == (ms1[0].0, member(ms0, ms1[0].0)->0);
        if j > 0 {
            assert(key_lt(ms1[0].0, ms1[j].0));
            if i > 0 {
                assert(key_lt(ms0[0].0, ms0[i].0));
                lemma_key_lt_transitive(ms1[0].0, ms0[0].0, ms1[0].0);
            }
            lemma_key_lt_irreflexive(ms1[0].0);
        }
        assert(ms0[0].0 == ms1[0].0);
        let r0 = ms0.drop_first();
        let r1 = ms1.drop_first();
        lemma_sorted_rest(ms0);
        lemma_sorted_rest(ms1);
        assert forall|x: int| 0 <= x < r0.len() implies member(r1, (#[trigger] r0[x]).0)
            is Some by {
            assert(r0[x] == ms0[x + 1]);
            assert(member(ms1, ms0[x + 1].0) is Some);
            assert(key_lt(ms0[0].0, ms0[x + 1].0));
            lemma_key_lt_irreflexive(ms0[0].0);
        }
        assert forall|y: int| 0 <= y < r1.len() implies member(r0, (#[trigger] r1[y]).0)
            is Some by {
            assert(r1[y] == ms1[y + 1]);
            assert(member(ms0, ms1[y + 1].0) is Some);
            assert(key_lt(ms1[0].0, ms1[y + 1].0));
            lemma_key_lt_irreflexive(ms1[0].0);
        }
        lemma_same_keys(r0, r1);
        assert forall|x: int| 0 <= x < ms0.len() implies (#[trigger] ms0[x]).0 == ms1[x].0 by {
            if x > 0 {
                assert(r0[x - 1] == ms0[x]);
                assert(r1[x - 1] == ms1[x]);
            }
        }
    }
}

/// Two lists of members in order that bind every key alike are the same.
pub proof fn lemma_members_by_lookup(x: Seq<(Seq<char>, Json)>, y: Seq<(Seq<char>, Json)>)
    requires
        keys_sorted(x),
        keys_sorted(y),
        forall|key: Seq<char>| member(x, key) == member(y, key),
    ensures
        x == y,
{
    assert forall|i: int| 0 <= i < x.len() implies member(y, (#[trigger] x[i]).0) is Some by {
        lemma_member_of_sorted(x, i);
    }
    assert forall|j: int| 0 <= j < y.len() implies member(x, (#[trigger] y[j]).0) is Some by {
        lemma_member_of_sorted(y, j);
    }
    lemma_same_keys(x, y);
    assert forall|i: int| 0 <= i < x.len() implies x[i] == y[i] by {
        lemma_member_of_sorted(x, i);
        lemma_member_of_sorted(y, i);
    }
    assert(x =~= y);
}

/// Members of which each comes before the next are in the order of their
/// keys.
pub proof fn lemma_sorted_by_neighbours(members: Seq<(Seq<char>, Json)>, n: int)
    requires
        0 <= n <= members.len(),
        forall|i: int| 0 <= i < n - 1 ==> key_lt((#[trigger] members[i]).0, members[i + 1].0),
    ensures
        keys_sorted(members.take(n)),
    decreases n,
{
    let front = members.take(n);
    if n > 1 {
        lemma_sorted_by_neighbours(members, n - 1);
        let shorter = members.take(n - 1);
        assert forall|i: int, j: int| 0 <= i < j < front.len() implies key_lt(
            (#[trigger] front[i]).0,
            (#[trigger] front[j]).0,
        ) by {
            if j < n - 1 {
                assert(key_lt(shorter[i].0, shorter[j].0));
            } else {
                assert(key_lt(members[n - 2].0, members[n - 2 + 1].0));
                if i < n - 2 {
                    assert(key_lt(shorter[i].0, shorter[n - 2].0));
                    lemma_key_lt_transitive(members[i].0, members[n - 2].0, members[n - 1].0);
                }
            }
        }
    }
}

/// Whether the document is well-formed: the members of every object in it
/// stand in the strict order of their keys, and every number is in its
/// proper form.
pub fn is_well_formed(v: &JsonValue) -> (r: bool)
    ensures
        r == v@.wf(),
    decreases v,
{
    match v {
        JsonValue::Number(Number::NegInt(n)) => *n < 0,
        JsonValue::Array(items) => {
            proof {
                lemma_array_view(*v);
            }
            let ghost models = values_view(items@);
            assert(v@->Array_0 == models);
            let mut i: usize = 0;
            while i < items.len()
                invariant
                    *v is Array,
                    v->Array_0 == *items,
                    models == values_view(items@),
                    v@ == Json::Array(models),
                    i <= items@.len(),
                    forall|k: int| 0 <= k < i ==> (#[trigger] models[k]).wf(),
                decreases items@.len() - i,
            {
                proof {
                    lemma_item_smaller(*v, i as int);
                }
                if !is_well_formed(&items[i]) {
                    assert(!models[i as int].wf());
                    assert(v@->Array_0 == models);
                    return false;
                }
                i += 1;
            }
            assert(v@->Array_0 == models);
            true
        },
        JsonValue::Object(members) => {
            proof {
                lemma_object_view(*v);
            }
            let ghost models = members_view(members@);
            assert(v@->Object_0 == models);
            let mut i: usize = 0;
            while i < members.len()
                invariant
                    *v is Object,
                    v->Object_0 == *members,
                    models == members_view(members@),
                    v@ == Json::Object(models),
                    i <= members@.len(),
                    forall|k: int| 0 <= k < i ==> (#[trigger] models[k]).1.wf(),
                    forall|k: int|
                        0 <= k < i - 1 ==> key_lt((#[trigger] models[k]).0, models[k + 1].0),
                decreases members@.len() - i,
            {
                proof {
                    lemma_member_smaller(*v, i as int);
                }
                if i > 0 && !str_lt(members[i - 1].0.as_str(), members[i].0.as_str()) {
                    assert(!key_lt(models[i - 1].0, models[i as int].0));
                    assert(v@->Object_0 == models);
                    return false;
                }
                if !is_well_formed(&members[i].1) {
                    assert(!models[i as int].1.wf());
                    assert(v@->Object_0 == models);
                    return false;
                }
                i += 1;
            }
            proof {
                lemma_sorted_by_neighbours(models, models.len() as int);
                assert(models.take(models.len() as int) =~= models);
                assert(v@->Object_0 == models);
            }
            true
        },
        _ => true,
    }
}

/// The first `n` of the given members, bound one after another: in the
/// order of their keys, a later member of a name in place of an earlier one.
pub open spec fn bound_members(members: Seq<(Seq<char>, Json)>, n: int) -> Seq<(Seq<char>, Json)>
    decreases n,
{
    if n <= 0 || n > members.len() {
        Seq::empty()
    } else {
        with_member(bound_members(members, n - 1), members[n - 1].0, members[n - 1].1)
    }
}

/// Members bound one after another stand in the order of their keys, and
/// each of them is one of the given members.
pub proof fn lemma_bound_members_sorted(members: Seq<(Seq<char>, Json)>, n: int)
    requires
        0 <= n <= members.len(),
    ensures
        keys_sorted(bound_members(members, n)),
        forall|k: int|
            0 <= k < bound_members(members, n).len() ==> exists|j: int|
                0 <= j < n && members[j] == #[trigger] bound_members(members, n)[k],
    decreases n,
{
    if n > 0 {
        lemma_bound_members_sorted(members, n - 1);
        let front = bound_members(members, n - 1);
        let all = bound_members(members, n);
        lemma_with_member_sorted(front, members[n - 1].0, members[n - 1].1);
        assert forall|k: int| 0 <= k < all.len() implies exists|j: int|
            0 <= j < n && members[j] == #[trigger] all[k] by {
            if all[k] == (members[n - 1].0, members[n - 1].1) {
                assert(members[n - 1] == all[k]);
            } else {
                let i = choose|i: int| 0 <= i < front.len() && front[i] == all[k];
                let j = choose|j: int| 0 <= j < n - 1 && members[j] == front[i];
                assert(members[j] == all[k]);
            }
        }
    }
}

/// The object of the given members: in the order of their keys, a later
/// member of a name in place of an earlier one.
pub fn object_of(members: Vec<(String, JsonValue)>) -> (r: JsonValue)
    ensures
        r@ == Json::Object(bound_members(members_view(members@), members@.len() as int)),
        (forall|i: int| 0 <= i < members@.len() ==> (#[trigger] members@[i]).1@.wf()) ==> r@.wf(),
{
    let ghost given = members_view(members@);
    let mut rest = members;
    let mut out: Vec<(String, JsonValue)> = Vec::new();
    let ghost mut done: int = 0;
    assert(members_view(out@) =~= bound_members(given, 0));
    while rest.len() > 0
        invariant
            0 <= done <= given.len(),
            done + rest@.len() == given.len(),
            members_view(rest@) == given.skip(done),
            members_view(out@) == bound_members(given, done),
        decreases rest@.len(),
    {
        let ghost before = members_view(rest@);
        let ghost old_rest = rest@;
        let m = rest.remove(0);
        proof {
            assert(before[0] == given[done]);
            assert(rest@ =~= old_rest.remove(0));
            assert forall|k: int| 0 <= k < rest@.len() implies members_view(rest@)[k]
                == given.skip(done + 1)[k] by {
                assert(rest@[k] == old_rest[k + 1]);
                assert(before[k + 1] == given.skip(done)[k + 1]);
            }
            assert(members_view(rest@) =~= given.skip(done + 1));
            done = done + 1;
        }
        put_member(&mut out, m.0, m.1);
    }
    let r = JsonValue::Object(out);
    proof {
        assert(r@->Object_0 =~= members_view(out@));
        lemma_bound_members_sorted(given, given.len() as int);
        if forall|i: int| 0 <= i < members@.len() ==> (#[trigger] members@[i]).1@.wf() {
            let all = bound_members(given, given.len() as int);
            assert forall|k: int| 0 <= k < all.len() implies (#[trigger] all[k]).1.wf() by {
                let j = choose|j: int| 0 <= j < given.len() && given[j] == all[k];
                assert(members@[j].1@.wf());
            }
        }
    }
    r
}

/// The place of the first member named `key`, if there is one.
pub fn find_member(members: &Vec<(String, JsonValue)>, key: &str) -> (r: Option<usize>)
    ensures
        match r {
            Some(i) => {
                &&& i < members@.len()
                &&& members@[i as int].0@ == key@
                &&& member(members_view(members@), key@) == Some(members@[i as int].1@)
                &&& forall|j: int| 0 <= j < i ==> (#[trigger] members@[j]).0@ != key@
            },
            None => member(members_view(members@), key@) is None,
        },
        r is Some <==> has_member(members_view(members@), key@),
{
    let ghost ms = members_view(members@);
    let mut i: usize = 0;
    while i < members.len()
        invariant
            ms == members_view(members@),
            i <= members@.len(),
            forall|j: int| 0 <= j < i ==> (#[trigger] ms[j]).0 != key@,
        decreases members@.len() - i,
    {
        if str_eq(members[i].0.as_str(), key) {
            proof {
                lemma_member_first(ms, key@, i as int);
                lemma_member_some_iff_has(ms, key@);
                assert forall|j: int| 0 <= j < i implies (#[trigger] members@[j]).0@ != key@ by {
                    assert(ms[j].0 != key@);
                }
            }
            return Some(i);
        }
        i += 1;
    }
    proof {
        lemma_member_first(ms, key@, i as int);
        lemma_member_some_iff_has(ms, key@);
    }
    None
}

/// Binds `key` to `val` among the members, in place of the member of that
/// name or else at the place that the order of the keys gives it.
pub fn put_member(members: &mut Vec<(String, JsonValue)>, key: String, val: JsonValue)
    ensures
        members_view(final(members)@) == with_member(members_view(old(members)@), key@, val@),
{
    let ghost ms = members_view(members@);
    let mut i: usize = 0;
    while i < members.len() && str_lt(members[i].0.as_str(), key.as_str())
        invariant
            *members == *old(members),
            ms == members_view(members@),
            i <= members@.len(),
            forall|j: int| 0 <= j < i ==> key_lt((#[trigger] ms[j]).0, key@),
        decreases members@.len() - i,
    {
        i += 1;
    }
    proof {
        lemma_with_member_after(ms, key@, val@, i as int);
        if i < members@.len() {
            assert(ms.skip(i as int)[0] == ms[i as int]);
            lemma_key_lt_total(key@, ms[i as int].0);
        }
    }
    if i < members.len() && str_eq(members[i].0.as_str(), key.as_str()) {
        members.set(i, (key, val));
        assert(members_view(members@) =~= ms.take(i as int) + (seq![(key@, val@)] + ms.skip(
            i as int,
        ).drop_first()));
    } else {
        members.insert(i, (key, val));
        assert(members_view(members@) =~= ms.take(i as int) + (seq![(key@, val@)] + ms.skip(
            i as int,
        )));
    }
}

/// Drops the first member named `key` and hands its value out; nothing
/// changes where no member has that name.
pub fn take_member(members: &mut Vec<(String, JsonValue)>, key: &str) -> (r: Option<JsonValue>)
    ensures
        match r {
            Some(v) => member(members_view(old(members)@), key@) == Some(v@),
            None => member(members_view(old(members)@), key@) is None,
        },
        members_view(final(members)@) == without_member(members_view(old(members)@), key@),
        r is None ==> final(members)@ == old(members)@,
{
    let ghost ms = members_view(members@);
    match find_member(members, key) {
        Some(found) => {
            let gone = members.remove(found);
            proof {
                assert forall|j: int| 0 <= j < found implies (#[trigger] ms[j]).0 != key@ by {
                    assert(old(members)@[j].0@ != key@);
                }
                lemma_without_member_after(ms, key@, found as int);
                assert(ms.skip(found as int)[0] == ms[found as int]);
                assert(members_view(members@) =~= ms.take(found as int) + ms.skip(
                    found as int,
                ).drop_first());
            }
            Some(gone.1)
        },
        None => {
            proof {
                lemma_member_some_iff_has(ms, key@);
                assert forall|j: int| 0 <= j < ms.len() implies (#[trigger] ms[j]).0 != key@ by {
                }
                lemma_without_member_after(ms, key@, ms.len() as int);
                assert(ms.take(ms.len() as int) + without_member(ms.skip(ms.len() as int), key@)
                    =~= ms);
            }
            None
        },
    }
}

} // verus!
