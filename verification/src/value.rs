//! The tree of values that is compared and patched, and its mathematical
//! model.

use vstd::prelude::*;
use vstd::std_specs::cmp::PartialEqSpecImpl;
use crate::text::key_lt;

verus! {

/// A number of a document. A whole number that is not negative is a
/// `PosInt`, a negative one a `NegInt`; any other number is a `Float`, kept
/// as the bit pattern of a double.
#[derive(Clone, Copy, Debug, PartialEq, Eq, Structural)]
pub enum Number {
    PosInt(u64),
    NegInt(i64),
    Float(u64),
}

/// A document: a scalar, an array of documents, or an object whose members
/// are kept in the strict order of their keys.
#[derive(Debug)]
pub enum JsonValue {
    Null,
    Bool(bool),
    Number(Number),
    String(String),
    Array(Vec<JsonValue>),
    Object(Vec<(String, JsonValue)>),
}

/// The mathematical model of a [`JsonValue`].
pub enum Json {
    Null,
    Bool(bool),
    Number(Number),
    String(Seq<char>),
    Array(Seq<Json>),
    Object(Seq<(Seq<char>, Json)>),
}

impl JsonValue {
    /// The model of a document, built from the models of what it holds.
    pub open spec fn model(&self) -> Json
        decreases self,
    {
        match self {
            JsonValue::Null => Json::Null,
            JsonValue::Bool(b) => Json::Bool(*b),
            JsonValue::Number(n) => Json::Number(*n),
            JsonValue::String(s) => Json::String(s@),
            JsonValue::Array(items) => Json::Array(
                Seq::new(
                    items@.len(),
                    |i: int|
                        if 0 <= i < items@.len() {
                            items@[i].model()
                        } else {
                            Json::Null
                        },
                ),
            ),
            JsonValue::Object(members) => Json::Object(
                Seq::new(
                    members@.len(),
                    |i: int|
                        if 0 <= i < members@.len() {
                            (members@[i].0@, members@[i].1.model())
                        } else {
                            (Seq::empty(), Json::Null)
                        },
                ),
            ),
        }
    }
}

impl View for JsonValue {
    type V = Json;

    open spec fn view(&self) -> Json {
        self.model()
    }
}

/// The models of the items of an array.
pub open spec fn values_view(items: Seq<JsonValue>) -> Seq<Json> {
    Seq::new(items.len(), |i: int| items[i]@)
}

/// The models of the members of an object.
pub open spec fn members_view(members: Seq<(String, JsonValue)>) -> Seq<(Seq<char>, Json)> {
    Seq::new(members.len(), |i: int| (members[i].0@, members[i].1@))
}

/// The model of an array is the array of its items' models.
pub proof fn lemma_array_view(v: JsonValue)
    requires
        v is Array,
    ensures
        v@ == Json::Array(values_view(v->Array_0@)),
{
    match v {
        JsonValue::Array(items) => {
            assert(v@->Array_0 =~= values_view(items@));
        },
        _ => {},
    }
}

/// The model of an object holds its members' keys and models.
pub proof fn lemma_object_view(v: JsonValue)
    requires
        v is Object,
    ensures
        v@ == Json::Object(members_view(v->Object_0@)),
{
    match v {
        JsonValue::Object(members) => {
            assert(v@->Object_0 =~= members_view(members@));
        },
        _ => {},
    }
}

/// An item of an array is smaller than the array, for recursion.
pub proof fn lemma_item_smaller(v: JsonValue, i: int)
    requires
        v is Array,
        0 <= i < v->Array_0@.len(),
    ensures
        decreases_to!(v => v->Array_0@[i]),
{
    assert(decreases_to!(v => v->Array_0));
    assert(decreases_to!(v->Array_0 => v->Array_0[i]));
}

/// The value of a member is smaller than the object, for recursion.
pub proof fn lemma_member_smaller(v: JsonValue, i: int)
    requires
        v is Object,
        0 <= i < v->Object_0@.len(),
    ensures
        decreases_to!(v => v->Object_0@[i].1),
{
    assert(decreases_to!(v => v->Object_0));
    assert(decreases_to!(v->Object_0 => v->Object_0[i]));
    assert(decreases_to!(v->Object_0[i] => v->Object_0[i].1));
}

/// Whether two documents are the same, member by member and item by item.
pub fn values_equal(a: &JsonValue, b: &JsonValue) -> (r: bool)
    ensures
        r == (a@ == b@),
    decreases a,
{
    match (a, b) {
        (JsonValue::Null, JsonValue::Null) => true,
        (JsonValue::Bool(x), JsonValue::Bool(y)) => *x == *y,
        (JsonValue::Number(x), JsonValue::Number(y)) => *x == *y,
        (JsonValue::String(x), JsonValue::String(y)) => *x == *y,
        (JsonValue::Array(x), JsonValue::Array(y)) => {
            proof {
                lemma_array_view(*a);
                lemma_array_view(*b);
                assert(a->Array_0 == *x);
                assert(b->Array_0 == *y);
            }
            if x.len() != y.len() {
                assert(values_view(x@).len() != values_view(y@).len());
                return false;
            }
            let mut i: usize = 0;
            while i < x.len()
                invariant
                    *a is Array,
                    a->Array_0 == *x,
                    a@ == Json::Array(values_view(x@)),
                    b@ == Json::Array(values_view(y@)),
                    x@.len() == y@.len(),
                    i <= x@.len(),
                    forall|k: int| 0 <= k < i ==> x@[k]@ == y@[k]@,
                decreases x@.len() - i,
            {
                proof {
                    lemma_item_smaller(*a, i as int);
                }
                if !values_equal(&x[i], &y[i]) {
                    assert(values_view(x@)[i as int] != values_view(y@)[i as int]);
                    return false;
                }
                i += 1;
            }
            assert(values_view(x@) =~= values_view(y@));
            true
        },
        (JsonValue::Object(x), JsonValue::Object(y)) => {
            proof {
                lemma_object_view(*a);
                lemma_object_view(*b);
                assert(a->Object_0 == *x);
                assert(b->Object_0 == *y);
            }
            if x.len() != y.len() {
                assert(members_view(x@).len() != members_view(y@).len());
                return false;
            }
            let mut i: usize = 0;
            while i < x.len()
                invariant
                    *a is Object,
                    a->Object_0 == *x,
                    a@ == Json::Object(members_view(x@)),
                    b@ == Json::Object(members_view(y@)),
                    x@.len() == y@.len(),
                    i <= x@.len(),
                    forall|k: int| 0 <= k < i ==> x@[k].0@ == y@[k].0@ && x@[k].1@ == y@[k].1@,
                decreases x@.len() - i,
            {
                proof {
                    lemma_member_smaller(*a, i as int);
                }
                if x[i].0 != y[i].0 || !values_equal(&x[i].1, &y[i].1) {
                    assert(members_view(x@)[i as int] != members_view(y@)[i as int]);
                    return false;
                }
                i += 1;
            }
            assert(members_view(x@) =~= members_view(y@));
            true
        },
        _ => false,
    }
}

/// A copy of a document.
pub fn copy_value(v: &JsonValue) -> (r: JsonValue)
    ensures
        r@ == v@,
    decreases v,
{
    match v {
        JsonValue::Null => JsonValue::Null,
        JsonValue::Bool(b) => JsonValue::Bool(*b),
        JsonValue::Number(n) => JsonValue::Number(*n),
        JsonValue::String(s) => JsonValue::String(s.clone()),
        JsonValue::Array(items) => {
            let mut out: Vec<JsonValue> = Vec::new();
            let mut i: usize = 0;
            while i < items.len()
                invariant
                    *v is Array,
                    v->Array_0 == *items,
                    i <= items@.len(),
                    out@.len() == i,
                    forall|k: int| 0 <= k < i ==> out@[k]@ == items@[k]@,
                decreases items@.len() - i,
            {
                proof {
                    lemma_item_smaller(*v, i as int);
                }
                out.push(copy_value(&items[i]));
                i += 1;
            }
            let r = JsonValue::Array(out);
            proof {
                lemma_array_view(*v);
                lemma_array_view(r);
                assert(values_view(out@) =~= values_view(items@));
            }
            r
        },
        JsonValue::Object(members) => {
            let mut out: Vec<(String, JsonValue)> = Vec::new();
            let mut i: usize = 0;
            while i < members.len()
                invariant
                    *v is Object,
                    v->Object_0 == *members,
                    i <= members@.len(),
                    out@.len() == i,
                    forall|k: int|
                        0 <= k < i ==> out@[k].0@ == members@[k].0@ && out@[k].1@ == members@[k].1@,
                decreases members@.len() - i,
            {
                proof {
                    lemma_member_smaller(*v, i as int);
                }
                out.push((members[i].0.clone(), copy_value(&members[i].1)));
                i += 1;
            }
            let r = JsonValue::Object(out);
            proof {
                lemma_object_view(*v);
                lemma_object_view(r);
                assert(members_view(out@) =~= members_view(members@));
            }
            r
        },
    }
}

impl Clone for JsonValue {
    fn clone(&self) -> (r: Self)
        ensures
            r@ == self@,
    {
        copy_value(self)
    }
}

impl PartialEq for JsonValue {
    fn eq(&self, other: &Self) -> (r: bool) {
        values_equal(self, other)
    }
}

impl PartialEqSpecImpl for JsonValue {
    open spec fn obeys_eq_spec() -> bool {
        true
    }

    open spec fn eq_spec(&self, other: &Self) -> bool {
        self@ == other@
    }
}

impl Eq for JsonValue {

}

impl Number {
    /// A negative whole number is the only thing a `NegInt` holds.
    pub open spec fn wf(self) -> bool {
        match self {
            Number::NegInt(v) => v < 0,
            _ => true,
        }
    }
}

/// The members of an object stand in the strict order of their keys, so no
/// key occurs twice.
pub open spec fn keys_sorted(members: Seq<(Seq<char>, Json)>) -> bool {
    forall|i: int, j: int|
        0 <= i < j < members.len() ==> key_lt((#[trigger] members[i]).0, (#[trigger] members[j]).0)
}

/// The value of the first member named `key`, if there is one.
pub open spec fn member(members: Seq<(Seq<char>, Json)>, key: Seq<char>) -> Option<Json>
    decreases members.len(),
{
    if members.len() == 0 {
        None
    } else if members[0].0 == key {
        Some(members[0].1)
    } else {
        member(members.drop_first(), key)
    }
}

/// The members with `key` bound to `val`: in place of the member of that
/// name, or else before the first member whose key comes after `key`.
pub open spec fn with_member(members: Seq<(Seq<char>, Json)>, key: Seq<char>, val: Json) -> Seq<
    (Seq<char>, Json),
>
    decreases members.len(),
{
    if members.len() == 0 {
        seq![(key, val)]
    } else if members[0].0 == key {
        seq![(key, val)] + members.drop_first()
    } else if key_lt(key, members[0].0) {
        seq![(key, val)] + members
    } else {
        seq![members[0]] + with_member(members.drop_first(), key, val)
    }
}

/// The members with the first one named `key` given the value `val`;
/// nothing changes where no member has that name.
pub open spec fn replace_member(members: Seq<(Seq<char>, Json)>, key: Seq<char>, val: Json) -> Seq<
    (Seq<char>, Json),
>
    decreases members.len(),
{
    if members.len() == 0 {
        members
    } else if members[0].0 == key {
        seq![(key, val)] + members.drop_first()
    } else {
        seq![members[0]] + replace_member(members.drop_first(), key, val)
    }
}

/// The members without the first one named `key`.
pub open spec fn without_member(members: Seq<(Seq<char>, Json)>, key: Seq<char>) -> Seq<
    (Seq<char>, Json),
>
    decreases members.len(),
{
    if members.len() == 0 {
        members
    } else if members[0].0 == key {
        members.drop_first()
    } else {
        seq![members[0]] + without_member(members.drop_first(), key)
    }
}

impl Json {
    /// Every object below has its members in the strict order of their keys,
    /// and every number is in its proper form.
    pub open spec fn wf(self) -> bool
        decreases self,
    {
        match self {
            Json::Number(n) => n.wf(),
            Json::Array(items) => forall|i: int|
                0 <= i < items.len() ==> (#[trigger] items[i]).wf(),
            Json::Object(members) => keys_sorted(members) && forall|i: int|
                0 <= i < members.len() ==> (#[trigger] members[i]).1.wf(),
            _ => true,
        }
    }
}

} // verus!
