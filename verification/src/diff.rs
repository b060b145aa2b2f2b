//! The difference between two documents, as a list of edits, each at the
//! path of the node that it changes.

use vstd::prelude::*;
use vstd::std_specs::cmp::PartialEqSpecImpl;
use crate::codec::{document_of_text, read_json_str};
use crate::error::JsonPatchError;
use crate::lcs::{
    eq_relation, is_common_subsequence, lcs, lcs_pairs, lemma_lcs_of_same_sequence,
    lemma_lcs_pairs_common, lemma_lcs_respects_relation, pairs_view,
};
use crate::members::{find_member, lemma_member_found, lemma_member_of_sorted, lemma_same_keys};
use crate::path::{path_text, Path, Step};
use crate::value::{
    lemma_array_view, lemma_object_view, member, members_view, values_equal, values_view, Json,
    JsonValue,
};

verus! {

/// What an edit does to the node at its path.
#[derive(Debug)]
pub enum DiffChange {
    Replace { old_val: JsonValue, new_val: JsonValue },
    Add(JsonValue),
    Remove(JsonValue),
}

/// One edit: a change and the path of the node that it changes.
#[derive(Debug)]
pub struct DiffElem {
    diff: DiffChange,
    path: Path,
}

/// How two arrays are compared: as wholes, or item by item along a longest
/// common subsequence.
#[derive(Clone, Copy, Debug, PartialEq, Eq, Structural)]
pub enum ArrDiffMethod {
    Simple,
    Lcs,
}

/// The mathematical model of a [`DiffChange`].
pub enum Change {
    Replace { old_val: Json, new_val: Json },
    Add(Json),
    Remove(Json),
}

/// The mathematical model of a [`DiffElem`].
pub struct Edit {
    pub path: Seq<Step>,
    pub change: Change,
}

impl View for DiffChange {
    type V = Change;

    open spec fn view(&self) -> Change {
        match self {
            DiffChange::Replace { old_val, new_val } => Change::Replace {
                old_val: old_val@,
                new_val: new_val@,
            },
            DiffChange::Add(v) => Change::Add(v@),
            DiffChange::Remove(v) => Change::Remove(v@),
        }
    }
}

impl View for DiffElem {
    type V = Edit;

    closed spec fn view(&self) -> Edit {
        Edit { path: self.path@, change: self.diff@ }
    }
}

/// The models of a list of edits.
pub open spec fn edits_view(diffs: Seq<DiffElem>) -> Seq<Edit> {
    Seq::new(diffs.len(), |i: int| diffs[i]@)
}

/// The edits that turn `left` into `right`, each at its path below `path`.
///
/// Equal scalars need no edit. Two objects are compared member by member.
/// Two arrays are compared along a longest common subsequence where
/// `aligned` holds, and else as wholes. Anything else is replaced.
pub open spec fn edits_between(left: Json, right: Json, path: Seq<Step>, aligned: bool) -> Seq<Edit>
    decreases left, 0nat,
{
    if left is Object && right is Object {
        let ms0 = left->Object_0;
        let ms1 = right->Object_0;
        common_edits(ms0, ms1, path, aligned, ms0.len() as int) + removed_edits(
            ms0,
            ms1,
            path,
            ms0.len() as int,
        ) + added_edits(ms0, ms1, path, ms1.len() as int)
    } else if left is Array && right is Array {
        let a = left->Array_0;
        let b = right->Array_0;
        if aligned {
            array_edits(a, b, anchors(a, b), 0, 0, 0, path)
        } else if left == right {
            Seq::empty()
        } else {
            seq![Edit { path, change: Change::Replace { old_val: left, new_val: right } }]
        }
    } else if left == right {
        Seq::empty()
    } else {
        seq![Edit { path, change: Change::Replace { old_val: left, new_val: right } }]
    }
}

/// The pairs of places at which two arrays are aligned.
pub open spec fn anchors(a: Seq<Json>, b: Seq<Json>) -> Seq<(int, int)> {
    lcs_pairs(a, b, |x: Json, y: Json| x == y, a.len() as int, b.len() as int)
}

/// The edits below the first `n` members of `ms0` whose keys `ms1` has too.
pub open spec fn common_edits(
    ms0: Seq<(Seq<char>, Json)>,
    ms1: Seq<(Seq<char>, Json)>,
    path: Seq<Step>,
    aligned: bool,
    n: int,
) -> Seq<Edit>
    decreases ms0, n,
{
    if n <= 0 || n > ms0.len() {
        Seq::empty()
    } else {
        common_edits(ms0, ms1, path, aligned, n - 1) + match member(ms1, ms0[n - 1].0) {
            Some(v1) => edits_between(
                ms0[n - 1].1,
                v1,
                path.push(Step::Key(ms0[n - 1].0)),
                aligned,
            ),
            None => Seq::empty(),
        }
    }
}

/// A removal for each of the first `n` members of `ms0` whose key `ms1`
/// lacks.
pub open spec fn removed_edits(
    ms0: Seq<(Seq<char>, Json)>,
    ms1: Seq<(Seq<char>, Json)>,
    path: Seq<Step>,
    n: int,
) -> Seq<Edit>
    decreases n,
{
    if n <= 0 || n > ms0.len() {
        Seq::empty()
    } else {
        removed_edits(ms0, ms1, path, n - 1) + match member(ms1, ms0[n - 1].0) {
            Some(_) => Seq::empty(),
            None => seq![
                Edit {
                    path: path.push(Step::Key(ms0[n - 1].0)),
                    change: Change::Remove(ms0[n - 1].1),
                },
            ],
        }
    }
}

/// An addition for each of the first `n` members of `ms1` whose key `ms0`
/// lacks.
pub open spec fn added_edits(
    ms0: Seq<(Seq<char>, Json)>,
    ms1: Seq<(Seq<char>, Json)>,
    path: Seq<Step>,
    n: int,
) -> Seq<Edit>
    decreases n,
{
    if n <= 0 || n > ms1.len() {
        Seq::empty()
    } else {
        added_edits(ms0, ms1, path, n - 1) + match member(ms0, ms1[n - 1].0) {
            Some(_) => Seq::empty(),
            None => seq![
                Edit {
                    path: path.push(Step::Key(ms1[n - 1].0)),
                    change: Change::Add(ms1[n - 1].1),
                },
            ],
        }
    }
}

/// The edits that turn what is left of array `a` from place `i` on into
/// what is left of array `b` from place `j` on, where `pairs` aligns the two
/// arrays and its first `k` pairs are behind.
///
/// The index of every edit is its place in `b`. At an aligned pair nothing
/// changes. Before the next pair, or the two ends, items of both sides are
/// compared with each other in turn; then what is left over of `a` is
/// removed, or what is left over of `b` is added.
pub open spec fn array_edits(
    a: Seq<Json>,
    b: Seq<Json>,
    pairs: Seq<(int, int)>,
    k: int,
    i: int,
    j: int,
    path: Seq<Step>,
) -> Seq<Edit>
    decreases a, a.len() - i + b.len() - j,
{
    if i < 0 || j < 0 || i > a.len() || j > b.len() {
        Seq::empty()
    } else {
        let stop0 = if 0 <= k < pairs.len() {
            pairs[k].0
        } else {
            a.len() as int
        };
        let stop1 = if 0 <= k < pairs.len() {
            pairs[k].1
        } else {
            b.len() as int
        };
        let here = path.push(Step::Index(j as nat));
        if i == stop0 && j == stop1 {
            if 0 <= k < pairs.len() && i < a.len() && j < b.len() {
                array_edits(a, b, pairs, k + 1, i + 1, j + 1, path)
            } else {
                Seq::empty()
            }
        } else if i < stop0 && j < stop1 && i < a.len() && j < b.len() {
            edits_between(a[i], b[j], here, true) + array_edits(a, b, pairs, k, i + 1, j + 1, path)
        } else if i < stop0 && i < a.len() {
            seq![Edit { path: here, change: Change::Remove(a[i]) }] + array_edits(
                a,
                b,
                pairs,
                k,
                i + 1,
                j,
                path,
            )
        } else if j < stop1 && j < b.len() {
            seq![Edit { path: here, change: Change::Add(b[j]) }] + array_edits(
                a,
                b,
                pairs,
                k,
                i,
                j + 1,
                path,
            )
        } else {
            Seq::empty()
        }
    }
}


/// An object compared with itself has no edits below its members.
proof fn lemma_same_members_no_edits(
    ms: Seq<(Seq<char>, Json)>,
    path: Seq<Step>,
    aligned: bool,
    n: int,
)
    requires
        Json::Object(ms).wf(),
        0 <= n <= ms.len(),
    ensures
        common_edits(ms, ms, path, aligned, n) == Seq::<Edit>::empty(),
        removed_edits(ms, ms, path, n) == Seq::<Edit>::empty(),
        added_edits(ms, ms, path, n) == Seq::<Edit>::empty(),
    decreases ms, n,
{
    if n > 0 {
        lemma_same_members_no_edits(ms, path, aligned, n - 1);
        lemma_member_of_sorted(ms, n - 1);
        assert(ms[n - 1].1.wf());
        lemma_diff_same_is_empty(ms[n - 1].1, path.push(Step::Key(ms[n - 1].0)), aligned);
        assert(common_edits(ms, ms, path, aligned, n) =~= Seq::<Edit>::empty());
        assert(removed_edits(ms, ms, path, n) =~= Seq::<Edit>::empty());
        assert(added_edits(ms, ms, path, n) =~= Seq::<Edit>::empty());
    }
}

/// An array walked along itself, aligned place by place, has no edits.
proof fn lemma_same_items_no_edits(a: Seq<Json>, path: Seq<Step>, k: int)
    requires
        0 <= k <= a.len(),
    ensures
        array_edits(a, a, Seq::new(a.len(), |i: int| (i, i)), k, k, k, path) == Seq::<
            Edit,
        >::empty(),
    decreases a.len() - k,
{
    if k < a.len() {
        lemma_same_items_no_edits(a, path, k + 1);
    }
}

/// A document compared with itself needs no edit.
pub proof fn lemma_diff_same_is_empty(t: Json, path: Seq<Step>, aligned: bool)
    requires
        t.wf(),
    ensures
        edits_between(t, t, path, aligned) == Seq::<Edit>::empty(),
    decreases t, 0nat,
{
    match t {
        Json::Object(ms) => {
            lemma_same_members_no_edits(ms, path, aligned, ms.len() as int);
            assert(edits_between(t, t, path, aligned) =~= Seq::<Edit>::empty());
        },
        Json::Array(a) => {
            if aligned {
                lemma_lcs_of_same_sequence(a, |x: Json, y: Json| x == y, a.len() as int);
                lemma_same_items_no_edits(a, path, 0);
            }
        },
        _ => {},
    }
}

/// Where two objects need no edit, every member of the first has its key in
/// the second and an equal value there, and every key of the second is a key
/// of the first.
proof fn lemma_no_member_edits(
    ms0: Seq<(Seq<char>, Json)>,
    ms1: Seq<(Seq<char>, Json)>,
    path: Seq<Step>,
    aligned: bool,
    n0: int,
    n1: int,
)
    requires
        Json::Object(ms0).wf(),
        Json::Object(ms1).wf(),
        0 <= n0 <= ms0.len(),
        0 <= n1 <= ms1.len(),
        common_edits(ms0, ms1, path, aligned, n0).len() == 0,
        removed_edits(ms0, ms1, path, n0).len() == 0,
        added_edits(ms0, ms1, path, n1).len() == 0,
    ensures
        forall|i: int|
            0 <= i < n0 ==> member(ms1, (#[trigger] ms0[i]).0) == Some(ms0[i].1),
        forall|j: int| 0 <= j < n1 ==> member(ms0, (#[trigger] ms1[j]).0) is Some,
    decreases ms0, n0 + n1,
{
    if n0 > 0 {
        lemma_no_member_edits(ms0, ms1, path, aligned, n0 - 1, n1);
        let found = member(ms1, ms0[n0 - 1].0);
        assert(found is Some);
        lemma_member_found(ms1, ms0[n0 - 1].0);
        let j = choose|j: int|
            0 <= j < ms1.len() && #[trigger] ms1[j] == (ms0[n0 - 1].0, found->0);
        assert(ms1[j].1.wf());
        assert(ms0[n0 - 1].1.wf());
        lemma_no_edits_means_equal(
            ms0[n0 - 1].1,
            found->0,
            path.push(Step::Key(ms0[n0 - 1].0)),
            aligned,
        );
    } else if n1 > 0 {
        lemma_no_member_edits(ms0, ms1, path, aligned, n0, n1 - 1);
    }
}

/// Where the walk along two arrays from a pair of places on needs no edit,
/// the arrays hold the same items from these places on.
proof fn lemma_no_item_edits(
    a: Seq<Json>,
    b: Seq<Json>,
    pairs: Seq<(int, int)>,
    k: int,
    i: int,
    j: int,
    path: Seq<Step>,
)
    requires
        Json::Array(a).wf(),
        Json::Array(b).wf(),
        is_common_subsequence(
            a,
            b,
            |x: Json, y: Json| x == y,
            a.len() as int,
            b.len() as int,
            pairs,
        ),
        0 <= k <= pairs.len(),
        0 <= i <= a.len(),
        0 <= j <= b.len(),
        k < pairs.len() ==> i <= pairs[k].0 && j <= pairs[k].1,
        array_edits(a, b, pairs, k, i, j, path).len() == 0,
    ensures
        a.skip(i) == b.skip(j),
    decreases a, a.len() - i + b.len() - j,
{
    let stop0 = if k < pairs.len() {
        pairs[k].0
    } else {
        a.len() as int
    };
    let stop1 = if k < pairs.len() {
        pairs[k].1
    } else {
        b.len() as int
    };
    if i == stop0 && j == stop1 {
        if k < pairs.len() {
            assert(0 <= pairs[k].0 < a.len() && 0 <= pairs[k].1 < b.len());
            assert(a[i] == b[j]);
            if k + 1 < pairs.len() {
                assert(pairs[k].0 < pairs[k + 1].0 && pairs[k].1 < pairs[k + 1].1);
            }
            lemma_no_item_edits(a, b, pairs, k + 1, i + 1, j + 1, path);
            assert(a.skip(i) =~= seq![a[i]] + a.skip(i + 1));
            assert(b.skip(j) =~= seq![b[j]] + b.skip(j + 1));
        } else {
            assert(a.skip(i) =~= b.skip(j));
        }
    } else {
        if k < pairs.len() {
            assert(0 <= pairs[k].0 < a.len() && 0 <= pairs[k].1 < b.len());
        }
        if i < stop0 && j < stop1 {
            let here = path.push(Step::Index(j as nat));
            assert(Json::Array(a)->Array_0 == a);
            assert(Json::Array(b)->Array_0 == b);
            assert(a[i].wf());
            assert(b[j].wf());
            assert(edits_between(a[i], b[j], here, true).len() == 0);
            lemma_no_edits_means_equal(a[i], b[j], here, true);
            lemma_no_item_edits(a, b, pairs, k, i + 1, j + 1, path);
            assert(a.skip(i) =~= seq![a[i]] + a.skip(i + 1));
            assert(b.skip(j) =~= seq![b[j]] + b.skip(j + 1));
        }
    }
}

/// Two documents that need no edit are the same document.
pub proof fn lemma_no_edits_means_equal(left: Json, right: Json, path: Seq<Step>, aligned: bool)
    requires
        left.wf(),
        right.wf(),
        edits_between(left, right, path, aligned).len() == 0,
    ensures
        left == right,
    decreases left, 0nat,
{
    if left is Object && right is Object {
        let ms0 = left->Object_0;
        let ms1 = right->Object_0;
        lemma_no_member_edits(ms0, ms1, path, aligned, ms0.len() as int, ms1.len() as int);
        assert forall|i: int| 0 <= i < ms0.len() implies member(ms1, (#[trigger] ms0[i]).0)
            is Some by {
            assert(member(ms1, ms0[i].0) == Some(ms0[i].1));
        }
        lemma_same_keys(ms0, ms1);
        assert forall|i: int| 0 <= i < ms0.len() implies ms0[i] == ms1[i] by {
            lemma_member_of_sorted(ms1, i);
            assert(member(ms1, ms0[i].0) == Some(ms0[i].1));
        }
        assert(ms0 =~= ms1);
    } else if left is Array && right is Array {
        if aligned {
            let a = left->Array_0;
            let b = right->Array_0;
            lemma_lcs_pairs_common(a, b, |x: Json, y: Json| x == y, a.len() as int, b.len() as int);
            lemma_no_item_edits(a, b, anchors(a, b), 0, 0, 0, path);
            assert(a.skip(0) =~= a);
            assert(b.skip(0) =~= b);
        }
    }
}

impl Clone for DiffChange {
    fn clone(&self) -> (r: Self)
        ensures
            r@ == self@,
    {
        match self {
            DiffChange::Replace { old_val, new_val } => DiffChange::Replace {
                old_val: old_val.clone(),
                new_val: new_val.clone(),
            },
            DiffChange::Add(v) => DiffChange::Add(v.clone()),
            DiffChange::Remove(v) => DiffChange::Remove(v.clone()),
        }
    }
}

impl PartialEq for DiffChange {
    fn eq(&self, other: &Self) -> (r: bool) {
        match (self, other) {
            (
                DiffChange::Replace { old_val: a, new_val: b },
                DiffChange::Replace { old_val: c, new_val: d },
            ) => values_equal(a, c) && values_equal(b, d),
            (DiffChange::Add(a), DiffChange::Add(b)) => values_equal(a, b),
            (DiffChange::Remove(a), DiffChange::Remove(b)) => values_equal(a, b),
            _ => false,
        }
    }
}

impl PartialEqSpecImpl for DiffChange {
    open spec fn obeys_eq_spec() -> bool {
        true
    }

    open spec fn eq_spec(&self, other: &Self) -> bool {
        self@ == other@
    }
}

impl Eq for DiffChange {

}

impl Clone for DiffElem {
    fn clone(&self) -> (r: Self)
        ensures
            r@ == self@,
    {
        DiffElem { diff: self.diff.clone(), path: self.path.clone() }
    }
}

impl PartialEq for DiffElem {
    fn eq(&self, other: &Self) -> (r: bool) {
        self.path == other.path && self.diff == other.diff
    }
}

impl PartialEqSpecImpl for DiffElem {
    open spec fn obeys_eq_spec() -> bool {
        true
    }

    open spec fn eq_spec(&self, other: &Self) -> bool {
        self@ == other@
    }
}

impl Eq for DiffElem {

}

impl DiffChange {
    /// Whether the change is a removal.
    pub fn is_remove(&self) -> (r: bool)
        ensures
            r == (self@ is Remove),
    {
        match self {
            DiffChange::Remove(_) => true,
            _ => false,
        }
    }

    /// The value that the change removes, if it is a removal.
    pub fn as_remove(&self) -> (r: Option<&JsonValue>)
        ensures
            match r {
                Some(v) => self@ == Change::Remove(v@),
                None => !(self@ is Remove),
            },
    {
        match self {
            DiffChange::Remove(v) => Some(v),
            _ => None,
        }
    }
}

impl DiffElem {
    /// The edit that makes `diff` at `path`.
    pub fn new(diff: DiffChange, path: Path) -> (r: Self)
        ensures
            r@ == (Edit { path: path@, change: diff@ }),
    {
        DiffElem { diff, path }
    }

    /// The path of the node that the edit changes.
    pub fn path(&self) -> (r: &Path)
        ensures
            r@ == self@.path,
    {
        &self.path
    }

    /// The path of the node that the edit changes, as text.
    pub fn path_str(&self) -> (r: String)
        ensures
            r@ == path_text(self@.path),
    {
        self.path.to_string()
    }

    /// What the edit does to the node.
    pub fn diff_change(&self) -> (r: &DiffChange)
        ensures
            r@ == self@.change,
    {
        &self.diff
    }
}

/// Appending one edit to a list appends its model to the list's model.
proof fn lemma_edits_push(diffs: Seq<DiffElem>, elem: DiffElem)
    ensures
        edits_view(diffs.push(elem)) == edits_view(diffs) + seq![elem@],
{
    assert(edits_view(diffs.push(elem)) =~= edits_view(diffs) + seq![elem@]);
}

/// A copy of the items of an array.
fn copy_items(items: &Vec<JsonValue>) -> (r: Vec<JsonValue>)
    ensures
        values_view(r@) == values_view(items@),
{
    let mut out: Vec<JsonValue> = Vec::new();
    let mut i: usize = 0;
    while i < items.len()
        invariant
            i <= items@.len(),
            out@.len() == i,
            forall|k: int| 0 <= k < i ==> out@[k]@ == items@[k]@,
        decreases items@.len() - i,
    {
        out.push(items[i].clone());
        i += 1;
    }
    assert(values_view(out@) =~= values_view(items@));
    out
}

/// Whether two arrays hold the same items, place by place.
fn items_equal(a: &Vec<JsonValue>, b: &Vec<JsonValue>) -> (r: bool)
    ensures
        r == (values_view(a@) == values_view(b@)),
{
    if a.len() != b.len() {
        assert(values_view(a@).len() != values_view(b@).len());
        return false;
    }
    let mut i: usize = 0;
    while i < a.len()
        invariant
            a@.len() == b@.len(),
            i <= a@.len(),
            forall|k: int| 0 <= k < i ==> a@[k]@ == b@[k]@,
        decreases a@.len() - i,
    {
        if !values_equal(&a[i], &b[i]) {
            assert(values_view(a@)[i as int] != values_view(b@)[i as int]);
            return false;
        }
        i += 1;
    }
    assert(values_view(a@) =~= values_view(b@));
    true
}

impl ArrDiffMethod {
    /// Whether arrays are compared along a longest common subsequence.
    pub open spec fn aligned(self) -> bool {
        self == ArrDiffMethod::Lcs
    }

    /// Appends to `diffs` the edits that turn array `arr0` into array `arr1`,
    /// both at `path`: by this method's way of comparing arrays.
    pub fn diff(
        &self,
        arr0: &Vec<JsonValue>,
        arr1: &Vec<JsonValue>,
        diffs: Vec<DiffElem>,
        path: Path,
    ) -> (res: Vec<DiffElem>)
        ensures
            edits_view(res@) == edits_view(diffs@) + edits_between(
                Json::Array(values_view(arr0@)),
                Json::Array(values_view(arr1@)),
                path@,
                self.aligned(),
            ),
        decreases arr0, 1nat,
    {
        let mut diffs = diffs;
        match *self {
            ArrDiffMethod::Simple => {
                if items_equal(arr0, arr1) {
                    assert(edits_view(diffs@) + Seq::<Edit>::empty() =~= edits_view(diffs@));
                    diffs
                } else {
                    let old_val = JsonValue::Array(copy_items(arr0));
                    let new_val = JsonValue::Array(copy_items(arr1));
                    proof {
                        lemma_array_view(old_val);
                        lemma_array_view(new_val);
                    }
                    let elem = DiffElem { diff: DiffChange::Replace { old_val, new_val }, path };
                    proof {
                        lemma_edits_push(diffs@, elem);
                    }
                    diffs.push(elem);
                    diffs
                }
            },
            ArrDiffMethod::Lcs => diff_json_arr_lcs(arr0, arr1, diffs, path),
        }
    }
}

/// The edits between the documents that two texts write, with arrays
/// compared along a longest common subsequence.
pub fn diff_json(json0: &str, json1: &str) -> (res: Result<Vec<DiffElem>, JsonPatchError>)
    ensures
        match res {
            Ok(diffs) => text_diff(json0@, json1@, true) == Some(edits_view(diffs@)),
            Err(e) => text_diff(json0@, json1@, true) is None && e@ is InvalidJson,
        },
{
    diff_json_str(json0, json1, ArrDiffMethod::Lcs)
}

/// The edits between the documents that two texts write, with unequal
/// arrays replaced as wholes.
pub fn diff_json_simple(json0: &str, json1: &str) -> (res: Result<Vec<DiffElem>, JsonPatchError>)
    ensures
        match res {
            Ok(diffs) => text_diff(json0@, json1@, false) == Some(edits_view(diffs@)),
            Err(e) => text_diff(json0@, json1@, false) is None && e@ is InvalidJson,
        },
{
    diff_json_str(json0, json1, ArrDiffMethod::Simple)
}

/// The edits between the documents that two texts write, if both write one.
pub open spec fn text_diff(json0: Seq<char>, json1: Seq<char>, aligned: bool) -> Option<Seq<Edit>> {
    match (document_of_text(json0), document_of_text(json1)) {
        (Some(left), Some(right)) => Some(edits_between(left, right, Seq::empty(), aligned)),
        _ => None,
    }
}

/// The edits between the documents that two texts write, with arrays
/// compared by `arr_diff`. It fails where one of the texts writes no
/// document.
pub fn diff_json_str(json0: &str, json1: &str, arr_diff: ArrDiffMethod) -> (res: Result<
    Vec<DiffElem>,
    JsonPatchError,
>)
    ensures
        match res {
            Ok(diffs) => text_diff(json0@, json1@, arr_diff.aligned()) == Some(edits_view(diffs@)),
            Err(e) => text_diff(json0@, json1@, arr_diff.aligned()) is None && e@ is InvalidJson,
        },
{
    let left = match read_json_str(json0) {
        Ok(doc) => doc,
        Err(e) => {
            return Err(e);
        },
    };
    let right = match read_json_str(json1) {
        Ok(doc) => doc,
        Err(e) => {
            return Err(e);
        },
    };
    Ok(diff_values(&left, &right, arr_diff))
}

/// The edits that turn `left` into `right`, with arrays compared by
/// `arr_diff`.
pub fn diff_values(left: &JsonValue, right: &JsonValue, arr_diff: ArrDiffMethod) -> (res: Vec<
    DiffElem,
>)
    ensures
        edits_view(res@) == edits_between(left@, right@, Seq::empty(), arr_diff.aligned()),
{
    let path = Path::empty();
    let diffs: Vec<DiffElem> = Vec::new();
    let res = diff_json_inner(left, right, diffs, path, &arr_diff);
    assert(edits_view(diffs@) + edits_between(left@, right@, Seq::empty(), arr_diff.aligned())
        =~= edits_between(left@, right@, Seq::empty(), arr_diff.aligned()));
    res
}

/// Appends to `diffs` the edits that turn `jval0` into `jval1`, both at
/// `path`.
pub fn diff_json_inner(
    jval0: &JsonValue,
    jval1: &JsonValue,
    diffs: Vec<DiffElem>,
    path: Path,
    arr_diff: &ArrDiffMethod,
) -> (res: Vec<DiffElem>)
    ensures
        edits_view(res@) == edits_view(diffs@) + edits_between(
            jval0@,
            jval1@,
            path@,
            arr_diff.aligned(),
        ),
    decreases jval0, 0nat,
{
    let mut diffs = diffs;
    match (jval0, jval1) {
        (JsonValue::Object(m0), JsonValue::Object(m1)) => {
            proof {
                lemma_object_view(*jval0);
                lemma_object_view(*jval1);
                assert(jval0->Object_0 == *m0);
                assert(decreases_to!(*jval0 => jval0->Object_0));
            }
            diff_json_map(m0, m1, diffs, path, arr_diff)
        },
        (JsonValue::Array(v0), JsonValue::Array(v1)) => {
            proof {
                lemma_array_view(*jval0);
                lemma_array_view(*jval1);
                assert(jval0->Array_0 == *v0);
                assert(decreases_to!(*jval0 => jval0->Array_0));
            }
            arr_diff.diff(v0, v1, diffs, path)
        },
        _ => {
            if values_equal(jval0, jval1) {
                assert(edits_view(diffs@) + Seq::<Edit>::empty() =~= edits_view(diffs@));
                diffs
            } else {
                let elem = DiffElem {
                    diff: DiffChange::Replace { old_val: jval0.clone(), new_val: jval1.clone() },
                    path,
                };
                proof {
                    lemma_edits_push(diffs@, elem);
                }
                diffs.push(elem);
                diffs
            }
        },
    }
}

/// Appends to `diffs` the edits that turn the object with members `m0`
/// into the object with members `m1`, both at `path`: first what changes
/// below the keys that both have, then a removal for each key that only
/// `m0` has, then an addition for each key that only `m1` has.
pub fn diff_json_map(
    m0: &Vec<(String, JsonValue)>,
    m1: &Vec<(String, JsonValue)>,
    diffs: Vec<DiffElem>,
    path: Path,
    arr_diff: &ArrDiffMethod,
) -> (res: Vec<DiffElem>)
    ensures
        edits_view(res@) == edits_view(diffs@) + edits_between(
            Json::Object(members_view(m0@)),
            Json::Object(members_view(m1@)),
            path@,
            arr_diff.aligned(),
        ),
    decreases m0, 1nat,
{
    let ghost base = edits_view(diffs@);
    let ghost ms0 = members_view(m0@);
    let ghost ms1 = members_view(m1@);
    let ghost aligned = arr_diff.aligned();
    let mut diffs = diffs;
    let mut n: usize = 0;
    assert(base + common_edits(ms0, ms1, path@, aligned, 0) =~= base);
    while n < m0.len()
        invariant
            ms0 == members_view(m0@),
            ms1 == members_view(m1@),
            aligned == arr_diff.aligned(),
            n <= m0@.len(),
            edits_view(diffs@) == base + common_edits(ms0, ms1, path@, aligned, n as int),
        decreases m0@.len() - n,
    {
        let ghost before = edits_view(diffs@);
        match find_member(m1, m0[n].0.as_str()) {
            Some(at) => {
                let new_path = path.clone_then_add_key(m0[n].0.as_str());
                proof {
                    assert(decreases_to!(m0 => m0[n as int]));
                    assert(decreases_to!(m0[n as int] => m0[n as int].1));
                }
                diffs = diff_json_inner(&m0[n].1, &m1[at].1, diffs, new_path, arr_diff);
                assert(edits_view(diffs@) =~= base + common_edits(
                    ms0,
                    ms1,
                    path@,
                    aligned,
                    n + 1,
                ));
            },
            None => {
                assert(before =~= base + common_edits(ms0, ms1, path@, aligned, n + 1));
            },
        }
        n += 1;
    }
    let ghost mid = edits_view(diffs@);
    let mut n: usize = 0;
    assert(mid + removed_edits(ms0, ms1, path@, 0) =~= mid);
    while n < m0.len()
        invariant
            ms0 == members_view(m0@),
            ms1 == members_view(m1@),
            n <= m0@.len(),
            edits_view(diffs@) == mid + removed_edits(ms0, ms1, path@, n as int),
        decreases m0@.len() - n,
    {
        let ghost before = edits_view(diffs@);
        if find_member(m1, m0[n].0.as_str()).is_none() {
            let elem = DiffElem {
                diff: DiffChange::Remove(m0[n].1.clone()),
                path: path.clone_then_add_key(m0[n].0.as_str()),
            };
            proof {
                lemma_edits_push(diffs@, elem);
            }
            diffs.push(elem);
            assert(edits_view(diffs@) =~= mid + removed_edits(ms0, ms1, path@, n + 1));
        } else {
            assert(before =~= mid + removed_edits(ms0, ms1, path@, n + 1));
        }
        n += 1;
    }
    let ghost late = edits_view(diffs@);
    let mut n: usize = 0;
    assert(late + added_edits(ms0, ms1, path@, 0) =~= late);
    while n < m1.len()
        invariant
            ms0 == members_view(m0@),
            ms1 == members_view(m1@),
            n <= m1@.len(),
            edits_view(diffs@) == late + added_edits(ms0, ms1, path@, n as int),
        decreases m1@.len() - n,
    {
        let ghost before = edits_view(diffs@);
        if find_member(m0, m1[n].0.as_str()).is_none() {
            let elem = DiffElem {
                diff: DiffChange::Add(m1[n].1.clone()),
                path: path.clone_then_add_key(m1[n].0.as_str()),
            };
            proof {
                lemma_edits_push(diffs@, elem);
            }
            diffs.push(elem);
            assert(edits_view(diffs@) =~= late + added_edits(ms0, ms1, path@, n + 1));
        } else {
            assert(before =~= late + added_edits(ms0, ms1, path@, n + 1));
        }
        n += 1;
    }
    assert(edits_view(diffs@) =~= base + (common_edits(
        ms0,
        ms1,
        path@,
        aligned,
        ms0.len() as int,
    ) + removed_edits(ms0, ms1, path@, ms0.len() as int) + added_edits(
        ms0,
        ms1,
        path@,
        ms1.len() as int,
    )));
    diffs
}

/// Appends to `diffs` the edits that turn array `arr0` into array `arr1`,
/// both at `path`, along a longest common subsequence of the two.
pub fn diff_json_arr_lcs(
    arr0: &Vec<JsonValue>,
    arr1: &Vec<JsonValue>,
    diffs: Vec<DiffElem>,
    path: Path,
) -> (res: Vec<DiffElem>)
    ensures
        edits_view(res@) == edits_view(diffs@) + array_edits(
            values_view(arr0@),
            values_view(arr1@),
            anchors(values_view(arr0@), values_view(arr1@)),
            0,
            0,
            0,
            path@,
        ),
    decreases arr0, 0nat,
{
    let ghost base = edits_view(diffs@);
    let ghost a = values_view(arr0@);
    let ghost b = values_view(arr1@);
    let ghost ps = anchors(a, b);
    let ghost whole = base + array_edits(a, b, ps, 0, 0, 0, path@);
    let mut diffs = diffs;
    let lcs_pairs = lcs(arr0.as_slice(), arr1.as_slice());
    proof {
        lemma_lcs_respects_relation(
            arr0@,
            arr1@,
            eq_relation::<JsonValue>(),
            a,
            b,
            |x: Json, y: Json| x == y,
            arr0@.len() as int,
            arr1@.len() as int,
        );
        lemma_lcs_pairs_common(a, b, |x: Json, y: Json| x == y, a.len() as int, b.len() as int);
        assert(pairs_view(lcs_pairs@) == ps);
    }
    let len0 = arr0.len();
    let len1 = arr1.len();
    let mut k: usize = 0;
    let mut idx0: usize = 0;
    let mut idx1: usize = 0;
    let mut shift_idx: usize = 0;
    while k < lcs_pairs.len()
        invariant
            a == values_view(arr0@),
            b == values_view(arr1@),
            ps == pairs_view(lcs_pairs@),
            is_common_subsequence(
                a,
                b,
                |x: Json, y: Json| x == y,
                a.len() as int,
                b.len() as int,
                ps,
            ),
            len0 == arr0@.len(),
            len1 == arr1@.len(),
            k <= lcs_pairs@.len(),
            idx0 <= len0,
            idx1 <= len1,
            shift_idx == idx1,
            k < lcs_pairs@.len() ==> idx0 <= ps[k as int].0 && idx1 <= ps[k as int].1,
            edits_view(diffs@) + array_edits(a, b, ps, k as int, idx0 as int, idx1 as int, path@)
                == whole,
        decreases (len0 - idx0) + (len1 - idx1) + (lcs_pairs@.len() - k),
    {
        let same_idx_pair = lcs_pairs[k];
        let ghost before = edits_view(diffs@);
        proof {
            assert(ps[k as int] == (same_idx_pair.0 as int, same_idx_pair.1 as int));
            assert(0 <= ps[k as int].0 < a.len());
            assert(0 <= ps[k as int].1 < b.len());
        }
        if idx0 == same_idx_pair.0 && idx1 == same_idx_pair.1 {
            proof {
                if k + 1 < lcs_pairs@.len() {
                    assert(ps[k as int].0 < ps[k + 1].0 && ps[k as int].1 < ps[k + 1].1);
                }
            }
            k += 1;
            shift_idx += 1;
            idx0 += 1;
            idx1 += 1;
        } else if idx0 < same_idx_pair.0 && idx1 < same_idx_pair.1 {
            let new_path = path.clone_then_add_idx(shift_idx);
            proof {
                assert(decreases_to!(arr0 => arr0[idx0 as int]));
            }
            diffs = diff_json_inner(&arr0[idx0], &arr1[idx1], diffs, new_path, &ArrDiffMethod::Lcs);
            proof {
                assert(edits_view(diffs@) + array_edits(
                    a,
                    b,
                    ps,
                    k as int,
                    idx0 + 1,
                    idx1 + 1,
                    path@,
                ) =~= before + array_edits(a, b, ps, k as int, idx0 as int, idx1 as int, path@));
            }
            shift_idx += 1;
            idx0 += 1;
            idx1 += 1;
        } else if idx0 < same_idx_pair.0 {
            let elem = DiffElem {
                diff: DiffChange::Remove(arr0[idx0].clone()),
                path: path.clone_then_add_idx(shift_idx),
            };
            proof {
                lemma_edits_push(diffs@, elem);
            }
            diffs.push(elem);
            proof {
                assert(edits_view(diffs@) + array_edits(
                    a,
                    b,
                    ps,
                    k as int,
                    idx0 + 1,
                    idx1 as int,
                    path@,
                ) =~= before + array_edits(a, b, ps, k as int, idx0 as int, idx1 as int, path@));
            }
            idx0 += 1;
        } else {
            let elem = DiffElem {
                diff: DiffChange::Add(arr1[idx1].clone()),
                path: path.clone_then_add_idx(shift_idx),
            };
            proof {
                lemma_edits_push(diffs@, elem);
            }
            diffs.push(elem);
            proof {
                assert(edits_view(diffs@) + array_edits(
                    a,
                    b,
                    ps,
                    k as int,
                    idx0 as int,
                    idx1 + 1,
                    path@,
                ) =~= before + array_edits(a, b, ps, k as int, idx0 as int, idx1 as int, path@));
            }
            idx1 += 1;
            shift_idx += 1;
        }
    }
    while idx0 < len0 && idx1 < len1
        invariant
            a == values_view(arr0@),
            b == values_view(arr1@),
            len0 == arr0@.len(),
            len1 == arr1@.len(),
            k >= ps.len(),
            idx0 <= len0,
            idx1 <= len1,
            shift_idx == idx1,
            edits_view(diffs@) + array_edits(a, b, ps, k as int, idx0 as int, idx1 as int, path@)
                == whole,
        decreases len0 - idx0,
    {
        let ghost before = edits_view(diffs@);
        let new_path = path.clone_then_add_idx(shift_idx);
        proof {
            assert(decreases_to!(arr0 => arr0[idx0 as int]));
        }
        diffs = diff_json_inner(&arr0[idx0], &arr1[idx1], diffs, new_path, &ArrDiffMethod::Lcs);
        proof {
            assert(edits_view(diffs@) + array_edits(
                a,
                b,
                ps,
                k as int,
                idx0 + 1,
                idx1 + 1,
                path@,
            ) =~= before + array_edits(a, b, ps, k as int, idx0 as int, idx1 as int, path@));
        }
        shift_idx += 1;
        idx0 += 1;
        idx1 += 1;
    }
    while idx0 < len0
        invariant
            a == values_view(arr0@),
            b == values_view(arr1@),
            len0 == arr0@.len(),
            len1 == arr1@.len(),
            k >= ps.len(),
            idx0 <= len0,
            idx1 <= len1,
            idx0 < len0 ==> idx1 == len1,
            shift_idx == idx1,
            edits_view(diffs@) + array_edits(a, b, ps, k as int, idx0 as int, idx1 as int, path@)
                == whole,
        decreases len0 - idx0,
    {
        let ghost before = edits_view(diffs@);
        let elem = DiffElem {
            diff: DiffChange::Remove(arr0[idx0].clone()),
            path: path.clone_then_add_idx(shift_idx),
        };
        proof {
            lemma_edits_push(diffs@, elem);
        }
        diffs.push(elem);
        proof {
            assert(edits_view(diffs@) + array_edits(
                a,
                b,
                ps,
                k as int,
                idx0 + 1,
                idx1 as int,
                path@,
            ) =~= before + array_edits(a, b, ps, k as int, idx0 as int, idx1 as int, path@));
        }
        idx0 += 1;
    }
    while idx1 < len1
        invariant
            a == values_view(arr0@),
            b == values_view(arr1@),
            len0 == arr0@.len(),
            len1 == arr1@.len(),
            k >= ps.len(),
            idx0 == len0,
            idx1 <= len1,
            shift_idx == idx1,
            edits_view(diffs@) + array_edits(a, b, ps, k as int, idx0 as int, idx1 as int, path@)
                == whole,
        decreases len1 - idx1,
    {
        let ghost before = edits_view(diffs@);
        let elem = DiffElem {
            diff: DiffChange::Add(arr1[idx1].clone()),
            path: path.clone_then_add_idx(shift_idx),
        };
        proof {
            lemma_edits_push(diffs@, elem);
        }
        diffs.push(elem);
        proof {
            assert(edits_view(diffs@) + array_edits(
                a,
                b,
                ps,
                k as int,
                idx0 as int,
                idx1 + 1,
                path@,
            ) =~= before + array_edits(a, b, ps, k as int, idx0 as int, idx1 as int, path@));
        }
        idx1 += 1;
        shift_idx += 1;
    }
    assert(edits_view(diffs@) + array_edits(a, b, ps, k as int, idx0 as int, idx1 as int, path@)
        =~= edits_view(diffs@));
    diffs
}

} // verus!
