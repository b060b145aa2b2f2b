//! A diff made ready for questions: what changed at a path, and which keys
//! were added to the object at a path.

use vstd::prelude::*;
use crate::diff::{
    diff_json, edits_between, diff_values, edits_view, text_diff, ArrDiffMethod, Change, DiffChange,
    DiffElem, Edit,
};
use crate::error::JsonPatchError;
use crate::path::{Path, PathElem, Step};
use crate::value::JsonValue;

verus! {

/// The change that a list of edits makes at `path`: that of the last edit
/// at this path, a later edit taking the place of an earlier one.
pub open spec fn change_at(edits: Seq<Edit>, path: Seq<Step>) -> Option<Change>
    decreases edits.len(),
{
    if edits.len() == 0 {
        None
    } else if edits.last().path == path {
        Some(edits.last().change)
    } else {
        change_at(edits.drop_last(), path)
    }
}

/// Whether an edit adds a member to the object at `parent`.
pub open spec fn adds_key_under(edit: Edit, parent: Seq<Step>) -> bool {
    &&& edit.change is Add
    &&& edit.path.len() > 0
    &&& edit.path.last() is Key
    &&& edit.path.drop_last() == parent
}

/// The keys that a list of edits adds to the object at `parent`, in the
/// order of the edits.
pub open spec fn added_keys(edits: Seq<Edit>, parent: Seq<Step>) -> Seq<Seq<char>>
    decreases edits.len(),
{
    if edits.len() == 0 {
        Seq::empty()
    } else if adds_key_under(edits.last(), parent) {
        added_keys(edits.drop_last(), parent).push(edits.last().path.last()->Key_0)
    } else {
        added_keys(edits.drop_last(), parent)
    }
}

/// Whether an edit changes an item of the array at `parent`.
pub open spec fn changes_item_of(edit: Edit, parent: Seq<Step>) -> bool {
    &&& edit.path.len() > 0
    &&& edit.path.last() is Index
    &&& edit.path.drop_last() == parent
}

/// The edits that change items of the array at `parent`, in the order of
/// the edits.
pub open spec fn item_edits(edits: Seq<Edit>, parent: Seq<Step>) -> Seq<Edit>
    decreases edits.len(),
{
    if edits.len() == 0 {
        Seq::empty()
    } else if changes_item_of(edits.last(), parent) {
        item_edits(edits.drop_last(), parent).push(edits.last())
    } else {
        item_edits(edits.drop_last(), parent)
    }
}

/// The strings of a list, as sequences of characters.
pub open spec fn strings_view(strings: Seq<String>) -> Seq<Seq<char>> {
    Seq::new(strings.len(), |i: int| strings[i]@)
}

/// The edits between two documents, with an index of the keys that they add
/// to each object.
pub struct JsonDiff {
    changes: Vec<DiffElem>,
    child_added_keys: Vec<(Path, Vec<String>)>,
}

/// The index holds, for each object that gets new keys, those keys in the
/// order of the edits, once and under the object's path.
spec fn index_matches(index: Seq<(Path, Vec<String>)>, edits: Seq<Edit>) -> bool {
    &&& forall|i: int|
        0 <= i < index.len() ==> {
            &&& (#[trigger] index[i]).1@.len() > 0
            &&& strings_view(index[i].1@) == added_keys(edits, index[i].0@)
        }
    &&& forall|i: int, j: int|
        0 <= i < j < index.len() ==> (#[trigger] index[i]).0@ != (#[trigger] index[j]).0@
    &&& forall|parent: Seq<Step>|
        (#[trigger] added_keys(edits, parent)).len() > 0 ==> exists|i: int|
            0 <= i < index.len() && (#[trigger] index[i]).0@ == parent
}

/// The place in the index of the object at `parent`, if it is there.
fn find_parent(index: &Vec<(Path, Vec<String>)>, parent: &Path) -> (r: Option<usize>)
    ensures
        match r {
            Some(i) => i < index@.len() && index@[i as int].0@ == parent@,
            None => forall|i: int| 0 <= i < index@.len() ==> (#[trigger] index@[i]).0@ != parent@,
        },
{
    let mut i: usize = 0;
    while i < index.len()
        invariant
            i <= index@.len(),
            forall|j: int| 0 <= j < i ==> (#[trigger] index@[j]).0@ != parent@,
        decreases index@.len() - i,
    {
        if index[i].0 == *parent {
            return Some(i);
        }
        i += 1;
    }
    None
}

/// An edit that adds no key to an object leaves the index as it is.
proof fn lemma_index_unchanged(index: Seq<(Path, Vec<String>)>, edits: Seq<Edit>, last: Edit)
    requires
        index_matches(index, edits),
        !(last.change is Add && last.path.len() > 0 && last.path.last() is Key),
    ensures
        index_matches(index, edits.push(last)),
{
    let after = edits.push(last);
    assert(after.drop_last() =~= edits);
    assert forall|parent: Seq<Step>| added_keys(after, parent) == added_keys(edits, parent) by {
        assert(!adds_key_under(after.last(), parent));
    }
}

/// Notes in the index that one more edit, `last`, adds `key` to the object
/// at `parent`.
fn note_added_key(
    index: &mut Vec<(Path, Vec<String>)>,
    parent: Path,
    key: String,
    Ghost(edits): Ghost<Seq<Edit>>,
    Ghost(last): Ghost<Edit>,
)
    requires
        index_matches(old(index)@, edits),
        adds_key_under(last, parent@),
        last.path.last() == Step::Key(key@),
    ensures
        index_matches(final(index)@, edits.push(last)),
{
    let ghost after = edits.push(last);
    let ghost old_index = index@;
    proof {
        assert(after.drop_last() =~= edits);
        assert forall|other: Seq<Step>| other != parent@ implies added_keys(after, other)
            == added_keys(edits, other) by {
            assert(!adds_key_under(after.last(), other));
        }
        assert(added_keys(after, parent@) == added_keys(edits, parent@).push(key@));
    }
    match find_parent(index, &parent) {
        Some(at) => {
            let (owner, mut keys) = index.remove(at);
            let ghost old_keys = keys@;
            keys.push(key);
            proof {
                assert(strings_view(keys@) =~= strings_view(old_keys).push(key@));
            }
            index.insert(at, (owner, keys));
            proof {
                assert forall|i: int| 0 <= i < index@.len() implies {
                    &&& (#[trigger] index@[i]).1@.len() > 0
                    &&& strings_view(index@[i].1@) == added_keys(after, index@[i].0@)
                } by {
                    if i != at {
                        assert(index@[i] == old_index[i]);
                        assert(old_index[i].0@ != old_index[at as int].0@);
                    }
                }
                assert forall|i: int, j: int| 0 <= i < j < index@.len() implies (
                #[trigger] index@[i]).0@ != (#[trigger] index@[j]).0@ by {
                    assert(index@[i].0@ == old_index[i].0@);
                    assert(index@[j].0@ == old_index[j].0@);
                }
                assert forall|other: Seq<Step>|
                    (#[trigger] added_keys(after, other)).len() > 0 implies exists|i: int|
                    0 <= i < index@.len() && (#[trigger] index@[i]).0@ == other by {
                    if other == parent@ {
                        assert(index@[at as int].0@ == other);
                    } else {
                        assert(added_keys(edits, other).len() > 0);
                        let i = choose|i: int|
                            0 <= i < old_index.len() && (#[trigger] old_index[i]).0@ == other;
                        assert(index@[i].0@ == other);
                    }
                }
            }
        },
        None => {
            let mut keys: Vec<String> = Vec::new();
            keys.push(key);
            proof {
                assert(added_keys(edits, parent@).len() == 0);
                assert(strings_view(keys@) =~= added_keys(after, parent@));
            }
            index.push((parent, keys));
            proof {
                assert forall|i: int| 0 <= i < index@.len() implies {
                    &&& (#[trigger] index@[i]).1@.len() > 0
                    &&& strings_view(index@[i].1@) == added_keys(after, index@[i].0@)
                } by {
                    if i < old_index.len() {
                        assert(index@[i] == old_index[i]);
                    }
                }
                assert forall|i: int, j: int| 0 <= i < j < index@.len() implies (
                #[trigger] index@[i]).0@ != (#[trigger] index@[j]).0@ by {
                    assert(index@[i] == old_index[i]);
                    if j < old_index.len() {
                        assert(index@[j] == old_index[j]);
                    }
                }
                assert forall|other: Seq<Step>|
                    (#[trigger] added_keys(after, other)).len() > 0 implies exists|i: int|
                    0 <= i < index@.len() && (#[trigger] index@[i]).0@ == other by {
                    if other == parent@ {
                        assert(index@[old_index.len() as int].0@ == other);
                    } else {
                        assert(added_keys(edits, other).len() > 0);
                        let i = choose|i: int|
                            0 <= i < old_index.len() && (#[trigger] old_index[i]).0@ == other;
                        assert(index@[i] == old_index[i]);
                    }
                }
            }
        },
    }
}

impl JsonDiff {
    #[verifier::type_invariant]
    spec fn inv(self) -> bool {
        index_matches(self.child_added_keys@, edits_view(self.changes@))
    }

    /// The edits, in the order in which they were found.
    pub closed spec fn edits(self) -> Seq<Edit> {
        edits_view(self.changes@)
    }

    /// The index of a list of edits.
    pub fn new(diffs: Vec<DiffElem>) -> (r: Self)
        ensures
            r.edits() == edits_view(diffs@),
    {
        let mut index: Vec<(Path, Vec<String>)> = Vec::new();
        let ghost all = edits_view(diffs@);
        let mut n: usize = 0;
        assert(all.take(0) =~= Seq::<Edit>::empty());
        while n < diffs.len()
            invariant
                all == edits_view(diffs@),
                n <= diffs@.len(),
                index_matches(index@, all.take(n as int)),
            decreases diffs@.len() - n,
        {
            let ghost before = all.take(n as int);
            let ghost after = all.take(n + 1);
            proof {
                assert(after =~= before.push(diffs@[n as int]@));
            }
            let elem = &diffs[n];
            let mut noted = false;
            if let DiffChange::Add(_) = elem.diff_change() {
                if let Some(PathElem::Key(str_key)) = elem.path().last() {
                    let parent_path = elem.path().parent_path().unwrap();
                    note_added_key(
                        &mut index,
                        parent_path,
                        str_key.clone(),
                        Ghost(before),
                        Ghost(elem@),
                    );
                    noted = true;
                }
            }
            proof {
                if !noted {
                    lemma_index_unchanged(index@, before, elem@);
                }
            }
            n += 1;
        }
        assert(all.take(diffs@.len() as int) =~= all);
        JsonDiff { changes: diffs, child_added_keys: index }
    }

    /// The edits between the documents that the texts `s0` and `s1` write,
    /// ready for questions. It fails where one of the texts writes no
    /// document.
    pub fn diff_json(s0: &str, s1: &str) -> (r: Result<Self, JsonPatchError>)
        ensures
            match r {
                Ok(diff) => text_diff(s0@, s1@, true) == Some(diff.edits()),
                Err(e) => text_diff(s0@, s1@, true) is None && e@ is InvalidJson,
            },
    {
        match diff_json(s0, s1) {
            Ok(diffs) => Ok(Self::new(diffs)),
            Err(e) => Err(e),
        }
    }

    /// The edits that turn `left` into `right`, ready for questions.
    pub fn diff_values(left: &JsonValue, right: &JsonValue) -> (r: Self)
        ensures
            r.edits() == edits_between(left@, right@, Seq::empty(), true),
    {
        Self::new(diff_values(left, right, ArrDiffMethod::Lcs))
    }

    /// The keys added to the object at `path`, in the order of the edits;
    /// nothing where no key was added there.
    pub fn get_add_keys(&self, path: &Path) -> (r: Option<&Vec<String>>)
        ensures
            match r {
                Some(keys) => keys@.len() > 0 && strings_view(keys@) == added_keys(
                    self.edits(),
                    path@,
                ),
                None => added_keys(self.edits(), path@).len() == 0,
            },
    {
        proof {
            use_type_invariant(self);
        }
        match find_parent(&self.child_added_keys, path) {
            Some(at) => Some(&self.child_added_keys[at].1),
            None => None,
        }
    }

    /// The change at `path`, if an edit made one there.
    pub fn get_diffchange(&self, path: &Path) -> (r: Option<&DiffChange>)
        ensures
            match r {
                Some(change) => change_at(self.edits(), path@) == Some(change@),
                None => change_at(self.edits(), path@) is None,
            },
    {
        let ghost all = edits_view(self.changes@);
        let mut n: usize = self.changes.len();
        assert(all.take(n as int) =~= all);
        while n > 0
            invariant
                all == edits_view(self.changes@),
                n <= self.changes@.len(),
                change_at(all, path@) == change_at(all.take(n as int), path@),
            decreases n,
        {
            proof {
                assert(all.take(n as int).drop_last() =~= all.take(n - 1));
                assert(all.take(n as int).last() == self.changes@[n - 1]@);
            }
            n -= 1;
            if *self.changes[n].path() == *path {
                return Some(self.changes[n].diff_change());
            }
        }
        None
    }

    /// The edits that change items of the array at `path`, in the order in
    /// which they were found.
    pub fn get_arr_changes(&self, path: &Path) -> (r: Vec<DiffElem>)
        ensures
            edits_view(r@) == item_edits(self.edits(), path@),
    {
        let ghost all = edits_view(self.changes@);
        let mut out: Vec<DiffElem> = Vec::new();
        let mut n: usize = 0;
        assert(all.take(0) =~= Seq::<Edit>::empty());
        assert(edits_view(out@) =~= Seq::<Edit>::empty());
        while n < self.changes.len()
            invariant
                all == edits_view(self.changes@),
                n <= self.changes@.len(),
                edits_view(out@) == item_edits(all.take(n as int), path@),
            decreases self.changes@.len() - n,
        {
            proof {
                assert(all.take(n + 1).drop_last() =~= all.take(n as int));
                assert(all.take(n + 1).last() == self.changes@[n as int]@);
            }
            let elem = &self.changes[n];
            let under = match (elem.path().arr_idx(), elem.path().parent_path()) {
                (Some(_), Some(parent)) => parent == *path,
                _ => false,
            };
            if under {
                let ghost before = edits_view(out@);
                out.push(elem.clone());
                assert(edits_view(out@) =~= before.push(elem@));
            }
            n += 1;
        }
        assert(all.take(self.changes@.len() as int) =~= all);
        out
    }

    /// The edits, in the order in which they were found.
    pub fn changes(&self) -> (r: &Vec<DiffElem>)
        ensures
            edits_view(r@) == self.edits(),
    {
        &self.changes
    }
}

} // verus!
