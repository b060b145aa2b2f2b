//! A patch: operations that are applied to a document one after another.

use vstd::prelude::*;
use crate::error::Failure;
pub use crate::error::JsonPatchError;
use crate::jsonptr::operate_by_jsonptr::{act_by_pointer, OperateByJsonptr};
use crate::path::{Path, Step};
use crate::jsonptr::pointer::{path_tokens, resolve, JsonPointer};
use crate::value::{Json, JsonValue};
use crate::jsonptr::value_mut_ref::{lemma_act_on_wf, lemma_resolve_wf, locate, Act};

verus! {

/// What an operation does at its path.
#[derive(Debug)]
pub enum Patch {
    Add(JsonValue),
    Remove,
    Replace(JsonValue),
    Move { from: Path },
    Copy { from: Path },
    Test(JsonValue),
}

/// One operation of a patch: what it does, and the path at which it does it.
#[derive(Debug)]
pub struct PatchElem {
    pub patch: Patch,
    pub path: Path,
}

/// A patch: its operations, in the order in which they are applied.
#[derive(Debug)]
pub struct JsonPatch {
    pub patches: Vec<PatchElem>,
}

/// The mathematical model of a [`Patch`].
pub enum PatchView {
    Add(Json),
    Remove,
    Replace(Json),
    Move { from: Seq<Step> },
    Copy { from: Seq<Step> },
    Test(Json),
}

/// The mathematical model of a [`PatchElem`].
pub struct PatchStep {
    pub patch: PatchView,
    pub path: Seq<Step>,
}

impl View for Patch {
    type V = PatchView;

    open spec fn view(&self) -> PatchView {
        match self {
            Patch::Add(v) => PatchView::Add(v@),
            Patch::Remove => PatchView::Remove,
            Patch::Replace(v) => PatchView::Replace(v@),
            Patch::Move { from } => PatchView::Move { from: from@ },
            Patch::Copy { from } => PatchView::Copy { from: from@ },
            Patch::Test(v) => PatchView::Test(v@),
        }
    }
}

impl View for PatchElem {
    type V = PatchStep;

    open spec fn view(&self) -> PatchStep {
        PatchStep { patch: self.patch@, path: self.path@ }
    }
}

impl View for JsonPatch {
    type V = Seq<PatchStep>;

    open spec fn view(&self) -> Seq<PatchStep> {
        Seq::new(self.patches@.len(), |i: int| self.patches@[i]@)
    }
}

/// The tree that an act at the place that `path` names makes of `tree`.
pub open spec fn tree_after(tree: Json, path: Seq<Step>, act: Act) -> Result<Json, Failure> {
    match act_by_pointer(tree, path_tokens(path), act) {
        Ok((new_tree, _)) => Ok(new_tree),
        Err(e) => Err(e),
    }
}

/// What one operation makes of `tree`.
///
/// `Add` puts its value at the path and `Remove` takes the node there out.
/// `Replace` overwrites a node that is there. `Move` takes the node at
/// `from` out and adds it at the path, which is followed in the tree
/// without that node; `Copy` adds at the path the node that stands at
/// `from`. `Test` leaves the tree as it is where the node at the path equals
/// its value, and fails with both values where it does not.
pub open spec fn apply_step(step: PatchStep, tree: Json) -> Result<Json, Failure> {
    match step.patch {
        PatchView::Add(v) => tree_after(tree, step.path, Act::Add(v)),
        PatchView::Remove => tree_after(tree, step.path, Act::Delete),
        PatchView::Replace(v) => tree_after(tree, step.path, Act::Replace(v)),
        PatchView::Move { from } => match act_by_pointer(tree, path_tokens(from), Act::Delete) {
            Ok((without, Some(moved))) => tree_after(without, step.path, Act::Add(moved)),
            Ok((_, None)) => Err(Failure::CannotDeleteRoot),
            Err(e) => Err(e),
        },
        PatchView::Copy { from } => match resolve(tree, path_tokens(from)) {
            Ok(copied) => tree_after(tree, step.path, Act::Add(copied)),
            Err(e) => Err(e),
        },
        PatchView::Test(v) => match resolve(tree, path_tokens(step.path)) {
            Ok(actual) => if actual == v {
                Ok(tree)
            } else {
                Err(Failure::TestFail { path: step.path, expected: v, actual })
            },
            Err(e) => Err(e),
        },
    }
}

/// What the operations make of `tree`, each applied to what the one before
/// it made; the first failure is the failure of the whole.
pub open spec fn apply_steps(steps: Seq<PatchStep>, tree: Json) -> Result<Json, Failure>
    decreases steps.len(),
{
    if steps.len() == 0 {
        Ok(tree)
    } else {
        match apply_step(steps[0], tree) {
            Ok(next) => apply_steps(steps.drop_first(), next),
            Err(e) => Err(e),
        }
    }
}

/// Whether an operation is a test that holds of `tree`.
pub open spec fn is_passing_test(step: PatchStep, tree: Json) -> bool {
    match step.patch {
        PatchView::Test(v) => resolve(tree, path_tokens(step.path)) == Ok::<Json, Failure>(v),
        _ => false,
    }
}

/// A patch of tests that all hold leaves the document as it is.
pub proof fn lemma_passing_tests_change_nothing(steps: Seq<PatchStep>, tree: Json)
    requires
        forall|i: int| 0 <= i < steps.len() ==> is_passing_test(#[trigger] steps[i], tree),
    ensures
        apply_steps(steps, tree) == Ok::<Json, Failure>(tree),
    decreases steps.len(),
{
    if steps.len() > 0 {
        assert(is_passing_test(steps[0], tree));
        let rest = steps.drop_first();
        assert forall|i: int| 0 <= i < rest.len() implies is_passing_test(
            #[trigger] rest[i],
            tree,
        ) by {
            assert(rest[i] == steps[i + 1]);
        }
        lemma_passing_tests_change_nothing(rest, tree);
    }
}

impl PatchView {
    /// The value that the operation brings, if it brings one, is
    /// well-formed.
    pub open spec fn wf(self) -> bool {
        match self {
            PatchView::Add(v) => v.wf(),
            PatchView::Replace(v) => v.wf(),
            PatchView::Test(v) => v.wf(),
            _ => true,
        }
    }
}

/// An act by pointer that brings a well-formed value makes of a well-formed
/// tree a well-formed tree, and what it takes out is well-formed.
pub proof fn lemma_act_by_pointer_wf(tree: Json, tokens: Seq<Seq<char>>, act: Act)
    requires
        tree.wf(),
        act.value().wf(),
    ensures
        match act_by_pointer(tree, tokens, act) {
            Ok((new_tree, out)) => new_tree.wf() && (out is Some ==> out->0.wf()),
            Err(_) => true,
        },
{
    match locate(tree, tokens) {
        Ok(place) => lemma_act_on_wf(tree, place, act),
        Err(_) => {},
    }
}

/// An operation that brings a well-formed value makes of a well-formed
/// document a well-formed document.
pub proof fn lemma_apply_step_wf(step: PatchStep, tree: Json)
    requires
        tree.wf(),
        step.patch.wf(),
    ensures
        apply_step(step, tree) is Ok ==> apply_step(step, tree)->Ok_0.wf(),
{
    match step.patch {
        PatchView::Add(v) => lemma_act_by_pointer_wf(tree, path_tokens(step.path), Act::Add(v)),
        PatchView::Remove => lemma_act_by_pointer_wf(tree, path_tokens(step.path), Act::Delete),
        PatchView::Replace(v) => lemma_act_by_pointer_wf(
            tree,
            path_tokens(step.path),
            Act::Replace(v),
        ),
        PatchView::Move { from } => {
            lemma_act_by_pointer_wf(tree, path_tokens(from), Act::Delete);
            match act_by_pointer(tree, path_tokens(from), Act::Delete) {
                Ok((without, Some(moved))) => lemma_act_by_pointer_wf(
                    without,
                    path_tokens(step.path),
                    Act::Add(moved),
                ),
                _ => {},
            }
        },
        PatchView::Copy { from } => {
            lemma_resolve_wf(tree, path_tokens(from));
            match resolve(tree, path_tokens(from)) {
                Ok(copied) => lemma_act_by_pointer_wf(
                    tree,
                    path_tokens(step.path),
                    Act::Add(copied),
                ),
                Err(_) => {},
            }
        },
        PatchView::Test(_) => {},
    }
}

/// A patch whose operations bring well-formed values makes of a well-formed
/// document a well-formed document.
pub proof fn lemma_apply_steps_wf(steps: Seq<PatchStep>, tree: Json)
    requires
        tree.wf(),
        forall|i: int| 0 <= i < steps.len() ==> (#[trigger] steps[i]).patch.wf(),
    ensures
        apply_steps(steps, tree) is Ok ==> apply_steps(steps, tree)->Ok_0.wf(),
    decreases steps.len(),
{
    if steps.len() > 0 {
        assert(steps[0].patch.wf());
        lemma_apply_step_wf(steps[0], tree);
        match apply_step(steps[0], tree) {
            Ok(next) => {
                let rest = steps.drop_first();
                assert forall|i: int| 0 <= i < rest.len() implies (
                #[trigger] rest[i]).patch.wf() by {
                    assert(rest[i] == steps[i + 1]);
                }
                lemma_apply_steps_wf(rest, next);
            },
            Err(_) => {},
        }
    }
}

impl Clone for Patch {
    fn clone(&self) -> (r: Self)
        ensures
            r@ == self@,
    {
        match self {
            Patch::Add(v) => Patch::Add(v.clone()),
            Patch::Remove => Patch::Remove,
            Patch::Replace(v) => Patch::Replace(v.clone()),
            Patch::Move { from } => Patch::Move { from: from.clone() },
            Patch::Copy { from } => Patch::Copy { from: from.clone() },
            Patch::Test(v) => Patch::Test(v.clone()),
        }
    }
}

impl Clone for PatchElem {
    fn clone(&self) -> (r: Self)
        ensures
            r@ == self@,
    {
        PatchElem { patch: self.patch.clone(), path: self.path.clone() }
    }
}

/// Puts `val` at `path` in `json`: before the item of an array, behind its
/// last item, as a member of an object, or in place of the whole document.
pub fn add_json(json: &mut JsonValue, path: &Path, val: &JsonValue) -> (r: Result<
    (),
    JsonPatchError,
>)
    ensures
        match r {
            Ok(_) => tree_after(old(json)@, path@, Act::Add(val@)) == Ok::<Json, Failure>(
                final(json)@,
            ),
            Err(e) => tree_after(old(json)@, path@, Act::Add(val@)) == Err::<Json, Failure>(e@)
                && final(json)@ == old(json)@,
        },
{
    let ptr = JsonPointer::from_path(path);
    json.add(&ptr, val.clone())
}

/// Takes the node at `path` out of `json` and hands it out.
pub fn remove_json(json: &mut JsonValue, path: &Path) -> (r: Result<JsonValue, JsonPatchError>)
    ensures
        match r {
            Ok(out) => act_by_pointer(old(json)@, path_tokens(path@), Act::Delete) == Ok::<
                (Json, Option<Json>),
                Failure,
            >((final(json)@, Some(out@))),
            Err(e) => act_by_pointer(old(json)@, path_tokens(path@), Act::Delete) == Err::<
                (Json, Option<Json>),
                Failure,
            >(e@) && final(json)@ == old(json)@,
        },
{
    let ptr = JsonPointer::from_path(path);
    json.delete(&ptr)
}

/// Puts `val` in place of the node at `path` in `json`, which must be there.
pub fn replace_json(json: &mut JsonValue, path: &Path, val: &JsonValue) -> (r: Result<
    (),
    JsonPatchError,
>)
    ensures
        match r {
            Ok(_) => tree_after(old(json)@, path@, Act::Replace(val@)) == Ok::<Json, Failure>(
                final(json)@,
            ),
            Err(e) => tree_after(old(json)@, path@, Act::Replace(val@)) == Err::<Json, Failure>(
                e@,
            ) && final(json)@ == old(json)@,
        },
{
    let ptr = JsonPointer::from_path(path);
    json.replace(&ptr, val.clone())
}

/// The node at `path` in `json`.
pub fn retrieve_json<'a>(json: &'a JsonValue, path: &Path) -> (r: Result<
    &'a JsonValue,
    JsonPatchError,
>)
    ensures
        match r {
            Ok(node) => resolve(json@, path_tokens(path@)) == Ok::<Json, Failure>(node@),
            Err(e) => resolve(json@, path_tokens(path@)) == Err::<Json, Failure>(e@),
        },
{
    let ptr = JsonPointer::from_path(path);
    json.get_by_ptr(&ptr)
}

impl PatchElem {
    /// What the operation makes of `json`, which itself stays as it is.
    pub fn apply(&self, json: &JsonValue) -> (r: Result<JsonValue, JsonPatchError>)
        ensures
            match r {
                Ok(out) => apply_step(self@, json@) == Ok::<Json, Failure>(out@),
                Err(e) => apply_step(self@, json@) == Err::<Json, Failure>(e@),
            },
    {
        let mut clone_json = json.clone();
        match &self.patch {
            Patch::Add(v) => match add_json(&mut clone_json, &self.path, v) {
                Ok(_) => Ok(clone_json),
                Err(e) => Err(e),
            },
            Patch::Remove => match remove_json(&mut clone_json, &self.path) {
                Ok(_) => Ok(clone_json),
                Err(e) => Err(e),
            },
            Patch::Replace(val) => match replace_json(&mut clone_json, &self.path, val) {
                Ok(_) => Ok(clone_json),
                Err(e) => Err(e),
            },
            Patch::Move { from } => match remove_json(&mut clone_json, from) {
                Ok(removed_val) => match add_json(&mut clone_json, &self.path, &removed_val) {
                    Ok(_) => Ok(clone_json),
                    Err(e) => Err(e),
                },
                Err(e) => Err(e),
            },
            Patch::Copy { from } => match retrieve_json(json, from) {
                Ok(target) => match add_json(&mut clone_json, &self.path, target) {
                    Ok(_) => Ok(clone_json),
                    Err(e) => Err(e),
                },
                Err(e) => Err(e),
            },
            Patch::Test(v) => match retrieve_json(json, &self.path) {
                Ok(target) => {
                    if *v != *target {
                        Err(
                            JsonPatchError::TestFail {
                                path: self.path.clone(),
                                expected: v.clone(),
                                actual: target.clone(),
                            },
                        )
                    } else {
                        Ok(clone_json)
                    }
                },
                Err(e) => Err(e),
            },
        }
    }
}

impl JsonPatch {
    /// What the operations make of `json`, each applied to what the one
    /// before it made. `json` itself stays as it is, and the first operation
    /// that fails ends the work with its failure.
    pub fn apply(&self, json: &JsonValue) -> (r: Result<JsonValue, JsonPatchError>)
        ensures
            match r {
                Ok(out) => apply_steps(self@, json@) == Ok::<Json, Failure>(out@),
                Err(e) => apply_steps(self@, json@) == Err::<Json, Failure>(e@),
            },
    {
        let mut res = json.clone();
        let mut i: usize = 0;
        assert(self@.skip(0) =~= self@);
        while i < self.patches.len()
            invariant
                i <= self.patches@.len(),
                apply_steps(self@, json@) == apply_steps(self@.skip(i as int), res@),
            decreases self.patches@.len() - i,
        {
            proof {
                assert(self@.skip(i as int)[0] == self.patches@[i as int]@);
                assert(self@.skip(i as int).drop_first() =~= self@.skip(i + 1));
            }
            match self.patches[i].apply(&res) {
                Ok(next) => {
                    res = next;
                },
                Err(e) => {
                    return Err(e);
                },
            }
            i += 1;
        }
        Ok(res)
    }
}

} // verus!
