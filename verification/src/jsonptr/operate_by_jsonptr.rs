//! Reading and changing a document at the node that a pointer names.

use vstd::prelude::*;
use crate::error::{Failure, JsonPatchError};
use crate::jsonptr::pointer::{resolve, JsonPointer};
use crate::value::{Json, JsonValue};
use crate::jsonptr::value_mut_ref::{act_on, locate, Act};

verus! {

/// What an act at the place that the tokens name makes of `tree`: the new
/// tree and the value taken out. It fails as finding the place fails, or as
/// the act fails there.
pub open spec fn act_by_pointer(tree: Json, tokens: Seq<Seq<char>>, act: Act) -> Result<
    (Json, Option<Json>),
    Failure,
> {
    match locate(tree, tokens) {
        Ok(place) => act_on(tree, place, act),
        Err(e) => Err(e),
    }
}

/// A document that is read and changed at the nodes that pointers name.
pub trait OperateByJsonptr: Sized {
    /// The document as a tree of values.
    spec fn doc(&self) -> Json;

    /// The node that `ptr` leads to.
    fn get_by_ptr(&self, ptr: &JsonPointer) -> (r: Result<&JsonValue, JsonPatchError>)
        ensures
            match r {
                Ok(node) => resolve(self.doc(), ptr@) == Ok::<Json, Failure>(node@),
                Err(e) => resolve(self.doc(), ptr@) == Err::<Json, Failure>(e@),
            },
    ;

    /// Puts `val` where `ptr` points: before the item of an array, behind
    /// its last item, as a member of an object, or in place of the whole
    /// document.
    fn add(&mut self, ptr: &JsonPointer, val: JsonValue) -> (r: Result<(), JsonPatchError>)
        ensures
            match r {
                Ok(_) => act_by_pointer(old(self).doc(), ptr@, Act::Add(val@)) == Ok::<
                    (Json, Option<Json>),
                    Failure,
                >((final(self).doc(), None)),
                Err(e) => act_by_pointer(old(self).doc(), ptr@, Act::Add(val@)) == Err::<
                    (Json, Option<Json>),
                    Failure,
                >(e@) && final(self).doc() == old(self).doc(),
            },
    ;

    /// Puts `val` in place of the node that `ptr` points to, which must be
    /// there.
    fn replace(&mut self, ptr: &JsonPointer, val: JsonValue) -> (r: Result<(), JsonPatchError>)
        ensures
            match r {
                Ok(_) => act_by_pointer(old(self).doc(), ptr@, Act::Replace(val@)) == Ok::<
                    (Json, Option<Json>),
                    Failure,
                >((final(self).doc(), None)),
                Err(e) => act_by_pointer(old(self).doc(), ptr@, Act::Replace(val@)) == Err::<
                    (Json, Option<Json>),
                    Failure,
                >(e@) && final(self).doc() == old(self).doc(),
            },
    ;

    /// Takes out the node that `ptr` points to, and hands it out.
    fn delete(&mut self, ptr: &JsonPointer) -> (r: Result<JsonValue, JsonPatchError>)
        ensures
            match r {
                Ok(out) => act_by_pointer(old(self).doc(), ptr@, Act::Delete) == Ok::<
                    (Json, Option<Json>),
                    Failure,
                >((final(self).doc(), Some(out@))),
                Err(e) => act_by_pointer(old(self).doc(), ptr@, Act::Delete) == Err::<
                    (Json, Option<Json>),
                    Failure,
                >(e@) && final(self).doc() == old(self).doc(),
            },
    ;
}

impl OperateByJsonptr for JsonValue {
    open spec fn doc(&self) -> Json {
        self@
    }

    fn get_by_ptr(&self, ptr: &JsonPointer) -> (r: Result<&JsonValue, JsonPatchError>) {
        ptr.get(self)
    }

    fn add(&mut self, ptr: &JsonPointer, val: JsonValue) -> (r: Result<(), JsonPatchError>) {
        match ptr.get_mut(self) {
            Ok(mut_ref) => mut_ref.add(self, val),
            Err(e) => Err(e),
        }
    }

    fn replace(&mut self, ptr: &JsonPointer, val: JsonValue) -> (r: Result<(), JsonPatchError>) {
        match ptr.get_mut(self) {
            Ok(mut_ref) => mut_ref.replace(self, val),
            Err(e) => Err(e),
        }
    }

    fn delete(&mut self, ptr: &JsonPointer) -> (r: Result<JsonValue, JsonPatchError>) {
        match ptr.get_mut(self) {
            Ok(mut_ref) => mut_ref.delete(self),
            Err(e) => Err(e),
        }
    }
}

} // verus!
