//! Why a pointer could not be read or followed, or a patch not applied.

use vstd::prelude::*;
use crate::path::{Path, Step};
use crate::value::{Json, JsonValue};

verus! {

/// Why a pointer could not be read or followed, or a patch not applied.
#[derive(Debug)]
pub enum JsonPatchError {
    /// The text of a pointer is not empty and does not begin with `/`.
    MalformedPointer,
    /// On the way, an object has no member of this name.
    KeyNotFound { key: String },
    /// The member to replace or to delete is not there.
    KeyNotExist { key: String },
    /// An array of `len` items has no place `index`.
    IndexOutOfRange { index: usize, len: usize },
    /// A token that is no place of an item was used on an array, or the
    /// place behind the last item was read.
    InvalidIndex,
    /// A token was used on a value that is neither an array nor an object.
    NotContainer,
    /// The root of a document cannot be deleted.
    CannotDeleteRoot,
    /// An operation has a name that is none of the six.
    UnsupportedOperation { name: String },
    /// Operation `op` lacks its field `field`.
    MissingField { field: String, op: String },
    /// A text is not the text of a document; `message` says why.
    InvalidJson { message: String },
    /// A patch document is not a list of records, or a field of a record
    /// does not hold text where it must.
    InvalidDocument,
    /// The value at `path` is `actual` and not, as tested, `expected`.
    TestFail { path: Path, expected: JsonValue, actual: JsonValue },
}

/// The mathematical model of a [`JsonPatchError`].
pub enum Failure {
    MalformedPointer,
    KeyNotFound { key: Seq<char> },
    KeyNotExist { key: Seq<char> },
    IndexOutOfRange { index: nat, len: nat },
    InvalidIndex,
    NotContainer,
    CannotDeleteRoot,
    UnsupportedOperation { name: Seq<char> },
    MissingField { field: Seq<char>, op: Seq<char> },
    InvalidJson { message: Seq<char> },
    InvalidDocument,
    TestFail { path: Seq<Step>, expected: Json, actual: Json },
}

impl View for JsonPatchError {
    type V = Failure;

    open spec fn view(&self) -> Failure {
        match self {
            JsonPatchError::MalformedPointer => Failure::MalformedPointer,
            JsonPatchError::KeyNotFound { key } => Failure::KeyNotFound { key: key@ },
            JsonPatchError::KeyNotExist { key } => Failure::KeyNotExist { key: key@ },
            JsonPatchError::IndexOutOfRange { index, len } => Failure::IndexOutOfRange {
                index: *index as nat,
                len: *len as nat,
            },
            JsonPatchError::InvalidIndex => Failure::InvalidIndex,
            JsonPatchError::NotContainer => Failure::NotContainer,
            JsonPatchError::CannotDeleteRoot => Failure::CannotDeleteRoot,
            JsonPatchError::UnsupportedOperation { name } => Failure::UnsupportedOperation {
                name: name@,
            },
            JsonPatchError::MissingField { field, op } => Failure::MissingField {
                field: field@,
                op: op@,
            },
            JsonPatchError::InvalidJson { message } => Failure::InvalidJson { message: message@ },
            JsonPatchError::InvalidDocument => Failure::InvalidDocument,
            JsonPatchError::TestFail { path, expected, actual } => Failure::TestFail {
                path: path@,
                expected: expected@,
                actual: actual@,
            },
        }
    }
}

} // verus!
