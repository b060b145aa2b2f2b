//! Structural diff and patch for JSON documents.
//!
//! [`diff::diff_json`] compares two documents and lists the edits between
//! them, each at the path of the node that it changes; arrays are compared
//! along a longest common subsequence ([`lcs::lcs`]). [`query::JsonDiff`]
//! answers questions about such a list. [`patch::JsonPatch`] applies add,
//! remove, replace, move, copy and test operations to a document, each at
//! the node that a pointer ([`jsonptr::pointer::JsonPointer`]) names. The
//! two meet in [`replay`]: the edits between two documents, applied as
//! operations, turn the first into the second.
//!
//! Every function carries a contract over the mathematical model of its
//! data: [`value::Json`] for documents, sequences of [`path::Step`] for
//! paths, and sequences of tokens for pointers.

pub mod codec;
pub mod diff;
pub mod error;
pub mod jsonptr;
pub mod lcs;
pub mod members;
pub mod operation;
pub mod outside;
pub mod patch;
pub mod path;
pub mod path_order;
pub mod query;
pub mod replay;
pub mod text;
pub mod value;

pub use codec::read_json_str;
pub use diff::{diff_json, diff_json_simple, DiffChange, DiffElem};
pub use path::{Path, PathElem};
pub use query::JsonDiff;
pub use value::{JsonValue, Number};
