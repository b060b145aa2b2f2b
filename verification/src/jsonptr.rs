//! Pointers into a document: their tokens, their text, and the places that
//! they name.

pub mod operate_by_jsonptr;
pub mod pointer;
pub mod token;
pub mod value_mut_ref;
