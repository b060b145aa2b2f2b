//! An operation of a patch as it is written in a patch document: a record
//! with the fields `op` and `path` and, as the operation needs them, `value`
//! and `from`.

use vstd::prelude::*;
use crate::codec::{document_of_text, read_json_str};
use crate::error::{Failure, JsonPatchError};
use crate::members::{find_member, lemma_with_member_lookup};
use crate::patch::{JsonPatch, Patch, PatchElem, PatchStep, PatchView};
use crate::path::{Path, Step};
use crate::jsonptr::pointer::{
    lemma_path_round_trip, parse_path, path_tokens, pointer_text, step_survives,
};
use crate::text::str_eq;
use crate::value::{
    lemma_array_view, lemma_object_view, member, values_view, with_member, Json, JsonValue,
};

verus! {

/// An operation as a patch document writes it.
#[derive(Debug)]
pub struct Operation {
    pub op: String,
    pub path: String,
    pub value: Option<JsonValue>,
    pub from: Option<String>,
}

/// The mathematical model of an [`Operation`].
pub struct Record {
    pub op: Seq<char>,
    pub path: Seq<char>,
    pub value: Option<Json>,
    pub from: Option<Seq<char>>,
}

impl View for Operation {
    type V = Record;

    open spec fn view(&self) -> Record {
        Record {
            op: self.op@,
            path: self.path@,
            value: match self.value {
                Some(v) => Some(v@),
                None => None,
            },
            from: match self.from {
                Some(s) => Some(s@),
                None => None,
            },
        }
    }
}

/// The operation that needs a value, with the value of the record, or the
/// failure that is due where the record has none.
pub open spec fn with_value(record: Record, path: Seq<Step>, make: spec_fn(Json) -> PatchView)
    -> Result<PatchStep, Failure> {
    match record.value {
        Some(v) => Ok(PatchStep { patch: make(v), path }),
        None => Err(Failure::MissingField { field: "value"@, op: record.op }),
    }
}

/// The operation that needs a source, with the path that the record's
/// `from` writes, or the failure that is due where the record has none or
/// it writes no path.
pub open spec fn with_from(record: Record, path: Seq<Step>, make: spec_fn(Seq<Step>) -> PatchView)
    -> Result<PatchStep, Failure> {
    match record.from {
        Some(text) => match parse_path(text) {
            Some(from) => Ok(PatchStep { patch: make(from), path }),
            None => Err(Failure::MalformedPointer),
        },
        None => Err(Failure::MissingField { field: "from"@, op: record.op }),
    }
}

/// The operation that a record writes. Its `path` must write a path; its
/// `op` must be one of the six names; `add`, `replace` and `test` need a
/// `value`, and `move` and `copy` need a `from` that writes a path.
pub open spec fn decode(record: Record) -> Result<PatchStep, Failure> {
    match parse_path(record.path) {
        None => Err(Failure::MalformedPointer),
        Some(path) => if record.op == "add"@ {
            with_value(record, path, |v: Json| PatchView::Add(v))
        } else if record.op == "remove"@ {
            Ok(PatchStep { patch: PatchView::Remove, path })
        } else if record.op == "replace"@ {
            with_value(record, path, |v: Json| PatchView::Replace(v))
        } else if record.op == "move"@ {
            with_from(record, path, |from: Seq<Step>| PatchView::Move { from })
        } else if record.op == "copy"@ {
            with_from(record, path, |from: Seq<Step>| PatchView::Copy { from })
        } else if record.op == "test"@ {
            with_value(record, path, |v: Json| PatchView::Test(v))
        } else {
            Err(Failure::UnsupportedOperation { name: record.op })
        },
    }
}

/// The record that writes an operation.
pub open spec fn encode(step: PatchStep) -> Record {
    let path = pointer_text(path_tokens(step.path));
    match step.patch {
        PatchView::Add(v) => Record { op: "add"@, path, value: Some(v), from: None },
        PatchView::Remove => Record { op: "remove"@, path, value: None, from: None },
        PatchView::Replace(v) => Record { op: "replace"@, path, value: Some(v), from: None },
        PatchView::Move { from } => Record {
            op: "move"@,
            path,
            value: None,
            from: Some(pointer_text(path_tokens(from))),
        },
        PatchView::Copy { from } => Record {
            op: "copy"@,
            path,
            value: None,
            from: Some(pointer_text(path_tokens(from))),
        },
        PatchView::Test(v) => Record { op: "test"@, path, value: Some(v), from: None },
    }
}

/// Every step of a path survives being written and read again.
pub open spec fn path_survives(path: Seq<Step>) -> bool {
    forall|i: int| 0 <= i < path.len() ==> step_survives(#[trigger] path[i])
}

/// The record that writes an operation is read as that operation again,
/// where the paths of the operation survive being written.
pub proof fn lemma_decode_encode(step: PatchStep)
    requires
        path_survives(step.path),
        match step.patch {
            PatchView::Move { from } => path_survives(from),
            PatchView::Copy { from } => path_survives(from),
            _ => true,
        },
    ensures
        decode(encode(step)) == Ok::<PatchStep, Failure>(step),
{
    reveal_strlit("add");
    reveal_strlit("remove");
    reveal_strlit("replace");
    reveal_strlit("move");
    reveal_strlit("copy");
    reveal_strlit("test");
    lemma_path_round_trip(step.path);
    match step.patch {
        PatchView::Move { from } => {
            lemma_path_round_trip(from);
        },
        PatchView::Copy { from } => {
            lemma_path_round_trip(from);
        },
        _ => {},
    }
    assert("add"@.len() == 3);
    assert("remove"@.len() == 6);
    assert("replace"@.len() == 7);
    assert("move"@.len() == 4);
    assert("copy"@.len() == 4);
    assert("test"@.len() == 4);
    assert("move"@[0] == 'm');
    assert("copy"@[0] == 'c');
    assert("test"@[0] == 't');
}

/// The fields of a record that a document writes as `record`: `op` and
/// `path` must be there and hold text, `from` must hold text where it is
/// there, and `value` may hold anything. Other members are passed over.
pub open spec fn record_of(record: Json) -> Result<Record, Failure> {
    match record {
        Json::Object(members) => match member(members, "op"@) {
            None => Err(Failure::MissingField { field: "op"@, op: Seq::empty() }),
            Some(Json::String(op)) => match member(members, "path"@) {
                None => Err(Failure::MissingField { field: "path"@, op }),
                Some(Json::String(path)) => match member(members, "from"@) {
                    None => Ok(Record { op, path, value: member(members, "value"@), from: None }),
                    Some(Json::String(from)) => Ok(
                        Record { op, path, value: member(members, "value"@), from: Some(from) },
                    ),
                    Some(_) => Err(Failure::InvalidDocument),
                },
                Some(_) => Err(Failure::InvalidDocument),
            },
            Some(_) => Err(Failure::InvalidDocument),
        },
        _ => Err(Failure::InvalidDocument),
    }
}

/// The fields of the first `n` records of a list, or the failure of the
/// first of them that is no record.
pub open spec fn records_of(items: Seq<Json>, n: int) -> Result<Seq<Record>, Failure>
    decreases n,
{
    if n <= 0 {
        Ok(Seq::empty())
    } else {
        match records_of(items, n - 1) {
            Err(e) => Err(e),
            Ok(front) => match record_of(items[n - 1]) {
                Err(e) => Err(e),
                Ok(record) => Ok(front.push(record)),
            },
        }
    }
}

/// The operations that the first `n` records write, or the failure of the
/// first of them that writes none.
pub open spec fn decode_all(records: Seq<Record>, n: int) -> Result<Seq<PatchStep>, Failure>
    decreases n,
{
    if n <= 0 {
        Ok(Seq::empty())
    } else {
        match decode_all(records, n - 1) {
            Err(e) => Err(e),
            Ok(front) => match decode(records[n - 1]) {
                Err(e) => Err(e),
                Ok(step) => Ok(front.push(step)),
            },
        }
    }
}

/// The patch that a document writes: the document must be a list of
/// records, and each record must write an operation. A list that holds what
/// is no record fails as that, whatever its records write.
pub open spec fn patch_of(doc: Json) -> Result<Seq<PatchStep>, Failure> {
    match doc {
        Json::Array(items) => match records_of(items, items.len() as int) {
            Ok(records) => decode_all(records, records.len() as int),
            Err(e) => Err(e),
        },
        _ => Err(Failure::InvalidDocument),
    }
}

/// A list whose front part holds what is no record fails as that part does.
proof fn lemma_records_fail(items: Seq<Json>, m: int, n: int)
    requires
        0 <= m <= n,
        records_of(items, m) is Err,
    ensures
        records_of(items, n) == records_of(items, m),
    decreases n - m,
{
    if m < n {
        lemma_records_fail(items, m, n - 1);
    }
}

/// Records whose front part holds one that writes no operation fail as that
/// part does.
proof fn lemma_decode_fail(records: Seq<Record>, m: int, n: int)
    requires
        0 <= m <= n,
        decode_all(records, m) is Err,
    ensures
        decode_all(records, n) == decode_all(records, m),
    decreases n - m,
{
    if m < n {
        lemma_decode_fail(records, m, n - 1);
    }
}

/// A member that is none of `op`, `path`, `value` and `from` makes no
/// difference to what a record writes.
pub proof fn lemma_unknown_field_ignored(members: Seq<(Seq<char>, Json)>, key: Seq<char>, val: Json)
    requires
        key != "op"@,
        key != "path"@,
        key != "value"@,
        key != "from"@,
    ensures
        record_of(Json::Object(with_member(members, key, val))) == record_of(
            Json::Object(members),
        ),
{
    lemma_with_member_lookup(members, key, val, "op"@);
    lemma_with_member_lookup(members, key, val, "path"@);
    lemma_with_member_lookup(members, key, val, "value"@);
    lemma_with_member_lookup(members, key, val, "from"@);
}

impl Clone for Operation {
    fn clone(&self) -> (r: Self)
        ensures
            r@ == self@,
    {
        Operation {
            op: self.op.clone(),
            path: self.path.clone(),
            value: match &self.value {
                Some(v) => Some(v.clone()),
                None => None,
            },
            from: match &self.from {
                Some(s) => Some(s.clone()),
                None => None,
            },
        }
    }
}

impl Operation {
    /// The fields of the record that `record` writes.
    pub fn from_value(record: &JsonValue) -> (r: Result<Self, JsonPatchError>)
        ensures
            match r {
                Ok(operation) => record_of(record@) == Ok::<Record, Failure>(operation@),
                Err(e) => record_of(record@) == Err::<Record, Failure>(e@),
            },
    {
        let members = match record {
            JsonValue::Object(members) => members,
            _ => {
                return Err(JsonPatchError::InvalidDocument);
            },
        };
        proof {
            lemma_object_view(*record);
        }
        let op = match find_member(members, "op") {
            None => {
                return Err(
                    JsonPatchError::MissingField { field: "op".to_owned(), op: String::new() },
                );
            },
            Some(at) => match &members[at].1 {
                JsonValue::String(op) => op.clone(),
                _ => {
                    return Err(JsonPatchError::InvalidDocument);
                },
            },
        };
        let path = match find_member(members, "path") {
            None => {
                return Err(JsonPatchError::MissingField { field: "path".to_owned(), op });
            },
            Some(at) => match &members[at].1 {
                JsonValue::String(path) => path.clone(),
                _ => {
                    return Err(JsonPatchError::InvalidDocument);
                },
            },
        };
        let from = match find_member(members, "from") {
            None => None,
            Some(at) => match &members[at].1 {
                JsonValue::String(from) => Some(from.clone()),
                _ => {
                    return Err(JsonPatchError::InvalidDocument);
                },
            },
        };
        let value = match find_member(members, "value") {
            None => None,
            Some(at) => Some(members[at].1.clone()),
        };
        Ok(Operation { op, path, value, from })
    }

    /// The record that writes `patch_elem`.
    pub fn from(patch_elem: PatchElem) -> (r: Self)
        ensures
            r@ == encode(patch_elem@),
    {
        let path = patch_elem.path.to_pointer_string();
        match patch_elem.patch {
            Patch::Add(val) => Operation {
                op: "add".to_owned(),
                path,
                value: Some(val),
                from: None,
            },
            Patch::Remove => Operation { op: "remove".to_owned(), path, value: None, from: None },
            Patch::Replace(val) => Operation {
                op: "replace".to_owned(),
                path,
                value: Some(val),
                from: None,
            },
            Patch::Move { from } => Operation {
                op: "move".to_owned(),
                path,
                value: None,
                from: Some(from.to_pointer_string()),
            },
            Patch::Copy { from } => Operation {
                op: "copy".to_owned(),
                path,
                value: None,
                from: Some(from.to_pointer_string()),
            },
            Patch::Test(val) => Operation {
                op: "test".to_owned(),
                path,
                value: Some(val),
                from: None,
            },
        }
    }

    /// The path that the record's `from` writes.
    fn source(from: Option<String>, op: String) -> (r: Result<Path, JsonPatchError>)
        ensures
            match r {
                Ok(p) => from is Some && parse_path(from->0@) == Some(p@),
                Err(e) => e@ == (match from {
                    Some(text) => Failure::MalformedPointer,
                    None => Failure::MissingField { field: "from"@, op: op@ },
                }) && (from is Some ==> parse_path(from->0@) is None),
            },
    {
        match from {
            Some(text) => Path::parse(text.as_str()),
            None => Err(JsonPatchError::MissingField { field: "from".to_owned(), op }),
        }
    }

    /// The operation that the record writes.
    pub fn try_into(self) -> (r: Result<PatchElem, JsonPatchError>)
        ensures
            match r {
                Ok(elem) => decode(self@) == Ok::<PatchStep, Failure>(elem@),
                Err(e) => decode(self@) == Err::<PatchStep, Failure>(e@),
            },
    {
        let path = match Path::parse(self.path.as_str()) {
            Ok(path) => path,
            Err(e) => {
                return Err(e);
            },
        };
        let op = self.op;
        if str_eq(op.as_str(), "add") {
            match self.value {
                Some(v) => Ok(PatchElem { patch: Patch::Add(v), path }),
                None => Err(JsonPatchError::MissingField { field: "value".to_owned(), op }),
            }
        } else if str_eq(op.as_str(), "remove") {
            Ok(PatchElem { patch: Patch::Remove, path })
        } else if str_eq(op.as_str(), "replace") {
            match self.value {
                Some(v) => Ok(PatchElem { patch: Patch::Replace(v), path }),
                None => Err(JsonPatchError::MissingField { field: "value".to_owned(), op }),
            }
        } else if str_eq(op.as_str(), "move") {
            match Self::source(self.from, op) {
                Ok(from) => Ok(PatchElem { patch: Patch::Move { from }, path }),
                Err(e) => Err(e),
            }
        } else if str_eq(op.as_str(), "copy") {
            match Self::source(self.from, op) {
                Ok(from) => Ok(PatchElem { patch: Patch::Copy { from }, path }),
                Err(e) => Err(e),
            }
        } else if str_eq(op.as_str(), "test") {
            match self.value {
                Some(v) => Ok(PatchElem { patch: Patch::Test(v), path }),
                None => Err(JsonPatchError::MissingField { field: "value".to_owned(), op }),
            }
        } else {
            Err(JsonPatchError::UnsupportedOperation { name: op })
        }
    }
}


/// The operation that a document writes: the document must be a record,
/// and the record must write an operation.
pub open spec fn step_of(doc: Json) -> Result<PatchStep, Failure> {
    match record_of(doc) {
        Ok(record) => decode(record),
        Err(e) => Err(e),
    }
}

impl PatchElem {
    /// The operation that the record `record` writes.
    pub fn from_value(record: &JsonValue) -> (r: Result<Self, JsonPatchError>)
        ensures
            match r {
                Ok(elem) => step_of(record@) == Ok::<PatchStep, Failure>(elem@),
                Err(e) => step_of(record@) == Err::<PatchStep, Failure>(e@),
            },
    {
        match Operation::from_value(record) {
            Ok(operation) => operation.try_into(),
            Err(e) => Err(e),
        }
    }
}

impl PatchElem {
    /// The operation that the text `s` writes: the text must write a
    /// document, and that document must be a record that writes an
    /// operation.
    pub fn try_from(s: &str) -> (r: Result<Self, JsonPatchError>)
        ensures
            match r {
                Ok(elem) => document_of_text(s@) is Some && step_of(document_of_text(s@)->0)
                    == Ok::<PatchStep, Failure>(elem@),
                Err(e) => match document_of_text(s@) {
                    Some(doc) => step_of(doc) == Err::<PatchStep, Failure>(e@),
                    None => e@ is InvalidJson,
                },
            },
    {
        match read_json_str(s) {
            Ok(doc) => Self::from_value(&doc),
            Err(e) => Err(e),
        }
    }
}

impl JsonPatch {
    /// The patch that the text `s` writes: the text must write a document,
    /// and that document must write a patch.
    pub fn try_from(s: &str) -> (r: Result<Self, JsonPatchError>)
        ensures
            match r {
                Ok(patch) => document_of_text(s@) is Some && patch_of(document_of_text(s@)->0)
                    == Ok::<Seq<PatchStep>, Failure>(patch@),
                Err(e) => match document_of_text(s@) {
                    Some(doc) => patch_of(doc) == Err::<Seq<PatchStep>, Failure>(e@),
                    None => e@ is InvalidJson,
                },
            },
    {
        match read_json_str(s) {
            Ok(doc) => Self::from_value(&doc),
            Err(e) => Err(e),
        }
    }

    /// The patch that the document `doc` writes.
    pub fn from_value(doc: &JsonValue) -> (r: Result<Self, JsonPatchError>)
        ensures
            match r {
                Ok(patch) => patch_of(doc@) == Ok::<Seq<PatchStep>, Failure>(patch@),
                Err(e) => patch_of(doc@) == Err::<Seq<PatchStep>, Failure>(e@),
            },
    {
        let items = match doc {
            JsonValue::Array(items) => items,
            _ => {
                return Err(JsonPatchError::InvalidDocument);
            },
        };
        proof {
            lemma_array_view(*doc);
        }
        let ghost docs = values_view(items@);
        let mut ops: Vec<Operation> = Vec::new();
        let ghost mut records: Seq<Record> = Seq::empty();
        let mut i: usize = 0;
        while i < items.len()
            invariant
                docs == values_view(items@),
                doc@ == Json::Array(docs),
                i <= items@.len(),
                records_of(docs, i as int) == Ok::<Seq<Record>, Failure>(records),
                ops@.len() == i,
                records.len() == i,
                forall|k: int| 0 <= k < i ==> ops@[k]@ == records[k],
            decreases items@.len() - i,
        {
            match Operation::from_value(&items[i]) {
                Ok(operation) => {
                    proof {
                        records = records.push(operation@);
                    }
                    ops.push(operation);
                },
                Err(e) => {
                    proof {
                        assert(records_of(docs, i + 1) == Err::<Seq<Record>, Failure>(e@));
                        lemma_records_fail(docs, i + 1, docs.len() as int);
                    }
                    return Err(e);
                },
            }
            i += 1;
        }
        let mut patches: Vec<PatchElem> = Vec::new();
        let mut i: usize = 0;
        assert(Seq::new(patches@.len(), |k: int| patches@[k]@) =~= Seq::<PatchStep>::empty());
        while i < ops.len()
            invariant
                doc@ == Json::Array(docs),
                records_of(docs, docs.len() as int) == Ok::<Seq<Record>, Failure>(records),
                i <= ops@.len(),
                records.len() == ops@.len(),
                forall|k: int| 0 <= k < ops@.len() ==> (#[trigger] ops@[k])@ == records[k],
                patches@.len() == i,
                decode_all(records, i as int) == Ok::<Seq<PatchStep>, Failure>(
                    Seq::new(patches@.len(), |k: int| patches@[k]@),
                ),
            decreases ops@.len() - i,
        {
            let ghost before = Seq::new(patches@.len(), |k: int| patches@[k]@);
            match ops[i].clone().try_into() {
                Ok(elem) => {
                    patches.push(elem);
                    assert(Seq::new(patches@.len(), |k: int| patches@[k]@) =~= before.push(elem@));
                },
                Err(e) => {
                    proof {
                        assert(decode_all(records, i + 1) == Err::<Seq<PatchStep>, Failure>(e@));
                        lemma_decode_fail(records, i + 1, records.len() as int);
                    }
                    return Err(e);
                },
            }
            i += 1;
        }
        let r = JsonPatch { patches };
        assert(r@ =~= Seq::new(patches@.len(), |k: int| patches@[k]@));
        Ok(r)
    }
}

} // verus!
