//! The place of a node in a document: the keys and indices that lead to it
//! from the root.

use vstd::prelude::*;
use vstd::std_specs::cmp::PartialEqSpecImpl;
use crate::error::{Failure, JsonPatchError};
use crate::jsonptr::pointer::{parse_path, path_tokens, pointer_text, JsonPointer};
use crate::text::{chars_of, decimal, decimal_chars, str_eq, string_of};

verus! {

/// One step down a document: into the member of an object, or to an item of
/// an array.
#[derive(Debug)]
pub enum PathElem {
    Key(String),
    Index(usize),
}

/// The steps from the root of a document to one of its nodes. The empty
/// path is the root.
#[derive(Debug)]
pub struct Path(pub Vec<PathElem>);

/// The mathematical model of a [`PathElem`].
pub enum Step {
    Key(Seq<char>),
    Index(nat),
}

impl View for PathElem {
    type V = Step;

    open spec fn view(&self) -> Step {
        match self {
            PathElem::Key(s) => Step::Key(s@),
            PathElem::Index(i) => Step::Index(*i as nat),
        }
    }
}

/// The models of a list of steps.
pub open spec fn steps_view(steps: Seq<PathElem>) -> Seq<Step> {
    Seq::new(steps.len(), |i: int| steps[i]@)
}

impl View for Path {
    type V = Seq<Step>;

    open spec fn view(&self) -> Seq<Step> {
        steps_view(self.0@)
    }
}

/// How one step is written: an index after `_`, a key as it is, but after
/// `\` where it begins with `_`.
pub open spec fn step_text(step: Step) -> Seq<char> {
    match step {
        Step::Key(k) => if k.len() > 0 && k[0] == '_' {
            seq!['\\'] + k
        } else {
            k
        },
        Step::Index(i) => seq!['_'] + decimal(i),
    }
}

/// The steps written one after another, each behind a `/`.
pub open spec fn steps_text(steps: Seq<Step>) -> Seq<char>
    decreases steps.len(),
{
    if steps.len() == 0 {
        Seq::empty()
    } else {
        steps_text(steps.drop_last()) + seq!['/'] + step_text(steps.last())
    }
}

/// How a path is written: its steps, each behind a `/`; the root is `/`.
pub open spec fn path_text(steps: Seq<Step>) -> Seq<char> {
    if steps.len() == 0 {
        seq!['/']
    } else {
        steps_text(steps)
    }
}

impl Clone for PathElem {
    fn clone(&self) -> (r: Self)
        ensures
            r@ == self@,
    {
        match self {
            PathElem::Key(s) => PathElem::Key(s.clone()),
            PathElem::Index(i) => PathElem::Index(*i),
        }
    }
}

impl PartialEq for PathElem {
    fn eq(&self, other: &Self) -> (r: bool) {
        match (self, other) {
            (PathElem::Key(a), PathElem::Key(b)) => str_eq(a.as_str(), b.as_str()),
            (PathElem::Index(a), PathElem::Index(b)) => *a == *b,
            _ => false,
        }
    }
}

impl PartialEqSpecImpl for PathElem {
    open spec fn obeys_eq_spec() -> bool {
        true
    }

    open spec fn eq_spec(&self, other: &Self) -> bool {
        self@ == other@
    }
}

impl Eq for PathElem {

}

impl PathElem {
    /// The characters that write this step.
    pub fn text(&self) -> (r: Vec<char>)
        ensures
            r@ == step_text(self@),
    {
        match self {
            PathElem::Key(s) => {
                let key = chars_of(s.as_str());
                if key.len() > 0 && key[0] == '_' {
                    let mut out: Vec<char> = Vec::new();
                    out.push('\\');
                    let mut i: usize = 0;
                    while i < key.len()
                        invariant
                            i <= key@.len(),
                            out@ == seq!['\\'] + key@.subrange(0, i as int),
                        decreases key@.len() - i,
                    {
                        out.push(key[i]);
                        assert(out@ =~= seq!['\\'] + key@.subrange(0, i + 1));
                        i += 1;
                    }
                    assert(key@.subrange(0, key@.len() as int) =~= key@);
                    out
                } else {
                    key
                }
            },
            PathElem::Index(n) => {
                let digits = decimal_chars(*n);
                let mut out: Vec<char> = Vec::new();
                out.push('_');
                let mut i: usize = 0;
                while i < digits.len()
                    invariant
                        i <= digits@.len(),
                        out@ == seq!['_'] + digits@.subrange(0, i as int),
                    decreases digits@.len() - i,
                {
                    out.push(digits[i]);
                    assert(out@ =~= seq!['_'] + digits@.subrange(0, i + 1));
                    i += 1;
                }
                assert(digits@.subrange(0, digits@.len() as int) =~= digits@);
                out
            },
        }
    }
}

impl Clone for Path {
    fn clone(&self) -> (r: Self)
        ensures
            r@ == self@,
    {
        let mut out: Vec<PathElem> = Vec::new();
        let mut i: usize = 0;
        while i < self.0.len()
            invariant
                i <= self.0@.len(),
                out@.len() == i,
                forall|k: int| 0 <= k < i ==> out@[k]@ == self.0@[k]@,
            decreases self.0@.len() - i,
        {
            out.push(self.0[i].clone());
            i += 1;
        }
        let r = Path(out);
        assert(r@ =~= self@);
        r
    }
}

impl PartialEq for Path {
    fn eq(&self, other: &Self) -> (r: bool) {
        if self.0.len() != other.0.len() {
            assert(self@.len() != other@.len());
            return false;
        }
        let mut i: usize = 0;
        while i < self.0.len()
            invariant
                self.0@.len() == other.0@.len(),
                i <= self.0@.len(),
                forall|k: int| 0 <= k < i ==> self.0@[k]@ == other.0@[k]@,
            decreases self.0@.len() - i,
        {
            if self.0[i] != other.0[i] {
                assert(self@[i as int] != other@[i as int]);
                return false;
            }
            i += 1;
        }
        assert(self@ =~= other@);
        true
    }
}

impl PartialEqSpecImpl for Path {
    open spec fn obeys_eq_spec() -> bool {
        true
    }

    open spec fn eq_spec(&self, other: &Self) -> bool {
        self@ == other@
    }
}

impl Eq for Path {

}

impl Path {
    /// The path of the root.
    pub fn empty() -> (r: Self)
        ensures
            r@ == Seq::<Step>::empty(),
    {
        let r = Path(Vec::new());
        assert(r@ =~= Seq::<Step>::empty());
        r
    }

    /// The path that takes the given steps.
    pub fn new(path: Vec<PathElem>) -> (r: Self)
        ensures
            r.0 == path,
            r@ == steps_view(path@),
    {
        Path(path)
    }

    /// How many steps the path takes.
    pub fn len(&self) -> (r: usize)
        ensures
            r == self@.len(),
    {
        self.0.len()
    }

    /// The path without its last step; the root has no parent.
    pub fn parent_path(&self) -> (r: Option<Self>)
        ensures
            self@.len() == 0 ==> r is None,
            self@.len() > 0 ==> r is Some && r->0@ == self@.drop_last(),
    {
        if self.0.len() == 0 {
            None
        } else {
            let mut path = self.clone();
            path.0.pop();
            assert(path@ =~= self@.drop_last());
            Some(path)
        }
    }

    /// The last step of the path; the root has none.
    pub fn last(&self) -> (r: Option<&PathElem>)
        ensures
            self@.len() == 0 ==> r is None,
            self@.len() > 0 ==> r is Some && r->0@ == self@.last(),
    {
        if self.0.len() == 0 {
            None
        } else {
            Some(&self.0[self.0.len() - 1])
        }
    }

    /// The key of the last step, where the path ends in a key.
    pub fn current_key(&self) -> (r: Option<String>)
        ensures
            match r {
                Some(key) => self@.len() > 0 && self@.last() == Step::Key(key@),
                None => self@.len() == 0 || self@.last() is Index,
            },
    {
        match self.last() {
            Some(PathElem::Key(key)) => Some(key.clone()),
            _ => None,
        }
    }

    /// The index of the last step, where the path ends in an index.
    pub fn arr_idx(&self) -> (r: Option<usize>)
        ensures
            match r {
                Some(idx) => self@.len() > 0 && self@.last() == Step::Index(idx as nat),
                None => self@.len() == 0 || self@.last() is Key,
            },
    {
        match self.last() {
            Some(PathElem::Index(idx)) => Some(*idx),
            _ => None,
        }
    }

    /// This path with one more step, into the member named `s`.
    pub fn clone_then_add_key(&self, s: &str) -> (r: Self)
        ensures
            r@ == self@.push(Step::Key(s@)),
    {
        let mut new_path = self.clone();
        new_path.push_key(s);
        new_path
    }

    /// This path with one more step, to the item at `idx`.
    pub fn clone_then_add_idx(&self, idx: usize) -> (r: Self)
        ensures
            r@ == self@.push(Step::Index(idx as nat)),
    {
        let mut new_path = self.clone();
        new_path.push_idx(idx);
        new_path
    }

    /// Adds a step to the item at `idx`.
    pub fn push_idx(&mut self, idx: usize)
        ensures
            final(self)@ == old(self)@.push(Step::Index(idx as nat)),
    {
        self.0.push(PathElem::Index(idx));
        assert(self@ =~= old(self)@.push(Step::Index(idx as nat)));
    }

    /// Adds a step into the member named `s`.
    pub fn push_key(&mut self, s: &str)
        ensures
            final(self)@ == old(self)@.push(Step::Key(s@)),
    {
        self.0.push(PathElem::Key(s.to_owned()));
        assert(self@ =~= old(self)@.push(Step::Key(s@)));
    }

    /// The path that the text of a pointer writes: no step for the empty
    /// text, else one step behind every `/`, an index where the token is the
    /// numeral of a place and a key where it is not.
    pub fn parse(s: &str) -> (r: Result<Self, JsonPatchError>)
        ensures
            match r {
                Ok(p) => parse_path(s@) == Some(p@),
                Err(e) => parse_path(s@) is None && e@ == Failure::MalformedPointer,
            },
    {
        match JsonPointer::new(s) {
            Ok(ptr) => Ok(ptr.to_path()),
            Err(e) => Err(e),
        }
    }

    /// The path as the text of a pointer.
    pub fn to_pointer_string(&self) -> (r: String)
        ensures
            r@ == pointer_text(path_tokens(self@)),
    {
        JsonPointer::from_path(self).to_escaped_string()
    }

    /// The path as text: every step behind a `/`, the root as `/` alone.
    pub fn to_string(&self) -> (r: String)
        ensures
            r@ == path_text(self@),
    {
        let mut out: Vec<char> = Vec::new();
        if self.0.len() == 0 {
            out.push('/');
            assert(out@ =~= path_text(self@));
            return string_of(&out);
        }
        let mut i: usize = 0;
        while i < self.0.len()
            invariant
                i <= self.0@.len(),
                out@ == steps_text(self@.take(i as int)),
            decreases self.0@.len() - i,
        {
            out.push('/');
            let word = self.0[i].text();
            let ghost before = out@;
            let mut k: usize = 0;
            while k < word.len()
                invariant
                    k <= word@.len(),
                    out@ == before + word@.subrange(0, k as int),
                decreases word@.len() - k,
            {
                out.push(word[k]);
                assert(out@ =~= before + word@.subrange(0, k + 1));
                k += 1;
            }
            proof {
                assert(word@.subrange(0, word@.len() as int) =~= word@);
                let next = self@.take(i + 1);
                assert(next.drop_last() =~= self@.take(i as int));
                assert(next.last() == self@[i as int]);
            }
            i += 1;
        }
        assert(self@.take(self@.len() as int) =~= self@);
        string_of(&out)
    }
}

} // verus!
