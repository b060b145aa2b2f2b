//! The order of paths: step by step, a key before an index, a path before
//! every longer path that begins with it.

use core::cmp::Ordering;
use vstd::prelude::*;
use vstd::std_specs::cmp::PartialOrdSpecImpl;
use crate::path::{Path, PathElem, Step};
use crate::text::{
    key_lt, lemma_key_lt_irreflexive, lemma_key_lt_total, lemma_key_lt_transitive, str_lt,
};

verus! {

/// The order of steps: keys in the order of keys, indices in the order of
/// numbers, and every key before every index.
pub open spec fn step_lt(a: Step, b: Step) -> bool {
    match (a, b) {
        (Step::Key(x), Step::Key(y)) => key_lt(x, y),
        (Step::Key(_), Step::Index(_)) => true,
        (Step::Index(_), Step::Key(_)) => false,
        (Step::Index(i), Step::Index(j)) => i < j,
    }
}

/// The order of paths: by the first step in which two paths differ, a path
/// before every longer path that begins with it.
pub open spec fn path_lt(a: Seq<Step>, b: Seq<Step>) -> bool
    decreases a.len(),
{
    if b.len() == 0 {
        false
    } else if a.len() == 0 {
        true
    } else if a[0] != b[0] {
        step_lt(a[0], b[0])
    } else {
        path_lt(a.drop_first(), b.drop_first())
    }
}

/// No path comes before itself.
pub proof fn lemma_path_lt_irreflexive(a: Seq<Step>)
    ensures
        !path_lt(a, a),
    decreases a.len(),
{
    if a.len() > 0 {
        lemma_path_lt_irreflexive(a.drop_first());
    }
}

/// Of two different steps exactly one comes before the other.
pub proof fn lemma_step_lt_total(a: Step, b: Step)
    ensures
        a == b || step_lt(a, b) || step_lt(b, a),
        !(step_lt(a, b) && step_lt(b, a)),
{
    match (a, b) {
        (Step::Key(x), Step::Key(y)) => {
            lemma_key_lt_total(x, y);
        },
        _ => {},
    }
}

/// Of two different paths exactly one comes before the other.
pub proof fn lemma_path_lt_total(a: Seq<Step>, b: Seq<Step>)
    ensures
        a == b || path_lt(a, b) || path_lt(b, a),
        !(path_lt(a, b) && path_lt(b, a)),
    decreases a.len(),
{
    if a.len() == 0 || b.len() == 0 {
        if a.len() == 0 && b.len() == 0 {
            assert(a =~= b);
        }
    } else if a[0] == b[0] {
        lemma_path_lt_total(a.drop_first(), b.drop_first());
        if a.drop_first() == b.drop_first() {
            assert(a =~= seq![a[0]] + a.drop_first());
            assert(b =~= seq![b[0]] + b.drop_first());
        }
    } else {
        lemma_step_lt_total(a[0], b[0]);
    }
}

/// The order of paths is transitive.
pub proof fn lemma_path_lt_transitive(a: Seq<Step>, b: Seq<Step>, c: Seq<Step>)
    requires
        path_lt(a, b),
        path_lt(b, c),
    ensures
        path_lt(a, c),
    decreases a.len(),
{
    if a.len() > 0 {
        if a[0] == b[0] && b[0] == c[0] {
            lemma_path_lt_transitive(a.drop_first(), b.drop_first(), c.drop_first());
        } else if a[0] != b[0] && b[0] != c[0] {
            match (a[0], b[0], c[0]) {
                (Step::Key(x), Step::Key(y), Step::Key(z)) => {
                    lemma_key_lt_transitive(x, y, z);
                    lemma_key_lt_irreflexive(x);
                },
                _ => {},
            }
        }
    }
}

/// Two paths that agree on their first `n` steps are ordered as what
/// follows those steps.
proof fn lemma_path_lt_after_common_prefix(a: Seq<Step>, b: Seq<Step>, n: int)
    requires
        0 <= n <= a.len(),
        n <= b.len(),
        a.subrange(0, n) == b.subrange(0, n),
    ensures
        path_lt(a, b) == path_lt(a.skip(n), b.skip(n)),
    decreases n,
{
    if n == 0 {
        assert(a.skip(0) =~= a);
        assert(b.skip(0) =~= b);
    } else {
        assert(a[0] == a.subrange(0, n)[0]);
        assert(b[0] == b.subrange(0, n)[0]);
        assert(a.drop_first().subrange(0, n - 1) =~= a.subrange(0, n).drop_first());
        assert(b.drop_first().subrange(0, n - 1) =~= b.subrange(0, n).drop_first());
        lemma_path_lt_after_common_prefix(a.drop_first(), b.drop_first(), n - 1);
        assert(a.drop_first().skip(n - 1) =~= a.skip(n));
        assert(b.drop_first().skip(n - 1) =~= b.skip(n));
    }
}

/// Whether step `a` comes before step `b`.
pub fn step_precedes(a: &PathElem, b: &PathElem) -> (r: bool)
    ensures
        r == step_lt(a@, b@),
{
    match (a, b) {
        (PathElem::Key(x), PathElem::Key(y)) => str_lt(x.as_str(), y.as_str()),
        (PathElem::Key(_), PathElem::Index(_)) => true,
        (PathElem::Index(_), PathElem::Key(_)) => false,
        (PathElem::Index(i), PathElem::Index(j)) => *i < *j,
    }
}

/// Whether path `a` comes before path `b`.
pub fn path_precedes(a: &Path, b: &Path) -> (r: bool)
    ensures
        r == path_lt(a@, b@),
{
    let mut i: usize = 0;
    while i < a.0.len() && i < b.0.len()
        invariant
            i <= a.0@.len(),
            i <= b.0@.len(),
            a@.subrange(0, i as int) == b@.subrange(0, i as int),
        decreases a.0@.len() - i,
    {
        if a.0[i] != b.0[i] {
            proof {
                lemma_path_lt_after_common_prefix(a@, b@, i as int);
                assert(a@.skip(i as int)[0] == a@[i as int]);
                assert(b@.skip(i as int)[0] == b@[i as int]);
            }
            return step_precedes(&a.0[i], &b.0[i]);
        }
        assert(a@.subrange(0, i + 1) =~= a@.subrange(0, i as int).push(a@[i as int]));
        assert(b@.subrange(0, i + 1) =~= b@.subrange(0, i as int).push(b@[i as int]));
        i += 1;
    }
    proof {
        lemma_path_lt_after_common_prefix(a@, b@, i as int);
    }
    i < b.0.len()
}

impl PartialOrd for Path {
    fn partial_cmp(&self, other: &Self) -> (r: Option<Ordering>) {
        if path_precedes(self, other) {
            Some(Ordering::Less)
        } else if path_precedes(other, self) {
            Some(Ordering::Greater)
        } else {
            Some(Ordering::Equal)
        }
    }
}

impl PartialOrdSpecImpl for Path {
    open spec fn obeys_partial_cmp_spec() -> bool {
        true
    }

    open spec fn partial_cmp_spec(&self, other: &Self) -> Option<Ordering> {
        if path_lt(self@, other@) {
            Some(Ordering::Less)
        } else if path_lt(other@, self@) {
            Some(Ordering::Greater)
        } else {
            Some(Ordering::Equal)
        }
    }
}

} // verus!
