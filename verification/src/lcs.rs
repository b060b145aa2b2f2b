//! Alignment of two sequences by a longest common subsequence.
//!
//! The model is the classic table: `lcs_len(a, b, same, i, j)` is the length
//! of a longest common subsequence of the first `i` elements of `a` and the
//! first `j` elements of `b`, and `lcs_pairs` walks that table from its far
//! corner to pick one such subsequence, as a list of index pairs.

use vstd::prelude::*;
use vstd::std_specs::cmp::PartialEqSpec;

verus! {

/// The relation by which `T` compares two of its values with `==`.
pub open spec fn eq_relation<T: PartialEq>() -> spec_fn(T, T) -> bool {
    |x: T, y: T| x.eq_spec(&y)
}

/// Length of a longest common subsequence of `a[0..i)` and `b[0..j)`, where
/// `same` says which elements count as equal.
pub open spec fn lcs_len<A, B>(
    a: Seq<A>,
    b: Seq<B>,
    same: spec_fn(A, B) -> bool,
    i: int,
    j: int,
) -> nat
    decreases i + j,
{
    if i <= 0 || j <= 0 {
        0
    } else if same(a[i - 1], b[j - 1]) {
        lcs_len(a, b, same, i - 1, j - 1) + 1
    } else if lcs_len(a, b, same, i - 1, j) >= lcs_len(a, b, same, i, j - 1) {
        lcs_len(a, b, same, i - 1, j)
    } else {
        lcs_len(a, b, same, i, j - 1)
    }
}

/// The aligned index pairs of `a[0..i)` and `b[0..j)`, in increasing order.
///
/// The table is walked from `(i, j)` towards the origin: where dropping the
/// last element of `a` loses nothing it is dropped, else where dropping the
/// last element of `b` loses nothing that one is dropped, else the two last
/// elements are aligned.
pub open spec fn lcs_pairs<A, B>(
    a: Seq<A>,
    b: Seq<B>,
    same: spec_fn(A, B) -> bool,
    i: int,
    j: int,
) -> Seq<(int, int)>
    decreases i + j,
{
    if i <= 0 || j <= 0 {
        Seq::empty()
    } else if lcs_len(a, b, same, i, j) == lcs_len(a, b, same, i - 1, j) {
        lcs_pairs(a, b, same, i - 1, j)
    } else if lcs_len(a, b, same, i, j) == lcs_len(a, b, same, i, j - 1) {
        lcs_pairs(a, b, same, i, j - 1)
    } else {
        lcs_pairs(a, b, same, i - 1, j - 1).push((i - 1, j - 1))
    }
}

/// `pairs` aligns `a[0..i)` with `b[0..j)`: every pair is in range and joins
/// two elements that count as equal, and the pairs increase strictly in both
/// coordinates.
pub open spec fn is_common_subsequence<A, B>(
    a: Seq<A>,
    b: Seq<B>,
    same: spec_fn(A, B) -> bool,
    i: int,
    j: int,
    pairs: Seq<(int, int)>,
) -> bool {
    &&& forall|k: int|
        0 <= k < pairs.len() ==> {
            &&& 0 <= (#[trigger] pairs[k]).0 < i
            &&& 0 <= pairs[k].1 < j
            &&& same(a[pairs[k].0], b[pairs[k].1])
        }
    &&& forall|k: int, l: int|
        0 <= k < l < pairs.len() ==> (#[trigger] pairs[k]).0 < (#[trigger] pairs[l]).0
            && pairs[k].1 < pairs[l].1
}

/// The pairs of an executable result, as mathematical integers.
pub open spec fn pairs_view(pairs: Seq<(usize, usize)>) -> Seq<(int, int)> {
    Seq::new(pairs.len(), |k: int| (pairs[k].0 as int, pairs[k].1 as int))
}

/// No common subsequence is longer than either prefix.
pub proof fn lemma_lcs_len_bounded<A, B>(
    a: Seq<A>,
    b: Seq<B>,
    same: spec_fn(A, B) -> bool,
    i: int,
    j: int,
)
    requires
        0 <= i,
        0 <= j,
    ensures
        lcs_len(a, b, same, i, j) <= i,
        lcs_len(a, b, same, i, j) <= j,
    decreases i + j,
{
    if i > 0 && j > 0 {
        lemma_lcs_len_bounded(a, b, same, i - 1, j - 1);
        lemma_lcs_len_bounded(a, b, same, i - 1, j);
        lemma_lcs_len_bounded(a, b, same, i, j - 1);
    }
}

/// The aligned pairs form a common subsequence, and they are as many as the
/// table says.
pub proof fn lemma_lcs_pairs_common<A, B>(
    a: Seq<A>,
    b: Seq<B>,
    same: spec_fn(A, B) -> bool,
    i: int,
    j: int,
)
    requires
        0 <= i <= a.len(),
        0 <= j <= b.len(),
    ensures
        is_common_subsequence(a, b, same, i, j, lcs_pairs(a, b, same, i, j)),
        lcs_pairs(a, b, same, i, j).len() == lcs_len(a, b, same, i, j),
    decreases i + j,
{
    if i > 0 && j > 0 {
        if lcs_len(a, b, same, i, j) == lcs_len(a, b, same, i - 1, j) {
            lemma_lcs_pairs_common(a, b, same, i - 1, j);
        } else if lcs_len(a, b, same, i, j) == lcs_len(a, b, same, i, j - 1) {
            lemma_lcs_pairs_common(a, b, same, i, j - 1);
        } else {
            lemma_lcs_pairs_common(a, b, same, i - 1, j - 1);
            let rest = lcs_pairs(a, b, same, i - 1, j - 1);
            let all = rest.push((i - 1, j - 1));
            assert(same(a[i - 1], b[j - 1]));
            assert forall|k: int| 0 <= k < all.len() implies {
                &&& 0 <= (#[trigger] all[k]).0 < i
                &&& 0 <= all[k].1 < j
                &&& same(a[all[k].0], b[all[k].1])
            } by {
                if k < rest.len() {
                    assert(all[k] == rest[k]);
                }
            }
            assert forall|k: int, l: int| 0 <= k < l < all.len() implies (#[trigger] all[k]).0 < (
            #[trigger] all[l]).0 && all[k].1 < all[l].1 by {
                assert(all[k] == rest[k]);
                if l < rest.len() {
                    assert(all[l] == rest[l]);
                }
            }
        }
    }
}

/// No common subsequence of the two prefixes is longer than the table says.
pub proof fn lemma_lcs_len_is_longest<A, B>(
    a: Seq<A>,
    b: Seq<B>,
    same: spec_fn(A, B) -> bool,
    i: int,
    j: int,
    pairs: Seq<(int, int)>,
)
    requires
        0 <= i <= a.len(),
        0 <= j <= b.len(),
        is_common_subsequence(a, b, same, i, j, pairs),
    ensures
        pairs.len() <= lcs_len(a, b, same, i, j),
    decreases i + j,
{
    if pairs.len() == 0 {
    } else if i <= 0 || j <= 0 {
        assert(0 <= pairs[0].0 < i);
    } else {
        let last = pairs.last();
        let front = pairs.drop_last();
        assert(last == pairs[pairs.len() - 1]);
        assert forall|k: int| 0 <= k < front.len() implies {
            &&& 0 <= (#[trigger] front[k]).0 < i - 1
            &&& 0 <= front[k].1 < j - 1
            &&& same(a[front[k].0], b[front[k].1])
        } by {
            assert(front[k] == pairs[k]);
            assert(pairs[k].0 < pairs[pairs.len() - 1].0);
        }
        assert forall|k: int, l: int| 0 <= k < l < front.len() implies (#[trigger] front[k]).0 < (
        #[trigger] front[l]).0 && front[k].1 < front[l].1 by {
            assert(front[k] == pairs[k]);
            assert(front[l] == pairs[l]);
        }
        if same(a[i - 1], b[j - 1]) {
            lemma_lcs_len_is_longest(a, b, same, i - 1, j - 1, front);
        } else if last.0 < i - 1 {
            assert forall|k: int| 0 <= k < pairs.len() implies 0 <= (#[trigger] pairs[k]).0 < i
                - 1 by {
                if k < pairs.len() - 1 {
                    assert(pairs[k].0 < pairs[pairs.len() - 1].0);
                }
            }
            lemma_lcs_len_is_longest(a, b, same, i - 1, j, pairs);
        } else {
            assert(last.1 < j - 1);
            assert forall|k: int| 0 <= k < pairs.len() implies 0 <= (#[trigger] pairs[k]).1 < j
                - 1 by {
                if k < pairs.len() - 1 {
                    assert(pairs[k].1 < pairs[pairs.len() - 1].1);
                }
            }
            lemma_lcs_len_is_longest(a, b, same, i, j - 1, pairs);
        }
    }
}

/// Two pairs of sequences whose elements compare alike, position by
/// position, have the same table and the same aligned pairs.
pub proof fn lemma_lcs_respects_relation<A, B, C, D>(
    a: Seq<A>,
    b: Seq<B>,
    same: spec_fn(A, B) -> bool,
    c: Seq<C>,
    d: Seq<D>,
    alike: spec_fn(C, D) -> bool,
    i: int,
    j: int,
)
    requires
        0 <= i <= a.len(),
        0 <= j <= b.len(),
        a.len() == c.len(),
        b.len() == d.len(),
        forall|x: int, y: int|
            0 <= x < a.len() && 0 <= y < b.len() ==> same(a[x], b[y]) == alike(c[x], d[y]),
    ensures
        lcs_len(a, b, same, i, j) == lcs_len(c, d, alike, i, j),
        lcs_pairs(a, b, same, i, j) == lcs_pairs(c, d, alike, i, j),
    decreases i + j,
{
    if i > 0 && j > 0 {
        lemma_lcs_respects_relation(a, b, same, c, d, alike, i - 1, j - 1);
        lemma_lcs_respects_relation(a, b, same, c, d, alike, i - 1, j);
        lemma_lcs_respects_relation(a, b, same, c, d, alike, i, j - 1);
    }
}

/// A sequence aligned with itself, under a relation that holds of every
/// element and itself, is aligned position by position.
pub proof fn lemma_lcs_of_same_sequence<A>(a: Seq<A>, same: spec_fn(A, A) -> bool, i: int)
    requires
        0 <= i <= a.len(),
        forall|x: int| 0 <= x < a.len() ==> same(a[x], a[x]),
    ensures
        lcs_len(a, a, same, i, i) == i,
        lcs_pairs(a, a, same, i, i) == Seq::new(i as nat, |k: int| (k, k)),
    decreases i,
{
    if i > 0 {
        lemma_lcs_of_same_sequence(a, same, i - 1);
        lemma_lcs_len_bounded(a, a, same, i - 1, i);
        lemma_lcs_len_bounded(a, a, same, i, i - 1);
        assert(lcs_pairs(a, a, same, i, i) =~= Seq::new(i as nat, |k: int| (k, k)));
    } else {
        assert(lcs_pairs(a, a, same, i, i) =~= Seq::new(i as nat, |k: int| (k, k)));
    }
}

/// Aligns `arr0` with `arr1`: the index pairs `(i, j)` of a longest common
/// subsequence, in increasing order. Whatever `==` does on `T`, the pairs
/// lie within the two sequences and increase strictly.
pub fn lcs<T: PartialEq>(arr0: &[T], arr1: &[T]) -> (res: Vec<(usize, usize)>)
    ensures
        T::obeys_eq_spec() ==> pairs_view(res@) == lcs_pairs(
            arr0@,
            arr1@,
            eq_relation::<T>(),
            arr0@.len() as int,
            arr1@.len() as int,
        ),
        forall|k: int|
            0 <= k < res@.len() ==> (#[trigger] res@[k]).0 < arr0@.len() && res@[k].1
                < arr1@.len(),
        forall|k: int, l: int|
            0 <= k < l < res@.len() ==> (#[trigger] res@[k]).0 < (#[trigger] res@[l]).0
                && res@[k].1 < res@[l].1,
{
    let len0 = arr0.len();
    let len1 = arr1.len();
    let ghost a = arr0@;
    let ghost b = arr1@;
    let ghost same = eq_relation::<T>();
    let mut dp: Vec<Vec<usize>> = Vec::new();
    let mut first: Vec<usize> = Vec::new();
    let mut c: usize = 0;
    while c < len1
        invariant
            len1 == b.len(),
            c <= len1,
            first@.len() == c,
            forall|y: int| 0 <= y < c ==> first@[y] == 0,
        decreases len1 - c,
    {
        first.push(0);
        c += 1;
    }
    first.push(0);
    dp.push(first);
    let mut i: usize = 0;
    while i < len0
        invariant
            len0 == a.len(),
            len1 == b.len(),
            a == arr0@,
            b == arr1@,
            same == eq_relation::<T>(),
            i <= len0,
            dp@.len() == i + 1,
            forall|x: int| 0 <= x <= i ==> (#[trigger] dp@[x])@.len() == len1 + 1,
            forall|x: int, y: int|
                0 <= x <= i && 0 <= y <= len1 ==> (#[trigger] dp@[x]@[y]) <= x && dp@[x]@[y] <= y,
            T::obeys_eq_spec() ==> forall|x: int, y: int|
                0 <= x <= i && 0 <= y <= len1 ==> (#[trigger] dp@[x]@[y]) == lcs_len(
                    a,
                    b,
                    same,
                    x,
                    y,
                ),
        decreases len0 - i,
    {
        let mut row: Vec<usize> = Vec::new();
        row.push(0);
        let mut j: usize = 0;
        while j < len1
            invariant
                len0 == a.len(),
                len1 == b.len(),
                a == arr0@,
                b == arr1@,
                same == eq_relation::<T>(),
                i < len0,
                j <= len1,
                dp@.len() == i + 1,
                forall|x: int| 0 <= x <= i ==> (#[trigger] dp@[x])@.len() == len1 + 1,
                forall|x: int, y: int|
                    0 <= x <= i && 0 <= y <= len1 ==> (#[trigger] dp@[x]@[y]) <= x && dp@[x]@[y]
                        <= y,
                T::obeys_eq_spec() ==> forall|x: int, y: int|
                    0 <= x <= i && 0 <= y <= len1 ==> (#[trigger] dp@[x]@[y]) == lcs_len(
                        a,
                        b,
                        same,
                        x,
                        y,
                    ),
                row@.len() == j + 1,
                forall|y: int| 0 <= y <= j ==> (#[trigger] row@[y]) <= i + 1 && row@[y] <= y,
                T::obeys_eq_spec() ==> forall|y: int|
                    0 <= y <= j ==> (#[trigger] row@[y]) == lcs_len(a, b, same, i + 1, y),
            decreases len1 - j,
        {
            let up: usize = dp[i][j + 1];
            let left: usize = row[j];
            let diag: usize = dp[i][j];
            assert(dp@[i as int]@[j as int] <= j);
            let cell: usize = if arr0[i] == arr1[j] {
                diag + 1
            } else if up >= left {
                up
            } else {
                left
            };
            proof {
                assert(dp@[i as int]@[j + 1] <= i);
                assert(row@[j as int] <= j);
                if T::obeys_eq_spec() {
                    assert(same(a[i as int], b[j as int]) == a[i as int].eq_spec(&b[j as int]));
                    assert(dp@[i as int]@[j + 1] == lcs_len(a, b, same, i as int, j + 1));
                    assert(dp@[i as int]@[j as int] == lcs_len(a, b, same, i as int, j as int));
                    assert(cell == lcs_len(a, b, same, i + 1, j + 1));
                }
            }
            row.push(cell);
            j += 1;
        }
        dp.push(row);
        i += 1;
    }
    let mut i: usize = len0;
    let mut j: usize = len1;
    let mut rev: Vec<(usize, usize)> = Vec::new();
    while i > 0 && j > 0
        invariant
            len0 == a.len(),
            len1 == b.len(),
            same == eq_relation::<T>(),
            i <= len0,
            j <= len1,
            dp@.len() == len0 + 1,
            forall|x: int| 0 <= x <= len0 ==> (#[trigger] dp@[x])@.len() == len1 + 1,
            T::obeys_eq_spec() ==> forall|x: int, y: int|
                0 <= x <= len0 && 0 <= y <= len1 ==> (#[trigger] dp@[x]@[y]) == lcs_len(
                    a,
                    b,
                    same,
                    x,
                    y,
                ),
            T::obeys_eq_spec() ==> lcs_pairs(a, b, same, i as int, j as int) + pairs_view(
                rev@,
            ).reverse() == lcs_pairs(a, b, same, len0 as int, len1 as int),
            forall|k: int|
                0 <= k < rev@.len() ==> i <= (#[trigger] rev@[k]).0 < len0 && j <= rev@[k].1
                    < len1,
            forall|k: int, l: int|
                0 <= k < l < rev@.len() ==> (#[trigger] rev@[k]).0 > (#[trigger] rev@[l]).0
                    && rev@[k].1 > rev@[l].1,
        decreases i + j,
    {
        let here: usize = dp[i][j];
        if here == dp[i - 1][j] {
            i -= 1;
        } else if here == dp[i][j - 1] {
            j -= 1;
        } else {
            proof {
                if T::obeys_eq_spec() {
                    let before = pairs_view(rev@);
                    let after = pairs_view(rev@.push(((i - 1) as usize, (j - 1) as usize)));
                    assert(after =~= before.push((i - 1, j - 1)));
                    assert(after.reverse() =~= seq![(i - 1, j - 1)] + before.reverse());
                    assert(lcs_pairs(a, b, same, i as int, j as int) == lcs_pairs(
                        a,
                        b,
                        same,
                        i - 1,
                        j - 1,
                    ).push((i - 1, j - 1)));
                    assert(lcs_pairs(a, b, same, i - 1, j - 1) + after.reverse() =~= lcs_pairs(
                        a,
                        b,
                        same,
                        i as int,
                        j as int,
                    ) + before.reverse());
                }
            }
            rev.push((i - 1, j - 1));
            i -= 1;
            j -= 1;
        }
    }
    let mut res: Vec<(usize, usize)> = Vec::new();
    let mut k: usize = rev.len();
    while k > 0
        invariant
            k <= rev@.len(),
            res@.len() == rev@.len() - k,
            forall|x: int| 0 <= x < res@.len() ==> (#[trigger] res@[x]) == rev@[rev@.len() - 1 - x],
        decreases k,
    {
        k -= 1;
        res.push(rev[k]);
    }
    proof {
        assert forall|x: int, y: int| 0 <= x < y < res@.len() implies (#[trigger] res@[x]).0 < (
        #[trigger] res@[y]).0 && res@[x].1 < res@[y].1 by {
            assert(res@[x] == rev@[rev@.len() - 1 - x]);
            assert(res@[y] == rev@[rev@.len() - 1 - y]);
        }
        if T::obeys_eq_spec() {
            assert(lcs_pairs(a, b, same, i as int, j as int) =~= Seq::empty());
            assert(pairs_view(res@) =~= pairs_view(rev@).reverse());
            assert(pairs_view(res@) =~= lcs_pairs(a, b, same, len0 as int, len1 as int));
        }
    }
    res
}

} // verus!
