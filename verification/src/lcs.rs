//! The longest common subsequence as a specification, and the edit distance
//! between suffixes that the shortest-script search is measured against.
use vstd::prelude::*;

verus! {

/// Length of the longest common subsequence of `a[i..]` and `b[j..]`.
pub open spec fn lcs_from<T>(a: Seq<T>, b: Seq<T>, i: int, j: int) -> nat
    decreases a.len() - i + b.len() - j,
{
    if i < 0 || j < 0 || i >= a.len() || j >= b.len() {
        0
    } else if a[i] == b[j] {
        1 + lcs_from(a, b, i + 1, j + 1)
    } else {
        let p = lcs_from(a, b, i + 1, j);
        let q = lcs_from(a, b, i, j + 1);
        if p >= q {
            p
        } else {
            q
        }
    }
}

/// Length of the longest common subsequence of `a` and `b`.
pub open spec fn lcs_len<T>(a: Seq<T>, b: Seq<T>) -> nat {
    lcs_from(a, b, 0, 0)
}

/// The least number of insertions and deletions that turn `a` into `b`.
pub open spec fn edit_distance<T>(a: Seq<T>, b: Seq<T>) -> int {
    a.len() + b.len() - 2 * lcs_len(a, b)
}

/// Edit distance between the last `u` tokens of `a` and the last `v` tokens of `b`.
pub open spec fn tail_dist<T>(a: Seq<T>, b: Seq<T>, u: int, v: int) -> int {
    u + v - 2 * lcs_from(a, b, a.len() - u, b.len() - v)
}

/// Dropping one leading token from either side lowers the common length by at most one.
pub proof fn lemma_lcs_step<T>(a: Seq<T>, b: Seq<T>, i: int, j: int)
    requires
        0 <= i <= a.len(),
        0 <= j <= b.len(),
    ensures
        i < a.len() ==> lcs_from(a, b, i + 1, j) <= lcs_from(a, b, i, j) <= lcs_from(a, b, i + 1, j)
            + 1,
        j < b.len() ==> lcs_from(a, b, i, j + 1) <= lcs_from(a, b, i, j) <= lcs_from(a, b, i, j + 1)
            + 1,
    decreases a.len() - i + b.len() - j,
{
    if i < a.len() && j < b.len() {
        lemma_lcs_step(a, b, i + 1, j);
        lemma_lcs_step(a, b, i, j + 1);
    }
}

/// A common subsequence is no longer than either side.
pub proof fn lemma_lcs_bound<T>(a: Seq<T>, b: Seq<T>, i: int, j: int)
    requires
        0 <= i <= a.len(),
        0 <= j <= b.len(),
    ensures
        lcs_from(a, b, i, j) <= a.len() - i,
        lcs_from(a, b, i, j) <= b.len() - j,
    decreases a.len() - i + b.len() - j,
{
    if i < a.len() && j < b.len() {
        lemma_lcs_bound(a, b, i + 1, j + 1);
        lemma_lcs_bound(a, b, i + 1, j);
        lemma_lcs_bound(a, b, i, j + 1);
    }
}

/// The distance lies between the difference and the sum of the two lengths,
/// and has the parity of both.
pub proof fn lemma_dist_range<T>(a: Seq<T>, b: Seq<T>, u: int, v: int)
    requires
        0 <= u <= a.len(),
        0 <= v <= b.len(),
    ensures
        tail_dist(a, b, u, v) >= u - v,
        tail_dist(a, b, u, v) >= v - u,
        tail_dist(a, b, u, v) <= u + v,
        (tail_dist(a, b, u, v) - (u - v)) % 2 == 0,
        u == 0 ==> tail_dist(a, b, u, v) == v,
        v == 0 ==> tail_dist(a, b, u, v) == u,
{
    lemma_lcs_bound(a, b, a.len() - u, b.len() - v);
    let l = lcs_from(a, b, a.len() - u, b.len() - v) as int;
    assert(tail_dist(a, b, u, v) - (u - v) == 2 * (v - l));
    assert((2 * (v - l)) % 2 == 0) by (nonlinear_arith);
}

/// How the distance at `(u, v)` relates to the distances one token closer to the end.
pub proof fn lemma_dist_step<T>(a: Seq<T>, b: Seq<T>, u: int, v: int)
    requires
        0 <= u <= a.len(),
        0 <= v <= b.len(),
    ensures
        u >= 1 ==> tail_dist(a, b, u - 1, v) - 1 <= tail_dist(a, b, u, v) <= tail_dist(
            a,
            b,
            u - 1,
            v,
        ) + 1,
        v >= 1 ==> tail_dist(a, b, u, v - 1) - 1 <= tail_dist(a, b, u, v) <= tail_dist(
            a,
            b,
            u,
            v - 1,
        ) + 1,
        u >= 1 && v >= 1 ==> tail_dist(a, b, u - 1, v - 1) <= tail_dist(a, b, u, v),
        u >= 1 && v >= 1 && a[a.len() - u] == b[b.len() - v] ==> tail_dist(a, b, u, v)
            == tail_dist(a, b, u - 1, v - 1),
        u >= 1 && v >= 1 && a[a.len() - u] != b[b.len() - v] ==> (tail_dist(a, b, u, v)
            == tail_dist(a, b, u - 1, v) + 1 || tail_dist(a, b, u, v) == tail_dist(a, b, u, v - 1)
            + 1),
{
    let i = a.len() - u;
    let j = b.len() - v;
    lemma_lcs_step(a, b, i, j);
    if u >= 1 && v >= 1 {
        lemma_lcs_step(a, b, i + 1, j);
        lemma_lcs_step(a, b, i, j + 1);
    }
}

/// Along a diagonal the distance never falls as more tokens are taken in.
pub proof fn lemma_dist_diagonal<T>(a: Seq<T>, b: Seq<T>, u: int, v: int, e: int)
    requires
        0 <= e <= u <= a.len(),
        e <= v <= b.len(),
    ensures
        tail_dist(a, b, u - e, v - e) <= tail_dist(a, b, u, v),
    decreases e,
{
    if e > 0 {
        lemma_dist_step(a, b, u, v);
        lemma_dist_diagonal(a, b, u - 1, v - 1, e - 1);
    }
}

/// The common length depends only on which tokens are equal to which.
pub proof fn lemma_lcs_relabel<S, T>(a: Seq<S>, b: Seq<S>, c: Seq<T>, d: Seq<T>, i: int, j: int)
    requires
        a.len() == c.len(),
        b.len() == d.len(),
        forall|x: int, y: int|
            #![trigger a[x], b[y]]
            0 <= x < a.len() && 0 <= y < b.len() ==> ((a[x] == b[y]) <==> (c[x] == d[y])),
        0 <= i <= a.len(),
        0 <= j <= b.len(),
    ensures
        lcs_from(a, b, i, j) == lcs_from(c, d, i, j),
    decreases a.len() - i + b.len() - j,
{
    if i < a.len() && j < b.len() {
        assert((a[i] == b[j]) <==> (c[i] == d[j]));
        lemma_lcs_relabel(a, b, c, d, i + 1, j + 1);
        lemma_lcs_relabel(a, b, c, d, i + 1, j);
        lemma_lcs_relabel(a, b, c, d, i, j + 1);
    }
}

/// A sequence shares all of itself with itself.
pub proof fn lemma_lcs_self<T>(a: Seq<T>, i: int)
    requires
        0 <= i <= a.len(),
    ensures
        lcs_from(a, a, i, i) == a.len() - i,
    decreases a.len() - i,
{
    if i < a.len() {
        lemma_lcs_self(a, i + 1);
    }
}

/// Dropping leading tokens never lengthens the common subsequence.
pub proof fn lemma_lcs_monotone<T>(a: Seq<T>, b: Seq<T>, i: int, j: int, i2: int, j2: int)
    requires
        0 <= i <= i2 <= a.len(),
        0 <= j <= j2 <= b.len(),
    ensures
        lcs_from(a, b, i2, j2) <= lcs_from(a, b, i, j),
    decreases (i2 - i) + (j2 - j),
{
    if i < i2 {
        lemma_lcs_step(a, b, i, j);
        lemma_lcs_monotone(a, b, i + 1, j, i2, j2);
    } else if j < j2 {
        lemma_lcs_step(a, b, i, j);
        lemma_lcs_monotone(a, b, i, j + 1, i2, j2);
    }
}

/// However the two sequences are cut, what the two prefixes share and what
/// the two suffixes share is together no more than what the whole sequences share.
/// The prefixes are measured on the reversed sequences.
pub proof fn lemma_lcs_split_bound<T>(a: Seq<T>, b: Seq<T>, x: int, y: int)
    requires
        0 <= x <= a.len(),
        0 <= y <= b.len(),
    ensures
        lcs_from(a.reverse(), b.reverse(), a.len() - x, b.len() - y) + lcs_from(a, b, x, y)
            <= lcs_len(a, b),
    decreases x + y,
{
    let ra = a.reverse();
    let rb = b.reverse();
    let n = a.len() as int;
    let m = b.len() as int;
    if x == 0 || y == 0 {
        lemma_lcs_monotone(a, b, 0, 0, x, y);
    } else {
        assert(ra[n - x] == a[x - 1]);
        assert(rb[m - y] == b[y - 1]);
        if a[x - 1] == b[y - 1] {
            lemma_lcs_split_bound(a, b, x - 1, y - 1);
        } else {
            lemma_lcs_split_bound(a, b, x - 1, y);
            lemma_lcs_split_bound(a, b, x, y - 1);
            lemma_lcs_step(a, b, x - 1, y);
            lemma_lcs_step(a, b, x, y - 1);
        }
    }
}

/// Reversing both sequences leaves the length of their longest common subsequence unchanged.
pub proof fn lemma_lcs_reverse<T>(a: Seq<T>, b: Seq<T>)
    ensures
        lcs_len(a.reverse(), b.reverse()) == lcs_len(a, b),
{
    let ra = a.reverse();
    let rb = b.reverse();
    lemma_lcs_split_bound(a, b, a.len() as int, b.len() as int);
    lemma_lcs_split_bound(ra, rb, a.len() as int, b.len() as int);
    assert(ra.reverse() =~= a);
    assert(rb.reverse() =~= b);
}

/// The common length of two suffixes, taken as sequences of their own, is the
/// common length from their starting points in the whole sequences.
pub proof fn lemma_lcs_shift<T>(a: Seq<T>, b: Seq<T>, x: int, y: int, i: int, j: int)
    requires
        0 <= x <= a.len(),
        0 <= y <= b.len(),
        0 <= i <= a.len() - x,
        0 <= j <= b.len() - y,
    ensures
        lcs_from(a.subrange(x, a.len() as int), b.subrange(y, b.len() as int), i, j) == lcs_from(
            a,
            b,
            x + i,
            y + j,
        ),
    decreases a.len() - x - i + b.len() - y - j,
{
    if i < a.len() - x && j < b.len() - y {
        lemma_lcs_shift(a, b, x, y, i + 1, j + 1);
        lemma_lcs_shift(a, b, x, y, i + 1, j);
        lemma_lcs_shift(a, b, x, y, i, j + 1);
    }
}

/// The common length of two prefixes, taken as sequences of their own, is the
/// common length of the matching suffixes of the reversed sequences.
pub proof fn lemma_lcs_prefix<T>(a: Seq<T>, b: Seq<T>, x: int, y: int)
    requires
        0 <= x <= a.len(),
        0 <= y <= b.len(),
    ensures
        lcs_len(a.subrange(0, x), b.subrange(0, y)) == lcs_from(
            a.reverse(),
            b.reverse(),
            a.len() - x,
            b.len() - y,
        ),
{
    let p = a.subrange(0, x);
    let q = b.subrange(0, y);
    let ra = a.reverse();
    let rb = b.reverse();
    lemma_lcs_reverse(p, q);
    assert(p.reverse() =~= ra.subrange(a.len() - x, a.len() as int));
    assert(q.reverse() =~= rb.subrange(b.len() - y, b.len() as int));
    lemma_lcs_shift(ra, rb, a.len() - x, b.len() - y, 0, 0);
}

/// A cut of both sequences splits the common length exactly when the parts
/// before and after the cut lie no further apart, together, than the whole.
pub proof fn lemma_lcs_cut<T>(a: Seq<T>, b: Seq<T>, x: int, y: int)
    requires
        0 <= x <= a.len(),
        0 <= y <= b.len(),
    ensures
        lcs_len(a.subrange(0, x), b.subrange(0, y)) + lcs_len(
            a.subrange(x, a.len() as int),
            b.subrange(y, b.len() as int),
        ) <= lcs_len(a, b),
        lcs_len(a.subrange(0, x), b.subrange(0, y)) == lcs_from(
            a.reverse(),
            b.reverse(),
            a.len() - x,
            b.len() - y,
        ),
        lcs_len(a.subrange(x, a.len() as int), b.subrange(y, b.len() as int)) == lcs_from(
            a,
            b,
            x,
            y,
        ),
{
    lemma_lcs_prefix(a, b, x, y);
    lemma_lcs_shift(a, b, x, y, 0, 0);
    lemma_lcs_split_bound(a, b, x, y);
}

} // verus!
