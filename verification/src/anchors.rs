//! The anchors of a patience diff: the tokens that occur exactly once on both
//! sides, and a longest chain of them that rises on both sides, found by
//! patience sorting.
use vstd::prelude::*;
use std::collections::HashMap;

verus! {

broadcast use vstd::std_specs::hash::group_hash_axioms;

/// The token at `i` occurs nowhere else in `s`.
pub open spec fn unique_at<T>(s: Seq<T>, i: int) -> bool {
    &&& 0 <= i < s.len()
    &&& forall|k: int| 0 <= k < s.len() && s[k] == s[i] ==> k == i
}

/// Every pair joins the one occurrence of a token in `a` with its one
/// occurrence in `b`, and the pairs rise on both sides.
pub open spec fn are_anchors<T>(pairs: Seq<(usize, usize)>, a: Seq<T>, b: Seq<T>) -> bool {
    &&& forall|k: int|
        0 <= k < pairs.len() ==> {
            let p = #[trigger] pairs[k];
            &&& unique_at(a, p.0 as int)
            &&& unique_at(b, p.1 as int)
            &&& a[p.0 as int] == b[p.1 as int]
        }
    &&& forall|k: int, l: int|
        0 <= k < l < pairs.len() ==> (#[trigger] pairs[k]).0 < (#[trigger] pairs[l]).0 && pairs[k].1
            < pairs[l].1
}

/// The token at `i` of `a` occurs once in `a` and once in `b`.
pub open spec fn has_partner<T>(a: Seq<T>, b: Seq<T>, i: int) -> bool {
    unique_at(a, i) && exists|j: int| unique_at(b, j) && b[j] == a[i]
}

/// The place in `b` of the token at `i` of `a`.
pub open spec fn partner<T>(a: Seq<T>, b: Seq<T>, i: int) -> int {
    choose|j: int| unique_at(b, j) && b[j] == a[i]
}

/// The tokens among the first `i` of `a` that occur once in `a` and once in
/// `b`, each with its two places, in the order of `a`.
pub open spec fn pairs_upto<T>(a: Seq<T>, b: Seq<T>, i: int) -> Seq<(usize, usize)>
    decreases i,
{
    if i <= 0 {
        Seq::empty()
    } else if has_partner(a, b, i - 1) {
        pairs_upto(a, b, i - 1).push(((i - 1) as usize, partner(a, b, i - 1) as usize))
    } else {
        pairs_upto(a, b, i - 1)
    }
}

/// The tokens that occur once in `a` and once in `b`, each with its two
/// places, in the order of `a`.
pub open spec fn pairs_of<T>(a: Seq<T>, b: Seq<T>) -> Seq<(usize, usize)> {
    pairs_upto(a, b, a.len() as int)
}

/// The unique pairs depend only on which tokens are equal to which.
pub proof fn lemma_pairs_relabel<S, T>(a: Seq<S>, b: Seq<S>, c: Seq<T>, d: Seq<T>, i: int)
    requires
        a.len() == c.len(),
        b.len() == d.len(),
        forall|x: int, y: int|
            #![trigger a[x], b[y]]
            0 <= x < a.len() && 0 <= y < b.len() ==> ((a[x] == b[y]) <==> (c[x] == d[y])),
        forall|x: int, y: int|
            #![trigger a[x], a[y]]
            0 <= x < a.len() && 0 <= y < a.len() ==> ((a[x] == a[y]) <==> (c[x] == c[y])),
        forall|x: int, y: int|
            #![trigger b[x], b[y]]
            0 <= x < b.len() && 0 <= y < b.len() ==> ((b[x] == b[y]) <==> (d[x] == d[y])),
        0 <= i <= a.len(),
    ensures
        pairs_upto(a, b, i) == pairs_upto(c, d, i),
    decreases i,
{
    if i > 0 {
        lemma_pairs_relabel(a, b, c, d, i - 1);
        let at = i - 1;
        lemma_unique_relabel(a, c, at);
        if has_partner(a, b, at) {
            let j = partner(a, b, at);
            assert(unique_at(b, j) && b[j] == a[at]);
            lemma_unique_relabel(b, d, j);
            assert((a[at] == b[j]) <==> (c[at] == d[j]));
            assert(has_partner(c, d, at));
            let j2 = partner(c, d, at);
            assert(unique_at(d, j2) && d[j2] == c[at]);
            assert(j2 == j);
        } else if has_partner(c, d, at) {
            let j = partner(c, d, at);
            assert(unique_at(d, j) && d[j] == c[at]);
            lemma_unique_relabel(d, b, j);
            assert((a[at] == b[j]) <==> (c[at] == d[j]));
            assert(has_partner(a, b, at));
        }
    }
}

/// Whether a token occurs once depends only on which tokens are equal to which.
pub proof fn lemma_unique_relabel<S, T>(a: Seq<S>, c: Seq<T>, i: int)
    requires
        a.len() == c.len(),
        forall|x: int, y: int|
            #![trigger a[x], a[y]]
            0 <= x < a.len() && 0 <= y < a.len() ==> ((a[x] == a[y]) <==> (c[x] == c[y])),
    ensures
        unique_at(a, i) == unique_at(c, i),
{
    if 0 <= i < a.len() {
        if unique_at(a, i) {
            assert forall|k: int| 0 <= k < c.len() && c[k] == c[i] implies k == i by {
                assert((a[k] == a[i]) <==> (c[k] == c[i]));
            }
        }
        if unique_at(c, i) {
            assert forall|k: int| 0 <= k < a.len() && a[k] == a[i] implies k == i by {
                assert((a[k] == a[i]) <==> (c[k] == c[i]));
            }
        }
    }
}

/// For every token of `s`, the place of its one occurrence, or `s.len()` if it occurs again.
fn index_unique(s: &[usize]) -> (m: HashMap<usize, usize>)
    ensures
        forall|k: int| 0 <= k < s@.len() ==> m@.contains_key(#[trigger] s@[k]),
        forall|x: usize|
            m@.contains_key(x) && #[trigger] m@[x] < s@.len() ==> s@[m@[x] as int] == x && unique_at(
                s@,
                m@[x] as int,
            ),
        forall|i: int| #[trigger] unique_at(s@, i) ==> m@[s@[i]] == i,
{
    let n: usize = s.len();
    let mut m: HashMap<usize, usize> = HashMap::new();
    let ghost mut twice: Map<usize, (int, int)> = Map::empty();
    let mut i: usize = 0;
    while i < n
        invariant
            n == s@.len(),
            i <= n,
            forall|k: int| 0 <= k < i ==> m@.contains_key(#[trigger] s@[k]),
            forall|x: usize|
                m@.contains_key(x) ==> (#[trigger] m@[x] < i && s@[m@[x] as int] == x) || m@[x]
                    == n,
            forall|x: usize, k: int|
                m@.contains_key(x) && m@[x] < n && 0 <= k < i && #[trigger] s@[k] == x ==> k
                    == #[trigger] m@[x],
            forall|x: usize|
                m@.contains_key(x) && #[trigger] m@[x] == n ==> {
                    &&& twice.contains_key(x)
                    &&& 0 <= twice[x].0 < twice[x].1 < i
                    &&& s@[twice[x].0] == x
                    &&& s@[twice[x].1] == x
                },
        decreases n - i,
    {
        let x: usize = s[i];
        let seen: usize = match m.get(&x) {
            Some(v) => *v,
            None => i,
        };
        if seen != i {
            proof {
                if seen < n {
                    twice = twice.insert(x, (seen as int, i as int));
                }
            }
            m.insert(x, n);
        } else {
            m.insert(x, i);
        }
        i = i + 1;
    }
    assert forall|x: usize| m@.contains_key(x) && #[trigger] m@[x] < s@.len() implies s@[m@[x] as int]
        == x && unique_at(s@, m@[x] as int) by {
        let v = m@[x] as int;
        assert forall|k: int| 0 <= k < s@.len() && s@[k] == s@[v] implies k == v by {
            assert(s@[k] == x);
        }
    }
    assert forall|i: int| #[trigger] unique_at(s@, i) implies m@[s@[i]] == i by {
        let x = s@[i];
        assert(m@.contains_key(x));
        if m@[x] == n {
            assert(s@[twice[x].0] == s@[i]);
            assert(s@[twice[x].1] == s@[i]);
        }
    }
    m
}

/// The tokens that occur once in `a` and once in `b`, each with its two
/// places, in the order of `a`: all of them, and each once.
fn unique_pairs(a: &[usize], b: &[usize]) -> (pairs: Vec<(usize, usize)>)
    ensures
        forall|k: int|
            0 <= k < pairs@.len() ==> {
                let p = #[trigger] pairs@[k];
                &&& unique_at(a@, p.0 as int)
                &&& unique_at(b@, p.1 as int)
                &&& a@[p.0 as int] == b@[p.1 as int]
            },
        forall|k: int, l: int|
            0 <= k < l < pairs@.len() ==> (#[trigger] pairs@[k]).0 < (#[trigger] pairs@[l]).0,
        forall|i: int, j: int|
            #[trigger] unique_at(a@, i) && #[trigger] unique_at(b@, j) && a@[i] == b@[j]
                ==> pairs@.contains((i as usize, j as usize)),
        pairs@ == pairs_of(a@, b@),
{
    let n: usize = a.len();
    let m: usize = b.len();
    let in_a = index_unique(a);
    let in_b = index_unique(b);
    let mut pairs: Vec<(usize, usize)> = Vec::new();
    let mut i: usize = 0;
    while i < n
        invariant
            n == a@.len(),
            m == b@.len(),
            i <= n,
            forall|k: int| 0 <= k < a@.len() ==> in_a@.contains_key(#[trigger] a@[k]),
            forall|x: usize|
                in_a@.contains_key(x) && #[trigger] in_a@[x] < a@.len() ==> a@[in_a@[x] as int] == x
                    && unique_at(a@, in_a@[x] as int),
            forall|k: int| #[trigger] unique_at(a@, k) ==> in_a@[a@[k]] == k,
            forall|k: int| 0 <= k < b@.len() ==> in_b@.contains_key(#[trigger] b@[k]),
            forall|x: usize|
                in_b@.contains_key(x) && #[trigger] in_b@[x] < b@.len() ==> b@[in_b@[x] as int] == x
                    && unique_at(b@, in_b@[x] as int),
            forall|k: int| #[trigger] unique_at(b@, k) ==> in_b@[b@[k]] == k,
            forall|k: int|
                0 <= k < pairs@.len() ==> {
                    let p = #[trigger] pairs@[k];
                    &&& p.0 < i
                    &&& unique_at(a@, p.0 as int)
                    &&& unique_at(b@, p.1 as int)
                    &&& a@[p.0 as int] == b@[p.1 as int]
                },
            forall|k: int, l: int|
                0 <= k < l < pairs@.len() ==> (#[trigger] pairs@[k]).0 < (#[trigger] pairs@[l]).0,
            forall|k: int, j: int|
                0 <= k < i && #[trigger] unique_at(a@, k) && #[trigger] unique_at(b@, j) && a@[k]
                    == b@[j] ==> pairs@.contains((k as usize, j as usize)),
            pairs@ == pairs_upto(a@, b@, i as int),
        decreases n - i,
    {
        let x: usize = a[i];
        let here: usize = match in_a.get(&x) {
            Some(v) => *v,
            None => n,
        };
        let ghost before = pairs@;
        let mut there: usize = m;
        if here == i {
            there = match in_b.get(&x) {
                Some(v) => *v,
                None => m,
            };
            if there < m {
                pairs.push((i, there));
                assert(pairs@[pairs@.len() - 1] == (i, there));
            }
        }
        proof {
            if here == i && there < m {
                assert(unique_at(b@, there as int) && b@[there as int] == a@[i as int]);
                assert(has_partner(a@, b@, i as int));
                let j = partner(a@, b@, i as int);
                assert(unique_at(b@, j) && b@[j] == a@[i as int]);
                assert(j == there);
            } else if has_partner(a@, b@, i as int) {
                assert(in_a@[a@[i as int]] == i);
                let j = partner(a@, b@, i as int);
                assert(unique_at(b@, j) && b@[j] == a@[i as int]);
                assert(in_b@[b@[j]] == j);
                assert(in_b@.contains_key(b@[j]));
                assert(false);
            }
        }
        proof {
            assert forall|k: int, j: int|
                0 <= k < i + 1 && #[trigger] unique_at(a@, k) && #[trigger] unique_at(b@, j)
                    && a@[k] == b@[j] implies pairs@.contains((k as usize, j as usize)) by {
                if k < i {
                    assert(before.contains((k as usize, j as usize)));
                    let w = choose|w: int| 0 <= w < before.len() && before[w] == (
                        k as usize,
                        j as usize,
                    );
                    assert(pairs@[w] == (k as usize, j as usize));
                } else {
                    assert(in_a@[a@[k]] == k);
                    assert(in_b@[b@[j]] == j);
                    assert(pairs@[pairs@.len() - 1] == (k as usize, j as usize));
                }
            }
        }
        i = i + 1;
    }
    pairs
}

/// The pile on which a card with value `j` goes: the first whose top card is greater.
fn pile_for(pairs: &Vec<(usize, usize)>, piles: &Vec<usize>, j: usize) -> (p: usize)
    requires
        forall|q: int| 0 <= q < piles@.len() ==> (#[trigger] piles@[q]) < pairs@.len(),
        forall|q: int, r: int|
            0 <= q < r < piles@.len() ==> pairs@[(#[trigger] piles@[q]) as int].1 < pairs@[(
            #[trigger] piles@[r]) as int].1,
    ensures
        p <= piles@.len(),
        forall|q: int| 0 <= q < p ==> pairs@[(#[trigger] piles@[q]) as int].1 <= j,
        forall|q: int| p <= q < piles@.len() ==> pairs@[(#[trigger] piles@[q]) as int].1 > j,
{
    let mut lo: usize = 0;
    let mut hi: usize = piles.len();
    while lo < hi
        invariant
            lo <= hi <= piles@.len(),
            forall|q: int| 0 <= q < piles@.len() ==> (#[trigger] piles@[q]) < pairs@.len(),
            forall|q: int, r: int|
                0 <= q < r < piles@.len() ==> pairs@[(#[trigger] piles@[q]) as int].1 < pairs@[(
                #[trigger] piles@[r]) as int].1,
            forall|q: int| 0 <= q < lo ==> pairs@[(#[trigger] piles@[q]) as int].1 <= j,
            forall|q: int| hi <= q < piles@.len() ==> pairs@[(#[trigger] piles@[q]) as int].1 > j,
        decreases hi - lo,
    {
        let mid: usize = lo + (hi - lo) / 2;
        if pairs[piles[mid]].1 <= j {
            lo = mid + 1;
        } else {
            hi = mid;
        }
    }
    lo
}

/// The places `idx` pick pairs that rise on both sides.
pub open spec fn is_rising(pairs: Seq<(usize, usize)>, idx: Seq<int>) -> bool {
    &&& forall|k: int| 0 <= k < idx.len() ==> 0 <= #[trigger] idx[k] < pairs.len()
    &&& forall|k: int, l: int|
        0 <= k < l < idx.len() ==> (#[trigger] idx[k]) < (#[trigger] idx[l]) && pairs[idx[k]].1
            < pairs[idx[l]].1
}

/// The length of the longest rising chain among the pairs before `q` that
/// `c` can follow: the greatest depth of a pair before `q` whose second
/// place lies before that of `c`.
pub open spec fn deepest(pairs: Seq<(usize, usize)>, c: int, q: int) -> int
    decreases c, q,
{
    if c < 0 || q <= 0 || q > c {
        0
    } else {
        let rest = deepest(pairs, c, q - 1);
        if pairs[q - 1].1 < pairs[c].1 && depth(pairs, q - 1) > rest {
            depth(pairs, q - 1)
        } else {
            rest
        }
    }
}

/// The length of the longest rising chain that ends with pair `c`.
pub open spec fn depth(pairs: Seq<(usize, usize)>, c: int) -> int
    decreases c, c + 1,
{
    if c < 0 {
        0
    } else {
        1 + deepest(pairs, c, c)
    }
}

/// The length of the longest rising chain among the first `c` pairs.
pub open spec fn height(pairs: Seq<(usize, usize)>, c: int) -> int
    decreases c,
{
    if c <= 0 {
        0
    } else if depth(pairs, c - 1) > height(pairs, c - 1) {
        depth(pairs, c - 1)
    } else {
        height(pairs, c - 1)
    }
}

/// The last pair before `before` with depth `d`, or `-1` if there is none.
pub open spec fn last_with(pairs: Seq<(usize, usize)>, d: int, before: int) -> int
    decreases before,
{
    if before <= 0 {
        -1
    } else if depth(pairs, before - 1) == d {
        before - 1
    } else {
        last_with(pairs, d, before - 1)
    }
}

/// The chain that ends with the last pair of depth `d` before `before`,
/// back to front: that pair, then the last pair of depth `d - 1` before it,
/// and so on.
pub open spec fn trail(pairs: Seq<(usize, usize)>, d: int, before: int) -> Seq<(usize, usize)>
    decreases d,
{
    if d <= 0 || last_with(pairs, d, before) < 0 {
        Seq::empty()
    } else {
        seq![pairs[last_with(pairs, d, before)]] + trail(
            pairs,
            d - 1,
            last_with(pairs, d, before),
        )
    }
}

/// The longest rising chain of the pairs that patience sorting finds: of
/// the chains of greatest length, the one whose every pair is the last that
/// can stand at its place.
pub open spec fn chain_of(pairs: Seq<(usize, usize)>) -> Seq<(usize, usize)> {
    trail(pairs, height(pairs, pairs.len() as int), pairs.len() as int).reverse()
}

/// No pair lies deeper than nothing.
proof fn lemma_deepest_floor(pairs: Seq<(usize, usize)>, c: int, q: int)
    ensures
        0 <= deepest(pairs, c, q),
    decreases q,
{
    if !(c < 0 || q <= 0 || q > c) {
        lemma_deepest_floor(pairs, c, q - 1);
    }
}

/// A pair that can follow another lies deeper than it.
proof fn lemma_deepest_lower(pairs: Seq<(usize, usize)>, c: int, q: int, w: int)
    requires
        0 <= w < q <= c,
        pairs[w].1 < pairs[c].1,
    ensures
        deepest(pairs, c, q) >= depth(pairs, w),
    decreases q,
{
    if w < q - 1 {
        lemma_deepest_lower(pairs, c, q - 1, w);
    }
}

/// No pair lies deeper than one more than the pairs that it can follow.
proof fn lemma_deepest_upper(pairs: Seq<(usize, usize)>, c: int, q: int, p: int)
    requires
        0 <= q <= c,
        0 <= p,
        forall|w: int| 0 <= w < q && pairs[w].1 < pairs[c].1 ==> #[trigger] depth(pairs, w) <= p,
    ensures
        0 <= deepest(pairs, c, q) <= p,
    decreases q,
{
    if q > 0 {
        lemma_deepest_upper(pairs, c, q - 1, p);
        if pairs[q - 1].1 < pairs[c].1 {
            assert(depth(pairs, q - 1) <= p);
        }
    }
}

/// No pair among the first `c` lies deeper than their height.
proof fn lemma_height(pairs: Seq<(usize, usize)>, c: int, w: int)
    requires
        0 <= w < c,
    ensures
        depth(pairs, w) <= height(pairs, c),
    decreases c,
{
    if w < c - 1 {
        lemma_height(pairs, c - 1, w);
    }
}

/// The pairs of a rising chain lie ever deeper.
proof fn lemma_rising_depth(pairs: Seq<(usize, usize)>, idx: Seq<int>, k: int)
    requires
        is_rising(pairs, idx),
        0 <= k < idx.len(),
    ensures
        depth(pairs, idx[k]) >= k + 1,
    decreases k,
{
    if k > 0 {
        lemma_rising_depth(pairs, idx, k - 1);
        assert(idx[k - 1] < idx[k]);
        lemma_deepest_lower(pairs, idx[k], idx[k], idx[k - 1]);
    } else {
        lemma_deepest_floor(pairs, idx[0], idx[0]);
    }
}

/// No rising chain is longer than the height of the pairs.
proof fn lemma_rising_height(pairs: Seq<(usize, usize)>, idx: Seq<int>)
    requires
        is_rising(pairs, idx),
    ensures
        idx.len() <= height(pairs, pairs.len() as int),
{
    if idx.len() > 0 {
        let last = idx.len() - 1;
        lemma_rising_depth(pairs, idx, last);
        lemma_height(pairs, pairs.len() as int, idx[last]);
    } else {
        lemma_height_range(pairs, pairs.len() as int);
    }
}

/// The height is no less than nothing.
proof fn lemma_height_range(pairs: Seq<(usize, usize)>, c: int)
    ensures
        0 <= height(pairs, c),
    decreases c,
{
    if c > 0 {
        lemma_height_range(pairs, c - 1);
    }
}

/// What patience sorting has dealt of the first `c` pairs: a pile for every
/// depth, with the last pair of that depth on top, and for every pair the
/// pair that it comes from.
pub open spec fn dealt(
    pairs: Seq<(usize, usize)>,
    c: int,
    piles: Seq<usize>,
    back: Seq<Option<usize>>,
) -> bool {
    &&& back.len() == c
    &&& piles.len() == height(pairs, c)
    &&& forall|p: int|
        0 <= p < piles.len() ==> (#[trigger] piles[p]) < c && depth(pairs, piles[p] as int) == p
            + 1 && piles[p] == last_with(pairs, p + 1, c)
    &&& forall|k: int|
        0 <= k < c ==> match #[trigger] back[k] {
            Some(q) => q < k && pairs[q as int].1 < pairs[k].1 && q == last_with(
                pairs,
                depth(pairs, k) - 1,
                k,
            ),
            None => depth(pairs, k) == 1,
        }
}

/// What holds of the piles while the pairs are dealt: the tops rise, and
/// every pair lies no lower than the top of its pile.
pub open spec fn piles_sorted(pairs: Seq<(usize, usize)>, c: int, piles: Seq<usize>) -> bool {
    &&& forall|q: int, r: int|
        0 <= q < r < piles.len() ==> pairs[(#[trigger] piles[q]) as int].1 < pairs[(
        #[trigger] piles[r]) as int].1
    &&& forall|q: int|
        0 <= q < c ==> 1 <= #[trigger] depth(pairs, q) <= piles.len() && pairs[piles[depth(
            pairs,
            q,
        ) - 1] as int].1 <= pairs[q].1
}

/// The pair `c` goes on pile `p`: it lies one deeper than the number of piles before `p`.
proof fn lemma_card_depth(pairs: Seq<(usize, usize)>, c: int, piles: Seq<usize>, p: int)
    requires
        0 <= c < pairs.len(),
        0 <= p <= piles.len(),
        forall|k: int, l: int|
            0 <= k < l < pairs.len() ==> (#[trigger] pairs[k]).1 != (#[trigger] pairs[l]).1,
        forall|w: int|
            0 <= w < piles.len() ==> (#[trigger] piles[w]) < c && depth(pairs, piles[w] as int)
                == w + 1,
        piles_sorted(pairs, c, piles),
        forall|q: int| 0 <= q < p ==> pairs[(#[trigger] piles[q]) as int].1 <= pairs[c].1,
        forall|q: int| p <= q < piles.len() ==> pairs[(#[trigger] piles[q]) as int].1 > pairs[c].1,
    ensures
        depth(pairs, c) == p + 1,
{
    assert forall|w: int| 0 <= w < c && pairs[w].1 < pairs[c].1 implies #[trigger] depth(pairs, w)
        <= p by {
        let at = depth(pairs, w) - 1;
        assert(pairs[piles[at] as int].1 <= pairs[w].1);
    }
    lemma_deepest_upper(pairs, c, c, p);
    if p > 0 {
        let w = piles[p - 1] as int;
        assert(pairs[w].1 != pairs[c].1);
        lemma_deepest_lower(pairs, c, c, w);
    }
}

/// Deals the pairs onto piles, as patience sorting does.
fn deal(pairs: &Vec<(usize, usize)>) -> (r: (Vec<usize>, Vec<Option<usize>>))
    requires
        forall|k: int, l: int|
            0 <= k < l < pairs@.len() ==> (#[trigger] pairs@[k]).1 != (#[trigger] pairs@[l]).1,
    ensures
        dealt(pairs@, pairs@.len() as int, r.0@, r.1@),
{
    let count: usize = pairs.len();
    let mut piles: Vec<usize> = Vec::new();
    let mut back: Vec<Option<usize>> = Vec::new();
    let mut c: usize = 0;
    while c < count
        invariant
            count == pairs@.len(),
            c <= count,
            forall|k: int, l: int|
                0 <= k < l < pairs@.len() ==> (#[trigger] pairs@[k]).1 != (#[trigger] pairs@[l]).1,
            dealt(pairs@, c as int, piles@, back@),
            piles_sorted(pairs@, c as int, piles@),
        decreases count - c,
    {
        let j: usize = pairs[c].1;
        let p = pile_for(pairs, &piles, j);
        let before: Option<usize> = if p > 0 {
            Some(piles[p - 1])
        } else {
            None
        };
        let ghost old_piles = piles@;
        let ghost old_back = back@;
        proof {
            lemma_card_depth(pairs@, c as int, old_piles, p as int);
        }
        back.push(before);
        if p == piles.len() {
            piles.push(c);
        } else {
            piles.set(p, c);
        }
        proof {
            lemma_dealt_step(pairs@, c as int, old_piles, old_back, p as int, piles@, back@);
        }
        c = c + 1;
    }
    (piles, back)
}

/// The piles stay as they should when pair `c` has gone on pile `p`.
proof fn lemma_dealt_step(
    pairs: Seq<(usize, usize)>,
    c: int,
    old_piles: Seq<usize>,
    old_back: Seq<Option<usize>>,
    p: int,
    piles: Seq<usize>,
    back: Seq<Option<usize>>,
)
    requires
        0 <= c < pairs.len(),
        c <= usize::MAX,
        forall|k: int, l: int|
            0 <= k < l < pairs.len() ==> (#[trigger] pairs[k]).1 != (#[trigger] pairs[l]).1,
        dealt(pairs, c, old_piles, old_back),
        piles_sorted(pairs, c, old_piles),
        0 <= p <= old_piles.len(),
        forall|q: int| 0 <= q < p ==> pairs[(#[trigger] old_piles[q]) as int].1 <= pairs[c].1,
        forall|q: int|
            p <= q < old_piles.len() ==> pairs[(#[trigger] old_piles[q]) as int].1 > pairs[c].1,
        depth(pairs, c) == p + 1,
        back == old_back.push(
            if p > 0 {
                Some(old_piles[p - 1])
            } else {
                None
            },
        ),
        piles == (if p == old_piles.len() {
            old_piles.push(c as usize)
        } else {
            old_piles.update(p, c as usize)
        }),
    ensures
        dealt(pairs, c + 1, piles, back),
        piles_sorted(pairs, c + 1, piles),
{
    assert forall|w: int| 0 <= w < piles.len() implies (#[trigger] piles[w]) < c + 1 && depth(
        pairs,
        piles[w] as int,
    ) == w + 1 && piles[w] == last_with(pairs, w + 1, c + 1) by {
        if w != p {
            assert(piles[w] == old_piles[w]);
        }
    }
    assert forall|k: int| 0 <= k < c + 1 implies match #[trigger] back[k] {
        Some(q) => q < k && pairs[q as int].1 < pairs[k].1 && q == last_with(
            pairs,
            depth(pairs, k) - 1,
            k,
        ),
        None => depth(pairs, k) == 1,
    } by {
        if k < c {
            assert(back[k] == old_back[k]);
        } else if p > 0 {
            let w = old_piles[p - 1] as int;
            assert(pairs[w].1 != pairs[c].1);
        }
    }
    assert forall|q: int, r: int| 0 <= q < r < piles.len() implies pairs[(
    #[trigger] piles[q]) as int].1 < pairs[(#[trigger] piles[r]) as int].1 by {
        if q != p && r != p {
            assert(piles[q] == old_piles[q] && piles[r] == old_piles[r]);
        } else if r == p {
            assert(piles[q] == old_piles[q]);
            assert(pairs[old_piles[q] as int].1 != pairs[c].1);
        } else {
            assert(piles[r] == old_piles[r]);
            assert(pairs[old_piles[p] as int].1 < pairs[old_piles[r] as int].1);
        }
    }
    assert forall|q: int| 0 <= q < c + 1 implies 1 <= #[trigger] depth(pairs, q) <= piles.len()
        && pairs[piles[depth(pairs, q) - 1] as int].1 <= pairs[q].1 by {
        if q < c {
            let at = depth(pairs, q) - 1;
            if at != p {
                assert(piles[at] == old_piles[at]);
            } else {
                assert(pairs[old_piles[at] as int].1 <= pairs[q].1);
            }
        }
    }
}

/// What the last pair of a depth is.
proof fn lemma_last_with(pairs: Seq<(usize, usize)>, d: int, before: int)
    ensures
        last_with(pairs, d, before) < before || before <= 0,
        last_with(pairs, d, before) >= 0 ==> depth(pairs, last_with(pairs, d, before)) == d,
        -1 <= last_with(pairs, d, before),
    decreases before,
{
    if before > 0 && depth(pairs, before - 1) != d {
        lemma_last_with(pairs, d, before - 1);
    }
}

/// Follows the pairs back from the top of the last pile.
fn trace_back(pairs: &Vec<(usize, usize)>, piles: &Vec<usize>, back: &Vec<Option<usize>>) -> (rev:
    Vec<(usize, usize)>)
    requires
        dealt(pairs@, pairs@.len() as int, piles@, back@),
        forall|k: int, l: int|
            0 <= k < l < pairs@.len() ==> (#[trigger] pairs@[k]).0 < (#[trigger] pairs@[l]).0,
    ensures
        rev@ == trail(pairs@, height(pairs@, pairs@.len() as int), pairs@.len() as int),
        rev@.len() == height(pairs@, pairs@.len() as int),
        forall|k: int| 0 <= k < rev@.len() ==> pairs@.contains(#[trigger] rev@[k]),
        forall|k: int, l: int|
            0 <= k < l < rev@.len() ==> (#[trigger] rev@[k]).0 > (#[trigger] rev@[l]).0
                && rev@[k].1 > rev@[l].1,
{
    let count: usize = pairs.len();
    let ghost top = height(pairs@, count as int);
    let mut rev: Vec<(usize, usize)> = Vec::new();
    let mut cur: Option<usize> = if piles.len() > 0 {
        Some(piles[piles.len() - 1])
    } else {
        None
    };
    let ghost mut d: int = top;
    let ghost mut bound: int = count as int;
    proof {
        assert(rev@ + trail(pairs@, d, bound) =~= trail(pairs@, top, count as int));
    }
    while cur.is_some()
        invariant
            count == pairs@.len(),
            dealt(pairs@, count as int, piles@, back@),
            forall|k: int, l: int|
                0 <= k < l < pairs@.len() ==> (#[trigger] pairs@[k]).0 < (#[trigger] pairs@[l]).0,
            0 <= bound <= count,
            0 <= d,
            d + rev@.len() == top,
            rev@ + trail(pairs@, d, bound) == trail(pairs@, top, count as int),
            match cur {
                Some(q) => d >= 1 && q == last_with(pairs@, d, bound) && q < bound && depth(
                    pairs@,
                    q as int,
                ) == d,
                None => d == 0,
            },
            forall|k: int| 0 <= k < rev@.len() ==> pairs@.contains(#[trigger] rev@[k]),
            forall|k: int, l: int|
                0 <= k < l < rev@.len() ==> (#[trigger] rev@[k]).0 > (#[trigger] rev@[l]).0
                    && rev@[k].1 > rev@[l].1,
            match cur {
                Some(q) => forall|k: int|
                    0 <= k < rev@.len() ==> (#[trigger] rev@[k]).0 > pairs@[q as int].0 && rev@[k].1
                        > pairs@[q as int].1,
                None => true,
            },
        decreases bound,
    {
        let q: usize = cur.unwrap();
        let pair = pairs[q];
        let ghost before = rev@;
        proof {
            assert(pairs@[q as int] == pair);
            lemma_last_with(pairs@, d - 1, q as int);
            match back@[q as int] {
                Some(r) => {
                    assert(pairs@[r as int].0 < pairs@[q as int].0);
                    lemma_deepest_floor(pairs@, r as int, r as int);
                },
                None => {},
            }
            assert(trail(pairs@, d, bound) =~= seq![pair] + trail(pairs@, d - 1, q as int));
        }
        rev.push(pair);
        cur = back[q];
        proof {
            assert(rev@ + trail(pairs@, d - 1, q as int) =~= before + trail(pairs@, d, bound));
            d = d - 1;
            bound = q as int;
        }
    }
    proof {
        assert(rev@ + trail(pairs@, 0, bound) =~= rev@);
    }
    rev
}

/// A longest rising chain of the pairs, found by patience sorting on the second places.
fn rising_chain(pairs: &Vec<(usize, usize)>) -> (chain: Vec<(usize, usize)>)
    requires
        forall|k: int, l: int|
            0 <= k < l < pairs@.len() ==> (#[trigger] pairs@[k]).0 < (#[trigger] pairs@[l]).0
                && pairs@[k].1 != pairs@[l].1,
    ensures
        chain@ == chain_of(pairs@),
        forall|k: int| 0 <= k < chain@.len() ==> pairs@.contains(#[trigger] chain@[k]),
        forall|k: int, l: int|
            0 <= k < l < chain@.len() ==> (#[trigger] chain@[k]).0 < (#[trigger] chain@[l]).0
                && chain@[k].1 < chain@[l].1,
        forall|idx: Seq<int>| #[trigger] is_rising(pairs@, idx) ==> idx.len() <= chain@.len(),
{
    let dealing = deal(pairs);
    let rev = trace_back(pairs, &dealing.0, &dealing.1);
    let mut chain: Vec<(usize, usize)> = Vec::new();
    let mut k: usize = rev.len();
    while k > 0
        invariant
            k <= rev@.len(),
            chain@.len() == rev@.len() - k,
            forall|i: int| 0 <= i < chain@.len() ==> chain@[i] == rev@[rev@.len() - 1 - i],
        decreases k,
    {
        k = k - 1;
        chain.push(rev[k]);
    }
    proof {
        assert(chain@ =~= rev@.reverse());
        assert forall|idx: Seq<int>| #[trigger] is_rising(pairs@, idx) implies idx.len()
            <= chain@.len() by {
            lemma_rising_height(pairs@, idx);
        }
    }
    chain
}

/// The places in `pairs` of the pairs of a chain of anchors.
proof fn lemma_chain_places(
    pairs: Seq<(usize, usize)>,
    other: Seq<(usize, usize)>,
    a: Seq<usize>,
    b: Seq<usize>,
) -> (idx: Seq<int>)
    requires
        are_anchors(other, a, b),
        forall|k: int, l: int|
            0 <= k < l < pairs.len() ==> (#[trigger] pairs[k]).0 < (#[trigger] pairs[l]).0,
        forall|i: int, j: int|
            #[trigger] unique_at(a, i) && #[trigger] unique_at(b, j) && a[i] == b[j]
                ==> pairs.contains((i as usize, j as usize)),
    ensures
        idx.len() == other.len(),
        is_rising(pairs, idx),
{
    let idx = Seq::new(
        other.len(),
        |k: int| choose|w: int| 0 <= w < pairs.len() && pairs[w] == other[k],
    );
    assert forall|k: int| 0 <= k < idx.len() implies 0 <= #[trigger] idx[k] < pairs.len()
        && pairs[idx[k]] == other[k] by {
        let p = other[k];
        assert(unique_at(a, p.0 as int) && unique_at(b, p.1 as int));
        assert(pairs.contains((p.0 as int as usize, p.1 as int as usize)));
    }
    assert forall|k: int, l: int| 0 <= k < l < idx.len() implies (#[trigger] idx[k]) < (
    #[trigger] idx[l]) && pairs[idx[k]].1 < pairs[idx[l]].1 by {
        assert(pairs[idx[k]] == other[k]);
        assert(pairs[idx[l]] == other[l]);
        assert(other[k].0 < other[l].0);
        if idx[k] > idx[l] {
            assert(pairs[idx[l]].0 < pairs[idx[k]].0);
        }
    }
    idx
}

/// The anchors of a patience diff of `a` and `b`: of the tokens that occur
/// once on either side, the longest rising chain that patience sorting finds.
pub open spec fn anchors_of<T>(a: Seq<T>, b: Seq<T>) -> Seq<(usize, usize)> {
    chain_of(pairs_of(a, b))
}

/// The anchors of a patience diff of `a` and `b`: a longest chain of tokens
/// that occur once on either side and rise on both.
pub fn anchors(a: &[usize], b: &[usize]) -> (r: Vec<(usize, usize)>)
    ensures
        r@ == anchors_of(a@, b@),
        are_anchors(r@, a@, b@),
        forall|other: Seq<(usize, usize)>|
            #[trigger] are_anchors(other, a@, b@) ==> other.len() <= r@.len(),
{
    let pairs = unique_pairs(a, b);
    proof {
        assert forall|k: int, l: int| 0 <= k < l < pairs@.len() implies (#[trigger] pairs@[k]).0 < (
        #[trigger] pairs@[l]).0 && pairs@[k].1 != pairs@[l].1 by {
            let p = pairs@[k];
            let q = pairs@[l];
            assert(unique_at(a@, p.0 as int) && unique_at(a@, q.0 as int));
        }
    }
    let chain = rising_chain(&pairs);
    proof {
        assert forall|k: int| 0 <= k < chain@.len() implies {
            let p = #[trigger] chain@[k];
            &&& unique_at(a@, p.0 as int)
            &&& unique_at(b@, p.1 as int)
            &&& a@[p.0 as int] == b@[p.1 as int]
        } by {
            let p = chain@[k];
            assert(pairs@.contains(p));
            let w = choose|w: int| 0 <= w < pairs@.len() && pairs@[w] == p;
            assert(pairs@[w] == p);
        }
        assert forall|other: Seq<(usize, usize)>| #[trigger] are_anchors(
            other,
            a@,
            b@,
        ) implies other.len() <= chain@.len() by {
            let idx = lemma_chain_places(pairs@, other, a@, b@);
            assert(is_rising(pairs@, idx));
        }
    }
    chain
}

} // verus!
