//! Patience diffing: what the two sides share at their start and end is set
//! aside, the anchors of what lies between are paired, and the gaps between
//! the anchors are diffed in turn.
use vstd::prelude::*;
use vstd::slice::slice_subrange;
use crate::anchors::{anchors, anchors_of, are_anchors, lemma_pairs_relabel, unique_at};
use crate::myers::{lemma_myers_relabel, myers_steps};
use crate::lcs::lcs_len;
use crate::script::{
    grows, lemma_grows_keeps_pairs, lemma_grows_same, lemma_grows_trans, matched, pairs_with,
    with_edit, with_equal, ScriptBuilder,
};
use crate::types::DiffOp;

verus! {

/// The least place from `i` on at which `a` and `b` differ, or one of them ends.
pub open spec fn prefix_from<T>(a: Seq<T>, b: Seq<T>, i: int) -> int
    decreases a.len() - i,
{
    if 0 <= i < a.len() && i < b.len() && a[i] == b[i] {
        prefix_from(a, b, i + 1)
    } else {
        i
    }
}

/// How many leading tokens `a` and `b` share.
pub open spec fn shared_prefix<T>(a: Seq<T>, b: Seq<T>) -> int {
    prefix_from(a, b, 0)
}

/// The least number from `s` on of trailing tokens behind the first `pre`
/// at which `a` and `b` differ, or one of them is used up.
pub open spec fn suffix_from<T>(a: Seq<T>, b: Seq<T>, pre: int, s: int) -> int
    decreases a.len() - s,
{
    if 0 <= pre && 0 <= s < a.len() - pre && s < b.len() - pre && a[a.len() - 1 - s] == b[b.len()
        - 1 - s] {
        suffix_from(a, b, pre, s + 1)
    } else {
        s
    }
}

/// How many trailing tokens `a` and `b` share behind the leading tokens that they share.
pub open spec fn shared_suffix<T>(a: Seq<T>, b: Seq<T>) -> int {
    suffix_from(a, b, shared_prefix(a, b), 0)
}

/// What lies between the shared leading and the shared trailing tokens of `a`, with `b`.
pub open spec fn middle<T>(a: Seq<T>, b: Seq<T>) -> Seq<T> {
    a.subrange(shared_prefix(a, b), a.len() - shared_suffix(a, b))
}

/// How many leading tokens `a` and `b` share.
pub fn common_prefix(a: &[usize], b: &[usize]) -> (p: usize)
    ensures
        p == shared_prefix(a@, b@),
        p <= a@.len(),
        p <= b@.len(),
        forall|i: int| 0 <= i < p ==> a@[i] == b@[i],
        p == a@.len() || p == b@.len() || a@[p as int] != b@[p as int],
{
    let mut p: usize = 0;
    while p < a.len() && p < b.len() && a[p] == b[p]
        invariant
            p <= a@.len(),
            p <= b@.len(),
            forall|i: int| 0 <= i < p ==> a@[i] == b@[i],
            prefix_from(a@, b@, p as int) == shared_prefix(a@, b@),
        decreases a@.len() - p,
    {
        p = p + 1;
    }
    p
}

/// How many trailing tokens `a` and `b` share behind their first `pre` tokens.
pub fn common_suffix(a: &[usize], b: &[usize], pre: usize) -> (s: usize)
    requires
        pre <= a@.len(),
        pre <= b@.len(),
    ensures
        s == suffix_from(a@, b@, pre as int, 0),
        pre + s <= a@.len(),
        pre + s <= b@.len(),
        forall|p: int|
            a@.len() - s <= p < a@.len() ==> #[trigger] a@[p] == b@[p - a@.len() + b@.len()],
{
    let n: usize = a.len();
    let m: usize = b.len();
    let mut s: usize = 0;
    while s < n - pre && s < m - pre && a[n - 1 - s] == b[m - 1 - s]
        invariant
            n == a@.len(),
            m == b@.len(),
            pre <= n,
            pre <= m,
            s <= n - pre,
            s <= m - pre,
            forall|p: int| n - s <= p < n ==> #[trigger] a@[p] == b@[p - n + m],
            suffix_from(a@, b@, pre as int, s as int) == suffix_from(a@, b@, pre as int, 0),
        decreases n - s,
    {
        s = s + 1;
    }
    s
}

/// The shared leading and trailing tokens are the same whichever side is named first.
pub proof fn lemma_sides_swap<T>(a: Seq<T>, b: Seq<T>)
    ensures
        shared_prefix(b, a) == shared_prefix(a, b),
        shared_suffix(b, a) == shared_suffix(a, b),
        0 <= shared_prefix(a, b),
        0 <= shared_suffix(a, b),
        shared_prefix(a, b) + shared_suffix(a, b) <= a.len(),
        shared_prefix(a, b) + shared_suffix(a, b) <= b.len(),
{
    lemma_prefix_swap(a, b, 0);
    lemma_suffix_swap(a, b, shared_prefix(a, b), 0);
}

/// A sequence shares all its tokens with itself.
proof fn lemma_prefix_self<T>(a: Seq<T>, i: int)
    requires
        0 <= i <= a.len(),
    ensures
        prefix_from(a, a, i) == a.len(),
    decreases a.len() - i,
{
    if i < a.len() {
        lemma_prefix_self(a, i + 1);
    }
}

/// The shared leading tokens from `i` on are the same whichever side is named first.
proof fn lemma_prefix_swap<T>(a: Seq<T>, b: Seq<T>, i: int)
    requires
        0 <= i <= a.len(),
        i <= b.len(),
    ensures
        prefix_from(b, a, i) == prefix_from(a, b, i),
        i <= prefix_from(a, b, i) <= a.len(),
        prefix_from(a, b, i) <= b.len(),
    decreases a.len() - i,
{
    if i < a.len() && i < b.len() && a[i] == b[i] {
        lemma_prefix_swap(a, b, i + 1);
    }
}

/// The shared trailing tokens are the same whichever side is named first.
proof fn lemma_suffix_swap<T>(a: Seq<T>, b: Seq<T>, pre: int, s: int)
    requires
        0 <= pre,
        0 <= s,
        pre + s <= a.len(),
        pre + s <= b.len(),
    ensures
        suffix_from(b, a, pre, s) == suffix_from(a, b, pre, s),
        s <= suffix_from(a, b, pre, s),
        pre + suffix_from(a, b, pre, s) <= a.len(),
        pre + suffix_from(a, b, pre, s) <= b.len(),
    decreases a.len() - s,
{
    if s < a.len() - pre && s < b.len() - pre && a[a.len() - 1 - s] == b[b.len() - 1 - s] {
        lemma_suffix_swap(a, b, pre, s + 1);
    }
}

/// Two pairs of sequences in which the same places hold equal tokens: across
/// the two sides, and within each side.
pub open spec fn same_pattern<S, T>(a: Seq<S>, b: Seq<S>, c: Seq<T>, d: Seq<T>) -> bool {
    &&& a.len() == c.len()
    &&& b.len() == d.len()
    &&& forall|x: int, y: int|
        #![trigger a[x], b[y]]
        0 <= x < a.len() && 0 <= y < b.len() ==> ((a[x] == b[y]) <==> (c[x] == d[y]))
    &&& forall|x: int, y: int|
        #![trigger a[x], a[y]]
        0 <= x < a.len() && 0 <= y < a.len() ==> ((a[x] == a[y]) <==> (c[x] == c[y]))
    &&& forall|x: int, y: int|
        #![trigger b[x], b[y]]
        0 <= x < b.len() && 0 <= y < b.len() ==> ((b[x] == b[y]) <==> (d[x] == d[y]))
}

/// The shared leading tokens depend only on which tokens are equal to which.
proof fn lemma_prefix_relabel<S, T>(a: Seq<S>, b: Seq<S>, c: Seq<T>, d: Seq<T>, i: int)
    requires
        same_pattern(a, b, c, d),
        0 <= i,
    ensures
        prefix_from(a, b, i) == prefix_from(c, d, i),
    decreases a.len() - i,
{
    if i < a.len() && i < b.len() {
        assert((a[i] == b[i]) <==> (c[i] == d[i]));
        if a[i] == b[i] {
            lemma_prefix_relabel(a, b, c, d, i + 1);
        }
    }
}

/// The shared trailing tokens depend only on which tokens are equal to which.
proof fn lemma_suffix_relabel<S, T>(a: Seq<S>, b: Seq<S>, c: Seq<T>, d: Seq<T>, pre: int, s: int)
    requires
        same_pattern(a, b, c, d),
        0 <= s,
    ensures
        suffix_from(a, b, pre, s) == suffix_from(c, d, pre, s),
    decreases a.len() - s,
{
    if 0 <= pre && s < a.len() - pre && s < b.len() - pre {
        let x = a.len() - 1 - s;
        let y = b.len() - 1 - s;
        assert((a[x] == b[y]) <==> (c[x] == d[y]));
        if a[x] == b[y] {
            lemma_suffix_relabel(a, b, c, d, pre, s + 1);
        }
    }
}

/// What Patience looks at depends only on which tokens are equal to which:
/// the shared leading and trailing tokens, the anchors of what lies between,
/// and what that shares.
pub proof fn lemma_patience_relabel<S, T>(a: Seq<S>, b: Seq<S>, c: Seq<T>, d: Seq<T>)
    requires
        same_pattern(a, b, c, d),
    ensures
        shared_prefix(a, b) == shared_prefix(c, d),
        shared_suffix(a, b) == shared_suffix(c, d),
        forall|chain: Seq<(usize, usize)>|
            #[trigger] are_anchors(chain, middle(a, b), middle(b, a)) <==> #[trigger] are_anchors(
                chain,
                middle(c, d),
                middle(d, c),
            ),
        crate::lcs::lcs_len(middle(a, b), middle(b, a)) == crate::lcs::lcs_len(
            middle(c, d),
            middle(d, c),
        ),
{
    lemma_prefix_relabel(a, b, c, d, 0);
    lemma_suffix_relabel(a, b, c, d, shared_prefix(a, b), 0);
    lemma_sides_swap(a, b);
    lemma_sides_swap(c, d);
    let pre = shared_prefix(a, b);
    let suf = shared_suffix(a, b);
    let ma = middle(a, b);
    let mb = middle(b, a);
    let mc = middle(c, d);
    let md = middle(d, c);
    assert forall|x: int, y: int|
        #![trigger ma[x], mb[y]]
        0 <= x < ma.len() && 0 <= y < mb.len() implies ((ma[x] == mb[y]) <==> (mc[x] == md[y])) by {
        assert((a[pre + x] == b[pre + y]) <==> (c[pre + x] == d[pre + y]));
    }
    assert forall|x: int, y: int|
        #![trigger ma[x], ma[y]]
        0 <= x < ma.len() && 0 <= y < ma.len() implies ((ma[x] == ma[y]) <==> (mc[x] == mc[y])) by {
        assert((a[pre + x] == a[pre + y]) <==> (c[pre + x] == c[pre + y]));
    }
    assert forall|x: int, y: int|
        #![trigger mb[x], mb[y]]
        0 <= x < mb.len() && 0 <= y < mb.len() implies ((mb[x] == mb[y]) <==> (md[x] == md[y])) by {
        assert((b[pre + x] == b[pre + y]) <==> (d[pre + x] == d[pre + y]));
    }
    crate::lcs::lemma_lcs_relabel(ma, mb, mc, md, 0, 0);
    assert forall|chain: Seq<(usize, usize)>| #[trigger]
        are_anchors(chain, ma, mb) <==> #[trigger] are_anchors(chain, mc, md) by {
        if are_anchors(chain, ma, mb) {
            lemma_anchors_relabel(chain, ma, mb, mc, md);
        }
        if are_anchors(chain, mc, md) {
            lemma_anchors_relabel(chain, mc, md, ma, mb);
        }
    }
}

/// Anchors stay anchors when the tokens are exchanged for others that are
/// equal exactly where the first were.
proof fn lemma_anchors_relabel<S, T>(
    chain: Seq<(usize, usize)>,
    a: Seq<S>,
    b: Seq<S>,
    c: Seq<T>,
    d: Seq<T>,
)
    requires
        a.len() == c.len(),
        b.len() == d.len(),
        forall|x: int, y: int|
            #![trigger a[x], b[y]]
            0 <= x < a.len() && 0 <= y < b.len() ==> ((a[x] == b[y]) <==> (c[x] == d[y])),
        forall|x: int, y: int|
            #![trigger a[x], a[y]]
            0 <= x < a.len() && 0 <= y < a.len() ==> ((a[x] == a[y]) <==> (c[x] == c[y])),
        forall|x: int, y: int|
            #![trigger b[x], b[y]]
            0 <= x < b.len() && 0 <= y < b.len() ==> ((b[x] == b[y]) <==> (d[x] == d[y])),
        are_anchors(chain, a, b),
    ensures
        are_anchors(chain, c, d),
{
    assert forall|k: int| 0 <= k < chain.len() implies {
        let p = #[trigger] chain[k];
        &&& unique_at(c, p.0 as int)
        &&& unique_at(d, p.1 as int)
        &&& c[p.0 as int] == d[p.1 as int]
    } by {
        let p = chain[k];
        let i = p.0 as int;
        let j = p.1 as int;
        assert(unique_at(a, i) && unique_at(b, j));
        assert((a[i] == b[j]) <==> (c[i] == d[j]));
        assert forall|w: int| 0 <= w < c.len() && c[w] == c[i] implies w == i by {
            assert((a[w] == a[i]) <==> (c[w] == c[i]));
        }
        assert forall|w: int| 0 <= w < d.len() && d[w] == d[j] implies w == j by {
            assert((b[w] == b[j]) <==> (d[w] == d[j]));
        }
    }
}

/// Where the gap before anchor `k` of the chain starts: behind the anchor before it.
pub open spec fn gap_start(chain: Seq<(usize, usize)>, k: int) -> (int, int) {
    if k <= 0 {
        (0, 0)
    } else {
        (chain[k - 1].0 + 1, chain[k - 1].1 + 1)
    }
}

/// The script `ops`, grown by the Patience script from `a` to `b`: what the
/// two share at their start is equal, then comes what lies between, and
/// what the two share at their end is equal. The tokens stand at `(x0, y0)`
/// in the sequences that the script speaks of.
pub open spec fn patience_steps<T>(a: Seq<T>, b: Seq<T>, x0: int, y0: int, ops: Seq<DiffOp>) -> Seq<
    DiffOp,
>
    decreases a.len() + b.len(), 2nat, 0nat,
{
    let pre = shared_prefix(a, b);
    let suf = shared_suffix(a, b);
    if 0 <= pre && 0 <= suf && pre + suf <= a.len() && pre + suf <= b.len() {
        with_equal(
            middle_steps(
                a.subrange(pre, a.len() - suf),
                b.subrange(pre, b.len() - suf),
                x0 + pre,
                y0 + pre,
                with_equal(ops, x0, y0, pre),
            ),
            x0 + a.len() - suf,
            y0 + b.len() - suf,
            suf,
        )
    } else {
        ops
    }
}

/// The script `ops`, grown by the Patience script of what lies between
/// the shared ends. Where one side is empty, the other is removed or added.
/// Where there are anchors, the gap before every anchor is diffed in the
/// same way and the anchor is equal, and the gap behind the last anchor is
/// diffed. Where there is none, the Myers script follows.
pub open spec fn middle_steps<T>(a: Seq<T>, b: Seq<T>, x0: int, y0: int, ops: Seq<DiffOp>) -> Seq<
    DiffOp,
>
    decreases a.len() + b.len(), 1nat, 0nat,
{
    let chain = anchors_of(a, b);
    let from = gap_start(chain, chain.len() as int);
    if a.len() == 0 || b.len() == 0 {
        with_edit(ops, x0, y0, a.len() as int, b.len() as int)
    } else if chain.len() == 0 {
        myers_steps(a, b, x0, y0, ops)
    } else if from.0 <= a.len() && from.1 <= b.len() {
        patience_steps(
            a.subrange(from.0, a.len() as int),
            b.subrange(from.1, b.len() as int),
            x0 + from.0,
            y0 + from.1,
            between_steps(a, b, x0, y0, chain, chain.len() as int, ops),
        )
    } else {
        ops
    }
}

/// The script `ops`, grown by the gaps before the first `k` anchors of the
/// chain and by those anchors.
pub open spec fn between_steps<T>(
    a: Seq<T>,
    b: Seq<T>,
    x0: int,
    y0: int,
    chain: Seq<(usize, usize)>,
    k: int,
    ops: Seq<DiffOp>,
) -> Seq<DiffOp>
    decreases a.len() + b.len(), 0nat, k,
{
    if k <= 0 || k > chain.len() {
        ops
    } else {
        let from = gap_start(chain, k - 1);
        let mark = chain[k - 1];
        if 0 <= from.0 <= mark.0 < a.len() && 0 <= from.1 <= mark.1 < b.len() {
            with_equal(
                patience_steps(
                    a.subrange(from.0, mark.0 as int),
                    b.subrange(from.1, mark.1 as int),
                    x0 + from.0,
                    y0 + from.1,
                    between_steps(a, b, x0, y0, chain, k - 1, ops),
                ),
                x0 + mark.0,
                y0 + mark.1,
                1,
            )
        } else {
            ops
        }
    }
}

/// The Patience script from `a` to `b`.
pub open spec fn patience_script<T>(a: Seq<T>, b: Seq<T>) -> Seq<DiffOp> {
    patience_steps(a, b, 0, 0, Seq::empty())
}

/// Parts of two pairs of sequences with the same pattern have the same pattern.
proof fn lemma_pattern_part<S, T>(
    a: Seq<S>,
    b: Seq<S>,
    c: Seq<T>,
    d: Seq<T>,
    ax: int,
    ay: int,
    bx: int,
    by: int,
)
    requires
        same_pattern(a, b, c, d),
        0 <= ax <= ay <= a.len(),
        0 <= bx <= by <= b.len(),
    ensures
        same_pattern(a.subrange(ax, ay), b.subrange(bx, by), c.subrange(ax, ay), d.subrange(bx, by)),
{
    let a1 = a.subrange(ax, ay);
    let b1 = b.subrange(bx, by);
    let c1 = c.subrange(ax, ay);
    let d1 = d.subrange(bx, by);
    assert forall|x: int, y: int|
        #![trigger a1[x], b1[y]]
        0 <= x < a1.len() && 0 <= y < b1.len() implies ((a1[x] == b1[y]) <==> (c1[x] == d1[y])) by {
        assert((a[ax + x] == b[bx + y]) <==> (c[ax + x] == d[bx + y]));
    }
    assert forall|x: int, y: int|
        #![trigger a1[x], a1[y]]
        0 <= x < a1.len() && 0 <= y < a1.len() implies ((a1[x] == a1[y]) <==> (c1[x] == c1[y])) by {
        assert((a[ax + x] == a[ax + y]) <==> (c[ax + x] == c[ax + y]));
    }
    assert forall|x: int, y: int|
        #![trigger b1[x], b1[y]]
        0 <= x < b1.len() && 0 <= y < b1.len() implies ((b1[x] == b1[y]) <==> (d1[x] == d1[y])) by {
        assert((b[bx + x] == b[bx + y]) <==> (d[bx + x] == d[bx + y]));
    }
}

/// The Patience script depends only on which tokens are equal to which.
pub proof fn lemma_patience_steps_relabel<S, T>(
    a: Seq<S>,
    b: Seq<S>,
    c: Seq<T>,
    d: Seq<T>,
    x0: int,
    y0: int,
    ops: Seq<DiffOp>,
)
    requires
        same_pattern(a, b, c, d),
        a.len() + b.len() < usize::MAX,
    ensures
        patience_steps(a, b, x0, y0, ops) == patience_steps(c, d, x0, y0, ops),
    decreases a.len() + b.len(), 2nat, 0nat,
{
    lemma_patience_relabel(a, b, c, d);
    lemma_sides_swap(a, b);
    let pre = shared_prefix(a, b);
    let suf = shared_suffix(a, b);
    lemma_pattern_part(a, b, c, d, pre, a.len() - suf, pre, b.len() - suf);
    lemma_middle_steps_relabel(
        a.subrange(pre, a.len() - suf),
        b.subrange(pre, b.len() - suf),
        c.subrange(pre, c.len() - suf),
        d.subrange(pre, d.len() - suf),
        x0 + pre,
        y0 + pre,
        with_equal(ops, x0, y0, pre),
    );
}

/// The script of what lies between depends only on which tokens are equal to which.
proof fn lemma_middle_steps_relabel<S, T>(
    a: Seq<S>,
    b: Seq<S>,
    c: Seq<T>,
    d: Seq<T>,
    x0: int,
    y0: int,
    ops: Seq<DiffOp>,
)
    requires
        same_pattern(a, b, c, d),
        a.len() + b.len() < usize::MAX,
    ensures
        middle_steps(a, b, x0, y0, ops) == middle_steps(c, d, x0, y0, ops),
    decreases a.len() + b.len(), 1nat, 0nat,
{
    lemma_pairs_relabel(a, b, c, d, a.len() as int);
    let chain = anchors_of(a, b);
    let from = gap_start(chain, chain.len() as int);
    if a.len() == 0 || b.len() == 0 {
    } else if chain.len() == 0 {
        lemma_myers_relabel(a, b, c, d, x0, y0, ops);
    } else if from.0 <= a.len() && from.1 <= b.len() {
        lemma_between_steps_relabel(a, b, c, d, x0, y0, chain, chain.len() as int, ops);
        lemma_pattern_part(a, b, c, d, from.0, a.len() as int, from.1, b.len() as int);
        lemma_patience_steps_relabel(
            a.subrange(from.0, a.len() as int),
            b.subrange(from.1, b.len() as int),
            c.subrange(from.0, c.len() as int),
            d.subrange(from.1, d.len() as int),
            x0 + from.0,
            y0 + from.1,
            between_steps(a, b, x0, y0, chain, chain.len() as int, ops),
        );
    }
}

/// The script along the anchors depends only on which tokens are equal to which.
proof fn lemma_between_steps_relabel<S, T>(
    a: Seq<S>,
    b: Seq<S>,
    c: Seq<T>,
    d: Seq<T>,
    x0: int,
    y0: int,
    chain: Seq<(usize, usize)>,
    k: int,
    ops: Seq<DiffOp>,
)
    requires
        same_pattern(a, b, c, d),
        a.len() + b.len() < usize::MAX,
    ensures
        between_steps(a, b, x0, y0, chain, k, ops) == between_steps(c, d, x0, y0, chain, k, ops),
    decreases a.len() + b.len(), 0nat, k,
{
    if !(k <= 0 || k > chain.len()) {
        let from = gap_start(chain, k - 1);
        let mark = chain[k - 1];
        if 0 <= from.0 <= mark.0 < a.len() && 0 <= from.1 <= mark.1 < b.len() {
            lemma_between_steps_relabel(a, b, c, d, x0, y0, chain, k - 1, ops);
            lemma_pattern_part(a, b, c, d, from.0, mark.0 as int, from.1, mark.1 as int);
            lemma_patience_steps_relabel(
                a.subrange(from.0, mark.0 as int),
                b.subrange(from.1, mark.1 as int),
                c.subrange(from.0, mark.0 as int),
                d.subrange(from.1, mark.1 as int),
                x0 + from.0,
                y0 + from.1,
                between_steps(a, b, x0, y0, chain, k - 1, ops),
            );
        }
    }
}

/// Appends `len` tokens that are the same in `a` from `x` on and in `b` from `y` on.
fn push_equal(
    builder: &mut ScriptBuilder,
    a: &[usize],
    b: &[usize],
    x: usize,
    y: usize,
    len: usize,
    Ghost(base_a): Ghost<int>,
    Ghost(base_b): Ghost<int>,
)
    requires
        old(builder).wf(),
        0 <= base_a,
        0 <= base_b,
        base_a + a@.len() <= old(builder).a@.len(),
        base_b + b@.len() <= old(builder).b@.len(),
        a@ == old(builder).a@.subrange(base_a, base_a + a@.len()),
        b@ == old(builder).b@.subrange(base_b, base_b + b@.len()),
        old(builder).old_pos == base_a + x,
        old(builder).new_pos == base_b + y,
        x + len <= a@.len(),
        y + len <= b@.len(),
        forall|p: int| x <= p < x + len ==> #[trigger] a@[p] == b@[p - x + y],
    ensures
        final(builder).wf(),
        final(builder).a@ == old(builder).a@,
        final(builder).b@ == old(builder).b@,
        final(builder).old_pos == old(builder).old_pos + len,
        final(builder).new_pos == old(builder).new_pos + len,
        matched(final(builder).ops@) == matched(old(builder).ops@) + len,
        grows(old(builder).ops@, final(builder).ops@),
        forall|p: int, q: int|
            base_a + x <= p < base_a + x + len && q == p - (base_a + x) + (base_b + y)
                ==> #[trigger] pairs_with(final(builder).ops@, p, q),
        final(builder).ops@ == with_equal(
            old(builder).ops@,
            base_a + x,
            base_b + y,
            len as int,
        ),
{
    proof {
        let big_a = builder.a@;
        let big_b = builder.b@;
        assert forall|p: int| base_a + x <= p < base_a + x + len implies #[trigger] big_a[p] == big_b[p - (
        base_a + x) + (base_b + y)] by {
            assert(a@[p - base_a] == big_a[p]);
            assert(b@[p - base_a - x + y] == big_b[p - base_a - x + y + base_b]);
        }
    }
    builder.equal(len);
}

/// Appends to `builder` the script of the gap that ends before the anchor
/// `mark`, and the anchor itself. The gap starts at `(x, y)`.
fn diff_to_mark(
    builder: &mut ScriptBuilder,
    a: &[usize],
    b: &[usize],
    x: usize,
    y: usize,
    mark: (usize, usize),
    Ghost(base_a): Ghost<int>,
    Ghost(base_b): Ghost<int>,
)
    requires
        old(builder).wf(),
        a@.len() + b@.len() < usize::MAX,
        0 <= base_a,
        0 <= base_b,
        base_a + a@.len() <= old(builder).a@.len(),
        base_b + b@.len() <= old(builder).b@.len(),
        a@ == old(builder).a@.subrange(base_a, base_a + a@.len()),
        b@ == old(builder).b@.subrange(base_b, base_b + b@.len()),
        old(builder).old_pos == base_a + x,
        old(builder).new_pos == base_b + y,
        x <= mark.0 < a@.len(),
        y <= mark.1 < b@.len(),
        a@[mark.0 as int] == b@[mark.1 as int],
    ensures
        final(builder).wf(),
        final(builder).a@ == old(builder).a@,
        final(builder).b@ == old(builder).b@,
        final(builder).old_pos == base_a + mark.0 + 1,
        final(builder).new_pos == base_b + mark.1 + 1,
        matched(final(builder).ops@) >= matched(old(builder).ops@) + 1,
        grows(old(builder).ops@, final(builder).ops@),
        pairs_with(final(builder).ops@, base_a + mark.0, base_b + mark.1),
        final(builder).ops@ == with_equal(
            patience_steps(
                a@.subrange(x as int, mark.0 as int),
                b@.subrange(y as int, mark.1 as int),
                base_a + x,
                base_b + y,
                old(builder).ops@,
            ),
            base_a + mark.0,
            base_b + mark.1,
            1,
        ),
    decreases a@.len() + b@.len(), 0nat,
{
    let ghost big_a = builder.a@;
    let ghost big_b = builder.b@;
    let gap_a = slice_subrange(a, x, mark.0);
    let gap_b = slice_subrange(b, y, mark.1);
    assert(gap_a@ =~= big_a.subrange(base_a + x, base_a + x + gap_a@.len()));
    assert(gap_b@ =~= big_b.subrange(base_b + y, base_b + y + gap_b@.len()));
    diff_into(builder, gap_a, gap_b);
    let ghost filled = builder.ops@;
    push_equal(builder, a, b, mark.0, mark.1, 1, Ghost(base_a), Ghost(base_b));
    proof {
        lemma_grows_trans(old(builder).ops@, filled, builder.ops@);
    }
}

/// Appends to `builder` a script from `a` to `b` along the anchors `marks`:
/// the gap before every anchor is diffed, the anchor is equal, and the gap
/// behind the last anchor is diffed.
fn diff_between(
    builder: &mut ScriptBuilder,
    a: &[usize],
    b: &[usize],
    marks: &Vec<(usize, usize)>,
)
    requires
        old(builder).wf(),
        a@.len() + b@.len() < usize::MAX,
        old(builder).old_pos + a@.len() <= old(builder).a@.len(),
        old(builder).new_pos + b@.len() <= old(builder).b@.len(),
        a@ == old(builder).a@.subrange(
            old(builder).old_pos as int,
            old(builder).old_pos + a@.len(),
        ),
        b@ == old(builder).b@.subrange(
            old(builder).new_pos as int,
            old(builder).new_pos + b@.len(),
        ),
        marks@.len() > 0,
        are_anchors(marks@, a@, b@),
    ensures
        final(builder).wf(),
        final(builder).a@ == old(builder).a@,
        final(builder).b@ == old(builder).b@,
        final(builder).old_pos == old(builder).old_pos + a@.len(),
        final(builder).new_pos == old(builder).new_pos + b@.len(),
        matched(final(builder).ops@) >= matched(old(builder).ops@) + marks@.len(),
        grows(old(builder).ops@, final(builder).ops@),
        forall|k: int|
            0 <= k < marks@.len() ==> pairs_with(
                final(builder).ops@,
                old(builder).old_pos + (#[trigger] marks@[k]).0,
                old(builder).new_pos + marks@[k].1,
            ),
        final(builder).ops@ == patience_steps(
            a@.subrange(gap_start(marks@, marks@.len() as int).0, a@.len() as int),
            b@.subrange(gap_start(marks@, marks@.len() as int).1, b@.len() as int),
            old(builder).old_pos + gap_start(marks@, marks@.len() as int).0,
            old(builder).new_pos + gap_start(marks@, marks@.len() as int).1,
            between_steps(
                a@,
                b@,
                old(builder).old_pos as int,
                old(builder).new_pos as int,
                marks@,
                marks@.len() as int,
                old(builder).ops@,
            ),
        ),
    decreases a@.len() + b@.len(), 1nat,
{
    let n: usize = a.len();
    let m: usize = b.len();
    let ghost big_a = builder.a@;
    let ghost big_b = builder.b@;
    let ghost base_a = builder.old_pos as int;
    let ghost base_b = builder.new_pos as int;
    let mut x: usize = 0;
    let mut y: usize = 0;
    let mut k: usize = 0;
    proof {
        lemma_grows_same(builder.ops@);
    }
    while k < marks.len()
        invariant
            k <= marks@.len(),
            marks@.len() > 0,
            are_anchors(marks@, a@, b@),
            n == a@.len(),
            m == b@.len(),
            n + m < usize::MAX,
            x <= n,
            y <= m,
            k < marks@.len() ==> x <= marks@[k as int].0 && y <= marks@[k as int].1,
            (x as int, y as int) == gap_start(marks@, k as int),
            builder.wf(),
            builder.a@ == big_a,
            builder.b@ == big_b,
            0 <= base_a,
            0 <= base_b,
            builder.old_pos == base_a + x,
            builder.new_pos == base_b + y,
            base_a + n <= big_a.len(),
            base_b + m <= big_b.len(),
            a@ == big_a.subrange(base_a, base_a + n),
            b@ == big_b.subrange(base_b, base_b + m),
            matched(builder.ops@) >= matched(old(builder).ops@) + k,
            grows(old(builder).ops@, builder.ops@),
            forall|w: int|
                0 <= w < k ==> pairs_with(
                    builder.ops@,
                    base_a + (#[trigger] marks@[w]).0,
                    base_b + marks@[w].1,
                ),
            builder.ops@ == between_steps(
                a@,
                b@,
                base_a,
                base_b,
                marks@,
                k as int,
                old(builder).ops@,
            ),
        decreases marks@.len() - k,
    {
        let ghost before = builder.ops@;
        let mark = marks[k];
        proof {
            assert(unique_at(a@, mark.0 as int) && unique_at(b@, mark.1 as int));
        }
        diff_to_mark(builder, a, b, x, y, mark, Ghost(base_a), Ghost(base_b));
        proof {
            lemma_grows_trans(old(builder).ops@, before, builder.ops@);
            assert forall|w: int| 0 <= w < k + 1 implies pairs_with(
                builder.ops@,
                base_a + (#[trigger] marks@[w]).0,
                base_b + marks@[w].1,
            ) by {
                if w < k {
                    lemma_grows_keeps_pairs(
                        before,
                        builder.ops@,
                        base_a + marks@[w].0,
                        base_b + marks@[w].1,
                    );
                }
            }
        }
        x = mark.0 + 1;
        y = mark.1 + 1;
        k = k + 1;
    }
    let ghost anchored = builder.ops@;
    let gap_a = slice_subrange(a, x, n);
    let gap_b = slice_subrange(b, y, m);
    assert(gap_a@ =~= big_a.subrange(base_a + x, base_a + x + gap_a@.len()));
    assert(gap_b@ =~= big_b.subrange(base_b + y, base_b + y + gap_b@.len()));
    diff_into(builder, gap_a, gap_b);
    proof {
        lemma_grows_trans(old(builder).ops@, anchored, builder.ops@);
        assert forall|w: int| 0 <= w < marks@.len() implies pairs_with(
            builder.ops@,
            base_a + (#[trigger] marks@[w]).0,
            base_b + marks@[w].1,
        ) by {
            lemma_grows_keeps_pairs(
                anchored,
                builder.ops@,
                base_a + marks@[w].0,
                base_b + marks@[w].1,
            );
        }
    }
}

/// A Patience script pairs what the two sides share at their start and end,
/// place by place, and the anchors of a longest chain of what lies between.
/// The tokens stand at `(x0, y0)` in the sequences that the script speaks of.
#[verifier::opaque]
pub open spec fn pairs_anchors<T>(ops: Seq<DiffOp>, a: Seq<T>, b: Seq<T>, x0: int, y0: int) -> bool {
    &&& forall|p: int, q: int|
        x0 <= p < x0 + shared_prefix(a, b) && q == p - x0 + y0 ==> #[trigger] pairs_with(ops, p, q)
    &&& forall|p: int, q: int|
        x0 + a.len() - shared_suffix(a, b) <= p < x0 + a.len() && q == p - (x0 + a.len()) + (y0
            + b.len()) ==> #[trigger] pairs_with(ops, p, q)
    &&& exists|chain: Seq<(usize, usize)>|
        {
            &&& #[trigger] are_anchors(chain, middle(a, b), middle(b, a))
            &&& forall|other: Seq<(usize, usize)>|
                #[trigger] are_anchors(other, middle(a, b), middle(b, a)) ==> other.len()
                    <= chain.len()
            &&& forall|k: int|
                0 <= k < chain.len() ==> pairs_with(
                    ops,
                    x0 + shared_prefix(a, b) + (#[trigger] chain[k]).0,
                    y0 + shared_prefix(a, b) + chain[k].1,
                )
        }
}

/// A Patience script that declares `gain` tokens equal declares equal what
/// the two sides share at their start and end, and of what lies between at
/// least as many tokens as the longest chain of anchors holds; without an
/// anchor, as many as the longest common subsequence of what lies between.
#[verifier::opaque]
pub open spec fn counts_anchors<T>(gain: int, a: Seq<T>, b: Seq<T>) -> bool {
    &&& forall|chain: Seq<(usize, usize)>|
        #[trigger] are_anchors(chain, middle(a, b), middle(b, a)) ==> gain >= shared_prefix(a, b)
            + shared_suffix(a, b) + chain.len()
    &&& (forall|chain: Seq<(usize, usize)>|
        #[trigger] are_anchors(chain, middle(a, b), middle(b, a)) ==> chain.len() == 0) ==> gain
        == shared_prefix(a, b) + shared_suffix(a, b) + lcs_len(middle(a, b), middle(b, a))
}

/// What a script is that Patience has made.
pub open spec fn is_patience_script<T>(ops: Seq<DiffOp>, a: Seq<T>, b: Seq<T>) -> bool {
    counts_anchors(matched(ops) as int, a, b) && pairs_anchors(ops, a, b, 0, 0)
}

/// What Patience makes of sequences depends only on which tokens are equal to which.
pub proof fn lemma_patience_script_relabel<S, T>(
    ops: Seq<DiffOp>,
    a: Seq<S>,
    b: Seq<S>,
    c: Seq<T>,
    d: Seq<T>,
)
    requires
        same_pattern(a, b, c, d),
        is_patience_script(ops, a, b),
    ensures
        is_patience_script(ops, c, d),
{
    reveal(counts_anchors);
    reveal(pairs_anchors);
    lemma_patience_relabel(a, b, c, d);
    let gain = matched(ops) as int;
    assert forall|chain: Seq<(usize, usize)>| #[trigger]
        are_anchors(chain, middle(c, d), middle(d, c)) implies gain >= shared_prefix(c, d)
        + shared_suffix(c, d) + chain.len() by {
        assert(are_anchors(chain, middle(a, b), middle(b, a)));
    }
    if forall|chain: Seq<(usize, usize)>| #[trigger]
        are_anchors(chain, middle(c, d), middle(d, c)) ==> chain.len() == 0 {
        assert forall|chain: Seq<(usize, usize)>| #[trigger]
            are_anchors(chain, middle(a, b), middle(b, a)) implies chain.len() == 0 by {
            assert(are_anchors(chain, middle(c, d), middle(d, c)));
        }
    }
    let chain = choose|chain: Seq<(usize, usize)>|
        {
            &&& #[trigger] are_anchors(chain, middle(a, b), middle(b, a))
            &&& forall|other: Seq<(usize, usize)>|
                #[trigger] are_anchors(other, middle(a, b), middle(b, a)) ==> other.len()
                    <= chain.len()
            &&& forall|k: int|
                0 <= k < chain.len() ==> pairs_with(
                    ops,
                    0 + shared_prefix(a, b) + (#[trigger] chain[k]).0,
                    0 + shared_prefix(a, b) + chain[k].1,
                )
        };
    assert(are_anchors(chain, middle(c, d), middle(d, c)));
    assert forall|other: Seq<(usize, usize)>| #[trigger]
        are_anchors(other, middle(c, d), middle(d, c)) implies other.len() <= chain.len() by {
        assert(are_anchors(other, middle(a, b), middle(b, a)));
    }
}

/// What a script declares equal behind the shared leading tokens, in what
/// lies between, and in the shared trailing tokens, counts as Patience counts.
proof fn lemma_count<T>(gain: int, a: Seq<T>, b: Seq<T>, chain: Seq<(usize, usize)>)
    requires
        are_anchors(chain, middle(a, b), middle(b, a)),
        forall|other: Seq<(usize, usize)>|
            #[trigger] are_anchors(other, middle(a, b), middle(b, a)) ==> other.len()
                <= chain.len(),
        gain >= shared_prefix(a, b) + shared_suffix(a, b) + chain.len(),
        chain.len() == 0 ==> gain == shared_prefix(a, b) + shared_suffix(a, b) + lcs_len(
            middle(a, b),
            middle(b, a),
        ),
    ensures
        counts_anchors(gain, a, b),
{
    reveal(counts_anchors);
}

/// The script behind the shared leading tokens, what lies between, and the
/// shared trailing tokens pairs the anchors as a Patience script does.
proof fn lemma_assemble<T>(
    headed: Seq<DiffOp>,
    filled: Seq<DiffOp>,
    done: Seq<DiffOp>,
    a: Seq<T>,
    b: Seq<T>,
    x0: int,
    y0: int,
    chain: Seq<(usize, usize)>,
)
    requires
        grows(headed, filled),
        grows(filled, done),
        forall|p: int, q: int|
            x0 <= p < x0 + shared_prefix(a, b) && q == p - x0 + y0 ==> #[trigger] pairs_with(
                headed,
                p,
                q,
            ),
        forall|p: int, q: int|
            x0 + a.len() - shared_suffix(a, b) <= p < x0 + a.len() && q == p - (x0 + a.len()) + (y0
                + b.len()) ==> #[trigger] pairs_with(done, p, q),
        are_anchors(chain, middle(a, b), middle(b, a)),
        forall|other: Seq<(usize, usize)>|
            #[trigger] are_anchors(other, middle(a, b), middle(b, a)) ==> other.len()
                <= chain.len(),
        forall|k: int|
            0 <= k < chain.len() ==> pairs_with(
                filled,
                x0 + shared_prefix(a, b) + (#[trigger] chain[k]).0,
                y0 + shared_prefix(a, b) + chain[k].1,
            ),
    ensures
        pairs_anchors(done, a, b, x0, y0),
{
    reveal(pairs_anchors);
    lemma_grows_trans(headed, filled, done);
    assert forall|p: int, q: int|
        x0 <= p < x0 + shared_prefix(a, b) && q == p - x0 + y0 implies #[trigger] pairs_with(
        done,
        p,
        q,
    ) by {
        assert(pairs_with(headed, p, q));
        lemma_grows_keeps_pairs(headed, done, p, q);
    }
    assert forall|k: int| 0 <= k < chain.len() implies pairs_with(
        done,
        x0 + shared_prefix(a, b) + (#[trigger] chain[k]).0,
        y0 + shared_prefix(a, b) + chain[k].1,
    ) by {
        lemma_grows_keeps_pairs(
            filled,
            done,
            x0 + shared_prefix(a, b) + chain[k].0,
            y0 + shared_prefix(a, b) + chain[k].1,
        );
    }
}

/// Appends to `builder` a script from `a` to `b`, which share no leading and
/// no trailing token: along the anchors of a longest chain, or a shortest
/// script where there is no anchor. Hands back the chain.
fn diff_middle(builder: &mut ScriptBuilder, a: &[usize], b: &[usize]) -> (chain: Ghost<
    Seq<(usize, usize)>,
>)
    requires
        old(builder).wf(),
        a@.len() + b@.len() < usize::MAX,
        old(builder).old_pos + a@.len() <= old(builder).a@.len(),
        old(builder).new_pos + b@.len() <= old(builder).b@.len(),
        a@ == old(builder).a@.subrange(
            old(builder).old_pos as int,
            old(builder).old_pos + a@.len(),
        ),
        b@ == old(builder).b@.subrange(
            old(builder).new_pos as int,
            old(builder).new_pos + b@.len(),
        ),
    ensures
        final(builder).wf(),
        final(builder).a@ == old(builder).a@,
        final(builder).b@ == old(builder).b@,
        final(builder).old_pos == old(builder).old_pos + a@.len(),
        final(builder).new_pos == old(builder).new_pos + b@.len(),
        grows(old(builder).ops@, final(builder).ops@),
        are_anchors(chain@, a@, b@),
        forall|other: Seq<(usize, usize)>|
            #[trigger] are_anchors(other, a@, b@) ==> other.len() <= chain@.len(),
        matched(final(builder).ops@) >= matched(old(builder).ops@) + chain@.len(),
        chain@.len() == 0 ==> matched(final(builder).ops@) == matched(old(builder).ops@) + lcs_len(
            a@,
            b@,
        ),
        forall|k: int|
            0 <= k < chain@.len() ==> pairs_with(
                final(builder).ops@,
                old(builder).old_pos + (#[trigger] chain@[k]).0,
                old(builder).new_pos + chain@[k].1,
            ),
        final(builder).ops@ == middle_steps(
            a@,
            b@,
            old(builder).old_pos as int,
            old(builder).new_pos as int,
            old(builder).ops@,
        ),
    decreases a@.len() + b@.len(), 2nat,
{
    let n: usize = a.len();
    let m: usize = b.len();
    if n == 0 || m == 0 {
        proof {
            assert forall|other: Seq<(usize, usize)>| #[trigger] are_anchors(
                other,
                a@,
                b@,
            ) implies other.len() == 0 by {
                if other.len() > 0 {
                    assert(unique_at(a@, other[0].0 as int));
                    assert(unique_at(b@, other[0].1 as int));
                }
            }
            crate::lcs::lemma_lcs_bound(a@, b@, 0, 0);
        }
        builder.edit(n, m);
        Ghost(Seq::empty())
    } else {
        let marks = anchors(a, b);
        if marks.len() == 0 {
            crate::myers::diff_into(builder, a, b);
        } else {
            diff_between(builder, a, b, &marks);
        }
        Ghost(marks@)
    }
}

/// Appends to `builder` the three parts of a script from `a` to `b`: what
/// the two share at their start, what lies between, and what they share at
/// their end. Hands back the chain of anchors, and the script as it stood
/// behind the first and behind the second part.
fn diff_parts(builder: &mut ScriptBuilder, a: &[usize], b: &[usize]) -> (parts: Ghost<
    (Seq<(usize, usize)>, Seq<DiffOp>, Seq<DiffOp>),
>)
    requires
        old(builder).wf(),
        a@.len() + b@.len() < usize::MAX,
        old(builder).old_pos + a@.len() <= old(builder).a@.len(),
        old(builder).new_pos + b@.len() <= old(builder).b@.len(),
        a@ == old(builder).a@.subrange(
            old(builder).old_pos as int,
            old(builder).old_pos + a@.len(),
        ),
        b@ == old(builder).b@.subrange(
            old(builder).new_pos as int,
            old(builder).new_pos + b@.len(),
        ),
    ensures
        final(builder).wf(),
        final(builder).a@ == old(builder).a@,
        final(builder).b@ == old(builder).b@,
        final(builder).old_pos == old(builder).old_pos + a@.len(),
        final(builder).new_pos == old(builder).new_pos + b@.len(),
        ({
            let chain = parts@.0;
            let headed = parts@.1;
            let filled = parts@.2;
            let done = final(builder).ops@;
            let x0 = old(builder).old_pos as int;
            let y0 = old(builder).new_pos as int;
            let pre = shared_prefix(a@, b@);
            let suf = shared_suffix(a@, b@);
            &&& grows(old(builder).ops@, headed)
            &&& grows(headed, filled)
            &&& grows(filled, done)
            &&& matched(headed) == matched(old(builder).ops@) + pre
            &&& matched(filled) >= matched(headed) + chain.len()
            &&& chain.len() == 0 ==> matched(filled) == matched(headed) + lcs_len(
                middle(a@, b@),
                middle(b@, a@),
            )
            &&& matched(done) == matched(filled) + suf
            &&& headed == with_equal(old(builder).ops@, x0, y0, pre)
            &&& filled == middle_steps(
                a@.subrange(pre, a@.len() - suf),
                b@.subrange(pre, b@.len() - suf),
                x0 + pre,
                y0 + pre,
                headed,
            )
            &&& done == with_equal(filled, x0 + a@.len() - suf, y0 + b@.len() - suf, suf)
            &&& are_anchors(chain, middle(a@, b@), middle(b@, a@))
            &&& forall|other: Seq<(usize, usize)>|
                #[trigger] are_anchors(other, middle(a@, b@), middle(b@, a@)) ==> other.len()
                    <= chain.len()
            &&& forall|p: int, q: int|
                x0 <= p < x0 + pre && q == p - x0 + y0 ==> #[trigger] pairs_with(headed, p, q)
            &&& forall|p: int, q: int|
                x0 + a@.len() - suf <= p < x0 + a@.len() && q == p - (x0 + a@.len()) + (y0
                    + b@.len()) ==> #[trigger] pairs_with(done, p, q)
            &&& forall|k: int|
                0 <= k < chain.len() ==> pairs_with(
                    filled,
                    x0 + pre + (#[trigger] chain[k]).0,
                    y0 + pre + chain[k].1,
                )
        }),
    decreases a@.len() + b@.len(), 4nat,
{
    let n: usize = a.len();
    let m: usize = b.len();
    let ghost base_a = builder.old_pos as int;
    let ghost base_b = builder.new_pos as int;
    let pre = common_prefix(a, b);
    let suf = common_suffix(a, b, pre);
    push_equal(builder, a, b, 0, 0, pre, Ghost(base_a), Ghost(base_b));
    let ghost headed = builder.ops@;
    let chain = diff_inner(builder, a, b, pre, suf, Ghost(base_a), Ghost(base_b));
    let ghost filled = builder.ops@;
    push_equal(builder, a, b, n - suf, m - suf, suf, Ghost(base_a), Ghost(base_b));
    Ghost((chain@, headed, filled))
}

/// Appends to `builder` the script of what lies between the first `pre` and
/// the last `suf` tokens of `a` and `b`, which the two share.
fn diff_inner(
    builder: &mut ScriptBuilder,
    a: &[usize],
    b: &[usize],
    pre: usize,
    suf: usize,
    Ghost(base_a): Ghost<int>,
    Ghost(base_b): Ghost<int>,
) -> (chain: Ghost<Seq<(usize, usize)>>)
    requires
        old(builder).wf(),
        a@.len() + b@.len() < usize::MAX,
        0 <= base_a,
        0 <= base_b,
        base_a + a@.len() <= old(builder).a@.len(),
        base_b + b@.len() <= old(builder).b@.len(),
        a@ == old(builder).a@.subrange(base_a, base_a + a@.len()),
        b@ == old(builder).b@.subrange(base_b, base_b + b@.len()),
        pre == shared_prefix(a@, b@),
        suf == shared_suffix(a@, b@),
        pre + suf <= a@.len(),
        pre + suf <= b@.len(),
        old(builder).old_pos == base_a + pre,
        old(builder).new_pos == base_b + pre,
    ensures
        final(builder).wf(),
        final(builder).a@ == old(builder).a@,
        final(builder).b@ == old(builder).b@,
        final(builder).old_pos == base_a + a@.len() - suf,
        final(builder).new_pos == base_b + b@.len() - suf,
        grows(old(builder).ops@, final(builder).ops@),
        are_anchors(chain@, middle(a@, b@), middle(b@, a@)),
        forall|other: Seq<(usize, usize)>|
            #[trigger] are_anchors(other, middle(a@, b@), middle(b@, a@)) ==> other.len()
                <= chain@.len(),
        matched(final(builder).ops@) >= matched(old(builder).ops@) + chain@.len(),
        chain@.len() == 0 ==> matched(final(builder).ops@) == matched(old(builder).ops@) + lcs_len(
            middle(a@, b@),
            middle(b@, a@),
        ),
        forall|k: int|
            0 <= k < chain@.len() ==> pairs_with(
                final(builder).ops@,
                base_a + pre + (#[trigger] chain@[k]).0,
                base_b + pre + chain@[k].1,
            ),
        final(builder).ops@ == middle_steps(
            a@.subrange(pre as int, a@.len() - suf),
            b@.subrange(pre as int, b@.len() - suf),
            base_a + pre,
            base_b + pre,
            old(builder).ops@,
        ),
    decreases a@.len() + b@.len(), 3nat,
{
    let n: usize = a.len();
    let m: usize = b.len();
    let ghost big_a = builder.a@;
    let ghost big_b = builder.b@;
    let a2 = slice_subrange(a, pre, n - suf);
    let b2 = slice_subrange(b, pre, m - suf);
    proof {
        assert(a2@ =~= big_a.subrange(base_a + pre, base_a + pre + a2@.len()));
        assert(b2@ =~= big_b.subrange(base_b + pre, base_b + pre + b2@.len()));
        lemma_sides_swap(a@, b@);
        assert(a2@ == middle(a@, b@));
        assert(b2@ == middle(b@, a@));
    }
    diff_middle(builder, a2, b2)
}

/// Appends to `builder` a script from `a` to `b`, which are the tokens that
/// follow the builder's cursors: what the two share at their start and end is
/// equal; of the rest, the anchors are equal, and the gaps between them are
/// diffed in the same way, or as a shortest script where there is no anchor.
pub fn diff_into(builder: &mut ScriptBuilder, a: &[usize], b: &[usize])
    requires
        old(builder).wf(),
        a@.len() + b@.len() < usize::MAX,
        old(builder).old_pos + a@.len() <= old(builder).a@.len(),
        old(builder).new_pos + b@.len() <= old(builder).b@.len(),
        a@ == old(builder).a@.subrange(
            old(builder).old_pos as int,
            old(builder).old_pos + a@.len(),
        ),
        b@ == old(builder).b@.subrange(
            old(builder).new_pos as int,
            old(builder).new_pos + b@.len(),
        ),
    ensures
        final(builder).wf(),
        final(builder).a@ == old(builder).a@,
        final(builder).b@ == old(builder).b@,
        final(builder).old_pos == old(builder).old_pos + a@.len(),
        final(builder).new_pos == old(builder).new_pos + b@.len(),
        matched(final(builder).ops@) >= matched(old(builder).ops@),
        a@ == b@ ==> matched(final(builder).ops@) == matched(old(builder).ops@) + a@.len(),
        counts_anchors(matched(final(builder).ops@) - matched(old(builder).ops@), a@, b@),
        grows(old(builder).ops@, final(builder).ops@),
        pairs_anchors(
            final(builder).ops@,
            a@,
            b@,
            old(builder).old_pos as int,
            old(builder).new_pos as int,
        ),
        final(builder).ops@ == patience_steps(
            a@,
            b@,
            old(builder).old_pos as int,
            old(builder).new_pos as int,
            old(builder).ops@,
        ),
    decreases a@.len() + b@.len(), 5nat,
{
    let ghost base_a = builder.old_pos as int;
    let ghost base_b = builder.new_pos as int;
    let parts = diff_parts(builder, a, b);
    proof {
        let chain = parts@.0;
        let headed = parts@.1;
        let filled = parts@.2;
        lemma_sides_swap(a@, b@);
        lemma_grows_trans(old(builder).ops@, headed, filled);
        lemma_grows_trans(old(builder).ops@, filled, builder.ops@);
        lemma_assemble(headed, filled, builder.ops@, a@, b@, base_a, base_b, chain);
        lemma_count(matched(builder.ops@) - matched(old(builder).ops@), a@, b@, chain);
        if a@ == b@ {
            lemma_prefix_self(a@, 0);
            assert(middle(a@, b@).len() == 0);
            assert(lcs_len(middle(a@, b@), middle(b@, a@)) == 0);
            assert(chain.len() == 0) by {
                if chain.len() > 0 {
                    assert(unique_at(middle(a@, b@), chain[0].0 as int));
                }
            }
        }
    }
}

} // verus!
