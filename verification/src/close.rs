//! Ranking candidates by their similarity to a word.
use vstd::prelude::*;
use vstd::string::StringSliceAdditionalSpecFns;
use crate::lcs::lcs_len;
use crate::ratio::Ratio;
use crate::tokenize::{tokens_of, Granularity};

verus! {

/// `a` comes before `b`, or is `b`, in the order of the bytes from position `i` on.
pub open spec fn lex_le_from(a: Seq<u8>, b: Seq<u8>, i: int) -> bool
    decreases a.len() - i,
{
    if i >= a.len() {
        true
    } else if i >= b.len() {
        false
    } else {
        a[i] < b[i] || (a[i] == b[i] && lex_le_from(a, b, i + 1))
    }
}

/// `a` comes before `b`, or is `b`, in lexicographic order.
pub open spec fn lex_le(a: Seq<u8>, b: Seq<u8>) -> bool {
    lex_le_from(a, b, 0)
}

/// Of two byte strings one comes before the other, or is it.
pub proof fn lemma_lex_total(a: Seq<u8>, b: Seq<u8>, i: int)
    requires
        0 <= i,
    ensures
        lex_le_from(a, b, i) || lex_le_from(b, a, i),
    decreases a.len() - i,
{
    if i < a.len() && i < b.len() {
        lemma_lex_total(a, b, i + 1);
    }
}

/// The lexicographic order is transitive.
pub proof fn lemma_lex_trans(a: Seq<u8>, b: Seq<u8>, c: Seq<u8>, i: int)
    requires
        0 <= i,
        lex_le_from(a, b, i),
        lex_le_from(b, c, i),
    ensures
        lex_le_from(a, c, i),
    decreases a.len() - i,
{
    if i < a.len() && i < b.len() && i < c.len() {
        if a[i] == b[i] && b[i] == c[i] {
            lemma_lex_trans(a, b, c, i + 1);
        }
    }
}

/// Whether `a` comes before `b`, or is `b`, in lexicographic order.
pub fn bytes_le(a: &[u8], b: &[u8]) -> (r: bool)
    ensures
        r == lex_le(a@, b@),
{
    let mut i: usize = 0;
    while i < a.len() && i < b.len()
        invariant
            i <= a@.len(),
            i <= b@.len(),
            lex_le(a@, b@) == lex_le_from(a@, b@, i as int),
        decreases a@.len() - i,
    {
        if a[i] < b[i] {
            return true;
        }
        if a[i] > b[i] {
            return false;
        }
        i = i + 1;
    }
    i >= a.len()
}

/// A candidate with its similarity to the word, as a fraction.
pub struct Scored {
    pub num: int,
    pub den: int,
    pub text: Seq<u8>,
}

impl Scored {
    /// The fraction is a fraction.
    pub open spec fn wf(self) -> bool {
        self.num >= 0 && self.den > 0
    }
}

/// `a` is more similar to the word than `b`.
pub open spec fn strictly_higher(a: Scored, b: Scored) -> bool {
    a.num * b.den > b.num * a.den
}

/// `a` and `b` are equally similar to the word.
pub open spec fn same_score(a: Scored, b: Scored) -> bool {
    a.num * b.den == b.num * a.den
}

/// `a` ranks before `b` or with it: it is more similar to the word, or as
/// similar and not after `b` in lexicographic order.
pub open spec fn ranks_before(a: Scored, b: Scored) -> bool {
    strictly_higher(a, b) || (same_score(a, b) && lex_le(a.text, b.text))
}

/// The similarity of `cand` to `word`: twice the length of the longest common
/// subsequence of their characters, over the number of characters of both;
/// one, where both are empty.
pub open spec fn score(word: Seq<u8>, cand: Seq<u8>) -> Scored {
    let tw = tokens_of(word, Granularity::Chars);
    let tc = tokens_of(cand, Granularity::Chars);
    if tw.len() + tc.len() == 0 {
        Scored { num: 1, den: 1, text: cand }
    } else {
        Scored { num: 2 * (lcs_len(tw, tc) as int), den: (tw.len() + tc.len()) as int, text: cand }
    }
}

/// The similarity is at least `cutoff`.
pub open spec fn reaches(s: Scored, cutoff: Ratio) -> bool {
    s.num * cutoff.denom() >= cutoff.numer() * s.den
}

/// The order of fractions with positive denominators is transitive, and
/// strict where one of the two steps is.
pub proof fn lemma_frac_trans(an: int, ad: int, bn: int, bd: int, cn: int, cd: int)
    requires
        ad > 0,
        bd > 0,
        cd > 0,
        an * bd >= bn * ad,
        bn * cd >= cn * bd,
    ensures
        an * cd >= cn * ad,
        an * bd > bn * ad || bn * cd > cn * bd ==> an * cd > cn * ad,
{
    assert((an * bd) * cd >= (bn * ad) * cd) by (nonlinear_arith)
        requires
            an * bd >= bn * ad,
            cd > 0,
    ;
    assert((bn * cd) * ad >= (cn * bd) * ad) by (nonlinear_arith)
        requires
            bn * cd >= cn * bd,
            ad > 0,
    ;
    assert((an * bd) * cd == (an * cd) * bd) by (nonlinear_arith);
    assert((bn * ad) * cd == (bn * cd) * ad) by (nonlinear_arith);
    assert((cn * bd) * ad == (cn * ad) * bd) by (nonlinear_arith);
    assert(an * cd >= cn * ad) by (nonlinear_arith)
        requires
            (an * cd) * bd >= (cn * ad) * bd,
            bd > 0,
    ;
    if an * bd > bn * ad {
        assert((an * bd) * cd > (bn * ad) * cd) by (nonlinear_arith)
            requires
                an * bd > bn * ad,
                cd > 0,
        ;
        assert(an * cd > cn * ad) by (nonlinear_arith)
            requires
                (an * cd) * bd > (cn * ad) * bd,
                bd > 0,
        ;
    }
    if bn * cd > cn * bd {
        assert((bn * cd) * ad > (cn * bd) * ad) by (nonlinear_arith)
            requires
                bn * cd > cn * bd,
                ad > 0,
        ;
        assert(an * cd > cn * ad) by (nonlinear_arith)
            requires
                (an * cd) * bd > (cn * ad) * bd,
                bd > 0,
        ;
    }
}

/// Of two candidates one ranks before the other, or with it.
pub proof fn lemma_rank_total(a: Scored, b: Scored)
    ensures
        ranks_before(a, b) || ranks_before(b, a),
        !ranks_before(a, b) ==> ranks_before(b, a),
{
    lemma_lex_total(a.text, b.text, 0);
}

/// Ranking before is transitive.
pub proof fn lemma_rank_trans(a: Scored, b: Scored, c: Scored)
    requires
        a.wf(),
        b.wf(),
        c.wf(),
        ranks_before(a, b),
        ranks_before(b, c),
    ensures
        ranks_before(a, c),
{
    lemma_frac_trans(a.num, a.den, b.num, b.den, c.num, c.den);
    if same_score(a, b) && same_score(b, c) {
        lemma_frac_trans(c.num, c.den, b.num, b.den, a.num, a.den);
        lemma_lex_trans(a.text, b.text, c.text, 0);
    }
}

/// A candidate that made the list: its similarity and its place among the candidates.
#[derive(Clone, Copy, Debug)]
pub struct Entry {
    pub ratio: Ratio,
    pub index: usize,
}

/// The candidate of an entry, with the similarity that the entry records.
pub open spec fn scored(e: Entry, cands: Seq<Seq<u8>>) -> Scored {
    Scored { num: e.ratio.numer(), den: e.ratio.denom(), text: cands[e.index as int] }
}

/// Candidate `j` is on the list.
pub open spec fn picked(best: Seq<Entry>, j: int) -> bool {
    exists|k: int| 0 <= k < best.len() && (#[trigger] best[k]).index == j
}

/// `best` lists the best of the first `c` candidates: at most `n` of them,
/// no candidate twice, each with a similarity of at least `cutoff`, in
/// ranking order; and every candidate with such a similarity that is not on
/// the list ranks after the last of a full list, or with it.
pub open spec fn top_of(
    best: Seq<Entry>,
    cands: Seq<Seq<u8>>,
    word: Seq<u8>,
    cutoff: Ratio,
    n: int,
    c: int,
) -> bool {
    &&& best.len() <= n
    &&& forall|k: int|
        0 <= k < best.len() ==> {
            let e = #[trigger] best[k];
            &&& e.index < c
            &&& scored(e, cands) == score(word, cands[e.index as int])
            &&& reaches(scored(e, cands), cutoff)
        }
    &&& forall|k: int, l: int|
        0 <= k < l < best.len() ==> (#[trigger] best[k]).index != (#[trigger] best[l]).index
            && ranks_before(scored(best[k], cands), scored(best[l], cands))
    &&& forall|j: int|
        0 <= j < c && reaches(score(word, cands[j]), cutoff) && !#[trigger] picked(best, j) ==> {
            &&& best.len() == n
            &&& n > 0 ==> ranks_before(scored(best[n - 1], cands), score(word, cands[j]))
        }
}

/// The list after `e` has gone in at place `p`: with `e`, and without what no longer fits.
pub open spec fn with_entry(best: Seq<Entry>, e: Entry, p: int, n: int) -> Seq<Entry> {
    if p >= n {
        best
    } else if best.len() + 1 <= n {
        best.insert(p, e)
    } else {
        best.insert(p, e).take(n)
    }
}

/// A candidate that does not reach the cutoff changes nothing.
pub proof fn lemma_top_skip(
    best: Seq<Entry>,
    cands: Seq<Seq<u8>>,
    word: Seq<u8>,
    cutoff: Ratio,
    n: int,
    c: int,
)
    requires
        top_of(best, cands, word, cutoff, n, c),
        !reaches(score(word, cands[c]), cutoff),
    ensures
        top_of(best, cands, word, cutoff, n, c + 1),
{
}

/// The list stays the list of the best when a candidate that reaches the
/// cutoff goes in behind all that rank before it or with it.
pub proof fn lemma_top_insert(
    best: Seq<Entry>,
    e: Entry,
    p: int,
    cands: Seq<Seq<u8>>,
    word: Seq<u8>,
    cutoff: Ratio,
    n: int,
    c: int,
)
    requires
        top_of(best, cands, word, cutoff, n, c),
        0 <= c < cands.len(),
        e.index == c,
        scored(e, cands) == score(word, cands[c]),
        reaches(scored(e, cands), cutoff),
        0 <= p <= best.len(),
        forall|k: int| 0 <= k < p ==> ranks_before(scored(#[trigger] best[k], cands), scored(e, cands)),
        p < best.len() ==> !ranks_before(scored(best[p], cands), scored(e, cands)),
    ensures
        top_of(with_entry(best, e, p, n), cands, word, cutoff, n, c + 1),
{
    let x = scored(e, cands);
    let after = with_entry(best, e, p, n);
    assert forall|k: int| 0 <= k < best.len() implies (scored(#[trigger] best[k], cands)).wf() by {}
    assert(x.wf());
    // what stood at `p` or behind it ranks after the newcomer
    assert forall|k: int| p <= k < best.len() implies ranks_before(
        x,
        scored(#[trigger] best[k], cands),
    ) by {
        lemma_rank_total(scored(best[p], cands), x);
        if k > p {
            lemma_rank_trans(x, scored(best[p], cands), scored(best[k], cands));
        }
    }
    if p >= n {
        assert forall|j: int|
            0 <= j < c + 1 && reaches(score(word, cands[j]), cutoff) && !#[trigger] picked(
                after,
                j,
            ) implies {
            &&& after.len() == n
            &&& n > 0 ==> ranks_before(scored(after[n - 1], cands), score(word, cands[j]))
        } by {}
    } else {
        let full = best.insert(p, e);
        assert forall|k: int| 0 <= k < full.len() implies {
            let f = #[trigger] full[k];
            &&& f.index < c + 1
            &&& scored(f, cands) == score(word, cands[f.index as int])
            &&& reaches(scored(f, cands), cutoff)
            &&& scored(f, cands).wf()
        } by {
            if k < p {
                assert(full[k] == best[k]);
            } else if k > p {
                assert(full[k] == best[k - 1]);
            }
        }
        assert forall|k: int, l: int| 0 <= k < l < full.len() implies (#[trigger] full[k]).index
            != (#[trigger] full[l]).index && ranks_before(
            scored(full[k], cands),
            scored(full[l], cands),
        ) by {
            if l < p {
                assert(full[k] == best[k] && full[l] == best[l]);
            } else if l == p {
                assert(full[k] == best[k]);
            } else if k < p {
                assert(full[k] == best[k] && full[l] == best[l - 1]);
            } else if k == p {
                assert(full[l] == best[l - 1]);
            } else {
                assert(full[k] == best[k - 1] && full[l] == best[l - 1]);
            }
        }
        assert forall|k: int| 0 <= k < after.len() implies #[trigger] after[k] == full[k] by {}
        assert forall|j: int|
            0 <= j < c + 1 && reaches(score(word, cands[j]), cutoff) && !#[trigger] picked(
                after,
                j,
            ) implies {
            &&& after.len() == n
            &&& n > 0 ==> ranks_before(scored(after[n - 1], cands), score(word, cands[j]))
        } by {
            if j == c {
                assert(after[p] == e);
                assert(picked(after, j));
            } else if picked(best, j) {
                let k = choose|k: int| 0 <= k < best.len() && (#[trigger] best[k]).index == j;
                let moved = if k < p { k } else { k + 1 };
                assert(full[moved] == best[k]);
                if moved < after.len() {
                    assert(after[moved].index == j);
                    assert(picked(after, j));
                } else {
                    // the last entry of a full list has made room
                    assert(best.len() == n && k == n - 1);
                    assert(full[n - 1] == after[n - 1]);
                    assert(ranks_before(scored(full[n - 1], cands), scored(full[n], cands)));
                }
            } else {
                assert(best.len() == n);
                assert(full[n] == best[n - 1]);
                assert(after[n - 1] == full[n - 1]);
                assert(ranks_before(scored(full[n - 1], cands), scored(full[n], cands)));
                lemma_rank_trans(
                    scored(after[n - 1], cands),
                    scored(best[n - 1], cands),
                    score(word, cands[j]),
                );
            }
        }
    }
}

/// A similarity that reaches the cutoff still reaches it with a greater numerator.
pub proof fn lemma_reaches_monotone(low: int, high: int, den: int, cutoff: Ratio)
    requires
        low <= high,
        low * cutoff.denom() >= cutoff.numer() * den,
    ensures
        high * cutoff.denom() >= cutoff.numer() * den,
{
    assert(high * cutoff.denom() >= low * cutoff.denom()) by (nonlinear_arith)
        requires
            low <= high,
            cutoff.denom() >= 1,
    ;
}

/// `result` are the best matches of `word` among the candidates: the
/// candidates of a list of the best, in its order.
pub open spec fn is_close_matches(
    result: Seq<&str>,
    word: Seq<u8>,
    candidates: Seq<&str>,
    n: int,
    cutoff: Ratio,
) -> bool {
    exists|best: Seq<Entry>|
        {
            &&& #[trigger] top_of(
                best,
                texts(candidates),
                word,
                cutoff,
                n,
                candidates.len() as int,
            )
            &&& result.len() == best.len()
            &&& forall|k: int|
                0 <= k < result.len() ==> #[trigger] result[k] == candidates[best[k].index as int]
        }
}

/// Whether the candidate of `a` ranks before that of `b`, or with it.
pub fn entry_before(a: &Entry, b: &Entry, candidates: &[&str]) -> (r: bool)
    requires
        a.index < candidates@.len(),
        b.index < candidates@.len(),
    ensures
        r == ranks_before(scored(*a, texts(candidates@)), scored(*b, texts(candidates@))),
{
    if !b.ratio.reaches(&a.ratio) {
        true
    } else if a.ratio.equals(&b.ratio) {
        bytes_le(candidates[a.index].as_bytes(), candidates[b.index].as_bytes())
    } else {
        false
    }
}

/// The bytes of every string.
pub open spec fn texts(strings: Seq<&str>) -> Seq<Seq<u8>> {
    Seq::new(strings.len(), |i: int| strings[i].spec_bytes())
}

/// Puts `e` on the list of the best, behind all that rank before it or with
/// it, if it is among the `n` best.
pub fn keep_best(
    best: &mut Vec<Entry>,
    e: Entry,
    n: usize,
    candidates: &[&str],
    Ghost(word): Ghost<Seq<u8>>,
    Ghost(cutoff): Ghost<Ratio>,
)
    requires
        top_of(old(best)@, texts(candidates@), word, cutoff, n as int, e.index as int),
        e.index < candidates@.len(),
        scored(e, texts(candidates@)) == score(word, texts(candidates@)[e.index as int]),
        reaches(scored(e, texts(candidates@)), cutoff),
    ensures
        top_of(final(best)@, texts(candidates@), word, cutoff, n as int, e.index + 1),
{
    let ghost cands = texts(candidates@);
    let ghost before = best@;
    let mut p: usize = 0;
    while p < best.len() && entry_before(&best[p], &e, candidates)
        invariant
            p <= best@.len(),
            best@ == before,
            cands == texts(candidates@),
            e.index < candidates@.len(),
            top_of(before, cands, word, cutoff, n as int, e.index as int),
            forall|k: int|
                0 <= k < p ==> ranks_before(scored(#[trigger] before[k], cands), scored(e, cands)),
        decreases best@.len() - p,
    {
        p = p + 1;
    }
    proof {
        lemma_top_insert(before, e, p as int, cands, word, cutoff, n as int, e.index as int);
    }
    if p < n {
        best.insert(p, e);
        if best.len() > n {
            best.truncate(n);
        }
        assert(best@ =~= with_entry(before, e, p as int, n as int));
    }
}

} // verus!
