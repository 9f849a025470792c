//! The similarity ratio of a diff, as an exact fraction, and the cheap upper
//! bounds that filter candidates before a diff is made.
use vstd::prelude::*;
use vstd::multiset::Multiset;
use std::collections::HashMap;
use crate::lcs::{lcs_from, lcs_len, lemma_lcs_bound, lemma_lcs_monotone, lemma_lcs_reverse};
use crate::script::{equal_runs_agree, linked, matched, lemma_starts_nonneg};
use crate::types::DiffOp;

verus! {

broadcast use vstd::std_specs::hash::group_hash_axioms;

/// A fraction `num / den`. With `den == 0` nothing was compared, and the
/// fraction counts as one.
#[derive(Clone, Copy, Debug, PartialEq, Eq, Structural)]
pub struct Ratio {
    pub num: usize,
    pub den: usize,
}

impl Ratio {
    /// The numerator, one where `den` is zero.
    pub open spec fn numer(self) -> int {
        if self.den == 0 {
            1
        } else {
            self.num as int
        }
    }

    /// The denominator, one where `den` is zero.
    pub open spec fn denom(self) -> int {
        if self.den == 0 {
            1
        } else {
            self.den as int
        }
    }

    /// `self >= other`, as fractions.
    pub open spec fn at_least(self, other: Ratio) -> bool {
        self.numer() * other.denom() >= other.numer() * self.denom()
    }

    /// `self == other`, as fractions.
    pub open spec fn same_as(self, other: Ratio) -> bool {
        self.numer() * other.denom() == other.numer() * self.denom()
    }

    /// The fraction is exactly one.
    pub open spec fn is_whole(self) -> bool {
        self.numer() == self.denom()
    }

    /// The fraction `num / den`.
    pub fn new(num: usize, den: usize) -> (r: Ratio)
        ensures
            r.num == num,
            r.den == den,
    {
        Ratio { num, den }
    }

    /// Both sides of the comparison `self >= other`, cross-multiplied.
    fn cross(&self, other: &Ratio) -> (r: (u128, u128))
        ensures
            r.0 == self.numer() * other.denom(),
            r.1 == other.numer() * self.denom(),
    {
        let a: u128 = if self.den == 0 { 1 } else { self.num as u128 };
        let b: u128 = if self.den == 0 { 1 } else { self.den as u128 };
        let c: u128 = if other.den == 0 { 1 } else { other.num as u128 };
        let d: u128 = if other.den == 0 { 1 } else { other.den as u128 };
        assert(a * d <= 0xffff_ffff_ffff_ffff * 0xffff_ffff_ffff_ffff) by (nonlinear_arith)
            requires
                a <= 0xffff_ffff_ffff_ffff,
                d <= 0xffff_ffff_ffff_ffff,
        ;
        assert(c * b <= 0xffff_ffff_ffff_ffff * 0xffff_ffff_ffff_ffff) by (nonlinear_arith)
            requires
                c <= 0xffff_ffff_ffff_ffff,
                b <= 0xffff_ffff_ffff_ffff,
        ;
        (a * d, c * b)
    }

    /// Whether `self >= other`.
    pub fn reaches(&self, other: &Ratio) -> (r: bool)
        ensures
            r == self.at_least(*other),
    {
        let sides = self.cross(other);
        sides.0 >= sides.1
    }

    /// Whether `self == other` as fractions.
    pub fn equals(&self, other: &Ratio) -> (r: bool)
        ensures
            r == self.same_as(*other),
    {
        let sides = self.cross(other);
        sides.0 == sides.1
    }
}

/// In a linked script, the tokens declared equal by the first `k` operations
/// are no more than the tokens those operations cover on either side.
pub proof fn lemma_matched_bound(ops: Seq<DiffOp>, x0: int, y0: int, x: int, y: int, k: int)
    requires
        linked(ops, x0, y0, x, y),
        0 <= k <= ops.len(),
    ensures
        k == 0 ==> matched(ops.take(k)) == 0,
        k > 0 ==> matched(ops.take(k)) <= ops[k - 1].old_end() - x0 && matched(ops.take(k))
            <= ops[k - 1].new_end() - y0,
        matched(ops.take(k)) <= x - x0,
        matched(ops.take(k)) <= y - y0,
    decreases k,
{
    if k > 0 {
        lemma_matched_bound(ops, x0, y0, x, y, k - 1);
        assert(ops.take(k).drop_last() =~= ops.take(k - 1));
        assert(ops.take(k).last() == ops[k - 1]);
        lemma_starts_nonneg(ops, x0, y0, x, y, k - 1);
        if k > 1 {
            assert(ops[k - 2].old_end() == ops[k - 1].old_start());
        }
    } else if ops.len() > 0 {
        lemma_starts_nonneg(ops, x0, y0, x, y, 0);
    }
}

/// The multiset of no tokens is empty.
pub proof fn lemma_empty_multiset<T>()
    ensures
        Seq::<T>::empty().to_multiset() =~= Multiset::<T>::empty(),
{
    broadcast use vstd::multiset::group_multiset_axioms;

    Seq::<T>::empty().to_multiset_ensures();
    vstd::multiset::lemma_multiset_empty_len(Seq::<T>::empty().to_multiset());
}

/// The ratio lies between zero and one: a linked script declares no more
/// tokens equal than either side holds.
pub proof fn lemma_ratio_bounds(ops: Seq<DiffOp>, old_len: int, new_len: int)
    requires
        linked(ops, 0, 0, old_len, new_len),
    ensures
        0 <= 2 * matched(ops) <= old_len + new_len,
        matched(ops) <= old_len,
        matched(ops) <= new_len,
{
    lemma_matched_bound(ops, 0, 0, old_len, new_len, ops.len() as int);
    assert(ops.take(ops.len() as int) =~= ops);
}

/// The similarity of the two sides of a script: twice the number of tokens
/// declared equal, over the number of tokens on both sides.
pub fn get_diff_ratio(ops: &[DiffOp], old_len: usize, new_len: usize) -> (r: Ratio)
    requires
        linked(ops@, 0, 0, old_len as int, new_len as int),
        old_len + new_len <= usize::MAX,
    ensures
        r.num == 2 * matched(ops@),
        r.den == old_len + new_len,
        r.num <= r.den,
{
    let mut sum: usize = 0;
    let mut i: usize = 0;
    while i < ops.len()
        invariant
            i <= ops@.len(),
            linked(ops@, 0, 0, old_len as int, new_len as int),
            old_len + new_len <= usize::MAX,
            sum == matched(ops@.take(i as int)),
        decreases ops@.len() - i,
    {
        proof {
            lemma_matched_bound(ops@, 0, 0, old_len as int, new_len as int, i + 1);
            assert(ops@.take(i + 1).drop_last() =~= ops@.take(i as int));
            assert(ops@.take(i + 1).last() == ops@[i as int]);
        }
        match ops[i] {
            DiffOp::Equal { len, .. } => {
                sum = sum + len;
            },
            _ => {},
        }
        i = i + 1;
    }
    proof {
        assert(ops@.take(ops@.len() as int) =~= ops@);
        lemma_ratio_bounds(ops@, old_len as int, new_len as int);
    }
    Ratio { num: 2 * sum, den: old_len + new_len }
}

/// The number of tokens that `a` and `b` have in common, order aside: the
/// size of the intersection of their multisets.
pub open spec fn common<T>(a: Seq<T>, b: Seq<T>) -> nat {
    a.to_multiset().intersection_with(b.to_multiset()).len()
}

/// What one more token on the left adds to the intersection.
pub proof fn lemma_intersection_insert_left<T>(a: Multiset<T>, b: Multiset<T>, e: T)
    ensures
        a.insert(e).intersection_with(b).len() == a.intersection_with(b).len() + (if a.count(e)
            < b.count(e) {
            1nat
        } else {
            0nat
        }),
{
    broadcast use vstd::multiset::group_multiset_axioms;
    broadcast use vstd::multiset::group_multiset_properties;

    if a.count(e) < b.count(e) {
        assert(a.insert(e).intersection_with(b) =~= a.intersection_with(b).insert(e));
    } else {
        assert(a.insert(e).intersection_with(b) =~= a.intersection_with(b));
    }
}

/// What one more token on the right adds to the intersection.
pub proof fn lemma_intersection_insert_right<T>(a: Multiset<T>, b: Multiset<T>, e: T)
    ensures
        a.intersection_with(b.insert(e)).len() == a.intersection_with(b).len() + (if b.count(e)
            < a.count(e) {
            1nat
        } else {
            0nat
        }),
{
    broadcast use vstd::multiset::group_multiset_axioms;
    broadcast use vstd::multiset::group_multiset_properties;

    if b.count(e) < a.count(e) {
        assert(a.intersection_with(b.insert(e)) =~= a.intersection_with(b).insert(e));
    } else {
        assert(a.intersection_with(b.insert(e)) =~= a.intersection_with(b));
    }
}

/// The longest common subsequence of two prefixes is no longer than what
/// the prefixes have in common, order aside.
proof fn lemma_prefix_lcs_at_most_common<T>(a: Seq<T>, b: Seq<T>, x: int, y: int)
    requires
        0 <= x <= a.len(),
        0 <= y <= b.len(),
    ensures
        lcs_from(a.reverse(), b.reverse(), a.len() - x, b.len() - y) <= common(
            a.take(x),
            b.take(y),
        ),
    decreases x + y,
{
    broadcast use vstd::multiset::group_multiset_axioms;
    broadcast use vstd::multiset::group_multiset_properties;

    let ra = a.reverse();
    let rb = b.reverse();
    let n = a.len() as int;
    let m = b.len() as int;
    if x > 0 && y > 0 {
        assert(ra[n - x] == a[x - 1]);
        assert(rb[m - y] == b[y - 1]);
        assert(a.take(x) =~= a.take(x - 1).push(a[x - 1]));
        assert(b.take(y) =~= b.take(y - 1).push(b[y - 1]));
        let am = a.take(x - 1).to_multiset();
        let bm = b.take(y - 1).to_multiset();
        vstd::seq_lib::to_multiset_build(a.take(x - 1), a[x - 1]);
        vstd::seq_lib::to_multiset_build(b.take(y - 1), b[y - 1]);
        if a[x - 1] == b[y - 1] {
            lemma_prefix_lcs_at_most_common(a, b, x - 1, y - 1);
            let e = a[x - 1];
            lemma_intersection_insert_left(am, bm.insert(e), e);
            lemma_intersection_insert_right(am, bm, e);
        } else {
            lemma_prefix_lcs_at_most_common(a, b, x - 1, y);
            lemma_prefix_lcs_at_most_common(a, b, x, y - 1);
            lemma_intersection_insert_left(am, b.take(y).to_multiset(), a[x - 1]);
            lemma_intersection_insert_right(a.take(x).to_multiset(), bm, b[y - 1]);
        }
    }
}

/// The longest common subsequence is no longer than what the two sequences
/// have in common, order aside.
pub proof fn lemma_lcs_at_most_common<T>(a: Seq<T>, b: Seq<T>)
    ensures
        lcs_len(a, b) <= common(a, b),
        lcs_len(a, b) <= a.len(),
        lcs_len(a, b) <= b.len(),
{
    lemma_prefix_lcs_at_most_common(a, b, a.len() as int, b.len() as int);
    assert(a.take(a.len() as int) =~= a);
    assert(b.take(b.len() as int) =~= b);
    lemma_lcs_reverse(a, b);
    lemma_lcs_bound(a, b, 0, 0);
}

/// A run of equal tokens lengthens the common subsequence of the prefixes by its length.
proof fn lemma_prefix_run<T>(a: Seq<T>, b: Seq<T>, x: int, y: int, len: int)
    requires
        0 <= x,
        0 <= y,
        0 <= len,
        x + len <= a.len(),
        y + len <= b.len(),
        forall|p: int| x <= p < x + len ==> #[trigger] a[p] == b[p - x + y],
    ensures
        lcs_from(a.reverse(), b.reverse(), a.len() - (x + len), b.len() - (y + len)) >= lcs_from(
            a.reverse(),
            b.reverse(),
            a.len() - x,
            b.len() - y,
        ) + len,
    decreases len,
{
    if len > 0 {
        lemma_prefix_run(a, b, x, y, len - 1);
        let ra = a.reverse();
        let rb = b.reverse();
        assert(ra[a.len() - (x + len)] == a[x + len - 1]);
        assert(rb[b.len() - (y + len)] == b[y + len - 1]);
    }
}

/// What the first `k` operations of a script declare equal is a common
/// subsequence of the prefixes that they cover.
proof fn lemma_matched_prefix<T>(ops: Seq<DiffOp>, a: Seq<T>, b: Seq<T>, k: int)
    requires
        linked(ops, 0, 0, a.len() as int, b.len() as int),
        equal_runs_agree(ops, a, b),
        0 <= k <= ops.len(),
    ensures
        k == 0 ==> matched(ops.take(k)) == 0,
        k > 0 ==> matched(ops.take(k)) <= lcs_from(
            a.reverse(),
            b.reverse(),
            a.len() - ops[k - 1].old_end(),
            b.len() - ops[k - 1].new_end(),
        ),
    decreases k,
{
    if k > 0 {
        let ra = a.reverse();
        let rb = b.reverse();
        let n = a.len() as int;
        let m = b.len() as int;
        lemma_matched_prefix(ops, a, b, k - 1);
        assert(ops.take(k).drop_last() =~= ops.take(k - 1));
        assert(ops.take(k).last() == ops[k - 1]);
        lemma_starts_nonneg(ops, 0, 0, n, m, k - 1);
        let op = ops[k - 1];
        let x = op.old_start();
        let y = op.new_start();
        if k > 1 {
            assert(ops[k - 2].old_end() == ops[k - 1].old_start());
        }
        if op is Equal {
            assert forall|p: int| x <= p < x + op.old_count() implies #[trigger] a[p] == b[p - x
                + y] by {
                assert(ops[k - 1] is Equal);
            }
            lemma_prefix_run(a, b, x, y, op.old_count());
        } else {
            lemma_lcs_monotone(ra, rb, n - op.old_end(), m - op.new_end(), n - x, m - y);
        }
    }
}

/// No script declares more tokens equal than the longest common
/// subsequence holds; so no script has a higher ratio than a shortest one.
pub proof fn lemma_matched_at_most_lcs<T>(ops: Seq<DiffOp>, a: Seq<T>, b: Seq<T>)
    requires
        linked(ops, 0, 0, a.len() as int, b.len() as int),
        equal_runs_agree(ops, a, b),
    ensures
        matched(ops) <= lcs_len(a, b),
{
    lemma_matched_prefix(ops, a, b, ops.len() as int);
    assert(ops.take(ops.len() as int) =~= ops);
    lemma_lcs_reverse(a, b);
}

/// The quick ratio never falls below the ratio of a script: what a script
/// declares equal is a common subsequence, and a common subsequence is part
/// of what the two sides have in common, which is no more than the shorter side.
pub proof fn lemma_quick_ratio_bounds<T>(ops: Seq<DiffOp>, a: Seq<T>, b: Seq<T>)
    requires
        linked(ops, 0, 0, a.len() as int, b.len() as int),
        equal_runs_agree(ops, a, b),
    ensures
        matched(ops) <= lcs_len(a, b) <= common(a, b),
        common(a, b) <= a.len(),
        common(a, b) <= b.len(),
{
    lemma_matched_at_most_lcs(ops, a, b);
    lemma_lcs_at_most_common(a, b);
    lemma_common_bound(a, b, b.len() as int);
    assert(b.take(b.len() as int) =~= b);
    lemma_common_bound_left(a, b, a.len() as int);
    assert(a.take(a.len() as int) =~= a);
}

/// The quick ratio of two sequences is at least the ratio of any script
/// between them, and the upper bound from their lengths is at least the
/// quick ratio: a candidate that either bound keeps below a cutoff has no
/// script that reaches it.
pub proof fn lemma_quick_ratio_at_least<T>(
    ops: Seq<DiffOp>,
    a: Seq<T>,
    b: Seq<T>,
    exact: Ratio,
    quick: Ratio,
    upper: Ratio,
)
    requires
        linked(ops, 0, 0, a.len() as int, b.len() as int),
        equal_runs_agree(ops, a, b),
        exact.num == 2 * matched(ops),
        exact.den == a.len() + b.len(),
        quick.num == 2 * common(a, b),
        quick.den == a.len() + b.len(),
        upper.num == 2 * (if a.len() <= b.len() {
            a.len()
        } else {
            b.len()
        }),
        upper.den == a.len() + b.len(),
    ensures
        quick.at_least(exact),
        upper.at_least(quick),
{
    lemma_quick_ratio_bounds(ops, a, b);
    let den = exact.denom();
    assert(quick.numer() * den >= exact.numer() * den) by (nonlinear_arith)
        requires
            quick.numer() >= exact.numer(),
            den >= 1,
    ;
    assert(upper.numer() * den >= quick.numer() * den) by (nonlinear_arith)
        requires
            upper.numer() >= quick.numer(),
            den >= 1,
    ;
}

/// What `a` has in common with a prefix of `b` is no more than that prefix.
pub proof fn lemma_common_bound<T>(a: Seq<T>, b: Seq<T>, y: int)
    requires
        0 <= y <= b.len(),
    ensures
        common(a, b.take(y)) <= y,
    decreases y,
{
    broadcast use vstd::multiset::group_multiset_axioms;
    broadcast use vstd::multiset::group_multiset_properties;

    if y > 0 {
        lemma_common_bound(a, b, y - 1);
        assert(b.take(y) =~= b.take(y - 1).push(b[y - 1]));
        vstd::seq_lib::to_multiset_build(b.take(y - 1), b[y - 1]);
        lemma_intersection_insert_right(a.to_multiset(), b.take(y - 1).to_multiset(), b[y - 1]);
    } else {
        assert(b.take(0) =~= Seq::<T>::empty());
        lemma_empty_multiset::<T>();
        assert(a.to_multiset().intersection_with(Seq::<T>::empty().to_multiset()) =~= Multiset::<
            T,
        >::empty());
    }
}

/// What a prefix of `a` has in common with `b` is no more than that prefix.
pub proof fn lemma_common_bound_left<T>(a: Seq<T>, b: Seq<T>, x: int)
    requires
        0 <= x <= a.len(),
    ensures
        common(a.take(x), b) <= x,
    decreases x,
{
    broadcast use vstd::multiset::group_multiset_axioms;
    broadcast use vstd::multiset::group_multiset_properties;

    if x > 0 {
        lemma_common_bound_left(a, b, x - 1);
        assert(a.take(x) =~= a.take(x - 1).push(a[x - 1]));
        vstd::seq_lib::to_multiset_build(a.take(x - 1), a[x - 1]);
        lemma_intersection_insert_left(a.take(x - 1).to_multiset(), b.to_multiset(), a[x - 1]);
    } else {
        assert(a.take(0) =~= Seq::<T>::empty());
        lemma_empty_multiset::<T>();
        assert(Seq::<T>::empty().to_multiset().intersection_with(b.to_multiset()) =~= Multiset::<
            T,
        >::empty());
    }
}

/// The upper bound on the ratio that the two lengths alone give: twice the
/// shorter length over the sum of both.
pub fn upper_seq_ratio(old_len: usize, new_len: usize) -> (r: Ratio)
    requires
        old_len + new_len <= usize::MAX,
    ensures
        r.num == 2 * (if old_len <= new_len {
            old_len
        } else {
            new_len
        }),
        r.den == old_len + new_len,
{
    let least: usize = if old_len <= new_len { old_len } else { new_len };
    Ratio { num: 2 * least, den: old_len + new_len }
}

/// How often each token occurs in a sequence, kept for quick ratios against many others.
pub struct QuickSeqRatio {
    counts: HashMap<usize, usize>,
    len: usize,
    seq: Ghost<Seq<usize>>,
}

/// How often `x` is counted in `m`; a token that `m` lacks counts as absent.
pub open spec fn count_in(m: Map<usize, usize>, x: usize) -> nat {
    if m.contains_key(x) {
        m[x] as nat
    } else {
        0
    }
}

impl QuickSeqRatio {
    #[verifier::type_invariant]
    spec fn inv(self) -> bool {
        &&& self.len == self.seq@.len()
        &&& forall|x: usize| count_in(self.counts@, x) == #[trigger] self.seq@.to_multiset().count(x)
    }

    /// The sequence that was counted.
    pub closed spec fn counted(&self) -> Seq<usize> {
        self.seq@
    }

    /// Counts the tokens of `seq`.
    pub fn new(seq: &[usize]) -> (r: Self)
        ensures
            r.counted() == seq@,
    {
        broadcast use vstd::multiset::group_multiset_axioms;
        broadcast use vstd::multiset::group_multiset_properties;

        let n: usize = seq.len();
        let mut counts: HashMap<usize, usize> = HashMap::new();
        let mut i: usize = 0;
        proof {
            assert(seq@.take(0) =~= Seq::<usize>::empty());
            lemma_empty_multiset::<usize>();
        }
        while i < n
            invariant
                n == seq@.len(),
                i <= n,
                forall|x: usize|
                    count_in(counts@, x) == #[trigger] seq@.take(i as int).to_multiset().count(x),
            decreases n - i,
        {
            let x: usize = seq[i];
            let before: usize = match counts.get(&x) {
                Some(c) => *c,
                None => 0,
            };
            proof {
                assert(seq@.take(i + 1) =~= seq@.take(i as int).push(x));
                vstd::seq_lib::to_multiset_build(seq@.take(i as int), x);
                seq@.take(i + 1).to_multiset_ensures();
                vstd::multiset::axiom_count_le_len(seq@.take(i + 1).to_multiset(), x);
            }
            counts.insert(x, before + 1);
            i = i + 1;
        }
        assert(seq@.take(n as int) =~= seq@);
        QuickSeqRatio { counts, len: n, seq: Ghost(seq@) }
    }

    /// The quick ratio against `other`: twice what the two sequences have in
    /// common, order aside, over the number of tokens in both.
    pub fn calc(&self, other: &[usize]) -> (r: Ratio)
        requires
            self.counted().len() + other@.len() <= usize::MAX,
        ensures
            r.num == 2 * common(self.counted(), other@),
            r.den == self.counted().len() + other@.len(),
    {
        broadcast use vstd::multiset::group_multiset_axioms;
        broadcast use vstd::multiset::group_multiset_properties;

        proof {
            use_type_invariant(self);
        }
        let m: usize = other.len();
        let ghost am = self.seq@.to_multiset();
        let mut used: HashMap<usize, usize> = HashMap::new();
        let mut matches: usize = 0;
        let mut j: usize = 0;
        proof {
            assert(other@.take(0) =~= Seq::<usize>::empty());
            lemma_empty_multiset::<usize>();
            assert(am.intersection_with(Seq::<usize>::empty().to_multiset()) =~= Multiset::<
                usize,
            >::empty());
        }
        while j < m
            invariant
                m == other@.len(),
                j <= m,
                am == self.seq@.to_multiset(),
                self.len == self.seq@.len(),
                self.len + m <= usize::MAX,
                forall|x: usize| count_in(self.counts@, x) == #[trigger] am.count(x),
                forall|x: usize|
                    count_in(used@, x) == #[trigger] other@.take(j as int).to_multiset().count(x),
                matches == am.intersection_with(other@.take(j as int).to_multiset()).len(),
                matches <= j,
            decreases m - j,
        {
            let y: usize = other[j];
            let have: usize = match self.counts.get(&y) {
                Some(c) => *c,
                None => 0,
            };
            let taken: usize = match used.get(&y) {
                Some(c) => *c,
                None => 0,
            };
            proof {
                assert(other@.take(j + 1) =~= other@.take(j as int).push(y));
                vstd::seq_lib::to_multiset_build(other@.take(j as int), y);
                other@.take(j + 1).to_multiset_ensures();
                vstd::multiset::axiom_count_le_len(other@.take(j + 1).to_multiset(), y);
                lemma_intersection_insert_right(am, other@.take(j as int).to_multiset(), y);
                assert(count_in(self.counts@, y) == am.count(y));
                assert(count_in(used@, y) == other@.take(j as int).to_multiset().count(y));
            }
            if taken < have {
                matches = matches + 1;
            }
            used.insert(y, taken + 1);
            j = j + 1;
        }
        proof {
            assert(other@.take(m as int) =~= other@);
            lemma_common_bound_left(self.seq@, other@, self.len as int);
            assert(self.seq@.take(self.len as int) =~= self.seq@);
        }
        Ratio { num: 2 * matches, den: self.len + m }
    }
}

} // verus!
