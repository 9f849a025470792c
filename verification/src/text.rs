//! Text diffing: a configuration, the diff of two texts, and what can be asked of it.
use vstd::prelude::*;
use vstd::string::StringSliceAdditionalSpecFns;
use crate::changes::{all_changes, op_changes, op_in_range, Change};
use crate::close::{
    is_close_matches, keep_best, lemma_reaches_monotone, lemma_top_skip, reaches, score, scored,
    texts, top_of, Entry,
};
use crate::group::{group_diff_ops, groups_of, hunks};
use crate::intern::{intern, Interner};
use crate::lcs::{lcs_len, lemma_lcs_relabel};
use crate::matcher::capture_diff_slices;
use crate::myers::{lemma_myers_relabel, myers_script};
use crate::patience::{
    is_patience_script, lemma_patience_script_relabel, lemma_patience_steps_relabel,
    patience_script, same_pattern,
};
use crate::ratio::{
    get_diff_ratio, lemma_lcs_at_most_common, upper_seq_ratio, QuickSeqRatio, Ratio,
};
use crate::script::{is_edit_script, lemma_script_relabel, lemma_starts_nonneg, matched};
use crate::segment::{
    covers_buffer, encoded, grapheme_clusters, tokenize_graphemes, tokenize_unicode_words,
    word_bounds,
};
use crate::tokenize::{contents, tokenize, tokenizes, tokens_of, Granularity};
use crate::types::{Algorithm, DiffOp};

verus! {

/// How a text diff is to be made.
#[derive(Clone, Copy, Debug)]
pub struct TextDiffConfig {
    pub algorithm: Algorithm,
    pub newline_terminated: Option<bool>,
}

impl Default for TextDiffConfig {
    fn default() -> (r: TextDiffConfig)
        ensures
            r.algorithm == Algorithm::Myers,
            r.newline_terminated is None,
    {
        TextDiffConfig { algorithm: Algorithm::Myers, newline_terminated: None }
    }
}

/// Two token sequences, the script between them, and how it was made.
pub struct TextDiff<'a> {
    old: Vec<&'a [u8]>,
    new: Vec<&'a [u8]>,
    ops: Vec<DiffOp>,
    newline_terminated: bool,
    algorithm: Algorithm,
}

/// The two texts are short enough for their tokens to be counted together.
pub open spec fn fits(old: Seq<u8>, new: Seq<u8>) -> bool {
    old.len() + new.len() < usize::MAX
}

impl TextDiffConfig {
    /// Changes the algorithm. The default is `Algorithm::Myers`.
    pub fn algorithm(&mut self, alg: Algorithm) -> (r: &mut Self)
        ensures
            r.algorithm == alg,
            r.newline_terminated == old(self).newline_terminated,
            *final(self) == *final(r),
    {
        self.algorithm = alg;
        self
    }

    /// Says whether the tokens carry their own line terminators. By default
    /// that depends on how the text is cut: lines do, nothing else does.
    pub fn newline_terminated(&mut self, yes: bool) -> (r: &mut Self)
        ensures
            r.algorithm == old(self).algorithm,
            r.newline_terminated == Some(yes),
            *final(self) == *final(r),
    {
        self.newline_terminated = Some(yes);
        self
    }

    /// What the diff will say of its tokens' terminators, given the default of its granularity.
    pub open spec fn terminated(&self, by_default: bool) -> bool {
        match self.newline_terminated {
            Some(yes) => yes,
            None => by_default,
        }
    }

    /// The diff of two texts cut at the given granularity.
    fn diff_text<'a>(&self, old: &'a str, new: &'a str, g: Granularity, by_default: bool) -> (d:
        TextDiff<'a>)
        requires
            fits(old.spec_bytes(), new.spec_bytes()),
        ensures
            d.valid(),
            tokenizes(d.old_tokens(), old.spec_bytes(), g),
            tokenizes(d.new_tokens(), new.spec_bytes(), g),
            d.algorithm_used() == self.algorithm,
            d.is_newline_terminated() == self.terminated(by_default),
    {
        let old_tokens = tokenize(old.as_bytes(), g);
        let new_tokens = tokenize(new.as_bytes(), g);
        self.diff(old_tokens, new_tokens, by_default)
    }

    /// The diff of the lines of two texts; every line keeps its terminator.
    pub fn diff_lines<'a>(&self, old: &'a str, new: &'a str) -> (d: TextDiff<'a>)
        requires
            fits(old.spec_bytes(), new.spec_bytes()),
        ensures
            d.valid(),
            tokenizes(d.old_tokens(), old.spec_bytes(), Granularity::Lines),
            tokenizes(d.new_tokens(), new.spec_bytes(), Granularity::Lines),
            d.algorithm_used() == self.algorithm,
            d.is_newline_terminated() == self.terminated(true),
    {
        self.diff_text(old, new, Granularity::Lines, true)
    }

    /// The diff of the words of two texts, and of the whitespace between them.
    pub fn diff_words<'a>(&self, old: &'a str, new: &'a str) -> (d: TextDiff<'a>)
        requires
            fits(old.spec_bytes(), new.spec_bytes()),
        ensures
            d.valid(),
            tokenizes(d.old_tokens(), old.spec_bytes(), Granularity::Words),
            tokenizes(d.new_tokens(), new.spec_bytes(), Granularity::Words),
            d.algorithm_used() == self.algorithm,
            d.is_newline_terminated() == self.terminated(false),
    {
        self.diff_text(old, new, Granularity::Words, false)
    }

    /// The diff of the characters of two texts.
    pub fn diff_chars<'a>(&self, old: &'a str, new: &'a str) -> (d: TextDiff<'a>)
        requires
            fits(old.spec_bytes(), new.spec_bytes()),
        ensures
            d.valid(),
            tokenizes(d.old_tokens(), old.spec_bytes(), Granularity::Chars),
            tokenizes(d.new_tokens(), new.spec_bytes(), Granularity::Chars),
            d.algorithm_used() == self.algorithm,
            d.is_newline_terminated() == self.terminated(false),
    {
        self.diff_text(old, new, Granularity::Chars, false)
    }

    /// The diff of the pieces between the word boundaries of two texts, by
    /// the rules of Unicode text segmentation.
    pub fn diff_unicode_words<'a>(&self, old: &'a str, new: &'a str) -> (d: TextDiff<'a>)
        requires
            fits(old.spec_bytes(), new.spec_bytes()),
        ensures
            d.valid(),
            d.old_tokens() == encoded(word_bounds(old@)),
            d.new_tokens() == encoded(word_bounds(new@)),
            covers_buffer(d.old_tokens(), old.spec_bytes()),
            covers_buffer(d.new_tokens(), new.spec_bytes()),
            d.algorithm_used() == self.algorithm,
            d.is_newline_terminated() == self.terminated(false),
    {
        let old_tokens = tokenize_unicode_words(old);
        let new_tokens = tokenize_unicode_words(new);
        self.diff(old_tokens, new_tokens, false)
    }

    /// The diff of the grapheme clusters of two texts.
    pub fn diff_graphemes<'a>(&self, old: &'a str, new: &'a str) -> (d: TextDiff<'a>)
        requires
            fits(old.spec_bytes(), new.spec_bytes()),
        ensures
            d.valid(),
            d.old_tokens() == encoded(grapheme_clusters(old@)),
            d.new_tokens() == encoded(grapheme_clusters(new@)),
            covers_buffer(d.old_tokens(), old.spec_bytes()),
            covers_buffer(d.new_tokens(), new.spec_bytes()),
            d.algorithm_used() == self.algorithm,
            d.is_newline_terminated() == self.terminated(false),
    {
        let old_tokens = tokenize_graphemes(old);
        let new_tokens = tokenize_graphemes(new);
        self.diff(old_tokens, new_tokens, false)
    }

    /// The diff of two token sequences as they are.
    pub fn diff_slices<'a>(&self, old: &[&'a [u8]], new: &[&'a [u8]]) -> (d: TextDiff<'a>)
        requires
            old@.len() + new@.len() < usize::MAX,
        ensures
            d.valid(),
            d.old_view() == old@,
            d.new_view() == new@,
            d.algorithm_used() == self.algorithm,
            d.is_newline_terminated() == self.terminated(false),
    {
        let old_tokens = copy_tokens(old);
        let new_tokens = copy_tokens(new);
        self.diff(old_tokens, new_tokens, false)
    }

    /// The diff of two token sequences.
    pub fn diff<'a>(&self, old: Vec<&'a [u8]>, new: Vec<&'a [u8]>, by_default: bool) -> (d:
        TextDiff<'a>)
        requires
            old@.len() + new@.len() < usize::MAX,
        ensures
            d.valid(),
            d.old_view() == old@,
            d.new_view() == new@,
            d.algorithm_used() == self.algorithm,
            d.is_newline_terminated() == self.terminated(by_default),
    {
        let ids = intern(old.as_slice(), new.as_slice());
        let ops = capture_diff_slices(self.algorithm, ids.0.as_slice(), ids.1.as_slice());
        proof {
            let a = ids.0@;
            let b = ids.1@;
            let c = contents(old@);
            let e = contents(new@);
            lemma_script_relabel(ops@, a, b, c, e);
            lemma_lcs_relabel(a, b, c, e, 0, 0);
            lemma_myers_relabel(a, b, c, e, 0, 0, Seq::empty());
            assert(same_pattern(a, b, c, e));
            if self.algorithm == Algorithm::Patience {
                lemma_patience_script_relabel(ops@, a, b, c, e);
                lemma_patience_steps_relabel(a, b, c, e, 0, 0, Seq::empty());
            }
            if c == e {
                assert(a =~= b) by {
                    assert forall|i: int| 0 <= i < a.len() implies a[i] == b[i] by {
                        assert(c[i] == e[i]);
                    }
                }
            }
        }
        let terminated: bool = match self.newline_terminated {
            Some(yes) => yes,
            None => by_default,
        };
        TextDiff { old, new, ops, newline_terminated: terminated, algorithm: self.algorithm }
    }
}

/// Whether the two texts are short enough to be diffed.
pub fn texts_fit(old: &str, new: &str) -> (r: bool)
    ensures
        r == fits(old.spec_bytes(), new.spec_bytes()),
{
    let old_len: usize = old.as_bytes().len();
    let new_len: usize = new.as_bytes().len();
    old_len < usize::MAX - new_len
}

/// A vector of the same tokens.
fn copy_tokens<'a>(tokens: &[&'a [u8]]) -> (r: Vec<&'a [u8]>)
    ensures
        r@ == tokens@,
{
    let mut r: Vec<&'a [u8]> = Vec::new();
    let mut i: usize = 0;
    while i < tokens.len()
        invariant
            i <= tokens@.len(),
            r@ == tokens@.take(i as int),
        decreases tokens@.len() - i,
    {
        r.push(tokens[i]);
        assert(tokens@.take(i + 1) =~= tokens@.take(i as int).push(tokens@[i as int]));
        i = i + 1;
    }
    assert(tokens@.take(tokens@.len() as int) =~= tokens@);
    r
}

impl<'a> TextDiff<'a> {
    #[verifier::type_invariant]
    spec fn inv(self) -> bool {
        &&& self.old@.len() + self.new@.len() < usize::MAX
        &&& is_edit_script(self.ops@, contents(self.old@), contents(self.new@))
        &&& self.algorithm == Algorithm::Myers ==> matched(self.ops@) == lcs_len(
            contents(self.old@),
            contents(self.new@),
        )
        &&& self.algorithm == Algorithm::Myers ==> self.ops@ == myers_script(
            contents(self.old@),
            contents(self.new@),
        )
        &&& contents(self.old@) == contents(self.new@) ==> matched(self.ops@) == self.old@.len()
        &&& self.algorithm == Algorithm::Patience ==> self.ops@ == patience_script(
            contents(self.old@),
            contents(self.new@),
        ) && is_patience_script(self.ops@, contents(self.old@), contents(self.new@))
    }

    /// The old tokens, as slices.
    pub closed spec fn old_view(&self) -> Seq<&'a [u8]> {
        self.old@
    }

    /// The new tokens, as slices.
    pub closed spec fn new_view(&self) -> Seq<&'a [u8]> {
        self.new@
    }

    /// What the old tokens hold.
    pub open spec fn old_tokens(&self) -> Seq<Seq<u8>> {
        contents(self.old_view())
    }

    /// What the new tokens hold.
    pub open spec fn new_tokens(&self) -> Seq<Seq<u8>> {
        contents(self.new_view())
    }

    /// The operations of the diff.
    pub closed spec fn script(&self) -> Seq<DiffOp> {
        self.ops@
    }

    /// The algorithm that made the diff.
    pub closed spec fn algorithm_used(&self) -> Algorithm {
        self.algorithm
    }

    /// Whether the tokens are taken to carry their own line terminators.
    pub closed spec fn is_newline_terminated(&self) -> bool {
        self.newline_terminated
    }

    /// The operations are an edit script from the old tokens to the new ones;
    /// a Myers script is the shortest script that the Myers algorithm makes,
    /// which declares tokens equal as early as it can and removes before it
    /// adds; a Patience script is the script that the Patience algorithm
    /// makes, which pairs what the two sides share at their start and end,
    /// and the anchors of a longest chain of what lies between; and equal
    /// sides are declared equal.
    pub open spec fn valid(&self) -> bool {
        &&& self.old_view().len() + self.new_view().len() < usize::MAX
        &&& is_edit_script(self.script(), self.old_tokens(), self.new_tokens())
        &&& self.algorithm_used() == Algorithm::Myers ==> matched(self.script()) == lcs_len(
            self.old_tokens(),
            self.new_tokens(),
        )
        &&& self.algorithm_used() == Algorithm::Myers ==> self.script() == myers_script(
            self.old_tokens(),
            self.new_tokens(),
        )
        &&& self.old_tokens() == self.new_tokens() ==> matched(self.script())
            == self.old_view().len()
        &&& self.algorithm_used() == Algorithm::Patience ==> self.script() == patience_script(
            self.old_tokens(),
            self.new_tokens(),
        ) && is_patience_script(self.script(), self.old_tokens(), self.new_tokens())
    }

    /// The ratio of a diff lies between zero and one; it is one where both
    /// sides hold the same tokens, and so where both are empty; and the ratio
    /// of a Myers diff is the highest that any script between the two sides has.
    pub proof fn lemma_ratio_range(&self, other: Seq<DiffOp>)
        requires
            self.valid(),
        ensures
            0 <= 2 * matched(self.script()) <= self.old_view().len() + self.new_view().len(),
            self.old_tokens() == self.new_tokens() ==> 2 * matched(self.script())
                == self.old_view().len() + self.new_view().len(),
            self.algorithm_used() == Algorithm::Myers && is_edit_script(
                other,
                self.old_tokens(),
                self.new_tokens(),
            ) ==> matched(other) <= matched(self.script()),
    {
        crate::ratio::lemma_ratio_bounds(
            self.script(),
            self.old_tokens().len() as int,
            self.new_tokens().len() as int,
        );
        if is_edit_script(other, self.old_tokens(), self.new_tokens()) {
            crate::ratio::lemma_matched_at_most_lcs(other, self.old_tokens(), self.new_tokens());
        }
    }

    /// The configuration to start from.
    pub fn configure() -> (r: TextDiffConfig)
        ensures
            r.algorithm == Algorithm::Myers,
            r.newline_terminated is None,
    {
        TextDiffConfig { algorithm: Algorithm::Myers, newline_terminated: None }
    }

    /// The diff of the lines of two texts, by the default configuration.
    pub fn from_lines(old: &'a str, new: &'a str) -> (d: TextDiff<'a>)
        requires
            fits(old.spec_bytes(), new.spec_bytes()),
        ensures
            d.valid(),
            tokenizes(d.old_tokens(), old.spec_bytes(), Granularity::Lines),
            tokenizes(d.new_tokens(), new.spec_bytes(), Granularity::Lines),
            d.algorithm_used() == Algorithm::Myers,
            d.is_newline_terminated(),
    {
        TextDiff::configure().diff_lines(old, new)
    }

    /// The diff of the words of two texts, by the default configuration.
    pub fn from_words(old: &'a str, new: &'a str) -> (d: TextDiff<'a>)
        requires
            fits(old.spec_bytes(), new.spec_bytes()),
        ensures
            d.valid(),
            tokenizes(d.old_tokens(), old.spec_bytes(), Granularity::Words),
            tokenizes(d.new_tokens(), new.spec_bytes(), Granularity::Words),
            d.algorithm_used() == Algorithm::Myers,
            !d.is_newline_terminated(),
    {
        TextDiff::configure().diff_words(old, new)
    }

    /// The diff of the characters of two texts, by the default configuration.
    pub fn from_chars(old: &'a str, new: &'a str) -> (d: TextDiff<'a>)
        requires
            fits(old.spec_bytes(), new.spec_bytes()),
        ensures
            d.valid(),
            tokenizes(d.old_tokens(), old.spec_bytes(), Granularity::Chars),
            tokenizes(d.new_tokens(), new.spec_bytes(), Granularity::Chars),
            d.algorithm_used() == Algorithm::Myers,
            !d.is_newline_terminated(),
    {
        TextDiff::configure().diff_chars(old, new)
    }

    /// The diff of the pieces between the word boundaries of two texts, by the default configuration.
    pub fn from_unicode_words(old: &'a str, new: &'a str) -> (d: TextDiff<'a>)
        requires
            fits(old.spec_bytes(), new.spec_bytes()),
        ensures
            d.valid(),
            d.old_tokens() == encoded(word_bounds(old@)),
            d.new_tokens() == encoded(word_bounds(new@)),
            covers_buffer(d.old_tokens(), old.spec_bytes()),
            covers_buffer(d.new_tokens(), new.spec_bytes()),
            d.algorithm_used() == Algorithm::Myers,
            !d.is_newline_terminated(),
    {
        TextDiff::configure().diff_unicode_words(old, new)
    }

    /// The diff of the grapheme clusters of two texts, by the default configuration.
    pub fn from_graphemes(old: &'a str, new: &'a str) -> (d: TextDiff<'a>)
        requires
            fits(old.spec_bytes(), new.spec_bytes()),
        ensures
            d.valid(),
            d.old_tokens() == encoded(grapheme_clusters(old@)),
            d.new_tokens() == encoded(grapheme_clusters(new@)),
            covers_buffer(d.old_tokens(), old.spec_bytes()),
            covers_buffer(d.new_tokens(), new.spec_bytes()),
            d.algorithm_used() == Algorithm::Myers,
            !d.is_newline_terminated(),
    {
        TextDiff::configure().diff_graphemes(old, new)
    }

    /// The diff of two token sequences as they are, by the default configuration.
    pub fn from_slices(old: &[&'a [u8]], new: &[&'a [u8]]) -> (d: TextDiff<'a>)
        requires
            old@.len() + new@.len() < usize::MAX,
        ensures
            d.valid(),
            d.old_view() == old@,
            d.new_view() == new@,
            d.algorithm_used() == Algorithm::Myers,
            !d.is_newline_terminated(),
    {
        TextDiff::configure().diff_slices(old, new)
    }

    /// The algorithm that made the diff.
    pub fn algorithm(&self) -> (r: Algorithm)
        ensures
            r == self.algorithm_used(),
    {
        self.algorithm
    }

    /// Whether the tokens are taken to carry their own line terminators.
    pub fn newline_terminated(&self) -> (r: bool)
        ensures
            r == self.is_newline_terminated(),
    {
        self.newline_terminated
    }

    /// The old tokens.
    pub fn old_slices(&self) -> (r: &[&'a [u8]])
        ensures
            r@ == self.old_view(),
    {
        self.old.as_slice()
    }

    /// The new tokens.
    pub fn new_slices(&self) -> (r: &[&'a [u8]])
        ensures
            r@ == self.new_view(),
    {
        self.new.as_slice()
    }

    /// The operations of the diff. Each speaks of tokens that exist.
    pub fn ops(&self) -> (r: &[DiffOp])
        ensures
            r@ == self.script(),
            self.valid(),
            forall|i: int|
                0 <= i < r@.len() ==> op_in_range(
                    #[trigger] r@[i],
                    self.old_view().len() as int,
                    self.new_view().len() as int,
                ),
    {
        proof {
            use_type_invariant(self);
            assert forall|i: int| 0 <= i < self.ops@.len() implies op_in_range(
                #[trigger] self.ops@[i],
                self.old@.len() as int,
                self.new@.len() as int,
            ) by {
                lemma_starts_nonneg(
                    self.ops@,
                    0,
                    0,
                    self.old@.len() as int,
                    self.new@.len() as int,
                    i,
                );
            }
        }
        self.ops.as_slice()
    }

    /// How similar the two sides are: twice the number of tokens that the
    /// script declares equal, over the number of tokens on both sides. For a
    /// Myers diff that number is the length of the longest common subsequence.
    pub fn ratio(&self) -> (r: Ratio)
        ensures
            self.valid(),
            r.num == 2 * matched(self.script()),
            r.den == self.old_view().len() + self.new_view().len(),
            r.num <= r.den,
            self.old_tokens() == self.new_tokens() ==> r.is_whole(),
    {
        proof {
            use_type_invariant(self);
        }
        get_diff_ratio(self.ops.as_slice(), self.old.len(), self.new.len())
    }

    /// The changes that one operation expands to.
    pub fn iter_changes(&self, op: &DiffOp) -> (r: Vec<Change<'a>>)
        requires
            op_in_range(*op, self.old_view().len() as int, self.new_view().len() as int),
        ensures
            r@ == op_changes(*op, self.old_view(), self.new_view()),
    {
        crate::changes::iter_changes(op, self.old.as_slice(), self.new.as_slice())
    }

    /// The hunks of the diff with `n` tokens of context around the changes.
    /// Every operation of a hunk speaks of tokens that exist.
    pub fn grouped_ops(&self, n: usize) -> (r: Vec<Vec<DiffOp>>)
        ensures
            hunks(r@) == groups_of(self.script(), n as int),
            forall|g: int|
                0 <= g < r@.len() ==> crate::udiff::all_in_range(
                    (#[trigger] r@[g])@,
                    self.old_view().len() as int,
                    self.new_view().len() as int,
                ),
    {
        proof {
            use_type_invariant(self);
            assert forall|i: int| 0 <= i < self.ops@.len() implies op_in_range(
                #[trigger] self.ops@[i],
                self.old@.len() as int,
                self.new@.len() as int,
            ) by {
                lemma_starts_nonneg(
                    self.ops@,
                    0,
                    0,
                    self.old@.len() as int,
                    self.new@.len() as int,
                    i,
                );
            }
            crate::udiff::lemma_groups_in_range(
                self.ops@,
                n as int,
                self.old@.len() as int,
                self.new@.len() as int,
                self.ops@.len() as int,
            );
            assert forall|i: int| 0 <= i < self.ops@.len() implies (
            #[trigger] self.ops@[i]).bounded() by {
                lemma_starts_nonneg(
                    self.ops@,
                    0,
                    0,
                    self.old@.len() as int,
                    self.new@.len() as int,
                    i,
                );
            }
        }
        let groups = group_diff_ops(self.ops.as_slice(), n);
        proof {
            assert forall|g: int| 0 <= g < groups@.len() implies crate::udiff::all_in_range(
                (#[trigger] groups@[g])@,
                self.old@.len() as int,
                self.new@.len() as int,
            ) by {
                assert(hunks(groups@)[g] == groups@[g]@);
                let state = crate::group::grouping_upto(self.ops@, n as int, self.ops@.len() as int);
                let all = groups_of(self.ops@, n as int);
                assert(all.len() == hunks(groups@).len());
                if g < state.done.len() {
                    assert(all[g] == state.done[g]);
                } else {
                    assert(state.changed);
                    assert(all == state.done.push(state.pending));
                    assert(all[g] == state.pending);
                }
            }
        }
        groups
    }

    /// The changes that one operation expands to, with the parts of replaced
    /// tokens that differ from what replaces them.
    pub fn iter_inline_changes(&self, op: &DiffOp) -> (r: Vec<crate::inline::InlineChange<'a>>)
        requires
            op_in_range(*op, self.old_view().len() as int, self.new_view().len() as int),
        ensures
            crate::inline::is_inline(r@, *op, self.old_view(), self.new_view()),
    {
        crate::inline::iter_inline_changes(op, self.old.as_slice(), self.new.as_slice())
    }

    /// The unified diff of this diff, to be configured and written.
    pub fn unified_diff<'d>(&'d self) -> (r: crate::udiff::UnifiedDiff<'d, 'a>)
        ensures
            r.diff == self,
            r.context_radius == 3,
            r.missing_newline_hint,
            r.header is None,
    {
        crate::udiff::UnifiedDiff::from_text_diff(self)
    }

    /// All changes of the diff, in order.
    pub fn iter_all_changes(&self) -> (r: Vec<Change<'a>>)
        ensures
            r@ == all_changes(self.script(), self.old_view(), self.new_view()),
    {
        proof {
            use_type_invariant(self);
            assert forall|i: int| 0 <= i < self.ops@.len() implies op_in_range(
                #[trigger] self.ops@[i],
                self.old@.len() as int,
                self.new@.len() as int,
            ) by {
                lemma_starts_nonneg(
                    self.ops@,
                    0,
                    0,
                    self.old@.len() as int,
                    self.new@.len() as int,
                    i,
                );
            }
        }
        crate::changes::iter_all_changes(self.ops.as_slice(), self.old.as_slice(), self.new.as_slice())
    }
}

/// The candidates that are most similar to `word`, the most similar first:
/// at most `n`, each with a similarity of at least `cutoff`. The similarity
/// of a candidate is twice the length of the longest common subsequence of
/// its characters and those of `word`, over the number of characters of
/// both. Candidates of the same similarity stand in lexicographic order.
pub fn get_close_matches<'a>(word: &str, possibilities: &[&'a str], n: usize, cutoff: Ratio) -> (r:
    Vec<&'a str>)
    requires
        forall|i: int|
            0 <= i < possibilities@.len() ==> fits(
                word.spec_bytes(),
                (#[trigger] possibilities@[i]).spec_bytes(),
            ),
    ensures
        is_close_matches(r@, word.spec_bytes(), possibilities@, n as int, cutoff),
{
    let ghost word_bytes = word.spec_bytes();
    let ghost cands = texts(possibilities@);
    let word_tokens = tokenize(word.as_bytes(), Granularity::Chars);
    let mut interner = Interner::new();
    let word_ids = interner.ids_of(word_tokens.as_slice());
    let quick = QuickSeqRatio::new(word_ids.as_slice());
    let wn: usize = word_ids.len();
    let mut best: Vec<Entry> = Vec::new();
    let mut c: usize = 0;
    while c < possibilities.len()
        invariant
            c <= possibilities@.len(),
            word_bytes == word.spec_bytes(),
            cands == texts(possibilities@),
            forall|i: int|
                0 <= i < possibilities@.len() ==> fits(
                    word_bytes,
                    (#[trigger] possibilities@[i]).spec_bytes(),
                ),
            contents(word_tokens@) == tokens_of(word_bytes, Granularity::Chars),
            word_tokens@.len() <= word_bytes.len(),
            wn == word_ids@.len(),
            word_ids@.len() == word_tokens@.len(),
            quick.counted() == word_ids@,
            interner.wf(),
            forall|i: int|
                0 <= i < word_ids@.len() ==> (#[trigger] word_ids@[i]) < interner.table@.len()
                    && interner.table@[word_ids@[i] as int]@ == word_tokens@[i]@,
            top_of(best@, cands, word_bytes, cutoff, n as int, c as int),
        decreases possibilities@.len() - c,
    {
        let cand = possibilities[c];
        let cand_tokens = tokenize(cand.as_bytes(), Granularity::Chars);
        let cand_ids = interner.ids_of(cand_tokens.as_slice());
        let cn: usize = cand_ids.len();
        let ghost tw = contents(word_tokens@);
        let ghost tc = contents(cand_tokens@);
        proof {
            assert(cands[c as int] == cand.spec_bytes());
            assert(fits(word_bytes, possibilities@[c as int].spec_bytes()));
            assert forall|x: int, y: int|
                #![trigger word_ids@[x], cand_ids@[y]]
                0 <= x < word_ids@.len() && 0 <= y < cand_ids@.len() implies ((word_ids@[x]
                == cand_ids@[y]) <==> (tw[x] == tc[y])) by {
                assert(interner.table@[word_ids@[x] as int]@ == word_tokens@[x]@);
                assert(interner.table@[cand_ids@[y] as int]@ == cand_tokens@[y]@);
            }
            lemma_lcs_relabel(word_ids@, cand_ids@, tw, tc, 0, 0);
            lemma_lcs_at_most_common(word_ids@, cand_ids@);
        }
        let ghost target = score(word_bytes, cands[c as int]);
        let upper = upper_seq_ratio(wn, cn);
        let mut keep: bool = upper.reaches(&cutoff);
        proof {
            if !keep && reaches(target, cutoff) {
                lemma_reaches_monotone(target.num, upper.numer(), target.den, cutoff);
            }
        }
        if keep {
            let quick_ratio = quick.calc(cand_ids.as_slice());
            keep = quick_ratio.reaches(&cutoff);
            proof {
                if !keep && reaches(target, cutoff) {
                    lemma_reaches_monotone(target.num, quick_ratio.numer(), target.den, cutoff);
                }
            }
        }
        if keep {
            let ops = crate::myers::diff(word_ids.as_slice(), cand_ids.as_slice());
            let ratio = get_diff_ratio(ops.as_slice(), wn, cn);
            let entry = Entry { ratio, index: c };
            assert(scored(entry, cands) == target);
            keep = ratio.reaches(&cutoff);
            if keep {
                keep_best(&mut best, entry, n, possibilities, Ghost(word_bytes), Ghost(cutoff));
            }
        }
        proof {
            if !keep {
                lemma_top_skip(best@, cands, word_bytes, cutoff, n as int, c as int);
            }
        }
        c = c + 1;
    }
    let mut out: Vec<&'a str> = Vec::new();
    let mut k: usize = 0;
    while k < best.len()
        invariant
            k <= best@.len(),
            out@.len() == k,
            top_of(best@, texts(possibilities@), word_bytes, cutoff, n as int, possibilities@.len() as int),
            forall|i: int|
                0 <= i < k ==> #[trigger] out@[i] == possibilities@[best@[i].index as int],
        decreases best@.len() - k,
    {
        let index: usize = best[k].index;
        assert(best@[k as int].index < possibilities@.len());
        out.push(possibilities[index]);
        k = k + 1;
    }
    out
}

} // verus!
