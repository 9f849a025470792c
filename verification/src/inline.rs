//! Refining replaced tokens: what is replaced is set against what replaces
//! it, token by token, and the characters of each pair are diffed in turn.
use vstd::prelude::*;
use crate::changes::{
    change_at, change_count, ends_with_newline, has_newline, op_in_range, Change, ChangeTag,
};
use crate::intern::intern;
use crate::myers::{lemma_myers_relabel, myers_script};
use crate::script::{lemma_script_relabel, lemma_starts_nonneg};
use crate::text::fits;
use crate::tokenize::{
    contents, lemma_token_facts, offset_of, tokenize, tokenizes, tokens_of,
    Granularity,
};
use crate::types::DiffOp;

verus! {

/// A change with the parts of its token that differ from its counterpart.
#[derive(Debug, PartialEq, Eq)]
pub struct InlineChange<'a> {
    pub tag: ChangeTag,
    pub old_index: Option<usize>,
    pub new_index: Option<usize>,
    pub value: &'a [u8],
    /// The byte ranges of `value` that differ, each as `(start, end)`.
    pub spans: Vec<(usize, usize)>,
}

impl<'a> InlineChange<'a> {
    /// The change without its spans.
    pub open spec fn plain(&self) -> Change<'a> {
        Change {
            tag: self.tag,
            old_index: self.old_index,
            new_index: self.new_index,
            value: self.value,
        }
    }

    /// The kind of the change.
    pub fn tag(&self) -> (r: ChangeTag)
        ensures
            r == self.tag,
    {
        self.tag
    }

    /// The index of the token on the old side, if it is there.
    pub fn old_index(&self) -> (r: Option<usize>)
        ensures
            r == self.old_index,
    {
        self.old_index
    }

    /// The index of the token on the new side, if it is there.
    pub fn new_index(&self) -> (r: Option<usize>)
        ensures
            r == self.new_index,
    {
        self.new_index
    }

    /// The token.
    pub fn value(&self) -> (r: &'a [u8])
        ensures
            r == self.value,
    {
        self.value
    }

    /// The byte ranges of the token that differ from its counterpart.
    pub fn spans(&self) -> (r: &Vec<(usize, usize)>)
        ensures
            r@ == self.spans@,
    {
        &self.spans
    }

    /// Whether the token lacks a line terminator at its end.
    pub fn missing_newline(&self) -> (r: bool)
        ensures
            r == !ends_with_newline(self.value@),
    {
        !has_newline(self.value)
    }
}

/// The byte ranges of the tokens that the script does not declare equal, on one side.
pub open spec fn spans_of(ops: Seq<DiffOp>, tokens: Seq<Seq<u8>>, old_side: bool) -> Seq<
    (usize, usize),
>
    decreases ops.len(),
{
    if ops.len() == 0 {
        Seq::empty()
    } else {
        let rest = spans_of(ops.drop_last(), tokens, old_side);
        let op = ops.last();
        let start = if old_side { op.old_start() } else { op.new_start() };
        let end = if old_side { op.old_end() } else { op.new_end() };
        if op is Equal || start == end {
            rest
        } else {
            rest.push((offset_of(tokens, start) as usize, offset_of(tokens, end) as usize))
        }
    }
}

/// The spans mark what the Myers script between the characters of the two
/// tokens does not declare equal.
pub open spec fn refines(
    old_spans: Seq<(usize, usize)>,
    new_spans: Seq<(usize, usize)>,
    old_token: Seq<u8>,
    new_token: Seq<u8>,
) -> bool {
    let old_chars = tokens_of(old_token, Granularity::Chars);
    let new_chars = tokens_of(new_token, Granularity::Chars);
    &&& old_spans == spans_of(myers_script(old_chars, new_chars), old_chars, true)
    &&& new_spans == spans_of(myers_script(old_chars, new_chars), new_chars, false)
}

/// The spans of a pair of tokens: those of a refinement; none where the
/// two tokens are too long to be diffed.
pub open spec fn pair_spans(
    old_spans: Seq<(usize, usize)>,
    new_spans: Seq<(usize, usize)>,
    old_token: Seq<u8>,
    new_token: Seq<u8>,
) -> bool {
    if fits(old_token, new_token) {
        refines(old_spans, new_spans, old_token, new_token)
    } else {
        old_spans.len() == 0 && new_spans.len() == 0
    }
}

/// How many tokens of a `Replace` have a counterpart: those of the shorter side.
pub open spec fn pairs(op: DiffOp) -> int {
    if !(op is Replace) {
        0
    } else if op.old_count() <= op.new_count() {
        op.old_count()
    } else {
        op.new_count()
    }
}

/// `r` are the changes of `op`, refined: the changes that `op` expands to;
/// of a `Replace`, old token `t` and new token `t` carry the spans of their
/// pair; every other change carries none.
pub open spec fn is_inline<'a>(
    r: Seq<InlineChange<'a>>,
    op: DiffOp,
    old: Seq<&'a [u8]>,
    new: Seq<&'a [u8]>,
) -> bool {
    &&& r.len() == change_count(op)
    &&& forall|t: int| 0 <= t < r.len() ==> (#[trigger] r[t]).plain() == change_at(op, old, new, t)
    &&& forall|t: int|
        0 <= t < r.len() && !(t < pairs(op)) && !(op.old_count() <= t < op.old_count() + pairs(op))
            ==> (#[trigger] r[t]).spans@.len() == 0
    &&& forall|t: int, u: int|
        0 <= t < pairs(op) && u == op.old_count() + t ==> pair_spans(
            (#[trigger] r[t]).spans@,
            (#[trigger] r[u]).spans@,
            old[op.old_start() + t]@,
            new[op.new_start() + t]@,
        )
}

/// The position at which every token starts, and at which the last one ends.
fn token_starts(tokens: &[&[u8]], Ghost(s): Ghost<Seq<u8>>, Ghost(g): Ghost<Granularity>) -> (starts:
    Vec<usize>)
    requires
        tokenizes(contents(tokens@), s, g),
        s.len() <= usize::MAX,
    ensures
        starts@.len() == tokens@.len() + 1,
        forall|k: int|
            0 <= k <= tokens@.len() ==> #[trigger] starts@[k] == offset_of(contents(tokens@), k),
{
    let mut starts: Vec<usize> = Vec::new();
    let mut at: usize = 0;
    starts.push(0);
    let mut k: usize = 0;
    while k < tokens.len()
        invariant
            k <= tokens@.len(),
            tokenizes(contents(tokens@), s, g),
            s.len() <= usize::MAX,
            at == offset_of(contents(tokens@), k as int),
            starts@.len() == k + 1,
            forall|i: int| 0 <= i <= k ==> #[trigger] starts@[i] == offset_of(contents(tokens@), i),
        decreases tokens@.len() - k,
    {
        proof {
            lemma_token_facts(contents(tokens@), s, g, k as int);
        }
        at = at + tokens[k].len();
        starts.push(at);
        k = k + 1;
    }
    starts
}

/// The spans of one side of a script.
fn side_spans(
    ops: &Vec<DiffOp>,
    starts: &Vec<usize>,
    old_side: bool,
    Ghost(tokens): Ghost<Seq<Seq<u8>>>,
    Ghost(x): Ghost<int>,
    Ghost(y): Ghost<int>,
) -> (spans: Vec<(usize, usize)>)
    requires
        crate::script::linked(ops@, 0, 0, x, y),
        x <= usize::MAX,
        y <= usize::MAX,
        starts@.len() == tokens.len() + 1,
        tokens.len() == if old_side { x } else { y },
        forall|k: int| 0 <= k <= tokens.len() ==> #[trigger] starts@[k] == offset_of(tokens, k),
    ensures
        spans@ == spans_of(ops@, tokens, old_side),
{
    let mut spans: Vec<(usize, usize)> = Vec::new();
    let mut i: usize = 0;
    while i < ops.len()
        invariant
            i <= ops@.len(),
            crate::script::linked(ops@, 0, 0, x, y),
            x <= usize::MAX,
            y <= usize::MAX,
            starts@.len() == tokens.len() + 1,
            tokens.len() == if old_side { x } else { y },
            forall|k: int| 0 <= k <= tokens.len() ==> #[trigger] starts@[k] == offset_of(tokens, k),
            spans@ == spans_of(ops@.take(i as int), tokens, old_side),
        decreases ops@.len() - i,
    {
        let op = ops[i];
        proof {
            assert(ops@.take(i + 1).drop_last() =~= ops@.take(i as int));
            assert(ops@.take(i + 1).last() == ops@[i as int]);
            lemma_starts_nonneg(ops@, 0, 0, x, y, i as int);
        }
        let range = if old_side { op.old_range() } else { op.new_range() };
        let equal: bool = match op {
            DiffOp::Equal { .. } => true,
            _ => false,
        };
        if !equal && range.0 != range.1 {
            spans.push((starts[range.0], starts[range.1]));
        }
        i = i + 1;
    }
    assert(ops@.take(ops@.len() as int) =~= ops@);
    spans
}

/// The spans of a pair of tokens.
pub fn char_spans(old_token: &[u8], new_token: &[u8]) -> (r: (Vec<(usize, usize)>, Vec<(usize, usize)>))
    ensures
        pair_spans(r.0@, r.1@, old_token@, new_token@),
{
    let n: usize = old_token.len();
    let m: usize = new_token.len();
    if n >= usize::MAX - m {
        return (Vec::new(), Vec::new());
    }
    let old_chars = tokenize(old_token, Granularity::Chars);
    let new_chars = tokenize(new_token, Granularity::Chars);
    let ids = intern(old_chars.as_slice(), new_chars.as_slice());
    let ops = crate::myers::diff(ids.0.as_slice(), ids.1.as_slice());
    let ghost tc_old = contents(old_chars@);
    let ghost tc_new = contents(new_chars@);
    proof {
        lemma_script_relabel(ops@, ids.0@, ids.1@, tc_old, tc_new);
        lemma_myers_relabel(ids.0@, ids.1@, tc_old, tc_new, 0, 0, Seq::empty());
    }
    let old_starts = token_starts(old_chars.as_slice(), Ghost(old_token@), Ghost(Granularity::Chars));
    let new_starts = token_starts(new_chars.as_slice(), Ghost(new_token@), Ghost(Granularity::Chars));
    let old_spans = side_spans(
        &ops,
        &old_starts,
        true,
        Ghost(tc_old),
        Ghost(tc_old.len() as int),
        Ghost(tc_new.len() as int),
    );
    let new_spans = side_spans(
        &ops,
        &new_starts,
        false,
        Ghost(tc_new),
        Ghost(tc_old.len() as int),
        Ghost(tc_new.len() as int),
    );
    (old_spans, new_spans)
}

/// The changes of an `Equal` run; none of them carries a span.
fn equal_changes<'a>(op: &DiffOp, old_tokens: &[&'a [u8]], new_tokens: &[&'a [u8]]) -> (first: Vec<
    InlineChange<'a>,
>)
    requires
        *op is Equal,
        op_in_range(*op, old_tokens@.len() as int, new_tokens@.len() as int),
    ensures
        first@.len() == change_count(*op),
        forall|i: int|
            0 <= i < first@.len() ==> (#[trigger] first@[i]).plain() == change_at(
                *op,
                old_tokens@,
                new_tokens@,
                i,
            ) && first@[i].spans@.len() == 0,
{
    let old_total: usize = old_tokens.len();
    let new_total: usize = new_tokens.len();
    let mut first: Vec<InlineChange<'a>> = Vec::new();
    match *op {
        DiffOp::Equal { old_index, new_index, len } => {
            let mut t: usize = 0;
            while t < len
                invariant
                    t <= len,
                    *op == (DiffOp::Equal { old_index, new_index, len }),
                    op_in_range(*op, old_tokens@.len() as int, new_tokens@.len() as int),
                    old_total == old_tokens@.len(),
                    new_total == new_tokens@.len(),
                    first@.len() == t,
                    forall|i: int|
                        0 <= i < t ==> (#[trigger] first@[i]).plain() == change_at(
                            *op,
                            old_tokens@,
                            new_tokens@,
                            i,
                        ) && first@[i].spans@.len() == 0,
                decreases len - t,
            {
                first.push(
                    InlineChange {
                        tag: ChangeTag::Equal,
                        old_index: Some(old_index + t),
                        new_index: Some(new_index + t),
                        value: old_tokens[old_index + t],
                        spans: Vec::new(),
                    },
                );
                t = t + 1;
            }
        },
        _ => {},
    }
    first
}

/// The deletions and the insertions of an operation that is no `Equal` run.
/// Of a `Replace`, deletion `t` and insertion `t` carry the spans of their pair.
fn unequal_changes<'a>(op: &DiffOp, old_tokens: &[&'a [u8]], new_tokens: &[&'a [u8]]) -> (r: (
    Vec<InlineChange<'a>>,
    Vec<InlineChange<'a>>,
))
    requires
        !(*op is Equal),
        op_in_range(*op, old_tokens@.len() as int, new_tokens@.len() as int),
    ensures
        r.0@.len() == op.old_count(),
        r.1@.len() == op.new_count(),
        forall|i: int|
            0 <= i < r.0@.len() ==> (#[trigger] r.0@[i]).plain() == change_at(
                *op,
                old_tokens@,
                new_tokens@,
                i,
            ),
        forall|i: int|
            0 <= i < r.1@.len() ==> (#[trigger] r.1@[i]).plain() == change_at(
                *op,
                old_tokens@,
                new_tokens@,
                op.old_count() + i,
            ),
        forall|i: int| pairs(*op) <= i < r.0@.len() ==> (#[trigger] r.0@[i]).spans@.len() == 0,
        forall|i: int| pairs(*op) <= i < r.1@.len() ==> (#[trigger] r.1@[i]).spans@.len() == 0,
        forall|i: int|
            0 <= i < pairs(*op) ==> pair_spans(
                (#[trigger] r.0@[i]).spans@,
                r.1@[i].spans@,
                old_tokens@[op.old_start() + i]@,
                new_tokens@[op.new_start() + i]@,
            ),
{
    let old_total: usize = old_tokens.len();
    let new_total: usize = new_tokens.len();
    let mut first: Vec<InlineChange<'a>> = Vec::new();
    let mut second: Vec<InlineChange<'a>> = Vec::new();
    let old_index: usize = op.old_range().0;
    let old_len: usize = op.old_range().1 - old_index;
    let new_index: usize = op.new_range().0;
    let new_len: usize = op.new_range().1 - new_index;
    let replace: bool = match *op {
        DiffOp::Replace { .. } => true,
        _ => false,
    };
    let paired: usize = if !replace {
        0
    } else if old_len <= new_len {
        old_len
    } else {
        new_len
    };
    let mut t: usize = 0;
    while t < paired
        invariant
            t <= paired,
            paired == pairs(*op),
            !(*op is Equal),
            old_index == op.old_start(),
            old_len == op.old_count(),
            new_index == op.new_start(),
            new_len == op.new_count(),
            op_in_range(*op, old_tokens@.len() as int, new_tokens@.len() as int),
            old_total == old_tokens@.len(),
            new_total == new_tokens@.len(),
            first@.len() == t,
            second@.len() == t,
            forall|i: int|
                0 <= i < t ==> (#[trigger] first@[i]).plain() == change_at(
                    *op,
                    old_tokens@,
                    new_tokens@,
                    i,
                ),
            forall|i: int|
                0 <= i < t ==> (#[trigger] second@[i]).plain() == change_at(
                    *op,
                    old_tokens@,
                    new_tokens@,
                    old_len + i,
                ),
            forall|i: int|
                0 <= i < t ==> pair_spans(
                    (#[trigger] first@[i]).spans@,
                    second@[i].spans@,
                    old_tokens@[old_index + i]@,
                    new_tokens@[new_index + i]@,
                ),
        decreases paired - t,
    {
        let old_token = old_tokens[old_index + t];
        let new_token = new_tokens[new_index + t];
        let both = char_spans(old_token, new_token);
        first.push(
            InlineChange {
                tag: ChangeTag::Delete,
                old_index: Some(old_index + t),
                new_index: None,
                value: old_token,
                spans: both.0,
            },
        );
        second.push(
            InlineChange {
                tag: ChangeTag::Insert,
                old_index: None,
                new_index: Some(new_index + t),
                value: new_token,
                spans: both.1,
            },
        );
        t = t + 1;
    }
    let mut u: usize = paired;
    while u < old_len
        invariant
            paired <= u <= old_len,
            !(*op is Equal),
            old_index == op.old_start(),
            old_len == op.old_count(),
            op_in_range(*op, old_tokens@.len() as int, new_tokens@.len() as int),
            old_total == old_tokens@.len(),
            first@.len() == u,
            forall|i: int|
                0 <= i < u ==> (#[trigger] first@[i]).plain() == change_at(
                    *op,
                    old_tokens@,
                    new_tokens@,
                    i,
                ),
            forall|i: int| paired <= i < u ==> (#[trigger] first@[i]).spans@.len() == 0,
            forall|i: int|
                0 <= i < paired ==> pair_spans(
                    (#[trigger] first@[i]).spans@,
                    second@[i].spans@,
                    old_tokens@[old_index + i]@,
                    new_tokens@[new_index + i]@,
                ),
        decreases old_len - u,
    {
        first.push(
            InlineChange {
                tag: ChangeTag::Delete,
                old_index: Some(old_index + u),
                new_index: None,
                value: old_tokens[old_index + u],
                spans: Vec::new(),
            },
        );
        u = u + 1;
    }
    let mut v: usize = paired;
    while v < new_len
        invariant
            paired <= v <= new_len,
            !(*op is Equal),
            new_index == op.new_start(),
            new_len == op.new_count(),
            old_len == op.old_count(),
            op_in_range(*op, old_tokens@.len() as int, new_tokens@.len() as int),
            new_total == new_tokens@.len(),
            second@.len() == v,
            forall|i: int|
                0 <= i < v ==> (#[trigger] second@[i]).plain() == change_at(
                    *op,
                    old_tokens@,
                    new_tokens@,
                    old_len + i,
                ),
            forall|i: int| paired <= i < v ==> (#[trigger] second@[i]).spans@.len() == 0,
            forall|i: int|
                0 <= i < paired ==> pair_spans(
                    (#[trigger] first@[i]).spans@,
                    second@[i].spans@,
                    old_tokens@[old_index + i]@,
                    new_tokens@[new_index + i]@,
                ),
        decreases new_len - v,
    {
        second.push(
            InlineChange {
                tag: ChangeTag::Insert,
                old_index: None,
                new_index: Some(new_index + v),
                value: new_tokens[new_index + v],
                spans: Vec::new(),
            },
        );
        v = v + 1;
    }
    (first, second)
}

/// The deletions of an operation followed by its insertions are its refined changes.
proof fn lemma_join_inline<'a>(
    deletes: Seq<InlineChange<'a>>,
    inserts: Seq<InlineChange<'a>>,
    op: DiffOp,
    old: Seq<&'a [u8]>,
    new: Seq<&'a [u8]>,
)
    requires
        !(op is Equal),
        deletes.len() == op.old_count(),
        inserts.len() == op.new_count(),
        forall|i: int|
            0 <= i < deletes.len() ==> (#[trigger] deletes[i]).plain() == change_at(op, old, new, i),
        forall|i: int|
            0 <= i < inserts.len() ==> (#[trigger] inserts[i]).plain() == change_at(
                op,
                old,
                new,
                op.old_count() + i,
            ),
        forall|i: int| pairs(op) <= i < deletes.len() ==> (#[trigger] deletes[i]).spans@.len() == 0,
        forall|i: int| pairs(op) <= i < inserts.len() ==> (#[trigger] inserts[i]).spans@.len() == 0,
        forall|i: int|
            0 <= i < pairs(op) ==> pair_spans(
                (#[trigger] deletes[i]).spans@,
                inserts[i].spans@,
                old[op.old_start() + i]@,
                new[op.new_start() + i]@,
            ),
    ensures
        is_inline(deletes + inserts, op, old, new),
{
    let all = deletes + inserts;
    let old_len = op.old_count();
    assert forall|t: int| 0 <= t < all.len() implies (#[trigger] all[t]).plain() == change_at(
        op,
        old,
        new,
        t,
    ) by {
        if t >= old_len {
            assert(all[t] == inserts[t - old_len]);
        } else {
            assert(all[t] == deletes[t]);
        }
    }
    assert forall|t: int|
        0 <= t < all.len() && !(t < pairs(op)) && !(op.old_count() <= t < op.old_count() + pairs(
            op,
        )) implies (#[trigger] all[t]).spans@.len() == 0 by {
        if t >= old_len {
            assert(all[t] == inserts[t - old_len]);
        } else {
            assert(all[t] == deletes[t]);
        }
    }
    assert forall|t: int, u: int| 0 <= t < pairs(op) && u == op.old_count() + t implies pair_spans(
        (#[trigger] all[t]).spans@,
        (#[trigger] all[u]).spans@,
        old[op.old_start() + t]@,
        new[op.new_start() + t]@,
    ) by {
        assert(all[t] == deletes[t]);
        assert(all[u] == inserts[t]);
    }
}

/// The changes that `op` expands to, with the spans of the tokens that a `Replace` pairs.
pub fn iter_inline_changes<'a>(op: &DiffOp, old_tokens: &[&'a [u8]], new_tokens: &[&'a [u8]]) -> (r:
    Vec<InlineChange<'a>>)
    requires
        op_in_range(*op, old_tokens@.len() as int, new_tokens@.len() as int),
    ensures
        is_inline(r@, *op, old_tokens@, new_tokens@),
{
    let equal: bool = match *op {
        DiffOp::Equal { .. } => true,
        _ => false,
    };
    if equal {
        equal_changes(op, old_tokens, new_tokens)
    } else {
        let both = unequal_changes(op, old_tokens, new_tokens);
        let mut first = both.0;
        let mut second = both.1;
        let ghost deletes = first@;
        let ghost inserts = second@;
        first.append(&mut second);
        proof {
            assert(first@ =~= deletes + inserts);
            lemma_join_inline(deletes, inserts, *op, old_tokens@, new_tokens@);
        }
        first
    }
}

} // verus!
