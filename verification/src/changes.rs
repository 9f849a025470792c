//! Expanding operations into changes: one change per token.
use vstd::prelude::*;
use crate::script::{is_edit_script, lemma_starts_nonneg};
use crate::tokenize::contents;
use crate::types::DiffOp;

verus! {

/// The kind of a change.
#[derive(Clone, Copy, Debug, PartialEq, Eq, Structural, Hash)]
pub enum ChangeTag {
    /// The token is on both sides.
    Equal,
    /// The token is on the old side only.
    Delete,
    /// The token is on the new side only.
    Insert,
}

/// One token of a diff: where it stands on either side, and what it holds.
#[derive(Clone, Copy, Debug, PartialEq, Eq, Hash)]
pub struct Change<'a> {
    pub tag: ChangeTag,
    pub old_index: Option<usize>,
    pub new_index: Option<usize>,
    pub value: &'a [u8],
}

/// The token ends with `\n` or `\r`.
pub open spec fn ends_with_newline(s: Seq<u8>) -> bool {
    s.len() > 0 && (s.last() == 0x0a || s.last() == 0x0d)
}

/// Whether the token ends with `\n` or `\r`.
pub fn has_newline(s: &[u8]) -> (r: bool)
    ensures
        r == ends_with_newline(s@),
{
    let n: usize = s.len();
    n > 0 && (s[n - 1] == 0x0a || s[n - 1] == 0x0d)
}

impl<'a> Change<'a> {
    /// The kind of the change.
    pub fn tag(&self) -> (r: ChangeTag)
        ensures
            r == self.tag,
    {
        self.tag
    }

    /// The index of the token on the old side, if it is there.
    pub fn old_index(&self) -> (r: Option<usize>)
        ensures
            r == self.old_index,
    {
        self.old_index
    }

    /// The index of the token on the new side, if it is there.
    pub fn new_index(&self) -> (r: Option<usize>)
        ensures
            r == self.new_index,
    {
        self.new_index
    }

    /// The token.
    pub fn value(&self) -> (r: &'a [u8])
        ensures
            r == self.value,
    {
        self.value
    }

    /// Whether the token lacks a line terminator at its end.
    pub fn missing_newline(&self) -> (r: bool)
        ensures
            r == !ends_with_newline(self.value@),
    {
        !has_newline(self.value)
    }

    /// The token as a string; it is the token itself where that is UTF-8.
    pub fn to_string_lossy(&self) -> (r: String)
        ensures
            vstd::utf8::valid_utf8(self.value@) ==> r@ == vstd::utf8::decode_utf8(self.value@),
    {
        crate::udiff::lossy_string(self.value)
    }
}

/// How many changes an operation expands to.
pub open spec fn change_count(op: DiffOp) -> int {
    match op {
        DiffOp::Equal { len, .. } => len as int,
        _ => op.old_count() + op.new_count(),
    }
}

/// The change number `t` of an operation: an equal token for each token of an
/// `Equal` run; deletions of the old tokens, then insertions of the new ones,
/// otherwise.
pub open spec fn change_at<'a>(
    op: DiffOp,
    old: Seq<&'a [u8]>,
    new: Seq<&'a [u8]>,
    t: int,
) -> Change<'a> {
    if op is Equal {
        Change {
            tag: ChangeTag::Equal,
            old_index: Some((op.old_start() + t) as usize),
            new_index: Some((op.new_start() + t) as usize),
            value: old[op.old_start() + t],
        }
    } else if t < op.old_count() {
        Change {
            tag: ChangeTag::Delete,
            old_index: Some((op.old_start() + t) as usize),
            new_index: None,
            value: old[op.old_start() + t],
        }
    } else {
        Change {
            tag: ChangeTag::Insert,
            old_index: None,
            new_index: Some((op.new_start() + (t - op.old_count())) as usize),
            value: new[op.new_start() + (t - op.old_count())],
        }
    }
}

/// The changes that an operation expands to.
pub open spec fn op_changes<'a>(op: DiffOp, old: Seq<&'a [u8]>, new: Seq<&'a [u8]>) -> Seq<
    Change<'a>,
> {
    Seq::new(change_count(op) as nat, |t: int| change_at(op, old, new, t))
}

/// The changes that a list of operations expands to, in order.
pub open spec fn all_changes<'a>(ops: Seq<DiffOp>, old: Seq<&'a [u8]>, new: Seq<&'a [u8]>) -> Seq<
    Change<'a>,
>
    decreases ops.len(),
{
    if ops.len() == 0 {
        Seq::empty()
    } else {
        all_changes(ops.drop_last(), old, new) + op_changes(ops.last(), old, new)
    }
}

/// The operation speaks of tokens that exist.
pub open spec fn op_in_range(op: DiffOp, old_len: int, new_len: int) -> bool {
    op.old_end() <= old_len && op.new_end() <= new_len
}

/// Appends the changes of `op` to `out`.
pub fn push_changes<'a>(
    out: &mut Vec<Change<'a>>,
    op: &DiffOp,
    old_tokens: &[&'a [u8]],
    new_tokens: &[&'a [u8]],
)
    requires
        op_in_range(*op, old_tokens@.len() as int, new_tokens@.len() as int),
    ensures
        final(out)@ == old(out)@ + op_changes(*op, old_tokens@, new_tokens@),
{
    let ghost before = out@;
    let ghost target = op_changes(*op, old_tokens@, new_tokens@);
    let old_total: usize = old_tokens.len();
    let new_total: usize = new_tokens.len();
    match *op {
        DiffOp::Equal { old_index, new_index, len } => {
            let mut t: usize = 0;
            while t < len
                invariant
                    t <= len,
                    *op == (DiffOp::Equal { old_index, new_index, len }),
                    op_in_range(*op, old_tokens@.len() as int, new_tokens@.len() as int),
                    old_total == old_tokens@.len(),
                    new_total == new_tokens@.len(),
                    target == op_changes(*op, old_tokens@, new_tokens@),
                    out@ == before + target.take(t as int),
                decreases len - t,
            {
                out.push(
                    Change {
                        tag: ChangeTag::Equal,
                        old_index: Some(old_index + t),
                        new_index: Some(new_index + t),
                        value: old_tokens[old_index + t],
                    },
                );
                assert(target.take(t + 1) =~= target.take(t as int).push(target[t as int]));
                assert(out@ =~= before + target.take(t + 1));
                t = t + 1;
            }
            assert(target.take(len as int) =~= target);
        },
        _ => {
            let old_index: usize = match *op {
                DiffOp::Delete { old_index, .. } => old_index,
                DiffOp::Insert { old_index, .. } => old_index,
                DiffOp::Replace { old_index, .. } => old_index,
                DiffOp::Equal { old_index, .. } => old_index,
            };
            let old_len: usize = match *op {
                DiffOp::Delete { old_len, .. } => old_len,
                DiffOp::Replace { old_len, .. } => old_len,
                _ => 0,
            };
            let new_index: usize = match *op {
                DiffOp::Delete { new_index, .. } => new_index,
                DiffOp::Insert { new_index, .. } => new_index,
                DiffOp::Replace { new_index, .. } => new_index,
                DiffOp::Equal { new_index, .. } => new_index,
            };
            let new_len: usize = match *op {
                DiffOp::Insert { new_len, .. } => new_len,
                DiffOp::Replace { new_len, .. } => new_len,
                _ => 0,
            };
            let mut t: usize = 0;
            while t < old_len
                invariant
                    t <= old_len,
                    !(*op is Equal),
                    old_index == op.old_start(),
                    old_len == op.old_count(),
                    op_in_range(*op, old_tokens@.len() as int, new_tokens@.len() as int),
                    old_total == old_tokens@.len(),
                    new_total == new_tokens@.len(),
                    target == op_changes(*op, old_tokens@, new_tokens@),
                    out@ == before + target.take(t as int),
                decreases old_len - t,
            {
                out.push(
                    Change {
                        tag: ChangeTag::Delete,
                        old_index: Some(old_index + t),
                        new_index: None,
                        value: old_tokens[old_index + t],
                    },
                );
                assert(target.take(t + 1) =~= target.take(t as int).push(target[t as int]));
                assert(out@ =~= before + target.take(t + 1));
                t = t + 1;
            }
            let mut s: usize = 0;
            while s < new_len
                invariant
                    s <= new_len,
                    !(*op is Equal),
                    new_index == op.new_start(),
                    new_len == op.new_count(),
                    old_len == op.old_count(),
                    op_in_range(*op, old_tokens@.len() as int, new_tokens@.len() as int),
                    old_total == old_tokens@.len(),
                    new_total == new_tokens@.len(),
                    target == op_changes(*op, old_tokens@, new_tokens@),
                    out@ == before + target.take(old_len + s),
                decreases new_len - s,
            {
                out.push(
                    Change {
                        tag: ChangeTag::Insert,
                        old_index: None,
                        new_index: Some(new_index + s),
                        value: new_tokens[new_index + s],
                    },
                );
                assert(target.take(old_len + s + 1) =~= target.take(old_len + s).push(
                    target[old_len + s],
                ));
                assert(out@ =~= before + target.take(old_len + s + 1));
                s = s + 1;
            }
            assert(target.take(old_len + new_len) =~= target);
        },
    }
}

/// The changes that `op` expands to.
pub fn iter_changes<'a>(op: &DiffOp, old: &[&'a [u8]], new: &[&'a [u8]]) -> (r: Vec<Change<'a>>)
    requires
        op_in_range(*op, old@.len() as int, new@.len() as int),
    ensures
        r@ == op_changes(*op, old@, new@),
{
    let mut out: Vec<Change<'a>> = Vec::new();
    push_changes(&mut out, op, old, new);
    assert(out@ =~= op_changes(*op, old@, new@));
    out
}

/// The changes that `ops` expand to, in order.
pub fn iter_all_changes<'a>(ops: &[DiffOp], old: &[&'a [u8]], new: &[&'a [u8]]) -> (r: Vec<
    Change<'a>,
>)
    requires
        forall|i: int|
            0 <= i < ops@.len() ==> op_in_range(
                #[trigger] ops@[i],
                old@.len() as int,
                new@.len() as int,
            ),
    ensures
        r@ == all_changes(ops@, old@, new@),
{
    let mut out: Vec<Change<'a>> = Vec::new();
    let mut i: usize = 0;
    while i < ops.len()
        invariant
            i <= ops@.len(),
            forall|k: int|
                0 <= k < ops@.len() ==> op_in_range(
                    #[trigger] ops@[k],
                    old@.len() as int,
                    new@.len() as int,
                ),
            out@ == all_changes(ops@.take(i as int), old@, new@),
        decreases ops@.len() - i,
    {
        assert(ops@.take(i + 1).drop_last() =~= ops@.take(i as int));
        assert(ops@.take(i + 1).last() == ops@[i as int]);
        push_changes(&mut out, &ops[i], old, new);
        i = i + 1;
    }
    assert(ops@.take(ops@.len() as int) =~= ops@);
    out
}

/// What the changes say the old side holds: the tokens of all changes but insertions.
pub open spec fn old_side(changes: Seq<Change>) -> Seq<Seq<u8>>
    decreases changes.len(),
{
    if changes.len() == 0 {
        Seq::empty()
    } else if changes.last().tag is Insert {
        old_side(changes.drop_last())
    } else {
        old_side(changes.drop_last()).push(changes.last().value@)
    }
}

/// What the changes say the new side holds: the tokens of all changes but deletions.
pub open spec fn new_side(changes: Seq<Change>) -> Seq<Seq<u8>>
    decreases changes.len(),
{
    if changes.len() == 0 {
        Seq::empty()
    } else if changes.last().tag is Delete {
        new_side(changes.drop_last())
    } else {
        new_side(changes.drop_last()).push(changes.last().value@)
    }
}

/// The old side of changes put together is their old sides put together.
pub proof fn lemma_old_side_concat(first: Seq<Change>, second: Seq<Change>)
    ensures
        old_side(first + second) == old_side(first) + old_side(second),
    decreases second.len(),
{
    if second.len() == 0 {
        assert(first + second =~= first);
        assert(old_side(first) + old_side(second) =~= old_side(first));
    } else {
        lemma_old_side_concat(first, second.drop_last());
        assert((first + second).drop_last() =~= first + second.drop_last());
        assert((first + second).last() == second.last());
        assert(old_side(first) + old_side(second.drop_last()).push(second.last().value@) =~= (
        old_side(first) + old_side(second.drop_last())).push(second.last().value@));
    }
}

/// The new side of changes put together is their new sides put together.
pub proof fn lemma_new_side_concat(first: Seq<Change>, second: Seq<Change>)
    ensures
        new_side(first + second) == new_side(first) + new_side(second),
    decreases second.len(),
{
    if second.len() == 0 {
        assert(first + second =~= first);
        assert(new_side(first) + new_side(second) =~= new_side(first));
    } else {
        lemma_new_side_concat(first, second.drop_last());
        assert((first + second).drop_last() =~= first + second.drop_last());
        assert((first + second).last() == second.last());
        assert(new_side(first) + new_side(second.drop_last()).push(second.last().value@) =~= (
        new_side(first) + new_side(second.drop_last())).push(second.last().value@));
    }
}

/// What the first `t` changes of an operation say of the two sides.
proof fn lemma_op_sides<'a>(op: DiffOp, old: Seq<&'a [u8]>, new: Seq<&'a [u8]>, t: int)
    requires
        op_in_range(op, old.len() as int, new.len() as int),
        0 <= t <= change_count(op),
    ensures
        old_side(op_changes(op, old, new).take(t)) == contents(old).subrange(
            op.old_start(),
            op.old_start() + (if t <= op.old_count() {
                t
            } else {
                op.old_count()
            }),
        ),
        !(op is Equal) ==> new_side(op_changes(op, old, new).take(t)) == contents(new).subrange(
            op.new_start(),
            op.new_start() + (if t <= op.old_count() {
                0
            } else {
                t - op.old_count()
            }),
        ),
        op is Equal ==> new_side(op_changes(op, old, new).take(t)) == contents(old).subrange(
            op.old_start(),
            op.old_start() + t,
        ),
    decreases t,
{
    let cs = op_changes(op, old, new);
    if t == 0 {
        assert(cs.take(0) =~= Seq::<Change>::empty());
        assert(contents(old).subrange(op.old_start(), op.old_start() + 0) =~= Seq::<
            Seq<u8>,
        >::empty());
        assert(contents(new).subrange(op.new_start(), op.new_start() + 0) =~= Seq::<
            Seq<u8>,
        >::empty());
    } else {
        lemma_op_sides(op, old, new, t - 1);
        assert(cs.take(t).drop_last() =~= cs.take(t - 1));
        assert(cs.take(t).last() == change_at(op, old, new, t - 1));
        let c = change_at(op, old, new, t - 1);
        if op is Equal || t - 1 < op.old_count() {
            let hi = op.old_start() + t;
            assert(contents(old).subrange(op.old_start(), hi) =~= contents(old).subrange(
                op.old_start(),
                hi - 1,
            ).push(c.value@));
        } else {
            let hi = op.new_start() + (t - op.old_count());
            assert(contents(new).subrange(op.new_start(), hi) =~= contents(new).subrange(
                op.new_start(),
                hi - 1,
            ).push(c.value@));
        }
    }
}

/// What the changes of the first `k` operations of a script say of the two sides.
proof fn lemma_sides_upto<'a>(ops: Seq<DiffOp>, old: Seq<&'a [u8]>, new: Seq<&'a [u8]>, k: int)
    requires
        is_edit_script(ops, contents(old), contents(new)),
        0 <= k <= ops.len(),
    ensures
        old_side(all_changes(ops.take(k), old, new)) == contents(old).take(
            if k == 0 {
                0
            } else {
                ops[k - 1].old_end()
            },
        ),
        new_side(all_changes(ops.take(k), old, new)) == contents(new).take(
            if k == 0 {
                0
            } else {
                ops[k - 1].new_end()
            },
        ),
    decreases k,
{
    let a = contents(old);
    let b = contents(new);
    if k == 0 {
        assert(ops.take(0) =~= Seq::<DiffOp>::empty());
        assert(a.take(0) =~= Seq::<Seq<u8>>::empty());
        assert(b.take(0) =~= Seq::<Seq<u8>>::empty());
    } else {
        lemma_sides_upto(ops, old, new, k - 1);
        let op = ops[k - 1];
        assert(ops.take(k).drop_last() =~= ops.take(k - 1));
        assert(ops.take(k).last() == op);
        lemma_starts_nonneg(ops, 0, 0, a.len() as int, b.len() as int, k - 1);
        if k > 1 {
            assert(ops[k - 2].old_end() == ops[k - 1].old_start());
        }
        let before = all_changes(ops.take(k - 1), old, new);
        let these = op_changes(op, old, new);
        lemma_old_side_concat(before, these);
        lemma_new_side_concat(before, these);
        lemma_op_sides(op, old, new, change_count(op));
        assert(these.take(change_count(op)) =~= these);
        assert(a.take(op.old_start()) + a.subrange(op.old_start(), op.old_end()) =~= a.take(
            op.old_end(),
        ));
        if op is Equal {
            assert(a.subrange(op.old_start(), op.old_end()) =~= b.subrange(
                op.new_start(),
                op.new_end(),
            )) by {
                assert forall|p: int| op.old_start() <= p < op.old_end() implies #[trigger] a[p]
                    == b[p - op.old_start() + op.new_start()] by {
                    assert(ops[k - 1] is Equal);
                }
            }
        }
        assert(b.take(op.new_start()) + b.subrange(op.new_start(), op.new_end()) =~= b.take(
            op.new_end(),
        ));
    }
}

/// The changes of an edit script give both sides back: the tokens of all
/// changes but the insertions are the old tokens, in order, and the tokens
/// of all changes but the deletions are the new tokens.
pub proof fn lemma_changes_rebuild<'a>(ops: Seq<DiffOp>, old: Seq<&'a [u8]>, new: Seq<&'a [u8]>)
    requires
        is_edit_script(ops, contents(old), contents(new)),
    ensures
        old_side(all_changes(ops, old, new)) == contents(old),
        new_side(all_changes(ops, old, new)) == contents(new),
{
    lemma_sides_upto(ops, old, new, ops.len() as int);
    assert(ops.take(ops.len() as int) =~= ops);
    assert(contents(old).take(contents(old).len() as int) =~= contents(old));
    assert(contents(new).take(contents(new).len() as int) =~= contents(new));
}

} // verus!
