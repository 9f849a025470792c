//! Grouping operations into hunks: long equal runs between changes shrink to
//! a few tokens of context on either side, and split the list there.
use vstd::prelude::*;
use crate::script::{compact, linked, lemma_starts_nonneg};
use crate::types::DiffOp;

verus! {

/// The last `n` tokens of an `Equal` run, or all of it if it has fewer.
pub open spec fn tail_of(op: DiffOp, n: int) -> DiffOp {
    match op {
        DiffOp::Equal { old_index, new_index, len } => {
            let keep = if len <= n { len as int } else { n };
            DiffOp::Equal {
                old_index: (old_index + len - keep) as usize,
                new_index: (new_index + len - keep) as usize,
                len: keep as usize,
            }
        },
        _ => op,
    }
}

/// The first `n` tokens of an `Equal` run, or all of it if it has fewer.
pub open spec fn head_of(op: DiffOp, n: int) -> DiffOp {
    match op {
        DiffOp::Equal { old_index, new_index, len } => {
            let keep = if len <= n { len as int } else { n };
            DiffOp::Equal { old_index, new_index, len: keep as usize }
        },
        _ => op,
    }
}

/// `ops` with `op` at its end, unless `op` covers nothing.
pub open spec fn with_op(ops: Seq<DiffOp>, op: DiffOp) -> Seq<DiffOp> {
    if op.shaped() {
        ops.push(op)
    } else {
        ops
    }
}

/// The hunks that are complete, and the one that is still growing.
pub struct Grouping {
    pub done: Seq<Seq<DiffOp>>,
    pub pending: Seq<DiffOp>,
    pub changed: bool,
}

/// The grouping after one more operation. An `Equal` run at the very start
/// keeps its last `n` tokens; one at the very end keeps its first `n`; one in
/// between with more than `2n` tokens ends the growing hunk with its first `n`
/// tokens and starts the next with its last `n`; anything else joins the
/// growing hunk as it is.
pub open spec fn grouping_step(g: Grouping, op: DiffOp, n: int, first: bool, last: bool) -> Grouping {
    if !(op is Equal) {
        Grouping { done: g.done, pending: g.pending.push(op), changed: true }
    } else if first {
        Grouping { done: g.done, pending: with_op(g.pending, tail_of(op, n)), changed: g.changed }
    } else if last {
        Grouping { done: g.done, pending: with_op(g.pending, head_of(op, n)), changed: g.changed }
    } else if op.old_count() > 2 * n {
        Grouping {
            done: g.done.push(with_op(g.pending, head_of(op, n))),
            pending: with_op(Seq::empty(), tail_of(op, n)),
            changed: false,
        }
    } else {
        Grouping { done: g.done, pending: g.pending.push(op), changed: g.changed }
    }
}

/// The grouping after the first `i` operations.
pub open spec fn grouping_upto(ops: Seq<DiffOp>, n: int, i: int) -> Grouping
    decreases i,
{
    if i <= 0 {
        Grouping { done: Seq::empty(), pending: Seq::empty(), changed: false }
    } else {
        grouping_step(
            grouping_upto(ops, n, i - 1),
            ops[i - 1],
            n,
            i - 1 == 0,
            i == ops.len(),
        )
    }
}

/// The hunks of `ops` with `n` tokens of context: the complete hunks, and
/// the last one if it holds a change.
pub open spec fn groups_of(ops: Seq<DiffOp>, n: int) -> Seq<Seq<DiffOp>> {
    let g = grouping_upto(ops, n, ops.len() as int);
    if g.changed {
        g.done.push(g.pending)
    } else {
        g.done
    }
}

/// What each hunk holds.
pub open spec fn hunks(groups: Seq<Vec<DiffOp>>) -> Seq<Seq<DiffOp>> {
    Seq::new(groups.len(), |i: int| groups[i]@)
}

/// The operations of a hunk follow one another without gap or overlap.
pub open spec fn chained(ops: Seq<DiffOp>) -> bool {
    ops.len() > 0 ==> linked(
        ops,
        ops[0].old_start(),
        ops[0].new_start(),
        ops.last().old_end(),
        ops.last().new_end(),
    )
}

/// The operations that are no `Equal` runs, in order.
pub open spec fn change_ops(ops: Seq<DiffOp>) -> Seq<DiffOp>
    decreases ops.len(),
{
    if ops.len() == 0 {
        Seq::empty()
    } else if ops.last() is Equal {
        change_ops(ops.drop_last())
    } else {
        change_ops(ops.drop_last()).push(ops.last())
    }
}

/// The operations of all hunks, one hunk after the other.
pub open spec fn flatten(groups: Seq<Seq<DiffOp>>) -> Seq<DiffOp>
    decreases groups.len(),
{
    if groups.len() == 0 {
        Seq::empty()
    } else {
        flatten(groups.drop_last()) + groups.last()
    }
}

/// The `Equal` runs of a hunk are short: at most `n` tokens at either end
/// of the hunk, at most `2n` between two changes.
pub open spec fn context_within(group: Seq<DiffOp>, n: int) -> bool {
    &&& forall|i: int|
        0 <= i < group.len() && (#[trigger] group[i]) is Equal ==> group[i].old_count() <= 2 * n
    &&& group.len() > 0 && group[0] is Equal ==> group[0].old_count() <= n
    &&& group.len() > 0 && group.last() is Equal ==> group.last().old_count() <= n
}

/// An appended operation joins the changes unless it is an `Equal` run.
pub proof fn lemma_change_ops_push(ops: Seq<DiffOp>, op: DiffOp)
    ensures
        change_ops(ops.push(op)) == if op is Equal {
            change_ops(ops)
        } else {
            change_ops(ops).push(op)
        },
{
    assert(ops.push(op).drop_last() =~= ops);
}

/// The changes of operations put together are their changes put together.
pub proof fn lemma_change_ops_concat(a: Seq<DiffOp>, b: Seq<DiffOp>)
    ensures
        change_ops(a + b) == change_ops(a) + change_ops(b),
    decreases b.len(),
{
    if b.len() == 0 {
        assert(a + b =~= a);
        assert(change_ops(a) + change_ops(b) =~= change_ops(a));
    } else {
        lemma_change_ops_concat(a, b.drop_last());
        assert((a + b).drop_last() =~= a + b.drop_last());
        assert((a + b).last() == b.last());
        if !(b.last() is Equal) {
            assert(change_ops(a) + change_ops(b.drop_last()).push(b.last()) =~= (change_ops(a)
                + change_ops(b.drop_last())).push(b.last()));
        }
    }
}

/// An appended hunk comes last among the operations of all hunks.
pub proof fn lemma_flatten_push(groups: Seq<Seq<DiffOp>>, group: Seq<DiffOp>)
    ensures
        flatten(groups.push(group)) == flatten(groups) + group,
{
    assert(groups.push(group).drop_last() =~= groups);
}

/// What holds of the grouping after every step, for a script that is linked and compact.
pub open spec fn grouping_sound(ops: Seq<DiffOp>, n: int, i: int) -> bool {
    let g = grouping_upto(ops, n, i);
    &&& chained(g.pending)
    &&& forall|k: int| 0 <= k < g.done.len() ==> chained(#[trigger] g.done[k])
    &&& forall|k: int| 0 <= k < g.done.len() ==> context_within(#[trigger] g.done[k], n)
    &&& forall|k: int| 0 <= k < g.done.len() ==> change_ops(#[trigger] g.done[k]).len() > 0
    &&& 0 < i < ops.len() && g.pending.len() > 0 ==> g.pending.last().old_end() == ops[i
        - 1].old_end() && g.pending.last().new_end() == ops[i - 1].new_end() && (
    g.pending.last() is Equal) == (ops[i - 1] is Equal)
    &&& 0 < i < ops.len() && g.pending.len() == 0 ==> ops[i - 1] is Equal
    &&& g.changed == (change_ops(g.pending).len() > 0)
    &&& change_ops(flatten(g.done) + g.pending) == change_ops(ops.take(i))
    &&& forall|k: int|
        0 <= k < g.pending.len() && (#[trigger] g.pending[k]) is Equal ==> g.pending[k].old_count()
            <= 2 * n
    &&& g.pending.len() > 0 && g.pending[0] is Equal ==> g.pending[0].old_count() <= n
    &&& i == ops.len() && g.pending.len() > 0 && g.pending.last() is Equal
        ==> g.pending.last().old_count() <= n
}

/// The grouping of a linked and compact script is sound at every step.
pub proof fn lemma_grouping_sound(ops: Seq<DiffOp>, n: int, x: int, y: int, i: int)
    requires
        linked(ops, 0, 0, x, y),
        x <= usize::MAX,
        y <= usize::MAX,
        compact(ops),
        0 <= n,
        0 <= i <= ops.len(),
    ensures
        grouping_sound(ops, n, i),
    decreases i,
{
    if i == 0 {
        assert(ops.take(0) =~= Seq::<DiffOp>::empty());
        assert(flatten(Seq::<Seq<DiffOp>>::empty()) + Seq::<DiffOp>::empty() =~= Seq::<
            DiffOp,
        >::empty());
    } else {
        lemma_grouping_sound(ops, n, x, y, i - 1);
        let g = grouping_upto(ops, n, i - 1);
        let op = ops[i - 1];
        let first = i - 1 == 0;
        let last = i == ops.len();
        let h = grouping_step(g, op, n, first, last);
        assert(h == grouping_upto(ops, n, i));
        assert(ops.take(i) =~= ops.take(i - 1).push(op));
        lemma_change_ops_push(ops.take(i - 1), op);
        assert(op.shaped());
        lemma_starts_nonneg(ops, 0, 0, x, y, i - 1);
        if i >= 2 {
            assert(ops[i - 2].old_end() == ops[i - 1].old_start());
            assert((ops[i - 2] is Equal) != (ops[i - 1] is Equal));
        }
        let head = head_of(op, n);
        let tail = tail_of(op, n);
        if !(op is Equal) || (!first && !last && op.old_count() <= 2 * n) {
            // the operation joins the growing hunk as it is
            let p = g.pending.push(op);
            assert(h.pending =~= p);
            assert(h.done =~= g.done);
            lemma_change_ops_push(g.pending, op);
            assert(flatten(g.done) + p =~= (flatten(g.done) + g.pending).push(op));
            lemma_change_ops_push(flatten(g.done) + g.pending, op);
            assert forall|a: int, b: int| 0 <= a && b == a + 1 && b < p.len() implies (
            #[trigger] p[a]).old_end() == (#[trigger] p[b]).old_start() && p[a].new_end()
                == p[b].new_start() by {
                if b < g.pending.len() {
                    assert(p[a] == g.pending[a] && p[b] == g.pending[b]);
                } else {
                    assert(p[a] == g.pending.last());
                }
            }
            assert forall|k: int| 0 <= k < p.len() && (#[trigger] p[k]) is Equal implies p[k].old_count()
                <= 2 * n by {
                if k < g.pending.len() {
                    assert(p[k] == g.pending[k]);
                }
            }
            if g.pending.len() > 0 {
                assert(p[0] == g.pending[0]);
            }
        } else if first || last {
            let kept = if first { tail } else { head };
            let p = with_op(g.pending, kept);
            assert(h.pending =~= p);
            assert(h.done =~= g.done);
            if kept.shaped() {
                lemma_change_ops_push(g.pending, kept);
                assert(flatten(g.done) + p =~= (flatten(g.done) + g.pending).push(kept));
                lemma_change_ops_push(flatten(g.done) + g.pending, kept);
                assert forall|a: int, b: int| 0 <= a && b == a + 1 && b < p.len() implies (
                #[trigger] p[a]).old_end() == (#[trigger] p[b]).old_start() && p[a].new_end()
                    == p[b].new_start() by {
                    if b < g.pending.len() {
                        assert(p[a] == g.pending[a] && p[b] == g.pending[b]);
                    } else {
                        assert(p[a] == g.pending.last());
                    }
                }
                assert forall|k: int| 0 <= k < p.len() && (#[trigger] p[k]) is Equal implies p[k].old_count()
                    <= 2 * n by {
                    if k < g.pending.len() {
                        assert(p[k] == g.pending[k]);
                    }
                }
                if g.pending.len() > 0 {
                    assert(p[0] == g.pending[0]);
                }
            }
        } else {
            // a long run between changes ends one hunk and starts the next
            let closed = with_op(g.pending, head);
            let opened = with_op(Seq::<DiffOp>::empty(), tail);
            assert(h.done =~= g.done.push(closed));
            assert(h.pending =~= opened);
            lemma_flatten_push(g.done, closed);
            assert(g.pending.len() > 0);
            assert(!(g.pending.last() is Equal));
            if head.shaped() {
                lemma_change_ops_push(g.pending, head);
                assert(flatten(g.done) + closed =~= (flatten(g.done) + g.pending).push(head));
                lemma_change_ops_push(flatten(g.done) + g.pending, head);
                assert forall|a: int, b: int| 0 <= a && b == a + 1 && b < closed.len() implies (
                #[trigger] closed[a]).old_end() == (#[trigger] closed[b]).old_start()
                    && closed[a].new_end() == closed[b].new_start() by {
                    if b < g.pending.len() {
                        assert(closed[a] == g.pending[a] && closed[b] == g.pending[b]);
                    } else {
                        assert(closed[a] == g.pending.last());
                    }
                }
                assert forall|k: int|
                    0 <= k < closed.len() && (#[trigger] closed[k]) is Equal implies closed[k].old_count()
                    <= 2 * n by {
                    if k < g.pending.len() {
                        assert(closed[k] == g.pending[k]);
                    }
                }
                assert(closed[0] == g.pending[0]);
            }
            if tail.shaped() {
                lemma_change_ops_push(Seq::<DiffOp>::empty(), tail);
                assert((flatten(g.done) + closed) + opened =~= (flatten(g.done) + closed).push(
                    tail,
                ));
                lemma_change_ops_push(flatten(g.done) + closed, tail);
            } else {
                assert((flatten(g.done) + closed) + opened =~= flatten(g.done) + closed);
            }
            assert forall|k: int| 0 <= k < h.done.len() implies chained(#[trigger] h.done[k])
                && context_within(h.done[k], n) && change_ops(h.done[k]).len() > 0 by {
                if k < g.done.len() {
                    assert(h.done[k] == g.done[k]);
                }
            }
        }
    }
}

/// Grouping keeps every change, in order, and nothing but context besides:
/// the operations of the hunks that are no `Equal` runs are those of the
/// script. Every hunk holds a change, its operations follow one another
/// without gap or overlap, and its `Equal` runs hold at most `n` tokens at
/// either end of the hunk and at most `2n` between two changes.
pub proof fn lemma_groups_keep_changes(ops: Seq<DiffOp>, n: int, x: int, y: int)
    requires
        linked(ops, 0, 0, x, y),
        x <= usize::MAX,
        y <= usize::MAX,
        compact(ops),
        0 <= n,
    ensures
        change_ops(flatten(groups_of(ops, n))) == change_ops(ops),
        forall|k: int|
            0 <= k < groups_of(ops, n).len() ==> {
                let group = #[trigger] groups_of(ops, n)[k];
                &&& chained(group)
                &&& context_within(group, n)
                &&& change_ops(group).len() > 0
            },
{
    let len = ops.len() as int;
    lemma_grouping_sound(ops, n, x, y, len);
    let g = grouping_upto(ops, n, len);
    assert(ops.take(len) =~= ops);
    if g.changed {
        lemma_flatten_push(g.done, g.pending);
        assert forall|k: int| 0 <= k < groups_of(ops, n).len() implies {
            let group = #[trigger] groups_of(ops, n)[k];
            &&& chained(group)
            &&& context_within(group, n)
            &&& change_ops(group).len() > 0
        } by {
            if k < g.done.len() {
                assert(groups_of(ops, n)[k] == g.done[k]);
            }
        }
    } else {
        lemma_change_ops_concat(flatten(g.done), g.pending);
        assert(change_ops(flatten(g.done)) + change_ops(g.pending) =~= change_ops(
            flatten(g.done),
        ));
    }
}

/// The last `n` tokens of an `Equal` run.
fn take_tail(op: DiffOp, n: usize) -> (r: DiffOp)
    requires
        op.bounded(),
    ensures
        r == tail_of(op, n as int),
{
    match op {
        DiffOp::Equal { old_index, new_index, len } => {
            let keep: usize = if len <= n { len } else { n };
            DiffOp::Equal {
                old_index: old_index + (len - keep),
                new_index: new_index + (len - keep),
                len: keep,
            }
        },
        _ => op,
    }
}

/// The first `n` tokens of an `Equal` run.
fn take_head(op: DiffOp, n: usize) -> (r: DiffOp)
    ensures
        r == head_of(op, n as int),
{
    match op {
        DiffOp::Equal { old_index, new_index, len } => {
            let keep: usize = if len <= n { len } else { n };
            DiffOp::Equal { old_index, new_index, len: keep }
        },
        _ => op,
    }
}

/// Whether the operation covers anything.
fn covers_something(op: &DiffOp) -> (r: bool)
    ensures
        r == op.shaped(),
{
    match *op {
        DiffOp::Equal { len, .. } => len > 0,
        DiffOp::Delete { old_len, .. } => old_len > 0,
        DiffOp::Insert { new_len, .. } => new_len > 0,
        DiffOp::Replace { old_len, new_len, .. } => old_len > 0 && new_len > 0,
    }
}

/// Groups the operations into hunks with `n` tokens of context around the changes.
pub fn group_diff_ops(ops: &[DiffOp], n: usize) -> (groups: Vec<Vec<DiffOp>>)
    requires
        forall|i: int| 0 <= i < ops@.len() ==> (#[trigger] ops@[i]).bounded(),
    ensures
        hunks(groups@) == groups_of(ops@, n as int),
{
    let count: usize = ops.len();
    let mut done: Vec<Vec<DiffOp>> = Vec::new();
    let mut pending: Vec<DiffOp> = Vec::new();
    let mut changed: bool = false;
    let mut i: usize = 0;
    while i < count
        invariant
            count == ops@.len(),
            i <= count,
            forall|k: int| 0 <= k < ops@.len() ==> (#[trigger] ops@[k]).bounded(),
            grouping_upto(ops@, n as int, i as int).done =~= hunks(done@),
            grouping_upto(ops@, n as int, i as int).pending =~= pending@,
            grouping_upto(ops@, n as int, i as int).changed == changed,
        decreases count - i,
    {
        let op = ops[i];
        let ghost before = grouping_upto(ops@, n as int, i as int);
        let first: bool = i == 0;
        let last: bool = i + 1 == count;
        match op {
            DiffOp::Equal { len, .. } => {
                if first {
                    let kept = take_tail(op, n);
                    if covers_something(&kept) {
                        pending.push(kept);
                    }
                } else if last {
                    let kept = take_head(op, n);
                    if covers_something(&kept) {
                        pending.push(kept);
                    }
                } else if len > n && len - n > n {
                    let end = take_head(op, n);
                    if covers_something(&end) {
                        pending.push(end);
                    }
                    let ghost full = pending@;
                    let ghost prior = hunks(done@);
                    done.push(pending);
                    assert(hunks(done@) =~= prior.push(full));
                    pending = Vec::new();
                    let start = take_tail(op, n);
                    if covers_something(&start) {
                        pending.push(start);
                    }
                    changed = false;
                } else {
                    pending.push(op);
                }
            },
            _ => {
                pending.push(op);
                changed = true;
            },
        }
        i = i + 1;
    }
    if changed {
        let ghost full = pending@;
        let ghost prior = hunks(done@);
        done.push(pending);
        assert(hunks(done@) =~= prior.push(full));
    }
    done
}

} // verus!
