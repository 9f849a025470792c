//! What it means for a list of operations to be an edit script, and a builder
//! that grows one run by run.
use vstd::prelude::*;
use crate::types::DiffOp;

verus! {

/// The operations follow one another without gap or overlap, from `(x0, y0)` to `(x, y)`.
pub open spec fn linked(ops: Seq<DiffOp>, x0: int, y0: int, x: int, y: int) -> bool {
    &&& ops.len() == 0 ==> x == x0 && y == y0
    &&& ops.len() > 0 ==> {
        &&& ops[0].old_start() == x0
        &&& ops[0].new_start() == y0
        &&& ops.last().old_end() == x
        &&& ops.last().new_end() == y
    }
    &&& forall|i: int, j: int|
        0 <= i && j == i + 1 && j < ops.len() ==> (#[trigger] ops[i]).old_end() == (
        #[trigger] ops[j]).old_start() && ops[i].new_end() == ops[j].new_start()
}

/// Every operation covers something, and of two neighbours exactly one is an
/// `Equal` run; so no two neighbours share a tag.
pub open spec fn compact(ops: Seq<DiffOp>) -> bool {
    &&& forall|i: int| 0 <= i < ops.len() ==> (#[trigger] ops[i]).shaped()
    &&& forall|i: int, j: int|
        0 <= i && j == i + 1 && j < ops.len() ==> ((#[trigger] ops[i]) is Equal) != ((
        #[trigger] ops[j]) is Equal)
}

/// Every `Equal` operation lies over tokens that are pairwise the same.
pub open spec fn equal_runs_agree<T>(ops: Seq<DiffOp>, a: Seq<T>, b: Seq<T>) -> bool {
    forall|i: int, p: int|
        #![trigger ops[i], a[p]]
        0 <= i < ops.len() && ops[i] is Equal && ops[i].old_start() <= p < ops[i].old_end() ==> a[p]
            == b[p - ops[i].old_start() + ops[i].new_start()]
}

/// `ops` is an edit script from the first `x` tokens of `a` to the first `y` tokens of `b`.
pub open spec fn covers<T>(ops: Seq<DiffOp>, a: Seq<T>, b: Seq<T>, x: int, y: int) -> bool {
    &&& 0 <= x <= a.len()
    &&& 0 <= y <= b.len()
    &&& linked(ops, 0, 0, x, y)
    &&& compact(ops)
    &&& equal_runs_agree(ops, a, b)
}

/// `ops` is an edit script from `a` to `b`: it partitions both index ranges in
/// order, its `Equal` runs lie over identical tokens, every operation is
/// non-empty and neighbours differ in tag.
pub open spec fn is_edit_script<T>(ops: Seq<DiffOp>, a: Seq<T>, b: Seq<T>) -> bool {
    covers(ops, a, b, a.len() as int, b.len() as int)
}

/// The number of tokens that the script declares equal.
pub open spec fn matched(ops: Seq<DiffOp>) -> nat
    decreases ops.len(),
{
    if ops.len() == 0 {
        0
    } else {
        matched(ops.drop_last()) + ops.last().equal_count()
    }
}

/// An appended operation adds what it declares equal.
pub proof fn lemma_matched_push(ops: Seq<DiffOp>, op: DiffOp)
    ensures
        matched(ops.push(op)) == matched(ops) + op.equal_count(),
{
    assert(ops.push(op).drop_last() =~= ops);
}

/// Appending an operation that starts where a script ends gives a longer script.
pub proof fn lemma_covers_push<T>(
    ops: Seq<DiffOp>,
    op: DiffOp,
    a: Seq<T>,
    b: Seq<T>,
    x: int,
    y: int,
)
    requires
        covers(ops, a, b, x, y),
        op.shaped(),
        op.old_start() == x,
        op.new_start() == y,
        op.old_end() <= a.len(),
        op.new_end() <= b.len(),
        ops.len() > 0 ==> (ops.last() is Equal) != (op is Equal),
        op is Equal ==> forall|p: int|
            x <= p < op.old_end() ==> #[trigger] a[p] == b[p - x + y],
    ensures
        covers(ops.push(op), a, b, op.old_end(), op.new_end()),
        matched(ops.push(op)) == matched(ops) + op.equal_count(),
{
    let after = ops.push(op);
    lemma_matched_push(ops, op);
    assert forall|i: int, j: int| 0 <= i && j == i + 1 && j < after.len() implies (
    #[trigger] after[i]).old_end() == (#[trigger] after[j]).old_start() && after[i].new_end()
        == after[j].new_start() && (after[i] is Equal) != (after[j] is Equal) by {
        if j < ops.len() {
            assert(after[i] == ops[i] && after[j] == ops[j]);
        } else {
            assert(after[i] == ops.last());
        }
    }
    assert forall|i: int, p: int|
        0 <= i < after.len() && after[i] is Equal && after[i].old_start() <= p
            < after[i].old_end() implies #[trigger] a[p] == b[p - (#[trigger] after[i]).old_start()
        + after[i].new_start()] by {
        if i < ops.len() {
            assert(after[i] == ops[i]);
        }
    }
    assert forall|i: int| 0 <= i < after.len() implies (#[trigger] after[i]).shaped() by {
        if i < ops.len() {
            assert(after[i] == ops[i]);
        }
    }
}

/// Taking the last operation off a script leaves a script that ends where that operation began.
pub proof fn lemma_covers_drop_last<T>(ops: Seq<DiffOp>, a: Seq<T>, b: Seq<T>, x: int, y: int)
    requires
        covers(ops, a, b, x, y),
        ops.len() > 0,
    ensures
        covers(ops.drop_last(), a, b, ops.last().old_start(), ops.last().new_start()),
        0 <= ops.last().old_start() <= ops.last().old_end() == x,
        0 <= ops.last().new_start() <= ops.last().new_end() == y,
        matched(ops) == matched(ops.drop_last()) + ops.last().equal_count(),
        ops.len() > 1 ==> (ops.drop_last().last() is Equal) != (ops.last() is Equal),
{
    let before = ops.drop_last();
    let n = ops.len() as int;
    assert(ops.last().shaped());
    if n > 1 {
        assert(ops[n - 2].old_end() == ops[n - 1].old_start());
        assert((ops[n - 2] is Equal) != (ops[n - 1] is Equal));
        assert(before.last() == ops[n - 2]);
        assert(before[0] == ops[0]);
    }
    lemma_starts_nonneg(ops, 0, 0, x, y, n - 1);
    assert forall|i: int, j: int| 0 <= i && j == i + 1 && j < before.len() implies (
    #[trigger] before[i]).old_end() == (#[trigger] before[j]).old_start() && before[i].new_end()
        == before[j].new_start() && (before[i] is Equal) != (before[j] is Equal) by {
        assert(before[i] == ops[i] && before[j] == ops[j]);
    }
    assert forall|i: int, p: int|
        0 <= i < before.len() && before[i] is Equal && before[i].old_start() <= p
            < before[i].old_end() implies #[trigger] a[p] == b[p - (#[trigger] before[i]).old_start()
        + before[i].new_start()] by {
        assert(before[i] == ops[i]);
    }
    assert forall|i: int| 0 <= i < before.len() implies (#[trigger] before[i]).shaped() by {
        assert(before[i] == ops[i]);
    }
}

/// In a linked list of operations, starts never fall before the first start.
pub proof fn lemma_starts_nonneg(ops: Seq<DiffOp>, x0: int, y0: int, x: int, y: int, k: int)
    requires
        linked(ops, x0, y0, x, y),
        0 <= k < ops.len(),
    ensures
        x0 <= ops[k].old_start() <= ops[k].old_end() <= x,
        y0 <= ops[k].new_start() <= ops[k].new_end() <= y,
    decreases ops.len() - k, k,
{
    lemma_starts_lower(ops, x0, y0, x, y, k);
    lemma_ends_upper(ops, x0, y0, x, y, k);
}

/// In a linked list of operations, no operation starts before the first.
pub proof fn lemma_starts_lower(ops: Seq<DiffOp>, x0: int, y0: int, x: int, y: int, k: int)
    requires
        linked(ops, x0, y0, x, y),
        0 <= k < ops.len(),
    ensures
        x0 <= ops[k].old_start(),
        y0 <= ops[k].new_start(),
    decreases k,
{
    if k > 0 {
        lemma_starts_lower(ops, x0, y0, x, y, k - 1);
        assert(ops[k - 1].old_end() == ops[k].old_start());
    }
}

/// In a linked list of operations, no operation ends behind the last.
pub proof fn lemma_ends_upper(ops: Seq<DiffOp>, x0: int, y0: int, x: int, y: int, k: int)
    requires
        linked(ops, x0, y0, x, y),
        0 <= k < ops.len(),
    ensures
        ops[k].old_end() <= x,
        ops[k].new_end() <= y,
    decreases ops.len() - k,
{
    if k < ops.len() - 1 {
        lemma_ends_upper(ops, x0, y0, x, y, k + 1);
        assert(ops[k].old_end() == ops[k + 1].old_start());
    }
}

/// A script stays a script when the tokens are exchanged for others that are
/// equal wherever the first were.
pub proof fn lemma_script_relabel<S, T>(
    ops: Seq<DiffOp>,
    a: Seq<S>,
    b: Seq<S>,
    c: Seq<T>,
    d: Seq<T>,
)
    requires
        is_edit_script(ops, a, b),
        a.len() == c.len(),
        b.len() == d.len(),
        forall|i: int, j: int|
            #![trigger a[i], b[j]]
            0 <= i < a.len() && 0 <= j < b.len() && a[i] == b[j] ==> c[i] == d[j],
    ensures
        is_edit_script(ops, c, d),
{
    assert forall|i: int, p: int|
        0 <= i < ops.len() && ops[i] is Equal && ops[i].old_start() <= p
            < ops[i].old_end() implies #[trigger] c[p] == d[p - (#[trigger] ops[i]).old_start()
        + ops[i].new_start()] by {
        lemma_starts_nonneg(ops, 0, 0, a.len() as int, b.len() as int, i);
        let q = p - ops[i].old_start() + ops[i].new_start();
        assert(a[p] == b[q]);
    }
}

/// In a linked list of operations, an earlier operation ends before a later one starts.
pub proof fn lemma_ops_in_order(ops: Seq<DiffOp>, x0: int, y0: int, x: int, y: int, j: int, k: int)
    requires
        linked(ops, x0, y0, x, y),
        0 <= j < k < ops.len(),
    ensures
        ops[j].old_end() <= ops[k].old_start(),
        ops[j].new_end() <= ops[k].new_start(),
    decreases k - j,
{
    if j + 1 < k {
        lemma_ops_in_order(ops, x0, y0, x, y, j, k - 1);
        assert(ops[k - 1].old_end() == ops[k].old_start());
    } else {
        assert(ops[j].old_end() == ops[k].old_start());
    }
}

/// The operation covers old index `i`.
pub open spec fn covers_old(op: DiffOp, i: int) -> bool {
    op.old_start() <= i < op.old_end()
}

/// The operation covers new index `j`.
pub open spec fn covers_new(op: DiffOp, j: int) -> bool {
    op.new_start() <= j < op.new_end()
}

/// Some operation covers old index `i`.
pub open spec fn old_covered(ops: Seq<DiffOp>, i: int) -> bool {
    exists|k: int| 0 <= k < ops.len() && covers_old(#[trigger] ops[k], i)
}

/// Some operation covers new index `j`.
pub open spec fn new_covered(ops: Seq<DiffOp>, j: int) -> bool {
    exists|k: int| 0 <= k < ops.len() && covers_new(#[trigger] ops[k], j)
}

/// Some operation among the first `k` covers old index `i`, if `i` lies before their end.
proof fn lemma_some_covers_old(ops: Seq<DiffOp>, x: int, y: int, i: int, k: int) -> (w: int)
    requires
        linked(ops, 0, 0, x, y),
        0 < k <= ops.len(),
        0 <= i < ops[k - 1].old_end(),
    ensures
        0 <= w < k,
        covers_old(ops[w], i),
    decreases k,
{
    if ops[k - 1].old_start() <= i {
        k - 1
    } else {
        assert(k > 1);
        assert(ops[k - 2].old_end() == ops[k - 1].old_start());
        lemma_some_covers_old(ops, x, y, i, k - 1)
    }
}

/// Some operation among the first `k` covers new index `j`, if `j` lies before their end.
proof fn lemma_some_covers_new(ops: Seq<DiffOp>, x: int, y: int, j: int, k: int) -> (w: int)
    requires
        linked(ops, 0, 0, x, y),
        0 < k <= ops.len(),
        0 <= j < ops[k - 1].new_end(),
    ensures
        0 <= w < k,
        covers_new(ops[w], j),
    decreases k,
{
    if ops[k - 1].new_start() <= j {
        k - 1
    } else {
        assert(k > 1);
        assert(ops[k - 2].new_end() == ops[k - 1].new_start());
        lemma_some_covers_new(ops, x, y, j, k - 1)
    }
}

/// The operations of an edit script partition the indices of both sides:
/// every index of the old sequence lies in the old range of exactly one
/// operation, every index of the new sequence in the new range of exactly
/// one, and no two neighbours share a tag.
pub proof fn lemma_script_partitions<T>(ops: Seq<DiffOp>, a: Seq<T>, b: Seq<T>)
    requires
        is_edit_script(ops, a, b),
    ensures
        forall|i: int| 0 <= i < a.len() ==> #[trigger] old_covered(ops, i),
        forall|j: int| 0 <= j < b.len() ==> #[trigger] new_covered(ops, j),
        forall|i: int, k: int, l: int|
            0 <= k < l < ops.len() ==> !(#[trigger] covers_old(ops[k], i) && #[trigger] covers_old(
                ops[l],
                i,
            )),
        forall|j: int, k: int, l: int|
            0 <= k < l < ops.len() ==> !(#[trigger] covers_new(ops[k], j) && #[trigger] covers_new(
                ops[l],
                j,
            )),
        forall|k: int, l: int|
            0 <= k && l == k + 1 && l < ops.len() ==> (#[trigger] ops[k]).kind() != (
            #[trigger] ops[l]).kind(),
{
    let x = a.len() as int;
    let y = b.len() as int;
    assert forall|i: int| 0 <= i < a.len() implies #[trigger] old_covered(ops, i) by {
        let w = lemma_some_covers_old(ops, x, y, i, ops.len() as int);
        assert(covers_old(ops[w], i));
    }
    assert forall|j: int| 0 <= j < b.len() implies #[trigger] new_covered(ops, j) by {
        let w = lemma_some_covers_new(ops, x, y, j, ops.len() as int);
        assert(covers_new(ops[w], j));
    }
    assert forall|i: int, k: int, l: int| 0 <= k < l < ops.len() implies !(#[trigger] covers_old(
        ops[k],
        i,
    ) && #[trigger] covers_old(ops[l], i)) by {
        lemma_ops_in_order(ops, 0, 0, x, y, k, l);
    }
    assert forall|j: int, k: int, l: int| 0 <= k < l < ops.len() implies !(#[trigger] covers_new(
        ops[k],
        j,
    ) && #[trigger] covers_new(ops[l], j)) by {
        lemma_ops_in_order(ops, 0, 0, x, y, k, l);
    }
}

/// The operation that removes `del` old tokens at `x` and adds `ins` new tokens at `y`.
pub open spec fn edit_op(x: int, y: int, del: int, ins: int) -> DiffOp {
    if del == 0 {
        DiffOp::Insert { old_index: x as usize, new_index: y as usize, new_len: ins as usize }
    } else if ins == 0 {
        DiffOp::Delete { old_index: x as usize, old_len: del as usize, new_index: y as usize }
    } else {
        DiffOp::Replace {
            old_index: x as usize,
            old_len: del as usize,
            new_index: y as usize,
            new_len: ins as usize,
        }
    }
}

/// The script after `len` equal tokens at `(x, y)` have joined it: they
/// lengthen an `Equal` run at its end, or start a new one.
pub open spec fn with_equal(ops: Seq<DiffOp>, x: int, y: int, len: int) -> Seq<DiffOp> {
    if len == 0 {
        ops
    } else if ops.len() > 0 && ops.last() is Equal {
        ops.drop_last().push(
            DiffOp::Equal {
                old_index: ops.last().old_start() as usize,
                new_index: ops.last().new_start() as usize,
                len: (ops.last().old_count() + len) as usize,
            },
        )
    } else {
        ops.push(DiffOp::Equal { old_index: x as usize, new_index: y as usize, len: len as usize })
    }
}

/// The script after the removal of `del` old tokens and the addition of
/// `ins` new tokens at `(x, y)` has joined it: they widen the operation at
/// its end, unless that is an `Equal` run, or start a new operation.
pub open spec fn with_edit(ops: Seq<DiffOp>, x: int, y: int, del: int, ins: int) -> Seq<DiffOp> {
    if del == 0 && ins == 0 {
        ops
    } else if ops.len() > 0 && !(ops.last() is Equal) {
        ops.drop_last().push(
            edit_op(
                ops.last().old_start(),
                ops.last().new_start(),
                ops.last().old_count() + del,
                ops.last().new_count() + ins,
            ),
        )
    } else {
        ops.push(edit_op(x, y, del, ins))
    }
}

/// The script declares old token `i` and new token `j` equal to each other.
#[verifier::opaque]
pub open spec fn pairs_with(ops: Seq<DiffOp>, i: int, j: int) -> bool {
    exists|k: int|
        0 <= k < ops.len() && (#[trigger] ops[k]) is Equal && ops[k].old_start() <= i
            < ops[k].old_end() && j - ops[k].new_start() == i - ops[k].old_start()
}

/// `after` is `before` grown at its end: the operations of `before` are all
/// there, the last of them widened at most.
#[verifier::opaque]
pub open spec fn grows(before: Seq<DiffOp>, after: Seq<DiffOp>) -> bool {
    &&& before.len() <= after.len()
    &&& forall|k: int| 0 <= k < before.len() - 1 ==> #[trigger] after[k] == before[k]
    &&& before.len() > 0 ==> {
        let p = before.last();
        let q = after[before.len() - 1];
        &&& q.old_start() == p.old_start()
        &&& q.new_start() == p.new_start()
        &&& (p is Equal) == (q is Equal)
        &&& p.old_count() <= q.old_count()
        &&& p.new_count() <= q.new_count()
    }
}

/// A script is itself, grown by nothing.
pub proof fn lemma_grows_same(a: Seq<DiffOp>)
    ensures
        grows(a, a),
{
    reveal(grows);
}

/// Growing is transitive.
pub proof fn lemma_grows_trans(a: Seq<DiffOp>, b: Seq<DiffOp>, c: Seq<DiffOp>)
    requires
        grows(a, b),
        grows(b, c),
    ensures
        grows(a, c),
{
    reveal(grows);
    assert forall|k: int| 0 <= k < a.len() - 1 implies #[trigger] c[k] == a[k] by {
        assert(b[k] == a[k]);
        assert(c[k] == b[k]);
    }
    if a.len() > 0 {
        let at = a.len() - 1;
        if at < b.len() - 1 {
            assert(c[at] == b[at]);
        }
    }
}

/// What a script declares equal to each other stays so when the script grows.
pub proof fn lemma_grows_keeps_pairs(before: Seq<DiffOp>, after: Seq<DiffOp>, i: int, j: int)
    requires
        grows(before, after),
        pairs_with(before, i, j),
    ensures
        pairs_with(after, i, j),
{
    reveal(grows);
    reveal(pairs_with);
    let k = choose|k: int|
        0 <= k < before.len() && (#[trigger] before[k]) is Equal && before[k].old_start() <= i
            < before[k].old_end() && j - before[k].new_start() == i - before[k].old_start();
    if k < before.len() - 1 {
        assert(after[k] == before[k]);
    }
    assert(after[k] is Equal && after[k].old_start() <= i < after[k].old_end());
}

/// Grows an edit script from left to right, merging runs as they arrive.
pub struct ScriptBuilder {
    pub ops: Vec<DiffOp>,
    pub old_pos: usize,
    pub new_pos: usize,
    pub a: Ghost<Seq<usize>>,
    pub b: Ghost<Seq<usize>>,
}

impl ScriptBuilder {
    /// The script built so far covers exactly the tokens before the two cursors.
    pub open spec fn wf(&self) -> bool {
        &&& covers(self.ops@, self.a@, self.b@, self.old_pos as int, self.new_pos as int)
        &&& self.a@.len() <= usize::MAX
        &&& self.b@.len() <= usize::MAX
    }

    /// A builder with an empty script, for scripts from `a` to `b`.
    pub fn new(Ghost(a): Ghost<Seq<usize>>, Ghost(b): Ghost<Seq<usize>>) -> (r: Self)
        requires
            a.len() <= usize::MAX,
            b.len() <= usize::MAX,
        ensures
            r.wf(),
            r.a@ == a,
            r.b@ == b,
            r.old_pos == 0,
            r.new_pos == 0,
            r.ops@.len() == 0,
            matched(r.ops@) == 0,
    {
        ScriptBuilder { ops: Vec::new(), old_pos: 0, new_pos: 0, a: Ghost(a), b: Ghost(b) }
    }

    /// Appends `len` equal tokens.
    pub fn equal(&mut self, len: usize)
        requires
            old(self).wf(),
            old(self).old_pos + len <= old(self).a@.len(),
            old(self).new_pos + len <= old(self).b@.len(),
            forall|p: int|
                old(self).old_pos <= p < old(self).old_pos + len ==> #[trigger] old(self).a@[p]
                    == old(self).b@[p - old(self).old_pos + old(self).new_pos],
        ensures
            final(self).wf(),
            final(self).a@ == old(self).a@,
            final(self).b@ == old(self).b@,
            final(self).old_pos == old(self).old_pos + len,
            final(self).new_pos == old(self).new_pos + len,
            matched(final(self).ops@) == matched(old(self).ops@) + len,
            final(self).ops@ == with_equal(
                old(self).ops@,
                old(self).old_pos as int,
                old(self).new_pos as int,
                len as int,
            ),
            grows(old(self).ops@, final(self).ops@),
            forall|i: int, j: int|
                old(self).old_pos <= i < old(self).old_pos + len && j == i - old(self).old_pos
                    + old(self).new_pos ==> #[trigger] pairs_with(final(self).ops@, i, j),
    {
        if len == 0 {
            proof {
                reveal(grows);
            }
            return ;
        }
        let ghost before = self.ops@;
        let n: usize = self.ops.len();
        let mut old_index: usize = self.old_pos;
        let mut new_index: usize = self.new_pos;
        let mut total: usize = len;
        let mut merging: bool = false;
        if n > 0 {
            proof {
                lemma_covers_drop_last(before, self.a@, self.b@, self.old_pos as int, self.new_pos as int);
            }
            let last = self.ops[n - 1];
            match last {
                DiffOp::Equal { old_index: oi, new_index: ni, len: l } => {
                    merging = true;
                    old_index = oi;
                    new_index = ni;
                    total = l + len;
                },
                _ => {},
            }
        }
        let op = DiffOp::Equal { old_index, new_index, len: total };
        if merging {
            self.ops.pop();
        }
        self.ops.push(op);
        self.old_pos = self.old_pos + len;
        self.new_pos = self.new_pos + len;
        proof {
            let kept = if merging { before.drop_last() } else { before };
            assert(self.ops@ =~= kept.push(op));
            if merging {
                assert(before.last() is Equal);
                assert forall|p: int| op.old_start() <= p < op.old_end() implies #[trigger] self.a@[p]
                    == self.b@[p - op.old_start() + op.new_start()] by {
                    if p < old(self).old_pos {
                        assert(before[n - 1] is Equal);
                    }
                }
            }
            lemma_covers_push(kept, op, self.a@, self.b@, op.old_start(), op.new_start());
            reveal(grows);
            reveal(pairs_with);
            let last = self.ops@.len() - 1;
            assert(self.ops@[last] == op);
            assert forall|k: int| 0 <= k < before.len() - 1 implies #[trigger] self.ops@[k]
                == before[k] by {
                assert(kept[k] == before[k]);
            }
            if !merging && before.len() > 0 {
                assert(self.ops@[before.len() - 1] == before.last());
            }
            assert forall|i: int, j: int|
                old(self).old_pos <= i < old(self).old_pos + len && j == i - old(self).old_pos
                    + old(self).new_pos implies #[trigger] pairs_with(self.ops@, i, j) by {
                assert(self.ops@[last] is Equal);
                assert(op.old_start() <= i < op.old_end());
                assert(j - op.new_start() == i - op.old_start());
            }
        }
    }

    /// Appends the removal of `del` old tokens and the addition of `ins` new tokens.
    pub fn edit(&mut self, del: usize, ins: usize)
        requires
            old(self).wf(),
            old(self).old_pos + del <= old(self).a@.len(),
            old(self).new_pos + ins <= old(self).b@.len(),
        ensures
            final(self).wf(),
            final(self).a@ == old(self).a@,
            final(self).b@ == old(self).b@,
            final(self).old_pos == old(self).old_pos + del,
            final(self).new_pos == old(self).new_pos + ins,
            matched(final(self).ops@) == matched(old(self).ops@),
            final(self).ops@ == with_edit(
                old(self).ops@,
                old(self).old_pos as int,
                old(self).new_pos as int,
                del as int,
                ins as int,
            ),
            grows(old(self).ops@, final(self).ops@),
    {
        if del == 0 && ins == 0 {
            proof {
                reveal(grows);
            }
            return ;
        }
        let ghost before = self.ops@;
        let n: usize = self.ops.len();
        let mut old_index: usize = self.old_pos;
        let mut new_index: usize = self.new_pos;
        let mut old_len: usize = del;
        let mut new_len: usize = ins;
        let mut merging: bool = false;
        if n > 0 {
            proof {
                lemma_covers_drop_last(before, self.a@, self.b@, self.old_pos as int, self.new_pos as int);
            }
            let last = self.ops[n - 1];
            match last {
                DiffOp::Equal { .. } => {},
                DiffOp::Delete { old_index: oi, old_len: ol, new_index: ni } => {
                    merging = true;
                    old_index = oi;
                    new_index = ni;
                    old_len = ol + del;
                },
                DiffOp::Insert { old_index: oi, new_index: ni, new_len: nl } => {
                    merging = true;
                    old_index = oi;
                    new_index = ni;
                    new_len = nl + ins;
                },
                DiffOp::Replace { old_index: oi, old_len: ol, new_index: ni, new_len: nl } => {
                    merging = true;
                    old_index = oi;
                    new_index = ni;
                    old_len = ol + del;
                    new_len = nl + ins;
                },
            }
        }
        let op = if old_len == 0 {
            DiffOp::Insert { old_index, new_index, new_len }
        } else if new_len == 0 {
            DiffOp::Delete { old_index, old_len, new_index }
        } else {
            DiffOp::Replace { old_index, old_len, new_index, new_len }
        };
        if merging {
            self.ops.pop();
        }
        self.ops.push(op);
        self.old_pos = self.old_pos + del;
        self.new_pos = self.new_pos + ins;
        proof {
            let kept = if merging { before.drop_last() } else { before };
            assert(self.ops@ =~= kept.push(op));
            lemma_covers_push(kept, op, self.a@, self.b@, op.old_start(), op.new_start());
            reveal(grows);
            assert(self.ops@[self.ops@.len() - 1] == op);
            assert forall|k: int| 0 <= k < before.len() - 1 implies #[trigger] self.ops@[k]
                == before[k] by {
                assert(kept[k] == before[k]);
            }
            if !merging && before.len() > 0 {
                assert(self.ops@[before.len() - 1] == before.last());
            }
        }
    }

    /// Hands over the finished script.
    pub fn finish(self) -> (ops: Vec<DiffOp>)
        requires
            self.wf(),
            self.old_pos == self.a@.len(),
            self.new_pos == self.b@.len(),
        ensures
            is_edit_script(ops@, self.a@, self.b@),
            ops@ == self.ops@,
    {
        self.ops
    }
}

} // verus!
