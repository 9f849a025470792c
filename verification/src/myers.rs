//! The shortest edit script between two token sequences.
use vstd::prelude::*;
use vstd::slice::slice_subrange;
use crate::lcs::{edit_distance, lcs_len, lemma_lcs_relabel};
use crate::linear::{cut_point, distance, lemma_cut_relabel, split};
use crate::script::{grows, is_edit_script, lemma_grows_trans, matched, ScriptBuilder};
use crate::trace::{lemma_steps_relabel, search, steps_from, walk, MAX_TRACE_DEPTH};
use crate::types::DiffOp;

verus! {

/// The script `ops`, grown by the shortest script from `a` to `b` that the
/// Myers algorithm makes. Up to a distance of `MAX_TRACE_DEPTH` that is the
/// script that declares tokens equal as early as it can, and removes before
/// it adds. A greater distance is cut in two at the cut point, and the
/// script of the first part is grown by the script of the second. The
/// tokens stand at `(x0, y0)` in the sequences that the script speaks of.
pub open spec fn myers_steps<T>(a: Seq<T>, b: Seq<T>, x0: int, y0: int, ops: Seq<DiffOp>) -> Seq<
    DiffOp,
>
    decreases a.len() + b.len(),
{
    if edit_distance(a, b) <= MAX_TRACE_DEPTH {
        steps_from(a, b, x0, y0, 0, 0, ops)
    } else {
        let cut = cut_point(a, b);
        if 0 <= cut.0 <= a.len() && 0 <= cut.1 <= b.len() && 0 < cut.0 + cut.1 < a.len()
            + b.len() {
            myers_steps(
                a.subrange(cut.0, a.len() as int),
                b.subrange(cut.1, b.len() as int),
                x0 + cut.0,
                y0 + cut.1,
                myers_steps(a.subrange(0, cut.0), b.subrange(0, cut.1), x0, y0, ops),
            )
        } else {
            ops
        }
    }
}

/// The shortest script from `a` to `b` that the Myers algorithm makes.
pub open spec fn myers_script<T>(a: Seq<T>, b: Seq<T>) -> Seq<DiffOp> {
    myers_steps(a, b, 0, 0, Seq::empty())
}

/// The script of the Myers algorithm depends only on which tokens are equal to which.
pub proof fn lemma_myers_relabel<S, T>(
    a: Seq<S>,
    b: Seq<S>,
    c: Seq<T>,
    d: Seq<T>,
    x0: int,
    y0: int,
    ops: Seq<DiffOp>,
)
    requires
        a.len() == c.len(),
        b.len() == d.len(),
        forall|x: int, y: int|
            #![trigger a[x], b[y]]
            0 <= x < a.len() && 0 <= y < b.len() ==> ((a[x] == b[y]) <==> (c[x] == d[y])),
        a.len() + b.len() < usize::MAX,
    ensures
        myers_steps(a, b, x0, y0, ops) == myers_steps(c, d, x0, y0, ops),
    decreases a.len() + b.len(),
{
    lemma_lcs_relabel(a, b, c, d, 0, 0);
    if edit_distance(a, b) <= MAX_TRACE_DEPTH {
        lemma_steps_relabel(a, b, c, d, x0, y0, 0, 0, ops);
    } else {
        lemma_cut_relabel(a, b, c, d);
        let cut = cut_point(a, b);
        if 0 <= cut.0 <= a.len() && 0 <= cut.1 <= b.len() && 0 < cut.0 + cut.1 < a.len()
            + b.len() {
            let a1 = a.subrange(0, cut.0);
            let b1 = b.subrange(0, cut.1);
            let c1 = c.subrange(0, cut.0);
            let d1 = d.subrange(0, cut.1);
            assert forall|x: int, y: int|
                #![trigger a1[x], b1[y]]
                0 <= x < a1.len() && 0 <= y < b1.len() implies ((a1[x] == b1[y]) <==> (c1[x]
                == d1[y])) by {
                assert((a[x] == b[y]) <==> (c[x] == d[y]));
            }
            lemma_myers_relabel(a1, b1, c1, d1, x0, y0, ops);
            let first = myers_steps(a1, b1, x0, y0, ops);
            let a2 = a.subrange(cut.0, a.len() as int);
            let b2 = b.subrange(cut.1, b.len() as int);
            let c2 = c.subrange(cut.0, c.len() as int);
            let d2 = d.subrange(cut.1, d.len() as int);
            assert forall|x: int, y: int|
                #![trigger a2[x], b2[y]]
                0 <= x < a2.len() && 0 <= y < b2.len() implies ((a2[x] == b2[y]) <==> (c2[x]
                == d2[y])) by {
                assert((a[cut.0 + x] == b[cut.1 + y]) <==> (c[cut.0 + x] == d[cut.1 + y]));
            }
            lemma_myers_relabel(a2, b2, c2, d2, x0 + cut.0, y0 + cut.1, first);
        }
    }
}

/// Appends to `builder` a shortest script from `a` to `b`, which are the
/// tokens that follow the builder's cursors. A distance within
/// `MAX_TRACE_DEPTH` is read off the recorded search; a larger one is cut in
/// two at a point of a shortest path, and each part is handled in turn.
pub fn diff_into(builder: &mut ScriptBuilder, a: &[usize], b: &[usize])
    requires
        old(builder).wf(),
        a@.len() + b@.len() < usize::MAX,
        old(builder).old_pos + a@.len() <= old(builder).a@.len(),
        old(builder).new_pos + b@.len() <= old(builder).b@.len(),
        a@ == old(builder).a@.subrange(
            old(builder).old_pos as int,
            old(builder).old_pos + a@.len(),
        ),
        b@ == old(builder).b@.subrange(
            old(builder).new_pos as int,
            old(builder).new_pos + b@.len(),
        ),
    ensures
        final(builder).wf(),
        final(builder).a@ == old(builder).a@,
        final(builder).b@ == old(builder).b@,
        final(builder).old_pos == old(builder).old_pos + a@.len(),
        final(builder).new_pos == old(builder).new_pos + b@.len(),
        matched(final(builder).ops@) == matched(old(builder).ops@) + lcs_len(a@, b@),
        final(builder).ops@ == myers_steps(
            a@,
            b@,
            old(builder).old_pos as int,
            old(builder).new_pos as int,
            old(builder).ops@,
        ),
        grows(old(builder).ops@, final(builder).ops@),
    decreases a@.len() + b@.len(),
{
    match search(a, b) {
        Some(trace) => {
            walk(builder, a, b, &trace);
        },
        None => {
            let n: usize = a.len();
            let m: usize = b.len();
            let dist = distance(a, b);
            let cut = split(a, b, dist);
            let a1 = slice_subrange(a, 0, cut.0);
            let b1 = slice_subrange(b, 0, cut.1);
            let a2 = slice_subrange(a, cut.0, n);
            let b2 = slice_subrange(b, cut.1, m);
            let ghost p = builder.old_pos as int;
            let ghost q = builder.new_pos as int;
            assert(a1@ =~= builder.a@.subrange(p, p + cut.0));
            assert(b1@ =~= builder.b@.subrange(q, q + cut.1));
            diff_into(builder, a1, b1);
            let ghost half = builder.ops@;
            assert(a2@ =~= builder.a@.subrange(p + cut.0, p + cut.0 + a2@.len()));
            assert(b2@ =~= builder.b@.subrange(q + cut.1, q + cut.1 + b2@.len()));
            diff_into(builder, a2, b2);
            proof {
                lemma_grows_trans(old(builder).ops@, half, builder.ops@);
            }
        },
    }
}

/// The shortest edit script from `a` to `b` that the Myers algorithm makes:
/// it declares as many tokens equal as the longest common subsequence of the
/// two holds.
pub fn diff(a: &[usize], b: &[usize]) -> (ops: Vec<DiffOp>)
    requires
        a@.len() + b@.len() < usize::MAX,
    ensures
        is_edit_script(ops@, a@, b@),
        matched(ops@) == lcs_len(a@, b@),
        2 * matched(ops@) + edit_distance(a@, b@) == a@.len() + b@.len(),
        ops@ == myers_script(a@, b@),
{
    let mut builder = ScriptBuilder::new(Ghost(a@), Ghost(b@));
    assert(a@ =~= a@.subrange(0, a@.len() as int));
    assert(b@ =~= b@.subrange(0, b@.len() as int));
    assert(builder.ops@ =~= Seq::<DiffOp>::empty());
    diff_into(&mut builder, a, b);
    builder.finish()
}

} // verus!
