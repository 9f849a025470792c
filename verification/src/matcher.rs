//! The sequence matcher: one entry point over the selectable algorithms.
use vstd::prelude::*;
use crate::lcs::lcs_len;
use crate::myers::myers_script;
use crate::patience::{is_patience_script, patience_script};
use crate::script::{is_edit_script, matched, ScriptBuilder};
use crate::types::{Algorithm, DiffOp};

verus! {

/// An edit script from `old` to `new` by the chosen algorithm. Myers gives
/// its shortest script: up to a distance of `MAX_TRACE_DEPTH` the one that
/// declares tokens equal as early as it can and removes before it adds.
/// Patience gives its script: it pairs what the two share at their start
/// and end, and the anchors of a longest chain of what lies between;
/// without an anchor, what lies between gets the Myers script. Of equal sequences every algorithm
/// says that they are equal.
pub fn capture_diff_slices(alg: Algorithm, old: &[usize], new: &[usize]) -> (ops: Vec<DiffOp>)
    requires
        old@.len() + new@.len() < usize::MAX,
    ensures
        is_edit_script(ops@, old@, new@),
        alg == Algorithm::Myers ==> matched(ops@) == lcs_len(old@, new@),
        alg == Algorithm::Myers ==> ops@ == myers_script(old@, new@),
        old@ == new@ ==> matched(ops@) == old@.len(),
        alg == Algorithm::Patience ==> ops@ == patience_script(old@, new@),
        alg == Algorithm::Patience ==> is_patience_script(ops@, old@, new@),
{
    let mut builder = ScriptBuilder::new(Ghost(old@), Ghost(new@));
    assert(old@ =~= old@.subrange(0, old@.len() as int));
    assert(new@ =~= new@.subrange(0, new@.len() as int));
    assert(builder.ops@ =~= Seq::<DiffOp>::empty());
    match alg {
        Algorithm::Myers => {
            crate::myers::diff_into(&mut builder, old, new);
            proof {
                crate::lcs::lemma_lcs_self(old@, 0);
            }
        },
        Algorithm::Patience => {
            crate::patience::diff_into(&mut builder, old, new);
        },
    }
    builder.finish()
}

} // verus!
