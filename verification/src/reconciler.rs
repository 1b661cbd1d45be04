use vstd::prelude::*;

use crate::candidate::CandidateModel;
use crate::candidate::sum_sizes;
use crate::selector::near_minimal_cover;
use crate::selector::shrink;
use crate::selector::lemma_shrink_near_minimal;
use crate::selector::lemma_shrink_prefix;
use crate::selector::lemma_shrink_sufficient;
use crate::set::CandidateSet;

verus! {

/// The candidate set after the deficit has been probed anew: if the space
/// pressure resolved itself during the scan, everything is discarded;
/// otherwise the newest members are let go while the rest still cover the
/// fresh target.  The set is never re-expanded: a target that grew beyond
/// what the scan gathered is simply not fully reachable.
pub open spec fn reconcile_spec(s: Seq<CandidateModel>, required: int) -> Seq<CandidateModel> {
    if required <= 0 {
        Seq::empty()
    } else {
        shrink(s, required)
    }
}

/// Reconciliation never grows the set: whatever the fresh target, what is
/// left is a prefix of the scanned members — a subset by path identity.
pub proof fn lemma_reconcile_never_grows(s: Seq<CandidateModel>, required: int)
    ensures
        reconcile_spec(s, required).len() <= s.len(),
        forall|i: int|
            0 <= i < reconcile_spec(s, required).len() ==> reconcile_spec(s, required)[i] == s[i],
{
    if required > 0 {
        lemma_shrink_prefix(s, required);
    }
}

/// A scanned set that covered the fresh target still covers it once
/// reconciled: pruning stops before the set would undershoot.
pub proof fn lemma_reconcile_sufficient(s: Seq<CandidateModel>, required: int)
    requires
        0 < required <= sum_sizes(s),
    ensures
        sum_sizes(reconcile_spec(s, required)) >= required,
{
    lemma_shrink_sufficient(s, required);
}

/// After reconciliation against a positive target, the set is again a
/// near-minimal cover: dropping its newest member would undershoot.
pub proof fn lemma_reconcile_near_minimal(s: Seq<CandidateModel>, required: int)
    ensures
        near_minimal_cover(reconcile_spec(s, required), required),
{
    if required > 0 {
        lemma_shrink_near_minimal(s, required);
    }
}

/// Adjust the scanned set to the freshly probed deficit without rescanning:
/// drain it entirely when nothing is required any more, and otherwise let
/// newest members go while the rest still cover the target.
pub fn reconcile(set: &mut CandidateSet, required: u64)
    requires
        old(set).inv(),
    ensures
        final(set).inv(),
        final(set)@ == reconcile_spec(old(set)@, required as int),
{
    if required == 0 {
        set.clear();
    } else {
        crate::selector::shrink_to(set, required);
    }
}

} // verus!
