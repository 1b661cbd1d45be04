use vstd::prelude::*;

use crate::candidate::Candidate;
use crate::candidate::CandidateModel;
use crate::candidate::models_of;
use crate::candidate::sum_sizes;

verus! {

/// Bytes freed by draining `plan` when `deleted[i]` says whether the
/// attempt on the i-th file succeeded: a failed deletion is skipped and
/// contributes nothing.
pub open spec fn freed_spec(plan: Seq<CandidateModel>, deleted: Seq<bool>) -> int
    decreases plan.len(),
{
    if plan.len() == 0 || deleted.len() == 0 {
        0
    } else {
        freed_spec(plan.drop_last(), deleted.drop_last()) + if deleted.last() {
            plan.last().size as int
        } else {
            0
        }
    }
}

pub proof fn lemma_freed_bounds(plan: Seq<CandidateModel>, deleted: Seq<bool>)
    requires
        plan.len() == deleted.len(),
    ensures
        0 <= freed_spec(plan, deleted) <= sum_sizes(plan),
    decreases plan.len(),
{
    if plan.len() > 0 {
        lemma_freed_bounds(plan.drop_last(), deleted.drop_last());
    }
}

proof fn lemma_freed_take_succ(plan: Seq<CandidateModel>, deleted: Seq<bool>, i: int)
    requires
        plan.len() == deleted.len(),
        0 <= i < plan.len(),
    ensures
        freed_spec(plan.take(i + 1), deleted.take(i + 1)) == freed_spec(
            plan.take(i),
            deleted.take(i),
        ) + if deleted[i] {
            plan[i].size as int
        } else {
            0
        },
{
    assert(plan.take(i + 1).drop_last() =~= plan.take(i));
    assert(deleted.take(i + 1).drop_last() =~= deleted.take(i));
    assert(plan.take(i + 1).last() == plan[i]);
    assert(deleted.take(i + 1).last() == deleted[i]);
}

/// When every attempt succeeds — deletion everywhere, or a dry run, which
/// only reports — the total freed is the whole plan's byte total.
pub proof fn lemma_freed_counts_all(plan: Seq<CandidateModel>, deleted: Seq<bool>)
    requires
        plan.len() == deleted.len(),
        forall|i: int| 0 <= i < deleted.len() ==> deleted[i],
    ensures
        freed_spec(plan, deleted) == sum_sizes(plan),
    decreases plan.len(),
{
    if plan.len() > 0 {
        lemma_freed_counts_all(plan.drop_last(), deleted.drop_last());
    }
}

/// The aggregate bytes freed (or, in a dry run, would-be freed) by the
/// drain, given which deletions succeeded.
#[verifier::loop_isolation(false)]
pub fn bytes_freed(plan: &Vec<Candidate>, deleted: &Vec<bool>) -> (r: u64)
    requires
        deleted@.len() == plan@.len(),
        sum_sizes(models_of(plan@)) <= u64::MAX,
    ensures
        r as int == freed_spec(models_of(plan@), deleted@),
{
    let ghost pm = models_of(plan@);
    let mut acc: u64 = 0;
    let mut i: usize = 0;
    proof {
        assert(pm.take(0) =~= Seq::<CandidateModel>::empty());
        assert(deleted@.take(0) =~= Seq::<bool>::empty());
    }
    while i < plan.len()
        invariant
            i <= plan@.len(),
            acc as int == freed_spec(pm.take(i as int), deleted@.take(i as int)),
        decreases plan@.len() - i,
    {
        proof {
            lemma_freed_take_succ(pm, deleted@, i as int);
            lemma_freed_bounds(pm.take(i + 1), deleted@.take(i + 1));
            crate::candidate::lemma_sum_prefix_le(pm, i + 1);
        }
        if deleted[i] {
            acc = acc + plan[i].size;
        }
        i = i + 1;
    }
    proof {
        assert(pm.take(plan@.len() as int) =~= pm);
        assert(deleted@.take(plan@.len() as int) =~= deleted@);
    }
    acc
}

} // verus!
