use vstd::prelude::*;

use crate::candidate::Candidate;
use crate::candidate::CandidateModel;
use crate::candidate::models_of;
use crate::candidate::sum_sizes;
use crate::reconciler::reconcile;
use crate::reconciler::reconcile_spec;
use crate::selector::select;
use crate::selector::select_spec;

verus! {

/// Bytes still missing to reach `target` available bytes when `available`
/// bytes are free, clamped at zero: space may also have been freed by
/// others, and then nothing is owed.
pub open spec fn deficit(target: int, available: int) -> int {
    if available < target {
        target - available
    } else {
        0
    }
}

/// The number of bytes that must be reclaimed so that at least `target`
/// bytes are available, given that `available` bytes are free now.
pub fn required_bytes(target: u64, available: u64) -> (r: u64)
    ensures
        r as int == deficit(target as int, available as int),
{
    if available < target {
        target - available
    } else {
        0
    }
}

pub open spec fn clamp_to_i64(v: int) -> int {
    if v < i64::MIN as int {
        i64::MIN as int
    } else if v > i64::MAX as int {
        i64::MAX as int
    } else {
        v
    }
}

/// The age floor: the moment `older_than_minutes` minutes before `now`,
/// saturated at the ends of the representable range.  Only files last
/// accessed strictly before it may be evicted.
pub open spec fn age_floor_spec(now: int, older_than_minutes: int) -> int {
    clamp_to_i64(now - older_than_minutes * 60)
}

pub fn age_floor_from(now: i64, older_than_minutes: i64) -> (r: i64)
    ensures
        r as int == age_floor_spec(now as int, older_than_minutes as int),
{
    let w: i128 = (now as i128) - (older_than_minutes as i128) * 60;
    if w < i64::MIN as i128 {
        i64::MIN
    } else if w > i64::MAX as i128 {
        i64::MAX
    } else {
        w as i64
    }
}

/// Everything the run decides, as a function of what was observed: the
/// files scanned, the configured target, the space available at the two
/// probes, and the age floor.  The result is the final eviction list, most
/// recently accessed first.  With no deficit at the first probe nothing is
/// scanned and nothing is planned.
pub open spec fn plan_spec(
    files: Seq<CandidateModel>,
    target: int,
    available_before: int,
    available_after: int,
    age_floor: int,
) -> Seq<CandidateModel> {
    if deficit(target, available_before) <= 0 {
        Seq::empty()
    } else {
        reconcile_spec(
            select_spec(files, deficit(target, available_before), age_floor),
            deficit(target, available_after),
        ).reverse()
    }
}

/// The whole pipeline between the probes and the drain: compute the
/// deficit, run the streaming selection, recompute the deficit from the
/// second probe, reconcile, and hand the final candidates out most
/// recently accessed first.
///
/// The combined size of the files must fit in a byte counter; a scan of a
/// real volume always satisfies this.
pub fn plan_evictions(
    files: &Vec<Candidate>,
    target: u64,
    available_before: u64,
    available_after: u64,
    age_floor: i64,
) -> (r: Vec<Candidate>)
    requires
        sum_sizes(models_of(files@)) <= u64::MAX,
    ensures
        models_of(r@) =~= plan_spec(
            models_of(files@),
            target as int,
            available_before as int,
            available_after as int,
            age_floor as int,
        ),
{
    let required = required_bytes(target, available_before);
    if required == 0 {
        let r: Vec<Candidate> = Vec::new();
        proof {
            assert(models_of(r@) =~= Seq::<CandidateModel>::empty());
        }
        r
    } else {
        let mut set = select(files, required, age_floor);
        let required_now = required_bytes(target, available_after);
        reconcile(&mut set, required_now);
        set.drain_most_recent_first()
    }
}

/// Dry-run idempotence: the plan is a pure function of what was observed.
/// Two runs that scan the same metadata, probe the same free space and are
/// given the same target and floor — a repeated dry run with no intervening
/// filesystem change — report the same files, in the same order, and the
/// same byte total.
pub proof fn lemma_plan_deterministic(
    files_a: Seq<CandidateModel>,
    files_b: Seq<CandidateModel>,
    target_a: int,
    target_b: int,
    before_a: int,
    before_b: int,
    after_a: int,
    after_b: int,
    floor_a: int,
    floor_b: int,
)
    requires
        files_a == files_b,
        target_a == target_b,
        before_a == before_b,
        after_a == after_b,
        floor_a == floor_b,
    ensures
        plan_spec(files_a, target_a, before_a, after_a, floor_a) == plan_spec(
            files_b,
            target_b,
            before_b,
            after_b,
            floor_b,
        ),
        sum_sizes(plan_spec(files_a, target_a, before_a, after_a, floor_a)) == sum_sizes(
            plan_spec(files_b, target_b, before_b, after_b, floor_b),
        ),
{
}

} // verus!
