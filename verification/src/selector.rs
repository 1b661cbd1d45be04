use vstd::prelude::*;

use crate::candidate::Candidate;
use crate::candidate::CandidateModel;
use crate::candidate::models_of;
use crate::candidate::sorted_by_accessed;
use crate::candidate::sum_sizes;
use crate::candidate::lemma_sum_nonneg;
use crate::candidate::lemma_sum_prefix_le;
use crate::candidate::lemma_sum_take_le;
use crate::candidate::lemma_sum_take_succ;
use crate::set::CandidateSet;
use crate::set::insert_pos;
use crate::set::insert_sorted;
use crate::set::lemma_insert_sorted_decomposition;
use crate::set::lemma_insert_sorted_members;
use crate::set::lemma_insert_sorted_sum;

verus! {

/// A file may be evicted only if it was last accessed strictly before the
/// age floor; more recently used files are protected whatever the deficit.
pub open spec fn eligible(c: CandidateModel, age_floor: int) -> bool {
    c.accessed < age_floor
}

/// The set admits `c` while its byte total is still short of the target, and
/// otherwise only if `c` was accessed no later than the most recently
/// accessed member, so that `c` is at least as good as the worst file kept.
pub open spec fn admits(s: Seq<CandidateModel>, c: CandidateModel, required: int) -> bool {
    sum_sizes(s) < required || (s.len() > 0 && c.accessed <= s.last().accessed)
}

/// Let the most recently accessed members go while the set stays a cover of
/// the target without them: while the total less the newest member's size
/// still exceeds `required`.
pub open spec fn shrink(s: Seq<CandidateModel>, required: int) -> Seq<CandidateModel>
    decreases s.len(),
{
    if s.len() > 0 && sum_sizes(s) - s.last().size > required {
        shrink(s.drop_last(), required)
    } else {
        s
    }
}

/// One step of the streaming selection: files protected by the age floor or
/// not admitted are skipped outright; an admitted file is inserted and the
/// set is then shrunk back to a near-minimal cover.
pub open spec fn step_select(
    s: Seq<CandidateModel>,
    c: CandidateModel,
    required: int,
    age_floor: int,
) -> Seq<CandidateModel> {
    if eligible(c, age_floor) && admits(s, c, required) {
        shrink(insert_sorted(s, c), required)
    } else {
        s
    }
}

/// The candidate set after one streaming pass over `files`, in stream order.
pub open spec fn select_spec(files: Seq<CandidateModel>, required: int, age_floor: int) -> Seq<
    CandidateModel,
>
    decreases files.len(),
{
    if files.len() == 0 {
        Seq::empty()
    } else {
        step_select(
            select_spec(files.drop_last(), required, age_floor),
            files.last(),
            required,
            age_floor,
        )
    }
}

/// Shrinking keeps a prefix of the members, oldest first.
pub proof fn lemma_shrink_prefix(s: Seq<CandidateModel>, required: int)
    ensures
        shrink(s, required).len() <= s.len(),
        forall|i: int| 0 <= i < shrink(s, required).len() ==> shrink(s, required)[i] == s[i],
    decreases s.len(),
{
    if s.len() > 0 && sum_sizes(s) - s.last().size > required {
        lemma_shrink_prefix(s.drop_last(), required);
        assert forall|i: int| 0 <= i < shrink(s, required).len() implies shrink(s, required)[i]
            == s[i] by {
            assert(shrink(s.drop_last(), required)[i] == s.drop_last()[i]);
        }
    }
}

pub proof fn lemma_shrink_sum_le(s: Seq<CandidateModel>, required: int)
    ensures
        sum_sizes(shrink(s, required)) <= sum_sizes(s),
    decreases s.len(),
{
    if s.len() > 0 && sum_sizes(s) - s.last().size > required {
        lemma_shrink_sum_le(s.drop_last(), required);
    }
}

pub proof fn lemma_shrink_sorted(s: Seq<CandidateModel>, required: int)
    requires
        sorted_by_accessed(s),
    ensures
        sorted_by_accessed(shrink(s, required)),
{
    lemma_shrink_prefix(s, required);
    let t = shrink(s, required);
    assert forall|i: int, j: int| 0 <= i <= j < t.len() implies t[i].accessed <= t[j].accessed by {
        assert(t[i] == s[i]);
        assert(t[j] == s[j]);
    }
}

/// What the shrink loop leaves behind is never over budget by more than its
/// newest member: the near-minimal cover shape.
pub open spec fn near_minimal_cover(s: Seq<CandidateModel>, required: int) -> bool {
    s.len() > 0 ==> sum_sizes(s) - s.last().size <= required
}

pub proof fn lemma_shrink_near_minimal(s: Seq<CandidateModel>, required: int)
    ensures
        near_minimal_cover(shrink(s, required), required),
    decreases s.len(),
{
    if s.len() > 0 && sum_sizes(s) - s.last().size > required {
        lemma_shrink_near_minimal(s.drop_last(), required);
    }
}

/// Shrinking keeps at least as many bytes as the target whenever it held
/// that many to begin with: only members whose removal still leaves a cover
/// are let go.
pub proof fn lemma_shrink_sufficient(s: Seq<CandidateModel>, required: int)
    requires
        sum_sizes(s) >= required,
    ensures
        sum_sizes(shrink(s, required)) >= required,
    decreases s.len(),
{
    if s.len() > 0 && sum_sizes(s) - s.last().size > required {
        lemma_sum_nonneg(s.drop_last());
        lemma_shrink_sufficient(s.drop_last(), required);
    }
}

/// Pops the most recently accessed members while the set is over budget by
/// more than the newest member's size.
pub(crate) fn shrink_to(set: &mut CandidateSet, required: u64)
    requires
        old(set).inv(),
    ensures
        final(set).inv(),
        final(set)@ == shrink(old(set)@, required as int),
{
    while set.over_budget(required)
        invariant
            set.inv(),
            shrink(set@, required as int) == shrink(old(set)@, required as int),
        decreases set@.len(),
    {
        let _ = set.pop_most_recent();
    }
}

/// One step of the streaming selection over a live `CandidateSet`.
pub fn select_step(set: &mut CandidateSet, c: &Candidate, required: u64, age_floor: i64)
    requires
        old(set).inv(),
        sum_sizes(old(set)@) + c@.size <= u64::MAX,
    ensures
        final(set).inv(),
        final(set)@ == step_select(old(set)@, c@, required as int, age_floor as int),
{
    if !(c.accessed < age_floor) {
        return ;
    }
    let total = set.total_size();
    let accepted = if total < required {
        true
    } else {
        match set.peek_most_recent() {
            Some(top) => c.accessed <= top.accessed,
            None => false,
        }
    };
    if !accepted {
        return ;
    }
    set.insert(c.clone());
    shrink_to(set, required);
}

/// A single streaming pass over `files`: the selected candidate set holds
/// only files older than the age floor and forms a near-minimal cover of
/// `required` bytes, preferring the oldest-accessed files seen so far.
///
/// The combined size of the files must fit in a byte counter; a scan of a
/// real volume always satisfies this.
#[verifier::loop_isolation(false)]
pub fn select(files: &Vec<Candidate>, required: u64, age_floor: i64) -> (s: CandidateSet)
    requires
        sum_sizes(models_of(files@)) <= u64::MAX,
    ensures
        s.inv(),
        s@ == select_spec(models_of(files@), required as int, age_floor as int),
{
    let ghost fm = models_of(files@);
    let mut set = CandidateSet::new();
    let mut i: usize = 0;
    proof {
        assert(fm.take(0) =~= Seq::<CandidateModel>::empty());
    }
    while i < files.len()
        invariant
            i <= files@.len(),
            set.inv(),
            set@ == select_spec(fm.take(i as int), required as int, age_floor as int),
            sum_sizes(set@) <= sum_sizes(fm.take(i as int)),
        decreases files@.len() - i,
    {
        let c = &files[i];
        proof {
            lemma_sum_take_succ(fm, i as int);
            lemma_sum_prefix_le(fm, i + 1);
            assert(sum_sizes(set@) + c@.size <= u64::MAX);
        }
        let ghost before = set@;
        select_step(&mut set, c, required, age_floor);
        proof {
            assert(fm.take(i + 1).drop_last() =~= fm.take(i as int));
            assert(fm.take(i + 1).last() == fm[i as int]);
            lemma_step_select_sum(before, c@, required as int, age_floor as int);
        }
        i = i + 1;
    }
    proof {
        assert(fm.take(files@.len() as int) =~= fm);
    }
    set
}

/// Every member of `s` was last accessed strictly before the age floor.
pub open spec fn all_eligible(s: Seq<CandidateModel>, age_floor: int) -> bool {
    forall|i: int| 0 <= i < s.len() ==> s[i].accessed < age_floor
}

/// The selection is ordered by last access, oldest first, after every pass.
pub proof fn lemma_select_spec_sorted(files: Seq<CandidateModel>, required: int, age_floor: int)
    ensures
        sorted_by_accessed(select_spec(files, required, age_floor)),
    decreases files.len(),
{
    if files.len() > 0 {
        lemma_select_spec_sorted(files.drop_last(), required, age_floor);
        let s = select_spec(files.drop_last(), required, age_floor);
        let c = files.last();
        if eligible(c, age_floor) && admits(s, c, required) {
            crate::set::lemma_insert_sorted_sorted(s, c);
            lemma_shrink_sorted(insert_sorted(s, c), required);
        }
    }
}

/// The age floor is absolute: whatever the deficit, no file accessed at or
/// after the floor is ever in the selection.
pub proof fn lemma_members_respect_age_floor(
    files: Seq<CandidateModel>,
    required: int,
    age_floor: int,
)
    ensures
        all_eligible(select_spec(files, required, age_floor), age_floor),
    decreases files.len(),
{
    if files.len() > 0 {
        lemma_members_respect_age_floor(files.drop_last(), required, age_floor);
        lemma_select_spec_sorted(files.drop_last(), required, age_floor);
        let s = select_spec(files.drop_last(), required, age_floor);
        let c = files.last();
        if eligible(c, age_floor) && admits(s, c, required) {
            let t = insert_sorted(s, c);
            lemma_insert_sorted_members(s, c);
            lemma_shrink_prefix(t, required);
            let r = select_spec(files, required, age_floor);
            assert forall|i: int| 0 <= i < r.len() implies r[i].accessed < age_floor by {
                assert(r[i] == t[i]);
                if t[i] != c {
                    let j = choose|j: int| 0 <= j < s.len() && s[j] == t[i];
                    assert(s[j].accessed < age_floor);
                }
            }
        }
    }
}

/// The near-minimal cover invariant holds after every step of the pass, for
/// any prefix of the stream: the set is never over budget by more than its
/// most recently accessed member.
pub proof fn lemma_select_near_minimal(files: Seq<CandidateModel>, required: int, age_floor: int)
    ensures
        near_minimal_cover(select_spec(files, required, age_floor), required),
    decreases files.len(),
{
    if files.len() > 0 {
        lemma_select_near_minimal(files.drop_last(), required, age_floor);
        let s = select_spec(files.drop_last(), required, age_floor);
        let c = files.last();
        if eligible(c, age_floor) && admits(s, c, required) {
            lemma_shrink_near_minimal(insert_sorted(s, c), required);
        }
    }
}

/// Combined bytes of the files in `files` that the age floor lets through.
pub open spec fn eligible_total(files: Seq<CandidateModel>, age_floor: int) -> int
    decreases files.len(),
{
    if files.len() == 0 {
        0
    } else {
        eligible_total(files.drop_last(), age_floor) + if eligible(files.last(), age_floor) {
            files.last().size as int
        } else {
            0
        }
    }
}

/// Best effort against the deficit: the pass never gathers more than the
/// eligible files hold, and it reaches the target whenever they cover it —
/// otherwise it gathers every eligible byte there is.
pub proof fn lemma_select_covers_target(files: Seq<CandidateModel>, required: int, age_floor: int)
    requires
        required >= 0,
    ensures
        sum_sizes(select_spec(files, required, age_floor)) <= eligible_total(files, age_floor),
        sum_sizes(select_spec(files, required, age_floor)) >= required || sum_sizes(
            select_spec(files, required, age_floor),
        ) == eligible_total(files, age_floor),
        eligible_total(files, age_floor) >= required ==> sum_sizes(
            select_spec(files, required, age_floor),
        ) >= required,
    decreases files.len(),
{
    if files.len() > 0 {
        lemma_select_covers_target(files.drop_last(), required, age_floor);
        let s = select_spec(files.drop_last(), required, age_floor);
        let c = files.last();
        if eligible(c, age_floor) && admits(s, c, required) {
            let t = insert_sorted(s, c);
            lemma_insert_sorted_sum(s, c);
            lemma_shrink_sum_le(t, required);
            if sum_sizes(t) >= required {
                lemma_shrink_sufficient(t, required);
            } else {
                lemma_sum_nonneg(t.drop_last());
            }
        }
    }
}

/// With no eligible file in the stream the selection is empty, whatever the
/// deficit: the age floor is never violated to make up a shortfall.
pub proof fn lemma_no_eligible_file_no_selection(
    files: Seq<CandidateModel>,
    required: int,
    age_floor: int,
)
    requires
        forall|i: int| 0 <= i < files.len() ==> !eligible(#[trigger] files[i], age_floor),
    ensures
        select_spec(files, required, age_floor) == Seq::<CandidateModel>::empty(),
    decreases files.len(),
{
    if files.len() > 0 {
        lemma_no_eligible_file_no_selection(files.drop_last(), required, age_floor);
    }
}

/// Shrinking never pops past a position whose prefix is within budget.
proof fn lemma_shrink_keeps(t: Seq<CandidateModel>, required: int, m: int)
    requires
        0 < m <= t.len(),
        sum_sizes(t.take(m)) - t[m - 1].size <= required,
    ensures
        shrink(t, required).len() >= m,
    decreases t.len(),
{
    if t.len() == m {
        assert(t.take(m) =~= t);
    } else {
        if sum_sizes(t) - t.last().size > required {
            let dl = t.drop_last();
            assert(t.take(m) =~= dl.take(m));
            lemma_shrink_keeps(dl, required, m);
        }
    }
}

/// A file that the pass skips leaves the set untouched: there is no
/// transient admission of a file that cannot survive.
pub proof fn lemma_skip_leaves_set_unchanged(
    s: Seq<CandidateModel>,
    c: CandidateModel,
    required: int,
    age_floor: int,
)
    requires
        !(eligible(c, age_floor) && admits(s, c, required)),
    ensures
        step_select(s, c, required, age_floor) == s,
{
}

/// An admitted file survives the eviction that follows its own admission:
/// admit-then-immediately-evict never happens, and an admission never leaves
/// the set empty.  The one exception is a file accessed at the same second
/// as the newest member of a set already at its target, which is excluded
/// here.
pub proof fn lemma_no_wasted_admission(
    s: Seq<CandidateModel>,
    c: CandidateModel,
    required: int,
    age_floor: int,
)
    requires
        sorted_by_accessed(s),
        near_minimal_cover(s, required),
        eligible(c, age_floor),
        admits(s, c, required),
        s.len() > 0 && c.accessed == s.last().accessed ==> sum_sizes(s) <= required,
    ensures
        step_select(s, c, required, age_floor).contains(c),
        step_select(s, c, required, age_floor).len() > 0,
{
    let t = insert_sorted(s, c);
    let p = insert_pos(s, c);
    lemma_insert_sorted_decomposition(s, c);
    s.insert_ensures(p, c);
    assert(t.take(p + 1) =~= s.take(p).push(c));
    crate::candidate::lemma_sum_push(s.take(p), c);
    assert(sum_sizes(t.take(p + 1)) == sum_sizes(s.take(p)) + c.size);
    assert(t[p] == c);
    if sum_sizes(s) < required {
        lemma_sum_prefix_le(s, p);
    } else {
        assert(s.len() > 0 && c.accessed <= s.last().accessed);
        if c.accessed < s.last().accessed {
            assert(p <= s.len() - 1);
            lemma_sum_take_le(s, p, s.len() - 1);
            assert(s.take(s.len() - 1) =~= s.drop_last());
            assert(sum_sizes(s) - s.last().size <= required);
        } else {
            lemma_sum_prefix_le(s, p);
        }
    }
    assert(sum_sizes(s.take(p)) <= required);
    lemma_shrink_keeps(t, required, p + 1);
    lemma_shrink_prefix(t, required);
    let r = step_select(s, c, required, age_floor);
    assert(r.contains(c)) by {
        assert(r[p] == c);
    }
}

/// One step adds at most the new file's bytes to the set.
proof fn lemma_step_select_sum(s: Seq<CandidateModel>, c: CandidateModel, required: int, age_floor: int)
    ensures
        sum_sizes(step_select(s, c, required, age_floor)) <= sum_sizes(s) + c.size,
{
    if eligible(c, age_floor) && admits(s, c, required) {
        lemma_insert_sorted_sum(s, c);
        lemma_shrink_sum_le(insert_sorted(s, c), required);
    }
}

} // verus!
