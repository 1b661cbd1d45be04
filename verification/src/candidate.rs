use vstd::prelude::*;

verus! {

/// A regular file under consideration for eviction: where it lives, how many
/// bytes deleting it would free, and when it was last accessed, in seconds
/// (times before the epoch are negative).
pub struct Candidate {
    pub path: String,
    pub size: u64,
    pub accessed: i64,
}

/// Mathematical image of a `Candidate`.
pub ghost struct CandidateModel {
    pub path: Seq<char>,
    pub size: nat,
    pub accessed: int,
}

impl View for Candidate {
    type V = CandidateModel;

    open spec fn view(&self) -> CandidateModel {
        CandidateModel {
            path: self.path@,
            size: self.size as nat,
            accessed: self.accessed as int,
        }
    }
}

impl Clone for Candidate {
    fn clone(&self) -> (c: Self)
        ensures
            c == *self,
    {
        Candidate { path: self.path.clone(), size: self.size, accessed: self.accessed }
    }
}

impl Candidate {
    pub fn new(path: String, size: u64, accessed: i64) -> (c: Candidate)
        ensures
            c@.path == path@,
            c@.size == size as nat,
            c@.accessed == accessed as int,
    {
        Candidate { path, size, accessed }
    }
}

/// The models of a sequence of candidates.
pub open spec fn models_of(s: Seq<Candidate>) -> Seq<CandidateModel> {
    s.map_values(|c: Candidate| c@)
}

/// Total number of bytes held by the candidates of `s`.
pub open spec fn sum_sizes(s: Seq<CandidateModel>) -> int
    decreases s.len(),
{
    if s.len() == 0 {
        0
    } else {
        sum_sizes(s.drop_last()) + s.last().size
    }
}

/// The candidates of `s` are ordered by last access, oldest first.
pub open spec fn sorted_by_accessed(s: Seq<CandidateModel>) -> bool {
    forall|i: int, j: int| 0 <= i <= j < s.len() ==> s[i].accessed <= s[j].accessed
}

pub proof fn lemma_sum_nonneg(s: Seq<CandidateModel>)
    ensures
        sum_sizes(s) >= 0,
    decreases s.len(),
{
    if s.len() > 0 {
        lemma_sum_nonneg(s.drop_last());
    }
}

pub proof fn lemma_sum_push(s: Seq<CandidateModel>, c: CandidateModel)
    ensures
        sum_sizes(s.push(c)) == sum_sizes(s) + c.size,
{
    assert(s.push(c).drop_last() =~= s);
}

/// Extending a prefix of `s` by one element adds that element's size.
pub proof fn lemma_sum_take_succ(s: Seq<CandidateModel>, i: int)
    requires
        0 <= i < s.len(),
    ensures
        sum_sizes(s.take(i + 1)) == sum_sizes(s.take(i)) + s[i].size,
{
    assert(s.take(i + 1).drop_last() =~= s.take(i));
    assert(s.take(i + 1).last() == s[i]);
}

/// A shorter prefix never holds more bytes than a longer one.
pub proof fn lemma_sum_take_le(s: Seq<CandidateModel>, i: int, j: int)
    requires
        0 <= i <= j <= s.len(),
    ensures
        sum_sizes(s.take(i)) <= sum_sizes(s.take(j)),
    decreases j - i,
{
    if i < j {
        lemma_sum_take_le(s, i, j - 1);
        lemma_sum_take_succ(s, j - 1);
    }
}

/// A prefix never holds more bytes than the whole sequence.
pub proof fn lemma_sum_prefix_le(s: Seq<CandidateModel>, i: int)
    requires
        0 <= i <= s.len(),
    ensures
        sum_sizes(s.take(i)) <= sum_sizes(s),
{
    lemma_sum_take_le(s, i, s.len() as int);
    assert(s.take(s.len() as int) =~= s);
}

} // verus!
