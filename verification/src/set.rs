use vstd::prelude::*;

use crate::candidate::Candidate;
use crate::candidate::CandidateModel;
use crate::candidate::models_of;
use crate::candidate::sorted_by_accessed;
use crate::candidate::sum_sizes;
use crate::candidate::lemma_sum_nonneg;
use crate::candidate::lemma_sum_push;

verus! {

/// Where `c` comes to rest when inserted into `s`: after every element whose
/// last access is no later than `c`'s.
pub open spec fn insert_pos(s: Seq<CandidateModel>, c: CandidateModel) -> int
    decreases s.len(),
{
    if s.len() == 0 {
        0
    } else if s.last().accessed <= c.accessed {
        s.len() as int
    } else {
        insert_pos(s.drop_last(), c)
    }
}

/// `s` with `c` inserted so that the order by last access is kept; among
/// elements accessed at the same time, `c` comes last.
pub open spec fn insert_sorted(s: Seq<CandidateModel>, c: CandidateModel) -> Seq<CandidateModel>
    decreases s.len(),
{
    if s.len() == 0 {
        seq![c]
    } else if s.last().accessed <= c.accessed {
        s.push(c)
    } else {
        insert_sorted(s.drop_last(), c).push(s.last())
    }
}

pub proof fn lemma_insert_sorted_sum(s: Seq<CandidateModel>, c: CandidateModel)
    ensures
        sum_sizes(insert_sorted(s, c)) == sum_sizes(s) + c.size,
    decreases s.len(),
{
    if s.len() == 0 {
        assert(insert_sorted(s, c).drop_last() =~= Seq::<CandidateModel>::empty());
        assert(Seq::<CandidateModel>::empty() =~= s);
    } else if s.last().accessed <= c.accessed {
        lemma_sum_push(s, c);
    } else {
        lemma_insert_sorted_sum(s.drop_last(), c);
        lemma_sum_push(insert_sorted(s.drop_last(), c), s.last());
    }
}

/// Inserting at `insert_pos` is what `insert_sorted` does, and that position
/// splits `s` into elements no newer than `c` and elements strictly newer.
pub proof fn lemma_insert_sorted_decomposition(s: Seq<CandidateModel>, c: CandidateModel)
    requires
        sorted_by_accessed(s),
    ensures
        0 <= insert_pos(s, c) <= s.len(),
        forall|j: int| 0 <= j < insert_pos(s, c) ==> s[j].accessed <= c.accessed,
        forall|j: int| insert_pos(s, c) <= j < s.len() ==> s[j].accessed > c.accessed,
        insert_sorted(s, c) =~= s.insert(insert_pos(s, c), c),
    decreases s.len(),
{
    if s.len() == 0 {
    } else if s.last().accessed <= c.accessed {
        assert forall|j: int| 0 <= j < s.len() implies s[j].accessed <= c.accessed by {
            assert(s[j].accessed <= s[s.len() - 1].accessed);
        }
        assert(s.insert(s.len() as int, c) =~= s.push(c));
    } else {
        let dl = s.drop_last();
        assert(sorted_by_accessed(dl));
        lemma_insert_sorted_decomposition(dl, c);
        let p = insert_pos(dl, c);
        assert forall|j: int| p <= j < s.len() implies s[j].accessed > c.accessed by {
            if j < s.len() - 1 {
                assert(s[j] == dl[j]);
            }
        }
        assert forall|j: int| 0 <= j < p implies s[j].accessed <= c.accessed by {
            assert(s[j] == dl[j]);
        }
        assert(s.insert(p, c) =~= dl.insert(p, c).push(s.last()));
    }
}

/// An insertion at a position that splits a sorted sequence the same way is
/// the sorted insertion.
pub proof fn lemma_insert_sorted_at(s: Seq<CandidateModel>, c: CandidateModel, p: int)
    requires
        sorted_by_accessed(s),
        0 <= p <= s.len(),
        forall|j: int| 0 <= j < p ==> s[j].accessed <= c.accessed,
        forall|j: int| p <= j < s.len() ==> s[j].accessed > c.accessed,
    ensures
        insert_sorted(s, c) =~= s.insert(p, c),
{
    lemma_insert_sorted_decomposition(s, c);
    let q = insert_pos(s, c);
    if p < q {
        assert(s[p].accessed <= c.accessed);
        assert(s[p].accessed > c.accessed);
    }
    if q < p {
        assert(s[q].accessed <= c.accessed);
        assert(s[q].accessed > c.accessed);
    }
    assert(p == q);
}

pub proof fn lemma_insert_sorted_sorted(s: Seq<CandidateModel>, c: CandidateModel)
    requires
        sorted_by_accessed(s),
    ensures
        sorted_by_accessed(insert_sorted(s, c)),
{
    lemma_insert_sorted_decomposition(s, c);
    let p = insert_pos(s, c);
    let t = s.insert(p, c);
    s.insert_ensures(p, c);
    assert forall|i: int, j: int| 0 <= i <= j < t.len() implies t[i].accessed <= t[j].accessed by {
        if i < p && j < p {
        } else if i > p && j > p {
            assert(t[i] == s[i - 1]);
            assert(t[j] == s[j - 1]);
        }
    }
}

/// Every element of the insertion is an element of `s` or is `c` itself.
pub proof fn lemma_insert_sorted_members(s: Seq<CandidateModel>, c: CandidateModel)
    requires
        sorted_by_accessed(s),
    ensures
        forall|i: int|
            0 <= i < insert_sorted(s, c).len() ==> insert_sorted(s, c)[i] == c || s.contains(
                #[trigger] insert_sorted(s, c)[i],
            ),
{
    lemma_insert_sorted_decomposition(s, c);
    let p = insert_pos(s, c);
    s.insert_ensures(p, c);
    assert forall|i: int| 0 <= i < insert_sorted(s, c).len() implies insert_sorted(s, c)[i] == c
        || s.contains(insert_sorted(s, c)[i]) by {
        if i < p {
            assert(insert_sorted(s, c)[i] == s[i]);
        } else if i > p {
            assert(insert_sorted(s, c)[i] == s[i - 1]);
        }
    }
}

/// A bounded priority container of eviction candidates, ordered by last
/// access, oldest first: the last element is the most recently accessed and
/// the first to be let go when the set is over budget.  The byte total of the
/// members is kept alongside.
pub struct CandidateSet {
    items: Vec<Candidate>,
    total: u64,
}

impl View for CandidateSet {
    type V = Seq<CandidateModel>;

    closed spec fn view(&self) -> Seq<CandidateModel> {
        models_of(self.items@)
    }
}

impl CandidateSet {
    pub closed spec fn total_spec(&self) -> int {
        self.total as int
    }

    /// Well-formedness: members ordered oldest first, and the cached byte
    /// total is the sum of the members' sizes.
    pub open spec fn inv(&self) -> bool {
        &&& sorted_by_accessed(self@)
        &&& self.total_spec() == sum_sizes(self@)
    }

    pub fn new() -> (s: CandidateSet)
        ensures
            s.inv(),
            s@ =~= Seq::<CandidateModel>::empty(),
    {
        let s = CandidateSet { items: Vec::new(), total: 0 };
        proof {
            assert(s@ =~= Seq::<CandidateModel>::empty());
        }
        s
    }

    pub fn len(&self) -> (n: usize)
        ensures
            n == self@.len(),
    {
        self.items.len()
    }

    pub fn is_empty(&self) -> (r: bool)
        ensures
            r <==> self@.len() == 0,
    {
        self.items.len() == 0
    }

    /// The byte total of the members.
    pub fn total_size(&self) -> (t: u64)
        requires
            self.inv(),
        ensures
            t as int == sum_sizes(self@),
    {
        self.total
    }

    /// The most recently accessed member, if any: the one whose removal is
    /// considered first whenever the set is over budget.
    pub fn peek_most_recent(&self) -> (r: Option<&Candidate>)
        ensures
            match r {
                Some(c) => self@.len() > 0 && c@ == self@.last(),
                None => self@.len() == 0,
            },
    {
        let n = self.items.len();
        if n == 0 {
            None
        } else {
            Some(&self.items[n - 1])
        }
    }

    /// Whether the set is over budget by more than its newest member: the
    /// most recently accessed member could be let go and the rest would
    /// still hold more than `required` bytes.
    pub fn over_budget(&self, required: u64) -> (r: bool)
        requires
            self.inv(),
        ensures
            r <==> (self@.len() > 0 && sum_sizes(self@) - self@.last().size > required as int),
    {
        proof {
            if self@.len() > 0 {
                lemma_sum_nonneg(self@.drop_last());
            }
        }
        match self.peek_most_recent() {
            Some(top) => self.total - top.size > required,
            None => false,
        }
    }

    /// Insert `c` at its place in the order by last access.
    pub fn insert(&mut self, c: Candidate)
        requires
            old(self).inv(),
            sum_sizes(old(self)@) + c@.size <= u64::MAX,
        ensures
            final(self).inv(),
            final(self)@ == insert_sorted(old(self)@, c@),
            final(self)@.len() == old(self)@.len() + 1,
            sum_sizes(final(self)@) == sum_sizes(old(self)@) + c@.size,
    {
        proof {
            lemma_insert_sorted_sum(self@, c@);
            lemma_insert_sorted_sorted(self@, c@);
        }
        let mut i: usize = self.items.len();
        while i > 0 && self.items[i - 1].accessed > c.accessed
            invariant
                *self == *old(self),
                i <= self.items@.len(),
                forall|j: int| i <= j < self@.len() ==> self@[j].accessed > c@.accessed,
            decreases i,
        {
            i = i - 1;
        }
        proof {
            assert forall|j: int| 0 <= j < i implies self@[j].accessed <= c@.accessed by {
                assert(self@[i - 1].accessed <= c@.accessed);
            }
            lemma_insert_sorted_at(self@, c@, i as int);
        }
        let ghost v0 = self.items@;
        let size = c.size;
        self.items.insert(i, c);
        self.total = self.total + size;
        proof {
            v0.insert_ensures(i as int, c);
            models_of(v0).insert_ensures(i as int, c@);
            assert(self@ =~= models_of(v0).insert(i as int, c@));
            assert(self@ =~= insert_sorted(old(self)@, c@));
        }
    }

    /// Remove and return the most recently accessed member.
    pub fn pop_most_recent(&mut self) -> (r: Option<Candidate>)
        requires
            old(self).inv(),
        ensures
            final(self).inv(),
            match r {
                Some(c) => old(self)@.len() > 0 && c@ == old(self)@.last() && final(self)@ == old(
                    self,
                )@.drop_last(),
                None => old(self)@.len() == 0 && final(self)@ == old(self)@,
            },
    {
        proof {
            if self@.len() > 0 {
                lemma_sum_nonneg(self@.drop_last());
            }
        }
        match self.items.pop() {
            None => None,
            Some(c) => {
                proof {
                    assert(self@ =~= old(self)@.drop_last());
                }
                self.total = self.total - c.size;
                Some(c)
            },
        }
    }

    /// Discard every member.
    pub fn clear(&mut self)
        ensures
            final(self).inv(),
            final(self)@ =~= Seq::<CandidateModel>::empty(),
    {
        self.items.clear();
        self.total = 0;
        proof {
            assert(self@ =~= Seq::<CandidateModel>::empty());
        }
    }

    /// Empty the set, handing the members out most recently accessed first.
    pub fn drain_most_recent_first(&mut self) -> (r: Vec<Candidate>)
        requires
            old(self).inv(),
        ensures
            final(self).inv(),
            final(self)@.len() == 0,
            models_of(r@) =~= old(self)@.reverse(),
    {
        let ghost v0 = self@;
        let mut out: Vec<Candidate> = Vec::new();
        proof {
            assert(self@ =~= v0.take(self@.len() as int));
        }
        while self.len() > 0
            invariant
                self.inv(),
                out@.len() + self@.len() == v0.len(),
                self@ == v0.take(self@.len() as int),
                forall|i: int|
                    0 <= i < out@.len() ==> #[trigger] models_of(out@)[i] == v0[v0.len() - 1 - i],
            decreases self@.len(),
        {
            let ghost n = self@.len() as int;
            proof {
                assert(v0.take(n).drop_last() =~= v0.take(n - 1));
            }
            let c = match self.pop_most_recent() {
                Some(c) => c,
                None => {
                    proof {
                        assert(false);
                    }
                    unreached()
                },
            };
            let ghost out0 = out@;
            out.push(c);
            proof {
                assert(c@ == v0[n - 1]);
                assert forall|i: int| 0 <= i < out@.len() implies #[trigger] models_of(out@)[i]
                    == v0[v0.len() - 1 - i] by {
                    if i < out0.len() {
                        assert(models_of(out0)[i] == v0[v0.len() - 1 - i]);
                        assert(out@[i] == out0[i]);
                    } else {
                        assert(out@[i] == c);
                    }
                }
            }
        }
        proof {
            assert(models_of(out@) =~= v0.reverse());
        }
        out
    }
}

} // verus!
