//! The work claimer.
//!
//! One shared cursor walks an immutable, ordered list of identifiers. Each
//! call to `claim` hands out the next unclaimed index and its identifier, or
//! reports exhaustion; no index is ever handed out twice. A claim made after
//! exhaustion still advances the cursor, which is how the aggregator tells
//! that every worker has seen the end of the work.

use vstd::prelude::*;

verus! {

/// The shared claim cursor over the frozen working set.
pub struct WorkCursor {
    work: Vec<String>,
    next: usize,
}

impl WorkCursor {
    /// The frozen, ordered working set.
    pub closed spec fn work_view(self) -> Seq<String> {
        self.work@
    }

    /// How many claims have been made, successful or not.
    pub closed spec fn cursor(self) -> int {
        self.next as int
    }

    pub open spec fn total(self) -> int {
        self.work_view().len() as int
    }

    /// The indices handed out so far.
    pub open spec fn claimed_set(self) -> Set<int> {
        Set::new(
            |k: int|
                0 <= k < (if self.cursor() < self.total() {
                    self.cursor()
                } else {
                    self.total()
                }),
        )
    }

    /// Freeze `work` as the run's working set, with nothing claimed yet.
    pub fn new(work: Vec<String>) -> (r: WorkCursor)
        ensures
            r.work_view() == work@,
            r.cursor() == 0,
    {
        WorkCursor { work, next: 0 }
    }

    /// Claim the next index: each successful claim returns an index exactly
    /// once, together with the identifier standing there, and exhaustion is
    /// reported once the list is spent.
    pub fn claim(&mut self) -> (r: Option<(usize, String)>)
        ensures
            final(self).work_view() == old(self).work_view(),
            old(self).cursor() < old(self).total() ==> (r matches Some(p)
                && p.0 as int == old(self).cursor()
                && p.1 == old(self).work_view()[old(self).cursor()]
                && final(self).cursor() == old(self).cursor() + 1),
            old(self).cursor() >= old(self).total() ==> (r is None
                && final(self).cursor() == (if old(self).cursor() < usize::MAX {
                old(self).cursor() + 1
            } else {
                old(self).cursor()
            })),
            r matches Some(p) ==> (!old(self).claimed_set().contains(p.0 as int)
                && final(self).claimed_set() == old(self).claimed_set().insert(p.0 as int)),
            r is None ==> final(self).claimed_set() == old(self).claimed_set(),
    {
        let i = self.next;
        if i < self.work.len() {
            self.next = i + 1;
            let id = self.work[i].clone();
            proof {
                assert(self.claimed_set() =~= old(self).claimed_set().insert(i as int));
            }
            Some((i, id))
        } else {
            if self.next < usize::MAX {
                self.next = self.next + 1;
            }
            proof {
                assert(self.claimed_set() =~= old(self).claimed_set());
            }
            None
        }
    }

    /// The raw cursor position, for progress reporting.
    pub fn position(&self) -> (r: usize)
        ensures
            r as int == self.cursor(),
    {
        self.next
    }

    /// How many identifiers the run has to fetch.
    pub fn total_len(&self) -> (r: usize)
        ensures
            r as int == self.total(),
    {
        self.work.len()
    }

    /// Whether every one of `workers` workers has claimed past the end, so
    /// no record can still be in flight.
    pub fn finished(&self, workers: usize) -> (r: bool)
        ensures
            r == (self.cursor() >= self.total() + workers as int),
    {
        if self.next >= self.work.len() {
            self.next - self.work.len() >= workers
        } else {
            false
        }
    }

    /// Claiming is a bijection between successful claims and the indices of
    /// the working set: each success takes a fresh index (an ensures of
    /// `claim`), and once the cursor has passed the end every index has been
    /// handed out.
    pub proof fn lemma_exhausted_claims_all(self)
        requires
            self.cursor() >= self.total(),
        ensures
            self.claimed_set() == Set::new(|k: int| 0 <= k < self.total()),
    {
        assert(self.claimed_set() =~= Set::new(|k: int| 0 <= k < self.total()));
    }
}

} // verus!
