//! The result aggregator.
//!
//! A single consumer collects completed records into an accumulator seeded
//! from the checkpoint. A record whose identifier is already held is never
//! added again, so the accumulator — and with it every checkpoint written
//! from it — holds at most one record per identifier. Every fixed batch of
//! received records the caller is told to persist the snapshot.

use vstd::prelude::*;
use crate::records::User;

verus! {

/// Whether some record in `rs` carries the address `a`.
pub open spec fn has_address(rs: Seq<User>, a: Seq<char>) -> bool {
    exists|k: int| 0 <= k < rs.len() && rs[k].address@ == a
}

/// No two records carry the same address.
pub open spec fn unique_addresses(rs: Seq<User>) -> bool {
    forall|i: int, j: int| 0 <= i < j < rs.len() ==> rs[i].address@ != rs[j].address@
}

/// One arrival: append the record unless its address is already held.
pub open spec fn accept_step(rs: Seq<User>, u: User) -> Seq<User> {
    if has_address(rs, u.address@) {
        rs
    } else {
        rs.push(u)
    }
}

/// All arrivals, in order.
pub open spec fn run_aggregate(init: Seq<User>, arrivals: Seq<User>) -> Seq<User>
    decreases arrivals.len(),
{
    if arrivals.len() == 0 {
        init
    } else {
        run_aggregate(accept_step(init, arrivals[0]), arrivals.drop_first())
    }
}

pub proof fn lemma_accept_step_unique(rs: Seq<User>, u: User)
    requires
        unique_addresses(rs),
    ensures
        unique_addresses(accept_step(rs, u)),
{
    if !has_address(rs, u.address@) {
        let rs2 = rs.push(u);
        assert forall|i: int, j: int| 0 <= i < j < rs2.len() implies rs2[i].address@
            != rs2[j].address@ by {
            if j == rs.len() {
                assert(rs2[i] == rs[i]);
            }
        }
    }
}

/// However many records arrive and in whatever order, a checkpoint seeded
/// without duplicate identifiers never comes to hold two records for one
/// identifier.
pub proof fn lemma_no_duplicate_records(init: Seq<User>, arrivals: Seq<User>)
    requires
        unique_addresses(init),
    ensures
        unique_addresses(run_aggregate(init, arrivals)),
    decreases arrivals.len(),
{
    if arrivals.len() > 0 {
        lemma_accept_step_unique(init, arrivals[0]);
        lemma_no_duplicate_records(accept_step(init, arrivals[0]), arrivals.drop_first());
    }
}

/// A run keeps everything: when the arriving records carry mutually
/// distinct identifiers, none of them already checkpointed — which is what
/// the working set's construction and the claimer's at-most-once hand-out
/// give every run — the final checkpoint is exactly the old checkpoint
/// followed by every arrival, in arrival order.
pub proof fn lemma_run_appends_exactly(init: Seq<User>, arrivals: Seq<User>)
    requires
        unique_addresses(init),
        forall|i: int, j: int| 0 <= i < j < arrivals.len() ==> arrivals[i].address@
            != arrivals[j].address@,
        forall|i: int| 0 <= i < arrivals.len() ==> !has_address(init, arrivals[i].address@),
    ensures
        run_aggregate(init, arrivals) == init + arrivals,
    decreases arrivals.len(),
{
    if arrivals.len() == 0 {
        assert(run_aggregate(init, arrivals) =~= init + arrivals);
    } else {
        let u = arrivals[0];
        let next = init.push(u);
        assert(accept_step(init, u) == next);
        let rest = arrivals.drop_first();
        assert forall|i: int, j: int|
            0 <= i < j < rest.len() implies rest[i].address@ != rest[j].address@ by {
            assert(rest[i] == arrivals[i + 1] && rest[j] == arrivals[j + 1]);
        }
        assert forall|i: int| 0 <= i < rest.len() implies !has_address(
            next,
            rest[i].address@,
        ) by {
            assert(rest[i] == arrivals[i + 1]);
            if has_address(next, rest[i].address@) {
                let k = choose|k: int| 0 <= k < next.len() && next[k].address@ == rest[i].address@;
                if k < init.len() {
                    assert(has_address(init, arrivals[i + 1].address@));
                } else {
                    assert(next[k] == u);
                    assert(arrivals[0].address@ == arrivals[i + 1].address@);
                }
            }
        }
        lemma_run_appends_exactly(next, rest);
        assert(run_aggregate(init, arrivals) == run_aggregate(next, rest));
        assert(init + arrivals =~= next + rest);
    }
}

/// The single consumer of completed records.
pub struct Aggregator {
    records: Vec<User>,
    received: usize,
    batch_size: usize,
}

impl Aggregator {
    /// The accumulated records: the checkpoint as it would next be written.
    pub closed spec fn records_view(self) -> Seq<User> {
        self.records@
    }

    /// How many records have arrived this run.
    pub closed spec fn received_count(self) -> int {
        self.received as int
    }

    /// How many arrivals lie between persisted snapshots.
    pub closed spec fn batch(self) -> int {
        self.batch_size as int
    }

    pub open spec fn wf(self) -> bool {
        &&& unique_addresses(self.records_view())
        &&& self.batch() >= 1
    }

    /// Seed the accumulator from the checkpoint read at startup.
    pub fn new(checkpoint: Vec<User>, batch_size: usize) -> (r: Aggregator)
        requires
            unique_addresses(checkpoint@),
            batch_size >= 1,
        ensures
            r.wf(),
            r.records_view() == checkpoint@,
            r.received_count() == 0,
            r.batch() == batch_size,
    {
        Aggregator { records: checkpoint, received: 0, batch_size }
    }

    /// Take one completed record. The result says whether a batch boundary
    /// was reached, so the caller should persist the snapshot now.
    pub fn accept(&mut self, u: User) -> (flush: bool)
        requires
            old(self).wf(),
            old(self).received_count() < usize::MAX,
        ensures
            final(self).wf(),
            final(self).records_view() == accept_step(old(self).records_view(), u),
            final(self).received_count() == old(self).received_count() + 1,
            final(self).batch() == old(self).batch(),
            flush == (final(self).received_count() % final(self).batch() == 0),
    {
        let mut found = false;
        let mut j: usize = 0;
        while j < self.records.len()
            invariant
                j <= self.records.len(),
                found == (exists|k: int|
                    0 <= k < j && self.records@[k].address@ == u.address@),
            decreases self.records.len() - j,
        {
            if self.records[j].address == u.address {
                found = true;
            }
            j += 1;
        }
        assert(found == has_address(self.records@, u.address@));
        if !found {
            self.records.push(u);
            proof {
                lemma_accept_step_unique(old(self).records_view(), u);
            }
        }
        self.received = self.received + 1;
        (self.received % self.batch_size) == 0
    }

    /// The records to persist.
    pub fn snapshot(&self) -> (r: &Vec<User>)
        ensures
            r@ == self.records_view(),
    {
        &self.records
    }

    /// How many records have arrived this run.
    pub fn received_so_far(&self) -> (r: usize)
        ensures
            r as int == self.received_count(),
    {
        self.received
    }
}

} // verus!
