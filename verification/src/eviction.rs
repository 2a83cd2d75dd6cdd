use crate::bucket::Probe;
use crate::lookup::{deadline, deadline_from, lemma_filter_push};
use vstd::prelude::*;

verus! {

/// A probe of a bucket's head that was sent and not yet answered.
#[derive(Copy, Clone, Debug)]
pub struct PendingEviction {
    pub request_id: u64,
    pub probe: Probe,
    /// The time, in milliseconds, from which on the probe counts as
    /// unanswered.
    pub deadline: u64,
}

/// The probes of bucket heads that are on their way, oldest first.
#[derive(Debug)]
pub struct ProbeTable {
    pub pending: Vec<PendingEviction>,
}

/// The probes whose deadline is not after `now`.
pub open spec fn overdue_probes(pending: Seq<PendingEviction>, now: u64) -> Seq<PendingEviction> {
    pending.filter(|e: PendingEviction| e.deadline <= now)
}

/// The probes whose deadline is after `now`.
pub open spec fn waiting_probes(pending: Seq<PendingEviction>, now: u64) -> Seq<PendingEviction> {
    pending.filter(|e: PendingEviction| e.deadline > now)
}

/// What the probes are about: for each, the head and the newcomer.
pub open spec fn probes_of(pending: Seq<PendingEviction>) -> Seq<Probe> {
    Seq::new(pending.len(), |i: int| pending[i].probe)
}

/// True when `p` is the place of the oldest probe with number
/// `request_id`.
pub open spec fn is_first_with(pending: Seq<PendingEviction>, request_id: u64, p: int) -> bool {
    &&& 0 <= p < pending.len()
    &&& pending[p].request_id == request_id
    &&& forall|j: int| 0 <= j < p ==> (#[trigger] pending[j]).request_id != request_id
}

/// True when no probe has the number `request_id`.
pub open spec fn none_with(pending: Seq<PendingEviction>, request_id: u64) -> bool {
    forall|j: int| 0 <= j < pending.len() ==> (#[trigger] pending[j]).request_id != request_id
}

impl View for ProbeTable {
    type V = Seq<PendingEviction>;

    open spec fn view(&self) -> Seq<PendingEviction> {
        self.pending@
    }
}

impl ProbeTable {
    /// A table without probes.
    pub fn new() -> (table: ProbeTable)
        ensures
            table@.len() == 0,
    {
        ProbeTable { pending: Vec::new() }
    }

    /// Records that `probe` went out at `now` under the number
    /// `request_id`: it counts as unanswered `RPC_TIMEOUT_MS` later.
    pub fn register(&mut self, request_id: u64, probe: Probe, now: u64)
        ensures
            final(self)@ == old(self)@.push(
                PendingEviction { request_id, probe, deadline: deadline_from(now) },
            ),
    {
        self.pending.push(PendingEviction { request_id, probe, deadline: deadline(now) });
    }

    /// Takes out the oldest probe with number `request_id`, if there is
    /// one.
    pub fn take(&mut self, request_id: u64) -> (taken: Option<Probe>)
        ensures
            match taken {
                Some(probe) => exists|p: int|
                    #[trigger] is_first_with(old(self)@, request_id, p) && probe == old(self)@[p].probe
                        && final(self)@ == old(self)@.remove(p),
                None => none_with(old(self)@, request_id) && final(self)@ == old(self)@,
            },
    {
        let mut p: usize = 0;
        while p < self.pending.len()
            invariant
                p <= self.pending@.len(),
                *self == *old(self),
                forall|j: int| 0 <= j < p ==> (#[trigger] self.pending@[j]).request_id != request_id,
            decreases self.pending@.len() - p,
        {
            if self.pending[p].request_id == request_id {
                let found = self.pending.remove(p);
                assert(is_first_with(old(self)@, request_id, p as int));
                return Some(found.probe);
            }
            p += 1;
        }
        None
    }

    /// Takes out every probe whose deadline is not after `now`, and hands
    /// them back, oldest first.
    pub fn take_overdue(&mut self, now: u64) -> (lost: Vec<Probe>)
        ensures
            lost@ == probes_of(overdue_probes(old(self)@, now)),
            final(self)@ == waiting_probes(old(self)@, now),
    {
        let ghost late = |e: PendingEviction| e.deadline <= now;
        let ghost timely = |e: PendingEviction| e.deadline > now;
        let mut kept: Vec<PendingEviction> = Vec::new();
        let mut lost: Vec<Probe> = Vec::new();
        let mut i: usize = 0;
        proof {
            reveal(Seq::filter);
            assert(self.pending@.take(0).filter(late) =~= Seq::<PendingEviction>::empty());
            assert(self.pending@.take(0).filter(timely) =~= Seq::<PendingEviction>::empty());
            assert(probes_of(Seq::<PendingEviction>::empty()) =~= Seq::<Probe>::empty());
        }
        while i < self.pending.len()
            invariant
                i <= self.pending@.len(),
                late == (|e: PendingEviction| e.deadline <= now),
                timely == (|e: PendingEviction| e.deadline > now),
                kept@ == self.pending@.take(i as int).filter(timely),
                lost@ == probes_of(self.pending@.take(i as int).filter(late)),
                *self == *old(self),
            decreases self.pending@.len() - i,
        {
            let entry = self.pending[i];
            proof {
                let seen = self.pending@.take(i as int);
                lemma_filter_push(seen, entry, late);
                lemma_filter_push(seen, entry, timely);
                assert(seen.push(entry) =~= self.pending@.take(i as int + 1));
                assert(probes_of(seen.filter(late).push(entry)) =~= probes_of(
                    seen.filter(late),
                ).push(entry.probe));
            }
            if entry.deadline <= now {
                lost.push(entry.probe);
            } else {
                kept.push(entry);
            }
            i += 1;
        }
        assert(self.pending@.take(self.pending@.len() as int) =~= self.pending@);
        self.pending = kept;
        lost
    }
}

} // verus!
