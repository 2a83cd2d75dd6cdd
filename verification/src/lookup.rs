use crate::bucket::{distinct_ids, holds_id};
use crate::config::{ALPHA, K, MAX_ROUNDS, RPC_TIMEOUT_MS};
use crate::contact::Contact;
use crate::message_handler::{message_from, Outgoing};
use crate::nearest::{
    closest, gap, lemma_closest, lemma_closest_keeps_distinct, sorted_by_distance, take_nearest,
};
use crate::network::{text_view, Message, MessageType, MessageTypeView};
use crate::routing_table::{k_nearest, RoutingTable};
use crate::sha::SHA;
use rand::Rng;
use vstd::prelude::*;

verus! {

/// A request that was sent and not yet answered.
#[derive(Copy, Clone, Debug)]
pub struct PendingProbe {
    pub request_id: u64,
    pub contact: Contact,
    /// The time, in milliseconds, from which on the request counts as
    /// unanswered.
    pub deadline: u64,
}

/// Where a lookup stands.
#[derive(Copy, Clone, Debug, PartialEq, Eq, Structural)]
pub enum LookupStatus {
    /// The next round of probes can be sent.
    Ready,
    /// Probes are outstanding.
    Waiting,
    /// The lookup is over: the value was found, no peer is left to ask, the
    /// final sweep has been made, or the round limit is reached.
    Finished,
}

/// What a lookup asks of its driver after one turn.
#[derive(Debug)]
pub enum LookupStep {
    /// A round has begun: these requests are to be sent.
    Send(Vec<Outgoing>),
    /// Probes are outstanding: their answers, or their deadlines, are to
    /// be waited for.
    Wait,
    /// The lookup is over.
    Done,
}

/// True when `id` is among `ids`.
pub open spec fn has_id(ids: Seq<SHA>, id: Seq<u8>) -> bool {
    exists|i: int| 0 <= i < ids.len() && #[trigger] ids[i]@ == id
}

/// True when a probe of the peer `id` is outstanding.
pub open spec fn awaited(pending: Seq<PendingProbe>, id: Seq<u8>) -> bool {
    exists|i: int| 0 <= i < pending.len() && (#[trigger] pending[i]).contact.id() == id
}

/// The contacts of the shortlist that can still be probed: those neither
/// asked before nor being asked now, nearest first.
pub open spec fn unprobed(
    shortlist: Seq<Contact>,
    queried: Seq<SHA>,
    pending: Seq<PendingProbe>,
) -> Seq<Contact> {
    shortlist.filter(|c: Contact| !has_id(queried, c.id()) && !awaited(pending, c.id()))
}

/// The shortlist with the peers of `nodes` that it can take put behind it:
/// a peer that is the local node, that has proved unreachable, or that is
/// there already is left out.
pub open spec fn absorb(s: Seq<Contact>, nodes: Seq<Contact>, local: Seq<u8>, dead: Seq<SHA>) -> Seq<
    Contact,
>
    decreases nodes.len(),
{
    if nodes.len() == 0 {
        s
    } else {
        let t = absorb(s, nodes.drop_last(), local, dead);
        let c = nodes.last();
        if c.id() == local || has_id(dead, c.id()) || holds_id(t, c.id()) {
            t
        } else {
            t.push(c)
        }
    }
}

/// The shortlist after an answer brought `nodes`: the `K` nearest to the
/// target of what `absorb` keeps.
pub open spec fn merged(
    s: Seq<Contact>,
    nodes: Seq<Contact>,
    local: Seq<u8>,
    dead: Seq<SHA>,
    target: Seq<u8>,
) -> Seq<Contact> {
    closest(absorb(s, nodes, local, dead), target, K as int)
}

/// Index of the first outstanding probe with number `request_id`; the
/// number of probes where there is none.
pub open spec fn probe_index(pending: Seq<PendingProbe>, request_id: u64) -> int
    decreases pending.len(),
{
    if pending.len() == 0 {
        0
    } else if pending[0].request_id == request_id {
        0
    } else {
        1 + probe_index(pending.skip(1), request_id)
    }
}

/// True when the shortlist `after` starts with a peer strictly nearer to
/// the target than any in `before`.
pub open spec fn nearer(after: Seq<Contact>, before: Seq<Contact>, target: Seq<u8>) -> bool {
    after.len() > 0 && (before.len() == 0 || gap(after[0], target) < gap(before[0], target))
}

/// The time from which on a probe sent at `now` counts as unanswered.
pub open spec fn deadline_from(now: u64) -> u64 {
    if now > u64::MAX - RPC_TIMEOUT_MS {
        u64::MAX
    } else {
        (now + RPC_TIMEOUT_MS) as u64
    }
}

/// What a lookup asks of a peer: the value of its key, or the peers near
/// its target.
pub open spec fn probe_kind(target: SHA, key: Option<Seq<char>>) -> MessageTypeView {
    match key {
        Some(text) => MessageTypeView::FindValue { key: text },
        None => MessageTypeView::FindNode { wanted_id: target },
    }
}

/// `probe_index` is within bounds, points at the wanted number, and no
/// probe before it has that number.
pub proof fn lemma_probe_index(pending: Seq<PendingProbe>, request_id: u64)
    ensures
        0 <= probe_index(pending, request_id) <= pending.len(),
        probe_index(pending, request_id) < pending.len() ==> pending[probe_index(
            pending,
            request_id,
        )].request_id == request_id,
        forall|j: int|
            0 <= j < probe_index(pending, request_id) ==> pending[j].request_id != request_id,
    decreases pending.len(),
{
    if pending.len() > 0 && pending[0].request_id != request_id {
        let t = pending.skip(1);
        lemma_probe_index(t, request_id);
        assert forall|j: int| 0 <= j < probe_index(pending, request_id) implies pending[j].request_id
            != request_id by {
            if j > 0 {
                assert(t[j - 1].request_id != request_id);
            }
        }
        if probe_index(t, request_id) < t.len() {
            assert(pending[probe_index(pending, request_id)] == t[probe_index(t, request_id)]);
        }
    }
}

/// Filtering a sequence that ends in `x`.
pub proof fn lemma_filter_push<A>(s: Seq<A>, x: A, pred: spec_fn(A) -> bool)
    ensures
        s.push(x).filter(pred) == if pred(x) {
            s.filter(pred).push(x)
        } else {
            s.filter(pred)
        },
{
    reveal(Seq::filter);
    assert(s.push(x).drop_last() =~= s);
}

/// What is left of a shortlist after some contacts were taken out is
/// still sorted, and each contact left was in it and passes the filter.
pub proof fn lemma_filter_sorted(s: Seq<Contact>, pred: spec_fn(Contact) -> bool, target: Seq<u8>)
    requires
        sorted_by_distance(s, target),
    ensures
        sorted_by_distance(s.filter(pred), target),
        s.filter(pred).len() <= s.len(),
        forall|i: int|
            0 <= i < s.filter(pred).len() ==> pred(#[trigger] s.filter(pred)[i]) && s.contains(
                s.filter(pred)[i],
            ),
    decreases s.len(),
{
    reveal(Seq::filter);
    if s.len() > 0 {
        let init = s.drop_last();
        lemma_filter_sorted(init, pred, target);
        let f = init.filter(pred);
        let r = s.filter(pred);
        assert forall|i: int| 0 <= i < r.len() implies pred(#[trigger] r[i]) && s.contains(
            r[i],
        ) by {
            if i < f.len() {
                assert(init.contains(f[i]));
                let k = choose|k: int| 0 <= k < init.len() && init[k] == f[i];
                assert(s[k] == r[i]);
            } else {
                assert(s[s.len() - 1] == r[i]);
            }
        }
        assert forall|i: int, j: int| 0 <= i < j < r.len() implies gap(r[i], target) <= gap(
            r[j],
            target,
        ) by {
            if j == f.len() {
                assert(init.contains(f[i]));
                let k = choose|k: int| 0 <= k < init.len() && init[k] == f[i];
                assert(gap(s[k], target) <= gap(s[s.len() - 1], target));
            }
        }
    }
}

/// What is left of a list of distinct peers after some were taken out
/// names no peer twice.
pub proof fn lemma_filter_distinct(s: Seq<Contact>, pred: spec_fn(Contact) -> bool)
    requires
        distinct_ids(s),
    ensures
        distinct_ids(s.filter(pred)),
        forall|i: int| 0 <= i < s.filter(pred).len() ==> s.contains(#[trigger] s.filter(pred)[i]),
    decreases s.len(),
{
    reveal(Seq::filter);
    if s.len() > 0 {
        let init = s.drop_last();
        assert(distinct_ids(init)) by {
            assert forall|i: int, j: int|
                0 <= i < init.len() && 0 <= j < init.len() && i != j implies #[trigger] init[i].id()
                != #[trigger] init[j].id() by {
                assert(init[i] == s[i] && init[j] == s[j]);
            }
        }
        lemma_filter_distinct(init, pred);
        let f = init.filter(pred);
        let r = s.filter(pred);
        assert forall|i: int| 0 <= i < r.len() implies s.contains(#[trigger] r[i]) by {
            if i < f.len() {
                assert(init.contains(f[i]));
                let k = choose|k: int| 0 <= k < init.len() && init[k] == f[i];
                assert(s[k] == r[i]);
            } else {
                assert(s[s.len() - 1] == r[i]);
            }
        }
        assert forall|i: int, j: int|
            0 <= i < r.len() && 0 <= j < r.len() && i != j implies #[trigger] r[i].id()
            != #[trigger] r[j].id() by {
            if i < f.len() && j < f.len() {
                assert(r[i] == f[i] && r[j] == f[j]);
            } else {
                let inner = if i < f.len() {
                    i
                } else {
                    j
                };
                assert(init.contains(f[inner]));
                let k = choose|k: int| 0 <= k < init.len() && init[k] == f[inner];
                assert(s[k].id() != s[s.len() - 1].id());
            }
        }
    } else {
        assert forall|i: int| 0 <= i < s.len() implies s.contains(#[trigger] s[i]) by {}
    }
}

/// `absorb` names no peer twice where the shortlist named none twice.
pub proof fn lemma_absorb_distinct(
    s: Seq<Contact>,
    nodes: Seq<Contact>,
    local: Seq<u8>,
    dead: Seq<SHA>,
)
    requires
        distinct_ids(s),
    ensures
        distinct_ids(absorb(s, nodes, local, dead)),
    decreases nodes.len(),
{
    if nodes.len() > 0 {
        lemma_absorb_distinct(s, nodes.drop_last(), local, dead);
        let t = absorb(s, nodes.drop_last(), local, dead);
        let r = absorb(s, nodes, local, dead);
        let c = nodes.last();
        if r != t {
            assert forall|i: int, j: int|
                0 <= i < r.len() && 0 <= j < r.len() && i != j implies #[trigger] r[i].id()
                != #[trigger] r[j].id() by {
                if i < t.len() && j < t.len() {
                    assert(r[i] == t[i] && r[j] == t[j]);
                } else if i < t.len() {
                    assert(t[i].id() != c.id());
                } else {
                    assert(t[j].id() != c.id());
                }
            }
        }
    }
}

/// Whatever `absorb` keeps was in the shortlist, or is a peer other than
/// the local node that has not proved unreachable.
pub proof fn lemma_absorb_members(
    s: Seq<Contact>,
    nodes: Seq<Contact>,
    local: Seq<u8>,
    dead: Seq<SHA>,
)
    ensures
        forall|i: int|
            0 <= i < absorb(s, nodes, local, dead).len() ==> s.contains(
                #[trigger] absorb(s, nodes, local, dead)[i],
            ) || (absorb(s, nodes, local, dead)[i].id() != local && !has_id(
                dead,
                absorb(s, nodes, local, dead)[i].id(),
            )),
        s.len() <= absorb(s, nodes, local, dead).len() <= s.len() + nodes.len(),
    decreases nodes.len(),
{
    if nodes.len() > 0 {
        lemma_absorb_members(s, nodes.drop_last(), local, dead);
        let t = absorb(s, nodes.drop_last(), local, dead);
        let r = absorb(s, nodes, local, dead);
        assert forall|i: int| 0 <= i < r.len() implies s.contains(#[trigger] r[i]) || (r[i].id()
            != local && !has_id(dead, r[i].id())) by {
            if i < t.len() {
                assert(r[i] == t[i]);
            }
        }
    } else {
        assert forall|i: int| 0 <= i < s.len() implies s.contains(#[trigger] s[i]) by {}
    }
}

/// Draws a request number from `rand::rng()` with `Rng::random`. Nothing
/// is claimed of it: it differs from call to call.
#[verifier::external_body]
fn fresh_request_id() -> (id: u64) {
    rand::rng().random::<u64>()
}

fn id_in(ids: &Vec<SHA>, id: &SHA) -> (r: bool)
    ensures
        r == has_id(ids@, id@),
{
    let mut i: usize = 0;
    while i < ids.len()
        invariant
            i <= ids@.len(),
            forall|j: int| 0 <= j < i ==> ids@[j]@ != id@,
        decreases ids@.len() - i,
    {
        if ids[i] == *id {
            return true;
        }
        i += 1;
    }
    false
}

fn is_awaited(pending: &Vec<PendingProbe>, id: &SHA) -> (r: bool)
    ensures
        r == awaited(pending@, id@),
{
    let mut i: usize = 0;
    while i < pending.len()
        invariant
            i <= pending@.len(),
            forall|j: int| 0 <= j < i ==> pending@[j].contact.id() != id@,
        decreases pending@.len() - i,
    {
        if pending[i].contact.node_id == *id {
            return true;
        }
        i += 1;
    }
    false
}

fn contact_in(list: &Vec<Contact>, id: &SHA) -> (r: bool)
    ensures
        r == holds_id(list@, id@),
{
    let mut i: usize = 0;
    while i < list.len()
        invariant
            i <= list@.len(),
            forall|j: int| 0 <= j < i ==> list@[j].id() != id@,
        decreases list@.len() - i,
    {
        if list[i].node_id == *id {
            assert(list@[i as int].id() == id@);
            return true;
        }
        i += 1;
    }
    false
}

fn find_probe(pending: &Vec<PendingProbe>, request_id: u64) -> (p: usize)
    ensures
        p == probe_index(pending@, request_id),
        p <= pending@.len(),
{
    let mut p: usize = 0;
    while p < pending.len()
        invariant
            p <= pending@.len(),
            forall|j: int| 0 <= j < p ==> pending@[j].request_id != request_id,
        decreases pending@.len() - p,
    {
        if pending[p].request_id == request_id {
            proof {
                lemma_probe_index(pending@, request_id);
            }
            return p;
        }
        p += 1;
    }
    proof {
        lemma_probe_index(pending@, request_id);
    }
    p
}

/// The time from which on a probe sent at `now` counts as unanswered.
pub fn deadline(now: u64) -> (d: u64)
    ensures
        d == deadline_from(now),
{
    if now > u64::MAX - RPC_TIMEOUT_MS {
        u64::MAX
    } else {
        now + RPC_TIMEOUT_MS
    }
}

/// One iterative lookup: the peers nearest to the target seen so far, and
/// who among them was asked, is being asked, or has proved unreachable.
#[derive(Debug)]
pub struct Lookup {
    pub target: SHA,
    pub local: SHA,
    /// The key whose value is looked for; `None` when peers are.
    pub key: Option<String>,
    pub shortlist: Vec<Contact>,
    pub queried: Vec<SHA>,
    pub dead: Vec<SHA>,
    pub pending: Vec<PendingProbe>,
    pub found_value: Option<String>,
    pub rounds: usize,
    /// True when an answer of the current round brought a peer nearer than
    /// all that were known.
    pub improved: bool,
    /// True when the current round is the final sweep.
    pub sweeping: bool,
}

impl Lookup {
    /// The shortlist is sorted by distance to the target, holds at most `K`
    /// contacts, names no peer twice, and holds neither the local node nor
    /// a peer that has proved unreachable; no more than `MAX_ROUNDS` rounds
    /// were begun.
    pub open spec fn wf(&self) -> bool {
        &&& self.rounds <= MAX_ROUNDS
        &&& sorted_by_distance(self.shortlist@, self.target@)
        &&& distinct_ids(self.shortlist@)
        &&& self.shortlist@.len() <= K
        &&& forall|i: int|
            0 <= i < self.shortlist@.len() ==> (#[trigger] self.shortlist@[i]).id() != self.local@
                && !has_id(self.dead@, self.shortlist@[i].id())
    }

    /// Where the lookup stands.
    pub open spec fn status_of(&self) -> LookupStatus {
        if self.found_value is Some {
            LookupStatus::Finished
        } else if self.pending@.len() > 0 {
            LookupStatus::Waiting
        } else if self.rounds >= MAX_ROUNDS || self.sweeping || unprobed(
            self.shortlist@,
            self.queried@,
            self.pending@,
        ).len() == 0 {
            LookupStatus::Finished
        } else {
            LookupStatus::Ready
        }
    }

    /// How many probes the next round sends at most: `ALPHA`, and after a
    /// round that brought nothing nearer, one to every peer that can still
    /// be probed.
    pub open spec fn width_of(&self) -> nat {
        let open = unprobed(self.shortlist@, self.queried@, self.pending@).len();
        if (self.rounds > 0 && !self.improved) || open <= ALPHA {
            open
        } else {
            ALPHA as nat
        }
    }

    /// True of a lookup for `target` that has just begun at the node
    /// `local` with the table `t`: its shortlist is what the table knows
    /// nearest to the target, nobody was asked or is being asked or has
    /// proved unreachable, no round was begun and no value found. With a
    /// `key` it looks for that key's value.
    pub open spec fn begins(
        &self,
        t: Seq<Seq<Contact>>,
        local: SHA,
        target: Seq<u8>,
        key: Option<Seq<char>>,
    ) -> bool {
        &&& self.wf()
        &&& self.target@ == target
        &&& self.local == local
        &&& text_view(self.key) == key
        &&& self.shortlist@ == k_nearest(t, local@, target)
        &&& self.queried@.len() == 0
        &&& self.dead@.len() == 0
        &&& self.pending@.len() == 0
        &&& self.found_value is None
        &&& self.rounds == 0
        &&& !self.improved
        &&& !self.sweeping
    }

    /// A lookup for `target` that starts from what `table` knows. With a
    /// `key` it looks for that key's value, else for the peers nearest to
    /// `target`.
    pub fn new(table: &RoutingTable, target: SHA, key: Option<String>) -> (lookup: Lookup)
        requires
            table.wf(),
        ensures
            lookup.target == target,
            lookup.begins(table@, table.local_id(), target@, text_view(key)),
    {
        let shortlist = table.find_k_nearest_nodes(target);
        proof {
            let t = table@;
            let local = table.local_id()@;
            assert forall|i: int| 0 <= i < shortlist@.len() implies (#[trigger] shortlist@[i]).id()
                != local by {
                let id = shortlist@[i].id();
                assert(crate::routing_table::table_holds(t, id));
                let (b, j) = choose|b: int, j: int|
                    0 <= b < t.len() && 0 <= j < t[b].len() && #[trigger] t[b][j].id() == id;
                crate::routing_table::lemma_contacts_in_their_bucket(t, local, b, j);
            }
        }
        Lookup {
            target,
            local: table.local_node_id(),
            key,
            shortlist,
            queried: Vec::new(),
            dead: Vec::new(),
            pending: Vec::new(),
            found_value: None,
            rounds: 0,
            improved: false,
            sweeping: false,
        }
    }

    /// The contacts of the shortlist that can still be probed, nearest
    /// first: none of them was asked before or is being asked, and none
    /// is named twice where the shortlist names none twice.
    pub fn candidates(&self) -> (out: Vec<Contact>)
        ensures
            out@ == unprobed(self.shortlist@, self.queried@, self.pending@),
            forall|i: int|
                0 <= i < out@.len() ==> !has_id(self.queried@, (#[trigger] out@[i]).id())
                    && !awaited(self.pending@, out@[i].id()),
            distinct_ids(self.shortlist@) ==> distinct_ids(out@),
    {
        let mut out: Vec<Contact> = Vec::new();
        let mut i: usize = 0;
        let ghost pred = |c: Contact|
            !has_id(self.queried@, c.id()) && !awaited(self.pending@, c.id());
        proof {
            reveal(Seq::filter);
            assert(self.shortlist@.take(0).filter(pred) =~= Seq::<Contact>::empty());
        }
        while i < self.shortlist.len()
            invariant
                i <= self.shortlist@.len(),
                pred == (|c: Contact|
                    !has_id(self.queried@, c.id()) && !awaited(self.pending@, c.id())),
                out@ == self.shortlist@.take(i as int).filter(pred),
            decreases self.shortlist@.len() - i,
        {
            let c = self.shortlist[i];
            proof {
                lemma_filter_push(self.shortlist@.take(i as int), c, pred);
                assert(self.shortlist@.take(i as int).push(c) =~= self.shortlist@.take(
                    i as int + 1,
                ));
            }
            if !id_in(&self.queried, &c.node_id) && !is_awaited(&self.pending, &c.node_id) {
                out.push(c);
            }
            i += 1;
        }
        proof {
            assert(self.shortlist@.take(self.shortlist@.len() as int) =~= self.shortlist@);
            assert forall|i: int| 0 <= i < out@.len() implies !has_id(
                self.queried@,
                (#[trigger] out@[i]).id(),
            ) && !awaited(self.pending@, out@[i].id()) by {
                self.shortlist@.lemma_filter_pred(pred, i);
            }
            if distinct_ids(self.shortlist@) {
                lemma_filter_distinct(self.shortlist@, pred);
            }
        }
        out
    }

    /// Where the lookup stands.
    pub fn status(&self) -> (s: LookupStatus)
        ensures
            s == self.status_of(),
    {
        if self.found_value.is_some() {
            LookupStatus::Finished
        } else if self.pending.len() > 0 {
            LookupStatus::Waiting
        } else if self.rounds >= MAX_ROUNDS || self.sweeping || self.candidates().len() == 0 {
            LookupStatus::Finished
        } else {
            LookupStatus::Ready
        }
    }

    /// The request this lookup sends to a peer, under the number
    /// `request_id`.
    pub fn request(&self, sender: Contact, request_id: u64) -> (m: Message)
        ensures
            m@ == message_from(sender, request_id, probe_kind(self.target, text_view(self.key))),
    {
        let message_type = match &self.key {
            Some(key) => MessageType::FindValue { key: key.clone() },
            None => MessageType::FindNode { wanted_id: self.target },
        };
        Message { message_type, sender, request_id }
    }

    /// The probes of a round that sends to the first `n` of `open` under
    /// the numbers of `ids`, at the time `now`.
    pub open spec fn round_probes(open: Seq<Contact>, ids: Seq<u64>, n: nat, now: u64) -> Seq<
        PendingProbe,
    > {
        Seq::new(
            n,
            |i: int|
                PendingProbe { request_id: ids[i], contact: open[i], deadline: deadline_from(now) },
        )
    }

    /// Begins the next round, with the request numbers of `ids`: names the
    /// peers to probe, nearest first, and records their probes as
    /// outstanding until `RPC_TIMEOUT_MS` after `now`. A round probes up to
    /// `ALPHA` peers; the round after one that brought nothing nearer
    /// probes every peer that can still be probed, and is the last. No
    /// more peers are probed than `ids` has numbers. A lookup that is not
    /// ready is left as it is, and nothing is to be sent.
    pub fn begin_round_with(&mut self, ids: &Vec<u64>, now: u64, sender: Contact) -> (out: Vec<
        Outgoing,
    >)
        requires
            old(self).wf(),
        ensures
            final(self).wf(),
            final(self).target == old(self).target,
            final(self).local == old(self).local,
            final(self).key == old(self).key,
            final(self).shortlist == old(self).shortlist,
            final(self).queried == old(self).queried,
            final(self).dead == old(self).dead,
            final(self).found_value == old(self).found_value,
            old(self).status_of() != LookupStatus::Ready ==> {
                &&& out@.len() == 0
                &&& final(self).pending == old(self).pending
                &&& final(self).rounds == old(self).rounds
                &&& final(self).improved == old(self).improved
                &&& final(self).sweeping == old(self).sweeping
            },
            old(self).status_of() == LookupStatus::Ready ==> {
                let open = unprobed(old(self).shortlist@, old(self).queried@, old(self).pending@);
                let n = if old(self).width_of() <= ids@.len() {
                    old(self).width_of()
                } else {
                    ids@.len()
                };
                &&& out@.len() == n
                &&& forall|i: int|
                    0 <= i < n ==> (#[trigger] out@[i]).target == open[i] && out@[i].message@
                        == message_from(
                        sender,
                        ids@[i],
                        probe_kind(old(self).target, text_view(old(self).key)),
                    )
                &&& final(self).pending@ == Self::round_probes(open, ids@, n, now)
                &&& final(self).rounds == old(self).rounds + 1
                &&& !final(self).improved
                &&& final(self).sweeping == (old(self).rounds > 0 && !old(self).improved)
            },
    {
        let mut out: Vec<Outgoing> = Vec::new();
        if !matches!(self.status(), LookupStatus::Ready) {
            return out;
        }
        let open = self.candidates();
        let sweep = self.rounds > 0 && !self.improved;
        let width = if sweep || open.len() <= ALPHA {
            open.len()
        } else {
            ALPHA
        };
        let n = if width <= ids.len() {
            width
        } else {
            ids.len()
        };
        let until = deadline(now);
        let mut i: usize = 0;
        while i < n
            invariant
                i <= n,
                n <= open@.len(),
                n <= ids@.len(),
                until == deadline_from(now),
                out@.len() == i,
                self.pending@ == Self::round_probes(open@, ids@, i as nat, now),
                forall|j: int|
                    0 <= j < i ==> (#[trigger] out@[j]).target == open@[j] && out@[j].message@
                        == message_from(
                        sender,
                        ids@[j],
                        probe_kind(old(self).target, text_view(old(self).key)),
                    ),
                self.target == old(self).target,
                self.local == old(self).local,
                self.key == old(self).key,
                self.shortlist == old(self).shortlist,
                self.queried == old(self).queried,
                self.dead == old(self).dead,
                self.found_value == old(self).found_value,
                self.rounds == old(self).rounds,
                self.improved == old(self).improved,
                self.sweeping == old(self).sweeping,
            decreases n - i,
        {
            let contact = open[i];
            let request_id = ids[i];
            let message = self.request(sender, request_id);
            self.pending.push(PendingProbe { request_id, contact, deadline: until });
            out.push(Outgoing { target: contact, message });
            assert(self.pending@ =~= Self::round_probes(open@, ids@, (i + 1) as nat, now));
            i += 1;
        }
        self.rounds = self.rounds + 1;
        self.improved = false;
        self.sweeping = sweep;
        out
    }

    /// What beginning a round at `now` makes of the lookup `before`, and
    /// the requests `out` that go with it. A lookup that is not ready stays
    /// as it is and nothing goes out. A ready one probes the first peers
    /// that can still be probed, as many as `width_of` says, nearest
    /// first: each gets the lookup's request from `sender` under the
    /// number its probe is recorded with, until `RPC_TIMEOUT_MS` after
    /// `now`. The round is counted, and is the final sweep where the round
    /// before brought nothing nearer.
    pub open spec fn round_begun(
        before: Lookup,
        now: u64,
        sender: Contact,
        after: Lookup,
        out: Seq<Outgoing>,
    ) -> bool {
        &&& after.target == before.target
        &&& after.local == before.local
        &&& after.key == before.key
        &&& after.shortlist == before.shortlist
        &&& after.queried == before.queried
        &&& after.dead == before.dead
        &&& after.found_value == before.found_value
        &&& before.status_of() != LookupStatus::Ready ==> {
            &&& out.len() == 0
            &&& after.pending == before.pending
            &&& after.rounds == before.rounds
            &&& after.improved == before.improved
            &&& after.sweeping == before.sweeping
        }
        &&& before.status_of() == LookupStatus::Ready ==> {
            let open = unprobed(before.shortlist@, before.queried@, before.pending@);
            &&& out.len() == before.width_of()
            &&& after.pending@.len() == out.len()
            &&& forall|i: int|
                0 <= i < out.len() ==> {
                    &&& (#[trigger] out[i]).target == open[i]
                    &&& after.pending@[i].contact == open[i]
                    &&& after.pending@[i].deadline == deadline_from(now)
                    &&& out[i].message@ == message_from(
                        sender,
                        after.pending@[i].request_id,
                        probe_kind(before.target, text_view(before.key)),
                    )
                }
            &&& after.rounds == before.rounds + 1
            &&& !after.improved
            &&& after.sweeping == (before.rounds > 0 && !before.improved)
        }
    }

    /// Begins the next round under fresh random request numbers: what
    /// `begin_round_with` does with numbers drawn for every peer that can
    /// be probed.
    pub fn begin_round(&mut self, now: u64, sender: Contact) -> (out: Vec<Outgoing>)
        requires
            old(self).wf(),
        ensures
            final(self).wf(),
            Self::round_begun(*old(self), now, sender, *final(self), out@),
    {
        let mut ids: Vec<u64> = Vec::new();
        let mut i: usize = 0;
        proof {
            self.shortlist@.lemma_filter_len(
                |c: Contact| !has_id(self.queried@, c.id()) && !awaited(self.pending@, c.id()),
            );
        }
        while i < K
            invariant
                i <= K,
                ids@.len() == i,
            decreases K - i,
        {
            ids.push(fresh_request_id());
            i += 1;
        }
        self.begin_round_with(&ids, now, sender)
    }

    /// True when the lookup takes `m` for the answer to one of its
    /// outstanding probes: it has no value yet, a probe with the number of
    /// `m` is outstanding, and `m` is an answer to a FIND request.
    pub open spec fn accepts(&self, m: crate::network::MessageView) -> bool {
        &&& self.found_value is None
        &&& probe_index(self.pending@, m.request_id) < self.pending@.len()
        &&& (m.message_type is FindNodeResponse || m.message_type is FindValueResponse)
    }

    /// The value that the answer `m` brings to this lookup, if it looks
    /// for one.
    pub open spec fn brings_value(&self, m: crate::network::MessageView) -> Option<Seq<char>> {
        match m.message_type {
            MessageTypeView::FindValueResponse { value: Some(text), nodes, key } => if self.key
                is Some {
                Some(text)
            } else {
                None
            },
            _ => None,
        }
    }

    /// The peers that the answer `m` names.
    pub open spec fn brought_nodes(m: crate::network::MessageView) -> Seq<Contact> {
        match m.message_type {
            MessageTypeView::FindNodeResponse { nodes, target } => nodes,
            MessageTypeView::FindValueResponse { value, nodes, key } => nodes,
            _ => Seq::empty(),
        }
    }

    /// Takes the peers of an answer into the shortlist and closes the probe
    /// at `p`.
    fn take_nodes(&mut self, p: usize, nodes: &Vec<Contact>)
        requires
            old(self).wf(),
            p < old(self).pending@.len(),
        ensures
            final(self).wf(),
            final(self).target == old(self).target,
            final(self).local == old(self).local,
            final(self).key == old(self).key,
            final(self).dead == old(self).dead,
            final(self).found_value == old(self).found_value,
            final(self).rounds == old(self).rounds,
            final(self).sweeping == old(self).sweeping,
            final(self).pending@ == old(self).pending@.remove(p as int),
            final(self).queried@ == old(self).queried@.push(
                old(self).pending@[p as int].contact.node_id,
            ),
            final(self).shortlist@ == merged(
                old(self).shortlist@,
                nodes@,
                old(self).local@,
                old(self).dead@,
                old(self).target@,
            ),
            final(self).improved == (old(self).improved || nearer(
                final(self).shortlist@,
                old(self).shortlist@,
                old(self).target@,
            )),
    {
        let probe = self.pending.remove(p);
        self.queried.push(probe.contact.node_id);
        let mut all: Vec<Contact> = Vec::new();
        let mut i: usize = 0;
        while i < self.shortlist.len()
            invariant
                i <= self.shortlist@.len(),
                all@ == self.shortlist@.take(i as int),
            decreases self.shortlist@.len() - i,
        {
            all.push(self.shortlist[i]);
            assert(self.shortlist@.take(i as int).push(self.shortlist@[i as int])
                =~= self.shortlist@.take(i as int + 1));
            i += 1;
        }
        assert(self.shortlist@.take(self.shortlist@.len() as int) =~= self.shortlist@);
        let mut j: usize = 0;
        assert(nodes@.take(0) =~= Seq::<Contact>::empty());
        while j < nodes.len()
            invariant
                j <= nodes@.len(),
                all@ == absorb(self.shortlist@, nodes@.take(j as int), self.local@, self.dead@),
            decreases nodes@.len() - j,
        {
            let c = nodes[j];
            assert(nodes@.take(j as int + 1).drop_last() =~= nodes@.take(j as int));
            if !(c.node_id == self.local) && !id_in(&self.dead, &c.node_id) && !contact_in(
                &all,
                &c.node_id,
            ) {
                all.push(c);
            }
            j += 1;
        }
        assert(nodes@.take(nodes@.len() as int) =~= nodes@);
        let next = take_nearest(&all, &self.target, K);
        proof {
            lemma_absorb_members(self.shortlist@, nodes@, self.local@, self.dead@);
            lemma_absorb_distinct(self.shortlist@, nodes@, self.local@, self.dead@);
            lemma_closest(all@, self.target@, K as int);
            lemma_closest_keeps_distinct(all@, self.target@, K as int);
            assert forall|k: int| 0 <= k < next@.len() implies (#[trigger] next@[k]).id()
                != self.local@ && !has_id(self.dead@, next@[k].id()) by {
                assert(all@.contains(next@[k]));
                let m = choose|m: int| 0 <= m < all@.len() && all@[m] == next@[k];
                if self.shortlist@.contains(all@[m]) {
                    let q = choose|q: int|
                        0 <= q < self.shortlist@.len() && self.shortlist@[q] == all@[m];
                    assert(self.shortlist@[q].id() != self.local@);
                }
            }
        }
        let better = if next.len() == 0 {
            false
        } else if self.shortlist.len() == 0 {
            true
        } else {
            let after = crate::distance::Distance::new(&next[0].node_id, &self.target);
            let before = crate::distance::Distance::new(&self.shortlist[0].node_id, &self.target);
            after.lt(&before)
        };
        self.improved = self.improved || better;
        self.shortlist = next;
    }

    /// Takes note of an answer. An answer that the lookup does not accept
    /// (no probe with its number is outstanding, the value is already
    /// found, or it is no answer to a FIND request) is ignored. An accepted
    /// answer that brings the value ends the lookup and abandons every
    /// outstanding probe. Any other accepted answer closes its probe,
    /// marks the probed peer as asked, and merges the peers it names into
    /// the shortlist.
    pub fn on_response(&mut self, message: &Message) -> (accepted: bool)
        requires
            old(self).wf(),
        ensures
            final(self).wf(),
            final(self).target == old(self).target,
            final(self).local == old(self).local,
            final(self).key == old(self).key,
            final(self).dead == old(self).dead,
            final(self).rounds == old(self).rounds,
            final(self).sweeping == old(self).sweeping,
            accepted == old(self).accepts(message@),
            !accepted ==> {
                &&& final(self).shortlist == old(self).shortlist
                &&& final(self).queried == old(self).queried
                &&& final(self).pending == old(self).pending
                &&& final(self).found_value == old(self).found_value
                &&& final(self).improved == old(self).improved
            },
            accepted && old(self).brings_value(message@) is Some ==> {
                &&& text_view(final(self).found_value) == old(self).brings_value(message@)
                &&& final(self).pending@.len() == 0
                &&& final(self).shortlist == old(self).shortlist
                &&& final(self).queried == old(self).queried
                &&& final(self).improved == old(self).improved
            },
            accepted && old(self).brings_value(message@) is None ==> {
                let p = probe_index(old(self).pending@, message.request_id);
                &&& final(self).found_value is None
                &&& final(self).pending@ == old(self).pending@.remove(p)
                &&& final(self).queried@ == old(self).queried@.push(
                    old(self).pending@[p].contact.node_id,
                )
                &&& final(self).shortlist@ == merged(
                    old(self).shortlist@,
                    Self::brought_nodes(message@),
                    old(self).local@,
                    old(self).dead@,
                    old(self).target@,
                )
                &&& final(self).improved == (old(self).improved || nearer(
                    final(self).shortlist@,
                    old(self).shortlist@,
                    old(self).target@,
                ))
            },
    {
        if self.found_value.is_some() {
            return false;
        }
        let p = find_probe(&self.pending, message.request_id);
        if p >= self.pending.len() {
            return false;
        }
        match &message.message_type {
            MessageType::FindNodeResponse { nodes, .. } => {
                self.take_nodes(p, nodes);
                true
            },
            MessageType::FindValueResponse { value, nodes, .. } => {
                match value {
                    Some(text) => {
                        if self.key.is_some() {
                            self.found_value = Some(text.clone());
                            self.pending = Vec::new();
                        } else {
                            self.take_nodes(p, nodes);
                        }
                    },
                    None => {
                        self.take_nodes(p, nodes);
                    },
                }
                true
            },
            _ => false,
        }
    }

    /// Gives up the peers of `lost`: they count as asked and as
    /// unreachable, and leave the shortlist.
    fn drop_peers(&mut self, lost: &Vec<SHA>)
        requires
            old(self).wf(),
        ensures
            final(self).wf(),
            final(self).target == old(self).target,
            final(self).local == old(self).local,
            final(self).key == old(self).key,
            final(self).pending == old(self).pending,
            final(self).found_value == old(self).found_value,
            final(self).rounds == old(self).rounds,
            final(self).improved == old(self).improved,
            final(self).sweeping == old(self).sweeping,
            final(self).dead@ == old(self).dead@ + lost@,
            final(self).queried@ == old(self).queried@ + lost@,
            final(self).shortlist@ == without(old(self).shortlist@, lost@),
    {
        let mut i: usize = 0;
        while i < lost.len()
            invariant
                i <= lost@.len(),
                self.dead@ == old(self).dead@ + lost@.take(i as int),
                self.queried@ == old(self).queried@ + lost@.take(i as int),
                self.target == old(self).target,
                self.local == old(self).local,
                self.key == old(self).key,
                self.pending == old(self).pending,
                self.found_value == old(self).found_value,
                self.rounds == old(self).rounds,
                self.improved == old(self).improved,
                self.sweeping == old(self).sweeping,
                self.shortlist == old(self).shortlist,
            decreases lost@.len() - i,
        {
            self.dead.push(lost[i]);
            self.queried.push(lost[i]);
            assert(lost@.take(i as int).push(lost@[i as int]) =~= lost@.take(i as int + 1));
            assert(self.dead@ =~= old(self).dead@ + lost@.take(i as int + 1));
            assert(self.queried@ =~= old(self).queried@ + lost@.take(i as int + 1));
            i += 1;
        }
        assert(lost@.take(lost@.len() as int) =~= lost@);
        let ghost pred = |c: Contact| !has_id(lost@, c.id());
        let mut kept: Vec<Contact> = Vec::new();
        let mut j: usize = 0;
        proof {
            reveal(Seq::filter);
            assert(self.shortlist@.take(0).filter(pred) =~= Seq::<Contact>::empty());
        }
        while j < self.shortlist.len()
            invariant
                j <= self.shortlist@.len(),
                pred == (|c: Contact| !has_id(lost@, c.id())),
                kept@ == self.shortlist@.take(j as int).filter(pred),
            decreases self.shortlist@.len() - j,
        {
            let c = self.shortlist[j];
            proof {
                lemma_filter_push(self.shortlist@.take(j as int), c, pred);
                assert(self.shortlist@.take(j as int).push(c) =~= self.shortlist@.take(
                    j as int + 1,
                ));
            }
            if !id_in(lost, &c.node_id) {
                kept.push(c);
            }
            j += 1;
        }
        proof {
            assert(self.shortlist@.take(self.shortlist@.len() as int) =~= self.shortlist@);
            lemma_filter_sorted(self.shortlist@, pred, self.target@);
            lemma_filter_distinct(self.shortlist@, pred);
            let before = old(self).shortlist@;
            assert forall|k: int| 0 <= k < kept@.len() implies (#[trigger] kept@[k]).id()
                != self.local@ && !has_id(self.dead@, kept@[k].id()) by {
                let c = kept@[k];
                assert(pred(c));
                assert(before.contains(c));
                let q = choose|q: int| 0 <= q < before.len() && before[q] == c;
                assert(before[q].id() != self.local@);
                if has_id(self.dead@, c.id()) {
                    let d = choose|d: int| 0 <= d < self.dead@.len() && #[trigger] self.dead@[d]@
                        == c.id();
                    if d < old(self).dead@.len() {
                        assert(old(self).dead@[d]@ == c.id());
                    } else {
                        assert(lost@[d - old(self).dead@.len()]@ == c.id());
                    }
                }
            }
        }
        self.shortlist = kept;
    }

    /// What the time `now` makes of the lookup `before`: every probe whose
    /// deadline is not after `now` is given up; its peer counts as
    /// unreachable and as asked, and leaves the shortlist. The other
    /// probes stay outstanding, and nothing else changes.
    pub open spec fn timed_out(before: Lookup, now: u64, after: Lookup) -> bool {
        &&& after.target == before.target
        &&& after.local == before.local
        &&& after.key == before.key
        &&& after.found_value == before.found_value
        &&& after.rounds == before.rounds
        &&& after.improved == before.improved
        &&& after.sweeping == before.sweeping
        &&& after.pending@ == in_time(before.pending@, now)
        &&& after.dead@ == before.dead@ + peers_of(overdue(before.pending@, now))
        &&& after.queried@ == before.queried@ + peers_of(overdue(before.pending@, now))
        &&& after.shortlist@ == without(
            before.shortlist@,
            peers_of(overdue(before.pending@, now)),
        )
    }

    /// Gives up every probe whose deadline is not after `now`, as
    /// `timed_out` says. Returns how many probes were given up.
    pub fn on_timeout(&mut self, now: u64) -> (given_up: usize)
        requires
            old(self).wf(),
        ensures
            final(self).wf(),
            Self::timed_out(*old(self), now, *final(self)),
            given_up == overdue(old(self).pending@, now).len(),
    {
        let ghost late = |p: PendingProbe| p.deadline <= now;
        let ghost timely = |p: PendingProbe| p.deadline > now;
        let mut kept: Vec<PendingProbe> = Vec::new();
        let mut lost: Vec<SHA> = Vec::new();
        let mut i: usize = 0;
        proof {
            reveal(Seq::filter);
            assert(self.pending@.take(0).filter(late) =~= Seq::<PendingProbe>::empty());
            assert(self.pending@.take(0).filter(timely) =~= Seq::<PendingProbe>::empty());
            assert(peers_of(Seq::<PendingProbe>::empty()) =~= Seq::<SHA>::empty());
        }
        while i < self.pending.len()
            invariant
                i <= self.pending@.len(),
                late == (|p: PendingProbe| p.deadline <= now),
                timely == (|p: PendingProbe| p.deadline > now),
                kept@ == self.pending@.take(i as int).filter(timely),
                lost@ == peers_of(self.pending@.take(i as int).filter(late)),
                *self == *old(self),
            decreases self.pending@.len() - i,
        {
            let probe = self.pending[i];
            proof {
                let seen = self.pending@.take(i as int);
                lemma_filter_push(seen, probe, late);
                lemma_filter_push(seen, probe, timely);
                assert(seen.push(probe) =~= self.pending@.take(i as int + 1));
                assert(peers_of(seen.filter(late).push(probe)) =~= peers_of(
                    seen.filter(late),
                ).push(probe.contact.node_id));
            }
            if probe.deadline <= now {
                lost.push(probe.contact.node_id);
            } else {
                kept.push(probe);
            }
            i += 1;
        }
        assert(self.pending@.take(self.pending@.len() as int) =~= self.pending@);
        self.pending = kept;
        self.drop_peers(&lost);
        lost.len()
    }

    /// Gives up the probe with number `request_id` because it could not be
    /// sent: its peer counts as unreachable and as asked, and leaves the
    /// shortlist. Returns whether such a probe was outstanding.
    pub fn on_send_failed(&mut self, request_id: u64) -> (known: bool)
        requires
            old(self).wf(),
        ensures
            final(self).wf(),
            final(self).target == old(self).target,
            final(self).local == old(self).local,
            final(self).key == old(self).key,
            final(self).found_value == old(self).found_value,
            final(self).rounds == old(self).rounds,
            final(self).improved == old(self).improved,
            final(self).sweeping == old(self).sweeping,
            known == (probe_index(old(self).pending@, request_id) < old(self).pending@.len()),
            !known ==> {
                &&& final(self).pending == old(self).pending
                &&& final(self).dead == old(self).dead
                &&& final(self).queried == old(self).queried
                &&& final(self).shortlist == old(self).shortlist
            },
            known ==> {
                let p = probe_index(old(self).pending@, request_id);
                let peer = old(self).pending@[p].contact.node_id;
                &&& final(self).pending@ == old(self).pending@.remove(p)
                &&& final(self).dead@ == old(self).dead@.push(peer)
                &&& final(self).queried@ == old(self).queried@.push(peer)
                &&& final(self).shortlist@ == without(old(self).shortlist@, seq![peer])
            },
    {
        let p = find_probe(&self.pending, request_id);
        if p >= self.pending.len() {
            return false;
        }
        let probe = self.pending.remove(p);
        let mut lost: Vec<SHA> = Vec::new();
        lost.push(probe.contact.node_id);
        assert(lost@ =~= seq![probe.contact.node_id]);
        self.drop_peers(&lost);
        assert(final(self).dead@ =~= old(self).dead@.push(probe.contact.node_id));
        assert(final(self).queried@ =~= old(self).queried@.push(probe.contact.node_id));
        true
    }

    /// One turn of the lookup at the time `now`: gives up the probes that
    /// are overdue, as `on_timeout` does, and says what is to happen next.
    /// A lookup that is then finished is done; one that still waits for
    /// answers is to wait; one that is ready begins its next round, as
    /// `begin_round` does, and hands back the requests to send. A turn
    /// never asks to wait once every deadline has passed, and every round
    /// it begins is counted towards `MAX_ROUNDS`.
    pub fn tick(&mut self, now: u64, sender: Contact) -> (step: LookupStep)
        requires
            old(self).wf(),
        ensures
            final(self).wf(),
            exists|mid: Lookup|
                #[trigger] Self::timed_out(*old(self), now, mid) && mid.wf() && match mid.status_of() {
                    LookupStatus::Finished => step is Done && *final(self) == mid,
                    LookupStatus::Waiting => step is Wait && *final(self) == mid,
                    LookupStatus::Ready => step matches LookupStep::Send(out) && Self::round_begun(
                        mid,
                        now,
                        sender,
                        *final(self),
                        out@,
                    ),
                },
            step is Wait ==> final(self).pending@.len() > 0 && forall|i: int|
                0 <= i < final(self).pending@.len() ==> (#[trigger] final(self).pending@[i]).deadline
                    > now,
            step is Send ==> final(self).rounds == old(self).rounds + 1,
            step is Done ==> final(self).status_of() == LookupStatus::Finished,
            (forall|i: int|
                0 <= i < old(self).pending@.len() ==> (#[trigger] old(self).pending@[i]).deadline
                    <= now) ==> !(step is Wait),
    {
        let _ = self.on_timeout(now);
        let ghost mid = *self;
        proof {
            if forall|i: int|
                0 <= i < old(self).pending@.len() ==> (#[trigger] old(self).pending@[i]).deadline
                    <= now {
                lemma_waiting_ends(old(self).pending@, now);
            }
            let timely = |p: PendingProbe| p.deadline > now;
            assert forall|i: int| 0 <= i < self.pending@.len() implies (#[trigger] self.pending@[i]).deadline
                > now by {
                old(self).pending@.lemma_filter_pred(timely, i);
            }
        }
        match self.status() {
            LookupStatus::Finished => LookupStep::Done,
            LookupStatus::Waiting => LookupStep::Wait,
            LookupStatus::Ready => LookupStep::Send(self.begin_round(now, sender)),
        }
    }

    /// The nearest peers found so far, nearest first: when the lookup is
    /// finished, its result.
    pub fn closest_nodes(&self) -> (out: Vec<Contact>)
        requires
            self.wf(),
        ensures
            out@ == self.shortlist@,
            sorted_by_distance(out@, self.target@),
            distinct_ids(out@),
            out@.len() <= K,
            forall|i: int| 0 <= i < out@.len() ==> (#[trigger] out@[i]).id() != self.local@,
    {
        let mut out: Vec<Contact> = Vec::new();
        let mut i: usize = 0;
        while i < self.shortlist.len()
            invariant
                i <= self.shortlist@.len(),
                out@ == self.shortlist@.take(i as int),
            decreases self.shortlist@.len() - i,
        {
            out.push(self.shortlist[i]);
            assert(self.shortlist@.take(i as int).push(self.shortlist@[i as int])
                =~= self.shortlist@.take(i as int + 1));
            i += 1;
        }
        assert(self.shortlist@.take(self.shortlist@.len() as int) =~= self.shortlist@);
        out
    }

    /// The value, once an answer has brought it.
    pub fn value(&self) -> (out: Option<String>)
        ensures
            text_view(out) == text_view(self.found_value),
    {
        match &self.found_value {
            Some(text) => Some(text.clone()),
            None => None,
        }
    }
}

/// The probes whose deadline is not after `now`.
pub open spec fn overdue(pending: Seq<PendingProbe>, now: u64) -> Seq<PendingProbe> {
    pending.filter(|p: PendingProbe| p.deadline <= now)
}

/// The probes whose deadline is after `now`.
pub open spec fn in_time(pending: Seq<PendingProbe>, now: u64) -> Seq<PendingProbe> {
    pending.filter(|p: PendingProbe| p.deadline > now)
}

/// The identifiers of the peers that the probes went to.
pub open spec fn peers_of(probes: Seq<PendingProbe>) -> Seq<SHA> {
    Seq::new(probes.len(), |i: int| probes[i].contact.node_id)
}

/// The shortlist without the peers of `lost`.
pub open spec fn without(shortlist: Seq<Contact>, lost: Seq<SHA>) -> Seq<Contact> {
    shortlist.filter(|c: Contact| !has_id(lost, c.id()))
}

/// Waiting ends with the deadlines: once the deadline of every
/// outstanding probe has passed, `on_timeout` gives them all up and none
/// is left to wait for. A lookup is therefore `Ready` or `Finished` no
/// later than `RPC_TIMEOUT_MS` after its last round began, and since a
/// round can only begin while fewer than `MAX_ROUNDS` were begun, it is
/// `Finished` after at most `MAX_ROUNDS` rounds.
pub proof fn lemma_waiting_ends(pending: Seq<PendingProbe>, now: u64)
    requires
        forall|i: int| 0 <= i < pending.len() ==> (#[trigger] pending[i]).deadline <= now,
    ensures
        in_time(pending, now).len() == 0,
        overdue(pending, now) == pending,
    decreases pending.len(),
{
    reveal(Seq::filter);
    if pending.len() > 0 {
        let init = pending.drop_last();
        assert forall|i: int| 0 <= i < init.len() implies (#[trigger] init[i]).deadline <= now by {
            assert(init[i] == pending[i]);
        }
        lemma_waiting_ends(init, now);
        assert(pending[pending.len() - 1].deadline <= now);
        assert(init.push(pending.last()) =~= pending);
    } else {
        assert(overdue(pending, now) =~= pending);
    }
}

/// Rounds end in time: when each round of a lookup begins no later than
/// the deadline of the round before, the deadline of the last of `n`
/// rounds is no later than `n` times `RPC_TIMEOUT_MS` after the first
/// began. With at most `MAX_ROUNDS` rounds, a lookup that is driven so has
/// nothing left to wait for `MAX_ROUNDS * RPC_TIMEOUT_MS` after it began.
pub proof fn lemma_rounds_end_in_time(begun: Seq<u64>)
    requires
        begun.len() >= 1,
        forall|i: int|
            0 <= i < begun.len() - 1 ==> begun[i + 1] <= deadline_from(#[trigger] begun[i]),
    ensures
        deadline_from(begun.last()) <= begun[0] + begun.len() * RPC_TIMEOUT_MS,
    decreases begun.len(),
{
    if begun.len() > 1 {
        let earlier = begun.drop_last();
        assert forall|i: int| 0 <= i < earlier.len() - 1 implies earlier[i + 1] <= deadline_from(
            #[trigger] earlier[i],
        ) by {
            assert(earlier[i] == begun[i] && earlier[i + 1] == begun[i + 1]);
        }
        lemma_rounds_end_in_time(earlier);
        let k = begun.len() - 2;
        assert(begun[k + 1] <= deadline_from(begun[k]));
        assert(earlier.last() == begun[k]);
        assert(begun.len() * RPC_TIMEOUT_MS == earlier.len() * RPC_TIMEOUT_MS + RPC_TIMEOUT_MS)
            by (nonlinear_arith)
            requires
                begun.len() == earlier.len() + 1,
        ;
    } else {
        assert(begun.len() * RPC_TIMEOUT_MS == RPC_TIMEOUT_MS) by (nonlinear_arith)
            requires
                begun.len() == 1,
        ;
    }
}

} // verus!
