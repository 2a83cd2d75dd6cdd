use crate::config::K;
use crate::contact::Contact;
use crate::sha::SHA;
use std::collections::VecDeque;
use vstd::prelude::*;

verus! {

/// Index of the first contact with identifier `id` in `s`; the length of `s`
/// when there is none.
pub open spec fn position_of(s: Seq<Contact>, id: Seq<u8>) -> int
    decreases s.len(),
{
    if s.len() == 0 {
        0
    } else if s[0].id() == id {
        0
    } else {
        1 + position_of(s.skip(1), id)
    }
}

/// True when some contact in `s` has identifier `id`.
pub open spec fn holds_id(s: Seq<Contact>, id: Seq<u8>) -> bool {
    exists|i: int| 0 <= i < s.len() && #[trigger] s[i].id() == id
}

/// True when no two contacts in `s` share an identifier.
pub open spec fn distinct_ids(s: Seq<Contact>) -> bool {
    forall|i: int, j: int|
        0 <= i < s.len() && 0 <= j < s.len() && i != j ==> #[trigger] s[i].id() != #[trigger] s[j].id()
}

/// A bucket's contents after it has seen `c`: a peer that is already there
/// moves to the tail, with the contact as now seen; a new one is appended
/// while there is room; a full bucket stays as it is.
pub open spec fn added(s: Seq<Contact>, c: Contact, capacity: int) -> Seq<Contact> {
    let p = position_of(s, c.id());
    if p < s.len() {
        s.remove(p).push(c)
    } else if s.len() < capacity {
        s.push(c)
    } else {
        s
    }
}

/// A probe that a full bucket asks for: `head` has to be pinged, and the
/// bucket told whether it answered, to decide between it and `candidate`.
#[derive(Copy, Clone, Debug)]
pub struct Probe {
    pub head: Contact,
    pub candidate: Contact,
}

/// A bucket's contents once the probe of `head` on behalf of the newcomer
/// `c` has ended. Where the bucket knows `c` by now or has room for it,
/// `c` is recorded as `added` says. Where the peer that was probed is no
/// longer the bucket's head (it was seen in the meantime, or is gone), the
/// bucket stays as it is and `c` is dropped. Else a head that answered
/// moves to the tail and `c` is dropped; one that did not is evicted and
/// `c` is appended.
pub open spec fn settled(
    s: Seq<Contact>,
    head: Contact,
    c: Contact,
    head_responded: bool,
    capacity: int,
) -> Seq<Contact> {
    if position_of(s, c.id()) < s.len() || s.len() < capacity || s.len() == 0 {
        added(s, c, capacity)
    } else if s[0].id() != head.id() {
        s
    } else if head_responded {
        s.remove(0).push(s[0])
    } else {
        s.remove(0).push(c)
    }
}

/// `position_of` is within bounds, points at the wanted identifier, and
/// nothing before it has that identifier.
pub proof fn lemma_position_of(s: Seq<Contact>, id: Seq<u8>)
    ensures
        0 <= position_of(s, id) <= s.len(),
        position_of(s, id) < s.len() ==> s[position_of(s, id)].id() == id,
        forall|j: int| 0 <= j < position_of(s, id) ==> s[j].id() != id,
        holds_id(s, id) <==> position_of(s, id) < s.len(),
    decreases s.len(),
{
    if s.len() > 0 && s[0].id() != id {
        let t = s.skip(1);
        lemma_position_of(t, id);
        assert forall|j: int| 0 <= j < position_of(s, id) implies s[j].id() != id by {
            if j > 0 {
                assert(t[j - 1].id() != id);
            }
        }
        if position_of(t, id) < t.len() {
            assert(s[position_of(s, id)] == t[position_of(t, id)]);
        }
    }
    let p = position_of(s, id);
    if holds_id(s, id) {
        let i = choose|i: int| 0 <= i < s.len() && #[trigger] s[i].id() == id;
        assert(p <= i);
    }
}

/// What `add` reports of a bucket with contents `s` that is shown `c`.
pub open spec fn add_outcome(s: Seq<Contact>, c: Contact, capacity: int) -> AddOutcome {
    if position_of(s, c.id()) < s.len() {
        AddOutcome::Refreshed
    } else if s.len() < capacity {
        AddOutcome::Inserted
    } else {
        AddOutcome::Full(s[0])
    }
}

/// Whatever a bucket holds after it was shown `c`, or after a probe on
/// behalf of `c` has ended, is `c` or was there before.
pub proof fn lemma_members(
    s: Seq<Contact>,
    head: Contact,
    c: Contact,
    head_responded: bool,
    capacity: int,
)
    ensures
        forall|j: int|
            0 <= j < added(s, c, capacity).len() ==> #[trigger] added(s, c, capacity)[j] == c
                || s.contains(added(s, c, capacity)[j]),
        forall|j: int|
            0 <= j < settled(s, head, c, head_responded, capacity).len() ==> #[trigger] settled(
                s,
                head,
                c,
                head_responded,
                capacity,
            )[j] == c || s.contains(settled(s, head, c, head_responded, capacity)[j]),
{
    lemma_position_of(s, c.id());
    let p = position_of(s, c.id());
    let a = added(s, c, capacity);
    assert forall|j: int| 0 <= j < a.len() implies #[trigger] a[j] == c || s.contains(a[j]) by {
        if p < s.len() {
            if j < p {
                assert(a[j] == s[j]);
            } else if j < a.len() - 1 {
                assert(a[j] == s[j + 1]);
            }
        } else if j < s.len() {
            assert(a[j] == s[j]);
        }
    }
    let t = settled(s, head, c, head_responded, capacity);
    assert forall|j: int| 0 <= j < t.len() implies #[trigger] t[j] == c || s.contains(t[j]) by {
        if p < s.len() || s.len() < capacity || s.len() == 0 {
            assert(t == a);
        } else if s[0].id() != head.id() {
            assert(t[j] == s[j]);
        } else if j < t.len() - 1 {
            assert(t[j] == s[j + 1]);
        } else {
            assert(t[j] == c || t[j] == s[0]);
        }
    }
}

/// What a bucket may hear of when it is asked to take a contact.
#[derive(Copy, Clone, Debug)]
pub enum AddOutcome {
    /// The peer was known and is now the most recently seen.
    Refreshed,
    /// The peer was new and there was room for it.
    Inserted,
    /// The peer is new and the bucket is full: nothing changed, and the
    /// least recently seen contact, handed back here, has to be probed to
    /// decide between the two.
    Full(Contact),
}

/// Up to `capacity` contacts that share one common-prefix length with the
/// local identifier, from the least recently seen to the most recently seen.
#[derive(Debug, Clone)]
pub struct KBucket {
    pub i: usize,
    pub capacity: usize,
    pub nodes: VecDeque<Contact>,
}

impl View for KBucket {
    type V = Seq<Contact>;

    open spec fn view(&self) -> Seq<Contact> {
        self.nodes@
    }
}

impl KBucket {
    /// The bucket holds no more than its capacity and no peer twice.
    pub open spec fn wf(&self) -> bool {
        &&& self.capacity >= 1
        &&& self@.len() <= self.capacity
        &&& distinct_ids(self@)
    }

    /// An empty bucket for common-prefix length `i`.
    pub fn new(i: usize) -> (b: KBucket)
        ensures
            b.wf(),
            b.i == i,
            b.capacity == K,
            b@ == Seq::<Contact>::empty(),
    {
        KBucket { i, capacity: K, nodes: VecDeque::new() }
    }

    pub fn is_full(&self) -> (r: bool)
        ensures
            r == (self@.len() == self.capacity),
    {
        self.nodes.len() == self.capacity
    }

    /// Index of the first contact with identifier `id`, or the length.
    fn position(&self, id: &SHA) -> (p: usize)
        ensures
            p == position_of(self@, id@),
            p <= self@.len(),
            p < self@.len() <==> holds_id(self@, id@),
    {
        let n = self.nodes.len();
        let mut p: usize = 0;
        while p < n
            invariant
                p <= n,
                n == self@.len(),
                forall|j: int| 0 <= j < p ==> self@[j].id() != id@,
            decreases n - p,
        {
            if self.nodes[p].node_id == *id {
                proof {
                    lemma_position_of(self@, id@);
                }
                return p;
            }
            p += 1;
        }
        proof {
            lemma_position_of(self@, id@);
        }
        p
    }

    /// Records that `new_node` was seen. A known peer moves to the tail; a
    /// new one is appended while there is room. When the bucket is full of
    /// other peers it is left as it is and its head is handed back: it has
    /// to be probed, and `settle` told the answer.
    pub fn add(&mut self, new_node: Contact) -> (outcome: AddOutcome)
        requires
            old(self).wf(),
        ensures
            final(self).wf(),
            final(self).i == old(self).i,
            final(self).capacity == old(self).capacity,
            final(self)@ == added(old(self)@, new_node, old(self).capacity as int),
            outcome == add_outcome(old(self)@, new_node, old(self).capacity as int),
            outcome !is Full ==> final(self)@.len() > 0 && final(self)@.last() == new_node,
    {
        let pos = self.position(&new_node.node_id);
        proof {
            lemma_position_of(self@, new_node.id());
        }
        if pos < self.nodes.len() {
            let _ = self.nodes.remove(pos);
            self.nodes.push_back(new_node);
            proof {
                lemma_refresh_keeps_distinct(old(self)@, new_node, pos as int);
            }
            AddOutcome::Refreshed
        } else if self.nodes.len() < self.capacity {
            self.nodes.push_back(new_node);
            AddOutcome::Inserted
        } else {
            AddOutcome::Full(self.nodes[0])
        }
    }

    /// Ends the probe that a full bucket asked for: tells the bucket whether
    /// the head it named answered. Where the newcomer needs no eviction any
    /// more, it is recorded as `add` would. Where the probed peer is no
    /// longer the head, because it was seen in the meantime or is gone,
    /// the bucket stays as it is and the newcomer is dropped. Else a head
    /// that answered becomes the most recently seen and the newcomer is
    /// dropped; one that did not is evicted and the newcomer takes the
    /// tail.
    pub fn settle(&mut self, probe: Probe, head_responded: bool)
        requires
            old(self).wf(),
        ensures
            final(self).wf(),
            final(self).i == old(self).i,
            final(self).capacity == old(self).capacity,
            final(self)@ == settled(
                old(self)@,
                probe.head,
                probe.candidate,
                head_responded,
                old(self).capacity as int,
            ),
    {
        let new_node = probe.candidate;
        let pos = self.position(&new_node.node_id);
        let n = self.nodes.len();
        if pos < n || n < self.capacity {
            let _ = self.add(new_node);
        } else if self.nodes[0].node_id == probe.head.node_id {
            let head = self.nodes.pop_front();
            match head {
                Some(h) => {
                    assert(old(self)@.remove(0) =~= old(self)@.skip(1));
                    if head_responded {
                        self.nodes.push_back(h);
                    } else {
                        self.nodes.push_back(new_node);
                    }
                    proof {
                        lemma_rotation_keeps_distinct(old(self)@, new_node, head_responded);
                    }
                },
                None => {},
            }
        }
    }

    /// True when the bucket holds the peer that `wanted_node` names.
    pub fn contains(&self, wanted_node: Contact) -> (r: bool)
        ensures
            r == holds_id(self@, wanted_node.id()),
    {
        self.position(&wanted_node.node_id) < self.nodes.len()
    }

    /// The least recently seen contact.
    pub fn get_head(&self) -> (r: Option<Contact>)
        ensures
            self@.len() == 0 ==> r is None,
            self@.len() > 0 ==> r == Some(self@[0]),
    {
        if self.nodes.len() == 0 {
            return None;
        }
        Some(self.nodes[0])
    }

    /// The most recently seen contact.
    pub fn get_tail(&self) -> (r: Option<Contact>)
        ensures
            self@.len() == 0 ==> r is None,
            self@.len() > 0 ==> r == Some(self@.last()),
    {
        if self.nodes.len() == 0 {
            return None;
        }
        Some(self.nodes[self.nodes.len() - 1])
    }

    /// The contact with identifier `wanted_id`, if the bucket holds one.
    pub fn find_element(&self, wanted_id: SHA) -> (r: Option<Contact>)
        ensures
            !holds_id(self@, wanted_id@) ==> r is None,
            holds_id(self@, wanted_id@) ==> r == Some(self@[position_of(self@, wanted_id@)]),
            r matches Some(c) ==> c.id() == wanted_id@,
    {
        let pos = self.position(&wanted_id);
        proof {
            lemma_position_of(self@, wanted_id@);
        }
        if pos < self.nodes.len() {
            return Some(self.nodes[pos]);
        }
        None
    }

    /// The contacts, from the least recently seen to the most recently seen.
    pub fn get_nodes(&self) -> (r: Vec<Contact>)
        ensures
            r@ == self@,
    {
        let mut out: Vec<Contact> = Vec::new();
        let n = self.nodes.len();
        let mut j: usize = 0;
        while j < n
            invariant
                j <= n,
                n == self@.len(),
                out@ == self@.take(j as int),
            decreases n - j,
        {
            out.push(self.nodes[j]);
            assert(self@.take(j as int).push(self@[j as int]) =~= self@.take(j as int + 1));
            j += 1;
        }
        assert(self@.take(n as int) =~= self@);
        out
    }
}

/// The contents of a bucket that was shown the contacts of `cs` one after
/// the other.
pub open spec fn added_all(s: Seq<Contact>, cs: Seq<Contact>, capacity: int) -> Seq<Contact>
    decreases cs.len(),
{
    if cs.len() == 0 {
        s
    } else {
        added(added_all(s, cs.drop_last(), capacity), cs.last(), capacity)
    }
}

/// An empty bucket that is shown no more peers than it can take, each
/// once, holds them in the order in which it saw them.
pub proof fn lemma_added_all_fresh(cs: Seq<Contact>, capacity: int)
    requires
        distinct_ids(cs),
        cs.len() <= capacity,
    ensures
        added_all(Seq::empty(), cs, capacity) == cs,
    decreases cs.len(),
{
    if cs.len() > 0 {
        let init = cs.drop_last();
        let last = cs.last();
        assert(distinct_ids(init)) by {
            assert forall|i: int, j: int|
                0 <= i < init.len() && 0 <= j < init.len() && i != j implies #[trigger] init[i].id()
                != #[trigger] init[j].id() by {
                assert(init[i] == cs[i] && init[j] == cs[j]);
            }
        }
        lemma_added_all_fresh(init, capacity);
        lemma_position_of(init, last.id());
        if holds_id(init, last.id()) {
            let i = choose|i: int| 0 <= i < init.len() && #[trigger] init[i].id() == last.id();
            assert(cs[i].id() == cs[cs.len() - 1].id());
        }
        assert(init.push(last) =~= cs);
    } else {
        assert(cs =~= Seq::<Contact>::empty());
    }
}

/// One peer more than a bucket can take: the bucket fills with the first
/// `capacity` peers in the order in which it saw them, and the probe of
/// its head decides about the last. A head that does not answer is
/// evicted, and the newcomer becomes the most recently seen; a head that
/// answers becomes the most recently seen itself, and the newcomer is
/// dropped.
pub proof fn lemma_one_too_many(cs: Seq<Contact>, capacity: int)
    requires
        distinct_ids(cs),
        capacity >= 1,
        cs.len() == capacity + 1,
    ensures
        added_all(Seq::empty(), cs, capacity) == cs.take(capacity),
        add_outcome(cs.take(capacity), cs.last(), capacity) == AddOutcome::Full(cs[0]),
        settled(cs.take(capacity), cs[0], cs.last(), false, capacity) == cs.skip(1),
        settled(cs.take(capacity), cs[0], cs.last(), true, capacity) == cs.take(capacity).skip(
            1,
        ).push(cs[0]),
{
    let full = cs.take(capacity);
    let last = cs.last();
    assert(cs.drop_last() =~= full);
    assert(distinct_ids(full)) by {
        assert forall|i: int, j: int|
            0 <= i < full.len() && 0 <= j < full.len() && i != j implies #[trigger] full[i].id()
            != #[trigger] full[j].id() by {
            assert(full[i] == cs[i] && full[j] == cs[j]);
        }
    }
    lemma_added_all_fresh(full, capacity);
    lemma_position_of(full, last.id());
    if holds_id(full, last.id()) {
        let i = choose|i: int| 0 <= i < full.len() && #[trigger] full[i].id() == last.id();
        assert(cs[i].id() == cs[cs.len() - 1].id());
    }
    assert(full.remove(0).push(last) =~= cs.skip(1));
    assert(full.remove(0) =~= full.skip(1));
}

/// A probed head that is seen before its probe ends stays where that
/// sighting put it: when a full bucket has asked for a probe of its head
/// on behalf of a newcomer and the head is then seen again, as it is when
/// its answer arrives, the end of the probe changes nothing, whatever it
/// reports, and the newcomer is dropped.
pub proof fn lemma_probed_head_seen(
    s: Seq<Contact>,
    seen: Contact,
    c: Contact,
    head_responded: bool,
    capacity: int,
)
    requires
        distinct_ids(s),
        s.len() == capacity,
        capacity >= 2,
        !holds_id(s, c.id()),
        seen.id() == s[0].id(),
    ensures
        added(s, seen, capacity) == s.skip(1).push(seen),
        settled(added(s, seen, capacity), s[0], c, head_responded, capacity) == added(
            s,
            seen,
            capacity,
        ),
{
    lemma_position_of(s, seen.id());
    assert(position_of(s, seen.id()) == 0);
    let after = added(s, seen, capacity);
    assert(s.remove(0) =~= s.skip(1));
    assert(after == s.skip(1).push(seen));
    assert(after[0] == s[1]);
    assert(s[1].id() != s[0].id());
    lemma_position_of(after, c.id());
    if holds_id(after, c.id()) {
        let i = choose|i: int| 0 <= i < after.len() && #[trigger] after[i].id() == c.id();
        if i < after.len() - 1 {
            assert(after[i] == s[i + 1]);
            assert(s[i + 1].id() == c.id());
        } else {
            assert(s[0].id() == c.id());
        }
    }
}

/// Moving a known peer to the tail keeps the identifiers distinct.
pub proof fn lemma_refresh_keeps_distinct(s: Seq<Contact>, c: Contact, p: int)
    requires
        distinct_ids(s),
        0 <= p < s.len(),
        s[p].id() == c.id(),
    ensures
        distinct_ids(s.remove(p).push(c)),
        !holds_id(s.remove(p), c.id()),
{
    let t = s.remove(p);
    assert forall|i: int| 0 <= i < t.len() implies #[trigger] t[i].id() != c.id() by {
        if i < p {
            assert(t[i] == s[i]);
        } else {
            assert(t[i] == s[i + 1]);
        }
    }
    let u = t.push(c);
    assert forall|i: int, j: int| 0 <= i < u.len() && 0 <= j < u.len() && i != j implies #[trigger] u[i].id()
        != #[trigger] u[j].id() by {
        let si = if i < p { i } else { i + 1 };
        let sj = if j < p { j } else { j + 1 };
        if i < t.len() && j < t.len() {
            assert(u[i] == s[si]);
            assert(u[j] == s[sj]);
        } else if i < t.len() {
            assert(u[i] == t[i]);
        } else {
            assert(u[j] == t[j]);
        }
    }
}

/// Replacing the head of a bucket by a new tail keeps the identifiers
/// distinct, whether the new tail is the old head or a peer not yet there.
pub proof fn lemma_rotation_keeps_distinct(s: Seq<Contact>, c: Contact, head_responded: bool)
    requires
        distinct_ids(s),
        s.len() > 0,
        !holds_id(s, c.id()),
    ensures
        distinct_ids(s.remove(0).push(if head_responded { s[0] } else { c })),
{
    let t = s.remove(0);
    let last = if head_responded { s[0] } else { c };
    let u = t.push(last);
    assert forall|i: int, j: int| 0 <= i < u.len() && 0 <= j < u.len() && i != j implies #[trigger] u[i].id()
        != #[trigger] u[j].id() by {
        if i < t.len() {
            assert(u[i] == s[i + 1]);
        }
        if j < t.len() {
            assert(u[j] == s[j + 1]);
        }
    }
}

} // verus!
