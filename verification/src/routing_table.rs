use crate::bucket::{
    add_outcome, added, distinct_ids, holds_id, lemma_members, lemma_position_of,
    lemma_refresh_keeps_distinct, position_of, settled, AddOutcome, KBucket, Probe,
};
use crate::config::{ID_BITS, K};
use crate::contact::Contact;
use crate::distance::{cpl, lemma_cpl_bound, Distance};
use crate::nearest::{closest, lemma_closest, sorted_by_distance, take_nearest};
use crate::sha::SHA;
use vstd::prelude::*;

verus! {

/// The bucket in which a table with identifier `local` keeps, or looks
/// for, the identifier `target`: their common-prefix length, and bucket 0
/// for `local` itself, which no bucket keeps.
pub open spec fn bucket_index(local: Seq<u8>, target: Seq<u8>) -> int {
    if target == local {
        0
    } else {
        cpl(local, target) as int
    }
}

/// What bucket `i` of a table with identifier `local` may hold: at most `K`
/// peers, none twice, none the local node, each sharing exactly `i` leading
/// bits with `local`.
pub open spec fn bucket_ok(s: Seq<Contact>, i: int, local: Seq<u8>) -> bool {
    &&& s.len() <= K
    &&& distinct_ids(s)
    &&& forall|j: int|
        0 <= j < s.len() ==> (#[trigger] s[j]).id() != local && cpl(local, s[j].id()) == i
}

/// What a table with identifier `local` may hold: one bucket for each
/// common-prefix length, each as `bucket_ok` says.
pub open spec fn table_ok(t: Seq<Seq<Contact>>, local: Seq<u8>) -> bool {
    &&& t.len() == ID_BITS
    &&& forall|i: int| 0 <= i < ID_BITS ==> bucket_ok(#[trigger] t[i], i, local)
}

/// The table after it has seen `c`: its own identifier is ignored, any
/// other contact is shown to the bucket of its common-prefix length.
pub open spec fn inserted(t: Seq<Seq<Contact>>, local: Seq<u8>, c: Contact) -> Seq<Seq<Contact>> {
    if c.id() == local {
        t
    } else {
        let i = cpl(local, c.id()) as int;
        t.update(i, added(t[i], c, K as int))
    }
}

/// The table after the probe of `head` that a full bucket asked for on
/// behalf of `c` has ended.
pub open spec fn settled_table(
    t: Seq<Seq<Contact>>,
    local: Seq<u8>,
    head: Contact,
    c: Contact,
    head_responded: bool,
) -> Seq<Seq<Contact>> {
    if c.id() == local {
        t
    } else {
        let i = cpl(local, c.id()) as int;
        t.update(i, settled(t[i], head, c, head_responded, K as int))
    }
}

/// The table after each of `probes` has ended unanswered, one after the
/// other.
pub open spec fn settled_all(t: Seq<Seq<Contact>>, local: Seq<u8>, probes: Seq<Probe>) -> Seq<
    Seq<Contact>,
>
    decreases probes.len(),
{
    if probes.len() == 0 {
        t
    } else {
        settled_table(
            settled_all(t, local, probes.drop_last()),
            local,
            probes.last().head,
            probes.last().candidate,
            false,
        )
    }
}

/// True when some bucket of the table holds a contact with identifier `id`.
pub open spec fn table_holds(t: Seq<Seq<Contact>>, id: Seq<u8>) -> bool {
    exists|i: int, j: int| 0 <= i < t.len() && 0 <= j < t[i].len() && #[trigger] t[i][j].id() == id
}

/// True when some bucket of the table holds exactly the contact `c`.
pub open spec fn table_contains(t: Seq<Seq<Contact>>, c: Contact) -> bool {
    exists|b: int, j: int| 0 <= b < t.len() && 0 <= j < t[b].len() && #[trigger] t[b][j] == c
}

/// Number of contacts in the buckets `lo..hi`.
pub open spec fn count_range(t: Seq<Seq<Contact>>, lo: int, hi: int) -> nat
    decreases hi - lo,
{
    if hi <= lo {
        0
    } else {
        count_range(t, lo, hi - 1) + t[hi - 1].len()
    }
}

/// Number of contacts in the table.
pub open spec fn total(t: Seq<Seq<Contact>>) -> nat {
    count_range(t, 0, t.len() as int)
}

/// The contacts of the buckets that lie exactly `r` places from bucket `i`:
/// the lower one first.
pub open spec fn ring(t: Seq<Seq<Contact>>, i: int, r: int) -> Seq<Contact> {
    let lower = if 0 <= i - r {
        t[i - r]
    } else {
        Seq::empty()
    };
    let upper = if r > 0 && i + r < t.len() {
        t[i + r]
    } else {
        Seq::empty()
    };
    lower + upper
}

/// The contacts of bucket `i` and of the buckets up to `r` places from it,
/// nearer buckets first.
pub open spec fn gathered_to(t: Seq<Seq<Contact>>, i: int, r: nat) -> Seq<Contact>
    decreases r,
{
    if r == 0 {
        t[i]
    } else {
        gathered_to(t, i, (r - 1) as nat) + ring(t, i, r as int)
    }
}

/// True when no bucket lies more than `r` places from bucket `i`.
pub open spec fn exhausted(t: Seq<Seq<Contact>>, i: int, r: nat) -> bool {
    i - (r + 1) < 0 && i + (r + 1) >= t.len()
}

/// How far from bucket `i` a search for `n` contacts goes when it has
/// already gone `r` places: it stops as soon as it has `n` contacts or no
/// bucket is left.
pub open spec fn reach(t: Seq<Seq<Contact>>, i: int, n: int, r: nat) -> nat
    decreases
            (if r <= t.len() {
                t.len() - r
            } else {
                0
            }),
{
    if r >= t.len() || gathered_to(t, i, r).len() >= n || exhausted(t, i, r) {
        r
    } else {
        reach(t, i, n, r + 1)
    }
}

/// The contacts among which a search for `n` contacts that starts at bucket
/// `i` chooses.
pub open spec fn gathered(t: Seq<Seq<Contact>>, i: int, n: int) -> Seq<Contact> {
    gathered_to(t, i, reach(t, i, n, 0))
}

/// What a table with identifier `local` answers when asked for the peers
/// nearest to `target`.
pub open spec fn k_nearest(t: Seq<Seq<Contact>>, local: Seq<u8>, target: Seq<u8>) -> Seq<Contact> {
    closest(gathered(t, bucket_index(local, target), K as int), target, K as int)
}

/// What `insert_node` reports of a table that is shown `c`.
pub open spec fn insert_outcome(t: Seq<Seq<Contact>>, local: Seq<u8>, c: Contact) -> Option<
    AddOutcome,
> {
    if c.id() == local {
        None
    } else {
        Some(add_outcome(t[cpl(local, c.id()) as int], c, K as int))
    }
}

/// True when the bucket that `c` belongs to can take `c` without a probe:
/// it has room, or it knows the peer already.
pub open spec fn takes(t: Seq<Seq<Contact>>, local: Seq<u8>, c: Contact) -> bool {
    let bucket = t[cpl(local, c.id()) as int];
    c.id() != local && (bucket.len() < K || holds_id(bucket, c.id()))
}

/// In a valid table every contact sits in the bucket of the common-prefix
/// length of its identifier and the local one, and is not the local node.
pub proof fn lemma_contacts_in_their_bucket(t: Seq<Seq<Contact>>, local: Seq<u8>, i: int, j: int)
    requires
        table_ok(t, local),
        0 <= i < t.len(),
        0 <= j < t[i].len(),
    ensures
        cpl(local, t[i][j].id()) == i,
        t[i][j].id() != local,
{
    assert(bucket_ok(t[i], i, local));
}

/// In a valid table no bucket holds more than `K` contacts.
pub proof fn lemma_buckets_bounded(t: Seq<Seq<Contact>>, local: Seq<u8>, i: int)
    requires
        table_ok(t, local),
        0 <= i < t.len(),
    ensures
        t[i].len() <= K,
{
    assert(bucket_ok(t[i], i, local));
}

/// In a valid table no peer appears twice, neither in one bucket nor in
/// two.
pub proof fn lemma_no_peer_twice(
    t: Seq<Seq<Contact>>,
    local: Seq<u8>,
    i: int,
    j: int,
    k: int,
    l: int,
)
    requires
        table_ok(t, local),
        0 <= i < t.len(),
        0 <= j < t[i].len(),
        0 <= k < t.len(),
        0 <= l < t[k].len(),
        t[i][j].id() == t[k][l].id(),
    ensures
        i == k && j == l,
{
    assert(bucket_ok(t[i], i, local));
    assert(bucket_ok(t[k], k, local));
}

/// A contact that its bucket can take is, once the table has seen it, the
/// most recently seen contact of its bucket, and there exactly once.
pub proof fn lemma_inserted_at_tail(t: Seq<Seq<Contact>>, local: Seq<u8>, c: Contact)
    requires
        table_ok(t, local),
        c.id().len() == local.len(),
        takes(t, local, c),
    ensures
        table_holds(inserted(t, local, c), c.id()),
        ({
            let bucket = inserted(t, local, c)[cpl(local, c.id()) as int];
            &&& bucket.len() > 0
            &&& bucket.last() == c
            &&& position_of(bucket, c.id()) == bucket.len() - 1
            &&& distinct_ids(bucket)
        }),
{
    lemma_cpl_bound(local, c.id());
    let i = cpl(local, c.id()) as int;
    let before = t[i];
    assert(bucket_ok(before, i, local));
    lemma_position_of(before, c.id());
    let after = inserted(t, local, c)[i];
    let p = position_of(before, c.id());
    if p < before.len() {
        lemma_refresh_keeps_distinct(before, c, p);
    }
    assert(after.last() == c);
    assert(after[after.len() - 1].id() == c.id());
    lemma_position_of(after, c.id());
    assert(distinct_ids(after)) by {
        if p < before.len() {
        } else {
            assert forall|a: int, b: int|
                0 <= a < after.len() && 0 <= b < after.len() && a != b implies #[trigger] after[a].id()
                != #[trigger] after[b].id() by {
                if a < before.len() && b < before.len() {
                    assert(after[a] == before[a] && after[b] == before[b]);
                } else if a < before.len() {
                    assert(after[a] == before[a]);
                } else {
                    assert(after[b] == before[b]);
                }
            }
        }
    }
    if position_of(after, c.id()) < after.len() - 1 {
        assert(after[position_of(after, c.id())].id() == after[after.len() - 1].id());
    }
}

/// A contact that the table has seen twice in a row is in it exactly once,
/// as the most recently seen contact of its bucket.
pub proof fn lemma_insert_twice(t: Seq<Seq<Contact>>, local: Seq<u8>, c: Contact)
    requires
        table_ok(t, local),
        c.id().len() == local.len(),
        takes(t, local, c),
    ensures
        takes(inserted(t, local, c), local, c),
        ({
            let twice = inserted(inserted(t, local, c), local, c);
            let bucket = twice[cpl(local, c.id()) as int];
            &&& table_holds(twice, c.id())
            &&& bucket.len() > 0
            &&& bucket.last() == c
            &&& position_of(bucket, c.id()) == bucket.len() - 1
            &&& distinct_ids(bucket)
            &&& twice == inserted(t, local, c)
        }),
{
    lemma_cpl_bound(local, c.id());
    lemma_inserted_at_tail(t, local, c);
    let once = inserted(t, local, c);
    let i = cpl(local, c.id()) as int;
    let bucket = once[i];
    let at = bucket.len() - 1;
    assert(holds_id(bucket, c.id())) by {
        assert(bucket[at].id() == c.id());
    }
    assert(bucket.remove(at).push(c) =~= bucket);
    assert(inserted(once, local, c) =~= once);
}

/// Counting a range of buckets from its lower end.
pub proof fn lemma_count_range_lower(t: Seq<Seq<Contact>>, lo: int, hi: int)
    requires
        lo < hi,
    ensures
        count_range(t, lo, hi) == t[lo].len() + count_range(t, lo + 1, hi),
    decreases hi - lo,
{
    if lo + 1 < hi {
        lemma_count_range_lower(t, lo, hi - 1);
    } else {
        assert(count_range(t, lo, hi - 1) == 0);
        assert(count_range(t, lo + 1, hi) == 0);
    }
}

/// What was gathered up to `r` places from bucket `i` is as many contacts
/// as the buckets within `r` places hold, and each of them is in one of
/// those buckets.
pub proof fn lemma_gathered_to(t: Seq<Seq<Contact>>, i: int, r: nat)
    requires
        0 <= i < t.len(),
    ensures
        gathered_to(t, i, r).len() == count_range(
            t,
            if i - r < 0 {
                0
            } else {
                i - r
            },
            if i + r + 1 > t.len() {
                t.len() as int
            } else {
                i + r + 1
            },
        ),
        forall|k: int|
            0 <= k < gathered_to(t, i, r).len() ==> table_contains(
                t,
                #[trigger] gathered_to(t, i, r)[k],
            ),
    decreases r,
{
    let g = gathered_to(t, i, r);
    if r == 0 {
        assert(count_range(t, i, i) == 0);
        assert forall|k: int| 0 <= k < g.len() implies table_contains(t, #[trigger] g[k]) by {
            assert(t[i][k] == g[k]);
        }
    } else {
        let p = (r - 1) as nat;
        lemma_gathered_to(t, i, p);
        let lo = if i - r < 0 {
            0
        } else {
            i - r
        };
        let hi = if i + r + 1 > t.len() {
            t.len() as int
        } else {
            i + r + 1
        };
        if 0 <= i - r {
            lemma_count_range_lower(t, lo, if i + p + 1 > t.len() {
                t.len() as int
            } else {
                i + p + 1
            });
        }
        let gp = gathered_to(t, i, p);
        let rg = ring(t, i, r as int);
        assert forall|k: int| 0 <= k < g.len() implies table_contains(t, #[trigger] g[k]) by {
            if k < gp.len() {
                assert(g[k] == gp[k]);
            } else {
                let m = k - gp.len();
                assert(g[k] == rg[m]);
                if 0 <= i - r && m < t[i - r].len() {
                    assert(t[i - r][m] == g[k]);
                } else if 0 <= i - r {
                    assert(t[i + r][m - t[i - r].len()] == g[k]);
                } else {
                    assert(t[i + r][m] == g[k]);
                }
            }
        }
    }
}

/// True when `c` sits in a bucket no more than `r` places from bucket
/// `i`.
pub open spec fn within(t: Seq<Seq<Contact>>, i: int, r: int, c: Contact) -> bool {
    exists|b: int, j: int|
        i - r <= b <= i + r && 0 <= b < t.len() && 0 <= j < t[b].len() && #[trigger] t[b][j] == c
}

/// The bucket and the place in it from which the contact at `m` of the
/// ring `r` places from bucket `i` was taken.
pub open spec fn ring_origin(t: Seq<Seq<Contact>>, i: int, r: int, m: int) -> (int, int) {
    if 0 <= i - r && m < t[i - r].len() {
        (i - r, m)
    } else if 0 <= i - r {
        (i + r, m - t[i - r].len())
    } else {
        (i + r, m)
    }
}

/// What a search gathers from a valid table names no peer twice, and
/// comes from the buckets within its reach.
pub proof fn lemma_gathered_distinct(t: Seq<Seq<Contact>>, local: Seq<u8>, i: int, r: nat)
    requires
        table_ok(t, local),
        0 <= i < t.len(),
    ensures
        distinct_ids(gathered_to(t, i, r)),
        forall|k: int|
            0 <= k < gathered_to(t, i, r).len() ==> within(
                t,
                i,
                r as int,
                #[trigger] gathered_to(t, i, r)[k],
            ),
    decreases r,
{
    let g = gathered_to(t, i, r);
    assert(bucket_ok(t[i], i, local));
    if r == 0 {
        assert forall|k: int| 0 <= k < g.len() implies within(t, i, 0, #[trigger] g[k]) by {
            assert(t[i][k] == g[k]);
        }
    } else {
        let p = (r - 1) as nat;
        lemma_gathered_distinct(t, local, i, p);
        let gp = gathered_to(t, i, p);
        let rg = ring(t, i, r as int);
        assert(g =~= gp + rg);
        // Where each contact of the ring was taken from.
        assert forall|m: int| 0 <= m < rg.len() implies ({
            let (b, j) = ring_origin(t, i, r as int, m);
            &&& (b == i - r || b == i + r)
            &&& 0 <= b < t.len()
            &&& 0 <= j < t[b].len()
            &&& t[b][j] == #[trigger] rg[m]
        }) by {}
        assert forall|k: int| 0 <= k < g.len() implies within(t, i, r as int, #[trigger] g[k]) by {
            if k < gp.len() {
                assert(g[k] == gp[k]);
                assert(within(t, i, p as int, gp[k]));
                let (b, j) = choose|b: int, j: int|
                    i - p <= b <= i + p && 0 <= b < t.len() && 0 <= j < t[b].len()
                        && #[trigger] t[b][j] == gp[k];
                assert(t[b][j] == g[k]);
            } else {
                let m = k - gp.len();
                assert(g[k] == rg[m]);
                let (b, j) = ring_origin(t, i, r as int, m);
                assert(t[b][j] == g[k]);
            }
        }
        assert forall|x: int, y: int|
            0 <= x < g.len() && 0 <= y < g.len() && x != y implies #[trigger] g[x].id()
            != #[trigger] g[y].id() by {
            if g[x].id() == g[y].id() {
                if x < gp.len() && y < gp.len() {
                    assert(g[x] == gp[x] && g[y] == gp[y]);
                } else if x >= gp.len() && y >= gp.len() {
                    let (bx, jx) = ring_origin(t, i, r as int, x - gp.len());
                    let (by, jy) = ring_origin(t, i, r as int, y - gp.len());
                    assert(g[x] == rg[x - gp.len()] && g[y] == rg[y - gp.len()]);
                    assert(t[bx][jx].id() == t[by][jy].id());
                    lemma_no_peer_twice(t, local, bx, jx, by, jy);
                } else {
                    let inner = if x < gp.len() {
                        x
                    } else {
                        y
                    };
                    let outer = if x < gp.len() {
                        y
                    } else {
                        x
                    };
                    assert(g[inner] == gp[inner]);
                    assert(within(t, i, p as int, gp[inner]));
                    let (b, j) = choose|b: int, j: int|
                        i - p <= b <= i + p && 0 <= b < t.len() && 0 <= j < t[b].len()
                            && #[trigger] t[b][j] == gp[inner];
                    let (bo, jo) = ring_origin(t, i, r as int, outer - gp.len());
                    assert(g[outer] == rg[outer - gp.len()]);
                    assert(t[b][j].id() == t[bo][jo].id());
                    lemma_no_peer_twice(t, local, b, j, bo, jo);
                }
            }
        }
    }
}

/// What a valid table answers when asked for the nearest peers names no
/// peer twice.
pub proof fn lemma_k_nearest_distinct(t: Seq<Seq<Contact>>, local: Seq<u8>, target: Seq<u8>)
    requires
        table_ok(t, local),
        local.len() == 20,
        target.len() == 20,
    ensures
        distinct_ids(k_nearest(t, local, target)),
{
    lemma_cpl_bound(local, target);
    let i = bucket_index(local, target);
    lemma_gathered_distinct(t, local, i, reach(t, i, K as int, 0));
    crate::nearest::lemma_closest_keeps_distinct(gathered(t, i, K as int), target, K as int);
}

/// A search either finds as many contacts as it was asked for or goes
/// through the whole table.
pub proof fn lemma_reach(t: Seq<Seq<Contact>>, i: int, n: int, r: nat)
    requires
        0 <= i < t.len(),
        r < t.len(),
    ensures
        reach(t, i, n, r) < t.len(),
        gathered_to(t, i, reach(t, i, n, r)).len() >= n || gathered_to(
            t,
            i,
            reach(t, i, n, r),
        ).len() == total(t),
    decreases t.len() - r,
{
    if gathered_to(t, i, r).len() >= n {
    } else if exhausted(t, i, r) {
        lemma_gathered_to(t, i, r);
    } else {
        lemma_reach(t, i, n, r + 1);
    }
}

/// No bucket range holds more contacts than the table.
pub proof fn lemma_count_range_total(t: Seq<Seq<Contact>>, lo: int, hi: int)
    requires
        0 <= lo <= hi <= t.len(),
    ensures
        count_range(t, lo, hi) <= total(t),
    decreases lo + (t.len() - hi),
{
    if hi < t.len() {
        lemma_count_range_total(t, lo, hi + 1);
    } else if lo > 0 {
        lemma_count_range_lower(t, lo - 1, hi);
        lemma_count_range_total(t, lo - 1, hi);
    }
}

/// The routing table of one node: a bucket for each length of prefix that
/// a peer's identifier can share with the node's own.
#[derive(Debug, Clone)]
pub struct RoutingTable {
    buckets: Vec<KBucket>,
    local_node_id: SHA,
}

impl View for RoutingTable {
    type V = Seq<Seq<Contact>>;

    closed spec fn view(&self) -> Seq<Seq<Contact>> {
        Seq::new(self.buckets@.len(), |i: int| self.buckets@[i]@)
    }
}

impl RoutingTable {
    /// The identifier of the node that owns the table.
    pub closed spec fn local_id(&self) -> SHA {
        self.local_node_id
    }

    /// Every bucket knows its index and has the common capacity.
    pub closed spec fn shaped(&self) -> bool {
        forall|i: int|
            0 <= i < self.buckets@.len() ==> (#[trigger] self.buckets@[i]).i == i
                && self.buckets@[i].capacity == K
    }

    /// The table's invariant: every contact is in the bucket of its
    /// common-prefix length, no bucket exceeds `K`, the local node is in
    /// none, and no peer is in a bucket twice.
    pub open spec fn wf(&self) -> bool {
        self.shaped() && table_ok(self@, self.local_id()@)
    }

    /// An empty table for the node with identifier `local_node_id`.
    pub fn new(local_node_id: SHA) -> (t: RoutingTable)
        ensures
            t.wf(),
            t.local_id() == local_node_id,
            t@ == Seq::new(ID_BITS as nat, |i: int| Seq::<Contact>::empty()),
    {
        let mut buckets: Vec<KBucket> = Vec::new();
        let mut i: usize = 0;
        while i < ID_BITS
            invariant
                i <= ID_BITS,
                buckets@.len() == i,
                forall|j: int|
                    0 <= j < i ==> (#[trigger] buckets@[j]).i == j && buckets@[j].capacity == K
                        && buckets@[j]@ == Seq::<Contact>::empty(),
            decreases ID_BITS - i,
        {
            buckets.push(KBucket::new(i));
            i += 1;
        }
        let t = RoutingTable { buckets, local_node_id };
        assert(t@ =~= Seq::new(ID_BITS as nat, |i: int| Seq::<Contact>::empty()));
        t
    }

    /// The identifier of the node that owns the table.
    pub fn local_node_id(&self) -> (id: SHA)
        ensures
            id == self.local_id(),
    {
        self.local_node_id
    }

    /// The index of the bucket that `target_id` belongs to.
    pub fn find_bucket(&self, target_id: SHA) -> (index: usize)
        ensures
            index == bucket_index(self.local_id()@, target_id@),
            index < ID_BITS,
    {
        let distance = Distance::new(&self.local_node_id, &target_id);
        let shared = distance.leading_zeros();
        proof {
            lemma_cpl_bound(self.local_node_id@, target_id@);
        }
        if shared == ID_BITS {
            0
        } else {
            shared
        }
    }

    /// Records that the peer `new_node` was seen. The node's own identifier
    /// is ignored, and `None` says so. Any other contact is shown to the
    /// bucket of its common-prefix length, whose answer is handed on: when
    /// it is `Full`, the table is unchanged, and the contact in it has to be
    /// probed and `settle_node` told the answer.
    pub fn insert_node(&mut self, new_node: &Contact) -> (outcome: Option<AddOutcome>)
        requires
            old(self).wf(),
        ensures
            final(self).wf(),
            final(self).local_id() == old(self).local_id(),
            final(self)@ == inserted(old(self)@, old(self).local_id()@, *new_node),
            outcome == insert_outcome(old(self)@, old(self).local_id()@, *new_node),
    {
        if new_node.node_id == self.local_node_id {
            return None;
        }
        let index = self.find_bucket(new_node.node_id);
        proof {
            lemma_members(self@[index as int], *new_node, *new_node, true, K as int);
        }
        let outcome = self.buckets[index].add(*new_node);
        proof {
            assert(final(self)@ =~= inserted(old(self)@, old(self).local_id()@, *new_node));
            old(self).lemma_bucket_replaced(*final(self), index as int, *new_node);
        }
        Some(outcome)
    }

    /// Ends the probe that `insert_node` asked for: tells the table whether
    /// the head that the probe names answered. A head that was seen in the
    /// meantime stays where that sighting put it. Else a head that answered
    /// stays, as the most recently seen, and the newcomer is dropped; one
    /// that did not is evicted and the newcomer takes the tail of the
    /// bucket.
    pub fn settle_node(&mut self, probe: &Probe, head_responded: bool)
        requires
            old(self).wf(),
        ensures
            final(self).wf(),
            final(self).local_id() == old(self).local_id(),
            final(self)@ == settled_table(
                old(self)@,
                old(self).local_id()@,
                probe.head,
                probe.candidate,
                head_responded,
            ),
    {
        if probe.candidate.node_id == self.local_node_id {
            return ;
        }
        let index = self.find_bucket(probe.candidate.node_id);
        proof {
            lemma_members(
                self@[index as int],
                probe.head,
                probe.candidate,
                head_responded,
                K as int,
            );
        }
        self.buckets[index].settle(*probe, head_responded);
        proof {
            assert(final(self)@ =~= settled_table(
                old(self)@,
                old(self).local_id()@,
                probe.head,
                probe.candidate,
                head_responded,
            ));
            old(self).lemma_bucket_replaced(*final(self), index as int, probe.candidate);
        }
    }

    /// A table that differs from a valid one in one bucket, where it holds
    /// only what was there or a contact that belongs there, is valid.
    proof fn lemma_bucket_replaced(self, after: RoutingTable, index: int, c: Contact)
        requires
            self.wf(),
            0 <= index < ID_BITS,
            c.id() != self.local_id()@,
            cpl(self.local_id()@, c.id()) == index,
            after.local_node_id == self.local_node_id,
            after.buckets@.len() == self.buckets@.len(),
            forall|i: int|
                0 <= i < self.buckets@.len() && i != index ==> after.buckets@[i]
                    == self.buckets@[i],
            after.buckets@[index].wf(),
            after.buckets@[index].i == index,
            after.buckets@[index].capacity == K,
            forall|j: int|
                0 <= j < after.buckets@[index]@.len() ==> #[trigger] after.buckets@[index]@[j] == c
                    || self.buckets@[index]@.contains(after.buckets@[index]@[j]),
        ensures
            after.wf(),
    {
        let local = self.local_id()@;
        assert forall|i: int| 0 <= i < ID_BITS implies bucket_ok(#[trigger] after@[i], i, local) by {
            if i == index {
                let s = after@[i];
                assert forall|j: int| 0 <= j < s.len() implies (#[trigger] s[j]).id() != local
                    && cpl(local, s[j].id()) == i by {
                    if s[j] != c {
                        let old_bucket = self@[index];
                        assert(old_bucket.contains(s[j]));
                        let k = choose|k: int| 0 <= k < old_bucket.len() && old_bucket[k] == s[j];
                        assert(bucket_ok(self@[index], index, local));
                        assert(old_bucket[k].id() != local);
                    }
                }
            } else {
                assert(after@[i] == self@[i]);
                assert(bucket_ok(self@[i], i, local));
            }
        }
    }

    /// True when the table holds the peer with identifier `id`.
    pub fn contains(&self, id: SHA) -> (r: bool)
        requires
            self.wf(),
        ensures
            r == table_holds(self@, id@),
    {
        let index = self.find_bucket(id);
        let found = self.buckets[index].find_element(id);
        proof {
            let local = self.local_id()@;
            crate::bucket::lemma_position_of(self@[index as int], id@);
            if table_holds(self@, id@) {
                let (i, j) = choose|i: int, j: int|
                    0 <= i < self@.len() && 0 <= j < self@[i].len() && #[trigger] self@[i][j].id()
                        == id@;
                assert(bucket_ok(self@[i], i, local));
                assert(self@[i][j].id() != local);
                assert(i == index);
            }
            if found is Some {
                let p = crate::bucket::position_of(self@[index as int], id@);
                assert(self@[index as int][p].id() == id@);
            }
        }
        found.is_some()
    }

    /// The contacts of bucket `index`, least recently seen first.
    pub fn bucket_nodes(&self, index: usize) -> (nodes: Vec<Contact>)
        requires
            self.wf(),
            index < ID_BITS,
        ensures
            nodes@ == self@[index as int],
    {
        self.buckets[index].get_nodes()
    }

    /// The `K` contacts nearest to `target_id` among those the search
    /// gathers: it starts at the bucket of `target_id` and takes in the
    /// buckets on both sides, nearest first, until it has `K` contacts or
    /// has been through the table. The result is in ascending distance from
    /// `target_id`.
    pub fn find_k_nearest_nodes(&self, target_id: SHA) -> (nodes: Vec<Contact>)
        requires
            self.wf(),
        ensures
            nodes@ == k_nearest(self@, self.local_id()@, target_id@),
            sorted_by_distance(nodes@, target_id@),
            distinct_ids(nodes@),
            nodes@.len() == if total(self@) <= K {
                total(self@)
            } else {
                K as nat
            },
            forall|k: int|
                0 <= k < nodes@.len() ==> table_holds(self@, (#[trigger] nodes@[k]).id()),
    {
        let i = self.find_bucket(target_id);
        let mut nodes = self.buckets[i].get_nodes();
        let mut r: usize = 0;
        while nodes.len() < K && (i >= r + 1 || i + r + 1 < ID_BITS)
            invariant
                self.wf(),
                i < ID_BITS,
                r < ID_BITS,
                nodes@ == gathered_to(self@, i as int, r as nat),
                reach(self@, i as int, K as int, 0) == reach(self@, i as int, K as int, r as nat),
            decreases ID_BITS - r,
        {
            r += 1;
            if i >= r {
                let mut lower = self.buckets[i - r].get_nodes();
                nodes.append(&mut lower);
            }
            if i + r < ID_BITS {
                let mut upper = self.buckets[i + r].get_nodes();
                nodes.append(&mut upper);
            }
            assert(nodes@ =~= gathered_to(self@, i as int, r as nat));
        }
        let out = take_nearest(&nodes, &target_id, K);
        proof {
            let t = self@;
            let g = gathered(t, i as int, K as int);
            assert(nodes@ == g);
            lemma_reach(t, i as int, K as int, 0);
            lemma_reach(t, i as int, K as int, r as nat);
            lemma_gathered_to(t, i as int, r as nat);
            lemma_count_range_total(
                t,
                if i - r < 0 {
                    0
                } else {
                    i - r
                },
                if i + r + 1 > t.len() {
                    t.len() as int
                } else {
                    i + r + 1
                },
            );
            lemma_closest(g, target_id@, K as int);
            assert(self.local_id()@.len() == 20 && target_id@.len() == 20) by {
                broadcast use vstd::array::array_len_matches_n;

            }
            lemma_k_nearest_distinct(t, self.local_id()@, target_id@);
            assert forall|k: int| 0 <= k < out@.len() implies table_holds(
                t,
                (#[trigger] out@[k]).id(),
            ) by {
                assert(g.contains(out@[k]));
                let m = choose|m: int| 0 <= m < g.len() && g[m] == out@[k];
                assert(table_contains(t, g[m]));
                let (b, j) = choose|b: int, j: int|
                    0 <= b < t.len() && 0 <= j < t[b].len() && #[trigger] t[b][j] == g[m];
                assert(t[b][j].id() == out@[k].id());
            }
        }
        out
    }
}

} // verus!
