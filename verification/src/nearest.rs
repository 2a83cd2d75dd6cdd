use crate::bucket::{distinct_ids, holds_id};
use crate::contact::Contact;
use crate::distance::{be_value, lemma_value_injective, lemma_xor_cancels, xor_bytes, Distance};
use crate::sha::SHA;
use vstd::prelude::*;

verus! {

/// How far the peer `c` is from `target`, as a number.
pub open spec fn gap(c: Contact, target: Seq<u8>) -> nat {
    be_value(xor_bytes(c.id(), target))
}

/// True when the contacts come in ascending distance from `target`.
pub open spec fn sorted_by_distance(s: Seq<Contact>, target: Seq<u8>) -> bool {
    forall|i: int, j: int| 0 <= i < j < s.len() ==> gap(s[i], target) <= gap(s[j], target)
}

/// The sorted sequence `s` with `c` put behind every contact that is no
/// farther from `target` than `c` is.
pub open spec fn insert_by_distance(s: Seq<Contact>, c: Contact, target: Seq<u8>) -> Seq<Contact>
    decreases s.len(),
{
    if s.len() == 0 || gap(s.last(), target) <= gap(c, target) {
        s.push(c)
    } else {
        insert_by_distance(s.drop_last(), c, target).push(s.last())
    }
}

/// The contacts of `s` in ascending distance from `target`; contacts at one
/// distance keep the order they had.
pub open spec fn sort_by_distance(s: Seq<Contact>, target: Seq<u8>) -> Seq<Contact>
    decreases s.len(),
{
    if s.len() == 0 {
        s
    } else {
        insert_by_distance(sort_by_distance(s.drop_last(), target), s.last(), target)
    }
}

/// The `n` contacts of `s` nearest to `target`, nearest first; all of them
/// where `s` has fewer than `n`.
pub open spec fn closest(s: Seq<Contact>, target: Seq<u8>, n: int) -> Seq<Contact> {
    let sorted = sort_by_distance(s, target);
    if sorted.len() <= n {
        sorted
    } else {
        sorted.take(n)
    }
}

/// Two peers at one distance from a target are one peer: among different
/// peers no two tie.
pub proof fn lemma_no_ties(a: Contact, b: Contact, target: Seq<u8>)
    requires
        target.len() == 20,
        gap(a, target) == gap(b, target),
    ensures
        a.id() == b.id(),
{
    broadcast use vstd::array::array_len_matches_n;

    lemma_value_injective(xor_bytes(a.id(), target), xor_bytes(b.id(), target));
    lemma_xor_cancels(a.id(), b.id(), target);
}

/// Inserting into a sorted sequence puts the newcomer at the one place that
/// has nothing farther before it and nothing as near behind it.
pub proof fn lemma_insert_at(s: Seq<Contact>, c: Contact, target: Seq<u8>, j: int)
    requires
        0 <= j <= s.len(),
        forall|i: int| j <= i < s.len() ==> gap(c, target) < gap(s[i], target),
        j > 0 ==> gap(s[j - 1], target) <= gap(c, target),
    ensures
        insert_by_distance(s, c, target) == s.insert(j, c),
    decreases s.len() - j,
{
    if j == s.len() {
        assert(s.insert(j, c) =~= s.push(c));
    } else {
        let t = s.drop_last();
        lemma_insert_at(t, c, target, j);
        assert(t.insert(j, c).push(s.last()) =~= s.insert(j, c));
    }
}

/// Inserting keeps a sorted sequence sorted, adds exactly the newcomer, and
/// makes it one longer.
pub proof fn lemma_insert_by_distance(s: Seq<Contact>, c: Contact, target: Seq<u8>)
    requires
        sorted_by_distance(s, target),
    ensures
        sorted_by_distance(insert_by_distance(s, c, target), target),
        insert_by_distance(s, c, target).len() == s.len() + 1,
        insert_by_distance(s, c, target).to_multiset() == s.to_multiset().insert(c),
    decreases s.len(),
{
    broadcast use vstd::seq_lib::group_to_multiset_ensures;

    let r = insert_by_distance(s, c, target);
    if s.len() == 0 || gap(s.last(), target) <= gap(c, target) {
        assert forall|i: int, j: int| 0 <= i < j < r.len() implies gap(r[i], target) <= gap(
            r[j],
            target,
        ) by {
            if j == s.len() && s.len() > 0 {
                assert(gap(s[i], target) <= gap(s.last(), target));
            }
        }
    } else {
        let t = s.drop_last();
        lemma_insert_by_distance(t, c, target);
        let u = insert_by_distance(t, c, target);
        assert(s =~= t.push(s.last()));
        assert(r.to_multiset() =~= s.to_multiset().insert(c));
        assert forall|i: int, j: int| 0 <= i < j < r.len() implies gap(r[i], target) <= gap(
            r[j],
            target,
        ) by {
            if j == u.len() {
                // r[i] is c or a contact of t
                assert(u.to_multiset().count(u[i]) > 0);
                if u[i] != c {
                    assert(t.to_multiset().count(u[i]) > 0);
                    assert(t.contains(u[i]));
                    let k = choose|k: int| 0 <= k < t.len() && t[k] == u[i];
                    assert(gap(s[k], target) <= gap(s[s.len() - 1], target));
                }
            }
        }
    }
}

/// Inserting a peer that is not there yet keeps the peers distinct.
pub proof fn lemma_insert_keeps_distinct(s: Seq<Contact>, c: Contact, target: Seq<u8>)
    requires
        sorted_by_distance(s, target),
        distinct_ids(s),
        !holds_id(s, c.id()),
    ensures
        distinct_ids(insert_by_distance(s, c, target)),
    decreases s.len(),
{
    broadcast use vstd::seq_lib::group_to_multiset_ensures;

    let r = insert_by_distance(s, c, target);
    if s.len() == 0 || gap(s.last(), target) <= gap(c, target) {
        assert forall|i: int, j: int|
            0 <= i < r.len() && 0 <= j < r.len() && i != j implies #[trigger] r[i].id()
            != #[trigger] r[j].id() by {
            if i < s.len() && j < s.len() {
                assert(r[i] == s[i] && r[j] == s[j]);
            } else if i < s.len() {
                assert(s[i].id() != c.id());
            } else {
                assert(s[j].id() != c.id());
            }
        }
    } else {
        let d = s.drop_last();
        assert(distinct_ids(d)) by {
            assert forall|i: int, j: int|
                0 <= i < d.len() && 0 <= j < d.len() && i != j implies #[trigger] d[i].id()
                != #[trigger] d[j].id() by {
                assert(d[i] == s[i] && d[j] == s[j]);
            }
        }
        assert(!holds_id(d, c.id())) by {
            if holds_id(d, c.id()) {
                let k = choose|k: int| 0 <= k < d.len() && #[trigger] d[k].id() == c.id();
                assert(s[k].id() == c.id());
            }
        }
        lemma_insert_keeps_distinct(d, c, target);
        lemma_insert_by_distance(d, c, target);
        let u = insert_by_distance(d, c, target);
        assert forall|i: int| 0 <= i < u.len() implies (#[trigger] u[i]).id() != s.last().id() by {
            assert(u.to_multiset().count(u[i]) > 0);
            if u[i] != c {
                assert(d.to_multiset().count(u[i]) > 0);
                assert(d.contains(u[i]));
                let k = choose|k: int| 0 <= k < d.len() && d[k] == u[i];
                assert(s[k].id() != s[s.len() - 1].id());
            } else {
                assert(s[s.len() - 1].id() != c.id());
            }
        }
        assert forall|i: int, j: int|
            0 <= i < r.len() && 0 <= j < r.len() && i != j implies #[trigger] r[i].id()
            != #[trigger] r[j].id() by {
            if i < u.len() && j < u.len() {
                assert(r[i] == u[i] && r[j] == u[j]);
            } else if i < u.len() {
                assert(r[i] == u[i]);
            } else {
                assert(r[j] == u[j]);
            }
        }
    }
}

/// Sorting keeps distinct peers distinct, and so does taking the nearest
/// of them.
pub proof fn lemma_closest_keeps_distinct(s: Seq<Contact>, target: Seq<u8>, n: int)
    requires
        distinct_ids(s),
        n >= 0,
    ensures
        distinct_ids(sort_by_distance(s, target)),
        distinct_ids(closest(s, target, n)),
    decreases s.len(),
{
    broadcast use vstd::seq_lib::group_to_multiset_ensures;

    let sorted = sort_by_distance(s, target);
    if s.len() > 0 {
        let d = s.drop_last();
        let last = s.last();
        assert(distinct_ids(d)) by {
            assert forall|i: int, j: int|
                0 <= i < d.len() && 0 <= j < d.len() && i != j implies #[trigger] d[i].id()
                != #[trigger] d[j].id() by {
                assert(d[i] == s[i] && d[j] == s[j]);
            }
        }
        lemma_closest_keeps_distinct(d, target, n);
        lemma_sort_by_distance(d, target);
        let before = sort_by_distance(d, target);
        assert(!holds_id(before, last.id())) by {
            if holds_id(before, last.id()) {
                let k = choose|k: int| 0 <= k < before.len() && #[trigger] before[k].id() == last.id();
                assert(before.to_multiset().count(before[k]) > 0);
                assert(d.to_multiset().count(before[k]) > 0);
                assert(d.contains(before[k]));
                let m = choose|m: int| 0 <= m < d.len() && d[m] == before[k];
                assert(s[m].id() == s[s.len() - 1].id());
            }
        }
        lemma_insert_keeps_distinct(before, last, target);
    }
    let r = closest(s, target, n);
    assert forall|i: int, j: int|
        0 <= i < r.len() && 0 <= j < r.len() && i != j implies #[trigger] r[i].id()
        != #[trigger] r[j].id() by {
        assert(r[i] == sorted[i] && r[j] == sorted[j]);
    }
}

/// Sorting yields a sorted sequence of the same contacts.
pub proof fn lemma_sort_by_distance(s: Seq<Contact>, target: Seq<u8>)
    ensures
        sorted_by_distance(sort_by_distance(s, target), target),
        sort_by_distance(s, target).len() == s.len(),
        sort_by_distance(s, target).to_multiset() == s.to_multiset(),
    decreases s.len(),
{
    broadcast use vstd::seq_lib::group_to_multiset_ensures;

    if s.len() > 0 {
        let t = s.drop_last();
        lemma_sort_by_distance(t, target);
        lemma_insert_by_distance(sort_by_distance(t, target), s.last(), target);
        assert(s =~= t.push(s.last()));
    }
}

/// The nearest `n` are sorted, are `min(n, |s|)` many, are contacts of `s`,
/// and no contact of `s` that was left out is nearer than one that was
/// taken.
pub proof fn lemma_closest(s: Seq<Contact>, target: Seq<u8>, n: int)
    requires
        n >= 0,
    ensures
        sorted_by_distance(closest(s, target, n), target),
        closest(s, target, n).len() == if s.len() <= n { s.len() as int } else { n },
        forall|i: int| 0 <= i < closest(s, target, n).len() ==> s.contains(
            #[trigger] closest(s, target, n)[i],
        ),
        forall|i: int, c: Contact|
            #![trigger closest(s, target, n)[i], gap(c, target)]
            0 <= i < closest(s, target, n).len() && s.to_multiset().count(c) > closest(
                s,
                target,
                n,
            ).to_multiset().count(c) ==> gap(closest(s, target, n)[i], target) <= gap(c, target),
        s.len() <= n ==> closest(s, target, n).to_multiset() == s.to_multiset(),
{
    broadcast use vstd::seq_lib::group_to_multiset_ensures;

    lemma_sort_by_distance(s, target);
    let sorted = sort_by_distance(s, target);
    let r = closest(s, target, n);
    assert forall|i: int| 0 <= i < r.len() implies s.contains(#[trigger] r[i]) by {
        assert(r[i] == sorted[i]);
        assert(sorted.to_multiset().count(sorted[i]) > 0);
        assert(s.to_multiset().count(r[i]) > 0);
    }
    if sorted.len() > n {
        let rest = sorted.skip(n);
        assert(sorted =~= r + rest);
        vstd::seq_lib::lemma_multiset_commutative(r, rest);
        assert forall|i: int, c: Contact|
            #![trigger r[i], gap(c, target)]
            0 <= i < r.len() && s.to_multiset().count(c) > r.to_multiset().count(c) implies gap(
            r[i],
            target,
        ) <= gap(c, target) by {
            assert(rest.to_multiset().count(c) > 0);
            assert(rest.contains(c));
            let k = choose|k: int| 0 <= k < rest.len() && rest[k] == c;
            assert(sorted[n + k] == c);
            assert(sorted[i] == r[i]);
        }
    }
}

/// The contacts in ascending distance from `target`.
pub fn sort_nearest(nodes: &Vec<Contact>, target: &SHA) -> (out: Vec<Contact>)
    ensures
        out@ == sort_by_distance(nodes@, target@),
        sorted_by_distance(out@, target@),
        out@.len() == nodes@.len(),
        out@.to_multiset() == nodes@.to_multiset(),
{
    let mut out: Vec<Contact> = Vec::new();
    let mut i: usize = 0;
    assert(nodes@.take(0) =~= Seq::<Contact>::empty());
    while i < nodes.len()
        invariant
            i <= nodes@.len(),
            out@ == sort_by_distance(nodes@.take(i as int), target@),
            out@.len() == i,
        decreases nodes@.len() - i,
    {
        let c = nodes[i];
        let d = Distance::new(&c.node_id, target);
        let mut j: usize = out.len();
        while j > 0 && d.lt(&Distance::new(&out[j - 1].node_id, target))
            invariant
                j <= out@.len(),
                d@ == xor_bytes(c.id(), target@),
                forall|k: int| j <= k < out@.len() ==> gap(c, target@) < gap(out@[k], target@),
            decreases j,
        {
            j -= 1;
        }
        proof {
            lemma_insert_at(out@, c, target@, j as int);
            assert(nodes@.take(i as int + 1).drop_last() =~= nodes@.take(i as int));
            lemma_sort_by_distance(nodes@.take(i as int), target@);
        }
        out.insert(j, c);
        i += 1;
    }
    proof {
        assert(nodes@.take(nodes@.len() as int) =~= nodes@);
        lemma_sort_by_distance(nodes@, target@);
    }
    out
}

/// The `n` contacts nearest to `target`, nearest first.
pub fn take_nearest(nodes: &Vec<Contact>, target: &SHA, n: usize) -> (out: Vec<Contact>)
    ensures
        out@ == closest(nodes@, target@, n as int),
        sorted_by_distance(out@, target@),
        out@.len() == if nodes@.len() <= n { nodes@.len() } else { n as nat },
{
    let mut out = sort_nearest(nodes, target);
    if out.len() > n {
        out.truncate(n);
    }
    proof {
        lemma_closest(nodes@, target@, n as int);
    }
    out
}

} // verus!
