//! What holds of every ring, whatever was done to it.

use vstd::prelude::*;
use crate::evict::Evict;
use crate::index::{
    lemma_query_above_all_wraps,
    lemma_query_at_node_stays,
    lemma_same_nodes_same_sequence,
    lemma_successor_resolves,
    resolves_to,
    successor,
    VirtualNode,
};
use crate::ring::{anchored, lays_out, replica, ConsistentHash};

verus! {

/// A lookup of a registered key is routed to the key itself.
pub proof fn registered_key_is_its_own_heir<K: crate::Hash + Ord, V: Evict>(
    ring: &ConsistentHash<K, V>,
    s: int,
)
    requires
        ring.wf(),
        0 <= s < ring.keys().len(),
    ensures
        ring.heir(ring.keys()[s].position(0)) == s,
{
    let index = ring.index();
    let node = replica(ring.keys(), s, 0);
    assert(index.contains(node));
    let k = choose|k: int| 0 <= k < index.len() && index[k] == node;
    lemma_query_at_node_stays(index, k);
}

/// Once a key has been added with a value, a lookup of the key finds that
/// value: `after` stands for any ring that `add_node` can leave behind when it
/// succeeds on `before`.
pub proof fn added_key_resolves_to_its_value<K: crate::Hash + Ord, V: Evict>(
    before: &ConsistentHash<K, V>,
    after: &ConsistentHash<K, V>,
    key: K,
    value: V,
)
    requires
        after.wf(),
        after.keys() == before.keys().push(key),
        after.values() == before.values().push(value),
    ensures
        after.values()[after.heir(key.position(0))] == value,
{
    registered_key_is_its_own_heir(after, before.keys().len() as int);
}

/// The replicas of one key lie at positions that differ from each other.
pub proof fn replicas_lie_apart<K: crate::Hash + Ord, V: Evict>(
    ring: &ConsistentHash<K, V>,
    s: int,
    a: i32,
    b: i32,
)
    requires
        ring.wf(),
        0 <= s < ring.keys().len(),
        0 <= a < b < ring.replicas(),
    ensures
        ring.keys()[s].position(a) != ring.keys()[s].position(b),
{
    assert(ring.index().contains(replica(ring.keys(), s, a)));
    assert(ring.index().contains(replica(ring.keys(), s, b)));
}

/// The positions of the first `m` replicas of `key`.
pub open spec fn first_points<K: crate::Hash>(key: K, m: int) -> Set<u128>
    decreases m,
{
    if m <= 0 {
        Set::empty()
    } else {
        first_points(key, m - 1).insert(key.position((m - 1) as i32))
    }
}

/// Of a key whose replicas lie apart, the first `m` replicas take `m`
/// positions.
proof fn lemma_first_points<K: crate::Hash>(key: K, m: int, replicas: i32)
    requires
        0 <= m <= replicas,
        forall|a: i32, b: i32|
            0 <= a < b < replicas ==> #[trigger] key.position(a) != #[trigger] key.position(b),
    ensures
        first_points(key, m).finite(),
        first_points(key, m).len() == m,
        forall|p: u128|
            first_points(key, m).contains(p) <==> exists|w: i32|
                0 <= w < m && #[trigger] key.position(w) == p,
    decreases m,
{
    if m > 0 {
        lemma_first_points(key, m - 1, replicas);
        assert(!first_points(key, m - 1).contains(key.position((m - 1) as i32)));
    }
}

/// Each registered key has exactly as many positions in the index as the
/// ring has replicas, and they are the positions of its replicas.
pub proof fn key_holds_exactly_its_replicas<K: crate::Hash + Ord, V: Evict>(
    ring: &ConsistentHash<K, V>,
    s: int,
)
    requires
        ring.wf(),
        0 <= s < ring.keys().len(),
    ensures
        ring.points_of(s).finite(),
        ring.points_of(s).len() == ring.replicas(),
        forall|p: u128|
            ring.points_of(s).contains(p) <==> exists|w: i32|
                0 <= w < ring.replicas() && #[trigger] ring.keys()[s].position(w) == p,
{
    let key = ring.keys()[s];
    let r = ring.replicas();
    assert forall|a: i32, b: i32| 0 <= a < b < r implies #[trigger] key.position(a)
        != #[trigger] key.position(b) by {
        replicas_lie_apart(ring, s, a, b);
    }
    lemma_first_points(key, r as int, r);
    assert forall|p: u128| ring.points_of(s).contains(p) <==> first_points(key, r as int).contains(
        p,
    ) by {
        if first_points(key, r as int).contains(p) {
            let w = choose|w: i32| 0 <= w < r && #[trigger] key.position(w) == p;
            assert(ring.index().contains(replica(ring.keys(), s, w)));
        }
    }
    assert(ring.points_of(s) =~= first_points(key, r as int));
}

/// A key that lies where a registered key lies is not admitted: `add_node`
/// refuses it and leaves the ring as it was.
pub proof fn registered_key_is_not_admitted<K: crate::Hash + Ord, V: Evict>(
    ring: &ConsistentHash<K, V>,
    key: K,
    s: int,
)
    requires
        ring.wf(),
        ring.slot_of(key, s),
    ensures
        !ring.admits(key),
{
    assert(ring.claims(key.position(0)));
}

/// A lookup above every position of the ring is routed to the key that holds
/// the lowest position.
pub proof fn query_above_all_wraps_to_lowest<K: crate::Hash + Ord, V: Evict>(
    ring: &ConsistentHash<K, V>,
    p: u128,
)
    requires
        ring.wf(),
        ring.keys().len() > 0,
        forall|q: u128| ring.claims(q) ==> q < p,
    ensures
        ring.index().len() > 0,
        ring.heir(p) == ring.index()[0].owner,
        forall|q: u128| ring.claims(q) ==> ring.index()[0].position <= q,
{
    let index = ring.index();
    crate::ring::lemma_layout_empty(ring.keys(), ring.replicas(), index);
    assert forall|i: int| 0 <= i < index.len() implies index[i].position < p by {
        ring.lemma_claims_is_held(index[i].position);
    }
    lemma_query_above_all_wraps(index, p);
    assert forall|q: u128| ring.claims(q) implies index[0].position <= q by {
        ring.lemma_claims_is_held(q);
    }
}

/// The keys and the replica count decide the index: two layouts of the same
/// keys are one.
pub proof fn layout_is_decided_by_keys<K: crate::Hash>(
    keys: Seq<K>,
    replicas: i32,
    a: Seq<VirtualNode>,
    b: Seq<VirtualNode>,
)
    requires
        lays_out(keys, replicas, a),
        lays_out(keys, replicas, b),
    ensures
        a == b,
{
    assert forall|x: VirtualNode| a.contains(x) <==> b.contains(x) by {
        if a.contains(x) || b.contains(x) {
            assert(x == replica(keys, x.owner as int, x.weight));
        }
    }
    lemma_same_nodes_same_sequence(a, b);
}

/// Adding a key moves lookups to the new key only: a query that is not routed
/// to the new key is routed where it was routed before.
pub proof fn added_key_takes_lookups_for_itself_only<K: crate::Hash + Ord, V: Evict>(
    before: &ConsistentHash<K, V>,
    after: &ConsistentHash<K, V>,
    key: K,
    p: u128,
)
    requires
        before.wf(),
        after.wf(),
        before.keys().len() > 0,
        after.replicas() == before.replicas(),
        after.keys() == before.keys().push(key),
    ensures
        after.heir(p) == before.keys().len() || after.heir(p) == before.heir(p),
{
    let keys = before.keys();
    let grown = after.keys();
    let r = before.replicas();
    let a = before.index();
    let b = after.index();
    crate::ring::lemma_layout_empty(grown, r, b);
    lemma_successor_resolves(b, p);
    let j = successor(b, p);
    let y = b[j];
    if y.owner != keys.len() {
        assert(y == replica(keys, y.owner as int, y.weight));
        let i = choose|i: int| 0 <= i < a.len() && a[i] == y;
        assert forall|k: int| 0 <= k < a.len() implies if a[i].position >= p {
            a[k].position >= p ==> a[i].position <= a[k].position
        } else {
            a[k].position < p && a[i].position <= a[k].position
        } by {
            let x = a[k];
            assert(x == replica(grown, x.owner as int, x.weight));
        }
        lemma_successor_resolves(a, p);
    }
}

/// Deleting a key moves only the lookups that were routed to it: a query
/// that was routed to another key stays with that key, whose slot moves down
/// by one where it lay above the deleted one.
pub proof fn deleted_key_gives_up_its_own_lookups_only<K: crate::Hash + Ord, V: Evict>(
    before: &ConsistentHash<K, V>,
    after: &ConsistentHash<K, V>,
    s: int,
    p: u128,
)
    requires
        before.wf(),
        after.wf(),
        0 <= s < before.keys().len(),
        after.replicas() == before.replicas(),
        after.keys() == before.keys().remove(s),
        before.heir(p) != s,
    ensures
        after.heir(p) == if before.heir(p) > s {
            before.heir(p) - 1
        } else {
            before.heir(p)
        },
{
    let keys = before.keys();
    let fewer = after.keys();
    let r = before.replicas();
    let a = before.index();
    let c = after.index();
    crate::ring::lemma_layout_empty(keys, r, a);
    lemma_successor_resolves(a, p);
    let j = successor(a, p);
    let y = a[j];
    let o = y.owner as int;
    let t = if o > s {
        o - 1
    } else {
        o
    };
    let z = replica(fewer, t, y.weight);
    assert(c.contains(z));
    let i = choose|i: int| 0 <= i < c.len() && c[i] == z;
    assert forall|k: int| 0 <= k < c.len() implies if c[i].position >= p {
        c[k].position >= p ==> c[i].position <= c[k].position
    } else {
        c[k].position < p && c[i].position <= c[k].position
    } by {
        let x = c[k];
        let u = if x.owner >= s {
            x.owner + 1
        } else {
            x.owner as int
        };
        assert(a.contains(replica(keys, u, x.weight)));
    }
    lemma_successor_resolves(c, p);
}

} // verus!
