//! The ring: registered keys, their values, and the index of their replicas.
//!
//! Each registered key has a slot. The slot holds the key's one value, and
//! every replica of the key in the index names the slot as its owner, so a
//! change made to the value through one position shows at all of them.
//!
//! The ring is an owned value. Adding and deleting a key take it by `&mut`,
//! lookups by `&`: no lookup runs while a key is half-way in or out.

use vstd::prelude::*;
use crate::error::RingError;
use crate::evict::Evict;
use crate::index::{
    ascending,
    holds,
    lowered,
    resolves_to,
    successor,
    PositionIndex,
    VirtualNode,
};

verus! {

/// The node that stands for replica `weight` of the key in slot `slot`.
pub open spec fn replica<K: crate::Hash>(keys: Seq<K>, slot: int, weight: i32) -> VirtualNode {
    VirtualNode { position: keys[slot].position(weight), owner: slot as usize, weight }
}

/// The node that stands for replica `weight` of `key`, were `key` in slot
/// `slot`.
pub open spec fn replica_of<K: crate::Hash>(key: K, slot: usize, weight: i32) -> VirtualNode {
    VirtualNode { position: key.position(weight), owner: slot, weight }
}

/// `node` is one of the first `count` replicas of `key` in slot `slot`.
pub open spec fn stems_from<K: crate::Hash>(
    node: VirtualNode,
    key: K,
    slot: usize,
    count: int,
) -> bool {
    &&& node.owner == slot
    &&& 0 <= node.weight < count
    &&& node.position == key.position(node.weight)
}

/// `node` is one of the replicas of the key in the slot that it names.
pub open spec fn anchored<K: crate::Hash>(keys: Seq<K>, replicas: i32, node: VirtualNode) -> bool {
    &&& node.owner < keys.len()
    &&& 0 <= node.weight < replicas
    &&& node.position == keys[node.owner as int].position(node.weight)
}

/// `index` holds, in ascending order, `replicas` replicas of each of `keys`
/// and nothing else.
pub open spec fn lays_out<K: crate::Hash>(
    keys: Seq<K>,
    replicas: i32,
    index: Seq<VirtualNode>,
) -> bool {
    &&& replicas > 0
    &&& keys.len() <= usize::MAX
    &&& ascending(index)
    &&& index.len() == replicas * keys.len()
    &&& forall|i: int| 0 <= i < index.len() ==> anchored(keys, replicas, #[trigger] index[i])
    &&& forall|s: int, w: i32|
        0 <= s < keys.len() && 0 <= w < replicas ==> index.contains(#[trigger] replica(keys, s, w))
}

/// A layout is empty exactly when no key is registered.
pub proof fn lemma_layout_empty<K: crate::Hash>(
    keys: Seq<K>,
    replicas: i32,
    index: Seq<VirtualNode>,
)
    requires
        lays_out(keys, replicas, index),
    ensures
        index.len() == 0 <==> keys.len() == 0,
{
    let r = replicas as int;
    let n = keys.len() as int;
    assert(r * n == 0 <==> n == 0) by (nonlinear_arith)
        requires
            r > 0,
            n >= 0,
    ;
}

/// In a layout, the node at a replica's position is that replica.
pub proof fn lemma_node_at_replica<K: crate::Hash>(
    keys: Seq<K>,
    replicas: i32,
    index: Seq<VirtualNode>,
    node: VirtualNode,
    s: int,
    w: i32,
)
    requires
        lays_out(keys, replicas, index),
        index.contains(node),
        0 <= s < keys.len(),
        0 <= w < replicas,
        node.position == keys[s].position(w),
    ensures
        node == replica(keys, s, w),
{
    assert(index.contains(replica(keys, s, w)));
}

/// What a deletion makes of the values. The value in slot `slot` leaves, and
/// the slots above it move down by one. Where no value is left, the deletion
/// ends in `NoRemainingNodes`. Otherwise the value in slot `heir`, counted
/// after the move, takes in what the leaving value evicts to; where it cannot,
/// it stays as it was and the deletion ends in `MergeRejected`.
pub open spec fn bequeaths<V: Evict>(
    before: Seq<V>,
    slot: int,
    heir: int,
    after: Seq<V>,
    res: Result<(), RingError>,
) -> bool {
    let rest = before.remove(slot);
    if rest.len() == 0 {
        after == rest && res == Err::<(), RingError>(RingError::NoRemainingNodes)
    } else {
        &&& 0 <= heir < rest.len()
        &&& after.len() == rest.len()
        &&& forall|i: int| 0 <= i < rest.len() && i != heir ==> after[i] == rest[i]
        &&& exists|legacy: V| #[trigger]
            before[slot].evicts_to(legacy) && if rest[heir].accepts(legacy) {
                res == Ok::<(), RingError>(()) && rest[heir].merges_to(legacy, after[heir])
            } else {
                res == Err::<(), RingError>(RingError::MergeRejected) && after[heir] == rest[heir]
            }
    }
}

/// A consistent-hashing ring over keys `K` with values `V`.
pub struct ConsistentHash<K, V> {
    index: PositionIndex,
    values: Vec<V>,
    replicas: i32,
    user_keys: Vec<K>,
}

impl<K: crate::Hash + Ord, V: Evict> ConsistentHash<K, V> {
    /// The number of positions that each key takes.
    pub closed spec fn replicas(&self) -> i32 {
        self.replicas
    }

    /// The registered keys, in the order in which they were added. The place
    /// of a key in this sequence is its slot.
    pub closed spec fn keys(&self) -> Seq<K> {
        self.user_keys@
    }

    /// The value of each registered key, by slot.
    pub closed spec fn values(&self) -> Seq<V> {
        self.values@
    }

    /// The replicas of all keys, in ascending order of position.
    pub closed spec fn index(&self) -> Seq<VirtualNode> {
        self.index@
    }

    /// Each key has one value, and the index holds all replicas of every key
    /// and nothing else.
    pub open spec fn wf(&self) -> bool {
        &&& self.values().len() == self.keys().len()
        &&& lays_out(self.keys(), self.replicas(), self.index())
    }

    /// The slot whose key inherits a query at `p`: the owner of the nearest
    /// successor of `p`.
    pub open spec fn heir(&self, p: u128) -> int {
        self.index()[successor(self.index(), p)].owner as int
    }

    /// Some replica of a registered key lies at `p`.
    pub open spec fn claims(&self, p: u128) -> bool {
        exists|s: int, w: i32|
            #![trigger self.keys()[s].position(w)]
            0 <= s < self.keys().len() && 0 <= w < self.replicas()
                && self.keys()[s].position(w) == p
    }

    /// The ring has room for `key`: its replicas lie at positions that differ
    /// from each other and that no registered key claims.
    pub open spec fn admits(&self, key: K) -> bool {
        &&& forall|w: i32| 0 <= w < self.replicas() ==> !self.claims(#[trigger] key.position(w))
        &&& forall|a: i32, b: i32|
            #![trigger key.position(a), key.position(b)]
            0 <= a < b < self.replicas() ==> key.position(a) != key.position(b)
    }

    /// `name` lies where the key in slot `s` lies: replica by replica, the two
    /// have the same position.
    pub open spec fn slot_of(&self, name: K, s: int) -> bool {
        &&& 0 <= s < self.keys().len()
        &&& forall|w: i32|
            #![trigger self.keys()[s].position(w)]
            #![trigger name.position(w)]
            0 <= w < self.replicas() ==> self.keys()[s].position(w) == name.position(w)
    }

    /// `name` is registered: it lies where the key of some slot lies.
    pub open spec fn registered(&self, name: K) -> bool {
        exists|s: int| self.slot_of(name, s)
    }

    /// A key lies in one slot at most.
    pub proof fn lemma_slot_is_unique(&self, name: K, s: int, t: int)
        requires
            self.wf(),
            self.slot_of(name, s),
            self.slot_of(name, t),
        ensures
            s == t,
    {
        // Both keys have a replica at the first position of `name`, and the
        // index holds one node there.
        assert(self.index().contains(replica(self.keys(), s, 0)));
        assert(self.index().contains(replica(self.keys(), t, 0)));
    }

    /// The positions at which the index holds a replica of the key in slot `s`.
    pub open spec fn points_of(&self, s: int) -> Set<u128> {
        Set::new(
            |p: u128|
                exists|i: int|
                    0 <= i < self.index().len() && (#[trigger] self.index()[i]).owner == s
                        && self.index()[i].position == p,
        )
    }

    /// The index holds a node at `p` exactly when a registered key claims `p`.
    pub proof fn lemma_claims_is_held(&self, p: u128)
        requires
            self.wf(),
        ensures
            self.claims(p) <==> holds(self.index(), p),
    {
        if self.claims(p) {
            let (s, w) = choose|s: int, w: i32|
                #![trigger self.keys()[s].position(w)]
                0 <= s < self.keys().len() && 0 <= w < self.replicas()
                    && self.keys()[s].position(w) == p;
            assert(self.index().contains(replica(self.keys(), s, w)));
        }
    }

    /// A ring without keys. The replica count must be positive.
    pub fn new(replicas: i32) -> (res: Result<Self, RingError>)
        ensures
            replicas <= 0 ==> (res matches Err(e) && e == RingError::InvalidReplicaCount),
            replicas > 0 ==> (res matches Ok(ring) && ring.wf() && ring.replicas() == replicas
                && ring.keys() == Seq::<K>::empty() && ring.values() == Seq::<V>::empty()
                && ring.index() == Seq::<VirtualNode>::empty()),
    {
        if replicas <= 0 {
            return Err(RingError::InvalidReplicaCount);
        }
        let ring = ConsistentHash {
            index: PositionIndex::new(),
            values: Vec::new(),
            replicas,
            user_keys: Vec::new(),
        };
        Ok(ring)
    }

    /// The stored position that a query at `name` resolves to: the lowest one
    /// at or above `name`, or the lowest of all where `name` lies above every
    /// stored position. `None` on a ring without keys.
    pub fn search_nearest(&self, name: u128) -> (found: Option<u128>)
        requires
            self.wf(),
        ensures
            self.keys().len() == 0 ==> found is None,
            self.keys().len() > 0 ==> ({
                let j = successor(self.index(), name);
                found == Some(self.index()[j].position) && resolves_to(self.index(), name, j)
            }),
    {
        proof {
            lemma_layout_empty(self.keys(), self.replicas(), self.index());
        }
        self.index.nearest_successor(name)
    }

    /// The value of the key that a lookup of `name` is routed to. `name` need
    /// not be registered. `None` on a ring without keys.
    pub fn get_node(&self, name: &K) -> (found: Option<&V>)
        requires
            self.wf(),
        ensures
            self.keys().len() == 0 ==> found is None,
            self.keys().len() > 0 ==> ({
                let heir = self.heir(name.position(0));
                0 <= heir < self.keys().len() && found == Some(&self.values()[heir])
            }),
    {
        proof {
            lemma_layout_empty(self.keys(), self.replicas(), self.index());
        }
        match self.index.successor_place(name.hash(0)) {
            Some(j) => {
                let node = self.index.at(j);
                Some(&self.values[node.owner])
            },
            None => None,
        }
    }

    /// As `get_node`, with leave to change the value. The change shows at
    /// every position of the key that holds the value.
    pub fn get_mut_node(&mut self, name: &K) -> (found: Option<&mut V>)
        requires
            old(self).wf(),
        ensures
            final(self).replicas() == old(self).replicas(),
            final(self).keys() == old(self).keys(),
            final(self).index() == old(self).index(),
            old(self).keys().len() == 0 ==> found is None && *final(self) == *old(self),
            old(self).keys().len() > 0 ==> ({
                let heir = old(self).heir(name.position(0));
                &&& 0 <= heir < old(self).keys().len()
                &&& found matches Some(value) && *value == old(self).values()[heir]
                    && final(self).values() == old(self).values().update(heir, *final(value))
            }),
    {
        proof {
            lemma_layout_empty(self.keys(), self.replicas(), self.index());
        }
        match self.index.successor_place(name.hash(0)) {
            Some(j) => {
                let node = self.index.at(j);
                Some(&mut self.values[node.owner])
            },
            None => None,
        }
    }

    /// The replicas of `key` as an index of their own, for a key that is to
    /// take slot `slot`. There is none where two of the replicas lie at one
    /// position.
    fn sprout(&self, key: &K, slot: usize) -> (res: Option<PositionIndex>)
        requires
            self.replicas() > 0,
        ensures
            res is None <==> exists|a: i32, b: i32|
                #![trigger key.position(a), key.position(b)]
                0 <= a < b < self.replicas() && key.position(a) == key.position(b),
            res matches Some(fresh) ==> {
                &&& fresh.wf()
                &&& fresh@.len() == self.replicas()
                &&& forall|i: int|
                    0 <= i < fresh@.len() ==> stems_from(
                        #[trigger] fresh@[i],
                        *key,
                        slot,
                        self.replicas() as int,
                    )
                &&& forall|v: i32|
                    0 <= v < self.replicas() ==> fresh@.contains(
                        #[trigger] replica_of(*key, slot, v),
                    )
            },
    {
        let mut fresh = PositionIndex::new();
        let mut w: i32 = 0;
        while w < self.replicas
            invariant
                0 <= w <= self.replicas,
                fresh.wf(),
                fresh@.len() == w,
                forall|i: int|
                    0 <= i < fresh@.len() ==> stems_from(#[trigger] fresh@[i], *key, slot, w as int),
                forall|v: i32| 0 <= v < w ==> fresh@.contains(#[trigger] replica_of(*key, slot, v)),
                forall|a: i32, b: i32|
                    #![trigger key.position(a), key.position(b)]
                    0 <= a < b < w ==> key.position(a) != key.position(b),
            decreases self.replicas - w,
        {
            let node = VirtualNode { position: key.hash(w), owner: slot, weight: w };
            let ghost before = fresh@;
            if fresh.insert(node).is_err() {
                return None;
            }
            proof {
                assert forall|i: int| 0 <= i < fresh@.len() implies stems_from(
                    #[trigger] fresh@[i],
                    *key,
                    slot,
                    w + 1,
                ) by {
                    assert(before.contains(fresh@[i]) || fresh@[i] == node);
                }
                assert forall|a: i32, b: i32|
                    #![trigger key.position(a), key.position(b)]
                    0 <= a < b < w + 1 implies key.position(a) != key.position(b) by {
                    if b == w {
                        assert(before.contains(replica_of(*key, slot, a)));
                    }
                }
            }
            w += 1;
        }
        Some(fresh)
    }

    /// Registers `key` with `value`. Either all replicas of the key enter the
    /// ring, or, where one of their positions is taken, none does.
    pub fn add_node(&mut self, key: K, value: V) -> (res: Result<(), RingError>)
        requires
            old(self).wf(),
        ensures
            final(self).wf(),
            final(self).replicas() == old(self).replicas(),
            old(self).admits(key) ==> res is Ok && final(self).keys() == old(self).keys().push(key)
                && final(self).values() == old(self).values().push(value),
            !old(self).admits(key) ==> (res matches Err(e) && e == RingError::NodeAlreadyExists)
                && *final(self) == *old(self),
    {
        let slot = self.user_keys.len();
        let fresh = match self.sprout(&key, slot) {
            Some(fresh) => fresh,
            None => {
                return Err(RingError::NodeAlreadyExists);
            },
        };
        let all = match self.index.union(&fresh) {
            Some(all) => all,
            None => {
                return Err(RingError::NodeAlreadyExists);
            },
        };
        proof {
            assert forall|v: i32| 0 <= v < self.replicas() implies !self.claims(
                #[trigger] key.position(v),
            ) by {
                if self.claims(key.position(v)) {
                    self.lemma_claims_is_held(key.position(v));
                    assert(fresh@.contains(replica_of(key, slot, v)));
                }
            }
        }
        self.index = all;
        self.user_keys.push(key);
        self.values.push(value);
        proof {
            assert(self.user_keys@.len() == self.user_keys.len());
            lemma_layout_grows(
                old(self).keys(),
                old(self).replicas(),
                old(self).index(),
                key,
                fresh@,
                self.index(),
            );
        }
        Ok(())
    }

    /// The slot of `name` and the positions of its replicas, if `name` is
    /// registered.
    fn trace(&self, name: &K) -> (found: Option<(usize, Vec<u128>)>)
        requires
            self.wf(),
        ensures
            found is None ==> !self.registered(*name),
            found matches Some((slot, points)) ==> {
                &&& self.slot_of(*name, slot as int)
                &&& points@.len() == self.replicas()
                &&& forall|w: i32|
                    0 <= w < self.replicas() ==> points@[w as int] == #[trigger] name.position(w)
            },
    {
        let mut points: Vec<u128> = Vec::new();
        let mut slot: usize = 0;
        let mut w: i32 = 0;
        while w < self.replicas
            invariant
                self.wf(),
                0 <= w <= self.replicas,
                points@.len() == w,
                w > 0 ==> slot < self.user_keys@.len(),
                forall|v: i32|
                    0 <= v < w ==> points@[v as int] == #[trigger] name.position(v)
                        && self.keys()[slot as int].position(v) == name.position(v),
            decreases self.replicas - w,
        {
            let p = name.hash(w);
            match self.index.find(p) {
                None => {
                    proof {
                        assert forall|s: int| !self.slot_of(*name, s) by {
                            if self.slot_of(*name, s) {
                                self.lemma_replica_is_held(*name, s, w);
                            }
                        }
                    }
                    return None;
                },
                Some(i) => {
                    let node = self.index.at(i);
                    if node.weight != w || (w > 0 && node.owner != slot) {
                        proof {
                            assert forall|s: int| !self.slot_of(*name, s) by {
                                if self.slot_of(*name, s) {
                                    lemma_node_at_replica(
                                        self.keys(),
                                        self.replicas(),
                                        self.index(),
                                        node,
                                        s,
                                        w,
                                    );
                                    if w > 0 {
                                        assert(self.index().contains(
                                            replica(self.keys(), slot as int, 0),
                                        ));
                                        assert(self.index().contains(replica(self.keys(), s, 0)));
                                    }
                                }
                            }
                        }
                        return None;
                    }
                    slot = node.owner;
                },
            }
            points.push(p);
            w += 1;
        }
        Some((slot, points))
    }

    /// The index holds each replica of a registered key.
    proof fn lemma_replica_is_held(&self, name: K, s: int, w: i32)
        requires
            self.wf(),
            self.slot_of(name, s),
            0 <= w < self.replicas(),
        ensures
            holds(self.index(), name.position(w)),
    {
        assert(self.index().contains(replica(self.keys(), s, w)));
    }

    /// The slot of `name`, if `name` is registered.
    pub fn locate(&self, name: &K) -> (slot: Option<usize>)
        requires
            self.wf(),
        ensures
            slot is None ==> !self.registered(*name),
            slot matches Some(s) ==> self.slot_of(*name, s as int),
    {
        match self.trace(name) {
            Some((slot, _)) => Some(slot),
            None => None,
        }
    }

    /// Takes the replicas of the key in slot `slot` out of the index, one by
    /// one. `points` are their positions. Keys and values stay; the ring is
    /// whole again once they have lost the slot too.
    fn uproot(&mut self, slot: usize, points: &Vec<u128>)
        requires
            old(self).wf(),
            slot < old(self).keys().len(),
            points@.len() == old(self).replicas(),
            forall|w: i32|
                #![trigger old(self).keys()[slot as int].position(w)]
                0 <= w < old(self).replicas() ==> points@[w as int]
                    == old(self).keys()[slot as int].position(w),
        ensures
            final(self).replicas() == old(self).replicas(),
            final(self).keys() == old(self).keys(),
            final(self).values() == old(self).values(),
            ascending(final(self).index()),
            final(self).index().len() == old(self).index().len() - old(self).replicas(),
            forall|x: VirtualNode|
                #![trigger final(self).index().contains(x)]
                #![trigger old(self).index().contains(x)]
                final(self).index().contains(x) <==> old(self).index().contains(x) && x.owner
                    != slot,
    {
        let ghost keys = self.keys();
        let ghost index = self.index();
        let mut v: usize = 0;
        while v < points.len()
            invariant
                v <= points@.len(),
                points@.len() == self.replicas,
                self.replicas == old(self).replicas,
                self.user_keys@ == keys,
                self.values@ == old(self).values@,
                lays_out(keys, self.replicas, index),
                slot < keys.len(),
                forall|w: i32|
                    0 <= w < self.replicas ==> points@[w as int]
                        == #[trigger] keys[slot as int].position(w),
                self.index.wf(),
                self.index@.len() == index.len() - v,
                forall|x: VirtualNode|
                    #![trigger self.index@.contains(x)]
                    #![trigger index.contains(x)]
                    self.index@.contains(x) <==> index.contains(x) && !(x.owner == slot
                        && x.weight < v),
            decreases points@.len() - v,
        {
            let p = points[v];
            proof {
                assert(self.index@.contains(replica(keys, slot as int, v as i32)));
            }
            let removed = self.index.remove(p);
            assert(removed is Ok);
            v += 1;
        }
    }

    /// Takes `name` and all its replicas out of the ring and folds its value
    /// into that of its heir: the key that a lookup of `name` is routed to
    /// once `name` is gone. A ring that does not hold `name` is left as it was.
    pub fn delete_node(&mut self, name: &K) -> (res: Result<(), RingError>)
        requires
            old(self).wf(),
        ensures
            final(self).wf(),
            final(self).replicas() == old(self).replicas(),
            !old(self).registered(*name) ==> (res matches Err(e) && e == RingError::NodeNotFound)
                && *final(self) == *old(self),
            forall|s: int|
                old(self).slot_of(*name, s) ==> ({
                    let heir = final(self).heir(name.position(0));
                    &&& final(self).keys() == old(self).keys().remove(s)
                    &&& bequeaths(old(self).values(), s, heir, final(self).values(), res)
                }),
            old(self).registered(*name) && old(self).keys().len() == 1 ==> (res matches Err(e)
                && e == RingError::NoRemainingNodes) && final(self).keys().len() == 0
                && final(self).index().len() == 0,
            res matches Err(e) ==> e == RingError::NodeNotFound || e == RingError::NoRemainingNodes
                || e == RingError::MergeRejected,
    {
        let (slot, points) = match self.trace(name) {
            Some(found) => found,
            None => {
                return Err(RingError::NodeNotFound);
            },
        };
        let ghost keys = self.keys();
        let ghost index = self.index();
        proof {
            assert forall|s: int| self.slot_of(*name, s) implies s == slot by {
                self.lemma_slot_is_unique(*name, s, slot as int);
            }
        }
        let primary = points[0];
        self.uproot(slot, &points);
        let evicted = self.values.remove(slot);
        let _ = self.user_keys.remove(slot);
        let ghost thinned = self.index@;
        self.index.close_gap(slot);
        proof {
            lemma_layout_shrinks(keys, self.replicas, index, slot, thinned, self.index@);
            lemma_layout_empty(self.keys(), self.replicas(), self.index());
        }
        match self.index.successor_place(primary) {
            None => Err(RingError::NoRemainingNodes),
            Some(j) => {
                let heir = self.index.at(j).owner;
                let legacy = evicted.evict();
                assert(old(self).values()[slot as int].evicts_to(legacy));
                match self.values[heir].merge(legacy) {
                    Ok(()) => Ok(()),
                    Err(_) => Err(RingError::MergeRejected),
                }
            },
        }
    }

    /// The registered keys with their values, in the order in which the keys
    /// were added.
    pub fn enumerate(&self) -> (listing: Vec<(&K, &V)>)
        requires
            self.wf(),
        ensures
            listing@.len() == self.keys().len(),
            forall|i: int|
                0 <= i < listing@.len() ==> *(#[trigger] listing@[i]).0 == self.keys()[i]
                    && *listing@[i].1 == self.values()[i],
    {
        let mut listing: Vec<(&K, &V)> = Vec::new();
        let mut i: usize = 0;
        while i < self.user_keys.len()
            invariant
                i <= self.user_keys@.len(),
                self.values@.len() == self.user_keys@.len(),
                listing@.len() == i,
                forall|k: int|
                    0 <= k < i ==> *(#[trigger] listing@[k]).0 == self.user_keys@[k]
                        && *listing@[k].1 == self.values@[k],
            decreases self.user_keys@.len() - i,
        {
            listing.push((&self.user_keys[i], &self.values[i]));
            i += 1;
        }
        listing
    }

    /// Every position of the ring with the value that it leads to, in
    /// ascending order of position.
    pub fn placements(&self) -> (listing: Vec<(u128, &V)>)
        requires
            self.wf(),
        ensures
            listing@.len() == self.index().len(),
            forall|i: int|
                0 <= i < listing@.len() ==> (#[trigger] listing@[i]).0 == self.index()[i].position
                    && *listing@[i].1 == self.values()[self.index()[i].owner as int],
    {
        let mut listing: Vec<(u128, &V)> = Vec::new();
        let mut i: usize = 0;
        while i < self.index.len()
            invariant
                self.wf(),
                i <= self.index@.len(),
                listing@.len() == i,
                forall|k: int|
                    0 <= k < i ==> (#[trigger] listing@[k]).0 == self.index@[k].position
                        && *listing@[k].1 == self.values@[self.index@[k].owner as int],
            decreases self.index@.len() - i,
        {
            let node = self.index.at(i);
            listing.push((node.position, &self.values[node.owner]));
            i += 1;
        }
        listing
    }

    /// The number of positions that each key takes.
    pub fn replica_count(&self) -> (r: i32)
        ensures
            r == self.replicas(),
    {
        self.replicas
    }

    /// The registered keys, in the order in which they were added.
    pub fn user_keys(&self) -> (keys: &Vec<K>)
        ensures
            keys@ == self.keys(),
    {
        &self.user_keys
    }

    /// The number of registered keys.
    pub fn len(&self) -> (n: usize)
        ensures
            n == self.keys().len(),
    {
        self.user_keys.len()
    }

    /// Whether no key is registered.
    pub fn is_empty(&self) -> (empty: bool)
        ensures
            empty <==> self.keys().len() == 0,
    {
        self.user_keys.len() == 0
    }

    /// The number of positions on the ring: the replica count for each
    /// registered key.
    pub fn position_count(&self) -> (n: usize)
        requires
            self.wf(),
        ensures
            n == self.replicas() * self.keys().len(),
    {
        self.index.len()
    }
}

/// A layout with the replicas of one more key merged in is the layout of the
/// keys with that key appended.
proof fn lemma_layout_grows<K: crate::Hash>(
    keys: Seq<K>,
    replicas: i32,
    index: Seq<VirtualNode>,
    key: K,
    fresh: Seq<VirtualNode>,
    all: Seq<VirtualNode>,
)
    requires
        lays_out(keys, replicas, index),
        keys.len() < usize::MAX,
        ascending(all),
        fresh.len() == replicas,
        all.len() == index.len() + fresh.len(),
        forall|x: VirtualNode|
            #![trigger all.contains(x)]
            #![trigger index.contains(x)]
            #![trigger fresh.contains(x)]
            all.contains(x) <==> index.contains(x) || fresh.contains(x),
        forall|i: int|
            0 <= i < fresh.len() ==> stems_from(
                #[trigger] fresh[i],
                key,
                keys.len() as usize,
                replicas as int,
            ),
        forall|v: i32|
            0 <= v < replicas ==> fresh.contains(
                #[trigger] replica_of(key, keys.len() as usize, v),
            ),
    ensures
        lays_out(keys.push(key), replicas, all),
{
    let grown = keys.push(key);
    let r = replicas as int;
    let n = keys.len() as int;
    assert(r * n + r == r * (n + 1)) by (nonlinear_arith);
    assert forall|i: int| 0 <= i < all.len() implies anchored(grown, replicas, #[trigger] all[i]) by {
        assert(index.contains(all[i]) || fresh.contains(all[i]));
    }
    assert forall|s: int, w: i32| 0 <= s < grown.len() && 0 <= w < replicas implies all.contains(
        #[trigger] replica(grown, s, w),
    ) by {
        if s < keys.len() {
            assert(index.contains(replica(keys, s, w)));
        } else {
            assert(replica(grown, s, w) == replica_of(key, keys.len() as usize, w));
        }
    }
}

/// A layout from which the replicas of one slot are gone, with the owners
/// above that slot moved down by one, is the layout of the keys without the
/// key of that slot.
proof fn lemma_layout_shrinks<K: crate::Hash>(
    keys: Seq<K>,
    replicas: i32,
    index: Seq<VirtualNode>,
    slot: usize,
    thinned: Seq<VirtualNode>,
    closed: Seq<VirtualNode>,
)
    requires
        lays_out(keys, replicas, index),
        slot < keys.len(),
        thinned.len() == index.len() - replicas,
        forall|x: VirtualNode|
            #![trigger thinned.contains(x)]
            #![trigger index.contains(x)]
            thinned.contains(x) <==> index.contains(x) && x.owner != slot,
        ascending(closed),
        closed.len() == thinned.len(),
        forall|i: int| 0 <= i < thinned.len() ==> closed[i] == lowered(thinned[i], slot),
    ensures
        lays_out(keys.remove(slot as int), replicas, closed),
{
    let fewer = keys.remove(slot as int);
    let r = replicas as int;
    let n = keys.len() as int;
    assert(r * n - r == r * (n - 1)) by (nonlinear_arith);
    assert forall|i: int| 0 <= i < closed.len() implies anchored(
        fewer,
        replicas,
        #[trigger] closed[i],
    ) by {
        assert(thinned.contains(thinned[i]));
    }
    assert forall|s: int, w: i32| 0 <= s < fewer.len() && 0 <= w < replicas implies closed.contains(
        #[trigger] replica(fewer, s, w),
    ) by {
        let o = if s < slot {
            s
        } else {
            s + 1
        };
        let x = replica(keys, o, w);
        assert(thinned.contains(x));
        let i = choose|i: int| 0 <= i < thinned.len() && thinned[i] == x;
        assert(closed[i] == replica(fewer, s, w));
    }
}

} // verus!
