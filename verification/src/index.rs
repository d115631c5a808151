//! The position index: the points of the ring in ascending order.

use vstd::prelude::*;
use crate::error::RingError;

verus! {

/// One point of the ring: replica `weight` of the key in slot `owner`.
#[derive(Clone, Copy, Debug, PartialEq, Eq, Structural)]
pub struct VirtualNode {
    pub position: u128,
    pub owner: usize,
    pub weight: i32,
}

/// Positions grow strictly from each node to the next.
pub open spec fn ascending(s: Seq<VirtualNode>) -> bool {
    forall|i: int, j: int| 0 <= i < j < s.len() ==> s[i].position < s[j].position
}

/// Some node of `s` lies at `p`.
pub open spec fn holds(s: Seq<VirtualNode>, p: u128) -> bool {
    exists|i: int| 0 <= i < s.len() && s[i].position == p
}

/// The first `r` nodes lie below `p`, all the others at or above it.
pub open spec fn splits_at(s: Seq<VirtualNode>, p: u128, r: int) -> bool {
    &&& 0 <= r <= s.len()
    &&& forall|i: int| 0 <= i < r ==> s[i].position < p
    &&& forall|i: int| r <= i < s.len() ==> s[i].position >= p
}

/// How many nodes of an ascending `s` lie below `p`.
pub open spec fn rank(s: Seq<VirtualNode>, p: u128) -> int {
    choose|r: int| splits_at(s, p, r)
}

/// The place in a non-empty ascending `s` that a query at `p` resolves to: the
/// first node at or above `p`, or, where there is none, the first node of all.
pub open spec fn successor(s: Seq<VirtualNode>, p: u128) -> int {
    if rank(s, p) < s.len() {
        rank(s, p)
    } else {
        0
    }
}

/// Node `j` is the nearest successor of `p` on the circle: the lowest node at
/// or above `p`, or, where every node lies below `p`, the lowest node of all.
pub open spec fn resolves_to(s: Seq<VirtualNode>, p: u128, j: int) -> bool {
    &&& 0 <= j < s.len()
    &&& forall|i: int|
        0 <= i < s.len() ==> if s[j].position >= p {
            s[i].position >= p ==> s[j].position <= s[i].position
        } else {
            s[i].position < p && s[j].position <= s[i].position
        }
}

/// Some node of `a` and some node of `b` lie at one position.
pub open spec fn collide(a: Seq<VirtualNode>, b: Seq<VirtualNode>) -> bool {
    exists|i: int, j: int| 0 <= i < a.len() && 0 <= j < b.len() && a[i].position == b[j].position
}

/// `node` as it reads once slot `slot` is gone and the slots above it have
/// moved down by one.
pub open spec fn lowered(node: VirtualNode, slot: usize) -> VirtualNode {
    if node.owner > slot {
        VirtualNode { position: node.position, owner: (node.owner - 1) as usize, weight: node.weight }
    } else {
        node
    }
}

/// The points of the ring, in ascending order of position.
pub struct PositionIndex {
    nodes: Vec<VirtualNode>,
}

impl View for PositionIndex {
    type V = Seq<VirtualNode>;

    closed spec fn view(&self) -> Seq<VirtualNode> {
        self.nodes@
    }
}

impl PositionIndex {
    /// The index is sorted and holds no position twice.
    pub open spec fn wf(&self) -> bool {
        ascending(self@)
    }

    /// An index without nodes.
    pub fn new() -> (index: Self)
        ensures
            index.wf(),
            index@ == Seq::<VirtualNode>::empty(),
    {
        PositionIndex { nodes: Vec::new() }
    }

    /// The number of nodes below `position`: the place where a node at
    /// `position` stands or would be inserted.
    pub fn lower_bound(&self, position: u128) -> (r: usize)
        requires
            self.wf(),
        ensures
            r == rank(self@, position),
            splits_at(self@, position, r as int),
    {
        let mut lo: usize = 0;
        let mut hi: usize = self.nodes.len();
        while lo < hi
            invariant
                lo <= hi <= self.nodes@.len(),
                forall|i: int| 0 <= i < lo ==> self.nodes@[i].position < position,
                forall|i: int| hi <= i < self.nodes@.len() ==> self.nodes@[i].position >= position,
                ascending(self.nodes@),
            decreases hi - lo,
        {
            let mid: usize = lo + (hi - lo) / 2;
            if self.nodes[mid].position < position {
                lo = mid + 1;
            } else {
                hi = mid;
            }
        }
        proof {
            lemma_rank_is(self@, position, lo as int);
        }
        lo
    }

    /// The number of nodes.
    pub fn len(&self) -> (n: usize)
        ensures
            n == self@.len(),
    {
        self.nodes.len()
    }

    /// Whether the index holds no node.
    pub fn is_empty(&self) -> (empty: bool)
        ensures
            empty <==> self@.len() == 0,
    {
        self.nodes.len() == 0
    }

    /// The node at place `i`, counted from the lowest position.
    pub fn get(&self, i: usize) -> (node: Option<VirtualNode>)
        ensures
            i < self@.len() ==> node == Some(self@[i as int]),
            i >= self@.len() ==> node is None,
    {
        if i < self.nodes.len() {
            Some(self.nodes[i])
        } else {
            None
        }
    }

    /// The node at place `i`.
    pub(crate) fn at(&self, i: usize) -> (node: VirtualNode)
        requires
            i < self@.len(),
        ensures
            node == self@[i as int],
    {
        self.nodes[i]
    }

    /// The place of the node at `position`, if the index holds one.
    pub fn find(&self, position: u128) -> (place: Option<usize>)
        requires
            self.wf(),
        ensures
            holds(self@, position) ==> ({
                &&& place matches Some(r)
                &&& r == rank(self@, position)
                &&& r < self@.len()
                &&& self@[r as int].position == position
            }),
            !holds(self@, position) ==> place is None,
    {
        let r = self.lower_bound(position);
        if r < self.nodes.len() && self.nodes[r].position == position {
            Some(r)
        } else {
            None
        }
    }

    /// Whether the index holds a node at `position`.
    pub fn contains(&self, position: u128) -> (held: bool)
        requires
            self.wf(),
        ensures
            held == holds(self@, position),
    {
        self.find(position).is_some()
    }

    /// The place of the node that a query at `position` resolves to.
    pub fn successor_place(&self, position: u128) -> (place: Option<usize>)
        requires
            self.wf(),
        ensures
            self@.len() == 0 ==> place is None,
            self@.len() > 0 ==> ({
                &&& place matches Some(j)
                &&& j == successor(self@, position)
                &&& resolves_to(self@, position, j as int)
            }),
    {
        if self.nodes.len() == 0 {
            return None;
        }
        let r = self.lower_bound(position);
        if r < self.nodes.len() {
            Some(r)
        } else {
            Some(0)
        }
    }

    /// The lowest stored position at or above `position`; where every stored
    /// position lies below it, the lowest stored position of all.
    pub fn nearest_successor(&self, position: u128) -> (found: Option<u128>)
        requires
            self.wf(),
        ensures
            self@.len() == 0 ==> found is None,
            self@.len() > 0 ==> ({
                let j = successor(self@, position);
                found == Some(self@[j].position) && resolves_to(self@, position, j)
            }),
    {
        match self.successor_place(position) {
            Some(j) => Some(self.nodes[j].position),
            None => None,
        }
    }

    /// Puts `node` in its place, unless its position is taken.
    pub fn insert(&mut self, node: VirtualNode) -> (res: Result<(), RingError>)
        requires
            old(self).wf(),
        ensures
            final(self).wf(),
            holds(old(self)@, node.position) ==> (res matches Err(e) && e
                == RingError::DuplicateVirtualNode) && final(self)@ == old(self)@,
            !holds(old(self)@, node.position) ==> res is Ok && final(self)@ == old(self)@.insert(
                rank(old(self)@, node.position),
                node,
            ),
            res is Ok ==> final(self)@.len() == old(self)@.len() + 1,
            res is Ok ==> forall|x: VirtualNode|
                #![trigger final(self)@.contains(x)]
                #![trigger old(self)@.contains(x)]
                final(self)@.contains(x) <==> old(self)@.contains(x) || x == node,
    {
        let r = self.lower_bound(node.position);
        if r < self.nodes.len() && self.nodes[r].position == node.position {
            return Err(RingError::DuplicateVirtualNode);
        }
        self.nodes.insert(r, node);
        proof {
            lemma_insert_contains(old(self)@, r as int, node);
        }
        Ok(())
    }

    /// Takes out the node at `position` and hands it back. An index that does
    /// not hold the position is left as it was.
    pub fn remove(&mut self, position: u128) -> (res: Result<VirtualNode, RingError>)
        requires
            old(self).wf(),
        ensures
            final(self).wf(),
            holds(old(self)@, position) ==> ({
                let r = rank(old(self)@, position);
                &&& r < old(self)@.len()
                &&& res matches Ok(node) && node == old(self)@[r]
                &&& final(self)@ == old(self)@.remove(r)
            }),
            !holds(old(self)@, position) ==> (res matches Err(e) && e
                == RingError::ConsistencyViolation) && final(self)@ == old(self)@,
            res is Ok ==> final(self)@.len() == old(self)@.len() - 1,
            res is Ok ==> forall|x: VirtualNode|
                #![trigger final(self)@.contains(x)]
                #![trigger old(self)@.contains(x)]
                final(self)@.contains(x) <==> old(self)@.contains(x) && x.position != position,
    {
        let r = self.lower_bound(position);
        if r < self.nodes.len() && self.nodes[r].position == position {
            let node = self.nodes.remove(r);
            proof {
                lemma_remove_contains(old(self)@, r as int);
            }
            Ok(node)
        } else {
            Err(RingError::ConsistencyViolation)
        }
    }

    /// The two indexes as one, unless a position of one is taken in the other.
    pub fn union(&self, other: &PositionIndex) -> (res: Option<PositionIndex>)
        requires
            self.wf(),
            other.wf(),
        ensures
            collide(self@, other@) <==> res is None,
            res matches Some(all) ==> {
                &&& all.wf()
                &&& all@.len() == self@.len() + other@.len()
                &&& forall|x: VirtualNode|
                    #![trigger all@.contains(x)]
                    #![trigger self@.contains(x)]
                    #![trigger other@.contains(x)]
                    all@.contains(x) <==> self@.contains(x) || other@.contains(x)
            },
    {
        let mut out: Vec<VirtualNode> = Vec::new();
        let mut i: usize = 0;
        let mut j: usize = 0;
        while i < self.nodes.len() || j < other.nodes.len()
            invariant
                i <= self.nodes@.len(),
                j <= other.nodes@.len(),
                ascending(self.nodes@),
                ascending(other.nodes@),
                ascending(out@),
                out@.len() == i + j,
                forall|k: int|
                    0 <= k < out@.len() && i < self.nodes@.len() ==> out@[k].position
                        < self.nodes@[i as int].position,
                forall|k: int|
                    0 <= k < out@.len() && j < other.nodes@.len() ==> out@[k].position
                        < other.nodes@[j as int].position,
                forall|x: VirtualNode|
                    out@.contains(x) <==> self.nodes@.take(i as int).contains(x)
                        || other.nodes@.take(j as int).contains(x),
                forall|k: int, l: int|
                    0 <= k < i && 0 <= l < other.nodes@.len() ==> self.nodes@[k].position
                        != other.nodes@[l].position,
                forall|k: int, l: int|
                    0 <= k < self.nodes@.len() && 0 <= l < j ==> self.nodes@[k].position
                        != other.nodes@[l].position,
            decreases self.nodes@.len() - i + other.nodes@.len() - j,
        {
            let ghost before = out@;
            if j == other.nodes.len() || (i < self.nodes.len() && self.nodes[i].position
                < other.nodes[j].position) {
                let node = self.nodes[i];
                out.push(node);
                proof {
                    assert(self.nodes@.take(i + 1) == self.nodes@.take(i as int).push(node));
                    assert forall|x: VirtualNode|
                        out@.contains(x) <==> self.nodes@.take(i + 1).contains(x)
                            || other.nodes@.take(j as int).contains(x) by {
                        vstd::seq_lib::lemma_seq_contains_after_push(before, node, x);
                        vstd::seq_lib::lemma_seq_contains_after_push(
                            self.nodes@.take(i as int),
                            node,
                            x,
                        );
                    }
                }
                i += 1;
            } else if i == self.nodes.len() || other.nodes[j].position < self.nodes[i].position {
                let node = other.nodes[j];
                out.push(node);
                proof {
                    assert(other.nodes@.take(j + 1) == other.nodes@.take(j as int).push(node));
                    assert forall|x: VirtualNode|
                        out@.contains(x) <==> self.nodes@.take(i as int).contains(x)
                            || other.nodes@.take(j + 1).contains(x) by {
                        vstd::seq_lib::lemma_seq_contains_after_push(before, node, x);
                        vstd::seq_lib::lemma_seq_contains_after_push(
                            other.nodes@.take(j as int),
                            node,
                            x,
                        );
                    }
                }
                j += 1;
            } else {
                return None;
            }
        }
        proof {
            assert(self.nodes@.take(i as int) == self.nodes@);
            assert(other.nodes@.take(j as int) == other.nodes@);
        }
        Some(PositionIndex { nodes: out })
    }

    /// Renumbers the owners after slot `slot` has been vacated: every owner
    /// above it moves down by one.
    pub fn close_gap(&mut self, slot: usize)
        requires
            old(self).wf(),
        ensures
            final(self).wf(),
            final(self)@.len() == old(self)@.len(),
            forall|i: int|
                0 <= i < old(self)@.len() ==> final(self)@[i] == lowered(old(self)@[i], slot),
    {
        let n = self.nodes.len();
        let mut i: usize = 0;
        while i < n
            invariant
                i <= n,
                n == self.nodes@.len(),
                n == old(self).nodes@.len(),
                forall|k: int| 0 <= k < i ==> self.nodes@[k] == lowered(old(self).nodes@[k], slot),
                forall|k: int| i <= k < n ==> self.nodes@[k] == old(self).nodes@[k],
                ascending(old(self).nodes@),
            decreases n - i,
        {
            let node = self.nodes[i];
            if node.owner > slot {
                self.nodes[i] = VirtualNode {
                    position: node.position,
                    owner: node.owner - 1,
                    weight: node.weight,
                };
            }
            i += 1;
        }
    }
}

/// A sequence splits at one place only.
pub proof fn lemma_rank_is(s: Seq<VirtualNode>, p: u128, r: int)
    requires
        splits_at(s, p, r),
    ensures
        rank(s, p) == r,
{
    let c = rank(s, p);
    if c < r {
        assert(s[c].position < p);
    } else if r < c {
        assert(s[r].position < p);
    }
}

/// In an ascending sequence, `successor` is the nearest successor of the
/// query, and nothing else is.
pub proof fn lemma_successor_resolves(s: Seq<VirtualNode>, p: u128)
    requires
        ascending(s),
        s.len() > 0,
    ensures
        resolves_to(s, p, successor(s, p)),
        forall|j: int| resolves_to(s, p, j) ==> j == successor(s, p),
{
    lemma_rank_exists(s, p);
    let t = successor(s, p);
    assert forall|j: int| resolves_to(s, p, j) implies j == t by {
        if j != t {
            assert(s[j].position != s[t].position);
        }
    }
}

/// Every sequence in ascending order splits somewhere.
pub proof fn lemma_rank_exists(s: Seq<VirtualNode>, p: u128)
    requires
        ascending(s),
    ensures
        splits_at(s, p, rank(s, p)),
    decreases s.len(),
{
    if s.len() == 0 {
        assert(splits_at(s, p, 0));
    } else {
        let front = s.drop_last();
        lemma_rank_exists(front, p);
        let r = rank(front, p);
        if s.last().position < p {
            assert(splits_at(s, p, s.len() as int));
        } else {
            assert forall|i: int| r <= i < s.len() implies s[i].position >= p by {
                if i < s.len() - 1 {
                    assert(front[i].position >= p);
                }
            }
            assert forall|i: int| 0 <= i < r implies s[i].position < p by {
                assert(front[i].position < p);
            }
            assert(splits_at(s, p, r));
        }
    }
}

/// A query above every position of a non-empty index wraps round to the
/// first node, which holds the lowest position of all.
pub proof fn lemma_query_above_all_wraps(s: Seq<VirtualNode>, p: u128)
    requires
        ascending(s),
        s.len() > 0,
        forall|i: int| 0 <= i < s.len() ==> s[i].position < p,
    ensures
        successor(s, p) == 0,
        forall|i: int| 0 <= i < s.len() ==> s[0].position <= (#[trigger] s[i]).position,
{
    lemma_rank_is(s, p, s.len() as int);
}

/// A query at a stored position resolves to the node at that position.
pub proof fn lemma_query_at_node_stays(s: Seq<VirtualNode>, k: int)
    requires
        ascending(s),
        0 <= k < s.len(),
    ensures
        successor(s, s[k].position) == k,
{
    lemma_rank_is(s, s[k].position, k);
}

/// Two ascending sequences that hold the same nodes are one sequence.
pub proof fn lemma_same_nodes_same_sequence(a: Seq<VirtualNode>, b: Seq<VirtualNode>)
    requires
        ascending(a),
        ascending(b),
        a.len() == b.len(),
        forall|x: VirtualNode| a.contains(x) <==> b.contains(x),
    ensures
        a == b,
{
    lemma_same_prefix(a, b, a.len() as int);
}

/// Two ascending sequences that hold the same nodes agree on their first `n`
/// places.
proof fn lemma_same_prefix(a: Seq<VirtualNode>, b: Seq<VirtualNode>, n: int)
    requires
        ascending(a),
        ascending(b),
        a.len() == b.len(),
        forall|x: VirtualNode| a.contains(x) <==> b.contains(x),
        0 <= n <= a.len(),
    ensures
        forall|i: int| 0 <= i < n ==> a[i] == b[i],
    decreases n,
{
    if n > 0 {
        lemma_same_prefix(a, b, n - 1);
        let i = n - 1;
        assert(a.contains(a[i]));
        assert(b.contains(b[i]));
        let j = choose|j: int| 0 <= j < b.len() && b[j] == a[i];
        let k = choose|k: int| 0 <= k < a.len() && a[k] == b[i];
        // Were a[i] elsewhere in b, or b[i] elsewhere in a, one of the two
        // sequences would not ascend.
        assert(j == i && k == i);
    }
}

/// What a sequence holds once `node` has been put in at place `r`.
pub proof fn lemma_insert_contains(s: Seq<VirtualNode>, r: int, node: VirtualNode)
    requires
        0 <= r <= s.len(),
    ensures
        s.insert(r, node).len() == s.len() + 1,
        forall|x: VirtualNode|
            #![trigger s.insert(r, node).contains(x)]
            #![trigger s.contains(x)]
            s.insert(r, node).contains(x) <==> s.contains(x) || x == node,
{
    let t = s.insert(r, node);
    s.insert_ensures(r, node);
    assert forall|x: VirtualNode| t.contains(x) <==> s.contains(x) || x == node by {
        if s.contains(x) {
            let i = choose|i: int| 0 <= i < s.len() && s[i] == x;
            assert(t[if i < r { i } else { i + 1 }] == x);
        }
    }
}

/// What an ascending sequence holds once the node at place `r` is gone.
pub proof fn lemma_remove_contains(s: Seq<VirtualNode>, r: int)
    requires
        ascending(s),
        0 <= r < s.len(),
    ensures
        ascending(s.remove(r)),
        s.remove(r).len() == s.len() - 1,
        forall|x: VirtualNode|
            #![trigger s.remove(r).contains(x)]
            #![trigger s.contains(x)]
            s.remove(r).contains(x) <==> s.contains(x) && x.position != s[r].position,
{
    let t = s.remove(r);
    assert forall|x: VirtualNode| t.contains(x) <==> s.contains(x) && x.position
        != s[r].position by {
        if s.contains(x) && x.position != s[r].position {
            let i = choose|i: int| 0 <= i < s.len() && s[i] == x;
            assert(t[if i < r { i } else { i - 1 }] == x);
        }
    }
}

} // verus!
