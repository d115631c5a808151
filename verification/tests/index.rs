use consistent_hash::PositionIndex;
use consistent_hash::RingError;
use consistent_hash::VirtualNode;

fn node(position: u128, owner: usize, weight: i32) -> VirtualNode {
    VirtualNode { position, owner, weight }
}

fn index_of(nodes: &[VirtualNode]) -> PositionIndex {
    let mut index = PositionIndex::new();
    for n in nodes {
        index.insert(*n).unwrap();
    }
    index
}

fn contents(index: &PositionIndex) -> Vec<VirtualNode> {
    (0..index.len()).map(|i| index.get(i).unwrap()).collect()
}

#[test]
fn new_index_is_empty() {
    let index = PositionIndex::new();
    assert_eq!(index.len(), 0);
    assert!(index.is_empty());
    assert_eq!(index.get(0), None);
    assert_eq!(index.nearest_successor(5), None);
    assert_eq!(index.successor_place(5), None);
    assert_eq!(index.find(5), None);
    assert!(!index.contains(5));
    assert_eq!(index.lower_bound(5), 0);
}

#[test]
fn insert_keeps_ascending_order() {
    let index = index_of(&[node(30, 0, 0), node(10, 1, 0), node(20, 2, 0), node(5, 3, 1)]);
    assert_eq!(
        contents(&index),
        vec![node(5, 3, 1), node(10, 1, 0), node(20, 2, 0), node(30, 0, 0)]
    );
    assert_eq!(index.len(), 4);
    assert!(!index.is_empty());
    assert_eq!(index.get(4), None);
}

#[test]
fn insert_refuses_a_taken_position() {
    let mut index = index_of(&[node(10, 0, 0), node(20, 1, 0)]);
    assert_eq!(index.insert(node(20, 5, 3)), Err(RingError::DuplicateVirtualNode));
    assert_eq!(index.insert(node(10, 0, 0)), Err(RingError::DuplicateVirtualNode));
    assert_eq!(contents(&index), vec![node(10, 0, 0), node(20, 1, 0)]);
}

#[test]
fn remove_hands_back_the_node() {
    let mut index = index_of(&[node(10, 0, 0), node(20, 1, 0), node(30, 2, 0)]);
    assert_eq!(index.remove(20), Ok(node(20, 1, 0)));
    assert_eq!(contents(&index), vec![node(10, 0, 0), node(30, 2, 0)]);
    assert_eq!(index.remove(10), Ok(node(10, 0, 0)));
    assert_eq!(index.remove(30), Ok(node(30, 2, 0)));
    assert!(index.is_empty());
}

#[test]
fn remove_of_an_absent_position_is_a_violation() {
    let mut index = index_of(&[node(10, 0, 0), node(30, 2, 0)]);
    assert_eq!(index.remove(20), Err(RingError::ConsistencyViolation));
    assert_eq!(index.remove(0), Err(RingError::ConsistencyViolation));
    assert_eq!(index.remove(31), Err(RingError::ConsistencyViolation));
    assert_eq!(contents(&index), vec![node(10, 0, 0), node(30, 2, 0)]);
    let mut empty = PositionIndex::new();
    assert_eq!(empty.remove(1), Err(RingError::ConsistencyViolation));
}

#[test]
fn lower_bound_counts_the_nodes_below() {
    let index = index_of(&[node(10, 0, 0), node(20, 1, 0), node(30, 2, 0)]);
    assert_eq!(index.lower_bound(0), 0);
    assert_eq!(index.lower_bound(10), 0);
    assert_eq!(index.lower_bound(11), 1);
    assert_eq!(index.lower_bound(20), 1);
    assert_eq!(index.lower_bound(29), 2);
    assert_eq!(index.lower_bound(30), 2);
    assert_eq!(index.lower_bound(31), 3);
    assert_eq!(index.lower_bound(u128::MAX), 3);
}

#[test]
fn find_and_contains() {
    let index = index_of(&[node(10, 0, 0), node(20, 1, 0), node(30, 2, 0)]);
    assert_eq!(index.find(10), Some(0));
    assert_eq!(index.find(20), Some(1));
    assert_eq!(index.find(30), Some(2));
    assert_eq!(index.find(15), None);
    assert_eq!(index.find(31), None);
    assert!(index.contains(20));
    assert!(!index.contains(21));
}

#[test]
fn nearest_successor_is_the_lowest_position_at_or_above() {
    let index = index_of(&[node(10, 0, 0), node(20, 1, 0), node(30, 2, 0)]);
    assert_eq!(index.nearest_successor(0), Some(10));
    assert_eq!(index.nearest_successor(10), Some(10));
    assert_eq!(index.nearest_successor(11), Some(20));
    assert_eq!(index.nearest_successor(30), Some(30));
    assert_eq!(index.successor_place(25), Some(2));
    assert_eq!(index.successor_place(5), Some(0));
}

#[test]
fn nearest_successor_wraps_round() {
    let index = index_of(&[node(10, 0, 0), node(20, 1, 0), node(30, 2, 0)]);
    assert_eq!(index.nearest_successor(31), Some(10));
    assert_eq!(index.nearest_successor(u128::MAX), Some(10));
    assert_eq!(index.successor_place(31), Some(0));
    let single = index_of(&[node(u128::MAX, 0, 0)]);
    assert_eq!(single.nearest_successor(u128::MAX), Some(u128::MAX));
    assert_eq!(single.nearest_successor(0), Some(u128::MAX));
}

#[test]
fn union_interleaves_two_indexes() {
    let a = index_of(&[node(10, 0, 0), node(30, 0, 1), node(50, 0, 2)]);
    let b = index_of(&[node(5, 1, 0), node(40, 1, 1), node(60, 1, 2), node(70, 1, 3)]);
    let all = a.union(&b).unwrap();
    assert_eq!(
        contents(&all),
        vec![
            node(5, 1, 0),
            node(10, 0, 0),
            node(30, 0, 1),
            node(40, 1, 1),
            node(50, 0, 2),
            node(60, 1, 2),
            node(70, 1, 3)
        ]
    );
    let empty = PositionIndex::new();
    assert_eq!(contents(&a.union(&empty).unwrap()), contents(&a));
    assert_eq!(contents(&empty.union(&a).unwrap()), contents(&a));
    assert!(empty.union(&PositionIndex::new()).unwrap().is_empty());
}

#[test]
fn union_refuses_a_shared_position() {
    let a = index_of(&[node(10, 0, 0), node(30, 0, 1), node(50, 0, 2)]);
    let b = index_of(&[node(5, 1, 0), node(50, 1, 1)]);
    assert!(a.union(&b).is_none());
    assert!(b.union(&a).is_none());
    assert!(a.union(&a).is_none());
}

#[test]
fn close_gap_lowers_the_owners_above() {
    let mut index = index_of(&[node(10, 0, 0), node(20, 2, 0), node(30, 3, 0), node(40, 2, 1)]);
    index.close_gap(1);
    assert_eq!(
        contents(&index),
        vec![node(10, 0, 0), node(20, 1, 0), node(30, 2, 0), node(40, 1, 1)]
    );
    index.close_gap(5);
    assert_eq!(
        contents(&index),
        vec![node(10, 0, 0), node(20, 1, 0), node(30, 2, 0), node(40, 1, 1)]
    );
}
