use consistent_hash::ConsistentHash;
use consistent_hash::RingError;
use rand::Rng;
use std::collections::HashMap;

/// A key whose replicas lie at consecutive positions from a chosen start.
#[derive(Clone, Debug, PartialEq, Eq, PartialOrd, Ord)]
struct Pin(u128);

impl consistent_hash::Hash for Pin {
    fn position(&self, weight: i32) -> u128 {
        self.0.wrapping_add(weight as u128)
    }

    fn hash(&self, weight: i32) -> u128 {
        self.position(weight)
    }
}

fn ring_of(replicas: i32, pins: &[(u128, i32)]) -> ConsistentHash<Pin, i32> {
    let mut ring: ConsistentHash<Pin, i32> = ConsistentHash::new(replicas).unwrap();
    for (start, value) in pins {
        ring.add_node(Pin(*start), *value).unwrap();
    }
    ring
}

#[test]
fn test_string_md5_hash() {
    let hash = consistent_hash::Hash::hash(&String::from("test"), 0);
    assert_eq!(hash, 178633651610943467493091302425572625585);
}

#[test]
fn new_consistent_hash() {
    let _: ConsistentHash<String, i32> = match ConsistentHash::new(10) {
        Ok(ring) => ring,
        Err(err) => panic!("{}", err.message()),
    };
}

#[test]
#[should_panic]
fn fail_if_bad_replicas() {
    let _: ConsistentHash<String, i32> = match ConsistentHash::new(-20) {
        Ok(ring) => ring,
        Err(err) => panic!("{}", err.message()),
    };
}

#[test]
fn test_delete_rebalance() {
    let mut ring: ConsistentHash<String, i32> = ConsistentHash::new(1).unwrap();

    for i in 1..=4 {
        let node_name = format!("node{}", i);
        let node_val = 12;
        match ring.add_node(node_name, node_val) {
            Err(err) => panic!("{}", err.message()),
            Ok(()) => (),
        };
    }

    ring.delete_node(&format!("node1")).unwrap();
    let new_value = ring.get_node(&format!("node1")).unwrap();

    assert_eq!(*new_value, 24);
}

#[test]
fn property_based() {
    let mut ring: ConsistentHash<String, String> = match ConsistentHash::new(10000) {
        Ok(ring) => ring,
        Err(err) => panic!("{}", err.message()),
    };

    let num_nodes = 10;
    let num_hits = 1000;
    let num_values = 10000;

    for i in 1..num_nodes + 1 {
        let node_name = format!("node{}", i);
        let node_val = format!("node_value{}", i);
        match ring.add_node(node_name, node_val) {
            Err(err) => panic!("{}", err.message()),
            Ok(()) => (),
        };
    }

    let mut distributions: HashMap<String, i32> = HashMap::new();

    let mut rng = rand::thread_rng();
    for _ in 0..num_hits {
        let rand_num: u16 = rng.gen_range(0, num_values);
        let node = match ring.get_node(&rand_num.to_string()) {
            Some(node) => node,
            None => panic!("Not found!"),
        };

        let mut count = match distributions.get(&*node) {
            Some(result) => *result,
            None => 0,
        };

        count += 1;
        distributions.insert(String::from(&*node), count);
    }

    assert_eq!(distributions.values().sum::<i32>(), num_hits);

    let min = distributions.values().min().unwrap();
    let max = distributions.values().max().unwrap();
    if (*max - *min) > 100 {
        for (key, value) in distributions.iter() {
            // Check Deviation for 10 node 100 virtual node partition
            println!("{}: {}", key, value);
        }
        panic!("Too much deviation in my partitions");
    }
}

#[test]
fn zero_replicas_are_refused() {
    let ring: Result<ConsistentHash<String, i32>, RingError> = ConsistentHash::new(0);
    assert!(matches!(ring, Err(RingError::InvalidReplicaCount)));
    let ring: Result<ConsistentHash<String, i32>, RingError> = ConsistentHash::new(i32::MIN);
    assert!(matches!(ring, Err(RingError::InvalidReplicaCount)));
}

#[test]
fn positive_replicas_give_an_empty_ring() {
    for replicas in [1, 2, 10, i32::MAX] {
        let ring: ConsistentHash<String, i32> = ConsistentHash::new(replicas).unwrap();
        assert_eq!(ring.replica_count(), replicas);
        assert_eq!(ring.len(), 0);
        assert!(ring.is_empty());
        assert_eq!(ring.position_count(), 0);
        assert!(ring.user_keys().is_empty());
        assert!(ring.enumerate().is_empty());
        assert!(ring.placements().is_empty());
    }
}

#[test]
fn empty_ring_finds_nothing() {
    let mut ring: ConsistentHash<String, i32> = ConsistentHash::new(3).unwrap();
    assert_eq!(ring.get_node(&String::from("anything")), None);
    assert_eq!(ring.get_mut_node(&String::from("anything")), None);
    assert_eq!(ring.search_nearest(0), None);
    assert_eq!(ring.search_nearest(u128::MAX), None);
}

#[test]
fn added_key_resolves_to_its_value() {
    let mut ring: ConsistentHash<String, i32> = ConsistentHash::new(5).unwrap();
    for (i, name) in ["alpha", "beta", "gamma", "delta"].iter().enumerate() {
        ring.add_node(name.to_string(), i as i32 * 100).unwrap();
        assert_eq!(ring.get_node(&name.to_string()), Some(&(i as i32 * 100)));
        assert_eq!(ring.position_count(), 5 * (i + 1));
    }
    assert_eq!(ring.get_node(&String::from("alpha")), Some(&0));
    assert_eq!(ring.get_node(&String::from("beta")), Some(&100));
    assert_eq!(ring.get_node(&String::from("gamma")), Some(&200));
    assert_eq!(ring.get_node(&String::from("delta")), Some(&300));
}

#[test]
fn every_key_holds_its_replicas() {
    let ring = ring_of(3, &[(100, 1), (50, 2)]);
    let expected: Vec<(u128, &i32)> =
        vec![(50, &2), (51, &2), (52, &2), (100, &1), (101, &1), (102, &1)];
    assert_eq!(ring.placements(), expected);
    assert_eq!(ring.position_count(), 6);
}

#[test]
fn same_key_twice_is_refused_and_changes_nothing() {
    let mut ring: ConsistentHash<String, i32> = ConsistentHash::new(4).unwrap();
    ring.add_node(String::from("a"), 1).unwrap();
    ring.add_node(String::from("b"), 2).unwrap();
    let before: Vec<(u128, i32)> = ring.placements().iter().map(|(p, v)| (*p, **v)).collect();
    assert_eq!(ring.add_node(String::from("a"), 3), Err(RingError::NodeAlreadyExists));
    let after: Vec<(u128, i32)> = ring.placements().iter().map(|(p, v)| (*p, **v)).collect();
    assert_eq!(before, after);
    assert_eq!(ring.position_count(), 8);
    assert_eq!(ring.user_keys(), &vec![String::from("a"), String::from("b")]);
    assert_eq!(ring.get_node(&String::from("a")), Some(&1));
}

#[test]
fn collision_in_the_last_replica_changes_nothing() {
    let mut ring = ring_of(3, &[(100, 1)]);
    assert_eq!(ring.add_node(Pin(98), 7), Err(RingError::NodeAlreadyExists));
    let expected: Vec<(u128, &i32)> = vec![(100, &1), (101, &1), (102, &1)];
    assert_eq!(ring.placements(), expected);
    assert_eq!(ring.user_keys(), &vec![Pin(100)]);
    assert_eq!(ring.add_node(Pin(97), 7), Ok(()));
    assert_eq!(ring.position_count(), 6);
}

/// A key all of whose replicas lie at one position.
#[derive(Clone, Debug, PartialEq, Eq, PartialOrd, Ord)]
struct Stuck(u128);

impl consistent_hash::Hash for Stuck {
    fn position(&self, _weight: i32) -> u128 {
        self.0
    }

    fn hash(&self, weight: i32) -> u128 {
        self.position(weight)
    }
}

#[test]
fn key_that_collides_with_itself_is_refused() {
    let mut ring: ConsistentHash<Stuck, i32> = ConsistentHash::new(2).unwrap();
    assert_eq!(ring.add_node(Stuck(9), 1), Err(RingError::NodeAlreadyExists));
    assert!(ring.is_empty());
    assert_eq!(ring.position_count(), 0);
    let mut single: ConsistentHash<Stuck, i32> = ConsistentHash::new(1).unwrap();
    assert_eq!(single.add_node(Stuck(9), 1), Ok(()));
}

#[test]
fn lookup_takes_the_nearest_successor() {
    let ring = ring_of(1, &[(10, 1), (20, 2), (30, 3)]);
    assert_eq!(ring.search_nearest(0), Some(10));
    assert_eq!(ring.search_nearest(10), Some(10));
    assert_eq!(ring.search_nearest(11), Some(20));
    assert_eq!(ring.search_nearest(20), Some(20));
    assert_eq!(ring.search_nearest(21), Some(30));
    assert_eq!(ring.search_nearest(30), Some(30));
    assert_eq!(ring.get_node(&Pin(15)), Some(&2));
    assert_eq!(ring.get_node(&Pin(25)), Some(&3));
    assert_eq!(ring.get_node(&Pin(5)), Some(&1));
}

#[test]
fn lookup_past_the_top_wraps_to_the_lowest_position() {
    let ring = ring_of(2, &[(1000, 1), (20, 2), (300, 3)]);
    assert_eq!(ring.search_nearest(1002), Some(20));
    assert_eq!(ring.search_nearest(u128::MAX), Some(20));
    assert_eq!(ring.get_node(&Pin(5000)), Some(&2));
    assert_eq!(ring.get_node(&Pin(u128::MAX)), Some(&2));
}

#[test]
fn deleting_the_only_key_empties_the_ring() {
    let mut ring: ConsistentHash<String, i32> = ConsistentHash::new(7).unwrap();
    ring.add_node(String::from("solo"), 42).unwrap();
    assert_eq!(ring.position_count(), 7);
    assert_eq!(ring.delete_node(&String::from("solo")), Err(RingError::NoRemainingNodes));
    assert_eq!(ring.position_count(), 0);
    assert!(ring.is_empty());
    assert!(ring.placements().is_empty());
    assert_eq!(ring.get_node(&String::from("solo")), None);
    assert_eq!(ring.add_node(String::from("solo"), 1), Ok(()));
}

#[test]
fn deleted_value_is_added_to_its_successor() {
    let mut ring: ConsistentHash<String, i32> = ConsistentHash::new(1).unwrap();
    ring.add_node(String::from("a"), 10).unwrap();
    ring.add_node(String::from("b"), 5).unwrap();
    assert_eq!(ring.delete_node(&String::from("a")), Ok(()));
    assert_eq!(ring.get_node(&String::from("a")), Some(&15));
    assert_eq!(ring.get_node(&String::from("b")), Some(&15));
    assert_eq!(ring.user_keys(), &vec![String::from("b")]);
    assert_eq!(ring.position_count(), 1);
}

#[test]
fn deletion_merges_once_into_the_heir_of_the_first_replica() {
    let mut ring = ring_of(2, &[(10, 1), (20, 2), (30, 4), (22, 8)]);
    assert_eq!(ring.delete_node(&Pin(20)), Ok(()));
    let listing: Vec<(Pin, i32)> = ring.enumerate().iter().map(|(k, v)| ((*k).clone(), **v)).collect();
    assert_eq!(listing, vec![(Pin(10), 1), (Pin(30), 4), (Pin(22), 10)]);
    let expected: Vec<(u128, &i32)> =
        vec![(10, &1), (11, &1), (22, &10), (23, &10), (30, &4), (31, &4)];
    assert_eq!(ring.placements(), expected);
}

#[test]
fn deletion_moves_later_slots_down() {
    let mut ring = ring_of(2, &[(10, 1), (20, 2), (30, 4), (40, 8)]);
    assert_eq!(ring.delete_node(&Pin(10)), Ok(()));
    let listing: Vec<(Pin, i32)> = ring.enumerate().iter().map(|(k, v)| ((*k).clone(), **v)).collect();
    assert_eq!(listing, vec![(Pin(20), 3), (Pin(30), 4), (Pin(40), 8)]);
    let expected: Vec<(u128, &i32)> =
        vec![(20, &3), (21, &3), (30, &4), (31, &4), (40, &8), (41, &8)];
    assert_eq!(ring.placements(), expected);
    assert_eq!(ring.get_node(&Pin(35)), Some(&8));
    assert_eq!(ring.delete_node(&Pin(40)), Ok(()));
    let listing: Vec<(Pin, i32)> = ring.enumerate().iter().map(|(k, v)| ((*k).clone(), **v)).collect();
    assert_eq!(listing, vec![(Pin(20), 11), (Pin(30), 4)]);
}

#[test]
fn deleting_an_unknown_key_changes_nothing() {
    let mut ring = ring_of(2, &[(10, 1), (20, 2)]);
    assert_eq!(ring.delete_node(&Pin(15)), Err(RingError::NodeNotFound));
    assert_eq!(ring.delete_node(&Pin(11)), Err(RingError::NodeNotFound));
    assert_eq!(ring.delete_node(&Pin(9)), Err(RingError::NodeNotFound));
    let expected: Vec<(u128, &i32)> = vec![(10, &1), (11, &1), (20, &2), (21, &2)];
    assert_eq!(ring.placements(), expected);
    let mut empty: ConsistentHash<Pin, i32> = ConsistentHash::new(2).unwrap();
    assert_eq!(empty.delete_node(&Pin(1)), Err(RingError::NodeNotFound));
}

#[test]
fn merge_that_overflows_is_refused() {
    let mut ring = ring_of(1, &[(10, i32::MAX), (20, 1)]);
    assert_eq!(ring.delete_node(&Pin(10)), Err(RingError::MergeRejected));
    let listing: Vec<(Pin, i32)> = ring.enumerate().iter().map(|(k, v)| ((*k).clone(), **v)).collect();
    assert_eq!(listing, vec![(Pin(20), 1)]);
}

#[test]
fn change_through_one_position_shows_at_all() {
    let mut ring = ring_of(3, &[(10, 1), (20, 2)]);
    *ring.get_mut_node(&Pin(11)).unwrap() = 70;
    assert_eq!(ring.get_node(&Pin(10)), Some(&70));
    assert_eq!(ring.get_node(&Pin(12)), Some(&70));
    assert_eq!(ring.get_node(&Pin(13)), Some(&2));
    let expected: Vec<(u128, &i32)> =
        vec![(10, &70), (11, &70), (12, &70), (20, &2), (21, &2), (22, &2)];
    assert_eq!(ring.placements(), expected);
}

#[test]
fn locate_gives_the_slot_of_a_registered_key() {
    let ring = ring_of(2, &[(10, 1), (20, 2), (30, 3)]);
    assert_eq!(ring.locate(&Pin(10)), Some(0));
    assert_eq!(ring.locate(&Pin(20)), Some(1));
    assert_eq!(ring.locate(&Pin(30)), Some(2));
    assert_eq!(ring.locate(&Pin(11)), None);
    assert_eq!(ring.locate(&Pin(29)), None);
    assert_eq!(ring.locate(&Pin(0)), None);
}

#[test]
fn adding_a_key_moves_lookups_to_that_key_only() {
    let mut ring = ring_of(3, &[(100, 1), (400, 2), (700, 3)]);
    let queries: Vec<u128> = (0..90).map(|i| i * 10).collect();
    let before: Vec<Option<u128>> = queries.iter().map(|q| ring.search_nearest(*q)).collect();
    ring.add_node(Pin(250), 4).unwrap();
    let mut moved = 0;
    for (q, was) in queries.iter().zip(before.iter()) {
        let now = ring.search_nearest(*q);
        if now == Some(250) || now == Some(251) || now == Some(252) {
            moved += 1;
        } else {
            assert_eq!(now, *was);
        }
    }
    assert_eq!(moved, 15);
}

#[test]
fn deleting_a_key_moves_the_lookups_of_that_key_only() {
    let mut ring = ring_of(3, &[(100, 1), (400, 2), (700, 3)]);
    let queries: Vec<u128> = (0..90).map(|i| i * 10).collect();
    let before: Vec<Option<u128>> = queries.iter().map(|q| ring.search_nearest(*q)).collect();
    ring.delete_node(&Pin(400)).unwrap();
    let mut moved = 0;
    for (q, was) in queries.iter().zip(before.iter()) {
        let now = ring.search_nearest(*q);
        if *was == Some(400) || *was == Some(401) || *was == Some(402) {
            assert_eq!(now, Some(700));
            moved += 1;
        } else {
            assert_eq!(now, *was);
        }
    }
    assert_eq!(moved, 30);
}

#[test]
fn strings_merge_by_concatenation() {
    let mut ring: ConsistentHash<String, String> = ConsistentHash::new(1).unwrap();
    ring.add_node(String::from("a"), String::from("left")).unwrap();
    ring.add_node(String::from("b"), String::from("right")).unwrap();
    assert_eq!(ring.delete_node(&String::from("a")), Ok(()));
    assert_eq!(ring.get_node(&String::from("zzz")), Some(&String::from("rightleft")));
}

#[test]
fn lookups_follow_the_positions_of_the_keys() {
    let mut ring: ConsistentHash<String, i32> = ConsistentHash::new(100).unwrap();
    for i in 1..=10 {
        ring.add_node(format!("node{}", i), i).unwrap();
    }
    assert_eq!(ring.position_count(), 1000);
    let mut counts = [0; 10];
    for query in 0..1000 {
        let value = *ring.get_node(&query.to_string()).unwrap();
        counts[(value - 1) as usize] += 1;
    }
    assert_eq!(counts, [96, 83, 132, 105, 109, 86, 104, 75, 108, 102]);

    assert_eq!(ring.delete_node(&String::from("node3")), Ok(()));
    assert_eq!(ring.delete_node(&String::from("node7")), Ok(()));
    assert_eq!(ring.delete_node(&String::from("nodeX")), Err(RingError::NodeNotFound));
    assert_eq!(ring.position_count(), 800);
    let listing: Vec<(String, i32)> =
        ring.enumerate().iter().map(|(k, v)| ((*k).clone(), **v)).collect();
    let expected: Vec<(String, i32)> = [
        ("node1", 1),
        ("node2", 5),
        ("node4", 11),
        ("node5", 5),
        ("node6", 6),
        ("node8", 8),
        ("node9", 9),
        ("node10", 10),
    ]
    .iter()
    .map(|(k, v)| (k.to_string(), *v))
    .collect();
    assert_eq!(listing, expected);
    let found: Vec<i32> = (0..20).map(|q: i32| *ring.get_node(&q.to_string()).unwrap()).collect();
    assert_eq!(found, vec![1, 6, 10, 11, 5, 10, 5, 1, 5, 11, 10, 5, 11, 11, 9, 11, 1, 8, 1, 5]);
}

#[test]
fn values_gather_as_keys_leave() {
    let mut ring: ConsistentHash<String, String> = ConsistentHash::new(3).unwrap();
    for i in 1..=4 {
        ring.add_node(format!("node{}", i), format!("v{}", i)).unwrap();
    }
    let listing = |ring: &ConsistentHash<String, String>| -> Vec<(String, String)> {
        ring.enumerate().iter().map(|(k, v)| ((*k).clone(), (*v).clone())).collect()
    };
    let pair = |k: &str, v: &str| (k.to_string(), v.to_string());
    assert_eq!(ring.delete_node(&String::from("node2")), Ok(()));
    assert_eq!(listing(&ring), vec![pair("node1", "v1v2"), pair("node3", "v3"), pair("node4", "v4")]);
    assert_eq!(ring.delete_node(&String::from("node4")), Ok(()));
    assert_eq!(listing(&ring), vec![pair("node1", "v1v2"), pair("node3", "v3v4")]);
    assert_eq!(ring.delete_node(&String::from("node1")), Ok(()));
    assert_eq!(listing(&ring), vec![pair("node3", "v3v4v1v2")]);
    assert_eq!(ring.delete_node(&String::from("node3")), Err(RingError::NoRemainingNodes));
    assert!(listing(&ring).is_empty());
}

#[test]
fn ten_keys_share_ten_thousand_lookups_evenly() {
    let mut ring: ConsistentHash<String, i32> = ConsistentHash::new(1000).unwrap();
    for i in 1..=10 {
        ring.add_node(format!("node{}", i), i).unwrap();
    }
    let mut counts = [0; 10];
    for query in 0..10000 {
        let value = *ring.get_node(&query.to_string()).unwrap();
        counts[(value - 1) as usize] += 1;
    }
    assert_eq!(counts, [939, 1013, 992, 992, 964, 1051, 994, 1079, 1036, 940]);
    let most = counts.iter().max().unwrap();
    let least = counts.iter().min().unwrap();
    assert!(most - least <= 140);
}

#[test]
fn error_messages() {
    assert_eq!(RingError::InvalidReplicaCount.message(), "replica count must be greater than 0");
    assert_eq!(RingError::NodeAlreadyExists.message(), "Key already in ring");
    assert_eq!(RingError::NodeNotFound.message(), "Key does not exist in ring");
    assert_eq!(RingError::NoRemainingNodes.message(), "No node is left to merge into");
    assert_eq!(RingError::DuplicateVirtualNode.message(), "Position already in index");
    assert_eq!(RingError::ConsistencyViolation.message(), "Position missing from index");
    assert_eq!(RingError::MergeRejected.message(), "Value could not be merged");
}
