use fault_tolerant_telemetry::cluster::{node_ids, peers_of, NUM_NODES};
use fault_tolerant_telemetry::fault::{
    isolation_end, isolation_start, split_brain_end, split_brain_start,
};
use fault_tolerant_telemetry::transport::PartitionTable;

#[test]
fn cluster_membership() {
    assert_eq!(node_ids(), vec![1, 2, 3, 4, 5]);
    assert_eq!(NUM_NODES, 5);
    assert_eq!(peers_of(3), vec![1, 2, 4, 5]);
    assert_eq!(peers_of(1), vec![2, 3, 4, 5]);
    assert_eq!(peers_of(9), vec![1, 2, 3, 4, 5]);
}

#[test]
fn partitions_cut_both_ways() {
    let mut t = PartitionTable::new();
    assert!(!t.blocks(1, 2));
    t.add_partition(1, 2);
    assert!(t.blocks(1, 2));
    assert!(t.blocks(2, 1));
    assert!(!t.blocks(1, 3));
    t.add_partition(2, 1);
    t.add_partition(3, 4);
    t.remove_partition(1, 2);
    assert!(!t.blocks(1, 2));
    assert!(!t.blocks(2, 1));
    assert!(t.blocks(4, 3));
}

#[test]
fn delivery_plans() {
    let mut t = PartitionTable::new();
    t.add_partition(1, 2);
    assert_eq!(t.plan_delivery(1, 2, false, 1, 5), None);
    assert_eq!(t.plan_delivery(2, 1, false, 1, 5), None);
    assert_eq!(t.plan_delivery(1, 3, true, 1, 5), None);
    let mut seen = Vec::new();
    for _ in 0..50 {
        let ms = t.plan_delivery(1, 3, false, 1, 5).unwrap();
        assert!((1..=5).contains(&ms));
        seen.push(ms);
    }
    assert!(seen.iter().any(|&ms| ms != seen[0]));
    assert_eq!(t.plan_delivery(3, 1, false, 7, 7), Some(7));
    assert_eq!(t.latency_range(1, 2, false, 1, 5), None);
    assert_eq!(t.latency_range(1, 3, true, 1, 5), None);
    assert_eq!(t.latency_range(1, 3, false, 1, 5), Some((1, 5)));
}

#[test]
fn node_isolation_round_trip() {
    let mut t = PartitionTable::new();
    t.add_partition(3, 4);
    let peers = [2u64, 3, 4, 5];
    isolation_start(&mut t, 1, &peers);
    for p in peers {
        assert!(t.blocks(1, p));
        assert!(t.blocks(p, 1));
    }
    assert!(t.blocks(3, 4));
    isolation_end(&mut t, 1, &peers);
    for p in peers {
        assert!(!t.blocks(1, p));
    }
    assert!(t.blocks(4, 3));
}

#[test]
fn split_brain_round_trip() {
    let mut t = PartitionTable::new();
    split_brain_start(&mut t, &[1, 2], &[3, 4, 5]);
    for a in [1u64, 2] {
        for b in [3u64, 4, 5] {
            assert!(t.blocks(a, b));
            assert!(t.blocks(b, a));
        }
    }
    assert!(!t.blocks(1, 2));
    assert!(!t.blocks(3, 5));
    split_brain_end(&mut t, &[1, 2], &[3, 4, 5]);
    for a in [1u64, 2] {
        for b in [3u64, 4, 5] {
            assert!(!t.blocks(a, b));
        }
    }
}

#[test]
fn healing_removes_earlier_partitions_of_the_same_link() {
    let mut t = PartitionTable::new();
    t.add_partition(2, 1);
    isolation_start(&mut t, 1, &[2]);
    isolation_end(&mut t, 1, &[2]);
    assert!(!t.blocks(1, 2));
}
