use std::collections::HashMap;

use traceroute_graph::bucket::{calculate_bucket_id_v4, calculate_bucket_id_v6, get_or_put, GraphBucket, GraphBucketManager, IngestError};
use traceroute_graph::merge::{max_known_node_id, merge_edge_maps, sort_by_ttl, MergeProcessor};
use traceroute_graph::processor_util::{extract_strings_from_row, hop_count_str_to_numeric};
use traceroute_graph::structs::{InternalNode, IpType, MaxNodeIds, NodeBoundaries, NodeV4, YarrpRow, YarrpRowIpv4, YarrpRowIpv6};

fn v4(a: u8, b: u8, c: u8, d: u8) -> u32 {
    u32::from_be_bytes([a, b, c, d])
}

#[test]
fn bucket_keys_of_two_targets() {
    assert_eq!(calculate_bucket_id_v4(v4(1, 2, 3, 4)), 6);
    assert_eq!(calculate_bucket_id_v4(v4(1, 9, 3, 4)), 13);
}

#[test]
fn bucket_hashing_v6_uses_eighth_and_sixteenth_byte() {
    let mut bytes = [0u8; 16];
    bytes[7] = 0x0f;
    bytes[15] = 0xf0;
    bytes[0] = 0xaa;
    assert_eq!(calculate_bucket_id_v6(u128::from_be_bytes(bytes)), 0xff);
}

#[test]
fn records_land_in_the_bucket_of_their_target() {
    let mut manager = GraphBucketManager::new(String::from("shards"), HashMap::new(), 1);
    manager.add_node_v4(NodeV4 { target_ip: v4(1, 2, 3, 4), hop_ip: v4(9, 9, 9, 9), hop_count: 3 });
    manager.add_node_v4(NodeV4 { target_ip: v4(1, 9, 3, 4), hop_ip: v4(9, 9, 9, 9), hop_count: 1 });
    let shards = manager.store_buckets_to_disk();
    assert_eq!(shards.len(), 2);
    assert_eq!(shards[0].0, 6);
    assert_eq!(shards[0].2, vec![(2u64, vec![(1u64, 3u8)])]);
    assert_eq!(shards[1].0, 13);
    assert_eq!(shards[1].2, vec![(3u64, vec![(1u64, 1u8)])]);
    assert!(shards[0].1.ends_with("yarrp.6.bin"));
    assert!(shards[1].1.ends_with("yarrp.13.bin"));
}

#[test]
fn identifiers_are_stable_and_dense() {
    let mut manager = GraphBucketManager::new(String::from("shards"), HashMap::new(), 1);
    manager.add_node_v4(NodeV4 { target_ip: 100, hop_ip: 7, hop_count: 1 });
    manager.add_node_v4(NodeV4 { target_ip: 100, hop_ip: 8, hop_count: 2 });
    manager.add_node_v4(NodeV4 { target_ip: 7, hop_ip: 100, hop_count: 1 });
    assert_eq!(manager.id_counter(), 4);
    let (index, counter) = manager.into_index();
    assert_eq!(counter, 4);
    assert_eq!(index.get(&7), Some(&1));
    assert_eq!(index.get(&100), Some(&2));
    assert_eq!(index.get(&8), Some(&3));
}

#[test]
fn get_or_put_assigns_the_counter_once() {
    let mut index = HashMap::new();
    let mut counter = 5u64;
    assert_eq!(get_or_put(&mut index, 42, &mut counter), 5);
    assert_eq!(get_or_put(&mut index, 43, &mut counter), 6);
    assert_eq!(get_or_put(&mut index, 42, &mut counter), 5);
    assert_eq!(counter, 7);
}

#[test]
fn wrong_family_is_refused() {
    let mut manager = GraphBucketManager::new(String::from("shards"), HashMap::new(), 1);
    let row = YarrpRow::V6(YarrpRowIpv6 { target_ip: 1, hop_ip: 2, hop_count: 1 });
    assert_eq!(manager.add_record(row, IpType::V4), Err(IngestError::WrongFamily));
    assert_eq!(manager.id_counter(), 1);
    assert!(manager.store_buckets_to_disk().is_empty());
    let ok = YarrpRow::V4(YarrpRowIpv4 { target_ip: 1, hop_ip: 2, hop_count: 1 });
    assert_eq!(manager.add_record(ok, IpType::V4), Ok(()));
    assert_eq!(manager.id_counter(), 3);
}

#[test]
fn bucket_keeps_insertion_order_and_empties_on_eviction() {
    let mut bucket = GraphBucket::new(String::from("b.bin"));
    bucket.add_node(InternalNode { target_id: 9, hop_id: 1, hop_count: 2 });
    bucket.add_node(InternalNode { target_id: 4, hop_id: 2, hop_count: 1 });
    bucket.add_node(InternalNode { target_id: 9, hop_id: 3, hop_count: 1 });
    let out = bucket.evict_to_disk();
    assert_eq!(out, vec![(9u64, vec![(1u64, 2u8), (3, 1)]), (4, vec![(2, 1)])]);
    assert!(bucket.evict_to_disk().is_empty());
    assert_eq!(bucket.file_path(), "b.bin");
}

fn merged_edges(records: &[(u128, u128, u8)]) -> (Vec<(i64, i64)>, usize, u64) {
    let mut manager = GraphBucketManager::new(String::from("shards"), HashMap::new(), 1);
    for &(t, h, c) in records {
        manager.add_node_v4(NodeV4 { target_ip: t as u32, hop_ip: h as u32, hop_count: c });
    }
    let shards = manager.store_buckets_to_disk();
    let (index, _) = manager.into_index();
    let mut processor = MergeProcessor::new();
    let mut edges = Vec::new();
    for bucket_id in 0..256u64 {
        let files: Vec<Vec<(u64, Vec<(u64, u8)>)>> = shards
            .iter()
            .filter(|s| s.0 as u64 == bucket_id)
            .map(|s| s.2.clone())
            .collect();
        edges.extend(processor.process_bucket(&files));
    }
    let entries: Vec<(u128, u64)> = index.into_iter().collect();
    (edges, processor.max_unknown_node(), max_known_node_id(&entries))
}

#[test]
fn silent_hops_become_unknown_nodes() {
    let t = v4(10, 0, 0, 9) as u128;
    let h = v4(10, 0, 0, 1) as u128;
    let (edges, unknown, known) = merged_edges(&[(t, h, 1), (t, t, 4)]);
    assert_eq!(edges, vec![(0, 1), (1, -1), (-1, -2), (-2, 2)]);
    assert_eq!(unknown, 2);
    assert_eq!(known, 2);
}

#[test]
fn unknown_node_is_pinned_to_its_predecessor() {
    let (a, b, p, x, y) = (v4(1, 0, 0, 1) as u128, v4(1, 0, 0, 2) as u128, 50u128, 60u128, 70u128);
    let (edges, unknown, _) = merged_edges(&[(a, p, 1), (a, x, 3), (b, p, 1), (b, y, 3)]);
    // ids: p=1, a=2, x=3, b=4, y=5
    assert!(edges.contains(&(1, -1)));
    assert!(edges.contains(&(-1, 3)));
    assert!(edges.contains(&(-1, 5)));
    assert_eq!(edges.iter().filter(|e| e.1 == -1).count(), 2);
    assert!(edges.iter().filter(|e| e.1 == -1).all(|e| e.0 == 1));
    assert_eq!(unknown, 1);
}

#[test]
fn equal_ttls_are_kept_in_order() {
    let hops = vec![(5u64, 2u8), (6, 1), (7, 2), (8, 1)];
    assert_eq!(sort_by_ttl(&hops), vec![(6, 1), (8, 1), (5, 2), (7, 2)]);
}

#[test]
fn merging_concatenates_shards_per_target() {
    let a = vec![(1u64, vec![(10u64, 1u8)]), (2, vec![(20, 1)])];
    let b = vec![(2u64, vec![(21u64, 2u8)]), (1, vec![(11, 2)])];
    let merged = merge_edge_maps(&vec![a, b]).edge_map();
    assert_eq!(merged, vec![(1u64, vec![(10u64, 1u8), (11, 2)]), (2, vec![(20, 1), (21, 2)])]);
}

#[test]
fn path_walk_from_a_source() {
    let mut processor = MergeProcessor::new();
    let edges = processor.process_path(7, &vec![(3u64, 1u8), (4, 3)]);
    assert_eq!(edges, vec![(7, 3), (3, -1), (-1, 4)]);
}

#[test]
fn max_known_of_empty_index_is_zero() {
    assert_eq!(max_known_node_id(&Vec::new()), 0);
    assert_eq!(max_known_node_id(&vec![(1, 4), (2, 9), (3, 2)]), 9);
}

#[test]
fn boundaries_from_max_node_ids() {
    let b = NodeBoundaries::new(MaxNodeIds { known: 2, unknown: 3 });
    assert_eq!(b.range_inclusive(), (-3, 2));
    assert_eq!(b.len(), 6);
}

#[test]
fn hop_count_parsing() {
    assert_eq!(hop_count_str_to_numeric("7"), Some(7));
    assert_eq!(hop_count_str_to_numeric("255"), Some(255));
    assert_eq!(hop_count_str_to_numeric("256"), None);
    assert_eq!(hop_count_str_to_numeric(""), None);
    assert_eq!(hop_count_str_to_numeric("1a"), None);
}

#[test]
fn row_fields_are_found_by_spaces() {
    let row = b"10.0.0.9 1 2 3 4 5 10.0.0.1 rest";
    let (target_end, count_start, count_end, hop_end) = extract_strings_from_row(row).unwrap();
    assert_eq!(&row[..target_end], b"10.0.0.9");
    assert_eq!(&row[count_start..count_end], b"5");
    assert_eq!(&row[count_end + 1..hop_end], b"10.0.0.1");
    assert_eq!(extract_strings_from_row(b"a b c"), None);
}
