use std::collections::HashMap;

use traceroute_graph::brandes::{partition_sources, resume_counter, shortest_paths, should_checkpoint, sorted_keys, ShortestPaths};
use traceroute_graph::collections::{OffsetList, Queue, Stack};
use traceroute_graph::dedup::Deduplicator;
use traceroute_graph::degree::{DegreeCalculator, NeighborDegree};
use traceroute_graph::graph::{Graph, GraphError};
use traceroute_graph::parameters::{compute_output_paths, DatasetConfig, GraphBuilderParameters};
use traceroute_graph::structs::{IpType, MaxNodeIds, NodeBoundaries};

fn ids(known: usize, unknown: usize) -> MaxNodeIds {
    MaxNodeIds { known, unknown }
}

#[test]
fn dedup_drops_repeated_pairs_and_orders_by_source() {
    let edges = vec![(2, 1), (0, 1), (2, 1), (-1, 2), (0, 1), (1, -1)];
    let graph = Graph::from_edges(ids(2, 1), &edges);
    let rows = Deduplicator::new(String::from("out.csv")).deduplicate_edges(&graph);
    assert_eq!(rows, vec![(-1, 2), (0, 1), (1, -1), (2, 1)]);
}

#[test]
fn reloading_the_deduplicated_list_gives_it_back() {
    let edges = vec![(1, 2), (0, 1), (1, 2), (0, 2), (2, -1), (0, 1)];
    let dedup = Deduplicator::new(String::new());
    let first = dedup.deduplicate_edges(&Graph::from_edges(ids(2, 1), &edges));
    let second = dedup.deduplicate_edges(&Graph::from_edges(ids(2, 1), &first));
    assert_eq!(first, second);
}

#[test]
fn reverse_adjacency_must_be_built_first() {
    let mut graph = Graph::from_edges(ids(3, 0), &vec![(0, 1), (2, 1), (1, 3)]);
    assert_eq!(graph.neighbors_in(1), Err(GraphError::ReverseNotBuilt));
    graph.ensure_reversed_edges_exist();
    let mut preds = graph.neighbors_in(1).unwrap().clone();
    preds.sort();
    assert_eq!(preds, vec![0, 2]);
    assert_eq!(graph.neighbors_in(0).unwrap().len(), 0);
    assert_eq!(graph.neighbors_out(1), &vec![3]);
}

#[test]
fn keys_are_the_sources() {
    let graph = Graph::from_edges(ids(4, 0), &vec![(3, 1), (0, 1), (4, 0)]);
    assert_eq!(sorted_keys(&graph), vec![0, 3, 4]);
}

#[test]
fn degree_values_of_a_small_graph() {
    // 0 -> 1, 0 -> 2, 1 -> 2, 2 -> 3
    let mut graph = Graph::from_edges(ids(3, 0), &vec![(0, 1), (0, 2), (1, 2), (2, 3)]);
    let v = DegreeCalculator::new().collect_values_for_node(1, &mut graph).unwrap();
    assert_eq!(v.node_id, 1);
    assert_eq!(v.d_in, 1);
    assert_eq!(v.d_out, 1);
    // successors of 1: {2}, out-degree of 2 is 1
    assert_eq!(v.and_out, NeighborDegree { degree_sum: 1, neighbor_count: 1 });
    // predecessors of 1: {0}, in-degree of 0 is 0
    assert_eq!(v.and_in, NeighborDegree { degree_sum: 0, neighbor_count: 1 });
    // both: [2, 0]; degrees 2+1 and 0+2
    assert_eq!(v.and_total, NeighborDegree { degree_sum: 5, neighbor_count: 2 });
    // two hops out: [2, 3]; out-degrees 1 and 0
    assert_eq!(v.iand_out, NeighborDegree { degree_sum: 1, neighbor_count: 2 });
    // two hops in: [0]
    assert_eq!(v.iand_in, NeighborDegree { degree_sum: 0, neighbor_count: 1 });
    // both: [2, 0, 3, ...] successors of 2 = [3], predecessors of 0 = []
    assert_eq!(v.iand_total, NeighborDegree { degree_sum: 6, neighbor_count: 3 });
    assert!(v.is_non_zero());
    let isolated = DegreeCalculator::new().collect_values_for_node(-0, &mut Graph::from_edges(ids(1, 0), &vec![])).unwrap();
    assert!(!isolated.is_non_zero());
    assert_eq!(isolated.and_out, NeighborDegree { degree_sum: 0, neighbor_count: 0 });
}

#[test]
fn mutual_neighbour_counts_once_in_both_directions() {
    // 0 -> 1, 0 -> 2, 1 -> 0: node 1 is a successor and a predecessor of 0
    let mut graph = Graph::from_edges(ids(2, 0), &vec![(0, 1), (0, 2), (1, 0)]);
    let v = DegreeCalculator::new().collect_values_for_node(0, &mut graph).unwrap();
    assert_eq!(v.d_in, 1);
    assert_eq!(v.d_out, 2);
    // union {1, 2}: degrees (1 out + 1 in) and (0 out + 1 in)
    assert_eq!(v.and_total, NeighborDegree { degree_sum: 3, neighbor_count: 2 });
    // [1, 2] then successors of 1 and 2 ([0]) then predecessors of 1 ([0])
    assert_eq!(v.iand_total, NeighborDegree { degree_sum: 9, neighbor_count: 4 });
}

#[test]
fn reverse_adjacency_is_the_transpose() {
    let mut graph = Graph::from_edges(ids(3, 1), &vec![(0, 1), (1, -1), (-1, 3), (2, 3)]);
    graph.ensure_reversed_edges_exist();
    let mut into_three = graph.neighbors_in(3).unwrap().clone();
    into_three.sort();
    assert_eq!(into_three, vec![-1, 2]);
    assert_eq!(graph.neighbors_in(-1).unwrap(), &vec![1]);
    assert!(graph.edges_reversed().is_ok());
    let mut keys = graph.keys();
    keys.sort();
    assert_eq!(keys, vec![-1, 0, 1, 2]);
}

fn betweenness(graph: &Graph) -> HashMap<i64, f64> {
    let mut c: HashMap<i64, f64> = HashMap::new();
    for s in sorted_keys(graph) {
        let sp: ShortestPaths = shortest_paths(graph, s);
        assert!(!sp.overflow);
        let mut delta: HashMap<i64, f64> = HashMap::new();
        for &w in sp.order.iter().rev() {
            let dw = *delta.get(&w).unwrap_or(&0.0);
            if let Some(ps) = sp.preds.get(&w) {
                for &v in ps {
                    let add = (sp.sigma[&v] as f64 / sp.sigma[&w] as f64) * (1.0 + dw);
                    *delta.entry(v).or_insert(0.0) += add;
                }
            }
            if w != s {
                *c.entry(w).or_insert(0.0) += dw;
            }
        }
    }
    c
}

#[test]
fn betweenness_of_a_directed_line() {
    let graph = Graph::from_edges(ids(4, 0), &vec![(0, 1), (1, 2), (2, 3), (3, 4)]);
    let c = betweenness(&graph);
    let expected = [(0, 0.0), (1, 3.0), (2, 4.0), (3, 3.0), (4, 0.0)];
    for (node, value) in expected {
        assert!((c.get(&node).copied().unwrap_or(0.0) - value).abs() < 1e-9);
    }
}

#[test]
fn search_counts_shortest_paths() {
    // two shortest paths from 0 to 3: via 1 and via 2
    let graph = Graph::from_edges(ids(3, 0), &vec![(0, 1), (0, 2), (1, 3), (2, 3)]);
    let sp = shortest_paths(&graph, 0);
    assert_eq!(sp.order, vec![0, 1, 2, 3]);
    assert_eq!(sp.dist[&3], 2);
    assert_eq!(sp.sigma[&3], 2);
    assert_eq!(sp.preds[&3], vec![1, 2]);
    assert!(sp.preds.get(&0).is_none());
}

#[test]
fn sources_are_split_into_ceil_sized_chunks() {
    let keys: Vec<i64> = (0..10).collect();
    let chunks = partition_sources(&keys, 3);
    assert_eq!(chunks, vec![vec![0, 1, 2, 3], vec![4, 5, 6, 7], vec![8, 9]]);
    assert!(partition_sources(&vec![], 4).is_empty());
    assert_eq!(partition_sources(&keys, 0).len(), 1);
}

#[test]
fn checkpoint_resume_positions() {
    assert_eq!(resume_counter(Some((2, 5)), 2, 10), 5);
    assert_eq!(resume_counter(Some((1, 5)), 2, 10), 0);
    assert_eq!(resume_counter(Some((2, 11)), 2, 10), 0);
    assert_eq!(resume_counter(None, 2, 10), 0);
    assert!(should_checkpoint(5, 1, true));
    assert!(should_checkpoint(10, 5, true));
    assert!(!should_checkpoint(7, 5, true));
    assert!(!should_checkpoint(10, 5, false));
    assert!(!should_checkpoint(10, 0, true));
}

#[test]
fn stack_and_queue_orders() {
    let mut s = Stack::new();
    s.push(1);
    s.push(2);
    assert_eq!(s.upop(), 2);
    assert_eq!(s.pop(), Some(1));
    assert_eq!(s.pop(), None);
    assert!(s.is_empty());
    let mut q = Queue::new();
    q.push(1);
    q.push(2);
    assert_eq!(q.upoll(), 1);
    assert_eq!(q.poll(), Some(2));
    assert_eq!(q.poll(), None);
    assert!(q.is_empty());
}

#[test]
fn offset_list_spans_the_boundaries() {
    let b = NodeBoundaries::new(ids(3, 2));
    let mut list = OffsetList::new(4u32, b);
    assert_eq!(list.len(), 6);
    assert_eq!(*list.get(1), 4);
    list.set(0, 0);
    assert_eq!(list.total_nodes(), 6);
    list.set(-2, 7);
    list.set(3, 9);
    assert_eq!(*list.get(-2), 7);
    assert_eq!(*list.get(3), 9);
    assert_eq!(*list.get(0), 0);
    assert_eq!(list.node_boundaries().range_inclusive(), (-2, 3));
}

#[test]
fn output_files_sit_in_the_output_directory() {
    let config = DatasetConfig {
        enabled: true,
        read_compressed: false,
        address_type: IpType::V4,
        input_path: String::from("in"),
        intermediate_path: String::from("mid"),
        output_path: String::from("out"),
    };
    let paths = compute_output_paths(&config);
    assert_eq!(paths.mapping(), &String::from("out/mapping.csv"));
    assert_eq!(paths.edges(), &String::from("out/edges.csv"));
    assert_eq!(paths.edges_deduplicated(), &String::from("out/edges_deduplicated.csv"));
    assert_eq!(paths.max_node_ids(), &String::from("out/max_node_ids.csv"));
    assert_eq!(paths.betweenness(), &String::from("out/betweenness.csv"));
    assert_eq!(paths.degree(), &String::from("out/degree.csv"));
}

#[test]
fn builder_parameters_keep_their_settings() {
    let mut p = GraphBuilderParameters::new(
        IpType::V6,
        String::from("in"),
        String::from("mid"),
        String::from("out"),
        true,
        false,
        true,
        false,
    );
    assert_eq!(*p.address_type(), IpType::V6);
    assert_eq!(p.input_path(), "in");
    assert_eq!(p.output_path(), "out");
    assert!(p.should_preprocess());
    assert!(!p.should_merge());
    assert!(p.should_persist_index());
    assert!(!p.should_persist_edges());
    p.add_intermediate_suffix("scan1");
    assert_eq!(p.intermediary_file_path(), "mid/scan1");
    assert_eq!(p.intermediary_file_path_original(), "mid");
}
