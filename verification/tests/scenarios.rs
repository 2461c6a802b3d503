use routing_engine::ch_preprocess::contract_graph;
use routing_engine::ch_query::{BiDirDijkstra, PackedPath};
use routing_engine::csr_graph::CSRGraph;
use routing_engine::graph::{EdgeMetadata, Graph, Node};
use routing_engine::shortcut_visitor::ShortcutVisitor;
use routing_engine::visitable::Visitable;
use routing_engine::witness_search::Dijkstra;

const ROADS: [(usize, usize, u64); 7] =
    [(0, 1, 10), (1, 2, 3), (2, 3, 6), (3, 4, 7), (4, 5, 8), (2, 6, 9), (4, 6, 4)];

fn road(weight: u64) -> EdgeMetadata {
    EdgeMetadata {
        weight,
        name: None,
        speed_limit: None,
        is_one_way: false,
        is_roundabout: false,
        prev_edge: None,
        next_edge: None,
    }
}

fn graph_of(num_nodes: usize, roads: &[(usize, usize, u64)], two_way: bool) -> Graph {
    let mut graph = Graph {
        fwd_edge_list: vec![Vec::new(); num_nodes],
        bwd_edge_list: vec![Vec::new(); num_nodes],
        nodes: (0..num_nodes).map(|i| Node::new(i, 100 + i as i64)).collect(),
        edges: Vec::new(),
        edge_metadata: Vec::new(),
    };
    for &(a, b, weight) in roads {
        let ends = if two_way { vec![(a, b), (b, a)] } else { vec![(a, b)] };
        for (src, dest) in ends {
            graph.edge_metadata.push(road(weight));
            let metadata_index = graph.edge_metadata.len() - 1;
            graph.add_edge(src, dest, metadata_index);
        }
    }
    graph
}

/// The seven-node graph, without the roads listed in `without`.
fn test_graph(without: &[(usize, usize)]) -> Graph {
    let roads: Vec<(usize, usize, u64)> =
        ROADS.iter().copied().filter(|&(a, b, _)| !without.contains(&(a, b))).collect();
    let mut graph = graph_of(7, &roads, true);
    let osm_ids = [101, 103, 104, 105, 106, 107, 108];
    for (node, osm_id) in graph.nodes.iter_mut().zip(osm_ids) {
        node.osm_id = osm_id;
    }
    graph
}

fn contract(graph: Graph) -> Graph {
    let mut overlay = graph.clone();
    let mut dijkstra = Dijkstra::new(overlay.num_nodes());
    contract_graph(graph, &mut overlay, &mut dijkstra);
    overlay
}

fn freeze(graph: Graph) -> CSRGraph {
    CSRGraph::from_preprocessed_graph(contract(graph))
}

fn query(csr: &CSRGraph, src: usize, dest: usize) -> Option<PackedPath> {
    let mut search = BiDirDijkstra::new(csr.nodes.len());
    search.init(src, dest);
    search.search(csr)
}

fn unpack(csr: &CSRGraph, path: &PackedPath) -> Vec<usize> {
    ShortcutVisitor::new(csr, path).visit()
}

fn road_weight(a: usize, b: usize) -> Option<u64> {
    ROADS.iter().find(|&&(x, y, _)| (x, y) == (a, b) || (x, y) == (b, a)).map(|r| r.2)
}

/// The cost of a walk over roads of the seven-node graph.
fn walk_weight(walk: &[usize]) -> Option<u64> {
    let mut total = 0;
    for pair in walk.windows(2) {
        total += road_weight(pair[0], pair[1])?;
    }
    Some(total)
}

/// The least cost from `src` to every node, by exhaustive relaxation.
fn plain_distances(graph: &Graph, src: usize) -> Vec<Option<u64>> {
    let mut dist: Vec<Option<u64>> = vec![None; graph.nodes.len()];
    dist[src] = Some(0);
    for _ in 0..graph.nodes.len() {
        for (id, edge) in graph.edges.iter().enumerate() {
            if !graph.fwd_edge_list[edge.src_id].contains(&id) {
                continue;
            }
            if let Some(d) = dist[edge.src_id] {
                let alt = d + graph.edge_metadata[edge.metadata_index].weight;
                if dist[edge.dest_id].is_none_or(|old| alt < old) {
                    dist[edge.dest_id] = Some(alt);
                }
            }
        }
    }
    dist
}

#[test]
fn query_from_0_to_5_costs_34() {
    let csr = freeze(test_graph(&[]));
    let path = query(&csr, 0, 5).unwrap();
    assert_eq!(path.weight, 10 + 3 + 6 + 7 + 8);
    let walk = unpack(&csr, &path);
    // Two walks cost 34: over node 3 (6 + 7) and over node 6 (9 + 4). Node
    // 3 has the lower id, is contracted first and finds the way over node 6
    // as its witness, so the hierarchy keeps the walk over node 6.
    assert!(walk == vec![0, 1, 2, 3, 4, 5] || walk == vec![0, 1, 2, 6, 4, 5]);
    assert_eq!(walk, vec![0, 1, 2, 6, 4, 5]);
    assert_eq!(walk_weight(&walk), Some(34));
    let osm: Vec<i64> = walk.iter().map(|&id| csr.nodes[id].osm_id).collect();
    assert_eq!(osm, vec![101, 103, 104, 108, 106, 107]);
}

#[test]
fn query_from_0_to_6_costs_22() {
    let csr = freeze(test_graph(&[]));
    let path = query(&csr, 0, 6).unwrap();
    assert_eq!(path.weight, 10 + 3 + 9);
    assert_eq!(unpack(&csr, &path), vec![0, 1, 2, 6]);
}

#[test]
fn query_from_5_to_6_costs_12() {
    let csr = freeze(test_graph(&[]));
    let path = query(&csr, 5, 6).unwrap();
    assert_eq!(path.weight, 8 + 4);
    assert_eq!(unpack(&csr, &path), vec![5, 4, 6]);
}

#[test]
fn query_from_3_to_3_costs_0() {
    let csr = freeze(test_graph(&[]));
    let path = query(&csr, 3, 3).unwrap();
    assert_eq!(path.weight, 0);
    assert!(path.entries.is_empty());
    assert_eq!(path.meeting_node, 3);
    assert_eq!(unpack(&csr, &path), vec![3]);
}

#[test]
fn query_at_a_node_without_edges_finds_no_path() {
    let mut graph = test_graph(&[]);
    graph.remove_incident(0);
    assert!(graph.fwd_edge_list[0].is_empty() && graph.bwd_edge_list[0].is_empty());
    let csr = freeze(graph);
    assert!(query(&csr, 0, 0).is_none());
    assert!(query(&csr, 0, 5).is_none());
    assert_eq!(query(&csr, 1, 5).unwrap().weight, 3 + 6 + 7 + 8);
}

#[test]
fn query_after_roads_are_removed() {
    let csr = freeze(test_graph(&[(4, 6)]));
    let path = query(&csr, 0, 6).unwrap();
    assert_eq!(path.weight, 10 + 3 + 9);
    assert_eq!(unpack(&csr, &path), vec![0, 1, 2, 6]);
    let csr = freeze(test_graph(&[(4, 6), (2, 6)]));
    assert!(query(&csr, 0, 6).is_none());
    assert!(query(&csr, 6, 0).is_none());
}

#[test]
fn every_query_costs_what_plain_search_finds() {
    let graph = test_graph(&[]);
    let csr = freeze(test_graph(&[]));
    for src in 0..7 {
        let plain = plain_distances(&graph, src);
        for dest in 0..7 {
            let path = query(&csr, src, dest);
            assert_eq!(path.as_ref().map(|p| p.weight), plain[dest], "{src} -> {dest}");
            let walk = unpack(&csr, &path.unwrap());
            assert_eq!(walk.first(), Some(&src));
            assert_eq!(walk.last(), Some(&dest));
            assert_eq!(walk_weight(&walk), plain[dest], "{src} -> {dest}");
        }
    }
}

#[test]
fn contraction_of_the_test_graph() {
    let overlay = contract(test_graph(&[]));
    assert_eq!(overlay.num_edges(), 16);
    let ranks: Vec<i32> = overlay.nodes.iter().map(|n| n.rank).collect();
    assert_eq!(ranks, vec![0, 1, 2, 0, 3, 4, 0]);
    // The two shortcuts bridge node 6 between nodes 2 and 4.
    let forth = &overlay.edge_metadata[overlay.edges[14].metadata_index];
    assert_eq!((overlay.edges[14].src_id, overlay.edges[14].dest_id), (2, 4));
    assert_eq!((forth.weight, forth.prev_edge, forth.next_edge), (13, Some(10), Some(13)));
    assert!(forth.is_one_way && forth.name.is_none() && forth.is_shortcut());
    let back = &overlay.edge_metadata[overlay.edges[15].metadata_index];
    assert_eq!((overlay.edges[15].src_id, overlay.edges[15].dest_id), (4, 2));
    assert_eq!((back.weight, back.prev_edge, back.next_edge), (13, Some(12), Some(11)));
}

#[test]
fn every_shortcut_packs_two_edges_that_add_up() {
    let overlay = contract(test_graph(&[]));
    for edge in &overlay.edges {
        let record = &overlay.edge_metadata[edge.metadata_index];
        if let (Some(prev), Some(next)) = (record.prev_edge, record.next_edge) {
            let first = &overlay.edges[prev];
            let second = &overlay.edges[next];
            assert_eq!(first.src_id, edge.src_id);
            assert_eq!(second.dest_id, edge.dest_id);
            assert_eq!(first.dest_id, second.src_id);
            assert_eq!(
                record.weight,
                overlay.edge_metadata[first.metadata_index].weight
                    + overlay.edge_metadata[second.metadata_index].weight
            );
        } else {
            assert!(record.prev_edge.is_none() && record.next_edge.is_none());
        }
    }
}

#[test]
fn empty_graph_and_single_node() {
    let csr = freeze(graph_of(0, &[], true));
    assert!(csr.nodes.is_empty() && csr.values_hot.is_empty());
    assert_eq!(csr.row_fwd_ptr, vec![0]);
    let csr = freeze(graph_of(1, &[], true));
    assert_eq!(csr.row_fwd_ptr, vec![0, 0]);
    assert!(query(&csr, 0, 0).is_none());
}

#[test]
fn two_nodes_with_one_road() {
    let csr = freeze(graph_of(2, &[(0, 1, 5)], true));
    let forth = query(&csr, 0, 1).unwrap();
    assert_eq!(forth.weight, 5);
    assert_eq!(forth.entries.len(), 1);
    assert_eq!(forth.entries[0].edge_id, 0);
    assert_eq!(unpack(&csr, &forth), vec![0, 1]);
    let back = query(&csr, 1, 0).unwrap();
    assert_eq!(back.weight, 5);
    assert_eq!(back.entries[0].edge_id, 1);
    assert_eq!(unpack(&csr, &back), vec![1, 0]);
    let one_way = freeze(graph_of(2, &[(0, 1, 5)], false));
    assert_eq!(query(&one_way, 0, 1).unwrap().weight, 5);
    assert!(query(&one_way, 1, 0).is_none());
}

#[test]
fn self_loops_give_no_shortcut() {
    let overlay = contract(graph_of(3, &[(0, 1, 2), (1, 1, 1), (1, 2, 2)], false));
    assert_eq!(overlay.num_edges(), 4);
    let record = &overlay.edge_metadata[overlay.edges[3].metadata_index];
    assert_eq!((overlay.edges[3].src_id, overlay.edges[3].dest_id), (0, 2));
    assert_eq!((record.weight, record.prev_edge, record.next_edge), (4, Some(0), Some(2)));
}

#[test]
fn separate_components_have_no_path() {
    let csr = freeze(graph_of(4, &[(0, 1, 1), (2, 3, 1)], true));
    assert!(query(&csr, 0, 3).is_none());
    assert!(query(&csr, 2, 1).is_none());
    assert_eq!(query(&csr, 2, 3).unwrap().weight, 1);
}

#[test]
fn route_gives_the_external_ids_of_the_walk() {
    let csr = routing_engine::route::preprocess(test_graph(&[]));
    assert!(csr.is_valid());
    let mut search = BiDirDijkstra::new(csr.nodes.len());
    let src = routing_engine::route::find_node(&csr, 101).unwrap();
    let dest = routing_engine::route::find_node(&csr, 108).unwrap();
    assert_eq!((src, dest), (0, 6));
    assert_eq!(routing_engine::route::find_node(&csr, 102), None);
    let found = routing_engine::route::route(&csr, &mut search, src, dest);
    assert_eq!(found, Some((22, vec![101, 103, 104, 108])));
    // The query can be run again.
    let back = routing_engine::route::route(&csr, &mut search, dest, src);
    assert_eq!(back, Some((22, vec![108, 104, 103, 101])));
    let separate = routing_engine::route::preprocess(graph_of(3, &[(0, 1, 1)], true));
    let mut search = BiDirDijkstra::new(3);
    assert_eq!(routing_engine::route::route(&separate, &mut search, 0, 2), None);
    assert_eq!(routing_engine::route::route(&separate, &mut search, 2, 2), None);
    assert_eq!(routing_engine::route::route(&separate, &mut search, 1, 1), Some((0, vec![101])));
}

#[test]
fn unpacking_walks_over_the_edges_that_a_shortcut_packs() {
    // A chain 0 - 1 - 2 - 3 - 4 whose inner nodes go first.
    let mut graph = graph_of(5, &[(3, 1, 2), (1, 2, 3), (2, 4, 5), (0, 3, 7)], false);
    graph.nodes[3].osm_id = 9;
    let overlay = contract(graph);
    let csr = CSRGraph::from_preprocessed_graph(overlay);
    let path = query(&csr, 0, 4).unwrap();
    assert_eq!(path.weight, 17);
    let walk = unpack(&csr, &path);
    assert_eq!(walk, vec![0, 3, 1, 2, 4]);
    // Every pair of neighbours on the walk is joined by an edge that
    // packs nothing, and these edges cost what the path costs.
    let mut total = 0;
    for pair in walk.windows(2) {
        let cold = csr
            .values_cold
            .iter()
            .find(|c| (c.from_node, c.to_node) == (pair[0], pair[1]) && c.prev_edge.is_none())
            .unwrap();
        total += csr.values_hot.iter().find(|h| h.id == cold.id).unwrap().weight;
    }
    assert_eq!(total, path.weight);
    assert!(path.entries.len() < walk.len() - 1);
}

#[test]
fn a_snapshot_from_outside_is_checked() {
    let mut csr = freeze(test_graph(&[]));
    assert!(csr.is_valid());
    csr.values_hot[3].target = 7;
    assert!(!csr.is_valid());
    csr.values_hot[3].target = 1;
    csr.row_fwd_ptr[2] = 0;
    assert!(!csr.is_valid());
    let mut csr = freeze(test_graph(&[]));
    csr.values_cold.swap(0, 2);
    assert!(!csr.is_valid());
    let mut csr = freeze(test_graph(&[]));
    csr.values_cold[28].prev_edge = Some(14);
    assert!(!csr.is_valid());
    csr.values_cold[28].prev_edge = Some(13);
    assert!(csr.is_valid());
    let mut csr = freeze(test_graph(&[]));
    csr.nodes[1].id = 0;
    assert!(!csr.is_valid());
    let mut graph = test_graph(&[]);
    graph.remove_incident(0);
    assert!(!freeze(graph).is_valid());
}

#[test]
fn a_graph_from_outside_is_checked() {
    let graph = test_graph(&[]);
    assert!(graph.is_valid());
    assert!(contract(test_graph(&[])).is_valid());
    let copy = graph.duplicate();
    assert_eq!(copy.edges, graph.edges);
    assert_eq!(copy.fwd_edge_list, graph.fwd_edge_list);
    assert_eq!(copy.bwd_edge_list, graph.bwd_edge_list);
    assert_eq!(copy.edge_metadata.len(), 14);
    assert!(copy.is_valid());
    let mut broken = test_graph(&[]);
    broken.fwd_edge_list[0].push(0);
    assert!(!broken.is_valid());
    let mut broken = test_graph(&[]);
    broken.fwd_edge_list[0] = vec![2];
    assert!(!broken.is_valid());
    let mut broken = test_graph(&[]);
    broken.bwd_edge_list[1].clear();
    assert!(!broken.is_valid());
    let mut broken = test_graph(&[]);
    broken.remove_incident(3);
    assert!(!broken.is_valid());
    let mut broken = test_graph(&[]);
    broken.nodes[2].dense_id = 3;
    assert!(!broken.is_valid());
    let mut broken = test_graph(&[]);
    broken.edges[0].dest_id = 7;
    assert!(!broken.is_valid());
    let mut broken = test_graph(&[]);
    broken.edge_metadata[4].weight = u64::MAX;
    assert!(!broken.is_valid());
    let mut broken = contract(test_graph(&[]));
    broken.edge_metadata[14].weight = 12;
    assert!(!broken.is_valid());
    let mut broken = contract(test_graph(&[]));
    broken.edge_metadata[14].next_edge = None;
    assert!(!broken.is_valid());
    let mut broken = contract(test_graph(&[]));
    broken.edge_metadata[14].prev_edge = Some(12);
    assert!(!broken.is_valid());
    let overlay = routing_engine::ch_preprocess::build_overlay(test_graph(&[]));
    assert_eq!(overlay.edges, contract(test_graph(&[])).edges);
    let ranks: Vec<i32> = overlay.nodes.iter().map(|n| n.rank).collect();
    assert_eq!(ranks, vec![0, 1, 2, 0, 3, 4, 0]);
}

#[test]
fn a_query_within_a_budget_of_pops() {
    let csr = freeze(test_graph(&[]));
    let mut search = BiDirDijkstra::new(csr.nodes.len());
    search.init(0, 5);
    assert!(search.search_within(&csr, 0).is_none());
    search.init(0, 5);
    assert!(search.search_within(&csr, 1).is_none());
    search.init(0, 5);
    let path = search.search_within(&csr, 100).unwrap();
    assert_eq!(path.weight, 34);
    search.init(3, 3);
    let path = search.search_within(&csr, 0).unwrap();
    assert_eq!(path.weight, 0);
    assert_eq!(path.meeting_node, 3);
    assert!(path.entries.is_empty());
}
