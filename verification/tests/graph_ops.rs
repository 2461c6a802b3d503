use routing_engine::ch_preprocess::{add_shortcut, contract_graph, contract_node, rank_node};
use routing_engine::graph::{add_weights, Edge, EdgeMetadata, Graph, Node, INFINITY};
use routing_engine::witness_search::{local_dijkstra, Dijkstra};

fn road(weight: u64) -> EdgeMetadata {
    EdgeMetadata {
        weight,
        name: None,
        speed_limit: None,
        is_one_way: false,
        is_roundabout: false,
        prev_edge: None,
        next_edge: None,
    }
}

fn graph_of(num_nodes: usize, edges: &[(usize, usize, u64)]) -> Graph {
    let mut graph = Graph {
        fwd_edge_list: vec![Vec::new(); num_nodes],
        bwd_edge_list: vec![Vec::new(); num_nodes],
        nodes: (0..num_nodes).map(|i| Node::new(i, 100 + i as i64)).collect(),
        edges: Vec::new(),
        edge_metadata: Vec::new(),
    };
    for &(src, dest, weight) in edges {
        graph.edge_metadata.push(road(weight));
        let metadata_index = graph.edge_metadata.len() - 1;
        graph.add_edge(src, dest, metadata_index);
    }
    graph
}

fn two_way(roads: &[(usize, usize, u64)]) -> Vec<(usize, usize, u64)> {
    roads.iter().flat_map(|&(a, b, w)| [(a, b, w), (b, a, w)]).collect()
}

fn seven_nodes() -> Graph {
    graph_of(
        7,
        &two_way(&[(0, 1, 10), (1, 2, 3), (2, 3, 6), (3, 4, 7), (4, 5, 8), (2, 6, 9), (4, 6, 4)]),
    )
}

/// An edge is in the forward list of its source exactly when it is in the
/// backward list of its destination; no list repeats an id.
fn is_coherent(graph: &Graph) -> bool {
    let listed = graph.edges.iter().enumerate().all(|(id, edge)| {
        graph.fwd_edge_list[edge.src_id].contains(&id)
            == graph.bwd_edge_list[edge.dest_id].contains(&id)
    });
    let placed = graph.fwd_edge_list.iter().enumerate().all(|(v, list)| {
        list.iter().all(|&e| graph.edges[e].src_id == v)
            && list.iter().enumerate().all(|(i, e)| !list[..i].contains(e))
    }) && graph.bwd_edge_list.iter().enumerate().all(|(v, list)| {
        list.iter().all(|&e| graph.edges[e].dest_id == v)
            && list.iter().enumerate().all(|(i, e)| !list[..i].contains(e))
    });
    listed && placed
}

#[test]
fn weights_add_up_to_infinity_at_most() {
    assert_eq!(add_weights(3, 4), 7);
    assert_eq!(add_weights(INFINITY, 1), INFINITY);
    assert_eq!(add_weights(INFINITY - 1, 1), INFINITY);
    assert_eq!(add_weights(INFINITY - 2, 1), INFINITY - 1);
    assert_eq!(add_weights(INFINITY, INFINITY), INFINITY);
}

#[test]
fn edges_and_nodes_are_what_they_are_made_of() {
    let edge = Edge::new(1, 2, 3);
    assert_eq!((edge.get_src_id(), edge.get_dest_id(), edge.get_metadata_index()), (1, 2, 3));
    assert_eq!(Edge::new_shortcut(4, 5, 6), Edge { src_id: 4, dest_id: 5, metadata_index: 6 });
    let mut node = Node::new(3, 77);
    assert_eq!((node.dense_id, node.osm_id, node.get_rank()), (3, 77, 0));
    assert!(!node.get_is_contracted() && !node.get_is_traffic_light());
    assert_eq!(node.get_lat_lon(), (0, 0));
    node.set_rank(4);
    node.raise_rank(2);
    assert_eq!(node.get_rank(), 4);
    node.raise_rank(4);
    assert_eq!(node.get_rank(), 4);
    node.raise_rank(9);
    assert_eq!(node.get_rank(), 9);
    node.set_is_contracted(true);
    node.set_is_traffic_light(true);
    node.set_lat_lon(520_000_000, -45_000_000);
    assert!(node.get_is_contracted() && node.get_is_traffic_light());
    assert_eq!(node.get_lat_lon(), (520_000_000, -45_000_000));
    let mut record = road(5);
    assert!(!record.is_shortcut());
    record.prev_edge = Some(1);
    record.next_edge = Some(2);
    assert!(record.is_shortcut());
    assert_eq!((record.get_prev_edge(), record.get_next_edge()), (Some(1), Some(2)));
}

#[test]
fn add_edge_enters_both_lists() {
    let mut graph = graph_of(3, &[(0, 1, 4)]);
    graph.edge_metadata.push(road(6));
    let id = graph.add_edge(1, 2, 1);
    assert_eq!(id, 1);
    assert_eq!((graph.num_nodes(), graph.num_edges()), (3, 2));
    assert_eq!(graph.get_fwd_neighbors(1), &vec![1]);
    assert_eq!(graph.get_bwd_neighbors(2), &vec![1]);
    assert_eq!(graph.get_bwd_neighbors(1), &vec![0]);
    assert_eq!(*graph.get_edge(1), Edge { src_id: 1, dest_id: 2, metadata_index: 1 });
    assert_eq!(graph.get_edge_metadata(graph.get_edge(1)).weight, 6);
    assert_eq!(graph.get_node(2).osm_id, 102);
    assert_eq!(graph.get_nodes().len(), 3);
    let shortcut = graph.add_shortcut_edge(0, 2, 1);
    assert_eq!(shortcut, 2);
    assert_eq!(graph.get_fwd_neighbors(0), &vec![0, 2]);
    assert_eq!((graph.get_num_fwd(), graph.get_num_bwd()), (Some(3), Some(3)));
    graph.get_node_mut(1).set_rank(5);
    assert_eq!(graph.get_node(1).get_rank(), 5);
    graph.get_edge_mut(2).metadata_index = 0;
    assert_eq!(graph.get_edge(2).metadata_index, 0);
    assert!(is_coherent(&graph));
}

#[test]
fn find_edge_takes_the_first_in_list_order() {
    let graph = graph_of(3, &[(0, 1, 4), (0, 2, 5), (0, 1, 6)]);
    assert_eq!(graph.find_edge(0, 1), Some(&Edge { src_id: 0, dest_id: 1, metadata_index: 0 }));
    assert_eq!(graph.find_edge(0, 2).map(|e| e.metadata_index), Some(1));
    assert_eq!(graph.find_edge(1, 0), None);
    assert!(graph.edge_exists(0, 2));
    assert!(!graph.edge_exists(2, 0));
}

#[test]
fn remove_incident_keeps_the_lists_coherent() {
    let mut graph = seven_nodes();
    assert!(is_coherent(&graph));
    graph.remove_incident(2);
    assert!(graph.fwd_edge_list[2].is_empty() && graph.bwd_edge_list[2].is_empty());
    assert_eq!(graph.fwd_edge_list[1], vec![1]);
    assert_eq!(graph.bwd_edge_list[1], vec![0]);
    assert_eq!(graph.fwd_edge_list[3], vec![6]);
    assert_eq!(graph.fwd_edge_list[6], vec![13]);
    assert_eq!(graph.bwd_edge_list[6], vec![12]);
    assert_eq!(graph.fwd_edge_list[4], vec![7, 8, 12]);
    assert_eq!((graph.num_edges(), graph.edge_metadata.len()), (14, 14));
    assert!(is_coherent(&graph));
    assert!(graph.edge_exists(2, 3));
    assert_eq!(graph.find_edge(1, 2), None);
}

#[test]
fn remove_incident_takes_self_loops_out() {
    let mut graph = graph_of(2, &[(0, 0, 1), (0, 1, 2), (1, 0, 3)]);
    graph.remove_incident(0);
    assert!(graph.fwd_edge_list.iter().chain(&graph.bwd_edge_list).all(|list| list.is_empty()));
    assert!(is_coherent(&graph));
}

#[test]
fn lists_stay_coherent_at_every_point_of_a_contraction() {
    let mut graph = seven_nodes();
    let mut overlay = graph.clone();
    let mut dijkstra = Dijkstra::new(7);
    for node in [3, 6, 0, 1, 2, 4, 5] {
        contract_node(&mut graph, &mut overlay, &mut dijkstra, node);
        assert!(is_coherent(&graph) && is_coherent(&overlay));
        assert_eq!(graph.edges, overlay.edges);
        graph.remove_incident(node);
        assert!(is_coherent(&graph) && is_coherent(&overlay));
    }
    assert!(graph.fwd_edge_list.iter().all(|list| list.is_empty()));
    assert_eq!(overlay.num_edges(), 16);
}

#[test]
fn witness_search_returns_at_the_bound() {
    let graph = seven_nodes();
    let mut dijkstra = Dijkstra::new(7);
    dijkstra.init(2, 3);
    // From 2 to 4 without node 3: over node 6, at 9 + 4.
    assert_eq!(dijkstra.search(&graph, 4, 13, 500), 13);
    // The searcher goes on from where it stopped.
    assert_eq!(dijkstra.search(&graph, 5, 100, 500), 21);
    assert_eq!(dijkstra.search(&graph, 3, 100, 500), INFINITY);
    dijkstra.init(2, 3);
    assert_eq!(dijkstra.search(&graph, 4, 12, 0), INFINITY);
    dijkstra.init(2, 3);
    // Two pops reach nodes 1 and 6 but not node 4.
    assert_eq!(dijkstra.search(&graph, 4, 12, 2), INFINITY);
    assert_eq!(dijkstra.search(&graph, 4, 12, 1), 13);
    dijkstra.init(0, 1);
    assert_eq!(dijkstra.search(&graph, 5, 1000, 500), INFINITY);
    assert_eq!(dijkstra.search(&graph, 0, 0, 0), 0);
}

#[test]
fn witness_search_stops_when_the_target_is_popped() {
    let graph = graph_of(3, &[(0, 1, 5), (0, 2, 1), (2, 1, 1)]);
    let mut dijkstra = Dijkstra::new(3);
    dijkstra.init(0, 9);
    // Node 2 pops before node 1 and lowers it to 2; the limit is never met.
    assert_eq!(dijkstra.search(&graph, 1, 0, 500), 2);
}

#[test]
fn importance_is_shortcuts_less_degree() {
    let graph = seven_nodes();
    let mut dijkstra = Dijkstra::new(7);
    let ranks: Vec<i128> = (0..7).map(|v| rank_node(&graph, &mut dijkstra, v)).collect();
    assert_eq!(ranks, vec![-2, -2, -2, -4, 0, -2, -4]);
}

#[test]
fn add_shortcut_appends_a_record_and_an_edge() {
    let mut graph = graph_of(3, &[(0, 1, 4), (1, 2, 5)]);
    add_shortcut(&mut graph, 0, 2, 9, 0, 1);
    assert_eq!(graph.edges[2], Edge { src_id: 0, dest_id: 2, metadata_index: 2 });
    let record = &graph.edge_metadata[2];
    assert_eq!((record.weight, record.prev_edge, record.next_edge), (9, Some(0), Some(1)));
    assert!(record.is_one_way && !record.is_roundabout);
    assert!(record.name.is_none() && record.speed_limit.is_none());
    assert_eq!(graph.fwd_edge_list[0], vec![0, 2]);
    assert_eq!(graph.bwd_edge_list[2], vec![1, 2]);
}

#[test]
fn contract_node_bridges_where_no_witness_is() {
    let mut graph = graph_of(4, &two_way(&[(0, 1, 1), (1, 2, 1), (0, 3, 1), (3, 2, 1)]));
    let mut overlay = graph.clone();
    let mut dijkstra = Dijkstra::new(4);
    // Around node 1 the way over node 3 costs the same: no shortcut.
    contract_node(&mut graph, &mut overlay, &mut dijkstra, 1);
    assert_eq!(overlay.num_edges(), 8);
    graph.remove_incident(1);
    // With node 1 gone nothing leads around node 3.
    contract_node(&mut graph, &mut overlay, &mut dijkstra, 3);
    assert_eq!(overlay.num_edges(), 10);
    assert_eq!((overlay.edges[8].src_id, overlay.edges[8].dest_id), (0, 2));
    assert_eq!((overlay.edges[9].src_id, overlay.edges[9].dest_id), (2, 0));
    assert_eq!(overlay.edge_metadata[8].weight, 2);
    assert_eq!(graph.edges, overlay.edges);
}

#[test]
fn ch_preprocess_test_graph_contraction() {
    let graph = seven_nodes();
    let mut overlay = seven_nodes();
    let mut dijkstra = Dijkstra::new(overlay.num_nodes());
    contract_graph(graph, &mut overlay, &mut dijkstra);
    for node in &overlay.nodes {
        println!("{:?}", node);
        for edge in overlay.get_fwd_neighbors(node.dense_id) {
            println!("{:?}", overlay.get_edge(*edge));
        }
        println!("\n\n");
    }
    assert!(is_coherent(&overlay));
}

#[test]
fn ch_preprocesses_test_graph_contraction() {
    let graph = seven_nodes();
    let mut overlay = seven_nodes();
    let mut dijkstra = Dijkstra::new(overlay.num_nodes());
    contract_graph(graph, &mut overlay, &mut dijkstra);
    for node in &overlay.nodes {
        println!("{:?}", node);
        for edge in overlay.get_fwd_neighbors(node.dense_id) {
            println!("{:?}", overlay.get_edge(*edge));
        }
        println!("\n\n");
    }
    assert_eq!(overlay.get_fwd_neighbors(2), &vec![3, 4, 10, 14]);
}

#[test]
fn witness_search_test_local_dijkstra() {
    //
    //       (2)     (2)
    //     0 ---- 4 ---- 1
    //  (1)|             |(1)
    //    2 ----------- 3
    //         (1)
    //
    let graph = graph_of(5, &[(0, 4, 2), (0, 2, 1), (1, 3, 1), (2, 3, 1), (3, 1, 1), (4, 1, 2)]);
    let weight = local_dijkstra(&graph, 0, 1, 4, 4);
    assert_eq!(weight, Some(3));
}

#[test]
fn local_dijkstra_gives_up_at_the_limit() {
    let graph = graph_of(5, &[(0, 4, 2), (0, 2, 1), (1, 3, 1), (2, 3, 1), (3, 1, 1), (4, 1, 2)]);
    assert_eq!(local_dijkstra(&graph, 0, 1, 4, 3), None);
    assert_eq!(local_dijkstra(&graph, 0, 1, 2, 5), Some(4));
    assert_eq!(local_dijkstra(&graph, 0, 0, 4, 1), Some(0));
    assert_eq!(local_dijkstra(&graph, 0, 0, 4, 0), None);
    assert_eq!(local_dijkstra(&graph, 1, 0, 4, 100), None);
}

#[test]
fn mem_usage_names_every_array() {
    let graph = seven_nodes();
    let size = |bytes: usize| humansize::format_size(bytes, humansize::DECIMAL);
    let lists = 7 * std::mem::size_of::<Vec<usize>>() + 14 * std::mem::size_of::<usize>();
    let nodes = 7 * std::mem::size_of::<Node>();
    let edges = 14 * std::mem::size_of::<Edge>();
    let records = 14 * std::mem::size_of::<EdgeMetadata>();
    let expected = format!(
        "nodes={}, fwd_edges={}, bwd_edges={}, edges={}, edge_metadata={}, total={}",
        size(nodes),
        size(lists),
        size(lists),
        size(edges),
        size(records),
        size(nodes + 2 * lists + edges + records),
    );
    assert_eq!(graph.get_mem_usage_str(), expected);
    assert!(expected.contains("B, fwd_edges="));
}
