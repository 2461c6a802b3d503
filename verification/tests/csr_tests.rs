use routing_engine::ch_preprocess::contract_graph;
use routing_engine::csr_graph::{CSREdgeCold, CSREdgeHot, CSRGraph, CSRNode};
use routing_engine::graph::{EdgeMetadata, Graph, Node};
use routing_engine::witness_search::Dijkstra;

fn graph_of(num_nodes: usize, edges: &[(usize, usize, u64)]) -> Graph {
    let mut graph = Graph {
        fwd_edge_list: vec![Vec::new(); num_nodes],
        bwd_edge_list: vec![Vec::new(); num_nodes],
        nodes: (0..num_nodes).map(|i| Node::new(i, 100 + i as i64)).collect(),
        edges: Vec::new(),
        edge_metadata: Vec::new(),
    };
    for &(src, dest, weight) in edges {
        graph.edge_metadata.push(EdgeMetadata {
            weight,
            name: Some(format!("road {weight}")),
            speed_limit: None,
            is_one_way: true,
            is_roundabout: false,
            prev_edge: None,
            next_edge: None,
        });
        let metadata_index = graph.edge_metadata.len() - 1;
        graph.add_edge(src, dest, metadata_index);
    }
    graph
}

fn sample() -> Graph {
    graph_of(4, &[(2, 0, 5), (0, 1, 7), (0, 3, 2), (3, 0, 2), (1, 2, 1)])
}

#[test]
fn records_are_what_they_are_made_of() {
    assert_eq!(CSRNode::new(1, 2, 3, 4), CSRNode { id: 1, osm_id: 2, rank: 3, flags: 4 });
    assert_eq!(CSREdgeHot::new(1, 2, 3), CSREdgeHot { id: 1, target: 2, weight: 3 });
    let cold = CSREdgeCold::new(1, Some("a".to_string()), 2, 3, Some(4), None);
    assert_eq!((cold.id, cold.from_node, cold.to_node), (1, 2, 3));
    assert_eq!((cold.name.as_deref(), cold.prev_edge, cold.next_edge), (Some("a"), Some(4), None));
}

#[test]
fn snapshot_lays_rows_out_node_by_node() {
    let csr = CSRGraph::from_preprocessed_graph(sample());
    assert_eq!(csr.row_fwd_ptr, vec![0, 2, 3, 4, 5]);
    assert_eq!(csr.cols_fwd, vec![0, 1, 2, 3, 4]);
    assert_eq!(csr.row_bwd_ptr, vec![0, 2, 3, 4, 5]);
    assert_eq!(csr.cols_bwd, vec![5, 6, 7, 8, 9]);
    assert_eq!(csr.values_hot.len(), csr.cols_fwd.len() + csr.cols_bwd.len());
    assert_eq!(csr.values_cold.len(), csr.values_hot.len());
    assert_eq!(csr.values_hot[0], CSREdgeHot { id: 1, target: 1, weight: 7 });
    assert_eq!(csr.values_hot[1], CSREdgeHot { id: 2, target: 3, weight: 2 });
    assert_eq!(csr.values_hot[3], CSREdgeHot { id: 0, target: 0, weight: 5 });
    // Backward rows hold the source as the target.
    assert_eq!(csr.values_hot[5], CSREdgeHot { id: 0, target: 2, weight: 5 });
    assert_eq!(csr.values_hot[6], CSREdgeHot { id: 3, target: 3, weight: 2 });
    assert_eq!(csr.nodes[3], CSRNode { id: 3, osm_id: 103, rank: 0, flags: 0 });
}

#[test]
fn snapshot_keeps_the_neighbours_of_every_node() {
    let graph = sample();
    let csr = CSRGraph::from_preprocessed_graph(sample());
    for node in 0..graph.num_nodes() {
        let fwd: Vec<(usize, usize, u64)> =
            csr.fwd_neighbors(node).iter().map(|hot| (hot.id, hot.target, hot.weight)).collect();
        let expected: Vec<(usize, usize, u64)> = graph.fwd_edge_list[node]
            .iter()
            .map(|&e| (e, graph.edges[e].dest_id, graph.edge_metadata[graph.edges[e].metadata_index].weight))
            .collect();
        assert_eq!(fwd, expected);
        let bwd: Vec<(usize, usize, u64)> =
            csr.bwd_neighbors(node).iter().map(|hot| (hot.id, hot.target, hot.weight)).collect();
        let expected: Vec<(usize, usize, u64)> = graph.bwd_edge_list[node]
            .iter()
            .map(|&e| (e, graph.edges[e].src_id, graph.edge_metadata[graph.edges[e].metadata_index].weight))
            .collect();
        assert_eq!(bwd, expected);
    }
}

#[test]
fn cold_records_stand_in_pairs_by_edge_id() {
    let graph = sample();
    let csr = CSRGraph::from_preprocessed_graph(sample());
    assert_eq!(csr.values_cold.len(), 2 * graph.num_edges());
    for (id, edge) in graph.edges.iter().enumerate() {
        for cold in [csr.get_fwd_edge_cold(id), csr.get_bwd_edge_cold(id)] {
            assert_eq!(cold.id, id);
            assert_eq!((cold.from_node, cold.to_node), (edge.src_id, edge.dest_id));
            assert_eq!(cold.name, graph.edge_metadata[edge.metadata_index].name);
            assert_eq!((cold.prev_edge, cold.next_edge), (None, None));
        }
    }
    // Before the sort the records stood in row order: 1, 2, 4, 0, 3, ...
    assert_eq!(csr.values_cold[0].name.as_deref(), Some("road 5"));
}

#[test]
fn cold_records_of_shortcuts_name_the_packed_edges() {
    let roads = [(0, 1, 10), (1, 2, 3), (2, 3, 6), (3, 4, 7), (4, 5, 8), (2, 6, 9), (4, 6, 4)];
    let edges: Vec<(usize, usize, u64)> =
        roads.iter().flat_map(|&(a, b, w)| [(a, b, w), (b, a, w)]).collect();
    let graph = graph_of(7, &edges);
    let mut overlay = graph.clone();
    let mut dijkstra = Dijkstra::new(7);
    contract_graph(graph, &mut overlay, &mut dijkstra);
    let csr = CSRGraph::from_preprocessed_graph(overlay);
    assert_eq!(csr.values_cold.len(), 32);
    for (position, cold) in csr.values_cold.iter().enumerate() {
        assert_eq!(cold.id, position / 2);
    }
    let shortcut = csr.get_fwd_edge_cold(14);
    assert_eq!((shortcut.from_node, shortcut.to_node), (2, 4));
    assert_eq!((shortcut.prev_edge, shortcut.next_edge), (Some(10), Some(13)));
    assert_eq!(shortcut.name, None);
    let other = csr.get_bwd_edge_cold(15);
    assert_eq!((other.from_node, other.to_node), (4, 2));
    assert_eq!((other.prev_edge, other.next_edge), (Some(12), Some(11)));
    assert_eq!(csr.get_bwd_edge_cold(10).name.as_deref(), Some("road 9"));
    let ranks: Vec<i32> = csr.nodes.iter().map(|n| n.rank).collect();
    assert_eq!(ranks, vec![0, 1, 2, 0, 3, 4, 0]);
    // The shortcut stands at the end of the forward row of node 2.
    let row: Vec<usize> = csr.fwd_neighbors(2).iter().map(|hot| hot.id).collect();
    assert_eq!(row, vec![3, 4, 10, 14]);
    assert_eq!(csr.fwd_neighbors(2)[3].weight, 13);
}
