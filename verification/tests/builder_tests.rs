use routing_engine::builder::{
    build_edge_lists, build_nodes, create_intersections_map, from_parse_result, ordered_keys,
    parse_polyline_data, plan_segments, BuildError, NodeParseData, PBFParseResult, Segment,
    WayParseData,
};
use routing_engine::graph::{Edge, INFINITY};
use routing_engine::tags::{
    has_value, is_oneway, is_roundabout, is_traffic_signal, parse_way_max_speed, parse_way_name,
};
use std::collections::BTreeMap;

/// Degrees in units of 1e-7 degree.
fn degrees(value: i32) -> i32 {
    value * 10_000_000
}

fn way(id: i64, refs: &[i64], is_oneway: bool, is_roundabout: bool) -> WayParseData {
    WayParseData { id, name: None, max_speed: None, is_roundabout, is_oneway, refs: refs.to_vec() }
}

fn maps_of(nodes: &[i64], ways: Vec<WayParseData>) -> PBFParseResult {
    let mut maps = PBFParseResult::new();
    for (i, &id) in nodes.iter().enumerate() {
        maps.add_node(id, degrees(10 + i as i32), degrees(20 + i as i32), &Vec::new());
    }
    for way in ways {
        maps.ways.insert(way.id, way);
    }
    maps
}

fn tags(pairs: &[(&str, &str)]) -> Vec<(String, String)> {
    pairs.iter().map(|(k, v)| (k.to_string(), v.to_string())).collect()
}

#[test]
fn builder_test_build_nodes() {
    let mut nodes_map: BTreeMap<i64, NodeParseData> = BTreeMap::new();
    nodes_map.insert(
        100,
        NodeParseData { dense_index: 0, lat: degrees(10), lon: degrees(20), is_traffic_signal: false },
    );
    nodes_map.insert(
        200,
        NodeParseData { dense_index: 1, lat: degrees(30), lon: degrees(40), is_traffic_signal: true },
    );

    let nodes = build_nodes(&nodes_map);

    assert_eq!(nodes.len(), 2);

    assert_eq!(nodes[0].dense_id, 0);
    assert_eq!(nodes[0].osm_id, 100);
    assert_eq!(nodes[0].lat, degrees(10));
    assert_eq!(nodes[0].lon, degrees(20));
    assert!(!nodes[0].is_traffic_light);

    assert_eq!(nodes[1].dense_id, 1);
    assert_eq!(nodes[1].osm_id, 200);
    assert_eq!(nodes[1].lat, degrees(30));
    assert_eq!(nodes[1].lon, degrees(40));
    assert!(nodes[1].is_traffic_light);
}

#[test]
fn builder_test_build_edge_lists() {
    let mut nodes_map: BTreeMap<i64, NodeParseData> = BTreeMap::new();
    let nodes_data = [(10, 20, false), (20, 30, false), (30, 40, false), (40, 50, false)];
    for (i, (lat, lon, is_traffic_signal)) in nodes_data.into_iter().enumerate() {
        nodes_map.insert(
            i as i64,
            NodeParseData { dense_index: i, lat: degrees(lat), lon: degrees(lon), is_traffic_signal },
        );
    }
    let mut ways: BTreeMap<i64, WayParseData> = BTreeMap::new();
    ways.insert(0, way(0, &[0, 1, 2, 3], false, false));
    let maps = PBFParseResult { osm_id_to_node: nodes_map.clone(), ways };

    let nodes = build_nodes(&nodes_map);
    let segments = plan_segments(&maps, &create_intersections_map(&maps.ways));
    let result = build_edge_lists(&maps, &nodes, &segments, &vec![1500]).unwrap();

    let fwd_edge_list = result.fwd_edge_list;
    let bwd_edge_list = result.bwd_edge_list;

    let edges = result.edges;
    assert_eq!(fwd_edge_list[0].len(), 1);
    assert_eq!(bwd_edge_list[3].len(), 1);

    let edge_id_fwd = fwd_edge_list[0][0];
    let edge_fwd = &edges[edge_id_fwd];

    assert_eq!(edge_fwd.src_id, 0);
    assert_eq!(edge_fwd.dest_id, 3);
    assert_eq!(edge_fwd.metadata_index, 0);

    // The backward list of a node holds the edges that enter it; the edge
    // back from node 3 is the one that leaves it.
    assert_eq!(bwd_edge_list[3][0], edge_id_fwd);
    let edge_id_bwd = fwd_edge_list[3][0];
    let edge_bwd = &edges[edge_id_bwd];

    assert_eq!(edge_bwd.src_id, 3);
    assert_eq!(edge_bwd.dest_id, 0);
    assert_eq!(edge_bwd.metadata_index, 0);
    assert_eq!(bwd_edge_list[0], vec![edge_id_bwd]);
    assert_eq!(result.edge_metadata.len(), 1);
    assert_eq!(result.edge_metadata[0].weight, 1500);
}

#[test]
fn dense_ids_follow_the_external_ids() {
    let maps = maps_of(&[30, -5, 12], vec![]);
    assert_eq!(ordered_keys(&maps.osm_id_to_node), vec![-5, 12, 30]);
    let nodes = build_nodes(&maps.osm_id_to_node);
    let ids: Vec<(usize, i64)> = nodes.iter().map(|n| (n.dense_id, n.osm_id)).collect();
    assert_eq!(ids, vec![(0, -5), (1, 12), (2, 30)]);
    assert_eq!(nodes[0].lat, degrees(11));
    assert!(nodes.iter().all(|n| n.rank == 0 && !n.is_contracted));
    assert_eq!(maps.osm_id_to_node[&12].dense_index, 2);
}

#[test]
fn crossings_are_the_nodes_on_more_than_one_way() {
    let maps = maps_of(
        &[1, 2, 3, 4, 5, 6],
        vec![
            way(10, &[1, 2, 3, 1], false, false),
            way(20, &[3, 4, 2], false, false),
            way(30, &[5, 6], false, false),
            way(40, &[4, 4, 5], true, false),
        ],
    );
    let crossings = create_intersections_map(&maps.ways);
    // Node 1 closes way 10 but lies on no other way.
    assert_eq!(crossings.get_vec(&10), Some(&vec![2, 3]));
    assert_eq!(crossings.get_vec(&20), Some(&vec![3, 4, 2]));
    assert_eq!(crossings.get_vec(&30), Some(&vec![5]));
    assert_eq!(crossings.get_vec(&40), Some(&vec![4, 4, 5]));
    assert_eq!(crossings.len(), 4);
    let alone = maps_of(&[1, 2], vec![way(10, &[1, 2], false, false)]);
    assert!(create_intersections_map(&alone.ways).is_empty());
}

#[test]
fn segments_run_between_crossings_ends_or_all_nodes() {
    let maps = maps_of(
        &[1, 2, 3, 4, 5, 6, 7],
        vec![
            way(10, &[1, 2, 3, 4], false, false),
            way(20, &[2, 5, 3, 6, 4], true, false),
            way(30, &[6, 7, 7, 6], false, true),
            way(40, &[], false, false),
            way(50, &[1], false, false),
        ],
    );
    let crossings = create_intersections_map(&maps.ways);
    assert_eq!(crossings.get_vec(&10), Some(&vec![1, 2, 3, 4]));
    assert_eq!(crossings.get_vec(&20), Some(&vec![2, 3, 6, 4]));
    let segments = plan_segments(&maps, &crossings);
    let segment = |way_id, prev, from, to| Segment { way_id, prev, from, to };
    assert_eq!(
        segments,
        vec![
            segment(10, None, 1, 2),
            segment(10, Some(1), 2, 3),
            segment(10, Some(2), 3, 4),
            segment(20, None, 2, 3),
            segment(20, Some(2), 3, 6),
            segment(20, Some(3), 6, 4),
            // On a roundabout every node counts, no turn is weighed and a
            // node that repeats at once gives no stretch.
            segment(30, None, 6, 7),
            segment(30, None, 7, 6),
        ]
    );
    // Way 50 has a crossing, but one node gives no stretch.
    assert_eq!(crossings.get_vec(&50), Some(&vec![1]));
    let plain = maps_of(&[1, 2, 3], vec![way(10, &[1, 2, 3], false, false)]);
    assert_eq!(
        plan_segments(&plain, &create_intersections_map(&plain.ways)),
        vec![segment(10, None, 1, 3)]
    );
    let ring = maps_of(&[1, 2], vec![way(10, &[1, 2, 1], false, false)]);
    assert!(plan_segments(&ring, &create_intersections_map(&ring.ways)).is_empty());
    assert_eq!(parse_polyline_data(&way(10, &[4, 5, 6], false, false)), vec![4, 5, 6]);
}

#[test]
fn one_way_gives_forward_edges_only() {
    let mut one_way = way(10, &[1, 2], true, false);
    one_way.name = Some("Main".to_string());
    one_way.max_speed = Some(50);
    let maps = maps_of(&[1, 2, 3, 4], vec![one_way, way(20, &[3, 4], false, true)]);
    let segments = plan_segments(&maps, &create_intersections_map(&maps.ways));
    assert_eq!(segments.len(), 2);
    let graph = from_parse_result(&maps, &segments, &vec![100, 200]).unwrap();
    assert_eq!(
        graph.edges,
        vec![
            Edge { src_id: 0, dest_id: 1, metadata_index: 0 },
            Edge { src_id: 2, dest_id: 3, metadata_index: 1 },
            Edge { src_id: 3, dest_id: 2, metadata_index: 1 },
        ]
    );
    assert_eq!(graph.fwd_edge_list, vec![vec![0], vec![], vec![1], vec![2]]);
    assert_eq!(graph.bwd_edge_list, vec![vec![], vec![0], vec![2], vec![1]]);
    let first = &graph.edge_metadata[0];
    assert_eq!((first.weight, first.name.as_deref(), first.speed_limit), (100, Some("Main"), Some(50)));
    assert!(first.is_one_way && !first.is_roundabout);
    assert!(first.prev_edge.is_none() && first.next_edge.is_none());
    let second = &graph.edge_metadata[1];
    assert_eq!(second.weight, 200);
    assert!(!second.is_one_way && second.is_roundabout);
    assert_eq!(graph.nodes.len(), 4);
    assert_eq!(graph.nodes[2].osm_id, 3);
}

#[test]
fn what_is_wrong_with_map_data() {
    let maps = maps_of(&[1, 2], vec![way(10, &[1, 2], false, false)]);
    let nodes = build_nodes(&maps.osm_id_to_node);
    let segment = |way_id, from, to| Segment { way_id, prev: None, from, to };
    let build = |segments: Vec<Segment>, weights: Vec<u64>| {
        build_edge_lists(&maps, &nodes, &segments, &weights).err()
    };
    assert_eq!(build(vec![segment(10, 1, 2)], vec![]), Some(BuildError::WeightCount));
    assert_eq!(build(vec![segment(11, 1, 2)], vec![5]), Some(BuildError::MissingWay(11)));
    assert_eq!(build(vec![segment(10, 7, 2)], vec![5]), Some(BuildError::MissingNode(7)));
    assert_eq!(build(vec![segment(10, 1, 8)], vec![5]), Some(BuildError::MissingNode(8)));
    assert_eq!(
        build(vec![segment(10, 1, 2), segment(10, 2, 1)], vec![5, INFINITY]),
        Some(BuildError::UnboundedWeight(1))
    );
    assert_eq!(build(vec![segment(10, 1, 2)], vec![5]), None);
    assert_eq!(
        from_parse_result(&maps, &vec![segment(10, 1, 9)], &vec![5]).err(),
        Some(BuildError::MissingNode(9))
    );
    let dangling = maps_of(&[1], vec![way(10, &[1, 2], false, false)]);
    let segments = plan_segments(&dangling, &create_intersections_map(&dangling.ways));
    assert_eq!(
        from_parse_result(&dangling, &segments, &vec![5]).err(),
        Some(BuildError::MissingNode(2))
    );
}

#[test]
fn tags_give_name_speed_and_flags() {
    let way_tags = tags(&[
        ("highway", "primary"),
        ("maxspeed", "fast"),
        ("name", "Rehov"),
        ("name:en", "Eliyahu Meron"),
        ("maxspeed", "+50"),
        ("name:en", "Other"),
        ("maxspeed", "30"),
        ("oneway", "yes"),
        ("junction", "roundabout"),
    ]);
    assert_eq!(parse_way_name(&way_tags).as_deref(), Some("Eliyahu Meron"));
    assert_eq!(parse_way_max_speed(&way_tags), Some(50));
    assert!(is_oneway(&way_tags) && is_roundabout(&way_tags));
    assert!(!is_traffic_signal(&way_tags));
    assert!(has_value(&way_tags, "primary") && !has_value(&way_tags, "highway"));
    let other = tags(&[("oneway", "no"), ("yes", "oneway"), ("highway", "traffic_signals")]);
    assert_eq!(parse_way_name(&other), None);
    assert_eq!(parse_way_max_speed(&other), None);
    assert!(!is_oneway(&other) && !is_roundabout(&other) && is_traffic_signal(&other));
}

#[test]
fn speeds_are_numbers_below_256() {
    let speed = |text: &str| parse_way_max_speed(&tags(&[("maxspeed", text)]));
    assert_eq!(speed("0"), Some(0));
    assert_eq!(speed("007"), Some(7));
    assert_eq!(speed("255"), Some(255));
    assert_eq!(speed("+255"), Some(255));
    assert_eq!(speed("256"), None);
    assert_eq!(speed("1000"), None);
    assert_eq!(speed(""), None);
    assert_eq!(speed("+"), None);
    assert_eq!(speed("-5"), None);
    assert_eq!(speed("-0"), None);
    assert_eq!(speed("++5"), None);
    assert_eq!(speed("5+"), None);
    assert_eq!(speed(" 50"), None);
    assert_eq!(speed("50 mph"), None);
    assert_eq!(speed("5_0"), None);
    assert_eq!(speed("٥"), None);
}

#[test]
fn builder_test_parse_osmpbf() {
    let mut maps = PBFParseResult::new();
    maps.add_node(1439390172, 320_000_000, 348_000_000, &tags(&[("highway", "traffic_signals")]));
    maps.add_node(7, 1, 2, &tags(&[("traffic_signals", "highway")]));
    maps.add_way(
        1232194195,
        &tags(&[("name:en", "Eliyahu Meron"), ("maxspeed", "50"), ("oneway", "yes")]),
        vec![733900601, 11429137338],
    );
    let node = &maps.osm_id_to_node[&1439390172];
    assert!(node.is_traffic_signal);
    assert_eq!((node.dense_index, node.lat, node.lon), (0, 320_000_000, 348_000_000));
    assert!(!maps.osm_id_to_node[&7].is_traffic_signal);
    assert_eq!(maps.osm_id_to_node[&7].dense_index, 1);
    let way = &maps.ways[&1232194195];
    assert_eq!(way.name.as_deref(), Some("Eliyahu Meron"));
    assert_eq!(way.refs, [733900601, 11429137338]);
    assert_eq!((way.id, way.max_speed, way.is_oneway, way.is_roundabout), (1232194195, Some(50), true, false));
}
