//! Building the mutable graph from parsed map data: the dense node array,
//! the crossings of the ways, the segments between which edges run, and the
//! edge lists themselves. Costs of segments are handed in: they come from
//! geometry, which this library does not compute.
use crate::graph::{Edge, EdgeMetadata, Graph, GraphModel, Node, INFINITY};
use crate::order_lemmas::lemma_increasing_ids;
use multimap::MultiMap;
use crate::seq_lemmas::lemma_filter_take_step;
use std::collections::BTreeMap;
use std::collections::HashMap;
use vstd::prelude::*;
use vstd::std_specs::btree::increasing_seq;

verus! {

/// A parsed map node.
#[derive(Debug, Clone, Copy)]
pub struct NodeParseData {
    pub dense_index: usize,
    /// Latitude in units of 1e-7 degree.
    pub lat: i32,
    /// Longitude in units of 1e-7 degree.
    pub lon: i32,
    pub is_traffic_signal: bool,
}

/// A parsed way.
#[derive(Debug, Clone)]
pub struct WayParseData {
    pub id: i64,
    pub name: Option<String>,
    pub max_speed: Option<u8>,
    pub is_roundabout: bool,
    pub is_oneway: bool,
    /// The ids of the nodes along the way, in order.
    pub refs: Vec<i64>,
}

/// The nodes and the ways of a parsed map, each keyed by its id.
#[derive(Debug, Clone)]
pub struct PBFParseResult {
    pub osm_id_to_node: BTreeMap<i64, NodeParseData>,
    pub ways: BTreeMap<i64, WayParseData>,
}

/// `keys` lists the ids of `ids` in increasing order.
pub open spec fn is_key_order(keys: Seq<i64>, ids: Set<i64>) -> bool {
    &&& forall|i: int, j: int| 0 <= i < j < keys.len() ==> keys[i] < keys[j]
    &&& forall|i: int| 0 <= i < keys.len() ==> ids.contains(#[trigger] keys[i])
    &&& forall|k: i64| ids.contains(k) ==> keys.contains(k)
}

/// The keys of a map in increasing order.
pub fn ordered_keys<V>(map: &BTreeMap<i64, V>) -> (keys: Vec<i64>)
    ensures
        is_key_order(keys@, map@.dom()),
{
    let mut keys: Vec<i64> = Vec::new();
    for entry in iter: map.iter()
        invariant
            keys@.len() == iter.index@,
            forall|i: int| 0 <= i < keys@.len() ==> keys@[i] == *iter.seq()[i].0,
            forall|i: int| 0 <= i < iter.seq().len() ==> map@.contains_key(*(#[trigger] iter.seq()[i]).0),
            forall|k: i64| map@.contains_key(k) ==> iter.seq().contains((&k, &map@[k])),
            increasing_seq(iter.seq().map_values(|kv: (&i64, &V)| *kv.0)),
            forall|i: int, j: int| 0 <= i < j < keys@.len() ==> keys@[i] < keys@[j],
            forall|k: i64|
                map@.contains_key(k) ==> keys@.contains(k) || exists|i: int|
                    keys@.len() <= i < iter.seq().len() && *(#[trigger] iter.seq()[i]).0 == k,
    {
        proof {
            let all = iter.seq().map_values(|kv: (&i64, &V)| *kv.0);
            assert forall|i: int| 0 <= i < keys@.len() implies keys@[i] < *entry.0 by {
                lemma_increasing_ids(all, i, keys@.len() as int);
            }
        }
        let ghost before = keys@;
        keys.push(*entry.0);
        proof {
            assert forall|k: i64| map@.contains_key(k) implies keys@.contains(k) || exists|i: int|
                keys@.len() <= i < iter.seq().len() && *(#[trigger] iter.seq()[i]).0 == k by {
                if before.contains(k) {
                    let at = choose|i: int| 0 <= i < before.len() && before[i] == k;
                    assert(keys@[at] == k);
                } else {
                    let at = choose|i: int|
                        before.len() <= i < iter.seq().len() && *(#[trigger] iter.seq()[i]).0 == k;
                    if at == before.len() {
                        assert(keys@[at] == k);
                    }
                }
            }
        }
    }
    keys
}

/// The node that a parsed node becomes at dense id `dense_id`.
pub open spec fn node_of(dense_id: usize, osm_id: i64, data: NodeParseData) -> Node {
    Node {
        dense_id,
        osm_id,
        rank: 0,
        is_contracted: false,
        lat: data.lat,
        lon: data.lon,
        is_traffic_light: data.is_traffic_signal,
    }
}

/// `nodes` holds one node for each parsed node, in the order of the
/// external ids, each at its place as its dense id.
pub open spec fn are_nodes_of(nodes: Seq<Node>, nodes_map: Map<i64, NodeParseData>) -> bool {
    exists|keys: Seq<i64>| #[trigger]
        is_key_order(keys, nodes_map.dom()) && nodes == Seq::new(
            keys.len(),
            |i: int| node_of(i as usize, keys[i], nodes_map[keys[i]]),
        )
}

/// The nodes of the graph: one for each parsed node, the dense ids given
/// out in the order of the external ids.
pub fn build_nodes(nodes_map: &BTreeMap<i64, NodeParseData>) -> (nodes: Vec<Node>)
    ensures
        are_nodes_of(nodes@, nodes_map@),
        forall|i: int| 0 <= i < nodes@.len() ==> (#[trigger] nodes@[i]).dense_id == i,
{
    let keys = ordered_keys(nodes_map);
    let mut nodes: Vec<Node> = Vec::new();
    let mut i: usize = 0;
    while i < keys.len()
        invariant
            i <= keys@.len(),
            is_key_order(keys@, nodes_map@.dom()),
            nodes@.len() == i,
            forall|j: int|
                0 <= j < i ==> #[trigger] nodes@[j] == node_of(
                    j as usize,
                    keys@[j],
                    nodes_map@[keys@[j]],
                ),
        decreases keys@.len() - i,
    {
        let osm_id: i64 = keys[i];
        assert(nodes_map@.dom().contains(keys@[i as int]));
        let found = nodes_map.get(&osm_id);
        let data = found.unwrap();
        nodes.push(
            Node {
                dense_id: i,
                osm_id,
                rank: 0,
                is_contracted: false,
                lat: data.lat,
                lon: data.lon,
                is_traffic_light: data.is_traffic_signal,
            },
        );
        i += 1;
    }
    proof {
        assert(nodes@ =~= Seq::new(
            keys@.len(),
            |i: int| node_of(i as usize, keys@[i], nodes_map@[keys@[i]]),
        ));
    }
    nodes
}

/// The ids of the nodes along a way.
pub fn parse_polyline_data(way_data: &WayParseData) -> (refs: Vec<i64>)
    ensures
        refs@ == way_data.refs@,
{
    let mut refs: Vec<i64> = Vec::new();
    let mut i: usize = 0;
    while i < way_data.refs.len()
        invariant
            i <= way_data.refs@.len(),
            refs@ == way_data.refs@.take(i as int),
        decreases way_data.refs@.len() - i,
    {
        refs.push(way_data.refs[i]);
        assert(way_data.refs@.take(i as int + 1) =~= way_data.refs@.take(i as int).push(
            way_data.refs@[i as int],
        ));
        i += 1;
    }
    assert(way_data.refs@.take(way_data.refs@.len() as int) =~= way_data.refs@);
    refs
}

#[verifier::external_type_specification]
#[verifier::external_body]
#[verifier::reject_recursive_types(K)]
#[verifier::reject_recursive_types(V)]
#[verifier::reject_recursive_types(S)]
pub struct ExMultiMap<K, V, S>(MultiMap<K, V, S>);

/// What a multimap of crossings holds: for each way that has any, the ids
/// of its crossing nodes in the order in which they were entered.
pub uninterp spec fn crossing_entries(map: MultiMap<i64, i64>) -> Map<i64, Seq<i64>>;

/// A multimap without entries.
pub open spec fn no_crossings() -> Map<i64, Seq<i64>> {
    Map::empty()
}

/// The entries after `value` is entered under `key`: at the end of the
/// values of `key`, or as its first value.
pub open spec fn with_crossing(entries: Map<i64, Seq<i64>>, key: i64, value: i64) -> Map<
    i64,
    Seq<i64>,
> {
    if entries.contains_key(key) {
        entries.insert(key, entries[key].push(value))
    } else {
        entries.insert(key, seq![value])
    }
}

/// `MultiMap::new`: a multimap without entries.
#[verifier::external_body]
fn crossings_new() -> (map: MultiMap<i64, i64>)
    ensures
        crossing_entries(map) == no_crossings(),
{
    MultiMap::new()
}

/// `MultiMap::insert`: pushes the value onto the vector of the key, or
/// starts a vector with it when the key is new.
#[verifier::external_body]
fn crossings_insert(map: &mut MultiMap<i64, i64>, key: i64, value: i64)
    ensures
        crossing_entries(*final(map)) == with_crossing(crossing_entries(*old(map)), key, value),
{
    map.insert(key, value)
}

/// `MultiMap::get_vec`: the vector of the key, if the key is there.
#[verifier::external_body]
fn crossings_get_vec(map: &MultiMap<i64, i64>, key: i64) -> (values: Option<&Vec<i64>>)
    ensures
        values.is_some() == crossing_entries(*map).contains_key(key),
        values.is_some() ==> values.unwrap()@ == crossing_entries(*map)[key],
{
    map.get_vec(&key)
}

/// A stretch of a way between two of its nodes, along which edges run.
#[derive(Debug, Clone, Copy, PartialEq, Eq, Structural)]
pub struct Segment {
    /// The way that the stretch is part of.
    pub way_id: i64,
    /// The node before `from` on the way, where a turn into the stretch is
    /// to be weighed.
    pub prev: Option<i64>,
    pub from: i64,
    pub to: i64,
}

/// The nodes of a way between which its edges run: all of them on a
/// roundabout, else the crossings of the way, else its two ends.
pub open spec fn edge_refs(way: WayParseData, crossings: Map<i64, Seq<i64>>, key: i64) -> Seq<i64> {
    if way.refs@.len() == 0 {
        Seq::empty()
    } else if way.is_roundabout {
        way.refs@
    } else if crossings.contains_key(key) {
        crossings[key]
    } else {
        seq![way.refs@.first(), way.refs@.last()]
    }
}

/// The stretch from node number `i` of `refs` to the next; off a
/// roundabout it turns in from the node before, if there is one.
pub open spec fn segment_at(way: WayParseData, key: i64, refs: Seq<i64>, i: int) -> Segment {
    Segment {
        way_id: key,
        prev: if !way.is_roundabout && i > 0 {
            Some(refs[i - 1])
        } else {
            None
        },
        from: refs[i],
        to: refs[i + 1],
    }
}

/// The stretches of a way from node number `i` of `refs` on; a node that
/// repeats at once gives none.
pub open spec fn way_segments(way: WayParseData, key: i64, refs: Seq<i64>, i: int) -> Seq<Segment>
    decreases refs.len() - i,
{
    if 0 <= i && i + 1 < refs.len() {
        if refs[i] != refs[i + 1] {
            seq![segment_at(way, key, refs, i)] + way_segments(way, key, refs, i + 1)
        } else {
            way_segments(way, key, refs, i + 1)
        }
    } else {
        Seq::empty()
    }
}

/// The stretches of the ways `keys` from number `j` on, way after way.
pub open spec fn planned(
    ways: Map<i64, WayParseData>,
    crossings: Map<i64, Seq<i64>>,
    keys: Seq<i64>,
    j: int,
) -> Seq<Segment>
    decreases keys.len() - j,
{
    if 0 <= j < keys.len() {
        let way = ways[keys[j]];
        way_segments(way, keys[j], edge_refs(way, crossings, keys[j]), 0) + planned(
            ways,
            crossings,
            keys,
            j + 1,
        )
    } else {
        Seq::empty()
    }
}

/// The stretches along which the edges of the graph run, for the ways in
/// the order of their ids and for each way in the order of its nodes.
pub fn plan_segments(maps: &PBFParseResult, intersections_map: &MultiMap<i64, i64>) -> (segments:
    Vec<Segment>)
    ensures
        exists|keys: Seq<i64>| #[trigger]
            is_key_order(keys, maps.ways@.dom()) && segments@ == planned(
                maps.ways@,
                crossing_entries(*intersections_map),
                keys,
                0,
            ),
{
    let keys = ordered_keys(&maps.ways);
    let ghost ways = maps.ways@;
    let ghost crossings = crossing_entries(*intersections_map);
    let mut segments: Vec<Segment> = Vec::new();
    let mut j: usize = 0;
    while j < keys.len()
        invariant
            j <= keys@.len(),
            ways == maps.ways@,
            crossings == crossing_entries(*intersections_map),
            is_key_order(keys@, ways.dom()),
            segments@ + planned(ways, crossings, keys@, j as int) == planned(
                ways,
                crossings,
                keys@,
                0,
            ),
        decreases keys@.len() - j,
    {
        let key: i64 = keys[j];
        assert(ways.dom().contains(keys@[j as int]));
        let way = maps.ways.get(&key).unwrap();
        let ends: Vec<i64> = if way.refs.len() > 0 {
            vec![way.refs[0], way.refs[way.refs.len() - 1]]
        } else {
            Vec::new()
        };
        let found = crossings_get_vec(intersections_map, key);
        let refs: &Vec<i64> = if way.refs.len() == 0 {
            &ends
        } else if way.is_roundabout {
            &way.refs
        } else if found.is_some() {
            found.unwrap()
        } else {
            &ends
        };
        assert(refs@ =~= edge_refs(*way, crossings, key));
        let ghost before = segments@;
        let ghost rest = planned(ways, crossings, keys@, j as int + 1);
        let last: usize = if refs.len() > 0 {
            refs.len() - 1
        } else {
            0
        };
        let mut i: usize = 0;
        while i < last
            invariant
                i <= last,
                last + 1 == refs@.len() || (last == 0 && refs@.len() == 0),
                segments@ + way_segments(*way, key, refs@, i as int) == before + way_segments(
                    *way,
                    key,
                    refs@,
                    0,
                ),
            decreases refs@.len() - i,
        {
            if refs[i] != refs[i + 1] {
                let prev: Option<i64> = if !way.is_roundabout && i > 0 {
                    Some(refs[i - 1])
                } else {
                    None
                };
                let segment = Segment { way_id: key, prev, from: refs[i], to: refs[i + 1] };
                proof {
                    let tail = way_segments(*way, key, refs@, i as int + 1);
                    assert(segments@.push(segment) + tail =~= segments@ + (seq![segment] + tail));
                }
                segments.push(segment);
            }
            i += 1;
        }
        proof {
            let whole = way_segments(*way, key, refs@, 0);
            assert(segments@ + Seq::<Segment>::empty() =~= segments@);
            assert((before + whole) + rest =~= before + (whole + rest));
        }
        j += 1;
    }
    proof {
        assert(segments@ + Seq::<Segment>::empty() =~= segments@);
    }
    segments
}

/// The parts of a graph that the ways give: the adjacency lists, the edges
/// and the metadata records.
pub struct BuildEdgeListResult {
    pub fwd_edge_list: Vec<Vec<usize>>,
    pub bwd_edge_list: Vec<Vec<usize>>,
    pub edges: Vec<Edge>,
    pub edge_metadata: Vec<EdgeMetadata>,
}

/// Why map data cannot be turned into a graph.
#[derive(Debug, Clone, Copy, PartialEq, Eq, Structural)]
pub enum BuildError {
    /// There is not one cost for each stretch.
    WeightCount,
    /// A stretch names a way that the map does not hold.
    MissingWay(i64),
    /// A stretch names a node that the map does not hold.
    MissingNode(i64),
    /// The cost of the stretch at this position is not finite.
    UnboundedWeight(usize),
}

impl BuildEdgeListResult {
    /// The graph that the parts make up over the nodes `nodes`.
    pub open spec fn model(&self, nodes: Seq<Node>) -> GraphModel {
        GraphModel {
            fwd: Seq::new(self.fwd_edge_list@.len(), |v: int| self.fwd_edge_list@[v]@),
            bwd: Seq::new(self.bwd_edge_list@.len(), |v: int| self.bwd_edge_list@[v]@),
            nodes,
            edges: self.edges@,
            metadata: self.edge_metadata@,
        }
    }
}

/// The dense id of each external id among the first `n` nodes; of two
/// nodes with one external id the later counts.
pub open spec fn dense_ids(nodes: Seq<Node>, n: int) -> Map<i64, usize>
    decreases n,
{
    if n <= 0 {
        Map::empty()
    } else {
        dense_ids(nodes, n - 1).insert(nodes[n - 1].osm_id, nodes[n - 1].dense_id)
    }
}

/// The metadata record of an edge along a way, at cost `weight`.
pub open spec fn road_metadata(way: WayParseData, weight: u64) -> EdgeMetadata {
    EdgeMetadata {
        weight,
        name: way.name,
        speed_limit: way.max_speed,
        is_one_way: way.is_oneway,
        is_roundabout: way.is_roundabout,
        prev_edge: None,
        next_edge: None,
    }
}

/// What is wrong with stretch number `k`, if anything: its way is
/// missing, or its start, or its end, or its cost is not finite.
pub open spec fn segment_error(
    ways: Map<i64, WayParseData>,
    dense: Map<i64, usize>,
    segments: Seq<Segment>,
    weights: Seq<u64>,
    k: int,
) -> Option<BuildError> {
    let segment = segments[k];
    if !ways.contains_key(segment.way_id) {
        Some(BuildError::MissingWay(segment.way_id))
    } else if !dense.contains_key(segment.from) {
        Some(BuildError::MissingNode(segment.from))
    } else if !dense.contains_key(segment.to) {
        Some(BuildError::MissingNode(segment.to))
    } else if weights[k] >= INFINITY {
        Some(BuildError::UnboundedWeight(k as usize))
    } else {
        None
    }
}

/// The graph with the edges of stretch number `k`: one metadata record, an
/// edge along the stretch and, unless the way is one way, an edge back.
pub open spec fn with_segment(
    g: GraphModel,
    ways: Map<i64, WayParseData>,
    dense: Map<i64, usize>,
    segments: Seq<Segment>,
    weights: Seq<u64>,
    k: int,
) -> GraphModel {
    let segment = segments[k];
    let way = ways[segment.way_id];
    let from = dense[segment.from];
    let to = dense[segment.to];
    let index = g.metadata.len() as usize;
    let forth = g.push_metadata(road_metadata(way, weights[k])).push_edge(
        Edge { src_id: from, dest_id: to, metadata_index: index },
    );
    if way.is_oneway {
        forth
    } else {
        forth.push_edge(Edge { src_id: to, dest_id: from, metadata_index: index })
    }
}

/// The graph with the edges of the stretches from number `k` on, or the
/// first thing that is wrong with one of them.
pub open spec fn built_from(
    g: GraphModel,
    ways: Map<i64, WayParseData>,
    dense: Map<i64, usize>,
    segments: Seq<Segment>,
    weights: Seq<u64>,
    k: int,
) -> Result<GraphModel, BuildError>
    decreases segments.len() - k,
{
    if 0 <= k < segments.len() {
        match segment_error(ways, dense, segments, weights, k) {
            Some(error) => Err(error),
            None => built_from(
                with_segment(g, ways, dense, segments, weights, k),
                ways,
                dense,
                segments,
                weights,
                k + 1,
            ),
        }
    } else {
        Ok(g)
    }
}

/// The graph over `nodes` without any edge.
pub open spec fn bare(nodes: Seq<Node>) -> GraphModel {
    GraphModel {
        fwd: Seq::new(nodes.len(), |v: int| Seq::<usize>::empty()),
        bwd: Seq::new(nodes.len(), |v: int| Seq::<usize>::empty()),
        nodes,
        edges: Seq::empty(),
        metadata: Seq::empty(),
    }
}

/// The graph that the stretches and their costs give over `nodes`, or why
/// there is none.
pub open spec fn built(
    ways: Map<i64, WayParseData>,
    nodes: Seq<Node>,
    segments: Seq<Segment>,
    weights: Seq<u64>,
) -> Result<GraphModel, BuildError> {
    if weights.len() != segments.len() {
        Err(BuildError::WeightCount)
    } else {
        built_from(bare(nodes), ways, dense_ids(nodes, nodes.len() as int), segments, weights, 0)
    }
}

/// The graph without edges over a copy of `nodes`.
fn bare_graph(nodes: &[Node]) -> (graph: Graph)
    requires
        forall|i: int| 0 <= i < nodes@.len() ==> (#[trigger] nodes@[i]).dense_id == i,
    ensures
        graph.wf(),
        graph.complete(),
        graph@ == bare(nodes@),
        graph@.shortcuts_sound(),
{
    let mut graph = Graph {
        fwd_edge_list: Vec::new(),
        bwd_edge_list: Vec::new(),
        nodes: Vec::new(),
        edges: Vec::new(),
        edge_metadata: Vec::new(),
    };
    let mut i: usize = 0;
    while i < nodes.len()
        invariant
            i <= nodes@.len(),
            graph.nodes@ == nodes@.take(i as int),
            graph.fwd_edge_list@.len() == i,
            graph.bwd_edge_list@.len() == i,
            forall|v: int| 0 <= v < i ==> (#[trigger] graph.fwd_edge_list@[v])@.len() == 0,
            forall|v: int| 0 <= v < i ==> (#[trigger] graph.bwd_edge_list@[v])@.len() == 0,
            graph.edges@.len() == 0,
            graph.edge_metadata@.len() == 0,
        decreases nodes@.len() - i,
    {
        graph.nodes.push(nodes[i]);
        graph.fwd_edge_list.push(Vec::new());
        graph.bwd_edge_list.push(Vec::new());
        assert(nodes@.take(i as int + 1) =~= nodes@.take(i as int).push(nodes@[i as int]));
        i += 1;
    }
    proof {
        assert(nodes@.take(nodes@.len() as int) =~= nodes@);
        assert(graph@.fwd =~~= bare(nodes@).fwd);
        assert(graph@.bwd =~~= bare(nodes@).bwd);
        assert(graph@.edges =~= bare(nodes@).edges);
        assert(graph@.metadata =~= bare(nodes@).metadata);
    }
    graph
}

/// The edge lists of the graph: for each stretch, at its cost, an edge
/// along it and, unless its way is one way, an edge back, both with one
/// metadata record that carries the properties of the way.
pub fn build_edge_lists(
    maps: &PBFParseResult,
    nodes: &[Node],
    segments: &Vec<Segment>,
    weights: &Vec<u64>,
) -> (result: Result<BuildEdgeListResult, BuildError>)
    requires
        forall|i: int| 0 <= i < nodes@.len() ==> (#[trigger] nodes@[i]).dense_id == i,
    ensures
        match result {
            Ok(lists) => built(maps.ways@, nodes@, segments@, weights@) == Ok::<
                GraphModel,
                BuildError,
            >(lists.model(nodes@)) && exists|graph: Graph| #[trigger]
                graph.wf() && graph.complete() && graph@.shortcuts_sound() && graph@
                    == lists.model(nodes@) && graph.fwd_edge_list == lists.fwd_edge_list
                    && graph.bwd_edge_list == lists.bwd_edge_list,
            Err(error) => built(maps.ways@, nodes@, segments@, weights@) == Err::<
                GraphModel,
                BuildError,
            >(error),
        },
{
    if weights.len() != segments.len() {
        return Err(BuildError::WeightCount);
    }
    let mut osm_to_dense: BTreeMap<i64, usize> = BTreeMap::new();
    let mut n: usize = 0;
    while n < nodes.len()
        invariant
            n <= nodes@.len(),
            osm_to_dense@ == dense_ids(nodes@, n as int),
            forall|k: i64| #[trigger] osm_to_dense@.contains_key(k) ==> osm_to_dense@[k] < nodes@.len(),
            forall|i: int| 0 <= i < nodes@.len() ==> (#[trigger] nodes@[i]).dense_id == i,
        decreases nodes@.len() - n,
    {
        let _ = osm_to_dense.insert(nodes[n].osm_id, nodes[n].dense_id);
        n += 1;
    }
    let mut graph = bare_graph(nodes);
    let ghost ways = maps.ways@;
    let ghost dense = osm_to_dense@;
    let ghost start = graph@;
    let mut k: usize = 0;
    while k < segments.len()
        invariant
            k <= segments@.len(),
            weights@.len() == segments@.len(),
            ways == maps.ways@,
            dense == osm_to_dense@,
            dense == dense_ids(nodes@, nodes@.len() as int),
            start == bare(nodes@),
            forall|key: i64| #[trigger] dense.contains_key(key) ==> dense[key] < nodes@.len(),
            graph.wf(),
            graph.complete(),
            graph@.shortcuts_sound(),
            graph@.nodes == nodes@,
            built_from(graph@, ways, dense, segments@, weights@, k as int) == built_from(
                start,
                ways,
                dense,
                segments@,
                weights@,
                0,
            ),
        decreases segments@.len() - k,
    {
        let segment = segments[k];
        let way = match maps.ways.get(&segment.way_id) {
            Some(way) => way,
            None => {
                return Err(BuildError::MissingWay(segment.way_id));
            },
        };
        let curr_node: usize = match osm_to_dense.get(&segment.from) {
            Some(dense_id) => *dense_id,
            None => {
                return Err(BuildError::MissingNode(segment.from));
            },
        };
        let next_node: usize = match osm_to_dense.get(&segment.to) {
            Some(dense_id) => *dense_id,
            None => {
                return Err(BuildError::MissingNode(segment.to));
            },
        };
        let weight: u64 = weights[k];
        if weight >= INFINITY {
            return Err(BuildError::UnboundedWeight(k));
        }
        let ghost before = graph@;
        let metadata_index: usize = graph.edge_metadata.len();
        let metadata = EdgeMetadata {
            weight,
            is_one_way: way.is_oneway,
            is_roundabout: way.is_roundabout,
            name: way.name.clone(),
            speed_limit: way.max_speed,
            prev_edge: None,
            next_edge: None,
        };
        let ghost prior = graph;
        graph.edge_metadata.push(metadata);
        proof {
            assert(graph.fwd_edge_list == prior.fwd_edge_list);
            assert(graph.arrays_wf());
            assert(graph.adjacency_wf());
            assert(graph.coherent());
            assert forall|e: int| 0 <= e < graph.edges@.len() implies #[trigger] graph.is_live(e) by {
                assert(prior.is_live(e));
            }
            assert(graph@ == before.push_metadata(road_metadata(*way, weight)));
            lemma_record_keeps_sound(before, road_metadata(*way, weight));
        }
        let ghost recorded = graph@;
        let _ = graph.add_edge(curr_node, next_node, metadata_index);
        proof {
            lemma_plain_edge_keeps_sound(
                recorded,
                Edge { src_id: curr_node, dest_id: next_node, metadata_index },
            );
        }
        if !way.is_oneway {
            let ghost forth = graph@;
            let _ = graph.add_edge(next_node, curr_node, metadata_index);
            proof {
                lemma_plain_edge_keeps_sound(
                    forth,
                    Edge { src_id: next_node, dest_id: curr_node, metadata_index },
                );
            }
        }
        assert(graph@ == with_segment(before, ways, dense, segments@, weights@, k as int));
        k += 1;
    }
    let lists = BuildEdgeListResult {
        fwd_edge_list: graph.fwd_edge_list,
        bwd_edge_list: graph.bwd_edge_list,
        edges: graph.edges,
        edge_metadata: graph.edge_metadata,
    };
    Ok(lists)
}

/// One more metadata record leaves every shortcut sound.
pub proof fn lemma_record_keeps_sound(g: GraphModel, record: EdgeMetadata)
    requires
        g.shortcuts_sound(),
        forall|e: int| 0 <= e < g.edges.len() ==> (#[trigger] g.edges[e]).metadata_index < g.metadata.len(),
    ensures
        g.push_metadata(record).shortcuts_sound(),
{
    let after = g.push_metadata(record);
    assert forall|e: int| 0 <= e < after.edges.len() implies #[trigger] after.shortcut_sound(e) by {
        assert(g.shortcut_sound(e));
        let old_record = g.metadata[g.edges[e].metadata_index as int];
        assert(after.metadata[after.edges[e].metadata_index as int] == old_record);
        if old_record.prev_edge.is_some() {
            let p = old_record.prev_edge.unwrap() as int;
            let n = old_record.next_edge.unwrap() as int;
            assert(after.weight_of(p) == g.weight_of(p));
            assert(after.weight_of(n) == g.weight_of(n));
            assert(after.weight_of(e) == g.weight_of(e));
        }
    }
}

/// An edge whose record names no packed edge leaves every shortcut sound.
pub proof fn lemma_plain_edge_keeps_sound(g: GraphModel, edge: Edge)
    requires
        g.shortcuts_sound(),
        edge.metadata_index < g.metadata.len(),
        g.metadata[edge.metadata_index as int].prev_edge.is_none(),
        g.metadata[edge.metadata_index as int].next_edge.is_none(),
    ensures
        g.push_edge(edge).shortcuts_sound(),
{
    let after = g.push_edge(edge);
    assert forall|e: int| 0 <= e < after.edges.len() implies #[trigger] after.shortcut_sound(e) by {
        if e < g.edges.len() {
            assert(g.shortcut_sound(e));
            assert(after.edges[e] == g.edges[e]);
            let record = g.metadata[g.edges[e].metadata_index as int];
            if record.prev_edge.is_some() {
                let p = record.prev_edge.unwrap() as int;
                let n = record.next_edge.unwrap() as int;
                assert(after.edges[p] == g.edges[p]);
                assert(after.edges[n] == g.edges[n]);
                assert(after.weight_of(p) == g.weight_of(p));
                assert(after.weight_of(n) == g.weight_of(n));
                assert(after.weight_of(e) == g.weight_of(e));
            }
        }
    }
}

/// Node `r` lies on the way `key`.
pub open spec fn on_way(ways: Map<i64, WayParseData>, key: i64, r: i64) -> bool {
    ways.contains_key(key) && ways[key].refs@.contains(r)
}

/// Node `r` is a crossing: it lies on more than one way.
pub open spec fn is_crossing(ways: Map<i64, WayParseData>, r: i64) -> bool {
    exists|a: i64, b: i64| a != b && #[trigger] on_way(ways, a, r) && #[trigger] on_way(ways, b, r)
}

/// The crossings among nodes.
pub open spec fn crossing_filter(ways: Map<i64, WayParseData>) -> spec_fn(i64) -> bool {
    |r: i64| is_crossing(ways, r)
}

/// The crossings of the way `key`, in the order of the way.
pub open spec fn crossings_of(ways: Map<i64, WayParseData>, key: i64) -> Seq<i64> {
    ways[key].refs@.filter(crossing_filter(ways))
}

/// Node `r` lies on the way number `x` of `keys`, where of way number `j`
/// only the first `i` nodes count and later ways do not count at all.
pub open spec fn covered(
    ways: Map<i64, WayParseData>,
    keys: Seq<i64>,
    x: int,
    r: i64,
    j: int,
    i: int,
) -> bool {
    ||| (0 <= x < j && x < keys.len() && ways[keys[x]].refs@.contains(r))
    ||| (x == j && 0 <= x < keys.len() && ways[keys[x]].refs@.take(i).contains(r))
}

/// What the marks say after the ways up to number `j`, and of that way
/// the first `i` nodes, have been looked at: a node is marked when it lies
/// on one of them, with one such way; its flag is set only if it is a
/// crossing; and while the flag is not set the node lies on that way alone.
pub open spec fn marks_wf(
    marks: Map<i64, (i64, bool)>,
    ways: Map<i64, WayParseData>,
    keys: Seq<i64>,
    j: int,
    i: int,
) -> bool {
    &&& forall|r: i64| #[trigger]
        marks.contains_key(r) <==> exists|x: int| covered(ways, keys, x, r, j, i)
    &&& forall|r: i64| #[trigger] marks.contains_key(r) ==> on_way(ways, marks[r].0, r)
    &&& forall|r: i64| #[trigger] marks.contains_key(r) && marks[r].1 ==> is_crossing(ways, r)
    &&& forall|r: i64, x: int|
        marks.contains_key(r) && !marks[r].1 && #[trigger] covered(ways, keys, x, r, j, i)
            ==> keys[x] == marks[r].0
}

/// For each node on a way one of its ways, and whether it is a crossing.
fn mark_crossings(ways: &BTreeMap<i64, WayParseData>, keys: &Vec<i64>) -> (marks: HashMap<
    i64,
    (i64, bool),
>)
    requires
        is_key_order(keys@, ways@.dom()),
    ensures
        forall|r: i64| is_crossing(ways@, r) <==> #[trigger] marks@.contains_key(r) && marks@[r].1,
{
    let mut marks: HashMap<i64, (i64, bool)> = HashMap::new();
    let mut j: usize = 0;
    while j < keys.len()
        invariant
            j <= keys@.len(),
            is_key_order(keys@, ways@.dom()),
            marks_wf(marks@, ways@, keys@, j as int, 0),
        decreases keys@.len() - j,
    {
        let key: i64 = keys[j];
        assert(ways@.dom().contains(keys@[j as int]));
        let way = ways.get(&key).unwrap();
        let mut i: usize = 0;
        while i < way.refs.len()
            invariant
                i <= way.refs@.len(),
                j < keys@.len(),
                key == keys@[j as int],
                ways@.contains_key(key),
                *way == ways@[key],
                is_key_order(keys@, ways@.dom()),
                marks_wf(marks@, ways@, keys@, j as int, i as int),
            decreases way.refs@.len() - i,
        {
            let r: i64 = way.refs[i];
            let ghost before = marks@;
            let ghost refs = way.refs@;
            proof {
                assert(refs.take(i as int + 1) =~= refs.take(i as int).push(r));
                assert(refs.contains(r));
                assert(on_way(ways@, key, r));
            }
            let seen: Option<(i64, bool)> = match marks.get(&r) {
                Some(mark) => Some(*mark),
                None => None,
            };
            match seen {
                None => {
                    marks.insert(r, (key, false));
                },
                Some((first, found)) => {
                    if !found && first != key {
                        marks.insert(r, (first, true));
                    }
                },
            }
            proof {
                let jj = j as int;
                let ii = i as int;
                let next = ii + 1;
                assert forall|s: i64, x: int|
                    covered(ways@, keys@, x, s, jj, next) <==> covered(ways@, keys@, x, s, jj, ii)
                        || (x == jj && s == r) by {
                    if x == jj {
                        let part = refs.take(ii);
                        if part.push(r).contains(s) {
                            let at = choose|at: int|
                                0 <= at < part.push(r).len() && part.push(r)[at] == s;
                            if at < part.len() {
                                assert(part[at] == s);
                            }
                        }
                        if part.contains(s) {
                            let at = choose|at: int| 0 <= at < part.len() && part[at] == s;
                            assert(part.push(r)[at] == s);
                        }
                        if s == r {
                            assert(part.push(r)[part.len() as int] == r);
                        }
                    }
                }
                assert forall|s: i64| #[trigger]
                    marks@.contains_key(s) <==> exists|x: int|
                        covered(ways@, keys@, x, s, jj, next) by {
                    if marks@.contains_key(s) {
                        if s == r {
                            assert(covered(ways@, keys@, jj, s, jj, next));
                        } else {
                            assert(before.contains_key(s));
                            let x = choose|x: int| covered(ways@, keys@, x, s, jj, ii);
                            assert(covered(ways@, keys@, x, s, jj, next));
                        }
                    }
                    if exists|x: int| covered(ways@, keys@, x, s, jj, next) {
                        let x = choose|x: int| covered(ways@, keys@, x, s, jj, next);
                        if covered(ways@, keys@, x, s, jj, ii) {
                            assert(before.contains_key(s));
                        }
                    }
                }
                assert forall|s: i64| #[trigger] marks@.contains_key(s) && marks@[s].1 implies is_crossing(
                    ways@,
                    s,
                ) by {
                    if s == r && !(before.contains_key(s) && before[s].1) {
                        assert(on_way(ways@, before[r].0, r));
                        assert(on_way(ways@, key, r));
                    }
                }
                assert forall|s: i64, x: int|
                    marks@.contains_key(s) && !marks@[s].1 && #[trigger] covered(
                        ways@,
                        keys@,
                        x,
                        s,
                        jj,
                        next,
                    ) implies keys@[x] == marks@[s].0 by {
                    if s == r {
                        if before.contains_key(r) {
                            if covered(ways@, keys@, x, s, jj, ii) {
                                assert(keys@[x] == before[r].0);
                            }
                        } else {
                            if covered(ways@, keys@, x, s, jj, ii) {
                                assert(false);
                            }
                        }
                    } else {
                        assert(covered(ways@, keys@, x, s, jj, ii));
                    }
                }
            }
            i += 1;
        }
        proof {
            let jj = j as int;
            let after = jj + 1;
            let refs = way.refs@;
            assert(refs.take(refs.len() as int) =~= refs);
            assert forall|s: i64, x: int|
                covered(ways@, keys@, x, s, after, 0) <==> covered(
                    ways@,
                    keys@,
                    x,
                    s,
                    jj,
                    refs.len() as int,
                ) by {
                if x == after && x < keys@.len() {
                    assert(ways@[keys@[x]].refs@.take(0) =~= Seq::<i64>::empty());
                }
            }
            assert forall|s: i64| #[trigger]
                marks@.contains_key(s) <==> exists|x: int|
                    covered(ways@, keys@, x, s, after, 0) by {
                if marks@.contains_key(s) {
                    let x = choose|x: int| covered(ways@, keys@, x, s, jj, refs.len() as int);
                    assert(covered(ways@, keys@, x, s, after, 0));
                }
                if exists|x: int| covered(ways@, keys@, x, s, after, 0) {
                    let x = choose|x: int| covered(ways@, keys@, x, s, after, 0);
                    assert(covered(ways@, keys@, x, s, jj, refs.len() as int));
                }
            }
        }
        j += 1;
    }
    proof {
        let n = keys@.len() as int;
        assert forall|r: i64| is_crossing(ways@, r) <==> #[trigger] marks@.contains_key(r)
            && marks@[r].1 by {
            if is_crossing(ways@, r) {
                let (a, b) = choose|a: i64, b: i64|
                    a != b && #[trigger] on_way(ways@, a, r) && #[trigger] on_way(ways@, b, r);
                assert(keys@.contains(a));
                assert(keys@.contains(b));
                let x = choose|x: int| 0 <= x < keys@.len() && keys@[x] == a;
                let y = choose|y: int| 0 <= y < keys@.len() && keys@[y] == b;
                assert(covered(ways@, keys@, x, r, n, 0));
                assert(covered(ways@, keys@, y, r, n, 0));
                assert(marks@.contains_key(r));
            }
        }
    }
    marks
}

/// The nodes of way number `x` of `keys` that have been looked at when the
/// ways up to number `j`, and of that way the first `i` nodes, have been.
pub open spec fn looked_at(
    ways: Map<i64, WayParseData>,
    keys: Seq<i64>,
    x: int,
    j: int,
    i: int,
) -> Seq<i64> {
    if x < j {
        ways[keys[x]].refs@
    } else if x == j {
        ways[keys[x]].refs@.take(i)
    } else {
        Seq::empty()
    }
}

/// The entries hold, for each way, the crossings among its nodes that have
/// been looked at, and no entry for a way without any.
pub open spec fn crossings_so_far(
    entries: Map<i64, Seq<i64>>,
    ways: Map<i64, WayParseData>,
    keys: Seq<i64>,
    j: int,
    i: int,
) -> bool {
    &&& forall|x: int|
        0 <= x < keys.len() ==> (entries.contains_key(#[trigger] keys[x]) <==> looked_at(
            ways,
            keys,
            x,
            j,
            i,
        ).filter(crossing_filter(ways)).len() > 0)
    &&& forall|x: int|
        0 <= x < keys.len() && entries.contains_key(#[trigger] keys[x]) ==> entries[keys[x]]
            == looked_at(ways, keys, x, j, i).filter(crossing_filter(ways))
    &&& forall|key: i64| #[trigger] entries.contains_key(key) ==> keys.contains(key)
}

/// The entries hold, for each way that has crossings, its crossings in the
/// order of the way, and nothing else.
pub open spec fn is_crossing_map(entries: Map<i64, Seq<i64>>, ways: Map<i64, WayParseData>) -> bool {
    &&& forall|key: i64| #[trigger]
        entries.contains_key(key) <==> ways.contains_key(key) && crossings_of(ways, key).len() > 0
    &&& forall|key: i64| #[trigger]
        entries.contains_key(key) ==> entries[key] == crossings_of(ways, key)
}

/// The crossings of each way: those of its nodes that lie on another way
/// as well, in the order of the way. A way without crossings has no entry.
pub fn create_intersections_map(ways: &BTreeMap<i64, WayParseData>) -> (intersections: MultiMap<
    i64,
    i64,
>)
    ensures
        is_crossing_map(crossing_entries(intersections), ways@),
{
    let keys = ordered_keys(ways);
    let marks = mark_crossings(ways, &keys);
    let mut filtered_way_nodes = crossings_new();
    let ghost pick = crossing_filter(ways@);
    let mut j: usize = 0;
    proof {
        assert forall|x: int| 0 <= x < keys@.len() implies looked_at(ways@, keys@, x, 0, 0).filter(
            pick,
        ).len() == 0 by {
            assert(looked_at(ways@, keys@, x, 0, 0) =~= Seq::<i64>::empty());
            reveal(Seq::filter);
        }
    }
    while j < keys.len()
        invariant
            j <= keys@.len(),
            pick == crossing_filter(ways@),
            is_key_order(keys@, ways@.dom()),
            forall|r: i64| is_crossing(ways@, r) <==> #[trigger] marks@.contains_key(r) && marks@[r].1,
            crossings_so_far(crossing_entries(filtered_way_nodes), ways@, keys@, j as int, 0),
        decreases keys@.len() - j,
    {
        let key: i64 = keys[j];
        assert(ways@.dom().contains(keys@[j as int]));
        let way = ways.get(&key).unwrap();
        let mut i: usize = 0;
        while i < way.refs.len()
            invariant
                i <= way.refs@.len(),
                j < keys@.len(),
                key == keys@[j as int],
                ways@.contains_key(key),
                *way == ways@[key],
                pick == crossing_filter(ways@),
                is_key_order(keys@, ways@.dom()),
                forall|r: i64|
                    is_crossing(ways@, r) <==> #[trigger] marks@.contains_key(r) && marks@[r].1,
                crossings_so_far(
                    crossing_entries(filtered_way_nodes),
                    ways@,
                    keys@,
                    j as int,
                    i as int,
                ),
            decreases way.refs@.len() - i,
        {
            let r: i64 = way.refs[i];
            let ghost before = crossing_entries(filtered_way_nodes);
            let flagged: bool = match marks.get(&r) {
                Some(mark) => mark.1,
                None => false,
            };
            assert(flagged == is_crossing(ways@, r));
            if flagged {
                crossings_insert(&mut filtered_way_nodes, key, r);
            }
            proof {
                let jj = j as int;
                let ii = i as int;
                let next = ii + 1;
                let after = crossing_entries(filtered_way_nodes);
                lemma_filter_take_step(way.refs@, pick, ii);
                assert(pick(r) == is_crossing(ways@, r));
                assert forall|x: int| 0 <= x < keys@.len() implies ((after.contains_key(
                    #[trigger] keys@[x],
                ) <==> looked_at(ways@, keys@, x, jj, next).filter(pick).len() > 0) && (
                after.contains_key(keys@[x]) ==> after[keys@[x]] == looked_at(
                    ways@,
                    keys@,
                    x,
                    jj,
                    next,
                ).filter(pick))) by {
                    if x != jj {
                        if x < jj {
                            assert(keys@[x] < keys@[jj]);
                        } else {
                            assert(keys@[jj] < keys@[x]);
                        }
                        assert(looked_at(ways@, keys@, x, jj, next) == looked_at(
                            ways@,
                            keys@,
                            x,
                            jj,
                            ii,
                        ));
                        assert(before.contains_key(keys@[x]) == after.contains_key(keys@[x]));
                    } else {
                        assert(before.contains_key(keys@[jj]) <==> looked_at(
                            ways@,
                            keys@,
                            jj,
                            jj,
                            ii,
                        ).filter(pick).len() > 0);
                        if !before.contains_key(key) && flagged {
                            assert(way.refs@.take(ii).filter(pick) =~= Seq::<i64>::empty());
                            assert(seq![r] =~= Seq::<i64>::empty().push(r));
                        }
                    }
                }
                assert forall|k: i64| #[trigger] after.contains_key(k) implies keys@.contains(k) by {
                    if k == key {
                        assert(keys@[jj] == key);
                    } else {
                        assert(before.contains_key(k));
                    }
                }
            }
            i += 1;
        }
        proof {
            let jj = j as int;
            let after = jj + 1;
            let refs = way.refs@;
            assert(refs.take(refs.len() as int) =~= refs);
            assert forall|x: int| 0 <= x < keys@.len() implies #[trigger] looked_at(
                ways@,
                keys@,
                x,
                after,
                0,
            ) == looked_at(ways@, keys@, x, jj, refs.len() as int) by {
                if x == after {
                    assert(ways@[keys@[x]].refs@.take(0) =~= Seq::<i64>::empty());
                }
            }
        }
        j += 1;
    }
    proof {
        let entries = crossing_entries(filtered_way_nodes);
        let n = keys@.len() as int;
        assert forall|key: i64| #[trigger]
            entries.contains_key(key) <==> ways@.contains_key(key) && crossings_of(ways@, key).len()
                > 0 by {
            if entries.contains_key(key) || ways@.contains_key(key) {
                assert(keys@.contains(key));
                let x = choose|x: int| 0 <= x < keys@.len() && keys@[x] == key;
                assert(looked_at(ways@, keys@, x, n, 0) == ways@[key].refs@);
                assert(ways@.dom().contains(keys@[x]));
            }
        }
        assert forall|key: i64| #[trigger] entries.contains_key(key) implies entries[key]
            == crossings_of(ways@, key) by {
            assert(keys@.contains(key));
            let x = choose|x: int| 0 <= x < keys@.len() && keys@[x] == key;
            assert(looked_at(ways@, keys@, x, n, 0) == ways@[key].refs@);
        }
    }
    filtered_way_nodes
}

/// The graph of a parsed map: its nodes in the order of their ids and the
/// edges that the stretches give at their costs. The graph is well formed,
/// has all its edges in its adjacency lists and holds no shortcut.
pub fn from_parse_result(maps: &PBFParseResult, segments: &Vec<Segment>, weights: &Vec<u64>) -> (result:
    Result<Graph, BuildError>)
    ensures
        match result {
            Ok(graph) => {
                &&& graph.wf()
                &&& graph.complete()
                &&& graph@.shortcuts_sound()
                &&& are_nodes_of(graph.nodes@, maps.osm_id_to_node@)
                &&& built(maps.ways@, graph.nodes@, segments@, weights@) == Ok::<
                    GraphModel,
                    BuildError,
                >(graph@)
            },
            Err(error) => exists|nodes: Seq<Node>| #[trigger]
                are_nodes_of(nodes, maps.osm_id_to_node@) && built(
                    maps.ways@,
                    nodes,
                    segments@,
                    weights@,
                ) == Err::<GraphModel, BuildError>(error),
        },
{
    let nodes = build_nodes(&maps.osm_id_to_node);
    match build_edge_lists(maps, nodes.as_slice(), segments, weights) {
        Err(error) => Err(error),
        Ok(lists) => {
            let ghost whole = choose|graph: Graph| #[trigger]
                graph.wf() && graph.complete() && graph@.shortcuts_sound() && graph@ == lists.model(
                    nodes@,
                ) && graph.fwd_edge_list == lists.fwd_edge_list && graph.bwd_edge_list
                    == lists.bwd_edge_list;
            let graph = Graph {
                fwd_edge_list: lists.fwd_edge_list,
                bwd_edge_list: lists.bwd_edge_list,
                nodes,
                edges: lists.edges,
                edge_metadata: lists.edge_metadata,
            };
            proof {
                assert(graph@ == whole@);
                assert(graph.arrays_wf());
                assert(graph.adjacency_wf());
                assert(graph.coherent());
                assert forall|e: int| 0 <= e < graph.edges@.len() implies #[trigger] graph.is_live(
                    e,
                ) by {
                    assert(whole.is_live(e));
                }
            }
            Ok(graph)
        },
    }
}

} // verus!
