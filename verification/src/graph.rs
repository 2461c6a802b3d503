//! The mutable graph: parallel node, edge and metadata arrays with forward
//! and backward adjacency lists of edge ids.
use vstd::prelude::*;
use crate::seq_lemmas::{
    lemma_filter_all, lemma_filter_member, lemma_filter_no_duplicates, lemma_filter_none, lemma_filter_same,
    lemma_filter_take_step, lemma_filter_twice,
};

verus! {

/// The cost that stands for "no path known".
pub const INFINITY: u64 = 0xffff_ffff_ffff_ffff;

/// Sum of two costs; the sum stays at `INFINITY` once it reaches it.
pub open spec fn weight_add(a: u64, b: u64) -> u64 {
    if a + b >= INFINITY {
        INFINITY
    } else {
        (a + b) as u64
    }
}

/// Adds two costs without overflow.
pub fn add_weights(a: u64, b: u64) -> (sum: u64)
    ensures
        sum == weight_add(a, b),
{
    if b >= INFINITY - a {
        INFINITY
    } else {
        a + b
    }
}

/// A way node.
#[derive(Debug, Clone, Copy)]
pub struct Node {
    /// Dense index of the node.
    pub dense_id: usize,
    /// External identifier of the node.
    pub osm_id: i64,
    /// Contraction level of the node.
    pub rank: i32,
    /// Whether the node has been contracted.
    pub is_contracted: bool,
    /// Latitude in units of 1e-7 degree.
    pub lat: i32,
    /// Longitude in units of 1e-7 degree.
    pub lon: i32,
    /// Whether a traffic light stands at the node.
    pub is_traffic_light: bool,
}

/// The metadata of an edge. Two opposite edges of one road share a record.
#[derive(Debug, Clone)]
pub struct EdgeMetadata {
    /// Cost to traverse the edge; finite.
    pub weight: u64,
    /// Name of the road the edge is part of.
    pub name: Option<String>,
    /// Maximum speed.
    pub speed_limit: Option<u8>,
    /// Whether the road is one way.
    pub is_one_way: bool,
    /// Whether the edge is part of a roundabout.
    pub is_roundabout: bool,
    /// For a shortcut, the id of the first edge it packs.
    pub prev_edge: Option<usize>,
    /// For a shortcut, the id of the second edge it packs.
    pub next_edge: Option<usize>,
}

/// A directed edge.
#[derive(Debug, Clone, Copy, PartialEq, Eq, Structural)]
pub struct Edge {
    /// Dense id of the source node.
    pub src_id: usize,
    /// Dense id of the destination node.
    pub dest_id: usize,
    /// Index of the edge's record in the metadata array.
    pub metadata_index: usize,
}

#[derive(Clone)]
pub struct Graph {
    /// For each node, the ids of the edges that leave it.
    pub fwd_edge_list: Vec<Vec<usize>>,
    /// For each node, the ids of the edges that enter it.
    pub bwd_edge_list: Vec<Vec<usize>>,
    /// Indexed by dense node id.
    pub nodes: Vec<Node>,
    /// Indexed by edge id; entries are never removed.
    pub edges: Vec<Edge>,
    /// Metadata records, referred to by the edges.
    pub edge_metadata: Vec<EdgeMetadata>,
}

/// The metadata record of a shortcut: one way, unnamed, with the two packed
/// edges.
pub open spec fn shortcut_metadata(weight: u64, prev: usize, next: usize) -> EdgeMetadata {
    EdgeMetadata {
        weight,
        name: None,
        speed_limit: None,
        is_one_way: true,
        is_roundabout: false,
        prev_edge: Some(prev),
        next_edge: Some(next),
    }
}

/// A graph as plain values: the adjacency lists, the nodes, the edges and
/// the metadata records.
pub struct GraphModel {
    pub fwd: Seq<Seq<usize>>,
    pub bwd: Seq<Seq<usize>>,
    pub nodes: Seq<Node>,
    pub edges: Seq<Edge>,
    pub metadata: Seq<EdgeMetadata>,
}

impl GraphModel {
    /// The cost of edge `e`.
    pub open spec fn weight_of(self, e: int) -> u64 {
        self.metadata[self.edges[e].metadata_index as int].weight
    }

    /// The edges that neither leave nor enter node `v`.
    pub open spec fn avoids(self, v: usize) -> spec_fn(usize) -> bool {
        |e: usize| self.edges[e as int].src_id != v && self.edges[e as int].dest_id != v
    }

    /// The graph with `edge` appended under the next edge id, and that id
    /// at the end of the forward list of the edge's source and of the
    /// backward list of its destination.
    pub open spec fn push_edge(self, edge: Edge) -> GraphModel {
        let id = self.edges.len() as usize;
        GraphModel {
            fwd: self.fwd.update(edge.src_id as int, self.fwd[edge.src_id as int].push(id)),
            bwd: self.bwd.update(edge.dest_id as int, self.bwd[edge.dest_id as int].push(id)),
            edges: self.edges.push(edge),
            ..self
        }
    }

    /// The graph with a shortcut from `w` to `v` of cost `weight` that
    /// packs the edges `prev` and `next`: a new metadata record and a new
    /// edge that refers to it.
    pub open spec fn with_shortcut(
        self,
        w: usize,
        v: usize,
        weight: u64,
        prev: usize,
        next: usize,
    ) -> GraphModel {
        self.push_metadata(shortcut_metadata(weight, prev, next)).push_edge(
            Edge { src_id: w, dest_id: v, metadata_index: self.metadata.len() as usize },
        )
    }

    /// The record of edge `e` names no packed edge, or it names two
    /// earlier edges, the first from the source of `e`, the second into
    /// its destination, that meet in one node and whose costs add up to
    /// the cost of `e`.
    pub open spec fn shortcut_sound(self, e: int) -> bool {
        let record = self.metadata[self.edges[e].metadata_index as int];
        ||| (record.prev_edge.is_none() && record.next_edge.is_none())
        ||| {
            &&& record.prev_edge.is_some()
            &&& record.next_edge.is_some()
            &&& record.prev_edge.unwrap() < e
            &&& record.next_edge.unwrap() < e
            &&& self.edges[record.prev_edge.unwrap() as int].src_id == self.edges[e].src_id
            &&& self.edges[record.next_edge.unwrap() as int].dest_id == self.edges[e].dest_id
            &&& self.edges[record.prev_edge.unwrap() as int].dest_id
                == self.edges[record.next_edge.unwrap() as int].src_id
            &&& self.weight_of(e) == self.weight_of(record.prev_edge.unwrap() as int)
                + self.weight_of(record.next_edge.unwrap() as int)
        }
    }

    /// Every shortcut is sound.
    pub open spec fn shortcuts_sound(self) -> bool {
        forall|e: int| 0 <= e < self.edges.len() ==> #[trigger] self.shortcut_sound(e)
    }

    /// Edge `e` names two packed edges.
    pub open spec fn is_shortcut(self, e: int) -> bool {
        let record = self.metadata[self.edges[e].metadata_index as int];
        record.prev_edge.is_some() && record.next_edge.is_some()
    }

    /// Every edge from number `first` on names two packed edges.
    pub open spec fn shortcuts_beyond(self, first: nat) -> bool {
        forall|e: int| first <= e < self.edges.len() ==> #[trigger] self.is_shortcut(e)
    }

    /// The record of every edge is there.
    pub open spec fn records_there(self) -> bool {
        forall|e: int|
            0 <= e < self.edges.len() ==> (#[trigger] self.edges[e]).metadata_index
                < self.metadata.len()
    }

    /// `self` holds at least the edges and records of `before`, under the
    /// same ids, over the same number of nodes.
    pub open spec fn extends(self, before: GraphModel) -> bool {
        &&& self.nodes.len() == before.nodes.len()
        &&& before.edges.len() <= self.edges.len()
        &&& before.metadata.len() <= self.metadata.len()
        &&& forall|e: int| 0 <= e < before.edges.len() ==> #[trigger] self.edges[e] == before.edges[e]
        &&& forall|m: int|
            0 <= m < before.metadata.len() ==> #[trigger] self.metadata[m] == before.metadata[m]
    }

    /// The graph with the rank of node `v` raised to `rank`, if that is not
    /// below the rank it has.
    pub open spec fn raise_rank(self, v: usize, rank: i32) -> GraphModel {
        GraphModel { nodes: self.nodes.update(v as int, self.nodes[v as int].raised(rank)), ..self }
    }

    /// The graph with one more metadata record.
    pub open spec fn push_metadata(self, metadata: EdgeMetadata) -> GraphModel {
        GraphModel { metadata: self.metadata.push(metadata), ..self }
    }

    /// The graph with every edge that leaves or enters `v` taken out of
    /// the adjacency lists, the order of the others kept.
    pub open spec fn remove_incident(self, v: usize) -> GraphModel {
        GraphModel {
            fwd: Seq::new(self.fwd.len(), |x: int| self.fwd[x].filter(self.avoids(v))),
            bwd: Seq::new(self.bwd.len(), |x: int| self.bwd[x].filter(self.avoids(v))),
            ..self
        }
    }
}

impl View for Graph {
    type V = GraphModel;

    open spec fn view(&self) -> GraphModel {
        GraphModel {
            fwd: Seq::new(self.fwd_edge_list@.len(), |v: int| self.fwd_edge_list@[v]@),
            bwd: Seq::new(self.bwd_edge_list@.len(), |v: int| self.bwd_edge_list@[v]@),
            nodes: self.nodes@,
            edges: self.edges@,
            metadata: self.edge_metadata@,
        }
    }
}

impl Edge {
    pub fn new(src_id: usize, dest_id: usize, metadata_index: usize) -> (edge: Self)
        ensures
            edge == (Edge { src_id, dest_id, metadata_index }),
    {
        Self { src_id, dest_id, metadata_index }
    }

    /// An edge whose metadata record carries the two packed edges.
    pub fn new_shortcut(src_id: usize, dest_id: usize, metadata_index: usize) -> (edge: Self)
        ensures
            edge == (Edge { src_id, dest_id, metadata_index }),
    {
        Self { src_id, dest_id, metadata_index }
    }

    pub fn get_src_id(&self) -> (id: usize)
        ensures
            id == self.src_id,
    {
        self.src_id
    }

    pub fn get_dest_id(&self) -> (id: usize)
        ensures
            id == self.dest_id,
    {
        self.dest_id
    }

    pub fn get_metadata_index(&self) -> (index: usize)
        ensures
            index == self.metadata_index,
    {
        self.metadata_index
    }
}

impl Node {
    /// The node with its rank raised to `rank`, if that is not below the
    /// rank it has.
    pub open spec fn raised(self, rank: i32) -> Node {
        if rank >= self.rank {
            Node { rank, ..self }
        } else {
            self
        }
    }

    /// A node at rank 0 and at the origin, not contracted and without a
    /// traffic light.
    pub fn new(dense_id: usize, osm_id: i64) -> (node: Self)
        ensures
            node == (Node {
                dense_id,
                osm_id,
                rank: 0,
                is_contracted: false,
                lat: 0,
                lon: 0,
                is_traffic_light: false,
            }),
    {
        Self {
            dense_id,
            osm_id,
            rank: 0,
            is_contracted: false,
            lat: 0,
            lon: 0,
            is_traffic_light: false,
        }
    }

    pub fn set_rank(&mut self, rank: i32)
        ensures
            *final(self) == (Node { rank, ..*old(self) }),
    {
        self.rank = rank;
    }

    /// Sets the rank to `rank` unless the node's rank is above it.
    pub fn raise_rank(&mut self, rank: i32)
        ensures
            *final(self) == old(self).raised(rank),
    {
        if rank >= self.rank {
            self.rank = rank;
        }
    }

    pub fn get_rank(&self) -> (rank: i32)
        ensures
            rank == self.rank,
    {
        self.rank
    }

    pub fn set_is_contracted(&mut self, is_contracted: bool)
        ensures
            *final(self) == (Node { is_contracted, ..*old(self) }),
    {
        self.is_contracted = is_contracted;
    }

    pub fn get_is_contracted(&self) -> (is_contracted: bool)
        ensures
            is_contracted == self.is_contracted,
    {
        self.is_contracted
    }

    /// Sets the position, in units of 1e-7 degree.
    pub fn set_lat_lon(&mut self, lat: i32, lon: i32)
        ensures
            *final(self) == (Node { lat, lon, ..*old(self) }),
    {
        self.lat = lat;
        self.lon = lon;
    }

    /// The position, in units of 1e-7 degree.
    pub fn get_lat_lon(&self) -> (position: (i32, i32))
        ensures
            position == (self.lat, self.lon),
    {
        (self.lat, self.lon)
    }

    pub fn set_is_traffic_light(&mut self, is_traffic_light: bool)
        ensures
            *final(self) == (Node { is_traffic_light, ..*old(self) }),
    {
        self.is_traffic_light = is_traffic_light;
    }

    pub fn get_is_traffic_light(&self) -> (is_traffic_light: bool)
        ensures
            is_traffic_light == self.is_traffic_light,
    {
        self.is_traffic_light
    }
}

impl EdgeMetadata {
    /// Whether the record names two packed edges.
    pub fn is_shortcut(&self) -> (shortcut: bool)
        ensures
            shortcut == (self.prev_edge.is_some() && self.next_edge.is_some()),
    {
        self.prev_edge.is_some() && self.next_edge.is_some()
    }

    /// The first of the two edges that a shortcut packs.
    pub fn get_prev_edge(&self) -> (edge: Option<usize>)
        requires
            self.prev_edge.is_some() && self.next_edge.is_some(),
        ensures
            edge == self.prev_edge,
    {
        self.prev_edge
    }

    /// The second of the two edges that a shortcut packs.
    pub fn get_next_edge(&self) -> (edge: Option<usize>)
        requires
            self.prev_edge.is_some() && self.next_edge.is_some(),
        ensures
            edge == self.next_edge,
    {
        self.next_edge
    }
}

impl Graph {
    /// The edge ids that leave node `v`.
    #[verifier::inline]
    pub open spec fn fwd(&self, v: int) -> Seq<usize> {
        self.fwd_edge_list@[v]@
    }

    /// The edge ids that enter node `v`.
    #[verifier::inline]
    pub open spec fn bwd(&self, v: int) -> Seq<usize> {
        self.bwd_edge_list@[v]@
    }

    /// The cost of edge `e`.
    pub open spec fn weight_of(&self, e: int) -> u64 {
        self.edge_metadata@[self.edges@[e].metadata_index as int].weight
    }

    /// Edge `e` can be reached: it stands in the forward list of its source.
    pub open spec fn is_live(&self, e: int) -> bool {
        self.fwd(self.edges@[e].src_id as int).contains(e as usize)
    }

    /// The arrays have matching lengths, every stored index is in range and
    /// every node sits at its own dense id.
    pub open spec fn arrays_wf(&self) -> bool {
        &&& self.fwd_edge_list@.len() == self.nodes@.len()
        &&& self.bwd_edge_list@.len() == self.nodes@.len()
        &&& forall|i: int|
            0 <= i < self.nodes@.len() ==> (#[trigger] self.nodes@[i]).dense_id == i
        &&& forall|e: int|
            0 <= e < self.edges@.len() ==> {
                &&& (#[trigger] self.edges@[e]).src_id < self.nodes@.len()
                &&& self.edges@[e].dest_id < self.nodes@.len()
                &&& self.edges@[e].metadata_index < self.edge_metadata@.len()
            }
        &&& forall|m: int|
            0 <= m < self.edge_metadata@.len() ==> (#[trigger] self.edge_metadata@[m]).weight
                < INFINITY
    }

    /// Every adjacency list holds, without repetition, ids of edges that
    /// leave (forward) or enter (backward) its node.
    pub open spec fn adjacency_wf(&self) -> bool {
        &&& forall|v: int, k: int|
            0 <= v < self.nodes@.len() && 0 <= k < self.fwd(v).len() ==> {
                &&& (#[trigger] self.fwd(v)[k]) < self.edges@.len()
                &&& self.edges@[self.fwd(v)[k] as int].src_id == v
            }
        &&& forall|v: int, k: int|
            0 <= v < self.nodes@.len() && 0 <= k < self.bwd(v).len() ==> {
                &&& (#[trigger] self.bwd(v)[k]) < self.edges@.len()
                &&& self.edges@[self.bwd(v)[k] as int].dest_id == v
            }
        &&& forall|v: int| 0 <= v < self.nodes@.len() ==> (#[trigger] self.fwd(v)).no_duplicates()
        &&& forall|v: int| 0 <= v < self.nodes@.len() ==> (#[trigger] self.bwd(v)).no_duplicates()
    }

    /// An edge stands in the forward list of its source exactly when it
    /// stands in the backward list of its destination.
    pub open spec fn coherent(&self) -> bool {
        forall|e: int|
            0 <= e < self.edges@.len() ==> (self.fwd(
                (#[trigger] self.edges@[e]).src_id as int,
            ).contains(e as usize) <==> self.bwd(self.edges@[e].dest_id as int).contains(
                e as usize,
            ))
    }

    /// `self` is `before` with `edge` appended under the next edge id and
    /// that id pushed onto the forward list of the edge's source and the
    /// backward list of its destination; the nodes are the same.
    pub open spec fn appended(&self, before: Graph, edge: Edge) -> bool {
        let id = before.edges@.len() as usize;
        &&& self.nodes@ == before.nodes@
        &&& self.edges@ == before.edges@.push(edge)
        &&& self.fwd_edge_list@.len() == before.fwd_edge_list@.len()
        &&& self.bwd_edge_list@.len() == before.bwd_edge_list@.len()
        &&& forall|v: int|
            0 <= v < self.fwd_edge_list@.len() ==> #[trigger] self.fwd(v) == if v == edge.src_id {
                before.fwd(v).push(id)
            } else {
                before.fwd(v)
            }
        &&& forall|v: int|
            0 <= v < self.bwd_edge_list@.len() ==> #[trigger] self.bwd(v) == if v == edge.dest_id {
                before.bwd(v).push(id)
            } else {
                before.bwd(v)
            }
    }

    /// The edges that neither leave nor enter node `v`.
    pub open spec fn avoids(&self, v: usize) -> spec_fn(usize) -> bool {
        |e: usize| self.edges@[e as int].src_id != v && self.edges@[e as int].dest_id != v
    }

    /// `self` has the adjacency lists of `before` with every edge that
    /// leaves or enters `v` taken out, in the same order.
    pub open spec fn without_node(&self, before: Graph, v: usize) -> bool {
        &&& self.fwd_edge_list@.len() == before.fwd_edge_list@.len()
        &&& self.bwd_edge_list@.len() == before.bwd_edge_list@.len()
        &&& forall|x: int|
            0 <= x < self.fwd_edge_list@.len() ==> #[trigger] self.fwd(x) == before.fwd(x).filter(
                before.avoids(v),
            )
        &&& forall|x: int|
            0 <= x < self.bwd_edge_list@.len() ==> #[trigger] self.bwd(x) == before.bwd(x).filter(
                before.avoids(v),
            )
    }

    /// Well-formedness of the graph.
    pub open spec fn wf(&self) -> bool {
        &&& self.arrays_wf()
        &&& self.adjacency_wf()
        &&& self.coherent()
    }

    /// No edge has been removed from the adjacency lists.
    pub open spec fn complete(&self) -> bool {
        forall|e: int| 0 <= e < self.edges@.len() ==> #[trigger] self.is_live(e)
    }

    pub fn num_nodes(&self) -> (n: usize)
        ensures
            n == self.nodes@.len(),
    {
        self.nodes.len()
    }

    pub fn num_edges(&self) -> (n: usize)
        ensures
            n == self.edges@.len(),
    {
        self.edges.len()
    }

    /// The forward neighbours of a node, as edge ids.
    pub fn get_fwd_neighbors(&self, dense_id: usize) -> (list: &Vec<usize>)
        requires
            dense_id < self.fwd_edge_list@.len(),
        ensures
            list@ == self.fwd(dense_id as int),
    {
        &self.fwd_edge_list[dense_id]
    }

    /// The backward neighbours of a node, as edge ids.
    pub fn get_bwd_neighbors(&self, dense_id: usize) -> (list: &Vec<usize>)
        requires
            dense_id < self.bwd_edge_list@.len(),
        ensures
            list@ == self.bwd(dense_id as int),
    {
        &self.bwd_edge_list[dense_id]
    }

    pub fn get_nodes(&self) -> (nodes: &Vec<Node>)
        ensures
            nodes == &self.nodes,
    {
        &self.nodes
    }

    pub fn get_node(&self, dense_id: usize) -> (node: &Node)
        requires
            dense_id < self.nodes@.len(),
        ensures
            *node == self.nodes@[dense_id as int],
    {
        &self.nodes[dense_id]
    }

    pub fn get_edge(&self, edge_id: usize) -> (edge: &Edge)
        requires
            edge_id < self.edges@.len(),
        ensures
            *edge == self.edges@[edge_id as int],
    {
        &self.edges[edge_id]
    }

    /// Appends an edge, records it in both adjacency lists and returns its id.
    pub fn add_edge(&mut self, src_id: usize, dest_id: usize, metadata_index: usize) -> (edge_id:
        usize)
        requires
            old(self).wf(),
            src_id < old(self).nodes@.len(),
            dest_id < old(self).nodes@.len(),
            metadata_index < old(self).edge_metadata@.len(),
        ensures
            edge_id == old(self).edges@.len(),
            final(self)@ == old(self)@.push_edge(Edge { src_id, dest_id, metadata_index }),
            final(self).wf(),
            old(self).complete() ==> final(self).complete(),
    {
        let edge_id: usize = self.edges.len();
        self.edges.push(Edge::new(src_id, dest_id, metadata_index));
        self.fwd_edge_list[src_id].push(edge_id);
        self.bwd_edge_list[dest_id].push(edge_id);
        proof {
            let edge = Edge { src_id, dest_id, metadata_index };
            assert(self@.fwd =~~= old(self)@.push_edge(edge).fwd);
            assert(self@.bwd =~~= old(self)@.push_edge(edge).bwd);
            lemma_appended_wf(*old(self), *self, edge);
        }
        edge_id
    }

    /// Same as `add_edge`, for an edge whose metadata record names the two
    /// edges that it packs.
    pub fn add_shortcut_edge(&mut self, src_id: usize, dest_id: usize, metadata_index: usize) -> (edge_id:
        usize)
        requires
            old(self).wf(),
            src_id < old(self).nodes@.len(),
            dest_id < old(self).nodes@.len(),
            metadata_index < old(self).edge_metadata@.len(),
        ensures
            edge_id == old(self).edges@.len(),
            final(self)@ == old(self)@.push_edge(Edge { src_id, dest_id, metadata_index }),
            final(self).wf(),
            old(self).complete() ==> final(self).complete(),
    {
        let edge_id: usize = self.edges.len();
        self.edges.push(Edge::new_shortcut(src_id, dest_id, metadata_index));
        self.fwd_edge_list[src_id].push(edge_id);
        self.bwd_edge_list[dest_id].push(edge_id);
        proof {
            let edge = Edge { src_id, dest_id, metadata_index };
            assert(self@.fwd =~~= old(self)@.push_edge(edge).fwd);
            assert(self@.bwd =~~= old(self)@.push_edge(edge).bwd);
            lemma_appended_wf(*old(self), *self, edge);
        }
        edge_id
    }

    /// Takes every edge that leaves or enters `v` out of the adjacency
    /// lists: out of the backward list of its destination and the forward
    /// list of its source. Both lists at `v` end up empty. The edge, node
    /// and metadata arrays stay as they are.
    pub fn remove_incident(&mut self, v: usize)
        requires
            old(self).wf(),
            v < old(self).nodes@.len(),
        ensures
            final(self)@ == old(self)@.remove_incident(v),
            final(self).fwd(v as int).len() == 0,
            final(self).bwd(v as int).len() == 0,
            final(self).wf(),
    {
        let fwd_edges: Vec<usize> = copy_ids(&self.fwd_edge_list[v]);
        let bwd_edges: Vec<usize> = copy_ids(&self.bwd_edge_list[v]);
        let ghost before = *self;
        let n: usize = fwd_edges.len();
        let mut k: usize = 0;
        proof {
            assert forall|x: int| 0 <= x < before.nodes@.len() implies #[trigger] self.bwd(x)
                == before.bwd(x).filter(not_among(fwd_edges@.take(0))) by {
                lemma_filter_all(before.bwd(x), not_among(fwd_edges@.take(0)));
            }
        }
        while k < n
            invariant
                k <= n,
                n == fwd_edges@.len(),
                v < before.nodes@.len(),
                before.wf(),
                fwd_edges@ == before.fwd(v as int),
                self.nodes@ == before.nodes@,
                self.edges@ == before.edges@,
                self.edge_metadata@ == before.edge_metadata@,
                self.fwd_edge_list@ == before.fwd_edge_list@,
                self.bwd_edge_list@.len() == before.bwd_edge_list@.len(),
                forall|x: int|
                    0 <= x < before.nodes@.len() ==> #[trigger] self.bwd(x) == before.bwd(
                        x,
                    ).filter(not_among(fwd_edges@.take(k as int))),
            decreases n - k,
        {
            let edge_idx: usize = fwd_edges[k];
            assert(before.fwd(v as int)[k as int] == edge_idx);
            let dest: usize = self.edges[edge_idx].dest_id;
            let ghost mid = *self;
            retain_other(&mut self.bwd_edge_list[dest], edge_idx);
            proof {
                let done = fwd_edges@.take(k as int);
                let next = fwd_edges@.take(k as int + 1);
                assert(next =~= done.push(edge_idx));
                assert forall|x: int| 0 <= x < before.nodes@.len() implies #[trigger] self.bwd(x)
                    == before.bwd(x).filter(not_among(next)) by {
                    let list = before.bwd(x);
                    if x == dest {
                        assert(mid.bwd(x) == list.filter(not_among(done)));
                        assert forall|i: int| 0 <= i < list.len() implies not_among(next)(
                            #[trigger] list[i],
                        ) == (not_among(done)(list[i]) && differs_from(edge_idx)(list[i])) by {
                            if list[i] != edge_idx {
                                lemma_push_member(done, edge_idx, list[i]);
                            } else {
                                assert(next[next.len() - 1] == edge_idx);
                            }
                        }
                        lemma_filter_twice(
                            list,
                            not_among(done),
                            differs_from(edge_idx),
                            not_among(next),
                        );
                    } else {
                        assert(self.bwd(x) == mid.bwd(x));
                        assert forall|i: int| 0 <= i < list.len() implies not_among(done)(
                            #[trigger] list[i],
                        ) == not_among(next)(list[i]) by {
                            assert(before.edges@[list[i] as int].dest_id == x);
                            lemma_push_member(done, edge_idx, list[i]);
                        }
                        lemma_filter_same(list, not_among(done), not_among(next));
                    }
                }
            }
            k += 1;
        }
        assert(fwd_edges@.take(n as int) =~= fwd_edges@);
        let m: usize = bwd_edges.len();
        let mut j: usize = 0;
        proof {
            assert forall|x: int| 0 <= x < before.nodes@.len() implies #[trigger] self.fwd(x)
                == before.fwd(x).filter(not_among(bwd_edges@.take(0))) by {
                lemma_filter_all(before.fwd(x), not_among(bwd_edges@.take(0)));
            }
        }
        while j < m
            invariant
                j <= m,
                m == bwd_edges@.len(),
                v < before.nodes@.len(),
                before.wf(),
                bwd_edges@ == before.bwd(v as int),
                self.nodes@ == before.nodes@,
                self.edges@ == before.edges@,
                self.edge_metadata@ == before.edge_metadata@,
                self.fwd_edge_list@.len() == before.fwd_edge_list@.len(),
                self.bwd_edge_list@.len() == before.bwd_edge_list@.len(),
                forall|x: int|
                    0 <= x < before.nodes@.len() ==> #[trigger] self.bwd(x) == before.bwd(
                        x,
                    ).filter(not_among(before.fwd(v as int))),
                forall|x: int|
                    0 <= x < before.nodes@.len() ==> #[trigger] self.fwd(x) == before.fwd(
                        x,
                    ).filter(not_among(bwd_edges@.take(j as int))),
            decreases m - j,
        {
            let edge_idx: usize = bwd_edges[j];
            assert(before.bwd(v as int)[j as int] == edge_idx);
            let src: usize = self.edges[edge_idx].src_id;
            let ghost mid = *self;
            retain_other(&mut self.fwd_edge_list[src], edge_idx);
            proof {
                let done = bwd_edges@.take(j as int);
                let next = bwd_edges@.take(j as int + 1);
                assert(next =~= done.push(edge_idx));
                assert forall|x: int| 0 <= x < before.nodes@.len() implies #[trigger] self.fwd(x)
                    == before.fwd(x).filter(not_among(next)) by {
                    let list = before.fwd(x);
                    if x == src {
                        assert(mid.fwd(x) == list.filter(not_among(done)));
                        assert forall|i: int| 0 <= i < list.len() implies not_among(next)(
                            #[trigger] list[i],
                        ) == (not_among(done)(list[i]) && differs_from(edge_idx)(list[i])) by {
                            if list[i] != edge_idx {
                                lemma_push_member(done, edge_idx, list[i]);
                            } else {
                                assert(next[next.len() - 1] == edge_idx);
                            }
                        }
                        lemma_filter_twice(
                            list,
                            not_among(done),
                            differs_from(edge_idx),
                            not_among(next),
                        );
                    } else {
                        assert(self.fwd(x) == mid.fwd(x));
                        assert forall|i: int| 0 <= i < list.len() implies not_among(done)(
                            #[trigger] list[i],
                        ) == not_among(next)(list[i]) by {
                            assert(before.edges@[list[i] as int].src_id == x);
                            lemma_push_member(done, edge_idx, list[i]);
                        }
                        lemma_filter_same(list, not_among(done), not_among(next));
                    }
                }
                assert forall|x: int| 0 <= x < before.nodes@.len() implies #[trigger] self.bwd(x)
                    == mid.bwd(x) by {}
            }
            j += 1;
        }
        assert(bwd_edges@.take(m as int) =~= bwd_edges@);
        let ghost emptied = *self;
        self.fwd_edge_list[v].clear();
        self.bwd_edge_list[v].clear();
        proof {
            assert forall|x: int| 0 <= x < before.nodes@.len() implies #[trigger] self.fwd(x)
                == before.fwd(x).filter(before.avoids(v)) by {
                lemma_removed_forward(before, v, x);
                if x != v {
                    assert(self.fwd(x) == emptied.fwd(x));
                } else {
                    assert(self.fwd(x) =~= Seq::<usize>::empty());
                }
            }
            assert forall|x: int| 0 <= x < before.nodes@.len() implies #[trigger] self.bwd(x)
                == before.bwd(x).filter(before.avoids(v)) by {
                lemma_removed_backward(before, v, x);
                if x != v {
                    assert(self.bwd(x) == emptied.bwd(x));
                } else {
                    assert(self.bwd(x) =~= Seq::<usize>::empty());
                }
            }
            lemma_without_node_wf(before, *self, v);
            assert(before.avoids(v) == before@.avoids(v));
            assert(self@.fwd =~~= before@.remove_incident(v).fwd);
            assert(self@.bwd =~~= before@.remove_incident(v).bwd);
        }
    }

    /// A node to change in place; the rest of the graph stays as it is.
    pub fn get_node_mut(&mut self, dense_id: usize) -> (node: &mut Node)
        requires
            dense_id < old(self).nodes@.len(),
        ensures
            *node == old(self).nodes@[dense_id as int],
            final(self).nodes@ == old(self).nodes@.update(dense_id as int, *final(node)),
            final(self).fwd_edge_list == old(self).fwd_edge_list,
            final(self).bwd_edge_list == old(self).bwd_edge_list,
            final(self).edges == old(self).edges,
            final(self).edge_metadata == old(self).edge_metadata,
    {
        &mut self.nodes[dense_id]
    }

    /// An edge to change in place; the rest of the graph stays as it is.
    pub fn get_edge_mut(&mut self, edge_id: usize) -> (edge: &mut Edge)
        requires
            edge_id < old(self).edges@.len(),
        ensures
            *edge == old(self).edges@[edge_id as int],
            final(self).edges@ == old(self).edges@.update(edge_id as int, *final(edge)),
            final(self).fwd_edge_list == old(self).fwd_edge_list,
            final(self).bwd_edge_list == old(self).bwd_edge_list,
            final(self).nodes == old(self).nodes,
            final(self).edge_metadata == old(self).edge_metadata,
    {
        &mut self.edges[edge_id]
    }

    /// The sum of the lengths of the first `v` lists.
    pub open spec fn total_len(lists: Seq<Vec<usize>>, v: int) -> int
        decreases v,
    {
        if v <= 0 {
            0
        } else {
            Self::total_len(lists, v - 1) + lists[v - 1]@.len()
        }
    }

    /// The number of entries in all forward lists, or nothing when that
    /// number is beyond the largest `usize`.
    pub fn get_num_fwd(&self) -> (count: Option<usize>)
        ensures
            count == if Self::total_len(self.fwd_edge_list@, self.fwd_edge_list@.len() as int)
                <= usize::MAX {
                Some(
                    Self::total_len(self.fwd_edge_list@, self.fwd_edge_list@.len() as int) as usize,
                )
            } else {
                None
            },
    {
        count_entries(&self.fwd_edge_list)
    }

    /// The number of entries in all backward lists, or nothing when that
    /// number is beyond the largest `usize`.
    pub fn get_num_bwd(&self) -> (count: Option<usize>)
        ensures
            count == if Self::total_len(self.bwd_edge_list@, self.bwd_edge_list@.len() as int)
                <= usize::MAX {
                Some(
                    Self::total_len(self.bwd_edge_list@, self.bwd_edge_list@.len() as int) as usize,
                )
            } else {
                None
            },
    {
        count_entries(&self.bwd_edge_list)
    }

    /// The first edge in the forward list of `w` that leads to `v`.
    pub fn find_edge(&self, w: usize, v: usize) -> (found: Option<&Edge>)
        requires
            self.wf(),
            w < self.nodes@.len(),
        ensures
            match found {
                Some(edge) => exists|k: int|
                    0 <= k < self.fwd(w as int).len() && *edge == self.edges@[(
                    #[trigger] self.fwd(w as int)[k]) as int] && edge.dest_id == v && forall|j: int|
                        0 <= j < k ==> self.edges@[(#[trigger] self.fwd(w as int)[j]) as int].dest_id
                            != v,
                None => forall|k: int|
                    0 <= k < self.fwd(w as int).len() ==> self.edges@[(
                    #[trigger] self.fwd(w as int)[k]) as int].dest_id != v,
            },
    {
        let list = &self.fwd_edge_list[w];
        let mut k: usize = 0;
        while k < list.len()
            invariant
                k <= list@.len(),
                self.wf(),
                w < self.nodes@.len(),
                list@ == self.fwd(w as int),
                forall|j: int|
                    0 <= j < k ==> self.edges@[(#[trigger] self.fwd(w as int)[j]) as int].dest_id
                        != v,
            decreases list@.len() - k,
        {
            let edge_id: usize = list[k];
            assert(self.fwd(w as int)[k as int] == edge_id);
            let edge = &self.edges[edge_id];
            if edge.dest_id == v {
                return Some(edge);
            }
            k += 1;
        }
        None
    }

    /// Whether the edge array holds an edge from `v` to `w`, removed or not.
    pub fn edge_exists(&self, v: usize, w: usize) -> (exists_edge: bool)
        ensures
            exists_edge == exists|e: int|
                0 <= e < self.edges@.len() && (#[trigger] self.edges@[e]).src_id == v
                    && self.edges@[e].dest_id == w,
    {
        let mut e: usize = 0;
        while e < self.edges.len()
            invariant
                e <= self.edges@.len(),
                forall|x: int|
                    0 <= x < e ==> !((#[trigger] self.edges@[x]).src_id == v && self.edges@[x].dest_id
                        == w),
            decreases self.edges@.len() - e,
        {
            if self.edges[e].src_id == v && self.edges[e].dest_id == w {
                return true;
            }
            e += 1;
        }
        false
    }

    /// A copy of the graph.
    pub fn duplicate(&self) -> (copy: Graph)
        ensures
            copy@ == self@,
            self.wf() ==> copy.wf(),
            self.wf() && self.complete() ==> copy.complete(),
    {
        let fwd_edge_list = copy_lists(&self.fwd_edge_list);
        let bwd_edge_list = copy_lists(&self.bwd_edge_list);
        let mut nodes: Vec<Node> = Vec::new();
        let mut i: usize = 0;
        while i < self.nodes.len()
            invariant
                i <= self.nodes@.len(),
                nodes@ == self.nodes@.take(i as int),
            decreases self.nodes@.len() - i,
        {
            nodes.push(self.nodes[i]);
            assert(self.nodes@.take(i as int + 1) =~= self.nodes@.take(i as int).push(
                self.nodes@[i as int],
            ));
            i += 1;
        }
        let mut edges: Vec<Edge> = Vec::new();
        let mut e: usize = 0;
        while e < self.edges.len()
            invariant
                e <= self.edges@.len(),
                edges@ == self.edges@.take(e as int),
            decreases self.edges@.len() - e,
        {
            edges.push(self.edges[e]);
            assert(self.edges@.take(e as int + 1) =~= self.edges@.take(e as int).push(
                self.edges@[e as int],
            ));
            e += 1;
        }
        let mut edge_metadata: Vec<EdgeMetadata> = Vec::new();
        let mut m: usize = 0;
        while m < self.edge_metadata.len()
            invariant
                m <= self.edge_metadata@.len(),
                edge_metadata@ == self.edge_metadata@.take(m as int),
            decreases self.edge_metadata@.len() - m,
        {
            let record = &self.edge_metadata[m];
            edge_metadata.push(
                EdgeMetadata {
                    weight: record.weight,
                    name: record.name.clone(),
                    speed_limit: record.speed_limit,
                    is_one_way: record.is_one_way,
                    is_roundabout: record.is_roundabout,
                    prev_edge: record.prev_edge,
                    next_edge: record.next_edge,
                },
            );
            assert(self.edge_metadata@.take(m as int + 1) =~= self.edge_metadata@.take(
                m as int,
            ).push(self.edge_metadata@[m as int]));
            m += 1;
        }
        let copy = Graph { fwd_edge_list, bwd_edge_list, nodes, edges, edge_metadata };
        proof {
            assert(self.nodes@.take(self.nodes@.len() as int) =~= self.nodes@);
            assert(self.edges@.take(self.edges@.len() as int) =~= self.edges@);
            assert(self.edge_metadata@.take(self.edge_metadata@.len() as int)
                =~= self.edge_metadata@);
            assert(copy@.fwd =~~= self@.fwd);
            assert(copy@.bwd =~~= self@.bwd);
            lemma_same_model(*self, copy);
        }
        copy
    }

    /// The metadata record of an edge.
    pub fn get_edge_metadata(&self, edge: &Edge) -> (metadata: &EdgeMetadata)
        requires
            edge.metadata_index < self.edge_metadata@.len(),
        ensures
            *metadata == self.edge_metadata@[edge.metadata_index as int],
    {
        &self.edge_metadata[edge.metadata_index]
    }
}

/// Appending an edge keeps a graph well formed, as long as its metadata
/// array still covers every edge.
pub proof fn lemma_appended_wf(before: Graph, after: Graph, edge: Edge)
    requires
        before.wf(),
        before.edges@.len() <= usize::MAX,
        after.appended(before, edge),
        edge.src_id < before.nodes@.len(),
        edge.dest_id < before.nodes@.len(),
        edge.metadata_index < after.edge_metadata@.len(),
        before.edge_metadata@.len() <= after.edge_metadata@.len(),
        forall|m: int|
            0 <= m < after.edge_metadata@.len() ==> (#[trigger] after.edge_metadata@[m]).weight
                < INFINITY,
    ensures
        after.wf(),
        before.complete() ==> after.complete(),
{
    let id = before.edges@.len() as usize;
    if before.complete() {
        assert forall|e: int| 0 <= e < after.edges@.len() implies #[trigger] after.is_live(e) by {
            if e == id {
                let s = edge.src_id as int;
                assert(after.fwd(s)[after.fwd(s).len() - 1] == id);
            } else {
                assert(before.is_live(e));
                lemma_push_member(before.fwd(before.edges@[e].src_id as int), id, e as usize);
            }
        }
    }
    assert(after.arrays_wf());
    assert forall|v: int, k: int|
        0 <= v < after.nodes@.len() && 0 <= k < after.fwd(v).len() implies {
        &&& (#[trigger] after.fwd(v)[k]) < after.edges@.len()
        &&& after.edges@[after.fwd(v)[k] as int].src_id == v
    } by {
        if k < before.fwd(v).len() {
            assert(after.fwd(v)[k] == before.fwd(v)[k]);
        }
    }
    assert forall|v: int, k: int|
        0 <= v < after.nodes@.len() && 0 <= k < after.bwd(v).len() implies {
        &&& (#[trigger] after.bwd(v)[k]) < after.edges@.len()
        &&& after.edges@[after.bwd(v)[k] as int].dest_id == v
    } by {
        if k < before.bwd(v).len() {
            assert(after.bwd(v)[k] == before.bwd(v)[k]);
        }
    }
    assert forall|v: int| 0 <= v < after.nodes@.len() implies (#[trigger] after.fwd(
        v,
    )).no_duplicates() by {
        assert(before.fwd(v).no_duplicates());
        if v == edge.src_id {
            assert forall|k: int| 0 <= k < before.fwd(v).len() implies before.fwd(v)[k] != id by {
                assert(before.fwd(v)[k] < before.edges@.len());
            }
        }
    }
    assert forall|v: int| 0 <= v < after.nodes@.len() implies (#[trigger] after.bwd(
        v,
    )).no_duplicates() by {
        assert(before.bwd(v).no_duplicates());
        if v == edge.dest_id {
            assert forall|k: int| 0 <= k < before.bwd(v).len() implies before.bwd(v)[k] != id by {
                assert(before.bwd(v)[k] < before.edges@.len());
            }
        }
    }
    assert(after.adjacency_wf());
    assert forall|e: int| 0 <= e < after.edges@.len() implies (after.fwd(
        (#[trigger] after.edges@[e]).src_id as int,
    ).contains(e as usize) <==> after.bwd(after.edges@[e].dest_id as int).contains(
        e as usize,
    )) by {
        let s = after.edges@[e].src_id as int;
        let d = after.edges@[e].dest_id as int;
        if e == id {
            assert(after.fwd(s)[after.fwd(s).len() - 1] == id);
            assert(after.bwd(d)[after.bwd(d).len() - 1] == id);
        } else {
            assert(after.edges@[e] == before.edges@[e]);
            lemma_push_member(before.fwd(s), id, e as usize);
            lemma_push_member(before.bwd(d), id, e as usize);
        }
    }
}

/// Membership after a push of another value.
pub proof fn lemma_push_member(s: Seq<usize>, pushed: usize, x: usize)
    requires
        x != pushed,
    ensures
        s.push(pushed).contains(x) <==> s.contains(x),
{
    if s.contains(x) {
        let i = choose|i: int| 0 <= i < s.len() && s[i] == x;
        assert(s.push(pushed)[i] == x);
    }
    if s.push(pushed).contains(x) {
        let i = choose|i: int| 0 <= i < s.push(pushed).len() && s.push(pushed)[i] == x;
        assert(s[i] == x);
    }
}

/// The ids other than `id`.
pub open spec fn differs_from(id: usize) -> spec_fn(usize) -> bool {
    |x: usize| x != id
}

/// The ids that do not occur in `removed`.
pub open spec fn not_among(removed: Seq<usize>) -> spec_fn(usize) -> bool {
    |x: usize| !removed.contains(x)
}

/// A copy of a list of ids.
pub fn copy_ids(list: &Vec<usize>) -> (copy: Vec<usize>)
    ensures
        copy@ == list@,
{
    let mut copy: Vec<usize> = Vec::new();
    let mut i: usize = 0;
    while i < list.len()
        invariant
            i <= list@.len(),
            copy@ == list@.take(i as int),
        decreases list@.len() - i,
    {
        copy.push(list[i]);
        assert(list@.take(i as int + 1) =~= list@.take(i as int).push(list@[i as int]));
        i += 1;
    }
    assert(list@.take(list@.len() as int) =~= list@);
    copy
}

/// Drops every occurrence of `id` from `list`, keeping the order of the rest.
fn retain_other(list: &mut Vec<usize>, id: usize)
    ensures
        final(list)@ == old(list)@.filter(differs_from(id)),
{
    let mut kept: Vec<usize> = Vec::new();
    let mut i: usize = 0;
    while i < list.len()
        invariant
            i <= list@.len(),
            *list == *old(list),
            kept@ == list@.take(i as int).filter(differs_from(id)),
        decreases list@.len() - i,
    {
        let x: usize = list[i];
        if x != id {
            kept.push(x);
        }
        proof {
            lemma_filter_take_step(list@, differs_from(id), i as int);
        }
        i += 1;
    }
    assert(list@.take(list@.len() as int) =~= list@);
    *list = kept;
}

/// In a well-formed graph, dropping from a forward list what enters `v`
/// and emptying the list at `v` is dropping what leaves or enters `v`.
proof fn lemma_removed_forward(g: Graph, v: usize, x: int)
    requires
        g.wf(),
        v < g.nodes@.len(),
        0 <= x < g.nodes@.len(),
    ensures
        x != v ==> g.fwd(x).filter(not_among(g.bwd(v as int))) == g.fwd(x).filter(g.avoids(v)),
        x == v ==> g.fwd(x).filter(g.avoids(v)) == Seq::<usize>::empty(),
{
    let list = g.fwd(x);
    if x != v {
        assert forall|i: int| 0 <= i < list.len() implies not_among(g.bwd(v as int))(
            #[trigger] list[i],
        ) == g.avoids(v)(list[i]) by {
            let e = list[i];
            assert(g.edges@[e as int].src_id == x);
            assert(g.fwd(x).contains(e));
            if g.bwd(v as int).contains(e) {
                let j = choose|j: int| 0 <= j < g.bwd(v as int).len() && g.bwd(v as int)[j] == e;
                assert(g.edges@[g.bwd(v as int)[j] as int].dest_id == v);
            }
        }
        lemma_filter_same(list, not_among(g.bwd(v as int)), g.avoids(v));
    } else {
        assert forall|i: int| 0 <= i < list.len() implies !g.avoids(v)(#[trigger] list[i]) by {
            assert(g.edges@[list[i] as int].src_id == x);
        }
        lemma_filter_none(list, g.avoids(v));
    }
}

/// The same for a backward list.
proof fn lemma_removed_backward(g: Graph, v: usize, x: int)
    requires
        g.wf(),
        v < g.nodes@.len(),
        0 <= x < g.nodes@.len(),
    ensures
        x != v ==> g.bwd(x).filter(not_among(g.fwd(v as int))) == g.bwd(x).filter(g.avoids(v)),
        x == v ==> g.bwd(x).filter(g.avoids(v)) == Seq::<usize>::empty(),
{
    let list = g.bwd(x);
    if x != v {
        assert forall|i: int| 0 <= i < list.len() implies not_among(g.fwd(v as int))(
            #[trigger] list[i],
        ) == g.avoids(v)(list[i]) by {
            let e = list[i];
            assert(g.edges@[e as int].dest_id == x);
            assert(g.bwd(x).contains(e));
            if g.fwd(v as int).contains(e) {
                let j = choose|j: int| 0 <= j < g.fwd(v as int).len() && g.fwd(v as int)[j] == e;
                assert(g.edges@[g.fwd(v as int)[j] as int].src_id == v);
            }
        }
        lemma_filter_same(list, not_among(g.fwd(v as int)), g.avoids(v));
    } else {
        assert forall|i: int| 0 <= i < list.len() implies !g.avoids(v)(#[trigger] list[i]) by {
            assert(g.edges@[list[i] as int].dest_id == x);
        }
        lemma_filter_none(list, g.avoids(v));
    }
}

/// Taking a node's edges out of the adjacency lists keeps the graph well
/// formed: in particular an edge is still in the forward list of its source
/// exactly when it is in the backward list of its destination.
pub proof fn lemma_without_node_wf(before: Graph, after: Graph, v: usize)
    requires
        before.wf(),
        after.nodes@ == before.nodes@,
        after.edges@ == before.edges@,
        after.edge_metadata@ == before.edge_metadata@,
        after.without_node(before, v),
    ensures
        after.wf(),
{
    let keep = before.avoids(v);
    assert forall|x: int, k: int|
        0 <= x < after.nodes@.len() && 0 <= k < after.fwd(x).len() implies {
        &&& (#[trigger] after.fwd(x)[k]) < after.edges@.len()
        &&& after.edges@[after.fwd(x)[k] as int].src_id == x
    } by {
        let e = after.fwd(x)[k];
        assert(before.fwd(x).filter(keep).contains(e));
        lemma_filter_member(before.fwd(x), keep, e);
        let i = choose|i: int| 0 <= i < before.fwd(x).len() && before.fwd(x)[i] == e;
        assert(before.fwd(x)[i] < before.edges@.len());
    }
    assert forall|x: int, k: int|
        0 <= x < after.nodes@.len() && 0 <= k < after.bwd(x).len() implies {
        &&& (#[trigger] after.bwd(x)[k]) < after.edges@.len()
        &&& after.edges@[after.bwd(x)[k] as int].dest_id == x
    } by {
        let e = after.bwd(x)[k];
        assert(before.bwd(x).filter(keep).contains(e));
        lemma_filter_member(before.bwd(x), keep, e);
        let i = choose|i: int| 0 <= i < before.bwd(x).len() && before.bwd(x)[i] == e;
        assert(before.bwd(x)[i] < before.edges@.len());
    }
    assert forall|x: int| 0 <= x < after.nodes@.len() implies (#[trigger] after.fwd(
        x,
    )).no_duplicates() by {
        assert(before.fwd(x).no_duplicates());
        lemma_filter_no_duplicates(before.fwd(x), keep);
    }
    assert forall|x: int| 0 <= x < after.nodes@.len() implies (#[trigger] after.bwd(
        x,
    )).no_duplicates() by {
        assert(before.bwd(x).no_duplicates());
        lemma_filter_no_duplicates(before.bwd(x), keep);
    }
    assert forall|e: int| 0 <= e < after.edges@.len() implies (after.fwd(
        (#[trigger] after.edges@[e]).src_id as int,
    ).contains(e as usize) <==> after.bwd(after.edges@[e].dest_id as int).contains(
        e as usize,
    )) by {
        let s = before.edges@[e].src_id as int;
        let d = before.edges@[e].dest_id as int;
        lemma_filter_member(before.fwd(s), keep, e as usize);
        lemma_filter_member(before.bwd(d), keep, e as usize);
        assert(after.fwd(s) == before.fwd(s).filter(keep));
        assert(after.bwd(d) == before.bwd(d).filter(keep));
    }
}

/// A shortcut over two edges that meet in one node, with the sum of their
/// costs, keeps every shortcut of the graph sound.
pub proof fn lemma_shortcut_keeps_sound(
    g: GraphModel,
    w: usize,
    v: usize,
    weight: u64,
    prev: usize,
    next: usize,
)
    requires
        g.shortcuts_sound(),
        g.edges.len() < usize::MAX,
        g.metadata.len() < usize::MAX,
        forall|e: int| 0 <= e < g.edges.len() ==> (#[trigger] g.edges[e]).metadata_index < g.metadata.len(),
        prev < g.edges.len(),
        next < g.edges.len(),
        g.edges[prev as int].src_id == w,
        g.edges[next as int].dest_id == v,
        g.edges[prev as int].dest_id == g.edges[next as int].src_id,
        weight == g.weight_of(prev as int) + g.weight_of(next as int),
    ensures
        g.with_shortcut(w, v, weight, prev, next).shortcuts_sound(),
{
    let after = g.with_shortcut(w, v, weight, prev, next);
    assert forall|e: int| 0 <= e < after.edges.len() implies #[trigger] after.shortcut_sound(e) by {
        if e < g.edges.len() {
            assert(g.shortcut_sound(e));
            assert(after.edges[e] == g.edges[e]);
            let record = g.metadata[g.edges[e].metadata_index as int];
            assert(after.metadata[after.edges[e].metadata_index as int] == record);
            if record.prev_edge.is_some() {
                let p = record.prev_edge.unwrap() as int;
                let n = record.next_edge.unwrap() as int;
                assert(after.edges[p] == g.edges[p]);
                assert(after.edges[n] == g.edges[n]);
                assert(after.weight_of(p) == g.weight_of(p));
                assert(after.weight_of(n) == g.weight_of(n));
                assert(after.weight_of(e) == g.weight_of(e));
            }
        } else {
            assert(after.edges[prev as int] == g.edges[prev as int]);
            assert(after.edges[next as int] == g.edges[next as int]);
            assert(after.weight_of(prev as int) == g.weight_of(prev as int));
            assert(after.weight_of(next as int) == g.weight_of(next as int));
            assert(after.metadata[after.edges[e].metadata_index as int] == shortcut_metadata(
                weight,
                prev,
                next,
            ));
        }
    }
}

/// The number of entries in all of `lists`, if it fits.
fn count_entries(lists: &Vec<Vec<usize>>) -> (count: Option<usize>)
    ensures
        count == if Graph::total_len(lists@, lists@.len() as int) <= usize::MAX {
            Some(Graph::total_len(lists@, lists@.len() as int) as usize)
        } else {
            None
        },
{
    let mut total: usize = 0;
    let mut v: usize = 0;
    while v < lists.len()
        invariant
            v <= lists@.len(),
            total == Graph::total_len(lists@, v as int),
        decreases lists@.len() - v,
    {
        let len: usize = lists[v].len();
        if len > usize::MAX - total {
            proof {
                lemma_total_len_rises(lists@, v as int + 1, lists@.len() as int);
            }
            return None;
        }
        total = total + len;
        v += 1;
    }
    Some(total)
}

/// The sum of the lengths of more lists is no less.
proof fn lemma_total_len_rises(lists: Seq<Vec<usize>>, a: int, b: int)
    requires
        0 <= a <= b,
    ensures
        Graph::total_len(lists, a) <= Graph::total_len(lists, b),
    decreases b - a,
{
    if a < b {
        lemma_total_len_rises(lists, a, b - 1);
    }
}

/// Two graphs that hold the same values are well formed together and have
/// all their edges together.
pub proof fn lemma_same_model(a: Graph, b: Graph)
    requires
        a@ == b@,
    ensures
        a.wf() ==> b.wf(),
        a.wf() && a.complete() ==> b.complete(),
{
    assert(a.fwd_edge_list@.len() == b.fwd_edge_list@.len()) by {
        assert(a@.fwd.len() == a.fwd_edge_list@.len());
        assert(b@.fwd.len() == b.fwd_edge_list@.len());
    }
    assert(a.bwd_edge_list@.len() == b.bwd_edge_list@.len()) by {
        assert(a@.bwd.len() == a.bwd_edge_list@.len());
        assert(b@.bwd.len() == b.bwd_edge_list@.len());
    }
    assert forall|v: int| 0 <= v < a.fwd_edge_list@.len() implies a.fwd(v) == b.fwd(v) by {
        assert(a@.fwd[v] == b@.fwd[v]);
    }
    assert forall|v: int| 0 <= v < a.bwd_edge_list@.len() implies a.bwd(v) == b.bwd(v) by {
        assert(a@.bwd[v] == b@.bwd[v]);
    }
    if a.wf() {
        assert(b.arrays_wf());
        assert forall|v: int, k: int|
            0 <= v < b.nodes@.len() && 0 <= k < b.fwd(v).len() implies {
            &&& (#[trigger] b.fwd(v)[k]) < b.edges@.len()
            &&& b.edges@[b.fwd(v)[k] as int].src_id == v
        } by {
            assert(a.fwd(v)[k] == b.fwd(v)[k]);
        }
        assert forall|v: int, k: int|
            0 <= v < b.nodes@.len() && 0 <= k < b.bwd(v).len() implies {
            &&& (#[trigger] b.bwd(v)[k]) < b.edges@.len()
            &&& b.edges@[b.bwd(v)[k] as int].dest_id == v
        } by {
            assert(a.bwd(v)[k] == b.bwd(v)[k]);
        }
        assert forall|v: int| 0 <= v < b.nodes@.len() implies (#[trigger] b.fwd(
            v,
        )).no_duplicates() by {
            assert(a.fwd(v).no_duplicates());
        }
        assert forall|v: int| 0 <= v < b.nodes@.len() implies (#[trigger] b.bwd(
            v,
        )).no_duplicates() by {
            assert(a.bwd(v).no_duplicates());
        }
        assert forall|e: int| 0 <= e < b.edges@.len() implies (b.fwd(
            (#[trigger] b.edges@[e]).src_id as int,
        ).contains(e as usize) <==> b.bwd(b.edges@[e].dest_id as int).contains(e as usize)) by {
            let s = a.edges@[e].src_id as int;
            let d = a.edges@[e].dest_id as int;
            assert(a.fwd(s) == b.fwd(s));
            assert(a.bwd(d) == b.bwd(d));
        }
    }
    if a.wf() && a.complete() {
        assert forall|e: int| 0 <= e < b.edges@.len() implies #[trigger] b.is_live(e) by {
            assert(a.is_live(e));
            let s = a.edges@[e].src_id as int;
            assert(a.fwd(s) == b.fwd(s));
        }
    }
}

/// A copy of adjacency lists.
fn copy_lists(lists: &Vec<Vec<usize>>) -> (copy: Vec<Vec<usize>>)
    ensures
        copy@.len() == lists@.len(),
        forall|v: int| 0 <= v < lists@.len() ==> (#[trigger] copy@[v])@ == lists@[v]@,
{
    let mut copy: Vec<Vec<usize>> = Vec::new();
    let mut v: usize = 0;
    while v < lists.len()
        invariant
            v <= lists@.len(),
            copy@.len() == v,
            forall|x: int| 0 <= x < v ==> (#[trigger] copy@[x])@ == lists@[x]@,
        decreases lists@.len() - v,
    {
        copy.push(copy_ids(&lists[v]));
        v += 1;
    }
    copy
}

/// A graph that grows by shortcuts alone keeps, from any edge number on,
/// nothing but shortcuts.
pub proof fn lemma_beyond_compose(before: GraphModel, after: GraphModel, first: nat)
    requires
        before.shortcuts_beyond(first),
        before.records_there(),
        after.extends(before),
        after.shortcuts_beyond(before.edges.len()),
    ensures
        after.shortcuts_beyond(first),
{
    assert forall|e: int| first <= e < after.edges.len() implies #[trigger] after.is_shortcut(e) by {
        if e < before.edges.len() {
            assert(before.is_shortcut(e));
            assert(after.edges[e] == before.edges[e]);
            assert(after.metadata[before.edges[e].metadata_index as int]
                == before.metadata[before.edges[e].metadata_index as int]);
        }
    }
}

/// The one edge that a shortcut adds is a shortcut.
pub proof fn lemma_shortcut_is_beyond(
    g: GraphModel,
    w: usize,
    v: usize,
    weight: u64,
    prev: usize,
    next: usize,
)
    requires
        g.edges.len() < usize::MAX,
        g.metadata.len() < usize::MAX,
    ensures
        g.with_shortcut(w, v, weight, prev, next).shortcuts_beyond(g.edges.len()),
        g.with_shortcut(w, v, weight, prev, next).extends(g),
{
    let after = g.with_shortcut(w, v, weight, prev, next);
    assert forall|e: int| g.edges.len() <= e < after.edges.len() implies #[trigger] after.is_shortcut(
        e,
    ) by {
        assert(after.metadata[after.edges[e].metadata_index as int] == shortcut_metadata(
            weight,
            prev,
            next,
        ));
    }
}

} // verus!
