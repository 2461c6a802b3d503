//! The frozen snapshot of a contracted graph in compressed sparse-row form.
//!
//! One array of hot records serves both directions: the records of the
//! forward rows come first, node by node, then those of the backward rows.
//! The cold records are sorted by the id that an edge had in the mutable
//! graph, so that for a graph from which no edge was removed edge `e` has
//! its two cold records at positions `2 * e` and `2 * e + 1`. The
//! `prev_edge` and `next_edge` of a cold record are such edge ids.
use crate::graph::{Graph, GraphModel, Node, INFINITY};
use crate::snapshot_lemmas::{lemma_snapshot_cold, lemma_snapshot_cold_wf};
use rayon::slice::ParallelSliceMut;
use vstd::prelude::*;

verus! {

#[derive(Debug, Clone, Copy, PartialEq, Eq, Structural)]
pub struct CSRNode {
    pub id: usize,
    pub osm_id: i64,
    pub rank: i32,
    pub flags: u8,
}

/// What a search reads of an edge: where it leads and what it costs.
#[derive(Debug, Clone, Copy, PartialEq, Eq, Structural)]
pub struct CSREdgeHot {
    /// The id of the edge in the mutable graph.
    pub id: usize,
    /// In a forward row the destination of the edge, in a backward row its
    /// source.
    pub target: usize,
    pub weight: u64,
}

/// What unpacking and rendering read of an edge.
#[derive(Debug, Clone)]
pub struct CSREdgeCold {
    /// The id of the edge in the mutable graph.
    pub id: usize,
    pub name: Option<String>,
    pub from_node: usize,
    pub to_node: usize,
    pub prev_edge: Option<usize>,
    pub next_edge: Option<usize>,
}

pub struct CSRGraph {
    pub cols_fwd: Vec<usize>,
    pub row_fwd_ptr: Vec<usize>,
    pub cols_bwd: Vec<usize>,
    pub row_bwd_ptr: Vec<usize>,
    pub values_hot: Vec<CSREdgeHot>,
    pub values_cold: Vec<CSREdgeCold>,
    pub nodes: Vec<CSRNode>,
}

impl CSRNode {
    pub fn new(id: usize, osm_id: i64, rank: i32, flags: u8) -> (node: Self)
        ensures
            node == (CSRNode { id, osm_id, rank, flags }),
    {
        Self { id, osm_id, rank, flags }
    }
}

impl CSREdgeHot {
    pub fn new(id: usize, target: usize, weight: u64) -> (edge: Self)
        ensures
            edge == (CSREdgeHot { id, target, weight }),
    {
        Self { id, target, weight }
    }
}

impl CSREdgeCold {
    pub fn new(
        id: usize,
        name: Option<String>,
        from_node: usize,
        to_node: usize,
        prev_edge: Option<usize>,
        next_edge: Option<usize>,
    ) -> (edge: Self)
        ensures
            edge == (CSREdgeCold { id, name, from_node, to_node, prev_edge, next_edge }),
    {
        Self { id, name, from_node, to_node, prev_edge, next_edge }
    }
}

/// The lists of the nodes below `v`, one after the other.
pub open spec fn edge_order(lists: Seq<Seq<usize>>, v: int) -> Seq<usize>
    decreases v,
{
    if v <= 0 {
        Seq::empty()
    } else {
        edge_order(lists, v - 1) + lists[v - 1]
    }
}

/// The hot record of edge `e` in the row of its source.
pub open spec fn hot_fwd(g: GraphModel, e: usize) -> CSREdgeHot {
    CSREdgeHot { id: e, target: g.edges[e as int].dest_id, weight: g.weight_of(e as int) }
}

/// The hot record of edge `e` in the row of its destination.
pub open spec fn hot_bwd(g: GraphModel, e: usize) -> CSREdgeHot {
    CSREdgeHot { id: e, target: g.edges[e as int].src_id, weight: g.weight_of(e as int) }
}

/// The cold record of edge `e`.
pub open spec fn cold_of(g: GraphModel, e: usize) -> CSREdgeCold {
    let record = g.metadata[g.edges[e as int].metadata_index as int];
    CSREdgeCold {
        id: e,
        name: record.name,
        from_node: g.edges[e as int].src_id,
        to_node: g.edges[e as int].dest_id,
        prev_edge: record.prev_edge,
        next_edge: record.next_edge,
    }
}

/// The node record of a node.
pub open spec fn csr_node(node: Node) -> CSRNode {
    CSRNode { id: node.dense_id, osm_id: node.osm_id, rank: node.rank, flags: 0 }
}

/// The adjacency lists of one direction.
pub open spec fn lists_of(g: GraphModel, forward: bool) -> Seq<Seq<usize>> {
    if forward {
        g.fwd
    } else {
        g.bwd
    }
}

/// All edge ids of one direction, row after row.
pub open spec fn all_ids(g: GraphModel, forward: bool) -> Seq<usize> {
    edge_order(lists_of(g, forward), g.nodes.len() as int)
}

/// The hot records of the edges `ids` in rows of one direction.
pub open spec fn hot_records(g: GraphModel, forward: bool, ids: Seq<usize>) -> Seq<CSREdgeHot> {
    Seq::new(
        ids.len(),
        |i: int|
            if forward {
                hot_fwd(g, ids[i])
            } else {
                hot_bwd(g, ids[i])
            },
    )
}

/// The cold records of the edges `ids`.
pub open spec fn cold_records(g: GraphModel, ids: Seq<usize>) -> Seq<CSREdgeCold> {
    Seq::new(ids.len(), |i: int| cold_of(g, ids[i]))
}

/// The columns of `count` records that start at position `first`.
pub open spec fn columns(first: nat, count: nat) -> Seq<usize> {
    Seq::new(count, |i: int| (first + i) as usize)
}

/// The row pointers of one direction: row `v` starts after the lists of
/// the nodes below `v`.
pub open spec fn row_pointers(g: GraphModel, forward: bool) -> Seq<usize> {
    Seq::new(
        g.nodes.len() + 1,
        |v: int| edge_order(lists_of(g, forward), v).len() as usize,
    )
}

/// The hot records in the order in which a graph is frozen: the forward
/// rows, then the backward rows.
pub open spec fn hot_in_order(g: GraphModel) -> Seq<CSREdgeHot> {
    hot_records(g, true, all_ids(g, true)) + hot_records(g, false, all_ids(g, false))
}

/// The cold records in the same order, before they are sorted.
pub open spec fn cold_in_order(g: GraphModel) -> Seq<CSREdgeCold> {
    cold_records(g, all_ids(g, true)) + cold_records(g, all_ids(g, false))
}

/// `from` lists each position below `n` once.
pub open spec fn is_rearrangement(from: Seq<int>, n: nat) -> bool {
    &&& from.len() == n
    &&& forall|i: int| 0 <= i < n ==> 0 <= #[trigger] from[i] < n
    &&& forall|i: int, j: int| 0 <= i < j < n ==> #[trigger] from[i] != #[trigger] from[j]
}

/// `sorted` holds the records of `unsorted`, the record at position `i`
/// taken from position `from[i]`, in the order of their ids, records of one
/// id in the order that they had.
pub open spec fn sorted_from(sorted: Seq<CSREdgeCold>, unsorted: Seq<CSREdgeCold>, from: Seq<int>) -> bool {
    &&& sorted.len() == unsorted.len()
    &&& is_rearrangement(from, unsorted.len())
    &&& forall|i: int| 0 <= i < sorted.len() ==> #[trigger] sorted[i] == unsorted[from[i]]
    &&& forall|i: int, j: int|
        0 <= i < j < sorted.len() ==> (#[trigger] sorted[i]).id < (#[trigger] sorted[j]).id || (
        sorted[i].id == sorted[j].id && from[i] < from[j])
}

/// `sorted` is `unsorted` sorted by id, the order of records of one id
/// kept.
pub open spec fn sorted_by_id(sorted: Seq<CSREdgeCold>, unsorted: Seq<CSREdgeCold>) -> bool {
    exists|from: Seq<int>| sorted_from(sorted, unsorted, from)
}

/// `par_sort_by_key` of rayon, with the id of a record as the key: a
/// stable sort, so the records come out in the order of their ids and
/// records of one id keep their order.
#[verifier::external_body]
fn sort_cold_by_id(values: &mut Vec<CSREdgeCold>)
    ensures
        sorted_by_id(final(values)@, old(values)@),
{
    values.par_sort_by_key(|record| record.id);
}

impl CSRGraph {
    /// The row pointers rise from 0 to the number of columns, every column
    /// is a position in the hot array, every stored node id is in range and
    /// every node record sits at its own id.
    pub open spec fn wf(&self) -> bool {
        let n = self.nodes@.len();
        &&& self.row_fwd_ptr@.len() == n + 1
        &&& self.row_bwd_ptr@.len() == n + 1
        &&& forall|v: int|
            0 <= v < n ==> (#[trigger] self.row_fwd_ptr@[v]) <= self.row_fwd_ptr@[v + 1]
        &&& forall|v: int|
            0 <= v < n ==> (#[trigger] self.row_bwd_ptr@[v]) <= self.row_bwd_ptr@[v + 1]
        &&& forall|v: int| 0 <= v <= n ==> (#[trigger] self.row_fwd_ptr@[v]) <= self.cols_fwd@.len()
        &&& forall|v: int| 0 <= v <= n ==> (#[trigger] self.row_bwd_ptr@[v]) <= self.cols_bwd@.len()
        &&& self.values_hot@.len() == self.cols_fwd@.len() + self.cols_bwd@.len()
        &&& self.values_cold@.len() == self.values_hot@.len()
        &&& forall|i: int|
            0 <= i < self.cols_fwd@.len() ==> (#[trigger] self.cols_fwd@[i])
                < self.values_hot@.len()
        &&& forall|i: int|
            0 <= i < self.cols_bwd@.len() ==> (#[trigger] self.cols_bwd@[i])
                < self.values_hot@.len()
        &&& forall|i: int|
            0 <= i < self.values_hot@.len() ==> (#[trigger] self.values_hot@[i]).target < n
                && self.values_hot@[i].weight < INFINITY
        &&& forall|i: int|
            0 <= i < self.values_cold@.len() ==> (#[trigger] self.values_cold@[i]).from_node < n
                && self.values_cold@[i].to_node < n
        &&& forall|i: int| 0 <= i < n ==> (#[trigger] self.nodes@[i]).id == i
    }

    /// The hot records of the edges that leave node `u`, in row order.
    pub open spec fn fwd_row(&self, u: int) -> Seq<CSREdgeHot> {
        Seq::new(
            (self.row_fwd_ptr@[u + 1] - self.row_fwd_ptr@[u]) as nat,
            |k: int| self.values_hot@[self.cols_fwd@[self.row_fwd_ptr@[u] + k] as int],
        )
    }

    /// The hot records of the edges that enter node `u`, in row order.
    pub open spec fn bwd_row(&self, u: int) -> Seq<CSREdgeHot> {
        Seq::new(
            (self.row_bwd_ptr@[u + 1] - self.row_bwd_ptr@[u]) as nat,
            |k: int| self.values_hot@[self.cols_bwd@[self.row_bwd_ptr@[u] + k] as int],
        )
    }

    /// The snapshot holds the graph `g` in the layout of this file.
    pub open spec fn is_snapshot_of(&self, g: GraphModel) -> bool {
        &&& self.cols_fwd@ == columns(0, all_ids(g, true).len())
        &&& self.cols_bwd@ == columns(all_ids(g, true).len(), all_ids(g, false).len())
        &&& self.row_fwd_ptr@ == row_pointers(g, true)
        &&& self.row_bwd_ptr@ == row_pointers(g, false)
        &&& self.values_hot@ == hot_in_order(g)
        &&& sorted_by_id(self.values_cold@, cold_in_order(g))
        &&& self.nodes@ == Seq::new(g.nodes.len(), |i: int| csr_node(g.nodes[i]))
    }

    /// Freezes a contracted graph: the rows of both directions, node by
    /// node and in list order, the cold records sorted by edge id, and the
    /// node records with the final ranks. Each node has in the snapshot the
    /// neighbours, with the costs, that it has in the graph.
    pub fn from_preprocessed_graph(graph: Graph) -> (csr: Self)
        requires
            graph.wf(),
        ensures
            csr.is_snapshot_of(graph@),
            csr.wf(),
            forall|u: int|
                0 <= u < graph@.nodes.len() ==> #[trigger] csr.fwd_row(u) == hot_records(
                    graph@,
                    true,
                    graph@.fwd[u],
                ),
            forall|u: int|
                0 <= u < graph@.nodes.len() ==> #[trigger] csr.bwd_row(u) == hot_records(
                    graph@,
                    false,
                    graph@.bwd[u],
                ),
            graph.complete() ==> csr.holds_all(graph@),
            graph.complete() && graph@.shortcuts_sound() ==> csr.cold_wf(),
    {
        let mut values_hot: Vec<CSREdgeHot> = Vec::with_capacity(graph.num_edges());
        let mut values_cold: Vec<CSREdgeCold> = Vec::with_capacity(graph.num_edges());
        let (fwd_cols, fwd_row_ptr) = freeze_direction(&graph, true, &mut values_hot, &mut values_cold);
        let (bwd_cols, bwd_row_ptr) = freeze_direction(&graph, false, &mut values_hot, &mut values_cold);
        proof {
            assert(values_hot@ =~= hot_in_order(graph@));
            assert(values_cold@ =~= cold_in_order(graph@));
        }
        sort_cold_by_id(&mut values_cold);
        let n: usize = graph.num_nodes();
        let mut nodes: Vec<CSRNode> = Vec::with_capacity(n);
        let mut i: usize = 0;
        while i < n
            invariant
                i <= n,
                n == graph.nodes@.len(),
                nodes@.len() == i,
                forall|j: int| 0 <= j < i ==> #[trigger] nodes@[j] == csr_node(graph.nodes@[j]),
            decreases n - i,
        {
            let node = &graph.nodes[i];
            nodes.push(CSRNode::new(node.dense_id, node.osm_id, node.rank, 0));
            i += 1;
        }
        let csr = Self {
            cols_bwd: bwd_cols,
            cols_fwd: fwd_cols,
            row_bwd_ptr: bwd_row_ptr,
            row_fwd_ptr: fwd_row_ptr,
            values_hot,
            values_cold,
            nodes,
        };
        proof {
            assert(csr.nodes@ =~= Seq::new(graph@.nodes.len(), |i: int| csr_node(graph@.nodes[i])));
            lemma_snapshot_wf(csr, graph);
            lemma_snapshot_rows(csr, graph);
            if graph.complete() {
                lemma_snapshot_cold(csr, graph);
                if graph@.shortcuts_sound() {
                    lemma_snapshot_cold_wf(csr, graph);
                }
            }
        }
        csr
    }

    /// The cold records stand in pairs, the pair of edge `e` at positions
    /// `2 * e` and `2 * e + 1`, and a record that packs two edges names
    /// edges of lower ids.
    pub open spec fn cold_wf(&self) -> bool {
        &&& self.values_cold@.len() % 2 == 0
        &&& forall|i: int|
            0 <= i < self.values_cold@.len() ==> (#[trigger] self.values_cold@[i]).id == i / 2
        &&& forall|i: int|
            0 <= i < self.values_cold@.len() ==> (#[trigger] self.values_cold@[i]).prev_edge.is_some()
                ==> self.values_cold@[i].prev_edge.unwrap() < self.values_cold@[i].id
        &&& forall|i: int|
            0 <= i < self.values_cold@.len() ==> (#[trigger] self.values_cold@[i]).next_edge.is_some()
                ==> self.values_cold@[i].next_edge.unwrap() < self.values_cold@[i].id
        &&& forall|i: int|
            0 <= i < self.values_hot@.len() ==> (#[trigger] self.values_hot@[i]).id * 2
                < self.values_cold@.len()
    }

    /// The snapshot holds every edge of `g`: the two cold records of edge
    /// `e` at positions `2 * e` and `2 * e + 1`.
    pub open spec fn holds_all(&self, g: GraphModel) -> bool {
        &&& self.values_cold@.len() == 2 * g.edges.len()
        &&& forall|i: int|
            0 <= i < self.values_cold@.len() ==> #[trigger] self.values_cold@[i] == cold_of(
                g,
                (i / 2) as usize,
            )
    }

    /// `record` is one of the cold records.
    pub open spec fn holds(&self, record: CSREdgeCold) -> bool {
        exists|i: int| 0 <= i < self.values_cold@.len() && self.values_cold@[i] == record
    }

    /// The first cold record of the edge that had id `edge_id` in a graph
    /// frozen with all its edges.
    pub fn get_fwd_edge_cold(&self, edge_id: usize) -> (edge: &CSREdgeCold)
        requires
            edge_id * 2 < self.values_cold@.len(),
        ensures
            *edge == self.values_cold@[edge_id * 2],
    {
        assert(self.values_cold.len() <= usize::MAX);
        &self.values_cold[edge_id * 2]
    }

    /// The second cold record of the edge that had id `edge_id` in a graph
    /// frozen with all its edges.
    pub fn get_bwd_edge_cold(&self, edge_id: usize) -> (edge: &CSREdgeCold)
        requires
            edge_id * 2 + 1 < self.values_cold@.len(),
        ensures
            *edge == self.values_cold@[edge_id * 2 + 1],
    {
        assert(self.values_cold.len() <= usize::MAX);
        &self.values_cold[edge_id * 2 + 1]
    }

    /// The hot records of the edges that leave `node`, in row order.
    pub fn fwd_neighbors(&self, node: usize) -> (row: Vec<&CSREdgeHot>)
        requires
            self.wf(),
            node < self.nodes@.len(),
        ensures
            row@.len() == self.fwd_row(node as int).len(),
            forall|k: int| 0 <= k < row@.len() ==> *(#[trigger] row@[k]) == self.fwd_row(node as int)[k],
    {
        assert(self.row_fwd_ptr.len() <= usize::MAX);
        let start: usize = self.row_fwd_ptr[node];
        let end: usize = self.row_fwd_ptr[node + 1];
        let mut row: Vec<&CSREdgeHot> = Vec::new();
        let mut i: usize = start;
        while i < end
            invariant
                self.wf(),
                node < self.nodes@.len(),
                start == self.row_fwd_ptr@[node as int],
                end == self.row_fwd_ptr@[node + 1],
                start <= i <= end,
                row@.len() == i - start,
                forall|k: int| 0 <= k < row@.len() ==> *(#[trigger] row@[k]) == self.fwd_row(node as int)[k],
            decreases end - i,
        {
            let edge_idx: usize = self.cols_fwd[i];
            row.push(&self.values_hot[edge_idx]);
            i += 1;
        }
        row
    }

    /// The hot records of the edges that enter `node`, in row order.
    pub fn bwd_neighbors(&self, node: usize) -> (row: Vec<&CSREdgeHot>)
        requires
            self.wf(),
            node < self.nodes@.len(),
        ensures
            row@.len() == self.bwd_row(node as int).len(),
            forall|k: int| 0 <= k < row@.len() ==> *(#[trigger] row@[k]) == self.bwd_row(node as int)[k],
    {
        assert(self.row_bwd_ptr.len() <= usize::MAX);
        let start: usize = self.row_bwd_ptr[node];
        let end: usize = self.row_bwd_ptr[node + 1];
        let mut row: Vec<&CSREdgeHot> = Vec::new();
        let mut i: usize = start;
        while i < end
            invariant
                self.wf(),
                node < self.nodes@.len(),
                start == self.row_bwd_ptr@[node as int],
                end == self.row_bwd_ptr@[node + 1],
                start <= i <= end,
                row@.len() == i - start,
                forall|k: int| 0 <= k < row@.len() ==> *(#[trigger] row@[k]) == self.bwd_row(node as int)[k],
            decreases end - i,
        {
            let edge_idx: usize = self.cols_bwd[i];
            row.push(&self.values_hot[edge_idx]);
            i += 1;
        }
        row
    }
}

/// Appends the records of one direction, row after row, and returns the
/// columns and the row pointers of that direction.
fn freeze_direction(
    graph: &Graph,
    forward: bool,
    values_hot: &mut Vec<CSREdgeHot>,
    values_cold: &mut Vec<CSREdgeCold>,
) -> (rows: (Vec<usize>, Vec<usize>))
    requires
        graph.wf(),
        old(values_hot)@.len() == old(values_cold)@.len(),
    ensures
        final(values_hot)@ == old(values_hot)@ + hot_records(graph@, forward, all_ids(graph@, forward)),
        final(values_cold)@ == old(values_cold)@ + cold_records(graph@, all_ids(graph@, forward)),
        rows.0@ == columns(old(values_hot)@.len(), all_ids(graph@, forward).len()),
        rows.1@ == row_pointers(graph@, forward),
{
    let ghost g = graph@;
    let ghost lists = lists_of(g, forward);
    let ghost first = values_hot@.len();
    let n: usize = graph.num_nodes();
    let mut cols: Vec<usize> = Vec::with_capacity(graph.num_edges());
    let mut row_ptr: Vec<usize> = Vec::with_capacity(graph.num_edges());
    row_ptr.push(0);
    let mut v: usize = 0;
    while v < n
        invariant
            v <= n,
            n == g.nodes.len(),
            g == graph@,
            lists == lists_of(g, forward),
            first == old(values_hot)@.len(),
            graph.wf(),
            row_ptr@.len() == v + 1,
            forall|x: int| 0 <= x <= v ==> #[trigger] row_ptr@[x] == edge_order(lists, x).len(),
            values_hot@ == old(values_hot)@ + hot_records(g, forward, edge_order(lists, v as int)),
            values_cold@ == old(values_cold)@ + cold_records(g, edge_order(lists, v as int)),
            cols@ == columns(first, edge_order(lists, v as int).len()),
        decreases n - v,
    {
        let list = if forward {
            &graph.fwd_edge_list[v]
        } else {
            &graph.bwd_edge_list[v]
        };
        assert(list@ == lists[v as int]);
        let ghost base = edge_order(lists, v as int);
        let m: usize = list.len();
        let mut k: usize = 0;
        while k < m
            invariant
                k <= m,
                m == list@.len(),
                v < n,
                n == g.nodes.len(),
                g == graph@,
                lists == lists_of(g, forward),
                list@ == lists[v as int],
                first == old(values_hot)@.len(),
                graph.wf(),
                values_hot@ == old(values_hot)@ + hot_records(
                    g,
                    forward,
                    base + list@.take(k as int),
                ),
                values_cold@ == old(values_cold)@ + cold_records(g, base + list@.take(k as int)),
                cols@ == columns(first, (base + list@.take(k as int)).len()),
            decreases m - k,
        {
            let id: usize = list[k];
            assert(id < graph.edges@.len()) by {
                if forward {
                    assert(graph.fwd(v as int)[k as int] == id);
                } else {
                    assert(graph.bwd(v as int)[k as int] == id);
                }
            }
            let edge = graph.get_edge(id);
            let metadata = graph.get_edge_metadata(edge);
            let new_index: usize = values_hot.len();
            let target: usize = if forward {
                edge.dest_id
            } else {
                edge.src_id
            };
            values_hot.push(CSREdgeHot::new(id, target, metadata.weight));
            values_cold.push(
                CSREdgeCold::new(
                    id,
                    metadata.name.clone(),
                    edge.src_id,
                    edge.dest_id,
                    metadata.prev_edge,
                    metadata.next_edge,
                ),
            );
            cols.push(new_index);
            proof {
                let before = base + list@.take(k as int);
                let after = base + list@.take(k as int + 1);
                assert(after =~= before.push(id));
                assert(hot_records(g, forward, after) =~= hot_records(g, forward, before).push(
                    if forward {
                        hot_fwd(g, id)
                    } else {
                        hot_bwd(g, id)
                    },
                ));
                assert(cold_records(g, after) =~= cold_records(g, before).push(cold_of(g, id)));
                assert(values_hot@ =~= old(values_hot)@ + hot_records(g, forward, after));
                assert(values_cold@ =~= old(values_cold)@ + cold_records(g, after));
                assert(cols@ =~= columns(first, after.len()));
            }
            k += 1;
        }
        proof {
            assert(list@.take(m as int) =~= list@);
            assert(base + list@ =~= edge_order(lists, v as int + 1));
        }
        row_ptr.push(cols.len());
        v += 1;
    }
    proof {
        assert(row_ptr@ =~= row_pointers(g, forward));
    }
    (cols, row_ptr)
}

/// The lists of fewer nodes, one after the other, start the lists of more.
pub proof fn lemma_edge_order_prefix(lists: Seq<Seq<usize>>, a: int, b: int)
    requires
        0 <= a <= b,
    ensures
        edge_order(lists, a).len() <= edge_order(lists, b).len(),
        forall|i: int|
            0 <= i < edge_order(lists, a).len() ==> #[trigger] edge_order(lists, b)[i]
                == edge_order(lists, a)[i],
    decreases b - a,
{
    if a < b {
        lemma_edge_order_prefix(lists, a, b - 1);
    }
}

/// The list of node `u` stands in the order where the lists below `u` end.
pub proof fn lemma_edge_order_row(lists: Seq<Seq<usize>>, u: int, n: int)
    requires
        0 <= u < n,
    ensures
        edge_order(lists, u).len() + lists[u].len() == edge_order(lists, u + 1).len(),
        edge_order(lists, u + 1).len() <= edge_order(lists, n).len(),
        forall|k: int|
            0 <= k < lists[u].len() ==> #[trigger] edge_order(lists, n)[edge_order(lists, u).len()
                + k] == lists[u][k],
{
    lemma_edge_order_prefix(lists, u + 1, n);
    assert forall|k: int| 0 <= k < lists[u].len() implies #[trigger] edge_order(
        lists,
        n,
    )[edge_order(lists, u).len() + k] == lists[u][k] by {
        assert(edge_order(lists, u + 1)[edge_order(lists, u).len() + k] == lists[u][k]);
    }
}

/// Every id in the order stands in the list of a node.
pub proof fn lemma_edge_order_member(lists: Seq<Seq<usize>>, n: int, i: int) -> (place: (int, int))
    requires
        0 <= i < edge_order(lists, n).len(),
    ensures
        0 <= place.0 < n,
        0 <= place.1 < lists[place.0].len(),
        edge_order(lists, n)[i] == lists[place.0][place.1],
        i == edge_order(lists, place.0).len() + place.1,
    decreases n,
{
    if i < edge_order(lists, n - 1).len() {
        lemma_edge_order_member(lists, n - 1, i)
    } else {
        (n - 1, i - edge_order(lists, n - 1).len())
    }
}

/// The snapshot of a well-formed graph is well formed.
pub proof fn lemma_snapshot_wf(csr: CSRGraph, graph: Graph)
    requires
        graph.wf(),
        csr.is_snapshot_of(graph@),
    ensures
        csr.wf(),
{
    let g = graph@;
    let n = g.nodes.len() as int;
    let fwd_ids = all_ids(g, true);
    let bwd_ids = all_ids(g, false);
    assert(csr.values_hot.len() <= usize::MAX);
    assert(fwd_ids.len() + bwd_ids.len() <= usize::MAX);
    assert forall|v: int| 0 <= v < n implies (#[trigger] csr.row_fwd_ptr@[v]) <= csr.row_fwd_ptr@[v
        + 1] by {
        lemma_edge_order_prefix(g.fwd, v, v + 1);
        lemma_edge_order_prefix(g.fwd, v + 1, n);
    }
    assert forall|v: int| 0 <= v < n implies (#[trigger] csr.row_bwd_ptr@[v]) <= csr.row_bwd_ptr@[v
        + 1] by {
        lemma_edge_order_prefix(g.bwd, v, v + 1);
        lemma_edge_order_prefix(g.bwd, v + 1, n);
    }
    assert forall|v: int| 0 <= v <= n implies (#[trigger] csr.row_fwd_ptr@[v])
        <= csr.cols_fwd@.len() by {
        lemma_edge_order_prefix(g.fwd, v, n);
    }
    assert forall|v: int| 0 <= v <= n implies (#[trigger] csr.row_bwd_ptr@[v])
        <= csr.cols_bwd@.len() by {
        lemma_edge_order_prefix(g.bwd, v, n);
    }
    assert forall|i: int| 0 <= i < csr.values_hot@.len() implies (#[trigger] csr.values_hot@[i]).target
        < n && csr.values_hot@[i].weight < INFINITY by {
        if i < fwd_ids.len() {
            let place = lemma_edge_order_member(g.fwd, n, i);
            assert(graph.fwd(place.0)[place.1] < graph.edges@.len());
            assert(graph.edges@[fwd_ids[i] as int].dest_id < n);
        } else {
            let place = lemma_edge_order_member(g.bwd, n, i - fwd_ids.len());
            assert(graph.bwd(place.0)[place.1] < graph.edges@.len());
            assert(graph.edges@[bwd_ids[i - fwd_ids.len()] as int].src_id < n);
        }
    }
    let from = choose|from: Seq<int>| sorted_from(csr.values_cold@, cold_in_order(g), from);
    assert forall|i: int| 0 <= i < csr.values_cold@.len() implies (#[trigger] csr.values_cold@[i]).from_node
        < n && csr.values_cold@[i].to_node < n by {
        let j = from[i];
        assert(csr.values_cold@[i] == cold_in_order(g)[j]);
        if j < fwd_ids.len() {
            let place = lemma_edge_order_member(g.fwd, n, j);
            assert(graph.fwd(place.0)[place.1] < graph.edges@.len());
            assert(graph.edges@[fwd_ids[j] as int].dest_id < n);
        } else {
            let place = lemma_edge_order_member(g.bwd, n, j - fwd_ids.len());
            assert(graph.bwd(place.0)[place.1] < graph.edges@.len());
            assert(graph.edges@[bwd_ids[j - fwd_ids.len()] as int].src_id < n);
        }
    }
}

/// In the snapshot every node has the rows that the graph gives it: the
/// same edges in the same order, with their targets and costs.
pub proof fn lemma_snapshot_rows(csr: CSRGraph, graph: Graph)
    requires
        graph.wf(),
        csr.is_snapshot_of(graph@),
    ensures
        forall|u: int|
            0 <= u < graph@.nodes.len() ==> #[trigger] csr.fwd_row(u) == hot_records(
                graph@,
                true,
                graph@.fwd[u],
            ),
        forall|u: int|
            0 <= u < graph@.nodes.len() ==> #[trigger] csr.bwd_row(u) == hot_records(
                graph@,
                false,
                graph@.bwd[u],
            ),
{
    let g = graph@;
    let n = g.nodes.len() as int;
    assert(csr.values_hot.len() <= usize::MAX);
    assert(all_ids(g, true).len() + all_ids(g, false).len() <= usize::MAX);
    assert forall|u: int| 0 <= u < n implies #[trigger] csr.fwd_row(u) == hot_records(
        g,
        true,
        g.fwd[u],
    ) by {
        lemma_edge_order_row(g.fwd, u, n);
        lemma_edge_order_prefix(g.fwd, u, n);
        assert(csr.fwd_row(u) =~= hot_records(g, true, g.fwd[u]));
    }
    assert forall|u: int| 0 <= u < n implies #[trigger] csr.bwd_row(u) == hot_records(
        g,
        false,
        g.bwd[u],
    ) by {
        lemma_edge_order_row(g.bwd, u, n);
        lemma_edge_order_prefix(g.bwd, u, n);
        assert(csr.bwd_row(u) =~= hot_records(g, false, g.bwd[u]));
    }
}

} // verus!
