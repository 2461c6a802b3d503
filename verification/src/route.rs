//! From two external node ids to the external ids of the nodes on a
//! fastest path between them.
use crate::ch_query::{
    entries_below, first_best, initial_query, packed_entries, query_rounds, steps_below,
    BiDirDijkstra, QueryResult, MAX_POPS,
};
use crate::ch_correct::{lemma_query_cost_is_least, lemma_query_cost_is_real, query_cost};
use crate::ch_preprocess::{build_overlay, contracted};
use crate::csr_graph::{CSREdgeCold, CSRGraph};
use crate::graph::{Graph, INFINITY};
use crate::query_optimal::lonely;
use crate::walks::{is_chain, total_weight};
use crate::witness_search::SearchState;
use crate::shortcut_visitor::{
    emit, emit_all, entry_nodes, is_packed, leaf_nodes, path_nodes, unpacked, ShortcutVisitor,
};
use crate::visitable::Visitable;
use vstd::prelude::*;

verus! {

/// The place, from `k` on, of the first node with the external id `osm_id`.
pub open spec fn first_with_id(graph: CSRGraph, osm_id: i64, k: int) -> Option<usize>
    decreases graph.nodes@.len() - k,
{
    if 0 <= k < graph.nodes@.len() {
        if graph.nodes@[k].osm_id == osm_id {
            Some(k as usize)
        } else {
            first_with_id(graph, osm_id, k + 1)
        }
    } else {
        None
    }
}

/// The dense id of the first node with the external id `osm_id`.
pub fn find_node(graph: &CSRGraph, osm_id: i64) -> (found: Option<usize>)
    ensures
        found == first_with_id(*graph, osm_id, 0),
        found.is_some() ==> found.unwrap() < graph.nodes@.len(),
{
    let mut k: usize = 0;
    while k < graph.nodes.len()
        invariant
            k <= graph.nodes@.len(),
            first_with_id(*graph, osm_id, k as int) == first_with_id(*graph, osm_id, 0),
        decreases graph.nodes@.len() - k,
    {
        if graph.nodes[k].osm_id == osm_id {
            return Some(k);
        }
        k += 1;
    }
    None
}

/// Every node that an edge emits is a node of the snapshot.
pub proof fn lemma_leaf_nodes_in_range(graph: CSRGraph, record: CSREdgeCold, is_fwd: bool)
    requires
        graph.wf(),
        graph.holds(record),
    ensures
        forall|i: int|
            0 <= i < leaf_nodes(graph.values_cold@, record, is_fwd).len() ==> (
            #[trigger] leaf_nodes(graph.values_cold@, record, is_fwd)[i]) < graph.nodes@.len(),
    decreases record.id,
{
    let cold = graph.values_cold@;
    if is_packed(cold, record) {
        let first = cold[record.prev_edge.unwrap() * 2];
        let second = cold[record.next_edge.unwrap() * 2 + 1];
        lemma_leaf_nodes_in_range(graph, first, is_fwd);
        lemma_leaf_nodes_in_range(graph, second, is_fwd);
        let head = leaf_nodes(cold, first, is_fwd);
        let rest = leaf_nodes(cold, second, is_fwd);
        assert forall|i: int| 0 <= i < (head + rest).len() implies (#[trigger] (head + rest)[i])
            < graph.nodes@.len() by {
            if i < head.len() {
                assert((head + rest)[i] == head[i]);
            } else {
                assert((head + rest)[i] == rest[i - head.len()]);
            }
        }
    } else {
        let at = choose|i: int| 0 <= i < cold.len() && cold[i] == record;
        assert(cold[at].from_node < graph.nodes@.len());
    }
}

/// Every node that the entries of one direction emit is a node of the
/// snapshot.
pub proof fn lemma_entry_nodes_in_range(
    graph: CSRGraph,
    entries: Seq<QueryResult>,
    is_fwd: bool,
    k: int,
)
    requires
        graph.wf(),
        entries_below(entries, graph.values_cold@.len()),
        0 <= k,
    ensures
        forall|i: int|
            0 <= i < entry_nodes(graph.values_cold@, entries, is_fwd, k).len() ==> (
            #[trigger] entry_nodes(graph.values_cold@, entries, is_fwd, k)[i]) < graph.nodes@.len(),
    decreases entries.len() - k,
{
    let cold = graph.values_cold@;
    if k < entries.len() {
        lemma_entry_nodes_in_range(graph, entries, is_fwd, k + 1);
        if entries[k].is_fwd == is_fwd {
            assert(entries[k].edge_id * 2 < cold.len());
            let record = cold[entries[k].edge_id * 2];
            lemma_leaf_nodes_in_range(graph, record, is_fwd);
            let head = leaf_nodes(cold, record, is_fwd);
            let rest = entry_nodes(cold, entries, is_fwd, k + 1);
            assert(entry_nodes(cold, entries, is_fwd, k) == head + rest);
            assert forall|i: int| 0 <= i < (head + rest).len() implies (#[trigger] (head + rest)[i])
                < graph.nodes@.len() by {
                if i < head.len() {
                    assert((head + rest)[i] == head[i]);
                } else {
                    assert((head + rest)[i] == rest[i - head.len()]);
                }
            }
        } else {
            assert(entry_nodes(cold, entries, is_fwd, k) == entry_nodes(
                cold,
                entries,
                is_fwd,
                k + 1,
            ));
        }
    } else {
        assert(entry_nodes(cold, entries, is_fwd, k) =~= Seq::<usize>::empty());
    }
}

/// Emitting nodes of the snapshot leaves an output of nodes of the
/// snapshot.
pub proof fn lemma_emit_all_in_range(state: (Seq<usize>, Set<usize>), nodes: Seq<usize>, bound: nat)
    requires
        forall|i: int| 0 <= i < state.0.len() ==> (#[trigger] state.0[i]) < bound,
        forall|i: int| 0 <= i < nodes.len() ==> (#[trigger] nodes[i]) < bound,
    ensures
        forall|i: int|
            0 <= i < emit_all(state, nodes).0.len() ==> (#[trigger] emit_all(state, nodes).0[i])
                < bound,
    decreases nodes.len(),
{
    if nodes.len() > 0 {
        lemma_emit_all_in_range(state, nodes.drop_last(), bound);
        let before = emit_all(state, nodes.drop_last());
        assert(emit_all(state, nodes) == emit(before, nodes.last()));
    }
}

/// The external ids of the nodes `walk`.
pub open spec fn osm_ids_of(graph: CSRGraph, walk: Seq<usize>) -> Seq<i64> {
    Seq::new(walk.len(), |i: int| graph.nodes@[walk[i] as int].osm_id)
}

/// The cost of the path that a query from `src` to `dest` finds, and the
/// external ids of the nodes on it.
pub open spec fn routed(graph: CSRGraph, src: usize, dest: usize) -> Option<(u64, Seq<i64>)> {
    let start = initial_query(graph.nodes@.len(), src, dest);
    let end = query_rounds(graph, (start, first_best(graph, start)), MAX_POPS as nat);
    match end.1 {
        None => None,
        Some((node, total)) => Some(
            (
                total,
                osm_ids_of(
                    graph,
                    unpacked(graph.values_cold@, packed_entries(end.0, node), node),
                ),
            ),
        ),
    }
}

/// The external ids of the nodes on a fastest path from `src` to `dest`,
/// with the cost of the path, or nothing when there is no path.
pub fn route(graph: &CSRGraph, query: &mut BiDirDijkstra, src: usize, dest: usize) -> (found: Option<
    (u64, Vec<i64>),
>)
    requires
        graph.wf(),
        graph.cold_wf(),
        graph.nodes@.len() == old(query).num_nodes(),
        src < graph.nodes@.len(),
        dest < graph.nodes@.len(),
    ensures
        final(query).wf(),
        final(query).num_nodes() == old(query).num_nodes(),
        found.is_some() == routed(*graph, src, dest).is_some(),
        found.is_some() ==> found.unwrap().0 == routed(*graph, src, dest).unwrap().0
            && found.unwrap().1@ == routed(*graph, src, dest).unwrap().1,
{
    query.init(src, dest);
    assert(steps_below(query@.fwd.prev, graph.values_cold@.len()));
    assert(steps_below(query@.bwd.prev, graph.values_cold@.len()));
    match query.search(graph) {
        None => None,
        Some(path) => {
            let visitor = ShortcutVisitor::new(graph, &path);
            let walk = visitor.visit();
            proof {
                let cold = graph.values_cold@;
                let bound = graph.nodes@.len();
                lemma_entry_nodes_in_range(*graph, path.entries@, true, 0);
                lemma_entry_nodes_in_range(*graph, path.entries@, false, 0);
                lemma_emit_all_in_range(
                    (Seq::<usize>::empty(), Set::<usize>::empty()),
                    path_nodes(cold, path.entries@, path.meeting_node),
                    bound,
                );
            }
            let mut ids: Vec<i64> = Vec::new();
            let mut i: usize = 0;
            while i < walk.len()
                invariant
                    i <= walk@.len(),
                    ids@.len() == i,
                    forall|k: int| 0 <= k < walk@.len() ==> (#[trigger] walk@[k]) < graph.nodes@.len(),
                    forall|k: int|
                        0 <= k < i ==> #[trigger] ids@[k] == graph.nodes@[walk@[k] as int].osm_id,
                decreases walk@.len() - i,
            {
                ids.push(graph.nodes[walk[i]].osm_id);
                i += 1;
            }
            assert(ids@ =~= osm_ids_of(*graph, walk@));
            Some((path.weight, ids))
        },
    }
}

/// The snapshot of the hierarchy of a graph. On it a query returns the
/// cost of a cheapest way through the graph: the cost of some chain of
/// edges of the graph from the source to the target, and no more than the
/// cost of any such chain. (The one exception: a node without any edge is
/// no path to itself.)
pub fn preprocess(graph: Graph) -> (csr: CSRGraph)
    requires
        graph.wf(),
        graph.complete(),
        graph@.shortcuts_sound(),
    ensures
        csr.wf(),
        csr.cold_wf(),
        csr.nodes@.len() == graph.nodes@.len(),
        csr.is_snapshot_of(
            contracted(
                graph@,
                graph@,
                SearchState {
                    src: 0,
                    ignore: 0,
                    weights: Seq::new(graph.nodes@.len(), |i: int| INFINITY),
                    queued: Set::<usize>::empty(),
                },
            ).overlay,
        ),
        forall|src: usize, dest: usize|
            src < graph.nodes@.len() && dest < graph.nodes@.len() && (#[trigger] query_cost(
                csr,
                src,
                dest,
            )).is_some() ==> exists|walk: Seq<usize>| #[trigger]
                is_chain(graph@, walk, src, dest) && total_weight(graph@, walk) == query_cost(
                    csr,
                    src,
                    dest,
                ).unwrap(),
        forall|src: usize, dest: usize, path: Seq<usize>|
            src < graph.nodes@.len() && dest < graph.nodes@.len() && 2 * graph.nodes@.len()
                < MAX_POPS && #[trigger] is_chain(graph@, path, src, dest) && total_weight(
                graph@,
                path,
            ) < INFINITY && !lonely(csr, initial_query(graph.nodes@.len(), src, dest))
                ==> query_cost(csr, src, dest).is_some() && query_cost(csr, src, dest).unwrap()
                <= total_weight(graph@, path),
{
    let ghost plain = graph;
    let overlay = build_overlay(graph);
    let ghost hierarchy = overlay;
    let csr = CSRGraph::from_preprocessed_graph(overlay);
    proof {
        let search = SearchState {
            src: 0,
            ignore: 0,
            weights: Seq::new(plain.nodes@.len(), |i: int| INFINITY),
            queued: Set::<usize>::empty(),
        };
        assert forall|src: usize, dest: usize|
            src < plain.nodes@.len() && dest < plain.nodes@.len() && (#[trigger] query_cost(
                csr,
                src,
                dest,
            )).is_some() implies exists|walk: Seq<usize>| #[trigger]
            is_chain(plain@, walk, src, dest) && total_weight(plain@, walk) == query_cost(
                csr,
                src,
                dest,
            ).unwrap() by {
            let walk = lemma_query_cost_is_real(plain, hierarchy, csr, src, dest);
            assert(is_chain(plain@, walk, src, dest));
        }
        assert forall|src: usize, dest: usize, path: Seq<usize>|
            src < plain.nodes@.len() && dest < plain.nodes@.len() && 2
                * plain.nodes@.len() < MAX_POPS && #[trigger] is_chain(
                plain@,
                path,
                src,
                dest,
            ) && total_weight(plain@, path) < INFINITY && !lonely(
                csr,
                initial_query(plain.nodes@.len(), src, dest),
            ) implies query_cost(csr, src, dest).is_some() && query_cost(csr, src, dest).unwrap()
            <= total_weight(plain@, path) by {
            lemma_query_cost_is_least(plain, hierarchy, csr, search, src, dest, path);
        }
    }
    csr
}

} // verus!
