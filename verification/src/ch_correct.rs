//! The hierarchy answers queries right: on the snapshot of the overlay
//! that the contraction of a graph leaves, a query returns the cost of a
//! cheapest way through the graph.
use crate::ch_preprocess::{
    contract_pair, contract_pairs_from, contract_preds_from, contract_round, contract_rounds,
    contracted, least_node, next_level, rank_all_from, rerank_from,
    Contraction, Preprocessing,
};
use crate::ch_query::{first_best, initial_query, packed_entries, query_rounds, MAX_POPS};
use crate::contraction_lemmas::coherent;
use crate::csr_graph::{csr_node, lemma_snapshot_rows, lemma_snapshot_wf, CSRGraph};
use crate::graph::{Graph, GraphModel, INFINITY};
use crate::hierarchy_lemmas::{
    lemma_hierarchy_complete, lemma_rerank_graph, node_done, twins,
};
use crate::query_lemmas::{holds_rows, lemma_query_path_sound};
use crate::query_optimal::{lemma_query_path_least, lonely};
use crate::queue::no_entries;
use crate::shortcut_visitor::{path_nodes, unpacked};
use crate::unpack_lemmas::{cold_matches, entry_ids, lemma_unpacking_fidelity};
use crate::walks::{
    expand_from, is_chain, lemma_chain_concat, lemma_expand_from_chain,
    lemma_plain_chain_is_old, lemma_weight_concat, targets, total_weight,
};
use crate::witness_lemmas::{all_live, lemma_wf_lists_ok, live};
use crate::witness_search::{initial_state, SearchState};
use vstd::prelude::*;

verus! {

/// The cost of the path that a query from `src` to `dest` returns.
pub open spec fn query_cost(csr: CSRGraph, src: usize, dest: usize) -> Option<u64> {
    let start = initial_query(csr.nodes@.len(), src, dest);
    let end = query_rounds(csr, (start, first_best(csr, start)), MAX_POPS as nat);
    match end.1 {
        Some(best) => Some(best.1),
        None => None,
    }
}

/// The snapshot of a well-formed graph holds the rows of the graph.
pub proof fn lemma_snapshot_holds_rows(csr: CSRGraph, graph: Graph)
    requires
        graph.wf(),
        csr.is_snapshot_of(graph@),
    ensures
        holds_rows(csr, graph@),
{
    lemma_snapshot_wf(csr, graph);
    lemma_snapshot_rows(csr, graph);
    lemma_wf_lists_ok(graph);
    assert forall|v: int| 0 <= v < csr.nodes@.len() implies (#[trigger] csr.nodes@[v]).rank
        == graph@.nodes[v].rank by {
        assert(csr.nodes@[v] == csr_node(graph@.nodes[v]));
    }
}

/// A well-formed graph is coherent, and one that has all its edges has
/// them live.
pub proof fn lemma_wf_coherent(graph: Graph)
    requires
        graph.wf(),
    ensures
        coherent(graph@),
        graph.complete() ==> forall|e: usize| e < graph@.edges.len() ==> #[trigger] live(graph@, e),
{
    let g = graph@;
    assert(graph.edges.len() <= usize::MAX);
    assert forall|e: int| 0 <= e < g.edges.len() implies (g.fwd[(
    #[trigger] g.edges[e]).src_id as int].contains(e as usize)
        <==> g.bwd[g.edges[e].dest_id as int].contains(e as usize)) by {
        let s = graph.edges@[e].src_id as int;
        let d = graph.edges@[e].dest_id as int;
        assert(g.fwd[s] == graph.fwd(s));
        assert(g.bwd[d] == graph.bwd(d));
    }
    if graph.complete() {
        assert forall|e: usize| e < g.edges.len() implies #[trigger] live(g, e) by {
            assert(graph.is_live(e as int));
            let s = graph.edges@[e as int].src_id as int;
            assert(g.fwd[s] == graph.fwd(s));
        }
    }
}

/// What a query returns is real. On the snapshot of the overlay that the
/// contraction of a graph has left, the cost of the path that a query from
/// `src` to `dest` returns is the cost of a chain of edges of the graph
/// from `src` to `dest`.
pub proof fn lemma_query_cost_is_real(
    graph: Graph,
    overlay: Graph,
    csr: CSRGraph,
    src: usize,
    dest: usize,
) -> (walk: Seq<usize>)
    requires
        graph.wf(),
        overlay.wf(),
        overlay@.extends(graph@),
        overlay@.shortcuts_sound(),
        overlay@.shortcuts_beyond(graph@.edges.len()),
        csr.is_snapshot_of(overlay@),
        src < graph@.nodes.len(),
        dest < graph@.nodes.len(),
        query_cost(csr, src, dest).is_some(),
    ensures
        is_chain(graph@, walk, src, dest),
        total_weight(graph@, walk) == query_cost(csr, src, dest).unwrap(),
{
    let g = overlay@;
    lemma_snapshot_holds_rows(csr, overlay);
    lemma_wf_lists_ok(graph);
    lemma_query_path_sound(csr, g, src, dest);
    let start = initial_query(g.nodes.len(), src, dest);
    let end = query_rounds(csr, (start, first_best(csr, start)), MAX_POPS as nat);
    let node = end.1.unwrap().0;
    let entries = packed_entries(end.0, node);
    let fwd = entry_ids(entries, true, 0);
    let bwd = entry_ids(entries, false, 0);
    let packed = fwd + bwd;
    lemma_chain_concat(g, fwd, bwd, src, node, dest);
    lemma_weight_concat(g, fwd, bwd);
    assert(packed.skip(0) =~= packed);
    lemma_expand_from_chain(g, packed, 0, src, dest);
    let walk = expand_from(g, packed, 0);
    lemma_plain_chain_is_old(graph@, g, walk, src, dest);
    walk
}

/// What a query returns unpacks to a walk. On the snapshot of the overlay
/// that the contraction of a graph has left, the path that a query from
/// `src` to `dest` returns emits the nodes of a chain of edges of the graph
/// from `src` to `dest` that costs what the path costs; unpacking gives
/// these nodes when none of them repeats.
pub proof fn lemma_query_path_is_walk(
    graph: Graph,
    overlay: Graph,
    csr: CSRGraph,
    src: usize,
    dest: usize,
) -> (walk: Seq<usize>)
    requires
        graph.wf(),
        overlay.wf(),
        overlay@.extends(graph@),
        overlay@.shortcuts_sound(),
        overlay@.shortcuts_beyond(graph@.edges.len()),
        csr.is_snapshot_of(overlay@),
        csr.holds_all(overlay@),
        src < graph@.nodes.len(),
        dest < graph@.nodes.len(),
        query_cost(csr, src, dest).is_some(),
    ensures
        ({
            let start = initial_query(csr.nodes@.len(), src, dest);
            let end = query_rounds(csr, (start, first_best(csr, start)), MAX_POPS as nat);
            let node = end.1.unwrap().0;
            let nodes = path_nodes(csr.values_cold@, packed_entries(end.0, node), node);
            &&& is_chain(graph@, walk, src, dest)
            &&& total_weight(graph@, walk) == query_cost(csr, src, dest).unwrap()
            &&& nodes == seq![src] + targets(graph@, walk)
            &&& nodes.no_duplicates() ==> unpacked(
                csr.values_cold@,
                packed_entries(end.0, node),
                node,
            ) == nodes
        }),
{
    let g = overlay@;
    lemma_snapshot_holds_rows(csr, overlay);
    lemma_wf_lists_ok(graph);
    lemma_query_path_sound(csr, g, src, dest);
    let start = initial_query(g.nodes.len(), src, dest);
    let end = query_rounds(csr, (start, first_best(csr, start)), MAX_POPS as nat);
    let node = end.1.unwrap().0;
    let entries = packed_entries(end.0, node);
    let fwd = entry_ids(entries, true, 0);
    let bwd = entry_ids(entries, false, 0);
    let packed = fwd + bwd;
    assert(overlay.edges.len() <= usize::MAX);
    assert(cold_matches(csr.values_cold@, g));
    lemma_unpacking_fidelity(g, csr.values_cold@, entries, src, node, dest);
    lemma_weight_concat(g, fwd, bwd);
    let walk = expand_from(g, packed, 0);
    lemma_plain_chain_is_old(graph@, g, walk, src, dest);
    assert(targets(graph@, walk) =~= targets(g, walk)) by {
        assert forall|i: int| 0 <= i < walk.len() implies graph@.edges[(#[trigger] walk[i]) as int]
            == g.edges[walk[i] as int] by {
            assert(walk[i] < graph@.edges.len());
        }
    }
    walk
}

/// What a query returns is the least. On the snapshot of the overlay that
/// the contraction of a graph has left, a query from `src` to `dest`
/// returns a path that costs no more than any chain of edges of the graph
/// from `src` to `dest`. (A node without any edge is no path to itself.)
pub proof fn lemma_query_cost_is_least(
    graph: Graph,
    overlay: Graph,
    csr: CSRGraph,
    search: SearchState,
    src: usize,
    dest: usize,
    path: Seq<usize>,
)
    requires
        graph.wf(),
        graph.complete(),
        overlay.wf(),
        overlay@ == contracted(graph@, graph@, search).overlay,
        search.weights.len() == graph@.nodes.len(),
        csr.is_snapshot_of(overlay@),
        src < graph@.nodes.len(),
        dest < graph@.nodes.len(),
        2 * graph@.nodes.len() < MAX_POPS,
        is_chain(graph@, path, src, dest),
        total_weight(graph@, path) < INFINITY,
        !lonely(csr, initial_query(graph@.nodes.len(), src, dest)),
    ensures
        query_cost(csr, src, dest).is_some(),
        query_cost(csr, src, dest).unwrap() <= total_weight(graph@, path),
{
    let g = graph@;
    lemma_wf_lists_ok(graph);
    lemma_wf_coherent(graph);
    lemma_snapshot_holds_rows(csr, overlay);
    assert(graph.nodes.len() <= usize::MAX);
    assert(overlay.edges.len() <= usize::MAX);
    assert(overlay.edge_metadata.len() <= usize::MAX);
    assert(all_live(g, path));
    lemma_in_step_end(g, search);
    assert(contracted(g, g, search).graph.edges == overlay@.edges);
    let way = lemma_hierarchy_complete(g, search, src, dest, path);
    lemma_query_path_least(csr, overlay@, src, dest, way.0, way.1, way.2);
}

/// Two graphs hold the same edges and records.
pub open spec fn same_arrays(a: GraphModel, b: GraphModel) -> bool {
    a.edges == b.edges && a.metadata == b.metadata
}

/// The two graphs of a contraction hold the same edges and records after
/// one pair as they did before.
pub proof fn lemma_pair_same_arrays(c: Contraction, u: usize, be: usize, fwd_list: Seq<usize>, k: int)
    requires
        same_arrays(c.graph, c.overlay),
    ensures
        same_arrays(
            contract_pair(c, u, be, fwd_list, k).graph,
            contract_pair(c, u, be, fwd_list, k).overlay,
        ),
{
}

/// The same after the pairs of one edge.
pub proof fn lemma_pairs_same_arrays(c: Contraction, u: usize, be: usize, fwd_list: Seq<usize>, k: int)
    requires
        same_arrays(c.graph, c.overlay),
        0 <= k,
    ensures
        same_arrays(
            contract_pairs_from(c, u, be, fwd_list, k).graph,
            contract_pairs_from(c, u, be, fwd_list, k).overlay,
        ),
    decreases fwd_list.len() - k,
{
    if k < fwd_list.len() {
        lemma_pair_same_arrays(c, u, be, fwd_list, k);
        lemma_pairs_same_arrays(contract_pair(c, u, be, fwd_list, k), u, be, fwd_list, k + 1);
    }
}

/// The same after the edges into a node.
pub proof fn lemma_preds_same_arrays(
    c: Contraction,
    u: usize,
    fwd_list: Seq<usize>,
    bwd_list: Seq<usize>,
    j: int,
)
    requires
        same_arrays(c.graph, c.overlay),
        0 <= j,
    ensures
        same_arrays(
            contract_preds_from(c, u, fwd_list, bwd_list, j).graph,
            contract_preds_from(c, u, fwd_list, bwd_list, j).overlay,
        ),
    decreases bwd_list.len() - j,
{
    if j < bwd_list.len() {
        let be = bwd_list[j];
        let start = Contraction {
            search: initial_state(c.search.weights.len(), c.graph.edges[be as int].src_id, u),
            ..c
        };
        lemma_pairs_same_arrays(start, u, be, fwd_list, 0);
        lemma_preds_same_arrays(
            contract_pairs_from(start, u, be, fwd_list, 0),
            u,
            fwd_list,
            bwd_list,
            j + 1,
        );
    }
}

/// Ranking neighbours anew leaves the edges and records of the overlay
/// as they are.
pub proof fn lemma_rerank_overlay(p: Preprocessing, u: usize, list: Seq<usize>, k: int, level: i32)
    requires
        0 <= k,
    ensures
        rerank_from(p, u, list, k, level).overlay.edges == p.overlay.edges,
        rerank_from(p, u, list, k, level).overlay.metadata == p.overlay.metadata,
    decreases list.len() - k,
{
    if k < list.len() {
        lemma_rerank_overlay(
            crate::ch_preprocess::rerank_neighbor(p, u, list, k, level),
            u,
            list,
            k + 1,
            level,
        );
    }
}

/// The same after a round.
pub proof fn lemma_round_same_arrays(p: Preprocessing)
    requires
        same_arrays(p.graph, p.overlay),
    ensures
        same_arrays(contract_round(p).graph, contract_round(p).overlay),
{
    let u = least_node(p.queue);
    let mid = node_done(p);
    let level = next_level(p.overlay.nodes[u as int].rank);
    lemma_preds_same_arrays(twins(p), u, p.graph.fwd[u as int], p.graph.bwd[u as int], 0);
    let contracted = Preprocessing {
        graph: mid.graph,
        overlay: mid.overlay,
        search: mid.search,
        queue: p.queue.remove(u),
    };
    let after_bwd = rerank_from(contracted, u, mid.graph.bwd[u as int], 0, level);
    lemma_rerank_graph(contracted, u, mid.graph.bwd[u as int], 0, level);
    lemma_rerank_graph(after_bwd, u, mid.graph.fwd[u as int], 0, level);
    lemma_rerank_overlay(contracted, u, mid.graph.bwd[u as int], 0, level);
    lemma_rerank_overlay(after_bwd, u, mid.graph.fwd[u as int], 0, level);
}

/// The same after the rounds.
pub proof fn lemma_rounds_same_arrays(p: Preprocessing, rounds: nat)
    requires
        same_arrays(p.graph, p.overlay),
    ensures
        same_arrays(contract_rounds(p, rounds).graph, contract_rounds(p, rounds).overlay),
    decreases rounds,
{
    if rounds == 0 || p.queue == no_entries() {
    } else {
        lemma_round_same_arrays(p);
        lemma_rounds_same_arrays(contract_round(p), (rounds - 1) as nat);
    }
}

/// Ranking all nodes leaves the two graphs as they are.
pub proof fn lemma_rank_all_graphs(p: Preprocessing, i: int)
    requires
        0 <= i,
    ensures
        rank_all_from(p, i).graph == p.graph,
        rank_all_from(p, i).overlay == p.overlay,
    decreases p.graph.nodes.len() - i,
{
    if i < p.graph.nodes.len() {
        let ranked = crate::ch_preprocess::importance(p.graph, i as usize, p.search);
        lemma_rank_all_graphs(
            Preprocessing {
                search: ranked.0,
                queue: p.queue.insert(i as usize, (ranked.1, i as usize)),
                ..p
            },
            i + 1,
        );
    }
}

/// When the preprocessing of a graph ends, the shrinking graph and the
/// overlay hold the same edges and records.
pub proof fn lemma_in_step_end(graph: GraphModel, search: SearchState)
    ensures
        same_arrays(contracted(graph, graph, search).graph, contracted(graph, graph, search).overlay),
{
    let p0 = Preprocessing { graph, overlay: graph, search, queue: no_entries() };
    lemma_rank_all_graphs(p0, 0);
    lemma_rounds_same_arrays(rank_all_from(p0, 0), graph.nodes.len());
}

} // verus!
