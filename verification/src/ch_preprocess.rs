//! Contraction: node importance, the contraction of one node with its
//! witness searches and shortcuts, and the queue-driven loop over all nodes.
use crate::graph::{
    add_weights, copy_ids, lemma_beyond_compose, lemma_shortcut_is_beyond,
    lemma_shortcut_keeps_sound, weight_add, EdgeMetadata, Graph, GraphModel, INFINITY,
};
use crate::queue::{
    is_least_entry, no_entries, queue_change_priority, queue_entries, queue_new, queue_pop,
    queue_push, MinQueue,
};
use crate::witness_search::{initial_state, search_from, Dijkstra, SearchState};
use vstd::prelude::*;

verus! {

/// The number of pops that one witness search may spend.
pub const MAX_HOPS: usize = 500;

/// A shortcut is needed for the pair of edge `be` into `u` and edge `fe`
/// out of `u` when the two other end points differ from each other and
/// from `u`.
pub open spec fn is_pair(g: GraphModel, u: usize, be: usize, fe: usize) -> bool {
    let w = g.edges[be as int].src_id;
    let v = g.edges[fe as int].dest_id;
    v != w && v != u && w != u
}

/// The cost of the path through `u` over edge `be` and then edge `fe`.
pub open spec fn combined_weight(g: GraphModel, be: usize, fe: usize) -> u64 {
    weight_add(g.weight_of(be as int), g.weight_of(fe as int))
}

/// One more, up to the largest count.
pub open spec fn count_up(count: u64) -> u64 {
    if count < u64::MAX {
        (count + 1) as u64
    } else {
        count
    }
}

/// The searcher and the count after the pair of `be` and edge number `k`
/// of `fwd_list`: the count goes up when the witness search, bounded by the
/// combined cost, ends above it.
pub open spec fn count_pair(
    g: GraphModel,
    u: usize,
    be: usize,
    fwd_list: Seq<usize>,
    k: int,
    acc: (SearchState, u64),
) -> (SearchState, u64) {
    let fe = fwd_list[k];
    if is_pair(g, u, be, fe) {
        let limit = combined_weight(g, be, fe);
        let found = search_from(g, acc.0, g.edges[fe as int].dest_id, limit, MAX_HOPS as nat);
        (
            found.0,
            if found.1 > limit {
                count_up(acc.1)
            } else {
                acc.1
            },
        )
    } else {
        acc
    }
}

/// The same over the edges of `fwd_list` from number `k` on.
pub open spec fn count_pairs_from(
    g: GraphModel,
    u: usize,
    be: usize,
    fwd_list: Seq<usize>,
    k: int,
    acc: (SearchState, u64),
) -> (SearchState, u64)
    decreases fwd_list.len() - k,
{
    if 0 <= k < fwd_list.len() {
        count_pairs_from(g, u, be, fwd_list, k + 1, count_pair(g, u, be, fwd_list, k, acc))
    } else {
        acc
    }
}

/// The same over the edges of `bwd_list` from number `j` on: for each the
/// searcher starts anew from the edge's source, with `u` ignored.
pub open spec fn count_preds_from(
    g: GraphModel,
    u: usize,
    fwd_list: Seq<usize>,
    bwd_list: Seq<usize>,
    j: int,
    acc: (SearchState, u64),
) -> (SearchState, u64)
    decreases bwd_list.len() - j,
{
    if 0 <= j < bwd_list.len() {
        let be = bwd_list[j];
        let start = initial_state(acc.0.weights.len(), g.edges[be as int].src_id, u);
        count_preds_from(
            g,
            u,
            fwd_list,
            bwd_list,
            j + 1,
            count_pairs_from(g, u, be, fwd_list, 0, (start, acc.1)),
        )
    } else {
        acc
    }
}

/// The importance of node `u`: the number of pairs of an edge into `u` and
/// an edge out of `u` for which no witness is found, less the number of
/// edges into and out of `u`; and the searcher after the last search.
pub open spec fn importance(g: GraphModel, u: usize, st: SearchState) -> (SearchState, i128) {
    let counted = count_preds_from(g, u, g.fwd[u as int], g.bwd[u as int], 0, (st, 0));
    (counted.0, (counted.1 - (g.bwd[u as int].len() + g.fwd[u as int].len())) as i128)
}

/// The importance of a node in the graph as it stands.
pub fn rank_node(graph: &Graph, dijkstra: &mut Dijkstra, node_id: usize) -> (rank: i128)
    requires
        graph.wf(),
        old(dijkstra).wf(),
        old(dijkstra)@.weights.len() == graph.nodes@.len(),
        node_id < graph.nodes@.len(),
    ensures
        final(dijkstra).wf(),
        final(dijkstra)@.weights.len() == graph.nodes@.len(),
        (final(dijkstra)@, rank) == importance(graph@, node_id, old(dijkstra)@),
{
    let bwd_list = graph.get_bwd_neighbors(node_id);
    let fwd_list = graph.get_fwd_neighbors(node_id);
    let in_deg: usize = bwd_list.len();
    let out_deg: usize = fwd_list.len();
    let mut needed: u64 = 0;
    let mut j: usize = 0;
    while j < in_deg
        invariant
            j <= in_deg,
            in_deg == bwd_list@.len(),
            out_deg == fwd_list@.len(),
            bwd_list@ == graph@.bwd[node_id as int],
            fwd_list@ == graph@.fwd[node_id as int],
            graph.wf(),
            dijkstra.wf(),
            dijkstra@.weights.len() == graph.nodes@.len(),
            node_id < graph.nodes@.len(),
            count_preds_from(graph@, node_id, fwd_list@, bwd_list@, j as int, (dijkstra@, needed))
                == count_preds_from(
                graph@,
                node_id,
                fwd_list@,
                bwd_list@,
                0,
                (old(dijkstra)@, 0),
            ),
        decreases in_deg - j,
    {
        let bwd_id: usize = bwd_list[j];
        assert(graph.bwd(node_id as int)[j as int] == bwd_id);
        let bwd_edge = graph.get_edge(bwd_id);
        let w: usize = bwd_edge.src_id;
        dijkstra.init(w, node_id);
        let ghost start = (dijkstra@, needed);
        let mut k: usize = 0;
        while k < out_deg
            invariant
                k <= out_deg,
                out_deg == fwd_list@.len(),
                fwd_list@ == graph@.fwd[node_id as int],
                graph.wf(),
                dijkstra.wf(),
                dijkstra@.weights.len() == graph.nodes@.len(),
                node_id < graph.nodes@.len(),
                bwd_id < graph.edges@.len(),
                *bwd_edge == graph.edges@[bwd_id as int],
                w == bwd_edge.src_id,
                count_pairs_from(
                    graph@,
                    node_id,
                    bwd_id,
                    fwd_list@,
                    k as int,
                    (dijkstra@, needed),
                ) == count_pairs_from(graph@, node_id, bwd_id, fwd_list@, 0, start),
            decreases out_deg - k,
        {
            let fwd_id: usize = fwd_list[k];
            assert(graph.fwd(node_id as int)[k as int] == fwd_id);
            let fwd_edge = graph.get_edge(fwd_id);
            let v: usize = fwd_edge.dest_id;
            if v != w && v != node_id && w != node_id {
                let combined: u64 = add_weights(
                    graph.get_edge_metadata(bwd_edge).weight,
                    graph.get_edge_metadata(fwd_edge).weight,
                );
                let witness: u64 = dijkstra.search(graph, v, combined, MAX_HOPS);
                if witness > combined {
                    if needed < u64::MAX {
                        needed = needed + 1;
                    }
                }
            }
            k += 1;
        }
        j += 1;
    }
    needed as i128 - (in_deg as i128 + out_deg as i128)
}

/// The two graphs of a contraction and the searcher, as plain values.
pub struct Contraction {
    /// The graph that shrinks as nodes are contracted.
    pub graph: GraphModel,
    /// The graph that keeps every edge and gathers every shortcut.
    pub overlay: GraphModel,
    pub search: SearchState,
}

/// The two graphs hold the same edges and records under the same ids, over
/// the same number of nodes; they differ in adjacency and in ranks only.
pub open spec fn in_step(graph: GraphModel, overlay: GraphModel) -> bool {
    &&& graph.edges == overlay.edges
    &&& graph.metadata == overlay.metadata
    &&& graph.nodes.len() == overlay.nodes.len()
}

/// The state after the pair of `be` and edge number `k` of `fwd_list`:
/// when the witness search ends above the combined cost, both graphs get
/// the shortcut that packs the two edges.
pub open spec fn contract_pair(
    c: Contraction,
    u: usize,
    be: usize,
    fwd_list: Seq<usize>,
    k: int,
) -> Contraction {
    let fe = fwd_list[k];
    if is_pair(c.graph, u, be, fe) {
        let w = c.graph.edges[be as int].src_id;
        let v = c.graph.edges[fe as int].dest_id;
        let limit = combined_weight(c.graph, be, fe);
        let found = search_from(c.graph, c.search, v, limit, MAX_HOPS as nat);
        if found.1 > limit {
            Contraction {
                graph: c.graph.with_shortcut(w, v, limit, be, fe),
                overlay: c.overlay.with_shortcut(w, v, limit, be, fe),
                search: found.0,
            }
        } else {
            Contraction { search: found.0, ..c }
        }
    } else {
        c
    }
}

/// The same over the edges of `fwd_list` from number `k` on.
pub open spec fn contract_pairs_from(
    c: Contraction,
    u: usize,
    be: usize,
    fwd_list: Seq<usize>,
    k: int,
) -> Contraction
    decreases fwd_list.len() - k,
{
    if 0 <= k < fwd_list.len() {
        contract_pairs_from(contract_pair(c, u, be, fwd_list, k), u, be, fwd_list, k + 1)
    } else {
        c
    }
}

/// The same over the edges of `bwd_list` from number `j` on: for each the
/// searcher starts anew from the edge's source, with `u` ignored.
pub open spec fn contract_preds_from(
    c: Contraction,
    u: usize,
    fwd_list: Seq<usize>,
    bwd_list: Seq<usize>,
    j: int,
) -> Contraction
    decreases bwd_list.len() - j,
{
    if 0 <= j < bwd_list.len() {
        let be = bwd_list[j];
        let start = Contraction {
            search: initial_state(c.search.weights.len(), c.graph.edges[be as int].src_id, u),
            ..c
        };
        contract_preds_from(
            contract_pairs_from(start, u, be, fwd_list, 0),
            u,
            fwd_list,
            bwd_list,
            j + 1,
        )
    } else {
        c
    }
}

/// The state after the contraction of node `u`: every pair of an edge into
/// `u` and an edge out of `u`, as the lists at `u` hold them, has been
/// searched and, where no witness was found, bridged by a shortcut.
pub open spec fn contracted_node(c: Contraction, u: usize) -> Contraction {
    contract_preds_from(c, u, c.graph.fwd[u as int], c.graph.bwd[u as int], 0)
}

/// Edge `prev` leaves `w`, edge `next` enters `v`, the first ends where the
/// second starts, and `weight` is the sum of their costs.
pub open spec fn packs(g: GraphModel, w: usize, v: usize, weight: u64, prev: usize, next: usize) -> bool {
    &&& prev < g.edges.len()
    &&& next < g.edges.len()
    &&& g.edges[prev as int].src_id == w
    &&& g.edges[next as int].dest_id == v
    &&& g.edges[prev as int].dest_id == g.edges[next as int].src_id
    &&& weight == g.weight_of(prev as int) + g.weight_of(next as int)
}

/// Appends to `graph` a shortcut from `w` to `v` that packs the edges
/// `prev_edge_idx` and `next_edge_idx`.
pub fn add_shortcut(
    graph: &mut Graph,
    w: usize,
    v: usize,
    combined_weight: u64,
    prev_edge_idx: usize,
    next_edge_idx: usize,
)
    requires
        old(graph).wf(),
        w < old(graph).nodes@.len(),
        v < old(graph).nodes@.len(),
        combined_weight < INFINITY,
    ensures
        final(graph).wf(),
        final(graph)@ == old(graph)@.with_shortcut(
            w,
            v,
            combined_weight,
            prev_edge_idx,
            next_edge_idx,
        ),
        old(graph).complete() ==> final(graph).complete(),
        old(graph)@.shortcuts_sound() && packs(
            old(graph)@,
            w,
            v,
            combined_weight,
            prev_edge_idx,
            next_edge_idx,
        ) ==> final(graph)@.shortcuts_sound(),
        final(graph)@.extends(old(graph)@),
        final(graph)@.shortcuts_beyond(old(graph)@.edges.len()),
{
    let shortcut_metadata = EdgeMetadata {
        weight: combined_weight,
        speed_limit: None,
        name: None,
        is_one_way: true,
        is_roundabout: false,
        next_edge: Some(next_edge_idx),
        prev_edge: Some(prev_edge_idx),
    };
    let metadata_index: usize = graph.edge_metadata.len();
    graph.edge_metadata.push(shortcut_metadata);
    proof {
        assert(graph.fwd_edge_list == old(graph).fwd_edge_list);
        assert(graph.arrays_wf());
        assert(graph.adjacency_wf());
        assert(graph.coherent());
        if old(graph).complete() {
            assert forall|e: int| 0 <= e < graph.edges@.len() implies #[trigger] graph.is_live(e) by {
                assert(old(graph).is_live(e));
            }
        }
    }
    let _ = graph.add_shortcut_edge(w, v, metadata_index);
    proof {
        assert(graph.edges.len() <= usize::MAX);
        assert(graph.edge_metadata.len() <= usize::MAX);
        lemma_shortcut_is_beyond(
            old(graph)@,
            w,
            v,
            combined_weight,
            prev_edge_idx,
            next_edge_idx,
        );
        if old(graph)@.shortcuts_sound() && packs(
            old(graph)@,
            w,
            v,
            combined_weight,
            prev_edge_idx,
            next_edge_idx,
        ) {
            lemma_shortcut_keeps_sound(
                old(graph)@,
                w,
                v,
                combined_weight,
                prev_edge_idx,
                next_edge_idx,
            );
        }
    }
}

/// Contracts one node: for every edge into it from a node `w` and every
/// edge out of it to a node `v`, with `w`, `v` and the node all different,
/// searches a witness from `w` that avoids the node and, when none is found
/// within the combined cost, adds the shortcut from `w` to `v` to both
/// graphs.
pub fn contract_node(graph: &mut Graph, overlay: &mut Graph, dijkstra: &mut Dijkstra, node_id: usize)
    requires
        old(graph).wf(),
        old(overlay).wf(),
        in_step(old(graph)@, old(overlay)@),
        old(dijkstra).wf(),
        old(dijkstra)@.weights.len() == old(graph).nodes@.len(),
        node_id < old(graph).nodes@.len(),
    ensures
        final(graph).wf(),
        final(overlay).wf(),
        in_step(final(graph)@, final(overlay)@),
        final(dijkstra).wf(),
        final(dijkstra)@.weights.len() == final(graph).nodes@.len(),
        (Contraction { graph: final(graph)@, overlay: final(overlay)@, search: final(dijkstra)@ })
            == contracted_node(
            Contraction { graph: old(graph)@, overlay: old(overlay)@, search: old(dijkstra)@ },
            node_id,
        ),
        final(graph)@.extends(old(graph)@),
        final(overlay)@.extends(old(overlay)@),
        final(graph)@.nodes == old(graph)@.nodes,
        final(overlay)@.nodes == old(overlay)@.nodes,
        final(graph)@.fwd[node_id as int] == old(graph)@.fwd[node_id as int],
        final(graph)@.bwd[node_id as int] == old(graph)@.bwd[node_id as int],
        old(overlay)@.shortcuts_sound() ==> final(overlay)@.shortcuts_sound(),
        old(overlay).complete() ==> final(overlay).complete(),
        final(overlay)@.shortcuts_beyond(old(overlay)@.edges.len()),
{
    let fwd_indices: Vec<usize> = copy_ids(graph.get_fwd_neighbors(node_id));
    let bwd_indices: Vec<usize> = copy_ids(graph.get_bwd_neighbors(node_id));
    let ghost g0 = graph@;
    let ghost o0 = overlay@;
    let ghost c0 = Contraction { graph: graph@, overlay: overlay@, search: dijkstra@ };
    let in_deg: usize = bwd_indices.len();
    let out_deg: usize = fwd_indices.len();
    let mut j: usize = 0;
    while j < in_deg
        invariant
            j <= in_deg,
            in_deg == bwd_indices@.len(),
            out_deg == fwd_indices@.len(),
            old(graph).wf(),
            g0 == old(graph)@,
            o0 == old(overlay)@,
            fwd_indices@ == g0.fwd[node_id as int],
            bwd_indices@ == g0.bwd[node_id as int],
            graph.wf(),
            overlay.wf(),
            in_step(graph@, overlay@),
            dijkstra.wf(),
            dijkstra@.weights.len() == graph.nodes@.len(),
            node_id < graph.nodes@.len(),
            graph@.extends(g0),
            overlay@.extends(o0),
            graph@.nodes == g0.nodes,
            overlay@.nodes == o0.nodes,
            graph@.fwd[node_id as int] == g0.fwd[node_id as int],
            graph@.bwd[node_id as int] == g0.bwd[node_id as int],
            o0.shortcuts_sound() ==> overlay@.shortcuts_sound(),
            old(overlay).complete() ==> overlay.complete(),
            overlay@.shortcuts_beyond(o0.edges.len()),
            contract_preds_from(
                Contraction { graph: graph@, overlay: overlay@, search: dijkstra@ },
                node_id,
                fwd_indices@,
                bwd_indices@,
                j as int,
            ) == contract_preds_from(c0, node_id, fwd_indices@, bwd_indices@, 0),
        decreases in_deg - j,
    {
        let bwd_edge_index: usize = bwd_indices[j];
        assert(old(graph).bwd(node_id as int)[j as int] == bwd_edge_index);
        let bwd_edge = *graph.get_edge(bwd_edge_index);
        let w: usize = bwd_edge.src_id;
        dijkstra.init(w, node_id);
        let ghost start = Contraction { graph: graph@, overlay: overlay@, search: dijkstra@ };
        let mut k: usize = 0;
        while k < out_deg
            invariant
                k <= out_deg,
                out_deg == fwd_indices@.len(),
                old(graph).wf(),
                g0 == old(graph)@,
                o0 == old(overlay)@,
                fwd_indices@ == g0.fwd[node_id as int],
                graph.wf(),
                overlay.wf(),
                in_step(graph@, overlay@),
                dijkstra.wf(),
                dijkstra@.weights.len() == graph.nodes@.len(),
                node_id < graph.nodes@.len(),
                graph@.extends(g0),
                overlay@.extends(o0),
                graph@.nodes == g0.nodes,
                overlay@.nodes == o0.nodes,
                graph@.fwd[node_id as int] == g0.fwd[node_id as int],
                graph@.bwd[node_id as int] == g0.bwd[node_id as int],
                o0.shortcuts_sound() ==> overlay@.shortcuts_sound(),
                old(overlay).complete() ==> overlay.complete(),
                overlay@.shortcuts_beyond(o0.edges.len()),
                bwd_edge_index < g0.edges.len(),
                bwd_edge == g0.edges[bwd_edge_index as int],
                bwd_edge.dest_id == node_id,
                w == bwd_edge.src_id,
                contract_pairs_from(
                    Contraction { graph: graph@, overlay: overlay@, search: dijkstra@ },
                    node_id,
                    bwd_edge_index,
                    fwd_indices@,
                    k as int,
                ) == contract_pairs_from(start, node_id, bwd_edge_index, fwd_indices@, 0),
            decreases out_deg - k,
        {
            let fwd_edge_index: usize = fwd_indices[k];
            assert(old(graph).fwd(node_id as int)[k as int] == fwd_edge_index);
            assert(graph@.edges[fwd_edge_index as int] == g0.edges[fwd_edge_index as int]);
            assert(graph@.edges[bwd_edge_index as int] == g0.edges[bwd_edge_index as int]);
            let fwd_edge = *graph.get_edge(fwd_edge_index);
            let v: usize = fwd_edge.dest_id;
            if v != w && v != node_id && w != node_id {
                let combined_weight: u64 = add_weights(
                    graph.get_edge_metadata(&bwd_edge).weight,
                    graph.get_edge_metadata(&fwd_edge).weight,
                );
                let witness_weight: u64 = dijkstra.search(graph, v, combined_weight, MAX_HOPS);
                if witness_weight > combined_weight {
                    let ghost before_shortcut = overlay@;
                    add_shortcut(overlay, w, v, combined_weight, bwd_edge_index, fwd_edge_index);
                    add_shortcut(graph, w, v, combined_weight, bwd_edge_index, fwd_edge_index);
                    proof {
                        assert(graph@.edges =~= overlay@.edges);
                        assert(graph@.metadata =~= overlay@.metadata);
                        lemma_beyond_compose(before_shortcut, overlay@, o0.edges.len());
                    }
                }
            }
            k += 1;
        }
        j += 1;
    }
}

/// The state of the preprocessing as plain values: the two graphs, the
/// searcher, and the queue of the nodes that are not contracted yet, each
/// under its importance.
pub struct Preprocessing {
    pub graph: GraphModel,
    pub overlay: GraphModel,
    pub search: SearchState,
    pub queue: Map<usize, (i128, usize)>,
}

/// The level one above `rank`; the highest level is its own successor.
pub open spec fn next_level(rank: i32) -> i32 {
    if rank < i32::MAX {
        (rank + 1) as i32
    } else {
        rank
    }
}

/// The queued node that is contracted next: the one of least importance,
/// and among those the one of least dense id.
pub open spec fn least_node(queue: Map<usize, (i128, usize)>) -> usize {
    choose|u: usize| is_least_entry(queue, (u, queue[u]))
}

/// The state after the nodes from `i` on have been ranked and queued, in
/// dense order.
pub open spec fn rank_all_from(p: Preprocessing, i: int) -> Preprocessing
    decreases p.graph.nodes.len() - i,
{
    if 0 <= i < p.graph.nodes.len() {
        let ranked = importance(p.graph, i as usize, p.search);
        rank_all_from(
            Preprocessing {
                search: ranked.0,
                queue: p.queue.insert(i as usize, (ranked.1, i as usize)),
                ..p
            },
            i + 1,
        )
    } else {
        p
    }
}

/// The state after the neighbour of `u` over edge number `k` of `list` has
/// had its rank raised to `level` in the overlay and its importance
/// computed anew; its place in the queue follows, if it is still queued.
pub open spec fn rerank_neighbor(
    p: Preprocessing,
    u: usize,
    list: Seq<usize>,
    k: int,
    level: i32,
) -> Preprocessing {
    let edge = p.graph.edges[list[k] as int];
    let neighbor = if edge.src_id == u {
        edge.dest_id
    } else {
        edge.src_id
    };
    let ranked = importance(p.graph, neighbor, p.search);
    Preprocessing {
        overlay: p.overlay.raise_rank(neighbor, level),
        search: ranked.0,
        queue: if p.queue.contains_key(neighbor) {
            p.queue.insert(neighbor, (ranked.1, neighbor))
        } else {
            p.queue
        },
        ..p
    }
}

/// The same over the edges of `list` from number `k` on.
pub open spec fn rerank_from(
    p: Preprocessing,
    u: usize,
    list: Seq<usize>,
    k: int,
    level: i32,
) -> Preprocessing
    decreases list.len() - k,
{
    if 0 <= k < list.len() {
        rerank_from(rerank_neighbor(p, u, list, k, level), u, list, k + 1, level)
    } else {
        p
    }
}

/// The state after one round: the least queued node `u` leaves the queue
/// and is contracted; its neighbours in the shrinking graph, first over the
/// edges into `u`, then over the edges out of it, are raised above the
/// rank of `u` and ranked anew; then the edges at `u` leave the shrinking
/// graph.
pub open spec fn contract_round(p: Preprocessing) -> Preprocessing {
    let u = least_node(p.queue);
    let level = next_level(p.overlay.nodes[u as int].rank);
    let c = contracted_node(
        Contraction { graph: p.graph, overlay: p.overlay, search: p.search },
        u,
    );
    let contracted = Preprocessing {
        graph: c.graph,
        overlay: c.overlay,
        search: c.search,
        queue: p.queue.remove(u),
    };
    let after_bwd = rerank_from(contracted, u, contracted.graph.bwd[u as int], 0, level);
    let after_fwd = rerank_from(after_bwd, u, contracted.graph.fwd[u as int], 0, level);
    Preprocessing { graph: after_fwd.graph.remove_incident(u), ..after_fwd }
}

/// The state after at most `rounds` rounds, or when the queue is empty.
pub open spec fn contract_rounds(p: Preprocessing, rounds: nat) -> Preprocessing
    decreases rounds,
{
    if rounds == 0 || p.queue == no_entries() {
        p
    } else {
        contract_rounds(contract_round(p), (rounds - 1) as nat)
    }
}

/// The state in which the preprocessing ends: every node is ranked and
/// queued, then one node is contracted per round until none is left.
pub open spec fn contracted(graph: GraphModel, overlay: GraphModel, search: SearchState) -> Preprocessing {
    contract_rounds(
        rank_all_from(Preprocessing { graph, overlay, search, queue: no_entries() }, 0),
        graph.nodes.len(),
    )
}

/// Every queued node is a node of the graph and queued under its own id.
pub open spec fn queue_wf(queue: Map<usize, (i128, usize)>, num_nodes: nat) -> bool {
    forall|u: usize| #[trigger] queue.contains_key(u) ==> u < num_nodes && queue[u].1 == u
}

/// Only one queued node can be the least.
pub proof fn lemma_least_node_unique(queue: Map<usize, (i128, usize)>, num_nodes: nat, u: usize)
    requires
        queue_wf(queue, num_nodes),
        is_least_entry(queue, (u, queue[u])),
    ensures
        least_node(queue) == u,
{
    let m = least_node(queue);
    assert(is_least_entry(queue, (m, queue[m])));
    assert(queue.contains_key(m));
    assert(queue.contains_key(u));
}

/// The queued nodes are finitely many, no more than the graph has nodes.
pub proof fn lemma_queue_bounded(queue: Map<usize, (i128, usize)>, num_nodes: nat)
    requires
        queue_wf(queue, num_nodes),
        num_nodes <= usize::MAX,
    ensures
        queue.dom().finite(),
        queue.dom().len() <= num_nodes,
{
    let all = Set::new(|u: usize| u < num_nodes);
    assert(all =~= vstd::set_lib::set_int_range(0, num_nodes as int).map(|i: int| i as usize)) by {
        assert forall|u: usize| all.contains(u) implies vstd::set_lib::set_int_range(
            0,
            num_nodes as int,
        ).map(|i: int| i as usize).contains(u) by {
            assert(vstd::set_lib::set_int_range(0, num_nodes as int).contains(u as int));
        }
    }
    vstd::set_lib::lemma_int_range(0, num_nodes as int);
    vstd::set_lib::lemma_map_size_bound(
        vstd::set_lib::set_int_range(0, num_nodes as int),
        all,
        |i: int| i as usize,
    );
    assert(queue.dom().subset_of(all));
    vstd::set_lib::lemma_len_subset(queue.dom(), all);
}

/// Raises the neighbours of `u` over the edges of `list` to `level` in the
/// overlay and ranks them anew in the shrinking graph.
fn rerank_neighbors(
    graph: &Graph,
    overlay: &mut Graph,
    dijkstra: &mut Dijkstra,
    queue: &mut MinQueue,
    u: usize,
    list: &Vec<usize>,
    level: i32,
)
    requires
        graph.wf(),
        old(overlay).wf(),
        in_step(graph@, old(overlay)@),
        old(dijkstra).wf(),
        old(dijkstra)@.weights.len() == graph.nodes@.len(),
        queue_wf(queue_entries(*old(queue)), graph.nodes@.len()),
        forall|k: int| 0 <= k < list@.len() ==> #[trigger] list@[k] < graph.edges@.len(),
    ensures
        final(overlay).wf(),
        in_step(graph@, final(overlay)@),
        final(dijkstra).wf(),
        final(dijkstra)@.weights.len() == graph.nodes@.len(),
        queue_wf(queue_entries(*final(queue)), graph.nodes@.len()),
        queue_entries(*final(queue)).dom() == queue_entries(*old(queue)).dom(),
        (Preprocessing {
            graph: graph@,
            overlay: final(overlay)@,
            search: final(dijkstra)@,
            queue: queue_entries(*final(queue)),
        }) == rerank_from(
            Preprocessing {
                graph: graph@,
                overlay: old(overlay)@,
                search: old(dijkstra)@,
                queue: queue_entries(*old(queue)),
            },
            u,
            list@,
            0,
            level,
        ),
        final(overlay)@.fwd == old(overlay)@.fwd,
        final(overlay)@.bwd == old(overlay)@.bwd,
        final(overlay).complete() == old(overlay).complete(),
        final(overlay)@.edges == old(overlay)@.edges,
        final(overlay)@.metadata == old(overlay)@.metadata,
        old(overlay)@.shortcuts_sound() ==> final(overlay)@.shortcuts_sound(),
{
    let ghost start = Preprocessing {
        graph: graph@,
        overlay: overlay@,
        search: dijkstra@,
        queue: queue_entries(*queue),
    };
    let n: usize = list.len();
    let mut k: usize = 0;
    while k < n
        invariant
            k <= n,
            n == list@.len(),
            graph.wf(),
            overlay.wf(),
            in_step(graph@, overlay@),
            dijkstra.wf(),
            dijkstra@.weights.len() == graph.nodes@.len(),
            queue_wf(queue_entries(*queue), graph.nodes@.len()),
            queue_entries(*queue).dom() == queue_entries(*old(queue)).dom(),
            forall|i: int| 0 <= i < list@.len() ==> #[trigger] list@[i] < graph.edges@.len(),
            overlay.fwd_edge_list == old(overlay).fwd_edge_list,
            overlay.bwd_edge_list == old(overlay).bwd_edge_list,
            overlay.edges == old(overlay).edges,
            overlay.edge_metadata == old(overlay).edge_metadata,
            rerank_from(
                Preprocessing {
                    graph: graph@,
                    overlay: overlay@,
                    search: dijkstra@,
                    queue: queue_entries(*queue),
                },
                u,
                list@,
                k as int,
                level,
            ) == rerank_from(start, u, list@, 0, level),
        decreases n - k,
    {
        let ghost before = Preprocessing {
            graph: graph@,
            overlay: overlay@,
            search: dijkstra@,
            queue: queue_entries(*queue),
        };
        let edge = graph.get_edge(list[k]);
        let neighbor_id: usize = if edge.src_id == u {
            edge.dest_id
        } else {
            edge.src_id
        };
        overlay.get_node_mut(neighbor_id).raise_rank(level);
        let rank: i128 = rank_node(graph, dijkstra, neighbor_id);
        let _ = queue_change_priority(queue, neighbor_id, (rank, neighbor_id));
        proof {
            let after = rerank_neighbor(before, u, list@, k as int, level);
            assert(overlay@.nodes =~= after.overlay.nodes);
            assert(overlay@ == after.overlay);
            assert(queue_entries(*queue).dom() =~= before.queue.dom());
        }
        k += 1;
    }
    proof {
        assert(overlay@.fwd =~= old(overlay)@.fwd);
        assert(overlay@.bwd =~= old(overlay)@.bwd);
        if old(overlay)@.shortcuts_sound() {
            assert forall|e: int| 0 <= e < overlay@.edges.len() implies #[trigger] overlay@.shortcut_sound(
                e,
            ) by {
                assert(old(overlay)@.shortcut_sound(e));
            }
        }
        if old(overlay).complete() {
            assert forall|e: int| 0 <= e < overlay.edges@.len() implies #[trigger] overlay.is_live(
                e,
            ) by {
                assert(old(overlay).is_live(e));
            }
        }
        if overlay.complete() {
            assert forall|e: int| 0 <= e < old(overlay).edges@.len() implies #[trigger] old(
                overlay,
            ).is_live(e) by {
                assert(overlay.is_live(e));
            }
        }
    }
}

/// Preprocesses the graph: ranks every node, then contracts the nodes one
/// by one, the least important first and among equals the one of least
/// dense id. `graph` is used up; `overlay`, which must start out as a copy
/// of it, ends as the graph of the hierarchy: every edge it had, every
/// shortcut, and the final rank of every node.
pub fn contract_graph(graph: Graph, overlay: &mut Graph, dijkstra: &mut Dijkstra)
    requires
        graph.wf(),
        old(overlay).wf(),
        in_step(graph@, old(overlay)@),
        old(dijkstra).wf(),
        old(dijkstra)@.weights.len() == graph.nodes@.len(),
    ensures
        final(overlay).wf(),
        final(dijkstra).wf(),
        final(dijkstra)@.weights.len() == graph.nodes@.len(),
        final(overlay)@ == contracted(graph@, old(overlay)@, old(dijkstra)@).overlay,
        final(dijkstra)@ == contracted(graph@, old(overlay)@, old(dijkstra)@).search,
        final(overlay)@.extends(old(overlay)@),
        old(overlay)@.shortcuts_sound() ==> final(overlay)@.shortcuts_sound(),
        old(overlay).complete() ==> final(overlay).complete(),
        final(overlay)@.shortcuts_beyond(old(overlay)@.edges.len()),
{
    let mut shrinking = graph;
    let n: usize = shrinking.num_nodes();
    let mut queue = queue_new();
    let ghost p0 = Preprocessing {
        graph: shrinking@,
        overlay: overlay@,
        search: dijkstra@,
        queue: no_entries(),
    };
    let mut i: usize = 0;
    while i < n
        invariant
            i <= n,
            n == shrinking.nodes@.len(),
            shrinking@ == graph@,
            shrinking.wf(),
            dijkstra.wf(),
            dijkstra@.weights.len() == shrinking.nodes@.len(),
            queue_wf(queue_entries(queue), n as nat),
            *overlay == *old(overlay),
            p0 == (Preprocessing {
                graph: graph@,
                overlay: old(overlay)@,
                search: old(dijkstra)@,
                queue: no_entries(),
            }),
            rank_all_from(
                Preprocessing {
                    graph: shrinking@,
                    overlay: overlay@,
                    search: dijkstra@,
                    queue: queue_entries(queue),
                },
                i as int,
            ) == rank_all_from(p0, 0),
        decreases n - i,
    {
        let rank: i128 = rank_node(&shrinking, dijkstra, i);
        let _ = queue_push(&mut queue, i, (rank, i));
        i += 1;
    }
    let ghost ranked = Preprocessing {
        graph: shrinking@,
        overlay: overlay@,
        search: dijkstra@,
        queue: queue_entries(queue),
    };
    let ghost mut rounds_left: nat = n as nat;
    proof {
        lemma_queue_bounded(queue_entries(queue), n as nat);
    }
    loop
        invariant
            n == shrinking.nodes@.len(),
            n == graph.nodes@.len(),
            ranked == rank_all_from(
                Preprocessing {
                    graph: graph@,
                    overlay: old(overlay)@,
                    search: old(dijkstra)@,
                    queue: no_entries(),
                },
                0,
            ),
            shrinking.wf(),
            overlay.wf(),
            in_step(shrinking@, overlay@),
            dijkstra.wf(),
            dijkstra@.weights.len() == shrinking.nodes@.len(),
            queue_wf(queue_entries(queue), n as nat),
            queue_entries(queue).dom().finite(),
            queue_entries(queue).dom().len() <= rounds_left,
            overlay@.extends(old(overlay)@),
            old(overlay)@.shortcuts_sound() ==> overlay@.shortcuts_sound(),
            old(overlay).complete() ==> overlay.complete(),
            overlay@.shortcuts_beyond(old(overlay)@.edges.len()),
            contract_rounds(
                Preprocessing {
                    graph: shrinking@,
                    overlay: overlay@,
                    search: dijkstra@,
                    queue: queue_entries(queue),
                },
                rounds_left,
            ) == contract_rounds(ranked, n as nat),
        decreases rounds_left,
    {
        let ghost before = Preprocessing {
            graph: shrinking@,
            overlay: overlay@,
            search: dijkstra@,
            queue: queue_entries(queue),
        };
        match queue_pop(&mut queue) {
            None => {
                return ;
            },
            Some((contracted_id, _)) => {
                proof {
                    assert(before.queue.contains_key(contracted_id));
                    lemma_least_node_unique(before.queue, n as nat, contracted_id);
                    assert(before.queue != no_entries());
                }
                let neighbor_rank: i32 = raised_level(overlay.get_node(contracted_id).get_rank());
                let ghost before_node = overlay@;
                contract_node(&mut shrinking, overlay, dijkstra, contracted_id);
                let ghost after_node = overlay@;
                proof {
                    lemma_beyond_compose(before_node, after_node, old(overlay)@.edges.len());
                }
                let bwd_neighbors: Vec<usize> = copy_ids(shrinking.get_bwd_neighbors(contracted_id));
                let fwd_neighbors: Vec<usize> = copy_ids(shrinking.get_fwd_neighbors(contracted_id));
                proof {
                    assert forall|k: int| 0 <= k < bwd_neighbors@.len() implies #[trigger] bwd_neighbors@[k]
                        < shrinking.edges@.len() by {
                        assert(shrinking.bwd(contracted_id as int)[k] < shrinking.edges@.len());
                    }
                    assert forall|k: int| 0 <= k < fwd_neighbors@.len() implies #[trigger] fwd_neighbors@[k]
                        < shrinking.edges@.len() by {
                        assert(shrinking.fwd(contracted_id as int)[k] < shrinking.edges@.len());
                    }
                }
                rerank_neighbors(
                    &shrinking,
                    overlay,
                    dijkstra,
                    &mut queue,
                    contracted_id,
                    &bwd_neighbors,
                    neighbor_rank,
                );
                rerank_neighbors(
                    &shrinking,
                    overlay,
                    dijkstra,
                    &mut queue,
                    contracted_id,
                    &fwd_neighbors,
                    neighbor_rank,
                );
                shrinking.remove_incident(contracted_id);
                proof {
                    assert(overlay@.extends(after_node));
                    assert(overlay@.shortcuts_beyond(after_node.edges.len()));
                    lemma_beyond_compose(after_node, overlay@, old(overlay)@.edges.len());
                    assert(queue_entries(queue).dom() =~= before.queue.dom().remove(contracted_id));
                    rounds_left = (rounds_left - 1) as nat;
                    assert(Preprocessing {
                        graph: shrinking@,
                        overlay: overlay@,
                        search: dijkstra@,
                        queue: queue_entries(queue),
                    } == contract_round(before));
                }
            },
        }
    }
}

/// The level one above `rank`; the highest level is its own successor.
fn raised_level(rank: i32) -> (level: i32)
    ensures
        level == next_level(rank),
{
    if rank < i32::MAX {
        rank + 1
    } else {
        rank
    }
}

/// The hierarchy of a graph: a copy of it that the contraction has filled
/// with shortcuts and final ranks. It keeps every edge of the graph in its
/// adjacency lists, and its shortcuts are sound if those of the graph are.
pub fn build_overlay(graph: Graph) -> (overlay: Graph)
    requires
        graph.wf(),
    ensures
        overlay.wf(),
        overlay@.extends(graph@),
        graph@.shortcuts_sound() ==> overlay@.shortcuts_sound(),
        graph.complete() ==> overlay.complete(),
        overlay@.shortcuts_beyond(graph@.edges.len()),
        overlay@ == contracted(
            graph@,
            graph@,
            SearchState {
                src: 0,
                ignore: 0,
                weights: Seq::new(graph.nodes@.len(), |i: int| INFINITY),
                queued: Set::<usize>::empty(),
            },
        ).overlay,
{
    let mut overlay = graph.duplicate();
    let mut dijkstra = Dijkstra::new(overlay.num_nodes());
    contract_graph(graph, &mut overlay, &mut dijkstra);
    overlay
}

} // verus!
