//! What the contraction of all nodes leaves behind: a hierarchy in which
//! every chain of edges of the graph has beside it a way up and down that
//! costs no more: a chain that climbs from the start to some node and a
//! chain that descends from there to the end.
use crate::ch_preprocess::{
    contract_round, contract_rounds, contracted, contracted_node, count_pair, count_pairs_from,
    count_preds_from, importance, is_pair, least_node, next_level, rank_all_from,
    rerank_from, rerank_neighbor, Contraction, Preprocessing, MAX_HOPS,
};
use crate::contraction_lemmas::{
    coherent, enter, grows_from, leave, lemma_bypass, lemma_contracted_node, lemma_preds_size,
    lemma_live_parts, same_at, twin_ok, within,
};
use crate::graph::{GraphModel, INFINITY};
use crate::query_lemmas::lemma_nodes_bounded;
use crate::query_optimal::climbs;
use crate::queue::{entry_le, is_least_entry, no_entries};
use crate::seq_lemmas::{lemma_filter_member, lemma_filter_none};
use crate::walks::{
    is_chain, lemma_chain_concat, lemma_chain_split, lemma_weight_concat, lemma_weight_one,
    lemma_weight_parts, lemma_weight_positive, total_weight,
};
use crate::witness_lemmas::{
    all_live, avoids, lemma_initial_search_inv, lemma_search_real, lists_ok, live, search_inv,
};
use crate::witness_search::{initial_state, SearchState};
use vstd::prelude::*;

verus! {

/// Counting over one pair keeps the searcher sized for the graph and what
/// it knows real.
pub proof fn lemma_count_pair_sized(
    g: GraphModel,
    u: usize,
    be: usize,
    fwd_list: Seq<usize>,
    k: int,
    acc: (SearchState, u64),
    paths: Seq<Seq<usize>>,
) -> (after: Seq<Seq<usize>>)
    requires
        lists_ok(g),
        u < g.nodes.len(),
        be < g.edges.len(),
        0 <= k < fwd_list.len(),
        leave(g, fwd_list, u),
        acc.0.weights.len() == g.nodes.len(),
        acc.0.src == g.edges[be as int].src_id,
        acc.0.ignore == u,
        acc.0.src != u ==> search_inv(g, acc.0, paths),
    ensures
        count_pair(g, u, be, fwd_list, k, acc).0.weights.len() == g.nodes.len(),
        count_pair(g, u, be, fwd_list, k, acc).0.src == acc.0.src,
        count_pair(g, u, be, fwd_list, k, acc).0.ignore == u,
        acc.0.src != u ==> search_inv(g, count_pair(g, u, be, fwd_list, k, acc).0, after),
{
    let fe = fwd_list[k];
    if is_pair(g, u, be, fe) {
        let limit = crate::ch_preprocess::combined_weight(g, be, fe);
        lemma_search_real(g, acc.0, g.edges[fe as int].dest_id, limit, MAX_HOPS as nat, paths)
    } else {
        paths
    }
}

/// Counting over the pairs of one edge keeps the searcher sized for the
/// graph.
pub proof fn lemma_count_pairs_sized(
    g: GraphModel,
    u: usize,
    be: usize,
    fwd_list: Seq<usize>,
    k: int,
    acc: (SearchState, u64),
    paths: Seq<Seq<usize>>,
)
    requires
        lists_ok(g),
        u < g.nodes.len(),
        be < g.edges.len(),
        0 <= k,
        leave(g, fwd_list, u),
        acc.0.weights.len() == g.nodes.len(),
        acc.0.src == g.edges[be as int].src_id,
        acc.0.ignore == u,
        acc.0.src != u ==> search_inv(g, acc.0, paths),
    ensures
        count_pairs_from(g, u, be, fwd_list, k, acc).0.weights.len() == g.nodes.len(),
    decreases fwd_list.len() - k,
{
    if k < fwd_list.len() {
        let next = lemma_count_pair_sized(g, u, be, fwd_list, k, acc, paths);
        lemma_count_pairs_sized(
            g,
            u,
            be,
            fwd_list,
            k + 1,
            count_pair(g, u, be, fwd_list, k, acc),
            next,
        );
    }
}

/// Counting over the edges into a node keeps the searcher sized for the
/// graph.
pub proof fn lemma_count_preds_sized(
    g: GraphModel,
    u: usize,
    fwd_list: Seq<usize>,
    bwd_list: Seq<usize>,
    j: int,
    acc: (SearchState, u64),
)
    requires
        lists_ok(g),
        u < g.nodes.len(),
        0 <= j,
        leave(g, fwd_list, u),
        enter(g, bwd_list, u),
        acc.0.weights.len() == g.nodes.len(),
    ensures
        count_preds_from(g, u, fwd_list, bwd_list, j, acc).0.weights.len() == g.nodes.len(),
    decreases bwd_list.len() - j,
{
    if j < bwd_list.len() {
        let be = bwd_list[j];
        let w = g.edges[be as int].src_id;
        let start = initial_state(acc.0.weights.len(), w, u);
        let paths = if w != u {
            lemma_initial_search_inv(g, w, u)
        } else {
            Seq::empty()
        };
        lemma_count_pairs_sized(g, u, be, fwd_list, 0, (start, acc.1), paths);
        lemma_count_preds_sized(
            g,
            u,
            fwd_list,
            bwd_list,
            j + 1,
            count_pairs_from(g, u, be, fwd_list, 0, (start, acc.1)),
        );
    }
}

/// Ranking a node keeps the searcher sized for the graph.
pub proof fn lemma_importance_sized(g: GraphModel, u: usize, st: SearchState)
    requires
        lists_ok(g),
        coherent(g),
        u < g.nodes.len(),
        st.weights.len() == g.nodes.len(),
    ensures
        importance(g, u, st).0.weights.len() == g.nodes.len(),
{
    assert(leave(g, g.fwd[u as int], u));
    assert(enter(g, g.bwd[u as int], u)) by {
        assert forall|k: int| 0 <= k < g.bwd[u as int].len() implies (#[trigger] g.bwd[u as int][k])
            < g.edges.len() && g.edges[g.bwd[u as int][k] as int].dest_id == u && live(
            g,
            g.bwd[u as int][k],
        ) by {
            assert(g.bwd[u as int].contains(g.bwd[u as int][k]));
        }
    }
    lemma_count_preds_sized(g, u, g.fwd[u as int], g.bwd[u as int], 0, (st, 0));
}

/// The node at the other end of edge `e` of node `u`.
pub open spec fn other_end(g: GraphModel, e: usize, u: usize) -> usize {
    if g.edges[e as int].src_id == u {
        g.edges[e as int].dest_id
    } else {
        g.edges[e as int].src_id
    }
}

/// `after` is `before` with some ranks raised to `level`: nothing else has
/// changed, no rank has fallen, and the nodes of `keep` have their ranks.
pub open spec fn ranks_raised(
    after: GraphModel,
    before: GraphModel,
    level: i32,
    keep: Set<usize>,
) -> bool {
    &&& after.edges == before.edges
    &&& after.metadata == before.metadata
    &&& after.fwd == before.fwd
    &&& after.bwd == before.bwd
    &&& after.nodes.len() == before.nodes.len()
    &&& forall|x: int|
        0 <= x < before.nodes.len() ==> {
            &&& (#[trigger] after.nodes[x]).rank >= before.nodes[x].rank
            &&& after.nodes[x].rank == before.nodes[x].rank || after.nodes[x].rank == level
            &&& keep.contains(x as usize) ==> after.nodes[x].rank == before.nodes[x].rank
        }
}

/// The queue holds nodes of the graph, each under its own id, and none of
/// the nodes of `done`.
pub open spec fn queue_ok(queue: Map<usize, (i128, usize)>, n: nat, done: Set<usize>) -> bool {
    forall|x: usize| #[trigger]
        queue.contains_key(x) ==> x < n && queue[x].1 == x && !done.contains(x)
}

/// What ranking the neighbours of `u` anew leaves behind: the shrinking
/// graph as it was, the overlay with some ranks raised, the neighbours at
/// the new level, the queue with the nodes that it had.
pub proof fn lemma_rerank(
    p: Preprocessing,
    u: usize,
    list: Seq<usize>,
    k: int,
    level: i32,
    done: Set<usize>,
)
    requires
        lists_ok(p.graph),
        coherent(p.graph),
        u < p.graph.nodes.len(),
        p.overlay.nodes.len() == p.graph.nodes.len(),
        p.search.weights.len() == p.graph.nodes.len(),
        0 <= k,
        forall|i: int| 0 <= i < list.len() ==> (#[trigger] list[i]) < p.graph.edges.len(),
        forall|i: int| 0 <= i < list.len() ==> !done.contains(other_end(p.graph, #[trigger] list[i], u)),
        queue_ok(p.queue, p.graph.nodes.len(), done),
    ensures
        ({
            let end = rerank_from(p, u, list, k, level);
            &&& end.graph == p.graph
            &&& ranks_raised(end.overlay, p.overlay, level, done)
            &&& end.search.weights.len() == p.graph.nodes.len()
            &&& end.queue.dom() == p.queue.dom()
            &&& queue_ok(end.queue, p.graph.nodes.len(), done)
            &&& forall|i: int|
                k <= i < list.len() ==> end.overlay.nodes[other_end(p.graph, #[trigger] list[i], u) as int].rank
                    >= level
        }),
    decreases list.len() - k,
{
    if k < list.len() {
        let next = rerank_neighbor(p, u, list, k, level);
        let end = rerank_from(p, u, list, k, level);
        let neighbor = other_end(p.graph, list[k], u);
        assert(neighbor < p.graph.nodes.len());
        lemma_importance_sized(p.graph, neighbor, p.search);
        assert(next.queue.dom() =~= p.queue.dom());
        assert(ranks_raised(next.overlay, p.overlay, level, done));
        lemma_rerank(next, u, list, k + 1, level, done);
        assert forall|x: int| 0 <= x < p.overlay.nodes.len() implies {
            &&& (#[trigger] end.overlay.nodes[x]).rank >= p.overlay.nodes[x].rank
            &&& end.overlay.nodes[x].rank == p.overlay.nodes[x].rank || end.overlay.nodes[x].rank
                == level
            &&& done.contains(x as usize) ==> end.overlay.nodes[x].rank == p.overlay.nodes[x].rank
        } by {
            assert(end.overlay.nodes[x].rank >= next.overlay.nodes[x].rank);
            assert(next.overlay.nodes[x].rank >= p.overlay.nodes[x].rank);
        }
        assert(end.overlay.nodes[neighbor as int].rank >= next.overlay.nodes[neighbor as int].rank);
    }
}

/// Among finitely many queued nodes one is the least.
pub proof fn lemma_least_entry_below(queue: Map<usize, (i128, usize)>, k: nat) -> (least: Option<
    usize,
>)
    ensures
        least.is_none() ==> forall|x: usize| x < k ==> !queue.contains_key(x),
        least.is_some() ==> queue.contains_key(least.unwrap()) && least.unwrap() < k && forall|
            x: usize,
        |
            x < k && #[trigger] queue.contains_key(x) ==> entry_le(queue[least.unwrap()], queue[x]),
    decreases k,
{
    if k == 0 {
        None
    } else {
        let below = lemma_least_entry_below(queue, (k - 1) as nat);
        let top = (k - 1) as usize;
        if !queue.contains_key(top) {
            assert forall|x: usize| x < k && queue.contains_key(x) implies x < k - 1 by {}
            below
        } else if below.is_none() {
            Some(top)
        } else if entry_le(queue[below.unwrap()], queue[top]) {
            below
        } else {
            Some(top)
        }
    }
}

/// A queue that is not empty has a node that is contracted next, and it
/// is a node of the queue.
pub proof fn lemma_least_node(queue: Map<usize, (i128, usize)>, n: nat, done: Set<usize>)
    requires
        queue != no_entries(),
        queue_ok(queue, n, done),
    ensures
        queue.contains_key(least_node(queue)),
{
    let least = lemma_least_entry_below(queue, n);
    if least.is_none() {
        assert(queue =~= no_entries());
    } else {
        assert(is_least_entry(queue, (least.unwrap(), queue[least.unwrap()])));
    }
}

/// What taking the edges at `u` out leaves behind: the arrays as they
/// were, lists in order and coherent, nothing at `u`, nothing that was not
/// listed before, and every edge that does not touch `u` where it was.
pub proof fn lemma_removed(g: GraphModel, u: usize)
    requires
        lists_ok(g),
        coherent(g),
        u < g.nodes.len(),
    ensures
        ({
            let end = g.remove_incident(u);
            &&& lists_ok(end)
            &&& coherent(end)
            &&& end.edges == g.edges
            &&& end.metadata == g.metadata
            &&& end.nodes == g.nodes
            &&& end.fwd[u as int].len() == 0
            &&& end.bwd[u as int].len() == 0
            &&& forall|v: int, e: usize|
                0 <= v < g.nodes.len() ==> (#[trigger] end.fwd[v].contains(e) <==> g.fwd[v].contains(
                    e,
                ) && g.avoids(u)(e))
            &&& forall|v: int, e: usize|
                0 <= v < g.nodes.len() ==> (#[trigger] end.bwd[v].contains(e) <==> g.bwd[v].contains(
                    e,
                ) && g.avoids(u)(e))
        }),
{
    let end = g.remove_incident(u);
    let keep = g.avoids(u);
    let n = g.nodes.len() as int;
    assert forall|v: int, e: usize| 0 <= v < n implies (#[trigger] end.fwd[v].contains(e)
        <==> g.fwd[v].contains(e) && keep(e)) by {
        lemma_filter_member(g.fwd[v], keep, e);
    }
    assert forall|v: int, e: usize| 0 <= v < n implies (#[trigger] end.bwd[v].contains(e)
        <==> g.bwd[v].contains(e) && keep(e)) by {
        lemma_filter_member(g.bwd[v], keep, e);
    }
    assert forall|v: int, k: int| 0 <= v < n && 0 <= k < end.fwd[v].len() implies (
    #[trigger] end.fwd[v][k]) < end.edges.len() && end.edges[end.fwd[v][k] as int].src_id == v by {
        let e = end.fwd[v][k];
        assert(end.fwd[v].contains(e));
        let at = choose|at: int| 0 <= at < g.fwd[v].len() && g.fwd[v][at] == e;
        assert(g.fwd[v][at] < g.edges.len());
    }
    assert forall|v: int, k: int| 0 <= v < n && 0 <= k < end.bwd[v].len() implies (
    #[trigger] end.bwd[v][k]) < end.edges.len() && end.edges[end.bwd[v][k] as int].dest_id == v by {
        let e = end.bwd[v][k];
        assert(end.bwd[v].contains(e));
        let at = choose|at: int| 0 <= at < g.bwd[v].len() && g.bwd[v][at] == e;
        assert(g.bwd[v][at] < g.edges.len());
    }
    assert forall|e: int| 0 <= e < end.edges.len() implies (end.fwd[(
    #[trigger] end.edges[e]).src_id as int].contains(e as usize)
        <==> end.bwd[end.edges[e].dest_id as int].contains(e as usize)) by {
        let s = g.edges[e].src_id as int;
        let d = g.edges[e].dest_id as int;
        assert(end.fwd[s].contains(e as usize) <==> g.fwd[s].contains(e as usize) && keep(
            e as usize,
        ));
        assert(end.bwd[d].contains(e as usize) <==> g.bwd[d].contains(e as usize) && keep(
            e as usize,
        ));
    }
    assert(end.fwd[u as int].len() == 0) by {
        assert forall|i: int| 0 <= i < g.fwd[u as int].len() implies !keep(
            #[trigger] g.fwd[u as int][i],
        ) by {
            assert(g.edges[g.fwd[u as int][i] as int].src_id == u);
        }
        lemma_filter_none(g.fwd[u as int], keep);
    }
    assert(end.bwd[u as int].len() == 0) by {
        assert forall|i: int| 0 <= i < g.bwd[u as int].len() implies !keep(
            #[trigger] g.bwd[u as int][i],
        ) by {
            assert(g.edges[g.bwd[u as int][i] as int].dest_id == u);
        }
        lemma_filter_none(g.bwd[u as int], keep);
    }
}

/// What holds of the preprocessing between rounds: the two graphs go
/// together, the searcher is sized for them, the queue holds the nodes
/// that are not contracted yet, and no edge is listed at a contracted
/// node.
pub open spec fn hier_inv(p: Preprocessing, done: Set<usize>) -> bool {
    let n = p.graph.nodes.len();
    &&& twin_ok(Contraction { graph: p.graph, overlay: p.overlay, search: p.search })
    &&& p.search.weights.len() == n
    &&& p.overlay.nodes.len() == n
    &&& queue_ok(p.queue, n, done)
    &&& forall|x: usize| x < n ==> #[trigger] done.contains(x) || p.queue.contains_key(x)
    &&& forall|d: usize| #[trigger]
        done.contains(d) ==> d < n && p.graph.fwd[d as int].len() == 0 && p.graph.bwd[d as int].len()
            == 0
}

/// The state after the node `u` has been contracted, before its
/// neighbours are ranked anew.
pub open spec fn node_done(p: Preprocessing) -> Contraction {
    contracted_node(
        Contraction { graph: p.graph, overlay: p.overlay, search: p.search },
        least_node(p.queue),
    )
}

/// What one round leaves behind.
pub proof fn lemma_round_state(p: Preprocessing, done: Set<usize>)
    requires
        hier_inv(p, done),
        p.queue != no_entries(),
        contract_round(p).graph.edges.len() <= usize::MAX,
        contract_round(p).graph.metadata.len() <= usize::MAX,
    ensures
        ({
            let u = least_node(p.queue);
            let mid = node_done(p);
            let end = contract_round(p);
            let level = next_level(p.overlay.nodes[u as int].rank);
            &&& u < p.graph.nodes.len()
            &&& !done.contains(u)
            &&& hier_inv(end, done.insert(u))
            &&& twin_ok(mid)
            &&& grows_from(mid.graph, p.graph)
            &&& grows_from(mid.overlay, p.overlay)
            &&& same_at(mid.graph, p.graph, u)
            &&& end.graph == mid.graph.remove_incident(u)
            &&& ranks_raised(end.overlay, mid.overlay, level, done)
            &&& end.overlay.nodes[u as int].rank <= level
            &&& forall|i: int|
                0 <= i < mid.graph.bwd[u as int].len() ==> end.overlay.nodes[other_end(
                    mid.graph,
                    #[trigger] mid.graph.bwd[u as int][i],
                    u,
                ) as int].rank >= level
            &&& forall|i: int|
                0 <= i < mid.graph.fwd[u as int].len() ==> end.overlay.nodes[other_end(
                    mid.graph,
                    #[trigger] mid.graph.fwd[u as int][i],
                    u,
                ) as int].rank >= level
        }),
{
    let n = p.graph.nodes.len();
    let u = least_node(p.queue);
    let c = Contraction { graph: p.graph, overlay: p.overlay, search: p.search };
    let mid = node_done(p);
    let end = contract_round(p);
    let level = next_level(p.overlay.nodes[u as int].rank);
    lemma_least_node(p.queue, n, done);
    assert(p.queue.contains_key(u));
    let contracted = Preprocessing {
        graph: mid.graph,
        overlay: mid.overlay,
        search: mid.search,
        queue: p.queue.remove(u),
    };
    let after_bwd = rerank_from(contracted, u, mid.graph.bwd[u as int], 0, level);
    let after_fwd = rerank_from(after_bwd, u, mid.graph.fwd[u as int], 0, level);
    assert(end.graph == after_fwd.graph.remove_incident(u));
    assert(end.overlay == after_fwd.overlay);
    lemma_rerank_graph(contracted, u, mid.graph.bwd[u as int], 0, level);
    lemma_rerank_graph(after_bwd, u, mid.graph.fwd[u as int], 0, level);
    assert(end.graph.edges == mid.graph.edges);
    assert(end.graph.metadata == mid.graph.metadata);
    let _ = lemma_contracted_node(c, u, 0, 0);
    assert forall|d: usize| #[trigger] done.contains(d) implies mid.graph.fwd[d as int].len() == 0
        && mid.graph.bwd[d as int].len() == 0 by {
        assert(p.graph.fwd[d as int].len() == 0);
    }
    let bwd_list = mid.graph.bwd[u as int];
    let fwd_list = mid.graph.fwd[u as int];
    assert(queue_ok(contracted.queue, n, done));
    assert forall|i: int| 0 <= i < bwd_list.len() implies (#[trigger] bwd_list[i])
        < mid.graph.edges.len() && !done.contains(other_end(mid.graph, bwd_list[i], u)) by {
        let e = bwd_list[i];
        assert(mid.graph.edges[e as int].dest_id == u);
        assert(mid.graph.bwd[u as int].contains(e));
        let s = mid.graph.edges[e as int].src_id;
        assert(mid.graph.fwd[s as int].contains(e));
        lemma_listed_not_done(done, mid.graph, e);
    }
    assert forall|i: int| 0 <= i < fwd_list.len() implies (#[trigger] fwd_list[i])
        < mid.graph.edges.len() && !done.contains(other_end(mid.graph, fwd_list[i], u)) by {
        let e = fwd_list[i];
        assert(mid.graph.edges[e as int].src_id == u);
        assert(mid.graph.fwd[u as int].contains(e));
        lemma_listed_not_done(done, mid.graph, e);
    }
    lemma_rerank(contracted, u, bwd_list, 0, level, done);
    lemma_rerank(after_bwd, u, fwd_list, 0, level, done);
    lemma_removed(mid.graph, u);
    assert(ranks_raised(end.overlay, mid.overlay, level, done)) by {
        assert forall|x: int| 0 <= x < mid.overlay.nodes.len() implies {
            &&& (#[trigger] end.overlay.nodes[x]).rank >= mid.overlay.nodes[x].rank
            &&& end.overlay.nodes[x].rank == mid.overlay.nodes[x].rank || end.overlay.nodes[x].rank
                == level
            &&& done.contains(x as usize) ==> end.overlay.nodes[x].rank
                == mid.overlay.nodes[x].rank
        } by {
            assert(after_fwd.overlay.nodes[x].rank >= after_bwd.overlay.nodes[x].rank);
            assert(after_bwd.overlay.nodes[x].rank >= mid.overlay.nodes[x].rank);
        }
    }
    assert(mid.overlay.nodes == p.overlay.nodes);
    assert(end.overlay.nodes[u as int].rank <= level) by {
        assert(after_fwd.overlay.nodes[u as int].rank >= after_bwd.overlay.nodes[u as int].rank);
        assert(after_bwd.overlay.nodes[u as int].rank >= mid.overlay.nodes[u as int].rank);
    }
    assert forall|i: int| 0 <= i < bwd_list.len() implies end.overlay.nodes[other_end(
        mid.graph,
        #[trigger] bwd_list[i],
        u,
    ) as int].rank >= level by {
        let x = other_end(mid.graph, bwd_list[i], u) as int;
        assert(after_fwd.overlay.nodes[x].rank >= after_bwd.overlay.nodes[x].rank);
    }
    let last = done.insert(u);
    assert(hier_inv(end, last)) by {
        let ec = Contraction { graph: end.graph, overlay: end.overlay, search: end.search };
        assert(lists_ok(end.overlay)) by {
            assert(end.overlay.nodes.len() == mid.overlay.nodes.len());
        }
        assert(within(end.graph, end.overlay)) by {
            assert forall|v: int, k: int|
                0 <= v < end.graph.fwd.len() && 0 <= k < end.graph.fwd[v].len() implies end.overlay.fwd[v].contains(
                #[trigger] end.graph.fwd[v][k],
            ) by {
                let e = end.graph.fwd[v][k];
                assert(end.graph.fwd[v].contains(e));
                assert(mid.graph.fwd[v].contains(e));
                let at = choose|at: int| 0 <= at < mid.graph.fwd[v].len() && mid.graph.fwd[v][at] == e;
                assert(mid.overlay.fwd[v].contains(mid.graph.fwd[v][at]));
            }
            assert forall|v: int, k: int|
                0 <= v < end.graph.bwd.len() && 0 <= k < end.graph.bwd[v].len() implies end.overlay.bwd[v].contains(
                #[trigger] end.graph.bwd[v][k],
            ) by {
                let e = end.graph.bwd[v][k];
                assert(end.graph.bwd[v].contains(e));
                assert(mid.graph.bwd[v].contains(e));
                let at = choose|at: int| 0 <= at < mid.graph.bwd[v].len() && mid.graph.bwd[v][at] == e;
                assert(mid.overlay.bwd[v].contains(mid.graph.bwd[v][at]));
            }
        }
        assert(twin_ok(ec));
        assert forall|x: usize| #[trigger] end.queue.contains_key(x) implies x < n && end.queue[x].1
            == x && !last.contains(x) by {
            assert(after_fwd.queue.dom().contains(x));
            assert(after_bwd.queue.dom().contains(x));
            assert(contracted.queue.contains_key(x));
        }
        assert forall|x: usize| x < n implies #[trigger] last.contains(x) || end.queue.contains_key(
            x,
        ) by {
            if x != u && !done.contains(x) {
                assert(p.queue.contains_key(x));
                assert(contracted.queue.dom().contains(x));
                assert(after_bwd.queue.dom().contains(x));
                assert(after_fwd.queue.dom().contains(x));
            }
        }
        assert forall|d: usize| #[trigger] last.contains(d) implies d < n && end.graph.fwd[d as int].len()
            == 0 && end.graph.bwd[d as int].len() == 0 by {
            if d != u {
                assert(done.contains(d));
                assert(p.graph.fwd[d as int].len() == 0);
                lemma_stays_empty(p.graph, mid.graph, end.graph, d, u);
            }
        }
    }
}

/// Ranking neighbours anew leaves the shrinking graph as it is.
pub proof fn lemma_rerank_graph(p: Preprocessing, u: usize, list: Seq<usize>, k: int, level: i32)
    requires
        0 <= k,
    ensures
        rerank_from(p, u, list, k, level).graph == p.graph,
    decreases list.len() - k,
{
    if k < list.len() {
        lemma_rerank_graph(rerank_neighbor(p, u, list, k, level), u, list, k + 1, level);
    }
}

/// An edge that is listed where it starts joins two nodes that are not
/// contracted.
pub proof fn lemma_listed_not_done(done: Set<usize>, g: GraphModel, e: usize)
    requires
        lists_ok(g),
        coherent(g),
        e < g.edges.len(),
        g.fwd[g.edges[e as int].src_id as int].contains(e),
        forall|d: usize| #[trigger]
            done.contains(d) ==> g.fwd[d as int].len() == 0 && g.bwd[d as int].len() == 0,
    ensures
        !done.contains(g.edges[e as int].src_id),
        !done.contains(g.edges[e as int].dest_id),
{
    let s = g.edges[e as int].src_id;
    let d = g.edges[e as int].dest_id;
    assert(g.bwd[d as int].contains(e));
    if done.contains(s) {
        assert(g.fwd[s as int].len() == 0);
    }
    if done.contains(d) {
        assert(g.bwd[d as int].len() == 0);
    }
}

/// The lists of a node other than `u` that were empty are empty after the
/// contraction of `u`.
pub proof fn lemma_stays_empty(
    before: GraphModel,
    mid: GraphModel,
    end: GraphModel,
    d: usize,
    u: usize,
)
    requires
        d < before.nodes.len(),
        d != u,
        before.fwd[d as int].len() == 0,
        before.bwd[d as int].len() == 0,
        mid.fwd[d as int].len() == 0,
        mid.bwd[d as int].len() == 0,
        mid.fwd.len() == before.nodes.len(),
        mid.bwd.len() == before.nodes.len(),
        end == mid.remove_incident(u),
    ensures
        end.fwd[d as int].len() == 0,
        end.bwd[d as int].len() == 0,
{
    lemma_filter_none(mid.fwd[d as int], mid.avoids(u));
    lemma_filter_none(mid.bwd[d as int], mid.avoids(u));
}

/// A way up and down around the nodes that are not contracted yet: a chain
/// `up` of edges of the overlay that climbs from contracted nodes, a chain
/// `core` of live edges of the shrinking graph, and a chain `down` of
/// edges of the overlay that descends to contracted nodes.
pub struct Way {
    pub up: Seq<usize>,
    pub core: Seq<usize>,
    pub down: Seq<usize>,
    /// Where `up` ends and `core` starts.
    pub a: usize,
    /// Where `core` ends and `down` starts.
    pub b: usize,
}

/// Every one of `edges` starts at a node of `done`.
pub open spec fn from_done(g: GraphModel, edges: Seq<usize>, done: Set<usize>) -> bool {
    forall|i: int| 0 <= i < edges.len() ==> done.contains(g.edges[(#[trigger] edges[i]) as int].src_id)
}

/// Every one of `edges` ends at a node of `done`.
pub open spec fn into_done(g: GraphModel, edges: Seq<usize>, done: Set<usize>) -> bool {
    forall|i: int|
        0 <= i < edges.len() ==> done.contains(g.edges[(#[trigger] edges[i]) as int].dest_id)
}

/// `way` leads from `s` to `t` and costs no more than `bound`.
pub open spec fn way_ok(
    graph: GraphModel,
    overlay: GraphModel,
    done: Set<usize>,
    s: usize,
    t: usize,
    bound: int,
    way: Way,
) -> bool {
    &&& is_chain(overlay, way.up, s, way.a)
    &&& climbs(overlay, true, way.up)
    &&& from_done(overlay, way.up, done)
    &&& is_chain(overlay, way.down, way.b, t)
    &&& climbs(overlay, false, way.down)
    &&& into_done(overlay, way.down, done)
    &&& is_chain(graph, way.core, way.a, way.b)
    &&& all_live(graph, way.core)
    &&& total_weight(overlay, way.up) + total_weight(graph, way.core) + total_weight(
        overlay,
        way.down,
    ) <= bound
}

/// A run of edges costs the same in two graphs that hold these edges with
/// the same records.
pub proof fn lemma_same_weight(a: GraphModel, b: GraphModel, edges: Seq<usize>)
    requires
        forall|i: int|
            0 <= i < edges.len() ==> a.weight_of((#[trigger] edges[i]) as int) == b.weight_of(
                edges[i] as int,
            ),
    ensures
        total_weight(a, edges) == total_weight(b, edges),
    decreases edges.len(),
{
    if edges.len() > 0 {
        let init = edges.drop_last();
        assert forall|i: int| 0 <= i < init.len() implies a.weight_of((#[trigger] init[i]) as int)
            == b.weight_of(init[i] as int) by {
            assert(init[i] == edges[i]);
        }
        lemma_same_weight(a, b, init);
        assert(edges[edges.len() - 1] == edges.last());
    }
}

/// The climbing part of a way stays one through a round: the overlay has
/// grown, ranks have risen, and contracted nodes have kept theirs.
pub proof fn lemma_climb_kept(
    before: GraphModel,
    mid: GraphModel,
    end: GraphModel,
    forward: bool,
    edges: Seq<usize>,
    s: usize,
    t: usize,
    done: Set<usize>,
    level: i32,
)
    requires
        lists_ok(before),
        grows_from(mid, before),
        ranks_raised(end, mid, level, done),
        is_chain(before, edges, s, t),
        climbs(before, forward, edges),
        if forward {
            from_done(before, edges, done)
        } else {
            into_done(before, edges, done)
        },
    ensures
        is_chain(end, edges, s, t),
        climbs(end, forward, edges),
        if forward {
            from_done(end, edges, done)
        } else {
            into_done(end, edges, done)
        },
        total_weight(end, edges) == total_weight(before, edges),
{
    assert forall|i: int| 0 <= i < edges.len() implies end.edges[(#[trigger] edges[i]) as int]
        == before.edges[edges[i] as int] && end.weight_of(edges[i] as int) == before.weight_of(
        edges[i] as int,
    ) by {
        let e = edges[i] as int;
        assert(mid.edges[e] == before.edges[e]);
        assert(mid.metadata[before.edges[e].metadata_index as int]
            == before.metadata[before.edges[e].metadata_index as int]);
    }
    lemma_same_weight(end, before, edges);
    assert forall|i: int| 0 <= i < edges.len() implies {
        let e = (#[trigger] edges[i]) as int;
        let from = if forward {
            end.edges[e].src_id
        } else {
            end.edges[e].dest_id
        };
        let to = if forward {
            end.edges[e].dest_id
        } else {
            end.edges[e].src_id
        };
        &&& 0 <= e < end.edges.len()
        &&& end.nodes[to as int].rank >= end.nodes[from as int].rank
        &&& if forward {
            end.fwd[from as int].contains(e as usize)
        } else {
            end.bwd[from as int].contains(e as usize)
        }
    } by {
        let e = edges[i] as int;
        let from = if forward {
            before.edges[e].src_id
        } else {
            before.edges[e].dest_id
        };
        let to = if forward {
            before.edges[e].dest_id
        } else {
            before.edges[e].src_id
        };
        assert(done.contains(from));
        assert(end.nodes[from as int].rank == mid.nodes[from as int].rank);
        assert(end.nodes[to as int].rank >= mid.nodes[to as int].rank);
        if forward {
            let at = choose|at: int|
                0 <= at < before.fwd[from as int].len() && before.fwd[from as int][at]
                    == e as usize;
            assert(before.fwd[from as int].len() <= mid.fwd[from as int].len());
            assert(mid.fwd[from as int][at] == e as usize);
        } else {
            let at = choose|at: int|
                0 <= at < before.bwd[from as int].len() && before.bwd[from as int][at]
                    == e as usize;
            assert(before.bwd[from as int].len() <= mid.bwd[from as int].len());
            assert(mid.bwd[from as int][at] == e as usize);
        }
    }
}

/// A chain of live edges that avoids `u` is a chain of live edges after
/// the edges at `u` have been taken out.
pub proof fn lemma_chain_survives(g: GraphModel, edges: Seq<usize>, s: usize, t: usize, u: usize)
    requires
        lists_ok(g),
        coherent(g),
        u < g.nodes.len(),
        is_chain(g, edges, s, t),
        all_live(g, edges),
        avoids(g, edges, u),
    ensures
        is_chain(g.remove_incident(u), edges, s, t),
        all_live(g.remove_incident(u), edges),
        total_weight(g.remove_incident(u), edges) == total_weight(g, edges),
{
    let end = g.remove_incident(u);
    lemma_removed(g, u);
    assert forall|i: int| 0 <= i < edges.len() implies live(end, #[trigger] edges[i]) by {
        let e = edges[i];
        assert(live(g, e));
        let v = g.edges[e as int].src_id as int;
        assert(end.fwd[v].contains(e) <==> g.fwd[v].contains(e) && g.avoids(u)(e));
    }
    lemma_same_weight(end, g, edges);
}

/// The last edge of the first `k` of `edges` that starts at `u`, or -1.
pub open spec fn last_from(g: GraphModel, edges: Seq<usize>, u: usize, k: int) -> int
    decreases k,
{
    if k <= 0 {
        -1
    } else if g.edges[edges[k - 1] as int].src_id == u {
        k - 1
    } else {
        last_from(g, edges, u, k - 1)
    }
}

/// Where the last edge that starts at `u` stands.
pub proof fn lemma_last_from(g: GraphModel, edges: Seq<usize>, u: usize, k: int)
    requires
        0 <= k <= edges.len(),
    ensures
        -1 <= last_from(g, edges, u, k) < k,
        forall|i: int|
            last_from(g, edges, u, k) < i < k ==> g.edges[(#[trigger] edges[i]) as int].src_id != u,
        last_from(g, edges, u, k) >= 0 ==> g.edges[edges[last_from(g, edges, u, k)] as int].src_id
            == u,
    decreases k,
{
    if k > 0 && g.edges[edges[k - 1] as int].src_id != u {
        lemma_last_from(g, edges, u, k - 1);
    }
}

/// The first edge of `edges`, from number `k` on, that ends at `u`, or the
/// number of edges.
pub open spec fn first_into(g: GraphModel, edges: Seq<usize>, u: usize, k: int) -> int
    decreases edges.len() - k,
{
    if 0 <= k < edges.len() {
        if g.edges[edges[k] as int].dest_id == u {
            k
        } else {
            first_into(g, edges, u, k + 1)
        }
    } else {
        edges.len() as int
    }
}

/// Where the first edge that ends at `u` stands.
pub proof fn lemma_first_into(g: GraphModel, edges: Seq<usize>, u: usize, k: int)
    requires
        0 <= k <= edges.len(),
    ensures
        k <= first_into(g, edges, u, k) <= edges.len(),
        forall|i: int|
            k <= i < first_into(g, edges, u, k) ==> g.edges[(#[trigger] edges[i]) as int].dest_id
                != u,
        first_into(g, edges, u, k) < edges.len() ==> g.edges[edges[first_into(
            g,
            edges,
            u,
            k,
        )] as int].dest_id == u,
    decreases edges.len() - k,
{
    if k < edges.len() && g.edges[edges[k] as int].dest_id != u {
        lemma_first_into(g, edges, u, k + 1);
    }
}

/// The contraction whose graphs and searcher are those of the
/// preprocessing.
pub open spec fn twins(p: Preprocessing) -> Contraction {
    Contraction { graph: p.graph, overlay: p.overlay, search: p.search }
}

/// A chain of live edges between two nodes other than `u` has beside it,
/// after the round that contracts `u`, a chain of live edges of the
/// shrinking graph that costs no more.
pub proof fn lemma_core_around(
    p: Preprocessing,
    done: Set<usize>,
    edges: Seq<usize>,
    x: usize,
    y: usize,
) -> (around: Seq<usize>)
    requires
        hier_inv(p, done),
        p.queue != no_entries(),
        contract_round(p).graph.edges.len() <= usize::MAX,
        contract_round(p).graph.metadata.len() <= usize::MAX,
        is_chain(p.graph, edges, x, y),
        all_live(p.graph, edges),
        x != least_node(p.queue),
        y != least_node(p.queue),
        total_weight(p.graph, edges) < INFINITY,
    ensures
        is_chain(contract_round(p).graph, around, x, y),
        all_live(contract_round(p).graph, around),
        total_weight(contract_round(p).graph, around) <= total_weight(p.graph, edges),
{
    let u = least_node(p.queue);
    let mid = node_done(p);
    lemma_round_state(p, done);
    let around = lemma_bypass(twins(p), u, edges, x, y);
    lemma_chain_survives(mid.graph, around, x, y, u);
    around
}

/// One round keeps a way a way: it turns a way around the nodes that were
/// not contracted before the round into one around the nodes that are not
/// contracted after it, at no higher cost.
pub proof fn lemma_round_way(
    p: Preprocessing,
    done: Set<usize>,
    s: usize,
    t: usize,
    bound: int,
    way: Way,
) -> (after: Way)
    requires
        hier_inv(p, done),
        p.queue != no_entries(),
        contract_round(p).graph.edges.len() <= usize::MAX,
        contract_round(p).graph.metadata.len() <= usize::MAX,
        way_ok(p.graph, p.overlay, done, s, t, bound, way),
        bound < INFINITY,
    ensures
        way_ok(
            contract_round(p).graph,
            contract_round(p).overlay,
            done.insert(least_node(p.queue)),
            s,
            t,
            bound,
            after,
        ),
{
    let u = least_node(p.queue);
    let mid = node_done(p);
    let end = contract_round(p);
    let level = next_level(p.overlay.nodes[u as int].rank);
    let last = done.insert(u);
    let g = p.graph;
    let core = way.core;
    lemma_round_state(p, done);
    lemma_climb_kept(p.overlay, mid.overlay, end.overlay, true, way.up, s, way.a, done, level);
    lemma_climb_kept(p.overlay, mid.overlay, end.overlay, false, way.down, way.b, t, done, level);
    lemma_weight_positive(p.overlay, way.up);
    lemma_weight_positive(p.overlay, way.down);
    lemma_weight_positive(g, core);
    assert(from_done(end.overlay, way.up, last));
    assert(into_done(end.overlay, way.down, last));
    if core.len() == 0 {
        assert(total_weight(end.graph, core) == 0);
        assert(total_weight(g, core) == 0);
        way
    } else if way.a != u && way.b != u {
        let around = lemma_core_around(p, done, core, way.a, way.b);
        Way { core: around, ..way }
    } else if way.a == u && way.b == u {
        let none = Seq::<usize>::empty();
        assert(total_weight(end.graph, none) == 0);
        Way { core: none, ..way }
    } else if way.a == u {
        lemma_last_from(g, core, u, core.len() as int);
        let j = last_from(g, core, u, core.len() as int);
        assert(j >= 0) by {
            if j < 0 {
                assert(g.edges[core[0] as int].src_id != u);
            }
        }
        let e = core[j];
        let x = g.edges[e as int].dest_id;
        assert(x != u) by {
            if x == u {
                if j + 1 < core.len() {
                    assert(g.edges[core[j] as int].dest_id == g.edges[core[j + 1] as int].src_id);
                } else {
                    assert(core.last() == core[j]);
                }
            }
        }
        let rest = core.skip(j + 1);
        lemma_live_parts(g, core, j + 1);
        lemma_weight_parts(g, core, j + 1);
        assert(is_chain(g, rest, x, way.b)) by {
            if j + 1 < core.len() {
                lemma_chain_split(g, core, way.a, way.b, j + 1);
                assert(g.edges[core[j] as int].dest_id == g.edges[core[j + 1] as int].src_id);
            } else {
                assert(rest =~= Seq::<usize>::empty());
                assert(core.last() == core[j]);
            }
        }
        let around = lemma_core_around(p, done, rest, x, way.b);
        let head = core.take(j + 1);
        assert(total_weight(g, head) >= g.weight_of(e as int)) by {
            assert(head.last() == e);
            lemma_weight_positive(g, head.drop_last());
        }
        assert(live(g, e));
        assert(g.fwd[u as int].contains(e));
        let up = way.up.push(e);
        lemma_step_up(p, done, way.up, s, e, true);
        Way { up, core: around, a: x, ..way }
    } else {
        lemma_first_into(g, core, u, 0);
        let i = first_into(g, core, u, 0);
        assert(i < core.len()) by {
            if i >= core.len() {
                assert(g.edges[core[core.len() - 1] as int].dest_id != u);
            }
        }
        let e = core[i];
        let y = g.edges[e as int].src_id;
        assert(y != u) by {
            if y == u {
                if i > 0 {
                    assert(g.edges[core[i - 1] as int].dest_id == g.edges[core[i - 1 + 1] as int].src_id);
                }
            }
        }
        let head = core.take(i);
        lemma_live_parts(g, core, i);
        lemma_weight_parts(g, core, i);
        lemma_chain_split(g, core, way.a, way.b, i);
        let around = lemma_core_around(p, done, head, way.a, y);
        let tail = core.skip(i);
        assert(total_weight(g, tail) >= g.weight_of(e as int)) by {
            lemma_weight_parts(g, tail, 1);
            assert(tail.take(1) =~= seq![e]);
            lemma_weight_one(g, e);
        }
        assert(live(g, e));
        assert(g.bwd[u as int].contains(e));
        let down = seq![e] + way.down;
        lemma_step_up(p, done, way.down, t, e, false);
        Way { down, core: around, b: y, ..way }
    }
}

/// The edge that joins a way to the node `u` that is contracted in this
/// round: after the round, an edge out of `u` at the end of the climbing
/// chain, or an edge into `u` at the start of the descending chain, makes
/// a longer chain of the same kind.
pub proof fn lemma_step_up(
    p: Preprocessing,
    done: Set<usize>,
    edges: Seq<usize>,
    far: usize,
    e: usize,
    forward: bool,
)
    requires
        hier_inv(p, done),
        p.queue != no_entries(),
        contract_round(p).graph.edges.len() <= usize::MAX,
        contract_round(p).graph.metadata.len() <= usize::MAX,
        e < p.graph.edges.len(),
        if forward {
            &&& is_chain(contract_round(p).overlay, edges, far, least_node(p.queue))
            &&& p.graph.edges[e as int].src_id == least_node(p.queue)
            &&& p.graph.fwd[least_node(p.queue) as int].contains(e)
            &&& from_done(contract_round(p).overlay, edges, done.insert(least_node(p.queue)))
        } else {
            &&& is_chain(contract_round(p).overlay, edges, least_node(p.queue), far)
            &&& p.graph.edges[e as int].dest_id == least_node(p.queue)
            &&& p.graph.bwd[least_node(p.queue) as int].contains(e)
            &&& into_done(contract_round(p).overlay, edges, done.insert(least_node(p.queue)))
        },
        climbs(contract_round(p).overlay, forward, edges),
    ensures
        ({
            let end = contract_round(p).overlay;
            let last = done.insert(least_node(p.queue));
            let longer = if forward {
                edges.push(e)
            } else {
                seq![e] + edges
            };
            &&& if forward {
                is_chain(end, longer, far, p.graph.edges[e as int].dest_id) && from_done(
                    end,
                    longer,
                    last,
                )
            } else {
                is_chain(end, longer, p.graph.edges[e as int].src_id, far) && into_done(
                    end,
                    longer,
                    last,
                )
            }
            &&& climbs(end, forward, longer)
            &&& total_weight(end, longer) == total_weight(end, edges) + p.graph.weight_of(e as int)
        }),
{
    let u = least_node(p.queue);
    let mid = node_done(p);
    let end = contract_round(p).overlay;
    let level = next_level(p.overlay.nodes[u as int].rank);
    let last = done.insert(u);
    lemma_round_state(p, done);
    let spot = end.edges[e as int];
    assert(spot == p.graph.edges[e as int] && end.weight_of(e as int) == p.graph.weight_of(
        e as int,
    )) by {
        assert(mid.overlay.edges[e as int] == p.overlay.edges[e as int]);
        assert(mid.overlay.metadata[p.overlay.edges[e as int].metadata_index as int]
            == p.overlay.metadata[p.overlay.edges[e as int].metadata_index as int]);
    }
    assert(is_chain(end, seq![e], spot.src_id, spot.dest_id)) by {
        assert(seq![e][0] == e);
    }
    lemma_weight_one(end, e);
    let other = other_end(mid.graph, e, u);
    assert(mid.graph.edges[e as int] == p.graph.edges[e as int]);
    if forward {
        let longer = edges.push(e);
        assert(longer =~= edges + seq![e]);
        lemma_chain_concat(end, edges, seq![e], far, u, spot.dest_id);
        lemma_weight_concat(end, edges, seq![e]);
        let at = choose|at: int|
            0 <= at < p.graph.fwd[u as int].len() && p.graph.fwd[u as int][at] == e;
        assert(mid.graph.fwd[u as int][at] == e);
        assert(end.nodes[other as int].rank >= level);
        assert(p.overlay.fwd[u as int].contains(p.graph.fwd[u as int][at]));
        let spot_at = choose|k: int|
            0 <= k < p.overlay.fwd[u as int].len() && p.overlay.fwd[u as int][k] == e;
        assert(p.overlay.fwd[u as int].len() <= mid.overlay.fwd[u as int].len());
        assert(mid.overlay.fwd[u as int][spot_at] == e);
        assert(end.fwd[u as int].contains(e));
        assert forall|i: int| 0 <= i < longer.len() implies {
            let x = (#[trigger] longer[i]) as int;
            &&& 0 <= x < end.edges.len()
            &&& end.nodes[end.edges[x].dest_id as int].rank >= end.nodes[end.edges[x].src_id as int].rank
            &&& end.fwd[end.edges[x].src_id as int].contains(x as usize)
        } by {
            if i < edges.len() {
                assert(longer[i] == edges[i]);
            }
        }
        assert forall|i: int| 0 <= i < longer.len() implies last.contains(
            end.edges[(#[trigger] longer[i]) as int].src_id,
        ) by {
            if i < edges.len() {
                assert(longer[i] == edges[i]);
            }
        }
    } else {
        let longer = seq![e] + edges;
        lemma_chain_concat(end, seq![e], edges, spot.src_id, u, far);
        lemma_weight_concat(end, seq![e], edges);
        let at = choose|at: int|
            0 <= at < p.graph.bwd[u as int].len() && p.graph.bwd[u as int][at] == e;
        assert(mid.graph.bwd[u as int][at] == e);
        assert(end.nodes[other as int].rank >= level);
        assert(p.overlay.bwd[u as int].contains(p.graph.bwd[u as int][at]));
        let spot_at = choose|k: int|
            0 <= k < p.overlay.bwd[u as int].len() && p.overlay.bwd[u as int][k] == e;
        assert(p.overlay.bwd[u as int].len() <= mid.overlay.bwd[u as int].len());
        assert(mid.overlay.bwd[u as int][spot_at] == e);
        assert(end.bwd[u as int].contains(e));
        assert forall|i: int| 0 <= i < longer.len() implies {
            let x = (#[trigger] longer[i]) as int;
            &&& 0 <= x < end.edges.len()
            &&& end.nodes[end.edges[x].src_id as int].rank >= end.nodes[end.edges[x].dest_id as int].rank
            &&& end.bwd[end.edges[x].dest_id as int].contains(x as usize)
        } by {
            if i > 0 {
                assert(longer[i] == edges[i - 1]);
            }
        }
        assert forall|i: int| 0 <= i < longer.len() implies last.contains(
            end.edges[(#[trigger] longer[i]) as int].dest_id,
        ) by {
            if i > 0 {
                assert(longer[i] == edges[i - 1]);
            }
        }
    }
}

/// A round never takes edges or records away.
pub proof fn lemma_round_size(p: Preprocessing)
    ensures
        p.graph.edges.len() <= contract_round(p).graph.edges.len(),
        p.graph.metadata.len() <= contract_round(p).graph.metadata.len(),
{
    let u = least_node(p.queue);
    let mid = node_done(p);
    let level = next_level(p.overlay.nodes[u as int].rank);
    let contracted = Preprocessing {
        graph: mid.graph,
        overlay: mid.overlay,
        search: mid.search,
        queue: p.queue.remove(u),
    };
    let after_bwd = rerank_from(contracted, u, mid.graph.bwd[u as int], 0, level);
    lemma_preds_size(twins(p), u, p.graph.fwd[u as int], p.graph.bwd[u as int], 0);
    lemma_rerank_graph(contracted, u, mid.graph.bwd[u as int], 0, level);
    lemma_rerank_graph(after_bwd, u, mid.graph.fwd[u as int], 0, level);
}

/// Rounds never take edges or records away.
pub proof fn lemma_rounds_size(p: Preprocessing, rounds: nat)
    ensures
        p.graph.edges.len() <= contract_rounds(p, rounds).graph.edges.len(),
        p.graph.metadata.len() <= contract_rounds(p, rounds).graph.metadata.len(),
    decreases rounds,
{
    if rounds == 0 || p.queue == no_entries() {
    } else {
        lemma_round_size(p);
        lemma_rounds_size(contract_round(p), (rounds - 1) as nat);
    }
}

/// The rounds keep a way a way, and when they end no node is left in the
/// queue.
pub proof fn lemma_rounds_way(
    p: Preprocessing,
    done: Set<usize>,
    rounds: nat,
    s: usize,
    t: usize,
    bound: int,
    way: Way,
) -> (after: (Set<usize>, Way))
    requires
        hier_inv(p, done),
        p.graph.nodes.len() <= usize::MAX,
        p.queue.dom().finite(),
        p.queue.dom().len() <= rounds,
        contract_rounds(p, rounds).graph.edges.len() <= usize::MAX,
        contract_rounds(p, rounds).graph.metadata.len() <= usize::MAX,
        way_ok(p.graph, p.overlay, done, s, t, bound, way),
        bound < INFINITY,
    ensures
        hier_inv(contract_rounds(p, rounds), after.0),
        contract_rounds(p, rounds).queue == no_entries(),
        way_ok(
            contract_rounds(p, rounds).graph,
            contract_rounds(p, rounds).overlay,
            after.0,
            s,
            t,
            bound,
            after.1,
        ),
        grows_from(contract_rounds(p, rounds).overlay, p.overlay)
            || contract_rounds(p, rounds).overlay.extends(p.overlay),
    decreases rounds,
{
    if p.queue == no_entries() {
        (done, way)
    } else if rounds == 0 {
        assert(p.queue.dom().len() == 0);
        assert(p.queue.dom() =~= Set::<usize>::empty());
        assert(p.queue =~= no_entries());
        (done, way)
    } else {
        let u = least_node(p.queue);
        let next = contract_round(p);
        lemma_rounds_size(next, (rounds - 1) as nat);
        lemma_round_state(p, done);
        let turned = lemma_round_way(p, done, s, t, bound, way);
        assert(next.queue.dom() =~= p.queue.dom().remove(u)) by {
            lemma_round_queue(p);
        }
        lemma_least_node(p.queue, p.graph.nodes.len(), done);
        let rest = lemma_rounds_way(
            next,
            done.insert(u),
            (rounds - 1) as nat,
            s,
            t,
            bound,
            turned,
        );
        let end = contract_rounds(p, rounds);
        assert(end.overlay.extends(p.overlay)) by {
            lemma_round_overlay(p, done);
            lemma_extends_on(p.overlay, next.overlay, end.overlay);
        }
        rest
    }
}

/// Growth of the arrays goes on.
pub proof fn lemma_extends_on(a: GraphModel, b: GraphModel, c: GraphModel)
    requires
        b.extends(a),
        grows_from(c, b) || c.extends(b),
    ensures
        c.extends(a),
{
    assert(c.extends(b));
    assert forall|e: int| 0 <= e < a.edges.len() implies #[trigger] c.edges[e] == a.edges[e] by {
        assert(b.edges[e] == a.edges[e]);
    }
    assert forall|m: int| 0 <= m < a.metadata.len() implies #[trigger] c.metadata[m]
        == a.metadata[m] by {
        assert(b.metadata[m] == a.metadata[m]);
    }
}

/// A round leaves in the queue the nodes that it held, but for the node
/// that it has contracted.
pub proof fn lemma_round_queue(p: Preprocessing)
    ensures
        contract_round(p).queue.dom() == p.queue.dom().remove(least_node(p.queue)),
{
    let u = least_node(p.queue);
    let mid = node_done(p);
    let level = next_level(p.overlay.nodes[u as int].rank);
    let contracted = Preprocessing {
        graph: mid.graph,
        overlay: mid.overlay,
        search: mid.search,
        queue: p.queue.remove(u),
    };
    let after_bwd = rerank_from(contracted, u, mid.graph.bwd[u as int], 0, level);
    lemma_rerank_queue(contracted, u, mid.graph.bwd[u as int], 0, level);
    lemma_rerank_queue(after_bwd, u, mid.graph.fwd[u as int], 0, level);
    assert(contracted.queue.dom() =~= p.queue.dom().remove(u));
}

/// Ranking neighbours anew leaves in the queue the nodes that it held.
pub proof fn lemma_rerank_queue(p: Preprocessing, u: usize, list: Seq<usize>, k: int, level: i32)
    requires
        0 <= k,
    ensures
        rerank_from(p, u, list, k, level).queue.dom() == p.queue.dom(),
    decreases list.len() - k,
{
    if k < list.len() {
        let next = rerank_neighbor(p, u, list, k, level);
        assert(next.queue.dom() =~= p.queue.dom());
        lemma_rerank_queue(next, u, list, k + 1, level);
    }
}

/// A round leaves an overlay that holds the edges and records that it
/// held.
pub proof fn lemma_round_overlay(p: Preprocessing, done: Set<usize>)
    requires
        hier_inv(p, done),
        p.queue != no_entries(),
        contract_round(p).graph.edges.len() <= usize::MAX,
        contract_round(p).graph.metadata.len() <= usize::MAX,
    ensures
        contract_round(p).overlay.extends(p.overlay),
{
    lemma_round_state(p, done);
    let mid = node_done(p);
    let end = contract_round(p);
    assert(mid.overlay.extends(p.overlay));
    assert(end.overlay.edges == mid.overlay.edges);
    assert(end.overlay.metadata == mid.overlay.metadata);
}

/// Ranking all nodes leaves the graphs as they are and every node in the
/// queue under its own id.
pub proof fn lemma_rank_all(p: Preprocessing, i: int)
    requires
        lists_ok(p.graph),
        coherent(p.graph),
        p.graph.nodes.len() <= usize::MAX,
        p.search.weights.len() == p.graph.nodes.len(),
        0 <= i <= p.graph.nodes.len(),
        queue_ok(p.queue, p.graph.nodes.len(), Set::empty()),
        forall|x: usize| x < i ==> p.queue.contains_key(x),
    ensures
        rank_all_from(p, i).graph == p.graph,
        rank_all_from(p, i).overlay == p.overlay,
        rank_all_from(p, i).search.weights.len() == p.graph.nodes.len(),
        queue_ok(rank_all_from(p, i).queue, p.graph.nodes.len(), Set::empty()),
        forall|x: usize| x < p.graph.nodes.len() ==> rank_all_from(p, i).queue.contains_key(x),
    decreases p.graph.nodes.len() - i,
{
    if i < p.graph.nodes.len() {
        let ranked = importance(p.graph, i as usize, p.search);
        lemma_importance_sized(p.graph, i as usize, p.search);
        let next = Preprocessing {
            search: ranked.0,
            queue: p.queue.insert(i as usize, (ranked.1, i as usize)),
            ..p
        };
        lemma_rank_all(next, i + 1);
    }
}

/// The hierarchy is complete. Let `path` be a chain of live edges of a
/// graph from `s` to `t`. In the overlay that the contraction of the graph
/// leaves, a chain `up` of edges climbs from `s` to a node `top`, each to
/// a node of no lower rank, and a chain `down` descends from `top` to `t`,
/// each from a node of no lower rank, and the two together cost no more
/// than `path`.
pub proof fn lemma_hierarchy_complete(
    graph: GraphModel,
    search: SearchState,
    s: usize,
    t: usize,
    path: Seq<usize>,
) -> (way: (Seq<usize>, Seq<usize>, usize))
    requires
        lists_ok(graph),
        coherent(graph),
        graph.nodes.len() <= usize::MAX,
        search.weights.len() == graph.nodes.len(),
        contracted(graph, graph, search).graph.edges.len() <= usize::MAX,
        contracted(graph, graph, search).graph.metadata.len() <= usize::MAX,
        is_chain(graph, path, s, t),
        all_live(graph, path),
        total_weight(graph, path) < INFINITY,
    ensures
        ({
            let overlay = contracted(graph, graph, search).overlay;
            &&& is_chain(overlay, way.0, s, way.2)
            &&& climbs(overlay, true, way.0)
            &&& is_chain(overlay, way.1, way.2, t)
            &&& climbs(overlay, false, way.1)
            &&& total_weight(overlay, way.0) + total_weight(overlay, way.1) <= total_weight(
                graph,
                path,
            )
            &&& overlay.extends(graph)
        }),
{
    let n = graph.nodes.len();
    let p0 = Preprocessing { graph, overlay: graph, search, queue: no_entries() };
    let ranked = rank_all_from(p0, 0);
    let end = contract_rounds(ranked, n);
    let none = Set::<usize>::empty();
    lemma_rank_all(p0, 0);
    lemma_rounds_size(ranked, n);
    assert(twin_ok(twins(ranked))) by {
        assert(within(graph, graph)) by {
            assert forall|v: int, k: int|
                0 <= v < graph.fwd.len() && 0 <= k < graph.fwd[v].len() implies graph.fwd[v].contains(
                #[trigger] graph.fwd[v][k],
            ) by {}
            assert forall|v: int, k: int|
                0 <= v < graph.bwd.len() && 0 <= k < graph.bwd[v].len() implies graph.bwd[v].contains(
                #[trigger] graph.bwd[v][k],
            ) by {}
        }
    }
    assert(hier_inv(ranked, none));
    lemma_nodes_bounded(ranked.queue.dom(), n);
    let start = Way { up: Seq::empty(), core: path, down: Seq::empty(), a: s, b: t };
    assert(total_weight(graph, Seq::<usize>::empty()) == 0);
    assert(way_ok(graph, graph, none, s, t, total_weight(graph, path), start));
    let last = lemma_rounds_way(ranked, none, n, s, t, total_weight(graph, path), start);
    let way = last.1;
    assert(way.core.len() == 0) by {
        if way.core.len() > 0 {
            let e = way.core[0];
            assert(live(end.graph, e));
            let from = end.graph.edges[e as int].src_id;
            assert(last.0.contains(from) || end.queue.contains_key(from));
            assert(end.graph.fwd[from as int].contains(e));
        }
    }
    assert(total_weight(end.graph, way.core) == 0);
    assert(end.overlay.extends(graph)) by {
        if ranked.queue == no_entries() {
        }
    }
    (way.up, way.down, way.a)
}

} // verus!
