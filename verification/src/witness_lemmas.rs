//! What a witness search knows is real: every finite cost that it holds for
//! a node is the cost of a chain of edges of the graph from its source to
//! that node, along which the ignored node is never entered.
use crate::graph::{weight_add, Graph, GraphModel, INFINITY};
use crate::query_lemmas::lemma_least_exists;
use crate::walks::{is_chain, lemma_chain_concat, lemma_weight_concat, lemma_weight_one, total_weight};
use crate::witness_search::{
    initial_state, least_queued, relax_edge, relax_from, search_from, SearchState,
};
use vstd::prelude::*;

verus! {

/// The lists of the graph hold edges of the graph at the nodes where they
/// start and end, every edge joins two nodes and has a record with a
/// finite cost.
pub open spec fn lists_ok(g: GraphModel) -> bool {
    let n = g.nodes.len();
    &&& g.fwd.len() == n
    &&& g.bwd.len() == n
    &&& g.records_there()
    &&& forall|u: int, k: int|
        0 <= u < n && 0 <= k < g.fwd[u].len() ==> (#[trigger] g.fwd[u][k]) < g.edges.len()
            && g.edges[g.fwd[u][k] as int].src_id == u
    &&& forall|u: int, k: int|
        0 <= u < n && 0 <= k < g.bwd[u].len() ==> (#[trigger] g.bwd[u][k]) < g.edges.len()
            && g.edges[g.bwd[u][k] as int].dest_id == u
    &&& forall|e: int|
        0 <= e < g.edges.len() ==> (#[trigger] g.edges[e]).src_id < n && g.edges[e].dest_id < n
    &&& forall|m: int| 0 <= m < g.metadata.len() ==> (#[trigger] g.metadata[m]).weight < INFINITY
}

/// Edge `e` stands in the forward list of its source.
pub open spec fn live(g: GraphModel, e: usize) -> bool {
    e < g.edges.len() && g.fwd[g.edges[e as int].src_id as int].contains(e)
}

/// Every one of `edges` stands in the forward list of its source.
pub open spec fn all_live(g: GraphModel, edges: Seq<usize>) -> bool {
    forall|i: int| 0 <= i < edges.len() ==> live(g, #[trigger] edges[i])
}

/// None of `edges` starts or ends at node `c`.
pub open spec fn avoids(g: GraphModel, edges: Seq<usize>, c: usize) -> bool {
    forall|i: int|
        0 <= i < edges.len() ==> g.edges[(#[trigger] edges[i]) as int].src_id != c
            && g.edges[edges[i] as int].dest_id != c
}

/// A well-formed graph has its lists in order.
pub proof fn lemma_wf_lists_ok(graph: Graph)
    requires
        graph.wf(),
    ensures
        lists_ok(graph@),
{
    let g = graph@;
    assert forall|u: int, k: int| 0 <= u < g.nodes.len() && 0 <= k < g.fwd[u].len() implies (
    #[trigger] g.fwd[u][k]) < g.edges.len() && g.edges[g.fwd[u][k] as int].src_id == u by {
        assert(graph.fwd(u)[k] < graph.edges@.len());
    }
    assert forall|u: int, k: int| 0 <= u < g.nodes.len() && 0 <= k < g.bwd[u].len() implies (
    #[trigger] g.bwd[u][k]) < g.edges.len() && g.edges[g.bwd[u][k] as int].dest_id == u by {
        assert(graph.bwd(u)[k] < graph.edges@.len());
    }
}

/// What a search knows is real: `paths` holds for every node of finite
/// cost a chain of live edges from the source to the node, at that cost,
/// that never enters the ignored node.
pub open spec fn search_inv(g: GraphModel, st: SearchState, paths: Seq<Seq<usize>>) -> bool {
    let n = g.nodes.len();
    &&& st.weights.len() == n
    &&& paths.len() == n
    &&& st.src != st.ignore
    &&& forall|x: usize| #[trigger] st.queued.contains(x) ==> x < n
    &&& forall|v: int|
        0 <= v < n && (#[trigger] st.weights[v]) < INFINITY ==> {
            &&& is_chain(g, paths[v], st.src, v as usize)
            &&& all_live(g, paths[v])
            &&& avoids(g, paths[v], st.ignore)
            &&& total_weight(g, paths[v]) == st.weights[v]
        }
}

/// A search that has just been started knows its source only.
pub proof fn lemma_initial_search_inv(g: GraphModel, src: usize, ignore: usize) -> (paths: Seq<
    Seq<usize>,
>)
    requires
        src < g.nodes.len(),
        src != ignore,
    ensures
        search_inv(g, initial_state(g.nodes.len(), src, ignore), paths),
{
    let paths = Seq::new(g.nodes.len(), |v: int| Seq::<usize>::empty());
    assert(total_weight(g, Seq::<usize>::empty()) == 0);
    paths
}

/// A chain with one more live edge at its end.
pub proof fn lemma_extend_chain(g: GraphModel, path: Seq<usize>, e: usize, s: usize, c: usize)
    requires
        lists_ok(g),
        is_chain(g, path, s, g.edges[e as int].src_id),
        all_live(g, path),
        avoids(g, path, c),
        live(g, e),
        g.edges[e as int].src_id != c,
        g.edges[e as int].dest_id != c,
    ensures
        is_chain(g, path.push(e), s, g.edges[e as int].dest_id),
        all_live(g, path.push(e)),
        avoids(g, path.push(e), c),
        total_weight(g, path.push(e)) == total_weight(g, path) + g.weight_of(e as int),
{
    let longer = path.push(e);
    assert(longer =~= path + seq![e]);
    assert(is_chain(g, seq![e], g.edges[e as int].src_id, g.edges[e as int].dest_id)) by {
        assert(seq![e][0] == e);
    }
    lemma_chain_concat(g, path, seq![e], s, g.edges[e as int].src_id, g.edges[e as int].dest_id);
    lemma_weight_concat(g, path, seq![e]);
    lemma_weight_one(g, e);
    assert forall|i: int| 0 <= i < longer.len() implies live(g, #[trigger] longer[i]) by {
        if i < path.len() {
            assert(longer[i] == path[i]);
        }
    }
    assert forall|i: int| 0 <= i < longer.len() implies g.edges[(
    #[trigger] longer[i]) as int].src_id != c && g.edges[longer[i] as int].dest_id != c by {
        if i < path.len() {
            assert(longer[i] == path[i]);
        }
    }
}

/// Relaxing one edge keeps what a search knows real.
pub proof fn lemma_relax_edge_real(
    g: GraphModel,
    st: SearchState,
    u: usize,
    k: int,
    paths: Seq<Seq<usize>>,
) -> (after: Seq<Seq<usize>>)
    requires
        lists_ok(g),
        search_inv(g, st, paths),
        u < g.nodes.len(),
        0 <= k < g.fwd[u as int].len(),
    ensures
        search_inv(g, relax_edge(g, st, u, k), after),
        relax_edge(g, st, u, k).src == st.src,
        relax_edge(g, st, u, k).ignore == st.ignore,
{
    let e = g.fwd[u as int][k];
    let v = g.edges[e as int].dest_id;
    let alt = weight_add(st.weights[u as int], g.weight_of(e as int));
    let next = relax_edge(g, st, u, k);
    assert(e < g.edges.len() && g.edges[e as int].src_id == u);
    if v != st.ignore && alt < st.weights[v as int] {
        assert(st.weights[u as int] < INFINITY);
        assert(live(g, e));
        assert(u != st.ignore) by {
            if paths[u as int].len() > 0 {
                assert(g.edges[paths[u as int][paths[u as int].len() - 1] as int].dest_id
                    != st.ignore);
            }
        }
        lemma_extend_chain(g, paths[u as int], e, st.src, st.ignore);
        let after = paths.update(v as int, paths[u as int].push(e));
        assert forall|x: int| 0 <= x < g.nodes.len() && (#[trigger] next.weights[x])
            < INFINITY implies {
            &&& is_chain(g, after[x], next.src, x as usize)
            &&& all_live(g, after[x])
            &&& avoids(g, after[x], next.ignore)
            &&& total_weight(g, after[x]) == next.weights[x]
        } by {
            if x != v {
                assert(st.weights[x] < INFINITY);
            }
        }
        assert forall|x: usize| #[trigger] next.queued.contains(x) implies x < g.nodes.len() by {
            if x != v {
                assert(st.queued.contains(x));
            }
        }
        after
    } else {
        paths
    }
}

/// Relaxing the edges of a node keeps what a search knows real.
pub proof fn lemma_relax_from_real(
    g: GraphModel,
    st: SearchState,
    u: usize,
    k: int,
    paths: Seq<Seq<usize>>,
) -> (after: Seq<Seq<usize>>)
    requires
        lists_ok(g),
        search_inv(g, st, paths),
        u < g.nodes.len(),
        0 <= k,
    ensures
        search_inv(g, relax_from(g, st, u, k), after),
        relax_from(g, st, u, k).src == st.src,
        relax_from(g, st, u, k).ignore == st.ignore,
    decreases g.fwd[u as int].len() - k,
{
    if k < g.fwd[u as int].len() {
        let next = lemma_relax_edge_real(g, st, u, k, paths);
        lemma_relax_from_real(g, relax_edge(g, st, u, k), u, k + 1, next)
    } else {
        paths
    }
}

/// A search keeps what it knows real, and returns the cost that it holds
/// for its target.
pub proof fn lemma_search_real(
    g: GraphModel,
    st: SearchState,
    dest: usize,
    limit: u64,
    hops: nat,
    paths: Seq<Seq<usize>>,
) -> (after: Seq<Seq<usize>>)
    requires
        lists_ok(g),
        search_inv(g, st, paths),
        dest < g.nodes.len(),
    ensures
        search_inv(g, search_from(g, st, dest, limit, hops).0, after),
        search_from(g, st, dest, limit, hops).0.src == st.src,
        search_from(g, st, dest, limit, hops).0.ignore == st.ignore,
        search_from(g, st, dest, limit, hops).1 == search_from(
            g,
            st,
            dest,
            limit,
            hops,
        ).0.weights[dest as int],
    decreases hops,
{
    if st.weights[dest as int] <= limit {
        paths
    } else if hops == 0 {
        paths
    } else if st.queued == Set::<usize>::empty() {
        paths
    } else {
        lemma_least_exists(st.weights, st.queued, g.nodes.len());
        let u = least_queued(st.weights, st.queued);
        assert(st.queued.contains(u));
        let popped = SearchState { queued: st.queued.remove(u), ..st };
        assert(search_inv(g, popped, paths)) by {
            assert forall|x: usize| #[trigger] popped.queued.contains(x) implies x
                < g.nodes.len() by {
                assert(st.queued.contains(x));
            }
        }
        let relaxed = lemma_relax_from_real(g, popped, u, 0, paths);
        if u == dest {
            relaxed
        } else {
            lemma_search_real(
                g,
                relax_from(g, popped, u, 0),
                dest,
                limit,
                (hops - 1) as nat,
                relaxed,
            )
        }
    }
}

} // verus!
