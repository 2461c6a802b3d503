//! What the contraction of one node leaves behind: for every edge into the
//! node and every edge out of it, between two other nodes, a chain of edges
//! around the node that costs no more than the two edges.
use crate::ch_preprocess::{
    combined_weight, contract_pair, contract_pairs_from, contract_preds_from, contracted_node,
    in_step, is_pair, Contraction, MAX_HOPS,
};
use crate::graph::{shortcut_metadata, Edge, GraphModel, INFINITY};
use crate::walks::{
    is_chain, lemma_chain_concat, lemma_chain_split, lemma_weight_concat, lemma_weight_one,
    lemma_weight_parts, lemma_weight_positive, total_weight,
};
use crate::witness_lemmas::{
    all_live, avoids, lemma_initial_search_inv, lemma_search_real, lists_ok, live, search_inv,
};
use crate::witness_search::{initial_state, search_from, SearchState};
use vstd::prelude::*;

verus! {

/// `after` is `before` with more edges and records: the nodes are the
/// same and every list starts with what it held before.
pub open spec fn grows_from(after: GraphModel, before: GraphModel) -> bool {
    &&& after.extends(before)
    &&& after.nodes == before.nodes
    &&& after.fwd.len() == before.fwd.len()
    &&& after.bwd.len() == before.bwd.len()
    &&& forall|v: int|
        0 <= v < before.fwd.len() ==> before.fwd[v].len() <= (#[trigger] after.fwd[v]).len()
    &&& forall|v: int|
        0 <= v < before.bwd.len() ==> before.bwd[v].len() <= (#[trigger] after.bwd[v]).len()
    &&& forall|v: int, k: int|
        0 <= v < before.fwd.len() && 0 <= k < before.fwd[v].len() ==> #[trigger] after.fwd[v][k]
            == before.fwd[v][k]
    &&& forall|v: int, k: int|
        0 <= v < before.bwd.len() && 0 <= k < before.bwd[v].len() ==> #[trigger] after.bwd[v][k]
            == before.bwd[v][k]
}

/// A node that had no edge at all has none.
pub open spec fn quiet(after: GraphModel, before: GraphModel) -> bool {
    forall|d: int|
        0 <= d < before.fwd.len() && d < before.bwd.len() && (#[trigger] before.fwd[d]).len() == 0
            && before.bwd[d].len() == 0 ==> after.fwd[d].len() == 0 && after.bwd[d].len() == 0
}

/// The lists of node `u` are the same in both graphs.
pub open spec fn same_at(after: GraphModel, before: GraphModel, u: usize) -> bool {
    after.fwd[u as int] == before.fwd[u as int] && after.bwd[u as int] == before.bwd[u as int]
}

/// An edge stands in the forward list of its source exactly when it
/// stands in the backward list of its destination.
pub open spec fn coherent(g: GraphModel) -> bool {
    forall|e: int|
        0 <= e < g.edges.len() ==> (g.fwd[(#[trigger] g.edges[e]).src_id as int].contains(
            e as usize,
        ) <==> g.bwd[g.edges[e].dest_id as int].contains(e as usize))
}

/// Every list of `inner` holds only what the list of `outer` at the same
/// node holds.
pub open spec fn within(inner: GraphModel, outer: GraphModel) -> bool {
    &&& forall|v: int, k: int|
        0 <= v < inner.fwd.len() && 0 <= k < inner.fwd[v].len() ==> outer.fwd[v].contains(
            #[trigger] inner.fwd[v][k],
        )
    &&& forall|v: int, k: int|
        0 <= v < inner.bwd.len() && 0 <= k < inner.bwd[v].len() ==> outer.bwd[v].contains(
            #[trigger] inner.bwd[v][k],
        )
}

/// The two graphs of a contraction go together: they hold the same edges,
/// both have their lists in order, the shrinking graph is coherent and
/// lists nothing that the overlay does not list.
pub open spec fn twin_ok(c: Contraction) -> bool {
    &&& lists_ok(c.graph)
    &&& lists_ok(c.overlay)
    &&& in_step(c.graph, c.overlay)
    &&& coherent(c.graph)
    &&& within(c.graph, c.overlay)
    &&& c.graph.edges.len() <= usize::MAX
    &&& c.graph.metadata.len() <= usize::MAX
}

/// A graph grows from itself.
pub proof fn lemma_grows_self(g: GraphModel)
    ensures
        grows_from(g, g),
{
}

/// Growth goes on: what has grown from a graph that has grown from
/// another has grown from that other.
pub proof fn lemma_grows_on(a: GraphModel, b: GraphModel, c: GraphModel)
    requires
        grows_from(b, a),
        grows_from(c, b),
    ensures
        grows_from(c, a),
{
    assert forall|v: int| 0 <= v < a.fwd.len() implies a.fwd[v].len() <= (#[trigger] c.fwd[v]).len() by {
        assert(a.fwd[v].len() <= b.fwd[v].len());
    }
    assert forall|v: int| 0 <= v < a.bwd.len() implies a.bwd[v].len() <= (#[trigger] c.bwd[v]).len() by {
        assert(a.bwd[v].len() <= b.bwd[v].len());
    }
    assert forall|v: int, k: int|
        0 <= v < a.fwd.len() && 0 <= k < a.fwd[v].len() implies #[trigger] c.fwd[v][k]
        == a.fwd[v][k] by {
        assert(a.fwd[v].len() <= b.fwd[v].len());
        assert(b.fwd[v][k] == a.fwd[v][k]);
        assert(c.fwd[v][k] == b.fwd[v][k]);
    }
    assert forall|v: int, k: int|
        0 <= v < a.bwd.len() && 0 <= k < a.bwd[v].len() implies #[trigger] c.bwd[v][k]
        == a.bwd[v][k] by {
        assert(a.bwd[v].len() <= b.bwd[v].len());
        assert(b.bwd[v][k] == a.bwd[v][k]);
        assert(c.bwd[v][k] == b.bwd[v][k]);
    }
    assert forall|e: int| 0 <= e < a.edges.len() implies #[trigger] c.edges[e] == a.edges[e] by {
        assert(b.edges[e] == a.edges[e]);
    }
    assert forall|m: int| 0 <= m < a.metadata.len() implies #[trigger] c.metadata[m]
        == a.metadata[m] by {
        assert(b.metadata[m] == a.metadata[m]);
    }
}

/// An edge that is live stays live as the graph grows, with its cost.
pub proof fn lemma_grows_keeps_live(before: GraphModel, after: GraphModel, e: usize)
    requires
        lists_ok(before),
        grows_from(after, before),
        live(before, e),
    ensures
        live(after, e),
        after.edges[e as int] == before.edges[e as int],
        after.weight_of(e as int) == before.weight_of(e as int),
{
    let s = before.edges[e as int].src_id as int;
    let k = choose|k: int| 0 <= k < before.fwd[s].len() && before.fwd[s][k] == e;
    assert(before.fwd[s].len() <= after.fwd[s].len());
    assert(after.fwd[s][k] == e);
    assert(after.edges[e as int] == before.edges[e as int]);
    assert(after.metadata[before.edges[e as int].metadata_index as int]
        == before.metadata[before.edges[e as int].metadata_index as int]);
}

/// A chain of live edges stays one as the graph grows, at the same cost.
pub proof fn lemma_grows_keeps_chain(
    before: GraphModel,
    after: GraphModel,
    edges: Seq<usize>,
    s: usize,
    t: usize,
    c: usize,
)
    requires
        lists_ok(before),
        grows_from(after, before),
        is_chain(before, edges, s, t),
        all_live(before, edges),
        avoids(before, edges, c),
    ensures
        is_chain(after, edges, s, t),
        all_live(after, edges),
        avoids(after, edges, c),
        total_weight(after, edges) == total_weight(before, edges),
    decreases edges.len(),
{
    assert forall|i: int| 0 <= i < edges.len() implies live(after, #[trigger] edges[i])
        && after.edges[edges[i] as int] == before.edges[edges[i] as int] by {
        lemma_grows_keeps_live(before, after, edges[i]);
    }
    if edges.len() > 0 {
        let init = edges.drop_last();
        let mid = before.edges[edges.last() as int].src_id;
        crate::walks::lemma_chain_without_last(before, edges, s, t);
        assert(all_live(before, init)) by {
            assert forall|i: int| 0 <= i < init.len() implies live(before, #[trigger] init[i]) by {
                assert(init[i] == edges[i]);
            }
        }
        assert(avoids(before, init, c)) by {
            assert forall|i: int| 0 <= i < init.len() implies before.edges[(
            #[trigger] init[i]) as int].src_id != c && before.edges[init[i] as int].dest_id
                != c by {
                assert(init[i] == edges[i]);
            }
        }
        lemma_grows_keeps_chain(before, after, init, s, mid, c);
        assert(edges[edges.len() - 1] == edges.last());
        lemma_grows_keeps_live(before, after, edges.last());
    }
}

/// What a search knows stays real as the graph grows.
pub proof fn lemma_grows_keeps_search(
    before: GraphModel,
    after: GraphModel,
    st: SearchState,
    paths: Seq<Seq<usize>>,
)
    requires
        lists_ok(before),
        grows_from(after, before),
        search_inv(before, st, paths),
    ensures
        search_inv(after, st, paths),
{
    assert forall|v: int| 0 <= v < after.nodes.len() && (#[trigger] st.weights[v])
        < INFINITY implies {
        &&& is_chain(after, paths[v], st.src, v as usize)
        &&& all_live(after, paths[v])
        &&& avoids(after, paths[v], st.ignore)
        &&& total_weight(after, paths[v]) == st.weights[v]
    } by {
        lemma_grows_keeps_chain(before, after, paths[v], st.src, v as usize, st.ignore);
    }
}

/// A shortcut between two nodes makes the graph grow and keeps its lists
/// in order; the lists of other nodes stay as they are.
pub proof fn lemma_shortcut_grows(
    g: GraphModel,
    w: usize,
    v: usize,
    weight: u64,
    prev: usize,
    next: usize,
)
    requires
        lists_ok(g),
        w < g.nodes.len(),
        v < g.nodes.len(),
        weight < INFINITY,
        g.edges.len() <= usize::MAX,
        g.metadata.len() <= usize::MAX,
    ensures
        lists_ok(g.with_shortcut(w, v, weight, prev, next)),
        grows_from(g.with_shortcut(w, v, weight, prev, next), g),
        g.with_shortcut(w, v, weight, prev, next).edges == g.edges.push(
            Edge { src_id: w, dest_id: v, metadata_index: g.metadata.len() as usize },
        ),
        g.with_shortcut(w, v, weight, prev, next).metadata == g.metadata.push(
            shortcut_metadata(weight, prev, next),
        ),
        forall|x: int|
            0 <= x < g.fwd.len() ==> #[trigger] g.with_shortcut(w, v, weight, prev, next).fwd[x]
                == if x == w {
                g.fwd[x].push(g.edges.len() as usize)
            } else {
                g.fwd[x]
            },
        forall|x: int|
            0 <= x < g.bwd.len() ==> #[trigger] g.with_shortcut(w, v, weight, prev, next).bwd[x]
                == if x == v {
                g.bwd[x].push(g.edges.len() as usize)
            } else {
                g.bwd[x]
            },
{
    let after = g.with_shortcut(w, v, weight, prev, next);
    let id = g.edges.len() as usize;
    assert forall|u: int, k: int| 0 <= u < after.nodes.len() && 0 <= k < after.fwd[u].len() implies (
    #[trigger] after.fwd[u][k]) < after.edges.len() && after.edges[after.fwd[u][k] as int].src_id
        == u by {
        if k < g.fwd[u].len() {
            assert(after.fwd[u][k] == g.fwd[u][k]);
        }
    }
    assert forall|u: int, k: int| 0 <= u < after.nodes.len() && 0 <= k < after.bwd[u].len() implies (
    #[trigger] after.bwd[u][k]) < after.edges.len() && after.edges[after.bwd[u][k] as int].dest_id
        == u by {
        if k < g.bwd[u].len() {
            assert(after.bwd[u][k] == g.bwd[u][k]);
        }
    }
    assert forall|e: int| 0 <= e < after.edges.len() implies (#[trigger] after.edges[e]).metadata_index
        < after.metadata.len() && after.edges[e].src_id < after.nodes.len()
        && after.edges[e].dest_id < after.nodes.len() by {
        if e < g.edges.len() {
            assert(after.edges[e] == g.edges[e]);
        }
    }
    assert forall|m: int| 0 <= m < after.metadata.len() implies (#[trigger] after.metadata[m]).weight
        < INFINITY by {
        if m < g.metadata.len() {
            assert(after.metadata[m] == g.metadata[m]);
        }
    }
}

/// The contraction with one shortcut more in both graphs.
pub open spec fn bridged(c: Contraction, w: usize, v: usize, weight: u64, prev: usize, next: usize) -> Contraction {
    Contraction {
        graph: c.graph.with_shortcut(w, v, weight, prev, next),
        overlay: c.overlay.with_shortcut(w, v, weight, prev, next),
        ..c
    }
}

/// One shortcut more in both graphs keeps them together.
pub proof fn lemma_bridged_twin(
    c: Contraction,
    w: usize,
    v: usize,
    weight: u64,
    prev: usize,
    next: usize,
)
    requires
        twin_ok(c),
        w < c.graph.nodes.len(),
        v < c.graph.nodes.len(),
        weight < INFINITY,
        c.graph.edges.len() + 1 <= usize::MAX,
        c.graph.metadata.len() + 1 <= usize::MAX,
    ensures
        twin_ok(bridged(c, w, v, weight, prev, next)),
        grows_from(bridged(c, w, v, weight, prev, next).graph, c.graph),
        grows_from(bridged(c, w, v, weight, prev, next).overlay, c.overlay),
        live(bridged(c, w, v, weight, prev, next).graph, c.graph.edges.len() as usize),
{
    let after = bridged(c, w, v, weight, prev, next);
    let id = c.graph.edges.len() as usize;
    lemma_shortcut_grows(c.graph, w, v, weight, prev, next);
    lemma_shortcut_grows(c.overlay, w, v, weight, prev, next);
    assert(after.graph.fwd[w as int] == c.graph.fwd[w as int].push(id));
    assert(after.graph.fwd[w as int][c.graph.fwd[w as int].len() as int] == id);
    assert(after.graph.bwd[v as int] == c.graph.bwd[v as int].push(id));
    assert(after.graph.bwd[v as int][c.graph.bwd[v as int].len() as int] == id);
    assert(after.overlay.fwd[w as int] == c.overlay.fwd[w as int].push(id));
    assert(after.overlay.fwd[w as int][c.overlay.fwd[w as int].len() as int] == id);
    assert(after.overlay.bwd[v as int] == c.overlay.bwd[v as int].push(id));
    assert(after.overlay.bwd[v as int][c.overlay.bwd[v as int].len() as int] == id);
    assert forall|e: int| 0 <= e < after.graph.edges.len() implies (after.graph.fwd[(
    #[trigger] after.graph.edges[e]).src_id as int].contains(e as usize)
        <==> after.graph.bwd[after.graph.edges[e].dest_id as int].contains(e as usize)) by {
        if e < c.graph.edges.len() {
            let s = c.graph.edges[e].src_id as int;
            let d = c.graph.edges[e].dest_id as int;
            assert(after.graph.edges[e] == c.graph.edges[e]);
            lemma_push_keeps(c.graph.fwd[s], id, e as usize);
            lemma_push_keeps(c.graph.bwd[d], id, e as usize);
        }
    }
    assert forall|x: int, k: int|
        0 <= x < after.graph.fwd.len() && 0 <= k < after.graph.fwd[x].len() implies after.overlay.fwd[x].contains(
        #[trigger] after.graph.fwd[x][k],
    ) by {
        if k < c.graph.fwd[x].len() {
            assert(after.graph.fwd[x][k] == c.graph.fwd[x][k]);
            assert(c.overlay.fwd[x].contains(c.graph.fwd[x][k]));
            let at = choose|at: int|
                0 <= at < c.overlay.fwd[x].len() && c.overlay.fwd[x][at] == c.graph.fwd[x][k];
            assert(after.overlay.fwd[x][at] == c.graph.fwd[x][k]);
        }
    }
    assert forall|x: int, k: int|
        0 <= x < after.graph.bwd.len() && 0 <= k < after.graph.bwd[x].len() implies after.overlay.bwd[x].contains(
        #[trigger] after.graph.bwd[x][k],
    ) by {
        if k < c.graph.bwd[x].len() {
            assert(after.graph.bwd[x][k] == c.graph.bwd[x][k]);
            assert(c.overlay.bwd[x].contains(c.graph.bwd[x][k]));
            let at = choose|at: int|
                0 <= at < c.overlay.bwd[x].len() && c.overlay.bwd[x][at] == c.graph.bwd[x][k];
            assert(after.overlay.bwd[x][at] == c.graph.bwd[x][k]);
        }
    }
}

/// Membership in a list with one more entry.
pub proof fn lemma_push_keeps(list: Seq<usize>, pushed: usize, x: usize)
    requires
        x != pushed,
    ensures
        list.push(pushed).contains(x) <==> list.contains(x),
{
    if list.contains(x) {
        let i = choose|i: int| 0 <= i < list.len() && list[i] == x;
        assert(list.push(pushed)[i] == x);
    }
    if list.push(pushed).contains(x) {
        let i = choose|i: int| 0 <= i < list.push(pushed).len() && list.push(pushed)[i] == x;
        assert(list[i] == x);
    }
}

/// `path` leads around node `u` from `w` to `v`: a chain of live edges
/// that does not touch `u` and costs no more than `bound`.
pub open spec fn is_bridge(g: GraphModel, path: Seq<usize>, w: usize, v: usize, u: usize, bound: int) -> bool {
    &&& is_chain(g, path, w, v)
    &&& all_live(g, path)
    &&& avoids(g, path, u)
    &&& total_weight(g, path) <= bound
}

/// The edges `be` into `u` and `fe` out of `u` are edges of the graph, at
/// `u`, between other nodes, and cost less than infinity together.
pub open spec fn bridgeable(g: GraphModel, u: usize, be: usize, fe: usize) -> bool {
    &&& be < g.edges.len()
    &&& fe < g.edges.len()
    &&& g.edges[be as int].dest_id == u
    &&& g.edges[fe as int].src_id == u
    &&& is_pair(g, u, be, fe)
    &&& g.weight_of(be as int) + g.weight_of(fe as int) < INFINITY
}

/// What one pair leaves behind: the graphs have grown and go together,
/// the search knows what is real, the lists at `u` are as they were, and
/// for a pair that can be bridged a chain leads around `u`, by a new
/// shortcut or along the witness that the search has found.
pub proof fn lemma_contract_pair(
    c: Contraction,
    u: usize,
    be: usize,
    fwd_list: Seq<usize>,
    k: int,
    paths: Seq<Seq<usize>>,
) -> (after: (Seq<Seq<usize>>, Seq<usize>))
    requires
        twin_ok(c),
        u < c.graph.nodes.len(),
        0 <= k < fwd_list.len(),
        be < c.graph.edges.len(),
        c.graph.edges[be as int].dest_id == u,
        fwd_list[k] < c.graph.edges.len(),
        c.graph.edges[fwd_list[k] as int].src_id == u,
        live(c.graph, be),
        live(c.graph, fwd_list[k]),
        c.search.weights.len() == c.graph.nodes.len(),
        c.search.src == c.graph.edges[be as int].src_id,
        c.search.ignore == u,
        c.search.src != u ==> search_inv(c.graph, c.search, paths),
        contract_pair(c, u, be, fwd_list, k).graph.edges.len() <= usize::MAX,
        contract_pair(c, u, be, fwd_list, k).graph.metadata.len() <= usize::MAX,
    ensures
        ({
            let next = contract_pair(c, u, be, fwd_list, k);
            &&& twin_ok(next)
            &&& grows_from(next.graph, c.graph)
            &&& grows_from(next.overlay, c.overlay)
            &&& same_at(next.graph, c.graph, u)
            &&& quiet(next.graph, c.graph)
            &&& next.graph.edges.len() <= c.graph.edges.len() + 1
            &&& next.graph.metadata.len() <= c.graph.metadata.len() + 1
            &&& next.search.weights.len() == c.graph.nodes.len()
            &&& next.search.src == c.search.src
            &&& next.search.ignore == u
            &&& c.search.src != u ==> search_inv(next.graph, next.search, after.0)
            &&& bridgeable(c.graph, u, be, fwd_list[k]) ==> is_bridge(
                next.graph,
                after.1,
                c.graph.edges[be as int].src_id,
                c.graph.edges[fwd_list[k] as int].dest_id,
                u,
                c.graph.weight_of(be as int) + c.graph.weight_of(fwd_list[k] as int),
            )
        }),
{
    let fe = fwd_list[k];
    let next = contract_pair(c, u, be, fwd_list, k);
    lemma_grows_self(c.graph);
    lemma_grows_self(c.overlay);
    if is_pair(c.graph, u, be, fe) {
        let w = c.graph.edges[be as int].src_id;
        let v = c.graph.edges[fe as int].dest_id;
        let limit = combined_weight(c.graph, be, fe);
        let found = search_from(c.graph, c.search, v, limit, MAX_HOPS as nat);
        let known = lemma_search_real(c.graph, c.search, v, limit, MAX_HOPS as nat, paths);
        if found.1 > limit {
            lemma_bridged_twin(c, w, v, limit, be, fe);
            lemma_grows_keeps_search(c.graph, next.graph, found.0, known);
            assert(quiet(next.graph, c.graph)) by {
                assert(c.graph.fwd[w as int].contains(be));
                assert(c.graph.bwd[v as int].contains(fe));
                lemma_shortcut_grows(c.graph, w, v, limit, be, fe);
            }
            let id = c.graph.edges.len() as usize;
            let path = seq![id];
            lemma_shortcut_grows(c.graph, w, v, limit, be, fe);
            assert(next.graph.edges[id as int] == (Edge {
                src_id: w,
                dest_id: v,
                metadata_index: c.graph.metadata.len() as usize,
            }));
            assert(next.graph.weight_of(id as int) == limit);
            lemma_weight_one(next.graph, id);
            assert(path[0] == id);
            (known, path)
        } else {
            (known, known[v as int])
        }
    } else {
        (paths, Seq::empty())
    }
}

/// The pairs of one edge into a node never take edges or records away.
pub proof fn lemma_pairs_size(c: Contraction, u: usize, be: usize, fwd_list: Seq<usize>, k: int)
    requires
        0 <= k,
    ensures
        c.graph.edges.len() <= contract_pairs_from(c, u, be, fwd_list, k).graph.edges.len(),
        c.graph.metadata.len() <= contract_pairs_from(c, u, be, fwd_list, k).graph.metadata.len(),
    decreases fwd_list.len() - k,
{
    if k < fwd_list.len() {
        lemma_pairs_size(c, u, be, fwd_list, k + 1);
        lemma_pairs_size(contract_pair(c, u, be, fwd_list, k), u, be, fwd_list, k + 1);
    }
}

/// The edges into a node never take edges or records away.
pub proof fn lemma_preds_size(
    c: Contraction,
    u: usize,
    fwd_list: Seq<usize>,
    bwd_list: Seq<usize>,
    j: int,
)
    requires
        0 <= j,
    ensures
        c.graph.edges.len() <= contract_preds_from(c, u, fwd_list, bwd_list, j).graph.edges.len(),
        c.graph.metadata.len() <= contract_preds_from(
            c,
            u,
            fwd_list,
            bwd_list,
            j,
        ).graph.metadata.len(),
    decreases bwd_list.len() - j,
{
    if j < bwd_list.len() {
        let be = bwd_list[j];
        let start = Contraction {
            search: initial_state(c.search.weights.len(), c.graph.edges[be as int].src_id, u),
            ..c
        };
        lemma_pairs_size(start, u, be, fwd_list, 0);
        lemma_preds_size(
            contract_pairs_from(start, u, be, fwd_list, 0),
            u,
            fwd_list,
            bwd_list,
            j + 1,
        );
    }
}

/// The edges of `list` are edges of the graph that start at `u`.
pub open spec fn leave(g: GraphModel, list: Seq<usize>, u: usize) -> bool {
    forall|k: int|
        0 <= k < list.len() ==> (#[trigger] list[k]) < g.edges.len() && g.edges[list[k] as int].src_id
            == u && live(g, list[k])
}

/// The edges of `list` are edges of the graph that end at `u`.
pub open spec fn enter(g: GraphModel, list: Seq<usize>, u: usize) -> bool {
    forall|k: int|
        0 <= k < list.len() ==> (#[trigger] list[k]) < g.edges.len() && g.edges[list[k] as int].dest_id
            == u && live(g, list[k])
}

/// What the pairs of one edge into `u`, from number `k` on, leave behind;
/// for the pair at number `at`, if it is among them and can be bridged, a
/// chain around `u`.
pub proof fn lemma_contract_pairs(
    c: Contraction,
    u: usize,
    be: usize,
    fwd_list: Seq<usize>,
    k: int,
    at: int,
    paths: Seq<Seq<usize>>,
) -> (after: (Seq<Seq<usize>>, Seq<usize>))
    requires
        twin_ok(c),
        u < c.graph.nodes.len(),
        0 <= k,
        be < c.graph.edges.len(),
        c.graph.edges[be as int].dest_id == u,
        live(c.graph, be),
        leave(c.graph, fwd_list, u),
        c.search.weights.len() == c.graph.nodes.len(),
        c.search.src == c.graph.edges[be as int].src_id,
        c.search.ignore == u,
        c.search.src != u ==> search_inv(c.graph, c.search, paths),
        contract_pairs_from(c, u, be, fwd_list, k).graph.edges.len() <= usize::MAX,
        contract_pairs_from(c, u, be, fwd_list, k).graph.metadata.len() <= usize::MAX,
    ensures
        ({
            let end = contract_pairs_from(c, u, be, fwd_list, k);
            &&& twin_ok(end)
            &&& grows_from(end.graph, c.graph)
            &&& grows_from(end.overlay, c.overlay)
            &&& same_at(end.graph, c.graph, u)
            &&& quiet(end.graph, c.graph)
            &&& end.search.weights.len() == c.graph.nodes.len()
            &&& k <= at < fwd_list.len() && bridgeable(c.graph, u, be, fwd_list[at]) ==> is_bridge(
                end.graph,
                after.1,
                c.graph.edges[be as int].src_id,
                c.graph.edges[fwd_list[at] as int].dest_id,
                u,
                c.graph.weight_of(be as int) + c.graph.weight_of(fwd_list[at] as int),
            )
        }),
    decreases fwd_list.len() - k,
{
    lemma_grows_self(c.graph);
    lemma_grows_self(c.overlay);
    if k < fwd_list.len() {
        let next = contract_pair(c, u, be, fwd_list, k);
        let end = contract_pairs_from(c, u, be, fwd_list, k);
        lemma_pairs_size(next, u, be, fwd_list, k + 1);
        let one = lemma_contract_pair(c, u, be, fwd_list, k, paths);
        assert(leave(next.graph, fwd_list, u)) by {
            assert forall|i: int| 0 <= i < fwd_list.len() implies (#[trigger] fwd_list[i])
                < next.graph.edges.len() && next.graph.edges[fwd_list[i] as int].src_id == u
                && live(next.graph, fwd_list[i]) by {
                lemma_grows_keeps_live(c.graph, next.graph, fwd_list[i]);
            }
        }
        lemma_grows_keeps_live(c.graph, next.graph, be);
        assert(next.graph.edges[be as int] == c.graph.edges[be as int]);
        let rest = lemma_contract_pairs(next, u, be, fwd_list, k + 1, at, one.0);
        lemma_grows_on(c.graph, next.graph, end.graph);
        lemma_grows_on(c.overlay, next.overlay, end.overlay);
        if k <= at < fwd_list.len() && bridgeable(c.graph, u, be, fwd_list[at]) {
            let w = c.graph.edges[be as int].src_id;
            let v = c.graph.edges[fwd_list[at] as int].dest_id;
            if at == k {
                lemma_grows_keeps_chain(next.graph, end.graph, one.1, w, v, u);
                (rest.0, one.1)
            } else {
                assert(next.graph.edges[fwd_list[at] as int] == c.graph.edges[fwd_list[at] as int]);
                assert(next.graph.weight_of(be as int) == c.graph.weight_of(be as int)) by {
                    assert(next.graph.metadata[c.graph.edges[be as int].metadata_index as int]
                        == c.graph.metadata[c.graph.edges[be as int].metadata_index as int]);
                }
                assert(next.graph.weight_of(fwd_list[at] as int) == c.graph.weight_of(
                    fwd_list[at] as int,
                )) by {
                    assert(next.graph.metadata[c.graph.edges[fwd_list[at] as int].metadata_index as int]
                        == c.graph.metadata[c.graph.edges[fwd_list[at] as int].metadata_index as int]);
                }
                assert(bridgeable(next.graph, u, be, fwd_list[at]));
                rest
            }
        } else {
            rest
        }
    } else {
        (paths, Seq::empty())
    }
}

/// What the edges into `u`, from number `j` on, leave behind; for the pair
/// of the edge at number `into` and the edge out of `u` at number `out`, if
/// it is among them and can be bridged, a chain around `u`.
pub proof fn lemma_contract_preds(
    c: Contraction,
    u: usize,
    fwd_list: Seq<usize>,
    bwd_list: Seq<usize>,
    j: int,
    into: int,
    out: int,
) -> (path: Seq<usize>)
    requires
        twin_ok(c),
        u < c.graph.nodes.len(),
        0 <= j,
        leave(c.graph, fwd_list, u),
        enter(c.graph, bwd_list, u),
        c.search.weights.len() == c.graph.nodes.len(),
        contract_preds_from(c, u, fwd_list, bwd_list, j).graph.edges.len() <= usize::MAX,
        contract_preds_from(c, u, fwd_list, bwd_list, j).graph.metadata.len() <= usize::MAX,
    ensures
        ({
            let end = contract_preds_from(c, u, fwd_list, bwd_list, j);
            &&& twin_ok(end)
            &&& grows_from(end.graph, c.graph)
            &&& grows_from(end.overlay, c.overlay)
            &&& same_at(end.graph, c.graph, u)
            &&& quiet(end.graph, c.graph)
            &&& end.search.weights.len() == c.graph.nodes.len()
            &&& j <= into < bwd_list.len() && 0 <= out < fwd_list.len() && bridgeable(
                c.graph,
                u,
                bwd_list[into],
                fwd_list[out],
            ) ==> is_bridge(
                end.graph,
                path,
                c.graph.edges[bwd_list[into] as int].src_id,
                c.graph.edges[fwd_list[out] as int].dest_id,
                u,
                c.graph.weight_of(bwd_list[into] as int) + c.graph.weight_of(
                    fwd_list[out] as int,
                ),
            )
        }),
    decreases bwd_list.len() - j,
{
    lemma_grows_self(c.graph);
    lemma_grows_self(c.overlay);
    if j < bwd_list.len() {
        let be = bwd_list[j];
        let w = c.graph.edges[be as int].src_id;
        let n = c.graph.nodes.len();
        let start = Contraction { search: initial_state(c.search.weights.len(), w, u), ..c };
        let next = contract_pairs_from(start, u, be, fwd_list, 0);
        let end = contract_preds_from(c, u, fwd_list, bwd_list, j);
        lemma_preds_size(next, u, fwd_list, bwd_list, j + 1);
        let paths = if w != u {
            lemma_initial_search_inv(c.graph, w, u)
        } else {
            Seq::empty()
        };
        let pairs = lemma_contract_pairs(start, u, be, fwd_list, 0, out, paths);
        assert(leave(next.graph, fwd_list, u)) by {
            assert forall|i: int| 0 <= i < fwd_list.len() implies (#[trigger] fwd_list[i])
                < next.graph.edges.len() && next.graph.edges[fwd_list[i] as int].src_id == u
                && live(next.graph, fwd_list[i]) by {
                lemma_grows_keeps_live(c.graph, next.graph, fwd_list[i]);
            }
        }
        assert(enter(next.graph, bwd_list, u)) by {
            assert forall|i: int| 0 <= i < bwd_list.len() implies (#[trigger] bwd_list[i])
                < next.graph.edges.len() && next.graph.edges[bwd_list[i] as int].dest_id == u
                && live(next.graph, bwd_list[i]) by {
                lemma_grows_keeps_live(c.graph, next.graph, bwd_list[i]);
            }
        }
        let rest = lemma_contract_preds(next, u, fwd_list, bwd_list, j + 1, into, out);
        lemma_grows_on(c.graph, next.graph, end.graph);
        lemma_grows_on(c.overlay, next.overlay, end.overlay);
        if j <= into < bwd_list.len() && 0 <= out < fwd_list.len() && bridgeable(
            c.graph,
            u,
            bwd_list[into],
            fwd_list[out],
        ) {
            let from = c.graph.edges[bwd_list[into] as int].src_id;
            let to = c.graph.edges[fwd_list[out] as int].dest_id;
            if into == j {
                lemma_grows_keeps_chain(next.graph, end.graph, pairs.1, from, to, u);
                pairs.1
            } else {
                let a = bwd_list[into] as int;
                let b = fwd_list[out] as int;
                assert(next.graph.edges[a] == c.graph.edges[a]);
                assert(next.graph.edges[b] == c.graph.edges[b]);
                assert(next.graph.weight_of(a) == c.graph.weight_of(a)) by {
                    assert(next.graph.metadata[c.graph.edges[a].metadata_index as int]
                        == c.graph.metadata[c.graph.edges[a].metadata_index as int]);
                }
                assert(next.graph.weight_of(b) == c.graph.weight_of(b)) by {
                    assert(next.graph.metadata[c.graph.edges[b].metadata_index as int]
                        == c.graph.metadata[c.graph.edges[b].metadata_index as int]);
                }
                assert(bridgeable(next.graph, u, bwd_list[into], fwd_list[out]));
                rest
            }
        } else {
            rest
        }
    } else {
        Seq::empty()
    }
}

/// What the contraction of node `u` leaves behind: the graphs have grown
/// by shortcuts and go together, the lists at `u` are as they were, and a
/// chain leads around `u` for an edge into `u` and an edge out of `u`
/// between two other nodes.
pub proof fn lemma_contracted_node(c: Contraction, u: usize, be: usize, fe: usize) -> (path: Seq<
    usize,
>)
    requires
        twin_ok(c),
        u < c.graph.nodes.len(),
        c.search.weights.len() == c.graph.nodes.len(),
        contracted_node(c, u).graph.edges.len() <= usize::MAX,
        contracted_node(c, u).graph.metadata.len() <= usize::MAX,
    ensures
        ({
            let end = contracted_node(c, u);
            &&& twin_ok(end)
            &&& grows_from(end.graph, c.graph)
            &&& grows_from(end.overlay, c.overlay)
            &&& same_at(end.graph, c.graph, u)
            &&& quiet(end.graph, c.graph)
            &&& end.search.weights.len() == c.graph.nodes.len()
            &&& c.graph.bwd[u as int].contains(be) && c.graph.fwd[u as int].contains(fe)
                && is_pair(c.graph, u, be, fe) && c.graph.weight_of(be as int) + c.graph.weight_of(
                fe as int,
            ) < INFINITY ==> is_bridge(
                end.graph,
                path,
                c.graph.edges[be as int].src_id,
                c.graph.edges[fe as int].dest_id,
                u,
                c.graph.weight_of(be as int) + c.graph.weight_of(fe as int),
            )
        }),
{
    let fwd_list = c.graph.fwd[u as int];
    let bwd_list = c.graph.bwd[u as int];
    assert(leave(c.graph, fwd_list, u));
    assert(enter(c.graph, bwd_list, u)) by {
        assert forall|k: int| 0 <= k < bwd_list.len() implies (#[trigger] bwd_list[k])
            < c.graph.edges.len() && c.graph.edges[bwd_list[k] as int].dest_id == u && live(
            c.graph,
            bwd_list[k],
        ) by {
            assert(c.graph.bwd[u as int].contains(bwd_list[k]));
        }
    }
    if bwd_list.contains(be) && fwd_list.contains(fe) {
        let into = choose|i: int| 0 <= i < bwd_list.len() && bwd_list[i] == be;
        let out = choose|i: int| 0 <= i < fwd_list.len() && fwd_list[i] == fe;
        lemma_contract_preds(c, u, fwd_list, bwd_list, 0, into, out)
    } else {
        lemma_contract_preds(c, u, fwd_list, bwd_list, 0, 0, 0)
    }
}

/// Edge `e` starts or ends at node `c`.
pub open spec fn touches(g: GraphModel, e: usize, c: usize) -> bool {
    g.edges[e as int].src_id == c || g.edges[e as int].dest_id == c
}

/// The first edge of `edges`, from number `k` on, that starts or ends at
/// `c`, or the number of edges when there is none.
pub open spec fn first_touch(g: GraphModel, edges: Seq<usize>, c: usize, k: int) -> int
    decreases edges.len() - k,
{
    if 0 <= k < edges.len() {
        if touches(g, edges[k], c) {
            k
        } else {
            first_touch(g, edges, c, k + 1)
        }
    } else {
        edges.len() as int
    }
}

/// Where the first touching edge stands.
pub proof fn lemma_first_touch(g: GraphModel, edges: Seq<usize>, c: usize, k: int)
    requires
        0 <= k <= edges.len(),
    ensures
        k <= first_touch(g, edges, c, k) <= edges.len(),
        forall|i: int| k <= i < first_touch(g, edges, c, k) ==> !touches(g, #[trigger] edges[i], c),
        first_touch(g, edges, c, k) < edges.len() ==> touches(
            g,
            edges[first_touch(g, edges, c, k)],
            c,
        ),
    decreases edges.len() - k,
{
    if k < edges.len() && !touches(g, edges[k], c) {
        lemma_first_touch(g, edges, c, k + 1);
    }
}

/// The first edge of `edges`, from number `k` on, that does not end at
/// `c`, or the number of edges when there is none.
pub open spec fn first_exit(g: GraphModel, edges: Seq<usize>, c: usize, k: int) -> int
    decreases edges.len() - k,
{
    if 0 <= k < edges.len() {
        if g.edges[edges[k] as int].dest_id != c {
            k
        } else {
            first_exit(g, edges, c, k + 1)
        }
    } else {
        edges.len() as int
    }
}

/// Where the first edge that does not end at `c` stands.
pub proof fn lemma_first_exit(g: GraphModel, edges: Seq<usize>, c: usize, k: int)
    requires
        0 <= k <= edges.len(),
    ensures
        k <= first_exit(g, edges, c, k) <= edges.len(),
        forall|i: int|
            k <= i < first_exit(g, edges, c, k) ==> g.edges[(#[trigger] edges[i]) as int].dest_id
                == c,
        first_exit(g, edges, c, k) < edges.len() ==> g.edges[edges[first_exit(
            g,
            edges,
            c,
            k,
        )] as int].dest_id != c,
    decreases edges.len() - k,
{
    if k < edges.len() && g.edges[edges[k] as int].dest_id == c {
        lemma_first_exit(g, edges, c, k + 1);
    }
}

/// Part of a run of live edges is a run of live edges.
pub proof fn lemma_live_parts(g: GraphModel, edges: Seq<usize>, i: int)
    requires
        all_live(g, edges),
        0 <= i <= edges.len(),
    ensures
        all_live(g, edges.take(i)),
        all_live(g, edges.skip(i)),
{
    assert forall|k: int| 0 <= k < edges.take(i).len() implies live(g, #[trigger] edges.take(i)[k]) by {
        assert(edges.take(i)[k] == edges[k]);
    }
    assert forall|k: int| 0 <= k < edges.skip(i).len() implies live(g, #[trigger] edges.skip(i)[k]) by {
        assert(edges.skip(i)[k] == edges[k + i]);
    }
}

/// Two runs of live edges that avoid a node make one such run.
pub proof fn lemma_live_concat(g: GraphModel, a: Seq<usize>, b: Seq<usize>, c: usize)
    requires
        all_live(g, a),
        all_live(g, b),
        avoids(g, a, c),
        avoids(g, b, c),
    ensures
        all_live(g, a + b),
        avoids(g, a + b, c),
{
    assert forall|k: int| 0 <= k < (a + b).len() implies live(g, #[trigger] (a + b)[k]) by {
        if k < a.len() {
            assert((a + b)[k] == a[k]);
        } else {
            assert((a + b)[k] == b[k - a.len()]);
        }
    }
    assert forall|k: int| 0 <= k < (a + b).len() implies g.edges[(
    #[trigger] (a + b)[k]) as int].src_id != c && g.edges[(a + b)[k] as int].dest_id != c by {
        if k < a.len() {
            assert((a + b)[k] == a[k]);
        } else {
            assert((a + b)[k] == b[k - a.len()]);
        }
    }
}

/// Around a contracted node. After node `u` has been contracted, every
/// chain of live edges between two other nodes has beside it a chain of
/// live edges between the same nodes that does not touch `u` and costs no
/// more. (The edges at `u` are still in the lists at this point.)
#[verifier::rlimit(60)]
pub proof fn lemma_bypass(
    c: Contraction,
    u: usize,
    edges: Seq<usize>,
    x: usize,
    y: usize,
) -> (around: Seq<usize>)
    requires
        twin_ok(c),
        u < c.graph.nodes.len(),
        c.search.weights.len() == c.graph.nodes.len(),
        contracted_node(c, u).graph.edges.len() <= usize::MAX,
        contracted_node(c, u).graph.metadata.len() <= usize::MAX,
        is_chain(c.graph, edges, x, y),
        all_live(c.graph, edges),
        x != u,
        y != u,
        total_weight(c.graph, edges) < INFINITY,
    ensures
        is_bridge(contracted_node(c, u).graph, around, x, y, u, total_weight(c.graph, edges)),
    decreases edges.len(),
{
    let g = c.graph;
    let end = contracted_node(c, u).graph;
    let n = g.nodes.len();
    let none = lemma_contracted_node(c, u, 0, 0);
    lemma_first_touch(g, edges, u, 0);
    let i = first_touch(g, edges, u, 0);
    if i >= edges.len() {
        assert(avoids(g, edges, u));
        lemma_grows_keeps_chain(g, end, edges, x, y, u);
        edges
    } else {
        let head = edges.take(i);
        let be = edges[i];
        let w = g.edges[be as int].src_id;
        lemma_chain_split(g, edges, x, y, i);
        assert(w != u) by {
            if i > 0 {
                assert(!touches(g, edges[i - 1], u));
                assert(g.edges[edges[i - 1] as int].dest_id == g.edges[edges[i - 1 + 1] as int].src_id);
            }
        }
        assert(g.edges[be as int].dest_id == u);
        lemma_first_exit(g, edges, u, i);
        let j = first_exit(g, edges, u, i);
        assert(j < edges.len()) by {
            if j >= edges.len() {
                assert(g.edges[edges[edges.len() - 1] as int].dest_id == u);
            }
        }
        assert(j > i);
        let fe = edges[j];
        assert(g.edges[fe as int].src_id == u) by {
            assert(g.edges[edges[j - 1] as int].dest_id == u);
            assert(g.edges[edges[j - 1] as int].dest_id == g.edges[edges[j - 1 + 1] as int].src_id);
        }
        let v = g.edges[fe as int].dest_id;
        let rest = edges.skip(j + 1);
        lemma_live_parts(g, edges, i);
        lemma_live_parts(g, edges, j + 1);
        lemma_weight_parts(g, edges, i);
        lemma_weight_parts(g, edges, j + 1);
        let middle = edges.skip(i).take(j + 1 - i);
        assert(edges.skip(i) =~= middle + rest) by {
            assert(edges.skip(i).skip(j + 1 - i) =~= rest);
        }
        lemma_weight_concat(g, middle, rest);
        lemma_weight_positive(g, middle);
        assert(total_weight(g, middle) >= g.weight_of(be as int) + g.weight_of(fe as int)) by {
            lemma_ends_weight(g, middle);
            assert(middle[0] == be);
            assert(middle.last() == edges[j]);
        }
        assert(is_chain(g, rest, v, y)) by {
            if j + 1 < edges.len() {
                lemma_chain_split(g, edges, x, y, j + 1);
                assert(g.edges[edges[j] as int].dest_id == g.edges[edges[j + 1] as int].src_id);
            } else {
                assert(rest =~= Seq::<usize>::empty());
                assert(edges.last() == fe);
            }
        }
        let tail = lemma_bypass(c, u, rest, v, y);
        assert(avoids(g, head, u)) by {
            assert forall|k: int| 0 <= k < head.len() implies g.edges[(
            #[trigger] head[k]) as int].src_id != u && g.edges[head[k] as int].dest_id != u by {
                assert(head[k] == edges[k]);
                assert(!touches(g, edges[k], u));
            }
        }
        lemma_grows_keeps_chain(g, end, head, x, w, u);
        if v == w {
            lemma_chain_concat(end, head, tail, x, w, y);
            lemma_live_concat(end, head, tail, u);
            lemma_weight_concat(end, head, tail);
            head + tail
        } else {
            assert(live(g, be) && live(g, fe));
            assert(g.bwd[u as int].contains(be));
            assert(g.fwd[u as int].contains(fe));
            let bridge = lemma_contracted_node(c, u, be, fe);
            lemma_chain_concat(end, head, bridge, x, w, v);
            lemma_live_concat(end, head, bridge, u);
            lemma_weight_concat(end, head, bridge);
            lemma_chain_concat(end, head + bridge, tail, x, v, y);
            lemma_live_concat(end, head + bridge, tail, u);
            lemma_weight_concat(end, head + bridge, tail);
            head + bridge + tail
        }
    }
}

/// A run of edges costs no less than its first and its last edge, if
/// these are two edges.
pub proof fn lemma_ends_weight(g: GraphModel, edges: Seq<usize>)
    requires
        edges.len() >= 2,
    ensures
        total_weight(g, edges) >= g.weight_of(edges[0] as int) + g.weight_of(edges.last() as int),
{
    let inner = edges.drop_last();
    lemma_weight_parts(g, inner, 1);
    assert(inner.take(1) =~= seq![edges[0]]);
    lemma_weight_one(g, edges[0]);
}

} // verus!
