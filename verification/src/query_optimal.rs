//! A query that has ended holds the least cost over all ways up and down:
//! no chain of edges that climbs from the source to some node, followed by
//! a chain that descends from that node to the target, costs less than the
//! path that the query returns.
use crate::ch_query::{
    better, column, finished, first_best, forward_next, initial_query, query_round, query_rounds,
    relax_hot, relax_row_from, row_end, row_start, top_key, Best, QueryState, SideState,
    MAX_POPS,
};
use crate::csr_graph::{hot_records, CSRGraph};
use crate::graph::{weight_add, GraphModel, INFINITY};
use crate::query_lemmas::{
    best_inv, edge_between, fresh_track, holds_rows, lemma_initial_query_inv, lemma_least_exists,
    lemma_nodes_bounded, lemma_pop_keeps, lemma_query_round_keeps, lemma_relax_hot_keeps,
    lemma_relax_row_keeps, lemma_row_entry, popped_side, query_inv, side_inv, source_of, track_of,
    SideTrack,
};
use crate::queue::entry_le;
use crate::walks::{
    is_chain, lemma_chain_without_first, lemma_chain_without_last, lemma_weight_concat,
    lemma_weight_one, total_weight,
};
use crate::witness_search::{least_queued, node_entry};
use vstd::prelude::*;

verus! {

/// The search of one direction climbs over the edge at column `i` of the
/// row of `u`: the edge is not skipped, and its target costs no more than
/// `u` and the edge.
pub open spec fn column_relaxed(
    csr: CSRGraph,
    forward: bool,
    side: SideState,
    u: usize,
    i: int,
) -> bool {
    let hot = csr.values_hot@[column(csr, forward, i) as int];
    csr.nodes@[hot.target as int].rank >= csr.nodes@[u as int].rank ==> side.weights[hot.target as int]
        <= weight_add(side.weights[u as int], hot.weight)
}

/// The columns of the row of `u` below `upto` are relaxed.
pub open spec fn row_relaxed(
    csr: CSRGraph,
    forward: bool,
    side: SideState,
    u: usize,
    upto: int,
) -> bool {
    forall|i: int|
        row_start(csr, forward, u) <= i < upto && i < row_end(csr, forward, u)
            ==> #[trigger] column_relaxed(csr, forward, side, u, i)
}

/// Up to where the row of `u` is to be relaxed: all of it, but for the
/// node `busy` only up to column `upto`.
pub open spec fn relax_limit(
    csr: CSRGraph,
    forward: bool,
    busy: Option<usize>,
    upto: int,
    u: usize,
) -> int {
    if busy == Some(u) {
        upto
    } else {
        row_end(csr, forward, u) as int
    }
}

/// Every node that the search has reached and that does not wait in the
/// queue has its row relaxed; the node `busy` only up to column `upto`.
pub open spec fn side_relaxed(
    csr: CSRGraph,
    forward: bool,
    side: SideState,
    busy: Option<usize>,
    upto: int,
) -> bool {
    forall|u: usize|
        u < csr.nodes@.len() && side.weights[u as int] < INFINITY && !side.queued.contains(u)
            ==> #[trigger] row_relaxed(
            csr,
            forward,
            side,
            u,
            relax_limit(csr, forward, busy, upto, u),
        )
}

/// The source is the target and has no edge at all.
pub open spec fn lonely(csr: CSRGraph, q: QueryState) -> bool {
    q.src == q.dest && row_start(csr, true, q.src) >= row_end(csr, true, q.src) && row_start(
        csr,
        false,
        q.src,
    ) >= row_end(csr, false, q.src)
}

/// No node that both searches have reached costs less in total than the
/// best meeting node.
pub open spec fn least_inv(csr: CSRGraph, q: QueryState, best: Best) -> bool {
    forall|x: int|
        0 <= x < csr.nodes@.len() && (#[trigger] q.fwd.weights[x]) + q.bwd.weights[x] < INFINITY
            && !(lonely(csr, q) && x == q.src) ==> best.is_some() && best.unwrap().1
            <= q.fwd.weights[x] + q.bwd.weights[x]
}

/// Looking at one edge of a settled node keeps rows relaxed and the best
/// meeting node the least.
pub proof fn lemma_relax_hot_least(
    csr: CSRGraph,
    g: GraphModel,
    forward: bool,
    st: (QueryState, Best),
    u: usize,
    i: int,
    track: SideTrack,
)
    requires
        holds_rows(csr, g),
        u < csr.nodes@.len(),
        row_start(csr, forward, u) <= i < row_end(csr, forward, u),
        side_inv(g, forward, st.0.side(forward), source_of(st.0, forward), track),
        st.0.side(!forward).weights.len() == g.nodes.len(),
        best_inv(st.0, st.1),
        track.settled.contains(u),
        st.0.side(forward).weights[u as int] == track.last,
        side_relaxed(csr, forward, st.0.side(forward), Some(u), i),
        least_inv(csr, st.0, st.1),
    ensures
        ({
            let after = relax_hot(csr, forward, st, u, csr.values_hot@[column(csr, forward, i) as int]);
            &&& side_relaxed(csr, forward, after.0.side(forward), Some(u), i + 1)
            &&& least_inv(csr, after.0, after.1)
        }),
{
    let hot = csr.values_hot@[column(csr, forward, i) as int];
    let after = relax_hot(csr, forward, st, u, hot);
    let side = st.0.side(forward);
    let other = st.0.side(!forward);
    let now = after.0.side(forward);
    let v = hot.target;
    let n = csr.nodes@.len();
    lemma_row_entry(csr, g, forward, u, i);
    lemma_relax_hot_keeps(csr, g, forward, st, u, i, track);
    assert(!side.queued.contains(u));
    assert(now.weights[u as int] == side.weights[u as int]);
    assert forall|x: int| 0 <= x < n implies now.weights[x] <= side.weights[x] by {}
    assert forall|y: usize|
        y < n && now.weights[y as int] < INFINITY && !now.queued.contains(y) implies #[trigger] row_relaxed(

        csr,
        forward,
        now,
        y,
        relax_limit(csr, forward, Some(u), i + 1, y),
    ) by {
        let upto = relax_limit(csr, forward, Some(u), i + 1, y);
        assert(now.weights[y as int] == side.weights[y as int]);
        assert(!side.queued.contains(y));
        assert(row_relaxed(csr, forward, side, y, relax_limit(csr, forward, Some(u), i, y)));
        assert forall|c: int|
            row_start(csr, forward, y) <= c < upto && c < row_end(csr, forward, y) implies #[trigger] column_relaxed(

            csr,
            forward,
            now,
            y,
            c,
        ) by {
            lemma_row_entry(csr, g, forward, y, c);
            if y == u && c == i {
            } else {
                assert(column_relaxed(csr, forward, side, y, c));
            }
        }
    }
    assert forall|x: int|
        0 <= x < n && (#[trigger] after.0.fwd.weights[x]) + after.0.bwd.weights[x] < INFINITY && !(
        lonely(csr, after.0) && x == after.0.src) implies after.1.is_some() && after.1.unwrap().1
        <= after.0.fwd.weights[x] + after.0.bwd.weights[x] by {
        if csr.nodes@[v as int].rank < csr.nodes@[u as int].rank {
        } else {
            let total = weight_add(now.weights[v as int], other.weights[v as int]);
            assert(after.1 == better(st.1, v, total));
            if x == v {
            } else {
                assert(st.0.fwd.weights[x] + st.0.bwd.weights[x] < INFINITY);
            }
        }
    }
}

/// Looking at the rest of the row of a settled node keeps rows relaxed
/// and the best meeting node the least.
pub proof fn lemma_relax_row_least(
    csr: CSRGraph,
    g: GraphModel,
    forward: bool,
    st: (QueryState, Best),
    u: usize,
    i: int,
    track: SideTrack,
)
    requires
        holds_rows(csr, g),
        u < csr.nodes@.len(),
        row_start(csr, forward, u) <= i,
        side_inv(g, forward, st.0.side(forward), source_of(st.0, forward), track),
        st.0.side(!forward).weights.len() == g.nodes.len(),
        best_inv(st.0, st.1),
        track.settled.contains(u),
        st.0.side(forward).weights[u as int] == track.last,
        side_relaxed(csr, forward, st.0.side(forward), Some(u), i),
        least_inv(csr, st.0, st.1),
    ensures
        ({
            let after = relax_row_from(csr, forward, st, u, i);
            &&& side_relaxed(csr, forward, after.0.side(forward), None, 0)
            &&& least_inv(csr, after.0, after.1)
        }),
    decreases row_end(csr, forward, u) - i,
{
    if i < row_end(csr, forward, u) {
        let hot = csr.values_hot@[column(csr, forward, i) as int];
        lemma_relax_hot_keeps(csr, g, forward, st, u, i, track);
        lemma_relax_hot_least(csr, g, forward, st, u, i, track);
        let next = relax_hot(csr, forward, st, u, hot);
        assert(source_of(next.0, forward) == source_of(st.0, forward));
        lemma_relax_row_least(csr, g, forward, next, u, i + 1, track);
    } else {
        let side = st.0.side(forward);
        assert forall|y: usize|
            y < csr.nodes@.len() && side.weights[y as int] < INFINITY && !side.queued.contains(
                y,
            ) implies #[trigger] row_relaxed(
            csr,
            forward,
            side,
            y,
            relax_limit(csr, forward, None, 0, y),
        ) by {
            assert(row_relaxed(csr, forward, side, y, relax_limit(csr, forward, Some(u), i, y)));
        }
    }
}

/// What holds of a query between rounds, beyond what its path needs.
pub open spec fn optimal_inv(csr: CSRGraph, st: (QueryState, Best)) -> bool {
    &&& side_relaxed(csr, true, st.0.fwd, None, 0)
    &&& side_relaxed(csr, false, st.0.bwd, None, 0)
    &&& least_inv(csr, st.0, st.1)
}

/// One round keeps rows relaxed and the best meeting node the least.
pub proof fn lemma_query_round_least(
    csr: CSRGraph,
    g: GraphModel,
    st: (QueryState, Best),
    tracks: (SideTrack, SideTrack),
)
    requires
        holds_rows(csr, g),
        query_inv(g, st, tracks),
        optimal_inv(csr, st),
        !finished(st.0, st.1),
    ensures
        optimal_inv(csr, query_round(csr, st)),
{
    let forward = forward_next(st.0);
    let side = st.0.side(forward);
    let track = track_of(tracks, forward);
    assert(side_inv(g, forward, side, source_of(st.0, forward), track));
    assert(side.queued != Set::<usize>::empty());
    assert(side_relaxed(csr, forward, side, None, 0));
    let settled = lemma_pop_keeps(g, forward, side, source_of(st.0, forward), track);
    let u = least_queued(side.weights, side.queued);
    let popped = st.0.with_side(forward, popped_side(side));
    let start = row_start(csr, forward, u) as int;
    assert(source_of(popped, forward) == source_of(st.0, forward));
    assert(popped.side(!forward) == st.0.side(!forward));
    assert(best_inv(popped, st.1));
    assert(side_relaxed(csr, forward, popped_side(side), Some(u), start)) by {
        assert forall|y: usize|
            y < csr.nodes@.len() && popped_side(side).weights[y as int] < INFINITY && !popped_side(
                side,
            ).queued.contains(y) implies #[trigger] row_relaxed(
            csr,
            forward,
            popped_side(side),
            y,
            relax_limit(csr, forward, Some(u), start, y),
        ) by {
            if y != u {
                assert(!side.queued.contains(y));
                assert(row_relaxed(csr, forward, side, y, relax_limit(csr, forward, None, 0, y)));
                assert forall|c: int|
                    row_start(csr, forward, y) <= c < row_end(csr, forward, y) implies #[trigger] column_relaxed(

                    csr,
                    forward,
                    popped_side(side),
                    y,
                    c,
                ) by {
                    assert(column_relaxed(csr, forward, side, y, c));
                }
            }
        }
    }
    assert(least_inv(csr, popped, st.1)) by {
        assert(lonely(csr, popped) == lonely(csr, st.0));
    }
    lemma_relax_row_keeps(csr, g, forward, (popped, st.1), u, start, settled);
    lemma_relax_row_least(csr, g, forward, (popped, st.1), u, start, settled);
    let after = relax_row_from(csr, forward, (popped, st.1), u, start);
    assert(after == query_round(csr, st));
    assert(after.0.side(!forward) == st.0.side(!forward));
}

/// The rounds of a query keep what holds of it, and the query ends before
/// its budget of pops unless it has settled that many nodes.
pub proof fn lemma_query_rounds_least(
    csr: CSRGraph,
    g: GraphModel,
    st: (QueryState, Best),
    tracks: (SideTrack, SideTrack),
    pops: nat,
) -> (after: (SideTrack, SideTrack))
    requires
        holds_rows(csr, g),
        query_inv(g, st, tracks),
        optimal_inv(csr, st),
    ensures
        query_inv(g, query_rounds(csr, st, pops), after),
        optimal_inv(csr, query_rounds(csr, st, pops)),
        query_rounds(csr, st, pops).0.src == st.0.src,
        query_rounds(csr, st, pops).0.dest == st.0.dest,
        finished(query_rounds(csr, st, pops).0, query_rounds(csr, st, pops).1)
            || after.0.settled.len() + after.1.settled.len() >= tracks.0.settled.len()
            + tracks.1.settled.len() + pops,
    decreases pops,
{
    if pops == 0 || finished(st.0, st.1) {
        tracks
    } else {
        let next = lemma_query_round_keeps(csr, g, st, tracks);
        lemma_query_round_least(csr, g, st, tracks);
        lemma_query_rounds_least(csr, g, query_round(csr, st), next, (pops - 1) as nat)
    }
}

/// A query that has just been started has its rows relaxed and its best
/// meeting node the least.
pub proof fn lemma_initial_query_least(csr: CSRGraph, g: GraphModel, src: usize, dest: usize)
    requires
        holds_rows(csr, g),
        src < g.nodes.len(),
        dest < g.nodes.len(),
    ensures
        optimal_inv(
            csr,
            (
                initial_query(g.nodes.len(), src, dest),
                first_best(csr, initial_query(g.nodes.len(), src, dest)),
            ),
        ),
{
    let n = g.nodes.len();
    let q = initial_query(n, src, dest);
    assert forall|u: usize|
        u < csr.nodes@.len() && q.fwd.weights[u as int] < INFINITY && !q.fwd.queued.contains(
            u,
        ) implies #[trigger] row_relaxed(
        csr,
        true,
        q.fwd,
        u,
        relax_limit(csr, true, None, 0, u),
    ) by {}
    assert forall|u: usize|
        u < csr.nodes@.len() && q.bwd.weights[u as int] < INFINITY && !q.bwd.queued.contains(
            u,
        ) implies #[trigger] row_relaxed(
        csr,
        false,
        q.bwd,
        u,
        relax_limit(csr, false, None, 0, u),
    ) by {}
}

/// The cost of a run of edges is not negative.
pub proof fn lemma_weight_not_negative(g: GraphModel, edges: Seq<usize>)
    ensures
        total_weight(g, edges) >= 0,
    decreases edges.len(),
{
    if edges.len() > 0 {
        lemma_weight_not_negative(g, edges.drop_last());
    }
}

/// Every edge of `edges` stands in the row of its start, in the direction
/// of a search, and leads to a node of no lower rank.
pub open spec fn climbs(g: GraphModel, forward: bool, edges: Seq<usize>) -> bool {
    forall|i: int|
        0 <= i < edges.len() ==> {
            let e = (#[trigger] edges[i]) as int;
            let from = if forward {
                g.edges[e].src_id
            } else {
                g.edges[e].dest_id
            };
            let to = if forward {
                g.edges[e].dest_id
            } else {
                g.edges[e].src_id
            };
            &&& 0 <= e < g.edges.len()
            &&& g.nodes[to as int].rank >= g.nodes[from as int].rank
            &&& if forward {
                g.fwd[from as int].contains(e as usize)
            } else {
                g.bwd[from as int].contains(e as usize)
            }
        }
}

/// The column at which an edge stands in the row of its start.
pub proof fn lemma_edge_column(csr: CSRGraph, g: GraphModel, forward: bool, e: usize, u: usize) -> (i:
    int)
    requires
        holds_rows(csr, g),
        u < csr.nodes@.len(),
        if forward {
            g.fwd[u as int].contains(e)
        } else {
            g.bwd[u as int].contains(e)
        },
    ensures
        row_start(csr, forward, u) <= i < row_end(csr, forward, u),
        csr.values_hot@[column(csr, forward, i) as int].id == e,
{
    if forward {
        let list = g.fwd[u as int];
        let k = choose|k: int| 0 <= k < list.len() && list[k] == e;
        assert(csr.row_fwd_ptr@[u as int] <= csr.row_fwd_ptr@[u + 1]);
        assert(csr.fwd_row(u as int) == hot_records(g, true, list));
        assert(csr.fwd_row(u as int).len() == csr.row_fwd_ptr@[u + 1] - csr.row_fwd_ptr@[u as int]);
        assert(hot_records(g, true, list).len() == list.len());
        let i = csr.row_fwd_ptr@[u as int] + k;
        assert(csr.fwd_row(u as int)[k] == csr.values_hot@[csr.cols_fwd@[i] as int]);
        i
    } else {
        let list = g.bwd[u as int];
        let k = choose|k: int| 0 <= k < list.len() && list[k] == e;
        assert(csr.row_bwd_ptr@[u as int] <= csr.row_bwd_ptr@[u + 1]);
        assert(csr.bwd_row(u as int) == hot_records(g, false, list));
        assert(csr.bwd_row(u as int).len() == csr.row_bwd_ptr@[u + 1] - csr.row_bwd_ptr@[u as int]);
        assert(hot_records(g, false, list).len() == list.len());
        let i = csr.row_bwd_ptr@[u as int] + k;
        assert(csr.bwd_row(u as int)[k] == csr.values_hot@[csr.cols_bwd@[i] as int]);
        i
    }
}

/// In a query that has ended, a node at the end of one climbing edge from
/// a node `y` costs no more than a bound on `y` and the edge, unless the
/// bound is no less than the best total.
pub proof fn lemma_climb_one(
    csr: CSRGraph,
    g: GraphModel,
    forward: bool,
    st: (QueryState, Best),
    tracks: (SideTrack, SideTrack),
    e: usize,
    y: usize,
    a: usize,
    bound: int,
)
    requires
        holds_rows(csr, g),
        query_inv(g, st, tracks),
        optimal_inv(csr, st),
        finished(st.0, st.1),
        y < g.nodes.len(),
        edge_between(g, forward, e, y, a),
        g.nodes[a as int].rank >= g.nodes[y as int].rank,
        if forward {
            g.fwd[y as int].contains(e)
        } else {
            g.bwd[y as int].contains(e)
        },
        st.0.side(forward).weights[y as int] <= bound || (st.1.is_some() && bound
            >= st.1.unwrap().1),
    ensures
        st.0.side(forward).weights[a as int] <= bound + g.weight_of(e as int) || (st.1.is_some()
            && bound + g.weight_of(e as int) >= st.1.unwrap().1),
{
    let side = st.0.side(forward);
    let track = track_of(tracks, forward);
    let n = g.nodes.len();
    assert(side_inv(g, forward, side, source_of(st.0, forward), track));
    assert(side_relaxed(csr, forward, side, None, 0));
    assert(a < n);
    if side.weights[y as int] <= bound {
        if side.weights[y as int] >= INFINITY {
        } else if side.queued.contains(y) {
            lemma_least_exists(side.weights, side.queued, n);
            let least = least_queued(side.weights, side.queued);
            assert(entry_le(node_entry(side.weights, least), node_entry(side.weights, y)));
            assert(side.queued != Set::<usize>::empty());
            assert(top_key(side) == side.weights[least as int]);
            if forward {
                assert(side == st.0.fwd);
            } else {
                assert(side == st.0.bwd);
            }
            assert(st.1.is_some() && top_key(side) >= st.1.unwrap().1);
        } else {
            let i = lemma_edge_column(csr, g, forward, e, y);
            lemma_row_entry(csr, g, forward, y, i);
            assert(row_relaxed(csr, forward, side, y, relax_limit(csr, forward, None, 0, y)));
            assert(column_relaxed(csr, forward, side, y, i));
            let hot = csr.values_hot@[column(csr, forward, i) as int];
            assert(hot.target == a);
        }
    }
}

/// In a query that has ended, the node at the end of a climbing chain
/// from the source of a search costs no more than the chain, unless the
/// chain costs no less than the best total.
pub proof fn lemma_climb_chain(
    csr: CSRGraph,
    g: GraphModel,
    forward: bool,
    st: (QueryState, Best),
    tracks: (SideTrack, SideTrack),
    edges: Seq<usize>,
    a: usize,
)
    requires
        holds_rows(csr, g),
        query_inv(g, st, tracks),
        optimal_inv(csr, st),
        finished(st.0, st.1),
        if forward {
            is_chain(g, edges, st.0.src, a)
        } else {
            is_chain(g, edges, a, st.0.dest)
        },
        climbs(g, forward, edges),
    ensures
        a < g.nodes.len(),
        st.0.side(forward).weights[a as int] <= total_weight(g, edges) || (st.1.is_some()
            && total_weight(g, edges) >= st.1.unwrap().1),
    decreases edges.len(),
{
    let side = st.0.side(forward);
    let track = track_of(tracks, forward);
    assert(side_inv(g, forward, side, source_of(st.0, forward), track));
    if edges.len() == 0 {
        assert(total_weight(g, edges) == 0);
    } else if forward {
        let e = edges.last();
        let init = edges.drop_last();
        let y = g.edges[e as int].src_id;
        lemma_chain_without_last(g, edges, st.0.src, a);
        assert(edges[edges.len() - 1] == e);
        assert(climbs(g, forward, init)) by {
            assert forall|i: int| 0 <= i < init.len() implies {
                let x = (#[trigger] init[i]) as int;
                &&& 0 <= x < g.edges.len()
                &&& g.nodes[g.edges[x].dest_id as int].rank >= g.nodes[g.edges[x].src_id as int].rank
                &&& g.fwd[g.edges[x].src_id as int].contains(x as usize)
            } by {
                assert(init[i] == edges[i]);
            }
        }
        lemma_climb_chain(csr, g, forward, st, tracks, init, y);
        lemma_climb_one(csr, g, forward, st, tracks, e, y, a, total_weight(g, init));
    } else {
        let e = edges[0];
        let rest = edges.skip(1);
        let y = g.edges[e as int].dest_id;
        lemma_chain_without_first(g, edges, a, st.0.dest);
        assert(climbs(g, forward, rest)) by {
            assert forall|i: int| 0 <= i < rest.len() implies {
                let x = (#[trigger] rest[i]) as int;
                &&& 0 <= x < g.edges.len()
                &&& g.nodes[g.edges[x].src_id as int].rank >= g.nodes[g.edges[x].dest_id as int].rank
                &&& g.bwd[g.edges[x].dest_id as int].contains(x as usize)
            } by {
                assert(rest[i] == edges[i + 1]);
            }
        }
        lemma_climb_chain(csr, g, forward, st, tracks, rest, y);
        lemma_climb_one(csr, g, forward, st, tracks, e, y, a, total_weight(g, rest));
        assert(edges =~= seq![e] + rest);
        lemma_weight_concat(g, seq![e], rest);
        lemma_weight_one(g, e);
    }
}

/// The path of a query costs the least. Let one chain of edges climb from
/// `src` to a node, each edge to a node of no lower rank, and another
/// descend from that node to `dest`, each edge from a node of no lower
/// rank, all of them edges in the rows of the snapshot. Then a query from
/// `src` to `dest` ends with a path, and the path costs no more than the
/// two chains together. A node without any edge is no path to itself.
pub proof fn lemma_query_path_least(
    csr: CSRGraph,
    g: GraphModel,
    src: usize,
    dest: usize,
    up: Seq<usize>,
    down: Seq<usize>,
    top: usize,
)
    requires
        holds_rows(csr, g),
        src < g.nodes.len(),
        dest < g.nodes.len(),
        2 * g.nodes.len() < MAX_POPS,
        is_chain(g, up, src, top),
        climbs(g, true, up),
        is_chain(g, down, top, dest),
        climbs(g, false, down),
        total_weight(g, up) + total_weight(g, down) < INFINITY,
        !lonely(csr, initial_query(g.nodes.len(), src, dest)),
    ensures
        ({
            let start = initial_query(g.nodes.len(), src, dest);
            let end = query_rounds(csr, (start, first_best(csr, start)), MAX_POPS as nat);
            end.1.is_some() && end.1.unwrap().1 <= total_weight(g, up) + total_weight(g, down)
        }),
{
    let n = g.nodes.len();
    let start = initial_query(n, src, dest);
    let first = (start, first_best(csr, start));
    let end = query_rounds(csr, first, MAX_POPS as nat);
    lemma_initial_query_inv(csr, g, src, dest);
    lemma_initial_query_least(csr, g, src, dest);
    let fresh = (fresh_track(n), fresh_track(n));
    assert(fresh.0.settled.len() == 0);
    let tracks = lemma_query_rounds_least(csr, g, first, fresh, MAX_POPS as nat);
    assert(csr.nodes.len() <= usize::MAX);
    lemma_nodes_bounded(tracks.0.settled, n);
    lemma_nodes_bounded(tracks.1.settled, n);
    assert(finished(end.0, end.1));
    lemma_climb_chain(csr, g, true, end, tracks, up, top);
    lemma_climb_chain(csr, g, false, end, tracks, down, top);
    lemma_weight_not_negative(g, up);
    lemma_weight_not_negative(g, down);
    assert(lonely(csr, end.0) == lonely(csr, start));
    assert(end.0.side(true) == end.0.fwd);
    assert(end.0.side(false) == end.0.bwd);
}

} // verus!
