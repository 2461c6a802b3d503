//! What a query keeps true from round to round, and what follows for the
//! path that it returns: the forward entries are a chain of edges from the
//! source to the meeting node, the backward entries a chain from there to
//! the target, and the cost of the path is the sum of their costs.
use crate::ch_query::{
    better, column, finished, first_best, forward_next, initial_query, packed_entries,
    query_round, query_rounds, relax_hot, relax_row_from, row_end, row_start, walk_back,
    Best, QueryResult, QueryState, SideState, };
use crate::csr_graph::{hot_records, CSRGraph};
use crate::graph::{weight_add, GraphModel, INFINITY};
use crate::walks::{is_chain, lemma_chain_concat, lemma_weight_concat, lemma_weight_one, total_weight};
use crate::witness_search::{is_least_queued, least_queued, node_entry};
use crate::queue::entry_le;
use crate::unpack_lemmas::entry_ids;
use vstd::prelude::*;

verus! {

/// The snapshot `csr` holds the rows of the graph `g`, and `g` is laid
/// out as a graph is.
pub open spec fn holds_rows(csr: CSRGraph, g: GraphModel) -> bool {
    let n = csr.nodes@.len();
    &&& csr.wf()
    &&& g.nodes.len() == n
    &&& g.fwd.len() == n
    &&& g.bwd.len() == n
    &&& g.records_there()
    &&& forall|u: int|
        0 <= u < n ==> #[trigger] csr.fwd_row(u) == hot_records(g, true, g.fwd[u])
    &&& forall|u: int|
        0 <= u < n ==> #[trigger] csr.bwd_row(u) == hot_records(g, false, g.bwd[u])
    &&& forall|u: int, k: int|
        0 <= u < n && 0 <= k < g.fwd[u].len() ==> (#[trigger] g.fwd[u][k]) < g.edges.len()
            && g.edges[g.fwd[u][k] as int].src_id == u
    &&& forall|u: int, k: int|
        0 <= u < n && 0 <= k < g.bwd[u].len() ==> (#[trigger] g.bwd[u][k]) < g.edges.len()
            && g.edges[g.bwd[u][k] as int].dest_id == u
    &&& forall|e: int|
        0 <= e < g.edges.len() ==> (#[trigger] g.edges[e]).src_id < n && g.edges[e].dest_id < n
    &&& forall|v: int| 0 <= v < n ==> (#[trigger] csr.nodes@[v]).rank == g.nodes[v].rank
}

/// Edge `e` of `g` leads from `u` to `v` in the direction of a search:
/// forward from `u` to `v`, backward from `v` to `u`.
pub open spec fn edge_between(g: GraphModel, forward: bool, e: usize, u: usize, v: usize) -> bool {
    &&& e < g.edges.len()
    &&& if forward {
        g.edges[e as int].src_id == u && g.edges[e as int].dest_id == v
    } else {
        g.edges[e as int].src_id == v && g.edges[e as int].dest_id == u
    }
}

/// What a proof keeps beside the state of one search: the nodes that have
/// been popped, for each the number of nodes popped before it (or -1), and
/// the cost of the node popped last.
pub struct SideTrack {
    pub settled: Set<usize>,
    pub stamp: Seq<int>,
    pub last: u64,
}

/// The step back from `v` is an edge of the graph from a settled node,
/// settled before `v` if `v` is settled, and the cost of `v` is the cost
/// of that node and of the edge.
pub open spec fn step_ok(
    g: GraphModel,
    forward: bool,
    side: SideState,
    track: SideTrack,
    v: int,
) -> bool {
    let u = side.prev[v].unwrap().0;
    let e = side.prev[v].unwrap().1;
    &&& u < side.weights.len()
    &&& edge_between(g, forward, e, u, v as usize)
    &&& side.weights[v] == side.weights[u as int] + g.weight_of(e as int)
    &&& side.weights[v] < INFINITY
    &&& track.settled.contains(u)
    &&& track.settled.contains(v as usize) ==> track.stamp[u as int] < track.stamp[v]
}

/// What holds of one search between rounds.
pub open spec fn side_inv(
    g: GraphModel,
    forward: bool,
    side: SideState,
    source: usize,
    track: SideTrack,
) -> bool {
    let n = g.nodes.len();
    &&& n <= usize::MAX
    &&& side.weights.len() == n
    &&& side.prev.len() == n
    &&& track.stamp.len() == n
    &&& source < n
    &&& track.settled.finite()
    &&& forall|x: usize| #[trigger]
        track.settled.contains(x) ==> x < n && 0 <= track.stamp[x as int] < track.settled.len()
            && side.weights[x as int] <= track.last && !side.queued.contains(x)
    &&& forall|x: usize| #[trigger]
        side.queued.contains(x) ==> x < n && track.last <= side.weights[x as int] < INFINITY
    &&& side.weights[source as int] == 0
    &&& side.prev[source as int].is_none()
    &&& forall|v: int|
        0 <= v < n && (#[trigger] side.prev[v]).is_some() ==> step_ok(g, forward, side, track, v)
    &&& forall|v: int|
        0 <= v < n && (#[trigger] side.weights[v]) < INFINITY ==> v == source
            || side.prev[v].is_some()
}

/// The best meeting node is a node, and its total is the sum of what the
/// two searches know of it.
pub open spec fn best_inv(q: QueryState, best: Best) -> bool {
    best.is_some() ==> {
        let node = best.unwrap().0;
        &&& node < q.fwd.weights.len()
        &&& best.unwrap().1 < INFINITY
        &&& best.unwrap().1 == q.fwd.weights[node as int] + q.bwd.weights[node as int]
    }
}

/// The source of the search of one direction.
pub open spec fn source_of(q: QueryState, forward: bool) -> usize {
    if forward {
        q.src
    } else {
        q.dest
    }
}

/// The hot record at column `i` of the row of `u` is an edge of the graph
/// between `u` and its target.
pub proof fn lemma_row_entry(csr: CSRGraph, g: GraphModel, forward: bool, u: usize, i: int)
    requires
        holds_rows(csr, g),
        u < csr.nodes@.len(),
        row_start(csr, forward, u) <= i < row_end(csr, forward, u),
    ensures
        ({
            let hot = csr.values_hot@[column(csr, forward, i) as int];
            &&& hot.target < csr.nodes@.len()
            &&& edge_between(g, forward, hot.id, u, hot.target)
            &&& hot.weight == g.weight_of(hot.id as int)
            &&& hot.weight < INFINITY
        }),
{
    let k = i - row_start(csr, forward, u);
    if forward {
        assert(csr.row_fwd_ptr@[u as int] <= csr.row_fwd_ptr@[u + 1]);
        assert(csr.row_fwd_ptr@[u + 1] <= csr.cols_fwd@.len());
        assert(csr.fwd_row(u as int).len() == csr.row_fwd_ptr@[u + 1] - csr.row_fwd_ptr@[u as int]);
        assert(csr.fwd_row(u as int)[k] == csr.values_hot@[csr.cols_fwd@[i] as int]);
        assert(csr.fwd_row(u as int) == hot_records(g, true, g.fwd[u as int]));
        assert(hot_records(g, true, g.fwd[u as int]).len() == g.fwd[u as int].len());
        assert(g.fwd[u as int][k] < g.edges.len());
        assert(csr.cols_fwd@[i] < csr.values_hot@.len());
    } else {
        assert(csr.row_bwd_ptr@[u as int] <= csr.row_bwd_ptr@[u + 1]);
        assert(csr.row_bwd_ptr@[u + 1] <= csr.cols_bwd@.len());
        assert(csr.bwd_row(u as int).len() == csr.row_bwd_ptr@[u + 1] - csr.row_bwd_ptr@[u as int]);
        assert(csr.bwd_row(u as int)[k] == csr.values_hot@[csr.cols_bwd@[i] as int]);
        assert(csr.bwd_row(u as int) == hot_records(g, false, g.bwd[u as int]));
        assert(hot_records(g, false, g.bwd[u as int]).len() == g.bwd[u as int].len());
        assert(g.bwd[u as int][k] < g.edges.len());
        assert(csr.cols_bwd@[i] < csr.values_hot@.len());
    }
}

/// Looking at one edge of a settled node keeps what holds of the search
/// and of the best meeting node.
pub proof fn lemma_relax_hot_keeps(
    csr: CSRGraph,
    g: GraphModel,
    forward: bool,
    st: (QueryState, Best),
    u: usize,
    i: int,
    track: SideTrack,
)
    requires
        holds_rows(csr, g),
        u < csr.nodes@.len(),
        row_start(csr, forward, u) <= i < row_end(csr, forward, u),
        side_inv(g, forward, st.0.side(forward), source_of(st.0, forward), track),
        st.0.side(!forward).weights.len() == g.nodes.len(),
        best_inv(st.0, st.1),
        track.settled.contains(u),
        st.0.side(forward).weights[u as int] == track.last,
    ensures
        ({
            let after = relax_hot(csr, forward, st, u, csr.values_hot@[column(csr, forward, i) as int]);
            &&& side_inv(g, forward, after.0.side(forward), source_of(st.0, forward), track)
            &&& after.0.side(!forward) == st.0.side(!forward)
            &&& after.0.src == st.0.src
            &&& after.0.dest == st.0.dest
            &&& best_inv(after.0, after.1)
            &&& after.0.side(forward).weights[u as int] == track.last
        }),
{
    let hot = csr.values_hot@[column(csr, forward, i) as int];
    let after = relax_hot(csr, forward, st, u, hot);
    let side = st.0.side(forward);
    let other = st.0.side(!forward);
    let source = source_of(st.0, forward);
    let v = hot.target;
    let n = g.nodes.len();
    lemma_row_entry(csr, g, forward, u, i);
    if csr.nodes@[v as int].rank < csr.nodes@[u as int].rank {
    } else {
        let alt = weight_add(side.weights[u as int], hot.weight);
        let now = after.0.side(forward);
        if alt < side.weights[v as int] {
            assert(!track.settled.contains(v));
            assert(v != source);
            assert(v != u);
            assert forall|x: usize| #[trigger] track.settled.contains(x) implies x < n && 0
                <= track.stamp[x as int] < track.settled.len() && now.weights[x as int]
                <= track.last && !now.queued.contains(x) by {}
            assert forall|x: usize| #[trigger] now.queued.contains(x) implies x < n && track.last
                <= now.weights[x as int] < INFINITY by {
                if x != v {
                    assert(side.queued.contains(x));
                }
            }
            assert forall|x: int| 0 <= x < n && (#[trigger] now.prev[x]).is_some() implies step_ok(
                g,
                forward,
                now,
                track,
                x,
            ) by {
                if x != v {
                    assert(side.prev[x].is_some());
                    assert(step_ok(g, forward, side, track, x));
                    let p = side.prev[x].unwrap().0;
                    assert(p != v);
                }
            }
            assert forall|x: int| 0 <= x < n && (#[trigger] now.weights[x]) < INFINITY implies x
                == source || now.prev[x].is_some() by {
                if x != v {
                    assert(side.weights[x] < INFINITY);
                }
            }
        } else {
            assert(now == side);
        }
        assert(after.0.side(!forward) == other);
        let total = weight_add(now.weights[v as int], other.weights[v as int]);
        assert(after.1 == better(st.1, v, total));
        if forward {
            assert(after.0.fwd == now && after.0.bwd == other);
        } else {
            assert(after.0.bwd == now && after.0.fwd == other);
        }
    }
}

/// Looking at the rest of the row of a settled node keeps what holds of
/// the search and of the best meeting node.
pub proof fn lemma_relax_row_keeps(
    csr: CSRGraph,
    g: GraphModel,
    forward: bool,
    st: (QueryState, Best),
    u: usize,
    i: int,
    track: SideTrack,
)
    requires
        holds_rows(csr, g),
        u < csr.nodes@.len(),
        row_start(csr, forward, u) <= i,
        side_inv(g, forward, st.0.side(forward), source_of(st.0, forward), track),
        st.0.side(!forward).weights.len() == g.nodes.len(),
        best_inv(st.0, st.1),
        track.settled.contains(u),
        st.0.side(forward).weights[u as int] == track.last,
    ensures
        ({
            let after = relax_row_from(csr, forward, st, u, i);
            &&& side_inv(g, forward, after.0.side(forward), source_of(st.0, forward), track)
            &&& after.0.side(!forward) == st.0.side(!forward)
            &&& after.0.src == st.0.src
            &&& after.0.dest == st.0.dest
            &&& best_inv(after.0, after.1)
        }),
    decreases row_end(csr, forward, u) - i,
{
    if i < row_end(csr, forward, u) {
        let hot = csr.values_hot@[column(csr, forward, i) as int];
        lemma_relax_hot_keeps(csr, g, forward, st, u, i, track);
        let next = relax_hot(csr, forward, st, u, hot);
        assert(source_of(next.0, forward) == source_of(st.0, forward));
        lemma_relax_row_keeps(csr, g, forward, next, u, i + 1, track);
    }
}

/// Among finitely many queued nodes one is the least.
pub proof fn lemma_least_below(weights: Seq<u64>, queued: Set<usize>, k: nat) -> (least: Option<
    usize,
>)
    ensures
        least.is_none() ==> forall|x: usize| x < k ==> !queued.contains(x),
        least.is_some() ==> queued.contains(least.unwrap()) && least.unwrap() < k && forall|
            x: usize,
        |
            x < k && #[trigger] queued.contains(x) ==> entry_le(
                node_entry(weights, least.unwrap()),
                node_entry(weights, x),
            ),
    decreases k,
{
    if k == 0 {
        None
    } else {
        let below = lemma_least_below(weights, queued, (k - 1) as nat);
        let top = (k - 1) as usize;
        if !queued.contains(top) {
            assert forall|x: usize| x < k && queued.contains(x) implies x < k - 1 by {}
            below
        } else if below.is_none() {
            Some(top)
        } else if entry_le(node_entry(weights, below.unwrap()), node_entry(weights, top)) {
            below
        } else {
            Some(top)
        }
    }
}

/// A queue that is not empty, of nodes below `n`, has a next node.
pub proof fn lemma_least_exists(weights: Seq<u64>, queued: Set<usize>, n: nat)
    requires
        queued != Set::<usize>::empty(),
        forall|x: usize| #[trigger] queued.contains(x) ==> x < n,
    ensures
        is_least_queued(weights, queued, least_queued(weights, queued)),
{
    let least = lemma_least_below(weights, queued, n);
    if least.is_none() {
        assert(queued =~= Set::<usize>::empty());
    } else {
        assert(is_least_queued(weights, queued, least.unwrap()));
    }
}

/// Nodes below `n` are finitely many, no more than `n`.
pub proof fn lemma_nodes_bounded(nodes: Set<usize>, n: nat)
    requires
        forall|x: usize| #[trigger] nodes.contains(x) ==> x < n,
        n <= usize::MAX,
    ensures
        nodes.finite(),
        nodes.len() <= n,
{
    let all = Set::new(|u: usize| u < n);
    assert(all =~= vstd::set_lib::set_int_range(0, n as int).map(|i: int| i as usize)) by {
        assert forall|u: usize| all.contains(u) implies vstd::set_lib::set_int_range(
            0,
            n as int,
        ).map(|i: int| i as usize).contains(u) by {
            assert(vstd::set_lib::set_int_range(0, n as int).contains(u as int));
        }
    }
    vstd::set_lib::lemma_int_range(0, n as int);
    vstd::set_lib::lemma_map_size_bound(
        vstd::set_lib::set_int_range(0, n as int),
        all,
        |i: int| i as usize,
    );
    assert(nodes.subset_of(all));
    vstd::set_lib::lemma_len_subset(nodes, all);
}

/// What the proof keeps of the search of one direction.
pub open spec fn track_of(tracks: (SideTrack, SideTrack), forward: bool) -> SideTrack {
    if forward {
        tracks.0
    } else {
        tracks.1
    }
}

/// What holds of a query between rounds.
pub open spec fn query_inv(
    g: GraphModel,
    st: (QueryState, Best),
    tracks: (SideTrack, SideTrack),
) -> bool {
    &&& side_inv(g, true, st.0.fwd, st.0.src, tracks.0)
    &&& side_inv(g, false, st.0.bwd, st.0.dest, tracks.1)
    &&& best_inv(st.0, st.1)
}

/// The state of a search after its next node has left the queue.
pub open spec fn popped_side(side: SideState) -> SideState {
    SideState { queued: side.queued.remove(least_queued(side.weights, side.queued)), ..side }
}

/// Popping the next node keeps what holds of a search: the node is
/// settled, after all nodes settled before it, at a cost that no settled
/// node exceeds and no queued node is below.
pub proof fn lemma_pop_keeps(
    g: GraphModel,
    forward: bool,
    side: SideState,
    source: usize,
    track: SideTrack,
) -> (settled: SideTrack)
    requires
        side_inv(g, forward, side, source, track),
        side.queued != Set::<usize>::empty(),
    ensures
        is_least_queued(side.weights, side.queued, least_queued(side.weights, side.queued)),
        least_queued(side.weights, side.queued) < g.nodes.len(),
        !track.settled.contains(least_queued(side.weights, side.queued)),
        settled.settled == track.settled.insert(least_queued(side.weights, side.queued)),
        settled.settled.len() == track.settled.len() + 1,
        settled.last == side.weights[least_queued(side.weights, side.queued) as int],
        side_inv(g, forward, popped_side(side), source, settled),
{
    let n = g.nodes.len();
    lemma_least_exists(side.weights, side.queued, n);
    let u = least_queued(side.weights, side.queued);
    assert(side.queued.contains(u));
    assert(!track.settled.contains(u));
    let popped = popped_side(side);
    let settled = SideTrack {
        settled: track.settled.insert(u),
        stamp: track.stamp.update(u as int, track.settled.len() as int),
        last: side.weights[u as int],
    };
    assert forall|x: usize| #[trigger] settled.settled.contains(x) implies x < n && 0
        <= settled.stamp[x as int] < settled.settled.len() && popped.weights[x as int]
        <= settled.last && !popped.queued.contains(x) by {
        if x != u {
            assert(track.settled.contains(x));
        }
    }
    assert forall|x: usize| #[trigger] popped.queued.contains(x) implies x < n && settled.last
        <= popped.weights[x as int] < INFINITY by {
        assert(side.queued.contains(x));
        assert(entry_le(node_entry(side.weights, u), node_entry(side.weights, x)));
    }
    assert forall|v: int| 0 <= v < n && (#[trigger] popped.prev[v]).is_some() implies step_ok(
        g,
        forward,
        popped,
        settled,
        v,
    ) by {
        assert(side.prev[v].is_some());
        assert(step_ok(g, forward, side, track, v));
        let p = side.prev[v].unwrap().0;
        assert(track.settled.contains(p));
        assert(p != u);
        assert(0 <= track.stamp[p as int] < track.settled.len());
        assert(settled.stamp[p as int] == track.stamp[p as int]);
        if v == u {
            assert(settled.stamp[v] == track.settled.len());
        } else if settled.settled.contains(v as usize) {
            assert(track.settled.contains(v as usize));
            assert(settled.stamp[v] == track.stamp[v]);
        }
    }
    settled
}

/// One round keeps what holds of a query.
pub proof fn lemma_query_round_keeps(
    csr: CSRGraph,
    g: GraphModel,
    st: (QueryState, Best),
    tracks: (SideTrack, SideTrack),
) -> (after: (SideTrack, SideTrack))
    requires
        holds_rows(csr, g),
        query_inv(g, st, tracks),
        !finished(st.0, st.1),
    ensures
        query_inv(g, query_round(csr, st), after),
        query_round(csr, st).0.src == st.0.src,
        query_round(csr, st).0.dest == st.0.dest,
        after.0.settled.len() + after.1.settled.len() == tracks.0.settled.len()
            + tracks.1.settled.len() + 1,
{
    let forward = forward_next(st.0);
    let side = st.0.side(forward);
    let track = track_of(tracks, forward);
    assert(side_inv(g, forward, side, source_of(st.0, forward), track));
    assert(side.queued != Set::<usize>::empty());
    let settled = lemma_pop_keeps(g, forward, side, source_of(st.0, forward), track);
    let u = least_queued(side.weights, side.queued);
    let popped = st.0.with_side(forward, popped_side(side));
    assert(source_of(popped, forward) == source_of(st.0, forward));
    assert(popped.side(!forward) == st.0.side(!forward));
    assert(best_inv(popped, st.1));
    lemma_relax_row_keeps(
        csr,
        g,
        forward,
        (popped, st.1),
        u,
        row_start(csr, forward, u) as int,
        settled,
    );
    if forward {
        (settled, tracks.1)
    } else {
        (tracks.0, settled)
    }
}

/// The rounds of a query keep what holds of it.
pub proof fn lemma_query_rounds_keep(
    csr: CSRGraph,
    g: GraphModel,
    st: (QueryState, Best),
    tracks: (SideTrack, SideTrack),
    pops: nat,
) -> (after: (SideTrack, SideTrack))
    requires
        holds_rows(csr, g),
        query_inv(g, st, tracks),
    ensures
        query_inv(g, query_rounds(csr, st, pops), after),
        query_rounds(csr, st, pops).0.src == st.0.src,
        query_rounds(csr, st, pops).0.dest == st.0.dest,
    decreases pops,
{
    if pops == 0 || finished(st.0, st.1) {
        tracks
    } else {
        let next = lemma_query_round_keeps(csr, g, st, tracks);
        lemma_query_rounds_keep(csr, g, query_round(csr, st), next, (pops - 1) as nat)
    }
}

/// What the proof keeps of a search that has not started.
pub open spec fn fresh_track(n: nat) -> SideTrack {
    SideTrack { settled: Set::empty(), stamp: Seq::new(n, |i: int| -1int), last: 0 }
}

/// A query that has just been started is as a query is between rounds.
pub proof fn lemma_initial_query_inv(csr: CSRGraph, g: GraphModel, src: usize, dest: usize)
    requires
        holds_rows(csr, g),
        src < g.nodes.len(),
        dest < g.nodes.len(),
    ensures
        query_inv(
            g,
            (
                initial_query(g.nodes.len(), src, dest),
                first_best(csr, initial_query(g.nodes.len(), src, dest)),
            ),
            (fresh_track(g.nodes.len()), fresh_track(g.nodes.len())),
        ),
{
    let n = g.nodes.len();
    assert(csr.nodes.len() <= usize::MAX);
    let q = initial_query(n, src, dest);
    let track = fresh_track(n);
    assert(track.settled.len() == 0);
    assert(side_inv(g, true, q.fwd, src, track));
    assert(side_inv(g, false, q.bwd, dest, track));
}

/// How many steps back from `node` there can be at most.
pub open spec fn steps_bound(track: SideTrack, node: usize) -> int {
    if track.settled.contains(node) {
        track.stamp[node as int]
    } else {
        track.settled.len() as int
    }
}

/// The chain of a search from its source to `node`, in the direction of
/// the graph: for the forward search the steps back from `node` in
/// reverse, for the backward search the steps back as they come.
pub open spec fn chain_to(forward: bool, steps: Seq<usize>) -> Seq<usize> {
    if forward {
        steps.reverse()
    } else {
        steps
    }
}

/// The steps back from a node that a search has reached are a chain of
/// edges between its source and the node, at the cost of the node.
pub proof fn lemma_walk_back_chain(
    g: GraphModel,
    forward: bool,
    side: SideState,
    source: usize,
    track: SideTrack,
    node: usize,
    limit: nat,
)
    requires
        side_inv(g, forward, side, source, track),
        node < g.nodes.len(),
        side.weights[node as int] < INFINITY,
        limit >= steps_bound(track, node),
    ensures
        ({
            let steps = walk_back(side.prev, node, limit);
            let chain = chain_to(forward, steps);
            &&& if forward {
                is_chain(g, chain, source, node)
            } else {
                is_chain(g, chain, node, source)
            }
            &&& total_weight(g, chain) == side.weights[node as int]
        }),
    decreases limit,
{
    let steps = walk_back(side.prev, node, limit);
    if side.prev[node as int].is_none() {
        assert(node == source);
        assert(steps =~= Seq::<usize>::empty());
        assert(steps.reverse() =~= Seq::<usize>::empty());
        assert(total_weight(g, Seq::<usize>::empty()) == 0);
    } else {
        let u = side.prev[node as int].unwrap().0;
        let e = side.prev[node as int].unwrap().1;
        assert(step_ok(g, forward, side, track, node as int));
        assert(track.settled.contains(u));
        assert(0 <= track.stamp[u as int] < track.settled.len());
        assert(limit > 0);
        let rest = walk_back(side.prev, u, (limit - 1) as nat);
        assert(steps == seq![e] + rest);
        lemma_walk_back_chain(g, forward, side, source, track, u, (limit - 1) as nat);
        lemma_weight_one(g, e);
        if forward {
            assert(steps.reverse() =~= rest.reverse() + seq![e]);
            assert(is_chain(g, seq![e], u, node)) by {
                assert(seq![e][0] == e);
            }
            lemma_chain_concat(g, rest.reverse(), seq![e], source, u, node);
            lemma_weight_concat(g, rest.reverse(), seq![e]);
        } else {
            assert(is_chain(g, seq![e], node, u)) by {
                assert(seq![e][0] == e);
            }
            lemma_chain_concat(g, seq![e], rest, node, u, source);
            lemma_weight_concat(g, seq![e], rest);
        }
    }
}

/// The ids of the entries of a run of edges of one direction.
pub proof fn lemma_entry_ids_of_run(ids: Seq<usize>, is_fwd: bool, pick: bool, k: int)
    requires
        0 <= k <= ids.len(),
    ensures
        entry_ids(
            Seq::new(ids.len(), |i: int| QueryResult { edge_id: ids[i], is_fwd }),
            pick,
            k,
        ) == if pick == is_fwd {
            ids.skip(k)
        } else {
            Seq::empty()
        },
    decreases ids.len() - k,
{
    let entries = Seq::new(ids.len(), |i: int| QueryResult { edge_id: ids[i], is_fwd });
    if k < ids.len() {
        lemma_entry_ids_of_run(ids, is_fwd, pick, k + 1);
        if pick == is_fwd {
            assert(ids.skip(k) =~= seq![ids[k]] + ids.skip(k + 1));
        }
    } else {
        assert(ids.skip(k) =~= Seq::<usize>::empty());
    }
}

/// The ids of the entries of two runs, one after the other.
pub proof fn lemma_entry_ids_concat(a: Seq<QueryResult>, b: Seq<QueryResult>, pick: bool, k: int)
    requires
        0 <= k <= a.len(),
    ensures
        entry_ids(a + b, pick, k) == entry_ids(a, pick, k) + entry_ids(b, pick, 0),
    decreases a.len() - k,
{
    if k < a.len() {
        lemma_entry_ids_concat(a, b, pick, k + 1);
        assert((a + b)[k] == a[k]);
        if a[k].is_fwd == pick {
            assert(seq![a[k].edge_id] + (entry_ids(a, pick, k + 1) + entry_ids(b, pick, 0)) =~= (
            seq![a[k].edge_id] + entry_ids(a, pick, k + 1)) + entry_ids(b, pick, 0));
        }
    } else {
        assert(entry_ids(a, pick, k) =~= Seq::<usize>::empty());
        assert((a + b).skip(k) =~= b.skip(0));
        lemma_entry_ids_shift(a + b, b, pick, k, 0);
        assert(Seq::<usize>::empty() + entry_ids(b, pick, 0) =~= entry_ids(b, pick, 0));
    }
}

/// The ids of entries do not depend on the entries before them.
pub proof fn lemma_entry_ids_shift(
    a: Seq<QueryResult>,
    b: Seq<QueryResult>,
    pick: bool,
    i: int,
    j: int,
)
    requires
        0 <= i <= a.len(),
        0 <= j <= b.len(),
        a.skip(i) == b.skip(j),
    ensures
        entry_ids(a, pick, i) == entry_ids(b, pick, j),
    decreases a.len() - i,
{
    assert(a.skip(i).len() == a.len() - i);
    assert(b.skip(j).len() == b.len() - j);
    if i < a.len() {
        assert(a[i] == a.skip(i)[0]);
        assert(b[j] == b.skip(j)[0]);
        assert(a.skip(i + 1) =~= a.skip(i).skip(1));
        assert(b.skip(j + 1) =~= b.skip(j).skip(1));
        lemma_entry_ids_shift(a, b, pick, i + 1, j + 1);
    }
}

/// The path of a query is sound. When a query from `src` to `dest` on the
/// snapshot of a graph ends with a path, the forward entries of the path
/// are a chain of edges of the graph from `src` to the meeting node, its
/// backward entries a chain from the meeting node to `dest`, and the cost
/// of the path is the sum of the costs of these edges.
pub proof fn lemma_query_path_sound(csr: CSRGraph, g: GraphModel, src: usize, dest: usize)
    requires
        holds_rows(csr, g),
        src < g.nodes.len(),
        dest < g.nodes.len(),
    ensures
        ({
            let start = initial_query(g.nodes.len(), src, dest);
            let end = query_rounds(
                csr,
                (start, first_best(csr, start)),
                crate::ch_query::MAX_POPS as nat,
            );
            end.1.is_some() ==> {
                let node = end.1.unwrap().0;
                let entries = packed_entries(end.0, node);
                &&& node < g.nodes.len()
                &&& is_chain(g, entry_ids(entries, true, 0), src, node)
                &&& is_chain(g, entry_ids(entries, false, 0), node, dest)
                &&& total_weight(g, entry_ids(entries, true, 0)) + total_weight(
                    g,
                    entry_ids(entries, false, 0),
                ) == end.1.unwrap().1
            }
        }),
{
    let n = g.nodes.len();
    let start = initial_query(n, src, dest);
    let first = (start, first_best(csr, start));
    let pops = crate::ch_query::MAX_POPS as nat;
    let end = query_rounds(csr, first, pops);
    lemma_initial_query_inv(csr, g, src, dest);
    let tracks = lemma_query_rounds_keep(csr, g, first, (fresh_track(n), fresh_track(n)), pops);
    if end.1.is_some() {
        let node = end.1.unwrap().0;
        let q = end.0;
        lemma_nodes_bounded(tracks.0.settled, n);
        lemma_nodes_bounded(tracks.1.settled, n);
        lemma_walk_back_chain(g, true, q.fwd, src, tracks.0, node, n);
        lemma_walk_back_chain(g, false, q.bwd, dest, tracks.1, node, n);
        let fwd = walk_back(q.fwd.prev, node, q.fwd.prev.len()).reverse();
        let bwd = walk_back(q.bwd.prev, node, q.bwd.prev.len());
        let head = Seq::new(fwd.len(), |i: int| QueryResult { edge_id: fwd[i], is_fwd: true });
        let rest = Seq::new(bwd.len(), |i: int| QueryResult { edge_id: bwd[i], is_fwd: false });
        assert(packed_entries(q, node) == head + rest);
        lemma_entry_ids_concat(head, rest, true, 0);
        lemma_entry_ids_concat(head, rest, false, 0);
        lemma_entry_ids_of_run(fwd, true, true, 0);
        lemma_entry_ids_of_run(fwd, true, false, 0);
        lemma_entry_ids_of_run(bwd, false, true, 0);
        lemma_entry_ids_of_run(bwd, false, false, 0);
        assert(fwd.skip(0) =~= fwd);
        assert(bwd.skip(0) =~= bwd);
        assert(entry_ids(head + rest, true, 0) =~= fwd);
        assert(entry_ids(head + rest, false, 0) =~= bwd);
    }
}

} // verus!
