//! The witness searcher: a reusable forward search from one source that
//! treats one node as removed and stops at a cost bound or a pop budget.
use crate::graph::{add_weights, weight_add, Graph, GraphModel, INFINITY};
use crate::queue::{
    entry_le, queue_clear, queue_entries, queue_new, queue_pop, queue_push,
    MinQueue,
};
use vstd::prelude::*;

verus! {

/// The state of a search as plain values: the tentative cost of every node
/// and the set of nodes that wait in the queue. A queued node waits under
/// its tentative cost; among equal costs the lower node leaves first.
pub struct SearchState {
    pub src: usize,
    pub ignore: usize,
    pub weights: Seq<u64>,
    pub queued: Set<usize>,
}

/// The state right after `init`: only the source is reached and queued.
pub open spec fn initial_state(num_nodes: nat, src: usize, ignore: usize) -> SearchState {
    SearchState {
        src,
        ignore,
        weights: Seq::new(
            num_nodes,
            |i: int|
                if i == src {
                    0u64
                } else {
                    INFINITY
                },
        ),
        queued: set![src],
    }
}

/// The pair under which node `u` is queued.
pub open spec fn node_entry(weights: Seq<u64>, u: usize) -> (i128, usize) {
    (weights[u as int] as i128, u)
}

/// `u` is queued and no queued node comes before it: none has a lower
/// cost, and none of the same cost has a lower id.
pub open spec fn is_least_queued(weights: Seq<u64>, queued: Set<usize>, u: usize) -> bool {
    &&& queued.contains(u)
    &&& forall|x: usize| #[trigger]
        queued.contains(x) ==> entry_le(node_entry(weights, u), node_entry(weights, x))
}

/// The queued node that leaves the queue next.
pub open spec fn least_queued(weights: Seq<u64>, queued: Set<usize>) -> usize {
    choose|u: usize| is_least_queued(weights, queued, u)
}

/// Only one queued node can be the next to leave.
pub proof fn lemma_least_queued_unique(weights: Seq<u64>, queued: Set<usize>, u: usize)
    requires
        is_least_queued(weights, queued, u),
    ensures
        least_queued(weights, queued) == u,
{
    let m = least_queued(weights, queued);
    assert(is_least_queued(weights, queued, m));
    assert(queued.contains(m));
    assert(queued.contains(u));
    assert(entry_le(node_entry(weights, u), node_entry(weights, m)));
    assert(entry_le(node_entry(weights, m), node_entry(weights, u)));
}

/// The state after relaxing edge number `k` of the forward list of `u`:
/// an edge into the ignored node is skipped; a strictly lower cost is
/// recorded and its node queued.
pub open spec fn relax_edge(g: GraphModel, st: SearchState, u: usize, k: int) -> SearchState {
    let e = g.fwd[u as int][k];
    let v = g.edges[e as int].dest_id;
    let alt = weight_add(st.weights[u as int], g.weight_of(e as int));
    if v != st.ignore && alt < st.weights[v as int] {
        SearchState { weights: st.weights.update(v as int, alt), queued: st.queued.insert(v), ..st }
    } else {
        st
    }
}

/// The state after relaxing the edges of `u` from number `k` on, in list
/// order.
pub open spec fn relax_from(g: GraphModel, st: SearchState, u: usize, k: int) -> SearchState
    decreases g.fwd[u as int].len() - k,
{
    if 0 <= k < g.fwd[u as int].len() {
        relax_from(g, relax_edge(g, st, u, k), u, k + 1)
    } else {
        st
    }
}

/// The state in which a search for `dest` ends, and the cost it returns.
/// Each round first returns when `dest` is known at or below `limit`, then
/// when the pop budget is spent, then when the queue is empty; else it pops
/// the next node, relaxes its edges, and returns when that node was `dest`.
pub open spec fn search_from(
    g: GraphModel,
    st: SearchState,
    dest: usize,
    limit: u64,
    hops_left: nat,
) -> (SearchState, u64)
    decreases hops_left,
{
    if st.weights[dest as int] <= limit {
        (st, st.weights[dest as int])
    } else if hops_left == 0 {
        (st, st.weights[dest as int])
    } else if st.queued == Set::<usize>::empty() {
        (st, st.weights[dest as int])
    } else {
        let u = least_queued(st.weights, st.queued);
        let popped = SearchState { queued: st.queued.remove(u), ..st };
        let relaxed = relax_from(g, popped, u, 0);
        if u == dest {
            (relaxed, relaxed.weights[dest as int])
        } else {
            search_from(g, relaxed, dest, limit, (hops_left - 1) as nat)
        }
    }
}

/// A witness searcher for graphs of a fixed number of nodes.
pub struct Dijkstra {
    src: usize,
    ignore: usize,
    weights: Vec<u64>,
    queue: MinQueue,
}

impl View for Dijkstra {
    type V = SearchState;

    closed spec fn view(&self) -> SearchState {
        SearchState {
            src: self.src,
            ignore: self.ignore,
            weights: self.weights@,
            queued: queue_entries(self.queue).dom(),
        }
    }
}

impl Dijkstra {
    /// Every queued node is a node of the graph and waits under its
    /// tentative cost.
    pub closed spec fn wf(&self) -> bool {
        forall|u: usize| #[trigger]
            queue_entries(self.queue).contains_key(u) ==> u < self.weights@.len()
                && queue_entries(self.queue)[u] == node_entry(self.weights@, u)
    }

    /// A searcher for graphs of `num_nodes` nodes, with nothing reached.
    pub fn new(num_nodes: usize) -> (searcher: Self)
        ensures
            searcher.wf(),
            searcher@ == (SearchState {
                src: 0,
                ignore: 0,
                weights: Seq::new(num_nodes as nat, |i: int| INFINITY),
                queued: Set::<usize>::empty(),
            }),
    {
        let searcher = Self { src: 0, ignore: 0, weights: vec![INFINITY; num_nodes], queue: queue_new() };
        assert(searcher@.weights =~= Seq::new(num_nodes as nat, |i: int| INFINITY));
        assert(searcher@.queued =~= Set::<usize>::empty());
        searcher
    }

    /// Starts a search from `src` in which node `ignore` counts as removed.
    pub fn init(&mut self, src: usize, ignore: usize)
        requires
            src < old(self)@.weights.len(),
        ensures
            final(self).wf(),
            final(self)@ == initial_state(old(self)@.weights.len(), src, ignore),
    {
        self.reset();
        self.src = src;
        self.ignore = ignore;
        let _ = queue_push(&mut self.queue, src, (0, src));
        self.weights[src] = 0;
        assert(self@.weights =~= initial_state(old(self)@.weights.len(), src, ignore).weights);
        assert(self@.queued =~= initial_state(old(self)@.weights.len(), src, ignore).queued);
    }

    /// Forgets every cost and empties the queue.
    fn reset(&mut self)
        ensures
            final(self).src == old(self).src,
            final(self).ignore == old(self).ignore,
            final(self).weights@ == Seq::new(old(self).weights@.len(), |i: int| INFINITY),
            queue_entries(final(self).queue) == Map::<usize, (i128, usize)>::empty(),
    {
        let n: usize = self.weights.len();
        let mut i: usize = 0;
        while i < n
            invariant
                i <= n,
                n == self.weights@.len(),
                self.src == old(self).src,
                self.ignore == old(self).ignore,
                self.queue == old(self).queue,
                forall|j: int| 0 <= j < i ==> self.weights@[j] == INFINITY,
            decreases n - i,
        {
            self.weights[i] = INFINITY;
            i += 1;
        }
        queue_clear(&mut self.queue);
        assert(self.weights@ =~= Seq::new(old(self).weights@.len(), |i: int| INFINITY));
    }

    /// Relaxes every edge that leaves `u`, in list order.
    fn relax(&mut self, graph: &Graph, u: usize)
        requires
            old(self).wf(),
            graph.wf(),
            old(self)@.weights.len() == graph.nodes@.len(),
            u < graph.nodes@.len(),
        ensures
            final(self).wf(),
            final(self)@ == relax_from(graph@, old(self)@, u, 0),
            final(self)@.weights.len() == graph.nodes@.len(),
    {
        let list = graph.get_fwd_neighbors(u);
        let n: usize = list.len();
        let mut k: usize = 0;
        while k < n
            invariant
                k <= n,
                n == list@.len(),
                list@ == graph.fwd(u as int),
                self.wf(),
                graph.wf(),
                self@.weights.len() == graph.nodes@.len(),
                u < graph.nodes@.len(),
                relax_from(graph@, self@, u, k as int) == relax_from(graph@, old(self)@, u, 0),
            decreases n - k,
        {
            let ghost before = self@;
            let id: usize = list[k];
            assert(graph.fwd(u as int)[k as int] == id);
            let edge = graph.get_edge(id);
            let v: usize = edge.dest_id;
            let alt: u64 = add_weights(self.weights[u], graph.get_edge_metadata(edge).weight);
            if v != self.ignore && alt < self.weights[v] {
                self.weights[v] = alt;
                let _ = queue_push(&mut self.queue, v, (alt as i128, v));
            }
            assert(self@.weights =~= relax_edge(graph@, before, u, k as int).weights);
            assert(self@.queued =~= relax_edge(graph@, before, u, k as int).queued);
            k += 1;
        }
    }

    /// Continues the search until the cost of `dest` is known at or below
    /// `limit_weight`, `max_hops` nodes have been popped, the queue is
    /// empty or `dest` itself has been popped, and returns the cost of
    /// `dest` known by then, `INFINITY` when it has not been reached.
    pub fn search(&mut self, graph: &Graph, dest: usize, limit_weight: u64, max_hops: usize) -> (weight:
        u64)
        requires
            old(self).wf(),
            graph.wf(),
            old(self)@.weights.len() == graph.nodes@.len(),
            dest < graph.nodes@.len(),
        ensures
            final(self).wf(),
            final(self)@.weights.len() == graph.nodes@.len(),
            (final(self)@, weight) == search_from(
                graph@,
                old(self)@,
                dest,
                limit_weight,
                max_hops as nat,
            ),
    {
        let mut num_hops: usize = 0;
        loop
            invariant
                num_hops <= max_hops,
                self.wf(),
                graph.wf(),
                self@.weights.len() == graph.nodes@.len(),
                dest < graph.nodes@.len(),
                search_from(graph@, self@, dest, limit_weight, (max_hops - num_hops) as nat)
                    == search_from(graph@, old(self)@, dest, limit_weight, max_hops as nat),
            decreases max_hops - num_hops,
        {
            if self.weights[dest] <= limit_weight {
                return self.weights[dest];
            }
            if num_hops == max_hops {
                return self.weights[dest];
            }
            let ghost before = self@;
            match queue_pop(&mut self.queue) {
                None => {
                    assert(before.queued =~= Set::<usize>::empty());
                    return self.weights[dest];
                },
                Some((curr, _)) => {
                    proof {
                        assert(before.queued.contains(curr));
                        assert(is_least_queued(before.weights, before.queued, curr));
                        lemma_least_queued_unique(before.weights, before.queued, curr);
                        assert(self@.queued =~= before.queued.remove(curr));
                    }
                    self.relax(graph, curr);
                    num_hops += 1;
                    if curr == dest {
                        return self.weights[dest];
                    }
                },
            }
        }
    }
}

/// The number of pops that one local search may spend.
pub const MAX_LOCAL_POPS: u64 = 0xffff_ffff_ffff_ffff;

/// What a local search for `dest` finds from the state `st`: round by
/// round the next node leaves the queue; the search gives up when that
/// node costs `limit` or more, ends with the cost of `dest` when the node
/// is `dest`, and else relaxes the edges of the node. An empty queue or a
/// spent budget of pops finds nothing.
pub open spec fn local_search(
    g: GraphModel,
    st: SearchState,
    dest: usize,
    limit: u64,
    pops: nat,
) -> Option<u64>
    decreases pops,
{
    if pops == 0 || st.queued == Set::<usize>::empty() {
        None
    } else {
        let u = least_queued(st.weights, st.queued);
        if st.weights[u as int] >= limit {
            None
        } else if u == dest {
            Some(st.weights[u as int])
        } else {
            local_search(
                g,
                relax_from(g, SearchState { queued: st.queued.remove(u), ..st }, u, 0),
                dest,
                limit,
                (pops - 1) as nat,
            )
        }
    }
}

/// A local search for the witness phase: the cost of the cheapest way from
/// `src_node` to `dest_node` that does not enter `exclude_node`, if the
/// search reaches `dest_node` before it pops a node that costs
/// `limit_weight` or more.
pub fn local_dijkstra(
    graph: &Graph,
    src_node: usize,
    dest_node: usize,
    exclude_node: usize,
    limit_weight: u64,
) -> (found: Option<u64>)
    requires
        graph.wf(),
        src_node < graph.nodes@.len(),
        dest_node < graph.nodes@.len(),
    ensures
        found == local_search(
            graph@,
            initial_state(graph.nodes@.len(), src_node, exclude_node),
            dest_node,
            limit_weight,
            MAX_LOCAL_POPS as nat,
        ),
{
    let mut searcher = Dijkstra::new(graph.num_nodes());
    searcher.init(src_node, exclude_node);
    let ghost start = searcher@;
    let mut pops: u64 = 0;
    while pops < MAX_LOCAL_POPS
        invariant
            pops <= MAX_LOCAL_POPS,
            start == initial_state(graph.nodes@.len(), src_node, exclude_node),
            searcher.wf(),
            graph.wf(),
            searcher@.weights.len() == graph.nodes@.len(),
            dest_node < graph.nodes@.len(),
            local_search(graph@, searcher@, dest_node, limit_weight, (MAX_LOCAL_POPS - pops) as nat)
                == local_search(graph@, start, dest_node, limit_weight, MAX_LOCAL_POPS as nat),
        decreases MAX_LOCAL_POPS - pops,
    {
        let ghost before = searcher@;
        match queue_pop(&mut searcher.queue) {
            None => {
                assert(before.queued =~= Set::<usize>::empty());
                return None;
            },
            Some((curr_id, _)) => {
                proof {
                    assert(before.queued.contains(curr_id));
                    assert(is_least_queued(before.weights, before.queued, curr_id));
                    lemma_least_queued_unique(before.weights, before.queued, curr_id);
                    assert(searcher@.queued =~= before.queued.remove(curr_id));
                }
                let curr_dist: u64 = searcher.weights[curr_id];
                if curr_dist >= limit_weight {
                    return None;
                }
                if curr_id == dest_node {
                    return Some(curr_dist);
                }
                searcher.relax(graph, curr_id);
            },
        }
        pops += 1;
    }
    None
}

} // verus!
