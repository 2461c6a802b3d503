//! The bidirectional upward query on a snapshot: a forward search from the
//! source and a backward search from the target, each of which only climbs
//! to nodes of no lower rank, and the packed path through the node where
//! the two meet at the least total cost.
//!
//! A packed path names its edges by the ids that they had in the mutable
//! graph: first the forward edges from the source to the meeting node, then
//! the backward edges from the meeting node to the target, both in travel
//! order.
use crate::csr_graph::{CSREdgeHot, CSRGraph};
use crate::graph::{add_weights, weight_add, INFINITY};
use crate::queue::{queue_clear, queue_entries, queue_new, queue_peek, queue_pop, queue_push, MinQueue};
use crate::witness_search::{
    is_least_queued, least_queued, lemma_least_queued_unique, node_entry,
};
use vstd::prelude::*;

verus! {

/// The number of pops that one query may spend.
pub const MAX_POPS: u64 = 0xffff_ffff_ffff_ffff;

/// One edge of a packed path.
#[derive(Debug, Clone, Copy, PartialEq, Eq, Structural)]
pub struct QueryResult {
    /// The id that the edge had in the mutable graph.
    pub edge_id: usize,
    /// Whether the forward search found the edge.
    pub is_fwd: bool,
}

/// The result of a query: the edges, the node where the two searches met,
/// and the total cost.
#[derive(Debug, Clone)]
pub struct PackedPath {
    pub entries: Vec<QueryResult>,
    pub meeting_node: usize,
    pub weight: u64,
}

/// A step back along a search tree: the node before, and the id of the edge
/// that led from it.
pub type Step = Option<(usize, usize)>;

/// One of the two searches as plain values.
pub struct SideState {
    pub weights: Seq<u64>,
    pub prev: Seq<Step>,
    pub queued: Set<usize>,
}

/// A query as plain values.
pub struct QueryState {
    pub src: usize,
    pub dest: usize,
    pub fwd: SideState,
    pub bwd: SideState,
}

/// The best meeting node found so far, with its total cost.
pub type Best = Option<(usize, u64)>;

impl QueryState {
    /// The search of one direction.
    pub open spec fn side(self, forward: bool) -> SideState {
        if forward {
            self.fwd
        } else {
            self.bwd
        }
    }

    /// The query with the search of one direction replaced.
    pub open spec fn with_side(self, forward: bool, side: SideState) -> QueryState {
        if forward {
            QueryState { fwd: side, ..self }
        } else {
            QueryState { bwd: side, ..self }
        }
    }
}

/// The state right after `init`: each search has reached its own end only.
pub open spec fn initial_query(num_nodes: nat, src: usize, dest: usize) -> QueryState {
    QueryState {
        src,
        dest,
        fwd: SideState {
            weights: Seq::new(
                num_nodes,
                |i: int|
                    if i == src {
                        0u64
                    } else {
                        INFINITY
                    },
            ),
            prev: Seq::new(num_nodes, |i: int| None),
            queued: set![src],
        },
        bwd: SideState {
            weights: Seq::new(
                num_nodes,
                |i: int|
                    if i == dest {
                        0u64
                    } else {
                        INFINITY
                    },
            ),
            prev: Seq::new(num_nodes, |i: int| None),
            queued: set![dest],
        },
    }
}

/// The position in the hot array of entry `i` of the columns of one
/// direction.
pub open spec fn column(csr: CSRGraph, forward: bool, i: int) -> usize {
    if forward {
        csr.cols_fwd@[i]
    } else {
        csr.cols_bwd@[i]
    }
}

/// Where the row of `u` starts in the columns of one direction.
pub open spec fn row_start(csr: CSRGraph, forward: bool, u: usize) -> usize {
    if forward {
        csr.row_fwd_ptr@[u as int]
    } else {
        csr.row_bwd_ptr@[u as int]
    }
}

/// Where the row of `u` ends in the columns of one direction.
pub open spec fn row_end(csr: CSRGraph, forward: bool, u: usize) -> usize {
    if forward {
        csr.row_fwd_ptr@[u + 1]
    } else {
        csr.row_bwd_ptr@[u + 1]
    }
}

/// The better of `best` and node `v` at total cost `total`; an infinite
/// total is no candidate and an equal one does not replace.
pub open spec fn better(best: Best, v: usize, total: u64) -> Best {
    if total < INFINITY && (best.is_none() || total < best.unwrap().1) {
        Some((v, total))
    } else {
        best
    }
}

/// The state after the search of one direction, at node `u`, has looked at
/// the edge `hot`: an edge to a node of lower rank is skipped; a strictly
/// lower cost is recorded with the step back and the node queued; then the
/// node counts as a meeting node if the other search has reached it too.
pub open spec fn relax_hot(
    csr: CSRGraph,
    forward: bool,
    st: (QueryState, Best),
    u: usize,
    hot: CSREdgeHot,
) -> (QueryState, Best) {
    let v = hot.target;
    if csr.nodes@[v as int].rank < csr.nodes@[u as int].rank {
        st
    } else {
        let side = st.0.side(forward);
        let alt = weight_add(side.weights[u as int], hot.weight);
        let relaxed = if alt < side.weights[v as int] {
            SideState {
                weights: side.weights.update(v as int, alt),
                prev: side.prev.update(v as int, Some((u, hot.id))),
                queued: side.queued.insert(v),
            }
        } else {
            side
        };
        let total = weight_add(relaxed.weights[v as int], st.0.side(!forward).weights[v as int]);
        (st.0.with_side(forward, relaxed), better(st.1, v, total))
    }
}

/// The same over the row of `u` from column `i` on.
pub open spec fn relax_row_from(
    csr: CSRGraph,
    forward: bool,
    st: (QueryState, Best),
    u: usize,
    i: int,
) -> (QueryState, Best)
    decreases row_end(csr, forward, u) - i,
{
    if 0 <= i < row_end(csr, forward, u) {
        relax_row_from(
            csr,
            forward,
            relax_hot(csr, forward, st, u, csr.values_hot@[column(csr, forward, i) as int]),
            u,
            i + 1,
        )
    } else {
        st
    }
}

/// The least cost that waits in the queue of a search.
pub open spec fn top_key(side: SideState) -> u64 {
    side.weights[least_queued(side.weights, side.queued) as int]
}

/// The forward search moves next: the backward queue is empty, or the
/// forward queue is not and its least cost is not above that of the
/// backward queue.
pub open spec fn forward_next(q: QueryState) -> bool {
    q.bwd.queued == Set::<usize>::empty() || (q.fwd.queued != Set::<usize>::empty() && top_key(
        q.fwd,
    ) <= top_key(q.bwd))
}

/// The query is over: both queues are empty, or a meeting node is known
/// and no queue holds a cost below its total.
pub open spec fn finished(q: QueryState, best: Best) -> bool {
    let none_fwd = q.fwd.queued == Set::<usize>::empty();
    let none_bwd = q.bwd.queued == Set::<usize>::empty();
    ||| (none_fwd && none_bwd)
    ||| (best.is_some() && (none_fwd || top_key(q.fwd) >= best.unwrap().1) && (none_bwd || top_key(
        q.bwd,
    ) >= best.unwrap().1))
}

/// The state after one round: the search with the lower queue top pops its
/// next node and looks at the row of that node.
pub open spec fn query_round(csr: CSRGraph, st: (QueryState, Best)) -> (QueryState, Best) {
    let forward = forward_next(st.0);
    let side = st.0.side(forward);
    let u = least_queued(side.weights, side.queued);
    let popped = st.0.with_side(forward, SideState { queued: side.queued.remove(u), ..side });
    relax_row_from(csr, forward, (popped, st.1), u, row_start(csr, forward, u) as int)
}

/// The state when the query is over, or after `pops` rounds.
pub open spec fn query_rounds(csr: CSRGraph, st: (QueryState, Best), pops: nat) -> (
    QueryState,
    Best,
)
    decreases pops,
{
    if pops == 0 || finished(st.0, st.1) {
        st
    } else {
        query_rounds(csr, query_round(csr, st), (pops - 1) as nat)
    }
}

/// The meeting node that is known before the first round: the source, if
/// it is the target as well and has an edge at all.
pub open spec fn first_best(csr: CSRGraph, q: QueryState) -> Best {
    if q.src == q.dest && (row_start(csr, true, q.src) < row_end(csr, true, q.src) || row_start(
        csr,
        false,
        q.src,
    ) < row_end(csr, false, q.src)) {
        better(
            None,
            q.src,
            weight_add(q.fwd.weights[q.src as int], q.bwd.weights[q.src as int]),
        )
    } else {
        None
    }
}

/// The ids of the edges on the way back from `node` along the steps of a
/// search, nearest first; at most `limit` of them.
pub open spec fn walk_back(prev: Seq<Step>, node: usize, limit: nat) -> Seq<usize>
    decreases limit,
{
    if limit == 0 || node >= prev.len() || prev[node as int].is_none() {
        Seq::empty()
    } else {
        seq![prev[node as int].unwrap().1] + walk_back(
            prev,
            prev[node as int].unwrap().0,
            (limit - 1) as nat,
        )
    }
}

/// The entries of the path through `meeting_node`: the forward edges from
/// the source, then the backward edges to the target.
pub open spec fn packed_entries(q: QueryState, meeting_node: usize) -> Seq<QueryResult> {
    let fwd = walk_back(q.fwd.prev, meeting_node, q.fwd.prev.len()).reverse();
    let bwd = walk_back(q.bwd.prev, meeting_node, q.bwd.prev.len());
    Seq::new(fwd.len(), |i: int| QueryResult { edge_id: fwd[i], is_fwd: true }) + Seq::new(
        bwd.len(),
        |i: int| QueryResult { edge_id: bwd[i], is_fwd: false },
    )
}

/// Every step back names an edge whose cold records lie below `bound`.
pub open spec fn steps_below(prev: Seq<Step>, bound: nat) -> bool {
    forall|v: int|
        0 <= v < prev.len() ==> (#[trigger] prev[v]).is_some() ==> prev[v].unwrap().1 * 2 < bound
}

/// Every entry names an edge whose cold records lie below `bound`.
pub open spec fn entries_below(entries: Seq<QueryResult>, bound: nat) -> bool {
    forall|k: int| 0 <= k < entries.len() ==> (#[trigger] entries[k]).edge_id * 2 < bound
}

/// A packed path is the one that the state `q` holds through the best
/// meeting node; without a meeting node there is no path.
pub open spec fn is_path_of(path: Option<PackedPath>, q: QueryState, best: Best) -> bool {
    match best {
        None => path.is_none(),
        Some((node, total)) => {
            &&& path.is_some()
            &&& path.unwrap().meeting_node == node
            &&& path.unwrap().weight == total
            &&& path.unwrap().entries@ == packed_entries(q, node)
        },
    }
}

/// A bidirectional query for snapshots of a fixed number of nodes.
pub struct BiDirDijkstra {
    src: usize,
    dest: usize,
    fwd_weights: Vec<u64>,
    fwd_prev: Vec<Step>,
    bwd_weights: Vec<u64>,
    bwd_prev: Vec<Step>,
    fwd_queue: MinQueue,
    bwd_queue: MinQueue,
}

impl View for BiDirDijkstra {
    type V = QueryState;

    closed spec fn view(&self) -> QueryState {
        QueryState {
            src: self.src,
            dest: self.dest,
            fwd: SideState {
                weights: self.fwd_weights@,
                prev: self.fwd_prev@,
                queued: queue_entries(self.fwd_queue).dom(),
            },
            bwd: SideState {
                weights: self.bwd_weights@,
                prev: self.bwd_prev@,
                queued: queue_entries(self.bwd_queue).dom(),
            },
        }
    }
}

/// Every queued node is in range and waits under its cost, and every step
/// back leads to a node in range.
pub open spec fn side_wf(
    weights: Seq<u64>,
    prev: Seq<Step>,
    entries: Map<usize, (i128, usize)>,
    num_nodes: nat,
) -> bool {
    &&& weights.len() == num_nodes
    &&& prev.len() == num_nodes
    &&& forall|u: usize| #[trigger]
        entries.contains_key(u) ==> u < num_nodes && entries[u] == node_entry(weights, u)
    &&& forall|v: int|
        0 <= v < num_nodes ==> (#[trigger] prev[v]).is_some() ==> prev[v].unwrap().0 < num_nodes
}

impl BiDirDijkstra {
    /// The number of nodes that the query is sized for.
    pub closed spec fn num_nodes(&self) -> nat {
        self.fwd_weights@.len()
    }

    pub closed spec fn wf(&self) -> bool {
        &&& self.src < self.num_nodes()
        &&& self.dest < self.num_nodes()
        &&& side_wf(
            self.fwd_weights@,
            self.fwd_prev@,
            queue_entries(self.fwd_queue),
            self.num_nodes(),
        )
        &&& side_wf(
            self.bwd_weights@,
            self.bwd_prev@,
            queue_entries(self.bwd_queue),
            self.num_nodes(),
        )
    }

    /// A query for snapshots of `num_nodes` nodes, with nothing reached.
    pub fn new(num_nodes: usize) -> (query: Self)
        ensures
            query.num_nodes() == num_nodes,
            query@ == (QueryState {
                src: 0,
                dest: 0,
                fwd: SideState {
                    weights: Seq::new(num_nodes as nat, |i: int| INFINITY),
                    prev: Seq::new(num_nodes as nat, |i: int| None),
                    queued: Set::<usize>::empty(),
                },
                bwd: SideState {
                    weights: Seq::new(num_nodes as nat, |i: int| INFINITY),
                    prev: Seq::new(num_nodes as nat, |i: int| None),
                    queued: Set::<usize>::empty(),
                },
            }),
    {
        let fwd_weights: Vec<u64> = vec![INFINITY; num_nodes];
        let bwd_weights: Vec<u64> = vec![INFINITY; num_nodes];
        let fwd_prev: Vec<Step> = vec![None; num_nodes];
        let bwd_prev: Vec<Step> = vec![None; num_nodes];
        let fwd_queue = queue_new();
        let bwd_queue = queue_new();
        let query = Self {
            src: 0,
            dest: 0,
            fwd_weights,
            bwd_weights,
            bwd_prev,
            fwd_prev,
            fwd_queue,
            bwd_queue,
        };
        proof {
            assert(query@.fwd.weights =~= Seq::new(num_nodes as nat, |i: int| INFINITY));
            assert(query@.bwd.weights =~= Seq::new(num_nodes as nat, |i: int| INFINITY));
            assert(query@.fwd.prev =~= Seq::new(num_nodes as nat, |i: int| None));
            assert(query@.bwd.prev =~= Seq::new(num_nodes as nat, |i: int| None));
            assert(query@.fwd.queued =~= Set::<usize>::empty());
            assert(query@.bwd.queued =~= Set::<usize>::empty());
        }
        query
    }

    /// Starts a query from `src` to `dest`.
    pub fn init(&mut self, src: usize, dest: usize)
        requires
            src < old(self).num_nodes(),
            dest < old(self).num_nodes(),
        ensures
            final(self).wf(),
            final(self).num_nodes() == old(self).num_nodes(),
            final(self)@ == initial_query(old(self).num_nodes(), src, dest),
    {
        self.reset();
        self.src = src;
        self.dest = dest;
        let _ = queue_push(&mut self.fwd_queue, src, (0, src));
        self.fwd_weights[src] = 0;
        let _ = queue_push(&mut self.bwd_queue, dest, (0, dest));
        self.bwd_weights[dest] = 0;
        proof {
            let start = initial_query(old(self).num_nodes(), src, dest);
            assert(self@.fwd.weights =~= start.fwd.weights);
            assert(self@.bwd.weights =~= start.bwd.weights);
            assert(self@.fwd.prev =~= start.fwd.prev);
            assert(self@.bwd.prev =~= start.bwd.prev);
            assert(self@.fwd.queued =~= start.fwd.queued);
            assert(self@.bwd.queued =~= start.bwd.queued);
        }
    }

    /// Forgets every cost and step and empties both queues.
    fn reset(&mut self)
        ensures
            final(self).src == old(self).src,
            final(self).dest == old(self).dest,
            final(self).fwd_weights@ == Seq::new(old(self).fwd_weights@.len(), |i: int| INFINITY),
            final(self).bwd_weights@ == Seq::new(old(self).fwd_weights@.len(), |i: int| INFINITY),
            final(self).fwd_prev@ == Seq::new(old(self).fwd_weights@.len(), |i: int| None::<(usize, usize)>),
            final(self).bwd_prev@ == Seq::new(old(self).fwd_weights@.len(), |i: int| None::<(usize, usize)>),
            queue_entries(final(self).fwd_queue) == Map::<usize, (i128, usize)>::empty(),
            queue_entries(final(self).bwd_queue) == Map::<usize, (i128, usize)>::empty(),
    {
        let n: usize = self.fwd_weights.len();
        self.fwd_weights = vec![INFINITY; n];
        self.bwd_weights = vec![INFINITY; n];
        self.fwd_prev = vec![None; n];
        self.bwd_prev = vec![None; n];
        queue_clear(&mut self.fwd_queue);
        queue_clear(&mut self.bwd_queue);
        proof {
            assert(self.fwd_weights@ =~= Seq::new(n as nat, |i: int| INFINITY));
            assert(self.bwd_weights@ =~= Seq::new(n as nat, |i: int| INFINITY));
            assert(self.fwd_prev@ =~= Seq::new(n as nat, |i: int| None::<(usize, usize)>));
            assert(self.bwd_prev@ =~= Seq::new(n as nat, |i: int| None::<(usize, usize)>));
        }
    }
}

/// Looks at the row of `u` in one direction: the edges are relaxed in row
/// order into the search of that direction, and each reached node that the
/// other search knows too is held against the best meeting node.
fn relax_row(
    csr: &CSRGraph,
    forward: bool,
    weights: &mut Vec<u64>,
    prev: &mut Vec<Step>,
    queue: &mut MinQueue,
    other_weights: &Vec<u64>,
    best: Best,
    u: usize,
    Ghost(q): Ghost<QueryState>,
) -> (new_best: Best)
    requires
        csr.wf(),
        u < csr.nodes@.len(),
        side_wf(old(weights)@, old(prev)@, queue_entries(*old(queue)), csr.nodes@.len()),
        other_weights@.len() == csr.nodes@.len(),
        q.side(forward) == (SideState {
            weights: old(weights)@,
            prev: old(prev)@,
            queued: queue_entries(*old(queue)).dom(),
        }),
        q.side(!forward).weights == other_weights@,
        best.is_some() ==> best.unwrap().0 < csr.nodes@.len(),
    ensures
        side_wf(final(weights)@, final(prev)@, queue_entries(*final(queue)), csr.nodes@.len()),
        new_best.is_some() ==> new_best.unwrap().0 < csr.nodes@.len(),
        csr.cold_wf() && steps_below(old(prev)@, csr.values_cold@.len()) ==> steps_below(
            final(prev)@,
            csr.values_cold@.len(),
        ),
        relax_row_from(*csr, forward, (q, best), u, row_start(*csr, forward, u) as int) == (
            q.with_side(
                forward,
                SideState {
                    weights: final(weights)@,
                    prev: final(prev)@,
                    queued: queue_entries(*final(queue)).dom(),
                },
            ),
            new_best,
        ),
{
    assert(csr.row_fwd_ptr.len() <= usize::MAX);
    let cols = if forward {
        &csr.cols_fwd
    } else {
        &csr.cols_bwd
    };
    let start: usize = if forward {
        csr.row_fwd_ptr[u]
    } else {
        csr.row_bwd_ptr[u]
    };
    let end: usize = if forward {
        csr.row_fwd_ptr[u + 1]
    } else {
        csr.row_bwd_ptr[u + 1]
    };
    let mut best = best;
    let ghost first = (q, best);
    let mut i: usize = start;
    while i < end
        invariant
            csr.wf(),
            u < csr.nodes@.len(),
            start == row_start(*csr, forward, u),
            end == row_end(*csr, forward, u),
            start <= i <= end,
            end <= cols@.len(),
            forall|c: int| 0 <= c < cols@.len() ==> cols@[c] == column(*csr, forward, c),
            side_wf(weights@, prev@, queue_entries(*queue), csr.nodes@.len()),
            other_weights@.len() == csr.nodes@.len(),
            q.side(!forward).weights == other_weights@,
            best.is_some() ==> best.unwrap().0 < csr.nodes@.len(),
            csr.cold_wf() && steps_below(old(prev)@, csr.values_cold@.len()) ==> steps_below(
                prev@,
                csr.values_cold@.len(),
            ),
            relax_row_from(
                *csr,
                forward,
                (
                    q.with_side(
                        forward,
                        SideState {
                            weights: weights@,
                            prev: prev@,
                            queued: queue_entries(*queue).dom(),
                        },
                    ),
                    best,
                ),
                u,
                i as int,
            ) == relax_row_from(*csr, forward, first, u, start as int),
        decreases end - i,
    {
        let ghost before = (
            q.with_side(
                forward,
                SideState { weights: weights@, prev: prev@, queued: queue_entries(*queue).dom() },
            ),
            best,
        );
        let hot = &csr.values_hot[cols[i]];
        let v: usize = hot.target;
        if csr.nodes[v].rank < csr.nodes[u].rank {
        } else {
            let alt: u64 = add_weights(weights[u], hot.weight);
            if alt < weights[v] {
                weights[v] = alt;
                prev[v] = Some((u, hot.id));
                let _ = queue_push(queue, v, (alt as i128, v));
            }
            let total: u64 = add_weights(weights[v], other_weights[v]);
            let improves: bool = match best {
                None => true,
                Some((_, least)) => total < least,
            };
            if total < INFINITY && improves {
                best = Some((v, total));
            }
        }
        proof {
            let after = relax_hot(*csr, forward, before, u, *hot);
            let now = SideState {
                weights: weights@,
                prev: prev@,
                queued: queue_entries(*queue).dom(),
            };
            assert(before.0.side(!forward).weights == other_weights@);
            assert(now.weights =~= after.0.side(forward).weights);
            assert(now.prev =~= after.0.side(forward).prev);
            assert(now.queued =~= after.0.side(forward).queued);
            assert(after.0 == q.with_side(forward, now));
            assert(after.1 == best);
        }
        i += 1;
    }
    best
}

/// The ids of the edges on the way back from `node` along `prev`, nearest
/// first.
fn walk(prev: &Vec<Step>, node: usize, Ghost(bound): Ghost<nat>) -> (ids: Vec<usize>)
    requires
        node < prev@.len(),
        forall|v: int|
            0 <= v < prev@.len() ==> (#[trigger] prev@[v]).is_some() ==> prev@[v].unwrap().0
                < prev@.len(),
    ensures
        ids@ == walk_back(prev@, node, prev@.len()),
        steps_below(prev@, bound) ==> forall|k: int| 0 <= k < ids@.len() ==> #[trigger] ids@[k] * 2 < bound,
{
    let mut ids: Vec<usize> = Vec::new();
    let mut current: usize = node;
    let mut left: usize = prev.len();
    loop
        invariant
            current < prev@.len(),
            left <= prev@.len(),
            forall|v: int|
                0 <= v < prev@.len() ==> (#[trigger] prev@[v]).is_some() ==> prev@[v].unwrap().0
                    < prev@.len(),
            ids@ + walk_back(prev@, current, left as nat) == walk_back(prev@, node, prev@.len()),
            steps_below(prev@, bound) ==> forall|k: int| 0 <= k < ids@.len() ==> #[trigger] ids@[k] * 2 < bound,
        decreases left,
    {
        if left == 0 {
            assert(ids@ + Seq::<usize>::empty() =~= ids@);
            return ids;
        }
        match prev[current] {
            None => {
                assert(ids@ + Seq::<usize>::empty() =~= ids@);
                return ids;
            },
            Some((before, edge_id)) => {
                proof {
                    let rest = walk_back(prev@, before, (left - 1) as nat);
                    assert(ids@.push(edge_id) + rest =~= ids@ + (seq![edge_id] + rest));
                }
                ids.push(edge_id);
                current = before;
                left -= 1;
            },
        }
    }
}

impl BiDirDijkstra {
    /// The packed path through the best meeting node, if there is one: the
    /// forward edges from the source to that node, then the backward edges
    /// from it to the target.
    fn get_path_ids(&self, best: Best, Ghost(bound): Ghost<nat>) -> (path: Option<PackedPath>)
        requires
            self.wf(),
            best.is_some() ==> best.unwrap().0 < self.num_nodes(),
        ensures
            is_path_of(path, self@, best),
            steps_below(self@.fwd.prev, bound) && steps_below(self@.bwd.prev, bound) && path.is_some()
                ==> entries_below(path.unwrap().entries@, bound),
    {
        match best {
            None => None,
            Some((node, total)) => {
                let fwd = walk(&self.fwd_prev, node, Ghost(bound));
                let bwd = walk(&self.bwd_prev, node, Ghost(bound));
                let mut entries: Vec<QueryResult> = Vec::new();
                let ghost turned = fwd@.reverse();
                let mut i: usize = fwd.len();
                while i > 0
                    invariant
                        i <= fwd@.len(),
                        turned == fwd@.reverse(),
                        entries@.len() == fwd@.len() - i,
                        forall|k: int|
                            0 <= k < entries@.len() ==> #[trigger] entries@[k] == (QueryResult {
                                edge_id: turned[k],
                                is_fwd: true,
                            }),
                    decreases i,
                {
                    i -= 1;
                    entries.push(QueryResult { edge_id: fwd[i], is_fwd: true });
                }
                let mut j: usize = 0;
                while j < bwd.len()
                    invariant
                        j <= bwd@.len(),
                        turned == fwd@.reverse(),
                        entries@.len() == fwd@.len() + j,
                        forall|k: int|
                            0 <= k < fwd@.len() ==> #[trigger] entries@[k] == (QueryResult {
                                edge_id: turned[k],
                                is_fwd: true,
                            }),
                        forall|k: int|
                            0 <= k < j ==> #[trigger] entries@[fwd@.len() + k] == (QueryResult {
                                edge_id: bwd@[k],
                                is_fwd: false,
                            }),
                    decreases bwd@.len() - j,
                {
                    entries.push(QueryResult { edge_id: bwd[j], is_fwd: false });
                    j += 1;
                }
                proof {
                    let head = Seq::new(
                        turned.len(),
                        |i: int| QueryResult { edge_id: turned[i], is_fwd: true },
                    );
                    let rest = Seq::new(
                        bwd@.len(),
                        |i: int| QueryResult { edge_id: bwd@[i], is_fwd: false },
                    );
                    assert(entries@.len() == head.len() + rest.len());
                    assert forall|k: int| 0 <= k < entries@.len() implies entries@[k] == (head
                        + rest)[k] by {
                        if k >= fwd@.len() {
                            assert(entries@[fwd@.len() + (k - fwd@.len())] == rest[k - fwd@.len()]);
                        }
                    }
                    assert(entries@ =~= head + rest);
                }
                Some(PackedPath { entries, meeting_node: node, weight: total })
            },
        }
    }

    /// Runs the query that `init` started: round by round the search with
    /// the lower queue top pops a node and relaxes its upward edges, until
    /// both queues are empty, no queue top is below the best total cost
    /// through a meeting node, or `MAX_POPS` nodes have been popped.
    /// Returns the path through that node, or nothing when the two
    /// searches did not meet. A query from a node to itself meets there at
    /// cost 0 if the node has an edge at all.
    pub fn search(&mut self, graph: &CSRGraph) -> (path: Option<PackedPath>)
        requires
            old(self).wf(),
            graph.wf(),
            graph.nodes@.len() == old(self).num_nodes(),
        ensures
            final(self).wf(),
            final(self).num_nodes() == old(self).num_nodes(),
            final(self)@ == query_rounds(
                *graph,
                (old(self)@, first_best(*graph, old(self)@)),
                MAX_POPS as nat,
            ).0,
            is_path_of(
                path,
                final(self)@,
                query_rounds(*graph, (old(self)@, first_best(*graph, old(self)@)), MAX_POPS as nat).1,
            ),
            graph.cold_wf() && steps_below(old(self)@.fwd.prev, graph.values_cold@.len())
                && steps_below(old(self)@.bwd.prev, graph.values_cold@.len()) && path.is_some()
                ==> entries_below(path.unwrap().entries@, graph.values_cold@.len()),
            path.is_some() ==> path.unwrap().meeting_node < graph.nodes@.len(),
    {
        self.search_within(graph, MAX_POPS)
    }

    /// Runs the query as `search` does, but gives up after `max_pops`
    /// nodes have been popped and returns the best path found by then: a
    /// caller that must answer in time bounds the work of the query with
    /// it.
    pub fn search_within(&mut self, graph: &CSRGraph, max_pops: u64) -> (path: Option<PackedPath>)
        requires
            old(self).wf(),
            graph.wf(),
            graph.nodes@.len() == old(self).num_nodes(),
        ensures
            final(self).wf(),
            final(self).num_nodes() == old(self).num_nodes(),
            final(self)@ == query_rounds(
                *graph,
                (old(self)@, first_best(*graph, old(self)@)),
                max_pops as nat,
            ).0,
            is_path_of(
                path,
                final(self)@,
                query_rounds(*graph, (old(self)@, first_best(*graph, old(self)@)), max_pops as nat).1,
            ),
            graph.cold_wf() && steps_below(old(self)@.fwd.prev, graph.values_cold@.len())
                && steps_below(old(self)@.bwd.prev, graph.values_cold@.len()) && path.is_some()
                ==> entries_below(path.unwrap().entries@, graph.values_cold@.len()),
            path.is_some() ==> path.unwrap().meeting_node < graph.nodes@.len(),
    {
        assert(graph.row_fwd_ptr.len() <= usize::MAX);
        let src: usize = self.src;
        let mut best: Best = None;
        if src == self.dest && (graph.row_fwd_ptr[src] < graph.row_fwd_ptr[src + 1]
            || graph.row_bwd_ptr[src] < graph.row_bwd_ptr[src + 1]) {
            let total: u64 = add_weights(self.fwd_weights[src], self.bwd_weights[src]);
            if total < INFINITY {
                best = Some((src, total));
            }
        }
        let ghost first = (self@, best);
        let mut pops: u64 = 0;
        while pops < max_pops
            invariant_except_break
                query_rounds(*graph, (self@, best), (max_pops - pops) as nat) == query_rounds(
                    *graph,
                    first,
                    max_pops as nat,
                ),
            invariant
                pops <= max_pops,
                self.wf(),
                graph.wf(),
                graph.nodes@.len() == self.num_nodes(),
                self.num_nodes() == old(self).num_nodes(),
                best.is_some() ==> best.unwrap().0 < self.num_nodes(),
                graph.cold_wf() && steps_below(old(self)@.fwd.prev, graph.values_cold@.len())
                    && steps_below(old(self)@.bwd.prev, graph.values_cold@.len()) ==> steps_below(
                    self@.fwd.prev,
                    graph.values_cold@.len(),
                ) && steps_below(self@.bwd.prev, graph.values_cold@.len()),
            ensures
                (self@, best) == query_rounds(*graph, first, max_pops as nat),
            decreases max_pops - pops,
        {
            let ghost before = self@;
            let f_top = queue_peek(&self.fwd_queue);
            let b_top = queue_peek(&self.bwd_queue);
            let none_fwd: bool = f_top.is_none();
            let none_bwd: bool = b_top.is_none();
            let f_key: u64 = match f_top {
                None => 0,
                Some((node, _)) => self.fwd_weights[node],
            };
            let b_key: u64 = match b_top {
                None => 0,
                Some((node, _)) => self.bwd_weights[node],
            };
            proof {
                if f_top.is_some() {
                    let node = f_top.unwrap().0;
                    assert(before.fwd.queued.contains(node));
                    assert(is_least_queued(before.fwd.weights, before.fwd.queued, node));
                    lemma_least_queued_unique(before.fwd.weights, before.fwd.queued, node);
                } else {
                    assert(before.fwd.queued =~= Set::<usize>::empty());
                }
                if b_top.is_some() {
                    let node = b_top.unwrap().0;
                    assert(before.bwd.queued.contains(node));
                    assert(is_least_queued(before.bwd.weights, before.bwd.queued, node));
                    lemma_least_queued_unique(before.bwd.weights, before.bwd.queued, node);
                } else {
                    assert(before.bwd.queued =~= Set::<usize>::empty());
                }
            }
            if none_fwd && none_bwd {
                break ;
            }
            let settled: bool = match best {
                None => false,
                Some((_, least)) => (none_fwd || f_key >= least) && (none_bwd || b_key >= least),
            };
            if settled {
                break ;
            }
            let forward: bool = none_bwd || (!none_fwd && f_key <= b_key);
            assert(forward == forward_next(before));
            assert(!finished(before, best));
            if forward {
                match queue_pop(&mut self.fwd_queue) {
                    None => {
                        assert(false);
                    },
                    Some((u, _)) => {
                        proof {
                            assert(before.fwd.queued.contains(u));
                            assert(is_least_queued(before.fwd.weights, before.fwd.queued, u));
                            lemma_least_queued_unique(before.fwd.weights, before.fwd.queued, u);
                            assert(self@.fwd.queued =~= before.fwd.queued.remove(u));
                        }
                        let ghost popped = self@;
                        best = relax_row(
                            graph,
                            true,
                            &mut self.fwd_weights,
                            &mut self.fwd_prev,
                            &mut self.fwd_queue,
                            &self.bwd_weights,
                            best,
                            u,
                            Ghost(popped),
                        );
                    },
                }
            } else {
                match queue_pop(&mut self.bwd_queue) {
                    None => {
                        assert(false);
                    },
                    Some((u, _)) => {
                        proof {
                            assert(before.bwd.queued.contains(u));
                            assert(is_least_queued(before.bwd.weights, before.bwd.queued, u));
                            lemma_least_queued_unique(before.bwd.weights, before.bwd.queued, u);
                            assert(self@.bwd.queued =~= before.bwd.queued.remove(u));
                        }
                        let ghost popped = self@;
                        best = relax_row(
                            graph,
                            false,
                            &mut self.bwd_weights,
                            &mut self.bwd_prev,
                            &mut self.bwd_queue,
                            &self.fwd_weights,
                            best,
                            u,
                            Ghost(popped),
                        );
                    },
                }
            }
            pops += 1;
        }
        self.get_path_ids(best, Ghost(graph.values_cold@.len()))
    }
}

} // verus!
