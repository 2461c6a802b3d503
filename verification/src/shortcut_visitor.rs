//! Unpacking: from a packed path over hierarchy edges back to the sequence
//! of nodes that the path visits in the graph before its contraction.
use crate::ch_query::{PackedPath, QueryResult};
use crate::csr_graph::{CSREdgeCold, CSRGraph};
use crate::visitable::Visitable;
use std::collections::HashSet;
use vstd::prelude::*;

verus! {

/// The sequence with `node` at its end, unless that is its last element
/// already.
pub open spec fn pushed(out: Seq<usize>, node: usize) -> Seq<usize> {
    if out.len() > 0 && out.last() == node {
        out
    } else {
        out.push(node)
    }
}

/// The output and the visited nodes after `node` is emitted: a node that
/// was visited before is not emitted again.
pub open spec fn emit(state: (Seq<usize>, Set<usize>), node: usize) -> (Seq<usize>, Set<usize>) {
    if state.1.contains(node) {
        state
    } else {
        (pushed(state.0, node), state.1.insert(node))
    }
}

/// The same after the nodes `nodes` are emitted one after the other.
pub open spec fn emit_all(state: (Seq<usize>, Set<usize>), nodes: Seq<usize>) -> (
    Seq<usize>,
    Set<usize>,
)
    decreases nodes.len(),
{
    if nodes.len() == 0 {
        state
    } else {
        emit(emit_all(state, nodes.drop_last()), nodes.last())
    }
}

/// The node that an edge that packs nothing emits: where the edge starts for a
/// forward edge, where it ends for a backward edge.
pub open spec fn endpoint(record: CSREdgeCold, is_fwd: bool) -> usize {
    if is_fwd {
        record.from_node
    } else {
        record.to_node
    }
}

/// The record packs two edges whose records are there and have lower ids.
pub open spec fn is_packed(cold: Seq<CSREdgeCold>, record: CSREdgeCold) -> bool {
    &&& record.prev_edge.is_some()
    &&& record.next_edge.is_some()
    &&& record.prev_edge.unwrap() * 2 < cold.len()
    &&& record.next_edge.unwrap() * 2 + 1 < cold.len()
    &&& cold[record.prev_edge.unwrap() * 2].id < record.id
    &&& cold[record.next_edge.unwrap() * 2 + 1].id < record.id
}

/// The nodes that an edge emits: an edge that packs nothing its end point, a
/// shortcut what its first and then its second packed edge emit.
pub open spec fn leaf_nodes(cold: Seq<CSREdgeCold>, record: CSREdgeCold, is_fwd: bool) -> Seq<usize>
    decreases record.id,
{
    if is_packed(cold, record) {
        leaf_nodes(cold, cold[record.prev_edge.unwrap() * 2], is_fwd) + leaf_nodes(
            cold,
            cold[record.next_edge.unwrap() * 2 + 1],
            is_fwd,
        )
    } else {
        seq![endpoint(record, is_fwd)]
    }
}

/// The nodes that the entries of one direction emit, from entry `k` on.
pub open spec fn entry_nodes(
    cold: Seq<CSREdgeCold>,
    entries: Seq<QueryResult>,
    is_fwd: bool,
    k: int,
) -> Seq<usize>
    decreases entries.len() - k,
{
    if 0 <= k < entries.len() {
        if entries[k].is_fwd == is_fwd {
            leaf_nodes(cold, cold[entries[k].edge_id * 2], is_fwd) + entry_nodes(
                cold,
                entries,
                is_fwd,
                k + 1,
            )
        } else {
            entry_nodes(cold, entries, is_fwd, k + 1)
        }
    } else {
        Seq::empty()
    }
}

/// All nodes that a packed path emits: those of its forward edges, its
/// meeting node, those of its backward edges.
pub open spec fn path_nodes(
    cold: Seq<CSREdgeCold>,
    entries: Seq<QueryResult>,
    meeting_node: usize,
) -> Seq<usize> {
    entry_nodes(cold, entries, true, 0) + seq![meeting_node] + entry_nodes(cold, entries, false, 0)
}

/// The nodes of a packed path from source to target, each once.
pub open spec fn unpacked(
    cold: Seq<CSREdgeCold>,
    entries: Seq<QueryResult>,
    meeting_node: usize,
) -> Seq<usize> {
    emit_all((Seq::empty(), Set::empty()), path_nodes(cold, entries, meeting_node)).0
}

/// Emitting two runs of nodes one after the other is emitting their
/// concatenation.
pub proof fn lemma_emit_all_concat(state: (Seq<usize>, Set<usize>), a: Seq<usize>, b: Seq<usize>)
    ensures
        emit_all(state, a + b) == emit_all(emit_all(state, a), b),
    decreases b.len(),
{
    if b.len() == 0 {
        assert(a + b =~= a);
    } else {
        lemma_emit_all_concat(state, a, b.drop_last());
        assert((a + b).drop_last() =~= a + b.drop_last());
    }
}

/// Emitting one node.
pub proof fn lemma_emit_all_one(state: (Seq<usize>, Set<usize>), node: usize)
    ensures
        emit_all(state, seq![node]) == emit(state, node),
{
    assert(seq![node].drop_last() =~= Seq::<usize>::empty());
    assert(emit_all(state, seq![node].drop_last()) == state);
}

/// A shortcut visitor: unpacks a packed path into the nodes that it visits.
pub struct ShortcutVisitor<'a> {
    /// The snapshot that the path was found in.
    pub graph: &'a CSRGraph,
    /// The result of the query.
    pub packed_path: &'a PackedPath,
}

impl<'a> ShortcutVisitor<'a> {
    pub fn new(graph: &'a CSRGraph, packed_path: &'a PackedPath) -> (visitor: Self)
        ensures
            visitor.graph == graph,
            visitor.packed_path == packed_path,
    {
        Self { graph, packed_path }
    }

    /// Appends `node` unless it is the last node of `out` already.
    pub fn push_node(out: &mut Vec<usize>, node: usize)
        ensures
            final(out)@ == pushed(old(out)@, node),
    {
        let n: usize = out.len();
        if n == 0 || out[n - 1] != node {
            out.push(node);
        }
    }

    /// Emits `node` unless it was visited before.
    fn emit_node(out: &mut Vec<usize>, visited: &mut HashSet<usize>, node: usize)
        ensures
            (final(out)@, final(visited)@) == emit((old(out)@, old(visited)@), node),
    {
        if !visited.contains(&node) {
            Self::push_node(out, node);
            visited.insert(node);
        }
    }

    /// Emits the nodes of one edge: of an edge that packs nothing its end point, of
    /// a shortcut the nodes of the two edges that it packs, in travel
    /// order.
    pub fn visit_shortcut(
        graph: &CSRGraph,
        edge: &CSREdgeCold,
        out: &mut Vec<usize>,
        is_fwd: bool,
        visited: &mut HashSet<usize>,
    )
        requires
            graph.cold_wf(),
            graph.holds(*edge),
        ensures
            (final(out)@, final(visited)@) == emit_all(
                (old(out)@, old(visited)@),
                leaf_nodes(graph.values_cold@, *edge, is_fwd),
            ),
        decreases edge.id,
    {
        let ghost cold = graph.values_cold@;
        let ghost start = (out@, visited@);
        let ghost place = choose|i: int| 0 <= i < cold.len() && cold[i] == *edge;
        let packs: bool = edge.prev_edge.is_some() && edge.next_edge.is_some();
        if packs {
            let prev_edge_id: usize = edge.prev_edge.unwrap();
            let next_edge_id: usize = edge.next_edge.unwrap();
            assert(cold[place].id == place / 2);
            assert(prev_edge_id * 2 + 1 < cold.len());
            assert(next_edge_id * 2 + 1 < cold.len());
            let prev_edge = graph.get_fwd_edge_cold(prev_edge_id);
            let next_edge = graph.get_bwd_edge_cold(next_edge_id);
            assert(prev_edge.id == (prev_edge_id * 2) / 2);
            assert(next_edge.id == (next_edge_id * 2 + 1) / 2);
            assert(is_packed(cold, *edge));
            Self::visit_shortcut(graph, prev_edge, out, is_fwd, visited);
            Self::visit_shortcut(graph, next_edge, out, is_fwd, visited);
            proof {
                lemma_emit_all_concat(
                    start,
                    leaf_nodes(cold, *prev_edge, is_fwd),
                    leaf_nodes(cold, *next_edge, is_fwd),
                );
            }
        } else {
            let node: usize = if is_fwd {
                edge.from_node
            } else {
                edge.to_node
            };
            Self::emit_node(out, visited, node);
            proof {
                lemma_emit_all_one(start, node);
            }
        }
    }

    /// Emits the nodes of the entries of one direction.
    fn visit_entries(&self, out: &mut Vec<usize>, is_fwd: bool, visited: &mut HashSet<usize>)
        requires
            self.visitable(),
        ensures
            (final(out)@, final(visited)@) == emit_all(
                (old(out)@, old(visited)@),
                entry_nodes(self.graph.values_cold@, self.packed_path.entries@, is_fwd, 0),
            ),
    {
        let ghost cold = self.graph.values_cold@;
        let ghost entries = self.packed_path.entries@;
        let ghost start = (out@, visited@);
        let ghost mut done: Seq<usize> = Seq::empty();
        let n: usize = self.packed_path.entries.len();
        let mut k: usize = 0;
        while k < n
            invariant
                k <= n,
                n == entries.len(),
                cold == self.graph.values_cold@,
                entries == self.packed_path.entries@,
                self.visitable(),
                (out@, visited@) == emit_all(start, done),
                done + entry_nodes(cold, entries, is_fwd, k as int) == entry_nodes(
                    cold,
                    entries,
                    is_fwd,
                    0,
                ),
            decreases n - k,
        {
            let entry = self.packed_path.entries[k];
            if entry.is_fwd == is_fwd {
                assert(entries[k as int].edge_id * 2 < cold.len());
                let edge = self.graph.get_fwd_edge_cold(entry.edge_id);
                Self::visit_shortcut(self.graph, edge, out, is_fwd, visited);
                proof {
                    let emitted = leaf_nodes(cold, *edge, is_fwd);
                    lemma_emit_all_concat(start, done, emitted);
                    assert((done + emitted) + entry_nodes(cold, entries, is_fwd, k as int + 1)
                        =~= done + (emitted + entry_nodes(cold, entries, is_fwd, k as int + 1)));
                    done = done + emitted;
                }
            }
            k += 1;
        }
        proof {
            assert(done + Seq::<usize>::empty() =~= done);
        }
    }
}

impl<'a> Visitable for ShortcutVisitor<'a> {
    type Output = Vec<usize>;

    /// The cold records stand as the snapshot lays them out and every
    /// entry of the path names an edge of the snapshot.
    open spec fn visitable(&self) -> bool {
        &&& self.graph.cold_wf()
        &&& forall|k: int|
            0 <= k < self.packed_path.entries@.len() ==> (
            #[trigger] self.packed_path.entries@[k]).edge_id * 2 < self.graph.values_cold@.len()
    }

    /// The nodes of the path in the graph before its contraction, from the source over
    /// the meeting node to the target, each node once.
    fn visit(&self) -> (nodes: Vec<usize>)
        ensures
            nodes@ == unpacked(
                self.graph.values_cold@,
                self.packed_path.entries@,
                self.packed_path.meeting_node,
            ),
    {
        let mut nodes: Vec<usize> = Vec::new();
        let mut visited: HashSet<usize> = HashSet::new();
        let ghost cold = self.graph.values_cold@;
        let ghost start = (nodes@, visited@);
        self.visit_entries(&mut nodes, true, &mut visited);
        let ghost ahead = (nodes@, visited@);
        Self::emit_node(&mut nodes, &mut visited, self.packed_path.meeting_node);
        let ghost met = (nodes@, visited@);
        self.visit_entries(&mut nodes, false, &mut visited);
        proof {
            let fwd = entry_nodes(cold, self.packed_path.entries@, true, 0);
            let bwd = entry_nodes(cold, self.packed_path.entries@, false, 0);
            let meeting = seq![self.packed_path.meeting_node];
            lemma_emit_all_one(ahead, self.packed_path.meeting_node);
            lemma_emit_all_concat(start, fwd, meeting);
            lemma_emit_all_concat(start, fwd + meeting, bwd);
            assert(start == (Seq::<usize>::empty(), Set::<usize>::empty()));
        }
        nodes
    }
}

} // verus!
