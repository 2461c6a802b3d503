//! Checking a graph that comes from outside before it is preprocessed.
use crate::graph::{Edge, EdgeMetadata, Graph, Node, INFINITY};
use vstd::prelude::*;

verus! {

/// Whether `list` holds `x`.
fn list_contains(list: &Vec<usize>, x: usize) -> (found: bool)
    ensures
        found == list@.contains(x),
{
    let mut k: usize = 0;
    while k < list.len()
        invariant
            k <= list@.len(),
            forall|i: int| 0 <= i < k ==> list@[i] != x,
        decreases list@.len() - k,
    {
        if list[k] == x {
            return true;
        }
        k += 1;
    }
    false
}

/// The node at which edge `e` stands in a list of one direction: its
/// source in a forward list, its destination in a backward list.
pub open spec fn end_at(edges: Seq<Edge>, e: int, forward: bool) -> usize {
    if forward {
        edges[e].src_id
    } else {
        edges[e].dest_id
    }
}

/// Whether `list` holds, without repetition, ids of edges that stand at
/// node `v`.
fn list_valid(list: &Vec<usize>, edges: &Vec<Edge>, v: usize, forward: bool) -> (valid: bool)
    ensures
        valid == ((forall|k: int|
            0 <= k < list@.len() ==> (#[trigger] list@[k]) < edges@.len() && end_at(
                edges@,
                list@[k] as int,
                forward,
            ) == v) && list@.no_duplicates()),
{
    let mut k: usize = 0;
    while k < list.len()
        invariant
            k <= list@.len(),
            forall|i: int|
                0 <= i < k ==> (#[trigger] list@[i]) < edges@.len() && end_at(
                    edges@,
                    list@[i] as int,
                    forward,
                ) == v,
            forall|i: int, j: int| 0 <= i < j < k ==> list@[i] != list@[j],
        decreases list@.len() - k,
    {
        let e: usize = list[k];
        if e >= edges.len() {
            return false;
        }
        let at: usize = if forward {
            edges[e].src_id
        } else {
            edges[e].dest_id
        };
        if at != v {
            return false;
        }
        let mut i: usize = 0;
        while i < k
            invariant
                i <= k,
                k < list@.len(),
                e == list@[k as int],
                forall|j: int| 0 <= j < i ==> list@[j] != e,
            decreases k - i,
        {
            if list[i] == e {
                assert(!list@.no_duplicates());
                return false;
            }
            i += 1;
        }
        k += 1;
    }
    true
}

/// Whether every node sits at its own dense id.
fn nodes_valid(nodes: &Vec<Node>) -> (valid: bool)
    ensures
        valid == forall|i: int| 0 <= i < nodes@.len() ==> (#[trigger] nodes@[i]).dense_id == i,
{
    let mut i: usize = 0;
    while i < nodes.len()
        invariant
            i <= nodes@.len(),
            forall|k: int| 0 <= k < i ==> (#[trigger] nodes@[k]).dense_id == k,
        decreases nodes@.len() - i,
    {
        if nodes[i].dense_id != i {
            return false;
        }
        i += 1;
    }
    true
}

/// Whether every cost is finite.
fn weights_valid(records: &Vec<EdgeMetadata>) -> (valid: bool)
    ensures
        valid == forall|m: int| 0 <= m < records@.len() ==> (#[trigger] records@[m]).weight < INFINITY,
{
    let mut m: usize = 0;
    while m < records.len()
        invariant
            m <= records@.len(),
            forall|k: int| 0 <= k < m ==> (#[trigger] records@[k]).weight < INFINITY,
        decreases records@.len() - m,
    {
        if records[m].weight >= INFINITY {
            return false;
        }
        m += 1;
    }
    true
}

impl Graph {
    /// Whether every edge joins two nodes and has its record.
    fn edges_valid(&self) -> (valid: bool)
        ensures
            valid == forall|e: int|
                0 <= e < self.edges@.len() ==> {
                    &&& (#[trigger] self.edges@[e]).src_id < self.nodes@.len()
                    &&& self.edges@[e].dest_id < self.nodes@.len()
                    &&& self.edges@[e].metadata_index < self.edge_metadata@.len()
                },
    {
        let mut e: usize = 0;
        while e < self.edges.len()
            invariant
                e <= self.edges@.len(),
                forall|k: int|
                    0 <= k < e ==> {
                        &&& (#[trigger] self.edges@[k]).src_id < self.nodes@.len()
                        &&& self.edges@[k].dest_id < self.nodes@.len()
                        &&& self.edges@[k].metadata_index < self.edge_metadata@.len()
                    },
            decreases self.edges@.len() - e,
        {
            let edge = &self.edges[e];
            if edge.src_id >= self.nodes.len() || edge.dest_id >= self.nodes.len()
                || edge.metadata_index >= self.edge_metadata.len() {
                return false;
            }
            e += 1;
        }
        true
    }

    /// Whether the lists hold, without repetition, edges at their nodes.
    fn lists_valid(&self) -> (valid: bool)
        requires
            self.fwd_edge_list@.len() == self.nodes@.len(),
            self.bwd_edge_list@.len() == self.nodes@.len(),
        ensures
            valid == self.adjacency_wf(),
    {
        let mut v: usize = 0;
        while v < self.nodes.len()
            invariant
                v <= self.nodes@.len(),
                self.fwd_edge_list@.len() == self.nodes@.len(),
                self.bwd_edge_list@.len() == self.nodes@.len(),
                forall|x: int, k: int|
                    0 <= x < v && 0 <= k < self.fwd(x).len() ==> (#[trigger] self.fwd(x)[k])
                        < self.edges@.len() && self.edges@[self.fwd(x)[k] as int].src_id == x,
                forall|x: int, k: int|
                    0 <= x < v && 0 <= k < self.bwd(x).len() ==> (#[trigger] self.bwd(x)[k])
                        < self.edges@.len() && self.edges@[self.bwd(x)[k] as int].dest_id == x,
                forall|x: int| 0 <= x < v ==> (#[trigger] self.fwd(x)).no_duplicates(),
                forall|x: int| 0 <= x < v ==> (#[trigger] self.bwd(x)).no_duplicates(),
            decreases self.nodes@.len() - v,
        {
            if !list_valid(&self.fwd_edge_list[v], &self.edges, v, true) {
                proof {
                    if self.adjacency_wf() {
                        assert(self.fwd(v as int).no_duplicates());
                        assert forall|k: int| 0 <= k < self.fwd(v as int).len() implies (
                        #[trigger] self.fwd(v as int)[k]) < self.edges@.len() && end_at(
                            self.edges@,
                            self.fwd(v as int)[k] as int,
                            true,
                        ) == v by {}
                    }
                }
                return false;
            }
            if !list_valid(&self.bwd_edge_list[v], &self.edges, v, false) {
                proof {
                    if self.adjacency_wf() {
                        assert(self.bwd(v as int).no_duplicates());
                        assert forall|k: int| 0 <= k < self.bwd(v as int).len() implies (
                        #[trigger] self.bwd(v as int)[k]) < self.edges@.len() && end_at(
                            self.edges@,
                            self.bwd(v as int)[k] as int,
                            false,
                        ) == v by {}
                    }
                }
                return false;
            }
            v += 1;
        }
        true
    }

    /// Whether every edge stands in the forward list of its source and in
    /// the backward list of its destination.
    fn all_listed(&self) -> (valid: bool)
        requires
            self.arrays_wf(),
        ensures
            valid == (self.coherent() && self.complete()),
    {
        let mut e: usize = 0;
        while e < self.edges.len()
            invariant
                e <= self.edges@.len(),
                self.arrays_wf(),
                forall|k: int| 0 <= k < e ==> #[trigger] self.is_live(k),
                forall|k: int|
                    0 <= k < e ==> self.bwd((#[trigger] self.edges@[k]).dest_id as int).contains(
                        k as usize,
                    ),
            decreases self.edges@.len() - e,
        {
            let edge = &self.edges[e];
            let forth: bool = list_contains(&self.fwd_edge_list[edge.src_id], e);
            let back: bool = list_contains(&self.bwd_edge_list[edge.dest_id], e);
            if !forth || !back {
                proof {
                    if self.coherent() && self.complete() {
                        assert(self.is_live(e as int));
                    }
                }
                return false;
            }
            e += 1;
        }
        proof {
            assert forall|k: int| 0 <= k < self.edges@.len() implies (self.fwd(
                (#[trigger] self.edges@[k]).src_id as int,
            ).contains(k as usize) <==> self.bwd(self.edges@[k].dest_id as int).contains(
                k as usize,
            )) by {
                assert(self.is_live(k));
            }
        }
        true
    }

    /// Whether every shortcut packs two earlier edges that meet in one
    /// node, lead from its source to its destination and add up to its
    /// cost.
    fn shortcuts_valid(&self) -> (valid: bool)
        requires
            self.arrays_wf(),
        ensures
            valid == self@.shortcuts_sound(),
    {
        let mut e: usize = 0;
        while e < self.edges.len()
            invariant
                e <= self.edges@.len(),
                self.arrays_wf(),
                forall|k: int| 0 <= k < e ==> #[trigger] self@.shortcut_sound(k),
            decreases self.edges@.len() - e,
        {
            let edge = &self.edges[e];
            let record = &self.edge_metadata[edge.metadata_index];
            let sound: bool = match (record.prev_edge, record.next_edge) {
                (None, None) => true,
                (Some(prev), Some(next)) => {
                    if prev < e && next < e {
                        let first = &self.edges[prev];
                        let second = &self.edges[next];
                        let first_weight: u64 = self.edge_metadata[first.metadata_index].weight;
                        let second_weight: u64 = self.edge_metadata[second.metadata_index].weight;
                        first.src_id == edge.src_id && second.dest_id == edge.dest_id
                            && first.dest_id == second.src_id && second_weight <= INFINITY
                            - first_weight && record.weight == first_weight + second_weight
                    } else {
                        false
                    }
                },
                _ => false,
            };
            if !sound {
                proof {
                    if self@.shortcuts_sound() {
                        assert(self@.shortcut_sound(e as int));
                    }
                }
                return false;
            }
            e += 1;
        }
        true
    }

    /// Whether the graph is well formed, has all its edges in its lists
    /// and holds only sound shortcuts.
    pub fn is_valid(&self) -> (valid: bool)
        ensures
            valid == (self.wf() && self.complete() && self@.shortcuts_sound()),
    {
        if self.fwd_edge_list.len() != self.nodes.len() || self.bwd_edge_list.len()
            != self.nodes.len() {
            return false;
        }
        nodes_valid(&self.nodes) && self.edges_valid() && weights_valid(&self.edge_metadata)
            && self.lists_valid() && self.all_listed() && self.shortcuts_valid()
    }
}

} // verus!
