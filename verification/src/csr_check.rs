//! Checking a snapshot that comes from outside, such as one read back from
//! storage, before it is queried.
use crate::csr_graph::{CSREdgeCold, CSREdgeHot, CSRGraph, CSRNode};
use crate::graph::INFINITY;
use vstd::prelude::*;

verus! {

/// Whether every entry of `list` is below `bound`.
fn all_below(list: &Vec<usize>, bound: usize) -> (all: bool)
    ensures
        all == forall|i: int| 0 <= i < list@.len() ==> (#[trigger] list@[i]) < bound,
{
    let mut i: usize = 0;
    while i < list.len()
        invariant
            i <= list@.len(),
            forall|k: int| 0 <= k < i ==> (#[trigger] list@[k]) < bound,
        decreases list@.len() - i,
    {
        if list[i] >= bound {
            return false;
        }
        i += 1;
    }
    true
}

/// Whether `list` holds one pointer more than there are nodes, none above
/// `bound` and none below the one before it.
fn rises_to(list: &Vec<usize>, num_nodes: usize, bound: usize) -> (rises: bool)
    ensures
        rises == {
            &&& list@.len() == num_nodes + 1
            &&& forall|v: int| 0 <= v < num_nodes ==> (#[trigger] list@[v]) <= list@[v + 1]
            &&& forall|v: int| 0 <= v <= num_nodes ==> (#[trigger] list@[v]) <= bound
        },
{
    if list.len() == 0 || list.len() - 1 != num_nodes {
        return false;
    }
    if list[0] > bound {
        return false;
    }
    let mut v: usize = 0;
    while v < num_nodes
        invariant
            v <= num_nodes,
            list@.len() == num_nodes + 1,
            forall|k: int| 0 <= k < v ==> (#[trigger] list@[k]) <= list@[k + 1],
            forall|k: int| 0 <= k <= v ==> (#[trigger] list@[k]) <= bound,
        decreases num_nodes - v,
    {
        if list[v] > list[v + 1] || list[v + 1] > bound {
            return false;
        }
        v += 1;
    }
    true
}

/// Whether every hot record leads to a node, at a finite cost, and names
/// an edge whose cold records are there.
fn hot_valid(values: &Vec<CSREdgeHot>, num_nodes: usize, num_cold: usize) -> (valid: bool)
    ensures
        valid == forall|i: int|
            0 <= i < values@.len() ==> (#[trigger] values@[i]).target < num_nodes
                && values@[i].weight < INFINITY && values@[i].id * 2 < num_cold,
{
    let mut i: usize = 0;
    while i < values.len()
        invariant
            i <= values@.len(),
            forall|k: int|
                0 <= k < i ==> (#[trigger] values@[k]).target < num_nodes && values@[k].weight
                    < INFINITY && values@[k].id * 2 < num_cold,
        decreases values@.len() - i,
    {
        let hot = &values[i];
        if hot.target >= num_nodes || hot.weight >= INFINITY || hot.id > num_cold || hot.id
            >= num_cold - hot.id {
            return false;
        }
        i += 1;
    }
    true
}

/// Whether every cold record joins two nodes, stands at the place of its
/// edge and packs, if any, edges of lower ids.
fn cold_valid(values: &Vec<CSREdgeCold>, num_nodes: usize) -> (valid: bool)
    ensures
        valid == forall|i: int|
            0 <= i < values@.len() ==> {
                &&& (#[trigger] values@[i]).from_node < num_nodes
                &&& values@[i].to_node < num_nodes
                &&& values@[i].id == i / 2
                &&& values@[i].prev_edge.is_some() ==> values@[i].prev_edge.unwrap() < values@[i].id
                &&& values@[i].next_edge.is_some() ==> values@[i].next_edge.unwrap() < values@[i].id
            },
{
    let mut i: usize = 0;
    while i < values.len()
        invariant
            i <= values@.len(),
            forall|k: int|
                0 <= k < i ==> {
                    &&& (#[trigger] values@[k]).from_node < num_nodes
                    &&& values@[k].to_node < num_nodes
                    &&& values@[k].id == k / 2
                    &&& values@[k].prev_edge.is_some() ==> values@[k].prev_edge.unwrap()
                        < values@[k].id
                    &&& values@[k].next_edge.is_some() ==> values@[k].next_edge.unwrap()
                        < values@[k].id
                },
        decreases values@.len() - i,
    {
        let cold = &values[i];
        if cold.from_node >= num_nodes || cold.to_node >= num_nodes || cold.id != i / 2 {
            return false;
        }
        match cold.prev_edge {
            Some(prev) => {
                if prev >= cold.id {
                    return false;
                }
            },
            None => {},
        }
        match cold.next_edge {
            Some(next) => {
                if next >= cold.id {
                    return false;
                }
            },
            None => {},
        }
        i += 1;
    }
    true
}

/// Whether every node record sits at its own id.
fn nodes_valid(nodes: &Vec<CSRNode>) -> (valid: bool)
    ensures
        valid == forall|i: int| 0 <= i < nodes@.len() ==> (#[trigger] nodes@[i]).id == i,
{
    let mut i: usize = 0;
    while i < nodes.len()
        invariant
            i <= nodes@.len(),
            forall|k: int| 0 <= k < i ==> (#[trigger] nodes@[k]).id == k,
        decreases nodes@.len() - i,
    {
        if nodes[i].id != i {
            return false;
        }
        i += 1;
    }
    true
}

impl CSRGraph {
    /// Whether the snapshot is laid out as queries and unpacking need it.
    pub fn is_valid(&self) -> (valid: bool)
        ensures
            valid == (self.wf() && self.cold_wf()),
    {
        let n: usize = self.nodes.len();
        let hot: usize = self.values_hot.len();
        let cold: usize = self.values_cold.len();
        let sizes: bool = self.cols_fwd.len() <= hot && hot - self.cols_fwd.len()
            == self.cols_bwd.len() && cold == hot && cold % 2 == 0;
        sizes && rises_to(&self.row_fwd_ptr, n, self.cols_fwd.len()) && rises_to(
            &self.row_bwd_ptr,
            n,
            self.cols_bwd.len(),
        ) && all_below(&self.cols_fwd, hot) && all_below(&self.cols_bwd, hot) && hot_valid(
            &self.values_hot,
            n,
            cold,
        ) && cold_valid(&self.values_cold, n) && nodes_valid(&self.nodes)
    }
}

} // verus!
