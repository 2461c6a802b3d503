//! A report of the memory that the arrays of a graph take.
use crate::graph::{Edge, EdgeMetadata, Graph, Node};
use humansize::{format_size, DECIMAL};
use vstd::layout::size_of;
use vstd::prelude::*;
use vstd::string::StringExecFns;

verus! {

/// How a number of bytes reads in decimal units, as `humansize` writes it.
pub uninterp spec fn size_text(bytes: usize) -> Seq<char>;

/// `humansize::format_size` with the decimal units: the number of bytes
/// as a text such as "1.50 kB".
#[verifier::external_body]
fn format_bytes(bytes: usize) -> (text: String)
    ensures
        text@ == size_text(bytes),
{
    format_size(bytes, DECIMAL)
}

/// A number of bytes, held at the largest `usize` when it is beyond it.
pub open spec fn capped(bytes: int) -> usize {
    if bytes > usize::MAX {
        usize::MAX
    } else if bytes < 0 {
        0
    } else {
        bytes as usize
    }
}

/// The bytes of the first `v` adjacency lists: for each the list itself
/// and one `usize` per entry.
pub open spec fn lists_bytes(lists: Seq<Vec<usize>>, v: int) -> int
    decreases v,
{
    if v <= 0 {
        0
    } else {
        lists_bytes(lists, v - 1) + size_of::<Vec<usize>>() + lists[v - 1]@.len() * size_of::<usize>()
    }
}

/// The report for the five byte counts and their total.
pub open spec fn usage_text(nodes: usize, fwd: usize, bwd: usize, edges: usize, metadata: usize) -> Seq<
    char,
> {
    "nodes="@ + size_text(nodes) + ", fwd_edges="@ + size_text(fwd) + ", bwd_edges="@ + size_text(
        bwd,
    ) + ", edges="@ + size_text(edges) + ", edge_metadata="@ + size_text(metadata) + ", total="@
        + size_text(capped(nodes + fwd + bwd + edges + metadata))
}

/// The product of a count and a size, held at the largest `usize`.
fn scaled(count: usize, size: usize) -> (bytes: usize)
    ensures
        bytes == capped(count * size),
{
    if size != 0 && count > usize::MAX / size {
        assert(count * size > usize::MAX) by (nonlinear_arith)
            requires
                size > 0,
                count > usize::MAX / size,
        ;
        usize::MAX
    } else {
        assert(count * size <= usize::MAX) by (nonlinear_arith)
            requires
                size == 0 || count <= usize::MAX / size,
                size >= 0,
                count >= 0,
        ;
        count * size
    }
}

/// The sum of two byte counts, held at the largest `usize`.
fn summed(a: usize, b: usize) -> (bytes: usize)
    ensures
        bytes == capped(a + b),
{
    if b > usize::MAX - a {
        usize::MAX
    } else {
        a + b
    }
}

/// The bytes of adjacency lists.
fn get_lists_bytes(lists: &Vec<Vec<usize>>) -> (bytes: usize)
    ensures
        bytes == capped(lists_bytes(lists@, lists@.len() as int)),
{
    let list_size: usize = std::mem::size_of::<Vec<usize>>();
    let entry_size: usize = std::mem::size_of::<usize>();
    let mut total: usize = 0;
    let mut v: usize = 0;
    while v < lists.len()
        invariant
            v <= lists@.len(),
            list_size == size_of::<Vec<usize>>(),
            entry_size == size_of::<usize>(),
            total == capped(lists_bytes(lists@, v as int)),
            lists_bytes(lists@, v as int) >= 0,
        decreases lists@.len() - v,
    {
        assert(lists@[v as int]@.len() * size_of::<usize>() >= 0) by (nonlinear_arith);
        total = summed(total, summed(list_size, scaled(lists[v].len(), entry_size)));
        v += 1;
    }
    total
}

impl Graph {
    /// The bytes of the node array.
    pub open spec fn nodes_bytes(&self) -> usize {
        capped((self.nodes@.len() * size_of::<Node>()) as int)
    }

    /// The bytes of the edge array.
    pub open spec fn edges_bytes(&self) -> usize {
        capped((self.edges@.len() * size_of::<Edge>()) as int)
    }

    /// The bytes of the metadata array.
    pub open spec fn edges_metadata_bytes(&self) -> usize {
        capped((self.edge_metadata@.len() * size_of::<EdgeMetadata>()) as int)
    }

    /// The bytes of the forward adjacency lists.
    pub open spec fn fwd_bytes(&self) -> usize {
        capped(lists_bytes(self.fwd_edge_list@, self.fwd_edge_list@.len() as int))
    }

    /// The bytes of the backward adjacency lists.
    pub open spec fn bwd_bytes(&self) -> usize {
        capped(lists_bytes(self.bwd_edge_list@, self.bwd_edge_list@.len() as int))
    }

    fn get_nodes_bytes(&self) -> (bytes: usize)
        ensures
            bytes == self.nodes_bytes(),
    {
        scaled(self.nodes.len(), std::mem::size_of::<Node>())
    }

    fn get_edges_bytes(&self) -> (bytes: usize)
        ensures
            bytes == self.edges_bytes(),
    {
        scaled(self.edges.len(), std::mem::size_of::<Edge>())
    }

    fn get_edges_metadata_bytes(&self) -> (bytes: usize)
        ensures
            bytes == self.edges_metadata_bytes(),
    {
        scaled(self.edge_metadata.len(), std::mem::size_of::<EdgeMetadata>())
    }

    fn get_fwd_bytes(&self) -> (bytes: usize)
        ensures
            bytes == self.fwd_bytes(),
    {
        get_lists_bytes(&self.fwd_edge_list)
    }

    fn get_bwd_bytes(&self) -> (bytes: usize)
        ensures
            bytes == self.bwd_bytes(),
    {
        get_lists_bytes(&self.bwd_edge_list)
    }

    /// The memory that the arrays of the graph take, each in decimal
    /// units, and their total.
    pub fn get_mem_usage_str(&self) -> (report: String)
        ensures
            report@ == usage_text(
                self.nodes_bytes(),
                self.fwd_bytes(),
                self.bwd_bytes(),
                self.edges_bytes(),
                self.edges_metadata_bytes(),
            ),
    {
        let node_bytes: usize = self.get_nodes_bytes();
        let fwd_bytes: usize = self.get_fwd_bytes();
        let bwd_bytes: usize = self.get_bwd_bytes();
        let edge_bytes: usize = self.get_edges_bytes();
        let edge_metadata_bytes: usize = self.get_edges_metadata_bytes();
        let total: usize = summed(
            summed(summed(summed(node_bytes, fwd_bytes), bwd_bytes), edge_bytes),
            edge_metadata_bytes,
        );
        let mut report = String::from_str("nodes=");
        report.append(format_bytes(node_bytes).as_str());
        report.append(", fwd_edges=");
        report.append(format_bytes(fwd_bytes).as_str());
        report.append(", bwd_edges=");
        report.append(format_bytes(bwd_bytes).as_str());
        report.append(", edges=");
        report.append(format_bytes(edge_bytes).as_str());
        report.append(", edge_metadata=");
        report.append(format_bytes(edge_metadata_bytes).as_str());
        report.append(", total=");
        report.append(format_bytes(total).as_str());
        report
    }
}

} // verus!
