//! Where the cold records of a snapshot stand: for a graph that still has
//! all its edges, the two records of edge `e` are at positions `2 * e` and
//! `2 * e + 1`.
use crate::csr_graph::{
    all_ids, cold_in_order, cold_of, edge_order, lemma_edge_order_member, lemma_edge_order_row,
    lists_of, sorted_from, CSRGraph,
};
use crate::graph::Graph;
use vstd::prelude::*;
use vstd::relations::injective_on;
use vstd::set_lib::{lemma_int_range, lemma_map_size, set_int_range};

verus! {

/// The rows of one direction name edges of the graph, none of them twice.
pub proof fn lemma_ids_distinct(graph: Graph, forward: bool)
    requires
        graph.wf(),
    ensures
        forall|i: int|
            0 <= i < all_ids(graph@, forward).len() ==> (#[trigger] all_ids(graph@, forward)[i])
                < graph@.edges.len(),
        forall|i: int, j: int|
            0 <= i < j < all_ids(graph@, forward).len() ==> all_ids(graph@, forward)[i] != all_ids(
                graph@,
                forward,
            )[j],
{
    let g = graph@;
    let lists = lists_of(g, forward);
    let n = g.nodes.len() as int;
    let ids = all_ids(g, forward);
    assert forall|i: int| 0 <= i < ids.len() implies (#[trigger] ids[i]) < g.edges.len() by {
        let place = lemma_edge_order_member(lists, n, i);
        if forward {
            assert(graph.fwd(place.0)[place.1] < graph.edges@.len());
        } else {
            assert(graph.bwd(place.0)[place.1] < graph.edges@.len());
        }
    }
    assert forall|i: int, j: int| 0 <= i < j < ids.len() implies ids[i] != ids[j] by {
        let a = lemma_edge_order_member(lists, n, i);
        let b = lemma_edge_order_member(lists, n, j);
        if forward {
            assert(graph.edges@[graph.fwd(a.0)[a.1] as int].src_id == a.0);
            assert(graph.edges@[graph.fwd(b.0)[b.1] as int].src_id == b.0);
            assert(graph.fwd(a.0).no_duplicates());
        } else {
            assert(graph.edges@[graph.bwd(a.0)[a.1] as int].dest_id == a.0);
            assert(graph.edges@[graph.bwd(b.0)[b.1] as int].dest_id == b.0);
            assert(graph.bwd(a.0).no_duplicates());
        }
    }
}

/// In a graph that has all its edges, the rows of one direction name every
/// edge.
pub proof fn lemma_ids_cover(graph: Graph, forward: bool, e: int) -> (at: int)
    requires
        graph.wf(),
        graph.complete(),
        0 <= e < graph@.edges.len(),
    ensures
        0 <= at < all_ids(graph@, forward).len(),
        all_ids(graph@, forward)[at] == e,
{
    let g = graph@;
    let lists = lists_of(g, forward);
    let n = g.nodes.len() as int;
    assert(graph.edges.len() <= usize::MAX);
    assert(graph.is_live(e));
    let node = if forward {
        g.edges[e].src_id as int
    } else {
        g.edges[e].dest_id as int
    };
    assert(graph.edges@[e].src_id < n);
    assert(lists[node].contains(e as usize));
    let k = choose|k: int| 0 <= k < lists[node].len() && lists[node][k] == e as usize;
    lemma_edge_order_row(lists, node, n);
    edge_order(lists, node).len() + k
}

/// In a graph that has all its edges, the rows of one direction hold as
/// many entries as the graph has edges.
pub proof fn lemma_ids_len(graph: Graph, forward: bool)
    requires
        graph.wf(),
        graph.complete(),
    ensures
        all_ids(graph@, forward).len() == graph@.edges.len(),
{
    let g = graph@;
    let ids = all_ids(g, forward);
    let positions = set_int_range(0, ids.len() as int);
    let edges = set_int_range(0, g.edges.len() as int);
    let id_at = |i: int| ids[i] as int;
    lemma_ids_distinct(graph, forward);
    lemma_int_range(0, ids.len() as int);
    lemma_int_range(0, g.edges.len() as int);
    assert(injective_on(id_at, positions)) by {
        assert forall|a: int, b: int|
            positions.contains(a) && positions.contains(b) && #[trigger] id_at(a) == #[trigger] id_at(
                b,
            ) implies a == b by {
            if a < b {
                assert(ids[a] != ids[b]);
            } else if b < a {
                assert(ids[b] != ids[a]);
            }
        }
    }
    assert(positions.map(id_at) =~= edges) by {
        assert forall|e: int| edges.contains(e) implies positions.map(id_at).contains(e) by {
            let at = lemma_ids_cover(graph, forward, e);
            assert(positions.contains(at));
            assert(id_at(at) == e);
        }
        assert forall|e: int| positions.map(id_at).contains(e) implies edges.contains(e) by {
            let at = choose|at: int| positions.contains(at) && id_at(at) == e;
            assert(ids[at] < g.edges.len());
        }
    }
    lemma_map_size(positions, edges, id_at);
}

/// A rising sequence in which no value stands three times, of twice as
/// many values as there are ids, holds each id twice, in order.
pub proof fn lemma_pairs_in_order(ids: Seq<int>, count: int, i: int)
    requires
        ids.len() == 2 * count,
        forall|k: int| 0 <= k < ids.len() ==> 0 <= #[trigger] ids[k] < count,
        forall|k: int| 0 <= k && k + 1 < ids.len() ==> #[trigger] ids[k] <= ids[k + 1],
        forall|k: int| 0 <= k && k + 2 < ids.len() ==> #[trigger] ids[k] < ids[k + 2],
        0 <= i < ids.len(),
    ensures
        ids[i] == i / 2,
{
    lemma_at_least(ids, count, i);
    lemma_at_most(ids, count, i);
}

proof fn lemma_at_least(ids: Seq<int>, count: int, i: int)
    requires
        ids.len() == 2 * count,
        forall|k: int| 0 <= k < ids.len() ==> 0 <= #[trigger] ids[k] < count,
        forall|k: int| 0 <= k && k + 2 < ids.len() ==> #[trigger] ids[k] < ids[k + 2],
        0 <= i < ids.len(),
    ensures
        ids[i] >= i / 2,
    decreases i,
{
    if i >= 2 {
        lemma_at_least(ids, count, i - 2);
        assert(ids[i - 2] < ids[i - 2 + 2]);
    }
}

proof fn lemma_at_most(ids: Seq<int>, count: int, i: int)
    requires
        ids.len() == 2 * count,
        forall|k: int| 0 <= k < ids.len() ==> 0 <= #[trigger] ids[k] < count,
        forall|k: int| 0 <= k && k + 2 < ids.len() ==> #[trigger] ids[k] < ids[k + 2],
        0 <= i < ids.len(),
    ensures
        ids[i] <= i / 2,
    decreases ids.len() - i,
{
    if i + 2 < ids.len() {
        lemma_at_most(ids, count, i + 2);
        assert(ids[i] < ids[i + 2]);
    }
}

/// The snapshot of a graph that has all its edges holds the two cold
/// records of edge `e` at positions `2 * e` and `2 * e + 1`.
pub proof fn lemma_snapshot_cold(csr: CSRGraph, graph: Graph)
    requires
        graph.wf(),
        graph.complete(),
        csr.is_snapshot_of(graph@),
    ensures
        csr.values_cold@.len() == 2 * graph@.edges.len(),
        forall|i: int|
            0 <= i < csr.values_cold@.len() ==> #[trigger] csr.values_cold@[i] == cold_of(
                graph@,
                (i / 2) as usize,
            ),
{
    let g = graph@;
    let sorted = csr.values_cold@;
    let unsorted = cold_in_order(g);
    let fwd_ids = all_ids(g, true);
    let bwd_ids = all_ids(g, false);
    let count = g.edges.len() as int;
    let from = choose|from: Seq<int>| sorted_from(sorted, unsorted, from);
    lemma_ids_distinct(graph, true);
    lemma_ids_distinct(graph, false);
    lemma_ids_len(graph, true);
    lemma_ids_len(graph, false);
    assert(unsorted.len() == 2 * count);
    let ids = Seq::new(sorted.len(), |i: int| sorted[i].id as int);
    assert forall|k: int| 0 <= k < unsorted.len() implies (#[trigger] unsorted[k]).id == (if k
        < count {
        fwd_ids[k]
    } else {
        bwd_ids[k - count]
    }) by {}
    assert forall|k: int| 0 <= k < ids.len() implies 0 <= #[trigger] ids[k] < count by {
        assert(sorted[k] == unsorted[from[k]]);
    }
    assert forall|k: int| 0 <= k && k + 1 < ids.len() implies #[trigger] ids[k] <= ids[k + 1] by {
        assert(sorted[k].id <= sorted[k + 1].id);
    }
    assert forall|k: int| 0 <= k && k + 2 < ids.len() implies #[trigger] ids[k] < ids[k + 2] by {
        assert(sorted[k].id <= sorted[k + 1].id);
        assert(sorted[k + 1].id <= sorted[k + 2].id);
        assert(sorted[k].id <= sorted[k + 2].id);
        if ids[k] == ids[k + 2] {
            let a = from[k];
            let b = from[k + 1];
            let c = from[k + 2];
            assert(sorted[k] == unsorted[a]);
            assert(sorted[k + 1] == unsorted[b]);
            assert(sorted[k + 2] == unsorted[c]);
            assert(a < b && b < c);
            if b < count {
                assert(fwd_ids[a] != fwd_ids[b]);
            } else {
                assert(bwd_ids[b - count] != bwd_ids[c - count]);
            }
        }
    }
    assert forall|i: int| 0 <= i < sorted.len() implies #[trigger] sorted[i] == cold_of(
        g,
        (i / 2) as usize,
    ) by {
        lemma_pairs_in_order(ids, count, i);
        assert(sorted[i] == unsorted[from[i]]);
        assert(ids[i] == i / 2);
    }
}

/// The snapshot of a graph that has all its edges and only sound
/// shortcuts lays its cold records out as unpacking needs them.
pub proof fn lemma_snapshot_cold_wf(csr: CSRGraph, graph: Graph)
    requires
        graph.wf(),
        graph.complete(),
        graph@.shortcuts_sound(),
        csr.is_snapshot_of(graph@),
    ensures
        csr.cold_wf(),
{
    let g = graph@;
    let cold = csr.values_cold@;
    lemma_snapshot_cold(csr, graph);
    assert(graph.edges.len() <= usize::MAX);
    assert forall|i: int| 0 <= i < cold.len() implies (#[trigger] cold[i]).id == i / 2 by {
        assert(cold[i] == cold_of(g, (i / 2) as usize));
    }
    assert forall|i: int| 0 <= i < cold.len() && (#[trigger] cold[i]).prev_edge.is_some() implies cold[i].prev_edge.unwrap()
        < cold[i].id by {
        assert(cold[i] == cold_of(g, (i / 2) as usize));
        assert(g.shortcut_sound(i / 2));
    }
    assert forall|i: int| 0 <= i < cold.len() && (#[trigger] cold[i]).next_edge.is_some() implies cold[i].next_edge.unwrap()
        < cold[i].id by {
        assert(cold[i] == cold_of(g, (i / 2) as usize));
        assert(g.shortcut_sound(i / 2));
    }
    lemma_ids_distinct(graph, true);
    lemma_ids_distinct(graph, false);
    let fwd_ids = all_ids(g, true);
    let bwd_ids = all_ids(g, false);
    assert forall|i: int| 0 <= i < csr.values_hot@.len() implies (#[trigger] csr.values_hot@[i]).id
        * 2 < cold.len() by {
        if i < fwd_ids.len() {
            assert(fwd_ids[i] < g.edges.len());
        } else {
            assert(bwd_ids[i - fwd_ids.len()] < g.edges.len());
        }
    }
}

} // verus!
