//! Unpacking gives the walk that a packed path stands for: over edges that
//! pack nothing, between the same nodes, at the same cost.
use crate::ch_query::QueryResult;
use crate::csr_graph::{cold_of, CSREdgeCold};
use crate::graph::GraphModel;
use crate::shortcut_visitor::{
    emit, emit_all, endpoint, entry_nodes, is_packed, leaf_nodes, path_nodes, pushed, unpacked,
};
use crate::walks::{
    all_plain, expand, expand_from, first_of, is_chain, lemma_chain_concat,
    lemma_expand_from_chain, packs_two, second_of, sources,
    targets, total_weight,
};
use vstd::prelude::*;

verus! {

/// The cold records are those of the graph `g`, two for each edge, in the
/// order of the edge ids.
pub open spec fn cold_matches(cold: Seq<CSREdgeCold>, g: GraphModel) -> bool {
    &&& cold.len() == 2 * g.edges.len()
    &&& forall|i: int| 0 <= i < cold.len() ==> #[trigger] cold[i] == cold_of(g, (i / 2) as usize)
}

/// The ids of the entries of one direction, from entry `k` on.
pub open spec fn entry_ids(entries: Seq<QueryResult>, is_fwd: bool, k: int) -> Seq<usize>
    decreases entries.len() - k,
{
    if 0 <= k < entries.len() {
        if entries[k].is_fwd == is_fwd {
            seq![entries[k].edge_id] + entry_ids(entries, is_fwd, k + 1)
        } else {
            entry_ids(entries, is_fwd, k + 1)
        }
    } else {
        Seq::empty()
    }
}

/// The nodes that the edges `edges` emit in one direction: where they
/// start for forward edges, where they end for backward edges.
pub open spec fn ends_of(g: GraphModel, edges: Seq<usize>, is_fwd: bool) -> Seq<usize> {
    if is_fwd {
        sources(g, edges)
    } else {
        targets(g, edges)
    }
}

/// The nodes that two runs of edges emit.
pub proof fn lemma_ends_concat(g: GraphModel, a: Seq<usize>, b: Seq<usize>, is_fwd: bool)
    ensures
        ends_of(g, a + b, is_fwd) == ends_of(g, a, is_fwd) + ends_of(g, b, is_fwd),
{
    assert(ends_of(g, a + b, is_fwd) =~= ends_of(g, a, is_fwd) + ends_of(g, b, is_fwd));
}

/// An edge emits the nodes of the edges that it stands for.
pub proof fn lemma_leaf_nodes_expand(g: GraphModel, cold: Seq<CSREdgeCold>, e: usize, is_fwd: bool)
    requires
        g.shortcuts_sound(),
        g.records_there(),
        cold_matches(cold, g),
        e < g.edges.len(),
    ensures
        leaf_nodes(cold, cold_of(g, e), is_fwd) == ends_of(g, expand(g, e), is_fwd),
    decreases e,
{
    let record = cold_of(g, e);
    assert(g.shortcut_sound(e as int));
    if packs_two(g, e) {
        let first = first_of(g, e);
        let second = second_of(g, e);
        assert(cold[first * 2] == cold_of(g, ((first * 2) / 2) as usize));
        assert(cold[second * 2 + 1] == cold_of(g, ((second * 2 + 1) / 2) as usize));
        assert(is_packed(cold, record));
        lemma_leaf_nodes_expand(g, cold, first, is_fwd);
        lemma_leaf_nodes_expand(g, cold, second, is_fwd);
        lemma_ends_concat(g, expand(g, first), expand(g, second), is_fwd);
    } else {
        assert(!is_packed(cold, record));
        assert(ends_of(g, seq![e], is_fwd) =~= seq![endpoint(record, is_fwd)]);
    }
}

/// What a run of edges stands for, edge by edge.
pub proof fn lemma_expand_first(g: GraphModel, e: usize, rest: Seq<usize>)
    ensures
        expand_from(g, seq![e] + rest, 0) == expand(g, e) + expand_from(g, rest, 0),
{
    let whole = seq![e] + rest;
    assert(whole[0] == e);
    assert(whole.skip(1) =~= rest.skip(0));
    lemma_expand_shift(g, whole, rest, 1, 0);
}

/// What a run of edges stands for does not depend on what came before it.
pub proof fn lemma_expand_shift(g: GraphModel, a: Seq<usize>, b: Seq<usize>, i: int, j: int)
    requires
        0 <= i <= a.len(),
        0 <= j <= b.len(),
        a.skip(i) == b.skip(j),
    ensures
        expand_from(g, a, i) == expand_from(g, b, j),
    decreases a.len() - i,
{
    assert(a.len() - i == b.len() - j) by {
        assert(a.skip(i).len() == a.len() - i);
        assert(b.skip(j).len() == b.len() - j);
    }
    if i < a.len() {
        assert(a[i] == a.skip(i)[0]);
        assert(b[j] == b.skip(j)[0]);
        assert(a.skip(i + 1) =~= a.skip(i).skip(1));
        assert(b.skip(j + 1) =~= b.skip(j).skip(1));
        lemma_expand_shift(g, a, b, i + 1, j + 1);
    }
}

/// The entries of one direction emit the nodes of the edges that they
/// stand for.
pub proof fn lemma_entry_nodes_expand(
    g: GraphModel,
    cold: Seq<CSREdgeCold>,
    entries: Seq<QueryResult>,
    is_fwd: bool,
    k: int,
)
    requires
        g.shortcuts_sound(),
        g.records_there(),
        cold_matches(cold, g),
        0 <= k,
        forall|i: int| 0 <= i < entries.len() ==> (#[trigger] entries[i]).edge_id < g.edges.len(),
    ensures
        entry_nodes(cold, entries, is_fwd, k) == ends_of(
            g,
            expand_from(g, entry_ids(entries, is_fwd, k), 0),
            is_fwd,
        ),
    decreases entries.len() - k,
{
    if k < entries.len() {
        lemma_entry_nodes_expand(g, cold, entries, is_fwd, k + 1);
        if entries[k].is_fwd == is_fwd {
            let e = entries[k].edge_id;
            let rest = entry_ids(entries, is_fwd, k + 1);
            assert(cold[e * 2] == cold_of(g, ((e * 2) / 2) as usize));
            lemma_leaf_nodes_expand(g, cold, e, is_fwd);
            lemma_expand_first(g, e, rest);
            lemma_ends_concat(g, expand(g, e), expand_from(g, rest, 0), is_fwd);
        }
    } else {
        assert(ends_of(g, Seq::<usize>::empty(), is_fwd) =~= Seq::<usize>::empty());
    }
}

/// Along a chain the starts of the edges, then its end, are its start,
/// then the ends of the edges.
pub proof fn lemma_chain_nodes(g: GraphModel, edges: Seq<usize>, s: usize, t: usize)
    requires
        is_chain(g, edges, s, t),
    ensures
        sources(g, edges) + seq![t] == seq![s] + targets(g, edges),
{
    let left = sources(g, edges) + seq![t];
    let right = seq![s] + targets(g, edges);
    assert(left.len() == right.len());
    assert forall|i: int| 0 <= i < left.len() implies left[i] == right[i] by {
        if edges.len() > 0 {
            if 0 < i < edges.len() {
                assert(g.edges[edges[i - 1] as int].dest_id == g.edges[edges[i - 1 + 1] as int].src_id);
            }
        }
    }
    assert(left =~= right);
}

/// Emitting nodes that are all different keeps them all.
pub proof fn lemma_emit_all_distinct(nodes: Seq<usize>)
    requires
        nodes.no_duplicates(),
    ensures
        emit_all((Seq::empty(), Set::empty()), nodes) == (nodes, nodes.to_set()),
    decreases nodes.len(),
{
    let start = (Seq::<usize>::empty(), Set::<usize>::empty());
    if nodes.len() == 0 {
        assert(nodes =~= Seq::<usize>::empty());
        assert(nodes.to_set() =~= Set::<usize>::empty());
    } else {
        let init = nodes.drop_last();
        let last = nodes.last();
        assert(init.no_duplicates()) by {
            assert forall|i: int, j: int| 0 <= i < init.len() && 0 <= j < init.len() && i != j implies init[i]
                != init[j] by {
                assert(nodes[i] != nodes[j]);
            }
        }
        lemma_emit_all_distinct(init);
        assert(!init.to_set().contains(last)) by {
            if init.to_set().contains(last) {
                let i = choose|i: int| 0 <= i < init.len() && init[i] == last;
                assert(nodes[i] == nodes[nodes.len() - 1]);
            }
        }
        if init.len() > 0 {
            assert(init.last() == nodes[nodes.len() - 2]);
            assert(nodes[nodes.len() - 2] != nodes[nodes.len() - 1]);
        }
        assert(pushed(init, last) =~= nodes);
        assert(init.to_set().insert(last) =~= nodes.to_set()) by {
            assert forall|x: usize| nodes.to_set().contains(x) implies init.to_set().insert(
                last,
            ).contains(x) by {
                let i = choose|i: int| 0 <= i < nodes.len() && nodes[i] == x;
                if i < init.len() {
                    assert(init[i] == x);
                }
            }
            assert forall|x: usize| init.to_set().insert(last).contains(x) implies nodes.to_set().contains(
                x,
            ) by {
                if x == last {
                    assert(nodes[nodes.len() - 1] == x);
                } else {
                    let i = choose|i: int| 0 <= i < init.len() && init[i] == x;
                    assert(nodes[i] == x);
                }
            }
        }
        assert(emit_all(start, nodes) == emit(emit_all(start, init), last));
    }
}

/// Unpacking is faithful. Let the forward entries of a packed path be a
/// chain of edges from `s` to the meeting node `m` and its backward entries
/// a chain from `m` to `t`, in a graph whose shortcuts are sound and whose
/// cold records stand in a snapshot. Then the nodes that the path emits are
/// the nodes of a walk from `s` to `t` over edges that pack nothing, at the
/// cost of the entries; unpacking gives these nodes when none repeats.
pub proof fn lemma_unpacking_fidelity(
    g: GraphModel,
    cold: Seq<CSREdgeCold>,
    entries: Seq<QueryResult>,
    s: usize,
    m: usize,
    t: usize,
)
    requires
        g.shortcuts_sound(),
        g.records_there(),
        cold_matches(cold, g),
        is_chain(g, entry_ids(entries, true, 0), s, m),
        is_chain(g, entry_ids(entries, false, 0), m, t),
    ensures
        ({
            let packed = entry_ids(entries, true, 0) + entry_ids(entries, false, 0);
            let walk = expand_from(g, packed, 0);
            &&& is_chain(g, walk, s, t)
            &&& all_plain(g, walk)
            &&& total_weight(g, walk) == total_weight(g, packed)
            &&& path_nodes(cold, entries, m) == seq![s] + targets(g, walk)
            &&& path_nodes(cold, entries, m).no_duplicates() ==> unpacked(cold, entries, m)
                == seq![s] + targets(g, walk)
        }),
{
    let fwd = entry_ids(entries, true, 0);
    let bwd = entry_ids(entries, false, 0);
    let packed = fwd + bwd;
    let walk = expand_from(g, packed, 0);
    let first = expand_from(g, fwd, 0);
    let second = expand_from(g, bwd, 0);
    lemma_entry_ids_in_range(g, entries, true, 0, s, m);
    lemma_entry_ids_in_range(g, entries, false, 0, m, t);
    lemma_chain_concat(g, fwd, bwd, s, m, t);
    assert(packed.skip(0) =~= packed);
    assert(fwd.skip(0) =~= fwd);
    assert(bwd.skip(0) =~= bwd);
    lemma_expand_from_chain(g, packed, 0, s, t);
    lemma_expand_from_chain(g, fwd, 0, s, m);
    lemma_expand_from_chain(g, bwd, 0, m, t);
    lemma_expand_concat(g, fwd, bwd);
    let nodes = path_nodes(cold, entries, m);
    assert forall|i: int| 0 <= i < entries.len() implies (#[trigger] entries[i]).edge_id
        < g.edges.len() by {
        lemma_entry_id_listed(entries, entries[i].is_fwd, 0, i);
        if entries[i].is_fwd {
            assert(fwd.contains(entries[i].edge_id));
            let at = choose|at: int| 0 <= at < fwd.len() && fwd[at] == entries[i].edge_id;
            assert(fwd[at] < g.edges.len());
        } else {
            assert(bwd.contains(entries[i].edge_id));
            let at = choose|at: int| 0 <= at < bwd.len() && bwd[at] == entries[i].edge_id;
            assert(bwd[at] < g.edges.len());
        }
    }
    lemma_entry_nodes_expand(g, cold, entries, true, 0);
    lemma_entry_nodes_expand(g, cold, entries, false, 0);
    lemma_chain_nodes(g, first, s, m);
    assert(targets(g, first + second) =~= targets(g, first) + targets(g, second));
    assert(nodes =~= seq![s] + targets(g, walk)) by {
        assert(nodes == sources(g, first) + seq![m] + targets(g, second));
        assert(sources(g, first) + seq![m] + targets(g, second) =~= (seq![s] + targets(g, first))
            + targets(g, second));
    }
    if nodes.no_duplicates() {
        lemma_emit_all_distinct(nodes);
    }
}

/// Entry `i` is among the ids of its direction.
pub proof fn lemma_entry_id_listed(entries: Seq<QueryResult>, is_fwd: bool, k: int, i: int)
    requires
        0 <= k <= i < entries.len(),
        entries[i].is_fwd == is_fwd,
    ensures
        entry_ids(entries, is_fwd, k).contains(entries[i].edge_id),
    decreases i - k,
{
    let ids = entry_ids(entries, is_fwd, k);
    if k == i {
        assert(ids[0] == entries[i].edge_id);
    } else {
        lemma_entry_id_listed(entries, is_fwd, k + 1, i);
        let rest = entry_ids(entries, is_fwd, k + 1);
        let at = choose|at: int| 0 <= at < rest.len() && rest[at] == entries[i].edge_id;
        if entries[k].is_fwd == is_fwd {
            assert(ids[at + 1] == rest[at]);
        }
    }
}

/// The ids of a chain are edges of the graph.
pub proof fn lemma_entry_ids_in_range(
    g: GraphModel,
    entries: Seq<QueryResult>,
    is_fwd: bool,
    k: int,
    s: usize,
    t: usize,
)
    requires
        is_chain(g, entry_ids(entries, is_fwd, k), s, t),
    ensures
        forall|i: int|
            0 <= i < entry_ids(entries, is_fwd, k).len() ==> (#[trigger] entry_ids(
                entries,
                is_fwd,
                k,
            )[i]) < g.edges.len(),
{
}

/// What two runs of edges stand for, one after the other.
pub proof fn lemma_expand_concat(g: GraphModel, a: Seq<usize>, b: Seq<usize>)
    ensures
        expand_from(g, a + b, 0) == expand_from(g, a, 0) + expand_from(g, b, 0),
    decreases a.len(),
{
    if a.len() == 0 {
        assert(a + b =~= b);
        assert(expand_from(g, a, 0) =~= Seq::<usize>::empty());
    } else {
        let e = a[0];
        let rest = a.skip(1);
        assert(a =~= seq![e] + rest);
        assert(a + b =~= seq![e] + (rest + b));
        lemma_expand_first(g, e, rest);
        lemma_expand_first(g, e, rest + b);
        lemma_expand_concat(g, rest, b);
    }
}

} // verus!
