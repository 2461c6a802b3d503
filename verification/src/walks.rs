//! Walks over the edges of a graph, and what a shortcut stands for: the
//! walk over the edges that it packs.
use crate::graph::GraphModel;
use vstd::prelude::*;

verus! {

/// The sum of the costs of `edges`.
pub open spec fn total_weight(g: GraphModel, edges: Seq<usize>) -> int
    decreases edges.len(),
{
    if edges.len() == 0 {
        0
    } else {
        total_weight(g, edges.drop_last()) + g.weight_of(edges.last() as int)
    }
}

/// `edges` are edges of the graph, each starts where the one before it
/// ends, the first starts at `s` and the last ends at `t`; without edges
/// `s` is `t`.
pub open spec fn is_chain(g: GraphModel, edges: Seq<usize>, s: usize, t: usize) -> bool {
    &&& forall|i: int| 0 <= i < edges.len() ==> (#[trigger] edges[i]) < g.edges.len()
    &&& if edges.len() == 0 {
        s == t
    } else {
        &&& g.edges[edges[0] as int].src_id == s
        &&& g.edges[edges.last() as int].dest_id == t
        &&& forall|i: int|
            0 <= i < edges.len() - 1 ==> g.edges[(#[trigger] edges[i]) as int].dest_id
                == g.edges[edges[i + 1] as int].src_id
    }
}

/// Where each of `edges` starts.
pub open spec fn sources(g: GraphModel, edges: Seq<usize>) -> Seq<usize> {
    Seq::new(edges.len(), |i: int| g.edges[edges[i] as int].src_id)
}

/// Where each of `edges` ends.
pub open spec fn targets(g: GraphModel, edges: Seq<usize>) -> Seq<usize> {
    Seq::new(edges.len(), |i: int| g.edges[edges[i] as int].dest_id)
}

/// Edge `e` packs two edges of lower ids.
pub open spec fn packs_two(g: GraphModel, e: usize) -> bool {
    let record = g.metadata[g.edges[e as int].metadata_index as int];
    &&& record.prev_edge.is_some()
    &&& record.next_edge.is_some()
    &&& record.prev_edge.unwrap() < e
    &&& record.next_edge.unwrap() < e
}

/// The first edge that `e` packs.
pub open spec fn first_of(g: GraphModel, e: usize) -> usize {
    g.metadata[g.edges[e as int].metadata_index as int].prev_edge.unwrap()
}

/// The second edge that `e` packs.
pub open spec fn second_of(g: GraphModel, e: usize) -> usize {
    g.metadata[g.edges[e as int].metadata_index as int].next_edge.unwrap()
}

/// The edges without packed edges that `e` stands for, in travel order.
pub open spec fn expand(g: GraphModel, e: usize) -> Seq<usize>
    decreases e,
{
    if packs_two(g, e) {
        expand(g, first_of(g, e)) + expand(g, second_of(g, e))
    } else {
        seq![e]
    }
}

/// The edges without packed edges that `edges` stand for, from number `k`
/// on.
pub open spec fn expand_from(g: GraphModel, edges: Seq<usize>, k: int) -> Seq<usize>
    decreases edges.len() - k,
{
    if 0 <= k < edges.len() {
        expand(g, edges[k]) + expand_from(g, edges, k + 1)
    } else {
        Seq::empty()
    }
}

/// Every one of `edges` is an edge that packs nothing.
pub open spec fn all_plain(g: GraphModel, edges: Seq<usize>) -> bool {
    forall|i: int|
        0 <= i < edges.len() ==> {
            let record = g.metadata[g.edges[(#[trigger] edges[i]) as int].metadata_index as int];
            record.prev_edge.is_none() && record.next_edge.is_none()
        }
}

/// The cost of two runs of edges is the sum of their costs.
pub proof fn lemma_weight_concat(g: GraphModel, a: Seq<usize>, b: Seq<usize>)
    ensures
        total_weight(g, a + b) == total_weight(g, a) + total_weight(g, b),
    decreases b.len(),
{
    if b.len() == 0 {
        assert(a + b =~= a);
    } else {
        lemma_weight_concat(g, a, b.drop_last());
        assert((a + b).drop_last() =~= a + b.drop_last());
    }
}

/// The cost of one edge.
pub proof fn lemma_weight_one(g: GraphModel, e: usize)
    ensures
        total_weight(g, seq![e]) == g.weight_of(e as int),
{
    assert(seq![e].drop_last() =~= Seq::<usize>::empty());
    assert(total_weight(g, Seq::<usize>::empty()) == 0);
}

/// A chain to `m` and a chain from `m` make a chain.
pub proof fn lemma_chain_concat(
    g: GraphModel,
    a: Seq<usize>,
    b: Seq<usize>,
    s: usize,
    m: usize,
    t: usize,
)
    requires
        is_chain(g, a, s, m),
        is_chain(g, b, m, t),
    ensures
        is_chain(g, a + b, s, t),
{
    let whole = a + b;
    if a.len() == 0 {
        assert(whole =~= b);
    } else if b.len() == 0 {
        assert(whole =~= a);
    } else {
        assert forall|i: int| 0 <= i < whole.len() - 1 implies g.edges[(
        #[trigger] whole[i]) as int].dest_id == g.edges[whole[i + 1] as int].src_id by {
            if i < a.len() - 1 {
                assert(whole[i] == a[i] && whole[i + 1] == a[i + 1]);
            } else if i == a.len() - 1 {
                assert(whole[i] == a.last() && whole[i + 1] == b[0]);
            } else {
                assert(whole[i] == b[i - a.len()] && whole[i + 1] == b[i - a.len() + 1]);
            }
        }
        assert(whole[0] == a[0]);
        assert(whole.last() == b.last());
    }
}

/// What a sound edge stands for is a chain of edges that pack nothing,
/// from its source to its destination, at its cost.
pub proof fn lemma_expand_chain(g: GraphModel, e: usize)
    requires
        g.shortcuts_sound(),
        g.records_there(),
        e < g.edges.len(),
    ensures
        expand(g, e).len() > 0,
        is_chain(g, expand(g, e), g.edges[e as int].src_id, g.edges[e as int].dest_id),
        total_weight(g, expand(g, e)) == g.weight_of(e as int),
        all_plain(g, expand(g, e)),
    decreases e,
{
    assert(g.shortcut_sound(e as int));
    if packs_two(g, e) {
        let first = first_of(g, e);
        let second = second_of(g, e);
        lemma_expand_chain(g, first);
        lemma_expand_chain(g, second);
        lemma_chain_concat(
            g,
            expand(g, first),
            expand(g, second),
            g.edges[e as int].src_id,
            g.edges[first as int].dest_id,
            g.edges[e as int].dest_id,
        );
        lemma_weight_concat(g, expand(g, first), expand(g, second));
        let whole = expand(g, first) + expand(g, second);
        assert forall|i: int| 0 <= i < whole.len() implies {
            let record = g.metadata[g.edges[(#[trigger] whole[i]) as int].metadata_index as int];
            record.prev_edge.is_none() && record.next_edge.is_none()
        } by {
            if i < expand(g, first).len() {
                assert(whole[i] == expand(g, first)[i]);
            } else {
                assert(whole[i] == expand(g, second)[i - expand(g, first).len()]);
            }
        }
    } else {
        lemma_weight_one(g, e);
        assert(seq![e][0] == e);
    }
}

/// What a chain of sound edges stands for is a chain of edges that pack
/// nothing, between the same nodes and at the same cost.
pub proof fn lemma_expand_from_chain(g: GraphModel, edges: Seq<usize>, k: int, s: usize, t: usize)
    requires
        g.shortcuts_sound(),
        g.records_there(),
        0 <= k <= edges.len(),
        is_chain(g, edges.skip(k), s, t),
    ensures
        is_chain(g, expand_from(g, edges, k), s, t),
        total_weight(g, expand_from(g, edges, k)) == total_weight(g, edges.skip(k)),
        all_plain(g, expand_from(g, edges, k)),
    decreases edges.len() - k,
{
    let rest = edges.skip(k);
    if k < edges.len() {
        let e = edges[k];
        assert(rest[0] == e);
        let mid = g.edges[e as int].dest_id;
        lemma_expand_chain(g, e);
        assert(edges.skip(k + 1) =~= rest.skip(1));
        assert(is_chain(g, edges.skip(k + 1), mid, t)) by {
            let tail = edges.skip(k + 1);
            assert forall|i: int| 0 <= i < tail.len() implies (#[trigger] tail[i]) < g.edges.len() by {
                assert(tail[i] == rest[i + 1]);
            }
            if tail.len() > 0 {
                assert(tail[0] == rest[1]);
                assert(tail.last() == rest.last());
                assert forall|i: int| 0 <= i < tail.len() - 1 implies g.edges[(
                #[trigger] tail[i]) as int].dest_id == g.edges[tail[i + 1] as int].src_id by {
                    assert(tail[i] == rest[i + 1] && tail[i + 1] == rest[i + 2]);
                }
            } else {
                assert(rest.last() == e);
            }
        }
        lemma_expand_from_chain(g, edges, k + 1, mid, t);
        lemma_chain_concat(g, expand(g, e), expand_from(g, edges, k + 1), s, mid, t);
        lemma_weight_concat(g, expand(g, e), expand_from(g, edges, k + 1));
        assert(rest =~= seq![e] + edges.skip(k + 1));
        lemma_weight_concat(g, seq![e], edges.skip(k + 1));
        lemma_weight_one(g, e);
        let head = expand(g, e);
        let tail = expand_from(g, edges, k + 1);
        assert forall|i: int| 0 <= i < (head + tail).len() implies {
            let record = g.metadata[g.edges[(#[trigger] (head + tail)[i]) as int].metadata_index as int];
            record.prev_edge.is_none() && record.next_edge.is_none()
        } by {
            if i < head.len() {
                assert((head + tail)[i] == head[i]);
            } else {
                assert((head + tail)[i] == tail[i - head.len()]);
            }
        }
    } else {
        assert(rest =~= Seq::<usize>::empty());
        assert(total_weight(g, rest) == 0);
    }
}

/// A chain over edges that pack nothing, in a graph that has grown by
/// shortcuts alone, is a chain of the graph that it has grown from, at the
/// same cost.
pub proof fn lemma_plain_chain_is_old(
    before: GraphModel,
    after: GraphModel,
    edges: Seq<usize>,
    s: usize,
    t: usize,
)
    requires
        before.records_there(),
        after.extends(before),
        after.shortcuts_beyond(before.edges.len()),
        is_chain(after, edges, s, t),
        all_plain(after, edges),
    ensures
        is_chain(before, edges, s, t),
        total_weight(before, edges) == total_weight(after, edges),
    decreases edges.len(),
{
    assert forall|i: int| 0 <= i < edges.len() implies (#[trigger] edges[i]) < before.edges.len()
        && after.edges[edges[i] as int] == before.edges[edges[i] as int] && after.weight_of(
        edges[i] as int,
    ) == before.weight_of(edges[i] as int) by {
        let e = edges[i] as int;
        if e >= before.edges.len() {
            assert(after.is_shortcut(e));
        }
        assert(after.edges[e] == before.edges[e]);
        assert(after.metadata[before.edges[e].metadata_index as int]
            == before.metadata[before.edges[e].metadata_index as int]);
    }
    if edges.len() > 0 {
        let init = edges.drop_last();
        let mid = after.edges[edges.last() as int].src_id;
        assert(edges[edges.len() - 1] == edges.last());
        assert(is_chain(after, init, s, mid)) by {
            assert forall|i: int| 0 <= i < init.len() implies (#[trigger] init[i]) < after.edges.len() by {
                assert(init[i] == edges[i]);
            }
            if init.len() > 0 {
                assert(init[0] == edges[0]);
                assert(init.last() == edges[edges.len() - 2]);
                assert(after.edges[edges[edges.len() - 2] as int].dest_id
                    == after.edges[edges[edges.len() - 2 + 1] as int].src_id);
                assert forall|i: int| 0 <= i < init.len() - 1 implies after.edges[(
                #[trigger] init[i]) as int].dest_id == after.edges[init[i + 1] as int].src_id by {
                    assert(init[i] == edges[i] && init[i + 1] == edges[i + 1]);
                }
            }
        }
        assert(all_plain(after, init)) by {
            assert forall|i: int| 0 <= i < init.len() implies {
                let record = after.metadata[after.edges[(
                #[trigger] init[i]) as int].metadata_index as int];
                record.prev_edge.is_none() && record.next_edge.is_none()
            } by {
                assert(init[i] == edges[i]);
            }
        }
        lemma_plain_chain_is_old(before, after, init, s, mid);
    }
}

/// A chain without its last edge is a chain to where that edge starts.
pub proof fn lemma_chain_without_last(g: GraphModel, edges: Seq<usize>, s: usize, t: usize)
    requires
        is_chain(g, edges, s, t),
        edges.len() > 0,
    ensures
        is_chain(g, edges.drop_last(), s, g.edges[edges.last() as int].src_id),
        g.edges[edges.last() as int].dest_id == t,
        edges.last() < g.edges.len(),
{
    let init = edges.drop_last();
    assert(edges[edges.len() - 1] == edges.last());
    assert forall|i: int| 0 <= i < init.len() implies (#[trigger] init[i]) < g.edges.len() by {
        assert(init[i] == edges[i]);
    }
    if init.len() > 0 {
        assert(init[0] == edges[0]);
        assert(init.last() == edges[edges.len() - 2]);
        assert(g.edges[edges[edges.len() - 2] as int].dest_id == g.edges[edges[edges.len() - 2
            + 1] as int].src_id);
        assert forall|i: int| 0 <= i < init.len() - 1 implies g.edges[(
        #[trigger] init[i]) as int].dest_id == g.edges[init[i + 1] as int].src_id by {
            assert(init[i] == edges[i] && init[i + 1] == edges[i + 1]);
        }
    }
}

/// A chain without its first edge is a chain from where that edge ends.
pub proof fn lemma_chain_without_first(g: GraphModel, edges: Seq<usize>, s: usize, t: usize)
    requires
        is_chain(g, edges, s, t),
        edges.len() > 0,
    ensures
        is_chain(g, edges.skip(1), g.edges[edges[0] as int].dest_id, t),
        g.edges[edges[0] as int].src_id == s,
        edges[0] < g.edges.len(),
{
    let tail = edges.skip(1);
    assert forall|i: int| 0 <= i < tail.len() implies (#[trigger] tail[i]) < g.edges.len() by {
        assert(tail[i] == edges[i + 1]);
    }
    if tail.len() > 0 {
        assert(tail[0] == edges[1]);
        assert(tail.last() == edges.last());
        assert(g.edges[edges[0int] as int].dest_id == g.edges[edges[0int + 1] as int].src_id);
        assert forall|i: int| 0 <= i < tail.len() - 1 implies g.edges[(
        #[trigger] tail[i]) as int].dest_id == g.edges[tail[i + 1] as int].src_id by {
            assert(tail[i] == edges[i + 1] && tail[i + 1] == edges[i + 2]);
        }
    } else {
        assert(edges.last() == edges[0]);
    }
}

/// A chain falls into the chain of its first `i` edges and the chain of
/// the rest, which meet where edge number `i` starts.
pub proof fn lemma_chain_split(g: GraphModel, edges: Seq<usize>, s: usize, t: usize, i: int)
    requires
        is_chain(g, edges, s, t),
        0 <= i < edges.len(),
    ensures
        is_chain(g, edges.take(i), s, g.edges[edges[i] as int].src_id),
        is_chain(g, edges.skip(i), g.edges[edges[i] as int].src_id, t),
        total_weight(g, edges) == total_weight(g, edges.take(i)) + total_weight(g, edges.skip(i)),
{
    let head = edges.take(i);
    let tail = edges.skip(i);
    assert(edges =~= head + tail);
    lemma_weight_concat(g, head, tail);
    assert forall|k: int| 0 <= k < head.len() implies (#[trigger] head[k]) < g.edges.len() by {
        assert(head[k] == edges[k]);
    }
    assert forall|k: int| 0 <= k < tail.len() implies (#[trigger] tail[k]) < g.edges.len() by {
        assert(tail[k] == edges[k + i]);
    }
    if head.len() > 0 {
        assert(head[0] == edges[0]);
        assert(head.last() == edges[i - 1]);
        assert(g.edges[edges[i - 1] as int].dest_id == g.edges[edges[i - 1 + 1] as int].src_id);
        assert forall|k: int| 0 <= k < head.len() - 1 implies g.edges[(
        #[trigger] head[k]) as int].dest_id == g.edges[head[k + 1] as int].src_id by {
            assert(head[k] == edges[k] && head[k + 1] == edges[k + 1]);
        }
    }
    assert(tail[0] == edges[i]);
    assert(tail.last() == edges.last());
    assert forall|k: int| 0 <= k < tail.len() - 1 implies g.edges[(
    #[trigger] tail[k]) as int].dest_id == g.edges[tail[k + 1] as int].src_id by {
        assert(tail[k] == edges[k + i] && tail[k + 1] == edges[k + i + 1]);
    }
}

/// The cost of the first edges of a run and of the rest are not negative
/// and add up to the cost of the run.
pub proof fn lemma_weight_parts(g: GraphModel, edges: Seq<usize>, i: int)
    requires
        0 <= i <= edges.len(),
    ensures
        total_weight(g, edges) == total_weight(g, edges.take(i)) + total_weight(g, edges.skip(i)),
        total_weight(g, edges.take(i)) >= 0,
        total_weight(g, edges.skip(i)) >= 0,
{
    assert(edges =~= edges.take(i) + edges.skip(i));
    lemma_weight_concat(g, edges.take(i), edges.skip(i));
    lemma_weight_positive(g, edges.take(i));
    lemma_weight_positive(g, edges.skip(i));
}

/// The cost of a run of edges is not negative.
pub proof fn lemma_weight_positive(g: GraphModel, edges: Seq<usize>)
    ensures
        total_weight(g, edges) >= 0,
    decreases edges.len(),
{
    if edges.len() > 0 {
        lemma_weight_positive(g, edges.drop_last());
    }
}

} // verus!
