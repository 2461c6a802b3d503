//! Facts about filtered sequences that the graph operations rest on.
use vstd::prelude::*;

verus! {

/// Filtering by two predicates that agree on every element gives one result.
pub proof fn lemma_filter_same<A>(s: Seq<A>, p: spec_fn(A) -> bool, q: spec_fn(A) -> bool)
    requires
        forall|i: int| 0 <= i < s.len() ==> p(#[trigger] s[i]) == q(s[i]),
    ensures
        s.filter(p) == s.filter(q),
    decreases s.len(),
{
    reveal(Seq::filter);
    if s.len() > 0 {
        lemma_filter_same(s.drop_last(), p, q);
    }
}

/// Filtering keeps a sequence whose elements all pass.
pub proof fn lemma_filter_all<A>(s: Seq<A>, p: spec_fn(A) -> bool)
    requires
        forall|i: int| 0 <= i < s.len() ==> p(#[trigger] s[i]),
    ensures
        s.filter(p) == s,
    decreases s.len(),
{
    reveal(Seq::filter);
    if s.len() > 0 {
        lemma_filter_all(s.drop_last(), p);
        assert(s.drop_last().push(s.last()) =~= s);
    }
}

/// Filtering empties a sequence none of whose elements pass.
pub proof fn lemma_filter_none<A>(s: Seq<A>, p: spec_fn(A) -> bool)
    requires
        forall|i: int| 0 <= i < s.len() ==> !p(#[trigger] s[i]),
    ensures
        s.filter(p) == Seq::<A>::empty(),
    decreases s.len(),
{
    reveal(Seq::filter);
    if s.len() > 0 {
        lemma_filter_none(s.drop_last(), p);
    } else {
        assert(s =~= Seq::<A>::empty());
    }
}

/// Filtering by `p` and then by `q` is filtering by their conjunction.
pub proof fn lemma_filter_twice<A>(
    s: Seq<A>,
    p: spec_fn(A) -> bool,
    q: spec_fn(A) -> bool,
    r: spec_fn(A) -> bool,
)
    requires
        forall|i: int| 0 <= i < s.len() ==> r(#[trigger] s[i]) == (p(s[i]) && q(s[i])),
    ensures
        s.filter(p).filter(q) == s.filter(r),
    decreases s.len(),
{
    reveal(Seq::filter);
    if s.len() > 0 {
        let init = s.drop_last();
        lemma_filter_twice(init, p, q, r);
        if p(s.last()) {
            let fp = init.filter(p).push(s.last());
            assert(fp.drop_last() =~= init.filter(p));
        }
    }
}

/// An element is in the filtered sequence exactly when it is in the
/// sequence and passes.
pub proof fn lemma_filter_member<A>(s: Seq<A>, p: spec_fn(A) -> bool, x: A)
    ensures
        s.filter(p).contains(x) <==> (s.contains(x) && p(x)),
    decreases s.len(),
{
    reveal(Seq::filter);
    if s.len() > 0 {
        let init = s.drop_last();
        lemma_filter_member(init, p, x);
        if s.contains(x) {
            let i = choose|i: int| 0 <= i < s.len() && s[i] == x;
            if i < s.len() - 1 {
                assert(init[i] == x);
            }
        }
        if init.contains(x) {
            let i = choose|i: int| 0 <= i < init.len() && init[i] == x;
            assert(s[i] == x);
        }
        if p(s.last()) {
            let f = init.filter(p).push(s.last());
            if f.contains(x) {
                let i = choose|i: int| 0 <= i < f.len() && f[i] == x;
                if i < f.len() - 1 {
                    assert(init.filter(p)[i] == x);
                }
            }
            if init.filter(p).contains(x) {
                let i = choose|i: int| 0 <= i < init.filter(p).len() && init.filter(p)[i] == x;
                assert(f[i] == x);
            }
            if x == s.last() {
                assert(f[f.len() - 1] == x);
                assert(s[s.len() - 1] == x);
            }
        }
    }
}

/// Filtering a sequence without repetition leaves one without repetition.
pub proof fn lemma_filter_no_duplicates<A>(s: Seq<A>, p: spec_fn(A) -> bool)
    requires
        s.no_duplicates(),
    ensures
        s.filter(p).no_duplicates(),
    decreases s.len(),
{
    reveal(Seq::filter);
    if s.len() > 0 {
        let init = s.drop_last();
        lemma_filter_no_duplicates(init, p);
        lemma_filter_member(init, p, s.last());
        if init.contains(s.last()) {
            let i = choose|i: int| 0 <= i < init.len() && init[i] == s.last();
            assert(s[i] == s[s.len() - 1]);
        }
    }
}

/// The filter of the first `i + 1` elements, from that of the first `i`.
pub proof fn lemma_filter_take_step<A>(s: Seq<A>, p: spec_fn(A) -> bool, i: int)
    requires
        0 <= i < s.len(),
    ensures
        s.take(i + 1).filter(p) == if p(s[i]) {
            s.take(i).filter(p).push(s[i])
        } else {
            s.take(i).filter(p)
        },
{
    reveal(Seq::filter);
    assert(s.take(i + 1).drop_last() =~= s.take(i));
}

} // verus!
