//! The order in which a `BTreeMap` hands out integer keys.
use vstd::prelude::*;
use vstd::std_specs::btree::increasing_seq;
use vstd::std_specs::cmp::OrdSpec;

verus! {

/// In an increasing sequence of ids an earlier id is below a later one.
pub proof fn lemma_increasing_ids(ids: Seq<i64>, i: int, j: int)
    requires
        increasing_seq(ids),
        0 <= i < j < ids.len(),
    ensures
        ids[i] < ids[j],
{
    assert(ids[i].cmp_spec(&ids[j]) is Less);
}

} // verus!
