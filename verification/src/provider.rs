//! Sources of a contraction order.
use vstd::prelude::*;

verus! {

pub trait OrderingProvider {
    type Item;

    fn get_node_order() -> Self::Item;
}

} // verus!
