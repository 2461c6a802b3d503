//! Things that can be walked to produce an output.
use vstd::prelude::*;

verus! {

pub trait Visitable {
    type Output;

    /// What must hold of a value before it is visited.
    spec fn visitable(&self) -> bool;

    fn visit(&self) -> Self::Output
        requires
            self.visitable(),
    ;
}

} // verus!
