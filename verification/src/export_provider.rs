//! Things that can be exported.
use vstd::prelude::*;

verus! {

pub trait ExportProvider {
    type ExportType;

    fn export(&self) -> Self::ExportType;
}

} // verus!
