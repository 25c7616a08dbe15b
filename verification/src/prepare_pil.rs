//! Options of the preparation of an AIR.
use vstd::prelude::*;

verus! {

/// Options of the preparation: `debug` skips the STARK checks and the code
/// generation; `im_pols_stages` commits intermediate polynomials in their own
/// stages.
#[derive(Debug, Clone, Copy, PartialEq, Eq, Structural)]
pub struct PrepareOptions {
    pub debug: bool,
    pub im_pols_stages: bool,
}

} // verus!
