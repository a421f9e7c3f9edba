//! Points in extended twisted-Edwards coordinates.

use vstd::prelude::*;
use crate::field::{fmul, FieldElement};

verus! {

/// A point `(X/Z, Y/Z)` with `T = X·Y/Z`.
#[allow(non_snake_case)]
#[derive(Clone, Copy, Debug, PartialEq, Eq)]
pub struct ExtendedPoint {
    pub X: FieldElement,
    pub Y: FieldElement,
    pub Z: FieldElement,
    pub T: FieldElement,
}

impl ExtendedPoint {
    /// Every coordinate is a reduced field element.
    pub open spec fn wf(&self) -> bool {
        self.X.wf() && self.Y.wf() && self.Z.wf() && self.T.wf()
    }

    /// The defining relation of extended coordinates, `X·Y = Z·T`.
    pub open spec fn on_extended_relation(&self) -> bool {
        fmul(self.X@, self.Y@) == fmul(self.Z@, self.T@)
    }
}

} // verus!
