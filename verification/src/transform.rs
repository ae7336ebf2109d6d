//! Read-only transforms over spatial storage: a source structure is
//! materialized into a consumer-facing output format, one axis-aligned
//! integer region at a time.

use vstd::prelude::*;

verus! {

/// An axis-aligned integer region: the half-open box `[start, end)` on each
/// axis.
#[derive(Clone, Copy, Debug)]
pub struct Region {
    pub start: [usize; 3],
    pub end: [usize; 3],
}

/// What a transform is asked to materialize: the regions to cover and a
/// level-of-detail selector.
pub struct Transformation {
    pub regions: Vec<Region>,
    pub lod: usize,
}

/// A read-only materialization of `self` into an output format `O`. Each
/// implementation states its own precondition and pins the output down with
/// its `transform_ok` relation.
pub trait Transform<O> {
    /// Precondition of `transform`.
    spec fn transform_pre(&self, transformation: Transformation) -> bool;

    /// Exactly which outputs are correct for this transformation.
    spec fn transform_ok(&self, transformation: Transformation, output: O) -> bool;

    fn transform(&self, transformation: &Transformation) -> (r: O)
        requires
            self.transform_pre(*transformation),
        ensures
            self.transform_ok(*transformation, r),
    ;
}

} // verus!
