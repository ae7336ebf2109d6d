//! Conversions of spatial storage into other representations, region by
//! region; the counterpart of `transform` for consumers that reshape data
//! rather than materialize it.

use vstd::prelude::*;

verus! {

/// An axis-aligned integer region: the half-open box `[start, end)` on each
/// axis.
#[derive(Clone, Copy, Debug)]
pub struct Region {
    pub start: [usize; 3],
    pub end: [usize; 3],
}

/// What a conversion is asked to cover: the regions and a level-of-detail
/// selector.
pub struct Conversion {
    pub regions: Vec<Region>,
    pub lod: usize,
}

/// A conversion of `self` into a representation `O`.
pub trait Convert<O> {
    fn convert(&self, conversion: &Conversion) -> O;
}

} // verus!
