//! Grey-level image filters and noise: median and mean block filters, salt-and-pepper noise,
//! and the integer parts of signal-to-noise measures, over images of the `image` crate.
use vstd::prelude::*;

pub mod filters;
pub mod noise;
pub mod raster;
pub mod stats;

verus! {

} // verus!
