//! Plain data carried around the layout engine by the surrounding
//! application: per-region results and their grouping per image.

use vstd::prelude::*;

verus! {

/// The outcome of OCR on one region: its id, the backend's unsegmented
/// transcript, and the reconstructed grid, one inner list of cell values
/// per detected column row.
pub struct RegionResult {
    pub region_id: String,
    pub text: String,
    pub columns: Vec<Vec<String>>,
}

/// One card of output: an image and the results of all its regions.
pub struct OutputCard {
    pub image_id: String,
    pub image_name: String,
    pub results: Vec<RegionResult>,
}

} // verus!
