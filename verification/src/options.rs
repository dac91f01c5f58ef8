//! Run options: which collection to use, which request of it to run, and
//! what the output collaborator should show.

use vstd::prelude::*;

verus! {

/// The options a run is started with.  Only `request` steers the engine:
/// the display flags are read by the output collaborator.
#[derive(Debug)]
pub struct Options {
    /// The collection file to use.
    pub collection: String,
    /// The specific request to execute within the collection, or every
    /// request in declared order.
    pub request: Option<String>,
    /// Show the response headers in the output.
    pub show_headers: bool,
    /// Suppress the response status line.
    pub hide_status: bool,
    /// Suppress the response body.
    pub hide_body: bool,
    /// Print without pretty-printing.
    pub raw_output: bool,
    /// Leave responses unmasked in the output.
    pub disable_masking: bool,
}

} // verus!
