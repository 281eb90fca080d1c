//! The tool's command-line argument shape, as plain values.

use vstd::prelude::*;

verus! {

/// The arguments of one trimming run: the input video path and the
/// trim range's two time expressions, exactly as given by the user.
#[derive(Debug)]
pub struct Args {
    /// Input video file.
    pub input: String,
    /// Trim start, e.g. `90s`, `1m30s`, `HH:MM:SS` or `MM:SS`.
    pub start: String,
    /// Trim end, in the same formats as the start.
    pub end: String,
}

} // verus!
