//! The outcome of a diff: the matched positions of the two sequences.
use vstd::prelude::*;

verus! {

/// The matched index pairs `(x, y)` of an alignment, in increasing order.
pub struct DiffResult {
    pub trace: Vec<(usize, usize)>,
}

impl DiffResult {
    /// Wraps a trace as it is.
    pub fn new(trace: Vec<(usize, usize)>) -> (r: DiffResult)
        ensures
            r.trace@ == trace@,
    {
        DiffResult { trace }
    }
}

} // verus!
