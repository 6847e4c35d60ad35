//! Line diffs: an optimal alignment of two sequences of strings.
use vstd::prelude::*;

pub mod diff_result;
pub mod edit_graph;
pub mod myers_diff;

use diff_result::DiffResult;
use edit_graph::is_optimal_trace;

verus! {

/// The optimal alignment of `lhs` with `rhs`; see `myers_diff::diff`.
pub fn diff(lhs: &Vec<String>, rhs: &Vec<String>) -> (r: DiffResult)
    requires
        lhs@.len() + rhs@.len() <= usize::MAX / 2,
    ensures
        is_optimal_trace(lhs.deep_view(), rhs.deep_view(), r.trace@),
        lhs@.len() == 0 || rhs@.len() == 0 ==> r.trace@.len() == 0,
{
    myers_diff::diff(lhs, rhs)
}

} // verus!
