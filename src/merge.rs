use vstd::prelude::*;

use crate::commit::Commit;
use crate::error::Result;

verus! {

/// Reconciles two divergent versions of a file that share a base commit.
pub trait MergeStrategy {
    /// The payload that replaces both `left` and `right`.
    fn merge(
        &self,
        base: &Commit,
        left: &Commit,
        left_content: &[u8],
        right: &Commit,
        right_content: &[u8],
    ) -> Result<Vec<u8>>;
}

/// Keeps the payload of the later commit; on equal timestamps, `right`'s.
pub struct LastWriterWins;

impl MergeStrategy for LastWriterWins {
    fn merge(
        &self,
        base: &Commit,
        left: &Commit,
        left_content: &[u8],
        right: &Commit,
        right_content: &[u8],
    ) -> (r: Result<Vec<u8>>)
        ensures
            r matches Ok(v) && v@ == if left.timestamp > right.timestamp {
                left_content@
            } else {
                right_content@
            },
    {
        if left.timestamp > right.timestamp {
            Ok(vstd::slice::slice_to_vec(left_content))
        } else {
            Ok(vstd::slice::slice_to_vec(right_content))
        }
    }
}

} // verus!
