//! The decision at the heart of the divergence check: given the local head,
//! the remote head, and their merge base, whether the local and remote
//! branches have truly diverged. Running the version-control commands that
//! produce those three values is the binary's work.

use vstd::prelude::*;

use crate::text::str_eq;

verus! {

/// Local and remote heads differ, and the merge base is not the remote head:
/// the local branch neither matches the remote nor merely lags behind it.
pub open spec fn diverged_spec(
    local_head: Seq<char>,
    remote_head: Seq<char>,
    merge_base: Seq<char>,
) -> bool {
    local_head != remote_head && merge_base != remote_head
}

/// Decides whether the branches have diverged from the three revision ids.
pub fn is_diverged(local_head: &str, remote_head: &str, merge_base: &str) -> (r: bool)
    ensures
        r == diverged_spec(local_head@, remote_head@, merge_base@),
{
    if str_eq(local_head, remote_head) {
        false
    } else {
        !str_eq(merge_base, remote_head)
    }
}

} // verus!
