//! The run's decisions: whether a continuous-integration build is wanted,
//! and how the skip marker is appended to the commit message when it is not.

use vstd::prelude::*;

verus! {

/// Whether a continuous-integration build runs, from the flags and the
/// operator's answer: an explicit veto wins, then an explicit request; with
/// neither, pushing a repository that has a workflow goes by the answer, and
/// a repository without a workflow needs no marker, so the build counts as
/// enabled.
pub open spec fn ci_enabled_spec(
    no_ci: bool,
    ci: bool,
    has_workflows: bool,
    push: bool,
    confirmed: bool,
) -> bool {
    if no_ci {
        false
    } else if ci {
        true
    } else if has_workflows && push {
        confirmed
    } else if !has_workflows {
        true
    } else {
        false
    }
}

/// Decides whether a continuous-integration build is wanted.
pub fn decide_ci(no_ci: bool, ci: bool, has_workflows: bool, push: bool, confirmed: bool) -> (r:
    bool)
    ensures
        r == ci_enabled_spec(no_ci, ci, has_workflows, push, confirmed),
{
    if no_ci {
        false
    } else if ci {
        true
    } else if has_workflows && push {
        confirmed
    } else if !has_workflows {
        true
    } else {
        false
    }
}

/// The commit message as committed: when the build is not wanted and a
/// workflow exists, the skip marker is appended; otherwise the message is
/// unchanged.
pub open spec fn final_message_spec(m: Seq<char>, ci_enabled: bool, has_workflows: bool) -> Seq<
    char,
> {
    if !ci_enabled && has_workflows {
        m + " [skip ci]"@
    } else {
        m
    }
}

/// Appends the skip marker to the commit message when no build is wanted.
pub fn final_commit_message(commit_message: &str, ci_enabled: bool, has_workflows: bool) -> (r:
    String)
    ensures
        r@ == final_message_spec(commit_message@, ci_enabled, has_workflows),
{
    if !ci_enabled && has_workflows {
        let mut out = String::from_str(commit_message);
        out.append(" [skip ci]");
        out
    } else {
        String::from_str(commit_message)
    }
}

} // verus!
