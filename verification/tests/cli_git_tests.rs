use devlog::cli::{decide_ci, final_commit_message};
use devlog::git::is_diverged;

#[test]
fn ci_decision_table() {
    // An explicit veto wins over everything.
    assert!(!decide_ci(true, true, true, true, true));
    // Then an explicit request.
    assert!(decide_ci(false, true, true, false, false));
    // With a workflow and a push, the operator's answer decides.
    assert!(decide_ci(false, false, true, true, true));
    assert!(!decide_ci(false, false, true, true, false));
    // Without a workflow no marker is wanted, so the build counts as enabled.
    assert!(decide_ci(false, false, false, false, false));
    assert!(decide_ci(false, false, false, true, false));
    // A workflow without a push: disabled.
    assert!(!decide_ci(false, false, true, false, true));
}

#[test]
fn skip_marker_appending() {
    assert_eq!(
        final_commit_message("fix: bug", false, true),
        "fix: bug [skip ci]"
    );
    assert_eq!(final_commit_message("fix: bug", true, true), "fix: bug");
    assert_eq!(final_commit_message("fix: bug", false, false), "fix: bug");
}

#[test]
fn divergence_decision() {
    // Same heads: nothing to do.
    assert!(!is_diverged("abc", "abc", "abc"));
    // Local is ahead: the merge base is the remote head.
    assert!(!is_diverged("abc", "def", "def"));
    // Truly diverged: the merge base is neither head.
    assert!(is_diverged("abc", "def", "000"));
    // Local behind: the merge base is the local head, not the remote one.
    assert!(is_diverged("abc", "def", "abc"));
}
