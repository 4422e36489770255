use devlog::utils::{
    classify_edit_choice, compose_title, edit_commit_content, format_commit_content,
    input_prompt, input_with_default, parse_choice, CommitType, EditAction, EditChoice, Entry,
    ResetMode,
};

#[test]
fn commit_content_title_only() {
    let e = Entry { title: String::from("fix: bug"), body: vec![] };
    assert_eq!(format_commit_content(&e), "fix: bug");
}

#[test]
fn commit_content_bullets_and_blank_drop() {
    let e = Entry {
        title: String::from("feat: X"),
        body: vec![String::from("a"), String::from(""), String::from("b")],
    };
    assert_eq!(format_commit_content(&e), "feat: X\n- a\n- b");
    let blank_only = Entry {
        title: String::from("t"),
        body: vec![String::from("   "), String::from("\t")],
    };
    assert_eq!(format_commit_content(&blank_only), "t");
}

#[test]
fn prompt_and_default_handling() {
    assert_eq!(input_prompt("remote name", "github"), "remote name (default: github): ");
    assert_eq!(input_with_default(""), None);
    assert_eq!(input_with_default("origin"), Some(String::from("origin")));
}

#[test]
fn edit_menu_classification() {
    // No body lines: 0 stays, 1 edits the title, 2 adds; 3 would remove the
    // last line but there is none.
    assert_eq!(classify_edit_choice(0, 0), EditChoice::Stay);
    assert_eq!(classify_edit_choice(1, 0), EditChoice::EditTitle);
    assert_eq!(classify_edit_choice(2, 0), EditChoice::AddLine);
    assert_eq!(classify_edit_choice(3, 0), EditChoice::Stay);
    // Two body lines: 2 and 3 edit them, 4 adds, 5 removes, 6 is out of range.
    assert_eq!(classify_edit_choice(2, 2), EditChoice::EditLine(0));
    assert_eq!(classify_edit_choice(3, 2), EditChoice::EditLine(1));
    assert_eq!(classify_edit_choice(4, 2), EditChoice::AddLine);
    assert_eq!(classify_edit_choice(5, 2), EditChoice::RemoveLast);
    assert_eq!(classify_edit_choice(6, 2), EditChoice::Stay);
}

#[test]
fn edit_actions_apply() {
    let mut e = Entry { title: String::from("old"), body: vec![String::from("one")] };

    assert!(!edit_commit_content(&mut e, &EditAction::Keep));
    assert_eq!(e.title, "old");

    assert!(edit_commit_content(&mut e, &EditAction::SetTitle(String::from("new"))));
    assert_eq!(e.title, "new");
    // An empty replacement keeps the old title but still counts as an edit.
    assert!(edit_commit_content(&mut e, &EditAction::SetTitle(String::new())));
    assert_eq!(e.title, "new");

    assert!(edit_commit_content(&mut e, &EditAction::AddLine(String::from("two"))));
    assert_eq!(e.body, vec![String::from("one"), String::from("two")]);
    assert!(edit_commit_content(&mut e, &EditAction::AddLine(String::new())));
    assert_eq!(e.body.len(), 2);

    assert!(edit_commit_content(&mut e, &EditAction::SetLine(1, String::from("TWO"))));
    assert_eq!(e.body, vec![String::from("one"), String::from("TWO")]);
    assert!(!edit_commit_content(&mut e, &EditAction::SetLine(9, String::from("x"))));
    assert_eq!(e.body.len(), 2);

    assert!(edit_commit_content(&mut e, &EditAction::RemoveLast));
    assert_eq!(e.body, vec![String::from("one")]);
    assert!(edit_commit_content(&mut e, &EditAction::RemoveLast));
    assert!(e.body.is_empty());
    assert!(!edit_commit_content(&mut e, &EditAction::RemoveLast));
}

#[test]
fn choice_parsing() {
    assert_eq!(parse_choice(""), 0);
    assert_eq!(parse_choice("0"), 0);
    assert_eq!(parse_choice("7"), 7);
    assert_eq!(parse_choice("12"), 12);
    assert_eq!(parse_choice("007"), 7);
    assert_eq!(parse_choice("x"), 0);
    assert_eq!(parse_choice("1a"), 0);
    assert_eq!(parse_choice("-3"), 0);
    assert_eq!(parse_choice("99999999999999999999999999"), 0);
}

#[test]
fn commit_types_by_index_and_tag() {
    let expected = [
        (0, "feat"),
        (1, "fix"),
        (2, "docs"),
        (3, "style"),
        (4, "refactor"),
        (5, "perf"),
        (6, "test"),
        (7, "build"),
        (8, "ci"),
        (9, "chore"),
        (10, "revert"),
    ];
    for (i, tag) in expected {
        let t = CommitType::from_index(i).expect("index should map to a type");
        assert_eq!(t.tag(), tag);
    }
    assert!(CommitType::from_index(11).is_none());
}

#[test]
fn title_composition() {
    let t = CommitType::from_index(1).unwrap();
    assert_eq!(compose_title(&t, "handle empty input"), "fix: handle empty input");
}

#[test]
fn reset_modes_by_index_and_name() {
    assert_eq!(ResetMode::from_index(0), Some(ResetMode::Soft));
    assert_eq!(ResetMode::from_index(1), Some(ResetMode::Mixed));
    assert_eq!(ResetMode::from_index(2), Some(ResetMode::Hard));
    assert_eq!(ResetMode::from_index(3), None);
    assert_eq!(ResetMode::Soft.name(), "soft");
    assert_eq!(ResetMode::Mixed.name(), "mixed");
    assert_eq!(ResetMode::Hard.name(), "hard");
}
