use devlog::log_manager::{
    check_log_file_date, format_commit_message_for_markdown, format_entry_block, LogState,
};
use devlog::text::lines_to_text;
use devlog::utils::Entry;

fn today_text(st: &LogState) -> String {
    lines_to_text(st.today_log.as_ref().expect("today log should exist"))
}

fn cumulative_text(st: &LogState) -> String {
    lines_to_text(st.cumulative.as_ref().expect("cumulative log should exist"))
}

#[test]
fn fresh_today_log_single_line() {
    // TodayLog absent: one call creates header, blank line, entry one.
    let mut st = LogState::new();
    st.update_log_files("fix: bug", "2024/01/15");
    assert_eq!(today_text(&st), "## 2024/01/15\n\n1. fix: bug\n");
    assert_eq!(cumulative_text(&st), "# Development Log\n");
}

#[test]
fn three_records_same_day_numbered_in_order() {
    let mut st = LogState::new();
    st.update_log_files("feat: one", "2024/01/15");
    st.update_log_files("fix: two", "2024/01/15");
    st.update_log_files("docs: three", "2024/01/15");
    assert_eq!(
        today_text(&st),
        "## 2024/01/15\n\n1. feat: one\n2. fix: two\n3. docs: three\n"
    );
    let lines = st.today_log.as_ref().unwrap();
    assert_eq!(check_log_file_date(lines, "2024/01/15"), (true, 3));
    assert_eq!(check_log_file_date(lines, "2024/01/16"), (false, 0));
}

#[test]
fn tenth_entry_gets_two_digit_ordinal() {
    let mut st = LogState::new();
    for i in 0..10 {
        let msg = format!("chore: step {}", i);
        st.update_log_files(&msg, "2024/01/15");
    }
    let text = today_text(&st);
    assert!(text.ends_with("10. chore: step 9\n"));
    let lines = st.today_log.as_ref().unwrap();
    assert_eq!(check_log_file_date(lines, "2024/01/15"), (true, 10));
}

#[test]
fn rollover_moves_old_day_into_cumulative() {
    // TodayLog dated one day, a record under the next day: the old log is
    // appended to the cumulative log after a blank line, and a fresh
    // single-entry TodayLog replaces it.
    let mut st = LogState::new();
    st.update_log_files("feat: old work", "2024/01/15");
    st.update_log_files("fix: new work", "2024/01/16");
    assert_eq!(today_text(&st), "## 2024/01/16\n\n1. fix: new work\n");
    assert_eq!(
        cumulative_text(&st),
        "# Development Log\n\n## 2024/01/15\n\n1. feat: old work\n"
    );
}

#[test]
fn rollover_keeps_existing_cumulative_content() {
    let mut st = LogState::new();
    st.cumulative = Some(vec![
        String::from("# My own log"),
        String::from("old stuff"),
    ]);
    st.update_log_files("feat: a", "2024/02/01");
    st.update_log_files("feat: b", "2024/02/02");
    assert_eq!(
        cumulative_text(&st),
        "# My own log\nold stuff\n\n## 2024/02/01\n\n1. feat: a\n"
    );
    assert_eq!(today_text(&st), "## 2024/02/02\n\n1. feat: b\n");
}

#[test]
fn ensure_cumulative_is_idempotent() {
    // Making the cumulative log exist twice never alters its content.
    let mut st = LogState::new();
    st.check_or_create_main_log_file();
    let once = cumulative_text(&st);
    st.check_or_create_main_log_file();
    assert_eq!(cumulative_text(&st), once);

    let mut custom = LogState::new();
    custom.cumulative = Some(vec![String::from("# Mine"), String::from("kept")]);
    custom.check_or_create_main_log_file();
    custom.check_or_create_main_log_file();
    assert_eq!(cumulative_text(&custom), "# Mine\nkept\n");
}

#[test]
fn entry_formats_with_bullets_and_indent() {
    // Entry{title: "feat: X", body: ["a", "", "b"]}: the blank body line is
    // dropped, continuation lines are three-space indented behind bullets.
    let mut st = LogState::new();
    let e = Entry {
        title: String::from("feat: X"),
        body: vec![String::from("a"), String::from(""), String::from("b")],
    };
    st.record_entry(&e, "2024/01/15");
    assert_eq!(
        today_text(&st),
        "## 2024/01/15\n\n1. feat: X\n   - a\n   - b\n"
    );
}

#[test]
fn entries_with_bodies_append_and_count_correctly() {
    let mut st = LogState::new();
    let e1 = Entry {
        title: String::from("feat: X"),
        body: vec![String::from("a"), String::from("b")],
    };
    let e2 = Entry {
        title: String::from("fix: Y"),
        body: vec![String::from("10 items handled")],
    };
    st.record_entry(&e1, "2024/01/15");
    st.record_entry(&e2, "2024/01/15");
    assert_eq!(
        today_text(&st),
        "## 2024/01/15\n\n1. feat: X\n   - a\n   - b\n2. fix: Y\n   - 10 items handled\n"
    );
    // The bullet keeps a digit-led body line from counting as an entry.
    let lines = st.today_log.as_ref().unwrap();
    assert_eq!(check_log_file_date(lines, "2024/01/15"), (true, 2));
}

#[test]
fn multiline_message_is_indented_and_blanks_dropped() {
    let mut st = LogState::new();
    st.update_log_files("feat: title\nfirst note\n\nsecond note", "2024/03/05");
    assert_eq!(
        today_text(&st),
        "## 2024/03/05\n\n1. feat: title\n   first note\n   second note\n"
    );
    st.update_log_files("fix: more\nonly note", "2024/03/05");
    assert_eq!(
        today_text(&st),
        "## 2024/03/05\n\n1. feat: title\n   first note\n   second note\n2. fix: more\n   only note\n"
    );
}

#[test]
fn scan_ignores_lines_before_header_and_blanks() {
    let lines = vec![
        String::from("stray 1. thing"),
        String::from("## 2024/01/15"),
        String::from(""),
        String::from("1. real"),
        String::from("   - note"),
        String::from("2. also real"),
    ];
    assert_eq!(check_log_file_date(&lines, "2024/01/15"), (true, 2));
}

#[test]
fn scan_without_header_counts_nothing() {
    let lines = vec![String::from("1. a"), String::from("2. b")];
    assert_eq!(check_log_file_date(&lines, "2024/01/15"), (false, 0));
}

#[test]
fn entry_block_lines_are_numbered_and_indented() {
    assert_eq!(format_entry_block(3, "fix: z"), vec![String::from("3. fix: z")]);
    assert_eq!(
        format_entry_block(12, "feat: t\n\nnote"),
        vec![String::from("12. feat: t"), String::from("   note")]
    );
}

#[test]
fn markdown_formatter_drops_blank_lines() {
    assert_eq!(format_commit_message_for_markdown("single line"), "single line");
    assert_eq!(format_commit_message_for_markdown("a\n\nb"), "a\nb");
    assert_eq!(format_commit_message_for_markdown("a\n   \nb\n"), "a\nb");
    assert_eq!(format_commit_message_for_markdown(""), "");
    assert_eq!(
        format_commit_message_for_markdown("title\n- x\n- y"),
        "title\n- x\n- y"
    );
}
