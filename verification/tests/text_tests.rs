use devlog::text::{
    line_is_blank, lines_to_text, marks_entry, split_lines, str_eq, text_to_doc_lines,
    usize_to_string,
};

#[test]
fn splitting_messages_into_lines() {
    assert_eq!(split_lines("a\nb"), vec![String::from("a"), String::from("b")]);
    assert_eq!(split_lines(""), vec![String::from("")]);
    assert_eq!(
        split_lines("a\n"),
        vec![String::from("a"), String::from("")]
    );
    assert_eq!(
        split_lines("\na"),
        vec![String::from(""), String::from("a")]
    );
    assert_eq!(split_lines("one line"), vec![String::from("one line")]);
}

#[test]
fn document_text_and_lines_round_trip() {
    let lines = vec![String::from("## 2024/01/15"), String::from(""), String::from("1. x")];
    let text = lines_to_text(&lines);
    assert_eq!(text, "## 2024/01/15\n\n1. x\n");
    assert_eq!(text_to_doc_lines(&text), lines);
}

#[test]
fn document_lines_of_edge_texts() {
    assert_eq!(text_to_doc_lines(""), Vec::<String>::new());
    assert_eq!(text_to_doc_lines("a\nb\n"), vec![String::from("a"), String::from("b")]);
    // A text without a final newline still yields its lines.
    assert_eq!(text_to_doc_lines("a\nb"), vec![String::from("a"), String::from("b")]);
    assert_eq!(lines_to_text(&Vec::new()), "");
}

#[test]
fn ordinals_render_in_decimal() {
    assert_eq!(usize_to_string(0), "0");
    assert_eq!(usize_to_string(1), "1");
    assert_eq!(usize_to_string(9), "9");
    assert_eq!(usize_to_string(10), "10");
    assert_eq!(usize_to_string(105), "105");
}

#[test]
fn blank_and_entry_line_classification() {
    assert!(line_is_blank(""));
    assert!(line_is_blank("   \t"));
    assert!(!line_is_blank(" x "));

    assert!(marks_entry("1. entry"));
    assert!(marks_entry("  12. indented entry"));
    assert!(!marks_entry("   - bullet"));
    assert!(!marks_entry("## 2024/01/15"));
    assert!(!marks_entry(""));
    assert!(!marks_entry("   "));
}

#[test]
fn string_equality_by_characters() {
    assert!(str_eq("", ""));
    assert!(str_eq("abc", "abc"));
    assert!(!str_eq("abc", "abd"));
    assert!(!str_eq("abc", "ab"));
}
