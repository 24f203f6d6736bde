use rsnote_cli::note::NoteApp;

fn app() -> NoteApp {
    NoteApp::new("notes".to_string())
}

#[test]
fn test_extract_preview_clamps_and_marks_truncation() {
    let content = format!("{}X{}", "a".repeat(25), "b".repeat(25));
    let expected = format!("...{}X{}...", "a".repeat(20), "b".repeat(20));
    assert_eq!(app().extract_preview(&content, "x"), expected);
}

#[test]
fn test_extract_preview_keeps_original_case() {
    let preview = app().extract_preview("Buy MILK now", "milk");
    assert_eq!(preview, "Buy MILK now");
}

#[test]
fn test_extract_preview_collapses_newlines() {
    let preview = app().extract_preview("line1\nmilk\nline2", "milk");
    assert_eq!(preview, "line1 milk line2");
}

#[test]
fn test_extract_preview_no_match_is_empty() {
    assert_eq!(app().extract_preview("abc", "zzz"), "");
}

#[test]
fn test_extract_preview_start_of_text() {
    let content = format!("milk{}", "c".repeat(40));
    let expected = format!("milk{}...", "c".repeat(20));
    assert_eq!(app().extract_preview(&content, "milk"), expected);
}
