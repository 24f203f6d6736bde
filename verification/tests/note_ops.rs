use rsnote_cli::note::{MatchType, NoteApp, NoteError};

const TS1: &str = "2024-01-02 03:04:05";
const TS2: &str = "2024-06-07 08:09:10";

fn create_test_note_app(notes_dir: &str) -> NoteApp {
    NoteApp::new(notes_dir.to_string())
}

#[test]
fn test_create_and_list_note() {
    let mut app = create_test_note_app("notes");

    let title = "TestNote";
    let content = "This is a test note.";
    app.create_note(title, content).unwrap();

    let notes = app.list_notes().unwrap();
    assert_eq!(notes.len(), 1);
    assert_eq!(notes[0].title, title);

    let shown = app.show_note(title).unwrap();
    assert!(shown.contains("This is a test note."));
}

#[test]
fn test_round_trip_show_by_title() {
    let mut app = create_test_note_app("notes");
    app.create_note_at("Alpha", "hello", TS1).unwrap();
    assert_eq!(app.show_note("Alpha").unwrap(), "hello\n");
}

#[test]
fn test_round_trip_multiline_body() {
    let mut app = create_test_note_app("notes");
    app.create_note_at("Beta", "first\nsecond", TS1).unwrap();
    assert_eq!(app.show_note("Beta").unwrap(), "first\nsecond\n");
}

#[test]
fn test_round_trip_empty_body() {
    let mut app = create_test_note_app("notes");
    app.create_note_at("Empty", "", TS1).unwrap();
    assert_eq!(app.show_note("Empty").unwrap(), "\n");
}

#[test]
fn test_delete_then_show_not_found() {
    let mut app = create_test_note_app("notes");
    app.create_note_at("Gone", "soon", TS1).unwrap();
    app.delete_note("Gone").unwrap();
    assert!(matches!(app.show_note("Gone"), Err(NoteError::NoteNotFound)));
    assert_eq!(app.list_notes().unwrap().len(), 0);
}

#[test]
fn test_sanitize_collision() {
    let mut app = create_test_note_app("notes");
    app.create_note_at("a b", "one", TS1).unwrap();
    let second = app.create_note_at("a-b", "two", TS1);
    assert!(matches!(second, Err(NoteError::NoteExists)));
    assert_eq!(app.list_notes().unwrap().len(), 1);
}

#[test]
fn test_update_preserves_created() {
    let mut app = create_test_note_app("notes");
    app.create_note_at("Journal", "old text", TS1).unwrap();
    app.update_note_at("Journal", "new text", TS2).unwrap();

    let notes = app.list_notes().unwrap();
    assert_eq!(notes.len(), 1);
    assert_eq!(notes[0].created, TS1);
    assert_eq!(notes[0].last_updated, TS2);
    assert_eq!(notes[0].title, "Journal");
    assert_eq!(app.show_note("Journal").unwrap(), "new text\n");
}

#[test]
fn test_update_by_numeric_id() {
    let mut app = create_test_note_app("notes");
    app.create_note_at("One", "body one", TS1).unwrap();
    app.create_note_at("Two", "body two", TS1).unwrap();
    app.update_note_at("2", "changed", TS2).unwrap();
    assert_eq!(app.show_note("Two").unwrap(), "changed\n");
    assert_eq!(app.show_note("One").unwrap(), "body one\n");
}

#[test]
fn test_invalid_id_boundaries() {
    let mut app = create_test_note_app("notes");
    app.create_note_at("One", "a", TS1).unwrap();
    app.create_note_at("Two", "b", TS1).unwrap();

    assert!(matches!(app.show_note("0"), Err(NoteError::InvalidId)));
    assert!(matches!(app.show_note("3"), Err(NoteError::InvalidId)));
    assert!(app.show_note("1").is_ok());
    assert!(app.show_note("2").is_ok());
}

#[test]
fn test_plus_prefixed_id_is_numeric() {
    let mut app = create_test_note_app("notes");
    app.create_note_at("Solo", "only", TS1).unwrap();
    assert_eq!(app.show_note("+1").unwrap(), "only\n");
}

#[test]
fn test_delete_invalid_id() {
    let mut app = create_test_note_app("notes");
    app.create_note_at("Keep", "kept", TS1).unwrap();
    assert!(matches!(app.delete_note("0"), Err(NoteError::InvalidId)));
    assert!(matches!(app.delete_note("9"), Err(NoteError::InvalidId)));
    assert!(matches!(app.delete_note("Missing"), Err(NoteError::NoteNotFound)));
    assert_eq!(app.list_notes().unwrap().len(), 1);
}

#[test]
fn test_update_missing_note() {
    let mut app = create_test_note_app("notes");
    let r = app.update_note_at("Nope", "text", TS2);
    assert!(matches!(r, Err(NoteError::NoteNotFound)));
}

#[test]
fn test_list_ids_follow_enumeration_order() {
    let mut app = create_test_note_app("notes");
    app.create_note_at("Ccc", "3", TS1).unwrap();
    app.create_note_at("Aaa", "1", TS1).unwrap();
    app.create_note_at("Bbb", "2", TS1).unwrap();

    let notes = app.list_notes().unwrap();
    assert_eq!(notes.len(), 3);
    for (k, n) in notes.iter().enumerate() {
        assert_eq!(n.id, k + 1);
    }
    // The ids follow the store's enumeration order, which is the order the
    // files entered the image, not any order of the titles.
    assert_eq!(notes[0].title, "Ccc");
    assert_eq!(notes[1].title, "Aaa");
    assert_eq!(notes[2].title, "Bbb");
}

#[test]
fn test_show_by_id_matches_show_by_title() {
    let mut app = create_test_note_app("notes");
    app.create_note_at("First", "alpha", TS1).unwrap();
    app.create_note_at("Second", "beta", TS1).unwrap();
    assert_eq!(app.show_note("1").unwrap(), app.show_note("First").unwrap());
    assert_eq!(app.show_note("2").unwrap(), app.show_note("Second").unwrap());
}

#[test]
fn test_file_without_created_header_is_skipped() {
    let mut app = create_test_note_app("notes");
    app.create_note_at("Real", "text", TS1).unwrap();
    app.add_file(
        "stray".to_string(),
        vec!["title: Stray".to_string(), "---".to_string(), "junk".to_string()],
    );
    let notes = app.list_notes().unwrap();
    assert_eq!(notes.len(), 1);
    assert_eq!(notes[0].title, "Real");
}

#[test]
fn test_body_keeps_later_delimiters() {
    let mut app = create_test_note_app("notes");
    app.add_file(
        "Odd".to_string(),
        vec![
            "title: Odd".to_string(),
            "created: 2024-01-01 00:00:00".to_string(),
            "last_updated: 2024-01-01 00:00:00".to_string(),
            "---".to_string(),
            "above".to_string(),
            "---".to_string(),
            "below".to_string(),
        ],
    );
    assert_eq!(app.show_note("Odd").unwrap(), "above\n---\nbelow\n");
}

#[test]
fn test_get_note_path_and_sanitize() {
    let app = create_test_note_app("notes");
    assert_eq!(app.sanitize_filename("a b!c"), "a_b_c");
    assert_eq!(app.sanitize_filename("Ab9"), "Ab9");
    assert_eq!(app.sanitize_filename("日記"), "__");
    assert_eq!(app.get_note_path("My Note").unwrap(), "My_Note");
}

#[test]
fn test_find_note_path_by_id_and_title() {
    let mut app = create_test_note_app("notes");
    app.create_note_at("My Note", "x", TS1).unwrap();
    assert_eq!(app.find_note_path("My Note").unwrap(), "My_Note");
    assert_eq!(app.find_note_path("1").unwrap(), "My_Note");
    assert!(matches!(app.find_note_path("2"), Err(NoteError::InvalidId)));
    assert!(matches!(app.find_note_path("zzz"), Err(NoteError::NoteNotFound)));
}

#[test]
fn test_get_note_metadata_parses_headers() {
    let app = create_test_note_app("notes");
    let lines = vec![
        "title: A Title".to_string(),
        "created: 2024-01-02 03:04:05".to_string(),
        "last_updated: 2024-06-07 08:09:10".to_string(),
        "---".to_string(),
        "body".to_string(),
    ];
    let m = app.get_note_metadata(&lines).unwrap();
    assert_eq!(m.title, "A Title");
    assert_eq!(m.created, "2024-01-02 03:04:05");
    assert_eq!(m.last_updated, "2024-06-07 08:09:10");

    let incomplete = vec!["created: 2024".to_string(), "---".to_string()];
    assert!(app.get_note_metadata(&incomplete).is_none());

    let after_dash = vec![
        "---".to_string(),
        "title: Hidden".to_string(),
        "created: 2024".to_string(),
    ];
    assert!(app.get_note_metadata(&after_dash).is_none());
}

#[test]
fn test_search_milk() {
    let mut app = create_test_note_app("notes");
    app.create_note_at("Shopping List", "buy milk", TS1).unwrap();
    app.create_note_at("Diary", "bought milk today", TS1).unwrap();

    let results = app.search_notes("milk").unwrap();
    assert_eq!(results.len(), 2);
    for r in &results {
        assert_eq!(r.match_type, MatchType::Content);
        let p = r.preview.as_ref().unwrap();
        assert!(p.to_lowercase().contains("milk"));
    }
    assert_eq!(results[0].note.title, "Shopping List");
    assert_eq!(results[1].note.title, "Diary");

    let upper = app.search_notes("MILK").unwrap();
    assert_eq!(upper.len(), results.len());
    for (a, b) in results.iter().zip(upper.iter()) {
        assert_eq!(a.note.id, b.note.id);
        assert_eq!(a.note.title, b.note.title);
        assert_eq!(a.match_type, b.match_type);
        assert_eq!(a.preview, b.preview);
    }
}

#[test]
fn test_search_title_match_has_no_preview() {
    let mut app = create_test_note_app("notes");
    app.create_note_at("Milk shake", "nothing relevant", TS1).unwrap();
    let results = app.search_notes("milk").unwrap();
    assert_eq!(results.len(), 1);
    assert_eq!(results[0].match_type, MatchType::Title);
    assert!(results[0].preview.is_none());
}

#[test]
fn test_numeric_title_reads_as_id() {
    let mut app = create_test_note_app("notes");
    app.create_note_at("9", "zebra", TS1).unwrap();
    // A purely numeric title is resolved as a listing position, so the note
    // can only be reached through its id, and a body search passes it over.
    assert!(matches!(app.show_note("9"), Err(NoteError::InvalidId)));
    assert_eq!(app.show_note("1").unwrap(), "zebra\n");
    assert_eq!(app.search_notes("zebra").unwrap().len(), 0);
}

#[test]
fn test_note_error_messages() {
    assert_eq!(NoteError::Io("disk full".to_string()).message(), "I/O error: disk full");
    assert_eq!(NoteError::NoteExists.message(), "Note already exists");
    assert_eq!(NoteError::NoteNotFound.message(), "Note not found");
    assert_eq!(NoteError::InvalidId.message(), "Invalid note ID");
}

#[test]
fn test_search_no_hits() {
    let mut app = create_test_note_app("notes");
    app.create_note_at("One", "alpha", TS1).unwrap();
    assert_eq!(app.search_notes("zzz").unwrap().len(), 0);
}
