use note_tracker::storage::{
    get_json_path, get_note_names_from_file, get_note_names_from_markdown,
    parse_markdown_headers_from_line, settings, Note, StorageError,
};

#[test]
fn note_new_keeps_its_fields() {
    let n = Note::new("a".to_string(), 3, "b".to_string());
    assert_eq!(n.name, "a");
    assert_eq!(n.freq, 3);
    assert_eq!(n.last_accessed, "b");
}

#[test]
fn json_path_is_fixed() {
    assert_eq!(get_json_path(), "notes.json");
    assert_eq!(settings::get_json_path(), Ok::<String, StorageError>("notes.json".to_string()));
}

#[test]
fn markdown_header_of_allowed_depth_yields_its_text() {
    assert_eq!(parse_markdown_headers_from_line("# Title", 1), Some("Title".to_string()));
    assert_eq!(parse_markdown_headers_from_line("## A B", 2), Some("A B".to_string()));
    assert_eq!(parse_markdown_headers_from_line("  # Spaced", 1), Some("Spaced".to_string()));
    assert_eq!(parse_markdown_headers_from_line("#  double", 1), Some(" double".to_string()));
}

#[test]
fn markdown_header_too_deep_is_passed_over() {
    assert_eq!(parse_markdown_headers_from_line("## A B", 1), None);
    assert_eq!(parse_markdown_headers_from_line("### deep", 2), None);
}

#[test]
fn markdown_non_headers_yield_nothing() {
    assert_eq!(parse_markdown_headers_from_line("plain text", 3), None);
    assert_eq!(parse_markdown_headers_from_line("", 3), None);
    assert_eq!(parse_markdown_headers_from_line("   ", 3), None);
    assert_eq!(parse_markdown_headers_from_line("#tight", 3), None);
    assert_eq!(parse_markdown_headers_from_line(" x # y", 3), None);
}

#[test]
fn markdown_header_bare_hashes_yield_an_empty_name() {
    assert_eq!(parse_markdown_headers_from_line("###", 1), Some(String::new()));
    assert_eq!(parse_markdown_headers_from_line("# ", 1), Some(String::new()));
}

#[test]
fn note_names_from_file_trims_and_drops_blanks() {
    let lines = vec![
        "  alpha  ".to_string(),
        "".to_string(),
        "beta".to_string(),
        "   ".to_string(),
    ];
    assert_eq!(get_note_names_from_file(&lines), vec!["alpha", "beta"]);
}

#[test]
fn note_names_from_markdown_keeps_allowed_headers() {
    let lines = vec![
        "# One".to_string(),
        "just prose".to_string(),
        "## Two".to_string(),
        "  # Three  ".to_string(),
    ];
    assert_eq!(get_note_names_from_markdown(&lines, 1), vec!["One", "Three"]);
    assert_eq!(get_note_names_from_markdown(&lines, 2), vec!["One", "Two", "Three"]);
}
