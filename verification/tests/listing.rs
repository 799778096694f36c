use requiem_core::listing::{
    apply_offset_limit, csv_escape, highlight_match, prefix_value, resolve_depth, strip_ansi,
    truncation_count, Direction, ListColumn, ListingView, OutputFormat, Row, SortField,
};

fn row(index: usize, direction: Direction, depth: usize) -> Row {
    Row { index, direction, depth }
}

#[test]
fn output_format_display_matches_expected_strings() {
    assert_eq!(OutputFormat::Table.to_string(), "table");
    assert_eq!(OutputFormat::Json.to_string(), "json");
    assert_eq!(OutputFormat::Csv.to_string(), "csv");
}

#[test]
fn prefix_value_adds_direction_markers() {
    assert_eq!(prefix_value("value".to_string(), Direction::Neutral, 0), "value");
    assert_eq!(prefix_value("value".to_string(), Direction::Up, 1), "\u{2191} value");
    assert_eq!(
        prefix_value("value".to_string(), Direction::Down, 3),
        "\u{2193}\u{2193}\u{2193} value"
    );
}

#[test]
fn csv_escape_quotes_and_commas() {
    assert_eq!(csv_escape("simple"), "simple");
    assert_eq!(csv_escape("needs,comma"), "\"needs,comma\"");
    assert_eq!(csv_escape("quote\"here"), "\"quote\"\"here\"");
}

#[test]
fn truncation_count_accounts_for_offset() {
    assert_eq!(truncation_count(10, None, Some(4)), 6);
    assert_eq!(truncation_count(10, Some(3), Some(4)), 3);
    assert_eq!(truncation_count(10, Some(20), Some(4)), 0);
    assert_eq!(truncation_count(10, Some(3), None), 0);
}

#[test]
fn apply_offset_limit_slices_rows() {
    let rows = vec![
        row(0, Direction::Neutral, 0),
        row(1, Direction::Neutral, 0),
        row(2, Direction::Neutral, 0),
    ];

    let truncated = apply_offset_limit(rows.clone(), Some(1), Some(1));
    assert_eq!(truncated.len(), 1);
    assert_eq!(truncated[0].index, 1);

    let cleared = apply_offset_limit(rows, Some(5), None);
    assert!(cleared.is_empty());
}

#[test]
fn resolve_depth_zero_becomes_unbounded() {
    assert_eq!(resolve_depth(Some(0), 2), usize::MAX);
    assert_eq!(resolve_depth(None, 3), 3);
}

#[test]
fn strip_ansi_removes_escape_sequences() {
    assert_eq!(strip_ansi("\x1b[4mabc\x1b[24m"), "abc");
    assert_eq!(strip_ansi("plain"), "plain");
}

#[test]
fn highlight_marks_the_first_case_insensitive_match() {
    assert_eq!(highlight_match("Login Flow", "login", false), "<<Login>> Flow");
    assert_eq!(highlight_match("Login Flow", "flow", true), "Login \x1b[4mFlow\x1b[24m");
    assert_eq!(highlight_match("Login Flow", "absent", false), "Login Flow");
}

#[test]
fn defaults_match_the_command_line() {
    assert_eq!(OutputFormat::default(), OutputFormat::Table);
    assert_eq!(SortField::default(), SortField::Hrid);
    assert_eq!(ListingView::default().name(), "summary");
    assert_eq!(ListColumn::Hrid.header(), "HRID");
}

#[test]
fn offset_limit_keeps_order_inside_the_window() {
    let rows: Vec<Row> = (0..6).map(|i| row(i, Direction::Down, i)).collect();
    let window = apply_offset_limit(rows, Some(2), Some(3));
    assert_eq!(window.iter().map(|r| r.index).collect::<Vec<_>>(), vec![2, 3, 4]);
}
