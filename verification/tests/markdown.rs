use requiem_core::hrid::Hrid;
use requiem_core::markdown::{
    parse_content, render_document, split_document, trim_empty_lines, ContentError, FrameError,
};

fn req_hrid() -> Hrid {
    Hrid::try_from("REQ-001").unwrap()
}

#[test]
fn markdown_trim_empty_lines_removes_only_empty_lines() {
    assert_eq!(trim_empty_lines(""), "");
    assert_eq!(trim_empty_lines("\n\n"), "");
    assert_eq!(trim_empty_lines("content"), "content");
    assert_eq!(trim_empty_lines("\n\ncontent\n\n"), "content");
}

#[test]
fn markdown_trim_empty_lines_preserves_leading_indentation() {
    assert_eq!(trim_empty_lines("    indented"), "    indented");
    assert_eq!(trim_empty_lines("\n    indented\n"), "    indented");
    assert_eq!(
        trim_empty_lines("    code block\n    more code"),
        "    code block\n    more code"
    );
}

#[test]
fn markdown_trim_empty_lines_preserves_internal_empty_lines() {
    assert_eq!(trim_empty_lines("line1\n\nline2"), "line1\n\nline2");
    assert_eq!(trim_empty_lines("\nline1\n\nline2\n"), "line1\n\nline2");
}

#[test]
fn markdown_trim_empty_lines_handles_markdown_structures() {
    let code = "    fn main() {\n        println!(\"hello\");\n    }";
    assert_eq!(trim_empty_lines(code), code);

    let list = "- Item 1\n  - Sub item\n- Item 2";
    assert_eq!(trim_empty_lines(list), list);

    let quote = "> This is a quote\n> with multiple lines";
    assert_eq!(trim_empty_lines(quote), quote);
}

#[test]
fn markdown_trim_empty_lines_with_trailing_whitespace_lines() {
    assert_eq!(trim_empty_lines("   \n\ncontent\n   \n"), "content");
}

#[test]
fn markdown_parse_content_preserves_body_indentation() {
    let content = "# REQ-001 Title\n\n    code block\n    more code";
    let (hrid, title, body) = parse_content(content).unwrap();

    assert_eq!(hrid.display(3).to_string(), "REQ-001");
    assert_eq!(title, "Title");
    assert_eq!(body, "    code block\n    more code");
}

#[test]
fn markdown_parse_content_trims_empty_lines_around_body() {
    let content = "# REQ-001 Title\n\n\n\ncontent\n\n\n";
    let (_hrid, _title, body) = parse_content(content).unwrap();

    assert_eq!(body, "content");
}

#[test]
fn content_trim_empty_lines_removes_only_empty_lines() {
    assert_eq!(trim_empty_lines(""), "");
    assert_eq!(trim_empty_lines("\n\n"), "");
    assert_eq!(trim_empty_lines("content"), "content");
    assert_eq!(trim_empty_lines("\n\ncontent\n\n"), "content");
}

#[test]
fn content_trim_empty_lines_preserves_leading_indentation() {
    assert_eq!(trim_empty_lines("    indented"), "    indented");
    assert_eq!(trim_empty_lines("\n    indented\n"), "    indented");
    assert_eq!(
        trim_empty_lines("    code block\n    more code"),
        "    code block\n    more code"
    );
}

#[test]
fn content_trim_empty_lines_preserves_internal_empty_lines() {
    assert_eq!(trim_empty_lines("line1\n\nline2"), "line1\n\nline2");
    assert_eq!(trim_empty_lines("\nline1\n\nline2\n"), "line1\n\nline2");
}

#[test]
fn content_trim_empty_lines_handles_markdown_structures() {
    let code = "    fn main() {\n        println!(\"hello\");\n    }";
    assert_eq!(trim_empty_lines(code), code);

    let list = "- Item 1\n  - Sub item\n- Item 2";
    assert_eq!(trim_empty_lines(list), list);

    let quote = "> This is a quote\n> with multiple lines";
    assert_eq!(trim_empty_lines(quote), quote);
}

#[test]
fn content_trim_empty_lines_with_trailing_whitespace_lines() {
    assert_eq!(trim_empty_lines("   \n\ncontent\n   \n"), "content");
}

#[test]
fn content_parse_content_preserves_body_indentation() {
    let content = "# REQ-001 Title\n\n    code block\n    more code";
    let (hrid, title, body) = parse_content(content).unwrap();

    assert_eq!(hrid.display(3).to_string(), "REQ-001");
    assert_eq!(title, "Title");
    assert_eq!(body, "    code block\n    more code");
}

#[test]
fn content_parse_content_trims_empty_lines_around_body() {
    let content = "# REQ-001 Title\n\n\n\ncontent\n\n\n";
    let (_hrid, _title, body) = parse_content(content).unwrap();

    assert_eq!(body, "content");
}

const MINIMAL_FRONTMATTER: &str =
    "_version: '1'\nuuid: 12b3f5c5-b1a8-4aa8-a882-20ff1c2aab53\ncreated: 2025-07-14T07:15:00Z\n";

#[test]
fn markdown_minimal_content() {
    let content = "---\n_version: '1'\nuuid: 12b3f5c5-b1a8-4aa8-a882-20ff1c2aab53\ncreated: 2025-07-14T07:15:00Z\n---\n# REQ-001 Just content\n";
    let (front, rest) = split_document(content).unwrap();
    assert_eq!(
        front,
        "_version: '1'\nuuid: 12b3f5c5-b1a8-4aa8-a882-20ff1c2aab53\ncreated: 2025-07-14T07:15:00Z"
    );
    let (hrid, title, body) = parse_content(&rest).unwrap();
    assert_eq!(hrid, req_hrid());
    assert_eq!(title, "Just content");
    assert_eq!(body, "");
}

#[test]
fn hrid_only_title() {
    let content = "---\n_version: '1'\n---\n# REQ-001\n";
    let (_front, rest) = split_document(content).unwrap();
    let (hrid, title, body) = parse_content(&rest).unwrap();
    assert_eq!(hrid, req_hrid());
    assert_eq!(title, "");
    assert_eq!(body, "");
}

#[test]
fn multiline_content() {
    let content = "---\n_version: '1'\n---\n# REQ-001 Title\n\nLine 2\n\nLine 4\n";
    let (_front, rest) = split_document(content).unwrap();
    let (hrid, title, body) = parse_content(&rest).unwrap();
    assert_eq!(hrid, req_hrid());
    assert_eq!(title, "Title");
    assert_eq!(body, "Line 2\n\nLine 4");
}

#[test]
fn invalid_frontmatter_start() {
    assert_eq!(split_document("invalid frontmatter"), Err(FrameError::MissingFrontmatter));
}

#[test]
fn missing_frontmatter_end() {
    let content = "---\nuuid: 12b3f5c5-b1a8-4aa8-a882-20ff1c2aab53\ncreated: 2025-07-14T07:15:00Z\nThis should be content but there's no closing ---";
    let (_front, rest) = split_document(content).unwrap();
    assert_eq!(rest, "");
    assert!(matches!(parse_content(&rest), Err(ContentError::NoHeading)));
}

#[test]
fn empty_input() {
    assert_eq!(split_document(""), Err(FrameError::EmptyInput));
    assert_eq!(FrameError::EmptyInput.to_string(), "Empty input");
}

#[test]
fn content_with_triple_dashes() {
    let content = "---\n_version: '1'\n---\n# REQ-001 Title\n\nSome text\n---\nMore text\n";
    let (_front, rest) = split_document(content).unwrap();
    let (_hrid, title, body) = parse_content(&rest).unwrap();
    assert_eq!(title, "Title");
    assert_eq!(body, "Some text\n---\nMore text");
}

#[test]
fn missing_hrid_in_title() {
    let result = parse_content("# \n\nbody");
    assert!(matches!(result, Err(ContentError::NoHrid)));
    let result = parse_content("# Title without id\n");
    assert!(matches!(result, Err(ContentError::Hrid(_))));
}

#[test]
fn no_heading_in_content() {
    let result = parse_content("Just plain text without a heading\n");
    assert!(matches!(result, Err(ContentError::NoHeading)));
    assert_eq!(
        ContentError::NoHeading.to_string(),
        "No heading found in content - HRID must be in the first heading"
    );
}

#[test]
fn markdown_round_trip() {
    let input = "---\n_version: '1'\nuuid: 12b3f5c5-b1a8-4aa8-a882-20ff1c2aab53\ncreated: 2025-07-14T07:15:00Z\ntags:\n- tag1\n- tag2\n---\n# REQ-001 The Title\n\nThis is a paragraph.\n";
    let (front, rest) = split_document(input).unwrap();
    let (hrid, title, body) = parse_content(&rest).unwrap();
    assert_eq!(hrid, req_hrid());
    let mut frontmatter = front.clone();
    frontmatter.push('\n');
    let rendered = render_document(&frontmatter, &hrid, 3, &title, &body);
    assert_eq!(rendered, input);
}

#[test]
fn write_places_body_after_a_blank_line() {
    let text = render_document(MINIMAL_FRONTMATTER, &req_hrid(), 3, "Title", "Body");
    assert_eq!(
        text,
        format!("---\n{MINIMAL_FRONTMATTER}---\n# REQ-001 Title\n\nBody\n")
    );
    let empty = render_document(MINIMAL_FRONTMATTER, &req_hrid(), 3, "Title", "");
    assert_eq!(empty, format!("---\n{MINIMAL_FRONTMATTER}---\n# REQ-001 Title\n"));
}

#[test]
fn round_trip_preserves_indentation() {
    let body = "Here's a code block:\n\n    fn main() {\n        println!(\"hello\");\n    }\n\nAnd a list:\n\n- Item 1\n  - Sub item\n- Item 2";
    let text = render_document(MINIMAL_FRONTMATTER, &req_hrid(), 3, "Code Example", body);
    let (_front, rest) = split_document(&text).unwrap();
    let (hrid, title, loaded) = parse_content(&rest).unwrap();
    assert_eq!(hrid, req_hrid());
    assert_eq!(title, "Code Example");
    assert_eq!(loaded, body);
}
