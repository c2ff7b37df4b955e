use card_index::frontmatter::{extract_frontmatter, get_body, present_strings, read_header};

#[test]
fn text_without_a_header_is_all_body() {
    assert_eq!(get_body("Hello world"), "Hello world");
    assert_eq!(get_body(""), "");
    assert_eq!(get_body("  \n leading space stays"), "  \n leading space stays");
    assert_eq!(get_body("-- not a header\n---\n"), "-- not a header\n---\n");
}

#[test]
fn the_body_follows_the_closing_delimiter() {
    assert_eq!(get_body("---\ntitle: x\n---\nBody"), "Body");
    assert_eq!(get_body("---\ntitle: x\n---\n\n\nBody\n"), "Body\n");
    assert_eq!(get_body("---\ntitle: x\n---"), "");
    assert_eq!(get_body("---\n---\nBody"), "Body");
}

#[test]
fn white_space_before_the_header_is_passed_over() {
    assert_eq!(get_body("\n\n  ---\ntitle: x\n---\nBody"), "Body");
    assert_eq!(get_body("\u{3000}---\na: b\n---\nBody"), "Body");
}

#[test]
fn a_header_that_is_not_closed_is_no_header() {
    let text = "---\ntitle: x\nBody without end";
    assert_eq!(get_body(text), text);
    let (header, body) = extract_frontmatter(text);
    assert!(header.is_none());
    assert_eq!(body, text);
}

#[test]
fn the_closing_delimiter_is_the_first_line_that_starts_with_three_dashes() {
    assert_eq!(get_body("---\na: b\n--- trailing\nBody"), " trailing\nBody");
    assert_eq!(get_body("---\na: b\n----\nBody"), "-\nBody");
    assert_eq!(get_body("---\na: b\n---\nBody\n---\nMore"), "Body\n---\nMore");
}

#[test]
fn carriage_returns_are_not_line_feeds() {
    assert_eq!(get_body("---\r\ntitle: x\r\n---\r\nBody"), "\r\nBody");
}

#[test]
fn the_header_gives_its_fields() {
    let (header, body) = extract_frontmatter(
        "---\ntitle: Foo\ntags: [a, 7, b]\ncreated: 2024-01-02\nupdated: \"yesterday\"\n---\nBody",
    );
    let header = header.unwrap();
    assert_eq!(header.title.as_deref(), Some("Foo"));
    assert_eq!(header.tags, vec!["a", "b"]);
    assert_eq!(header.created.as_deref(), Some("2024-01-02"));
    assert_eq!(header.updated.as_deref(), Some("yesterday"));
    assert_eq!(body, "Body");
}

#[test]
fn fields_of_another_shape_are_left_out() {
    let (header, _) = extract_frontmatter("---\ntitle: 42\ntags: solo\ncreated: [x]\n---\n");
    let header = header.unwrap();
    assert_eq!(header.title, None);
    assert!(header.tags.is_empty());
    assert_eq!(header.created, None);
    assert_eq!(header.updated, None);
}

#[test]
fn an_empty_block_is_a_header_without_fields() {
    let (header, body) = extract_frontmatter("---\n---\nBody");
    let header = header.unwrap();
    assert_eq!(header.title, None);
    assert!(header.tags.is_empty());
    assert_eq!(body, "Body");
}

#[test]
fn a_block_that_is_no_mapping_is_a_header_without_fields() {
    let (header, body) = extract_frontmatter("---\njust a scalar\n---\nBody");
    let header = header.unwrap();
    assert_eq!(header.title, None);
    assert_eq!(body, "Body");
}

#[test]
fn a_malformed_block_gives_no_header_and_still_the_body() {
    let (header, body) = extract_frontmatter("---\ntitle: [unclosed\n---\nBody");
    assert!(header.is_none());
    assert_eq!(body, "Body");
}

#[test]
fn the_body_keeps_characters_of_any_width() {
    assert_eq!(get_body("---\ntitle: 标题\n---\n正文 — body"), "正文 — body");
}

#[test]
fn the_items_that_are_there_are_kept_in_order() {
    let items = vec![Some("a".to_string()), None, Some("b".to_string()), None, Some("a".to_string())];
    assert_eq!(present_strings(items), vec!["a", "b", "a"]);
    assert!(present_strings(vec![None, None]).is_empty());
    assert!(present_strings(Vec::new()).is_empty());
}

#[test]
fn a_parsed_document_gives_its_header() {
    let doc: serde_yaml::Value =
        serde_yaml::from_str("title: T\ntags:\n  - x\n  - [nested]\n  - y\nupdated: 5\n").unwrap();
    let header = read_header(&doc);
    assert_eq!(header.title.as_deref(), Some("T"));
    assert_eq!(header.tags, vec!["x", "y"]);
    assert_eq!(header.created, None);
    assert_eq!(header.updated, None);
}

fn body_by_std(content: &str) -> &str {
    let trimmed = content.trim_start();
    if !trimmed.starts_with("---") {
        return content;
    }
    let after_first = &trimmed[3..];
    match after_first.find("\n---") {
        Some(end) => after_first[end + 4..].trim_start_matches('\n'),
        None => content,
    }
}

#[test]
fn the_body_agrees_with_slicing_by_std() {
    let pieces = ["", " ", "\n", "---", "--", "-", "\n---", "a: b", "x", "\r\n", "\u{3000}", "é", "#t"];
    let mut checked = 0;
    for a in pieces {
        for b in pieces {
            for c in pieces {
                for d in pieces {
                    let text = format!("{}{}{}{}", a, b, c, d);
                    assert_eq!(get_body(&text), body_by_std(&text));
                    checked += 1;
                }
            }
        }
    }
    assert_eq!(checked, 28_561);
}
