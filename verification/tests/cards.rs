use card_index::card::{
    assemble_card, extract_inline_tags, parse_card, parse_single_file, CardMeta, FileRead,
};
use card_index::frontmatter::Header;

fn file(name: &str, content: &str) -> FileRead {
    FileRead {
        name: name.to_string(),
        size: content.len() as u64,
        modified: Some(86_400),
        created: Some(0),
        bytes: content.as_bytes().to_vec(),
    }
}

fn card(path: &str, name: &str, content: &str) -> CardMeta {
    parse_card(path, &file(name, content)).unwrap()
}

#[test]
fn header_title_and_tags_merge_with_inline_tags() {
    let c = card(
        "notes/foo.md",
        "foo.md",
        "---\ntitle: \"Foo\"\ntags: [a, b]\n---\n#c hello",
    );
    assert_eq!(c.title, "Foo");
    assert_eq!(c.tags, vec!["a", "b", "c"]);
    assert_eq!(c.preview, "#c hello");
    assert_eq!(c.path, "notes/foo.md");
}

#[test]
fn file_without_header_takes_title_from_its_name() {
    let c = card("notes/hello.md", "hello.md", "Hello world");
    assert_eq!(c.title, "hello");
    assert!(c.tags.is_empty());
    assert_eq!(c.preview, "Hello world");
    assert_eq!(c.size, 11);
    assert_eq!(c.created.as_deref(), Some("1970-01-01T00:00:00Z"));
    assert_eq!(c.updated.as_deref(), Some("1970-01-02T00:00:00Z"));
}

#[test]
fn malformed_header_still_strips_the_block() {
    let c = card(
        "notes/bad.md",
        "bad.md",
        "---\ntitle: [unclosed\n---\nBody text",
    );
    assert_eq!(c.title, "bad");
    assert_eq!(c.preview, "Body text");
}

#[test]
fn content_that_is_not_utf8_gives_no_card() {
    let mut f = file("x.md", "abc");
    f.bytes = vec![0xff, 0xfe, 0x00];
    assert!(parse_card("x.md", &f).is_none());
}

#[test]
fn unreadable_file_gives_no_card() {
    assert!(parse_single_file("gone.md", None).is_none());
    assert!(parse_single_file("here.md", Some(file("here.md", "x"))).is_some());
}

#[test]
fn inline_tags_take_word_characters_ideographs_and_hyphens() {
    let c = card("n.md", "n.md", "#one two #three-four #五六 #se_ven8 # #é! ##x");
    assert_eq!(c.tags, vec!["one", "se_ven8", "three-four", "x", "é", "五六"]);
}

#[test]
fn inline_tags_are_taken_from_the_first_500_characters() {
    let mut body = String::new();
    while body.chars().count() < 494 {
        body.push_str("é ");
    }
    assert_eq!(body.chars().count(), 494);
    body.push_str("#in #cut-off-here #out");
    let c = card("n.md", "n.md", &body);
    assert_eq!(c.tags, vec!["c", "in"]);
}

#[test]
fn tags_of_header_and_body_are_sorted_without_duplicates() {
    let c = card(
        "n.md",
        "n.md",
        "---\ntags: [zeta, alpha, zeta, 3, beta]\n---\n#beta #Alpha #alpha #gamma",
    );
    assert_eq!(c.tags, vec!["Alpha", "alpha", "beta", "gamma", "zeta"]);
}

#[test]
fn header_dates_come_before_the_file_systems() {
    let c = card(
        "n.md",
        "n.md",
        "---\ncreated: \"2020-05-05\"\n---\nx",
    );
    assert_eq!(c.created.as_deref(), Some("2020-05-05"));
    assert_eq!(c.updated.as_deref(), Some("1970-01-02T00:00:00Z"));
}

#[test]
fn dates_are_missing_where_nothing_tells_them() {
    let mut f = file("n.md", "---\nupdated: today\n---\nx");
    f.created = None;
    f.modified = None;
    let c = parse_card("n.md", &f).unwrap();
    assert_eq!(c.created, None);
    assert_eq!(c.updated.as_deref(), Some("today"));
}

#[test]
fn a_title_that_is_no_string_falls_back_to_the_file_name() {
    let c = card("dir/My Note.final.md", "My Note.final.md", "---\ntitle: 12\n---\nx");
    assert_eq!(c.title, "My Note.final");
    let c = card("dir/.md", ".md", "x");
    assert_eq!(c.title, ".md");
}

#[test]
fn the_preview_is_the_trimmed_start_of_the_body() {
    let c = card("n.md", "n.md", "---\ntitle: t\n---\n\n   first line  \nsecond\n\n");
    assert_eq!(c.preview, "first line  \nsecond");
    let long: String = std::iter::repeat("a ").take(150).collect();
    let c = card("n.md", "n.md", &long);
    assert_eq!(c.preview.chars().count(), 199);
    assert!(c.preview.ends_with("a a"));
    let wide: String = std::iter::repeat('中').take(300).collect();
    let c = card("n.md", "n.md", &wide);
    assert_eq!(c.preview.chars().count(), 200);
    let blank: String = std::iter::repeat(' ').take(300).collect();
    let c = card("n.md", "n.md", &blank);
    assert_eq!(c.preview, "");
}

#[test]
fn every_card_is_well_formed() {
    let contents = [
        "",
        "   ",
        "#b #a #b",
        "---\ntags: [b, a, b]\n---\n  #c text \u{3000}",
        "---\nbroken: [\n---\n\t#x\t",
    ];
    for content in contents {
        let c = card("n.md", "n.md", content);
        assert!(c.preview.chars().count() <= 200);
        assert_eq!(c.preview, c.preview.trim());
        assert!(c.tags.windows(2).all(|w| w[0] < w[1]));
    }
}

#[test]
fn the_same_file_gives_the_same_card() {
    let content = "---\ntitle: T\ntags: [x]\n---\n#y body";
    let a = card("n.md", "n.md", content);
    let b = card("n.md", "n.md", content);
    assert_eq!(format!("{:?}", a), format!("{:?}", b));
}

#[test]
fn the_size_and_the_path_are_passed_on() {
    let mut f = file("n.md", "x");
    f.size = 123_456;
    let c = parse_card("some/dir/n.md", &f).unwrap();
    assert_eq!(c.size, 123_456);
    assert_eq!(c.path, "some/dir/n.md");
}

#[test]
fn a_card_is_assembled_from_its_parts() {
    let f = file("part.md", "ignored");
    let header = Header {
        title: None,
        tags: vec!["b".to_string(), "a".to_string()],
        created: None,
        updated: Some("later".to_string()),
    };
    let inline = vec!["c".to_string(), "a".to_string()];
    let c = assemble_card("p/part.md", &f, Some(header), "  body  ", inline);
    assert_eq!(c.title, "part");
    assert_eq!(c.tags, vec!["a", "b", "c"]);
    assert_eq!(c.created.as_deref(), Some("1970-01-01T00:00:00Z"));
    assert_eq!(c.updated.as_deref(), Some("later"));
    assert_eq!(c.preview, "body");
    let c = assemble_card("p/part.md", &f, None, "", Vec::new());
    assert_eq!(c.title, "part");
    assert!(c.tags.is_empty());
    assert_eq!(c.preview, "");
}

#[test]
fn inline_tags_come_in_the_order_of_the_text() {
    assert_eq!(extract_inline_tags("#b then #a and #b"), vec!["b", "a", "b"]);
    assert_eq!(extract_inline_tags("a#b#c"), vec!["b", "c"]);
    assert_eq!(extract_inline_tags("# not a tag, nor #"), Vec::<String>::new());
    assert_eq!(extract_inline_tags("#тег #ταγκ #١٢٣"), vec!["тег", "ταγκ", "١٢٣"]);
    assert_eq!(extract_inline_tags(""), Vec::<String>::new());
}
