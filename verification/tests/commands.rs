use card_index::card::{parse_card, FileRead};
use card_index::commands::{initial_content, markdown_file_name};
use card_index::frontmatter::get_body;

#[test]
fn a_new_file_gets_the_markdown_extension() {
    assert_eq!(markdown_file_name("note"), "note.md");
    assert_eq!(markdown_file_name("note.md"), "note.md");
    assert_eq!(markdown_file_name("note.MD"), "note.MD.md");
    assert_eq!(markdown_file_name("md"), "md.md");
    assert_eq!(markdown_file_name(""), ".md");
    assert_eq!(markdown_file_name("笔记"), "笔记.md");
}

#[test]
fn a_new_file_starts_with_a_header_and_no_body() {
    assert_eq!(initial_content("note.md"), "---\ntitle: \"note\"\ntags: []\n---\n");
    assert_eq!(initial_content("note.md.md"), "---\ntitle: \"note\"\ntags: []\n---\n");
    assert_eq!(initial_content("plain"), "---\ntitle: \"plain\"\ntags: []\n---\n");
    assert_eq!(initial_content(".md"), "---\ntitle: \"\"\ntags: []\n---\n");
    assert_eq!(initial_content("a.mdx"), "---\ntitle: \"a.mdx\"\ntags: []\n---\n");
}

#[test]
fn a_new_file_parses_to_a_card_with_its_title() {
    let name = markdown_file_name("Fresh idea");
    let content = initial_content(&name);
    assert_eq!(get_body(&content), "");
    let file = FileRead {
        name: name.clone(),
        size: content.len() as u64,
        modified: None,
        created: None,
        bytes: content.into_bytes(),
    };
    let card = parse_card("dir/Fresh idea.md", &file).unwrap();
    assert_eq!(card.title, "Fresh idea");
    assert!(card.tags.is_empty());
    assert_eq!(card.preview, "");
}
