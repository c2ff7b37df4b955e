use card_index::card::{file_stem, leading, trim};
use card_index::tags::{comes_before, merge_tags, same_text};
use card_index::text::{decode, is_whitespace, to_chars, to_text};

fn strings(items: &[&str]) -> Vec<String> {
    items.iter().map(|s| s.to_string()).collect()
}

#[test]
fn white_space_is_what_std_calls_white_space() {
    let mut c = 0u32;
    while c <= 0x10FFFF {
        if let Some(ch) = char::from_u32(c) {
            assert_eq!(is_whitespace(ch), ch.is_whitespace());
        }
        c += 1;
    }
}

#[test]
fn trimming_agrees_with_std() {
    let samples = [
        "",
        " ",
        "\n\t  \r\n",
        "abc",
        "  abc",
        "abc  ",
        " \u{3000}abc def\u{2028}\n",
        "\u{feff}abc",
        "a",
        " a ",
    ];
    for s in samples {
        assert_eq!(trim(s), s.trim());
    }
}

#[test]
fn leading_takes_characters_not_bytes() {
    assert_eq!(leading("héllo", 2), "hé");
    assert_eq!(leading("héllo", 5), "héllo");
    assert_eq!(leading("héllo", 9), "héllo");
    assert_eq!(leading("héllo", 0), "");
    assert_eq!(leading("", 3), "");
}

#[test]
fn characters_round_trip() {
    let chars = to_chars("a—b中");
    assert_eq!(chars, vec!['a', '—', 'b', '中']);
    assert_eq!(to_text(&chars, 0, 4), "a—b中");
    assert_eq!(to_text(&chars, 1, 3), "—b");
    assert_eq!(to_text(&chars, 2, 2), "");
}

#[test]
fn decoding_accepts_utf8_only() {
    assert_eq!(decode("héllo".as_bytes()), Some("héllo"));
    assert_eq!(decode(&[]), Some(""));
    assert_eq!(decode(&[0xff]), None);
    assert_eq!(decode(&[0xc0, 0x80]), None);
    assert_eq!(decode(&[0xed, 0xa0, 0x80]), None);
    assert_eq!(decode(&[0xe4, 0xb8]), None);
}

#[test]
fn the_order_on_text_is_the_order_of_strings() {
    let samples = ["", "a", "ab", "b", "B", "-", "é", "中", "a-b", "a中", "\u{10000}", "\u{ffff}"];
    for a in samples {
        for b in samples {
            let (x, y) = (to_chars(a), to_chars(b));
            assert_eq!(comes_before(&x, &y), a < b);
            assert_eq!(same_text(&x, &y), a == b);
        }
    }
}

#[test]
fn merging_sorts_and_drops_duplicates() {
    let merged = merge_tags(&strings(&["b", "a", "b"]), &strings(&["c", "a", "-x", "B"]));
    assert_eq!(merged, strings(&["-x", "B", "a", "b", "c"]));
    assert!(merge_tags(&Vec::new(), &Vec::new()).is_empty());
}

#[test]
fn merging_agrees_with_sort_and_dedup() {
    let listed = strings(&["zeta", "alpha", "中文", "beta", "alpha", ""]);
    let inline = strings(&["beta", "Beta", "a-b", "中", "éa", "zeta"]);
    let mut expected: Vec<String> = listed.iter().chain(inline.iter()).cloned().collect();
    expected.sort_unstable();
    expected.dedup();
    assert_eq!(merge_tags(&listed, &inline), expected);
}

#[test]
fn the_stem_is_the_name_without_its_extension() {
    assert_eq!(file_stem("note.md"), "note");
    assert_eq!(file_stem("archive.tar.gz"), "archive.tar");
    assert_eq!(file_stem("noext"), "noext");
    assert_eq!(file_stem(".hidden"), ".hidden");
    assert_eq!(file_stem(".hidden.md"), ".hidden");
    assert_eq!(file_stem("trailing."), "trailing");
    assert_eq!(file_stem(".."), "..");
    assert_eq!(file_stem("..."), "..");
    assert_eq!(file_stem(""), "");
    assert_eq!(file_stem("中文.md"), "中文");
}

#[test]
fn the_stem_agrees_with_std_on_file_names() {
    let names = ["note.md", "a.b.c", "noext", ".hidden", ".a.b", "x.", "...", "a..b", "é.txt"];
    for name in names {
        let expected = std::path::Path::new(name).file_stem().unwrap().to_str().unwrap();
        assert_eq!(file_stem(name), expected);
    }
}
