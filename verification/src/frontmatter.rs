//! Front matter: the YAML header block at the start of a card file, between
//! two `---` delimiters, and the body that follows it.

use crate::tags::strings;
use crate::text::{
    find, find_at, lemma_find, occurs_at, skip_line_feeds, skip_newlines, skip_white_space, skip_whitespace,
    starts_with_at, to_chars, to_text,
};
use vstd::prelude::*;
use vstd::string::StrSliceExecFns;

verus! {

/// A parsed YAML value of the serde_yaml crate; opaque here.
#[verifier::external_type_specification]
#[verifier::external_body]
pub struct ExYamlValue(serde_yaml::Value);

/// What a YAML document holds under one string key, as far as a card reads
/// it.
pub enum Field {
    /// A string.
    Text(Seq<char>),
    /// A sequence; each item is its string, or nothing where it is no string.
    List(Seq<Option<Seq<char>>>),
    /// Anything else: null, a boolean, a number, a mapping.
    Other,
}

/// The entries of `doc` that `Value::get` reaches by a string key; empty
/// where `doc` is no mapping.
pub uninterp spec fn yaml_fields(doc: serde_yaml::Value) -> Map<Seq<char>, Field>;

/// The entries of the YAML document that `text` parses to; nothing where
/// `text` is no YAML document.
pub uninterp spec fn yaml_document(text: Seq<char>) -> Option<Map<Seq<char>, Field>>;

/// `serde_yaml::from_str` at type `Value`: parses `text` as one YAML
/// document. An error of the parser is given as `None`.
#[verifier::external_body]
fn parse_yaml(text: &str) -> (doc: Option<serde_yaml::Value>)
    ensures
        match doc {
            Some(v) => yaml_document(text@) == Some(yaml_fields(v)),
            None => yaml_document(text@) is None,
        },
{
    serde_yaml::from_str(text).ok()
}

/// `Value::get` with a string key, then `Value::as_str`: the string under
/// `key`, where `doc` has that key and a string under it.
#[verifier::external_body]
fn yaml_text(doc: &serde_yaml::Value, key: &str) -> (text: Option<String>)
    ensures
        match text {
            Some(s) => yaml_fields(*doc).contains_key(key@) && yaml_fields(*doc)[key@]
                == Field::Text(s@),
            None => !(yaml_fields(*doc).contains_key(key@) && yaml_fields(*doc)[key@] is Text),
        },
{
    doc.get(key).and_then(|v| v.as_str()).map(String::from)
}

/// `Value::get` with a string key, then `Value::as_sequence`, then
/// `Value::as_str` on each item: the sequence under `key`, where `doc` has
/// that key and a sequence under it.
#[verifier::external_body]
fn yaml_list(doc: &serde_yaml::Value, key: &str) -> (items: Option<Vec<Option<String>>>)
    ensures
        match items {
            Some(v) => yaml_fields(*doc).contains_key(key@) && yaml_fields(*doc)[key@]
                == Field::List(optional_strings(v@)),
            None => !(yaml_fields(*doc).contains_key(key@) && yaml_fields(*doc)[key@] is List),
        },
{
    doc.get(key).and_then(|v| v.as_sequence()).map(
        |items| items.iter().map(|item| item.as_str().map(String::from)).collect(),
    )
}

/// The texts of a list of optional strings.
pub open spec fn optional_strings(v: Seq<Option<String>>) -> Seq<Option<Seq<char>>> {
    v.map_values(|o: Option<String>| optional_text(o))
}

/// The items of `items` that are there, in their order.
pub open spec fn present(items: Seq<Option<Seq<char>>>) -> Seq<Seq<char>>
    decreases items.len(),
{
    if items.len() == 0 {
        Seq::empty()
    } else {
        match items.last() {
            Some(s) => present(items.drop_last()).push(s),
            None => present(items.drop_last()),
        }
    }
}

/// The strings of `items` that are there, in their order.
pub fn present_strings(items: Vec<Option<String>>) -> (kept: Vec<String>)
    ensures
        strings(kept@) == present(optional_strings(items@)),
{
    let ghost all = optional_strings(items@);
    let mut kept: Vec<String> = Vec::new();
    for item in it: items
        invariant
            all == optional_strings(it.seq()),
            strings(kept@) == present(all.take(it.index() as int)),
    {
        proof {
            let n = it.index() as int;
            assert(all.take(n + 1).drop_last() =~= all.take(n));
            assert(all.take(n + 1).last() == optional_text(item));
        }
        match item {
            Some(s) => {
                proof {
                    assert(strings(kept@.push(s)) =~= strings(kept@).push(s@));
                }
                kept.push(s);
            },
            None => {},
        }
    }
    proof {
        assert(all.take(all.len() as int) =~= all);
    }
    kept
}

/// The fields of a header that a card reads.
pub struct Header {
    pub title: Option<String>,
    pub tags: Vec<String>,
    pub created: Option<String>,
    pub updated: Option<String>,
}

/// A header as text.
pub struct HeaderView {
    pub title: Option<Seq<char>>,
    pub tags: Seq<Seq<char>>,
    pub created: Option<Seq<char>>,
    pub updated: Option<Seq<char>>,
}

/// The text of an optional string.
pub open spec fn optional_text(s: Option<String>) -> Option<Seq<char>> {
    match s {
        Some(s) => Some(s@),
        None => None,
    }
}

impl View for Header {
    type V = HeaderView;

    open spec fn view(&self) -> HeaderView {
        HeaderView {
            title: optional_text(self.title),
            tags: strings(self.tags@),
            created: optional_text(self.created),
            updated: optional_text(self.updated),
        }
    }
}

/// The string under `key`, where there is one.
pub open spec fn text_under(fields: Map<Seq<char>, Field>, key: Seq<char>) -> Option<Seq<char>> {
    if fields.contains_key(key) {
        match fields[key] {
            Field::Text(s) => Some(s),
            _ => None,
        }
    } else {
        None
    }
}

/// The strings of the sequence under `key`; none where there is no sequence.
pub open spec fn strings_under(fields: Map<Seq<char>, Field>, key: Seq<char>) -> Seq<Seq<char>> {
    if fields.contains_key(key) {
        match fields[key] {
            Field::List(items) => present(items),
            _ => Seq::empty(),
        }
    } else {
        Seq::empty()
    }
}

/// The header that a document with these entries gives: `title`, `created`
/// and `updated` where they are strings, and the strings of `tags` where it
/// is a sequence.
pub open spec fn header_of(fields: Map<Seq<char>, Field>) -> HeaderView {
    HeaderView {
        title: text_under(fields, "title"@),
        tags: strings_under(fields, "tags"@),
        created: text_under(fields, "created"@),
        updated: text_under(fields, "updated"@),
    }
}

/// Reads from a parsed document the fields that a card uses.
pub fn read_header(doc: &serde_yaml::Value) -> (header: Header)
    ensures
        header@ == header_of(yaml_fields(*doc)),
{
    let title = yaml_text(doc, "title");
    let tags = match yaml_list(doc, "tags") {
        Some(items) => present_strings(items),
        None => Vec::new(),
    };
    let created = yaml_text(doc, "created");
    let updated = yaml_text(doc, "updated");
    let header = Header { title, tags, created, updated };
    proof {
        assert(header@.tags =~= header_of(yaml_fields(*doc)).tags);
    }
    header
}

/// The delimiter that opens the header block.
pub open spec fn opening() -> Seq<char> {
    seq!['-', '-', '-']
}

/// The delimiter that closes the header block: a line feed and three dashes.
pub open spec fn closing() -> Seq<char> {
    seq!['\n', '-', '-', '-']
}

/// Where the header block and the body of `content` lie: the block runs
/// from `.0` to `.1`, the body starts at `.2`. Nothing where `content`,
/// after its leading white space, does not start with the opening
/// delimiter, or where no closing delimiter follows.
pub open spec fn block_bounds(content: Seq<char>) -> Option<(int, int, int)> {
    let start = skip_white_space(content, 0);
    if occurs_at(content, opening(), start) {
        match find(content, closing(), start + 3) {
            Some(close) => Some((start + 3, close, skip_line_feeds(content, close + 4))),
            None => None,
        }
    } else {
        None
    }
}

/// The text of the header block of `content`, where it has one.
pub open spec fn block_of(content: Seq<char>) -> Option<Seq<char>> {
    match block_bounds(content) {
        Some(b) => Some(content.subrange(b.0, b.1)),
        None => None,
    }
}

/// The body of `content`: what follows the closing delimiter and the line
/// feeds right after it; all of `content` where it has no header block.
pub open spec fn body_of(content: Seq<char>) -> Seq<char> {
    match block_bounds(content) {
        Some(b) => content.skip(b.2),
        None => content,
    }
}

/// The header of `content`: nothing where it has no header block or the
/// block is no YAML document.
pub open spec fn header_in(content: Seq<char>) -> Option<HeaderView> {
    match block_of(content) {
        Some(block) => match yaml_document(block) {
            Some(fields) => Some(header_of(fields)),
            None => None,
        },
        None => None,
    }
}

/// The view of an optional header.
pub open spec fn optional_header(header: Option<Header>) -> Option<HeaderView> {
    match header {
        Some(h) => Some(h@),
        None => None,
    }
}

/// Finds the header block of `content`, as indices into its characters.
pub fn locate_block(chars: &Vec<char>) -> (bounds: Option<(usize, usize, usize)>)
    ensures
        match bounds {
            Some(b) => block_bounds(chars@) == Some((b.0 as int, b.1 as int, b.2 as int)) && b.0
                <= b.1 <= b.2 <= chars.len(),
            None => block_bounds(chars@) is None,
        },
{
    let start = skip_whitespace(chars, 0);
    let dashes: Vec<char> = vec!['-', '-', '-'];
    let fence: Vec<char> = vec!['\n', '-', '-', '-'];
    proof {
        assert(dashes@ =~= opening());
        assert(fence@ =~= closing());
    }
    if !starts_with_at(chars, &dashes, start) {
        return None;
    }
    match find_at(chars, &fence, start + 3) {
        Some(close) => {
            proof {
                lemma_find(chars@, closing(), start + 3);
            }
            let body = skip_newlines(chars, close + 4);
            Some((start + 3, close, body))
        },
        None => None,
    }
}

/// Splits `content` into its header, where it has a well-formed one, and
/// its body.
pub fn extract_frontmatter(content: &str) -> (parts: (Option<Header>, &str))
    ensures
        optional_header(parts.0) == header_in(content@),
        parts.1@ == body_of(content@),
{
    let chars = to_chars(content);
    match locate_block(&chars) {
        Some((from, to, body_at)) => {
            let block = to_text(&chars, from, to);
            let body = content.substring_char(body_at, chars.len());
            let header = match parse_yaml(block.as_str()) {
                Some(doc) => Some(read_header(&doc)),
                None => None,
            };
            (header, body)
        },
        None => (None, content),
    }
}

/// The body of `content`, without its header block.
pub fn get_body(content: &str) -> (body: &str)
    ensures
        body@ == body_of(content@),
{
    extract_frontmatter(content).1
}

} // verus!
