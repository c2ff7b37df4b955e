//! Card metadata: one normalized record per Markdown file, built from the
//! file's header, its body and what the file system says of it.

use crate::frontmatter::{
    body_of, extract_frontmatter, header_in, optional_header, optional_strings, optional_text,
    present, present_strings, Header, HeaderView,
};
use crate::tags::{merge_tags, sort_unique, strictly_increasing, strings};
use crate::text::{
    decode, decoded, drop_whitespace, lemma_trimmed, prefix, skip_whitespace, to_chars, to_text,
    trimmed, white_space,
};
use crate::time::{iso_timestamp, system_time_to_iso};
use vstd::prelude::*;
use vstd::string::StrSliceExecFns;

verus! {

/// How many characters of the body are searched for inline tags.
pub const TAG_WINDOW: usize = 500;

/// The greatest length of a preview, in characters.
pub const PREVIEW_LENGTH: usize = 200;

/// The regular expression of an inline tag: `#`, then one or more word
/// characters, CJK ideographs from U+4E00 to U+9FA5 or hyphens, which are
/// the tag.
pub const TAG_PATTERN: &'static str = "#([\\w\\u4e00-\\u9fa5\\-]+)";

/// The metadata of one card.
#[derive(Clone, Debug)]
pub struct CardMeta {
    pub path: String,
    pub title: String,
    pub tags: Vec<String>,
    pub created: Option<String>,
    pub updated: Option<String>,
    pub preview: String,
    pub size: u64,
}

/// A card as text and numbers.
pub struct CardView {
    pub path: Seq<char>,
    pub title: Seq<char>,
    pub tags: Seq<Seq<char>>,
    pub created: Option<Seq<char>>,
    pub updated: Option<Seq<char>>,
    pub preview: Seq<char>,
    pub size: nat,
}

impl View for CardMeta {
    type V = CardView;

    open spec fn view(&self) -> CardView {
        CardView {
            path: self.path@,
            title: self.title@,
            tags: strings(self.tags@),
            created: optional_text(self.created),
            updated: optional_text(self.updated),
            preview: self.preview@,
            size: self.size as nat,
        }
    }
}

impl CardView {
    /// What holds of every card: the tags are sorted ascending without
    /// duplicates, and the preview has at most 200 characters and no white
    /// space at either end.
    pub open spec fn well_formed(self) -> bool {
        &&& strictly_increasing(self.tags)
        &&& self.preview.len() <= PREVIEW_LENGTH
        &&& self.preview.len() > 0 ==> !white_space(self.preview.first()) && !white_space(
            self.preview.last(),
        )
    }
}

/// A file as it was read: its name, its attributes and its content.
pub struct FileRead {
    /// The last component of the file's path; empty where it has none.
    pub name: String,
    /// The file's size in bytes.
    pub size: u64,
    /// When the file was last modified, in seconds since the Unix epoch,
    /// where the file system tells.
    pub modified: Option<u64>,
    /// When the file was created, in seconds since the Unix epoch, where the
    /// file system tells.
    pub created: Option<u64>,
    /// The content of the file.
    pub bytes: Vec<u8>,
}

/// A file that was read, as text, numbers and bytes.
pub struct FileView {
    pub name: Seq<char>,
    pub size: nat,
    pub modified: Option<nat>,
    pub created: Option<nat>,
    pub bytes: Seq<u8>,
}

/// An optional count of seconds as a natural number.
pub open spec fn optional_seconds(t: Option<u64>) -> Option<nat> {
    match t {
        Some(s) => Some(s as nat),
        None => None,
    }
}

impl View for FileRead {
    type V = FileView;

    open spec fn view(&self) -> FileView {
        FileView {
            name: self.name@,
            size: self.size as nat,
            modified: optional_seconds(self.modified),
            created: optional_seconds(self.created),
            bytes: self.bytes@,
        }
    }
}

/// The index of the last `.` of `name` before index `to`; -1 where there
/// is none.
pub open spec fn last_dot(name: Seq<char>, to: int) -> int
    decreases to,
{
    if to <= 0 || to > name.len() {
        -1
    } else if name[to - 1] == '.' {
        to - 1
    } else {
        last_dot(name, to - 1)
    }
}

/// Where the extension of the file name `name` is split off: the index of
/// its last `.`, unless the name has none, begins with its only one, or is
/// `..`.
pub open spec fn extension_dot(name: Seq<char>) -> Option<int> {
    let dot = last_dot(name, name.len() as int);
    if dot <= 0 || name == seq!['.', '.'] {
        None
    } else {
        Some(dot)
    }
}

/// The file name without its extension.
pub open spec fn stem_of(name: Seq<char>) -> Seq<char> {
    match extension_dot(name) {
        Some(dot) => name.take(dot),
        None => name,
    }
}

/// The extension of the file name, without the dot.
pub open spec fn extension_of(name: Seq<char>) -> Option<Seq<char>> {
    match extension_dot(name) {
        Some(dot) => Some(name.skip(dot + 1)),
        None => None,
    }
}

/// Finds where the extension of a file name is split off.
pub fn find_extension_dot(name: &Vec<char>) -> (dot: Option<usize>)
    ensures
        match dot {
            Some(d) => extension_dot(name@) == Some(d as int) && 0 < d < name.len(),
            None => extension_dot(name@) is None,
        },
{
    let mut i: usize = name.len();
    while i > 0 && name[i - 1] != '.'
        invariant
            i <= name.len(),
            last_dot(name@, name.len() as int) == last_dot(name@, i as int),
        decreases i,
    {
        i -= 1;
    }
    let two_dots = name.len() == 2 && name[0] == '.' && name[1] == '.';
    proof {
        if two_dots {
            assert(name@ =~= seq!['.', '.']);
        }
    }
    if i <= 1 || two_dots {
        None
    } else {
        Some(i - 1)
    }
}

/// The file name without its extension.
pub fn file_stem(name: &str) -> (stem: String)
    ensures
        stem@ == stem_of(name@),
{
    let chars = to_chars(name);
    let stem = match find_extension_dot(&chars) {
        Some(dot) => to_text(&chars, 0, dot),
        None => to_text(&chars, 0, chars.len()),
    };
    assert(stem@ =~= stem_of(name@));
    stem
}

/// The first capture group of each match of the regular expression
/// `pattern` in `haystack`, match by match from the left, none overlapping
/// another; a group that took no part in its match is nothing. Nothing at
/// all where `pattern` is not a regular expression that the regex crate
/// accepts.
pub uninterp spec fn regex_first_groups(pattern: Seq<char>, haystack: Seq<char>) -> Option<
    Seq<Option<Seq<char>>>,
>;

/// `Regex::new` of the regex crate, then `Regex::captures_iter` on
/// `haystack`, with `Captures::get(1)` and `Match::as_str` on each match.
#[verifier::external_body]
fn first_groups(pattern: &str, haystack: &str) -> (groups: Option<Vec<Option<String>>>)
    ensures
        match groups {
            Some(v) => regex_first_groups(pattern@, haystack@) == Some(optional_strings(v@)),
            None => regex_first_groups(pattern@, haystack@) is None,
        },
{
    match regex::Regex::new(pattern) {
        Ok(re) => Some(
            re.captures_iter(haystack).map(|c| c.get(1).map(|m| String::from(m.as_str()))).collect(),
        ),
        Err(_) => None,
    }
}

/// The inline tags of `text`: what follows each `#` as far as the tag
/// pattern matches, without the `#`.
pub open spec fn inline_tags(text: Seq<char>) -> Seq<Seq<char>> {
    match regex_first_groups(TAG_PATTERN@, text) {
        Some(groups) => present(groups),
        None => Seq::empty(),
    }
}

/// Finds the inline tags of `text`.
pub fn extract_inline_tags(text: &str) -> (tags: Vec<String>)
    ensures
        strings(tags@) == inline_tags(text@),
{
    match first_groups(TAG_PATTERN, text) {
        Some(groups) => present_strings(groups),
        None => {
            let none: Vec<String> = Vec::new();
            assert(strings(none@) =~= Seq::empty());
            none
        },
    }
}

/// The first of the two that is there.
pub open spec fn first_of(a: Option<Seq<char>>, b: Option<Seq<char>>) -> Option<Seq<char>> {
    if a is Some {
        a
    } else {
        b
    }
}

/// The ISO-8601 text of an optional count of seconds since the epoch.
pub open spec fn optional_timestamp(secs: Option<nat>) -> Option<Seq<char>> {
    match secs {
        Some(s) => Some(iso_timestamp(s)),
        None => None,
    }
}

/// The card that these parts give.
///
/// The title is the header's, else the file name without its extension.
/// The tags are the header's and the inline ones, sorted, each once. The
/// dates are the header's, else the file system's as ISO-8601 text. The
/// preview is the first 200 characters of the body, trimmed.
pub open spec fn card_from(
    path: Seq<char>,
    file: FileView,
    header: Option<HeaderView>,
    body: Seq<char>,
    inline: Seq<Seq<char>>,
) -> CardView {
    CardView {
        path,
        title: match header {
            Some(HeaderView { title: Some(t), .. }) => t,
            _ => stem_of(file.name),
        },
        tags: sort_unique(
            match header {
                Some(h) => h.tags,
                None => Seq::empty(),
            } + inline,
        ),
        created: first_of(
            match header {
                Some(h) => h.created,
                None => None,
            },
            optional_timestamp(file.created),
        ),
        updated: first_of(
            match header {
                Some(h) => h.updated,
                None => None,
            },
            optional_timestamp(file.modified),
        ),
        preview: trimmed(prefix(body, PREVIEW_LENGTH as nat)),
        size: file.size,
    }
}

/// The card of the file at `path`: nothing where its content is not valid
/// UTF-8.
pub open spec fn card_of(path: Seq<char>, file: FileView) -> Option<CardView> {
    match decoded(file.bytes) {
        Some(content) => Some(
            card_from(
                path,
                file,
                header_in(content),
                body_of(content),
                inline_tags(prefix(body_of(content), TAG_WINDOW as nat)),
            ),
        ),
        None => None,
    }
}

/// Every card that is built is well formed.
pub proof fn lemma_card_well_formed(
    path: Seq<char>,
    file: FileView,
    header: Option<HeaderView>,
    body: Seq<char>,
    inline: Seq<Seq<char>>,
)
    ensures
        card_from(path, file, header, body, inline).well_formed(),
{
    let listed = match header {
        Some(h) => h.tags,
        None => Seq::empty(),
    };
    crate::tags::lemma_sort_unique(listed + inline);
    lemma_trimmed(prefix(body, PREVIEW_LENGTH as nat));
}

/// The first `n` characters of `text`; all of it where it has fewer.
pub fn leading<'a>(text: &'a str, n: usize) -> (head: &'a str)
    ensures
        head@ == prefix(text@, n as nat),
{
    let len = text.unicode_len();
    if len <= n {
        text
    } else {
        let head = text.substring_char(0, n);
        assert(head@ =~= text@.take(n as int));
        head
    }
}

/// `text` without the white space at its start and at its end.
pub fn trim(text: &str) -> (out: String)
    ensures
        out@ == trimmed(text@),
{
    let chars = to_chars(text);
    let from = skip_whitespace(&chars, 0);
    let to = drop_whitespace(&chars, chars.len());
    if from < to {
        to_text(&chars, from, to)
    } else {
        String::new()
    }
}

/// The ISO-8601 text of `secs`, where it is there.
fn timestamp(secs: Option<u64>) -> (text: Option<String>)
    ensures
        optional_text(text) == optional_timestamp(optional_seconds(secs)),
{
    match secs {
        Some(s) => Some(system_time_to_iso(s)),
        None => None,
    }
}

/// Builds the card of the file at `path` from its parts: the header, where
/// the file has one, its body, and the inline tags found in the body.
pub fn assemble_card(
    path: &str,
    file: &FileRead,
    header: Option<Header>,
    body: &str,
    inline: Vec<String>,
) -> (card: CardMeta)
    ensures
        card@ == card_from(path@, file@, optional_header(header), body@, strings(inline@)),
        card@.well_formed(),
{
    let (title, listed, created, updated) = match header {
        Some(h) => (h.title, h.tags, h.created, h.updated),
        None => (None, Vec::new(), None, None),
    };
    let title = match title {
        Some(t) => t,
        None => file_stem(file.name.as_str()),
    };
    let tags = merge_tags(&listed, &inline);
    let created = match created {
        Some(c) => Some(c),
        None => timestamp(file.created),
    };
    let updated = match updated {
        Some(u) => Some(u),
        None => timestamp(file.modified),
    };
    let preview = trim(leading(body, PREVIEW_LENGTH));
    let card = CardMeta {
        path: path.to_owned(),
        title,
        tags,
        created,
        updated,
        preview,
        size: file.size,
    };
    proof {
        lemma_card_well_formed(path@, file@, optional_header(header), body@, strings(inline@));
        assert(strings(listed@) =~= match optional_header(header) {
            Some(h) => h.tags,
            None => Seq::empty(),
        });
    }
    card
}

/// Builds the card of the file at `path`, read as `file`. There is no card
/// where the content is not valid UTF-8.
pub fn parse_card(path: &str, file: &FileRead) -> (card: Option<CardMeta>)
    ensures
        optional_card(card) == card_of(path@, file@),
        card matches Some(c) ==> c@.well_formed(),
{
    match decode(file.bytes.as_slice()) {
        Some(content) => {
            let (header, body) = extract_frontmatter(content);
            let inline = extract_inline_tags(leading(body, TAG_WINDOW));
            Some(assemble_card(path, file, header, body, inline))
        },
        None => None,
    }
}

/// The view of an optional card.
pub open spec fn optional_card(card: Option<CardMeta>) -> Option<CardView> {
    match card {
        Some(c) => Some(c@),
        None => None,
    }
}

/// The view of an optional file.
pub open spec fn optional_file(file: Option<FileRead>) -> Option<FileView> {
    match file {
        Some(f) => Some(f@),
        None => None,
    }
}

/// The card of the file at `path`, where `file` is what reading it gave:
/// nothing where the file could not be read or is not valid UTF-8.
pub open spec fn card_of_read(path: Seq<char>, file: Option<FileView>) -> Option<CardView> {
    match file {
        Some(f) => card_of(path, f),
        None => None,
    }
}

/// Builds the card of the single file at `path`. `file` is what reading it
/// gave, or nothing where it could not be read.
pub fn parse_single_file(path: &str, file: Option<FileRead>) -> (card: Option<CardMeta>)
    ensures
        optional_card(card) == card_of_read(path@, optional_file(file)),
        card matches Some(c) ==> c@.well_formed(),
{
    match file {
        Some(f) => parse_card(path, &f),
        None => None,
    }
}

} // verus!
