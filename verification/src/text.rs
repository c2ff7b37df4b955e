//! Text primitives over sequences of Unicode scalar values: decoding,
//! white space, searching, trimming and the lexicographic order.

use vstd::prelude::*;
use vstd::string::StringSliceAdditionalSpecFns;
use vstd::utf8::{decode_utf8, encode_utf8_decode_utf8, valid_utf8};

verus! {

/// `String::push` of std: appends one character to the end of the string.
#[verifier::external_body]
pub(crate) fn push_char(out: &mut String, c: char)
    ensures
        final(out)@ == old(out)@.push(c),
{
    out.push(c);
}

/// `std::str::from_utf8`: the bytes as a string slice where they are valid
/// UTF-8, and nothing where they are not. The slice has exactly those bytes.
#[verifier::external_body]
pub(crate) fn str_from_utf8(bytes: &[u8]) -> (text: Option<&str>)
    ensures
        text is Some <==> valid_utf8(bytes@),
        text matches Some(s) ==> s.spec_bytes() == bytes@,
{
    std::str::from_utf8(bytes).ok()
}

/// The text that `bytes` encode, where they are valid UTF-8.
pub open spec fn decoded(bytes: Seq<u8>) -> Option<Seq<char>> {
    if valid_utf8(bytes) {
        Some(decode_utf8(bytes))
    } else {
        None
    }
}

/// Decodes `bytes` as UTF-8 text.
pub fn decode(bytes: &[u8]) -> (text: Option<&str>)
    ensures
        match text {
            Some(s) => decoded(bytes@) == Some(s@),
            None => decoded(bytes@) is None,
        },
{
    let text = str_from_utf8(bytes);
    proof {
        if let Some(s) = text {
            encode_utf8_decode_utf8(s@);
        }
    }
    text
}

/// The characters with the Unicode property White_Space.
pub open spec fn white_space(c: char) -> bool {
    let u = c as u32;
    (0x09 <= u <= 0x0D) || u == 0x20 || u == 0x85 || u == 0xA0 || u == 0x1680 || (0x2000 <= u
        <= 0x200A) || u == 0x2028 || u == 0x2029 || u == 0x202F || u == 0x205F || u == 0x3000
}

/// Whether `c` is white space.
pub fn is_whitespace(c: char) -> (yes: bool)
    ensures
        yes == white_space(c),
{
    let u = c as u32;
    (0x09 <= u && u <= 0x0D) || u == 0x20 || u == 0x85 || u == 0xA0 || u == 0x1680 || (0x2000 <= u
        && u <= 0x200A) || u == 0x2028 || u == 0x2029 || u == 0x202F || u == 0x205F || u == 0x3000
}

/// The characters of `s`, one element each.
pub fn to_chars(s: &str) -> (chars: Vec<char>)
    ensures
        chars@ == s@,
{
    let mut chars: Vec<char> = Vec::new();
    for c in it: s.chars()
        invariant
            chars@ == it.seq().take(it.index() as int),
    {
        chars.push(c);
    }
    chars
}

/// The string of the characters `chars[from..to]`.
pub fn to_text(chars: &Vec<char>, from: usize, to: usize) -> (text: String)
    requires
        from <= to <= chars.len(),
    ensures
        text@ == chars@.subrange(from as int, to as int),
{
    let mut text = String::new();
    let mut i: usize = from;
    while i < to
        invariant
            from <= i <= to <= chars.len(),
            text@ == chars@.subrange(from as int, i as int),
        decreases to - i,
    {
        push_char(&mut text, chars[i]);
        i += 1;
    }
    text
}

/// The first index at or after `from` whose character is not white space;
/// the length of `s` where there is none.
pub open spec fn skip_white_space(s: Seq<char>, from: int) -> int
    decreases s.len() - from,
{
    if 0 <= from < s.len() && white_space(s[from]) {
        skip_white_space(s, from + 1)
    } else {
        from
    }
}

/// The end of `s[..to]` once the white space at its end is dropped: the
/// largest index up to `to` that has no white space right before it.
pub open spec fn drop_white_space(s: Seq<char>, to: int) -> int
    decreases to,
{
    if 0 < to <= s.len() && white_space(s[to - 1]) {
        drop_white_space(s, to - 1)
    } else {
        to
    }
}

/// The first index at or after `from` whose character is not a line feed.
pub open spec fn skip_line_feeds(s: Seq<char>, from: int) -> int
    decreases s.len() - from,
{
    if 0 <= from < s.len() && s[from] == '\n' {
        skip_line_feeds(s, from + 1)
    } else {
        from
    }
}

/// `s` without the white space at its start and at its end.
pub open spec fn trimmed(s: Seq<char>) -> Seq<char> {
    let from = skip_white_space(s, 0);
    let to = drop_white_space(s, s.len() as int);
    if from < to {
        s.subrange(from, to)
    } else {
        Seq::empty()
    }
}

/// The first `n` characters of `s`; all of `s` where it has fewer.
pub open spec fn prefix(s: Seq<char>, n: nat) -> Seq<char> {
    if s.len() <= n {
        s
    } else {
        s.take(n as int)
    }
}

/// Whether `pat` stands in `s` at index `at`.
pub open spec fn occurs_at(s: Seq<char>, pat: Seq<char>, at: int) -> bool {
    0 <= at && at + pat.len() <= s.len() && s.subrange(at, at + pat.len()) == pat
}

/// The first index at or after `from` at which `pat` stands in `s`.
pub open spec fn find(s: Seq<char>, pat: Seq<char>, from: int) -> Option<int>
    decreases s.len() - from + 1,
{
    if from < 0 || from + pat.len() > s.len() {
        None
    } else if occurs_at(s, pat, from) {
        Some(from)
    } else {
        find(s, pat, from + 1)
    }
}

/// What `skip_white_space` finds: white space up to the index, and none
/// at it.
pub proof fn lemma_skip_white_space(s: Seq<char>, from: int)
    requires
        0 <= from <= s.len(),
    ensures
        from <= skip_white_space(s, from) <= s.len(),
        forall|i: int| from <= i < skip_white_space(s, from) ==> white_space(#[trigger] s[i]),
        skip_white_space(s, from) < s.len() ==> !white_space(s[skip_white_space(s, from)]),
    decreases s.len() - from,
{
    if from < s.len() && white_space(s[from]) {
        lemma_skip_white_space(s, from + 1);
    }
}

/// What `drop_white_space` finds: white space from the index on, and none
/// right before it.
pub proof fn lemma_drop_white_space(s: Seq<char>, to: int)
    requires
        0 <= to <= s.len(),
    ensures
        0 <= drop_white_space(s, to) <= to,
        forall|i: int| drop_white_space(s, to) <= i < to ==> white_space(#[trigger] s[i]),
        drop_white_space(s, to) > 0 ==> !white_space(s[drop_white_space(s, to) - 1]),
    decreases to,
{
    if 0 < to && white_space(s[to - 1]) {
        lemma_drop_white_space(s, to - 1);
    }
}

/// Trimmed text is no longer than the text it came from, and where any of it
/// is left it neither begins nor ends with white space.
pub proof fn lemma_trimmed(s: Seq<char>)
    ensures
        trimmed(s).len() <= s.len(),
        trimmed(s).len() > 0 ==> !white_space(trimmed(s).first()) && !white_space(
            trimmed(s).last(),
        ),
{
    lemma_skip_white_space(s, 0);
    lemma_drop_white_space(s, s.len() as int);
}

/// What `find` finds: the first index from `from` on at which the pattern
/// stands, or that it stands at none.
pub proof fn lemma_find(s: Seq<char>, pat: Seq<char>, from: int)
    requires
        0 <= from,
    ensures
        match find(s, pat, from) {
            Some(at) => from <= at && occurs_at(s, pat, at) && forall|i: int|
                from <= i < at ==> !occurs_at(s, pat, i),
            None => forall|i: int| from <= i ==> !occurs_at(s, pat, i),
        },
    decreases s.len() - from + 1,
{
    if from + pat.len() <= s.len() && !occurs_at(s, pat, from) {
        lemma_find(s, pat, from + 1);
    }
}

/// The first index at or after `from` whose character is not white space.
pub fn skip_whitespace(s: &Vec<char>, from: usize) -> (at: usize)
    requires
        from <= s.len(),
    ensures
        at == skip_white_space(s@, from as int),
        from <= at <= s.len(),
{
    let mut i: usize = from;
    while i < s.len() && is_whitespace(s[i])
        invariant
            from <= i <= s.len(),
            skip_white_space(s@, from as int) == skip_white_space(s@, i as int),
        decreases s.len() - i,
    {
        i += 1;
    }
    i
}

/// The end of `s[..to]` once the white space at its end is dropped.
pub fn drop_whitespace(s: &Vec<char>, to: usize) -> (at: usize)
    requires
        to <= s.len(),
    ensures
        at == drop_white_space(s@, to as int),
        at <= to,
{
    let mut i: usize = to;
    while i > 0 && is_whitespace(s[i - 1])
        invariant
            i <= to <= s.len(),
            drop_white_space(s@, to as int) == drop_white_space(s@, i as int),
        decreases i,
    {
        i -= 1;
    }
    i
}

/// The first index at or after `from` whose character is not a line feed.
pub fn skip_newlines(s: &Vec<char>, from: usize) -> (at: usize)
    requires
        from <= s.len(),
    ensures
        at == skip_line_feeds(s@, from as int),
        from <= at <= s.len(),
{
    let mut i: usize = from;
    while i < s.len() && s[i] == '\n'
        invariant
            from <= i <= s.len(),
            skip_line_feeds(s@, from as int) == skip_line_feeds(s@, i as int),
        decreases s.len() - i,
    {
        i += 1;
    }
    i
}

/// Whether `pat` stands in `s` at index `at`.
pub fn starts_with_at(s: &Vec<char>, pat: &Vec<char>, at: usize) -> (yes: bool)
    ensures
        yes == occurs_at(s@, pat@, at as int),
{
    if pat.len() > s.len() || at > s.len() - pat.len() {
        return false;
    }
    let mut k: usize = 0;
    while k < pat.len()
        invariant
            k <= pat.len(),
            at + pat.len() <= s.len(),
            forall|j: int| 0 <= j < k ==> s@[at + j] == pat@[j],
        decreases pat.len() - k,
    {
        if s[at + k] != pat[k] {
            assert(s@.subrange(at as int, at + pat.len())[k as int] != pat@[k as int]);
            return false;
        }
        k += 1;
    }
    assert(s@.subrange(at as int, at + pat.len()) =~= pat@);
    true
}

/// The first index at or after `from` at which `pat` stands in `s`.
pub fn find_at(s: &Vec<char>, pat: &Vec<char>, from: usize) -> (at: Option<usize>)
    ensures
        match at {
            Some(i) => find(s@, pat@, from as int) == Some(i as int) && i + pat.len() <= s.len(),
            None => find(s@, pat@, from as int) is None,
        },
{
    if pat.len() > s.len() {
        return None;
    }
    let last = s.len() - pat.len();
    let mut i: usize = from;
    while i < last
        invariant
            from <= i,
            last == s.len() - pat.len(),
            find(s@, pat@, from as int) == find(s@, pat@, i as int),
        decreases last - i,
    {
        if starts_with_at(s, pat, i) {
            return Some(i);
        }
        i += 1;
    }
    if i == last && starts_with_at(s, pat, i) {
        Some(i)
    } else {
        assert(find(s@, pat@, i + 1) is None);
        None
    }
}

} // verus!
