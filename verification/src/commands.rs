//! What the file commands compute: the name and the first content of a new
//! card file.

use crate::text::{to_chars, to_text};
use vstd::prelude::*;
use vstd::string::StringExecFns;

verus! {

/// The extension of a card file, with its dot.
pub open spec fn md_suffix() -> Seq<char> {
    seq!['.', 'm', 'd']
}

/// Whether `name` ends with `.md`.
pub open spec fn ends_with_md(name: Seq<char>) -> bool {
    name.len() >= 3 && name.skip(name.len() - 3) == md_suffix()
}

/// The name of the file of a new card: `filename`, with `.md` added where
/// it does not end with it.
pub open spec fn card_file_name(filename: Seq<char>) -> Seq<char> {
    if ends_with_md(filename) {
        filename
    } else {
        filename + md_suffix()
    }
}

/// `name` without any `.md` at its end, however many there are.
pub open spec fn without_md(name: Seq<char>) -> Seq<char>
    decreases name.len(),
{
    if ends_with_md(name) {
        without_md(name.take(name.len() - 3))
    } else {
        name
    }
}

/// The content that a new card file is created with: a header with the
/// file name without `.md` as the title and with no tags, and an empty
/// body.
pub open spec fn new_card_content(name: Seq<char>) -> Seq<char> {
    "---\ntitle: \""@ + without_md(name) + "\"\ntags: []\n---\n"@
}

fn has_md_suffix(chars: &Vec<char>, len: usize) -> (yes: bool)
    requires
        len <= chars.len(),
    ensures
        yes == ends_with_md(chars@.take(len as int)),
{
    let yes = len >= 3 && chars[len - 3] == '.' && chars[len - 2] == 'm' && chars[len - 1] == 'd';
    proof {
        let name = chars@.take(len as int);
        if len >= 3 {
            let end = name.skip(len - 3);
            if yes {
                assert(end =~= md_suffix());
            } else if end == md_suffix() {
                assert(end[0] == '.' && end[1] == 'm' && end[2] == 'd');
            }
        }
    }
    yes
}

/// The name of the file of a new card.
pub fn markdown_file_name(filename: &str) -> (name: String)
    ensures
        name@ == card_file_name(filename@),
{
    let chars = to_chars(filename);
    proof {
        assert(chars@.take(chars.len() as int) =~= chars@);
        reveal_strlit(".md");
        assert(".md"@ =~= md_suffix());
    }
    if has_md_suffix(&chars, chars.len()) {
        filename.to_owned()
    } else {
        filename.to_owned().concat(".md")
    }
}

/// The content that the file `name` of a new card is created with.
pub fn initial_content(name: &str) -> (content: String)
    ensures
        content@ == new_card_content(name@),
{
    let chars = to_chars(name);
    let mut len: usize = chars.len();
    proof {
        assert(chars@.take(len as int) =~= chars@);
    }
    while has_md_suffix(&chars, len)
        invariant
            len <= chars.len(),
            without_md(chars@) == without_md(chars@.take(len as int)),
        decreases len,
    {
        proof {
            assert(chars@.take(len as int).take(len - 3) =~= chars@.take(len - 3));
        }
        len -= 3;
    }
    let title = to_text(&chars, 0, len);
    assert(title@ =~= without_md(name@));
    let mut content = String::from_str("---\ntitle: \"");
    content.append(title.as_str());
    content.append("\"\ntags: []\n---\n");
    content
}

} // verus!
