//! Tag lists: the lexicographic order on text, and merging tags into a
//! sorted list without duplicates.

use crate::text::{to_chars, to_text};
use vstd::prelude::*;
use vstd::utf8::char_u32_cast;

verus! {

/// The texts of a list of strings.
pub open spec fn strings(v: Seq<String>) -> Seq<Seq<char>> {
    v.map_values(|s: String| s@)
}

/// The texts of a list of character vectors.
pub open spec fn texts(v: Seq<Vec<char>>) -> Seq<Seq<char>> {
    v.map_values(|s: Vec<char>| s@)
}

/// Whether `a` comes before `b` when both are compared from index `i` on.
pub open spec fn less_from(a: Seq<char>, b: Seq<char>, i: int) -> bool
    decreases a.len() - i,
{
    if i < 0 || i >= b.len() {
        false
    } else if i >= a.len() {
        true
    } else if a[i] != b[i] {
        (a[i] as u32) < (b[i] as u32)
    } else {
        less_from(a, b, i + 1)
    }
}

/// The lexicographic order by code point: `a` comes strictly before `b`.
/// A proper prefix comes before the longer text.
pub open spec fn text_less(a: Seq<char>, b: Seq<char>) -> bool {
    less_from(a, b, 0)
}

/// Sorted ascending with no duplicates.
pub open spec fn strictly_increasing(s: Seq<Seq<char>>) -> bool {
    forall|i: int, j: int| 0 <= i < j < s.len() ==> text_less(#[trigger] s[i], #[trigger] s[j])
}

/// `s` with `t` put in its place; `s` itself where it holds `t` already.
/// `s` is meant to be strictly increasing.
pub open spec fn insert_sorted(s: Seq<Seq<char>>, t: Seq<char>) -> Seq<Seq<char>>
    decreases s.len(),
{
    if s.len() == 0 {
        seq![t]
    } else if s.last() == t {
        s
    } else if text_less(s.last(), t) {
        s.push(t)
    } else {
        insert_sorted(s.drop_last(), t).push(s.last())
    }
}

/// The tags of `tags` sorted ascending, each once.
pub open spec fn sort_unique(tags: Seq<Seq<char>>) -> Seq<Seq<char>>
    decreases tags.len(),
{
    if tags.len() == 0 {
        Seq::empty()
    } else {
        insert_sorted(sort_unique(tags.drop_last()), tags.last())
    }
}

/// No text comes before itself.
pub proof fn lemma_less_irreflexive(a: Seq<char>, i: int)
    ensures
        !less_from(a, a, i),
    decreases a.len() - i,
{
    if 0 <= i < a.len() {
        lemma_less_irreflexive(a, i + 1);
    }
}

/// Of two texts at most one comes before the other.
pub proof fn lemma_less_asymmetric(a: Seq<char>, b: Seq<char>, i: int)
    requires
        less_from(a, b, i),
    ensures
        !less_from(b, a, i),
    decreases a.len() - i,
{
    if 0 <= i < a.len() && i < b.len() && a[i] == b[i] {
        lemma_less_asymmetric(a, b, i + 1);
    }
}

/// What comes before a text comes before all that the text comes before.
pub proof fn lemma_less_transitive(a: Seq<char>, b: Seq<char>, c: Seq<char>, i: int)
    requires
        less_from(a, b, i),
        less_from(b, c, i),
    ensures
        less_from(a, c, i),
    decreases a.len() - i,
{
    if 0 <= i < a.len() && a[i] == b[i] && b[i] == c[i] {
        lemma_less_transitive(a, b, c, i + 1);
    }
}

/// Two texts that agree before index `i` are equal, or one comes before
/// the other.
pub proof fn lemma_less_total(a: Seq<char>, b: Seq<char>, i: int)
    requires
        0 <= i <= a.len(),
        i <= b.len(),
        a.take(i) == b.take(i),
    ensures
        less_from(a, b, i) || less_from(b, a, i) || a == b,
    decreases a.len() - i,
{
    if i < a.len() && i < b.len() {
        if a[i] == b[i] {
            assert(a.take(i + 1) =~= a.take(i).push(a[i]));
            assert(b.take(i + 1) =~= b.take(i).push(b[i]));
            lemma_less_total(a, b, i + 1);
        } else if a[i] as u32 == b[i] as u32 {
            char_u32_cast(a[i], a[i] as u32);
            char_u32_cast(b[i], b[i] as u32);
        }
    } else if i == a.len() && i == b.len() {
        assert(a =~= a.take(i));
        assert(b =~= b.take(i));
    }
}

/// The order on text is a strict total order.
pub proof fn lemma_text_order(a: Seq<char>, b: Seq<char>, c: Seq<char>)
    ensures
        !text_less(a, a),
        text_less(a, b) ==> !text_less(b, a),
        text_less(a, b) && text_less(b, c) ==> text_less(a, c),
        text_less(a, b) || text_less(b, a) || a == b,
{
    lemma_less_irreflexive(a, 0);
    if text_less(a, b) {
        lemma_less_asymmetric(a, b, 0);
        if text_less(b, c) {
            lemma_less_transitive(a, b, c, 0);
        }
    }
    assert(a.take(0) =~= b.take(0));
    lemma_less_total(a, b, 0);
}

/// Putting a tag in its place keeps a sorted list sorted and adds that tag
/// and no other.
pub proof fn lemma_insert_sorted(s: Seq<Seq<char>>, t: Seq<char>)
    requires
        strictly_increasing(s),
    ensures
        strictly_increasing(insert_sorted(s, t)),
        forall|x: Seq<char>|
            #![trigger insert_sorted(s, t).contains(x)]
            #![trigger s.contains(x)]
            insert_sorted(s, t).contains(x) <==> s.contains(x) || x == t,
        insert_sorted(s, t).contains(t),
        s.len() <= insert_sorted(s, t).len() <= s.len() + 1,
    decreases s.len(),
{
    let r = insert_sorted(s, t);
    if s.len() == 0 {
        assert(r[0] == t);
        assert forall|x: Seq<char>| r.contains(x) <==> s.contains(x) || x == t by {
            if r.contains(x) {
                let k = choose|k: int| 0 <= k < r.len() && r[k] == x;
            }
        }
    } else if s.last() == t {
        assert(s[s.len() - 1] == t);
    } else if text_less(s.last(), t) {
        assert forall|i: int, j: int| 0 <= i < j < r.len() implies text_less(
            #[trigger] r[i],
            #[trigger] r[j],
        ) by {
            if j == s.len() {
                if i < s.len() - 1 {
                    assert(text_less(s[i], s[s.len() - 1]));
                    lemma_text_order(s[i], s.last(), t);
                }
            } else {
                assert(text_less(s[i], s[j]));
            }
        }
        assert forall|x: Seq<char>| r.contains(x) <==> s.contains(x) || x == t by {
            if r.contains(x) {
                let k = choose|k: int| 0 <= k < r.len() && r[k] == x;
                if k < s.len() {
                    assert(s[k] == x);
                }
            }
            if s.contains(x) {
                let k = choose|k: int| 0 <= k < s.len() && s[k] == x;
                assert(r[k] == x);
            }
            if x == t {
                assert(r[s.len() as int] == x);
            }
        }
    } else {
        let head = s.drop_last();
        let last = s.last();
        assert forall|i: int, j: int| 0 <= i < j < head.len() implies text_less(
            #[trigger] head[i],
            #[trigger] head[j],
        ) by {
            assert(text_less(s[i], s[j]));
        }
        lemma_insert_sorted(head, t);
        let inner = insert_sorted(head, t);
        lemma_text_order(last, t, t);
        assert(text_less(t, last));
        assert forall|i: int, j: int| 0 <= i < j < r.len() implies text_less(
            #[trigger] r[i],
            #[trigger] r[j],
        ) by {
            if j == inner.len() {
                assert(inner.contains(inner[i]));
                if inner[i] != t {
                    let k = choose|k: int| 0 <= k < head.len() && head[k] == inner[i];
                    assert(text_less(s[k], s[s.len() - 1]));
                }
            } else {
                assert(text_less(inner[i], inner[j]));
            }
        }
        assert forall|x: Seq<char>| r.contains(x) <==> s.contains(x) || x == t by {
            if r.contains(x) {
                let k = choose|k: int| 0 <= k < r.len() && r[k] == x;
                if k < inner.len() {
                    assert(inner.contains(x));
                    if x != t {
                        let m = choose|m: int| 0 <= m < head.len() && head[m] == x;
                        assert(s[m] == x);
                    }
                } else {
                    assert(s[s.len() - 1] == x);
                }
            }
            if s.contains(x) {
                let k = choose|k: int| 0 <= k < s.len() && s[k] == x;
                if k < head.len() {
                    assert(head[k] == x);
                    assert(inner.contains(x));
                    let m = choose|m: int| 0 <= m < inner.len() && inner[m] == x;
                    assert(r[m] == x);
                } else {
                    assert(r[inner.len() as int] == x);
                }
            }
            if x == t {
                assert(inner.contains(t));
                let m = choose|m: int| 0 <= m < inner.len() && inner[m] == t;
                assert(r[m] == x);
            }
        }
    }
}

/// A sorted tag list is sorted ascending without duplicates and holds
/// exactly the tags it was made from.
pub proof fn lemma_sort_unique(tags: Seq<Seq<char>>)
    ensures
        strictly_increasing(sort_unique(tags)),
        forall|x: Seq<char>|
            #![trigger sort_unique(tags).contains(x)]
            #![trigger tags.contains(x)]
            sort_unique(tags).contains(x) <==> tags.contains(x),
        sort_unique(tags).len() <= tags.len(),
    decreases tags.len(),
{
    if tags.len() > 0 {
        let head = tags.drop_last();
        lemma_sort_unique(head);
        lemma_insert_sorted(sort_unique(head), tags.last());
        assert forall|x: Seq<char>| sort_unique(tags).contains(x) <==> tags.contains(x) by {
            if tags.contains(x) {
                let k = choose|k: int| 0 <= k < tags.len() && tags[k] == x;
                if k < head.len() {
                    assert(head[k] == x);
                }
            }
            if head.contains(x) {
                let k = choose|k: int| 0 <= k < head.len() && head[k] == x;
                assert(tags[k] == x);
            }
            if x == tags.last() {
                assert(tags[tags.len() - 1] == x);
            }
        }
    }
}

/// Two lists that are sorted ascending without duplicates and hold the same
/// tags are the same list.
pub proof fn lemma_strictly_increasing_unique(a: Seq<Seq<char>>, b: Seq<Seq<char>>)
    requires
        strictly_increasing(a),
        strictly_increasing(b),
        forall|x: Seq<char>| a.contains(x) <==> b.contains(x),
    ensures
        a == b,
    decreases a.len(),
{
    if a.len() == 0 {
        if b.len() > 0 {
            assert(b.contains(b[0]));
        }
        assert(a =~= b);
    } else {
        let x = a.last();
        assert(a.contains(a[a.len() - 1]));
        assert(b.contains(x));
        let k = choose|k: int| 0 <= k < b.len() && b[k] == x;
        if k < b.len() - 1 {
            let y = b.last();
            assert(text_less(b[k], b[b.len() - 1]));
            assert(b.contains(b[b.len() - 1]));
            let m = choose|m: int| 0 <= m < a.len() && a[m] == y;
            lemma_text_order(x, y, x);
            if m < a.len() - 1 {
                assert(text_less(a[m], a[a.len() - 1]));
            }
        }
        let a0 = a.drop_last();
        let b0 = b.drop_last();
        assert forall|z: Seq<char>| a0.contains(z) <==> b0.contains(z) by {
            if a0.contains(z) {
                let i = choose|i: int| 0 <= i < a0.len() && a0[i] == z;
                assert(text_less(a[i], a[a.len() - 1]));
                lemma_text_order(z, x, x);
                assert(a.contains(a[i]));
                let j = choose|j: int| 0 <= j < b.len() && b[j] == z;
                assert(b0[j] == z);
            }
            if b0.contains(z) {
                let i = choose|i: int| 0 <= i < b0.len() && b0[i] == z;
                assert(text_less(b[i], b[b.len() - 1]));
                lemma_text_order(z, x, x);
                assert(b.contains(b[i]));
                let j = choose|j: int| 0 <= j < a.len() && a[j] == z;
                assert(a0[j] == z);
            }
        }
        assert forall|i: int, j: int| 0 <= i < j < a0.len() implies text_less(
            #[trigger] a0[i],
            #[trigger] a0[j],
        ) by {
            assert(text_less(a[i], a[j]));
        }
        assert forall|i: int, j: int| 0 <= i < j < b0.len() implies text_less(
            #[trigger] b0[i],
            #[trigger] b0[j],
        ) by {
            assert(text_less(b[i], b[j]));
        }
        lemma_strictly_increasing_unique(a0, b0);
        assert(a =~= a0.push(x));
        assert(b =~= b0.push(x));
    }
}

/// Whether `a` and `b` are the same text.
pub fn same_text(a: &Vec<char>, b: &Vec<char>) -> (same: bool)
    ensures
        same == (a@ == b@),
{
    if a.len() != b.len() {
        return false;
    }
    let mut i: usize = 0;
    while i < a.len()
        invariant
            i <= a.len(),
            a.len() == b.len(),
            forall|j: int| 0 <= j < i ==> a@[j] == b@[j],
        decreases a.len() - i,
    {
        if a[i] != b[i] {
            return false;
        }
        i += 1;
    }
    assert(a@ =~= b@);
    true
}

/// Whether `a` comes before `b` in the lexicographic order by code point.
pub fn comes_before(a: &Vec<char>, b: &Vec<char>) -> (before: bool)
    ensures
        before == text_less(a@, b@),
{
    let mut i: usize = 0;
    loop
        invariant
            i <= a.len(),
            text_less(a@, b@) == less_from(a@, b@, i as int),
        decreases a.len() - i,
    {
        if i >= b.len() {
            return false;
        }
        if i >= a.len() {
            return true;
        }
        if a[i] != b[i] {
            return (a[i] as u32) < (b[i] as u32);
        }
        i += 1;
    }
}

/// Puts `tag` in its place in the sorted list, unless the list holds it.
pub fn insert_tag(sorted: &mut Vec<Vec<char>>, tag: Vec<char>)
    ensures
        texts(final(sorted)@) == insert_sorted(texts(old(sorted)@), tag@),
{
    let ghost before = texts(sorted@);
    let mut i: usize = sorted.len();
    proof {
        assert(before.take(i as int) =~= before);
        assert(insert_sorted(before, tag@) + before.skip(i as int) =~= insert_sorted(before, tag@));
    }
    loop
        invariant
            i <= sorted.len(),
            sorted@ == old(sorted)@,
            before == texts(sorted@),
            insert_sorted(before, tag@) == insert_sorted(before.take(i as int), tag@) + before.skip(
                i as int,
            ),
        ensures
            i == 0 || before[i - 1] == tag@ || text_less(before[i - 1], tag@),
        decreases i,
    {
        if i == 0 {
            break;
        }
        if same_text(&sorted[i - 1], &tag) || comes_before(&sorted[i - 1], &tag) {
            break;
        }
        proof {
            let head = before.take(i as int);
            assert(head.last() == before[i - 1]);
            assert(head.drop_last() =~= before.take(i - 1));
            assert(insert_sorted(head.drop_last(), tag@).push(head.last()) + before.skip(i as int)
                =~= insert_sorted(before.take(i - 1), tag@) + before.skip(i - 1));
        }
        i -= 1;
    }
    let ghost head = before.take(i as int);
    if i > 0 && same_text(&sorted[i - 1], &tag) {
        proof {
            assert(head.last() == before[i - 1]);
            assert(head + before.skip(i as int) =~= before);
        }
    } else {
        proof {
            if i > 0 {
                assert(head.last() == before[i - 1]);
            }
            assert(insert_sorted(head, tag@) == head.push(tag@));
            assert(texts(sorted@.insert(i as int, tag)) =~= head.push(tag@) + before.skip(
                i as int,
            ));
        }
        sorted.insert(i, tag);
    }
}

/// All tags of `listed` and `inline` together, sorted ascending, each once.
pub fn merge_tags(listed: &Vec<String>, inline: &Vec<String>) -> (tags: Vec<String>)
    ensures
        strings(tags@) == sort_unique(strings(listed@) + strings(inline@)),
        strictly_increasing(strings(tags@)),
        forall|t: Seq<char>|
            strings(tags@).contains(t) <==> strings(listed@).contains(t) || strings(
                inline@,
            ).contains(t),
{
    let ghost all = strings(listed@) + strings(inline@);
    let mut sorted: Vec<Vec<char>> = Vec::new();
    let mut i: usize = 0;
    while i < listed.len()
        invariant
            i <= listed.len(),
            all == strings(listed@) + strings(inline@),
            texts(sorted@) == sort_unique(all.take(i as int)),
        decreases listed.len() - i,
    {
        proof {
            assert(all.take(i + 1).drop_last() =~= all.take(i as int));
            assert(all.take(i + 1).last() == listed@[i as int]@);
        }
        insert_tag(&mut sorted, to_chars(listed[i].as_str()));
        i += 1;
    }
    let mut k: usize = 0;
    while k < inline.len()
        invariant
            k <= inline.len(),
            all == strings(listed@) + strings(inline@),
            texts(sorted@) == sort_unique(all.take(listed.len() + k)),
        decreases inline.len() - k,
    {
        proof {
            assert(all.take(listed.len() + k + 1).drop_last() =~= all.take(listed.len() + k));
            assert(all.take(listed.len() + k + 1).last() == inline@[k as int]@);
        }
        insert_tag(&mut sorted, to_chars(inline[k].as_str()));
        k += 1;
    }
    proof {
        assert(all.take(listed.len() + inline.len()) =~= all);
        lemma_sort_unique(all);
        assert forall|t: Seq<char>|
            all.contains(t) <==> strings(listed@).contains(t) || strings(inline@).contains(t) by {
            let l = strings(listed@);
            let r = strings(inline@);
            if all.contains(t) {
                let j = choose|j: int| 0 <= j < all.len() && all[j] == t;
                if j < l.len() {
                    assert(l[j] == t);
                } else {
                    assert(r[j - l.len()] == t);
                }
            }
            if l.contains(t) {
                let j = choose|j: int| 0 <= j < l.len() && l[j] == t;
                assert(all[j] == t);
            }
            if r.contains(t) {
                let j = choose|j: int| 0 <= j < r.len() && r[j] == t;
                assert(all[l.len() + j] == t);
            }
        }
    }
    let mut tags: Vec<String> = Vec::new();
    let mut j: usize = 0;
    while j < sorted.len()
        invariant
            j <= sorted.len(),
            tags.len() == j,
            strings(tags@) == texts(sorted@).take(j as int),
        decreases sorted.len() - j,
    {
        let tag = to_text(&sorted[j], 0, sorted[j].len());
        proof {
            assert(tag@ =~= sorted@[j as int]@);
            assert forall|k: int| 0 <= k < j + 1 implies strings(tags@.push(tag))[k] == texts(
                sorted@,
            ).take(j + 1)[k] by {
                if k < j {
                    assert(strings(tags@)[k] == texts(sorted@).take(j as int)[k]);
                    assert(tags@.push(tag)[k] == tags@[k]);
                } else {
                    assert(tags@.push(tag)[k] == tag);
                    assert(texts(sorted@)[k] == sorted@[k]@);
                }
            }
            assert(strings(tags@.push(tag)) =~= texts(sorted@).take(j + 1));
        }
        tags.push(tag);
        j += 1;
    }
    proof {
        assert(texts(sorted@).take(sorted.len() as int) =~= texts(sorted@));
    }
    tags
}

} // verus!
