//! The scan of a directory tree as a whole: what a scan finds in a given
//! tree, and that the scanner, driven faithfully, finds exactly that.

use crate::card::{card_of_read, CardView, FileView};
use crate::scan_laws::{all_cards, apply, batches_of, card_added, cards_added, run, Event};
use crate::scanner::{
    hidden, markdown_name, within_depth, EntryView, FrameView, RequestView, ScanState,
};
use vstd::prelude::*;

verus! {

/// An entry of a directory together with what the file system gives for
/// it: what reading it gives, and, for a directory, what listing it gives.
pub struct Node {
    pub entry: EntryView,
    /// What reading the entry gives; nothing where it cannot be read.
    pub file: Option<FileView>,
    /// What listing the entry gives; nothing where it cannot be listed.
    pub listing: Option<Seq<Node>>,
}

/// The entries of a listing.
pub open spec fn entries_of(nodes: Seq<Node>) -> Seq<EntryView> {
    nodes.map_values(|n: Node| n.entry)
}

/// The cards that a scan finds in a directory at level `level` that holds
/// `nodes`, in the order of the walk. `max_depth` is the depth limit, 0 for
/// none.
pub open spec fn cards_in(nodes: Seq<Node>, level: nat, max_depth: nat) -> Seq<CardView>
    decreases nodes,
{
    if nodes.len() == 0 {
        Seq::empty()
    } else {
        cards_in(nodes.drop_last(), level, max_depth) + cards_under(
            nodes.last(),
            level,
            max_depth,
        )
    }
}

/// The cards that a scan finds at and below one entry of a directory at
/// level `level`.
///
/// A hidden entry gives none. A directory gives the cards of its entries,
/// where it lies within the depth limit, has a Unicode path and can be
/// listed. A Markdown file gives its card, where it has one. Any other
/// file gives none.
pub open spec fn cards_under(node: Node, level: nat, max_depth: nat) -> Seq<CardView>
    decreases node,
{
    if hidden(node.entry) {
        Seq::empty()
    } else if node.entry.is_dir {
        if node.entry.unicode && within_depth(max_depth, level + 1) {
            match node.listing {
                Some(children) => cards_in(children, level + 1, max_depth),
                None => Seq::empty(),
            }
        } else {
            Seq::empty()
        }
    } else if markdown_name(node.entry.name) {
        match card_of_read(node.entry.path, node.file) {
            Some(card) => seq![card],
            None => Seq::empty(),
        }
    } else {
        Seq::empty()
    }
}

/// What happens to the scanner while it walks a directory at level `level`
/// that holds `nodes`, where each request is met with what the tree holds.
pub open spec fn events_in(nodes: Seq<Node>, level: nat, max_depth: nat) -> Seq<Event>
    decreases nodes,
{
    if nodes.len() == 0 {
        Seq::empty()
    } else {
        events_in(nodes.drop_last(), level, max_depth) + events_under(
            nodes.last(),
            level,
            max_depth,
        )
    }
}

/// What happens to the scanner from the step that comes to the entry
/// `node` until it is done with it and all that lies below it.
pub open spec fn events_under(node: Node, level: nat, max_depth: nat) -> Seq<Event>
    decreases node,
{
    if hidden(node.entry) {
        seq![Event::Step]
    } else if node.entry.is_dir {
        if node.entry.unicode && within_depth(max_depth, level + 1) {
            match node.listing {
                Some(children) => seq![Event::Step, Event::Listed(Some(entries_of(children)))]
                    + events_in(children, level + 1, max_depth) + seq![Event::Step],
                None => seq![Event::Step, Event::Listed(None)],
            }
        } else {
            seq![Event::Step]
        }
    } else if markdown_name(node.entry.name) {
        seq![Event::Step, Event::Read(node.file)]
    } else {
        seq![Event::Step]
    }
}

/// What happens to the scanner in a whole scan of a root that lists as
/// `root`, or cannot be listed.
pub open spec fn events_of_scan(root: Option<Seq<Node>>, max_depth: nat) -> Seq<Event> {
    match root {
        Some(nodes) => seq![Event::Listed(Some(entries_of(nodes)))] + events_in(
            nodes,
            0,
            max_depth,
        ) + seq![Event::Step],
        None => seq![Event::Listed(None)],
    }
}

/// The cards that a scan of the root finds.
pub open spec fn cards_of_scan(root: Option<Seq<Node>>, max_depth: nat) -> Seq<CardView> {
    match root {
        Some(nodes) => cards_in(nodes, 0, max_depth),
        None => Seq::empty(),
    }
}

/// Running through two runs of events is running through the first and
/// then, from where it ends, through the second.
pub proof fn lemma_run_append(s: ScanState, a: Seq<Event>, b: Seq<Event>)
    ensures
        run(s, a + b).0 == run(run(s, a).0, b).0,
        run(s, a + b).1 == run(s, a).1 + run(run(s, a).0, b).1,
        cards_added(s, a + b) == cards_added(s, a) + cards_added(run(s, a).0, b),
    decreases b.len(),
{
    if b.len() == 0 {
        assert(a + b =~= a);
        assert(run(s, a).1 + run(run(s, a).0, b).1 =~= run(s, a).1);
        assert(cards_added(s, a) + cards_added(run(s, a).0, b) =~= cards_added(s, a));
    } else {
        lemma_run_append(s, a, b.drop_last());
        assert((a + b).drop_last() =~= a + b.drop_last());
        assert((a + b).last() == b.last());
        let mid = run(s, a).0;
        let before = run(mid, b.drop_last());
        let after = apply(before.0, b.last());
        match after.1 {
            Some(batch) => {
                assert(run(s, a).1 + before.1.push(batch) =~= (run(s, a).1 + before.1).push(
                    batch,
                ));
            },
            None => {},
        }
        match card_added(before.0, b.last()) {
            Some(card) => {
                assert(cards_added(s, a) + cards_added(mid, b.drop_last()).push(card) =~= (
                cards_added(s, a) + cards_added(mid, b.drop_last())).push(card));
            },
            None => {},
        }
    }
}

/// A run of one event is that event applied.
pub proof fn lemma_run_one(s: ScanState, event: Event)
    ensures
        run(s, seq![event]).0 == apply(s, event).0,
        cards_added(s, seq![event]) == match card_added(s, event) {
            Some(card) => seq![card],
            None => Seq::empty(),
        },
{
    let one = seq![event];
    assert(one.drop_last() =~= Seq::<Event>::empty());
    assert(one.last() == event);
    assert(run(s, one.drop_last()).0 == s);
    assert(cards_added(s, one.drop_last()) =~= Seq::<CardView>::empty());
    match card_added(s, event) {
        Some(card) => {
            assert(cards_added(s, one) =~= seq![card]);
        },
        None => {},
    }
}

/// The state `s` with the entries of its current directory done up to
/// `next`.
pub open spec fn advanced_to(s: ScanState, next: nat) -> ScanState {
    ScanState {
        stack: s.stack.drop_last().push(FrameView { next, ..s.stack.last() }),
        ..s
    }
}

/// What the walk leaves alone: the depth limit and the directories above
/// the current one. `t` differs from `s` at most in what a walk through
/// the current directory changes.
pub open spec fn walked(s: ScanState, t: ScanState, next: nat) -> bool {
    &&& t.pending is Nothing
    &&& t.max_depth == s.max_depth
    &&& t.stack == advanced_to(s, next).stack
}

/// The scanner walks a directory as `cards_in` says. From a state that
/// has come to the start of a directory at level `level` with the entries
/// of `nodes`, the events of the first `k` entries lead to the state that
/// has come to entry `k`, and add the cards of those entries.
pub proof fn lemma_walk(s: ScanState, nodes: Seq<Node>, k: nat, level: nat)
    requires
        s.pending is Nothing,
        s.stack.len() == level + 1,
        s.stack.last().entries == entries_of(nodes),
        s.stack.last().next == 0,
        k <= nodes.len(),
    ensures
        walked(s, run(s, events_in(nodes.take(k as int), level, s.max_depth)).0, k),
        cards_added(s, events_in(nodes.take(k as int), level, s.max_depth)) == cards_in(
            nodes.take(k as int),
            level,
            s.max_depth,
        ),
    decreases nodes, k,
{
    let max = s.max_depth;
    let done = nodes.take(k as int);
    if k == 0 {
        assert(s.stack.drop_last().push(s.stack.last()) =~= s.stack);
    } else {
        let earlier = nodes.take(k - 1);
        let node = nodes[k - 1];
        assert(done.drop_last() =~= earlier);
        assert(done.last() == node);
        lemma_walk(s, nodes, (k - 1) as nat, level);
        let mid = run(s, events_in(earlier, level, max)).0;
        assert(mid.stack.last() == FrameView { next: (k - 1) as nat, ..s.stack.last() });
        assert(mid.stack.last().entries[k - 1] == node.entry);
        lemma_walk_under(mid, node, level);
        lemma_run_append(s, events_in(earlier, level, max), events_under(node, level, max));
        let end = run(mid, events_under(node, level, max)).0;
        assert(advanced_to(mid, k).stack =~= advanced_to(s, k).stack);
    }
}

/// The scanner deals with one entry as `cards_under` says. From a state
/// that has come to the entry `node`, the events of that entry lead to the
/// state that has come to the next entry, and add the cards of the entry.
pub proof fn lemma_walk_under(s: ScanState, node: Node, level: nat)
    requires
        s.pending is Nothing,
        s.stack.len() == level + 1,
        s.stack.last().next < s.stack.last().entries.len(),
        s.stack.last().entries[s.stack.last().next as int] == node.entry,
    ensures
        walked(
            s,
            run(s, events_under(node, level, s.max_depth)).0,
            s.stack.last().next + 1,
        ),
        cards_added(s, events_under(node, level, s.max_depth)) == cards_under(
            node,
            level,
            s.max_depth,
        ),
    decreases node, 0nat,
{
    let max = s.max_depth;
    let events = events_under(node, level, max);
    let one = seq![Event::Step];
    let stepped = s.step().0;
    lemma_run_one(s, Event::Step);
    let listable = !hidden(node.entry) && node.entry.is_dir && node.entry.unicode && within_depth(
        max,
        level + 1,
    );
    let readable = !hidden(node.entry) && !node.entry.is_dir && markdown_name(node.entry.name);
    if listable {
        match node.listing {
            Some(children) => {
                let listed = seq![Event::Listed(Some(entries_of(children)))];
                let inner = events_in(children, level + 1, max);
                assert(events =~= one + listed + inner + one);
                let entered = stepped.listed(Some(entries_of(children)));
                lemma_run_one(stepped, Event::Listed(Some(entries_of(children))));
                assert(children.take(children.len() as int) =~= children);
                lemma_walk(entered, children, children.len(), level + 1);
                let walked_through = run(entered, inner).0;
                assert(walked_through.stack.last().next >= walked_through.stack.last().entries.len());
                let left = walked_through.step().0;
                lemma_run_one(walked_through, Event::Step);
                assert(left.stack =~= stepped.stack);
                lemma_run_append(s, one, listed);
                lemma_run_append(s, one + listed, inner);
                lemma_run_append(s, one + listed + inner, one);
                assert(cards_added(s, events) =~= cards_under(node, level, max));
            },
            None => {
                let listed = seq![Event::Listed(None)];
                assert(events =~= one + listed);
                lemma_run_one(stepped, Event::Listed(None));
                lemma_run_append(s, one, listed);
                assert(cards_added(s, events) =~= cards_under(node, level, max));
            },
        }
    } else if readable {
        let read = seq![Event::Read(node.file)];
        assert(events =~= one + read);
        lemma_run_one(stepped, Event::Read(node.file));
        lemma_run_append(s, one, read);
        assert(cards_added(s, events) =~= cards_under(node, level, max));
    } else {
        assert(events =~= one);
    }
}

/// A scan finds what the tree holds. Driven with what the tree gives for
/// each request, the scanner ends with nothing left to do, and the cards of
/// all its batches, in their order, are the cards of the tree in the order
/// of the walk; the total is their number.
pub proof fn lemma_scan_finds_the_tree(dir: Seq<char>, depth: nat, root: Option<Seq<Node>>)
    ensures
        ({
            let start = ScanState::start(dir, depth);
            let events = events_of_scan(root, start.max_depth);
            let end = run(start, events).0;
            &&& end.step() == (end, RequestView::Finish)
            &&& all_cards(batches_of(start, events)) == cards_of_scan(root, start.max_depth)
            &&& end.total == cards_of_scan(root, start.max_depth).len()
        }),
{
    let start = ScanState::start(dir, depth);
    let max = start.max_depth;
    let events = events_of_scan(root, max);
    crate::scan_laws::lemma_batches_hold_the_cards(start, events);
    crate::scan_laws::lemma_batch_counts(dir, depth, events);
    match root {
        Some(nodes) => {
            let listed = seq![Event::Listed(Some(entries_of(nodes)))];
            let one = seq![Event::Step];
            let inner = events_in(nodes, 0, max);
            let entered = start.listed(Some(entries_of(nodes)));
            lemma_run_one(start, Event::Listed(Some(entries_of(nodes))));
            assert(nodes.take(nodes.len() as int) =~= nodes);
            lemma_walk(entered, nodes, nodes.len(), 0);
            let walked_through = run(entered, inner).0;
            assert(walked_through.stack.last().next >= walked_through.stack.last().entries.len());
            let left = walked_through.step().0;
            lemma_run_one(walked_through, Event::Step);
            assert(left.stack =~= Seq::<FrameView>::empty());
            lemma_run_append(start, listed, inner);
            lemma_run_append(start, listed + inner, one);
            assert(cards_added(start, events) =~= cards_in(nodes, 0, max));
        },
        None => {
            lemma_run_one(start, Event::Listed(None));
        },
    }
}

/// Where a directory holds only hidden entries, there are no cards in it.
pub proof fn lemma_hidden_entries_hold_no_cards(nodes: Seq<Node>, level: nat, max_depth: nat)
    requires
        forall|i: int| 0 <= i < nodes.len() ==> hidden(#[trigger] nodes[i].entry),
    ensures
        cards_in(nodes, level, max_depth) == Seq::<CardView>::empty(),
    decreases nodes.len(),
{
    if nodes.len() > 0 {
        let head = nodes.drop_last();
        assert forall|i: int| 0 <= i < head.len() implies hidden(#[trigger] head[i].entry) by {
            assert(head[i] == nodes[i]);
        }
        lemma_hidden_entries_hold_no_cards(head, level, max_depth);
        assert(hidden(nodes[nodes.len() - 1].entry));
        assert(cards_under(nodes.last(), level, max_depth) =~= Seq::<CardView>::empty());
        assert(cards_in(nodes, level, max_depth) =~= cards_in(head, level, max_depth)
            + cards_under(nodes.last(), level, max_depth));
    }
}

/// A scan of a directory that holds only hidden entries sends no batch
/// and ends with a total of 0.
pub proof fn lemma_scan_of_hidden_entries(dir: Seq<char>, depth: nat, nodes: Seq<Node>)
    requires
        forall|i: int| 0 <= i < nodes.len() ==> hidden(#[trigger] nodes[i].entry),
    ensures
        ({
            let start = ScanState::start(dir, depth);
            let events = events_of_scan(Some(nodes), start.max_depth);
            let end = run(start, events).0;
            &&& end.step() == (end, RequestView::Finish)
            &&& batches_of(start, events).len() == 0
            &&& end.total == 0
        }),
{
    let start = ScanState::start(dir, depth);
    let events = events_of_scan(Some(nodes), start.max_depth);
    lemma_scan_finds_the_tree(dir, depth, Some(nodes));
    lemma_hidden_entries_hold_no_cards(nodes, 0, start.max_depth);
    crate::scan_laws::lemma_batch_counts(dir, depth, events);
    let batches = batches_of(start, events);
    if batches.len() > 0 {
        assert(batches[batches.len() - 1].cards.len() > 0);
        assert(all_cards(batches).len() >= batches.last().cards.len());
    }
}

/// The tree cut off at a depth: the entries `nodes` of a directory at level
/// `level`, where every directory whose entries would lie at level `depth`
/// or deeper is left without them. What lies at a level less than `depth`
/// stays as it is.
pub open spec fn cut_off(nodes: Seq<Node>, level: nat, depth: nat) -> Seq<Node>
    decreases nodes,
{
    if nodes.len() == 0 {
        Seq::empty()
    } else {
        cut_off(nodes.drop_last(), level, depth).push(cut_off_under(nodes.last(), level, depth))
    }
}

/// One entry of a directory at level `level`, cut off at a depth.
pub open spec fn cut_off_under(node: Node, level: nat, depth: nat) -> Node
    decreases node,
{
    Node {
        listing: if level + 1 < depth {
            match node.listing {
                Some(children) => Some(cut_off(children, level + 1, depth)),
                None => None,
            }
        } else {
            None
        },
        ..node
    }
}

/// The depth limit. A scan with the limit `depth` finds the cards that a
/// scan without a limit finds in the tree cut off at `depth`: every
/// eligible file at a level less than `depth`, and none at level `depth`
/// or deeper.
pub proof fn lemma_limit_cuts_the_tree(nodes: Seq<Node>, level: nat, depth: nat)
    requires
        0 < depth,
        level < depth,
    ensures
        cards_in(nodes, level, depth) == cards_in(cut_off(nodes, level, depth), level, 0),
    decreases nodes, 1nat,
{
    if nodes.len() > 0 {
        let cut = cut_off(nodes, level, depth);
        lemma_limit_cuts_the_tree(nodes.drop_last(), level, depth);
        lemma_limit_cuts_under(nodes.last(), level, depth);
        assert(cut.drop_last() =~= cut_off(nodes.drop_last(), level, depth));
        assert(cut.last() == cut_off_under(nodes.last(), level, depth));
    }
}

/// The depth limit, for one entry.
pub proof fn lemma_limit_cuts_under(node: Node, level: nat, depth: nat)
    requires
        0 < depth,
        level < depth,
    ensures
        cards_under(node, level, depth) == cards_under(cut_off_under(node, level, depth), level, 0),
    decreases node, 0nat,
{
    if level + 1 < depth {
        match node.listing {
            Some(children) => lemma_limit_cuts_the_tree(children, level + 1, depth),
            None => {},
        }
    }
}

/// The depth limit of a scan. With a depth `depth` that is neither 0 nor
/// 5, the scan of a root finds what a scan without a limit finds in the
/// tree cut off at `depth`.
pub proof fn lemma_scan_within_depth(dir: Seq<char>, depth: nat, nodes: Seq<Node>)
    requires
        0 < depth,
        depth != 5,
    ensures
        ({
            let start = ScanState::start(dir, depth);
            let events = events_of_scan(Some(nodes), start.max_depth);
            all_cards(batches_of(start, events)) == cards_in(cut_off(nodes, 0, depth), 0, 0)
        }),
{
    lemma_scan_finds_the_tree(dir, depth, Some(nodes));
    lemma_limit_cuts_the_tree(nodes, 0, depth);
}

/// Scanning again. What a scan finds is a matter of the tree and the depth
/// alone: two scans of the same tree to the same depth find the same
/// cards in the same order, wherever their batches happen to end.
pub proof fn lemma_rescan_finds_the_same(
    first: Seq<char>,
    second: Seq<char>,
    depth: nat,
    root: Option<Seq<Node>>,
)
    ensures
        ({
            let a = ScanState::start(first, depth);
            let b = ScanState::start(second, depth);
            all_cards(batches_of(a, events_of_scan(root, a.max_depth))) == all_cards(
                batches_of(b, events_of_scan(root, b.max_depth)),
            )
        }),
{
    lemma_scan_finds_the_tree(first, depth, root);
    lemma_scan_finds_the_tree(second, depth, root);
}

} // verus!
