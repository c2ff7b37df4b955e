//! What holds of every scan, whatever the directory tree holds and whatever
//! becomes of the requests.

use crate::card::{card_of_read, CardView, FileView};
use crate::scanner::{
    hidden, lemma_listed_well_formed, lemma_read_well_formed, lemma_step_well_formed,
    markdown_name, within_depth, BatchView, EntryView, FrameView, PendingView, RequestView,
    ScanState, BATCH_SIZE,
};
use vstd::prelude::*;

verus! {

/// What happens to a scanner: it takes a step, or it is handed what it
/// asked for.
pub enum Event {
    Step,
    Listed(Option<Seq<EntryView>>),
    Read(Option<FileView>),
}

/// The state after `event`, and the batch that was sent off on it.
pub open spec fn apply(s: ScanState, event: Event) -> (ScanState, Option<BatchView>) {
    match event {
        Event::Step => (s.step().0, None),
        Event::Listed(entries) => (s.listed(entries), None),
        Event::Read(file) => s.read(file),
    }
}

/// The card that `event` adds in state `s`, where it adds one.
pub open spec fn card_added(s: ScanState, event: Event) -> Option<CardView> {
    match (s.pending, event) {
        (PendingView::File(path), Event::Read(file)) => card_of_read(path, file),
        _ => None,
    }
}

/// The state after all of `events`, and the batches sent off on the way.
pub open spec fn run(s: ScanState, events: Seq<Event>) -> (ScanState, Seq<BatchView>)
    decreases events.len(),
{
    if events.len() == 0 {
        (s, Seq::empty())
    } else {
        let before = run(s, events.drop_last());
        let after = apply(before.0, events.last());
        (
            after.0,
            match after.1 {
                Some(batch) => before.1.push(batch),
                None => before.1,
            },
        )
    }
}

/// The cards that `events` add, in their order.
pub open spec fn cards_added(s: ScanState, events: Seq<Event>) -> Seq<CardView>
    decreases events.len(),
{
    if events.len() == 0 {
        Seq::empty()
    } else {
        let before = run(s, events.drop_last());
        match card_added(before.0, events.last()) {
            Some(card) => cards_added(s, events.drop_last()).push(card),
            None => cards_added(s, events.drop_last()),
        }
    }
}

/// All cards of `batches`, batch after batch.
pub open spec fn all_cards(batches: Seq<BatchView>) -> Seq<CardView>
    decreases batches.len(),
{
    if batches.len() == 0 {
        Seq::empty()
    } else {
        all_cards(batches.drop_last()) + batches.last().cards
    }
}

/// All batches of a scan that ends after `events`: those sent off on the
/// way, then the one with the cards that are left.
pub open spec fn batches_of(s: ScanState, events: Seq<Event>) -> Seq<BatchView> {
    let end = run(s, events);
    match end.0.last_batch() {
        Some(batch) => end.1.push(batch),
        None => end.1,
    }
}

/// Every state of a scan is well formed. With a depth limit, no directory
/// at or below the limit is ever walked or asked for.
pub proof fn lemma_run_well_formed(dir: Seq<char>, depth: nat, events: Seq<Event>)
    ensures
        run(ScanState::start(dir, depth), events).0.well_formed(),
        run(ScanState::start(dir, depth), events).0.max_depth == ScanState::start(
            dir,
            depth,
        ).max_depth,
    decreases events.len(),
{
    let start = ScanState::start(dir, depth);
    if events.len() > 0 {
        lemma_run_well_formed(dir, depth, events.drop_last());
        let before = run(start, events.drop_last()).0;
        match events.last() {
            Event::Step => lemma_step_well_formed(before),
            Event::Listed(entries) => lemma_listed_well_formed(before, entries),
            Event::Read(file) => lemma_read_well_formed(before, file),
        }
    }
}

/// The running totals of a scan. Each batch sent off on the way holds 200
/// cards, and its count is the number of all cards up to and with its own.
/// The scanner's total is the number of cards sent off and held.
pub proof fn lemma_running_totals(dir: Seq<char>, depth: nat, events: Seq<Event>)
    ensures
        ({
            let end = run(ScanState::start(dir, depth), events);
            &&& end.0.total == all_cards(end.1).len() + end.0.batch.len()
            &&& all_cards(end.1).len() == BATCH_SIZE * end.1.len()
            &&& forall|i: int|
                0 <= i < end.1.len() ==> (#[trigger] end.1[i]).cards.len() == BATCH_SIZE
                    && end.1[i].scanned_so_far == BATCH_SIZE * (i + 1)
        }),
    decreases events.len(),
{
    let start = ScanState::start(dir, depth);
    if events.len() > 0 {
        lemma_running_totals(dir, depth, events.drop_last());
        lemma_run_well_formed(dir, depth, events.drop_last());
        let before = run(start, events.drop_last());
        let end = run(start, events);
        let after = apply(before.0, events.last());
        if after.1 is Some {
            assert(end.1.drop_last() =~= before.1);
            assert(end.1.last() == after.1->0);
            assert forall|i: int| 0 <= i < end.1.len() implies (#[trigger] end.1[i]).cards.len()
                == BATCH_SIZE && end.1[i].scanned_so_far == BATCH_SIZE * (i + 1) by {
                if i < before.1.len() {
                    assert(end.1[i] == before.1[i]);
                }
            }
        }
    }
}

/// The count of cards never goes down from one batch to the next, and the
/// summary's total is the count of the last batch: the count of the batch
/// before it plus the cards that the last batch holds.
pub proof fn lemma_batch_counts(dir: Seq<char>, depth: nat, events: Seq<Event>)
    ensures
        ({
            let end = run(ScanState::start(dir, depth), events).0;
            let batches = batches_of(ScanState::start(dir, depth), events);
            &&& forall|i: int, j: int|
                0 <= i <= j < batches.len() ==> (#[trigger] batches[i]).scanned_so_far <= (
                #[trigger] batches[j]).scanned_so_far
            &&& forall|i: int|
                0 <= i < batches.len() ==> (#[trigger] batches[i]).scanned_so_far == all_cards(
                    batches.take(i + 1),
                ).len()
            &&& forall|i: int| 0 <= i < batches.len() ==> (#[trigger] batches[i]).cards.len() > 0
            &&& end.total == all_cards(batches).len()
            &&& batches.len() > 0 ==> end.total == batches.last().scanned_so_far
            &&& batches.len() == 0 ==> end.total == 0
        }),
{
    let start = ScanState::start(dir, depth);
    let run_end = run(start, events);
    let end = run_end.0;
    let sent = run_end.1;
    let batches = batches_of(start, events);
    lemma_running_totals(dir, depth, events);
    lemma_run_well_formed(dir, depth, events);
    if end.last_batch() is Some {
        assert(batches.drop_last() =~= sent);
    }
    assert forall|i: int| 0 <= i < batches.len() implies (#[trigger] batches[i]).cards.len()
        > 0 by {
        if i < sent.len() {
            assert(batches[i] == sent[i]);
        }
    }
    assert forall|i: int| 0 <= i < batches.len() implies (#[trigger] batches[i]).scanned_so_far
        == all_cards(batches.take(i + 1)).len() by {
        if i < sent.len() {
            assert(batches[i] == sent[i]);
            assert(batches.take(i + 1) =~= sent.take(i + 1));
            lemma_full_batches(sent, i + 1);
        } else {
            assert(batches.take(i + 1) =~= batches);
        }
    }
    assert forall|i: int, j: int| 0 <= i <= j < batches.len() implies (
    #[trigger] batches[i]).scanned_so_far <= (#[trigger] batches[j]).scanned_so_far by {
        if i < sent.len() {
            assert(batches[i] == sent[i]);
        }
        if j < sent.len() {
            assert(batches[j] == sent[j]);
        }
        assert(BATCH_SIZE * (i + 1) <= BATCH_SIZE * (j + 1)) by (nonlinear_arith)
            requires
                i <= j,
        ;
        if i < sent.len() {
            assert(BATCH_SIZE * sent.len() >= BATCH_SIZE * (i + 1)) by (nonlinear_arith)
                requires
                    i < sent.len(),
            ;
        }
    }
}

/// The first `n` of a list of batches of 200 cards hold 200 times `n`
/// cards.
proof fn lemma_full_batches(batches: Seq<BatchView>, n: int)
    requires
        0 <= n <= batches.len(),
        forall|i: int| 0 <= i < batches.len() ==> (#[trigger] batches[i]).cards.len() == BATCH_SIZE,
    ensures
        all_cards(batches.take(n)).len() == BATCH_SIZE * n,
    decreases n,
{
    if n > 0 {
        lemma_full_batches(batches, n - 1);
        assert(batches.take(n).drop_last() =~= batches.take(n - 1));
        assert(batches.take(n).last() == batches[n - 1]);
    }
}

/// Batching loses no card, adds none and keeps the order: the cards of all
/// batches, one after another, are the cards that were found, as they were
/// found.
pub proof fn lemma_batches_hold_the_cards(s: ScanState, events: Seq<Event>)
    requires
        s.batch.len() == 0,
    ensures
        all_cards(run(s, events).1) + run(s, events).0.batch == cards_added(s, events),
        all_cards(batches_of(s, events)) == cards_added(s, events),
    decreases events.len(),
{
    let end = run(s, events);
    if events.len() == 0 {
        assert(all_cards(end.1) + end.0.batch =~= cards_added(s, events));
    } else {
        lemma_batches_hold_the_cards(s, events.drop_last());
        let before = run(s, events.drop_last());
        let after = apply(before.0, events.last());
        if after.1 is Some {
            assert(end.1.drop_last() =~= before.1);
            assert(end.1.last() == after.1->0);
        }
        assert(all_cards(end.1) + end.0.batch =~= cards_added(s, events));
    }
    if end.0.last_batch() is Some {
        assert(batches_of(s, events).drop_last() =~= end.1);
    } else {
        assert(all_cards(end.1) + end.0.batch =~= all_cards(end.1));
    }
}

/// `n` steps in a row.
pub open spec fn steps(n: nat) -> Seq<Event> {
    Seq::new(n, |i: int| Event::Step)
}

/// Whether every entry is hidden.
pub open spec fn all_hidden(entries: Seq<EntryView>) -> bool {
    forall|i: int| 0 <= i < entries.len() ==> hidden(#[trigger] entries[i])
}

/// Walking through hidden entries asks for nothing: while the current
/// directory has only hidden entries left, each step skips one and asks
/// to go on, and changes nothing else.
pub proof fn lemma_skip_hidden(s: ScanState, n: nat)
    requires
        s.pending is Nothing,
        s.stack.len() > 0,
        s.stack.last().next + n <= s.stack.last().entries.len(),
        forall|i: int|
            s.stack.last().next <= i < s.stack.last().next + n ==> hidden(
                #[trigger] s.stack.last().entries[i],
            ),
    ensures
        run(s, steps(n)).1.len() == 0,
        run(s, steps(n)).0 == (ScanState {
            stack: s.stack.drop_last().push(
                FrameView { next: s.stack.last().next + n, ..s.stack.last() },
            ),
            ..s
        }),
        n > 0 ==> run(s, steps((n - 1) as nat)).0.step().1 == RequestView::Continue,
    decreases n,
{
    if n == 0 {
        assert(s.stack.drop_last().push(s.stack.last()) =~= s.stack);
    } else {
        lemma_skip_hidden(s, (n - 1) as nat);
        assert(steps(n).drop_last() =~= steps((n - 1) as nat));
        let before = run(s, steps((n - 1) as nat)).0;
        let top = before.stack.last();
        assert(top.entries[top.next as int] == s.stack.last().entries[s.stack.last().next + n - 1]);
        assert(before.step().0.stack =~= s.stack.drop_last().push(
            FrameView { next: s.stack.last().next + n, ..s.stack.last() },
        ));
    }
}

/// A scan of a directory that holds only hidden entries finds nothing: no
/// step asks for a directory or a file, no batch is sent off, and after
/// one step per entry and one more the walk is over with a total of 0 and
/// no batch left.
pub proof fn lemma_only_hidden_entries(dir: Seq<char>, depth: nat, entries: Seq<EntryView>)
    requires
        all_hidden(entries),
    ensures
        ({
            let listed = ScanState::start(dir, depth).listed(Some(entries));
            let end = run(listed, steps(entries.len() + 1));
            &&& forall|k: nat|
                k < entries.len() ==> (#[trigger] run(listed, steps(k))).0.step().1
                    == RequestView::Continue
            &&& run(listed, steps(entries.len())).0.step().1 == RequestView::Continue
            &&& end.0.step().1 == RequestView::Finish
            &&& end.1.len() == 0
            &&& end.0.last_batch() is None
            &&& end.0.total == 0
        }),
{
    let listed = ScanState::start(dir, depth).listed(Some(entries));
    let n = entries.len();
    assert(listed.stack.last() == FrameView { entries, next: 0 });
    assert forall|k: nat| k < n implies (#[trigger] run(listed, steps(k))).0.step().1
        == RequestView::Continue by {
        lemma_skip_hidden(listed, k + 1);
        assert(((k + 1) - 1) as nat == k);
    }
    lemma_skip_hidden(listed, n);
    assert(steps(n + 1).drop_last() =~= steps(n));
    let last = run(listed, steps(n)).0;
    assert(last.stack.last().next >= last.stack.last().entries.len());
    assert(last.step().0.stack =~= Seq::empty());
}

/// A scan of a directory that cannot be listed finds nothing: the walk is
/// over at once, with a total of 0 and no batch.
pub proof fn lemma_unlistable_root(dir: Seq<char>, depth: nat)
    ensures
        ({
            let s = ScanState::start(dir, depth).listed(None);
            &&& s.step() == (s, RequestView::Finish)
            &&& s.last_batch() is None
            &&& s.total == 0
        }),
{
}

/// The depth limit. With a limit `d`, every directory that is walked lies
/// less than `d` levels below the root, so every file that is asked for
/// does; and no directory at level `d` or deeper is ever asked for.
pub proof fn lemma_depth_limit(dir: Seq<char>, depth: nat, events: Seq<Event>)
    requires
        0 < depth,
        depth != 5,
    ensures
        ({
            let s = run(ScanState::start(dir, depth), events).0;
            &&& s.stack.len() <= depth
            &&& s.pending is Listing ==> s.stack.len() < depth
            &&& s.step().1 is Read ==> 1 <= s.stack.len() <= depth
            &&& s.step().1 is List ==> s.step().0.stack.len() < depth
        }),
{
    lemma_run_well_formed(dir, depth, events);
    let s = run(ScanState::start(dir, depth), events).0;
    lemma_step_well_formed(s);
}

/// Nothing that is eligible is left out. Of a directory that is walked,
/// the step that comes to an entry asks for it to be read where it is a
/// Markdown file that is not hidden, and asks for it to be listed where it
/// is a directory that is not hidden, has a Unicode path and lies within
/// the depth limit; and it then moves on to the next entry.
pub proof fn lemma_eligible_entries_are_taken(s: ScanState)
    requires
        s.pending is Nothing,
        s.stack.len() > 0,
        s.stack.last().next < s.stack.last().entries.len(),
    ensures
        ({
            let e = s.stack.last().entries[s.stack.last().next as int];
            let after = s.step();
            &&& after.0.stack.len() == s.stack.len()
            &&& after.0.stack.last().next == s.stack.last().next + 1
            &&& after.0.stack.last().entries == s.stack.last().entries
            &&& !hidden(e) && !e.is_dir && markdown_name(e.name) ==> after.1 == (RequestView::Read {
                path: e.path,
            })
            &&& !hidden(e) && e.is_dir && e.unicode && within_depth(s.max_depth, s.stack.len())
                ==> after.1 == (RequestView::List { path: e.path })
            &&& hidden(e) ==> after.1 == RequestView::Continue
        }),
{
}

} // verus!
