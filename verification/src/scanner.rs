//! The tree scanner: a depth-bounded walk over a directory tree that builds
//! a card for each Markdown file and reports the cards in batches.
//!
//! The scanner does no input or output itself. It is a machine that says
//! what to do next (list a directory, read a file) and takes what came of
//! it; whoever drives it performs the requests in the order they are made.

use crate::card::{
    card_of_read, extension_of, find_extension_dot, optional_file, parse_single_file, CardMeta,
    CardView, FileRead, FileView,
};
use crate::text::to_chars;
use vstd::prelude::*;

verus! {

/// How many cards a batch holds when it is sent off during the walk.
pub const BATCH_SIZE: usize = 200;

/// The depth that asks for a walk without a depth limit.
pub const UNLIMITED: u32 = 5;

/// One entry of a directory, as it was listed.
pub struct DirEntry {
    /// The entry's name; where it is not valid Unicode, with replacement
    /// characters.
    pub name: String,
    /// Whether the entry's name is valid Unicode.
    pub unicode: bool,
    /// The entry's path, the directory's path joined with the name.
    pub path: String,
    /// Whether the entry is a directory.
    pub is_dir: bool,
}

/// A directory entry as text.
pub struct EntryView {
    pub name: Seq<char>,
    pub unicode: bool,
    pub path: Seq<char>,
    pub is_dir: bool,
}

impl View for DirEntry {
    type V = EntryView;

    open spec fn view(&self) -> EntryView {
        EntryView { name: self.name@, unicode: self.unicode, path: self.path@, is_dir: self.is_dir }
    }
}

/// The views of a list of entries.
pub open spec fn entries_view(v: Seq<DirEntry>) -> Seq<EntryView> {
    v.map_values(|e: DirEntry| e@)
}

/// The views of a list of cards.
pub open spec fn cards_view(v: Seq<CardMeta>) -> Seq<CardView> {
    v.map_values(|c: CardMeta| c@)
}

/// A group of cards, with the number of cards found so far in the scan.
pub struct ScanBatch {
    pub cards: Vec<CardMeta>,
    pub scanned_so_far: usize,
}

/// A batch as a sequence of cards and a count.
pub struct BatchView {
    pub cards: Seq<CardView>,
    pub scanned_so_far: nat,
}

impl View for ScanBatch {
    type V = BatchView;

    open spec fn view(&self) -> BatchView {
        BatchView { cards: cards_view(self.cards@), scanned_so_far: self.scanned_so_far as nat }
    }
}

/// The summary that ends a scan.
#[derive(Clone, Copy, Debug, PartialEq, Eq)]
pub struct ScanComplete {
    pub total_files: usize,
    pub duration_ms: u64,
}

/// What the driver of a scan does next.
pub enum Request {
    /// Call `process_entries` again.
    Continue,
    /// List the directory at `path` and hand the entries to
    /// `directory_listed`.
    List { path: String },
    /// Read the file at `path` and hand it to `file_read`.
    Read { path: String },
    /// The walk is over: call `finish`.
    Finish,
}

/// A request as text.
pub enum RequestView {
    Continue,
    List { path: Seq<char> },
    Read { path: Seq<char> },
    Finish,
}

impl View for Request {
    type V = RequestView;

    open spec fn view(&self) -> RequestView {
        match self {
            Request::Continue => RequestView::Continue,
            Request::List { path } => RequestView::List { path: path@ },
            Request::Read { path } => RequestView::Read { path: path@ },
            Request::Finish => RequestView::Finish,
        }
    }
}

/// A directory that is being walked: its entries, and how many of them are
/// done.
pub struct FrameView {
    pub entries: Seq<EntryView>,
    pub next: nat,
}

/// What the scanner waits for.
pub enum PendingView {
    Nothing,
    /// The entries of the directory at this path.
    Listing(Seq<char>),
    /// The file at this path.
    File(Seq<char>),
}

/// The state of a scan.
pub struct ScanState {
    /// The depth limit; 0 for none.
    pub max_depth: nat,
    /// The directories that are being walked, the root first. The depth of
    /// a directory is its index.
    pub stack: Seq<FrameView>,
    /// The cards found and not yet sent off.
    pub batch: Seq<CardView>,
    /// The number of cards found.
    pub total: nat,
    /// The number of files seen that are not hidden.
    pub files_checked: nat,
    /// The number of those that are no Markdown files.
    pub non_md_files: nat,
    /// The number of Markdown files that gave no card.
    pub parse_failures: nat,
    pub pending: PendingView,
}

/// Whether the name marks a hidden entry: it begins with a dot.
pub open spec fn hidden_name(name: Seq<char>) -> bool {
    name.len() > 0 && name[0] == '.'
}

/// Whether the entry is skipped as hidden.
pub open spec fn hidden(e: EntryView) -> bool {
    e.unicode && hidden_name(e.name)
}

/// Whether the name is that of a Markdown file: its extension is `md`.
pub open spec fn markdown_name(name: Seq<char>) -> bool {
    extension_of(name) == Some(seq!['m', 'd'])
}

/// The depth limit that a requested depth stands for: none for the
/// reserved value 5, the value itself otherwise.
pub open spec fn depth_limit(depth: nat) -> nat {
    if depth == UNLIMITED {
        0
    } else {
        depth
    }
}

/// Whether a directory at depth `depth` is walked under the limit
/// `max_depth`.
pub open spec fn within_depth(max_depth: nat, depth: nat) -> bool {
    max_depth == 0 || depth < max_depth
}

impl ScanState {
    /// The state of a scanner that has nothing to do: no depth limit, no
    /// directory being walked, no cards held or counted, and nothing
    /// awaited.
    pub open spec fn idle() -> ScanState {
        ScanState {
            max_depth: 0,
            stack: Seq::empty(),
            batch: Seq::empty(),
            total: 0,
            files_checked: 0,
            non_md_files: 0,
            parse_failures: 0,
            pending: PendingView::Nothing,
        }
    }

    /// The state in which a scan of `dir` starts: the root is to be listed.
    pub open spec fn start(dir: Seq<char>, depth: nat) -> ScanState {
        ScanState {
            max_depth: depth_limit(depth),
            stack: Seq::empty(),
            batch: Seq::empty(),
            total: 0,
            files_checked: 0,
            non_md_files: 0,
            parse_failures: 0,
            pending: PendingView::Listing(dir),
        }
    }

    pub open spec fn well_formed(self) -> bool {
        &&& self.batch.len() < BATCH_SIZE
        &&& self.batch.len() <= self.total
        &&& self.max_depth > 0 ==> self.stack.len() <= self.max_depth
        &&& self.max_depth > 0 && self.pending is Listing ==> self.stack.len() < self.max_depth
        &&& self.pending is File ==> self.stack.len() > 0
        &&& forall|i: int|
            0 <= i < self.stack.len() ==> (#[trigger] self.stack[i]).next
                <= self.stack[i].entries.len()
    }

    /// Whether each counter can still count one more.
    pub open spec fn has_room(self) -> bool {
        &&& self.total < usize::MAX
        &&& self.files_checked < usize::MAX
        &&& self.non_md_files < usize::MAX
        &&& self.parse_failures < usize::MAX
    }

    /// The request that is open, where the scanner waits for something.
    pub open spec fn open_request(self) -> RequestView {
        match self.pending {
            PendingView::Nothing => RequestView::Continue,
            PendingView::Listing(path) => RequestView::List { path },
            PendingView::File(path) => RequestView::Read { path },
        }
    }

    /// The state with the current directory's next entry marked as done.
    pub open spec fn entry_done(self) -> ScanState {
        let top = self.stack.last();
        ScanState {
            stack: self.stack.drop_last().push(FrameView { next: top.next + 1, ..top }),
            ..self
        }
    }

    /// One step of the walk: handles the next entry of the current
    /// directory, or leaves the directory where none is left.
    ///
    /// A hidden entry is skipped. A directory is to be listed where it lies
    /// within the depth limit and its path is valid Unicode. A file is
    /// counted, and is to be read where it is a Markdown file. While the
    /// scanner waits for a listing or a file, the step changes nothing and
    /// asks for it again.
    pub open spec fn step(self) -> (ScanState, RequestView) {
        if !(self.pending is Nothing) {
            (self, self.open_request())
        } else if self.stack.len() == 0 {
            (self, RequestView::Finish)
        } else {
            let top = self.stack.last();
            if top.next >= top.entries.len() {
                (ScanState { stack: self.stack.drop_last(), ..self }, RequestView::Continue)
            } else {
                let e = top.entries[top.next as int];
                let done = self.entry_done();
                if hidden(e) {
                    (done, RequestView::Continue)
                } else if e.is_dir {
                    if e.unicode && within_depth(self.max_depth, self.stack.len()) {
                        (
                            ScanState { pending: PendingView::Listing(e.path), ..done },
                            RequestView::List { path: e.path },
                        )
                    } else {
                        (done, RequestView::Continue)
                    }
                } else if markdown_name(e.name) {
                    (
                        ScanState {
                            files_checked: done.files_checked + 1,
                            pending: PendingView::File(e.path),
                            ..done
                        },
                        RequestView::Read { path: e.path },
                    )
                } else {
                    (
                        ScanState {
                            files_checked: done.files_checked + 1,
                            non_md_files: done.non_md_files + 1,
                            ..done
                        },
                        RequestView::Continue,
                    )
                }
            }
        }
    }

    /// Takes the listing that was asked for: the directory's entries are
    /// walked next. A directory that could not be listed adds nothing.
    /// Where no listing is awaited, nothing changes.
    pub open spec fn listed(self, entries: Option<Seq<EntryView>>) -> ScanState {
        if self.pending is Listing {
            match entries {
                Some(es) => ScanState {
                    stack: self.stack.push(FrameView { entries: es, next: 0 }),
                    pending: PendingView::Nothing,
                    ..self
                },
                None => ScanState { pending: PendingView::Nothing, ..self },
            }
        } else {
            self
        }
    }

    /// Takes the file that was asked for. Its card joins the batch and is
    /// counted; a file that gives no card is counted as a failure. A batch
    /// that has reached 200 cards is sent off. Where no file is awaited,
    /// nothing changes.
    pub open spec fn read(self, file: Option<FileView>) -> (ScanState, Option<BatchView>) {
        match self.pending {
            PendingView::File(path) => match card_of_read(path, file) {
                Some(card) => {
                    let batch = self.batch.push(card);
                    let total = self.total + 1;
                    if batch.len() >= BATCH_SIZE {
                        (
                            ScanState {
                                batch: Seq::empty(),
                                total,
                                pending: PendingView::Nothing,
                                ..self
                            },
                            Some(BatchView { cards: batch, scanned_so_far: total }),
                        )
                    } else {
                        (ScanState { batch, total, pending: PendingView::Nothing, ..self }, None)
                    }
                },
                None => (
                    ScanState {
                        parse_failures: self.parse_failures + 1,
                        pending: PendingView::Nothing,
                        ..self
                    },
                    None,
                ),
            },
            _ => (self, None),
        }
    }

    /// The cards that are left, where any are.
    pub open spec fn last_batch(self) -> Option<BatchView> {
        if self.batch.len() > 0 {
            Some(BatchView { cards: self.batch, scanned_so_far: self.total })
        } else {
            None
        }
    }
}

/// The scanner's state: the directories it is in, the batch it is filling
/// and its counts.
pub struct Scanner {
    max_depth: u32,
    stack: Vec<Frame>,
    batch: Vec<CardMeta>,
    total: usize,
    files_checked: usize,
    non_md_files: usize,
    parse_failures: usize,
    pending: Pending,
}

struct Frame {
    entries: Vec<DirEntry>,
    next: usize,
}

enum Pending {
    Nothing,
    Listing(String),
    File(String),
}

impl View for Frame {
    type V = FrameView;

    closed spec fn view(&self) -> FrameView {
        FrameView { entries: entries_view(self.entries@), next: self.next as nat }
    }
}

impl View for Pending {
    type V = PendingView;

    closed spec fn view(&self) -> PendingView {
        match self {
            Pending::Nothing => PendingView::Nothing,
            Pending::Listing(path) => PendingView::Listing(path@),
            Pending::File(path) => PendingView::File(path@),
        }
    }
}

impl View for Scanner {
    type V = ScanState;

    closed spec fn view(&self) -> ScanState {
        ScanState {
            max_depth: self.max_depth as nat,
            stack: self.stack@.map_values(|f: Frame| f@),
            batch: cards_view(self.batch@),
            total: self.total as nat,
            files_checked: self.files_checked as nat,
            non_md_files: self.non_md_files as nat,
            parse_failures: self.parse_failures as nat,
            pending: self.pending@,
        }
    }
}

/// Whether a name marks a hidden entry.
pub fn is_hidden_name(name: &str) -> (yes: bool)
    ensures
        yes == hidden_name(name@),
{
    let chars = to_chars(name);
    chars.len() > 0 && chars[0] == '.'
}

/// Whether a name is that of a Markdown file.
pub fn is_markdown_name(name: &str) -> (yes: bool)
    ensures
        yes == markdown_name(name@),
{
    let chars = to_chars(name);
    match find_extension_dot(&chars) {
        Some(dot) => {
            let yes = chars.len() - dot == 3 && chars[dot + 1] == 'm' && chars[dot + 2] == 'd';
            proof {
                let ext = chars@.skip(dot + 1);
                if yes {
                    assert(ext =~= seq!['m', 'd']);
                } else if ext == seq!['m', 'd'] {
                    assert(ext.len() == 2);
                    assert(ext[0] == 'm' && ext[1] == 'd');
                }
            }
            yes
        },
        None => false,
    }
}

/// Begins a scan of the directory `dir` down to `depth` levels of
/// directories; the depth 5 stands for no limit. The first request is to
/// list `dir`.
pub fn scan_directory(dir: &str, depth: u32) -> (begun: (Scanner, Request))
    ensures
        begun.0@ == ScanState::start(dir@, depth as nat),
        begun.0@.well_formed(),
        begun.1@ == (RequestView::List { path: dir@ }),
{
    let max_depth = if depth == UNLIMITED {
        0
    } else {
        depth
    };
    let scanner = Scanner {
        max_depth,
        stack: Vec::new(),
        batch: Vec::new(),
        total: 0,
        files_checked: 0,
        non_md_files: 0,
        parse_failures: 0,
        pending: Pending::Listing(dir.to_owned()),
    };
    proof {
        assert(scanner@.stack =~= Seq::empty());
        assert(scanner@.batch =~= Seq::empty());
    }
    (scanner, Request::List { path: dir.to_owned() })
}

/// Decides whether a directory found in a directory at depth `depth - 1`
/// is walked: it is where its path is valid Unicode and `depth` lies
/// within the depth limit; `max_depth` 0 is no limit.
pub fn scan_dir_recursive(unicode: bool, depth: usize, max_depth: u32) -> (walk: bool)
    ensures
        walk == (unicode && within_depth(max_depth as nat, depth as nat)),
{
    let limited = max_depth > 0 && depth >= max_depth as usize;
    unicode && !limited
}

impl Scanner {
    #[verifier::type_invariant]
    spec fn sound(&self) -> bool {
        self@.well_formed()
    }

    /// The number of cards found so far.
    pub fn total(&self) -> (n: usize)
        ensures
            n == self@.total,
    {
        self.total
    }

    /// The number of files seen so far that are not hidden.
    pub fn files_checked(&self) -> (n: usize)
        ensures
            n == self@.files_checked,
    {
        self.files_checked
    }

    /// The number of files seen so far that are no Markdown files.
    pub fn non_md_files(&self) -> (n: usize)
        ensures
            n == self@.non_md_files,
    {
        self.non_md_files
    }

    /// The number of Markdown files so far that gave no card.
    pub fn parse_failures(&self) -> (n: usize)
        ensures
            n == self@.parse_failures,
    {
        self.parse_failures
    }

    /// Whether each counter can still count one more.
    pub fn has_room(&self) -> (yes: bool)
        ensures
            yes == self@.has_room(),
    {
        self.total < usize::MAX && self.files_checked < usize::MAX && self.non_md_files
            < usize::MAX && self.parse_failures < usize::MAX
    }

    /// A scanner that has nothing to do.
    fn idle() -> (scanner: Scanner)
        ensures
            scanner@ == ScanState::idle(),
    {
        let scanner = Scanner {
            max_depth: 0,
            stack: Vec::new(),
            batch: Vec::new(),
            total: 0,
            files_checked: 0,
            non_md_files: 0,
            parse_failures: 0,
            pending: Pending::Nothing,
        };
        proof {
            assert(scanner@.stack =~= Seq::empty());
            assert(scanner@.batch =~= Seq::empty());
        }
        scanner
    }

    /// Takes the state out and leaves an idle scanner in its place.
    fn take(&mut self) -> (taken: Scanner)
        ensures
            taken@ == old(self)@,
            taken@.well_formed(),
    {
        let mut taken = Scanner::idle();
        std::mem::swap(self, &mut taken);
        proof {
            use_type_invariant(&taken);
        }
        taken
    }

    /// Takes one step of the walk and says what to do next.
    pub fn process_entries(&mut self) -> (request: Request)
        requires
            old(self)@.has_room(),
        ensures
            (final(self)@, request@) == old(self)@.step(),
            old(self)@.well_formed(),
            final(self)@.well_formed(),
    {
        let ghost before = self@;
        let Scanner {
            max_depth,
            mut stack,
            batch,
            total,
            mut files_checked,
            mut non_md_files,
            parse_failures,
            mut pending,
        } = self.take();
        proof {
            lemma_step_well_formed(before);
        }
        let request = match &pending {
            Pending::Listing(path) => Request::List { path: path.clone() },
            Pending::File(path) => Request::Read { path: path.clone() },
            Pending::Nothing => match stack.pop() {
                None => Request::Finish,
                Some(mut frame) => {
                    proof {
                        assert(frame@ == before.stack.last());
                        assert(before.stack[before.stack.len() - 1].next <= before.stack[
                            before.stack.len() - 1
                        ].entries.len());
                        assert(stack@.map_values(|f: Frame| f@) =~= before.stack.drop_last());
                    }
                    if frame.next >= frame.entries.len() {
                        Request::Continue
                    } else {
                        let at = frame.next;
                        frame.next = at + 1;
                        let unicode = frame.entries[at].unicode;
                        let is_dir = frame.entries[at].is_dir;
                        let hidden = unicode && is_hidden_name(frame.entries[at].name.as_str());
                        let markdown = is_markdown_name(frame.entries[at].name.as_str());
                        let path = frame.entries[at].path.clone();
                        proof {
                            assert(before.stack.last().entries[at as int]
                                == frame.entries@[at as int]@);
                        }
                        stack.push(frame);
                        proof {
                            assert(stack@.map_values(|f: Frame| f@)
                                =~= before.entry_done().stack);
                        }
                        if hidden {
                            Request::Continue
                        } else if is_dir {
                            if scan_dir_recursive(unicode, stack.len(), max_depth) {
                                pending = Pending::Listing(path.clone());
                                Request::List { path }
                            } else {
                                Request::Continue
                            }
                        } else {
                            files_checked = files_checked + 1;
                            if markdown {
                                pending = Pending::File(path.clone());
                                Request::Read { path }
                            } else {
                                non_md_files = non_md_files + 1;
                                Request::Continue
                            }
                        }
                    }
                },
            },
        };
        *self = Scanner {
            max_depth,
            stack,
            batch,
            total,
            files_checked,
            non_md_files,
            parse_failures,
            pending,
        };
        request
    }

    /// Takes the entries of the directory that was to be listed, or nothing
    /// where it could not be listed.
    pub fn directory_listed(&mut self, entries: Option<Vec<DirEntry>>)
        ensures
            final(self)@ == old(self)@.listed(optional_entries(entries)),
            old(self)@.well_formed(),
            final(self)@.well_formed(),
    {
        let ghost before = self@;
        let Scanner {
            max_depth,
            mut stack,
            batch,
            total,
            files_checked,
            non_md_files,
            parse_failures,
            mut pending,
        } = self.take();
        proof {
            lemma_listed_well_formed(before, optional_entries(entries));
        }
        if matches!(pending, Pending::Listing(_)) {
            pending = Pending::Nothing;
            match entries {
                Some(es) => {
                    let frame = Frame { entries: es, next: 0 };
                    stack.push(frame);
                    proof {
                        assert(stack@.map_values(|f: Frame| f@) =~= before.stack.push(frame@));
                    }
                },
                None => {},
            }
        }
        *self = Scanner {
            max_depth,
            stack,
            batch,
            total,
            files_checked,
            non_md_files,
            parse_failures,
            pending,
        };
    }

    /// Takes the file that was to be read, or nothing where it could not be
    /// read, and hands out the batch where it is full.
    pub fn file_read(&mut self, file: Option<FileRead>) -> (sent: Option<ScanBatch>)
        requires
            old(self)@.has_room(),
        ensures
            (final(self)@, optional_batch(sent)) == old(self)@.read(optional_file(file)),
            old(self)@.well_formed(),
            final(self)@.well_formed(),
    {
        let ghost before = self@;
        let Scanner {
            max_depth,
            stack,
            mut batch,
            mut total,
            files_checked,
            non_md_files,
            mut parse_failures,
            mut pending,
        } = self.take();
        proof {
            lemma_read_well_formed(before, optional_file(file));
        }
        let mut sent: Option<ScanBatch> = None;
        if let Pending::File(path) = &pending {
            match parse_single_file(path.as_str(), file) {
                Some(card) => {
                    batch.push(card);
                    total = total + 1;
                    proof {
                        assert(cards_view(batch@) =~= before.batch.push(card@));
                    }
                    if batch.len() >= BATCH_SIZE {
                        sent = Some(ScanBatch { cards: batch, scanned_so_far: total });
                        batch = Vec::new();
                        proof {
                            assert(cards_view(batch@) =~= Seq::empty());
                        }
                    }
                },
                None => {
                    parse_failures = parse_failures + 1;
                },
            }
            pending = Pending::Nothing;
        }
        *self = Scanner {
            max_depth,
            stack,
            batch,
            total,
            files_checked,
            non_md_files,
            parse_failures,
            pending,
        };
        sent
    }

    /// Ends the scan: hands out the cards that are left, where any are, and
    /// the summary with the number of cards found and the time the scan
    /// took.
    pub fn finish(self, duration_ms: u64) -> (end: (Option<ScanBatch>, ScanComplete))
        ensures
            optional_batch(end.0) == self@.last_batch(),
            end.1.total_files == self@.total,
            end.1.duration_ms == duration_ms,
            self@.well_formed(),
    {
        proof {
            use_type_invariant(&self);
        }
        let complete = ScanComplete { total_files: self.total, duration_ms };
        if self.batch.len() > 0 {
            (Some(ScanBatch { cards: self.batch, scanned_so_far: self.total }), complete)
        } else {
            (None, complete)
        }
    }
}

/// The view of an optional listing.
pub open spec fn optional_entries(entries: Option<Vec<DirEntry>>) -> Option<Seq<EntryView>> {
    match entries {
        Some(es) => Some(entries_view(es@)),
        None => None,
    }
}

/// The view of an optional batch.
pub open spec fn optional_batch(batch: Option<ScanBatch>) -> Option<BatchView> {
    match batch {
        Some(b) => Some(b@),
        None => None,
    }
}

/// A step keeps the state well formed.
pub proof fn lemma_step_well_formed(s: ScanState)
    requires
        s.well_formed(),
    ensures
        s.step().0.well_formed(),
{
    let t = s.step().0;
    if s.pending is Nothing && s.stack.len() > 0 {
        let top = s.stack.last();
        assert(top == s.stack[s.stack.len() - 1]);
        if top.next >= top.entries.len() {
            assert forall|i: int| 0 <= i < t.stack.len() implies (#[trigger] t.stack[i]).next
                <= t.stack[i].entries.len() by {
                assert(t.stack[i] == s.stack[i]);
            }
        } else {
            assert forall|i: int| 0 <= i < t.stack.len() implies (#[trigger] t.stack[i]).next
                <= t.stack[i].entries.len() by {
                if i < s.stack.len() - 1 {
                    assert(t.stack[i] == s.stack[i]);
                }
            }
        }
    }
}

/// Taking a listing keeps the state well formed.
pub proof fn lemma_listed_well_formed(s: ScanState, entries: Option<Seq<EntryView>>)
    requires
        s.well_formed(),
    ensures
        s.listed(entries).well_formed(),
{
    let t = s.listed(entries);
    assert forall|i: int| 0 <= i < t.stack.len() implies (#[trigger] t.stack[i]).next
        <= t.stack[i].entries.len() by {
        if i < s.stack.len() {
            assert(t.stack[i] == s.stack[i]);
        }
    }
}

/// Taking a file keeps the state well formed.
pub proof fn lemma_read_well_formed(s: ScanState, file: Option<FileView>)
    requires
        s.well_formed(),
    ensures
        s.read(file).0.well_formed(),
{
}

} // verus!
