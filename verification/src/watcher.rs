//! The index watcher: at most one watch session at a time, and the index
//! updates that changes under the watched root give.
//!
//! The session here is the record of what is watched. Whoever holds the
//! watch of the operating system installs and releases it as `start` and
//! `stop` say, and hands each change it is told of to `on_change`.

use crate::card::{
    card_of_read, optional_file, parse_single_file, CardMeta, CardView, FileRead, FileView,
};
use vstd::prelude::*;

verus! {

/// The state of the watcher: idle, or watching one root.
pub struct WatchSession {
    root: Option<String>,
}

/// What is watched: nothing, or the root at a path.
pub enum WatchState {
    Idle,
    Watching(Seq<char>),
}

impl View for WatchSession {
    type V = WatchState;

    closed spec fn view(&self) -> WatchState {
        match self.root {
            Some(root) => WatchState::Watching(root@),
            None => WatchState::Idle,
        }
    }
}

/// A change that the operating system tells of.
pub enum Change {
    /// The file at `path` was created or written; `file` is what reading it
    /// now gives, or nothing where it cannot be read.
    Written { path: String, file: Option<FileRead> },
    /// The file at `path` was deleted.
    Removed { path: String },
}

/// A change as text.
pub enum ChangeView {
    Written { path: Seq<char>, file: Option<FileView> },
    Removed { path: Seq<char> },
}

impl View for Change {
    type V = ChangeView;

    open spec fn view(&self) -> ChangeView {
        match self {
            Change::Written { path, file } => ChangeView::Written {
                path: path@,
                file: optional_file(*file),
            },
            Change::Removed { path } => ChangeView::Removed { path: path@ },
        }
    }
}

/// An update of the index.
pub enum IndexEvent {
    /// The card of a file, built anew.
    Updated(CardMeta),
    /// The card at this path is gone.
    Removed(String),
}

/// An update of the index as text.
pub enum IndexEventView {
    Updated(CardView),
    Removed(Seq<char>),
}

impl View for IndexEvent {
    type V = IndexEventView;

    open spec fn view(&self) -> IndexEventView {
        match self {
            IndexEvent::Updated(card) => IndexEventView::Updated(card@),
            IndexEvent::Removed(path) => IndexEventView::Removed(path@),
        }
    }
}

/// The view of an optional index event.
pub open spec fn optional_event(event: Option<IndexEvent>) -> Option<IndexEventView> {
    match event {
        Some(e) => Some(e@),
        None => None,
    }
}

/// The root that is watched in `state`, where one is.
pub open spec fn watched(state: WatchState) -> Option<Seq<char>> {
    match state {
        WatchState::Watching(root) => Some(root),
        WatchState::Idle => None,
    }
}

/// The index update that `change` gives in `state`. While nothing is
/// watched there is none. A file that was written gives its new card, and
/// nothing where it gives no card, so that the card known before stays. A
/// file that was deleted gives the removal of its path.
pub open spec fn update_for(state: WatchState, change: ChangeView) -> Option<IndexEventView> {
    match state {
        WatchState::Idle => None,
        WatchState::Watching(_) => match change {
            ChangeView::Written { path, file } => match card_of_read(path, file) {
                Some(card) => Some(IndexEventView::Updated(card)),
                None => None,
            },
            ChangeView::Removed { path } => Some(IndexEventView::Removed(path)),
        },
    }
}

impl WatchSession {
    /// A watcher that watches nothing.
    pub fn new() -> (session: WatchSession)
        ensures
            session@ == WatchState::Idle,
    {
        WatchSession { root: None }
    }

    /// Whether a root is watched.
    pub fn is_watching(&self) -> (yes: bool)
        ensures
            yes == (self@ is Watching),
    {
        self.root.is_some()
    }

    /// The root that is watched, where one is.
    pub fn root(&self) -> (root: Option<String>)
        ensures
            crate::frontmatter::optional_text(root) == watched(self@),
    {
        match &self.root {
            Some(root) => Some(root.clone()),
            None => None,
        }
    }

    /// Starts to watch `root`, from either state. Where another root was
    /// watched, it is handed out: its watch is released before the new one
    /// is installed.
    pub fn start(&mut self, root: &str) -> (released: Option<String>)
        ensures
            final(self)@ == WatchState::Watching(root@),
            crate::frontmatter::optional_text(released) == watched(old(self)@),
    {
        let mut session = Some(root.to_owned());
        std::mem::swap(&mut self.root, &mut session);
        session
    }

    /// Stops watching, from either state. The root that was watched is
    /// handed out: its watch is released. This is also what follows a
    /// watch that could not be installed.
    pub fn stop(&mut self) -> (released: Option<String>)
        ensures
            final(self)@ == WatchState::Idle,
            crate::frontmatter::optional_text(released) == watched(old(self)@),
    {
        let mut session = None;
        std::mem::swap(&mut self.root, &mut session);
        session
    }

    /// The index update that a change gives.
    pub fn on_change(&self, change: Change) -> (event: Option<IndexEvent>)
        ensures
            optional_event(event) == update_for(self@, change@),
            event matches Some(IndexEvent::Updated(card)) ==> card@.well_formed(),
    {
        if self.root.is_none() {
            return None;
        }
        match change {
            Change::Written { path, file } => match parse_single_file(path.as_str(), file) {
                Some(card) => Some(IndexEvent::Updated(card)),
                None => None,
            },
            Change::Removed { path } => Some(IndexEvent::Removed(path)),
        }
    }
}

} // verus!
