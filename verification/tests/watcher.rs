use card_index::card::FileRead;
use card_index::watcher::{Change, IndexEvent, WatchSession};

fn written(path: &str, content: &str, modified: u64) -> Change {
    Change::Written {
        path: path.to_string(),
        file: Some(FileRead {
            name: path.rsplit('/').next().unwrap().to_string(),
            size: content.len() as u64,
            modified: Some(modified),
            created: Some(0),
            bytes: content.as_bytes().to_vec(),
        }),
    }
}

#[test]
fn a_new_watcher_is_idle() {
    let session = WatchSession::new();
    assert!(!session.is_watching());
    assert_eq!(session.root(), None);
}

#[test]
fn starting_replaces_the_session() {
    let mut session = WatchSession::new();
    assert_eq!(session.start("/notes"), None);
    assert!(session.is_watching());
    assert_eq!(session.root().as_deref(), Some("/notes"));
    assert_eq!(session.start("/other").as_deref(), Some("/notes"));
    assert_eq!(session.root().as_deref(), Some("/other"));
    assert_eq!(session.stop().as_deref(), Some("/other"));
    assert!(!session.is_watching());
    assert_eq!(session.stop(), None);
    assert_eq!(session.start("/again"), None);
    assert!(session.is_watching());
}

#[test]
fn a_rewritten_file_gives_one_update_with_the_new_time() {
    let mut session = WatchSession::new();
    session.start("/notes");
    let event = session.on_change(written("/notes/a.md", "first", 1_700_000_000));
    match event {
        Some(IndexEvent::Updated(card)) => {
            assert_eq!(card.path, "/notes/a.md");
            assert_eq!(card.title, "a");
            assert_eq!(card.updated.as_deref(), Some("2023-11-14T22:13:20Z"));
        }
        _ => panic!("expected an update"),
    }
    let event = session.on_change(written("/notes/a.md", "second", 1_700_000_060));
    match event {
        Some(IndexEvent::Updated(card)) => {
            assert_eq!(card.preview, "second");
            assert_eq!(card.updated.as_deref(), Some("2023-11-14T22:14:20Z"));
        }
        _ => panic!("expected an update"),
    }
}

#[test]
fn a_deleted_file_gives_one_removal() {
    let mut session = WatchSession::new();
    session.start("/notes");
    let event = session.on_change(Change::Removed { path: "/notes/a.md".to_string() });
    match event {
        Some(IndexEvent::Removed(path)) => assert_eq!(path, "/notes/a.md"),
        _ => panic!("expected a removal"),
    }
}

#[test]
fn a_file_that_gives_no_card_changes_nothing() {
    let mut session = WatchSession::new();
    session.start("/notes");
    let unreadable = Change::Written { path: "/notes/a.md".to_string(), file: None };
    assert!(session.on_change(unreadable).is_none());
    let binary = Change::Written {
        path: "/notes/b.md".to_string(),
        file: Some(FileRead {
            name: "b.md".to_string(),
            size: 2,
            modified: None,
            created: None,
            bytes: vec![0xff, 0xff],
        }),
    };
    assert!(session.on_change(binary).is_none());
}

#[test]
fn an_idle_watcher_gives_no_updates() {
    let mut session = WatchSession::new();
    assert!(session.on_change(written("/notes/a.md", "x", 1)).is_none());
    assert!(session.on_change(Change::Removed { path: "/notes/a.md".to_string() }).is_none());
    session.start("/notes");
    session.stop();
    assert!(session.on_change(written("/notes/a.md", "x", 1)).is_none());
}
