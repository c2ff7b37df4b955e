use card_index::card::FileRead;
use card_index::scanner::{
    is_hidden_name, is_markdown_name, scan_dir_recursive, scan_directory, DirEntry, Request,
    ScanBatch, ScanComplete,
};
use std::collections::BTreeMap;

struct Tree {
    dirs: BTreeMap<String, Vec<(String, bool)>>,
    files: BTreeMap<String, Vec<u8>>,
}

impl Tree {
    fn new() -> Tree {
        let mut dirs = BTreeMap::new();
        dirs.insert("root".to_string(), Vec::new());
        Tree { dirs, files: BTreeMap::new() }
    }

    fn dir(&mut self, parent: &str, name: &str) -> String {
        let path = format!("{}/{}", parent, name);
        self.dirs.get_mut(parent).unwrap().push((name.to_string(), true));
        self.dirs.insert(path.clone(), Vec::new());
        path
    }

    fn file(&mut self, parent: &str, name: &str, content: &str) {
        let path = format!("{}/{}", parent, name);
        self.dirs.get_mut(parent).unwrap().push((name.to_string(), false));
        self.files.insert(path, content.as_bytes().to_vec());
    }

    fn list(&self, path: &str) -> Option<Vec<DirEntry>> {
        self.dirs.get(path).map(|entries| {
            entries
                .iter()
                .map(|(name, is_dir)| DirEntry {
                    name: name.clone(),
                    unicode: true,
                    path: format!("{}/{}", path, name),
                    is_dir: *is_dir,
                })
                .collect()
        })
    }

    fn read(&self, path: &str) -> Option<FileRead> {
        self.files.get(path).map(|bytes| FileRead {
            name: path.rsplit('/').next().unwrap().to_string(),
            size: bytes.len() as u64,
            modified: Some(10),
            created: Some(5),
            bytes: bytes.clone(),
        })
    }
}

struct Outcome {
    batches: Vec<ScanBatch>,
    complete: ScanComplete,
    listed: Vec<String>,
    read: Vec<String>,
    files_checked: usize,
    non_md_files: usize,
    parse_failures: usize,
}

impl Outcome {
    fn paths(&self) -> Vec<String> {
        self.batches.iter().flat_map(|b| b.cards.iter().map(|c| c.path.clone())).collect()
    }
}

fn scan(tree: &Tree, root: &str, depth: u32) -> Outcome {
    let (mut scanner, mut request) = scan_directory(root, depth);
    let mut batches = Vec::new();
    let mut listed = Vec::new();
    let mut read = Vec::new();
    loop {
        assert!(scanner.has_room());
        match request {
            Request::Continue => {}
            Request::List { path } => {
                scanner.directory_listed(tree.list(&path));
                listed.push(path);
            }
            Request::Read { path } => {
                if let Some(batch) = scanner.file_read(tree.read(&path)) {
                    batches.push(batch);
                }
                read.push(path);
            }
            Request::Finish => break,
        }
        request = scanner.process_entries();
    }
    let files_checked = scanner.files_checked();
    let non_md_files = scanner.non_md_files();
    let parse_failures = scanner.parse_failures();
    assert_eq!(scanner.total() + parse_failures + non_md_files, files_checked);
    let (last, complete) = scanner.finish(7);
    batches.extend(last);
    Outcome { batches, complete, listed, read, files_checked, non_md_files, parse_failures }
}

fn sample() -> Tree {
    let mut t = Tree::new();
    t.file("root", "a.md", "#top");
    t.file("root", "notes.txt", "no card");
    t.file("root", ".secret.md", "hidden");
    let sub = t.dir("root", "sub");
    t.file(&sub, "b.md", "level one");
    let deep = t.dir(&sub, "deep");
    t.file(&deep, "c.md", "level two");
    let deeper = t.dir(&deep, "deeper");
    t.file(&deeper, "d.md", "level three");
    let hidden = t.dir("root", ".git");
    t.file(&hidden, "e.md", "in a hidden directory");
    t.file("root", "z.md", "last");
    t
}

#[test]
fn hidden_names_begin_with_a_dot() {
    assert!(is_hidden_name(".git"));
    assert!(is_hidden_name("."));
    assert!(is_hidden_name(".a.md"));
    assert!(!is_hidden_name("a.md"));
    assert!(!is_hidden_name(""));
    assert!(!is_hidden_name("a."));
}

#[test]
fn markdown_names_have_the_extension_md() {
    assert!(is_markdown_name("a.md"));
    assert!(is_markdown_name("a.b.md"));
    assert!(is_markdown_name(".a.md"));
    assert!(!is_markdown_name("a.MD"));
    assert!(!is_markdown_name("a.mdx"));
    assert!(!is_markdown_name("a.md."));
    assert!(!is_markdown_name(".md"));
    assert!(!is_markdown_name("md"));
    assert!(!is_markdown_name("a.txt"));
    assert!(!is_markdown_name(""));
}

#[test]
fn markdown_names_agree_with_std() {
    let names = ["a.md", ".md", "a.b.md", "a.md.txt", "md", ".a.md", "a.", "..md", "é.md"];
    for name in names {
        let expected = std::path::Path::new(name).extension().and_then(|e| e.to_str()) == Some("md");
        assert_eq!(is_markdown_name(name), expected);
    }
}

#[test]
fn a_directory_with_only_hidden_entries_gives_no_batch() {
    let mut t = Tree::new();
    t.file("root", ".a.md", "x");
    t.file("root", ".b", "y");
    let hidden = t.dir("root", ".cache");
    t.file(&hidden, "c.md", "z");
    let out = scan(&t, "root", 0);
    assert!(out.batches.is_empty());
    assert_eq!(out.complete, ScanComplete { total_files: 0, duration_ms: 7 });
    assert_eq!(out.listed, vec!["root"]);
    assert!(out.read.is_empty());
    assert_eq!(out.files_checked, 0);
}

#[test]
fn an_empty_directory_gives_no_batch() {
    let out = scan(&Tree::new(), "root", 0);
    assert!(out.batches.is_empty());
    assert_eq!(out.complete.total_files, 0);
}

#[test]
fn a_root_that_cannot_be_listed_gives_an_empty_scan() {
    let out = scan(&Tree::new(), "missing", 3);
    assert!(out.batches.is_empty());
    assert_eq!(out.complete.total_files, 0);
    assert_eq!(out.listed, vec!["missing"]);
}

#[test]
fn the_walk_is_depth_first_in_listing_order() {
    let out = scan(&sample(), "root", 0);
    assert_eq!(
        out.paths(),
        vec![
            "root/a.md",
            "root/sub/b.md",
            "root/sub/deep/c.md",
            "root/sub/deep/deeper/d.md",
            "root/z.md"
        ]
    );
    assert_eq!(out.complete.total_files, 5);
    assert_eq!(out.batches.len(), 1);
    assert_eq!(out.batches[0].scanned_so_far, 5);
    assert_eq!(out.files_checked, 6);
    assert_eq!(out.non_md_files, 1);
    assert_eq!(out.parse_failures, 0);
    assert_eq!(out.listed, vec!["root", "root/sub", "root/sub/deep", "root/sub/deep/deeper"]);
}

#[test]
fn the_depth_limit_prunes_directories_not_files() {
    let t = sample();
    assert_eq!(scan(&t, "root", 1).paths(), vec!["root/a.md", "root/z.md"]);
    assert_eq!(scan(&t, "root", 1).listed, vec!["root"]);
    assert_eq!(scan(&t, "root", 2).paths(), vec!["root/a.md", "root/sub/b.md", "root/z.md"]);
    assert_eq!(
        scan(&t, "root", 3).paths(),
        vec!["root/a.md", "root/sub/b.md", "root/sub/deep/c.md", "root/z.md"]
    );
    assert_eq!(scan(&t, "root", 4).paths().len(), 5);
}

#[test]
fn the_depth_five_stands_for_no_limit() {
    let mut t = Tree::new();
    let mut dir = "root".to_string();
    for level in 0..8 {
        t.file(&dir, "n.md", "x");
        dir = t.dir(&dir, &format!("d{}", level));
    }
    assert_eq!(scan(&t, "root", 5).complete.total_files, 8);
    assert_eq!(scan(&t, "root", 0).complete.total_files, 8);
    assert_eq!(scan(&t, "root", 4).complete.total_files, 4);
    assert_eq!(scan(&t, "root", 6).complete.total_files, 6);
}

#[test]
fn files_that_give_no_card_are_counted_as_failures() {
    let mut t = Tree::new();
    t.file("root", "good.md", "fine");
    t.files.insert("root/bad.md".to_string(), vec![0xff, 0xfe]);
    t.dirs.get_mut("root").unwrap().push(("bad.md".to_string(), false));
    t.dirs.get_mut("root").unwrap().push(("gone.md".to_string(), false));
    let out = scan(&t, "root", 0);
    assert_eq!(out.paths(), vec!["root/good.md"]);
    assert_eq!(out.parse_failures, 2);
    assert_eq!(out.files_checked, 3);
    assert_eq!(out.complete.total_files, 1);
}

#[test]
fn a_directory_that_cannot_be_listed_is_passed_over() {
    let mut t = Tree::new();
    t.file("root", "a.md", "x");
    t.dirs.get_mut("root").unwrap().push(("locked".to_string(), true));
    t.file("root", "b.md", "y");
    let out = scan(&t, "root", 0);
    assert_eq!(out.paths(), vec!["root/a.md", "root/b.md"]);
    assert_eq!(out.listed, vec!["root", "root/locked"]);
}

#[test]
fn entries_with_names_that_are_not_unicode() {
    let (mut scanner, _) = scan_directory("root", 0);
    scanner.directory_listed(Some(vec![
        DirEntry {
            name: ".\u{fffd}.md".to_string(),
            unicode: false,
            path: "root/.\u{fffd}.md".to_string(),
            is_dir: false,
        },
        DirEntry {
            name: "d\u{fffd}".to_string(),
            unicode: false,
            path: "root/d\u{fffd}".to_string(),
            is_dir: true,
        },
    ]));
    assert!(matches!(scanner.process_entries(), Request::Read { .. }));
    assert!(scanner.file_read(None).is_none());
    assert!(matches!(scanner.process_entries(), Request::Continue));
    assert!(matches!(scanner.process_entries(), Request::Continue));
    assert!(matches!(scanner.process_entries(), Request::Finish));
}

#[test]
fn batches_hold_200_cards_and_count_on() {
    let mut t = Tree::new();
    for i in 0..450 {
        t.file("root", &format!("n{:03}.md", i), "x");
    }
    let out = scan(&t, "root", 0);
    let sizes: Vec<usize> = out.batches.iter().map(|b| b.cards.len()).collect();
    let counts: Vec<usize> = out.batches.iter().map(|b| b.scanned_so_far).collect();
    assert_eq!(sizes, vec![200, 200, 50]);
    assert_eq!(counts, vec![200, 400, 450]);
    assert_eq!(out.complete.total_files, 450);
    let expected: Vec<String> = (0..450).map(|i| format!("root/n{:03}.md", i)).collect();
    assert_eq!(out.paths(), expected);
}

#[test]
fn a_scan_of_exactly_one_batch_leaves_nothing_over() {
    let mut t = Tree::new();
    for i in 0..200 {
        t.file("root", &format!("n{}.md", i), "x");
    }
    let out = scan(&t, "root", 0);
    assert_eq!(out.batches.len(), 1);
    assert_eq!(out.batches[0].scanned_so_far, 200);
    assert_eq!(out.complete.total_files, 200);
}

#[test]
fn scanning_twice_gives_the_same_cards() {
    let t = sample();
    let first = scan(&t, "root", 0);
    let second = scan(&t, "root", 0);
    let cards = |o: &Outcome| -> Vec<String> {
        o.batches.iter().flat_map(|b| b.cards.iter().map(|c| format!("{:?}", c))).collect()
    };
    assert_eq!(cards(&first), cards(&second));
    assert_eq!(first.complete.total_files, second.complete.total_files);
}

#[test]
fn events_out_of_turn_change_nothing() {
    let (mut scanner, first) = scan_directory("root", 0);
    assert!(matches!(first, Request::List { .. }));
    assert!(scanner.file_read(None).is_none());
    assert!(matches!(scanner.process_entries(), Request::List { .. }));
    scanner.directory_listed(Some(Vec::new()));
    scanner.directory_listed(Some(vec![DirEntry {
        name: "a.md".to_string(),
        unicode: true,
        path: "root/a.md".to_string(),
        is_dir: false,
    }]));
    assert!(matches!(scanner.process_entries(), Request::Continue));
    assert!(matches!(scanner.process_entries(), Request::Finish));
    assert_eq!(scanner.parse_failures(), 0);
    assert_eq!(scanner.total(), 0);
}

#[test]
fn a_directory_is_walked_within_the_depth_limit() {
    assert!(scan_dir_recursive(true, 1, 0));
    assert!(scan_dir_recursive(true, 1_000, 0));
    assert!(scan_dir_recursive(true, 1, 2));
    assert!(!scan_dir_recursive(true, 2, 2));
    assert!(!scan_dir_recursive(true, 3, 2));
    assert!(!scan_dir_recursive(false, 1, 0));
    assert!(!scan_dir_recursive(true, 1, 1));
}
