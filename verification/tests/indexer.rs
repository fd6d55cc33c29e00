use std::collections::HashMap;
use wikilinks::index::ReferenceIndex;
use wikilinks::indexer::{visit, Entry, Indexer, Visit};

fn dir(path: &str) -> Entry {
    Entry { path: path.to_string(), is_dir: true, is_file: false }
}

fn file(path: &str) -> Entry {
    Entry { path: path.to_string(), is_dir: false, is_file: true }
}

fn other(path: &str) -> Entry {
    Entry { path: path.to_string(), is_dir: false, is_file: false }
}

/// A directory tree held in memory: what each directory lists.
struct Disk {
    listings: HashMap<String, Vec<(String, bool)>>,
    read: Vec<String>,
}

impl Disk {
    fn new(listings: &[(&str, &[(&str, bool)])]) -> Disk {
        let mut map = HashMap::new();
        for (path, entries) in listings {
            map.insert(
                path.to_string(),
                entries.iter().map(|(p, d)| (p.to_string(), *d)).collect(),
            );
        }
        Disk { listings: map, read: Vec::new() }
    }

    fn list(&mut self, path: &str) -> Vec<Entry> {
        self.read.push(path.to_string());
        self.listings[path]
            .iter()
            .map(|(p, is_dir)| Entry { path: p.clone(), is_dir: *is_dir, is_file: !*is_dir })
            .collect()
    }
}

fn build(disk: &mut Disk, root: Entry, excludes: &[&str]) -> ReferenceIndex {
    let mut indexer = Indexer::new(root, excludes.iter().map(|s| s.to_string()).collect());
    while let Some(directory) = indexer.next_directory() {
        let entries = disk.list(&directory);
        indexer.supply(entries);
    }
    indexer.into_index()
}

fn pairs(items: &[(&str, &str)]) -> Vec<(String, String)> {
    items.iter().map(|(k, p)| (k.to_string(), p.to_string())).collect()
}

#[test]
fn visit_decides_by_eligibility_and_kind() {
    let excludes = vec!["temp".to_string()];
    assert!(matches!(visit(&file("a.md"), &excludes), Visit::Record));
    assert!(matches!(visit(&file("a.txt"), &excludes), Visit::Skip));
    assert!(matches!(visit(&file("temp/a.md"), &excludes), Visit::Skip));
    assert!(matches!(visit(&dir("notes"), &excludes), Visit::Descend));
    assert!(matches!(visit(&dir("notes/temp"), &excludes), Visit::Skip));
    assert!(matches!(visit(&dir("notes.md"), &excludes), Visit::Descend));
    assert!(matches!(visit(&other("gone.md"), &excludes), Visit::Descend));
    assert!(matches!(visit(&other("gone"), &excludes), Visit::Skip));
}

#[test]
fn root_that_is_a_document_is_indexed_without_reading() {
    let mut disk = Disk::new(&[]);
    let index = build(&mut disk, file("notes/a.md"), &[]);
    assert_eq!(index.entries(), pairs(&[("a", "notes/a.md")]));
    assert!(disk.read.is_empty());
}

#[test]
fn root_that_does_not_take_part_gives_an_empty_index() {
    let mut disk = Disk::new(&[]);
    assert_eq!(build(&mut disk, file("notes/a.txt"), &[]).len(), 0);
    assert_eq!(build(&mut disk, dir("notes/temp"), &["temp"]).len(), 0);
    assert!(disk.read.is_empty());
}

#[test]
fn documents_of_a_directory_are_indexed_by_their_keys() {
    let mut disk = Disk::new(&[(
        "docs",
        &[("docs/a.md", false), ("docs/b.txt", false), ("docs/c d.md", false)],
    )]);
    let index = build(&mut disk, dir("docs"), &[]);
    assert_eq!(index.entries(), pairs(&[("a", "docs/a.md"), ("c d", "docs/c d.md")]));
    assert_eq!(disk.read, vec!["docs"]);
}

#[test]
fn traversal_is_depth_first_in_listing_order() {
    let mut disk = Disk::new(&[
        ("r", &[("r/1.md", false), ("r/d", true), ("r/2.md", false), ("r/e", true)]),
        ("r/d", &[("r/d/3.md", false), ("r/d/f", true), ("r/d/4.md", false)]),
        ("r/d/f", &[("r/d/f/5.md", false)]),
        ("r/e", &[("r/e/6.md", false)]),
    ]);
    let index = build(&mut disk, dir("r"), &[]);
    assert_eq!(
        index.entries(),
        pairs(&[
            ("1", "r/1.md"),
            ("3", "r/d/3.md"),
            ("5", "r/d/f/5.md"),
            ("4", "r/d/4.md"),
            ("2", "r/2.md"),
            ("6", "r/e/6.md"),
        ])
    );
    assert_eq!(disk.read, vec!["r", "r/d", "r/d/f", "r/e"]);
}

#[test]
fn file_visited_last_wins_a_shared_key() {
    let mut disk = Disk::new(&[
        ("r", &[("r/a", true), ("r/note.md", false), ("r/b", true)]),
        ("r/a", &[("r/a/note.md", false)]),
        ("r/b", &[("r/b/other.md", false)]),
    ]);
    let index = build(&mut disk, dir("r"), &[]);
    assert_eq!(index.len(), 2);
    assert_eq!(index.get("note").map(|s| s.as_str()), Some("r/note.md"));

    let mut disk = Disk::new(&[
        ("r", &[("r/note.md", false), ("r/a", true)]),
        ("r/a", &[("r/a/note.md", false)]),
    ]);
    let index = build(&mut disk, dir("r"), &[]);
    assert_eq!(index.entries(), pairs(&[("note", "r/a/note.md")]));
}

#[test]
fn excluded_directory_is_pruned() {
    let mut disk = Disk::new(&[
        ("r", &[("r/temp", true), ("r/keep", true), ("r/a.md", false)]),
        ("r/temp", &[("r/temp/a.md", false), ("r/temp/deep", true)]),
        ("r/temp/deep", &[("r/temp/deep/b.md", false)]),
        ("r/keep", &[("r/keep/b.md", false)]),
    ]);
    let index = build(&mut disk, dir("r"), &["temp"]);
    assert_eq!(index.entries(), pairs(&[("b", "r/keep/b.md"), ("a", "r/a.md")]));
    assert_eq!(disk.read, vec!["r", "r/keep"]);
    for (_, path) in index.entries() {
        assert!(!path.contains("temp"));
    }
}

#[test]
fn key_defined_inside_and_outside_an_excluded_directory() {
    let mut disk = Disk::new(&[
        ("r", &[("r/A.md", false), ("r/temp", true)]),
        ("r/temp", &[("r/temp/A.md", false), ("r/temp/B.md", false)]),
    ]);
    let index = build(&mut disk, dir("r"), &["temp"]);
    assert_eq!(index.entries(), pairs(&[("A", "r/A.md")]));
    assert!(index.get("B").is_none());
}

#[test]
fn directory_named_like_a_document_is_read() {
    let mut disk = Disk::new(&[
        ("r", &[("r/d.md", true)]),
        ("r/d.md", &[("r/d.md/x.md", false)]),
    ]);
    let index = build(&mut disk, dir("r"), &[]);
    assert_eq!(index.entries(), pairs(&[("x", "r/d.md/x.md")]));
}

#[test]
fn entry_that_is_neither_file_nor_directory_is_asked_for_when_named_like_a_document() {
    let mut indexer = Indexer::new(other("gone.md"), Vec::new());
    assert_eq!(indexer.next_directory().as_deref(), Some("gone.md"));
    let mut indexer = Indexer::new(other("gone"), Vec::new());
    assert_eq!(indexer.next_directory(), None);
}

#[test]
fn supplied_entries_are_visited_before_pending_ones() {
    let mut indexer = Indexer::new(dir("r"), Vec::new());
    assert_eq!(indexer.next_directory().as_deref(), Some("r"));
    indexer.supply(vec![dir("r/a"), file("r/z.md"), dir("r/b")]);
    assert_eq!(indexer.next_directory().as_deref(), Some("r/a"));
    assert_eq!(indexer.index().len(), 0);
    indexer.supply(vec![file("r/a/1.md")]);
    assert_eq!(indexer.next_directory().as_deref(), Some("r/b"));
    assert_eq!(indexer.index().entries(), pairs(&[("1", "r/a/1.md"), ("z", "r/z.md")]));
    indexer.supply(Vec::new());
    assert_eq!(indexer.next_directory(), None);
    assert_eq!(indexer.next_directory(), None);
    assert_eq!(indexer.into_index().len(), 2);
}
