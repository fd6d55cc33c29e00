use wikilinks::index::ReferenceIndex;

fn pairs(index: &ReferenceIndex) -> Vec<(String, String)> {
    index.entries()
}

#[test]
fn new_index_is_empty() {
    let index = ReferenceIndex::new();
    assert_eq!(index.len(), 0);
    assert!(index.entries().is_empty());
    assert!(index.get("a").is_none());
    assert!(!index.contains_key("a"));
}

#[test]
fn insert_then_get() {
    let mut index = ReferenceIndex::new();
    index.insert("A".to_string(), "docs/A.md".to_string());
    index.insert("B".to_string(), "docs/sub/B.md".to_string());
    assert_eq!(index.get("A").map(|s| s.as_str()), Some("docs/A.md"));
    assert_eq!(index.get("B").map(|s| s.as_str()), Some("docs/sub/B.md"));
    assert!(index.get("C").is_none());
    assert!(index.contains_key("A"));
    assert!(!index.contains_key("a"));
    assert_eq!(index.len(), 2);
}

#[test]
fn second_path_under_a_key_takes_the_place_of_the_first() {
    let mut index = ReferenceIndex::new();
    index.insert("A".to_string(), "one/A.md".to_string());
    index.insert("B".to_string(), "B.md".to_string());
    index.insert("A".to_string(), "two/A.md".to_string());
    assert_eq!(index.len(), 2);
    assert_eq!(index.get("A").map(|s| s.as_str()), Some("two/A.md"));
    assert_eq!(
        pairs(&index),
        vec![
            ("A".to_string(), "two/A.md".to_string()),
            ("B".to_string(), "B.md".to_string()),
        ]
    );
}

#[test]
fn entries_come_in_the_order_in_which_keys_were_first_recorded() {
    let mut index = ReferenceIndex::new();
    for key in ["z", "a", "m", "a", "z", "b"] {
        index.insert(key.to_string(), format!("{key}.md"));
    }
    let keys: Vec<String> = index.entries().into_iter().map(|(k, _)| k).collect();
    assert_eq!(keys, vec!["z", "a", "m", "b"]);
}

#[test]
fn len_counts_keys_not_insertions() {
    let mut index = ReferenceIndex::new();
    index.insert("A".to_string(), "1".to_string());
    index.insert("A".to_string(), "2".to_string());
    index.insert("A".to_string(), "3".to_string());
    assert_eq!(index.len(), 1);
    index.insert("B".to_string(), "3".to_string());
    assert_eq!(index.len(), 2);
}

#[test]
fn keys_are_case_sensitive_and_verbatim() {
    let mut index = ReferenceIndex::new();
    index.insert("Note".to_string(), "Note.md".to_string());
    index.insert("note".to_string(), "note.md".to_string());
    index.insert(" note".to_string(), "x.md".to_string());
    index.insert("".to_string(), ".md".to_string());
    assert_eq!(index.len(), 4);
    assert_eq!(index.get("Note").map(|s| s.as_str()), Some("Note.md"));
    assert_eq!(index.get("note").map(|s| s.as_str()), Some("note.md"));
    assert_eq!(index.get(" note").map(|s| s.as_str()), Some("x.md"));
    assert_eq!(index.get("").map(|s| s.as_str()), Some(".md"));
    assert!(index.get("note ").is_none());
}
