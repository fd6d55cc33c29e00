use std::path::Path;
use wikilinks::eligibility::{is_eligible, is_invalid_path};

fn strings(items: &[&str]) -> Vec<String> {
    items.iter().map(|s| s.to_string()).collect()
}

#[test]
fn test_valid_markdown_file() {
    let path = Path::new("example.md");
    let ignore_dirs = vec!["temp".to_string()];
    assert!(!is_invalid_path(&path.to_string_lossy(), path.is_dir(), &ignore_dirs));
}

#[test]
fn test_invalid_non_markdown_file() {
    let path = Path::new("example.txt");
    let ignore_dirs = vec!["temp".to_string()];
    assert!(is_invalid_path(&path.to_string_lossy(), path.is_dir(), &ignore_dirs));
}

#[test]
fn test_ignored_directory_file() {
    let path = Path::new("temp/example.md");
    let ignore_dirs = vec!["temp".to_string()];
    assert!(is_invalid_path(&path.to_string_lossy(), path.is_dir(), &ignore_dirs));
}

#[test]
fn test_ignored_directory() {
    let path = Path::new("./fixtures/ignored_dir");
    let ignore_dirs = vec!["ignored_dir".to_string()];
    assert!(is_invalid_path(&path.to_string_lossy(), path.is_dir(), &ignore_dirs));
}

#[test]
fn test_non_ignored_directory() {
    let path = Path::new("./src/example.md");
    let ignore_dirs = vec!["temp".to_string()];
    assert!(!is_invalid_path(&path.to_string_lossy(), path.is_dir(), &ignore_dirs));
}

#[test]
fn test_directory() {
    let path = Path::new("./src");
    let ignore_dirs = vec!["temp".to_string()];
    assert!(path.is_dir(), "The path should point to a valid directory");
    assert!(!is_invalid_path(&path.to_string_lossy(), path.is_dir(), &ignore_dirs));
}

#[test]
fn excluded_path_is_invalid_whatever_it_is() {
    let excludes = strings(&["temp", "draft"]);
    assert!(is_invalid_path("notes/temp/a.md", false, &excludes));
    assert!(is_invalid_path("notes/temp", true, &excludes));
    assert!(is_invalid_path("notes/temp/a.txt", false, &excludes));
    assert!(is_invalid_path("my-draft.md", false, &excludes));
    assert!(is_invalid_path("attempt.md", false, &excludes));
}

#[test]
fn exclusion_is_a_substring_of_the_whole_path() {
    let excludes = strings(&["b/c"]);
    assert!(is_invalid_path("a/b/c/d.md", false, &excludes));
    assert!(!is_invalid_path("a/b/d/c.md", false, &excludes));
    assert!(!is_invalid_path("a/bc/d.md", false, &excludes));
}

#[test]
fn exclusion_is_case_sensitive_and_literal() {
    let excludes = strings(&["Temp", "a.c"]);
    assert!(!is_invalid_path("temp/x.md", false, &excludes));
    assert!(is_invalid_path("Temp/x.md", false, &excludes));
    assert!(!is_invalid_path("abc/x.md", false, &excludes));
    assert!(is_invalid_path("a.c/x.md", false, &excludes));
}

#[test]
fn not_excluded_directory_or_document_is_eligible() {
    let excludes = strings(&["temp"]);
    assert!(is_eligible("notes", true, &excludes));
    assert!(is_eligible("notes/a.md", false, &excludes));
    assert!(is_eligible("notes.d", true, &excludes));
    assert!(!is_eligible("notes/a.txt", false, &excludes));
    assert!(!is_eligible("notes/a.md.bak", false, &excludes));
    assert!(!is_eligible("notes/amd", false, &excludes));
    assert!(!is_eligible("notes/a.MD", false, &excludes));
}

#[test]
fn no_exclusions_leaves_extension_and_kind_to_decide() {
    let excludes: Vec<String> = Vec::new();
    assert!(is_eligible("a.md", false, &excludes));
    assert!(is_eligible(".md", false, &excludes));
    assert!(is_eligible("", true, &excludes));
    assert!(!is_eligible("", false, &excludes));
    assert!(!is_eligible("md", false, &excludes));
}

#[test]
fn empty_exclusion_excludes_every_path() {
    let excludes = strings(&[""]);
    assert!(is_invalid_path("a.md", false, &excludes));
    assert!(is_invalid_path("dir", true, &excludes));
    assert!(is_invalid_path("", true, &excludes));
}

#[test]
fn eligibility_is_the_negation_of_invalidity() {
    let excludes = strings(&["skip"]);
    for (path, is_dir) in [("a.md", false), ("skip/a.md", false), ("d", true), ("a.rs", false)] {
        assert_eq!(is_eligible(path, is_dir, &excludes), !is_invalid_path(path, is_dir, &excludes));
    }
}

#[test]
fn paths_with_characters_beyond_ascii() {
    let excludes = strings(&["entwürfe"]);
    assert!(is_invalid_path("notizen/entwürfe/a.md", false, &excludes));
    assert!(!is_invalid_path("notizen/entwurfe/ä.md", false, &excludes));
    assert!(is_eligible("日本語.md", false, &excludes));
}
