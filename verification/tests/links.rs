use wikilinks::link::{link_for, relative_path, target_for};

#[test]
fn relative_path_strips_the_root() {
    assert_eq!(relative_path("docs/sub/a.md", "docs"), "/sub/a.md");
    assert_eq!(relative_path("/home/u/docs/a.md", "/home/u/docs"), "/a.md");
    assert_eq!(relative_path("/home/u/docs", "/home/u/docs"), "");
}

#[test]
fn relative_path_strips_the_leading_root_only() {
    assert_eq!(relative_path("/a/b/a/c.md", "/a"), "/b/a/c.md");
    assert_eq!(relative_path("docs/docs/docs.md", "docs"), "/docs/docs.md");
}

#[test]
fn relative_path_keeps_a_path_outside_the_root() {
    assert_eq!(relative_path("/other/a.md", "/docs"), "/other/a.md");
    assert_eq!(relative_path("/x/docs/a.md", "/docs"), "/x/docs/a.md");
    assert_eq!(relative_path("a", "a/longer/root"), "a");
}

#[test]
fn relative_path_with_an_empty_root_is_the_path() {
    assert_eq!(relative_path("/a/b.md", ""), "/a/b.md");
    assert_eq!(relative_path("", ""), "");
}

#[test]
fn target_encodes_spaces_only() {
    assert_eq!(target_for("/docs/my note.md", "/docs"), "/my%20note.md");
    assert_eq!(target_for("/docs/a  b/c d.md", "/docs"), "/a%20%20b/c%20d.md");
    assert_eq!(target_for("/docs/a#b?c&d%e.md", "/docs"), "/a#b?c&d%e.md");
    assert_eq!(target_for("/docs/ü(1).md", "/docs"), "/ü(1).md");
    assert_eq!(target_for("/docs/tab\there.md", "/docs"), "/tab\there.md");
}

#[test]
fn target_of_indexed_file_is_root_relative() {
    assert_eq!(target_for("docs/sub/a.md", "docs"), "/sub/a.md");
    assert_eq!(target_for("docs/sub dir/a b.md", "docs"), "/sub%20dir/a%20b.md");
}

#[test]
fn target_strips_the_root_before_it_encodes() {
    assert_eq!(target_for("/my docs/a b.md", "/my docs"), "/a%20b.md");
    assert_eq!(target_for("/my%20docs/a.md", "/my docs"), "/my%20docs/a.md");
}

#[test]
fn target_holds_no_space() {
    for path in ["/r/a b.md", "/r/ a/ b /c .md", "/r/   .md", " /r/x.md"] {
        assert!(!target_for(path, "/r").contains(' '), "{path:?}");
    }
}

#[test]
fn link_shows_the_key_and_leads_to_the_target() {
    assert_eq!(link_for("A", "/sub/a.md"), "[A](/sub/a.md)");
    assert_eq!(link_for("My Note", "/my%20note.md"), "[My Note](/my%20note.md)");
    assert_eq!(link_for("", ""), "[]()");
    assert_eq!(link_for("a]b", "c)d"), "[a]b](c)d)");
}
