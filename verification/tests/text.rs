use wikilinks::text::{
    append_chars, contains_chars, ends_with_chars, from_chars, matches_at, replace_all_chars,
    starts_with_chars, to_chars,
};

fn chars(s: &str) -> Vec<char> {
    s.chars().collect()
}

fn replaced(s: &str, p: &str, r: &str) -> String {
    replace_all_chars(&chars(s), &chars(p), &chars(r)).into_iter().collect()
}

#[test]
fn to_chars_and_back() {
    assert_eq!(to_chars("a[b]"), vec!['a', '[', 'b', ']']);
    assert_eq!(to_chars(""), Vec::<char>::new());
    assert_eq!(to_chars("äö"), vec!['ä', 'ö']);
    assert_eq!(from_chars(&vec!['x', ' ', 'ü']), "x ü");
    assert_eq!(from_chars(&Vec::new()), "");
    assert_eq!(from_chars(&to_chars("round trip ✓")), "round trip ✓");
}

#[test]
fn append_chars_extends_the_vector() {
    let mut out = chars("ab");
    append_chars(&mut out, &chars("cd"));
    assert_eq!(out, chars("abcd"));
    append_chars(&mut out, &Vec::new());
    assert_eq!(out, chars("abcd"));
}

#[test]
fn matches_at_positions() {
    let s = chars("hello");
    assert!(matches_at(&s, &chars("hel"), 0));
    assert!(matches_at(&s, &chars("llo"), 2));
    assert!(!matches_at(&s, &chars("llo"), 3));
    assert!(!matches_at(&s, &chars("lo"), 4));
    assert!(matches_at(&s, &chars(""), 5));
    assert!(!matches_at(&s, &chars(""), 6));
    assert!(!matches_at(&s, &chars("x"), usize::MAX));
}

#[test]
fn contains_agrees_with_std() {
    let cases = [
        ("", ""),
        ("abc", ""),
        ("", "a"),
        ("abc", "abc"),
        ("abc", "bc"),
        ("abc", "abcd"),
        ("aaab", "aab"),
        ("temp/example.md", "temp"),
        ("attempt", "temp"),
        ("tem", "temp"),
    ];
    for (s, p) in cases {
        assert_eq!(contains_chars(&chars(s), &chars(p)), s.contains(p), "{s:?} {p:?}");
    }
}

#[test]
fn starts_and_ends_agree_with_std() {
    let cases = [("", ""), ("a.md", ".md"), (".md", ".md"), ("md", ".md"), ("a.mdx", ".md"), ("x", "")];
    for (s, p) in cases {
        assert_eq!(ends_with_chars(&chars(s), &chars(p)), s.ends_with(p), "{s:?} {p:?}");
        assert_eq!(starts_with_chars(&chars(s), &chars(p)), s.starts_with(p), "{s:?} {p:?}");
    }
    assert!(starts_with_chars(&chars("/docs/a.md"), &chars("/docs")));
    assert!(!starts_with_chars(&chars("x/docs/a.md"), &chars("/docs")));
}

#[test]
fn replace_all_exact_values() {
    assert_eq!(replaced("a b c", " ", "%20"), "a%20b%20c");
    assert_eq!(replaced("aaa", "aa", "b"), "ba");
    assert_eq!(replaced("aaaa", "aa", "b"), "bb");
    assert_eq!(replaced("abc", "x", "y"), "abc");
    assert_eq!(replaced("abc", "abc", ""), "");
    assert_eq!(replaced("abc", "abcd", "x"), "abc");
    assert_eq!(replaced("", "a", "b"), "");
    assert_eq!(replaced("xx[[A]]yy[[A]]", "[[A]]", "[A](/a.md)"), "xx[A](/a.md)yy[A](/a.md)");
    assert_eq!(replaced("ab", "b", "bb"), "abb");
}

#[test]
fn replace_all_agrees_with_std_for_patterns_that_are_not_empty() {
    let texts = ["", "a", "abab", "aaaaa", "[[A]] [[B]] [[A]]", "x y  z", "ababa"];
    let patterns = ["a", "ab", "aba", "[[A]]", " ", "  ", "zz"];
    let replacements = ["", "X", "ab", "[A](a b)"];
    for s in texts {
        for p in patterns {
            for r in replacements {
                assert_eq!(replaced(s, p, r), s.replace(p, r), "{s:?} {p:?} {r:?}");
            }
        }
    }
}

#[test]
fn replace_all_with_an_empty_pattern_changes_nothing() {
    assert_eq!(replaced("abc", "", "-"), "abc");
    assert_eq!(replaced("", "", "-"), "");
}
