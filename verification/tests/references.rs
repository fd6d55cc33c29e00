use wikilinks::reference::{Reference, ReferencePattern};

fn found(text: &str) -> Vec<(String, String)> {
    let pattern = ReferencePattern::new().expect("the reference pattern compiles");
    pattern.find(text).into_iter().map(|r: Reference| (r.text, r.key)).collect()
}

fn pairs(items: &[(&str, &str)]) -> Vec<(String, String)> {
    items.iter().map(|(t, k)| (t.to_string(), k.to_string())).collect()
}

/// The references of `text`, found by reading it character by character.
fn scan(text: &str) -> Vec<(String, String)> {
    let s: Vec<char> = text.chars().collect();
    let mut out = Vec::new();
    let mut from = 0;
    while from < s.len() {
        let mut end = None;
        if from + 1 < s.len() && s[from] == '[' && s[from + 1] == '[' {
            let mut k = from + 2;
            while k + 1 < s.len() {
                if s[k] == ']' && s[k + 1] == ']' {
                    end = Some(k + 2);
                    break;
                }
                if s[k] == '\n' {
                    break;
                }
                k += 1;
            }
        }
        match end {
            Some(e) => {
                out.push((s[from..e].iter().collect(), s[from + 2..e - 2].iter().collect()));
                from = e;
            }
            None => from += 1,
        }
    }
    out
}

#[test]
fn pattern_text_is_the_reference_expression() {
    assert_eq!(ReferencePattern::pattern_text(), r"\[\[(.*?)\]\]");
}

#[test]
fn new_pattern_compiles() {
    assert!(ReferencePattern::new().is_ok());
}

#[test]
fn pattern_text_is_accepted_by_the_engine() {
    let compiled = regex::Regex::new(ReferencePattern::pattern_text());
    assert!(compiled.is_ok());
    assert_eq!(compiled.unwrap().as_str(), ReferencePattern::pattern_text());
}

#[test]
fn finds_a_single_reference() {
    assert_eq!(found("see [[A]] here"), pairs(&[("[[A]]", "A")]));
}

#[test]
fn finds_references_in_order() {
    assert_eq!(
        found("[[A]][[B]] and [[C d]]"),
        pairs(&[("[[A]]", "A"), ("[[B]]", "B"), ("[[C d]]", "C d")])
    );
}

#[test]
fn finds_nothing_without_both_delimiters() {
    assert_eq!(found(""), pairs(&[]));
    assert_eq!(found("plain text"), pairs(&[]));
    assert_eq!(found("[[open only"), pairs(&[]));
    assert_eq!(found("close only]]"), pairs(&[]));
    assert_eq!(found("[single]"), pairs(&[]));
    assert_eq!(found("[[a]"), pairs(&[]));
    assert_eq!(found("[a]]"), pairs(&[]));
    assert_eq!(found("]][["), pairs(&[]));
    assert_eq!(found("[[]"), pairs(&[]));
}

#[test]
fn key_is_taken_verbatim() {
    assert_eq!(found("[[  spaced  ]]"), pairs(&[("[[  spaced  ]]", "  spaced  ")]));
    assert_eq!(found("[[Name#Section]]"), pairs(&[("[[Name#Section]]", "Name#Section")]));
    assert_eq!(found("[[a|b]]"), pairs(&[("[[a|b]]", "a|b")]));
    assert_eq!(found("[[Ünï cödé]]"), pairs(&[("[[Ünï cödé]]", "Ünï cödé")]));
    assert_eq!(found("[[a\tb\r]]"), pairs(&[("[[a\tb\r]]", "a\tb\r")]));
}

#[test]
fn empty_key_is_a_reference() {
    assert_eq!(found("[[]]"), pairs(&[("[[]]", "")]));
    assert_eq!(found("x[[]]y[[]]"), pairs(&[("[[]]", ""), ("[[]]", "")]));
}

#[test]
fn reference_closes_at_the_first_closing_pair() {
    assert_eq!(found("[[a]] b]]"), pairs(&[("[[a]]", "a")]));
    assert_eq!(found("[[a]]]"), pairs(&[("[[a]]", "a")]));
    assert_eq!(found("[[a]]]]"), pairs(&[("[[a]]", "a")]));
    assert_eq!(found("[[a]b]]"), pairs(&[("[[a]b]]", "a]b")]));
}

#[test]
fn reference_opens_at_the_leftmost_opening_pair() {
    assert_eq!(found("[[[a]]"), pairs(&[("[[[a]]", "[a")]));
    assert_eq!(found("[[a [[b]] c]]"), pairs(&[("[[a [[b]]", "a [[b")]));
    assert_eq!(found("[[[[a]]]]"), pairs(&[("[[[[a]]", "[[a")]));
    assert_eq!(found("[ [[a]]"), pairs(&[("[[a]]", "a")]));
}

#[test]
fn reference_does_not_span_lines() {
    assert_eq!(found("[[a\nb]]"), pairs(&[]));
    assert_eq!(found("[[a\n]]"), pairs(&[]));
    assert_eq!(found("[[\n]]"), pairs(&[]));
    assert_eq!(found("[[a\n[[b]]"), pairs(&[("[[b]]", "b")]));
    assert_eq!(found("[[a]]\n[[b]]"), pairs(&[("[[a]]", "a"), ("[[b]]", "b")]));
    assert_eq!(found("[[a\r\nb]]"), pairs(&[]));
    assert_eq!(found("[[x [[a\nb]] [[c]]"), pairs(&[("[[c]]", "c")]));
}

#[test]
fn search_resumes_behind_each_reference() {
    assert_eq!(found("[[a]][[b]]"), pairs(&[("[[a]]", "a"), ("[[b]]", "b")]));
    assert_eq!(found("[[a]]]][[b]]"), pairs(&[("[[a]]", "a"), ("[[b]]", "b")]));
    assert_eq!(found("[[[a]] [[a]]"), pairs(&[("[[[a]]", "[a"), ("[[a]]", "a")]));
}

#[test]
fn a_written_link_is_not_a_reference() {
    assert_eq!(found("[A](/sub/a.md)"), pairs(&[]));
    assert_eq!(found("see [A](/sub/a.md) and [B c](/b%20c.md)"), pairs(&[]));
}

#[test]
fn find_agrees_with_reading_character_by_character() {
    let pattern = ReferencePattern::new().expect("the reference pattern compiles");
    let alphabet = ['[', ']', 'a', '\n'];
    let mut count = 0;
    for len in 0..=7usize {
        let total = alphabet.len().pow(len as u32);
        for n in 0..total {
            let mut m = n;
            let mut text = String::new();
            for _ in 0..len {
                text.push(alphabet[m % alphabet.len()]);
                m /= alphabet.len();
            }
            let got: Vec<(String, String)> =
                pattern.find(&text).into_iter().map(|r| (r.text, r.key)).collect();
            assert_eq!(got, scan(&text), "{text:?}");
            count += 1;
        }
    }
    assert_eq!(count, 1 + 4 + 16 + 64 + 256 + 1024 + 4096 + 16384);
}

#[test]
fn find_agrees_with_reading_longer_texts() {
    let pattern = ReferencePattern::new().expect("the reference pattern compiles");
    let pieces = ["[[", "]]", "[", "]", "a b", "\n", "[[A]]", "é", "](", ")"];
    let mut seed: u64 = 0x2545F4914F6CDD1D;
    for _ in 0..3000 {
        let mut text = String::new();
        let parts = 1 + (seed % 12) as usize;
        for _ in 0..parts {
            seed ^= seed << 13;
            seed ^= seed >> 7;
            seed ^= seed << 17;
            text.push_str(pieces[(seed % pieces.len() as u64) as usize]);
        }
        let got: Vec<(String, String)> =
            pattern.find(&text).into_iter().map(|r| (r.text, r.key)).collect();
        assert_eq!(got, scan(&text), "{text:?}");
    }
}
