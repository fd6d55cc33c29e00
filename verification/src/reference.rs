//! References: the `[[key]]` tokens of a document.
//!
//! A reference opens with two `[`, closes with the first two `]` that follow,
//! and holds no line feed in between. A document is read from the left; the
//! search resumes behind each reference, so references never overlap.

use vstd::prelude::*;

verus! {

/// `regex::Regex`, a compiled expression. Nothing inside it is looked at.
#[verifier::external_type_specification]
#[verifier::external_body]
pub struct ExRegex(regex::Regex);

/// `regex::Error`, the engine's error. Nothing inside it is looked at.
#[verifier::external_type_specification]
#[verifier::external_body]
pub struct ExRegexError(regex::Error);

/// What `regex::Regex::new` returns for a pattern text: the expression that
/// it compiles with the engine's default options, or the error with which it
/// turns the text down.
pub uninterp spec fn regex_new(pattern: Seq<char>) -> Result<regex::Regex, regex::Error>;

/// What `to_string` returns for a `regex::Error`: the error as its `Display`
/// writes it.
pub uninterp spec fn regex_error_message(error: regex::Error) -> Seq<char>;

/// The expression that describes a reference: two `[`, as few characters other
/// than a line feed as possible (captured as group 1), two `]`.
pub open spec fn reference_pattern() -> Seq<char> {
    "\\[\\[(.*?)\\]\\]"@
}

/// Two opening brackets stand at `i`.
pub open spec fn opens_at(s: Seq<char>, i: int) -> bool {
    0 <= i && i + 1 < s.len() && s[i] == '[' && s[i + 1] == '['
}

/// Two closing brackets stand at `i`.
pub open spec fn closes_at(s: Seq<char>, i: int) -> bool {
    0 <= i && i + 1 < s.len() && s[i] == ']' && s[i + 1] == ']'
}

/// From `a` up to `b` stands neither a line feed nor a place to close.
pub open spec fn plain_between(s: Seq<char>, a: int, b: int) -> bool {
    forall|k: int| a <= k < b ==> s[k] != '\n' && !closes_at(s, k)
}

/// A reference spans `s[i..j + 2]`: it opens at `i`, closes at `j`, and between
/// the brackets stands neither a line feed nor an earlier place to close.
pub open spec fn is_reference(s: Seq<char>, i: int, j: int) -> bool {
    &&& opens_at(s, i)
    &&& i + 2 <= j
    &&& closes_at(s, j)
    &&& plain_between(s, i + 2, j)
}

/// A reference starts at `i`.
pub open spec fn reference_starts_at(s: Seq<char>, i: int) -> bool {
    exists|j: int| is_reference(s, i, j)
}

/// Where a reference whose key begins at `k` closes, if it does.
pub open spec fn closing_from(s: Seq<char>, k: int) -> Option<int>
    decreases s.len() - k,
{
    if k < 0 || k + 1 >= s.len() {
        None
    } else if closes_at(s, k) {
        Some(k)
    } else if s[k] == '\n' {
        None
    } else {
        closing_from(s, k + 1)
    }
}

/// The end of the reference that starts at `i`, if one does.
pub open spec fn reference_end(s: Seq<char>, i: int) -> Option<int> {
    if opens_at(s, i) {
        match closing_from(s, i + 2) {
            Some(j) => Some(j + 2),
            None => None,
        }
    } else {
        None
    }
}

/// The references of `s` from position `from` on, each as the pair of its
/// start and its end: the leftmost one, then those behind it.
pub open spec fn reference_spans(s: Seq<char>, from: int) -> Seq<(int, int)>
    decreases s.len() - from,
{
    if from < 0 || from >= s.len() {
        Seq::empty()
    } else {
        match reference_end(s, from) {
            Some(end) => if from < end <= s.len() {
                seq![(from, end)] + reference_spans(s, end)
            } else {
                Seq::empty()
            },
            None => reference_spans(s, from + 1),
        }
    }
}

/// `closing_from` finds the first place to close, unless a line feed or the
/// end of the text comes first.
pub proof fn lemma_closing_from(s: Seq<char>, k: int)
    requires
        0 <= k,
    ensures
        match closing_from(s, k) {
            Some(j) => k <= j && closes_at(s, j) && plain_between(s, k, j),
            None => forall|j: int| k <= j && closes_at(s, j) ==> !plain_between(s, k, j),
        },
    decreases s.len() - k,
{
    if k + 1 >= s.len() {
    } else if closes_at(s, k) {
    } else if s[k] == '\n' {
        assert forall|j: int| k <= j && closes_at(s, j) implies !plain_between(s, k, j) by {
            assert(k < j);
        }
    } else {
        lemma_closing_from(s, k + 1);
        match closing_from(s, k + 1) {
            Some(j) => {
                assert(plain_between(s, k, j));
            },
            None => {
                assert forall|j: int| k <= j && closes_at(s, j) implies !plain_between(
                    s,
                    k,
                    j,
                ) by {
                    assert(k + 1 <= j);
                    assert(!plain_between(s, k + 1, j));
                }
            },
        }
    }
}

/// A reference that starts at `i` ends in one place only.
pub proof fn lemma_reference_closes_once(s: Seq<char>, i: int, j: int, k: int)
    requires
        is_reference(s, i, j),
        is_reference(s, i, k),
    ensures
        j == k,
{
    if j < k {
        assert(!closes_at(s, j));
    }
    if k < j {
        assert(!closes_at(s, k));
    }
}

/// `reference_end` gives the end of the reference that starts at `i`, and
/// none exactly where no reference starts there.
pub proof fn lemma_reference_end(s: Seq<char>, i: int)
    ensures
        match reference_end(s, i) {
            Some(end) => is_reference(s, i, end - 2) && i + 4 <= end <= s.len(),
            None => !reference_starts_at(s, i),
        },
{
    if opens_at(s, i) {
        lemma_closing_from(s, i + 2);
    }
}

/// The spans are references, stand in order without overlapping, and leave
/// out no place where a reference starts: such a place lies in one of them.
pub proof fn lemma_reference_spans(s: Seq<char>, from: int)
    requires
        0 <= from,
    ensures
        forall|k: int|
            0 <= k < reference_spans(s, from).len() ==> {
                let span = #[trigger] reference_spans(s, from)[k];
                from <= span.0 && span.1 <= s.len() && is_reference(s, span.0, span.1 - 2)
            },
        forall|k: int, l: int|
            0 <= k < l < reference_spans(s, from).len() ==> (#[trigger] reference_spans(
                s,
                from,
            )[k]).1 <= (#[trigger] reference_spans(s, from)[l]).0,
        forall|i: int|
            from <= i && reference_starts_at(s, i) ==> exists|k: int|
                0 <= k < reference_spans(s, from).len() && (#[trigger] reference_spans(
                    s,
                    from,
                )[k]).0 <= i < reference_spans(s, from)[k].1,
    decreases s.len() - from,
{
    let spans = reference_spans(s, from);
    if from >= s.len() {
        assert forall|i: int| from <= i implies !reference_starts_at(s, i) by {}
    } else {
        lemma_reference_end(s, from);
        match reference_end(s, from) {
            Some(end) => {
                let rest = reference_spans(s, end);
                lemma_reference_spans(s, end);
                assert(spans =~= seq![(from, end)] + rest);
                assert forall|k: int| 0 <= k < spans.len() implies {
                    let span = #[trigger] spans[k];
                    from <= span.0 && span.1 <= s.len() && is_reference(s, span.0, span.1 - 2)
                } by {
                    if k > 0 {
                        assert(spans[k] == rest[k - 1]);
                    }
                }
                assert forall|k: int, l: int| 0 <= k < l < spans.len() implies (
                #[trigger] spans[k]).1 <= (#[trigger] spans[l]).0 by {
                    assert(spans[l] == rest[l - 1]);
                    if k > 0 {
                        assert(spans[k] == rest[k - 1]);
                    }
                }
                assert forall|i: int| from <= i && reference_starts_at(s, i) implies exists|
                    k: int,
                |
                    0 <= k < spans.len() && (#[trigger] spans[k]).0 <= i < spans[k].1 by {
                    if i < end {
                        assert(spans[0].0 <= i < spans[0].1);
                    } else {
                        let k = choose|k: int|
                            0 <= k < rest.len() && (#[trigger] rest[k]).0 <= i < rest[k].1;
                        assert(spans[k + 1] == rest[k]);
                    }
                }
            },
            None => {
                let rest = reference_spans(s, from + 1);
                lemma_reference_spans(s, from + 1);
                assert(spans == rest);
                assert forall|i: int| from <= i && reference_starts_at(s, i) implies exists|
                    k: int,
                |
                    0 <= k < spans.len() && (#[trigger] spans[k]).0 <= i < spans[k].1 by {
                    assert(i != from);
                }
            },
        }
    }
}

/// A text without a place to close holds no reference.
pub proof fn lemma_no_close_no_reference(s: Seq<char>, from: int)
    requires
        0 <= from,
        forall|j: int| from <= j ==> !closes_at(s, j),
    ensures
        reference_spans(s, from) == Seq::<(int, int)>::empty(),
    decreases s.len() - from,
{
    if from < s.len() {
        lemma_reference_end(s, from);
        match reference_end(s, from) {
            Some(end) => {
                assert(closes_at(s, end - 2));
            },
            None => {
                lemma_no_close_no_reference(s, from + 1);
            },
        }
    }
}

/// A reference reads `[[`, its key, `]]`; its key holds no line feed and no
/// place to close, and does not end in a closing bracket.
pub proof fn lemma_reference_text(s: Seq<char>, i: int, j: int)
    requires
        is_reference(s, i, j),
    ensures
        ({
            let r = reference_text(s, (i, j + 2));
            &&& r.text == seq!['[', '['] + r.key + seq![']', ']']
            &&& r.key.len() == j - i - 2
            &&& forall|k: int| 0 <= k < r.key.len() ==> r.key[k] != '\n'
            &&& forall|k: int| 0 <= k < r.key.len() ==> !closes_at(r.key, k)
            &&& r.key.len() > 0 ==> r.key.last() != ']'
        }),
{
    let r = reference_text(s, (i, j + 2));
    assert(r.text =~= seq!['[', '['] + r.key + seq![']', ']']);
    assert forall|k: int| 0 <= k < r.key.len() implies r.key[k] != '\n' && !closes_at(
        r.key,
        k,
    ) by {
        assert(r.key[k] == s[i + 2 + k]);
        assert(s[i + 2 + k] != '\n' && !closes_at(s, i + 2 + k));
        if k + 1 < r.key.len() {
            assert(r.key[k + 1] == s[i + 2 + k + 1]);
        }
    }
    if r.key.len() > 0 {
        assert(r.key.last() == s[j - 1]);
        assert(!closes_at(s, j - 1));
    }
}

/// Every reference of a document is one of its spans, read as text.
pub proof fn lemma_references_in(s: Seq<char>, k: int)
    requires
        0 <= k < references_in(s).len(),
    ensures
        references_in(s).len() == reference_spans(s, 0).len(),
        references_in(s)[k] == reference_text(s, reference_spans(s, 0)[k]),
        is_reference(s, reference_spans(s, 0)[k].0, reference_spans(s, 0)[k].1 - 2),
{
    lemma_reference_spans(s, 0);
}

/// A reference as text: the whole token and the key between its brackets.
pub struct ReferenceText {
    pub text: Seq<char>,
    pub key: Seq<char>,
}

/// The reference that spans `s[span.0..span.1]`.
pub open spec fn reference_text(s: Seq<char>, span: (int, int)) -> ReferenceText {
    ReferenceText { text: s.subrange(span.0, span.1), key: s.subrange(span.0 + 2, span.1 - 2) }
}

/// The references of a document, in the order in which they stand.
pub open spec fn references_in(s: Seq<char>) -> Seq<ReferenceText> {
    reference_spans(s, 0).map_values(|span: (int, int)| reference_text(s, span))
}

/// A reference found in a document.
#[derive(Debug)]
pub struct Reference {
    /// The token as it stands in the document, brackets included.
    pub text: String,
    /// The text between the brackets.
    pub key: String,
}

impl View for Reference {
    type V = ReferenceText;

    open spec fn view(&self) -> ReferenceText {
        ReferenceText { text: self.text@, key: self.key@ }
    }
}

/// The references that a vector holds, as text.
pub open spec fn reference_views(found: Seq<Reference>) -> Seq<ReferenceText> {
    found.map_values(|r: Reference| r@)
}

/// Why the reference pattern could not be prepared: the engine did not
/// accept it.
#[derive(Debug)]
pub struct PatternError {
    /// The engine's message.
    pub message: String,
}

/// Calls `regex::Regex::new`, which compiles `pattern` with the engine's
/// default options. What it returns depends on the pattern text alone, and
/// is named; whether the text is accepted is not said here.
#[verifier::external_body]
fn compile(pattern: &str) -> (compiled: Result<regex::Regex, regex::Error>)
    ensures
        compiled == regex_new(pattern@),
{
    regex::Regex::new(pattern)
}

/// Calls `to_string` on a `regex::Error`, which writes the error as its
/// `Display` does. The message depends on the error alone, and is named.
#[verifier::external_body]
fn error_message(error: &regex::Error) -> (message: String)
    ensures
        message@ == regex_error_message(*error),
{
    error.to_string()
}

/// Calls `regex::Regex::captures_iter` on the expression that the engine
/// compiles from the reference pattern and hands out, for each match, the matched text (group
/// 0) and the captured key (group 1).
///
/// Not proved: that the matches of this pattern are the references of the
/// text. The claim rests on the documented meaning of the pattern: `\[` and
/// `\]` match the bracket itself, `.` matches any character except a line
/// feed, `*?` takes as few repetitions as possible, a search reports the
/// match that starts first, and the iterator yields successive matches that
/// do not overlap. The engine counts in bytes and the contract in
/// characters; as a bracket or a line feed is one byte that is part of no
/// longer character, both ways of counting cut out the same texts. Group 1
/// takes part in every match of this pattern, so the indexing never fails.
#[verifier::external_body]
fn captures(regex: &regex::Regex, text: &str) -> (found: Vec<Reference>)
    requires
        regex_new(reference_pattern()) == Ok::<regex::Regex, regex::Error>(*regex),
    ensures
        reference_views(found@) == references_in(text@),
{
    regex.captures_iter(text).map(
        |c| Reference { text: c[0].to_string(), key: c[1].to_string() },
    ).collect()
}

/// The compiled reference pattern. It is prepared once and then used for
/// every document.
pub struct ReferencePattern {
    regex: regex::Regex,
}

impl ReferencePattern {
    #[verifier::type_invariant]
    spec fn holds_reference_pattern(&self) -> bool {
        regex_new(reference_pattern()) == Ok::<regex::Regex, regex::Error>(self.regex)
    }

    /// The text of the reference pattern.
    pub fn pattern_text() -> (text: &'static str)
        ensures
            text@ == reference_pattern(),
    {
        "\\[\\[(.*?)\\]\\]"
    }

    /// What compiling the reference pattern gave, as a value of this library:
    /// the pattern where it compiled, the engine's message where it did not.
    fn from_compiled(compiled: Result<regex::Regex, regex::Error>) -> (pattern: Result<
        ReferencePattern,
        PatternError,
    >)
        requires
            compiled == regex_new(reference_pattern()),
        ensures
            match compiled {
                Ok(_) => pattern is Ok,
                Err(error) => pattern matches Err(e) && e.message@ == regex_error_message(error),
            },
    {
        match compiled {
            Ok(regex) => Ok(ReferencePattern { regex }),
            Err(error) => Err(PatternError { message: error_message(&error) }),
        }
    }

    /// Compiles the reference pattern. Returns the pattern where the engine
    /// accepts the pattern text, and the engine's message where it turns the
    /// text down.
    pub fn new() -> (pattern: Result<ReferencePattern, PatternError>)
        ensures
            match regex_new(reference_pattern()) {
                Ok(_) => pattern is Ok,
                Err(error) => pattern matches Err(e) && e.message@ == regex_error_message(error),
            },
    {
        ReferencePattern::from_compiled(compile(ReferencePattern::pattern_text()))
    }

    /// The references of `text`, in the order in which they stand.
    pub fn find(&self, text: &str) -> (found: Vec<Reference>)
        ensures
            reference_views(found@) == references_in(text@),
    {
        proof {
            use_type_invariant(self);
        }
        captures(&self.regex, text)
    }
}

} // verus!
