//! The key of a file: its name without the directories that lead to it and
//! without its final extension. Directories are separated by `/`.

use crate::eligibility::{document_extension, has_document_extension};
use crate::text::{from_chars, to_chars};
use vstd::prelude::*;

verus! {

/// The position of the last `c` in `s`, or -1 where there is none.
pub open spec fn last_position(s: Seq<char>, c: char) -> int
    decreases s.len(),
{
    if s.len() == 0 {
        -1
    } else if s.last() == c {
        s.len() - 1
    } else {
        last_position(s.drop_last(), c)
    }
}

/// The last component of a path: what follows the last separator.
pub open spec fn file_name(path: Seq<char>) -> Seq<char> {
    path.skip(last_position(path, '/') + 1)
}

/// A file name without its final extension: what stands before the last dot.
/// A name without a dot, or whose only dot is its first character, is its own
/// stem.
pub open spec fn file_stem(name: Seq<char>) -> Seq<char> {
    let dot = last_position(name, '.');
    if dot > 0 {
        name.take(dot)
    } else {
        name
    }
}

/// The key under which the file at `path` is indexed.
pub open spec fn key_of(path: Seq<char>) -> Seq<char> {
    file_stem(file_name(path))
}

/// `last_position` names the last place where `c` stands.
pub proof fn lemma_last_position(s: Seq<char>, c: char)
    ensures
        -1 <= last_position(s, c) < s.len(),
        last_position(s, c) >= 0 ==> s[last_position(s, c)] == c,
        forall|i: int| last_position(s, c) < i < s.len() ==> s[i] != c,
    decreases s.len(),
{
    if s.len() > 0 && s.last() != c {
        lemma_last_position(s.drop_last(), c);
        assert forall|i: int| last_position(s, c) < i < s.len() implies s[i] != c by {
            if i < s.len() - 1 {
                assert(s.drop_last()[i] == s[i]);
            }
        }
    }
}

/// The place where `c` stands with no `c` behind it is the last position.
pub proof fn lemma_last_position_is(s: Seq<char>, c: char, at: int)
    requires
        -1 <= at < s.len(),
        at >= 0 ==> s[at] == c,
        forall|i: int| at < i < s.len() ==> s[i] != c,
    ensures
        last_position(s, c) == at,
    decreases s.len(),
{
    if s.len() > 0 && s.last() != c {
        assert forall|i: int| at < i < s.drop_last().len() implies s.drop_last()[i] != c by {
            assert(s.drop_last()[i] == s[i]);
        }
        lemma_last_position_is(s.drop_last(), c, at);
    }
}

/// The key of a document is its file name without the document extension;
/// only the file that is named by the extension alone keeps its whole name.
pub proof fn lemma_key_of_document(path: Seq<char>)
    requires
        has_document_extension(path),
    ensures
        has_document_extension(file_name(path)),
        file_name(path).len() > 3 ==> key_of(path) + document_extension() == file_name(path),
        file_name(path).len() == 3 ==> key_of(path) == document_extension(),
{
    let extension = document_extension();
    let n = path.len() as int;
    assert(path.subrange(n - 3, n) == extension);
    assert(path[n - 3] == extension[0] && path[n - 2] == extension[1] && path[n - 1]
        == extension[2]);
    lemma_last_position(path, '/');
    let name = file_name(path);
    let m = name.len() as int;
    assert(m >= 3);
    assert(name.subrange(m - 3, m) =~= extension);
    lemma_last_position_is(name, '.', m - 3);
    if m > 3 {
        assert(name.take(m - 3) + extension =~= name);
    } else {
        assert(name =~= extension);
    }
}

/// The position of the last `c` among the first `end` characters of `s`.
fn last_position_in(s: &Vec<char>, end: usize, c: char) -> (at: Option<usize>)
    requires
        end <= s.len(),
    ensures
        match at {
            Some(i) => i < end && i == last_position(s@.take(end as int), c),
            None => last_position(s@.take(end as int), c) == -1,
        },
{
    let mut i: usize = end;
    while i > 0
        invariant
            i <= end <= s.len(),
            forall|j: int| i <= j < end ==> s@[j] != c,
        decreases i,
    {
        if s[i - 1] == c {
            proof {
                lemma_last_position_is(s@.take(end as int), c, i - 1);
            }
            return Some(i - 1);
        }
        i -= 1;
    }
    proof {
        lemma_last_position_is(s@.take(end as int), c, -1);
    }
    None
}

pub(crate) fn key_chars(path: &Vec<char>) -> (key: Vec<char>)
    ensures
        key@ == key_of(path@),
{
    assert(path@.take(path.len() as int) =~= path@);
    let start: usize = match last_position_in(path, path.len(), '/') {
        Some(i) => i + 1,
        None => 0,
    };
    let mut name: Vec<char> = Vec::new();
    let mut i: usize = start;
    while i < path.len()
        invariant
            start <= i <= path.len(),
            name@ == path@.subrange(start as int, i as int),
        decreases path.len() - i,
    {
        name.push(path[i]);
        i += 1;
    }
    assert(name@ =~= file_name(path@));
    assert(name@.take(name.len() as int) =~= name@);
    let end: usize = match last_position_in(&name, name.len(), '.') {
        Some(dot) => if dot > 0 {
            dot
        } else {
            name.len()
        },
        None => name.len(),
    };
    let mut key: Vec<char> = Vec::new();
    let mut k: usize = 0;
    while k < end
        invariant
            k <= end <= name.len(),
            key@ == name@.take(k as int),
        decreases end - k,
    {
        key.push(name[k]);
        k += 1;
    }
    key
}

/// The key under which the file at `path` is indexed.
pub fn key_for(path: &str) -> (key: String)
    ensures
        key@ == key_of(path@),
{
    from_chars(&key_chars(&to_chars(path)))
}

} // verus!
