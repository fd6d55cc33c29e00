//! Links: the inline form `[key](target)` that takes the place of a
//! reference, and the target that stands in it.

use crate::text::{
    append_chars, from_chars, lemma_replace_all_without_occurrence, occurs_at, replace_all,
    replace_all_chars, starts_with, starts_with_chars, to_chars,
};
use vstd::prelude::*;

verus! {

/// `path` without the leading `root`. A path that does not begin with `root`
/// stays as it is.
pub open spec fn relative_to_root(path: Seq<char>, root: Seq<char>) -> Seq<char> {
    if starts_with(path, root) {
        path.skip(root.len() as int)
    } else {
        path
    }
}

/// `s` with `%20` in place of each space. No other character is encoded.
pub open spec fn encode_spaces(s: Seq<char>) -> Seq<char> {
    replace_all(s, seq![' '], seq!['%', '2', '0'])
}

/// The target of the link to the file at `path`: the path relative to `root`,
/// its spaces encoded.
pub open spec fn link_target(path: Seq<char>, root: Seq<char>) -> Seq<char> {
    encode_spaces(relative_to_root(path, root))
}

/// The inline link that shows `key` and leads to `target`.
pub open spec fn link_text(key: Seq<char>, target: Seq<char>) -> Seq<char> {
    seq!['['] + key + seq![']', '('] + target + seq![')']
}

/// What follows the root is the relative path: a path that is `root`
/// followed by `rest` is `rest` relative to `root`, its leading separator
/// included.
pub proof fn lemma_relative_to_root(root: Seq<char>, rest: Seq<char>)
    ensures
        relative_to_root(root + rest, root) == rest,
{
    let path = root + rest;
    assert(path.subrange(0, root.len() as int) =~= root);
    assert(path.skip(root.len() as int) =~= rest);
}

/// An encoded text holds no space.
pub proof fn lemma_encoded_holds_no_space(s: Seq<char>)
    ensures
        forall|i: int| 0 <= i < encode_spaces(s).len() ==> encode_spaces(s)[i] != ' ',
    decreases s.len(),
{
    let space = seq![' '];
    let code = seq!['%', '2', '0'];
    if s.len() >= 1 {
        let rest = s.skip(1);
        lemma_encoded_holds_no_space(rest);
        assert(s.subrange(0, 1) =~= s.take(1));
        if occurs_at(s, space, 0) {
            assert(encode_spaces(s) == code + encode_spaces(rest));
        } else {
            if s[0] == ' ' {
                assert(s.subrange(0, 1) =~= space);
            }
            assert(encode_spaces(s) == s.take(1) + encode_spaces(rest));
        }
    }
}

/// A text without a space is its own encoding: no other character is
/// touched.
pub proof fn lemma_without_space_nothing_is_encoded(s: Seq<char>)
    requires
        forall|i: int| 0 <= i < s.len() ==> s[i] != ' ',
    ensures
        encode_spaces(s) == s,
{
    let space = seq![' '];
    assert forall|i: int| !occurs_at(s, space, i) by {
        if occurs_at(s, space, i) {
            assert(s.subrange(i, i + 1)[0] == s[i]);
        }
    }
    lemma_replace_all_without_occurrence(s, space, seq!['%', '2', '0']);
}

pub(crate) fn relative_chars(path: &Vec<char>, root: &Vec<char>) -> (relative: Vec<char>)
    ensures
        relative@ == relative_to_root(path@, root@),
{
    let mut relative: Vec<char> = Vec::new();
    if starts_with_chars(path, root) {
        let mut i: usize = root.len();
        while i < path.len()
            invariant
                root.len() <= i <= path.len(),
                relative@ == path@.subrange(root.len() as int, i as int),
            decreases path.len() - i,
        {
            relative.push(path[i]);
            i += 1;
        }
        assert(path@.subrange(root.len() as int, path.len() as int) =~= path@.skip(
            root.len() as int,
        ));
    } else {
        append_chars(&mut relative, path);
        assert(relative@ =~= path@);
    }
    relative
}

pub(crate) fn target_chars(path: &Vec<char>, root: &Vec<char>) -> (target: Vec<char>)
    ensures
        target@ == link_target(path@, root@),
{
    let relative = relative_chars(path, root);
    let space: Vec<char> = vec![' '];
    let encoded: Vec<char> = vec!['%', '2', '0'];
    assert(space@ =~= seq![' ']);
    assert(encoded@ =~= seq!['%', '2', '0']);
    replace_all_chars(&relative, &space, &encoded)
}

pub(crate) fn link_chars(key: &Vec<char>, target: &Vec<char>) -> (link: Vec<char>)
    ensures
        link@ == link_text(key@, target@),
{
    let mut link: Vec<char> = Vec::new();
    link.push('[');
    append_chars(&mut link, key);
    link.push(']');
    link.push('(');
    append_chars(&mut link, target);
    link.push(')');
    assert(link@ =~= link_text(key@, target@));
    link
}

/// `path` relative to `root`.
pub fn relative_path(path: &str, root: &str) -> (relative: String)
    ensures
        relative@ == relative_to_root(path@, root@),
{
    from_chars(&relative_chars(&to_chars(path), &to_chars(root)))
}

/// The target of the link to the file at `path`, for documents under `root`.
pub fn target_for(path: &str, root: &str) -> (target: String)
    ensures
        target@ == link_target(path@, root@),
{
    from_chars(&target_chars(&to_chars(path), &to_chars(root)))
}

/// The inline link that shows `key` and leads to `target`.
pub fn link_for(key: &str, target: &str) -> (link: String)
    ensures
        link@ == link_text(key@, target@),
{
    from_chars(&link_chars(&to_chars(key), &to_chars(target)))
}

} // verus!
