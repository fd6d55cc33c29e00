//! Which paths take part: a directory, or a file with the document
//! extension, whose path holds none of the exclusion substrings.

use crate::text::{contains, contains_chars, ends_with, ends_with_chars, to_chars};
use vstd::prelude::*;

verus! {

/// The extension of a document: `.md`.
pub open spec fn document_extension() -> Seq<char> {
    seq!['.', 'm', 'd']
}

/// The path ends with the document extension.
pub open spec fn has_document_extension(path: Seq<char>) -> bool {
    ends_with(path, document_extension())
}

/// The path holds one of the exclusion substrings.
pub open spec fn is_excluded(path: Seq<char>, excludes: Seq<Seq<char>>) -> bool {
    exists|k: int| 0 <= k < excludes.len() && contains(path, #[trigger] excludes[k])
}

/// The path takes part: it is a directory or ends with the document
/// extension, and it is not excluded.
pub open spec fn eligible(path: Seq<char>, is_dir: bool, excludes: Seq<Seq<char>>) -> bool {
    (is_dir || has_document_extension(path)) && !is_excluded(path, excludes)
}

/// The exclusion substrings that a vector holds, as text.
pub open spec fn exclusion_views(excludes: Seq<String>) -> Seq<Seq<char>> {
    excludes.map_values(|e: String| e@)
}

/// A path that holds an exclusion substring does not take part, whatever its
/// extension and whether or not it is a directory.
pub proof fn lemma_excluded_path_is_not_eligible(
    path: Seq<char>,
    is_dir: bool,
    excludes: Seq<Seq<char>>,
    k: int,
)
    requires
        0 <= k < excludes.len(),
        contains(path, excludes[k]),
    ensures
        !eligible(path, is_dir, excludes),
{
}

/// Of the paths that are not excluded, exactly the directories and the paths
/// that end with the document extension take part.
pub proof fn lemma_eligible_when_not_excluded(
    path: Seq<char>,
    is_dir: bool,
    excludes: Seq<Seq<char>>,
)
    requires
        !is_excluded(path, excludes),
    ensures
        is_dir ==> eligible(path, is_dir, excludes),
        has_document_extension(path) ==> eligible(path, is_dir, excludes),
        !is_dir && !has_document_extension(path) ==> !eligible(path, is_dir, excludes),
{
}

/// Whether `path` holds one of the exclusion substrings.
pub(crate) fn excluded_chars(path: &Vec<char>, ignore_dirs: &Vec<String>) -> (r: bool)
    ensures
        r == is_excluded(path@, exclusion_views(ignore_dirs@)),
{
    let ghost excludes = exclusion_views(ignore_dirs@);
    let mut k: usize = 0;
    while k < ignore_dirs.len()
        invariant
            k <= ignore_dirs.len(),
            excludes == exclusion_views(ignore_dirs@),
            forall|j: int| 0 <= j < k ==> !contains(path@, #[trigger] excludes[j]),
        decreases ignore_dirs.len() - k,
    {
        let needle = to_chars(ignore_dirs[k].as_str());
        if contains_chars(path, &needle) {
            assert(contains(path@, excludes[k as int]));
            return true;
        }
        k += 1;
    }
    false
}

/// Whether `path` is left out: it is neither a directory nor a document, or
/// it holds one of the exclusion substrings. `is_dir` says whether the path
/// names a directory.
pub fn is_invalid_path(path: &str, is_dir: bool, ignore_dirs: &Vec<String>) -> (invalid: bool)
    ensures
        invalid == !eligible(path@, is_dir, exclusion_views(ignore_dirs@)),
{
    let chars = to_chars(path);
    let extension: Vec<char> = vec!['.', 'm', 'd'];
    assert(extension@ =~= document_extension());
    let is_document = ends_with_chars(&chars, &extension);
    !(is_dir || is_document) || excluded_chars(&chars, ignore_dirs)
}

/// Whether `path` takes part.
pub fn is_eligible(path: &str, is_dir: bool, ignore_dirs: &Vec<String>) -> (r: bool)
    ensures
        r == eligible(path@, is_dir, exclusion_views(ignore_dirs@)),
{
    !is_invalid_path(path, is_dir, ignore_dirs)
}

} // verus!
