//! Rewriting a document: each reference whose key the index knows gives way
//! to a link to the indexed file; the others stay as they are.

use crate::index::ReferenceIndex;
use crate::link::{link_chars, link_target, link_text, target_chars};
use crate::reference::{
    closes_at, lemma_no_close_no_reference, reference_views, references_in, Reference,
    ReferencePattern, ReferenceText,
};
use crate::text::{from_chars, replace_all, replace_all_chars, to_chars};
use vstd::prelude::*;

verus! {

/// Whether the index knows the key of `reference`.
pub open spec fn resolves(reference: ReferenceText, index: Map<Seq<char>, Seq<char>>) -> bool {
    index.contains_key(reference.key)
}

/// The link that takes the place of `reference`, which the index knows.
pub open spec fn link_of(
    reference: ReferenceText,
    index: Map<Seq<char>, Seq<char>>,
    root: Seq<char>,
) -> Seq<char> {
    link_text(reference.key, link_target(index[reference.key], root))
}

/// `content` after one reference has been dealt with: where the index knows
/// its key, every occurrence of the reference's text has become the link;
/// where it does not, nothing has changed.
pub open spec fn resolve_one(
    content: Seq<char>,
    reference: ReferenceText,
    index: Map<Seq<char>, Seq<char>>,
    root: Seq<char>,
) -> Seq<char> {
    if resolves(reference, index) {
        replace_all(content, reference.text, link_of(reference, index, root))
    } else {
        content
    }
}

/// `content` after the given references have been dealt with one after the
/// other, each on what the one before left.
pub open spec fn rewritten(
    content: Seq<char>,
    references: Seq<ReferenceText>,
    index: Map<Seq<char>, Seq<char>>,
    root: Seq<char>,
) -> Seq<char>
    decreases references.len(),
{
    if references.len() == 0 {
        content
    } else {
        resolve_one(
            rewritten(content, references.drop_last(), index, root),
            references.last(),
            index,
            root,
        )
    }
}

/// The links written for the given references, one for each reference that
/// the index knows, in the order of the references.
pub open spec fn links_written(
    references: Seq<ReferenceText>,
    index: Map<Seq<char>, Seq<char>>,
    root: Seq<char>,
) -> Seq<Seq<char>>
    decreases references.len(),
{
    if references.len() == 0 {
        Seq::empty()
    } else if resolves(references.last(), index) {
        links_written(references.drop_last(), index, root).push(
            link_of(references.last(), index, root),
        )
    } else {
        links_written(references.drop_last(), index, root)
    }
}

/// Where the index knows none of the keys, the document stays as it is and
/// no link is written.
pub proof fn lemma_unresolved_references_change_nothing(
    content: Seq<char>,
    references: Seq<ReferenceText>,
    index: Map<Seq<char>, Seq<char>>,
    root: Seq<char>,
)
    requires
        forall|k: int| 0 <= k < references.len() ==> !resolves(#[trigger] references[k], index),
    ensures
        rewritten(content, references, index, root) == content,
        links_written(references, index, root) == Seq::<Seq<char>>::empty(),
    decreases references.len(),
{
    if references.len() > 0 {
        assert(!resolves(references[references.len() - 1], index));
        assert forall|k: int| 0 <= k < references.drop_last().len() implies !resolves(
            #[trigger] references.drop_last()[k],
            index,
        ) by {
            assert(references.drop_last()[k] == references[k]);
        }
        lemma_unresolved_references_change_nothing(content, references.drop_last(), index, root);
    }
}

/// As many links are written as there are references that the index knows;
/// where none is written, the document stays as it is.
pub proof fn lemma_no_link_no_change(
    content: Seq<char>,
    references: Seq<ReferenceText>,
    index: Map<Seq<char>, Seq<char>>,
    root: Seq<char>,
)
    requires
        links_written(references, index, root).len() == 0,
    ensures
        rewritten(content, references, index, root) == content,
    decreases references.len(),
{
    if references.len() > 0 {
        lemma_no_link_no_change(content, references.drop_last(), index, root);
    }
}

/// A link is not a reference: a link whose key came out of a reference, and
/// whose target holds no two closing brackets in a row, holds no reference.
pub proof fn lemma_link_holds_no_reference(key: Seq<char>, target: Seq<char>)
    requires
        forall|k: int| 0 <= k < key.len() ==> !closes_at(key, k),
        key.len() > 0 ==> key.last() != ']',
        forall|k: int| 0 <= k < target.len() ==> !closes_at(target, k),
    ensures
        references_in(link_text(key, target)) == Seq::<ReferenceText>::empty(),
{
    let link = link_text(key, target);
    assert forall|j: int| 0 <= j implies !closes_at(link, j) by {
        if closes_at(link, j) {
            if j == 0 {
            } else if j < key.len() {
                assert(link[j] == key[j - 1]);
                assert(link[j + 1] == key[j]);
                assert(closes_at(key, j - 1));
            } else if j == key.len() {
                assert(link[j] == key[j - 1]);
            } else if j == key.len() + 1 {
                assert(link[j + 1] == '(');
            } else if j == key.len() + 2 {
            } else if j < key.len() + 2 + target.len() {
                assert(link[j] == target[j - key.len() - 3]);
                assert(link[j + 1] == target[j - key.len() - 2]);
                assert(closes_at(target, j - key.len() - 3));
            } else {
            }
        }
    }
    lemma_no_close_no_reference(link, 0);
    assert(references_in(link) =~= Seq::<ReferenceText>::empty());
}

/// A rewritten document.
pub struct Rewrite {
    /// The text of the document after rewriting.
    pub content: String,
    /// The links that were written, in order. Where there is none the
    /// content is the document as it was.
    pub links: Vec<String>,
}

impl Rewrite {
    /// The links, as text.
    pub open spec fn link_views(&self) -> Seq<Seq<char>> {
        self.links@.map_values(|l: String| l@)
    }
}

/// Rewrites `content` for the given references. `index` gives for each key
/// the absolute path of its file, `root` the absolute path of the directory
/// that the links are relative to.
pub fn rewrite_with(
    content: &str,
    references: &Vec<Reference>,
    index: &ReferenceIndex,
    root: &str,
) -> (out: Rewrite)
    ensures
        out.content@ == rewritten(content@, reference_views(references@), index@, root@),
        out.link_views() == links_written(reference_views(references@), index@, root@),
        out.links@.len() == 0 ==> out.content@ == content@,
{
    let ghost views = reference_views(references@);
    let root_chars = to_chars(root);
    let mut current = to_chars(content);
    let mut links: Vec<String> = Vec::new();
    let mut i: usize = 0;
    assert(views.take(0) =~= Seq::<ReferenceText>::empty());
    while i < references.len()
        invariant
            i <= references.len(),
            views == reference_views(references@),
            root_chars@ == root@,
            current@ == rewritten(content@, views.take(i as int), index@, root@),
            links@.map_values(|l: String| l@) == links_written(
                views.take(i as int),
                index@,
                root@,
            ),
        decreases references.len() - i,
    {
        let reference = &references[i];
        proof {
            let next = views.take(i + 1);
            assert(next.drop_last() =~= views.take(i as int));
            assert(next.last() == reference@);
        }
        match index.get(reference.key.as_str()) {
            Some(path) => {
                let target = target_chars(&to_chars(path.as_str()), &root_chars);
                let link = link_chars(&to_chars(reference.key.as_str()), &target);
                current = replace_all_chars(&current, &to_chars(reference.text.as_str()), &link);
                let ghost before = links@.map_values(|l: String| l@);
                links.push(from_chars(&link));
                assert(links@.map_values(|l: String| l@) =~= before.push(link@));
            },
            None => {},
        }
        i += 1;
    }
    assert(views.take(references.len() as int) =~= views);
    proof {
        if links@.len() == 0 {
            lemma_no_link_no_change(content@, views, index@, root@);
        }
    }
    Rewrite { content: from_chars(&current), links }
}

/// Rewrites a document: finds its references and replaces those that the
/// index knows.
pub fn rewrite_document(
    pattern: &ReferencePattern,
    content: &str,
    index: &ReferenceIndex,
    root: &str,
) -> (out: Rewrite)
    ensures
        out.content@ == rewritten(content@, references_in(content@), index@, root@),
        out.link_views() == links_written(references_in(content@), index@, root@),
        out.links@.len() == 0 ==> out.content@ == content@,
{
    let references = pattern.find(content);
    rewrite_with(content, &references, index, root)
}

} // verus!
