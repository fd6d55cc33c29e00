//! What a traversal yields, stated over a directory tree as a whole.
//!
//! A tree is a ghost value: an entry and the trees of the entries that its
//! directory lists. The index of a tree is defined by
//! recursive descent; the laws below relate it to the order in which
//! documents are visited and to the indexer, which sees the tree one
//! directory at a time.

use crate::eligibility::is_excluded;
use crate::indexer::{first_descent, lemma_first_descent, record, recorded, visit_of, EntryText, Visit};
use crate::key::key_of;
use vstd::prelude::*;

verus! {

/// An entry together with what lies below it.
pub struct Tree {
    pub entry: EntryText,
    /// The trees of the entries that the directory lists, in listing order.
    /// What a file or a skipped directory holds here is never looked at.
    pub children: Seq<Tree>,
}

/// The entries at the top of the given trees.
pub open spec fn roots(forest: Seq<Tree>) -> Seq<EntryText> {
    forest.map_values(|t: Tree| t.entry)
}

/// The index after `tree` has been visited: an entry that does not take part
/// leaves the index as it is, whatever lies below it; a document is recorded;
/// a directory has its entries visited in listing order, each on the index
/// that the one before left.
pub open spec fn descend(
    tree: Tree,
    index: Map<Seq<char>, Seq<char>>,
    excludes: Seq<Seq<char>>,
) -> Map<Seq<char>, Seq<char>>
    decreases tree,
{
    match visit_of(tree.entry, excludes) {
        Visit::Skip => index,
        Visit::Record => record(index, tree.entry.path),
        Visit::Descend => descend_all(tree.children, index, excludes),
    }
}

/// The index after the given trees have been visited one after the other.
pub open spec fn descend_all(
    forest: Seq<Tree>,
    index: Map<Seq<char>, Seq<char>>,
    excludes: Seq<Seq<char>>,
) -> Map<Seq<char>, Seq<char>>
    decreases forest,
{
    if forest.len() == 0 {
        index
    } else {
        descend(forest.last(), descend_all(forest.drop_last(), index, excludes), excludes)
    }
}

/// The paths of the documents of `tree`, in the order in which they are
/// visited.
pub open spec fn documents(tree: Tree, excludes: Seq<Seq<char>>) -> Seq<Seq<char>>
    decreases tree,
{
    match visit_of(tree.entry, excludes) {
        Visit::Skip => Seq::empty(),
        Visit::Record => seq![tree.entry.path],
        Visit::Descend => documents_all(tree.children, excludes),
    }
}

/// The paths of the documents of the given trees, in visiting order.
pub open spec fn documents_all(forest: Seq<Tree>, excludes: Seq<Seq<char>>) -> Seq<Seq<char>>
    decreases forest,
{
    if forest.len() == 0 {
        Seq::empty()
    } else {
        documents_all(forest.drop_last(), excludes) + documents(forest.last(), excludes)
    }
}

/// The index after the files at the given paths have been recorded in order.
pub open spec fn record_all(index: Map<Seq<char>, Seq<char>>, paths: Seq<Seq<char>>) -> Map<
    Seq<char>,
    Seq<char>,
>
    decreases paths.len(),
{
    if paths.len() == 0 {
        index
    } else {
        record(record_all(index, paths.drop_last()), paths.last())
    }
}

/// Recording one file.
pub proof fn lemma_record_all_single(index: Map<Seq<char>, Seq<char>>, path: Seq<char>)
    ensures
        record_all(index, seq![path]) == record(index, path),
{
    let paths = seq![path];
    assert(paths.last() == path);
    assert(paths.drop_last() =~= Seq::<Seq<char>>::empty());
    assert(record_all(index, paths.drop_last()) == index);
}

/// Recording two runs of paths one after the other is recording them all.
pub proof fn lemma_record_all_concat(
    index: Map<Seq<char>, Seq<char>>,
    first: Seq<Seq<char>>,
    second: Seq<Seq<char>>,
)
    ensures
        record_all(index, first + second) == record_all(record_all(index, first), second),
    decreases second.len(),
{
    if second.len() == 0 {
        assert(first + second =~= first);
    } else {
        assert((first + second).drop_last() =~= first + second.drop_last());
        lemma_record_all_concat(index, first, second.drop_last());
    }
}

/// Last visited wins: after the files at `paths` have been recorded, a key
/// stands for the last of them that has this key.
pub proof fn lemma_last_recorded_wins(
    index: Map<Seq<char>, Seq<char>>,
    paths: Seq<Seq<char>>,
    i: int,
)
    requires
        0 <= i < paths.len(),
        forall|j: int| i < j < paths.len() ==> key_of(paths[j]) != key_of(paths[i]),
    ensures
        record_all(index, paths).contains_key(key_of(paths[i])),
        record_all(index, paths)[key_of(paths[i])] == paths[i],
    decreases paths.len(),
{
    if i < paths.len() - 1 {
        assert(key_of(paths.last()) != key_of(paths[i]));
        assert forall|j: int| i < j < paths.drop_last().len() implies key_of(
            paths.drop_last()[j],
        ) != key_of(paths.drop_last()[i]) by {
            assert(paths.drop_last()[j] == paths[j]);
        }
        lemma_last_recorded_wins(index, paths.drop_last(), i);
    }
}

/// A key that none of the recorded files has stands for what it stood for
/// before, or for nothing as before.
pub proof fn lemma_other_keys_are_kept(
    index: Map<Seq<char>, Seq<char>>,
    paths: Seq<Seq<char>>,
    key: Seq<char>,
)
    requires
        forall|j: int| 0 <= j < paths.len() ==> key_of(paths[j]) != key,
    ensures
        record_all(index, paths).contains_key(key) == index.contains_key(key),
        index.contains_key(key) ==> record_all(index, paths)[key] == index[key],
    decreases paths.len(),
{
    if paths.len() > 0 {
        assert(key_of(paths.last()) != key);
        assert forall|j: int| 0 <= j < paths.drop_last().len() implies key_of(
            paths.drop_last()[j],
        ) != key by {
            assert(paths.drop_last()[j] == paths[j]);
        }
        lemma_other_keys_are_kept(index, paths.drop_last(), key);
    }
}

/// Every entry of an index built from scratch is one of the recorded files,
/// under its own key.
pub proof fn lemma_recorded_entries(paths: Seq<Seq<char>>, key: Seq<char>)
    requires
        record_all(Map::empty(), paths).contains_key(key),
    ensures
        exists|i: int|
            0 <= i < paths.len() && #[trigger] paths[i] == record_all(Map::empty(), paths)[key]
                && key_of(paths[i]) == key,
    decreases paths.len(),
{
    if paths.len() > 0 {
        if key_of(paths.last()) == key {
            assert(paths[paths.len() - 1] == record_all(Map::empty(), paths)[key]);
        } else {
            lemma_recorded_entries(paths.drop_last(), key);
            let i = choose|i: int|
                0 <= i < paths.drop_last().len() && #[trigger] paths.drop_last()[i] == record_all(
                    Map::empty(),
                    paths.drop_last(),
                )[key] && key_of(paths.drop_last()[i]) == key;
            assert(paths[i] == paths.drop_last()[i]);
        }
    }
}

/// The index of a tree is what recording its documents in visiting order
/// gives.
pub proof fn lemma_descend_records_documents(
    tree: Tree,
    index: Map<Seq<char>, Seq<char>>,
    excludes: Seq<Seq<char>>,
)
    ensures
        descend(tree, index, excludes) == record_all(index, documents(tree, excludes)),
    decreases tree,
{
    match visit_of(tree.entry, excludes) {
        Visit::Skip => {},
        Visit::Record => {
            lemma_record_all_single(index, tree.entry.path);
        },
        Visit::Descend => {
            lemma_descend_all_records_documents(tree.children, index, excludes);
        },
    }
}

/// The index of several trees is what recording their documents in visiting
/// order gives.
pub proof fn lemma_descend_all_records_documents(
    forest: Seq<Tree>,
    index: Map<Seq<char>, Seq<char>>,
    excludes: Seq<Seq<char>>,
)
    ensures
        descend_all(forest, index, excludes) == record_all(
            index,
            documents_all(forest, excludes),
        ),
    decreases forest,
{
    if forest.len() > 0 {
        let before = descend_all(forest.drop_last(), index, excludes);
        lemma_descend_all_records_documents(forest.drop_last(), index, excludes);
        lemma_descend_records_documents(forest.last(), before, excludes);
        lemma_record_all_concat(
            index,
            documents_all(forest.drop_last(), excludes),
            documents(forest.last(), excludes),
        );
    }
}

/// No document that is visited holds an exclusion substring.
pub proof fn lemma_documents_are_not_excluded(tree: Tree, excludes: Seq<Seq<char>>, i: int)
    requires
        0 <= i < documents(tree, excludes).len(),
    ensures
        !is_excluded(documents(tree, excludes)[i], excludes),
    decreases tree,
{
    if visit_of(tree.entry, excludes) is Descend {
        lemma_documents_all_are_not_excluded(tree.children, excludes, i);
    }
}

/// No document that is visited holds an exclusion substring.
pub proof fn lemma_documents_all_are_not_excluded(
    forest: Seq<Tree>,
    excludes: Seq<Seq<char>>,
    i: int,
)
    requires
        0 <= i < documents_all(forest, excludes).len(),
    ensures
        !is_excluded(documents_all(forest, excludes)[i], excludes),
    decreases forest,
{
    let before = documents_all(forest.drop_last(), excludes);
    if i < before.len() {
        lemma_documents_all_are_not_excluded(forest.drop_last(), excludes, i);
    } else {
        lemma_documents_are_not_excluded(forest.last(), excludes, i - before.len());
    }
}

/// A directory whose path holds an exclusion substring is pruned: nothing
/// below it is visited and the index stays as it is.
pub proof fn lemma_excluded_subtree_is_pruned(
    tree: Tree,
    index: Map<Seq<char>, Seq<char>>,
    excludes: Seq<Seq<char>>,
)
    requires
        is_excluded(tree.entry.path, excludes),
    ensures
        documents(tree, excludes) == Seq::<Seq<char>>::empty(),
        descend(tree, index, excludes) == index,
{
}

/// No entry of the index of a tree leads to a path that holds an exclusion
/// substring, and every entry stands under the key of its path.
pub proof fn lemma_index_holds_no_excluded_path(
    tree: Tree,
    excludes: Seq<Seq<char>>,
    key: Seq<char>,
)
    requires
        descend(tree, Map::empty(), excludes).contains_key(key),
    ensures
        !is_excluded(descend(tree, Map::empty(), excludes)[key], excludes),
        key_of(descend(tree, Map::empty(), excludes)[key]) == key,
{
    let paths = documents(tree, excludes);
    lemma_descend_records_documents(tree, Map::empty(), excludes);
    lemma_recorded_entries(paths, key);
    let i = choose|i: int|
        0 <= i < paths.len() && #[trigger] paths[i] == record_all(Map::empty(), paths)[key]
            && key_of(paths[i]) == key;
    lemma_documents_are_not_excluded(tree, excludes, i);
}

/// Visiting one tree.
pub proof fn lemma_descend_all_single(
    tree: Tree,
    index: Map<Seq<char>, Seq<char>>,
    excludes: Seq<Seq<char>>,
)
    ensures
        descend_all(seq![tree], index, excludes) == descend(tree, index, excludes),
{
    let forest = seq![tree];
    assert(forest.last() == tree);
    assert(forest.drop_last() =~= Seq::<Tree>::empty());
    assert(descend_all(forest.drop_last(), index, excludes) == index);
}

/// Visiting two runs of trees one after the other is visiting them all.
pub proof fn lemma_descend_all_concat(
    first: Seq<Tree>,
    second: Seq<Tree>,
    index: Map<Seq<char>, Seq<char>>,
    excludes: Seq<Seq<char>>,
)
    ensures
        descend_all(first + second, index, excludes) == descend_all(
            second,
            descend_all(first, index, excludes),
            excludes,
        ),
    decreases second.len(),
{
    if second.len() == 0 {
        assert(first + second =~= first);
    } else {
        assert((first + second).drop_last() =~= first + second.drop_last());
        lemma_descend_all_concat(first, second.drop_last(), index, excludes);
    }
}

/// Trees of which none is read as a directory are visited by recording the
/// documents among their top entries.
pub proof fn lemma_descend_all_without_descent(
    forest: Seq<Tree>,
    index: Map<Seq<char>, Seq<char>>,
    excludes: Seq<Seq<char>>,
)
    requires
        forall|j: int|
            0 <= j < forest.len() ==> !(visit_of((#[trigger] forest[j]).entry, excludes) is Descend),
    ensures
        descend_all(forest, index, excludes) == recorded(index, roots(forest), excludes),
    decreases forest.len(),
{
    if forest.len() > 0 {
        assert(roots(forest).drop_last() =~= roots(forest.drop_last()));
        assert(roots(forest).last() == forest.last().entry);
        assert(!(visit_of(forest[forest.len() - 1].entry, excludes) is Descend));
        assert forall|j: int| 0 <= j < forest.drop_last().len() implies !(visit_of(
            (#[trigger] forest.drop_last()[j]).entry,
            excludes,
        ) is Descend) by {
            assert(forest.drop_last()[j] == forest[j]);
        }
        lemma_descend_all_without_descent(forest.drop_last(), index, excludes);
        let before = descend_all(forest.drop_last(), index, excludes);
        assert(descend_all(forest, index, excludes) == descend(forest.last(), before, excludes));
        assert(roots(forest).len() == forest.len());
    } else {
        assert(roots(forest).len() == 0);
    }
}

/// The number of entries of a tree.
pub open spec fn size(tree: Tree) -> nat
    decreases tree,
{
    1 + size_all(tree.children)
}

/// The number of entries of the given trees.
pub open spec fn size_all(forest: Seq<Tree>) -> nat
    decreases forest,
{
    if forest.len() == 0 {
        0
    } else {
        size_all(forest.drop_last()) + size(forest.last())
    }
}

/// The entries of one tree.
pub proof fn lemma_size_all_single(tree: Tree)
    ensures
        size_all(seq![tree]) == size(tree),
{
    let forest = seq![tree];
    assert(forest.last() == tree);
    assert(forest.drop_last() =~= Seq::<Tree>::empty());
    assert(size_all(forest.drop_last()) == 0);
}

/// The entries of two runs of trees are counted together.
pub proof fn lemma_size_all_concat(first: Seq<Tree>, second: Seq<Tree>)
    ensures
        size_all(first + second) == size_all(first) + size_all(second),
    decreases second.len(),
{
    if second.len() == 0 {
        assert(first + second =~= first);
    } else {
        assert((first + second).drop_last() =~= first + second.drop_last());
        lemma_size_all_concat(first, second.drop_last());
    }
}

/// Reading the directory at position `n` in place of its entry leaves fewer
/// entries to visit than before.
pub proof fn lemma_size_after_descent(forest: Seq<Tree>, n: int)
    requires
        0 <= n < forest.len(),
    ensures
        size_all(forest[n].children + forest.skip(n + 1)) < size_all(forest),
{
    let tail = forest.skip(n + 1);
    assert(forest =~= forest.take(n) + seq![forest[n]] + tail);
    lemma_size_all_concat(forest.take(n) + seq![forest[n]], tail);
    lemma_size_all_concat(forest.take(n), seq![forest[n]]);
    lemma_size_all_single(forest[n]);
    lemma_size_all_concat(forest[n].children, tail);
}

/// The index that the indexer builds when it is driven over the given trees:
/// it visits the pending entries up to the first one that is to be read as a
/// directory, is supplied with what that directory holds, and goes on until
/// nothing is pending.
pub open spec fn driven(
    pending: Seq<Tree>,
    index: Map<Seq<char>, Seq<char>>,
    excludes: Seq<Seq<char>>,
) -> Map<Seq<char>, Seq<char>>
    decreases size_all(pending),
    via driven_decreases
{
    let entries = roots(pending);
    let n = first_descent(entries, excludes);
    let index = recorded(index, entries.take(n), excludes);
    if 0 <= n < pending.len() {
        driven(pending[n].children + pending.skip(n + 1), index, excludes)
    } else {
        index
    }
}

#[via_fn]
proof fn driven_decreases(
    pending: Seq<Tree>,
    index: Map<Seq<char>, Seq<char>>,
    excludes: Seq<Seq<char>>,
) {
    let n = first_descent(roots(pending), excludes);
    if 0 <= n < pending.len() {
        lemma_size_after_descent(pending, n);
    }
}

/// The indexer, driven over a tree one directory at a time, builds the index
/// that recursive descent defines.
pub proof fn lemma_driven_is_descent(
    pending: Seq<Tree>,
    index: Map<Seq<char>, Seq<char>>,
    excludes: Seq<Seq<char>>,
)
    ensures
        driven(pending, index, excludes) == descend_all(pending, index, excludes),
    decreases size_all(pending),
{
    let entries = roots(pending);
    let n = first_descent(entries, excludes);
    lemma_first_descent(entries, excludes);
    let head = pending.take(n);
    let after = recorded(index, entries.take(n), excludes);
    assert(roots(head) =~= entries.take(n));
    assert forall|j: int| 0 <= j < head.len() implies !(visit_of(
        (#[trigger] head[j]).entry,
        excludes,
    ) is Descend) by {
        assert(entries[j] == head[j].entry);
    }
    lemma_descend_all_without_descent(head, index, excludes);
    assert(pending =~= head + pending.skip(n));
    lemma_descend_all_concat(head, pending.skip(n), index, excludes);
    if n < pending.len() {
        let tree = pending[n];
        let tail = pending.skip(n + 1);
        assert(entries[n] == tree.entry);
        assert(pending.skip(n) =~= seq![tree] + tail);
        lemma_descend_all_concat(seq![tree], tail, after, excludes);
        lemma_descend_all_single(tree, after, excludes);
        lemma_descend_all_concat(tree.children, tail, after, excludes);
        lemma_size_after_descent(pending, n);
        lemma_driven_is_descent(tree.children + tail, after, excludes);
    } else {
        assert(pending.skip(n) =~= Seq::<Tree>::empty());
    }
}

/// Driven over a single tree from an empty index, the indexer builds the
/// index of that tree.
pub proof fn lemma_indexer_builds_index_of_tree(tree: Tree, excludes: Seq<Seq<char>>)
    ensures
        driven(seq![tree], Map::empty(), excludes) == descend(tree, Map::empty(), excludes),
{
    lemma_driven_is_descent(seq![tree], Map::empty(), excludes);
    lemma_descend_all_single(tree, Map::empty(), excludes);
}

} // verus!
