//! Building the index: the entries of a directory tree are visited depth
//! first, in the order in which each directory lists them.
//!
//! The indexer decides; its caller reads the directories. The caller asks for
//! the next directory to read, supplies what that directory holds, and asks
//! again until no directory is left.

use crate::eligibility::{eligible, exclusion_views, is_invalid_path};
use crate::index::ReferenceIndex;
use crate::key::{key_for, key_of};
use vstd::prelude::*;

verus! {

/// An entry of the file system: its path and what stands there.
#[derive(Debug)]
pub struct Entry {
    pub path: String,
    pub is_dir: bool,
    pub is_file: bool,
}

/// An entry as text.
pub struct EntryText {
    pub path: Seq<char>,
    pub is_dir: bool,
    pub is_file: bool,
}

impl View for Entry {
    type V = EntryText;

    open spec fn view(&self) -> EntryText {
        EntryText { path: self.path@, is_dir: self.is_dir, is_file: self.is_file }
    }
}

/// The entries that a vector holds, as text.
pub open spec fn entry_views(entries: Seq<Entry>) -> Seq<EntryText> {
    entries.map_values(|e: Entry| e@)
}

/// What the traversal does with an entry.
#[derive(Debug)]
pub enum Visit {
    /// The entry does not take part; a directory is left unread.
    Skip,
    /// The entry is a document: it is recorded in the index.
    Record,
    /// The entry is to be read as a directory and its entries visited.
    Descend,
}

/// What the traversal does with `entry`: an entry that does not take part is
/// skipped, a file that does is recorded, and everything else is read as a
/// directory.
pub open spec fn visit_of(entry: EntryText, excludes: Seq<Seq<char>>) -> Visit {
    if !eligible(entry.path, entry.is_dir, excludes) {
        Visit::Skip
    } else if entry.is_file {
        Visit::Record
    } else {
        Visit::Descend
    }
}

/// The index after the file at `path` has been recorded: its key now stands
/// for it, whatever the key stood for before.
pub open spec fn record(index: Map<Seq<char>, Seq<char>>, path: Seq<char>) -> Map<
    Seq<char>,
    Seq<char>,
> {
    index.insert(key_of(path), path)
}

/// The index after the given entries have been visited in order, none of
/// them being read as a directory: the documents among them are recorded.
pub open spec fn recorded(
    index: Map<Seq<char>, Seq<char>>,
    entries: Seq<EntryText>,
    excludes: Seq<Seq<char>>,
) -> Map<Seq<char>, Seq<char>>
    decreases entries.len(),
{
    if entries.len() == 0 {
        index
    } else {
        let before = recorded(index, entries.drop_last(), excludes);
        if visit_of(entries.last(), excludes) is Record {
            record(before, entries.last().path)
        } else {
            before
        }
    }
}

/// The position of the first entry that is to be read as a directory, or
/// the number of entries where there is none.
pub open spec fn first_descent(entries: Seq<EntryText>, excludes: Seq<Seq<char>>) -> int
    decreases entries.len(),
{
    if entries.len() == 0 {
        0
    } else if visit_of(entries[0], excludes) is Descend {
        0
    } else {
        1 + first_descent(entries.drop_first(), excludes)
    }
}

/// `first_descent` names the first entry that is to be read as a directory.
pub proof fn lemma_first_descent(entries: Seq<EntryText>, excludes: Seq<Seq<char>>)
    ensures
        0 <= first_descent(entries, excludes) <= entries.len(),
        forall|j: int|
            0 <= j < first_descent(entries, excludes) ==> !(visit_of(
                #[trigger] entries[j],
                excludes,
            ) is Descend),
        first_descent(entries, excludes) < entries.len() ==> visit_of(
            entries[first_descent(entries, excludes)],
            excludes,
        ) is Descend,
    decreases entries.len(),
{
    if entries.len() > 0 && !(visit_of(entries[0], excludes) is Descend) {
        let rest = entries.drop_first();
        lemma_first_descent(rest, excludes);
        assert forall|j: int| 0 <= j < first_descent(entries, excludes) implies !(visit_of(
            #[trigger] entries[j],
            excludes,
        ) is Descend) by {
            if j > 0 {
                assert(rest[j - 1] == entries[j]);
            }
        }
    }
}

/// The position before which no entry is to be read as a directory, and at
/// which one is or the entries end, is the first descent.
pub proof fn lemma_first_descent_is(entries: Seq<EntryText>, excludes: Seq<Seq<char>>, n: int)
    requires
        0 <= n <= entries.len(),
        forall|j: int| 0 <= j < n ==> !(visit_of(#[trigger] entries[j], excludes) is Descend),
        n < entries.len() ==> visit_of(entries[n], excludes) is Descend,
    ensures
        first_descent(entries, excludes) == n,
    decreases entries.len(),
{
    if n > 0 {
        let rest = entries.drop_first();
        assert(!(visit_of(entries[0], excludes) is Descend));
        assert forall|j: int| 0 <= j < n - 1 implies !(visit_of(
            #[trigger] rest[j],
            excludes,
        ) is Descend) by {
            assert(rest[j] == entries[j + 1]);
        }
        lemma_first_descent_is(rest, excludes, n - 1);
    }
}

/// What the traversal does with `entry`.
pub fn visit(entry: &Entry, ignore_dirs: &Vec<String>) -> (v: Visit)
    ensures
        v == visit_of(entry@, exclusion_views(ignore_dirs@)),
{
    if is_invalid_path(entry.path.as_str(), entry.is_dir, ignore_dirs) {
        Visit::Skip
    } else if entry.is_file {
        Visit::Record
    } else {
        Visit::Descend
    }
}

/// A traversal under way: the index built so far and the entries that are
/// still to be visited.
pub struct Indexer {
    ignore_dirs: Vec<String>,
    /// The entries still to be visited; the last one is visited next.
    stack: Vec<Entry>,
    index: ReferenceIndex,
}

impl Indexer {
    /// The exclusion substrings of this traversal.
    pub closed spec fn excludes(&self) -> Seq<Seq<char>> {
        exclusion_views(self.ignore_dirs@)
    }

    /// The entries still to be visited, the next one first.
    pub closed spec fn pending(&self) -> Seq<EntryText> {
        Seq::new(self.stack@.len(), |i: int| self.stack@[self.stack@.len() - 1 - i]@)
    }

    /// The index built so far.
    pub closed spec fn indexed(&self) -> Map<Seq<char>, Seq<char>> {
        self.index@
    }

    /// A traversal that starts at `root` with an empty index.
    pub fn new(root: Entry, ignore_dirs: Vec<String>) -> (indexer: Indexer)
        ensures
            indexer.excludes() == exclusion_views(ignore_dirs@),
            indexer.pending() == seq![root@],
            indexer.indexed() == Map::<Seq<char>, Seq<char>>::empty(),
    {
        let mut stack: Vec<Entry> = Vec::new();
        stack.push(root);
        let indexer = Indexer { ignore_dirs, stack, index: ReferenceIndex::new() };
        assert(indexer.pending() =~= seq![root@]);
        indexer
    }

    /// Visits the pending entries up to the first one that is to be read as
    /// a directory, recording the documents on the way, and returns the path
    /// of that directory. Returns `None` when every entry has been visited:
    /// the index is then complete.
    pub fn next_directory(&mut self) -> (directory: Option<String>)
        ensures
            final(self).excludes() == old(self).excludes(),
            ({
                let entries = old(self).pending();
                let n = first_descent(entries, old(self).excludes());
                &&& final(self).indexed() == recorded(
                    old(self).indexed(),
                    entries.take(n),
                    old(self).excludes(),
                )
                &&& if n < entries.len() {
                    &&& directory matches Some(path)
                    &&& path@ == entries[n].path
                    &&& final(self).pending() == entries.skip(n + 1)
                } else {
                    &&& directory is None
                    &&& final(self).pending() == Seq::<EntryText>::empty()
                }
            }),
    {
        let ghost entries = self.pending();
        let ghost excludes = self.excludes();
        let ghost before = self.indexed();
        let ghost mut m: int = 0;
        proof {
            assert(entries.skip(0) =~= entries);
            assert(entries.take(0) =~= Seq::<EntryText>::empty());
        }
        loop
            invariant
                entries == old(self).pending(),
                excludes == old(self).excludes(),
                before == old(self).indexed(),
                0 <= m <= entries.len(),
                self.excludes() == excludes,
                self.pending() == entries.skip(m),
                self.indexed() == recorded(before, entries.take(m), excludes),
                forall|j: int|
                    0 <= j < m ==> !(visit_of(#[trigger] entries[j], excludes) is Descend),
            decreases self.stack@.len(),
        {
            let ghost pending = self.pending();
            let ghost stacked = self.stack@;
            match self.stack.pop() {
                None => {
                    proof {
                        assert(pending.len() == 0);
                        assert(m == entries.len());
                        lemma_first_descent_is(entries, excludes, m);
                        assert(entries.take(m) =~= entries.take(entries.len() as int));
                        assert(self.pending() =~= Seq::<EntryText>::empty());
                    }
                    return None;
                },
                Some(entry) => {
                    proof {
                        assert(pending.len() == stacked.len());
                        assert(pending[0] == stacked[stacked.len() - 1]@);
                        assert(pending[0] == entry@);
                        assert(m < entries.len());
                        assert(entries.skip(m)[0] == entries[m]);
                        assert(entries[m] == entry@);
                        assert forall|i: int| 0 <= i < self.pending().len() implies self.pending()[i]
                            == entries.skip(m + 1)[i] by {
                            assert(pending[i + 1] == stacked[stacked.len() - 2 - i]@);
                            assert(entries.skip(m)[i + 1] == entries[m + 1 + i]);
                        }
                        assert(self.pending() =~= entries.skip(m + 1));
                        assert(entries.take(m + 1).drop_last() =~= entries.take(m));
                        assert(entries.take(m + 1).last() == entry@);
                    }
                    match visit(&entry, &self.ignore_dirs) {
                        Visit::Skip => {},
                        Visit::Record => {
                            let key = key_for(entry.path.as_str());
                            self.index.insert(key, entry.path);
                        },
                        Visit::Descend => {
                            proof {
                                lemma_first_descent_is(entries, excludes, m);
                            }
                            return Some(entry.path);
                        },
                    }
                    proof {
                        m = m + 1;
                    }
                },
            }
        }
    }

    /// Takes what the directory last returned by `next_directory` holds, in
    /// the order in which the directory lists it. These entries are visited
    /// before those that were pending.
    pub fn supply(&mut self, entries: Vec<Entry>)
        ensures
            final(self).excludes() == old(self).excludes(),
            final(self).indexed() == old(self).indexed(),
            final(self).pending() == entry_views(entries@) + old(self).pending(),
    {
        let mut entries = entries;
        let ghost supplied = entry_views(entries@);
        let ghost pending = self.pending();
        proof {
            assert(supplied.skip(supplied.len() as int) + pending =~= pending);
        }
        while entries.len() > 0
            invariant
                self.excludes() == old(self).excludes(),
                self.indexed() == old(self).indexed(),
                entry_views(entries@) == supplied.take(entries@.len() as int),
                entries@.len() <= supplied.len(),
                self.pending() == supplied.skip(entries@.len() as int) + pending,
            decreases entries@.len(),
        {
            let ghost n = entries@.len() as int;
            let ghost views = entry_views(entries@);
            let ghost stacked = self.pending();
            match entries.pop() {
                Some(entry) => {
                    proof {
                        assert(views[n - 1] == entry@);
                        assert(supplied[n - 1] == entry@);
                        assert(entry_views(entries@) =~= supplied.take(n - 1));
                    }
                    self.stack.push(entry);
                    proof {
                        assert(self.pending() =~= seq![entry@] + stacked);
                        assert(seq![entry@] + (supplied.skip(n) + pending) =~= supplied.skip(
                            n - 1,
                        ) + pending);
                    }
                },
                None => {},
            }
        }
        proof {
            assert(supplied.skip(0) =~= supplied);
        }
    }

    /// The index built so far.
    pub fn index(&self) -> (index: &ReferenceIndex)
        ensures
            index@ == self.indexed(),
    {
        &self.index
    }

    /// Ends the traversal and hands out the index.
    pub fn into_index(self) -> (index: ReferenceIndex)
        ensures
            index@ == self.indexed(),
    {
        self.index
    }
}

} // verus!
