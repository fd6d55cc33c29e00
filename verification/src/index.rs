//! The reference index: which file each key stands for.

use vstd::hash_map::StringHashMap;
use vstd::prelude::*;

verus! {

/// A mapping from reference key to file path. A key occurs once: a second
/// path recorded under a key takes the place of the first. The keys are kept
/// in the order in which each was first recorded.
pub struct ReferenceIndex {
    keys: Vec<String>,
    paths: StringHashMap<String>,
}

/// `k` is one of `keys`.
spec fn listed(keys: Seq<String>, k: Seq<char>) -> bool {
    exists|i: int| 0 <= i < keys.len() && #[trigger] keys[i]@ == k
}

impl View for ReferenceIndex {
    type V = Map<Seq<char>, Seq<char>>;

    closed spec fn view(&self) -> Map<Seq<char>, Seq<char>> {
        Map::new(|k: Seq<char>| self.paths@.contains_key(k), |k: Seq<char>| self.paths@[k]@)
    }
}

impl ReferenceIndex {
    /// The keys, in the order in which each was first recorded.
    pub closed spec fn order(&self) -> Seq<Seq<char>> {
        self.keys@.map_values(|k: String| k@)
    }

    #[verifier::type_invariant]
    spec fn well_formed(&self) -> bool {
        &&& forall|i: int, j: int|
            0 <= i < j < self.keys@.len() ==> self.keys@[i]@ != self.keys@[j]@
        &&& forall|i: int|
            0 <= i < self.keys@.len() ==> self.paths@.contains_key(#[trigger] self.keys@[i]@)
        &&& forall|k: Seq<char>| #[trigger] self.paths@.contains_key(k) ==> listed(self.keys@, k)
    }

    /// An index without entries.
    pub fn new() -> (index: ReferenceIndex)
        ensures
            index@ == Map::<Seq<char>, Seq<char>>::empty(),
            index.order() == Seq::<Seq<char>>::empty(),
    {
        let index = ReferenceIndex { keys: Vec::new(), paths: StringHashMap::new() };
        assert(index@ =~= Map::<Seq<char>, Seq<char>>::empty());
        assert(index.order() =~= Seq::<Seq<char>>::empty());
        index
    }

    /// Records `path` under `key`, in place of what stood there before.
    pub fn insert(&mut self, key: String, path: String)
        ensures
            final(self)@ == old(self)@.insert(key@, path@),
            final(self).order() == if old(self)@.contains_key(key@) {
                old(self).order()
            } else {
                old(self).order().push(key@)
            },
    {
        proof {
            use_type_invariant(&*self);
        }
        let mut taken = ReferenceIndex::new();
        std::mem::swap(self, &mut taken);
        let ReferenceIndex { mut keys, mut paths } = taken;
        let ghost old_keys = keys@;
        let ghost old_paths = paths@;
        if !paths.contains_key(key.as_str()) {
            keys.push(key.clone());
        }
        paths.insert(key, path);
        proof {
            assert(old_keys == old(self).keys@ && old_paths == old(self).paths@);
            assert forall|i: int| 0 <= i < keys@.len() implies paths@.contains_key(
                #[trigger] keys@[i]@,
            ) by {
                if i < old_keys.len() {
                    assert(old_paths.contains_key(old_keys[i]@));
                }
            }
            assert forall|i: int, j: int| 0 <= i < j < keys@.len() implies keys@[i]@
                != keys@[j]@ by {
                if j < old_keys.len() {
                    assert(old_keys[i]@ != old_keys[j]@);
                } else {
                    assert(old_paths.contains_key(old_keys[i]@));
                }
            }
            assert forall|k: Seq<char>| #[trigger] paths@.contains_key(k) implies listed(
                keys@,
                k,
            ) by {
                if k == key@ && !old_paths.contains_key(k) {
                    assert(keys@[keys@.len() - 1]@ == k);
                } else {
                    assert(listed(old_keys, k));
                    let i = choose|i: int| 0 <= i < old_keys.len() && old_keys[i]@ == k;
                    assert(keys@[i]@ == k);
                }
            }
        }
        *self = ReferenceIndex { keys, paths };
        proof {
            assert(final(self)@ =~= old(self)@.insert(key@, path@));
            if old(self)@.contains_key(key@) {
                assert(final(self).order() =~= old(self).order());
            } else {
                assert(final(self).order() =~= old(self).order().push(key@));
            }
        }
    }

    /// The path recorded under `key`, if there is one.
    pub fn get(&self, key: &str) -> (path: Option<&String>)
        ensures
            match path {
                Some(p) => self@.contains_key(key@) && p@ == self@[key@],
                None => !self@.contains_key(key@),
            },
    {
        self.paths.get(key)
    }

    /// Whether a path is recorded under `key`.
    pub fn contains_key(&self, key: &str) -> (r: bool)
        ensures
            r == self@.contains_key(key@),
    {
        self.paths.contains_key(key)
    }

    /// The number of keys.
    pub fn len(&self) -> (n: usize)
        ensures
            n == self.order().len(),
            n == self@.len(),
            self@.dom().finite(),
    {
        proof {
            use_type_invariant(self);
            let order = self.order();
            assert(order.no_duplicates());
            order.unique_seq_to_set();
            assert(self@.dom() =~= order.to_set()) by {
                assert forall|k: Seq<char>| self@.dom().contains(k) <==> order.to_set().contains(
                    k,
                ) by {
                    if self@.dom().contains(k) {
                        assert(listed(self.keys@, k));
                        let i = choose|i: int| 0 <= i < self.keys@.len() && self.keys@[i]@ == k;
                        assert(order[i] == k);
                    }
                    if order.contains(k) {
                        let i = choose|i: int| 0 <= i < order.len() && order[i] == k;
                        assert(self.paths@.contains_key(self.keys@[i]@));
                    }
                }
            }
        }
        self.keys.len()
    }

    /// The entries, each a key with its path, in the order of the keys. Each
    /// key of the index comes once.
    pub fn entries(&self) -> (entries: Vec<(String, String)>)
        ensures
            self.order().no_duplicates(),
            forall|k: Seq<char>| self@.contains_key(k) <==> self.order().contains(k),
            entries@.len() == self.order().len(),
            forall|i: int|
                0 <= i < entries@.len() ==> (#[trigger] entries@[i]).0@ == self.order()[i]
                    && entries@[i].1@ == self@[self.order()[i]],
    {
        proof {
            use_type_invariant(self);
            assert forall|k: Seq<char>| self@.contains_key(k) <==> self.order().contains(k) by {
                if self@.contains_key(k) {
                    assert(listed(self.keys@, k));
                    let i = choose|i: int| 0 <= i < self.keys@.len() && self.keys@[i]@ == k;
                    assert(self.order()[i] == k);
                }
                if self.order().contains(k) {
                    let i = choose|i: int| 0 <= i < self.order().len() && self.order()[i] == k;
                    assert(self.paths@.contains_key(self.keys@[i]@));
                }
            }
        }
        let mut entries: Vec<(String, String)> = Vec::new();
        let mut i: usize = 0;
        while i < self.keys.len()
            invariant
                i <= self.keys@.len(),
                entries@.len() == i,
                forall|j: int|
                    0 <= j < self.keys@.len() ==> self.paths@.contains_key(
                        #[trigger] self.keys@[j]@,
                    ),
                forall|j: int|
                    0 <= j < i ==> (#[trigger] entries@[j]).0@ == self.order()[j]
                        && entries@[j].1@ == self@[self.order()[j]],
            decreases self.keys@.len() - i,
        {
            let key = &self.keys[i];
            match self.paths.get(key.as_str()) {
                Some(path) => {
                    entries.push((key.clone(), path.clone()));
                },
                None => {
                    assert(false);
                },
            }
            i += 1;
        }
        entries
    }
}

} // verus!
