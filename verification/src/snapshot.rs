//! Path tables: a snapshot maps working-tree paths to blobs, a path set holds
//! paths. Both keep the order in which entries were first added.

use crate::blob::Blob;
use crate::strmap::{without, StrMap};
use vstd::prelude::*;

verus! {

/// A mapping from working-tree-relative paths to the blobs that hold their
/// content. Its view maps each path to the blob's digest.
#[derive(Debug)]
pub struct Snapshot {
    entries: StrMap<Blob>,
}

impl View for Snapshot {
    type V = Map<Seq<char>, Seq<char>>;

    closed spec fn view(&self) -> Map<Seq<char>, Seq<char>> {
        self.entries@.map_values(|b: Blob| b@)
    }
}

impl Snapshot {
    /// Each path is listed once.
    pub closed spec fn wf(&self) -> bool {
        self.entries.wf()
    }

    /// The paths in the order in which they were first inserted.
    pub closed spec fn order(&self) -> Seq<Seq<char>> {
        self.entries.order()
    }

    /// The paths are distinct, and they are exactly the domain of the view.
    pub proof fn lemma_order(&self)
        requires
            self.wf(),
        ensures
            self.order().no_duplicates(),
            self@.dom().finite(),
            forall|k: Seq<char>| self@.contains_key(k) <==> self.order().contains(k),
            forall|i: int|
                0 <= i < self.order().len() ==> self@.contains_key(#[trigger] self.order()[i]),
    {
        self.entries.lemma_order();
        assert(self@.dom() =~= self.entries@.dom());
    }

    pub fn new() -> (r: Self)
        ensures
            r.wf(),
            r@ == Map::<Seq<char>, Seq<char>>::empty(),
            r.order() == Seq::<Seq<char>>::empty(),
    {
        let r = Snapshot { entries: StrMap::new() };
        proof {
            assert(r@ =~= Map::<Seq<char>, Seq<char>>::empty());
        }
        r
    }

    pub fn len(&self) -> (r: usize)
        requires
            self.wf(),
        ensures
            r == self.order().len(),
    {
        self.entries.len()
    }

    pub fn is_empty(&self) -> (r: bool)
        requires
            self.wf(),
        ensures
            r == (self@ == Map::<Seq<char>, Seq<char>>::empty()),
            r == (self.order().len() == 0),
    {
        let r = self.entries.is_empty();
        proof {
            self.lemma_order();
            if r {
                assert(self@ =~= Map::<Seq<char>, Seq<char>>::empty());
            } else {
                assert(self@.contains_key(self.order()[0]));
            }
        }
        r
    }

    /// The path at position `i` of the insertion order.
    pub fn path_at(&self, i: usize) -> (r: &String)
        requires
            self.wf(),
            i < self.order().len(),
        ensures
            r@ == self.order()[i as int],
            self@.contains_key(r@),
    {
        self.entries.key_at(i)
    }

    /// The blob of the path at position `i` of the insertion order.
    pub fn blob_at(&self, i: usize) -> (r: &Blob)
        requires
            self.wf(),
            i < self.order().len(),
        ensures
            self@.contains_key(self.order()[i as int]),
            r@ == self@[self.order()[i as int]],
    {
        self.entries.value_at(i)
    }

    pub fn contains_key(&self, path: &str) -> (r: bool)
        requires
            self.wf(),
        ensures
            r == self@.contains_key(path@),
    {
        self.entries.contains_key(path)
    }

    pub fn get(&self, path: &str) -> (r: Option<&Blob>)
        requires
            self.wf(),
        ensures
            match r {
                Some(blob) => self@.contains_key(path@) && blob@ == self@[path@],
                None => !self@.contains_key(path@),
            },
    {
        self.entries.get(path)
    }

    /// Inserts or replaces the blob of `path`.
    pub fn insert(&mut self, path: String, blob: Blob)
        requires
            old(self).wf(),
        ensures
            final(self).wf(),
            final(self)@ == old(self)@.insert(path@, blob@),
            final(self).order() == if old(self)@.contains_key(path@) {
                old(self).order()
            } else {
                old(self).order().push(path@)
            },
    {
        self.entries.insert(path, blob);
        proof {
            assert(self@ =~= old(self)@.insert(path@, blob@));
        }
    }

    /// Removes `path`, handing back its blob if it was present.
    pub fn remove(&mut self, path: &str) -> (r: Option<Blob>)
        requires
            old(self).wf(),
        ensures
            final(self).wf(),
            final(self)@ == old(self)@.remove(path@),
            final(self).order() == without(old(self).order(), path@),
            match r {
                Some(blob) => old(self)@.contains_key(path@) && blob@ == old(self)@[path@],
                None => !old(self)@.contains_key(path@),
            },
    {
        let r = self.entries.remove(path);
        proof {
            assert(self@ =~= old(self)@.remove(path@));
        }
        r
    }

    /// A copy with the same entries in the same order.
    pub fn duplicate(&self) -> (r: Self)
        requires
            self.wf(),
        ensures
            r.wf(),
            r@ == self@,
            r.order() == self.order(),
    {
        let mut r = Snapshot::new();
        let mut i: usize = 0;
        proof {
            self.lemma_order();
        }
        while i < self.len()
            invariant
                self.wf(),
                r.wf(),
                i <= self.order().len(),
                self.order().no_duplicates(),
                r.order() == self.order().subrange(0, i as int),
                forall|k: Seq<char>| #[trigger]
                    r@.contains_key(k) <==> self.order().subrange(0, i as int).contains(k),
                forall|k: Seq<char>| #[trigger]
                    r@.contains_key(k) ==> self@.contains_key(k) && r@[k] == self@[k],
            decreases self.order().len() - i,
        {
            let path = self.path_at(i).clone();
            let blob = self.blob_at(i).clone();
            proof {
                let seen = self.order().subrange(0, i as int);
                if seen.contains(path@) {
                    let j = seen.index_of(path@);
                    assert(self.order()[j] == path@);
                }
                r.lemma_order();
                assert(self.order().subrange(0, i + 1) =~= seen.push(path@));
                assert forall|k: Seq<char>|
                    (seen.contains(k) || k == path@) <==> seen.push(path@).contains(k) by {
                    if seen.contains(k) {
                        let j = seen.index_of(k);
                        assert(seen.push(path@)[j] == k);
                    }
                    if k == path@ {
                        assert(seen.push(path@)[i as int] == k);
                    }
                }
            }
            let ghost prev = r@;
            r.insert(path, blob);
            assert(r@ == prev.insert(path@, blob@));
            assert(self@.contains_key(path@) && self@[path@] == blob@);
            i = i + 1;
        }
        proof {
            assert(self.order().subrange(0, i as int) =~= self.order());
            assert(r@ =~= self@);
        }
        r
    }
}

/// A set of working-tree-relative paths.
#[derive(Debug)]
pub struct PathSet {
    items: StrMap<()>,
}

impl View for PathSet {
    type V = Set<Seq<char>>;

    closed spec fn view(&self) -> Set<Seq<char>> {
        self.items@.dom()
    }
}

impl PathSet {
    /// Each path is listed once.
    pub closed spec fn wf(&self) -> bool {
        self.items.wf()
    }

    /// The paths in the order in which they were first inserted.
    pub closed spec fn order(&self) -> Seq<Seq<char>> {
        self.items.order()
    }

    /// The paths are distinct, and they are exactly the members of the view.
    pub proof fn lemma_order(&self)
        requires
            self.wf(),
        ensures
            self.order().no_duplicates(),
            self@.finite(),
            forall|k: Seq<char>| self@.contains(k) <==> self.order().contains(k),
            forall|i: int|
                0 <= i < self.order().len() ==> self@.contains(#[trigger] self.order()[i]),
    {
        self.items.lemma_order();
    }

    pub fn new() -> (r: Self)
        ensures
            r.wf(),
            r@ == Set::<Seq<char>>::empty(),
            r.order() == Seq::<Seq<char>>::empty(),
    {
        let r = PathSet { items: StrMap::new() };
        proof {
            assert(r@ =~= Set::<Seq<char>>::empty());
        }
        r
    }

    pub fn len(&self) -> (r: usize)
        requires
            self.wf(),
        ensures
            r == self.order().len(),
    {
        self.items.len()
    }

    pub fn is_empty(&self) -> (r: bool)
        requires
            self.wf(),
        ensures
            r == (self@ == Set::<Seq<char>>::empty()),
            r == (self.order().len() == 0),
    {
        let r = self.items.is_empty();
        proof {
            self.lemma_order();
            if r {
                assert(self@ =~= Set::<Seq<char>>::empty());
            } else {
                assert(self@.contains(self.order()[0]));
            }
        }
        r
    }

    /// The path at position `i` of the insertion order.
    pub fn path_at(&self, i: usize) -> (r: &String)
        requires
            self.wf(),
            i < self.order().len(),
        ensures
            r@ == self.order()[i as int],
            self@.contains(r@),
    {
        self.items.key_at(i)
    }

    pub fn contains(&self, path: &str) -> (r: bool)
        requires
            self.wf(),
        ensures
            r == self@.contains(path@),
    {
        self.items.contains_key(path)
    }

    pub fn insert(&mut self, path: String)
        requires
            old(self).wf(),
        ensures
            final(self).wf(),
            final(self)@ == old(self)@.insert(path@),
            final(self).order() == if old(self)@.contains(path@) {
                old(self).order()
            } else {
                old(self).order().push(path@)
            },
    {
        self.items.insert(path, ());
        proof {
            assert(self@ =~= old(self)@.insert(path@));
        }
    }

    /// Removes `path`; tells whether it was a member.
    pub fn remove(&mut self, path: &str) -> (r: bool)
        requires
            old(self).wf(),
        ensures
            final(self).wf(),
            final(self)@ == old(self)@.remove(path@),
            final(self).order() == without(old(self).order(), path@),
            r == old(self)@.contains(path@),
    {
        let r = self.items.remove(path);
        proof {
            assert(self@ =~= old(self)@.remove(path@));
        }
        r.is_some()
    }
}

} // verus!
