//! Branches: named pointers to commit hashes.

use crate::error::Error;
use crate::strmap::{without, StrMap};
use vstd::prelude::*;

verus! {

/// The branches of a repository, each with the hash of its tip. An empty
/// hash marks a branch without commits.
#[derive(Debug)]
pub struct RefStore {
    refs: StrMap<String>,
}

impl View for RefStore {
    type V = Map<Seq<char>, Seq<char>>;

    closed spec fn view(&self) -> Map<Seq<char>, Seq<char>> {
        self.refs@.map_values(|s: String| s@)
    }
}

/// What creating a branch yields.
pub open spec fn created(
    refs: Map<Seq<char>, Seq<char>>,
    name: Seq<char>,
    hash: Seq<char>,
) -> Result<Map<Seq<char>, Seq<char>>, Error> {
    if refs.contains_key(name) {
        Err(Error::BranchExists)
    } else {
        Ok(refs.insert(name, hash))
    }
}

/// What deleting a branch yields while `current` is checked out.
pub open spec fn deleted(
    refs: Map<Seq<char>, Seq<char>>,
    name: Seq<char>,
    current: Seq<char>,
) -> Result<Map<Seq<char>, Seq<char>>, Error> {
    if name == current {
        Err(Error::BranchCheckedOut)
    } else if !refs.contains_key(name) {
        Err(Error::BranchNotFound)
    } else {
        Ok(refs.remove(name))
    }
}

impl RefStore {
    /// Each branch is listed once.
    pub closed spec fn wf(&self) -> bool {
        self.refs.wf()
    }

    /// The branch names in the order in which they were created.
    pub closed spec fn order(&self) -> Seq<Seq<char>> {
        self.refs.order()
    }

    /// The branch names are distinct, and they are exactly the branches
    /// that the view holds.
    pub proof fn lemma_order(&self)
        requires
            self.wf(),
        ensures
            self.order().no_duplicates(),
            self@.dom().finite(),
            self@.dom() == self.order().to_set(),
            self@.dom().len() == self.order().len(),
            forall|k: Seq<char>| self@.contains_key(k) <==> self.order().contains(k),
            forall|i: int|
                0 <= i < self.order().len() ==> self@.contains_key(#[trigger] self.order()[i]),
    {
        self.refs.lemma_order();
        assert(self@.dom() =~= self.refs@.dom());
        self.order().unique_seq_to_set();
    }

    pub fn new() -> (r: Self)
        ensures
            r.wf(),
            r@ == Map::<Seq<char>, Seq<char>>::empty(),
            r.order() == Seq::<Seq<char>>::empty(),
    {
        let r = RefStore { refs: StrMap::new() };
        proof {
            assert(r@ =~= Map::<Seq<char>, Seq<char>>::empty());
        }
        r
    }

    pub fn len(&self) -> (r: usize)
        requires
            self.wf(),
        ensures
            r == self.order().len(),
    {
        self.refs.len()
    }

    /// The branch name at position `i` of the creation order.
    pub fn name_at(&self, i: usize) -> (r: &String)
        requires
            self.wf(),
            i < self.order().len(),
        ensures
            r@ == self.order()[i as int],
            self@.contains_key(r@),
    {
        self.refs.key_at(i)
    }

    pub fn contains(&self, name: &str) -> (r: bool)
        requires
            self.wf(),
        ensures
            r == self@.contains_key(name@),
    {
        self.refs.contains_key(name)
    }

    /// The tip of branch `name`.
    pub fn get(&self, name: &str) -> (r: Option<&String>)
        requires
            self.wf(),
        ensures
            match r {
                Some(hash) => self@.contains_key(name@) && hash@ == self@[name@],
                None => !self@.contains_key(name@),
            },
    {
        self.refs.get(name)
    }

    /// Points branch `name` at `hash`, creating the branch if need be. A
    /// new branch goes to the end of the order; a branch that exists keeps
    /// its place.
    pub fn set(&mut self, name: String, hash: String)
        requires
            old(self).wf(),
        ensures
            final(self).wf(),
            final(self)@ == old(self)@.insert(name@, hash@),
            final(self).order() == if old(self)@.contains_key(name@) {
                old(self).order()
            } else {
                old(self).order().push(name@)
            },
    {
        proof {
            assert(self@.dom() =~= self.refs@.dom());
        }
        self.refs.insert(name, hash);
        proof {
            assert(self@ =~= old(self)@.insert(name@, hash@));
        }
    }

    /// Creates branch `name` at `hash`, unless a branch of that name exists.
    pub fn create(&mut self, name: &str, hash: String) -> (r: Result<(), Error>)
        requires
            old(self).wf(),
        ensures
            final(self).wf(),
            match r {
                Ok(()) => {
                    &&& created(old(self)@, name@, hash@) == Ok::<
                        Map<Seq<char>, Seq<char>>,
                        Error,
                    >(final(self)@)
                    &&& final(self).order() == old(self).order().push(name@)
                },
                Err(e) => {
                    &&& created(old(self)@, name@, hash@) == Err::<
                        Map<Seq<char>, Seq<char>>,
                        Error,
                    >(e)
                    &&& final(self)@ == old(self)@
                    &&& final(self).order() == old(self).order()
                },
            },
    {
        proof {
            assert(self@.dom() =~= self.refs@.dom());
        }
        if self.refs.contains_key(name) {
            Err(Error::BranchExists)
        } else {
            self.set(name.to_owned(), hash);
            Ok(())
        }
    }

    /// Deletes branch `name`, unless it is the branch checked out or does
    /// not exist.
    pub fn delete(&mut self, name: &str, current: &str) -> (r: Result<(), Error>)
        requires
            old(self).wf(),
        ensures
            final(self).wf(),
            match r {
                Ok(()) => {
                    &&& deleted(old(self)@, name@, current@) == Ok::<
                        Map<Seq<char>, Seq<char>>,
                        Error,
                    >(final(self)@)
                    &&& final(self).order() == without(old(self).order(), name@)
                },
                Err(e) => {
                    &&& deleted(old(self)@, name@, current@) == Err::<
                        Map<Seq<char>, Seq<char>>,
                        Error,
                    >(e)
                    &&& final(self)@ == old(self)@
                    &&& final(self).order() == old(self).order()
                },
            },
    {
        proof {
            assert(self@.dom() =~= self.refs@.dom());
        }
        if crate::strmap::str_eq(name, current) {
            return Err(Error::BranchCheckedOut);
        }
        if !self.refs.contains_key(name) {
            return Err(Error::BranchNotFound);
        }
        self.refs.remove(name);
        proof {
            assert(self@ =~= old(self)@.remove(name@));
        }
        Ok(())
    }
}

} // verus!
