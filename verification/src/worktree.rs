//! The working tree as the engine sees it: the content of each file by its
//! path relative to the repository root.

use crate::strmap::{lemma_select_step, select, texts, without, StrMap};
use vstd::prelude::*;

verus! {

/// The files of a working tree with their contents.
#[derive(Debug)]
pub struct WorkingTree {
    files: StrMap<Vec<u8>>,
}

impl View for WorkingTree {
    type V = Map<Seq<char>, Seq<u8>>;

    closed spec fn view(&self) -> Map<Seq<char>, Seq<u8>> {
        self.files@.map_values(|v: Vec<u8>| v@)
    }
}

impl WorkingTree {
    /// Each file is listed once.
    pub closed spec fn wf(&self) -> bool {
        self.files.wf()
    }

    /// The paths in the order in which the files were first written.
    pub closed spec fn order(&self) -> Seq<Seq<char>> {
        self.files.order()
    }

    /// The paths are distinct, and they are exactly the domain of the view.
    pub proof fn lemma_order(&self)
        requires
            self.wf(),
        ensures
            self.order().no_duplicates(),
            forall|k: Seq<char>| self@.contains_key(k) <==> self.order().contains(k),
            forall|i: int|
                0 <= i < self.order().len() ==> self@.contains_key(#[trigger] self.order()[i]),
    {
        self.files.lemma_order();
        assert(self@.dom() =~= self.files@.dom());
    }

    pub fn new() -> (r: Self)
        ensures
            r.wf(),
            r@ == Map::<Seq<char>, Seq<u8>>::empty(),
            r.order() == Seq::<Seq<char>>::empty(),
    {
        let r = WorkingTree { files: StrMap::new() };
        proof {
            assert(r@ =~= Map::<Seq<char>, Seq<u8>>::empty());
        }
        r
    }

    pub fn len(&self) -> (r: usize)
        requires
            self.wf(),
        ensures
            r == self.order().len(),
    {
        self.files.len()
    }

    /// The path at position `i` of the writing order.
    pub fn path_at(&self, i: usize) -> (r: &String)
        requires
            self.wf(),
            i < self.order().len(),
        ensures
            r@ == self.order()[i as int],
            self@.contains_key(r@),
    {
        self.files.key_at(i)
    }

    /// Whether a file exists at `path`.
    pub fn contains(&self, path: &str) -> (r: bool)
        requires
            self.wf(),
        ensures
            r == self@.contains_key(path@),
    {
        self.files.contains_key(path)
    }

    /// The content of the file at `path`.
    pub fn read(&self, path: &str) -> (r: Option<&Vec<u8>>)
        requires
            self.wf(),
        ensures
            match r {
                Some(content) => self@.contains_key(path@) && content@ == self@[path@],
                None => !self@.contains_key(path@),
            },
    {
        self.files.get(path)
    }

    /// Creates the file at `path` or overwrites it.
    pub fn write(&mut self, path: String, content: Vec<u8>)
        requires
            old(self).wf(),
        ensures
            final(self).wf(),
            final(self)@ == old(self)@.insert(path@, content@),
            final(self).order() == if old(self)@.contains_key(path@) {
                old(self).order()
            } else {
                old(self).order().push(path@)
            },
    {
        proof {
            assert(self@.dom() =~= self.files@.dom());
        }
        self.files.insert(path, content);
        proof {
            assert(self@ =~= old(self)@.insert(path@, content@));
        }
    }

    /// Deletes the file at `path`; tells whether there was one.
    pub fn delete(&mut self, path: &str) -> (r: bool)
        requires
            old(self).wf(),
        ensures
            final(self).wf(),
            final(self)@ == old(self)@.remove(path@),
            final(self).order() == without(old(self).order(), path@),
            r == old(self)@.contains_key(path@),
    {
        let removed = self.files.remove(path);
        proof {
            assert(self@ =~= old(self)@.remove(path@));
        }
        removed.is_some()
    }
}

/// What sets one state of the working tree apart from an earlier one.
#[derive(Debug)]
pub struct TreeChanges {
    /// The files that are gone, in the order of the earlier state.
    pub deleted: Vec<String>,
    /// The files that are new or have other content, in the order of the
    /// later state.
    pub written: Vec<String>,
}

/// The paths that `after` does not hold.
pub open spec fn gone_pred(after: Map<Seq<char>, Seq<u8>>) -> spec_fn(Seq<char>) -> bool {
    |path: Seq<char>| !after.contains_key(path)
}

/// The paths that `after` holds with content that `before` does not hold
/// for them.
pub open spec fn changed_pred(
    before: Map<Seq<char>, Seq<u8>>,
    after: Map<Seq<char>, Seq<u8>>,
) -> spec_fn(Seq<char>) -> bool {
    |path: Seq<char>| !(before.contains_key(path) && before[path] == after[path])
}

/// Whether two byte strings are equal.
pub fn bytes_eq(a: &[u8], b: &[u8]) -> (r: bool)
    ensures
        r == (a@ == b@),
{
    if a.len() != b.len() {
        return false;
    }
    let mut i: usize = 0;
    while i < a.len()
        invariant
            a@.len() == b@.len(),
            i <= a@.len(),
            forall|j: int| 0 <= j < i ==> a@[j] == b@[j],
        decreases a@.len() - i,
    {
        if a[i] != b[i] {
            return false;
        }
        i = i + 1;
    }
    proof {
        assert(a@ =~= b@);
    }
    true
}

impl WorkingTree {
    /// The files to delete and the files to write to get from the state
    /// `before` to this one.
    pub fn changes_since(&self, before: &WorkingTree) -> (r: TreeChanges)
        requires
            self.wf(),
            before.wf(),
        ensures
            texts(r.deleted@) == select(before.order(), gone_pred(self@)),
            texts(r.written@) == select(self.order(), changed_pred(before@, self@)),
    {
        let mut deleted: Vec<String> = Vec::new();
        let ghost gone = gone_pred(self@);
        let mut i: usize = 0;
        proof {
            assert(before.order().subrange(0, 0) =~= Seq::<Seq<char>>::empty());
            assert(texts(deleted@) =~= Seq::<Seq<char>>::empty());
        }
        while i < before.len()
            invariant
                self.wf(),
                before.wf(),
                gone == gone_pred(self@),
                i <= before.order().len(),
                texts(deleted@) == select(before.order().subrange(0, i as int), gone),
            decreases before.order().len() - i,
        {
            let path = before.path_at(i);
            let ghost shown = deleted@;
            proof {
                lemma_select_step(before.order(), i as int, gone);
            }
            if !self.contains(path.as_str()) {
                deleted.push(path.clone());
                proof {
                    assert(texts(shown.push(*path)) =~= texts(shown).push(path@));
                }
            }
            i = i + 1;
        }
        proof {
            assert(before.order().subrange(0, i as int) =~= before.order());
        }
        let mut written: Vec<String> = Vec::new();
        let ghost changed = changed_pred(before@, self@);
        let mut j: usize = 0;
        proof {
            assert(self.order().subrange(0, 0) =~= Seq::<Seq<char>>::empty());
            assert(texts(written@) =~= Seq::<Seq<char>>::empty());
        }
        while j < self.len()
            invariant
                self.wf(),
                before.wf(),
                changed == changed_pred(before@, self@),
                j <= self.order().len(),
                texts(written@) == select(self.order().subrange(0, j as int), changed),
            decreases self.order().len() - j,
        {
            let path = self.path_at(j);
            let ghost shown = written@;
            proof {
                lemma_select_step(self.order(), j as int, changed);
            }
            let same = match (before.read(path.as_str()), self.read(path.as_str())) {
                (Some(old), Some(new)) => bytes_eq(old.as_slice(), new.as_slice()),
                _ => false,
            };
            if !same {
                written.push(path.clone());
                proof {
                    assert(texts(shown.push(*path)) =~= texts(shown).push(path@));
                }
            }
            j = j + 1;
        }
        proof {
            assert(self.order().subrange(0, j as int) =~= self.order());
        }
        TreeChanges { deleted, written }
    }
}

} // verus!
