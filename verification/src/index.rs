//! The staging area: additions and removals pending for the next commit.

use crate::blob::{written, Blob, ObjectStore};
use crate::digest::digest_of;
use crate::error::Error;
use crate::repo::{head_commit_of, RepoView, Repository};
use crate::worktree::WorkingTree;
use crate::snapshot::{PathSet, Snapshot};
use crate::strmap::lemma_prefix_step;
use vstd::prelude::*;
use vstd::string::StringExecFns;

verus! {

/// What the staging area holds: the digest staged for each added path, and
/// the paths staged for deletion.
pub struct IndexView {
    pub additions: Map<Seq<char>, Seq<char>>,
    pub removals: Set<Seq<char>>,
}

/// The staging area of a repository.
#[derive(Debug)]
pub struct Index {
    additions: Snapshot,
    removals: PathSet,
}

/// Which of the two staging operations a caller asks for.
#[derive(Debug)]
pub enum IndexAction {
    Add,
    Unstage,
}

/// What is left to do outside the staging area once a removal is accepted.
#[derive(Debug)]
pub struct RmOutcome {
    /// The staged object to drop from the object store, if any.
    pub delete_blob: Option<Blob>,
    /// Whether the file is to be deleted from the working tree.
    pub delete_file: bool,
}

/// What an `RmOutcome` says, with the blob given by its digest.
pub struct RmOutcomeView {
    pub delete_blob: Option<Seq<char>>,
    pub delete_file: bool,
}

impl View for RmOutcome {
    type V = RmOutcomeView;

    open spec fn view(&self) -> RmOutcomeView {
        RmOutcomeView {
            delete_blob: match self.delete_blob {
                Some(blob) => Some(blob@),
                None => None,
            },
            delete_file: self.delete_file,
        }
    }
}

/// The staging area after `path` is staged with content digest `digest`.
pub open spec fn staged(ix: IndexView, path: Seq<char>, digest: Seq<char>) -> IndexView {
    IndexView { additions: ix.additions.insert(path, digest), removals: ix.removals.remove(path) }
}

/// What staging `content` at `path` yields: the staging area with the
/// digest recorded and the store with the compressed content, unless the
/// content cannot be compressed.
pub open spec fn staging(
    ix: IndexView,
    store: Map<Seq<char>, Seq<u8>>,
    path: Seq<char>,
    content: Seq<u8>,
) -> Result<(IndexView, Map<Seq<char>, Seq<u8>>), Error> {
    match written(store, digest_of(content), content) {
        Ok(stored) => Ok((staged(ix, path, digest_of(content)), stored)),
        Err(e) => Err(e),
    }
}

/// The staging area after `path` is taken out of it.
pub open spec fn unstaged(ix: IndexView, path: Seq<char>) -> IndexView {
    IndexView { additions: ix.additions.remove(path), removals: ix.removals.remove(path) }
}

/// The staging area once `path` is staged for deletion.
pub open spec fn staged_for_removal(ix: IndexView, path: Seq<char>) -> IndexView {
    IndexView { additions: ix.additions.remove(path), removals: ix.removals.insert(path) }
}

/// The removal state machine. `on_disk` tells whether the file exists in the
/// working tree, `in_head` whether the current commit tracks it.
pub open spec fn removal(
    ix: IndexView,
    path: Seq<char>,
    cached: bool,
    on_disk: bool,
    in_head: bool,
) -> Result<(IndexView, RmOutcomeView), Error> {
    let added = ix.additions.contains_key(path);
    let nothing = RmOutcomeView { delete_blob: None, delete_file: false };
    if !added && !in_head {
        Err(Error::NotTracked)
    } else if !on_disk {
        if in_head && !ix.removals.contains(path) {
            Ok((staged_for_removal(ix, path), nothing))
        } else if added {
            Ok((unstaged_addition(ix, path), nothing))
        } else {
            Err(Error::AlreadyStaged)
        }
    } else if cached {
        let after = if in_head {
            staged_for_removal(ix, path)
        } else {
            unstaged_addition(ix, path)
        };
        let delete_blob = if added && !in_head {
            Some(ix.additions[path])
        } else {
            None
        };
        Ok((after, RmOutcomeView { delete_blob, delete_file: false }))
    } else if added {
        Err(Error::StagedChangesConflict)
    } else {
        Ok((staged_for_removal(ix, path), RmOutcomeView { delete_blob: None, delete_file: true }))
    }
}

/// The staging area with the addition of `path` dropped and nothing else
/// changed.
pub open spec fn unstaged_addition(ix: IndexView, path: Seq<char>) -> IndexView {
    IndexView { additions: ix.additions.remove(path), removals: ix.removals }
}

/// Staging is idempotent: staging a file whose content has not changed a
/// second time leaves the staging area as the first time left it, with
/// the same digest recorded for the path after both.
pub proof fn lemma_stage_idempotent(ix: IndexView, path: Seq<char>, content: Seq<u8>)
    ensures
        staged(staged(ix, path, digest_of(content)), path, digest_of(content)) == staged(
            ix,
            path,
            digest_of(content),
        ),
        staged(ix, path, digest_of(content)).additions[path] == digest_of(content),
        staged(staged(ix, path, digest_of(content)), path, digest_of(content)).additions[path]
            == digest_of(content),
{
    let once = staged(ix, path, digest_of(content));
    let twice = staged(once, path, digest_of(content));
    assert(once.additions =~= twice.additions);
    assert(once.removals =~= twice.removals);
}

/// The digest that staging records depends on the content alone: the same
/// content staged at two paths is recorded with the same digest.
pub proof fn lemma_digest_ignores_path(
    ix: IndexView,
    first: Seq<char>,
    second: Seq<char>,
    content: Seq<u8>,
)
    ensures
        staged(ix, first, digest_of(content)).additions[first] == staged(
            staged(ix, first, digest_of(content)),
            second,
            digest_of(content),
        ).additions[second],
{
}

/// Taking a path out of the staging area is idempotent.
pub proof fn lemma_unstage_idempotent(ix: IndexView, path: Seq<char>)
    ensures
        unstaged(unstaged(ix, path), path) == unstaged(ix, path),
{
    let once = unstaged(ix, path);
    let twice = unstaged(once, path);
    assert(once.additions =~= twice.additions);
    assert(once.removals =~= twice.removals);
}

/// The removal state machine keeps the two sides of the staging area
/// apart.
pub proof fn lemma_removal_keeps_sides_apart(
    ix: IndexView,
    path: Seq<char>,
    cached: bool,
    on_disk: bool,
    in_head: bool,
)
    requires
        forall|k: Seq<char>| !(ix.additions.contains_key(k) && ix.removals.contains(k)),
        removal(ix, path, cached, on_disk, in_head) is Ok,
    ensures
        ({
            let after = removal(ix, path, cached, on_disk, in_head)->Ok_0.0;
            forall|k: Seq<char>| !(after.additions.contains_key(k) && after.removals.contains(k))
        }),
{
}

/// Each path followed by a line feed.
pub open spec fn lines(paths: Seq<Seq<char>>) -> Seq<char>
    decreases paths.len(),
{
    if paths.len() == 0 {
        Seq::empty()
    } else {
        lines(paths.drop_last()) + paths.last() + "\n"@
    }
}

/// The listing of the staging area: staged paths, then removed paths.
pub open spec fn index_text(added: Seq<Seq<char>>, removed: Seq<Seq<char>>) -> Seq<char> {
    "=== Staged Files ===\n"@ + lines(added) + "\n=== Removed Files ===\n"@ + lines(removed)
}

impl View for Index {
    type V = IndexView;

    closed spec fn view(&self) -> IndexView {
        IndexView { additions: self.additions@, removals: self.removals@ }
    }
}

impl Index {
    /// No path is staged both for addition and for removal.
    pub closed spec fn wf(&self) -> bool {
        &&& self.additions.wf()
        &&& self.removals.wf()
        &&& forall|k: Seq<char>| !(self.additions@.contains_key(k) && self.removals@.contains(k))
    }

    /// The added paths in staging order.
    pub closed spec fn added_order(&self) -> Seq<Seq<char>> {
        self.additions.order()
    }

    /// The removed paths in staging order.
    pub closed spec fn removed_order(&self) -> Seq<Seq<char>> {
        self.removals.order()
    }

    /// The two orders list exactly what is staged on either side.
    pub proof fn lemma_orders(&self)
        requires
            self.wf(),
        ensures
            forall|k: Seq<char>|
                self@.additions.contains_key(k) <==> self.added_order().contains(k),
            forall|k: Seq<char>| self@.removals.contains(k) <==> self.removed_order().contains(k),
            self.added_order().no_duplicates(),
            self.removed_order().no_duplicates(),
    {
        self.additions.lemma_order();
        self.removals.lemma_order();
    }

    /// A well-formed staging area never lists a path on both sides.
    pub proof fn lemma_disjoint(&self)
        requires
            self.wf(),
        ensures
            forall|k: Seq<char>| !(self@.additions.contains_key(k) && self@.removals.contains(k)),
    {
    }

    pub fn new() -> (r: Self)
        ensures
            r.wf(),
            r@.additions == Map::<Seq<char>, Seq<char>>::empty(),
            r@.removals == Set::<Seq<char>>::empty(),
    {
        Index { additions: Snapshot::new(), removals: PathSet::new() }
    }

    pub fn additions(&self) -> (r: &Snapshot)
        requires
            self.wf(),
        ensures
            r.wf(),
            r@ == self@.additions,
            r.order() == self.added_order(),
    {
        &self.additions
    }

    pub fn removals(&self) -> (r: &PathSet)
        requires
            self.wf(),
        ensures
            r.wf(),
            r@ == self@.removals,
            r.order() == self.removed_order(),
    {
        &self.removals
    }

    /// Records `blob` as the staged version of `path`.
    pub fn stage_blob(&mut self, path: String, blob: Blob)
        requires
            old(self).wf(),
        ensures
            final(self).wf(),
            final(self)@ == staged(old(self)@, path@, blob@),
    {
        self.removals.remove(path.as_str());
        self.additions.insert(path, blob);
    }

    /// Records that `path` is to be deleted by the next commit.
    pub fn stage_removal(&mut self, path: String)
        requires
            old(self).wf(),
        ensures
            final(self).wf(),
            final(self)@ == staged_for_removal(old(self)@, path@),
    {
        self.additions.remove(path.as_str());
        self.removals.insert(path);
    }

    /// Stages a file for the next commit: stores its content in the object
    /// store and records its digest. It fails exactly where the content
    /// cannot be compressed, and then nothing changes.
    pub fn stage(&mut self, path: String, content: &[u8], store: &mut ObjectStore) -> (r: Result<
        (),
        Error,
    >)
        requires
            old(self).wf(),
            old(store).wf(),
        ensures
            final(self).wf(),
            final(store).wf(),
            match r {
                Ok(()) => staging(old(self)@, old(store)@, path@, content@) == Ok::<
                    (IndexView, Map<Seq<char>, Seq<u8>>),
                    Error,
                >((final(self)@, final(store)@)),
                Err(e) => {
                    &&& staging(old(self)@, old(store)@, path@, content@) == Err::<
                        (IndexView, Map<Seq<char>, Seq<u8>>),
                        Error,
                    >(e)
                    &&& final(self)@ == old(self)@
                    &&& final(store)@ == old(store)@
                },
            },
    {
        let blob = Blob::new(content);
        match blob.write_blob(store, content) {
            Ok(()) => {
                self.stage_blob(path, blob);
                Ok(())
            },
            Err(e) => Err(e),
        }
    }

    /// Takes `path` out of the staging area, whichever side it is on.
    pub fn unstage(&mut self, path: &str)
        requires
            old(self).wf(),
        ensures
            final(self).wf(),
            final(self)@ == unstaged(old(self)@, path@),
    {
        self.additions.remove(path);
        self.removals.remove(path);
    }

    /// Stages the removal of `path`, or says why it cannot be removed. The
    /// staging area changes only on success.
    pub fn remove(&mut self, path: &str, cached: bool, on_disk: bool, in_head: bool) -> (r: Result<
        RmOutcome,
        Error,
    >)
        requires
            old(self).wf(),
        ensures
            final(self).wf(),
            match r {
                Ok(outcome) => removal(old(self)@, path@, cached, on_disk, in_head) == Ok::<
                    (IndexView, RmOutcomeView),
                    Error,
                >((final(self)@, outcome@)),
                Err(e) => {
                    &&& removal(old(self)@, path@, cached, on_disk, in_head) == Err::<
                        (IndexView, RmOutcomeView),
                        Error,
                    >(e)
                    &&& final(self)@ == old(self)@
                },
            },
    {
        let added = self.additions.contains_key(path);
        if !added && !in_head {
            return Err(Error::NotTracked);
        }
        if !on_disk {
            if in_head && !self.removals.contains(path) {
                self.additions.remove(path);
                self.removals.insert(path.to_owned());
                Ok(RmOutcome { delete_blob: None, delete_file: false })
            } else if added {
                self.additions.remove(path);
                Ok(RmOutcome { delete_blob: None, delete_file: false })
            } else {
                Err(Error::AlreadyStaged)
            }
        } else if cached {
            let dropped = self.additions.remove(path);
            if in_head {
                self.removals.insert(path.to_owned());
                Ok(RmOutcome { delete_blob: None, delete_file: false })
            } else {
                Ok(RmOutcome { delete_blob: dropped, delete_file: false })
            }
        } else if added {
            Err(Error::StagedChangesConflict)
        } else {
            proof {
                assert(old(self)@.additions.remove(path@) =~= old(self)@.additions);
            }
            self.removals.insert(path.to_owned());
            Ok(RmOutcome { delete_blob: None, delete_file: true })
        }
    }

    /// Whether nothing is staged.
    pub fn is_clear(&self) -> (r: bool)
        requires
            self.wf(),
        ensures
            r == (self@.additions == Map::<Seq<char>, Seq<char>>::empty() && self@.removals
                == Set::<Seq<char>>::empty()),
    {
        self.additions.is_empty() && self.removals.is_empty()
    }

    /// Empties the staging area.
    pub fn clear(&mut self)
        ensures
            final(self).wf(),
            final(self)@.additions == Map::<Seq<char>, Seq<char>>::empty(),
            final(self)@.removals == Set::<Seq<char>>::empty(),
    {
        self.additions = Snapshot::new();
        self.removals = PathSet::new();
    }

    /// The listing of staged and removed paths.
    pub fn to_text(&self) -> (r: String)
        requires
            self.wf(),
        ensures
            r@ == index_text(self.added_order(), self.removed_order()),
    {
        let mut buf = String::from_str("=== Staged Files ===\n");
        let mut i: usize = 0;
        while i < self.additions.len()
            invariant
                self.wf(),
                i <= self.added_order().len(),
                buf@ == "=== Staged Files ===\n"@ + lines(self.added_order().subrange(0, i as int)),
            decreases self.added_order().len() - i,
        {
            let ghost before = buf@;
            buf.append(self.additions.path_at(i).as_str());
            buf.append("\n");
            proof {
                let o = self.added_order();
                lemma_prefix_step(o, i as int);
                assert(o.subrange(0, i + 1).drop_last() =~= o.subrange(0, i as int));
                assert(buf@ =~= "=== Staged Files ===\n"@ + lines(o.subrange(0, i + 1)));
            }
            i = i + 1;
        }
        buf.append("\n=== Removed Files ===\n");
        let ghost head = buf@;
        proof {
            assert(self.added_order().subrange(0, i as int) =~= self.added_order());
        }
        let mut j: usize = 0;
        while j < self.removals.len()
            invariant
                self.wf(),
                j <= self.removed_order().len(),
                buf@ == head + lines(self.removed_order().subrange(0, j as int)),
            decreases self.removed_order().len() - j,
        {
            buf.append(self.removals.path_at(j).as_str());
            buf.append("\n");
            proof {
                let o = self.removed_order();
                lemma_prefix_step(o, j as int);
                assert(o.subrange(0, j + 1).drop_last() =~= o.subrange(0, j as int));
                assert(buf@ =~= head + lines(o.subrange(0, j + 1)));
            }
            j = j + 1;
        }
        proof {
            assert(self.removed_order().subrange(0, j as int) =~= self.removed_order());
        }
        buf
    }
}

/// The text that reports the staging area.
pub fn status(index: &Index) -> (r: String)
    requires
        index.wf(),
    ensures
        r@ == index_text(index.added_order(), index.removed_order()),
{
    index.to_text()
}

/// The bytes of an optional byte string.
pub open spec fn opt_bytes(content: Option<&[u8]>) -> Option<Seq<u8>> {
    match content {
        Some(bytes) => Some(bytes@),
        None => None,
    }
}

/// What an action yields: the staging area and the object store after it,
/// or why it is refused. Unstaging never fails; adding needs the file.
pub open spec fn acted(
    ix: IndexView,
    store: Map<Seq<char>, Seq<u8>>,
    action: IndexAction,
    path: Seq<char>,
    content: Option<Seq<u8>>,
) -> Result<(IndexView, Map<Seq<char>, Seq<u8>>), Error> {
    match action {
        IndexAction::Unstage => Ok((unstaged(ix, path), store)),
        IndexAction::Add => match content {
            None => Err(Error::FileNotFound),
            Some(bytes) => staging(ix, store, path, bytes),
        },
    }
}

/// Stages or unstages one path. `content` is the content of the file at
/// the path, or `None` where no file exists there: adding it is then
/// refused, unstaging is not. A refusal changes nothing.
pub fn action(
    which: IndexAction,
    index: &mut Index,
    path: &str,
    content: Option<&[u8]>,
    store: &mut ObjectStore,
) -> (r: Result<(), Error>)
    requires
        old(index).wf(),
        old(store).wf(),
    ensures
        final(index).wf(),
        final(store).wf(),
        match r {
            Ok(()) => acted(old(index)@, old(store)@, which, path@, opt_bytes(content)) == Ok::<
                (IndexView, Map<Seq<char>, Seq<u8>>),
                Error,
            >((final(index)@, final(store)@)),
            Err(e) => {
                &&& acted(old(index)@, old(store)@, which, path@, opt_bytes(content)) == Err::<
                    (IndexView, Map<Seq<char>, Seq<u8>>),
                    Error,
                >(e)
                &&& final(index)@ == old(index)@
                &&& final(store)@ == old(store)@
            },
        },
{
    match which {
        IndexAction::Unstage => {
            index.unstage(path);
            Ok(())
        },
        IndexAction::Add => match content {
            None => Err(Error::FileNotFound),
            Some(bytes) => index.stage(path.to_owned(), bytes, store),
        },
    }
}

/// Removes the file at `file_name` from the working tree and stages its
/// removal; with `cached`, only stops tracking it. A refusal changes
/// nothing.
pub fn rm(
    repo: &mut Repository,
    tree: &mut WorkingTree,
    cached: bool,
    file_name: &str,
) -> (r: Result<(), Error>)
    requires
        old(repo).wf(),
        old(tree).wf(),
    ensures
        final(repo).wf(),
        final(tree).wf(),
        ({
            let in_head = head_commit_of(old(repo)@) matches Ok(c) && c.blobs.contains_key(
                file_name@,
            );
            match removal(
                old(repo)@.index,
                file_name@,
                cached,
                old(tree)@.contains_key(file_name@),
                in_head,
            ) {
                Ok((index, outcome)) => {
                    &&& r is Ok
                    &&& final(repo)@ == (RepoView {
                        index,
                        blobs: match outcome.delete_blob {
                            Some(digest) => old(repo)@.blobs.remove(digest),
                            None => old(repo)@.blobs,
                        },
                        ..old(repo)@
                    })
                    &&& final(tree)@ == if outcome.delete_file {
                        old(tree)@.remove(file_name@)
                    } else {
                        old(tree)@
                    }
                },
                Err(e) => {
                    &&& r == Err::<(), Error>(e)
                    &&& final(repo)@ == old(repo)@
                    &&& final(tree)@ == old(tree)@
                },
            }
        }),
{
    let on_disk = tree.contains(file_name);
    let in_head = repo.is_tracked_by_head(file_name);
    let outcome = match repo.index.remove(file_name, cached, on_disk, in_head) {
        Ok(outcome) => outcome,
        Err(e) => { return Err(e); },
    };
    match &outcome.delete_blob {
        Some(blob) => {
            repo.blobs.delete(blob.hash().as_str());
        },
        None => {},
    }
    if outcome.delete_file {
        tree.delete(file_name);
    }
    Ok(())
}

} // verus!
