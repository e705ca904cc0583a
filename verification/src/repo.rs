//! The repository as a whole: the current branch, the staging area and the
//! stores, and the operations that reconcile them with the working tree.

use crate::blob::ObjectStore;
use crate::checkout::{checkout_failure, checkout_result, switch_target};
use crate::commit::{
    commit_views, get_commit_blobs, history, load_result, start_state, walk, Commit, CommitStore,
    CommitView,
};
use crate::digest::digest_of;
use crate::error::Error;
use crate::index::{index_text, lines, Index, IndexView};
use crate::refs::RefStore;
use crate::snapshot::Snapshot;
use crate::strmap::{lemma_select_step, select, texts};
use crate::worktree::WorkingTree;
use vstd::prelude::*;
use vstd::string::StringExecFns;

verus! {

/// How a file in the working tree stands against its recorded version.
#[derive(Debug)]
pub enum Change {
    Unchanged,
    Deleted,
    Modified,
}

/// A path whose working copy departs from what is staged or committed.
#[derive(Debug)]
pub struct Modification {
    pub path: String,
    /// Whether the file is gone, as opposed to changed.
    pub deleted: bool,
}

/// What a `Modification` says.
pub struct ModView {
    pub path: Seq<char>,
    pub deleted: bool,
}

impl View for Modification {
    type V = ModView;

    open spec fn view(&self) -> ModView {
        ModView { path: self.path@, deleted: self.deleted }
    }
}

/// The views of a sequence of modifications.
pub open spec fn mod_views(v: Seq<Modification>) -> Seq<ModView> {
    v.map_values(|m: Modification| m@)
}

/// The paths of a sequence of modifications.
pub open spec fn mod_paths(v: Seq<ModView>) -> Seq<Seq<char>> {
    v.map_values(|m: ModView| m.path)
}

/// Classifies the working copy of `path` against its staged version if
/// there is one, else against the version that `head` holds. A file that is
/// gone counts as deleted unless its removal is staged.
pub open spec fn classify(
    head: Map<Seq<char>, Seq<char>>,
    ix: IndexView,
    tree: Map<Seq<char>, Seq<u8>>,
    path: Seq<char>,
) -> Change {
    if !tree.contains_key(path) {
        if head.contains_key(path) && ix.removals.contains(path) {
            Change::Unchanged
        } else {
            Change::Deleted
        }
    } else if ix.additions.contains_key(path) {
        if digest_of(tree[path]) == ix.additions[path] {
            Change::Unchanged
        } else {
            Change::Modified
        }
    } else if head.contains_key(path) {
        if digest_of(tree[path]) == head[path] {
            Change::Unchanged
        } else {
            Change::Modified
        }
    } else {
        Change::Unchanged
    }
}

/// The modifications among `paths`, in order. With `only_new`, paths that
/// `head` holds are passed over.
pub open spec fn scan(
    head: Map<Seq<char>, Seq<char>>,
    ix: IndexView,
    tree: Map<Seq<char>, Seq<u8>>,
    paths: Seq<Seq<char>>,
    only_new: bool,
) -> Seq<ModView>
    decreases paths.len(),
{
    if paths.len() == 0 {
        Seq::empty()
    } else {
        let rest = scan(head, ix, tree, paths.drop_last(), only_new);
        let path = paths.last();
        if only_new && head.contains_key(path) {
            rest
        } else {
            match classify(head, ix, tree, path) {
                Change::Unchanged => rest,
                Change::Deleted => rest.push(ModView { path, deleted: true }),
                Change::Modified => rest.push(ModView { path, deleted: false }),
            }
        }
    }
}

/// The unstaged modifications of a working tree: first among the paths
/// that `head` holds, then among the staged additions that it does not.
pub open spec fn unstaged_changes(
    head: Map<Seq<char>, Seq<char>>,
    head_order: Seq<Seq<char>>,
    ix: IndexView,
    added_order: Seq<Seq<char>>,
    tree: Map<Seq<char>, Seq<u8>>,
) -> Seq<ModView> {
    scan(head, ix, tree, head_order, false) + scan(head, ix, tree, added_order, true)
}

/// A scan lists exactly the paths it looked at whose working copy is
/// deleted or modified.
pub proof fn lemma_scan_paths(
    head: Map<Seq<char>, Seq<char>>,
    ix: IndexView,
    tree: Map<Seq<char>, Seq<u8>>,
    paths: Seq<Seq<char>>,
    only_new: bool,
)
    ensures
        forall|p: Seq<char>| #[trigger]
            mod_paths(scan(head, ix, tree, paths, only_new)).contains(p) <==> (paths.contains(p)
                && !(only_new && head.contains_key(p)) && !(classify(head, ix, tree, p)
                is Unchanged)),
    decreases paths.len(),
{
    let found = mod_paths(scan(head, ix, tree, paths, only_new));
    if paths.len() == 0 {
        assert(found =~= Seq::<Seq<char>>::empty());
    } else {
        let front = paths.drop_last();
        let x = paths.last();
        let before = mod_paths(scan(head, ix, tree, front, only_new));
        lemma_scan_paths(head, ix, tree, front, only_new);
        let listed = !(only_new && head.contains_key(x)) && !(classify(head, ix, tree, x)
            is Unchanged);
        if listed {
            assert(found =~= before.push(x));
        } else {
            assert(found =~= before);
        }
        assert forall|p: Seq<char>| #[trigger]
            found.contains(p) implies (paths.contains(p) && !(only_new && head.contains_key(p))
            && !(classify(head, ix, tree, p) is Unchanged)) by {
            let j = found.index_of(p);
            assert(found[j] == p);
            if j < before.len() {
                assert(before[j] == p);
                assert(before.contains(p));
                let a = front.index_of(p);
                assert(front[a] == p);
                assert(paths[a] == p);
            } else {
                assert(p == x);
                assert(paths[paths.len() - 1] == p);
            }
        }
        assert forall|p: Seq<char>|
            paths.contains(p) && !(only_new && head.contains_key(p)) && !(classify(
                head,
                ix,
                tree,
                p,
            ) is Unchanged) implies #[trigger] found.contains(p) by {
            let a = paths.index_of(p);
            assert(paths[a] == p);
            if a < front.len() {
                assert(front[a] == p);
                assert(front.contains(p));
                assert(before.contains(p));
                let j = before.index_of(p);
                assert(before[j] == p);
                assert(found[j] == p);
            } else {
                assert(p == x);
                assert(found[found.len() - 1] == p);
            }
        }
    }
}

/// Whether a working file counts as untracked: no hidden path, not held by
/// `head`, not staged.
pub open spec fn is_untracked(
    head: Map<Seq<char>, Seq<char>>,
    ix: IndexView,
    path: Seq<char>,
) -> bool {
    &&& !(path.len() > 0 && path[0] == '.')
    &&& !head.contains_key(path)
    &&& !ix.additions.contains_key(path)
}

/// The predicate behind `is_untracked`.
pub open spec fn untracked_pred(head: Map<Seq<char>, Seq<char>>, ix: IndexView) -> spec_fn(
    Seq<char>,
) -> bool {
    |path: Seq<char>| is_untracked(head, ix, path)
}

impl Modification {
    /// The path, marked where the file is gone.
    pub fn to_text(&self) -> (r: String)
        ensures
            r@ == mod_text(self@),
    {
        let mut out = self.path.clone();
        if self.deleted {
            out.append(" (deleted)");
        }
        out
    }
}

/// How a modification is listed.
pub open spec fn mod_text(m: ModView) -> Seq<char> {
    if m.deleted {
        m.path + " (deleted)"@
    } else {
        m.path
    }
}

fn classify_path(path: &str, head: &Snapshot, index: &Index, tree: &WorkingTree) -> (r: Change)
    requires
        head.wf(),
        index.wf(),
        tree.wf(),
    ensures
        r == classify(head@, index@, tree@, path@),
{
    match tree.read(path) {
        None => {
            if head.contains_key(path) && index.removals().contains(path) {
                Change::Unchanged
            } else {
                Change::Deleted
            }
        },
        Some(content) => {
            let reference = match index.additions().get(path) {
                Some(blob) => Some(blob),
                None => head.get(path),
            };
            match reference {
                Some(blob) => {
                    if blob.hash_same_as_other_file(content.as_slice()) {
                        Change::Unchanged
                    } else {
                        Change::Modified
                    }
                },
                None => Change::Unchanged,
            }
        },
    }
}

fn scan_paths(
    out: &mut Vec<Modification>,
    paths: &Snapshot,
    only_new: bool,
    head: &Snapshot,
    index: &Index,
    tree: &WorkingTree,
)
    requires
        paths.wf(),
        head.wf(),
        index.wf(),
        tree.wf(),
    ensures
        mod_views(final(out)@) == mod_views(old(out)@) + scan(
            head@,
            index@,
            tree@,
            paths.order(),
            only_new,
        ),
{
    let ghost start = mod_views(out@);
    let mut i: usize = 0;
    proof {
        assert(paths.order().subrange(0, 0) =~= Seq::<Seq<char>>::empty());
        assert(start + Seq::<ModView>::empty() =~= start);
    }
    while i < paths.len()
        invariant
            paths.wf(),
            head.wf(),
            index.wf(),
            tree.wf(),
            i <= paths.order().len(),
            mod_views(out@) == start + scan(
                head@,
                index@,
                tree@,
                paths.order().subrange(0, i as int),
                only_new,
            ),
        decreases paths.order().len() - i,
    {
        let path = paths.path_at(i);
        let ghost seen = scan(head@, index@, tree@, paths.order().subrange(0, i as int), only_new);
        let ghost shown = out@;
        proof {
            let longer = paths.order().subrange(0, i + 1);
            assert(longer.drop_last() =~= paths.order().subrange(0, i as int));
            assert(longer.last() == path@);
        }
        if !(only_new && head.contains_key(path.as_str())) {
            match classify_path(path.as_str(), head, index, tree) {
                Change::Unchanged => {},
                Change::Deleted => {
                    let m = Modification { path: path.clone(), deleted: true };
                    out.push(m);
                    proof {
                        assert(mod_views(shown.push(m)) =~= mod_views(shown).push(m@));
                        assert(start + seen.push(m@) =~= (start + seen).push(m@));
                    }
                },
                Change::Modified => {
                    let m = Modification { path: path.clone(), deleted: false };
                    out.push(m);
                    proof {
                        assert(mod_views(shown.push(m)) =~= mod_views(shown).push(m@));
                        assert(start + seen.push(m@) =~= (start + seen).push(m@));
                    }
                },
            }
        }
        i = i + 1;
    }
    proof {
        assert(paths.order().subrange(0, i as int) =~= paths.order());
    }
}

/// Lists the paths whose working copy was changed or deleted since it was
/// staged or committed.
pub fn unstaged_modifications(head: &Snapshot, index: &Index, tree: &WorkingTree) -> (r: Vec<
    Modification,
>)
    requires
        head.wf(),
        index.wf(),
        tree.wf(),
    ensures
        mod_views(r@) == unstaged_changes(
            head@,
            head.order(),
            index@,
            index.added_order(),
            tree@,
        ),
{
    let mut out: Vec<Modification> = Vec::new();
    proof {
        assert(mod_views(out@) =~= Seq::<ModView>::empty());
    }
    scan_paths(&mut out, head, false, head, index, tree);
    proof {
        assert(Seq::<ModView>::empty() + scan(head@, index@, tree@, head.order(), false) =~= scan(
            head@,
            index@,
            tree@,
            head.order(),
            false,
        ));
    }
    scan_paths(&mut out, index.additions(), true, head, index, tree);
    out
}

/// Lists the working files that are neither hidden, nor held by `head`,
/// nor staged.
pub fn untracked_files(head: &Snapshot, index: &Index, tree: &WorkingTree) -> (r: Vec<String>)
    requires
        head.wf(),
        index.wf(),
        tree.wf(),
    ensures
        texts(r@) == select(tree.order(), untracked_pred(head@, index@)),
{
    let mut out: Vec<String> = Vec::new();
    let mut i: usize = 0;
    let ghost keep = untracked_pred(head@, index@);
    proof {
        assert(tree.order().subrange(0, 0) =~= Seq::<Seq<char>>::empty());
        assert(texts(out@) =~= Seq::<Seq<char>>::empty());
    }
    while i < tree.len()
        invariant
            head.wf(),
            index.wf(),
            tree.wf(),
            keep == untracked_pred(head@, index@),
            i <= tree.order().len(),
            texts(out@) == select(tree.order().subrange(0, i as int), keep),
        decreases tree.order().len() - i,
    {
        let path = tree.path_at(i);
        let ghost shown = out@;
        proof {
            lemma_select_step(tree.order(), i as int, keep);
        }
        if !crate::paths::is_hidden(path.as_str()) && !head.contains_key(path.as_str())
            && !index.additions().contains_key(path.as_str()) {
            out.push(path.clone());
            proof {
                assert(texts(shown.push(*path)) =~= texts(shown).push(path@));
            }
        }
        i = i + 1;
    }
    proof {
        assert(tree.order().subrange(0, i as int) =~= tree.order());
    }
    out
}

/// What a repository holds.
pub struct RepoView {
    /// The name of the branch that is checked out.
    pub head: Seq<char>,
    /// The tip of each branch.
    pub refs: Map<Seq<char>, Seq<char>>,
    pub index: IndexView,
    pub commits: Map<Seq<char>, CommitView>,
    /// The compressed objects by digest.
    pub blobs: Map<Seq<char>, Seq<u8>>,
}

/// A repository: the branch that is checked out, the branches, the
/// staging area and the two stores.
#[derive(Debug)]
pub struct Repository {
    pub head: String,
    pub refs: RefStore,
    pub index: Index,
    pub commits: CommitStore,
    pub blobs: ObjectStore,
}

impl View for Repository {
    type V = RepoView;

    open spec fn view(&self) -> RepoView {
        RepoView {
            head: self.head@,
            refs: self.refs@,
            index: self.index@,
            commits: self.commits@,
            blobs: self.blobs@,
        }
    }
}

/// How a switch ended.
#[derive(Debug)]
pub enum SwitchOutcome {
    /// The branch was checked out already.
    AlreadyOn,
    Switched,
}

/// The hash that a branch tip must have: empty, or 40 characters.
pub open spec fn tip_of(refs: Map<Seq<char>, Seq<char>>, name: Seq<char>) -> Result<
    Seq<char>,
    Error,
> {
    if !refs.contains_key(name) {
        Err(Error::BranchNotFound)
    } else if refs[name].len() != 0 && refs[name].len() != 40 {
        Err(Error::CorruptObject)
    } else {
        Ok(refs[name])
    }
}

/// The hash of the commit that is checked out.
pub open spec fn head_hash_of(r: RepoView) -> Result<Seq<char>, Error> {
    tip_of(r.refs, r.head)
}

/// The commit that is checked out.
pub open spec fn head_commit_of(r: RepoView) -> Result<CommitView, Error> {
    match head_hash_of(r) {
        Ok(hash) => load_result(r.commits, hash),
        Err(e) => Err(e),
    }
}

/// The repository after the file at `path` of the working tree is staged,
/// or why that cannot be done.
pub open spec fn added(r: RepoView, tree: Map<Seq<char>, Seq<u8>>, path: Seq<char>) -> Result<
    RepoView,
    Error,
> {
    if !tree.contains_key(path) {
        Err(Error::FileNotFound)
    } else {
        match crate::index::staging(r.index, r.blobs, path, tree[path]) {
            Ok((index, blobs)) => Ok(RepoView { index, blobs, ..r }),
            Err(e) => Err(e),
        }
    }
}

/// The initial state of a repository: branch `main` without commits,
/// checked out, and nothing else.
pub open spec fn initial() -> RepoView {
    RepoView {
        head: "main"@,
        refs: Map::<Seq<char>, Seq<char>>::empty().insert("main"@, Seq::empty()),
        index: IndexView { additions: Map::empty(), removals: Set::empty() },
        commits: Map::empty(),
        blobs: Map::empty(),
    }
}

/// The repository after the staging area is committed with `message` at
/// `timestamp`, or why that cannot be done.
pub open spec fn committed(r: RepoView, message: Seq<char>, timestamp: u64) -> Result<
    RepoView,
    Error,
> {
    if r.index.additions == Map::<Seq<char>, Seq<char>>::empty() && r.index.removals
        == Set::<Seq<char>>::empty() {
        Err(Error::NothingToCommit)
    } else {
        match head_commit_of(r) {
            Err(e) => Err(e),
            Ok(parent) => {
                let c = crate::commit::commit_of(
                    head_hash_of(r)->Ok_0,
                    Seq::empty(),
                    message,
                    timestamp,
                    parent.blobs,
                    r.index,
                );
                match crate::commit::save_result(r.commits, c) {
                    Err(e) => Err(e),
                    Ok(commits) => Ok(
                        RepoView {
                            refs: r.refs.insert(r.head, c.hash),
                            index: IndexView { additions: Map::empty(), removals: Set::empty() },
                            commits,
                            ..r
                        },
                    ),
                }
            },
        }
    }
}

impl Repository {
    /// Every part of the repository is well formed.
    pub open spec fn wf(&self) -> bool {
        &&& self.refs.wf()
        &&& self.index.wf()
        &&& self.commits.wf()
        &&& self.blobs.wf()
    }


    /// The name of the branch that is checked out.
    pub fn get_head_branch(&self) -> (r: &String)
        ensures
            r@ == self@.head,
    {
        &self.head
    }

    /// The tip of branch `name`, checked for its length.
    pub fn read_tip(&self, name: &str) -> (r: Result<String, Error>)
        requires
            self.wf(),
        ensures
            match r {
                Ok(hash) => tip_of(self@.refs, name@) == Ok::<Seq<char>, Error>(hash@),
                Err(e) => tip_of(self@.refs, name@) == Err::<Seq<char>, Error>(e),
            },
    {
        match self.refs.get(name) {
            None => Err(Error::BranchNotFound),
            Some(hash) => {
                let n = hash.as_str().unicode_len();
                if n != 0 && n != 40 {
                    Err(Error::CorruptObject)
                } else {
                    Ok(hash.clone())
                }
            },
        }
    }

    /// The hash of the commit that is checked out; empty before the first
    /// commit.
    pub fn read_head_hash(&self) -> (r: Result<String, Error>)
        requires
            self.wf(),
        ensures
            match r {
                Ok(hash) => head_hash_of(self@) == Ok::<Seq<char>, Error>(hash@),
                Err(e) => head_hash_of(self@) == Err::<Seq<char>, Error>(e),
            },
    {
        self.read_tip(self.head.as_str())
    }

    /// The commit that is checked out.
    pub fn retrieve_head_commit(&self) -> (r: Result<Commit, Error>)
        requires
            self.wf(),
        ensures
            match r {
                Ok(c) => c.wf() && head_commit_of(self@) == Ok::<CommitView, Error>(c@),
                Err(e) => head_commit_of(self@) == Err::<CommitView, Error>(e),
            },
    {
        match self.read_head_hash() {
            Ok(hash) => self.commits.load(hash.as_str()),
            Err(e) => Err(e),
        }
    }

    /// The snapshot of the commit that is checked out.
    pub fn head_snapshot(&self) -> (r: Result<Snapshot, Error>)
        requires
            self.wf(),
        ensures
            match r {
                Ok(blobs) => {
                    &&& blobs.wf()
                    &&& head_commit_of(self@) is Ok
                    &&& blobs@ == head_commit_of(self@)->Ok_0.blobs
                    &&& blobs.order() == self.commits.blobs_order(head_hash_of(self@)->Ok_0)
                },
                Err(e) => head_commit_of(self@) == Err::<CommitView, Error>(e),
            },
    {
        match self.read_head_hash() {
            Ok(hash) => get_commit_blobs(hash.as_str(), &self.commits),
            Err(e) => Err(e),
        }
    }

    /// Whether the commit that is checked out holds `path`. Where that
    /// commit cannot be loaded, nothing counts as held.
    pub fn is_tracked_by_head(&self, path: &str) -> (r: bool)
        requires
            self.wf(),
        ensures
            r == (head_commit_of(self@) matches Ok(c) && c.blobs.contains_key(path@)),
    {
        match self.head_snapshot() {
            Ok(blobs) => blobs.contains_key(path),
            Err(_) => false,
        }
    }

    /// Points the branch that is checked out at `hash`.
    pub fn update_head(&mut self, hash: &str)
        requires
            old(self).wf(),
        ensures
            final(self).wf(),
            final(self)@ == (RepoView {
                refs: old(self)@.refs.insert(old(self)@.head, hash@),
                ..old(self)@
            }),
    {
        self.refs.set(self.head.clone(), hash.to_owned());
    }

    /// Commits the staging area with `message` at `timestamp`: the new
    /// commit is saved, the branch moves to it and the staging area is
    /// emptied. A failure changes nothing.
    pub fn commit_at(&mut self, message: String, timestamp: u64) -> (r: Result<(), Error>)
        requires
            old(self).wf(),
        ensures
            final(self).wf(),
            match r {
                Ok(()) => committed(old(self)@, message@, timestamp) == Ok::<RepoView, Error>(
                    final(self)@,
                ),
                Err(e) => {
                    &&& committed(old(self)@, message@, timestamp) == Err::<RepoView, Error>(e)
                    &&& final(self)@ == old(self)@
                },
            },
    {
        if self.index.is_clear() {
            return Err(Error::NothingToCommit);
        }
        let parent = match self.read_head_hash() {
            Ok(hash) => hash,
            Err(e) => { return Err(e); },
        };
        let base = match get_commit_blobs(parent.as_str(), &self.commits) {
            Ok(base) => base,
            Err(e) => { return Err(e); },
        };
        let c = Commit::with_timestamp(parent, None, message, &self.index, &base, timestamp);
        let hash = c.hash().clone();
        match self.commits.save(c) {
            Ok(()) => {},
            Err(e) => { return Err(e); },
        }
        self.update_head(hash.as_str());
        self.index.clear();
        proof {
            assert(self@.index == committed(old(self)@, message@, timestamp)->Ok_0.index);
        }
        Ok(())
    }



    /// Creates branch `name` at the commit that is checked out.
    pub fn create_branch(&mut self, name: &str) -> (r: Result<(), Error>)
        requires
            old(self).wf(),
        ensures
            final(self).wf(),
            match r {
                Ok(()) => {
                    &&& !old(self)@.refs.contains_key(name@)
                    &&& head_hash_of(old(self)@) is Ok
                    &&& final(self)@ == (RepoView {
                        refs: old(self)@.refs.insert(name@, head_hash_of(old(self)@)->Ok_0),
                        ..old(self)@
                    })
                },
                Err(e) => {
                    &&& final(self)@ == old(self)@
                    &&& if old(self)@.refs.contains_key(name@) {
                        e == Error::BranchExists
                    } else {
                        head_hash_of(old(self)@) == Err::<Seq<char>, Error>(e)
                    }
                },
            },
    {
        if self.refs.contains(name) {
            return Err(Error::BranchExists);
        }
        let hash = match self.read_head_hash() {
            Ok(hash) => hash,
            Err(e) => { return Err(e); },
        };
        self.refs.set(name.to_owned(), hash);
        Ok(())
    }

    /// Deletes branch `name`, unless it is checked out or does not exist.
    pub fn delete_branch(&mut self, name: &str) -> (r: Result<(), Error>)
        requires
            old(self).wf(),
        ensures
            final(self).wf(),
            match r {
                Ok(()) => crate::refs::deleted(old(self)@.refs, name@, old(self)@.head) == Ok::<
                    Map<Seq<char>, Seq<char>>,
                    Error,
                >(final(self)@.refs) && final(self)@ == (RepoView {
                    refs: final(self)@.refs,
                    ..old(self)@
                }),
                Err(e) => {
                    &&& crate::refs::deleted(old(self)@.refs, name@, old(self)@.head) == Err::<
                        Map<Seq<char>, Seq<char>>,
                        Error,
                    >(e)
                    &&& final(self)@ == old(self)@
                },
            },
    {
        self.refs.delete(name, self.head.as_str())
    }

    /// Stages the file at `path` as it stands in the working tree. It is
    /// refused where no file is there, and fails where the content cannot
    /// be compressed; either way nothing changes.
    pub fn add(&mut self, tree: &WorkingTree, path: &str) -> (r: Result<(), Error>)
        requires
            old(self).wf(),
            tree.wf(),
        ensures
            final(self).wf(),
            match r {
                Ok(()) => added(old(self)@, tree@, path@) == Ok::<RepoView, Error>(final(self)@),
                Err(e) => {
                    &&& added(old(self)@, tree@, path@) == Err::<RepoView, Error>(e)
                    &&& final(self)@ == old(self)@
                },
            },
    {
        let content = match tree.read(path) {
            Some(content) => Some(content.as_slice()),
            None => None,
        };
        crate::index::action(
            crate::index::IndexAction::Add,
            &mut self.index,
            path,
            content,
            &mut self.blobs,
        )
    }

    /// Takes `path` out of the staging area, whether or not a file is
    /// there.
    pub fn unstage(&mut self, path: &str)
        requires
            old(self).wf(),
        ensures
            final(self).wf(),
            final(self)@ == (RepoView {
                index: crate::index::unstaged(old(self)@.index, path@),
                ..old(self)@
            }),
    {
        self.index.unstage(path);
    }
}

/// A new repository, unless one exists already.
pub fn init(exists: bool) -> (r: Result<Repository, Error>)
    ensures
        match r {
            Ok(repo) => !exists && repo.wf() && repo@ == initial(),
            Err(e) => exists && e == Error::RepositoryAlreadyExists,
        },
{
    if exists {
        return Err(Error::RepositoryAlreadyExists);
    }
    let mut refs = RefStore::new();
    refs.set(String::from_str("main"), String::new());
    let repo = Repository {
        head: String::from_str("main"),
        refs,
        index: Index::new(),
        commits: CommitStore::new(),
        blobs: ObjectStore::new(),
    };
    proof {
        assert(repo@.index == initial().index);
    }
    Ok(repo)
}

/// Why a commit is refused before the clock is read, if it is: nothing
/// is staged, or the current commit does not load.
pub open spec fn commit_refusal(r: RepoView) -> Option<Error> {
    if r.index.additions == Map::<Seq<char>, Seq<char>>::empty() && r.index.removals
        == Set::<Seq<char>>::empty() {
        Some(Error::NothingToCommit)
    } else {
        match head_commit_of(r) {
            Err(e) => Some(e),
            Ok(_) => None,
        }
    }
}

/// Whether `r` and the repository `after` are what committing the staging
/// area of `before` at `timestamp` yields.
pub open spec fn commit_done(
    before: RepoView,
    after: RepoView,
    r: Result<(), Error>,
    message: Seq<char>,
    timestamp: u64,
) -> bool {
    match r {
        Ok(()) => committed(before, message, timestamp) == Ok::<RepoView, Error>(after),
        Err(e) => committed(before, message, timestamp) == Err::<RepoView, Error>(e) && after
            == before,
    }
}

/// Commits the staging area with `message`, stamped with the current
/// time. The commit is refused before the clock is read where nothing is
/// staged or the current commit does not load. A failure changes nothing.
pub fn commit(repo: &mut Repository, message: String) -> (r: Result<(), Error>)
    requires
        old(repo).wf(),
    ensures
        final(repo).wf(),
        match commit_refusal(old(repo)@) {
            Some(e) => r == Err::<(), Error>(e) && final(repo)@ == old(repo)@,
            None => {
                ||| (r == Err::<(), Error>(Error::ClockUnavailable) && final(repo)@
                    == old(repo)@)
                ||| exists|timestamp: u64| #[trigger]
                    commit_done(old(repo)@, final(repo)@, r, message@, timestamp)
            },
        },
{
    if repo.index.is_clear() {
        return Err(Error::NothingToCommit);
    }
    match repo.retrieve_head_commit() {
        Ok(_) => {},
        Err(e) => { return Err(e); },
    }
    match crate::commit::now_secs() {
        Some(timestamp) => {
            let r = repo.commit_at(message, timestamp);
            proof {
                assert(commit_done(old(repo)@, repo@, r, message@, timestamp));
            }
            r
        },
        None => Err(Error::ClockUnavailable),
    }
}

/// The history behind the commit that is checked out, most recent
/// commit first.
pub fn log(repo: &Repository) -> (r: Result<Vec<Commit>, Error>)
    requires
        repo.wf(),
    ensures
        match r {
            Ok(entries) => {
                &&& head_commit_of(repo@) is Ok
                &&& commit_views(entries@) == walk(
                    repo@.commits,
                    start_state(repo@.commits, head_commit_of(repo@)->Ok_0.hash),
                    usize::MAX as nat,
                )
            },
            Err(e) => head_commit_of(repo@) == Err::<CommitView, Error>(e),
        },
{
    match repo.retrieve_head_commit() {
        Ok(head) => Ok(history(&head, &repo.commits)),
        Err(e) => Err(e),
    }
}

/// Switches to branch `name`; with `create`, a branch that does not
/// exist is first created at the current commit. A failure changes
/// nothing.
pub fn switch(
    repo: &mut Repository,
    tree: &mut WorkingTree,
    name: &str,
    create: bool,
) -> (r: Result<SwitchOutcome, Error>)
    requires
        old(repo).wf(),
        old(tree).wf(),
    ensures
        final(repo).wf(),
        final(tree).wf(),
        if name@ == old(repo)@.head {
            &&& r matches Ok(SwitchOutcome::AlreadyOn)
            &&& final(repo)@ == old(repo)@
            &&& final(tree)@ == old(tree)@
        } else {
            match switch_target(old(repo)@, name@, create) {
                Err(x) => {
                    &&& r == Err::<SwitchOutcome, Error>(x)
                    &&& final(repo)@ == old(repo)@
                    &&& final(tree)@ == old(tree)@
                },
                Ok(hash) => match r {
                    Ok(outcome) => {
                        &&& outcome is Switched
                        &&& checkout_result(old(repo)@, hash, old(tree)@) == Some(
                            final(tree)@,
                        )
                        &&& final(repo)@ == (RepoView {
                            head: name@,
                            refs: old(repo)@.refs.insert(name@, hash),
                            ..old(repo)@
                        })
                    },
                    Err(e) => {
                        &&& final(repo)@ == old(repo)@
                        &&& final(tree)@ == old(tree)@
                        &&& checkout_result(old(repo)@, hash, old(tree)@) is None
                        &&& checkout_failure(old(repo)@, hash, old(tree)@, e)
                    },
                },
            }
        },
{
    if crate::strmap::str_eq(name, repo.head.as_str()) {
        return Ok(SwitchOutcome::AlreadyOn);
    }
    let exists = repo.refs.contains(name);
    let found = if exists {
        repo.read_tip(name)
    } else if create {
        repo.read_head_hash()
    } else {
        Err(Error::BranchNotFound)
    };
    let hash = match found {
        Ok(hash) => hash,
        Err(e) => { return Err(e); },
    };
    match repo.checkout(tree, hash.as_str()) {
        Ok(()) => {},
        Err(e) => { return Err(e); },
    }
    proof {
        if exists {
            assert(old(repo)@.refs.insert(name@, hash@) =~= old(repo)@.refs);
        }
    }
    if !exists {
        repo.refs.set(name.to_owned(), hash);
    }
    repo.head = name.to_owned();
    Ok(SwitchOutcome::Switched)
}

/// How each modification is listed.
pub open spec fn mod_texts(mods: Seq<ModView>) -> Seq<Seq<char>> {
    mods.map_values(|m: ModView| mod_text(m))
}

/// The report on a repository: the branch, the staging area, the unstaged
/// modifications and the untracked files.
pub open spec fn status_text(
    branch: Seq<char>,
    staged: Seq<char>,
    mods: Seq<ModView>,
    untracked: Seq<Seq<char>>,
) -> Seq<char> {
    "On branch "@ + branch + "\n\n"@ + staged + "\n=== Unstaged Modifications ===\n"@ + lines(
        mod_texts(mods),
    ) + "\n=== Untracked Files ===\n"@ + lines(untracked) + "\n"@
}

/// Appends each item, followed by a line feed.
fn append_lines(buf: &mut String, items: &Vec<String>)
    ensures
        final(buf)@ == old(buf)@ + lines(texts(items@)),
{
    let mut i: usize = 0;
    proof {
        assert(texts(items@).subrange(0, 0) =~= Seq::<Seq<char>>::empty());
        assert(buf@ + lines(Seq::<Seq<char>>::empty()) =~= buf@);
    }
    while i < items.len()
        invariant
            i <= items@.len(),
            buf@ == old(buf)@ + lines(texts(items@).subrange(0, i as int)),
        decreases items@.len() - i,
    {
        buf.append(items[i].as_str());
        buf.append("\n");
        proof {
            let all = texts(items@);
            assert(all[i as int] == items@[i as int]@);
            assert(all.subrange(0, i + 1).drop_last() =~= all.subrange(0, i as int));
            assert(all.subrange(0, i + 1).last() == all[i as int]);
            assert(buf@ =~= old(buf)@ + lines(all.subrange(0, i + 1)));
        }
        i = i + 1;
    }
    proof {
        assert(texts(items@).subrange(0, i as int) =~= texts(items@));
    }
}

/// Reports the state of the repository against the working tree.
pub fn status(repo: &Repository, tree: &WorkingTree) -> (r: Result<String, Error>)
    requires
        repo.wf(),
        tree.wf(),
    ensures
        match r {
            Ok(text) => {
                &&& head_commit_of(repo@) is Ok
                &&& text@ == status_text(
                    repo@.head,
                    index_text(repo.index.added_order(), repo.index.removed_order()),
                    unstaged_changes(
                        head_commit_of(repo@)->Ok_0.blobs,
                        repo.commits.blobs_order(head_hash_of(repo@)->Ok_0),
                        repo@.index,
                        repo.index.added_order(),
                        tree@,
                    ),
                    select(
                        tree.order(),
                        untracked_pred(head_commit_of(repo@)->Ok_0.blobs, repo@.index),
                    ),
                )
            },
            Err(e) => head_commit_of(repo@) == Err::<CommitView, Error>(e),
        },
{
    let head = match repo.head_snapshot() {
        Ok(head) => head,
        Err(e) => { return Err(e); },
    };
    let mods = unstaged_modifications(&head, &repo.index, tree);
    let mut listed: Vec<String> = Vec::new();
    let mut i: usize = 0;
    proof {
        assert(texts(listed@) =~= mod_texts(mod_views(mods@)).subrange(0, 0));
    }
    while i < mods.len()
        invariant
            i <= mods@.len(),
            texts(listed@) == mod_texts(mod_views(mods@)).subrange(0, i as int),
        decreases mods@.len() - i,
    {
        let ghost shown = listed@;
        let line = mods[i].to_text();
        listed.push(line);
        proof {
            let all = mod_texts(mod_views(mods@));
            assert(all[i as int] == line@);
            assert(texts(shown.push(line)) =~= texts(shown).push(line@));
            assert(all.subrange(0, i + 1) =~= all.subrange(0, i as int).push(line@));
        }
        i = i + 1;
    }
    proof {
        let all = mod_texts(mod_views(mods@));
        assert(all.subrange(0, i as int) =~= all);
    }
    let untracked = untracked_files(&head, &repo.index, tree);
    let mut buf = String::from_str("On branch ");
    buf.append(repo.head.as_str());
    buf.append("\n\n");
    let staged = repo.index.to_text();
    buf.append(staged.as_str());
    buf.append("\n=== Unstaged Modifications ===\n");
    append_lines(&mut buf, &listed);
    buf.append("\n=== Untracked Files ===\n");
    append_lines(&mut buf, &untracked);
    buf.append("\n");
    Ok(buf)
}

/// What a branch operation did.
#[derive(Debug)]
pub enum BranchOutcome {
    Created,
    Deleted,
    /// One line for each branch, the current one marked with an asterisk.
    Listed(Vec<String>),
}

/// How a branch is listed: marked where it is checked out.
pub open spec fn branch_line(name: Seq<char>, head: Seq<char>) -> Seq<char> {
    if name == head {
        "* "@ + name
    } else {
        "  "@ + name
    }
}

/// The listing of `names`, in their order.
pub open spec fn branch_lines(names: Seq<Seq<char>>, head: Seq<char>) -> Seq<Seq<char>> {
    names.map_values(|name: Seq<char>| branch_line(name, head))
}

/// Renders the listing of branches whose names are `names`.
pub fn branch_listing(names: &Vec<String>, head: &str) -> (r: Vec<String>)
    ensures
        texts(r@) == branch_lines(texts(names@), head@),
{
    let mut out: Vec<String> = Vec::new();
    let mut i: usize = 0;
    proof {
        assert(texts(out@) =~= branch_lines(texts(names@), head@).subrange(0, 0));
    }
    while i < names.len()
        invariant
            i <= names@.len(),
            texts(out@) == branch_lines(texts(names@), head@).subrange(0, i as int),
        decreases names@.len() - i,
    {
        let ghost shown = out@;
        let name = &names[i];
        let mut line = if crate::strmap::str_eq(name.as_str(), head) {
            String::from_str("* ")
        } else {
            String::from_str("  ")
        };
        line.append(name.as_str());
        out.push(line);
        proof {
            let all = branch_lines(texts(names@), head@);
            assert(texts(names@)[i as int] == name@);
            assert(all[i as int] == line@);
            assert(texts(shown.push(line)) =~= texts(shown).push(line@));
            assert(all.subrange(0, i + 1) =~= all.subrange(0, i as int).push(line@));
        }
        i = i + 1;
    }
    proof {
        let all = branch_lines(texts(names@), head@);
        assert(all.subrange(0, i as int) =~= all);
    }
    out
}

/// The listing of the branches `names` in ascending order, with the
/// branch `head` marked.
pub open spec fn is_listing(lines: Seq<Seq<char>>, names: Seq<Seq<char>>, head: Seq<char>) -> bool {
    exists|ordered: Seq<Seq<char>>|
        {
            &&& crate::sort::sorted(ordered)
            &&& ordered.to_multiset() == names.to_multiset()
            &&& lines == #[trigger] branch_lines(ordered, head)
        }
}

/// A listing shows every branch, and has one line for each.
pub proof fn lemma_listing_complete(refs: &RefStore, lines: Seq<Seq<char>>, head: Seq<char>)
    requires
        refs.wf(),
        is_listing(lines, refs.order(), head),
    ensures
        lines.len() == refs@.dom().len(),
        forall|name: Seq<char>|
            refs@.contains_key(name) ==> lines.contains(#[trigger] branch_line(name, head)),
{
    let ordered = choose|ordered: Seq<Seq<char>>|
        {
            &&& crate::sort::sorted(ordered)
            &&& ordered.to_multiset() == refs.order().to_multiset()
            &&& lines == #[trigger] branch_lines(ordered, head)
        };
    refs.lemma_order();
    ordered.to_multiset_ensures();
    refs.order().to_multiset_ensures();
    assert forall|name: Seq<char>| refs@.contains_key(name) implies lines.contains(
        #[trigger] branch_line(name, head),
    ) by {
        assert(refs.order().contains(name));
        assert(ordered.to_multiset().count(name) > 0);
        assert(ordered.contains(name));
        let j = ordered.index_of(name);
        assert(lines[j] == branch_line(name, head));
    }
}

/// What a branch operation leaves of the branches, or why it is refused.
pub open spec fn branched(r: RepoView, name: Option<Seq<char>>, delete: bool) -> Result<
    Map<Seq<char>, Seq<char>>,
    Error,
> {
    match name {
        None => if delete {
            Err(Error::BranchNameRequired)
        } else {
            Ok(r.refs)
        },
        Some(name) => if delete {
            crate::refs::deleted(r.refs, name, r.head)
        } else if r.refs.contains_key(name) {
            Err(Error::BranchExists)
        } else {
            match head_hash_of(r) {
                Ok(hash) => Ok(r.refs.insert(name, hash)),
                Err(e) => Err(e),
            }
        },
    }
}

/// Creates the branch `branch_name` at the current commit, or with
/// `delete` deletes it; without a name, lists the branches in ascending
/// order. A refusal changes nothing.
pub fn branch(repo: &mut Repository, branch_name: Option<String>, delete: bool) -> (r: Result<
    BranchOutcome,
    Error,
>)
    requires
        old(repo).wf(),
    ensures
        final(repo).wf(),
        match branched(old(repo)@, crate::commit::opt_text(branch_name), delete) {
            Err(e) => r == Err::<BranchOutcome, Error>(e) && final(repo)@ == old(repo)@,
            Ok(refs) => {
                &&& final(repo)@ == (RepoView { refs, ..old(repo)@ })
                &&& match r {
                    Ok(BranchOutcome::Created) => branch_name is Some && !delete,
                    Ok(BranchOutcome::Deleted) => branch_name is Some && delete,
                    Ok(BranchOutcome::Listed(lines)) => {
                        &&& branch_name is None
                        &&& is_listing(texts(lines@), old(repo).refs.order(), old(repo)@.head)
                        &&& lines@.len() == old(repo)@.refs.dom().len()
                        &&& forall|name: Seq<char>|
                            old(repo)@.refs.contains_key(name) ==> texts(lines@).contains(
                                #[trigger] branch_line(name, old(repo)@.head),
                            )
                    },
                    Err(_) => false,
                }
            },
        },
{
    match branch_name {
        Some(name) => {
            if delete {
                match repo.delete_branch(name.as_str()) {
                    Ok(()) => Ok(BranchOutcome::Deleted),
                    Err(e) => Err(e),
                }
            } else {
                match repo.create_branch(name.as_str()) {
                    Ok(()) => Ok(BranchOutcome::Created),
                    Err(e) => Err(e),
                }
            }
        },
        None => {
            if delete {
                return Err(Error::BranchNameRequired);
            }
            let mut names: Vec<String> = Vec::new();
            let mut i: usize = 0;
            proof {
                assert(texts(names@) =~= repo.refs.order().subrange(0, 0));
            }
            while i < repo.refs.len()
                invariant
                    repo.wf(),
                    i <= repo.refs.order().len(),
                    texts(names@) == repo.refs.order().subrange(0, i as int),
                decreases repo.refs.order().len() - i,
            {
                let ghost shown = names@;
                let name = repo.refs.name_at(i).clone();
                names.push(name);
                proof {
                    assert(texts(shown.push(name)) =~= texts(shown).push(name@));
                    assert(repo.refs.order().subrange(0, i + 1) =~= repo.refs.order().subrange(
                        0,
                        i as int,
                    ).push(name@));
                }
                i = i + 1;
            }
            proof {
                assert(repo.refs.order().subrange(0, i as int) =~= repo.refs.order());
            }
            let ordered = crate::sort::sort_names(&names);
            let lines = branch_listing(&ordered, repo.head.as_str());
            proof {
                assert(texts(lines@) == branch_lines(texts(ordered@), repo@.head));
                lemma_listing_complete(&repo.refs, texts(lines@), repo@.head);
            }
            Ok(BranchOutcome::Listed(lines))
        },
    }
}

} // verus!
