//! Merging: ancestry between branch tips, fast-forward, and the three-way
//! merge of two snapshots over their common ancestor.

use crate::blob::{read_result, ObjectStore};
use crate::checkout::{checkout_failure, checkout_result, local_work, write_restores};
use crate::commit::{
    commit_of, commit_views, history, load_result, save_result, start_state, walk, Commit,
    CommitStore, CommitView,
};
use crate::digest::append_bytes;
use crate::error::Error;
use crate::index::{Index, IndexView};
use crate::repo::{
    classify, head_commit_of, head_hash_of, lemma_scan_paths, mod_paths, mod_views, scan, tip_of,
    unstaged_changes, unstaged_modifications, RepoView, Repository,
};
use crate::snapshot::PathSet;
use crate::snapshot::Snapshot;
use crate::strmap::{str_eq, texts};
use crate::worktree::WorkingTree;
use vstd::prelude::*;
use vstd::string::StringExecFns;
use vstd::utf8::encode_utf8;

verus! {

/// The history behind the commit `hash`, most recent commit first.
pub open spec fn ancestors(store: Map<Seq<char>, CommitView>, hash: Seq<char>) -> Seq<CommitView> {
    walk(store, start_state(store, hash), usize::MAX as nat)
}

/// Whether a list of commits holds one with this hash.
pub open spec fn lists_hash(commits: Seq<CommitView>, hash: Seq<char>) -> bool {
    exists|i: int| 0 <= i < commits.len() && (#[trigger] commits[i]).hash == hash
}

/// Whether the history behind `from` holds the commit `to`. The empty hash,
/// the start of all history, is behind every commit.
pub open spec fn reaches(
    store: Map<Seq<char>, CommitView>,
    from: Seq<char>,
    to: Seq<char>,
) -> bool {
    to.len() == 0 || lists_hash(ancestors(store, from), to)
}

/// The first commit at or after position `from` of `ours` that `theirs`
/// holds too. The virtual commit with the empty hash does not count.
pub open spec fn first_common(ours: Seq<CommitView>, theirs: Seq<CommitView>, from: int) -> Option<
    CommitView,
>
    decreases ours.len() - from,
{
    if from < 0 || from >= ours.len() {
        None
    } else if ours[from].hash.len() > 0 && lists_hash(theirs, ours[from].hash) {
        Some(ours[from])
    } else {
        first_common(ours, theirs, from + 1)
    }
}

/// The merge base of two commits: the most recent commit in the history
/// of `ours` that the history of `theirs` holds too.
pub open spec fn merge_base_of(
    store: Map<Seq<char>, CommitView>,
    ours: Seq<char>,
    theirs: Seq<char>,
) -> Option<CommitView> {
    first_common(ancestors(store, ours), ancestors(store, theirs), 0)
}

/// The history behind the commit `hash`; empty where it cannot be loaded.
pub fn ancestors_of(hash: &str, store: &CommitStore) -> (r: Vec<Commit>)
    requires
        store.wf(),
    ensures
        commit_views(r@) == ancestors(store@, hash@),
        forall|i: int| 0 <= i < r@.len() ==> (#[trigger] r@[i]).wf(),
{
    match store.load(hash) {
        Ok(start) => {
            proof {
                store.lemma_filed();
            }
            history(&start, store)
        },
        Err(_) => {
            let r: Vec<Commit> = Vec::new();
            proof {
                let s = start_state(store@, hash@);
                assert(crate::commit::emitted(store@, s) is None);
                assert(commit_views(r@) =~= ancestors(store@, hash@));
            }
            r
        },
    }
}

/// Whether `commits` holds a commit with this hash.
pub fn holds_hash(commits: &Vec<Commit>, hash: &str) -> (r: bool)
    ensures
        r == lists_hash(commit_views(commits@), hash@),
{
    let mut i: usize = 0;
    while i < commits.len()
        invariant
            i <= commits@.len(),
            forall|j: int| 0 <= j < i ==> (#[trigger] commit_views(commits@)[j]).hash != hash@,
        decreases commits@.len() - i,
    {
        assert(commit_views(commits@)[i as int] == commits@[i as int]@);
        if str_eq(commits[i].hash().as_str(), hash) {
            return true;
        }
        i = i + 1;
    }
    false
}

/// Whether the history behind `from` holds the commit `to`.
pub fn is_ancestor(to: &str, from: &str, store: &CommitStore) -> (r: bool)
    requires
        store.wf(),
    ensures
        r == reaches(store@, from@, to@),
{
    if to.is_empty() {
        return true;
    }
    let behind = ancestors_of(from, store);
    holds_hash(&behind, to)
}

/// The merge base of two commits, where their histories meet.
pub fn merge_base(ours: &str, theirs: &str, store: &CommitStore) -> (r: Option<Commit>)
    requires
        store.wf(),
    ensures
        match r {
            Some(c) => c.wf() && merge_base_of(store@, ours@, theirs@) == Some(c@),
            None => merge_base_of(store@, ours@, theirs@) is None,
        },
{
    let mine = ancestors_of(ours, store);
    let other = ancestors_of(theirs, store);
    let mut i: usize = 0;
    while i < mine.len()
        invariant
            i <= mine@.len(),
            forall|j: int| 0 <= j < mine@.len() ==> (#[trigger] mine@[j]).wf(),
            merge_base_of(store@, ours@, theirs@) == first_common(
                commit_views(mine@),
                commit_views(other@),
                i as int,
            ),
            commit_views(mine@) == ancestors(store@, ours@),
            commit_views(other@) == ancestors(store@, theirs@),
        decreases mine@.len() - i,
    {
        let c = &mine[i];
        assert(commit_views(mine@)[i as int] == c@);
        if !c.hash().as_str().is_empty() && holds_hash(&other, c.hash().as_str()) {
            return Some(c.duplicate());
        }
        i = i + 1;
    }
    None
}

/// How a three-way merge settles one path.
#[derive(Debug)]
pub enum Resolution {
    /// The current branch's version stands.
    Keep,
    /// The other branch's version, or its deletion, is taken.
    Take,
    /// Both branches changed the path, differently.
    Conflict,
}

/// The digest that a snapshot holds for `path`, if any.
pub open spec fn version(m: Map<Seq<char>, Seq<char>>, path: Seq<char>) -> Option<Seq<char>> {
    if m.contains_key(path) {
        Some(m[path])
    } else {
        None
    }
}

/// Settles one path from its version in the ancestor, in the current
/// branch and in the other branch: a side that did not change the path
/// yields to the side that did; equal changes are no conflict.
pub open spec fn resolve(
    base: Option<Seq<char>>,
    ours: Option<Seq<char>>,
    theirs: Option<Seq<char>>,
) -> Resolution {
    if theirs == base {
        Resolution::Keep
    } else if ours == base {
        Resolution::Take
    } else if ours == theirs {
        Resolution::Keep
    } else {
        Resolution::Conflict
    }
}

/// How the merge settles `path`.
pub open spec fn resolution(
    base: Map<Seq<char>, Seq<char>>,
    ours: Map<Seq<char>, Seq<char>>,
    theirs: Map<Seq<char>, Seq<char>>,
    path: Seq<char>,
) -> Resolution {
    resolve(version(base, path), version(ours, path), version(theirs, path))
}

/// What a merge stages among the paths in `done`: the versions it takes
/// from the other branch, and the deletions it takes from it.
pub open spec fn staged_within(
    base: Map<Seq<char>, Seq<char>>,
    ours: Map<Seq<char>, Seq<char>>,
    theirs: Map<Seq<char>, Seq<char>>,
    done: Set<Seq<char>>,
) -> IndexView {
    IndexView {
        additions: Map::new(
            |p: Seq<char>|
                done.contains(p) && theirs.contains_key(p) && resolution(base, ours, theirs, p)
                    is Take,
            |p: Seq<char>| theirs[p],
        ),
        removals: Set::new(
            |p: Seq<char>|
                done.contains(p) && !theirs.contains_key(p) && resolution(base, ours, theirs, p)
                    is Take,
        ),
    }
}

/// What a merge stages.
pub open spec fn merge_staged(
    base: Map<Seq<char>, Seq<char>>,
    ours: Map<Seq<char>, Seq<char>>,
    theirs: Map<Seq<char>, Seq<char>>,
) -> IndexView {
    staged_within(base, ours, theirs, Set::full())
}

/// The paths that both branches changed differently.
pub open spec fn merge_conflicts(
    base: Map<Seq<char>, Seq<char>>,
    ours: Map<Seq<char>, Seq<char>>,
    theirs: Map<Seq<char>, Seq<char>>,
) -> Set<Seq<char>> {
    Set::new(|p: Seq<char>| resolution(base, ours, theirs, p) is Conflict)
}

/// The stored content of the version that a snapshot holds for `path`;
/// empty where it holds none.
pub open spec fn content_at(
    m: Map<Seq<char>, Seq<char>>,
    blobs: Map<Seq<char>, Seq<u8>>,
    path: Seq<char>,
) -> Seq<u8> {
    if m.contains_key(path) {
        read_result(blobs, m[path])->Ok_0
    } else {
        Seq::empty()
    }
}

/// A file that shows both versions of a conflicting path, between markers
/// that name the current branch and the commit that was merged.
pub open spec fn conflict_text(ours: Seq<u8>, theirs: Seq<u8>, target: Seq<char>) -> Seq<u8> {
    encode_utf8("<<<<<<< HEAD\n"@) + ours + encode_utf8("\n=======\n"@) + theirs + encode_utf8(
        "\n>>>>>>> "@,
    ) + encode_utf8(target) + encode_utf8("\n"@)
}

/// Whether the merge writes a file at `path`.
pub open spec fn writes(
    base: Map<Seq<char>, Seq<char>>,
    ours: Map<Seq<char>, Seq<char>>,
    theirs: Map<Seq<char>, Seq<char>>,
    path: Seq<char>,
) -> bool {
    match resolution(base, ours, theirs, path) {
        Resolution::Keep => false,
        Resolution::Take => theirs.contains_key(path),
        Resolution::Conflict => true,
    }
}

/// What the merge writes at `path`.
pub open spec fn written(
    ours: Map<Seq<char>, Seq<char>>,
    theirs: Map<Seq<char>, Seq<char>>,
    blobs: Map<Seq<char>, Seq<u8>>,
    target: Seq<char>,
    conflict: bool,
    path: Seq<char>,
) -> Seq<u8> {
    if conflict {
        conflict_text(content_at(ours, blobs, path), content_at(theirs, blobs, path), target)
    } else {
        content_at(theirs, blobs, path)
    }
}

/// Whether every object that the merge needs for `path` can be read.
pub open spec fn path_readable(
    base: Map<Seq<char>, Seq<char>>,
    ours: Map<Seq<char>, Seq<char>>,
    theirs: Map<Seq<char>, Seq<char>>,
    blobs: Map<Seq<char>, Seq<u8>>,
    path: Seq<char>,
) -> bool {
    match resolution(base, ours, theirs, path) {
        Resolution::Keep => true,
        Resolution::Take => theirs.contains_key(path) ==> read_result(blobs, theirs[path]) is Ok,
        Resolution::Conflict => {
            &&& ours.contains_key(path) ==> read_result(blobs, ours[path]) is Ok
            &&& theirs.contains_key(path) ==> read_result(blobs, theirs[path]) is Ok
        },
    }
}

/// Whether every object that the merge needs can be read.
pub open spec fn merge_readable(
    base: Map<Seq<char>, Seq<char>>,
    ours: Map<Seq<char>, Seq<char>>,
    theirs: Map<Seq<char>, Seq<char>>,
    blobs: Map<Seq<char>, Seq<u8>>,
) -> bool {
    forall|p: Seq<char>| #[trigger] path_readable(base, ours, theirs, blobs, p)
}

/// The working tree after a three-way merge: kept paths as they were,
/// taken paths as the other branch has them, conflicting paths with both
/// versions between markers.
pub open spec fn merged_tree(
    tree: Map<Seq<char>, Seq<u8>>,
    base: Map<Seq<char>, Seq<char>>,
    ours: Map<Seq<char>, Seq<char>>,
    theirs: Map<Seq<char>, Seq<char>>,
    blobs: Map<Seq<char>, Seq<u8>>,
    target: Seq<char>,
) -> Map<Seq<char>, Seq<u8>> {
    Map::new(
        |p: Seq<char>|
            match resolution(base, ours, theirs, p) {
                Resolution::Keep => tree.contains_key(p),
                Resolution::Take => theirs.contains_key(p),
                Resolution::Conflict => true,
            },
        |p: Seq<char>|
            match resolution(base, ours, theirs, p) {
                Resolution::Keep => tree[p],
                Resolution::Take => content_at(theirs, blobs, p),
                Resolution::Conflict => conflict_text(
                    content_at(ours, blobs, p),
                    content_at(theirs, blobs, p),
                    target,
                ),
            },
    )
}

/// Renders a conflicting file.
pub fn conflict_bytes(ours: &[u8], theirs: &[u8], target: &str) -> (r: Vec<u8>)
    ensures
        r@ == conflict_text(ours@, theirs@, target@),
{
    let mut out: Vec<u8> = Vec::new();
    append_bytes(&mut out, "<<<<<<< HEAD\n".as_bytes());
    append_bytes(&mut out, ours);
    append_bytes(&mut out, "\n=======\n".as_bytes());
    append_bytes(&mut out, theirs);
    append_bytes(&mut out, "\n>>>>>>> ".as_bytes());
    append_bytes(&mut out, target.as_bytes());
    append_bytes(&mut out, "\n".as_bytes());
    proof {
        assert(out@ =~= conflict_text(ours@, theirs@, target@));
    }
    out
}

fn same_version(a: Option<&crate::blob::Blob>, b: Option<&crate::blob::Blob>) -> (r: bool)
    ensures
        r == (match (a, b) {
            (Some(x), Some(y)) => x@ == y@,
            (None, None) => true,
            _ => false,
        }),
{
    match (a, b) {
        (Some(x), Some(y)) => str_eq(x.hash().as_str(), y.hash().as_str()),
        (None, None) => true,
        _ => false,
    }
}

/// Settles one path of a three-way merge.
pub fn resolve_path(path: &str, base: &Snapshot, ours: &Snapshot, theirs: &Snapshot) -> (r:
    Resolution)
    requires
        base.wf(),
        ours.wf(),
        theirs.wf(),
    ensures
        r == resolution(base@, ours@, theirs@, path@),
{
    let a = base.get(path);
    let h = ours.get(path);
    let t = theirs.get(path);
    if same_version(t, a) {
        Resolution::Keep
    } else if same_version(h, a) {
        Resolution::Take
    } else if same_version(h, t) {
        Resolution::Keep
    } else {
        Resolution::Conflict
    }
}

/// Whether `e` is the failure of reading an object that the merge needs
/// for `path`.
pub open spec fn fails_at(
    base: Map<Seq<char>, Seq<char>>,
    ours: Map<Seq<char>, Seq<char>>,
    theirs: Map<Seq<char>, Seq<char>>,
    blobs: Map<Seq<char>, Seq<u8>>,
    path: Seq<char>,
    e: Error,
) -> bool {
    match resolution(base, ours, theirs, path) {
        Resolution::Keep => false,
        Resolution::Take => theirs.contains_key(path) && read_result(blobs, theirs[path]) == Err::<
            Seq<u8>,
            Error,
        >(e),
        Resolution::Conflict => {
            ||| ours.contains_key(path) && read_result(blobs, ours[path]) == Err::<Seq<u8>, Error>(
                e,
            )
            ||| theirs.contains_key(path) && read_result(blobs, theirs[path]) == Err::<
                Seq<u8>,
                Error,
            >(e)
        },
    }
}

/// What a three-way merge is about to do.
struct MergePlan {
    staged: Index,
    write_paths: Vec<String>,
    write_contents: Vec<Vec<u8>>,
    conflicts: Vec<String>,
}

impl MergePlan {
    /// The plan holds what the merge does at the paths in `done`.
    spec fn covers(
        &self,
        base: Map<Seq<char>, Seq<char>>,
        ours: Map<Seq<char>, Seq<char>>,
        theirs: Map<Seq<char>, Seq<char>>,
        blobs: Map<Seq<char>, Seq<u8>>,
        target: Seq<char>,
        done: Set<Seq<char>>,
    ) -> bool {
        &&& self.staged.wf()
        &&& self.staged@ == staged_within(base, ours, theirs, done)
        &&& self.write_paths@.len() == self.write_contents@.len()
        &&& forall|j: int|
            0 <= j < self.write_paths@.len() ==> {
                let p = (#[trigger] self.write_paths@[j])@;
                &&& done.contains(p)
                &&& writes(base, ours, theirs, p)
                &&& self.write_contents@[j]@ == written(
                    ours,
                    theirs,
                    blobs,
                    target,
                    resolution(base, ours, theirs, p) is Conflict,
                    p,
                )
            }
        &&& forall|p: Seq<char>|
            done.contains(p) && writes(base, ours, theirs, p) ==> #[trigger] texts(
                self.write_paths@,
            ).contains(p)
        &&& forall|p: Seq<char>| #[trigger]
            texts(self.conflicts@).contains(p) <==> (done.contains(p) && resolution(
                base,
                ours,
                theirs,
                p,
            ) is Conflict)
        &&& texts(self.conflicts@).no_duplicates()
        &&& forall|p: Seq<char>|
            done.contains(p) ==> #[trigger] path_readable(base, ours, theirs, blobs, p)
    }
}

proof fn lemma_texts_push(v: Seq<String>, s: String)
    ensures
        texts(v.push(s)) == texts(v).push(s@),
        forall|p: Seq<char>| #[trigger]
            texts(v.push(s)).contains(p) <==> (texts(v).contains(p) || p == s@),
{
    assert(texts(v.push(s)) =~= texts(v).push(s@));
    let long = texts(v).push(s@);
    assert forall|p: Seq<char>| #[trigger] long.contains(p) <==> (texts(v).contains(p) || p
        == s@) by {
        if texts(v).contains(p) {
            let j = texts(v).index_of(p);
            assert(long[j] == p);
        }
        if p == s@ {
            assert(long[v.len() as int] == p);
        }
        if long.contains(p) {
            let j = long.index_of(p);
            if j < v.len() {
                assert(texts(v)[j] == p);
            }
        }
    }
}

fn read_or_empty(m: &Snapshot, path: &str, blobs: &ObjectStore) -> (r: Result<Vec<u8>, Error>)
    requires
        m.wf(),
        blobs.wf(),
    ensures
        match r {
            Ok(content) => {
                &&& content@ == content_at(m@, blobs@, path@)
                &&& m@.contains_key(path@) ==> read_result(blobs@, m@[path@]) is Ok
            },
            Err(e) => m@.contains_key(path@) && read_result(blobs@, m@[path@]) == Err::<
                Seq<u8>,
                Error,
            >(e),
        },
{
    match m.get(path) {
        Some(blob) => blob.read_blob(blobs),
        None => Ok(Vec::new()),
    }
}

/// Adds to the plan what the merge does at `path`.
fn plan_path(
    plan: &mut MergePlan,
    path: &str,
    base: &Snapshot,
    ours: &Snapshot,
    theirs: &Snapshot,
    blobs: &ObjectStore,
    target: &str,
    Ghost(done): Ghost<Set<Seq<char>>>,
) -> (r: Result<(), Error>)
    requires
        base.wf(),
        ours.wf(),
        theirs.wf(),
        blobs.wf(),
        old(plan).covers(base@, ours@, theirs@, blobs@, target@, done),
        !done.contains(path@),
    ensures
        match r {
            Ok(()) => final(plan).covers(
                base@,
                ours@,
                theirs@,
                blobs@,
                target@,
                done.insert(path@),
            ),
            Err(e) => fails_at(base@, ours@, theirs@, blobs@, path@, e),
        },
{
    let ghost more = done.insert(path@);
    let ghost before = plan.staged@;
    let ghost shown = plan.write_paths@;
    let ghost marked = plan.conflicts@;
    match resolve_path(path, base, ours, theirs) {
        Resolution::Keep => {
            proof {
                let after = staged_within(base@, ours@, theirs@, more);
                assert(before.additions =~= after.additions);
                assert(before.removals =~= after.removals);
            }
            Ok(())
        },
        Resolution::Take => {
            match theirs.get(path) {
                Some(blob) => {
                    let content = match blob.read_blob(blobs) {
                        Ok(content) => content,
                        Err(e) => { return Err(e); },
                    };
                    plan.staged.stage_blob(path.to_owned(), blob.clone());
                    let owned = path.to_owned();
                    plan.write_paths.push(owned);
                    plan.write_contents.push(content);
                    proof {
                        let after = staged_within(base@, ours@, theirs@, more);
                        assert(plan.staged@.additions =~= after.additions);
                        assert(plan.staged@.removals =~= after.removals);
                        lemma_texts_push(shown, owned);
                    }
                    Ok(())
                },
                None => {
                    plan.staged.stage_removal(path.to_owned());
                    proof {
                        let after = staged_within(base@, ours@, theirs@, more);
                        assert(plan.staged@.additions =~= after.additions);
                        assert(plan.staged@.removals =~= after.removals);
                    }
                    Ok(())
                },
            }
        },
        Resolution::Conflict => {
            let mine = match read_or_empty(ours, path, blobs) {
                Ok(content) => content,
                Err(e) => { return Err(e); },
            };
            let other = match read_or_empty(theirs, path, blobs) {
                Ok(content) => content,
                Err(e) => { return Err(e); },
            };
            let text = conflict_bytes(mine.as_slice(), other.as_slice(), target);
            let owned = path.to_owned();
            let listed = path.to_owned();
            plan.write_paths.push(owned);
            plan.write_contents.push(text);
            plan.conflicts.push(listed);
            proof {
                let after = staged_within(base@, ours@, theirs@, more);
                assert(before.additions =~= after.additions);
                assert(before.removals =~= after.removals);
                lemma_texts_push(shown, owned);
                lemma_texts_push(marked, listed);
                assert(!texts(marked).contains(path@));
                assert forall|a: int, b: int|
                    0 <= a < texts(plan.conflicts@).len() && 0 <= b < texts(
                        plan.conflicts@,
                    ).len() && a != b implies texts(plan.conflicts@)[a] != texts(
                    plan.conflicts@,
                )[b] by {
                    let n = marked.len() as int;
                    if a < n {
                        assert(texts(marked)[a] == texts(plan.conflicts@)[a]);
                        assert(texts(marked).contains(texts(marked)[a]));
                    }
                    if b < n {
                        assert(texts(marked)[b] == texts(plan.conflicts@)[b]);
                        assert(texts(marked).contains(texts(marked)[b]));
                    }
                }
            }
            Ok(())
        },
    }
}

/// The paths among the first `n` of `order`.
spec fn seen(order: Seq<Seq<char>>, n: int) -> Set<Seq<char>> {
    Set::new(|p: Seq<char>| order.subrange(0, n).contains(p))
}

/// Plans the three-way merge of `ours` and `theirs` over `base`. Every
/// object that will be needed is read here, before anything is changed.
fn plan_merge(
    base: &Snapshot,
    ours: &Snapshot,
    theirs: &Snapshot,
    blobs: &ObjectStore,
    target: &str,
) -> (r: Result<MergePlan, Error>)
    requires
        base.wf(),
        ours.wf(),
        theirs.wf(),
        blobs.wf(),
    ensures
        match r {
            Ok(plan) => {
                &&& plan.covers(base@, ours@, theirs@, blobs@, target@, Set::full())
                &&& merge_readable(base@, ours@, theirs@, blobs@)
            },
            Err(e) => exists|p: Seq<char>| #[trigger]
                fails_at(base@, ours@, theirs@, blobs@, p, e),
        },
{
    let mut plan = MergePlan {
        staged: Index::new(),
        write_paths: Vec::new(),
        write_contents: Vec::new(),
        conflicts: Vec::new(),
    };
    proof {
        ours.lemma_order();
        theirs.lemma_order();
        let none = staged_within(base@, ours@, theirs@, seen(ours.order(), 0));
        assert(ours.order().subrange(0, 0) =~= Seq::<Seq<char>>::empty());
        assert(plan.staged@.additions =~= none.additions);
        assert(plan.staged@.removals =~= none.removals);
        assert(texts(plan.conflicts@) =~= Seq::<Seq<char>>::empty());
        assert(texts(plan.write_paths@) =~= Seq::<Seq<char>>::empty());
    }
    let mut i: usize = 0;
    while i < ours.len()
        invariant
            base.wf(),
            ours.wf(),
            theirs.wf(),
            blobs.wf(),
            i <= ours.order().len(),
            ours.order().no_duplicates(),
            plan.covers(base@, ours@, theirs@, blobs@, target@, seen(ours.order(), i as int)),
        decreases ours.order().len() - i,
    {
        let path = ours.path_at(i);
        proof {
            crate::strmap::lemma_prefix_step(ours.order(), i as int);
            if ours.order().subrange(0, i as int).contains(path@) {
                let j = ours.order().subrange(0, i as int).index_of(path@);
                assert(ours.order()[j] == path@);
            }
            assert(seen(ours.order(), i as int).insert(path@) =~= seen(ours.order(), i + 1));
        }
        match plan_path(
            &mut plan,
            path.as_str(),
            base,
            ours,
            theirs,
            blobs,
            target,
            Ghost(seen(ours.order(), i as int)),
        ) {
            Ok(()) => {},
            Err(e) => {
                return Err(e);
            },
        }
        i = i + 1;
    }
    let ghost held = seen(ours.order(), ours.order().len() as int);
    proof {
        assert(ours.order().subrange(0, i as int) =~= ours.order());
        assert(held.union(seen(theirs.order(), 0)) =~= held) by {
            assert(theirs.order().subrange(0, 0) =~= Seq::<Seq<char>>::empty());
        }
    }
    let mut j: usize = 0;
    while j < theirs.len()
        invariant
            base.wf(),
            ours.wf(),
            theirs.wf(),
            blobs.wf(),
            j <= theirs.order().len(),
            theirs.order().no_duplicates(),
            held == seen(ours.order(), ours.order().len() as int),
            forall|p: Seq<char>| ours@.contains_key(p) <==> held.contains(p),
            plan.covers(
                base@,
                ours@,
                theirs@,
                blobs@,
                target@,
                held.union(seen(theirs.order(), j as int)),
            ),
        decreases theirs.order().len() - j,
    {
        let path = theirs.path_at(j);
        let ghost done = held.union(seen(theirs.order(), j as int));
        proof {
            crate::strmap::lemma_prefix_step(theirs.order(), j as int);
            if theirs.order().subrange(0, j as int).contains(path@) {
                let k = theirs.order().subrange(0, j as int).index_of(path@);
                assert(theirs.order()[k] == path@);
            }
            assert(done.insert(path@) =~= held.union(seen(theirs.order(), j + 1)));
        }
        if !ours.contains_key(path.as_str()) {
            match plan_path(
                &mut plan,
                path.as_str(),
                base,
                ours,
                theirs,
                blobs,
                target,
                Ghost(done),
            ) {
                Ok(()) => {},
                Err(e) => {
                    return Err(e);
                },
            }
        } else {
            proof {
                assert(done.insert(path@) =~= done);
            }
        }
        j = j + 1;
    }
    proof {
        assert(theirs.order().subrange(0, j as int) =~= theirs.order());
        let done = held.union(seen(theirs.order(), j as int));
        assert forall|p: Seq<char>| done.contains(p) <==> (ours@.contains_key(p)
            || theirs@.contains_key(p)) by {}
        // Outside both snapshots every path is kept.
        assert forall|p: Seq<char>| !done.contains(p) implies resolution(base@, ours@, theirs@, p)
            is Keep by {}
        let part = staged_within(base@, ours@, theirs@, done);
        let whole = staged_within(base@, ours@, theirs@, Set::full());
        assert(part.additions =~= whole.additions);
        assert(part.removals =~= whole.removals);
        assert forall|p: Seq<char>| #[trigger]
            path_readable(base@, ours@, theirs@, blobs@, p) by {
            if !done.contains(p) {
                assert(resolution(base@, ours@, theirs@, p) is Keep);
            }
        }
    }
    Ok(plan)
}

/// How a merge ended.
#[derive(Debug)]
pub enum MergeOutcome {
    /// The current branch holds the other branch's work already.
    AlreadyUpToDate,
    /// The current branch moved forward to the other branch's tip.
    FastForward,
    /// A merge commit with this hash was made.
    Merged(String),
    /// These paths conflict; the rest of the merge is staged, and nothing
    /// is committed.
    Conflicted(Vec<String>),
}

/// Whether the working copy of `path` departs from what is staged or
/// committed.
pub open spec fn dirty_at(
    src: Map<Seq<char>, Seq<char>>,
    ix: IndexView,
    tree: Map<Seq<char>, Seq<u8>>,
    path: Seq<char>,
) -> bool {
    (src.contains_key(path) || ix.additions.contains_key(path)) && !(classify(src, ix, tree, path)
        is Unchanged)
}

/// Whether the working tree has unstaged modifications.
pub open spec fn dirty(
    src: Map<Seq<char>, Seq<char>>,
    ix: IndexView,
    tree: Map<Seq<char>, Seq<u8>>,
) -> bool {
    exists|p: Seq<char>| #[trigger] dirty_at(src, ix, tree, p)
}

/// Whether nothing is staged.
pub open spec fn is_clear(ix: IndexView) -> bool {
    ix.additions == Map::<Seq<char>, Seq<char>>::empty() && ix.removals == Set::<
        Seq<char>,
    >::empty()
}

/// Why a merge of `branch` is refused before it starts, if it is: the
/// checks are made in this order.
pub open spec fn merge_refusal(
    r: RepoView,
    tree: Map<Seq<char>, Seq<u8>>,
    branch: Seq<char>,
) -> Option<Error> {
    if !r.refs.contains_key(branch) {
        Some(Error::BranchNotFound)
    } else if branch == r.head {
        Some(Error::SelfMerge)
    } else {
        match head_commit_of(r) {
            Err(e) => Some(e),
            Ok(src) => if dirty(src.blobs, r.index, tree) {
                Some(Error::UnstagedChanges)
            } else if !is_clear(r.index) {
                Some(Error::UncommittedChanges)
            } else {
                match tip_of(r.refs, branch) {
                    Err(e) => Some(e),
                    Ok(_) => None,
                }
            },
        }
    }
}

/// The message of a merge commit.
pub open spec fn merge_message(branch: Seq<char>, head: Seq<char>) -> Seq<char> {
    "Merged "@ + branch + " into "@ + head
}

/// What kind of merge two tips call for.
pub enum MergeCase {
    /// Their tip is behind ours.
    UpToDate,
    /// Our tip is behind theirs.
    FastForward,
    /// The histories share no commit.
    Unrelated,
    /// The histories diverged after this commit.
    ThreeWay(CommitView),
}

/// What kind of merge the tips `ours` and `theirs` call for.
pub open spec fn merge_case(
    store: Map<Seq<char>, CommitView>,
    ours: Seq<char>,
    theirs: Seq<char>,
) -> MergeCase {
    if reaches(store, ours, theirs) {
        MergeCase::UpToDate
    } else if reaches(store, theirs, ours) {
        MergeCase::FastForward
    } else {
        match merge_base_of(store, ours, theirs) {
            None => MergeCase::Unrelated,
            Some(base) => MergeCase::ThreeWay(base),
        }
    }
}

/// What a three-way merge over the snapshot `base` leaves behind.
pub open spec fn three_way(
    before: RepoView,
    tree: Map<Seq<char>, Seq<u8>>,
    after: RepoView,
    tree_after: Map<Seq<char>, Seq<u8>>,
    r: Result<MergeOutcome, Error>,
    base: Map<Seq<char>, Seq<char>>,
    branch: Seq<char>,
    timestamp: u64,
) -> bool {
    let unchanged = after == before && tree_after == tree;
    let ours_hash = head_hash_of(before)->Ok_0;
    let theirs_hash = tip_of(before.refs, branch)->Ok_0;
    let ours = head_commit_of(before)->Ok_0.blobs;
    match load_result(before.commits, theirs_hash) {
        Err(e) => r == Err::<MergeOutcome, Error>(e) && unchanged,
        Ok(their_commit) => {
            let theirs = their_commit.blobs;
            let staged = merge_staged(base, ours, theirs);
            let tree_new = merged_tree(tree, base, ours, theirs, before.blobs, theirs_hash);
            if !merge_readable(base, ours, theirs, before.blobs) {
                &&& unchanged
                &&& r matches Err(e)
                &&& exists|p: Seq<char>| #[trigger]
                    fails_at(base, ours, theirs, before.blobs, p, r->Err_0)
            } else if merge_conflicts(base, ours, theirs) != Set::<Seq<char>>::empty() {
                &&& r matches Ok(MergeOutcome::Conflicted(listed))
                &&& texts(r->Ok_0->Conflicted_0@).no_duplicates()
                &&& forall|p: Seq<char>| #[trigger]
                    texts(r->Ok_0->Conflicted_0@).contains(p) <==> merge_conflicts(
                        base,
                        ours,
                        theirs,
                    ).contains(p)
                &&& tree_after == tree_new
                &&& after == (RepoView { index: staged, ..before })
            } else {
                let c = commit_of(
                    ours_hash,
                    theirs_hash,
                    merge_message(branch, before.head),
                    timestamp,
                    ours,
                    staged,
                );
                match save_result(before.commits, c) {
                    Err(e) => r == Err::<MergeOutcome, Error>(e) && unchanged,
                    Ok(commits) => {
                        &&& r matches Ok(MergeOutcome::Merged(hash))
                        &&& r->Ok_0->Merged_0@ == c.hash
                        &&& tree_after == tree_new
                        &&& after == (RepoView {
                            refs: before.refs.insert(before.head, c.hash),
                            commits,
                            ..before
                        })
                    },
                }
            }
        },
    }
}

/// What a merge of `branch` at `timestamp` leaves behind: from the
/// repository `before` and the working tree `tree` to the repository
/// `after` and the working tree `tree_after`, with the result `r`.
pub open spec fn merged(
    before: RepoView,
    tree: Map<Seq<char>, Seq<u8>>,
    after: RepoView,
    tree_after: Map<Seq<char>, Seq<u8>>,
    r: Result<MergeOutcome, Error>,
    branch: Seq<char>,
    timestamp: u64,
) -> bool {
    let unchanged = after == before && tree_after == tree;
    match merge_refusal(before, tree, branch) {
        Some(e) => r == Err::<MergeOutcome, Error>(e) && unchanged,
        None => {
            let ours = head_hash_of(before)->Ok_0;
            let theirs = tip_of(before.refs, branch)->Ok_0;
            match merge_case(before.commits, ours, theirs) {
                MergeCase::UpToDate => r matches Ok(MergeOutcome::AlreadyUpToDate) && unchanged,
                MergeCase::Unrelated => r == Err::<MergeOutcome, Error>(
                    Error::UnrelatedHistories,
                ) && unchanged,
                MergeCase::FastForward => match r {
                    Ok(outcome) => {
                        &&& outcome is FastForward
                        &&& checkout_result(before, theirs, tree) == Some(tree_after)
                        &&& after == (RepoView {
                            refs: before.refs.insert(before.head, theirs),
                            ..before
                        })
                    },
                    Err(e) => {
                        &&& unchanged
                        &&& checkout_result(before, theirs, tree) is None
                        &&& checkout_failure(before, theirs, tree, e)
                    },
                },
                MergeCase::ThreeWay(base) => three_way(
                    before,
                    tree,
                    after,
                    tree_after,
                    r,
                    base.blobs,
                    branch,
                    timestamp,
                ),
            }
        },
    }
}

/// Whether a merge of `branch` makes a merge commit: nothing refuses it,
/// the histories have diverged, every object that is needed can be read,
/// and no path conflicts. Only then is the clock read.
pub open spec fn makes_commit(
    before: RepoView,
    tree: Map<Seq<char>, Seq<u8>>,
    branch: Seq<char>,
) -> bool {
    &&& merge_refusal(before, tree, branch) is None
    &&& match merge_case(
        before.commits,
        head_hash_of(before)->Ok_0,
        tip_of(before.refs, branch)->Ok_0,
    ) {
        MergeCase::ThreeWay(base) => match load_result(
            before.commits,
            tip_of(before.refs, branch)->Ok_0,
        ) {
            Ok(theirs) => {
                let ours = head_commit_of(before)->Ok_0.blobs;
                &&& merge_readable(base.blobs, ours, theirs.blobs, before.blobs)
                &&& merge_conflicts(base.blobs, ours, theirs.blobs) == Set::<Seq<char>>::empty()
            },
            Err(_) => false,
        },
        _ => false,
    }
}

/// What a merge of `branch` leaves behind where the time of a merge commit
/// comes from the clock. Where no merge commit is made the outcome is that
/// of `merged`, in which the time then plays no part. Where one is made,
/// the merge fails with nothing changed if the clock cannot be read, and
/// is else as `merged` says for the time that was read.
pub open spec fn merged_by_clock(
    before: RepoView,
    tree: Map<Seq<char>, Seq<u8>>,
    after: RepoView,
    tree_after: Map<Seq<char>, Seq<u8>>,
    r: Result<MergeOutcome, Error>,
    branch: Seq<char>,
) -> bool {
    if makes_commit(before, tree, branch) {
        ||| (r == Err::<MergeOutcome, Error>(Error::ClockUnavailable) && after == before
            && tree_after == tree)
        ||| exists|timestamp: u64| #[trigger]
            merged(before, tree, after, tree_after, r, branch, timestamp)
    } else {
        merged(before, tree, after, tree_after, r, branch, 0)
    }
}

/// There are unstaged modifications exactly where some working copy
/// departs from what is staged or committed.
pub proof fn lemma_dirty(src: &Snapshot, index: &Index, tree: Map<Seq<char>, Seq<u8>>)
    requires
        src.wf(),
        index.wf(),
    ensures
        unstaged_changes(src@, src.order(), index@, index.added_order(), tree).len() > 0
            <==> dirty(src@, index@, tree),
{
    let added = index.added_order();
    let first = scan(src@, index@, tree, src.order(), false);
    let second = scan(src@, index@, tree, added, true);
    let all = unstaged_changes(src@, src.order(), index@, added, tree);
    src.lemma_order();
    index.lemma_orders();
    lemma_scan_paths(src@, index@, tree, src.order(), false);
    lemma_scan_paths(src@, index@, tree, added, true);
    assert(mod_paths(all) =~= mod_paths(first) + mod_paths(second));
    crate::strmap::lemma_concat_contains(mod_paths(first), mod_paths(second));
    if all.len() > 0 {
        let p = mod_paths(all)[0];
        assert(mod_paths(all).contains(p));
        assert(dirty_at(src@, index@, tree, p));
    }
    if dirty(src@, index@, tree) {
        let p = choose|p: Seq<char>| #[trigger] dirty_at(src@, index@, tree, p);
        assert(mod_paths(all).contains(p));
        let j = mod_paths(all).index_of(p);
    }
}

/// Deletes the files at `paths`.
fn delete_paths(paths: &PathSet, tree: &mut WorkingTree)
    requires
        paths.wf(),
        old(tree).wf(),
    ensures
        final(tree).wf(),
        forall|p: Seq<char>| #[trigger]
            final(tree)@.contains_key(p) <==> (old(tree)@.contains_key(p) && !paths@.contains(p)),
        forall|p: Seq<char>| #[trigger]
            final(tree)@.contains_key(p) ==> final(tree)@[p] == old(tree)@[p],
{
    let mut i: usize = 0;
    proof {
        paths.lemma_order();
    }
    while i < paths.len()
        invariant
            paths.wf(),
            tree.wf(),
            i <= paths.order().len(),
            forall|p: Seq<char>| #[trigger]
                tree@.contains_key(p) <==> (old(tree)@.contains_key(p) && !paths.order().subrange(
                    0,
                    i as int,
                ).contains(p)),
            forall|p: Seq<char>| #[trigger] tree@.contains_key(p) ==> tree@[p] == old(tree)@[p],
        decreases paths.order().len() - i,
    {
        proof {
            crate::strmap::lemma_prefix_step(paths.order(), i as int);
        }
        tree.delete(paths.path_at(i).as_str());
        i = i + 1;
    }
    proof {
        assert(paths.order().subrange(0, i as int) =~= paths.order());
        paths.lemma_order();
    }
}

impl Repository {
    /// Merges `branch` into the current branch, stamping a merge commit
    /// with `timestamp` where one is made. A merge that fails changes
    /// nothing; conflicting files are no failure.
    pub fn merge_at(&mut self, tree: &mut WorkingTree, branch: &str, timestamp: u64) -> (r: Result<
        MergeOutcome,
        Error,
    >)
        requires
            old(self).wf(),
            old(tree).wf(),
        ensures
            final(self).wf(),
            final(tree).wf(),
            merged(old(self)@, old(tree)@, final(self)@, final(tree)@, r, branch@, timestamp),
    {
        self.merge_stamped(tree, branch, Some(timestamp))
    }

    /// Merges `branch` into the current branch. A merge commit is stamped
    /// with `fixed` where that is given, else with the time that the clock
    /// shows when the commit is made: the clock is read for nothing else.
    fn merge_stamped(&mut self, tree: &mut WorkingTree, branch: &str, fixed: Option<u64>) -> (r:
        Result<MergeOutcome, Error>)
        requires
            old(self).wf(),
            old(tree).wf(),
        ensures
            final(self).wf(),
            final(tree).wf(),
            match fixed {
                Some(timestamp) => merged(
                    old(self)@,
                    old(tree)@,
                    final(self)@,
                    final(tree)@,
                    r,
                    branch@,
                    timestamp,
                ),
                None => merged_by_clock(
                    old(self)@,
                    old(tree)@,
                    final(self)@,
                    final(tree)@,
                    r,
                    branch@,
                ),
            },
    {
        if !self.refs.contains(branch) {
            return Err(Error::BranchNotFound);
        }
        if str_eq(branch, self.head.as_str()) {
            return Err(Error::SelfMerge);
        }
        let ours = match self.head_snapshot() {
            Ok(ours) => ours,
            Err(e) => { return Err(e); },
        };
        let mods = unstaged_modifications(&ours, &self.index, tree);
        proof {
            lemma_dirty(&ours, &self.index, tree@);
            assert(mod_views(mods@).len() == mods@.len());
        }
        if mods.len() > 0 {
            return Err(Error::UnstagedChanges);
        }
        if !self.index.is_clear() {
            return Err(Error::UncommittedChanges);
        }
        let ours_hash = match self.read_head_hash() {
            Ok(hash) => hash,
            Err(e) => { return Err(e); },
        };
        let theirs_hash = match self.read_tip(branch) {
            Ok(hash) => hash,
            Err(e) => { return Err(e); },
        };
        if is_ancestor(theirs_hash.as_str(), ours_hash.as_str(), &self.commits) {
            return Ok(MergeOutcome::AlreadyUpToDate);
        }
        if is_ancestor(ours_hash.as_str(), theirs_hash.as_str(), &self.commits) {
            match self.checkout(tree, theirs_hash.as_str()) {
                Ok(()) => {},
                Err(e) => { return Err(e); },
            }
            self.update_head(theirs_hash.as_str());
            return Ok(MergeOutcome::FastForward);
        }
        let base = match merge_base(ours_hash.as_str(), theirs_hash.as_str(), &self.commits) {
            Some(base) => base,
            None => { return Err(Error::UnrelatedHistories); },
        };
        let theirs = match crate::commit::get_commit_blobs(theirs_hash.as_str(), &self.commits) {
            Ok(theirs) => theirs,
            Err(e) => { return Err(e); },
        };
        let plan = match plan_merge(
            base.blobs(),
            &ours,
            &theirs,
            &self.blobs,
            theirs_hash.as_str(),
        ) {
            Ok(plan) => plan,
            Err(e) => {
                proof {
                    let p = choose|p: Seq<char>| #[trigger]
                        fails_at(base@.blobs, ours@, theirs@, self.blobs@, p, e);
                    assert(!path_readable(base@.blobs, ours@, theirs@, self.blobs@, p));
                }
                return Err(e);
            },
        };
        let MergePlan { staged, write_paths, write_contents, conflicts } = plan;
        let ghost wanted = Map::new(
            |p: Seq<char>| writes(base@.blobs, ours@, theirs@, p),
            |p: Seq<char>|
                written(
                    ours@,
                    theirs@,
                    self.blobs@,
                    theirs_hash@,
                    resolution(base@.blobs, ours@, theirs@, p) is Conflict,
                    p,
                ),
        );
        let ghost stuck = merge_conflicts(base@.blobs, ours@, theirs@);
        let clean = conflicts.len() == 0;
        proof {
            if clean {
                assert forall|p: Seq<char>| !stuck.contains(p) by {
                    if stuck.contains(p) {
                        assert(texts(conflicts@).contains(p));
                        let j = texts(conflicts@).index_of(p);
                    }
                }
                assert(stuck =~= Set::<Seq<char>>::empty());
            } else {
                assert(texts(conflicts@).contains(texts(conflicts@)[0]));
                assert(stuck.contains(texts(conflicts@)[0]));
            }
        }
        let mut made: Option<String> = None;
        let ghost mut stamp: u64 = match fixed {
            Some(timestamp) => timestamp,
            None => 0,
        };
        if clean {
            let timestamp = match fixed {
                Some(timestamp) => timestamp,
                None => match crate::commit::now_secs() {
                    Some(timestamp) => timestamp,
                    None => { return Err(Error::ClockUnavailable); },
                },
            };
            proof {
                stamp = timestamp;
            }
            let mut message = String::from_str("Merged ");
            message.append(branch);
            message.append(" into ");
            message.append(self.head.as_str());
            let c = Commit::with_timestamp(
                ours_hash,
                Some(theirs_hash),
                message,
                &staged,
                &ours,
                timestamp,
            );
            let hash = c.hash().clone();
            match self.commits.save(c) {
                Ok(()) => {},
                Err(e) => {
                    proof {
                        assert(merged(
                            old(self)@,
                            old(tree)@,
                            self@,
                            tree@,
                            Err::<MergeOutcome, Error>(e),
                            branch@,
                            stamp,
                        ));
                    }
                    return Err(e);
                },
            }
            self.update_head(hash.as_str());
            made = Some(hash);
        }
        delete_paths(staged.removals(), tree);
        write_restores(write_paths, write_contents, tree, Ghost(wanted));
        proof {
            assert(tree@ =~= merged_tree(
                old(tree)@,
                base@.blobs,
                ours@,
                theirs@,
                old(self)@.blobs,
                theirs_hash@,
            ));
        }
        let r = match made {
            Some(hash) => Ok(MergeOutcome::Merged(hash)),
            None => {
                self.index = staged;
                Ok(MergeOutcome::Conflicted(conflicts))
            },
        };
        proof {
            assert(merged(old(self)@, old(tree)@, self@, tree@, r, branch@, stamp));
        }
        r
    }

}

/// With nothing staged and no unstaged modification, a checkout of the
/// commit `hash` is never refused for a conflict. It succeeds exactly
/// where both commits load and every object that must be written can be
/// read. The working tree then holds each path of that commit in its
/// version there, no path that only the current commit holds, and every
/// other file as it was.
pub proof fn lemma_clean_checkout(r: RepoView, hash: Seq<char>, tree: Map<Seq<char>, Seq<u8>>)
    requires
        head_commit_of(r) is Ok,
        load_result(r.commits, hash) is Ok,
        is_clear(r.index),
        !dirty(head_commit_of(r)->Ok_0.blobs, r.index, tree),
    ensures
        ({
            let src = head_commit_of(r)->Ok_0.blobs;
            let dst = load_result(r.commits, hash)->Ok_0.blobs;
            let gained = checkout_result(r, hash, tree);
            &&& crate::checkout::blocked(src, dst, r.index, tree) == Set::<Seq<char>>::empty()
            &&& gained is Some <==> crate::checkout::readable(
                src,
                dst,
                Set::<Seq<char>>::empty(),
                r.blobs,
            )
            &&& gained matches Some(after) ==> forall|p: Seq<char>|
                {
                    &&& dst.contains_key(p) ==> #[trigger] after.contains_key(p) && (
                    crate::digest::digest_of(after[p]) == dst[p] || read_result(r.blobs, dst[p])
                        == Ok::<Seq<u8>, Error>(after[p]))
                    &&& src.contains_key(p) && !dst.contains_key(p) ==> !after.contains_key(p)
                    &&& !src.contains_key(p) && !dst.contains_key(p) ==> (after.contains_key(p)
                        <==> tree.contains_key(p)) && (tree.contains_key(p) ==> after[p]
                        == tree[p])
                }
        }),
{
    let src = head_commit_of(r)->Ok_0.blobs;
    let dst = load_result(r.commits, hash)->Ok_0.blobs;
    assert forall|p: Seq<char>| !local_work(src, r.index, tree).contains(p) by {
        if local_work(src, r.index, tree).contains(p) {
            assert(dirty_at(src, r.index, tree, p));
        }
    }
    assert(crate::checkout::blocked(src, dst, r.index, tree) =~= Set::<Seq<char>>::empty());
    assert(crate::checkout::spared(src, dst, r.index, tree) =~= Set::<Seq<char>>::empty());
    match checkout_result(r, hash, tree) {
        Some(after) => {
            assert forall|p: Seq<char>|
                {
                    &&& dst.contains_key(p) ==> #[trigger] after.contains_key(p) && (
                    crate::digest::digest_of(after[p]) == dst[p] || read_result(r.blobs, dst[p])
                        == Ok::<Seq<u8>, Error>(after[p]))
                    &&& src.contains_key(p) && !dst.contains_key(p) ==> !after.contains_key(p)
                    &&& !src.contains_key(p) && !dst.contains_key(p) ==> (after.contains_key(p)
                        <==> tree.contains_key(p)) && (tree.contains_key(p) ==> after[p]
                        == tree[p])
                } by {
                if src.contains_key(p) {
                    // The working copy is the current commit's version.
                    assert(!dirty_at(src, r.index, tree, p));
                }
            }
        },
        None => {},
    }
}

/// Fast-forward never conflicts: where the current tip is behind the tip
/// that is merged, the merge writes no conflict markers and reports no
/// conflict. It ends up to date, forwards the branch with the working
/// tree that a checkout of the other tip yields, or fails on a commit or
/// an object that cannot be read; where the other tip loads and its
/// objects can be read, it succeeds.
pub proof fn lemma_fast_forward_never_conflicts(
    before: RepoView,
    tree: Map<Seq<char>, Seq<u8>>,
    after: RepoView,
    tree_after: Map<Seq<char>, Seq<u8>>,
    r: Result<MergeOutcome, Error>,
    branch: Seq<char>,
    timestamp: u64,
)
    requires
        merged(before, tree, after, tree_after, r, branch, timestamp),
        merge_refusal(before, tree, branch) is None,
        reaches(
            before.commits,
            tip_of(before.refs, branch)->Ok_0,
            head_hash_of(before)->Ok_0,
        ),
    ensures
        r matches Ok(outcome) ==> outcome is AlreadyUpToDate || outcome is FastForward,
        r matches Ok(outcome) && outcome is FastForward ==> checkout_result(
            before,
            tip_of(before.refs, branch)->Ok_0,
            tree,
        ) == Some(tree_after),
        r matches Err(e) ==> !(e is CheckoutConflict),
        load_result(before.commits, tip_of(before.refs, branch)->Ok_0) matches Ok(theirs)
            && crate::checkout::readable(
            head_commit_of(before)->Ok_0.blobs,
            theirs.blobs,
            Set::<Seq<char>>::empty(),
            before.blobs,
        ) ==> r is Ok,
{
    if load_result(before.commits, tip_of(before.refs, branch)->Ok_0) is Ok {
        lemma_clean_checkout(before, tip_of(before.refs, branch)->Ok_0, tree);
    }
    let ours = head_hash_of(before)->Ok_0;
    let theirs = tip_of(before.refs, branch)->Ok_0;
    let src = head_commit_of(before)->Ok_0.blobs;
    // A clean working state carries no local work, so nothing is blocked.
    assert forall|dst: Map<Seq<char>, Seq<char>>|
        crate::checkout::blocked(src, dst, before.index, tree) =~= Set::<Seq<char>>::empty() by {
        assert forall|p: Seq<char>| !local_work(src, before.index, tree).contains(p) by {
            if local_work(src, before.index, tree).contains(p) {
                assert(dirty_at(src, before.index, tree, p));
            }
        }
    }
    match merge_case(before.commits, ours, theirs) {
        MergeCase::FastForward => {
            if r is Err {
                let e = r->Err_0;
                assert(checkout_failure(before, theirs, tree, e));
                match load_result(before.commits, theirs) {
                    Err(x) => {},
                    Ok(dst) => {
                        assert(crate::checkout::blocked(src, dst.blobs, before.index, tree)
                            =~= Set::<Seq<char>>::empty());
                    },
                }
            }
        },
        _ => {},
    }
}

/// Merges `branch` into the current branch; a merge commit is stamped
/// with the current time. The clock is read only where a merge commit is
/// made, so that refusals, a branch that is up to date, a fast-forward
/// and conflicts do not depend on it. A merge that fails changes nothing.
pub fn merge(repo: &mut Repository, tree: &mut WorkingTree, branch: &str) -> (r: Result<
    MergeOutcome,
    Error,
>)
    requires
        old(repo).wf(),
        old(tree).wf(),
    ensures
        final(repo).wf(),
        final(tree).wf(),
        merged_by_clock(old(repo)@, old(tree)@, final(repo)@, final(tree)@, r, branch@),
{
    repo.merge_stamped(tree, branch, None)
}

} // verus!
