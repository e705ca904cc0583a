//! Checkout: taking the working tree from one snapshot to another without
//! losing local work. Every conflict is found before anything is changed.

use crate::blob::{read_result, ObjectStore};
use crate::commit::{get_commit_blobs, load_result};
use crate::error::Error;
use crate::index::{Index, IndexView};
use crate::repo::{
    classify, head_commit_of, head_hash_of, lemma_scan_paths, mod_paths, mod_views, scan, tip_of,
    unstaged_changes, unstaged_modifications, RepoView, Repository,
};
use crate::snapshot::{PathSet, Snapshot};
use crate::strmap::{lemma_select_contains, lemma_select_step, select, texts};
use crate::worktree::WorkingTree;
use vstd::prelude::*;

verus! {

/// Whether both snapshots hold `path`, with different content.
pub open spec fn differs(
    src: Map<Seq<char>, Seq<char>>,
    dst: Map<Seq<char>, Seq<char>>,
    path: Seq<char>,
) -> bool {
    src.contains_key(path) && dst.contains_key(path) && src[path] != dst[path]
}

/// The predicate behind `differs`.
pub open spec fn differs_pred(
    src: Map<Seq<char>, Seq<char>>,
    dst: Map<Seq<char>, Seq<char>>,
) -> spec_fn(Seq<char>) -> bool {
    |path: Seq<char>| differs(src, dst, path)
}

/// The paths that carry local work: the unstaged modifications, the staged
/// additions and the staged removals, in this order.
pub open spec fn touched(
    src: Map<Seq<char>, Seq<char>>,
    src_order: Seq<Seq<char>>,
    ix: IndexView,
    added_order: Seq<Seq<char>>,
    removed_order: Seq<Seq<char>>,
    tree: Map<Seq<char>, Seq<u8>>,
) -> Seq<Seq<char>> {
    mod_paths(unstaged_changes(src, src_order, ix, added_order, tree)) + added_order
        + removed_order
}

/// The touched paths that the two snapshots hold differently: a checkout
/// would overwrite local work there.
pub open spec fn checkout_conflicts(
    src: Map<Seq<char>, Seq<char>>,
    dst: Map<Seq<char>, Seq<char>>,
    paths: Seq<Seq<char>>,
) -> Seq<Seq<char>> {
    select(paths, differs_pred(src, dst))
}

/// The touched paths that a checkout leaves as they are.
pub open spec fn kept_back(
    src: Map<Seq<char>, Seq<char>>,
    dst: Map<Seq<char>, Seq<char>>,
    paths: Seq<Seq<char>>,
) -> Set<Seq<char>> {
    Set::new(|path: Seq<char>| paths.contains(path) && !differs(src, dst, path))
}

/// Whether a checkout writes the destination's version of `path`: the
/// destination holds it, it carries no local work, and the source holds
/// it differently or not at all.
pub open spec fn restores(
    src: Map<Seq<char>, Seq<char>>,
    dst: Map<Seq<char>, Seq<char>>,
    kept: Set<Seq<char>>,
    path: Seq<char>,
) -> bool {
    dst.contains_key(path) && !kept.contains(path) && !(src.contains_key(path) && src[path]
        == dst[path])
}

/// The predicate behind `restores`.
pub open spec fn restores_pred(
    src: Map<Seq<char>, Seq<char>>,
    dst: Map<Seq<char>, Seq<char>>,
    kept: Set<Seq<char>>,
) -> spec_fn(Seq<char>) -> bool {
    |path: Seq<char>| restores(src, dst, kept, path)
}

/// Whether a checkout deletes `path`: only the source holds it, and it
/// carries no local work.
pub open spec fn removes(
    src: Map<Seq<char>, Seq<char>>,
    dst: Map<Seq<char>, Seq<char>>,
    kept: Set<Seq<char>>,
    path: Seq<char>,
) -> bool {
    src.contains_key(path) && !kept.contains(path) && !dst.contains_key(path)
}

/// The content that the object store holds for each path of a snapshot
/// whose object can be read.
pub open spec fn stored_contents(
    dst: Map<Seq<char>, Seq<char>>,
    blobs: Map<Seq<char>, Seq<u8>>,
) -> Map<Seq<char>, Seq<u8>> {
    Map::new(
        |path: Seq<char>| dst.contains_key(path) && read_result(blobs, dst[path]) is Ok,
        |path: Seq<char>| read_result(blobs, dst[path])->Ok_0,
    )
}

/// The working tree after a checkout from `src` to `dst` that keeps the
/// paths in `kept` as they are.
pub open spec fn checked_out(
    tree: Map<Seq<char>, Seq<u8>>,
    src: Map<Seq<char>, Seq<char>>,
    dst: Map<Seq<char>, Seq<char>>,
    kept: Set<Seq<char>>,
    blobs: Map<Seq<char>, Seq<u8>>,
) -> Map<Seq<char>, Seq<u8>> {
    Map::new(
        |path: Seq<char>|
            restores(src, dst, kept, path) || (tree.contains_key(path) && !removes(
                src,
                dst,
                kept,
                path,
            )),
        |path: Seq<char>|
            if restores(src, dst, kept, path) {
                stored_contents(dst, blobs)[path]
            } else {
                tree[path]
            },
    )
}

/// The failure of the first path in `paths` whose object cannot be read.
pub open spec fn first_failure(
    paths: Seq<Seq<char>>,
    dst: Map<Seq<char>, Seq<char>>,
    blobs: Map<Seq<char>, Seq<u8>>,
) -> Option<Error>
    decreases paths.len(),
{
    if paths.len() == 0 {
        None
    } else {
        match first_failure(paths.drop_last(), dst, blobs) {
            Some(e) => Some(e),
            None => match read_result(blobs, dst[paths.last()]) {
                Ok(_) => None,
                Err(e) => Some(e),
            },
        }
    }
}

/// How a checkout ends.
pub enum CheckoutOutcome {
    /// Refused: local work at these paths would be overwritten.
    Conflict(Seq<Seq<char>>),
    /// Refused: an object that must be written cannot be read.
    Unreadable(Error),
    /// Done, with this working tree.
    Done(Map<Seq<char>, Seq<u8>>),
}

/// What a checkout from `src` to `dst` does to the working tree `tree`.
pub open spec fn checkout_spec(
    src: &Snapshot,
    dst: &Snapshot,
    index: &Index,
    blobs: &ObjectStore,
    tree: Map<Seq<char>, Seq<u8>>,
) -> CheckoutOutcome {
    let paths = touched(
        src@,
        src.order(),
        index@,
        index.added_order(),
        index.removed_order(),
        tree,
    );
    let conflicts = checkout_conflicts(src@, dst@, paths);
    let kept = kept_back(src@, dst@, paths);
    if conflicts.len() > 0 {
        CheckoutOutcome::Conflict(conflicts)
    } else {
        match first_failure(select(dst.order(), restores_pred(src@, dst@, kept)), dst@, blobs@) {
            Some(e) => CheckoutOutcome::Unreadable(e),
            None => CheckoutOutcome::Done(checked_out(tree, src@, dst@, kept, blobs@)),
        }
    }
}

/// A failure among the first paths is the failure of the whole sequence.
pub proof fn lemma_first_failure_prefix(
    a: Seq<Seq<char>>,
    b: Seq<Seq<char>>,
    dst: Map<Seq<char>, Seq<char>>,
    blobs: Map<Seq<char>, Seq<u8>>,
)
    requires
        first_failure(a, dst, blobs) is Some,
    ensures
        first_failure(a + b, dst, blobs) == first_failure(a, dst, blobs),
    decreases b.len(),
{
    if b.len() == 0 {
        assert(a + b =~= a);
    } else {
        assert((a + b).drop_last() =~= a + b.drop_last());
        lemma_first_failure_prefix(a, b.drop_last(), dst, blobs);
    }
}

/// Where no path fails, every path can be read.
pub proof fn lemma_no_failure(
    paths: Seq<Seq<char>>,
    dst: Map<Seq<char>, Seq<char>>,
    blobs: Map<Seq<char>, Seq<u8>>,
)
    requires
        first_failure(paths, dst, blobs) is None,
    ensures
        forall|p: Seq<char>| paths.contains(p) ==> read_result(blobs, #[trigger] dst[p]) is Ok,
    decreases paths.len(),
{
    if paths.len() > 0 {
        lemma_no_failure(paths.drop_last(), dst, blobs);
        assert forall|p: Seq<char>| paths.contains(p) implies read_result(
            blobs,
            #[trigger] dst[p],
        ) is Ok by {
            let j = paths.index_of(p);
            if j < paths.len() - 1 {
                assert(paths.drop_last()[j] == p);
            }
        }
    }
}

/// The paths that carry local work, whatever their order: unstaged
/// modifications, staged additions and staged removals.
pub open spec fn local_work(
    src: Map<Seq<char>, Seq<char>>,
    ix: IndexView,
    tree: Map<Seq<char>, Seq<u8>>,
) -> Set<Seq<char>> {
    Set::new(
        |p: Seq<char>|
            {
                ||| ix.additions.contains_key(p)
                ||| ix.removals.contains(p)
                ||| (src.contains_key(p) && !(classify(src, ix, tree, p) is Unchanged))
            },
    )
}

/// The paths at which a checkout from `src` to `dst` would overwrite
/// local work.
pub open spec fn blocked(
    src: Map<Seq<char>, Seq<char>>,
    dst: Map<Seq<char>, Seq<char>>,
    ix: IndexView,
    tree: Map<Seq<char>, Seq<u8>>,
) -> Set<Seq<char>> {
    Set::new(|p: Seq<char>| local_work(src, ix, tree).contains(p) && differs(src, dst, p))
}

/// The paths with local work that a checkout from `src` to `dst` leaves
/// as they are.
pub open spec fn spared(
    src: Map<Seq<char>, Seq<char>>,
    dst: Map<Seq<char>, Seq<char>>,
    ix: IndexView,
    tree: Map<Seq<char>, Seq<u8>>,
) -> Set<Seq<char>> {
    Set::new(|p: Seq<char>| local_work(src, ix, tree).contains(p) && !differs(src, dst, p))
}

/// Whether every object that a checkout must write can be read.
pub open spec fn readable(
    src: Map<Seq<char>, Seq<char>>,
    dst: Map<Seq<char>, Seq<char>>,
    kept: Set<Seq<char>>,
    blobs: Map<Seq<char>, Seq<u8>>,
) -> bool {
    forall|p: Seq<char>| restores(src, dst, kept, p) ==> read_result(blobs, #[trigger] dst[p]) is Ok
}

/// Where a path fails, its failure is that of one of the paths.
pub proof fn lemma_some_failure(
    paths: Seq<Seq<char>>,
    dst: Map<Seq<char>, Seq<char>>,
    blobs: Map<Seq<char>, Seq<u8>>,
)
    requires
        first_failure(paths, dst, blobs) is Some,
    ensures
        exists|p: Seq<char>|
            paths.contains(p) && read_result(blobs, #[trigger] dst[p]) == Err::<Seq<u8>, Error>(
                first_failure(paths, dst, blobs)->Some_0,
            ),
    decreases paths.len(),
{
    let e = first_failure(paths, dst, blobs)->Some_0;
    if first_failure(paths.drop_last(), dst, blobs) is Some {
        lemma_some_failure(paths.drop_last(), dst, blobs);
        let p = choose|p: Seq<char>|
            paths.drop_last().contains(p) && read_result(blobs, #[trigger] dst[p]) == Err::<
                Seq<u8>,
                Error,
            >(e);
        let j = paths.drop_last().index_of(p);
        assert(paths[j] == p);
        assert(paths.contains(p) && read_result(blobs, dst[p]) == Err::<Seq<u8>, Error>(e));
    } else {
        let p = paths.last();
        assert(paths[paths.len() - 1] == p);
        assert(paths.contains(p) && read_result(blobs, dst[p]) == Err::<Seq<u8>, Error>(e));
    }
}

/// What a checkout does, told without the order in which paths are
/// looked at: it is refused exactly where local work would be
/// overwritten, fails where an object cannot be read, and else yields the
/// destination's files with the local work left in place.
pub proof fn lemma_checkout_spec(
    src: &Snapshot,
    dst: &Snapshot,
    index: &Index,
    blobs: &ObjectStore,
    tree: Map<Seq<char>, Seq<u8>>,
)
    requires
        src.wf(),
        dst.wf(),
        index.wf(),
    ensures
        match checkout_spec(src, dst, index, blobs, tree) {
            CheckoutOutcome::Conflict(paths) => {
                &&& paths.len() > 0
                &&& forall|p: Seq<char>| #[trigger]
                    paths.contains(p) <==> blocked(src@, dst@, index@, tree).contains(p)
            },
            CheckoutOutcome::Unreadable(e) => {
                &&& blocked(src@, dst@, index@, tree) == Set::<Seq<char>>::empty()
                &&& exists|p: Seq<char>|
                    restores(src@, dst@, spared(src@, dst@, index@, tree), p) && read_result(
                        blobs@,
                        #[trigger] dst@[p],
                    ) == Err::<Seq<u8>, Error>(e)
            },
            CheckoutOutcome::Done(after) => {
                &&& blocked(src@, dst@, index@, tree) == Set::<Seq<char>>::empty()
                &&& readable(src@, dst@, spared(src@, dst@, index@, tree), blobs@)
                &&& after == checked_out(
                    tree,
                    src@,
                    dst@,
                    spared(src@, dst@, index@, tree),
                    blobs@,
                )
            },
        },
{
    let added = index.added_order();
    let removed = index.removed_order();
    let mods = unstaged_changes(src@, src.order(), index@, added, tree);
    let paths = touched(src@, src.order(), index@, added, removed, tree);
    let work = local_work(src@, index@, tree);
    // The touched paths are exactly the paths with local work.
    assert forall|p: Seq<char>| #[trigger] paths.contains(p) <==> work.contains(p) by {
        src.lemma_order();
        index.lemma_orders();
        let first = scan(src@, index@, tree, src.order(), false);
        let second = scan(src@, index@, tree, added, true);
        lemma_scan_paths(src@, index@, tree, src.order(), false);
        lemma_scan_paths(src@, index@, tree, added, true);
        assert(mod_paths(mods) =~= mod_paths(first) + mod_paths(second));
        crate::strmap::lemma_concat_contains(mod_paths(first), mod_paths(second));
        crate::strmap::lemma_concat_contains(mod_paths(mods), added);
        crate::strmap::lemma_concat_contains(mod_paths(mods) + added, removed);
    }
    let conflicts = checkout_conflicts(src@, dst@, paths);
    let kept = kept_back(src@, dst@, paths);
    lemma_select_contains(paths, differs_pred(src@, dst@));
    assert(kept =~= spared(src@, dst@, index@, tree));
    if conflicts.len() > 0 {
        assert forall|p: Seq<char>| #[trigger]
            conflicts.contains(p) <==> blocked(src@, dst@, index@, tree).contains(p) by {}
    } else {
        assert forall|p: Seq<char>| !blocked(src@, dst@, index@, tree).contains(p) by {
            if blocked(src@, dst@, index@, tree).contains(p) {
                assert(conflicts.contains(p));
                let j = conflicts.index_of(p);
            }
        }
        assert(blocked(src@, dst@, index@, tree) =~= Set::<Seq<char>>::empty());
        let need = restores_pred(src@, dst@, kept);
        let wanted = select(dst.order(), need);
        lemma_select_contains(dst.order(), need);
        dst.lemma_order();
        match first_failure(wanted, dst@, blobs@) {
            Some(e) => {
                lemma_some_failure(wanted, dst@, blobs@);
            },
            None => {
                lemma_no_failure(wanted, dst@, blobs@);
                assert forall|p: Seq<char>| restores(src@, dst@, kept, p) implies read_result(
                    blobs@,
                    #[trigger] dst@[p],
                ) is Ok by {
                    assert(wanted.contains(p));
                }
            },
        }
    }
}

/// Whether two commits both hold `path`, with different content.
pub fn file_differs_between_commits(path: &str, src: &Snapshot, dst: &Snapshot) -> (r: bool)
    requires
        src.wf(),
        dst.wf(),
    ensures
        r == differs(src@, dst@, path@),
{
    match (src.get(path), dst.get(path)) {
        (Some(a), Some(b)) => !crate::strmap::str_eq(a.hash().as_str(), b.hash().as_str()),
        (_, _) => false,
    }
}

fn append_paths(out: &mut Vec<String>, paths: &PathSet)
    requires
        paths.wf(),
    ensures
        texts(final(out)@) == texts(old(out)@) + paths.order(),
{
    let mut i: usize = 0;
    proof {
        assert(texts(out@) + paths.order().subrange(0, 0) =~= texts(out@));
    }
    while i < paths.len()
        invariant
            paths.wf(),
            i <= paths.order().len(),
            texts(out@) == texts(old(out)@) + paths.order().subrange(0, i as int),
        decreases paths.order().len() - i,
    {
        let ghost shown = out@;
        let path = paths.path_at(i).clone();
        out.push(path);
        proof {
            assert(texts(shown.push(path)) =~= texts(shown).push(path@));
            assert(paths.order().subrange(0, i + 1) =~= paths.order().subrange(0, i as int).push(
                path@,
            ));
            assert(texts(out@) =~= texts(old(out)@) + paths.order().subrange(0, i + 1));
        }
        i = i + 1;
    }
    proof {
        assert(paths.order().subrange(0, i as int) =~= paths.order());
    }
}

fn append_keys(out: &mut Vec<String>, paths: &Snapshot)
    requires
        paths.wf(),
    ensures
        texts(final(out)@) == texts(old(out)@) + paths.order(),
{
    let mut i: usize = 0;
    proof {
        assert(texts(out@) + paths.order().subrange(0, 0) =~= texts(out@));
    }
    while i < paths.len()
        invariant
            paths.wf(),
            i <= paths.order().len(),
            texts(out@) == texts(old(out)@) + paths.order().subrange(0, i as int),
        decreases paths.order().len() - i,
    {
        let ghost shown = out@;
        let path = paths.path_at(i).clone();
        out.push(path);
        proof {
            assert(texts(shown.push(path)) =~= texts(shown).push(path@));
            assert(paths.order().subrange(0, i + 1) =~= paths.order().subrange(0, i as int).push(
                path@,
            ));
            assert(texts(out@) =~= texts(old(out)@) + paths.order().subrange(0, i + 1));
        }
        i = i + 1;
    }
    proof {
        assert(paths.order().subrange(0, i as int) =~= paths.order());
    }
}

/// The paths that carry local work, in the order in which a checkout
/// looks at them.
pub fn touched_paths(src: &Snapshot, index: &Index, tree: &WorkingTree) -> (r: Vec<String>)
    requires
        src.wf(),
        index.wf(),
        tree.wf(),
    ensures
        texts(r@) == touched(
            src@,
            src.order(),
            index@,
            index.added_order(),
            index.removed_order(),
            tree@,
        ),
{
    let mods = unstaged_modifications(src, index, tree);
    let mut out: Vec<String> = Vec::new();
    let mut i: usize = 0;
    proof {
        assert(texts(out@) =~= mod_paths(mod_views(mods@)).subrange(0, 0));
    }
    while i < mods.len()
        invariant
            i <= mods@.len(),
            texts(out@) == mod_paths(mod_views(mods@)).subrange(0, i as int),
        decreases mods@.len() - i,
    {
        let ghost shown = out@;
        let path = mods[i].path.clone();
        out.push(path);
        proof {
            let all = mod_paths(mod_views(mods@));
            assert(texts(shown.push(path)) =~= texts(shown).push(path@));
            assert(all[i as int] == path@);
            assert(all.subrange(0, i + 1) =~= all.subrange(0, i as int).push(path@));
        }
        i = i + 1;
    }
    proof {
        let all = mod_paths(mod_views(mods@));
        assert(all.subrange(0, i as int) =~= all);
    }
    append_keys(&mut out, index.additions());
    append_paths(&mut out, index.removals());
    out
}

/// Splits the touched paths into those a checkout would overwrite and
/// those it can leave alone.
fn sort_touched(paths: &Vec<String>, src: &Snapshot, dst: &Snapshot) -> (r: (Vec<String>, PathSet))
    requires
        src.wf(),
        dst.wf(),
    ensures
        texts(r.0@) == checkout_conflicts(src@, dst@, texts(paths@)),
        r.1.wf(),
        r.1@ == kept_back(src@, dst@, texts(paths@)),
{
    let mut conflicts: Vec<String> = Vec::new();
    let mut kept = PathSet::new();
    let ghost all = texts(paths@);
    let ghost clash = differs_pred(src@, dst@);
    let mut i: usize = 0;
    proof {
        assert(all.subrange(0, 0) =~= Seq::<Seq<char>>::empty());
        assert(texts(conflicts@) =~= Seq::<Seq<char>>::empty());
        assert(kept@ =~= kept_back(src@, dst@, all.subrange(0, 0)));
    }
    while i < paths.len()
        invariant
            src.wf(),
            dst.wf(),
            kept.wf(),
            all == texts(paths@),
            clash == differs_pred(src@, dst@),
            i <= paths@.len(),
            texts(conflicts@) == select(all.subrange(0, i as int), clash),
            kept@ == kept_back(src@, dst@, all.subrange(0, i as int)),
        decreases paths@.len() - i,
    {
        let path = &paths[i];
        let ghost shown = conflicts@;
        let ghost held = kept@;
        proof {
            assert(all[i as int] == path@);
            lemma_select_step(all, i as int, clash);
            crate::strmap::lemma_prefix_step(all, i as int);
        }
        if file_differs_between_commits(path.as_str(), src, dst) {
            conflicts.push(path.clone());
            proof {
                assert(texts(shown.push(*path)) =~= texts(shown).push(path@));
                assert(held =~= kept_back(src@, dst@, all.subrange(0, i + 1)));
            }
        } else {
            kept.insert(path.clone());
            proof {
                assert(held.insert(path@) =~= kept_back(src@, dst@, all.subrange(0, i + 1)));
            }
        }
        i = i + 1;
    }
    proof {
        assert(all.subrange(0, i as int) =~= all);
    }
    (conflicts, kept)
}

/// Reads the content of every path that the checkout will write.
fn read_restores(src: &Snapshot, dst: &Snapshot, kept: &PathSet, blobs: &ObjectStore) -> (r: Result<
    (Vec<String>, Vec<Vec<u8>>),
    Error,
>)
    requires
        src.wf(),
        dst.wf(),
        kept.wf(),
        blobs.wf(),
    ensures
        match r {
            Ok((paths, contents)) => {
                &&& paths@.len() == contents@.len()
                &&& texts(paths@) == select(dst.order(), restores_pred(src@, dst@, kept@))
                &&& forall|j: int|
                    0 <= j < paths@.len() ==> {
                        &&& stored_contents(dst@, blobs@).contains_key(#[trigger] paths@[j]@)
                        &&& stored_contents(dst@, blobs@)[paths@[j]@] == contents@[j]@
                    }
                &&& first_failure(
                    select(dst.order(), restores_pred(src@, dst@, kept@)),
                    dst@,
                    blobs@,
                ) is None
            },
            Err(e) => first_failure(
                select(dst.order(), restores_pred(src@, dst@, kept@)),
                dst@,
                blobs@,
            ) == Some(e),
        },
{
    let mut paths: Vec<String> = Vec::new();
    let mut contents: Vec<Vec<u8>> = Vec::new();
    let ghost need = restores_pred(src@, dst@, kept@);
    let mut i: usize = 0;
    proof {
        dst.lemma_order();
        assert(dst.order().subrange(0, 0) =~= Seq::<Seq<char>>::empty());
        assert(texts(paths@) =~= Seq::<Seq<char>>::empty());
    }
    while i < dst.len()
        invariant
            src.wf(),
            dst.wf(),
            kept.wf(),
            blobs.wf(),
            need == restores_pred(src@, dst@, kept@),
            i <= dst.order().len(),
            paths@.len() == contents@.len(),
            texts(paths@) == select(dst.order().subrange(0, i as int), need),
            forall|j: int|
                0 <= j < paths@.len() ==> {
                    &&& stored_contents(dst@, blobs@).contains_key(#[trigger] paths@[j]@)
                    &&& stored_contents(dst@, blobs@)[paths@[j]@] == contents@[j]@
                },
            first_failure(select(dst.order().subrange(0, i as int), need), dst@, blobs@) is None,
        decreases dst.order().len() - i,
    {
        let path = dst.path_at(i);
        let blob = dst.blob_at(i);
        let ghost shown = paths@;
        let ghost chosen = select(dst.order().subrange(0, i as int), need);
        proof {
            lemma_select_step(dst.order(), i as int, need);
        }
        let unchanged = match src.get(path.as_str()) {
            Some(b) => crate::strmap::str_eq(b.hash().as_str(), blob.hash().as_str()),
            None => false,
        };
        if !kept.contains(path.as_str()) && !unchanged {
            proof {
                assert(chosen.push(path@).drop_last() =~= chosen);
            }
            match blob.read_blob(blobs) {
                Ok(content) => {
                    paths.push(path.clone());
                    contents.push(content);
                    proof {
                        assert(texts(shown.push(*path)) =~= texts(shown).push(path@));
                    }
                },
                Err(e) => {
                    proof {
                        let head = dst.order().subrange(0, i + 1);
                        let tail = dst.order().subrange(i + 1, dst.order().len() as int);
                        assert(first_failure(select(head, need), dst@, blobs@) == Some(e));
                        assert(head + tail =~= dst.order());
                        crate::strmap::lemma_select_concat(head, tail, need);
                        lemma_first_failure_prefix(
                            select(head, need),
                            select(tail, need),
                            dst@,
                            blobs@,
                        );
                    }
                    return Err(e);
                },
            }
        }
        i = i + 1;
    }
    proof {
        assert(dst.order().subrange(0, i as int) =~= dst.order());
    }
    Ok((paths, contents))
}

/// Deletes the files that only the source snapshot holds.
fn delete_removed(src: &Snapshot, dst: &Snapshot, kept: &PathSet, tree: &mut WorkingTree)
    requires
        src.wf(),
        dst.wf(),
        kept.wf(),
        old(tree).wf(),
    ensures
        final(tree).wf(),
        forall|p: Seq<char>| #[trigger]
            final(tree)@.contains_key(p) <==> (old(tree)@.contains_key(p) && !removes(
                src@,
                dst@,
                kept@,
                p,
            )),
        forall|p: Seq<char>| #[trigger]
            final(tree)@.contains_key(p) ==> final(tree)@[p] == old(tree)@[p],
{
    let mut i: usize = 0;
    proof {
        src.lemma_order();
    }
    while i < src.len()
        invariant
            src.wf(),
            dst.wf(),
            kept.wf(),
            tree.wf(),
            i <= src.order().len(),
            forall|p: Seq<char>| #[trigger]
                tree@.contains_key(p) <==> (old(tree)@.contains_key(p) && !(src.order().subrange(
                    0,
                    i as int,
                ).contains(p) && removes(src@, dst@, kept@, p))),
            forall|p: Seq<char>| #[trigger] tree@.contains_key(p) ==> tree@[p] == old(tree)@[p],
        decreases src.order().len() - i,
    {
        let path = src.path_at(i);
        proof {
            crate::strmap::lemma_prefix_step(src.order(), i as int);
        }
        if !kept.contains(path.as_str()) && !dst.contains_key(path.as_str()) {
            tree.delete(path.as_str());
        }
        i = i + 1;
    }
    proof {
        assert(src.order().subrange(0, i as int) =~= src.order());
        src.lemma_order();
    }
}

/// Writes the contents that were read for the checkout.
pub(crate) fn write_restores(
    paths: Vec<String>,
    contents: Vec<Vec<u8>>,
    tree: &mut WorkingTree,
    Ghost(wanted): Ghost<Map<Seq<char>, Seq<u8>>>,
)
    requires
        old(tree).wf(),
        paths@.len() == contents@.len(),
        forall|j: int|
            0 <= j < paths@.len() ==> {
                &&& wanted.contains_key(#[trigger] paths@[j]@)
                &&& wanted[paths@[j]@] == contents@[j]@
            },
    ensures
        final(tree).wf(),
        forall|p: Seq<char>| #[trigger]
            final(tree)@.contains_key(p) <==> (old(tree)@.contains_key(p) || texts(
                paths@,
            ).contains(p)),
        forall|p: Seq<char>| #[trigger]
            final(tree)@.contains_key(p) ==> final(tree)@[p] == (if texts(paths@).contains(p) {
                wanted[p]
            } else {
                old(tree)@[p]
            }),
{
    let mut paths = paths;
    let mut contents = contents;
    let ghost all = texts(paths@);
    while paths.len() > 0
        invariant
            tree.wf(),
            paths@.len() == contents@.len(),
            paths@.len() <= all.len(),
            texts(paths@) == all.subrange(0, paths@.len() as int),
            forall|j: int|
                0 <= j < paths@.len() ==> {
                    &&& wanted.contains_key(#[trigger] paths@[j]@)
                    &&& wanted[paths@[j]@] == contents@[j]@
                },
            forall|p: Seq<char>| #[trigger]
                tree@.contains_key(p) <==> (old(tree)@.contains_key(p) || all.subrange(
                    paths@.len() as int,
                    all.len() as int,
                ).contains(p)),
            forall|p: Seq<char>| #[trigger]
                tree@.contains_key(p) ==> tree@[p] == (if all.subrange(
                    paths@.len() as int,
                    all.len() as int,
                ).contains(p) {
                    wanted[p]
                } else {
                    old(tree)@[p]
                }),
        decreases paths@.len(),
    {
        let ghost n = paths@.len() as int;
        let ghost left = paths@;
        let ghost done = all.subrange(n, all.len() as int);
        proof {
            assert(texts(left)[n - 1] == left[n - 1]@);
            assert(all[n - 1] == left[n - 1]@);
        }
        let path = paths.pop().unwrap();
        let content = contents.pop().unwrap();
        proof {
            assert(texts(paths@) =~= all.subrange(0, n - 1));
            let more = all.subrange(n - 1, all.len() as int);
            assert(more =~= seq![path@] + done);
            assert forall|p: Seq<char>| more.contains(p) <==> (p == path@ || done.contains(p)) by {
                if done.contains(p) {
                    let j = done.index_of(p);
                    assert(more[j + 1] == p);
                }
                if p == path@ {
                    assert(more[0] == p);
                }
                if more.contains(p) {
                    let j = more.index_of(p);
                    if j > 0 {
                        assert(done[j - 1] == p);
                    }
                }
            }
        }
        tree.write(path, content);
    }
    proof {
        assert(all.subrange(0, all.len() as int) =~= all);
    }
}

/// Whether a checkout from `src` to `dst` would lose work at `path`: the
/// two snapshots hold the path differently, and the working copy differs
/// from both versions or is gone.
pub open spec fn unsafe_at(
    src: Map<Seq<char>, Seq<char>>,
    dst: Map<Seq<char>, Seq<char>>,
    tree: Map<Seq<char>, Seq<u8>>,
    path: Seq<char>,
) -> bool {
    &&& differs(src, dst, path)
    &&& !tree.contains_key(path) || (crate::digest::digest_of(tree[path]) != src[path]
        && crate::digest::digest_of(tree[path]) != dst[path])
}

/// Checkout safety: where the two snapshots hold a path differently and
/// the working copy of that path differs from both (or is gone), the
/// checkout is refused with that path among the conflicts. The contract of
/// `checkout_commit` adds that the working tree is then left as it was.
pub proof fn lemma_checkout_safety(
    src: &Snapshot,
    dst: &Snapshot,
    index: &Index,
    blobs: &ObjectStore,
    tree: Map<Seq<char>, Seq<u8>>,
    path: Seq<char>,
)
    requires
        src.wf(),
        dst.wf(),
        index.wf(),
        unsafe_at(src@, dst@, tree, path),
    ensures
        checkout_spec(src, dst, index, blobs, tree) matches CheckoutOutcome::Conflict(paths)
            && paths.contains(path),
{
    lemma_checkout_spec(src, dst, index, blobs, tree);
    assert(local_work(src@, index@, tree).contains(path));
    assert(blocked(src@, dst@, index@, tree).contains(path));
}

/// Takes the working tree from snapshot `src` to snapshot `dst`.
///
/// Fails with every conflicting path where a path that carries local work
/// is held differently by the two snapshots, and with the store's failure
/// where an object that must be written cannot be read. A failure leaves
/// the working tree exactly as it was.
pub fn checkout_commit(
    src: &Snapshot,
    dst: &Snapshot,
    index: &Index,
    blobs: &ObjectStore,
    tree: &mut WorkingTree,
) -> (r: Result<(), Error>)
    requires
        src.wf(),
        dst.wf(),
        index.wf(),
        blobs.wf(),
        old(tree).wf(),
    ensures
        final(tree).wf(),
        match r {
            Ok(()) => checkout_spec(src, dst, index, blobs, old(tree)@) == CheckoutOutcome::Done(
                final(tree)@,
            ),
            Err(e) => {
                &&& final(tree)@ == old(tree)@
                &&& match checkout_spec(src, dst, index, blobs, old(tree)@) {
                    CheckoutOutcome::Conflict(paths) => e matches Error::CheckoutConflict(listed)
                        && texts(listed@) == paths,
                    CheckoutOutcome::Unreadable(failure) => e == failure,
                    CheckoutOutcome::Done(_) => false,
                }
            },
        },
        forall|path: Seq<char>| #[trigger]
            unsafe_at(src@, dst@, old(tree)@, path) ==> {
                &&& r matches Err(Error::CheckoutConflict(listed))
                &&& texts(r->Err_0->CheckoutConflict_0@).contains(path)
                &&& final(tree)@ == old(tree)@
            },
{
    proof {
        assert forall|path: Seq<char>| #[trigger] unsafe_at(src@, dst@, tree@, path) implies (
        checkout_spec(src, dst, index, blobs, tree@) matches CheckoutOutcome::Conflict(paths)
            && paths.contains(path)) by {
            lemma_checkout_safety(src, dst, index, blobs, tree@, path);
        }
    }
    let paths = touched_paths(src, index, tree);
    let (conflicts, kept) = sort_touched(&paths, src, dst);
    if conflicts.len() > 0 {
        return Err(Error::CheckoutConflict(conflicts));
    }
    let (restore_paths, contents) = match read_restores(src, dst, &kept, blobs) {
        Ok(found) => found,
        Err(e) => { return Err(e); },
    };
    let ghost wanted = stored_contents(dst@, blobs@);
    let ghost need = restores_pred(src@, dst@, kept@);
    delete_removed(src, dst, &kept, tree);
    proof {
        lemma_select_contains(dst.order(), need);
        dst.lemma_order();
    }
    write_restores(restore_paths, contents, tree, Ghost(wanted));
    proof {
        assert(tree@ =~= checked_out(old(tree)@, src@, dst@, kept@, blobs@));
    }
    Ok(())
}

/// The working tree after a checkout of the commit `hash`, where the
/// checkout succeeds: both commits load, no local work would be
/// overwritten, and every object to be written can be read.
pub open spec fn checkout_result(
    r: RepoView,
    hash: Seq<char>,
    tree: Map<Seq<char>, Seq<u8>>,
) -> Option<Map<Seq<char>, Seq<u8>>> {
    match (head_commit_of(r), load_result(r.commits, hash)) {
        (Ok(src), Ok(dst)) => {
            let kept = spared(src.blobs, dst.blobs, r.index, tree);
            if blocked(src.blobs, dst.blobs, r.index, tree) == Set::<Seq<char>>::empty()
                && readable(src.blobs, dst.blobs, kept, r.blobs) {
                Some(checked_out(tree, src.blobs, dst.blobs, kept, r.blobs))
            } else {
                None
            }
        },
        _ => None,
    }
}

/// Whether `e` tells why a checkout of the commit `hash` fails: a commit
/// that does not load, the paths at which local work would be
/// overwritten, or an object that cannot be read.
pub open spec fn checkout_failure(
    r: RepoView,
    hash: Seq<char>,
    tree: Map<Seq<char>, Seq<u8>>,
    e: Error,
) -> bool {
    match head_commit_of(r) {
        Err(x) => e == x,
        Ok(src) => match load_result(r.commits, hash) {
            Err(x) => e == x,
            Ok(dst) => {
                let stuck = blocked(src.blobs, dst.blobs, r.index, tree);
                if stuck != Set::<Seq<char>>::empty() {
                    e matches Error::CheckoutConflict(listed) && forall|p: Seq<char>| #[trigger]
                        texts(listed@).contains(p) <==> stuck.contains(p)
                } else {
                    exists|p: Seq<char>|
                        restores(
                            src.blobs,
                            dst.blobs,
                            spared(src.blobs, dst.blobs, r.index, tree),
                            p,
                        ) && read_result(r.blobs, #[trigger] dst.blobs[p]) == Err::<
                            Seq<u8>,
                            Error,
                        >(e)
                }
            },
        },
    }
}

/// Whether a checkout of the commit `hash` would lose work at `path`: the
/// current commit and that commit hold the path differently, and the
/// working copy differs from both versions or is gone.
pub open spec fn loses_work_at(
    r: RepoView,
    hash: Seq<char>,
    tree: Map<Seq<char>, Seq<u8>>,
    path: Seq<char>,
) -> bool {
    match (head_commit_of(r), load_result(r.commits, hash)) {
        (Ok(src), Ok(dst)) => unsafe_at(src.blobs, dst.blobs, tree, path),
        _ => false,
    }
}

/// Which commit a switch to branch `name` checks out: the tip of the
/// branch, or with `create` the current commit for a branch that does
/// not exist yet.
pub open spec fn switch_target(r: RepoView, name: Seq<char>, create: bool) -> Result<
    Seq<char>,
    Error,
> {
    if r.refs.contains_key(name) {
        tip_of(r.refs, name)
    } else if create {
        head_hash_of(r)
    } else {
        Err(Error::BranchNotFound)
    }
}

impl Repository {
    /// Checks out the commit `hash` over the working tree. A failure
    /// leaves the working tree exactly as it was.
    pub fn checkout(&self, tree: &mut WorkingTree, hash: &str) -> (r: Result<(), Error>)
        requires
            self.wf(),
            old(tree).wf(),
        ensures
            final(tree).wf(),
            match r {
                Ok(()) => checkout_result(self@, hash@, old(tree)@) == Some(final(tree)@),
                Err(e) => {
                    &&& final(tree)@ == old(tree)@
                    &&& checkout_result(self@, hash@, old(tree)@) is None
                    &&& checkout_failure(self@, hash@, old(tree)@, e)
                },
            },
            forall|path: Seq<char>| #[trigger]
                loses_work_at(self@, hash@, old(tree)@, path) ==> {
                    &&& r matches Err(Error::CheckoutConflict(listed))
                    &&& texts(r->Err_0->CheckoutConflict_0@).contains(path)
                    &&& final(tree)@ == old(tree)@
                },
    {
        let src = match self.head_snapshot() {
            Ok(src) => src,
            Err(e) => { return Err(e); },
        };
        let dst = match get_commit_blobs(hash, &self.commits) {
            Ok(dst) => dst,
            Err(e) => { return Err(e); },
        };
        proof {
            lemma_checkout_spec(&src, &dst, &self.index, &self.blobs, tree@);
        }
        let r = checkout_commit(&src, &dst, &self.index, &self.blobs, tree);
        proof {
            let stuck = blocked(src@, dst@, self@.index, old(tree)@);
            match checkout_spec(&src, &dst, &self.index, &self.blobs, old(tree)@) {
                CheckoutOutcome::Conflict(paths) => {
                    assert(paths.contains(paths[0]));
                    assert(stuck.contains(paths[0]));
                },
                CheckoutOutcome::Unreadable(e) => {},
                CheckoutOutcome::Done(after) => {},
            }
        }
        r
    }

    /// Checks out the tip of branch `name` and makes it the current
    /// branch. A failure changes nothing.
    pub fn checkout_branch(&mut self, tree: &mut WorkingTree, name: &str) -> (r: Result<(), Error>)
        requires
            old(self).wf(),
            old(tree).wf(),
        ensures
            final(self).wf(),
            final(tree).wf(),
            match tip_of(old(self)@.refs, name@) {
                Err(x) => {
                    &&& r == Err::<(), Error>(x)
                    &&& final(self)@ == old(self)@
                    &&& final(tree)@ == old(tree)@
                },
                Ok(hash) => match r {
                    Ok(()) => {
                        &&& checkout_result(old(self)@, hash, old(tree)@) == Some(final(tree)@)
                        &&& final(self)@ == (RepoView { head: name@, ..old(self)@ })
                    },
                    Err(e) => {
                        &&& final(self)@ == old(self)@
                        &&& final(tree)@ == old(tree)@
                        &&& checkout_result(old(self)@, hash, old(tree)@) is None
                        &&& checkout_failure(old(self)@, hash, old(tree)@, e)
                    },
                },
            },
    {
        let hash = match self.read_tip(name) {
            Ok(hash) => hash,
            Err(e) => { return Err(e); },
        };
        match self.checkout(tree, hash.as_str()) {
            Ok(()) => {},
            Err(e) => { return Err(e); },
        }
        self.head = name.to_owned();
        Ok(())
    }

}

} // verus!
