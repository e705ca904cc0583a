use gitlet_rs::commit::Commit;
use gitlet_rs::error::Error;
use gitlet_rs::index::rm;
use gitlet_rs::merge::{is_ancestor, merge, merge_base, MergeOutcome};
use gitlet_rs::repo::{init, switch, Repository};
use gitlet_rs::snapshot::Snapshot;
use gitlet_rs::worktree::WorkingTree;

/// A repository in the following state:
/// main branch contains an empty file called a.txt.
/// dev branch contains an empty file called b.txt.
/// dev is checked out.
fn setup_merge_tests() -> (Repository, WorkingTree) {
    let mut repo = init(false).unwrap();
    let mut tree = WorkingTree::new();

    tree.write("a.txt".to_string(), Vec::new());
    repo.add(&tree, "a.txt").unwrap();
    repo.commit_at("Create a.txt".to_string(), 100).unwrap();

    switch(&mut repo, &mut tree, "dev", true).unwrap();

    tree.write("b.txt".to_string(), Vec::new());
    repo.add(&tree, "b.txt").unwrap();
    repo.commit_at("Create b.txt".to_string(), 200).unwrap();

    (repo, tree)
}

fn tip(repo: &Repository, branch: &str) -> String {
    repo.refs.get(branch).unwrap().clone()
}

fn content(tree: &WorkingTree, path: &str) -> String {
    String::from_utf8(tree.read(path).unwrap().clone()).unwrap()
}

/// Attempts to merge with unstaged changes made to the a.txt file in main.
#[test]
fn merge_unstaged_changes() {
    let (mut repo, mut tree) = setup_merge_tests();
    switch(&mut repo, &mut tree, "main", false).unwrap();

    tree.write("a.txt".to_string(), b"Some text".to_vec());

    let merged = repo.merge_at(&mut tree, "dev", 300);
    assert_eq!(merged.unwrap_err(), Error::UnstagedChanges);
    assert_eq!(content(&tree, "a.txt"), "Some text");
}

/// Attempts to merge with staged, but uncommitted, changes made to the a.txt file in main.
#[test]
fn merge_uncommitted_changes() {
    let (mut repo, mut tree) = setup_merge_tests();
    switch(&mut repo, &mut tree, "main", false).unwrap();

    tree.write("a.txt".to_string(), b"Some text\n".to_vec());
    assert!(repo.add(&tree, "a.txt").is_ok());

    let merged = repo.merge_at(&mut tree, "dev", 300);
    assert_eq!(merged.unwrap_err(), Error::UncommittedChanges);
}

#[test]
fn merge_nonexistent_branch() {
    let (mut repo, mut tree) = setup_merge_tests();
    let merged = repo.merge_at(&mut tree, "not_here", 300);
    assert_eq!(merged.unwrap_err(), Error::BranchNotFound);
}

#[test]
fn merge_self() {
    let (mut repo, mut tree) = setup_merge_tests();
    let merged = repo.merge_at(&mut tree, "dev", 300);
    assert_eq!(merged.unwrap_err(), Error::SelfMerge);
}

#[test]
fn merge_new_file() {
    let (mut repo, mut tree) = setup_merge_tests();

    // Save dev's commit id.
    let dev_commit_id = tip(&repo, "dev");

    switch(&mut repo, &mut tree, "main", false).unwrap();
    assert!(!tree.contains("b.txt"));

    let merged = repo.merge_at(&mut tree, "dev", 300).unwrap();
    assert!(matches!(merged, MergeOutcome::FastForward));

    assert_eq!(tip(&repo, "main"), dev_commit_id);
    // The working tree holds both files, unchanged.
    assert_eq!(content(&tree, "a.txt"), "");
    assert_eq!(content(&tree, "b.txt"), "");
    assert_eq!(repo.commits.len(), 2);
}

#[test]
fn merge_file_change() {
    let (mut repo, mut tree) = setup_merge_tests();

    tree.write("a.txt".to_string(), b"Some new text".to_vec());
    assert!(repo.add(&tree, "a.txt").is_ok());
    assert!(repo.commit_at("Added text to a.txt".to_string(), 300).is_ok());

    switch(&mut repo, &mut tree, "main", false).unwrap();
    assert_eq!(content(&tree, "a.txt"), "");

    let merged = repo.merge_at(&mut tree, "dev", 400).unwrap();
    assert!(matches!(merged, MergeOutcome::FastForward));

    assert!(content(&tree, "a.txt").contains("Some new text"));
}

/// Merges branches with separate files, common ancestor.
#[test]
fn merge_split_history() {
    let (mut repo, mut tree) = setup_merge_tests();

    // Write changes into b.txt on branch dev.
    tree.write("b.txt".to_string(), b"Dev text in b".to_vec());
    repo.add(&tree, "b.txt").unwrap();
    repo.commit_at("Wrote to b.txt".to_string(), 300).unwrap();
    let dev_commit_id = tip(&repo, "dev");

    // Checkout main branch and write and commit changes to a.txt
    switch(&mut repo, &mut tree, "main", false).unwrap();
    tree.write("a.txt".to_string(), b"Main text".to_vec());
    repo.add(&tree, "a.txt").unwrap();
    repo.commit_at("Wrote 'Main text' to a.txt".to_string(), 400).unwrap();
    let main_commit_id = tip(&repo, "main");

    // Merge with dev and check that a.txt and b.txt contain correct text.
    let merged = repo.merge_at(&mut tree, "dev", 500).unwrap();
    let hash = match merged {
        MergeOutcome::Merged(hash) => hash,
        other => panic!("expected a merge commit, got {:?}", other),
    };

    assert!(content(&tree, "a.txt").contains("Main text"));
    assert!(content(&tree, "b.txt").contains("Dev text in b"));

    assert_eq!(tip(&repo, "main"), hash);
    assert_eq!(tip(&repo, "dev"), dev_commit_id);
    let commit = repo.commits.load(&hash).unwrap();
    assert_eq!(commit.message(), "Merged dev into main");
    assert_eq!(commit.parent(), &main_commit_id);
    assert_eq!(commit.merge_parent(), &dev_commit_id);
    assert_eq!(commit.timestamp(), 500);
    assert!(commit.tracks("a.txt"));
    assert!(commit.tracks("b.txt"));
    assert!(repo.index.is_clear());
}

/// Merges a file with a conflict.
///
/// First adds "Dev text" to a.txt in the dev branch.
/// Then checks out main and modifies a.txt to contain 'Main text'.
/// Adds and commits the change, then merges with dev branch.
/// a.txt should contain:
///     <<<<<<< HEAD
///     Main text
///     =======
///     Dev text
///     >>>>>>> {head_dev_commit_id}
#[test]
fn merge_file_conflict() {
    let (mut repo, mut tree) = setup_merge_tests();

    tree.write("a.txt".to_string(), b"Dev text".to_vec());
    repo.add(&tree, "a.txt").unwrap();
    repo.commit_at("Wrote 'Dev text' to a.txt".to_string(), 300).unwrap();

    // Save dev's commit id.
    let dev_commit_id = tip(&repo, "dev");

    switch(&mut repo, &mut tree, "main", false).unwrap();

    tree.write("a.txt".to_string(), b"Main text".to_vec());
    repo.add(&tree, "a.txt").unwrap();
    repo.commit_at("Wrote 'Main text' to a.txt".to_string(), 400).unwrap();
    let main_commit_id = tip(&repo, "main");
    let commits_before = repo.commits.len();

    let merged = repo.merge_at(&mut tree, "dev", 500).unwrap();
    match merged {
        MergeOutcome::Conflicted(paths) => assert_eq!(paths, vec!["a.txt".to_string()]),
        other => panic!("expected a conflict, got {:?}", other),
    }

    let expected =
        format!("<<<<<<< HEAD\nMain text\n=======\nDev text\n>>>>>>> {dev_commit_id}\n");
    assert_eq!(content(&tree, "a.txt"), expected);

    // Nothing is committed; the rest of the merge is staged.
    assert_eq!(repo.commits.len(), commits_before);
    assert_eq!(tip(&repo, "main"), main_commit_id);
    assert!(repo.index.additions().contains_key("b.txt"));
    assert!(!repo.index.additions().contains_key("a.txt"));
    assert_eq!(content(&tree, "b.txt"), "");
}

/// Ensures that an attempted merge between branches with disparate commit histories fails.
/// For a repo to end up in this bad state, a branch would need to be manually created
/// in the .gitlet directory or an existing branch's commit history would need to be
/// manually tampered with.
#[test]
fn merge_no_split() {
    let (mut repo, mut tree) = setup_merge_tests();
    switch(&mut repo, &mut tree, "main", false).unwrap();

    // A commit without parents that no operation of the repository made.
    let stray = "00000000000000000000000000000000000000ff".to_string();
    let commit = Commit::from_parts(
        stray.clone(),
        String::new(),
        String::new(),
        "stray".to_string(),
        50,
        Snapshot::new(),
    );
    repo.commits.save(commit).unwrap();
    repo.refs.set("stray".to_string(), stray.clone());

    let main_commit_id = tip(&repo, "main");
    let merged = repo.merge_at(&mut tree, "stray", 300);
    assert_eq!(merged.unwrap_err(), Error::UnrelatedHistories);

    // Nothing has changed.
    assert_eq!(tip(&repo, "main"), main_commit_id);
    assert_eq!(tip(&repo, "stray"), stray);
    assert_eq!(content(&tree, "a.txt"), "");
    assert!(repo.index.is_clear());
}

#[test]
fn merge_already_up_to_date() {
    let (mut repo, mut tree) = setup_merge_tests();
    // dev is ahead of main: merging main into dev finds nothing to do.
    let dev_commit_id = tip(&repo, "dev");
    let merged = repo.merge_at(&mut tree, "main", 300).unwrap();
    assert!(matches!(merged, MergeOutcome::AlreadyUpToDate));
    assert_eq!(tip(&repo, "dev"), dev_commit_id);
    assert!(tree.contains("b.txt"));
}

#[test]
fn merge_takes_deletion_from_other_branch() {
    let (mut repo, mut tree) = setup_merge_tests();
    // dev deletes a.txt; main adds c.txt.
    rm(&mut repo, &mut tree, false, "a.txt").unwrap();
    repo.commit_at("Delete a.txt".to_string(), 300).unwrap();
    switch(&mut repo, &mut tree, "main", false).unwrap();
    tree.write("c.txt".to_string(), b"c".to_vec());
    repo.add(&tree, "c.txt").unwrap();
    repo.commit_at("Create c.txt".to_string(), 400).unwrap();

    let merged = repo.merge_at(&mut tree, "dev", 500).unwrap();
    assert!(matches!(merged, MergeOutcome::Merged(_)));
    assert!(!tree.contains("a.txt"));
    assert!(tree.contains("b.txt"));
    assert!(tree.contains("c.txt"));
    let head = repo.retrieve_head_commit().unwrap();
    assert!(!head.tracks("a.txt"));
    assert!(head.tracks("b.txt"));
    assert!(head.tracks("c.txt"));
}

#[test]
fn merge_same_change_on_both_sides_is_no_conflict() {
    let (mut repo, mut tree) = setup_merge_tests();
    tree.write("a.txt".to_string(), b"same".to_vec());
    repo.add(&tree, "a.txt").unwrap();
    repo.commit_at("dev writes a.txt".to_string(), 300).unwrap();
    switch(&mut repo, &mut tree, "main", false).unwrap();
    tree.write("a.txt".to_string(), b"same".to_vec());
    repo.add(&tree, "a.txt").unwrap();
    repo.commit_at("main writes a.txt".to_string(), 400).unwrap();

    let merged = repo.merge_at(&mut tree, "dev", 500).unwrap();
    assert!(matches!(merged, MergeOutcome::Merged(_)));
    assert_eq!(content(&tree, "a.txt"), "same");
}

#[test]
fn ancestry_and_merge_base() {
    let (mut repo, mut tree) = setup_merge_tests();
    let dev = tip(&repo, "dev");
    let main = tip(&repo, "main");
    assert!(is_ancestor(&main, &dev, &repo.commits));
    assert!(!is_ancestor(&dev, &main, &repo.commits));
    assert!(is_ancestor(&dev, &dev, &repo.commits));
    // The start of history is behind every commit.
    assert!(is_ancestor("", &dev, &repo.commits));
    assert!(is_ancestor("", "", &repo.commits));

    switch(&mut repo, &mut tree, "main", false).unwrap();
    tree.write("a.txt".to_string(), b"Main text".to_vec());
    repo.add(&tree, "a.txt").unwrap();
    repo.commit_at("main moves on".to_string(), 300).unwrap();
    let moved = tip(&repo, "main");
    assert!(!is_ancestor(&moved, &dev, &repo.commits));
    assert!(!is_ancestor(&dev, &moved, &repo.commits));
    let base = merge_base(&moved, &dev, &repo.commits).unwrap();
    assert_eq!(base.hash(), &main);
    let base = merge_base(&dev, &moved, &repo.commits).unwrap();
    assert_eq!(base.hash(), &main);
}

#[test]
fn merge_with_clock() {
    let (mut repo, mut tree) = setup_merge_tests();
    switch(&mut repo, &mut tree, "main", false).unwrap();
    let merged = merge(&mut repo, &mut tree, "dev").unwrap();
    assert!(matches!(merged, MergeOutcome::FastForward));
}

#[test]
fn fast_forward_from_an_empty_branch() {
    let mut repo = init(false).unwrap();
    let mut tree = WorkingTree::new();
    switch(&mut repo, &mut tree, "dev", true).unwrap();
    tree.write("a.txt".to_string(), b"hello".to_vec());
    repo.add(&tree, "a.txt").unwrap();
    repo.commit_at("first".to_string(), 10).unwrap();
    let dev = tip(&repo, "dev");
    switch(&mut repo, &mut tree, "main", false).unwrap();
    assert!(!tree.contains("a.txt"));
    let merged = repo.merge_at(&mut tree, "dev", 20).unwrap();
    assert!(matches!(merged, MergeOutcome::FastForward));
    assert_eq!(tip(&repo, "main"), dev);
    assert_eq!(content(&tree, "a.txt"), "hello");
}
