use gitlet_rs::error::Error;
use gitlet_rs::index::rm;
use gitlet_rs::repo::{
    branch, branch_listing, init, status, switch, BranchOutcome, Repository, SwitchOutcome,
};
use gitlet_rs::sort::{bytes_le, sort_names};
use gitlet_rs::worktree::WorkingTree;

fn new_repo() -> (Repository, WorkingTree) {
    (init(false).unwrap(), WorkingTree::new())
}

fn touch(tree: &mut WorkingTree, path: &str) {
    tree.write(path.to_string(), Vec::new());
}

fn branches(repo: &mut Repository) -> String {
    match branch(repo, None, false).unwrap() {
        BranchOutcome::Listed(lines) => lines.join("\n"),
        other => panic!("expected a listing, got {:?}", other),
    }
}

fn staged_part(repo: &Repository, tree: &WorkingTree) -> String {
    status(repo, tree).unwrap()
}

// init

#[test]
fn init_new_repo_in_cd() {
    let repo = init(false).unwrap();
    assert_eq!(repo.get_head_branch(), "main");
    assert_eq!(repo.refs.len(), 1);
    assert_eq!(repo.refs.get("main").unwrap(), "");
    assert_eq!(repo.commits.len(), 0);
    assert_eq!(repo.blobs.len(), 0);
    assert!(repo.index.is_clear());
}

#[test]
fn init_fails_repo_already_exists() {
    let again = init(true);
    assert_eq!(again.unwrap_err(), Error::RepositoryAlreadyExists);
    assert_eq!(
        Error::RepositoryAlreadyExists.message(),
        "A gitlet repository already exists in this directory"
    );
}

// add

#[test]
fn stage_file() {
    let (mut repo, mut tree) = new_repo();
    touch(&mut tree, "tmp.txt");
    repo.add(&tree, "tmp.txt").unwrap();
    assert!(repo.index.additions().contains_key("tmp.txt"));
    // The digest of the empty file.
    assert_eq!(
        repo.index.additions().get("tmp.txt").unwrap().hash(),
        "da39a3ee5e6b4b0d3255bfef95601890afd80709"
    );
    assert!(repo.blobs.contains("da39a3ee5e6b4b0d3255bfef95601890afd80709"));
}

#[test]
fn stage_nonexistent_file() {
    let (mut repo, tree) = new_repo();
    let staged = repo.add(&tree, "tmp.txt");
    assert_eq!(staged, Err(Error::FileNotFound));
    assert_eq!(staged.unwrap_err().message(), "Cannot stage file. File does not exist.");
    assert!(repo.index.is_clear());
}

#[test]
fn unstage_needs_no_file() {
    let (mut repo, mut tree) = new_repo();
    touch(&mut tree, "tmp.txt");
    touch(&mut tree, "gone.txt");
    repo.add(&tree, "tmp.txt").unwrap();
    repo.add(&tree, "gone.txt").unwrap();
    tree.delete("gone.txt");

    repo.unstage("gone.txt");
    assert!(!repo.index.additions().contains_key("gone.txt"));
    assert!(repo.index.additions().contains_key("tmp.txt"));
    repo.unstage("tmp.txt");
    repo.unstage("tmp.txt");
    repo.unstage("never.txt");
    assert!(repo.index.is_clear());
}

// branch

#[test]
fn list_branches() {
    let (mut repo, _tree) = new_repo();
    repo.refs.set("test_branch".to_string(), String::new());
    repo.refs.set("a_test_branch".to_string(), String::new());
    assert_eq!(branches(&mut repo), "  a_test_branch\n* main\n  test_branch");
}

#[test]
fn branch_delete_needs_branch_name() {
    let (mut repo, _tree) = new_repo();
    let refused = branch(&mut repo, None, true).unwrap_err();
    assert_eq!(refused, Error::BranchNameRequired);
    assert_eq!(refused.message(), "Branch name required");
}

#[test]
fn cannot_delete_current_branch() {
    let (mut repo, _tree) = new_repo();
    let refused = branch(&mut repo, Some("main".to_string()), true).unwrap_err();
    assert_eq!(refused, Error::BranchCheckedOut);
    assert_eq!(refused.message(), "Cannot delete branch when it is checked out");
    assert!(repo.refs.contains("main"));
}

#[test]
fn delete_branch_not_found() {
    let (mut repo, _tree) = new_repo();
    let refused = branch(&mut repo, Some("test".to_string()), true).unwrap_err();
    assert_eq!(refused, Error::BranchNotFound);
}

#[test]
fn delete_branch() {
    let (mut repo, _tree) = new_repo();
    repo.refs.set("test_branch".to_string(), String::new());
    repo.refs.set("a_test_branch".to_string(), String::new());
    let done = branch(&mut repo, Some("test_branch".to_string()), true).unwrap();
    assert!(matches!(done, BranchOutcome::Deleted));
    assert_eq!(branches(&mut repo), "  a_test_branch\n* main");
}

#[test]
fn cannot_create_branch_that_exists() {
    let (mut repo, _tree) = new_repo();
    let refused = branch(&mut repo, Some("main".to_string()), false).unwrap_err();
    assert_eq!(refused, Error::BranchExists);
}

#[test]
fn create_branch_no_commits() {
    let (mut repo, _tree) = new_repo();
    assert!(matches!(
        branch(&mut repo, Some("test_branch".to_string()), false),
        Ok(BranchOutcome::Created)
    ));
    assert!(matches!(
        branch(&mut repo, Some("a_test_branch".to_string()), false),
        Ok(BranchOutcome::Created)
    ));
    assert_eq!(branches(&mut repo), "  a_test_branch\n* main\n  test_branch");
}

#[test]
fn create_branch_with_commit() {
    let (mut repo, mut tree) = new_repo();
    touch(&mut tree, "tmp.txt");
    repo.add(&tree, "tmp.txt").unwrap();
    repo.commit_at("add tmp.txt".to_string(), 10).unwrap();
    branch(&mut repo, Some("test_branch".to_string()), false).unwrap();
    assert_eq!(branches(&mut repo), "* main\n  test_branch");
    assert_eq!(repo.refs.get("test_branch"), repo.refs.get("main"));
    assert_eq!(repo.refs.get("main").unwrap().len(), 40);
}

#[test]
fn listing_marks_the_current_branch() {
    let names = vec!["a".to_string(), "b".to_string(), "c".to_string()];
    assert_eq!(branch_listing(&names, "b"), vec!["  a", "* b", "  c"]);
    assert_eq!(branch_listing(&names, "z"), vec!["  a", "  b", "  c"]);
}

#[test]
fn names_sort_byte_by_byte() {
    let names: Vec<String> =
        ["main", "b", "a_test", "Zed", "a", "ab", "", "é"].iter().map(|s| s.to_string()).collect();
    assert_eq!(sort_names(&names), vec!["", "Zed", "a", "a_test", "ab", "b", "main", "é"]);
    assert!(bytes_le(b"", b""));
    assert!(bytes_le(b"a", b"a"));
    assert!(bytes_le(b"a", b"ab"));
    assert!(!bytes_le(b"ab", b"a"));
    assert!(bytes_le(b"ab", b"b"));
    assert!(!bytes_le(b"b", b"ab"));
}

// rm

#[test]
fn cannot_rm_untracked_file() {
    let (mut repo, mut tree) = new_repo();
    touch(&mut tree, "a.txt");
    let refused = rm(&mut repo, &mut tree, false, "a.txt").unwrap_err();
    assert_eq!(refused, Error::NotTracked);
    assert_eq!(refused.message(), "Cannot remove file. The file is not tracked.");
    assert!(tree.contains("a.txt"));
}

#[test]
fn cannot_rm_staged_changes_file() {
    let (mut repo, mut tree) = new_repo();
    touch(&mut tree, "a.txt");
    repo.add(&tree, "a.txt").unwrap();
    let refused = rm(&mut repo, &mut tree, false, "a.txt").unwrap_err();
    assert_eq!(refused, Error::StagedChangesConflict);
    assert!(refused.message().contains("Cannot remove a file with staged changes."));

    assert!(tree.contains("a.txt"));
}

#[test]
fn rm_cached() {
    let (mut repo, mut tree) = new_repo();
    touch(&mut tree, "a.txt");
    repo.add(&tree, "a.txt").unwrap();
    assert_eq!(repo.blobs.len(), 1);
    rm(&mut repo, &mut tree, true, "a.txt").unwrap();

    assert!(tree.contains("a.txt"));
    assert!(repo.index.is_clear());
    // The object of the addition that was only staged is dropped.
    assert_eq!(repo.blobs.len(), 0);
}

#[test]
fn rm_from_working_tree() {
    let (mut repo, mut tree) = new_repo();
    touch(&mut tree, "a.txt");
    repo.add(&tree, "a.txt").unwrap();
    repo.commit_at("test commit".to_string(), 10).unwrap();
    rm(&mut repo, &mut tree, false, "a.txt").unwrap();

    assert!(!tree.contains("a.txt"));
    assert!(repo.index.removals().contains("a.txt"));
    assert_eq!(repo.blobs.len(), 1);
}

#[test]
fn rm_already_removed() {
    let (mut repo, mut tree) = new_repo();
    touch(&mut tree, "a.txt");
    repo.add(&tree, "a.txt").unwrap();
    repo.commit_at("test commit".to_string(), 10).unwrap();
    rm(&mut repo, &mut tree, false, "a.txt").unwrap();

    let refused = rm(&mut repo, &mut tree, false, "a.txt").unwrap_err();
    assert_eq!(refused, Error::AlreadyStaged);
    assert_eq!(refused.message(), "File already staged for removal.");
    assert!(!tree.contains("a.txt"));
}

#[test]
fn rm_cached_keeps_tracked_file_and_stages_removal() {
    let (mut repo, mut tree) = new_repo();
    touch(&mut tree, "a.txt");
    repo.add(&tree, "a.txt").unwrap();
    repo.commit_at("test commit".to_string(), 10).unwrap();
    rm(&mut repo, &mut tree, true, "a.txt").unwrap();
    assert!(tree.contains("a.txt"));
    assert!(repo.index.removals().contains("a.txt"));
    assert_eq!(repo.blobs.len(), 1);
}

// status

#[test]
fn empty_status() {
    let (repo, tree) = new_repo();
    let text = staged_part(&repo, &tree);
    assert!(text.contains("=== Staged Files ===\n\n=== Removed Files ===\n"));
    assert_eq!(
        text,
        "On branch main\n\n=== Staged Files ===\n\n=== Removed Files ===\n\n=== Unstaged Modifications ===\n\n=== Untracked Files ===\n\n"
    );
}

#[test]
fn staged_file_status() {
    let (mut repo, mut tree) = new_repo();
    touch(&mut tree, "tmp.txt");
    repo.add(&tree, "tmp.txt").unwrap();
    let text = staged_part(&repo, &tree);
    assert!(text.contains("=== Staged Files ===\ntmp.txt\n\n=== Removed Files ===\n"));
}

#[test]
fn status_after_first_commit_shows_nothing_staged() {
    let (mut repo, mut tree) = new_repo();
    tree.write("a.txt".to_string(), b"hello".to_vec());
    repo.add(&tree, "a.txt").unwrap();
    repo.commit_at("msg".to_string(), 10).unwrap();
    let text = status(&repo, &tree).unwrap();
    assert!(text.contains("=== Staged Files ===\n\n=== Removed Files ===\n"));
    let entries = gitlet_rs::repo::log(&repo).unwrap();
    assert_eq!(entries.len(), 1);
    assert_eq!(entries[0].message(), "msg");
    assert!(entries[0].to_text().ends_with("\nmsg\n"));
}

#[test]
fn status_lists_deleted_staged_file() {
    let (mut repo, mut tree) = new_repo();
    tree.write("a.txt".to_string(), b"hello".to_vec());
    repo.add(&tree, "a.txt").unwrap();
    tree.delete("a.txt");
    let text = status(&repo, &tree).unwrap();
    assert!(text.contains("\n=== Unstaged Modifications ===\na.txt (deleted)\n"));
}

#[test]
fn status_lists_every_section() {
    let (mut repo, mut tree) = new_repo();
    tree.write("a.txt".to_string(), b"a".to_vec());
    tree.write("b.txt".to_string(), b"b".to_vec());
    repo.add(&tree, "a.txt").unwrap();
    repo.add(&tree, "b.txt").unwrap();
    repo.commit_at("msg".to_string(), 10).unwrap();
    tree.write("a.txt".to_string(), b"changed".to_vec());
    rm(&mut repo, &mut tree, false, "b.txt").unwrap();
    tree.write("c.txt".to_string(), b"c".to_vec());
    repo.add(&tree, "c.txt").unwrap();
    tree.write("d.txt".to_string(), b"d".to_vec());
    assert_eq!(
        status(&repo, &tree).unwrap(),
        "On branch main\n\n=== Staged Files ===\nc.txt\n\n=== Removed Files ===\nb.txt\n\n=== Unstaged Modifications ===\na.txt\n\n=== Untracked Files ===\nd.txt\n\n"
    );
}

// switch

#[test]
fn already_on_branch() {
    let (mut repo, mut tree) = new_repo();
    let done = switch(&mut repo, &mut tree, "main", false).unwrap();
    assert!(matches!(done, SwitchOutcome::AlreadyOn));
}

#[test]
fn cannot_create_branch_that_exists_short() {
    let (mut repo, mut tree) = new_repo();
    let done = switch(&mut repo, &mut tree, "main", true).unwrap();
    assert!(matches!(done, SwitchOutcome::AlreadyOn));
    assert_eq!(repo.refs.len(), 1);
}

#[test]
fn create_and_switch_to_new_branch() {
    let (mut repo, mut tree) = new_repo();
    branch(&mut repo, Some("test_branch".to_string()), false).unwrap();
    let done = switch(&mut repo, &mut tree, "test_branch", false).unwrap();
    assert!(matches!(done, SwitchOutcome::Switched));
    assert_eq!(branches(&mut repo), "  main\n* test_branch");
}

#[test]
fn switch_to_newly_created_branch() {
    let (mut repo, mut tree) = new_repo();
    switch(&mut repo, &mut tree, "a_test_branch", true).unwrap();
    assert_eq!(branches(&mut repo), "* a_test_branch\n  main");
}

#[test]
fn switch_to_missing_branch_is_refused() {
    let (mut repo, mut tree) = new_repo();
    let refused = switch(&mut repo, &mut tree, "nowhere", false).unwrap_err();
    assert_eq!(refused, Error::BranchNotFound);
    assert_eq!(repo.get_head_branch(), "main");
    assert_eq!(repo.refs.len(), 1);
}

#[test]
fn switch_swaps_the_working_tree() {
    let (mut repo, mut tree) = new_repo();
    tree.write("a.txt".to_string(), b"main a".to_vec());
    repo.add(&tree, "a.txt").unwrap();
    repo.commit_at("on main".to_string(), 10).unwrap();
    switch(&mut repo, &mut tree, "dev", true).unwrap();
    tree.write("a.txt".to_string(), b"dev a".to_vec());
    tree.write("sub/b.txt".to_string(), b"dev b".to_vec());
    repo.add(&tree, "a.txt").unwrap();
    repo.add(&tree, "sub/b.txt").unwrap();
    repo.commit_at("on dev".to_string(), 20).unwrap();
    tree.write("notes.txt".to_string(), b"untracked".to_vec());

    switch(&mut repo, &mut tree, "main", false).unwrap();
    assert_eq!(repo.get_head_branch(), "main");
    assert_eq!(tree.read("a.txt").unwrap(), b"main a");
    assert!(!tree.contains("sub/b.txt"));
    assert_eq!(tree.read("notes.txt").unwrap(), b"untracked");

    switch(&mut repo, &mut tree, "dev", false).unwrap();
    assert_eq!(tree.read("a.txt").unwrap(), b"dev a");
    assert_eq!(tree.read("sub/b.txt").unwrap(), b"dev b");
}

#[test]
fn switch_refused_by_local_changes_changes_nothing() {
    let (mut repo, mut tree) = new_repo();
    tree.write("a.txt".to_string(), b"main a".to_vec());
    repo.add(&tree, "a.txt").unwrap();
    repo.commit_at("on main".to_string(), 10).unwrap();
    switch(&mut repo, &mut tree, "dev", true).unwrap();
    tree.write("a.txt".to_string(), b"dev a".to_vec());
    repo.add(&tree, "a.txt").unwrap();
    repo.commit_at("on dev".to_string(), 20).unwrap();

    tree.write("a.txt".to_string(), b"local".to_vec());
    let refused = switch(&mut repo, &mut tree, "main", false).unwrap_err();
    assert_eq!(refused, Error::CheckoutConflict(vec!["a.txt".to_string()]));
    assert_eq!(repo.get_head_branch(), "dev");
    assert_eq!(tree.read("a.txt").unwrap(), b"local");
}
