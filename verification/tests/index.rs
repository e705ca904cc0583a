use gitlet_rs::blob::{Blob, ObjectStore};
use gitlet_rs::error::Error;
use gitlet_rs::index::{action, rm, status, Index, IndexAction};
use gitlet_rs::repo::init;
use gitlet_rs::worktree::WorkingTree;

#[test]
fn load_empty_staging_area() {
    let new_index = Index::new();
    assert!(new_index.additions().is_empty());
    assert!(new_index.removals().is_empty());
}

#[test]
fn clear_staging_area() {
    let mut store = ObjectStore::new();
    let mut new_index = Index::new();
    new_index.stage("tmp.txt".to_string(), b"Test text.", &mut store).unwrap();
    assert!(!new_index.is_clear());

    new_index.clear();

    assert!(new_index.additions().is_empty());
    assert!(new_index.removals().is_empty());
}

#[test]
fn stage_and_unstage() {
    let mut store = ObjectStore::new();
    let mut index = Index::new();
    let content: &[u8] = b"Test text.";

    assert!(action(IndexAction::Add, &mut index, "tmp.txt", Some(content), &mut store).is_ok());
    assert!(action(IndexAction::Unstage, &mut index, "tmp.txt", Some(content), &mut store).is_ok());

    assert!(index.additions().is_empty());
}

#[test]
fn test_rm_staged() {
    let mut repo = init(false).unwrap();
    let mut tree = WorkingTree::new();
    tree.write("tmp.txt".to_string(), b"Test text.".to_vec());

    assert!(repo.add(&tree, "tmp.txt").is_ok());

    assert!(rm(&mut repo, &mut tree, true, "tmp.txt").is_ok());

    assert!(repo.index.additions().is_empty());
    assert!(!repo.index.removals().contains("tmp.txt"));
    assert!(tree.contains("tmp.txt"));
}

#[test]
fn remove_cached_hands_back_the_staged_blob() {
    let mut store = ObjectStore::new();
    let mut index = Index::new();
    let content: &[u8] = b"Test text.";
    assert!(action(IndexAction::Add, &mut index, "tmp.txt", Some(content), &mut store).is_ok());

    // The file exists and is not held by the current commit.
    let outcome = index.remove("tmp.txt", true, true, false).unwrap();

    assert!(index.is_clear());
    assert!(!outcome.delete_file);
    assert_eq!(outcome.delete_blob.unwrap().hash(), Blob::new(content).hash());
}

#[test]
fn stage_records_digest_and_stores_object() {
    let mut store = ObjectStore::new();
    let mut index = Index::new();
    index.stage("a.txt".to_string(), b"hello", &mut store).unwrap();
    assert_eq!(
        index.additions().get("a.txt").unwrap().hash(),
        "aaf4c61ddcc5e8a2dabede0f3b482cd9aea9434d"
    );
    assert!(store.contains("aaf4c61ddcc5e8a2dabede0f3b482cd9aea9434d"));
    assert!(!index.is_clear());
}

#[test]
fn staging_twice_is_idempotent() {
    let mut store = ObjectStore::new();
    let mut index = Index::new();
    index.stage("a.txt".to_string(), b"hello", &mut store).unwrap();
    let first = index.additions().get("a.txt").unwrap().hash().clone();
    index.stage("a.txt".to_string(), b"hello", &mut store).unwrap();
    let second = index.additions().get("a.txt").unwrap().hash().clone();
    assert_eq!(first, second);
    assert_eq!(index.additions().len(), 1);
    assert_eq!(store.len(), 1);
}

#[test]
fn staging_takes_path_out_of_removals() {
    let mut store = ObjectStore::new();
    let mut index = Index::new();
    index.remove("a.txt", false, true, true).unwrap();
    assert!(index.removals().contains("a.txt"));
    index.stage("a.txt".to_string(), b"back", &mut store).unwrap();
    assert!(!index.removals().contains("a.txt"));
    assert!(index.additions().contains_key("a.txt"));
}

#[test]
fn unstage_is_idempotent() {
    let mut store = ObjectStore::new();
    let mut index = Index::new();
    index.stage("a.txt".to_string(), b"hello", &mut store).unwrap();
    index.remove("b.txt", false, true, true).unwrap();
    index.unstage("a.txt");
    index.unstage("a.txt");
    index.unstage("b.txt");
    index.unstage("never.txt");
    assert!(index.is_clear());
}

#[test]
fn is_clear_iff_both_sides_empty() {
    let mut store = ObjectStore::new();
    let mut index = Index::new();
    assert!(index.is_clear());
    index.stage("a.txt".to_string(), b"a", &mut store).unwrap();
    assert!(!index.is_clear());
    index.unstage("a.txt");
    assert!(index.is_clear());
    index.remove("b.txt", false, true, true).unwrap();
    assert!(!index.is_clear());
    assert!(index.additions().is_empty());
    index.unstage("b.txt");
    assert!(index.is_clear());
}

#[test]
fn remove_file_that_is_gone() {
    let mut store = ObjectStore::new();

    // Untracked and unstaged: refused.
    let mut index = Index::new();
    assert_eq!(index.remove("a.txt", false, false, false).unwrap_err(), Error::NotTracked);

    // Held by the current commit: staged for removal, once.
    let outcome = index.remove("a.txt", false, false, true).unwrap();
    assert!(!outcome.delete_file && outcome.delete_blob.is_none());
    assert!(index.removals().contains("a.txt"));
    assert_eq!(index.remove("a.txt", false, false, true).unwrap_err(), Error::AlreadyStaged);
    assert!(index.removals().contains("a.txt"));

    // Only staged: the addition is dropped.
    let mut index = Index::new();
    index.stage("b.txt".to_string(), b"b", &mut store).unwrap();
    let outcome = index.remove("b.txt", false, false, false).unwrap();
    assert!(!outcome.delete_file && outcome.delete_blob.is_none());
    assert!(index.is_clear());
}

#[test]
fn remove_never_leaves_a_path_on_both_sides() {
    let mut store = ObjectStore::new();
    let mut index = Index::new();
    index.stage("a.txt".to_string(), b"changed", &mut store).unwrap();
    index.remove("a.txt", false, false, true).unwrap();
    assert!(index.removals().contains("a.txt"));
    assert!(!index.additions().contains_key("a.txt"));
}

#[test]
fn remove_cached() {
    let mut store = ObjectStore::new();
    let mut index = Index::new();
    assert_eq!(index.remove("a.txt", true, true, false).unwrap_err(), Error::NotTracked);

    // Held by the current commit and staged with changes.
    index.stage("a.txt".to_string(), b"changed", &mut store).unwrap();
    let outcome = index.remove("a.txt", true, true, true).unwrap();
    assert!(!outcome.delete_file);
    assert!(outcome.delete_blob.is_none());
    assert!(index.additions().is_empty());
    assert!(index.removals().contains("a.txt"));
}

#[test]
fn remove_from_working_tree() {
    let mut store = ObjectStore::new();
    let mut index = Index::new();
    assert_eq!(index.remove("a.txt", false, true, false).unwrap_err(), Error::NotTracked);

    index.stage("a.txt".to_string(), b"changed", &mut store).unwrap();
    assert_eq!(
        index.remove("a.txt", false, true, true).unwrap_err(),
        Error::StagedChangesConflict
    );
    assert!(index.additions().contains_key("a.txt"));
    assert!(index.removals().is_empty());

    let outcome = index.remove("b.txt", false, true, true).unwrap();
    assert!(outcome.delete_file);
    assert!(outcome.delete_blob.is_none());
    assert!(index.removals().contains("b.txt"));
}

#[test]
fn status_of_empty_index() {
    let index = Index::new();
    assert_eq!(status(&index), "=== Staged Files ===\n\n=== Removed Files ===\n");
}

#[test]
fn status_lists_both_sides_in_order() {
    let mut store = ObjectStore::new();
    let mut index = Index::new();
    index.stage("tmp.txt".to_string(), b"", &mut store).unwrap();
    index.stage("a/b.txt".to_string(), b"x", &mut store).unwrap();
    index.remove("old.txt", false, true, true).unwrap();
    assert_eq!(
        index.to_text(),
        "=== Staged Files ===\ntmp.txt\na/b.txt\n\n=== Removed Files ===\nold.txt\n"
    );
}

#[test]
fn adding_a_missing_file_changes_nothing() {
    let mut store = ObjectStore::new();
    let mut index = Index::new();
    index.stage("kept.txt".to_string(), b"kept", &mut store).unwrap();
    assert_eq!(
        action(IndexAction::Add, &mut index, "tmp.txt", None, &mut store),
        Err(Error::FileNotFound)
    );
    assert_eq!(index.additions().len(), 1);
    assert!(index.removals().is_empty());
    assert_eq!(store.len(), 1);
}

#[test]
fn unstaging_needs_no_file() {
    let mut store = ObjectStore::new();
    let mut index = Index::new();
    index.stage("a.txt".to_string(), b"a", &mut store).unwrap();
    index.stage("kept.txt".to_string(), b"kept", &mut store).unwrap();
    index.remove("b.txt", false, false, true).unwrap();
    index.remove("gone.txt", false, false, true).unwrap();

    // The files are gone from the working tree: unstaging them is no failure.
    assert_eq!(action(IndexAction::Unstage, &mut index, "a.txt", None, &mut store), Ok(()));
    assert_eq!(action(IndexAction::Unstage, &mut index, "b.txt", None, &mut store), Ok(()));
    assert_eq!(action(IndexAction::Unstage, &mut index, "never.txt", None, &mut store), Ok(()));

    assert_eq!(index.additions().len(), 1);
    assert!(index.additions().contains_key("kept.txt"));
    assert_eq!(index.removals().len(), 1);
    assert!(index.removals().contains("gone.txt"));
    assert_eq!(store.len(), 2);

    // Once more, and nothing changes.
    assert_eq!(action(IndexAction::Unstage, &mut index, "a.txt", None, &mut store), Ok(()));
    assert_eq!(index.additions().len(), 1);
    assert_eq!(index.removals().len(), 1);
}

#[test]
fn staging_succeeds_and_a_second_time_too() {
    let mut store = ObjectStore::new();
    let mut index = Index::new();
    assert_eq!(index.stage("a.txt".to_string(), b"hello", &mut store), Ok(()));
    assert_eq!(index.stage("a.txt".to_string(), b"hello", &mut store), Ok(()));
    assert_eq!(Blob::new(b"hello").write_blob(&mut store, b"hello"), Ok(()));
    assert_eq!(store.len(), 1);
}
