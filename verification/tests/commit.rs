use gitlet_rs::blob::{Blob, ObjectStore};
use gitlet_rs::commit::{
    get_commit_blobs, get_parent_hashes, history, more_recent_hash, Commit, CommitStore,
};
use gitlet_rs::error::Error;
use gitlet_rs::index::Index;
use gitlet_rs::snapshot::Snapshot;

fn hash_of(n: u8) -> String {
    format!("{:040x}", n)
}

fn plain(hash: &str, parent: &str, merge_parent: &str, timestamp: u64) -> Commit {
    Commit::from_parts(
        hash.to_string(),
        parent.to_string(),
        merge_parent.to_string(),
        format!("commit {hash}"),
        timestamp,
        Snapshot::new(),
    )
}

fn hashes(commits: &[Commit]) -> Vec<String> {
    commits.iter().map(|c| c.hash().clone()).collect()
}

#[test]
fn display_commit() {
    let mut blobs = Snapshot::new();
    blobs.insert(
        "b.txt".to_string(),
        Blob::from_hash("02d92c580d4ede6c80a878bdd9f3142d8f757be8".to_string()),
    );
    let commit = Commit::from_parts(
        "9f58103e11b63e5ccca06154ab8838be7639a574".to_string(),
        String::new(),
        String::new(),
        "first commit".to_string(),
        1755104961,
        blobs,
    );
    let mut store = CommitStore::new();
    store.save(commit).unwrap();

    let commit = store.load("9f58103e11b63e5ccca06154ab8838be7639a574").unwrap();
    let res = commit.to_text().into_bytes();

    let expected = b"\
        ===\n\
        commit 9f58103e11b63e5ccca06154ab8838be7639a574\n\
        Date: Wed, 13 Aug 2025 17:09:21 +0000\n\
        first commit\n\
        ";

    assert_eq!(res, expected);
}

#[test]
fn display_commit_at_the_epoch_and_at_the_last_second() {
    let first = plain(&hash_of(1), "", "", 0);
    assert!(first.to_text().contains("Date: Thu, 1 Jan 1970 00:00:00 +0000\n"));
    let last = plain(&hash_of(2), "", "", 253402300799);
    assert!(last.to_text().contains("Date: Fri, 31 Dec 9999 23:59:59 +0000\n"));
}

#[test]
fn commit_hash_covers_parents_message_and_time() {
    let index = Index::new();
    let base = Snapshot::new();
    let c = Commit::with_timestamp(String::new(), None, "msg".to_string(), &index, &base, 1000);
    // sha1 of "" + "" + "msg" + "1000"
    assert_eq!(c.hash(), "1b54d2c058f8ad4e63dca4908f1fd165292de70a");
    assert_eq!(c.parent(), "");
    assert_eq!(c.merge_parent(), "");
    assert_eq!(c.message(), "msg");
    assert_eq!(c.timestamp(), 1000);

    let later = Commit::with_timestamp(String::new(), None, "msg".to_string(), &index, &base, 1001);
    assert_ne!(later.hash(), c.hash());
    let merged = Commit::with_timestamp(
        String::new(),
        Some(hash_of(3)),
        "msg".to_string(),
        &index,
        &base,
        1000,
    );
    assert_ne!(merged.hash(), c.hash());
    assert_eq!(merged.merge_parent(), &hash_of(3));
}

#[test]
fn commit_hash_does_not_cover_the_snapshot() {
    let mut store = ObjectStore::new();
    let mut index = Index::new();
    index.stage("a.txt".to_string(), b"one", &mut store).unwrap();
    let base = Snapshot::new();
    let with_file =
        Commit::with_timestamp(String::new(), None, "msg".to_string(), &index, &base, 1000);
    let without =
        Commit::with_timestamp(String::new(), None, "msg".to_string(), &Index::new(), &base, 1000);
    assert_eq!(with_file.hash(), without.hash());
    assert!(with_file.tracks("a.txt"));
    assert!(!without.tracks("a.txt"));
}

#[test]
fn snapshot_applies_removals_then_additions() {
    let mut store = ObjectStore::new();
    let mut base = Snapshot::new();
    base.insert("keep.txt".to_string(), Blob::new(b"keep"));
    base.insert("gone.txt".to_string(), Blob::new(b"gone"));
    base.insert("edit.txt".to_string(), Blob::new(b"old"));

    let mut index = Index::new();
    index.stage("edit.txt".to_string(), b"new", &mut store).unwrap();
    index.stage("fresh.txt".to_string(), b"fresh", &mut store).unwrap();
    index.remove("gone.txt", false, true, true).unwrap();

    let c = Commit::with_timestamp(hash_of(1), None, "m".to_string(), &index, &base, 5);
    assert_eq!(c.blobs().len(), 3);
    assert_eq!(c.blobs().get("keep.txt").unwrap().hash(), Blob::new(b"keep").hash());
    assert_eq!(c.blobs().get("edit.txt").unwrap().hash(), Blob::new(b"new").hash());
    assert_eq!(c.blobs().get("fresh.txt").unwrap().hash(), Blob::new(b"fresh").hash());
    assert!(!c.tracks("gone.txt"));
    assert!(c.tracks("keep.txt"));
}

#[test]
fn new_commit_needs_its_parent() {
    let store = CommitStore::new();
    let index = Index::new();
    let missing = Commit::new(hash_of(9), None, "m".to_string(), &index, &store);
    assert!(matches!(missing, Err(Error::ObjectNotFound)));
    let first = Commit::new(String::new(), None, "m".to_string(), &index, &store).unwrap();
    assert_eq!(first.parent(), "");
    assert_eq!(first.hash().len(), 40);
}

#[test]
fn load_of_empty_hash_is_the_virtual_commit() {
    let store = CommitStore::new();
    let c = store.load("").unwrap();
    assert_eq!(c.hash(), "");
    assert_eq!(c.parent(), "");
    assert_eq!(c.merge_parent(), "");
    assert_eq!(c.message(), "");
    assert_eq!(c.timestamp(), 0);
    assert!(c.blobs().is_empty());
    assert!(get_commit_blobs("", &store).unwrap().is_empty());
}

#[test]
fn saved_commit_loads_back_equal() {
    let mut blobs = Snapshot::new();
    blobs.insert("a.txt".to_string(), Blob::new(b"a"));
    blobs.insert("dir/b.txt".to_string(), Blob::new(b"b"));
    let c = Commit::from_parts(
        hash_of(7),
        hash_of(6),
        hash_of(5),
        "a message\nwith two lines".to_string(),
        123456789,
        blobs,
    );
    let mut store = CommitStore::new();
    store.save(c).unwrap();
    let back = store.load(&hash_of(7)).unwrap();
    assert_eq!(back.hash(), &hash_of(7));
    assert_eq!(back.parent(), &hash_of(6));
    assert_eq!(back.merge_parent(), &hash_of(5));
    assert_eq!(back.message(), "a message\nwith two lines");
    assert_eq!(back.timestamp(), 123456789);
    assert_eq!(back.blobs().len(), 2);
    assert_eq!(back.blobs().get("a.txt").unwrap().hash(), Blob::new(b"a").hash());
    assert_eq!(back.blobs().get("dir/b.txt").unwrap().hash(), Blob::new(b"b").hash());
}

#[test]
fn save_refuses_collision_and_bad_hash() {
    let mut store = CommitStore::new();
    store.save(plain(&hash_of(1), "", "", 1)).unwrap();
    assert_eq!(store.save(plain(&hash_of(1), "", "", 2)), Err(Error::HashCollision));
    assert_eq!(store.load(&hash_of(1)).unwrap().timestamp(), 1);
    assert_eq!(store.save(plain("abc", "", "", 3)), Err(Error::CorruptObject));
    assert_eq!(store.save(plain("", "", "", 3)), Err(Error::CorruptObject));
    assert_eq!(store.len(), 1);
    assert!(matches!(store.load(&hash_of(2)), Err(Error::ObjectNotFound)));
}

#[test]
fn parent_hashes_of_each_shape() {
    let mut store = CommitStore::new();
    store.save(plain(&hash_of(1), "", "", 1)).unwrap();
    store.save(plain(&hash_of(2), &hash_of(1), "", 2)).unwrap();
    store.save(plain(&hash_of(3), "", &hash_of(1), 3)).unwrap();
    store.save(plain(&hash_of(4), &hash_of(2), &hash_of(3), 4)).unwrap();
    assert_eq!(get_parent_hashes("", &store), (None, None));
    assert_eq!(get_parent_hashes(&hash_of(9), &store), (None, None));
    assert_eq!(get_parent_hashes(&hash_of(1), &store), (None, None));
    assert_eq!(get_parent_hashes(&hash_of(2), &store), (Some(hash_of(1)), None));
    assert_eq!(get_parent_hashes(&hash_of(3), &store), (Some(hash_of(1)), None));
    assert_eq!(
        get_parent_hashes(&hash_of(4), &store),
        (Some(hash_of(2)), Some(hash_of(3)))
    );
}

#[test]
fn more_recent_of_two() {
    let mut store = CommitStore::new();
    store.save(plain(&hash_of(1), "", "", 10)).unwrap();
    store.save(plain(&hash_of(2), "", "", 20)).unwrap();
    store.save(plain(&hash_of(3), "", "", 20)).unwrap();
    assert_eq!(more_recent_hash(&hash_of(1), &hash_of(2), &store), Some(hash_of(2)));
    assert_eq!(more_recent_hash(&hash_of(2), &hash_of(1), &store), Some(hash_of(2)));
    // On a tie the second wins.
    assert_eq!(more_recent_hash(&hash_of(2), &hash_of(3), &store), Some(hash_of(3)));
    assert_eq!(more_recent_hash(&hash_of(1), &hash_of(9), &store), Some(hash_of(1)));
    assert_eq!(more_recent_hash(&hash_of(9), &hash_of(1), &store), Some(hash_of(1)));
    assert_eq!(more_recent_hash(&hash_of(8), &hash_of(9), &store), None);
}

#[test]
fn linear_history_most_recent_first() {
    let mut store = CommitStore::new();
    store.save(plain(&hash_of(1), "", "", 1)).unwrap();
    store.save(plain(&hash_of(2), &hash_of(1), "", 2)).unwrap();
    store.save(plain(&hash_of(3), &hash_of(2), "", 3)).unwrap();
    store.save(plain(&hash_of(4), &hash_of(3), "", 4)).unwrap();
    let head = store.load(&hash_of(4)).unwrap();
    let log = history(&head, &store);
    assert_eq!(hashes(&log), vec![hash_of(4), hash_of(3), hash_of(2), hash_of(1)]);
    for pair in log.windows(2) {
        assert_eq!(pair[0].parent(), pair[1].hash());
    }
}

#[test]
fn history_of_single_commit() {
    let mut store = CommitStore::new();
    store.save(plain(&hash_of(1), "", "", 1)).unwrap();
    let head = store.load(&hash_of(1)).unwrap();
    assert_eq!(hashes(&history(&head, &store)), vec![hash_of(1)]);
}

#[test]
fn history_before_any_commit_is_the_virtual_commit() {
    let store = CommitStore::new();
    let log = history(&Commit::empty(), &store);
    assert_eq!(hashes(&log), vec![String::new()]);
}

#[test]
fn history_through_a_merge_is_chronological() {
    //      1 (t=1)
    //     /      \
    //  2 (t=2)  3 (t=3)
    //     \      /
    //      4 (t=4), parent 2, merge parent 3
    let mut store = CommitStore::new();
    store.save(plain(&hash_of(1), "", "", 1)).unwrap();
    store.save(plain(&hash_of(2), &hash_of(1), "", 2)).unwrap();
    store.save(plain(&hash_of(3), &hash_of(1), "", 3)).unwrap();
    store.save(plain(&hash_of(4), &hash_of(2), &hash_of(3), 4)).unwrap();
    let head = store.load(&hash_of(4)).unwrap();
    let log = history(&head, &store);
    assert_eq!(hashes(&log), vec![hash_of(4), hash_of(3), hash_of(2), hash_of(1)]);
}

#[test]
fn walk_steps_one_commit_at_a_time() {
    let mut store = CommitStore::new();
    store.save(plain(&hash_of(1), "", "", 1)).unwrap();
    store.save(plain(&hash_of(2), &hash_of(1), "", 2)).unwrap();
    let head = store.load(&hash_of(2)).unwrap();
    let mut walk = head.iter(&store);
    assert_eq!(walk.next(&store).unwrap().hash(), &hash_of(2));
    assert_eq!(walk.next(&store).unwrap().hash(), &hash_of(1));
    assert!(walk.next(&store).is_none());
    assert!(walk.next(&store).is_none());
}

#[test]
fn history_stops_at_a_missing_commit() {
    let mut store = CommitStore::new();
    store.save(plain(&hash_of(2), &hash_of(1), "", 2)).unwrap();
    store.save(plain(&hash_of(3), &hash_of(2), "", 3)).unwrap();
    let head = store.load(&hash_of(3)).unwrap();
    // Commit 1 is not stored: the walk ends there.
    assert_eq!(hashes(&history(&head, &store)), vec![hash_of(3), hash_of(2)]);
}
