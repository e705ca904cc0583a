use gitlet_rs::blob::{Blob, ObjectStore};
use gitlet_rs::digest::{content_digest, decimal_bytes};
use gitlet_rs::error::Error;
use gitlet_rs::index::{action, Index, IndexAction};

#[test]
fn no_file_to_blob() {
    // A file that does not exist has no content to hash: staging it fails.
    let mut index = Index::new();
    let mut store = ObjectStore::new();
    let staged = action(IndexAction::Add, &mut index, "does/not/exist.txt", None, &mut store);
    assert!(staged.is_err());
    assert_eq!(staged, Err(Error::FileNotFound));
}

#[test]
fn create_blob_from_file() {
    let blob = Blob::new(b"Test text.");
    assert_eq!(blob.hash(), "79277d238f6bf9d31f1b9ff463ab5ba3bb23b105");
}

#[test]
fn write_blob_and_create_blob_from_object() {
    let mut store = ObjectStore::new();
    let blob = Blob::new(b"Test text.");
    blob.write_blob(&mut store, b"Test text.").unwrap();

    let first_hash = blob.hash().clone();
    let blob = Blob::retrieve(&first_hash, &store).unwrap();
    assert_eq!(&first_hash, blob.hash());
}

#[test]
fn digest_of_known_contents() {
    assert_eq!(content_digest(b"hello"), "aaf4c61ddcc5e8a2dabede0f3b482cd9aea9434d");
    assert_eq!(content_digest(b""), "da39a3ee5e6b4b0d3255bfef95601890afd80709");
}

#[test]
fn digest_is_forty_lowercase_hex_characters() {
    let digest = content_digest(&[0u8, 255, 16, 1]);
    assert_eq!(digest.len(), 40);
    assert!(digest.chars().all(|c| c.is_ascii_digit() || ('a'..='f').contains(&c)));
}

#[test]
fn digest_depends_on_content_alone() {
    // The same bytes give the same blob, wherever they are stored.
    let mut index = Index::new();
    let mut store = ObjectStore::new();
    index.stage("a.txt".to_string(), b"same", &mut store).unwrap();
    index.stage("dir/b.txt".to_string(), b"same", &mut store).unwrap();
    let a = index.additions().get("a.txt").unwrap().hash().clone();
    let b = index.additions().get("dir/b.txt").unwrap().hash().clone();
    assert_eq!(a, b);
    assert_eq!(store.len(), 1);
    assert_ne!(Blob::new(b"same").hash(), Blob::new(b"other").hash());
}

#[test]
fn round_trip_restores_content() {
    let contents: Vec<Vec<u8>> = vec![
        Vec::new(),
        b"hello".to_vec(),
        vec![0u8, 1, 2, 255, 254, 0, 0, 10, 13],
        vec![b'x'; 5000],
    ];
    for content in contents {
        let mut store = ObjectStore::new();
        let blob = Blob::new(&content);
        blob.write_blob(&mut store, &content).unwrap();
        assert_eq!(blob.read_blob(&store).unwrap(), content);
    }
}

#[test]
fn stored_object_is_compressed() {
    let content = vec![b'x'; 5000];
    let mut store = ObjectStore::new();
    let blob = Blob::new(&content);
    blob.write_blob(&mut store, &content).unwrap();
    let stored = store.get(blob.hash()).unwrap();
    assert_ne!(stored, &content);
    assert!(stored.len() < content.len());
    // A zlib stream at the default level starts with these two bytes.
    assert_eq!(&stored[..2], &[0x78, 0x9c]);
}

#[test]
fn read_missing_object_fails() {
    let store = ObjectStore::new();
    let blob = Blob::new(b"never written");
    assert_eq!(blob.read_blob(&store), Err(Error::ObjectNotFound));
}

#[test]
fn read_corrupt_object_fails() {
    let mut store = ObjectStore::new();
    let blob = Blob::new(b"content");
    blob.store_compressed(&mut store, b"this is no zlib stream".to_vec());
    assert_eq!(blob.read_blob(&store), Err(Error::CorruptObject));
}

#[test]
fn retrieve_missing_object_fails() {
    let store = ObjectStore::new();
    let found = Blob::retrieve("79277d238f6bf9d31f1b9ff463ab5ba3bb23b105", &store);
    assert!(matches!(found, Err(Error::ObjectNotFound)));
}

#[test]
fn content_equals_compares_digests() {
    let blob = Blob::new(b"Test text.");
    assert!(blob.hash_same_as_other_file(b"Test text."));
    assert!(!blob.hash_same_as_other_file(b"Test text"));
}

#[test]
fn delete_removes_object() {
    let mut store = ObjectStore::new();
    let blob = Blob::new(b"Test text.");
    blob.write_blob(&mut store, b"Test text.").unwrap();
    assert!(store.contains(blob.hash()));
    assert_eq!(blob.delete(&mut store), Ok(()));
    assert!(!store.contains(blob.hash()));
    assert_eq!(blob.delete(&mut store), Err(Error::ObjectNotFound));
}

#[test]
fn decimal_rendering() {
    assert_eq!(decimal_bytes(0), b"0".to_vec());
    assert_eq!(decimal_bytes(7), b"7".to_vec());
    assert_eq!(decimal_bytes(10), b"10".to_vec());
    assert_eq!(decimal_bytes(1755104961), b"1755104961".to_vec());
    assert_eq!(decimal_bytes(u64::MAX), b"18446744073709551615".to_vec());
}
