//! Blobs and the object store: file contents addressed by their digest and
//! kept zlib-compressed.

use crate::digest::{content_digest, digest_of, is_digest};
use crate::error::Error;
use crate::strmap::{without, StrMap};
use flate2::read::ZlibDecoder;
use flate2::write::ZlibEncoder;
use flate2::Compression;
use std::io::{Read, Write};
use vstd::prelude::*;

verus! {

/// The zlib stream that `flate2` produces for `data` at the default level,
/// or `None` where the encoder fails.
pub uninterp spec fn deflated_of(data: Seq<u8>) -> Option<Seq<u8>>;

/// What `flate2` decodes from a zlib stream, or `None` where it rejects it.
pub uninterp spec fn inflated_of(data: Seq<u8>) -> Option<Seq<u8>>;

/// Runs `flate2::write::ZlibEncoder` at `Compression::default()` over the
/// whole input, into memory. Taken on trust: the outcome, a stream or a
/// failure, is the encoder's for `data`. That the encoder succeeds is not
/// claimed.
#[verifier::external_body]
fn zlib_compress(data: &[u8]) -> (r: Option<Vec<u8>>)
    ensures
        r matches Some(v) ==> deflated_of(data@) == Some(v@),
        r is None ==> deflated_of(data@) is None,
{
    let mut encoder = ZlibEncoder::new(Vec::new(), Compression::default());
    match encoder.write_all(data) {
        Ok(()) => encoder.finish().ok(),
        Err(_) => None,
    }
}

/// Runs `flate2::read::ZlibDecoder` over the whole input, into memory. Taken
/// on trust: the outcome is the decoder's, and a stream that the encoder
/// produced for some bytes decodes to exactly those bytes.
#[verifier::external_body]
fn zlib_decompress(data: &[u8]) -> (r: Option<Vec<u8>>)
    ensures
        r matches Some(v) ==> inflated_of(data@) == Some(v@),
        r is None ==> inflated_of(data@) is None,
        r is None ==> forall|b: Seq<u8>| #[trigger] deflated_of(b) != Some(data@),
        r matches Some(v) ==> forall|b: Seq<u8>| #[trigger]
            deflated_of(b) == Some(data@) ==> v@ == b,
{
    let mut decoder = ZlibDecoder::new(data);
    let mut out: Vec<u8> = Vec::new();
    match decoder.read_to_end(&mut out) {
        Ok(_) => Some(out),
        Err(_) => None,
    }
}

/// The compressed objects of a repository, by digest.
#[derive(Debug)]
pub struct ObjectStore {
    objects: StrMap<Vec<u8>>,
}

impl View for ObjectStore {
    type V = Map<Seq<char>, Seq<u8>>;

    closed spec fn view(&self) -> Map<Seq<char>, Seq<u8>> {
        self.objects@.map_values(|v: Vec<u8>| v@)
    }
}

impl ObjectStore {
    /// Each digest is filed once.
    pub closed spec fn wf(&self) -> bool {
        self.objects.wf()
    }

    /// The digests in the order in which they were first stored.
    pub closed spec fn order(&self) -> Seq<Seq<char>> {
        self.objects.order()
    }

    /// The digests are distinct, and they are exactly the digests under
    /// which the view holds an object.
    pub proof fn lemma_order(&self)
        requires
            self.wf(),
        ensures
            self.order().no_duplicates(),
            self@.dom().finite(),
            self@.dom() == self.order().to_set(),
            forall|k: Seq<char>| self@.contains_key(k) <==> self.order().contains(k),
            forall|i: int|
                0 <= i < self.order().len() ==> self@.contains_key(#[trigger] self.order()[i]),
    {
        self.objects.lemma_order();
        assert(self@.dom() =~= self.objects@.dom());
    }

    pub fn new() -> (r: Self)
        ensures
            r.wf(),
            r@ == Map::<Seq<char>, Seq<u8>>::empty(),
            r.order() == Seq::<Seq<char>>::empty(),
    {
        let r = ObjectStore { objects: StrMap::new() };
        proof {
            assert(r@ =~= Map::<Seq<char>, Seq<u8>>::empty());
        }
        r
    }

    pub fn len(&self) -> (r: usize)
        requires
            self.wf(),
        ensures
            r == self.order().len(),
    {
        self.objects.len()
    }

    /// The digest at position `i` of the storing order.
    pub fn digest_at(&self, i: usize) -> (r: &String)
        requires
            self.wf(),
            i < self.order().len(),
        ensures
            r@ == self.order()[i as int],
            self@.contains_key(r@),
    {
        self.objects.key_at(i)
    }

    pub fn contains(&self, digest: &str) -> (r: bool)
        requires
            self.wf(),
        ensures
            r == self@.contains_key(digest@),
    {
        self.objects.contains_key(digest)
    }

    /// The compressed bytes stored under `digest`.
    pub fn get(&self, digest: &str) -> (r: Option<&Vec<u8>>)
        requires
            self.wf(),
        ensures
            match r {
                Some(v) => self@.contains_key(digest@) && v@ == self@[digest@],
                None => !self@.contains_key(digest@),
            },
    {
        self.objects.get(digest)
    }

    /// Stores compressed bytes under `digest`, replacing what was there.
    pub fn put(&mut self, digest: String, compressed: Vec<u8>)
        requires
            old(self).wf(),
        ensures
            final(self).wf(),
            final(self)@ == old(self)@.insert(digest@, compressed@),
            final(self).order() == if old(self)@.contains_key(digest@) {
                old(self).order()
            } else {
                old(self).order().push(digest@)
            },
    {
        proof {
            assert(self@.dom() =~= self.objects@.dom());
        }
        self.objects.insert(digest, compressed);
        proof {
            assert(self@ =~= old(self)@.insert(digest@, compressed@));
        }
    }

    /// Drops the object stored under `digest`; tells whether there was one.
    pub fn delete(&mut self, digest: &str) -> (r: bool)
        requires
            old(self).wf(),
        ensures
            final(self).wf(),
            final(self)@ == old(self)@.remove(digest@),
            final(self).order() == without(old(self).order(), digest@),
            r == old(self)@.contains_key(digest@),
    {
        let removed = self.objects.remove(digest);
        proof {
            assert(self@ =~= old(self)@.remove(digest@));
        }
        removed.is_some()
    }
}

/// The handle of one file's content: its digest.
#[derive(Debug)]
pub struct Blob {
    hash: String,
}

impl View for Blob {
    type V = Seq<char>;

    closed spec fn view(&self) -> Seq<char> {
        self.hash@
    }
}

impl Clone for Blob {
    fn clone(&self) -> (r: Self)
        ensures
            r@ == self@,
    {
        Blob { hash: self.hash.clone() }
    }
}

/// What writing `content` under `digest` yields: the store with the
/// compressed content filed there, unless the encoder fails.
pub open spec fn written(
    store: Map<Seq<char>, Seq<u8>>,
    digest: Seq<char>,
    content: Seq<u8>,
) -> Result<Map<Seq<char>, Seq<u8>>, Error> {
    match deflated_of(content) {
        Some(compressed) => Ok(store.insert(digest, compressed)),
        None => Err(Error::IoError),
    }
}

/// What reading the object under `digest` yields.
pub open spec fn read_result(store: Map<Seq<char>, Seq<u8>>, digest: Seq<char>) -> Result<
    Seq<u8>,
    Error,
> {
    if !store.contains_key(digest) {
        Err(Error::ObjectNotFound)
    } else {
        match inflated_of(store[digest]) {
            Some(content) => Ok(content),
            None => Err(Error::CorruptObject),
        }
    }
}

impl Blob {
    /// The blob of a file with this content. Nothing is stored yet.
    pub fn new(content: &[u8]) -> (r: Self)
        ensures
            r@ == digest_of(content@),
            is_digest(r@),
    {
        Blob { hash: content_digest(content) }
    }

    /// The handle for a digest that is known from a record.
    pub fn from_hash(hash: String) -> (r: Self)
        ensures
            r@ == hash@,
    {
        Blob { hash }
    }

    pub fn hash(&self) -> (r: &String)
        ensures
            r@ == self@,
    {
        &self.hash
    }

    /// The blob for `hash`, provided the store holds an object under it.
    pub fn retrieve(hash: &str, store: &ObjectStore) -> (r: Result<Self, Error>)
        requires
            store.wf(),
        ensures
            match r {
                Ok(blob) => store@.contains_key(hash@) && blob@ == hash@,
                Err(e) => !store@.contains_key(hash@) && e == Error::ObjectNotFound,
            },
    {
        if store.contains(hash) {
            Ok(Blob { hash: hash.to_owned() })
        } else {
            Err(Error::ObjectNotFound)
        }
    }

    /// Stores already compressed bytes as this blob's object.
    pub fn store_compressed(&self, store: &mut ObjectStore, compressed: Vec<u8>)
        requires
            old(store).wf(),
        ensures
            final(store).wf(),
            final(store)@ == old(store)@.insert(self@, compressed@),
    {
        store.put(self.hash.clone(), compressed);
    }

    /// Compresses `content` and stores it as this blob's object. It fails
    /// exactly where the encoder does, and then leaves the store as it was.
    pub fn write_blob(&self, store: &mut ObjectStore, content: &[u8]) -> (r: Result<(), Error>)
        requires
            old(store).wf(),
        ensures
            final(store).wf(),
            match r {
                Ok(()) => written(old(store)@, self@, content@) == Ok::<
                    Map<Seq<char>, Seq<u8>>,
                    Error,
                >(final(store)@),
                Err(e) => {
                    &&& written(old(store)@, self@, content@) == Err::<
                        Map<Seq<char>, Seq<u8>>,
                        Error,
                    >(e)
                    &&& final(store)@ == old(store)@
                },
            },
    {
        match zlib_compress(content) {
            Some(compressed) => {
                self.store_compressed(store, compressed);
                Ok(())
            },
            None => Err(Error::IoError),
        }
    }

    /// Decompresses this blob's object. An object that was written from some
    /// content reads back as exactly that content.
    pub fn read_blob(&self, store: &ObjectStore) -> (r: Result<Vec<u8>, Error>)
        requires
            store.wf(),
        ensures
            match r {
                Ok(content) => read_result(store@, self@) == Ok::<Seq<u8>, Error>(content@),
                Err(e) => read_result(store@, self@) == Err::<Seq<u8>, Error>(e),
            },
            forall|b: Seq<u8>|
                store@.contains_key(self@) && #[trigger] deflated_of(b) == Some(store@[self@])
                    ==> (r matches Ok(content) && content@ == b),
    {
        match store.get(self.hash.as_str()) {
            None => Err(Error::ObjectNotFound),
            Some(compressed) => match zlib_decompress(compressed.as_slice()) {
                Some(content) => Ok(content),
                None => Err(Error::CorruptObject),
            },
        }
    }

    /// Whether `content` is the content this blob stands for, judged by
    /// digest alone.
    pub fn hash_same_as_other_file(&self, content: &[u8]) -> (r: bool)
        ensures
            r == (self@ == digest_of(content@)),
    {
        let other = content_digest(content);
        self.hash == other
    }

    /// Removes this blob's object, whether or not a commit still refers to it.
    pub fn delete(&self, store: &mut ObjectStore) -> (r: Result<(), Error>)
        requires
            old(store).wf(),
        ensures
            final(store).wf(),
            final(store)@ == old(store)@.remove(self@),
            match r {
                Ok(()) => old(store)@.contains_key(self@),
                Err(e) => !old(store)@.contains_key(self@) && e == Error::ObjectNotFound,
            },
    {
        if store.delete(self.hash.as_str()) {
            Ok(())
        } else {
            Err(Error::ObjectNotFound)
        }
    }
}

} // verus!
