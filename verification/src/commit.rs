//! Commits and the commit graph: immutable snapshots identified by a hash of
//! their ancestry, message and time, and the walk back through history.

use crate::digest::{append_bytes, content_digest, decimal_bytes, decimal_of, digest_of};
use crate::error::Error;
use crate::index::{Index, IndexView};
use crate::snapshot::Snapshot;
use crate::strmap::{lemma_prefix_step, StrMap};
use chrono::DateTime;
use std::time::{Duration, SystemTime, UNIX_EPOCH};
use vstd::prelude::*;
use vstd::string::StringExecFns;
use vstd::utf8::encode_utf8;

verus! {

/// The last second for which a date can be rendered: the end of the year
/// 9999.
pub const MAX_DATE_SECS: u64 = 253402300799;

/// What a commit records.
pub struct CommitView {
    pub hash: Seq<char>,
    /// Empty where the commit has no parent.
    pub parent: Seq<char>,
    /// Empty where the commit is no merge.
    pub merge_parent: Seq<char>,
    pub message: Seq<char>,
    /// Seconds since the epoch.
    pub timestamp: u64,
    /// The digest of each path that the commit holds.
    pub blobs: Map<Seq<char>, Seq<char>>,
}

/// One snapshot of the working tree with its place in history.
#[derive(Debug)]
pub struct Commit {
    hash: String,
    parent: String,
    merge_parent: String,
    message: String,
    timestamp: u64,
    blobs: Snapshot,
}

impl View for Commit {
    type V = CommitView;

    closed spec fn view(&self) -> CommitView {
        CommitView {
            hash: self.hash@,
            parent: self.parent@,
            merge_parent: self.merge_parent@,
            message: self.message@,
            timestamp: self.timestamp,
            blobs: self.blobs@,
        }
    }
}

/// The date of a count of seconds since the epoch in RFC 2822 form, as
/// `chrono` renders it in UTC.
pub uninterp spec fn rfc2822_of(secs: int) -> Seq<char>;

/// Calls `DateTime::from_timestamp` and `DateTime::to_rfc2822` of `chrono`.
/// Taken on trust: up to the last second of the year 9999 the first yields a
/// date and the second renders it without panicking.
#[verifier::external_body]
fn rfc2822_date(secs: u64) -> (r: Option<String>)
    requires
        secs <= MAX_DATE_SECS,
    ensures
        r is Some,
        r matches Some(s) ==> s@ == rfc2822_of(secs as int),
{
    match DateTime::from_timestamp(secs as i64, 0) {
        Some(date) => Some(date.to_rfc2822()),
        None => None,
    }
}

/// A point in time as the system clock gives it.
#[verifier::external_type_specification]
#[verifier::external_body]
pub struct ExSystemTime(SystemTime);

/// Calls `SystemTime::now`. Nothing is known of the value.
#[verifier::external_body]
fn clock_now() -> (r: SystemTime) {
    SystemTime::now()
}

/// Calls `SystemTime::duration_since` with the epoch: the time from the
/// epoch to `time`, or `None` where `time` lies before it. Nothing is
/// claimed of the value.
#[verifier::external_body]
fn since_epoch(time: &SystemTime) -> (r: Option<Duration>) {
    match time.duration_since(UNIX_EPOCH) {
        Ok(elapsed) => Some(elapsed),
        Err(_) => None,
    }
}

/// Calls `Duration::as_secs`: the whole seconds of a span of time. Nothing
/// is claimed of the value.
#[verifier::external_body]
fn whole_secs(span: &Duration) -> (r: u64) {
    span.as_secs()
}

/// The time that the system clock shows, in whole seconds since the
/// epoch; `None` where the clock is set before it.
pub(crate) fn now_secs() -> (r: Option<u64>) {
    let now = clock_now();
    match since_epoch(&now) {
        Some(elapsed) => Some(whole_secs(&elapsed)),
        None => None,
    }
}

/// The virtual commit before all history: nothing recorded, nothing held.
pub open spec fn empty_commit() -> CommitView {
    CommitView {
        hash: Seq::empty(),
        parent: Seq::empty(),
        merge_parent: Seq::empty(),
        message: Seq::empty(),
        timestamp: 0,
        blobs: Map::empty(),
    }
}

/// The hash of a commit: the digest of both parent hashes, the message
/// and the decimal timestamp, in this order. The snapshot has no part in it.
pub open spec fn commit_digest(
    parent: Seq<char>,
    merge_parent: Seq<char>,
    message: Seq<char>,
    timestamp: u64,
) -> Seq<char> {
    digest_of(
        encode_utf8(parent) + encode_utf8(merge_parent) + encode_utf8(message) + decimal_of(
            timestamp as nat,
        ),
    )
}

/// The snapshot of a new commit: the parent's paths without the staged
/// removals, overlaid with the staged additions.
pub open spec fn snapshot_of(base: Map<Seq<char>, Seq<char>>, ix: IndexView) -> Map<
    Seq<char>,
    Seq<char>,
> {
    base.remove_keys(ix.removals).union_prefer_right(ix.additions)
}

/// The commit that staging area `ix` makes on top of a parent that holds
/// `base`.
pub open spec fn commit_of(
    parent: Seq<char>,
    merge_parent: Seq<char>,
    message: Seq<char>,
    timestamp: u64,
    base: Map<Seq<char>, Seq<char>>,
    ix: IndexView,
) -> CommitView {
    CommitView {
        hash: commit_digest(parent, merge_parent, message, timestamp),
        parent,
        merge_parent,
        message,
        timestamp,
        blobs: snapshot_of(base, ix),
    }
}

/// The log entry of a commit.
pub open spec fn commit_text(c: CommitView) -> Seq<char> {
    "===\ncommit "@ + c.hash + "\nDate: "@ + rfc2822_of(c.timestamp as int) + "\n"@ + c.message
        + "\n"@
}

/// Applies a staging area to the paths of a parent commit.
pub fn build_snapshot(base: &Snapshot, index: &Index) -> (r: Snapshot)
    requires
        base.wf(),
        index.wf(),
    ensures
        r.wf(),
        r@ == snapshot_of(base@, index@),
{
    let mut out = Snapshot::new();
    let removals = index.removals();
    let additions = index.additions();
    let mut i: usize = 0;
    proof {
        base.lemma_order();
        additions.lemma_order();
    }
    while i < base.len()
        invariant
            base.wf(),
            out.wf(),
            removals.wf(),
            removals@ == index@.removals,
            i <= base.order().len(),
            forall|k: Seq<char>| #[trigger]
                out@.contains_key(k) <==> (base.order().subrange(0, i as int).contains(k)
                    && !removals@.contains(k)),
            forall|k: Seq<char>| #[trigger] out@.contains_key(k) ==> out@[k] == base@[k],
        decreases base.order().len() - i,
    {
        let path = base.path_at(i);
        proof {
            lemma_prefix_step(base.order(), i as int);
        }
        if !removals.contains(path.as_str()) {
            out.insert(path.clone(), base.blob_at(i).clone());
        }
        i = i + 1;
    }
    proof {
        assert(base.order().subrange(0, i as int) =~= base.order());
    }
    let ghost kept = out@;
    assert(kept =~= base@.remove_keys(index@.removals));
    let mut j: usize = 0;
    while j < additions.len()
        invariant
            additions.wf(),
            out.wf(),
            additions@ == index@.additions,
            j <= additions.order().len(),
            forall|k: Seq<char>| #[trigger]
                out@.contains_key(k) <==> (kept.contains_key(k) || additions.order().subrange(
                    0,
                    j as int,
                ).contains(k)),
            forall|k: Seq<char>| #[trigger]
                out@.contains_key(k) ==> out@[k] == (if additions.order().subrange(
                    0,
                    j as int,
                ).contains(k) {
                    additions@[k]
                } else {
                    kept[k]
                }),
        decreases additions.order().len() - j,
    {
        proof {
            lemma_prefix_step(additions.order(), j as int);
        }
        out.insert(additions.path_at(j).clone(), additions.blob_at(j).clone());
        j = j + 1;
    }
    proof {
        assert(additions.order().subrange(0, j as int) =~= additions.order());
        assert(out@ =~= kept.union_prefer_right(index@.additions));
    }
    out
}

impl Commit {
    /// The snapshot lists each path once.
    pub closed spec fn wf(&self) -> bool {
        self.blobs.wf()
    }

    /// The virtual commit before all history.
    pub fn empty() -> (r: Self)
        ensures
            r.wf(),
            r@ == empty_commit(),
            r.blobs_order() == Seq::<Seq<char>>::empty(),
    {
        Commit {
            hash: String::new(),
            parent: String::new(),
            merge_parent: String::new(),
            message: String::new(),
            timestamp: 0,
            blobs: Snapshot::new(),
        }
    }

    /// A commit with exactly these fields, as read from a record.
    pub fn from_parts(
        hash: String,
        parent: String,
        merge_parent: String,
        message: String,
        timestamp: u64,
        blobs: Snapshot,
    ) -> (r: Self)
        requires
            blobs.wf(),
        ensures
            r.wf(),
            r@ == (CommitView {
                hash: hash@,
                parent: parent@,
                merge_parent: merge_parent@,
                message: message@,
                timestamp,
                blobs: blobs@,
            }),
            r.blobs_order() == blobs.order(),
    {
        Commit { hash, parent, merge_parent, message, timestamp, blobs }
    }

    /// The commit made at `timestamp` from the staging area on top of a
    /// parent that holds `base`.
    pub fn with_timestamp(
        parent: String,
        merge_parent: Option<String>,
        message: String,
        index: &Index,
        base: &Snapshot,
        timestamp: u64,
    ) -> (r: Self)
        requires
            index.wf(),
            base.wf(),
        ensures
            r.wf(),
            r@ == commit_of(
                parent@,
                match merge_parent {
                    Some(m) => m@,
                    None => Seq::empty(),
                },
                message@,
                timestamp,
                base@,
                index@,
            ),
    {
        let merge_parent = match merge_parent {
            Some(m) => m,
            None => String::new(),
        };
        let blobs = build_snapshot(base, index);
        let mut bytes: Vec<u8> = Vec::new();
        append_bytes(&mut bytes, parent.as_str().as_bytes());
        append_bytes(&mut bytes, merge_parent.as_str().as_bytes());
        append_bytes(&mut bytes, message.as_str().as_bytes());
        let stamp = decimal_bytes(timestamp);
        append_bytes(&mut bytes, stamp.as_slice());
        proof {
            assert(bytes@ =~= encode_utf8(parent@) + encode_utf8(merge_parent@) + encode_utf8(
                message@,
            ) + decimal_of(timestamp as nat));
        }
        let hash = content_digest(bytes.as_slice());
        Commit { hash, parent, merge_parent, message, timestamp, blobs }
    }

    /// Makes the commit that the staging area describes on top of `parent`,
    /// stamped with the current time. The parent's snapshot is read from
    /// `store`; an empty `parent` stands for the start of history.
    pub fn new(
        parent: String,
        merge_parent: Option<String>,
        message: String,
        index: &Index,
        store: &CommitStore,
    ) -> (r: Result<Self, Error>)
        requires
            index.wf(),
            store.wf(),
        ensures
            match r {
                Ok(c) => {
                    &&& c.wf()
                    &&& load_result(store@, parent@) is Ok
                    &&& c@ == commit_of(
                        parent@,
                        match merge_parent {
                            Some(m) => m@,
                            None => Seq::empty(),
                        },
                        message@,
                        c@.timestamp,
                        load_result(store@, parent@)->Ok_0.blobs,
                        index@,
                    )
                },
                Err(e) => {
                    ||| load_result(store@, parent@) == Err::<CommitView, Error>(e)
                    ||| load_result(store@, parent@) is Ok && e == Error::ClockUnavailable
                },
            },
    {
        let base = match get_commit_blobs(parent.as_str(), store) {
            Ok(base) => base,
            Err(e) => { return Err(e); },
        };
        match now_secs() {
            Some(timestamp) => Ok(
                Commit::with_timestamp(parent, merge_parent, message, index, &base, timestamp),
            ),
            None => Err(Error::ClockUnavailable),
        }
    }

    /// The paths of the snapshot in the order in which they entered it.
    pub closed spec fn blobs_order(&self) -> Seq<Seq<char>> {
        self.blobs.order()
    }

    pub fn hash(&self) -> (r: &String)
        ensures
            r@ == self@.hash,
    {
        &self.hash
    }

    pub fn parent(&self) -> (r: &String)
        ensures
            r@ == self@.parent,
    {
        &self.parent
    }

    pub fn merge_parent(&self) -> (r: &String)
        ensures
            r@ == self@.merge_parent,
    {
        &self.merge_parent
    }

    pub fn message(&self) -> (r: &String)
        ensures
            r@ == self@.message,
    {
        &self.message
    }

    pub fn timestamp(&self) -> (r: u64)
        ensures
            r == self@.timestamp,
    {
        self.timestamp
    }

    /// The snapshot: each path with its blob.
    pub fn blobs(&self) -> (r: &Snapshot)
        requires
            self.wf(),
        ensures
            r.wf(),
            r@ == self@.blobs,
            r.order() == self.blobs_order(),
    {
        &self.blobs
    }

    /// Whether the commit holds a version of `path`.
    pub fn tracks(&self, path: &str) -> (r: bool)
        requires
            self.wf(),
        ensures
            r == self@.blobs.contains_key(path@),
    {
        self.blobs.contains_key(path)
    }

    /// A copy equal in every field.
    pub fn duplicate(&self) -> (r: Self)
        requires
            self.wf(),
        ensures
            r.wf(),
            r@ == self@,
            r.blobs_order() == self.blobs_order(),
    {
        Commit {
            hash: self.hash.clone(),
            parent: self.parent.clone(),
            merge_parent: self.merge_parent.clone(),
            message: self.message.clone(),
            timestamp: self.timestamp,
            blobs: self.blobs.duplicate(),
        }
    }

    /// The log entry of this commit: a separator, the hash, the date and
    /// the message, each on a line of its own.
    pub fn to_text(&self) -> (r: String)
        requires
            self@.timestamp <= MAX_DATE_SECS,
        ensures
            r@ == commit_text(self@),
    {
        let mut buf = String::from_str("===\ncommit ");
        buf.append(self.hash.as_str());
        buf.append("\nDate: ");
        match rfc2822_date(self.timestamp) {
            Some(date) => {
                buf.append(date.as_str());
            },
            None => {},
        }
        buf.append("\n");
        buf.append(self.message.as_str());
        buf.append("\n");
        buf
    }

    /// The walk through history that starts at this commit.
    pub fn iter(&self, store: &CommitStore) -> (r: CommitIter)
        requires
            store.wf(),
        ensures
            r@ == start_state(store@, self@.hash),
    {
        let (parent_hash, merge_hash) = get_parent_hashes(self.hash.as_str(), store);
        CommitIter { current_hash: Some(self.hash.clone()), parent_hash, merge_hash }
    }
}

/// What loading `hash` yields: the virtual empty commit for the empty hash,
/// else the stored commit, else a failure.
pub open spec fn load_result(store: Map<Seq<char>, CommitView>, hash: Seq<char>) -> Result<
    CommitView,
    Error,
> {
    if hash.len() == 0 {
        Ok(empty_commit())
    } else if store.contains_key(hash) {
        Ok(store[hash])
    } else {
        Err(Error::ObjectNotFound)
    }
}

/// What saving a commit yields: the store with the commit filed under its
/// hash, unless the hash has the wrong length or is taken.
pub open spec fn save_result(store: Map<Seq<char>, CommitView>, c: CommitView) -> Result<
    Map<Seq<char>, CommitView>,
    Error,
> {
    if c.hash.len() != 40 {
        Err(Error::CorruptObject)
    } else if store.contains_key(c.hash) {
        Err(Error::HashCollision)
    } else {
        Ok(store.insert(c.hash, c))
    }
}

/// The commits of a repository, by hash.
#[derive(Debug)]
pub struct CommitStore {
    commits: StrMap<Commit>,
}

impl View for CommitStore {
    type V = Map<Seq<char>, CommitView>;

    closed spec fn view(&self) -> Map<Seq<char>, CommitView> {
        self.commits@.map_values(|c: Commit| c@)
    }
}

impl CommitStore {
    /// Every commit is filed under its own hash, which has 40 characters.
    pub closed spec fn wf(&self) -> bool {
        &&& self.commits.wf()
        &&& forall|k: Seq<char>| #[trigger]
            self.commits@.contains_key(k) ==> self.commits@[k].wf() && self.commits@[k]@.hash == k
                && k.len() == 40
    }

    /// The hashes in the order in which the commits were saved.
    pub closed spec fn order(&self) -> Seq<Seq<char>> {
        self.commits.order()
    }

    /// The paths that the commit with this hash holds, in their order; none
    /// for a hash that is not stored.
    pub closed spec fn blobs_order(&self, hash: Seq<char>) -> Seq<Seq<char>> {
        if hash.len() != 0 && self.commits@.contains_key(hash) {
            self.commits@[hash].blobs_order()
        } else {
            Seq::empty()
        }
    }

    /// The hashes are distinct, and they are exactly the hashes under
    /// which the view holds a commit.
    pub proof fn lemma_order(&self)
        requires
            self.wf(),
        ensures
            self.order().no_duplicates(),
            self@.dom().finite(),
            self@.dom() == self.order().to_set(),
            forall|k: Seq<char>| self@.contains_key(k) <==> self.order().contains(k),
            forall|i: int|
                0 <= i < self.order().len() ==> self@.contains_key(#[trigger] self.order()[i]),
    {
        self.commits.lemma_order();
        assert(self@.dom() =~= self.commits@.dom());
    }

    /// What well-formedness says of the view.
    pub proof fn lemma_filed(&self)
        requires
            self.wf(),
        ensures
            forall|k: Seq<char>| #[trigger]
                self@.contains_key(k) ==> self@[k].hash == k && k.len() == 40,
            forall|i: int|
                0 <= i < self.order().len() ==> self@.contains_key(#[trigger] self.order()[i]),
    {
        self.commits.lemma_order();
    }

    pub fn new() -> (r: Self)
        ensures
            r.wf(),
            r@ == Map::<Seq<char>, CommitView>::empty(),
            r.order() == Seq::<Seq<char>>::empty(),
            forall|hash: Seq<char>| #[trigger] r.blobs_order(hash) == Seq::<Seq<char>>::empty(),
    {
        let r = CommitStore { commits: StrMap::new() };
        proof {
            assert(r@ =~= Map::<Seq<char>, CommitView>::empty());
        }
        r
    }

    pub fn len(&self) -> (r: usize)
        requires
            self.wf(),
        ensures
            r == self.order().len(),
    {
        self.commits.len()
    }

    /// The commit at position `i` of the saving order.
    pub fn commit_at(&self, i: usize) -> (r: &Commit)
        requires
            self.wf(),
            i < self.order().len(),
        ensures
            r.wf(),
            self@.contains_key(self.order()[i as int]),
            r@ == self@[self.order()[i as int]],
    {
        self.commits.value_at(i)
    }

    /// The stored commit with this hash.
    pub fn get(&self, hash: &str) -> (r: Option<&Commit>)
        requires
            self.wf(),
        ensures
            match r {
                Some(c) => {
                    &&& self@.contains_key(hash@)
                    &&& c@ == self@[hash@]
                    &&& c.wf()
                    &&& c.blobs_order() == self.blobs_order(hash@)
                },
                None => !self@.contains_key(hash@),
            },
    {
        self.commits.get(hash)
    }

    /// Loads the commit with this hash. The empty hash loads the virtual
    /// commit before all history.
    pub fn load(&self, hash: &str) -> (r: Result<Commit, Error>)
        requires
            self.wf(),
        ensures
            match r {
                Ok(c) => c.wf() && load_result(self@, hash@) == Ok::<CommitView, Error>(c@),
                Err(e) => load_result(self@, hash@) == Err::<CommitView, Error>(e),
            },
    {
        if hash.is_empty() {
            return Ok(Commit::empty());
        }
        match self.commits.get(hash) {
            Some(c) => Ok(c.duplicate()),
            None => Err(Error::ObjectNotFound),
        }
    }

    /// Files a commit under its hash. A stored commit is never replaced.
    pub fn save(&mut self, commit: Commit) -> (r: Result<(), Error>)
        requires
            old(self).wf(),
            commit.wf(),
        ensures
            final(self).wf(),
            match r {
                Ok(()) => {
                    &&& save_result(old(self)@, commit@) == Ok::<
                        Map<Seq<char>, CommitView>,
                        Error,
                    >(final(self)@)
                    &&& final(self).order() == old(self).order().push(commit@.hash)
                },
                Err(e) => {
                    &&& save_result(old(self)@, commit@) == Err::<
                        Map<Seq<char>, CommitView>,
                        Error,
                    >(e)
                    &&& final(self)@ == old(self)@
                    &&& final(self).order() == old(self).order()
                },
            },
    {
        if commit.hash.as_str().unicode_len() != 40 {
            return Err(Error::CorruptObject);
        }
        if self.commits.contains_key(commit.hash.as_str()) {
            return Err(Error::HashCollision);
        }
        let key = commit.hash.clone();
        self.commits.insert(key, commit);
        proof {
            assert(self@ =~= old(self)@.insert(commit@.hash, commit@));
        }
        Ok(())
    }
}

/// The snapshot of the commit with this hash.
pub fn get_commit_blobs(commit_id: &str, store: &CommitStore) -> (r: Result<Snapshot, Error>)
    requires
        store.wf(),
    ensures
        match r {
            Ok(blobs) => {
                &&& blobs.wf()
                &&& load_result(store@, commit_id@) is Ok
                &&& blobs@ == load_result(store@, commit_id@)->Ok_0.blobs
                &&& blobs.order() == store.blobs_order(commit_id@)
            },
            Err(e) => load_result(store@, commit_id@) == Err::<CommitView, Error>(e),
        },
{
    if commit_id.is_empty() {
        return Ok(Snapshot::new());
    }
    match store.get(commit_id) {
        Some(c) => Ok(c.blobs().duplicate()),
        None => Err(Error::ObjectNotFound),
    }
}

/// A position of the walk through history: the commit to emit next, and the
/// two frontiers behind it.
pub struct IterState {
    pub current: Option<Seq<char>>,
    pub parent: Option<Seq<char>>,
    pub merge: Option<Seq<char>>,
}

/// The walk through history, most recent commit first.
#[derive(Debug)]
pub struct CommitIter {
    current_hash: Option<String>,
    parent_hash: Option<String>,
    merge_hash: Option<String>,
}

/// The characters of an optional string.
pub open spec fn opt_text(o: Option<String>) -> Option<Seq<char>> {
    match o {
        Some(s) => Some(s@),
        None => None,
    }
}

impl View for CommitIter {
    type V = IterState;

    closed spec fn view(&self) -> IterState {
        IterState {
            current: opt_text(self.current_hash),
            parent: opt_text(self.parent_hash),
            merge: opt_text(self.merge_hash),
        }
    }
}

/// The frontiers behind the commit with this hash: its parents that are
/// set, the parent first. A commit that cannot be loaded has none.
pub open spec fn parents_of(store: Map<Seq<char>, CommitView>, hash: Seq<char>) -> (
    Option<Seq<char>>,
    Option<Seq<char>>,
) {
    if hash.len() == 0 || !store.contains_key(hash) {
        (None, None)
    } else {
        let c = store[hash];
        if c.parent.len() == 0 && c.merge_parent.len() == 0 {
            (None, None)
        } else if c.parent.len() == 0 {
            (Some(c.merge_parent), None)
        } else if c.merge_parent.len() == 0 {
            (Some(c.parent), None)
        } else {
            (Some(c.parent), Some(c.merge_parent))
        }
    }
}

/// Of two commits the hash of the one with the later timestamp, the second
/// on a tie. A commit that cannot be loaded loses to one that can.
pub open spec fn more_recent(
    store: Map<Seq<char>, CommitView>,
    parent: Seq<char>,
    merge: Seq<char>,
) -> Option<Seq<char>> {
    match (load_result(store, parent), load_result(store, merge)) {
        (Ok(p), Ok(m)) => if p.timestamp > m.timestamp {
            Some(p.hash)
        } else {
            Some(m.hash)
        },
        (Ok(p), Err(_)) => Some(p.hash),
        (Err(_), Ok(m)) => Some(m.hash),
        (Err(_), Err(_)) => None,
    }
}

/// Where a walk that starts at `hash` stands before its first step.
pub open spec fn start_state(store: Map<Seq<char>, CommitView>, hash: Seq<char>) -> IterState {
    IterState {
        current: Some(hash),
        parent: parents_of(store, hash).0,
        merge: parents_of(store, hash).1,
    }
}

/// The walk that has ended.
pub open spec fn ended() -> IterState {
    IterState { current: None, parent: None, merge: None }
}

/// The position after the current commit is emitted.
pub open spec fn advance(store: Map<Seq<char>, CommitView>, s: IterState) -> IterState {
    match (s.parent, s.merge) {
        (None, None) => ended(),
        (None, Some(h)) => start_state(store, h),
        (Some(h), None) => start_state(store, h),
        (Some(p), Some(m)) => if p == m {
            start_state(store, p)
        } else {
            match more_recent(store, p, m) {
                Some(h) => if h == p {
                    IterState {
                        current: Some(p),
                        parent: parents_of(store, p).0,
                        merge: Some(m),
                    }
                } else {
                    IterState {
                        current: Some(m),
                        parent: Some(p),
                        merge: parents_of(store, m).0,
                    }
                },
                None => ended(),
            }
        },
    }
}

/// The commit that a step emits, if the walk has not ended and the current
/// commit can be loaded.
pub open spec fn emitted(store: Map<Seq<char>, CommitView>, s: IterState) -> Option<CommitView> {
    match s.current {
        None => None,
        Some(h) => match load_result(store, h) {
            Ok(c) => Some(c),
            Err(_) => None,
        },
    }
}

/// The commits that a walk emits from position `s` until it emits nothing,
/// at most `fuel` of them.
pub open spec fn walk(store: Map<Seq<char>, CommitView>, s: IterState, fuel: nat) -> Seq<
    CommitView,
>
    decreases fuel,
{
    if fuel == 0 {
        Seq::empty()
    } else {
        match emitted(store, s) {
            None => Seq::empty(),
            Some(c) => seq![c] + walk(store, advance(store, s), (fuel - 1) as nat),
        }
    }
}

/// The views of a sequence of commits.
pub open spec fn commit_views(v: Seq<Commit>) -> Seq<CommitView> {
    v.map_values(|c: Commit| c@)
}

fn clone_opt(o: &Option<String>) -> (r: Option<String>)
    ensures
        opt_text(r) == opt_text(*o),
{
    match o {
        Some(s) => Some(s.clone()),
        None => None,
    }
}

/// The frontiers behind the commit with this hash.
pub fn get_parent_hashes(hash: &str, store: &CommitStore) -> (r: (Option<String>, Option<String>))
    requires
        store.wf(),
    ensures
        (opt_text(r.0), opt_text(r.1)) == parents_of(store@, hash@),
{
    if hash.is_empty() {
        return (None, None);
    }
    let commit = match store.get(hash) {
        Some(c) => c,
        None => { return (None, None); },
    };
    let no_parent = commit.parent.as_str().is_empty();
    let no_merge = commit.merge_parent.as_str().is_empty();
    if no_parent && no_merge {
        (None, None)
    } else if no_parent {
        (Some(commit.merge_parent.clone()), None)
    } else if no_merge {
        (Some(commit.parent.clone()), None)
    } else {
        (Some(commit.parent.clone()), Some(commit.merge_parent.clone()))
    }
}

/// Of two commits the hash of the more recent one.
pub fn more_recent_hash(parent: &str, merge: &str, store: &CommitStore) -> (r: Option<String>)
    requires
        store.wf(),
    ensures
        opt_text(r) == more_recent(store@, parent@, merge@),
{
    let p = store.load(parent);
    let m = store.load(merge);
    match (p, m) {
        (Ok(p), Ok(m)) => {
            if p.timestamp > m.timestamp {
                Some(p.hash)
            } else {
                Some(m.hash)
            }
        },
        (Ok(p), Err(_)) => Some(p.hash),
        (Err(_), Ok(m)) => Some(m.hash),
        (Err(_), Err(_)) => None,
    }
}

impl CommitIter {
    /// Emits the current commit and moves on to the more recent of the two
    /// frontiers. `None` ends the walk: there is no current commit, or it
    /// cannot be loaded.
    pub fn next(&mut self, store: &CommitStore) -> (r: Option<Commit>)
        requires
            store.wf(),
        ensures
            match r {
                Some(c) => c.wf() && emitted(store@, old(self)@) == Some(c@),
                None => emitted(store@, old(self)@) is None,
            },
            final(self)@ == (if old(self)@.current is Some {
                advance(store@, old(self)@)
            } else {
                old(self)@
            }),
    {
        let output = match &self.current_hash {
            None => { return None; },
            Some(h) => h.clone(),
        };
        let parent = clone_opt(&self.parent_hash);
        let merge = clone_opt(&self.merge_hash);
        match (parent, merge) {
            (None, None) => {
                self.current_hash = None;
            },
            (None, Some(hash)) => {
                let (p, m) = get_parent_hashes(hash.as_str(), store);
                self.current_hash = Some(hash);
                self.parent_hash = p;
                self.merge_hash = m;
            },
            (Some(hash), None) => {
                let (p, m) = get_parent_hashes(hash.as_str(), store);
                self.current_hash = Some(hash);
                self.parent_hash = p;
                self.merge_hash = m;
            },
            (Some(parent), Some(merge)) => {
                if parent == merge {
                    let (p, m) = get_parent_hashes(parent.as_str(), store);
                    self.current_hash = Some(parent);
                    self.parent_hash = p;
                    self.merge_hash = m;
                } else {
                    match more_recent_hash(parent.as_str(), merge.as_str(), store) {
                        Some(hash) => {
                            if hash == parent {
                                let (p, _m) = get_parent_hashes(parent.as_str(), store);
                                self.current_hash = Some(parent);
                                self.parent_hash = p;
                            } else {
                                let (p, _m) = get_parent_hashes(merge.as_str(), store);
                                self.current_hash = Some(merge);
                                self.merge_hash = p;
                            }
                        },
                        None => {
                            self.current_hash = None;
                            self.parent_hash = None;
                            self.merge_hash = None;
                        },
                    }
                }
            },
        }
        match store.load(output.as_str()) {
            Ok(c) => Some(c),
            Err(_) => None,
        }
    }
}

/// The history behind `start`, most recent commit first: what the walk
/// emits until it emits nothing.
pub fn history(start: &Commit, store: &CommitStore) -> (r: Vec<Commit>)
    requires
        store.wf(),
    ensures
        commit_views(r@) == walk(store@, start_state(store@, start@.hash), usize::MAX as nat),
        forall|i: int| 0 <= i < r@.len() ==> (#[trigger] r@[i]).wf(),
{
    let mut it = start.iter(store);
    let mut out: Vec<Commit> = Vec::new();
    let ghost whole = walk(store@, start_state(store@, start@.hash), usize::MAX as nat);
    proof {
        assert(commit_views(out@) =~= Seq::<CommitView>::empty());
    }
    while out.len() < usize::MAX
        invariant
            store.wf(),
            whole == walk(store@, start_state(store@, start@.hash), usize::MAX as nat),
            whole == commit_views(out@) + walk(store@, it@, (usize::MAX - out@.len()) as nat),
            forall|i: int| 0 <= i < out@.len() ==> (#[trigger] out@[i]).wf(),
        decreases usize::MAX - out@.len(),
    {
        let ghost before = it@;
        let ghost seen = commit_views(out@);
        match it.next(store) {
            Some(c) => {
                proof {
                    assert(before.current is Some);
                    assert(commit_views(out@.push(c)) =~= seen.push(c@));
                    assert(seen + (seq![c@] + walk(
                        store@,
                        advance(store@, before),
                        (usize::MAX - out@.len() - 1) as nat,
                    )) =~= seen.push(c@) + walk(
                        store@,
                        advance(store@, before),
                        (usize::MAX - out@.len() - 1) as nat,
                    ));
                }
                out.push(c);
            },
            None => {
                proof {
                    assert(walk(store@, before, (usize::MAX - out@.len()) as nat)
                        =~= Seq::<CommitView>::empty());
                    assert(whole =~= seen);
                }
                return out;
            },
        }
    }
    proof {
        assert(whole =~= commit_views(out@));
    }
    out
}

/// A commit that was saved loads back equal in every field, and saving it
/// changes no commit that could be loaded before.
pub proof fn lemma_save_then_load(store: Map<Seq<char>, CommitView>, c: CommitView)
    requires
        save_result(store, c) is Ok,
    ensures
        load_result(save_result(store, c)->Ok_0, c.hash) == Ok::<CommitView, Error>(c),
        forall|h: Seq<char>| #[trigger]
            load_result(store, h) is Ok ==> load_result(save_result(store, c)->Ok_0, h)
                == load_result(store, h),
{
}

/// A chain of commits without merges in which each commit is the parent of
/// the one before it and the last has no parent, all of them stored.
pub open spec fn linear_chain(store: Map<Seq<char>, CommitView>, chain: Seq<CommitView>) -> bool {
    &&& chain.len() > 0
    &&& forall|i: int|
        0 <= i < chain.len() ==> {
            &&& (#[trigger] chain[i]).hash.len() > 0
            &&& store.contains_key(chain[i].hash)
            &&& store[chain[i].hash] == chain[i]
            &&& chain[i].merge_parent.len() == 0
            &&& chain[i].parent == if i + 1 < chain.len() {
                chain[i + 1].hash
            } else {
                Seq::empty()
            }
        }
}

proof fn lemma_linear_suffix(
    store: Map<Seq<char>, CommitView>,
    chain: Seq<CommitView>,
    k: int,
    fuel: nat,
)
    requires
        linear_chain(store, chain),
        0 <= k < chain.len(),
        fuel >= chain.len() - k,
    ensures
        walk(store, start_state(store, chain[k].hash), fuel) == chain.subrange(
            k,
            chain.len() as int,
        ),
    decreases chain.len() - k,
{
    let s = start_state(store, chain[k].hash);
    let c = chain[k];
    assert(emitted(store, s) == Some(c));
    let rest = walk(store, advance(store, s), (fuel - 1) as nat);
    assert(walk(store, s, fuel) == seq![c] + rest);
    if k + 1 < chain.len() {
        assert(chain[k + 1].hash.len() > 0);
        assert(advance(store, s) == start_state(store, chain[k + 1].hash));
        lemma_linear_suffix(store, chain, k + 1, (fuel - 1) as nat);
        assert(seq![c] + chain.subrange(k + 1, chain.len() as int) =~= chain.subrange(
            k,
            chain.len() as int,
        ));
    } else {
        assert(advance(store, s) == ended());
        assert(emitted(store, ended()) is None);
        assert(rest =~= Seq::<CommitView>::empty());
        assert(seq![c] + rest =~= chain.subrange(k, chain.len() as int));
    }
}

/// The walk from the head of a linear chain of N commits emits exactly
/// those N commits, most recent first, each the parent of the one before.
pub proof fn lemma_linear_history(
    store: Map<Seq<char>, CommitView>,
    chain: Seq<CommitView>,
    fuel: nat,
)
    requires
        linear_chain(store, chain),
        fuel >= chain.len(),
    ensures
        walk(store, start_state(store, chain[0].hash), fuel) == chain,
        forall|i: int|
            0 <= i < chain.len() - 1 ==> (#[trigger] chain[i]).parent == chain[i + 1].hash,
{
    lemma_linear_suffix(store, chain, 0, fuel);
    assert(chain.subrange(0, chain.len() as int) =~= chain);
}

/// Three to the power of `k`.
pub open spec fn pow3(k: nat) -> nat
    decreases k,
{
    if k == 0 {
        1
    } else {
        3 * pow3((k - 1) as nat)
    }
}

/// Whether `rank` puts every stored commit above those of its parents
/// that are stored: with such a rank the history has no cycle.
pub open spec fn ranked(
    store: Map<Seq<char>, CommitView>,
    rank: spec_fn(Seq<char>) -> nat,
) -> bool {
    forall|h: Seq<char>| #[trigger]
        store.contains_key(h) ==> {
            let c = store[h];
            &&& c.parent.len() > 0 && store.contains_key(c.parent) ==> rank(c.parent) < rank(h)
            &&& c.merge_parent.len() > 0 && store.contains_key(c.merge_parent) ==> rank(
                c.merge_parent,
            ) < rank(h)
        }
}

/// How high a hash stands: one above its rank if it is stored, else zero.
pub open spec fn height(
    store: Map<Seq<char>, CommitView>,
    rank: spec_fn(Seq<char>) -> nat,
    hash: Seq<char>,
) -> nat {
    if hash.len() > 0 && store.contains_key(hash) {
        rank(hash) + 1
    } else {
        0
    }
}

/// How many commits a frontier can still bring forth.
pub open spec fn frontier_weight(
    store: Map<Seq<char>, CommitView>,
    rank: spec_fn(Seq<char>) -> nat,
    frontier: Option<Seq<char>>,
) -> nat {
    match frontier {
        None => 0,
        Some(hash) => pow3(height(store, rank, hash)),
    }
}

/// A bound on the commits that a walk emits from position `s`.
pub open spec fn walk_bound(
    store: Map<Seq<char>, CommitView>,
    rank: spec_fn(Seq<char>) -> nat,
    s: IterState,
) -> nat {
    (if s.current is Some {
        1nat
    } else {
        0nat
    }) + frontier_weight(store, rank, s.parent) + frontier_weight(store, rank, s.merge)
}

proof fn lemma_pow3_grows(a: nat, b: nat)
    requires
        a <= b,
    ensures
        1 <= pow3(a) <= pow3(b),
    decreases b,
{
    if a == 0 {
        if b > 0 {
            lemma_pow3_grows(0, (b - 1) as nat);
        }
    } else {
        lemma_pow3_grows((a - 1) as nat, (b - 1) as nat);
    }
}

/// A walk that starts at a commit weighs no more than the commit as a
/// frontier.
proof fn lemma_start_weight(
    store: Map<Seq<char>, CommitView>,
    rank: spec_fn(Seq<char>) -> nat,
    hash: Seq<char>,
)
    requires
        ranked(store, rank),
    ensures
        walk_bound(store, rank, start_state(store, hash)) <= pow3(height(store, rank, hash)),
        1 + frontier_weight(store, rank, parents_of(store, hash).0) <= pow3(
            height(store, rank, hash),
        ),
{
    if hash.len() > 0 && store.contains_key(hash) {
        let c = store[hash];
        let top = rank(hash);
        lemma_pow3_grows(top, top);
        assert(pow3(top + 1) == 3 * pow3(top));
        if c.parent.len() > 0 {
            lemma_pow3_grows(height(store, rank, c.parent), top);
        }
        if c.merge_parent.len() > 0 {
            lemma_pow3_grows(height(store, rank, c.merge_parent), top);
        }
    }
}

/// Each step of a walk uses up one of the commits that its position can
/// still bring forth.
proof fn lemma_step_weight(
    store: Map<Seq<char>, CommitView>,
    rank: spec_fn(Seq<char>) -> nat,
    s: IterState,
)
    requires
        ranked(store, rank),
        s.current is Some,
    ensures
        1 + walk_bound(store, rank, advance(store, s)) <= walk_bound(store, rank, s),
{
    match (s.parent, s.merge) {
        (None, None) => {},
        (None, Some(h)) => {
            lemma_start_weight(store, rank, h);
        },
        (Some(h), None) => {
            lemma_start_weight(store, rank, h);
        },
        (Some(p), Some(m)) => {
            lemma_start_weight(store, rank, p);
            lemma_start_weight(store, rank, m);
            lemma_pow3_grows(0, height(store, rank, p));
            lemma_pow3_grows(0, height(store, rank, m));
        },
    }
}

/// On a store without cycles a walk emits no more commits than its bound,
/// however much fuel it has.
pub proof fn lemma_walk_bounded(
    store: Map<Seq<char>, CommitView>,
    rank: spec_fn(Seq<char>) -> nat,
    s: IterState,
    fuel: nat,
)
    requires
        ranked(store, rank),
    ensures
        walk(store, s, fuel).len() <= walk_bound(store, rank, s),
    decreases fuel,
{
    if fuel > 0 && emitted(store, s) is Some {
        lemma_step_weight(store, rank, s);
        lemma_walk_bounded(store, rank, advance(store, s), (fuel - 1) as nat);
    }
}

/// On a store without cycles a walk ends by itself: with fuel for as
/// many commits as its bound it emits what it emits with any more.
pub proof fn lemma_walk_ends(
    store: Map<Seq<char>, CommitView>,
    rank: spec_fn(Seq<char>) -> nat,
    s: IterState,
    fuel: nat,
)
    requires
        ranked(store, rank),
        fuel >= walk_bound(store, rank, s),
    ensures
        walk(store, s, fuel) == walk(store, s, walk_bound(store, rank, s)),
    decreases fuel,
{
    let bound = walk_bound(store, rank, s);
    if emitted(store, s) is Some {
        let next = advance(store, s);
        lemma_step_weight(store, rank, s);
        lemma_walk_ends(store, rank, next, (fuel - 1) as nat);
        if bound < fuel {
            lemma_walk_ends(store, rank, next, (bound - 1) as nat);
        }
    } else {
        assert(walk(store, s, fuel) =~= Seq::<CommitView>::empty());
        assert(walk(store, s, bound) =~= Seq::<CommitView>::empty());
    }
}

} // verus!
