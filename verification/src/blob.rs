//! The content-addressable blob store: deduplicated, reference-counted
//! storage of binary objects, with resumable chunked upload sessions.
//!
//! Entries are kept in vectors; a session or blob record that reaches its
//! terminal state stays as an inert slot (`active == false`, or
//! `refcount == 0`) with its bytes released, so that every mutation is an
//! in-place update or a push.

use vstd::prelude::*;
use crate::bytes::bytes_eq;
use crate::digest::{compute, digest_accepts, sha256_of, Digest, DigestAlgorithm};
use crate::errors::RegistryError;

verus! {

/// One stored blob. The record is live while `refcount >= 1`; at zero the
/// physical bytes are released and the slot is inert.
pub struct BlobEntry {
    pub hash: Vec<u8>,
    pub data: Vec<u8>,
    pub refcount: u64,
}

/// One upload session. The record is live while `active`; completion,
/// abort and expiry clear `active` and release the buffered bytes.
pub struct UploadSession {
    pub id: u64,
    pub repo: Vec<u8>,
    pub data: Vec<u8>,
    pub created_at: u64,
    pub last_active: u64,
    pub active: bool,
}

/// The blob store: content-addressed blobs plus in-progress uploads.
pub struct BlobStore {
    pub blobs: Vec<BlobEntry>,
    pub sessions: Vec<UploadSession>,
    pub next_session_id: u64,
    pub max_blob_size: u64,
    pub max_sessions: u64,
    pub session_timeout: u64,
}

impl BlobStore {
    /// Internal invariant: live session ids are unique and below the id
    /// counter, live blob hashes are unique and are the digests of the
    /// stored bytes, and buffered uploads respect the size limit.
    pub open spec fn wf(self) -> bool {
        &&& forall|i: int, j: int|
            0 <= i < self.sessions@.len() && 0 <= j < self.sessions@.len() && i != j
                && (#[trigger] self.sessions@[i]).active && (#[trigger] self.sessions@[j]).active
                ==> self.sessions@[i].id != self.sessions@[j].id
        &&& forall|i: int|
            0 <= i < self.sessions@.len() ==> (#[trigger] self.sessions@[i]).id
                < self.next_session_id
        &&& forall|i: int|
            0 <= i < self.sessions@.len() && (#[trigger] self.sessions@[i]).active
                ==> self.sessions@[i].data@.len() <= self.max_blob_size
        &&& forall|i: int, j: int|
            0 <= i < self.blobs@.len() && 0 <= j < self.blobs@.len() && i != j
                && (#[trigger] self.blobs@[i]).refcount >= 1
                && (#[trigger] self.blobs@[j]).refcount >= 1
                ==> self.blobs@[i].hash@ != self.blobs@[j].hash@
        &&& forall|i: int|
            0 <= i < self.blobs@.len() && (#[trigger] self.blobs@[i]).refcount >= 1
                ==> self.blobs@[i].hash@ == sha256_of(self.blobs@[i].data@)
                    && self.blobs@[i].hash@.len() == 32
    }

    /// Whether a live upload session with this id exists.
    pub open spec fn has_session(self, id: u64) -> bool {
        exists|i: int|
            0 <= i < self.sessions@.len() && (#[trigger] self.sessions@[i]).active
                && self.sessions@[i].id == id
    }

    /// The index of the live session with this id.
    pub open spec fn session_index(self, id: u64) -> int {
        choose|i: int|
            0 <= i < self.sessions@.len() && (#[trigger] self.sessions@[i]).active
                && self.sessions@[i].id == id
    }

    /// The bytes received so far by the live session with this id.
    pub open spec fn session_bytes(self, id: u64) -> Seq<u8> {
        self.sessions@[self.session_index(id)].data@
    }

    /// The repository the live session with this id uploads into.
    pub open spec fn session_repo(self, id: u64) -> Seq<u8> {
        self.sessions@[self.session_index(id)].repo@
    }

    /// The creation time of the live session with this id.
    pub open spec fn session_created(self, id: u64) -> u64 {
        self.sessions@[self.session_index(id)].created_at
    }

    /// The time of the last upload activity on the live session with this
    /// id (its creation, or its latest accepted chunk).
    pub open spec fn session_last_active(self, id: u64) -> u64 {
        self.sessions@[self.session_index(id)].last_active
    }

    /// Whether a live blob with this hash exists.
    pub open spec fn has_blob(self, h: Seq<u8>) -> bool {
        exists|i: int|
            0 <= i < self.blobs@.len() && (#[trigger] self.blobs@[i]).refcount >= 1
                && self.blobs@[i].hash@ == h
    }

    /// The index of the live blob with this hash.
    pub open spec fn blob_index(self, h: Seq<u8>) -> int {
        choose|i: int|
            0 <= i < self.blobs@.len() && (#[trigger] self.blobs@[i]).refcount >= 1
                && self.blobs@[i].hash@ == h
    }

    /// The bytes of the live blob with this hash.
    pub open spec fn blob_data(self, h: Seq<u8>) -> Seq<u8> {
        self.blobs@[self.blob_index(h)].data@
    }

    /// The reference count of the live blob with this hash.
    pub open spec fn blob_rc(self, h: Seq<u8>) -> u64 {
        self.blobs@[self.blob_index(h)].refcount
    }

    /// All live sessions other than `id` are the same in `pre` and `post`.
    pub open spec fn sessions_agree_except(pre: Self, post: Self, id: u64) -> bool {
        forall|x: u64|
            x != id ==> #[trigger] post.has_session(x) == pre.has_session(x) && (pre.has_session(x)
                && post.has_session(x) ==> post.session_bytes(x) == pre.session_bytes(x)
                && post.session_repo(x) == pre.session_repo(x) && post.session_created(x)
                == pre.session_created(x) && post.session_last_active(x)
                == pre.session_last_active(x))
    }

    /// All live blobs other than `h` are the same in `pre` and `post`.
    pub open spec fn blobs_agree_except(pre: Self, post: Self, h: Seq<u8>) -> bool {
        forall|g: Seq<u8>|
            g != h ==> #[trigger] post.has_blob(g) == pre.has_blob(g) && (pre.has_blob(g)
                && post.has_blob(g) ==> post.blob_data(g) == pre.blob_data(g) && post.blob_rc(g)
                == pre.blob_rc(g))
    }

    /// The configuration fields of `pre` and `post` are the same.
    pub open spec fn config_unchanged(pre: Self, post: Self) -> bool {
        &&& post.max_blob_size == pre.max_blob_size
        &&& post.max_sessions == pre.max_sessions
        &&& post.session_timeout == pre.session_timeout
    }

    /// A live session entry at index `i` is the one its id resolves to.
    pub proof fn lemma_session_at(self, i: int)
        requires
            self.wf(),
            0 <= i < self.sessions@.len(),
            self.sessions@[i].active,
        ensures
            self.has_session(self.sessions@[i].id),
            self.session_index(self.sessions@[i].id) == i,
    {
        let id = self.sessions@[i].id;
        assert(self.has_session(id));
        let j = self.session_index(id);
        if j != i {
            assert(self.sessions@[i].id != self.sessions@[j].id);
        }
    }

    /// A live blob entry at index `i` is the one its hash resolves to.
    pub proof fn lemma_blob_at(self, i: int)
        requires
            self.wf(),
            0 <= i < self.blobs@.len(),
            self.blobs@[i].refcount >= 1,
        ensures
            self.has_blob(self.blobs@[i].hash@),
            self.blob_index(self.blobs@[i].hash@) == i,
    {
        let h = self.blobs@[i].hash@;
        assert(self.has_blob(h));
        let j = self.blob_index(h);
        if j != i {
            assert(self.blobs@[i].hash@ != self.blobs@[j].hash@);
        }
    }

    /// Sessions agree except `id` when the session list changed only at the
    /// slot of `id` (updated in place or pushed fresh).
    proof fn lemma_sessions_frame(pre: Self, post: Self, id: u64)
        requires
            pre.wf(),
            post.wf(),
            forall|i: int|
                0 <= i < pre.sessions@.len() && (#[trigger] pre.sessions@[i]).id != id
                    ==> i < post.sessions@.len() && post.sessions@[i] == pre.sessions@[i],
            forall|i: int|
                0 <= i < post.sessions@.len() && (#[trigger] post.sessions@[i]).id != id
                    ==> i < pre.sessions@.len() && post.sessions@[i] == pre.sessions@[i],
        ensures
            Self::sessions_agree_except(pre, post, id),
    {
        assert forall|x: u64| x != id implies #[trigger] post.has_session(x) == pre.has_session(x)
            && (pre.has_session(x) && post.has_session(x) ==> post.session_bytes(x)
            == pre.session_bytes(x) && post.session_repo(x) == pre.session_repo(x)
            && post.session_created(x) == pre.session_created(x) && post.session_last_active(x)
            == pre.session_last_active(x)) by {
            if pre.has_session(x) {
                let i = pre.session_index(x);
                assert(pre.sessions@[i].active && pre.sessions@[i].id == x);
                assert(post.sessions@[i] == pre.sessions@[i]);
                post.lemma_session_at(i);
            }
            if post.has_session(x) {
                let i = post.session_index(x);
                assert(post.sessions@[i].active && post.sessions@[i].id == x);
                assert(pre.sessions@[i] == post.sessions@[i]);
                pre.lemma_session_at(i);
            }
        }
    }

    /// Blobs agree except `h` when the blob list changed only at the slot
    /// of `h` (updated in place or pushed fresh).
    proof fn lemma_blobs_frame(pre: Self, post: Self, h: Seq<u8>)
        requires
            pre.wf(),
            post.wf(),
            forall|i: int|
                0 <= i < pre.blobs@.len() && (#[trigger] pre.blobs@[i]).hash@ != h
                    ==> i < post.blobs@.len() && post.blobs@[i] == pre.blobs@[i],
            forall|i: int|
                0 <= i < post.blobs@.len() && (#[trigger] post.blobs@[i]).hash@ != h
                    ==> i < pre.blobs@.len() && post.blobs@[i] == pre.blobs@[i],
        ensures
            Self::blobs_agree_except(pre, post, h),
    {
        assert forall|g: Seq<u8>| g != h implies #[trigger] post.has_blob(g) == pre.has_blob(g)
            && (pre.has_blob(g) && post.has_blob(g) ==> post.blob_data(g) == pre.blob_data(g)
            && post.blob_rc(g) == pre.blob_rc(g)) by {
            if pre.has_blob(g) {
                let i = pre.blob_index(g);
                assert(pre.blobs@[i].refcount >= 1 && pre.blobs@[i].hash@ == g);
                assert(post.blobs@[i] == pre.blobs@[i]);
                post.lemma_blob_at(i);
            }
            if post.has_blob(g) {
                let i = post.blob_index(g);
                assert(post.blobs@[i].refcount >= 1 && post.blobs@[i].hash@ == g);
                assert(pre.blobs@[i] == post.blobs@[i]);
                pre.lemma_blob_at(i);
            }
        }
    }

    fn find_session(&self, id: u64) -> (r: Option<usize>)
        ensures
            match r {
                Some(i) => i < self.sessions@.len() && self.sessions@[i as int].active
                    && self.sessions@[i as int].id == id && self.has_session(id),
                None => !self.has_session(id),
            },
    {
        let n = self.sessions.len();
        let mut i: usize = 0;
        while i < n
            invariant
                n == self.sessions@.len(),
                0 <= i <= n,
                forall|k: int|
                    0 <= k < i ==> !((#[trigger] self.sessions@[k]).active
                        && self.sessions@[k].id == id),
            decreases n - i,
        {
            if self.sessions[i].active && self.sessions[i].id == id {
                return Some(i);
            }
            i += 1;
        }
        None
    }

    fn find_blob(&self, h: &Vec<u8>) -> (r: Option<usize>)
        ensures
            match r {
                Some(i) => i < self.blobs@.len() && self.blobs@[i as int].refcount >= 1
                    && self.blobs@[i as int].hash@ == h@ && self.has_blob(h@),
                None => !self.has_blob(h@),
            },
    {
        let n = self.blobs.len();
        let mut i: usize = 0;
        while i < n
            invariant
                n == self.blobs@.len(),
                0 <= i <= n,
                forall|k: int|
                    0 <= k < i ==> !((#[trigger] self.blobs@[k]).refcount >= 1
                        && self.blobs@[k].hash@ == h@),
            decreases n - i,
        {
            if self.blobs[i].refcount >= 1 && bytes_eq(&self.blobs[i].hash, h) {
                return Some(i);
            }
            i += 1;
        }
        None
    }

    /// An empty store with the given limits.
    pub fn new(max_blob_size: u64, max_sessions: u64, session_timeout: u64) -> (s: Self)
        ensures
            s.wf(),
            s.blobs@.len() == 0,
            s.sessions@.len() == 0,
            forall|h: Seq<u8>| !(#[trigger] s.has_blob(h)),
            forall|id: u64| !(#[trigger] s.has_session(id)),
            s.next_session_id == 0,
            s.max_blob_size == max_blob_size,
            s.max_sessions == max_sessions,
            s.session_timeout == session_timeout,
    {
        BlobStore {
            blobs: Vec::new(),
            sessions: Vec::new(),
            next_session_id: 0,
            max_blob_size,
            max_sessions,
            session_timeout,
        }
    }

    /// Opens a fresh upload session into `repo` at time `now`. The new id
    /// is fresh: no live session shares it. Fails only when the configured
    /// session capacity (or the id space) is exhausted.
    pub fn begin_upload(&mut self, repo: Vec<u8>, now: u64) -> (r: Result<u64, RegistryError>)
        requires
            old(self).wf(),
        ensures
            final(self).wf(),
            Self::config_unchanged(*old(self), *final(self)),
            match r {
                Ok(id) => !old(self).has_session(id) && final(self).has_session(id)
                    && final(self).session_bytes(id) == Seq::<u8>::empty()
                    && final(self).session_repo(id) == repo@ && final(self).session_created(id)
                    == now && final(self).session_last_active(id) == now && final(self).blobs
                    == old(self).blobs
                    && Self::sessions_agree_except(*old(self), *final(self), id),
                Err(e) => e == RegistryError::CapacityExceeded && *final(self) == *old(self)
                    && (old(self).sessions@.len() >= old(self).max_sessions
                        || old(self).next_session_id == u64::MAX),
            },
    {
        if self.sessions.len() as u64 >= self.max_sessions || self.next_session_id == u64::MAX {
            return Err(RegistryError::CapacityExceeded);
        }
        let id = self.next_session_id;
        let ghost pre = *self;
        self.next_session_id = id + 1;
        self.sessions.push(
            UploadSession {
                id,
                repo,
                data: Vec::new(),
                created_at: now,
                last_active: now,
                active: true,
            },
        );
        proof {
            let n = pre.sessions@.len() as int;
            assert(self.sessions@[n].id == id);
            if pre.has_session(id) {
                let i = pre.session_index(id);
                assert(pre.sessions@[i].id < pre.next_session_id);
            }
            assert(self.wf());
            self.lemma_session_at(n);
            assert(self.session_bytes(id) =~= Seq::<u8>::empty());
            BlobStore::lemma_sessions_frame(pre, *self, id);
        }
        Ok(id)
    }

    /// Appends a chunk at the session's current offset, refreshing the
    /// session's idle clock to `now`. Rejects a chunk at any other offset
    /// with `OffsetConflict` (single writer per session), a chunk that
    /// would push the upload over the maximum blob size with
    /// `SizeLimitExceeded`, and an unknown session with `SessionExpired`.
    pub fn append_chunk(&mut self, id: u64, offset: u64, chunk: &Vec<u8>, now: u64) -> (r: Result<
        u64,
        RegistryError,
    >)
        requires
            old(self).wf(),
        ensures
            final(self).wf(),
            Self::config_unchanged(*old(self), *final(self)),
            match r {
                Ok(new_offset) => old(self).has_session(id) && offset == old(self).session_bytes(
                    id,
                ).len() && old(self).session_bytes(id).len() + chunk@.len() <= old(self).max_blob_size && final(self).has_session(id) && final(self).session_bytes(id)
                    == old(self).session_bytes(id) + chunk@ && final(self).session_repo(id) == old(self).session_repo(id) && final(self).session_created(id) == old(self).session_created(id) && final(self).session_last_active(id) == now && new_offset == offset + chunk@.len() && final(self).blobs@
                    == old(self).blobs@ && final(self).next_session_id == old(self).next_session_id && Self::sessions_agree_except(*old(self), *final(self), id),
                Err(e) => *final(self) == *old(self) && (!old(self).has_session(id) || offset
                    != old(self).session_bytes(id).len() || old(self).session_bytes(id).len()
                    + chunk@.len() > old(self).max_blob_size) && e == (
                if !old(self).has_session(id) {
                    RegistryError::SessionExpired
                } else if offset != old(self).session_bytes(id).len() {
                    RegistryError::OffsetConflict
                } else {
                    RegistryError::SizeLimitExceeded
                }),
            },
    {
        let i = match self.find_session(id) {
            None => {
                return Err(RegistryError::SessionExpired);
            },
            Some(i) => i,
        };
        proof {
            self.lemma_session_at(i as int);
        }
        let cur_len = self.sessions[i].data.len();
        if offset != cur_len as u64 {
            return Err(RegistryError::OffsetConflict);
        }
        if cur_len as u128 + chunk.len() as u128 > self.max_blob_size as u128 {
            return Err(RegistryError::SizeLimitExceeded);
        }
        let ghost pre = *self;
        let mut data = crate::bytes::copy_bytes(&self.sessions[i].data);
        data.extend_from_slice(chunk.as_slice());
        let repo = crate::bytes::copy_bytes(&self.sessions[i].repo);
        let created = self.sessions[i].created_at;
        self.sessions[i] = UploadSession {
            id,
            repo,
            data,
            created_at: created,
            last_active: now,
            active: true,
        };
        proof {
            assert(self.sessions@ == pre.sessions@.update(i as int, self.sessions@[i as int]));
            assert(self.wf());
            self.lemma_session_at(i as int);
            BlobStore::lemma_sessions_frame(pre, *self, id);
        }
        Ok(offset + chunk.len() as u64)
    }

    /// Completes an upload: verifies the asserted digest against the digest
    /// of the received bytes; on a mismatch discards the session's data and
    /// fails with `DigestMismatch` (nothing becomes retrievable under the
    /// asserted digest). On success publishes the content under its digest:
    /// identical content already stored is not duplicated, its reference
    /// count is incremented instead.
    pub fn complete_upload(&mut self, id: u64, asserted: &Digest) -> (r: Result<
        Digest,
        RegistryError,
    >)
        requires
            old(self).wf(),
            asserted.valid(),
        ensures
            final(self).wf(),
            Self::config_unchanged(*old(self), *final(self)),
            final(self).next_session_id == old(self).next_session_id,
            match r {
                Ok(d) => old(self).has_session(id) && digest_accepts(
                    old(self).session_bytes(id),
                    *asserted,
                ) && d.valid() && d.hash@ == asserted.hash@ && d.hash@ == sha256_of(
                    old(self).session_bytes(id),
                ) && !final(self).has_session(id) && Self::sessions_agree_except(
                    *old(self),
                    *final(self),
                    id,
                ) && final(self).has_blob(d.hash@) && final(self).blob_data(d.hash@) == (
                if old(self).has_blob(d.hash@) {
                    old(self).blob_data(d.hash@)
                } else {
                    old(self).session_bytes(id)
                }) && final(self).blob_rc(d.hash@) == (
                if old(self).has_blob(d.hash@) {
                    (old(self).blob_rc(d.hash@) + 1) as int
                } else {
                    1int
                }) && Self::blobs_agree_except(*old(self), *final(self), d.hash@),
                Err(e) => (
                if !old(self).has_session(id) {
                    e == RegistryError::SessionExpired && *final(self) == *old(self)
                } else if !digest_accepts(old(self).session_bytes(id), *asserted) {
                    e == RegistryError::DigestMismatch && !final(self).has_session(id)
                        && Self::sessions_agree_except(*old(self), *final(self), id) && final(self).blobs@ == old(self).blobs@
                } else {
                    e == RegistryError::CapacityExceeded && old(self).has_blob(asserted.hash@)
                        && old(self).blob_rc(asserted.hash@) == u64::MAX && *final(self) == *old(self)
                }),
            },
    {
        let i = match self.find_session(id) {
            None => {
                return Err(RegistryError::SessionExpired);
            },
            Some(i) => i,
        };
        proof {
            self.lemma_session_at(i as int);
        }
        let computed = compute(&self.sessions[i].data);
        let matches = bytes_eq(&asserted.hash, &computed.hash);
        let ghost pre = *self;
        if !matches {
            let created = self.sessions[i].created_at;
            self.sessions[i] = UploadSession {
                id,
                repo: Vec::new(),
                data: Vec::new(),
                created_at: created,
                last_active: created,
                active: false,
            };
            proof {
                assert(self.wf());
                assert forall|j: int|
                    0 <= j < self.sessions@.len() && (#[trigger] self.sessions@[j]).active
                        implies self.sessions@[j].id != id by {
                    if j != i as int {
                        assert(pre.sessions@[j].active && pre.sessions@[i as int].active);
                    }
                }
                assert(!self.has_session(id));
                BlobStore::lemma_sessions_frame(pre, *self, id);
            }
            return Err(RegistryError::DigestMismatch);
        }
        let existing = self.find_blob(&computed.hash);
        match existing {
            Some(bi) => {
                if self.blobs[bi].refcount == u64::MAX {
                    proof {
                        self.lemma_blob_at(bi as int);
                    }
                    return Err(RegistryError::CapacityExceeded);
                }
                let created = self.sessions[i].created_at;
                self.sessions[i] = UploadSession {
                    id,
                    repo: Vec::new(),
                    data: Vec::new(),
                    created_at: created,
                    last_active: created,
                    active: false,
                };
                let rc = self.blobs[bi].refcount;
                let hash = crate::bytes::copy_bytes(&self.blobs[bi].hash);
                let bdata = crate::bytes::copy_bytes(&self.blobs[bi].data);
                self.blobs[bi] = BlobEntry { hash, data: bdata, refcount: rc + 1 };
                proof {
                    pre.lemma_blob_at(bi as int);
                    assert(self.wf());
                    assert forall|j: int|
                        0 <= j < self.sessions@.len() && (#[trigger] self.sessions@[j]).active
                            implies self.sessions@[j].id != id by {
                        if j != i as int {
                            assert(pre.sessions@[j].active && pre.sessions@[i as int].active);
                        }
                    }
                    assert(!self.has_session(id));
                    BlobStore::lemma_sessions_frame(pre, *self, id);
                    self.lemma_blob_at(bi as int);
                    BlobStore::lemma_blobs_frame(pre, *self, computed.hash@);
                }
                Ok(Digest { algo: DigestAlgorithm::Sha256, hash: computed.hash })
            },
            None => {
                let created = self.sessions[i].created_at;
                let bdata = crate::bytes::copy_bytes(&self.sessions[i].data);
                self.sessions[i] = UploadSession {
                    id,
                    repo: Vec::new(),
                    data: Vec::new(),
                    created_at: created,
                    last_active: created,
                    active: false,
                };
                let hash = crate::bytes::copy_bytes(&computed.hash);
                self.blobs.push(BlobEntry { hash, data: bdata, refcount: 1 });
                proof {
                    let n = pre.blobs@.len() as int;
                    assert forall|j: int|
                        0 <= j < self.blobs@.len() && j != n && (#[trigger] self.blobs@[j]).refcount
                            >= 1 implies self.blobs@[j].hash@ != computed.hash@ by {
                        assert(pre.blobs@[j] == self.blobs@[j]);
                        if self.blobs@[j].hash@ == computed.hash@ {
                            assert(pre.has_blob(computed.hash@));
                        }
                    }
                    assert(self.wf());
                    assert forall|j: int|
                        0 <= j < self.sessions@.len() && (#[trigger] self.sessions@[j]).active
                            implies self.sessions@[j].id != id by {
                        if j != i as int {
                            assert(pre.sessions@[j].active && pre.sessions@[i as int].active);
                        }
                    }
                    assert(!self.has_session(id));
                    BlobStore::lemma_sessions_frame(pre, *self, id);
                    self.lemma_blob_at(n);
                    BlobStore::lemma_blobs_frame(pre, *self, computed.hash@);
                }
                Ok(Digest { algo: DigestAlgorithm::Sha256, hash: computed.hash })
            },
        }
    }

    /// Aborts an upload session, releasing its resources. Idempotent:
    /// aborting an unknown or already-terminated session does nothing.
    pub fn abort_upload(&mut self, id: u64)
        requires
            old(self).wf(),
        ensures
            final(self).wf(),
            Self::config_unchanged(*old(self), *final(self)),
            !final(self).has_session(id),
            Self::sessions_agree_except(*old(self), *final(self), id),
            final(self).blobs@ == old(self).blobs@,
            final(self).next_session_id == old(self).next_session_id,
            !old(self).has_session(id) ==> *final(self) == *old(self),
    {
        let i = match self.find_session(id) {
            None => {
                return ;
            },
            Some(i) => i,
        };
        proof {
            self.lemma_session_at(i as int);
        }
        let ghost pre = *self;
        let created = self.sessions[i].created_at;
        self.sessions[i] = UploadSession {
            id,
            repo: Vec::new(),
            data: Vec::new(),
            created_at: created,
            last_active: created,
            active: false,
        };
        proof {
            assert(self.wf());
            assert forall|j: int|
                0 <= j < self.sessions@.len() && (#[trigger] self.sessions@[j]).active
                    implies self.sessions@[j].id != id by {
                if j != i as int {
                    assert(pre.sessions@[j].active && pre.sessions@[i as int].active);
                }
            }
            assert(!self.has_session(id));
            BlobStore::lemma_sessions_frame(pre, *self, id);
        }
    }

    /// The bytes stored under a digest, or `NotFound`. Only fully published
    /// blobs are ever visible here.
    pub fn get_blob(&self, d: &Digest) -> (r: Result<&Vec<u8>, RegistryError>)
        requires
            self.wf(),
        ensures
            match r {
                Ok(v) => self.has_blob(d.hash@) && v@ == self.blob_data(d.hash@),
                Err(e) => e == RegistryError::NotFound && !self.has_blob(d.hash@),
            },
    {
        match self.find_blob(&d.hash) {
            Some(i) => {
                proof {
                    self.lemma_blob_at(i as int);
                }
                Ok(&self.blobs[i].data)
            },
            None => Err(RegistryError::NotFound),
        }
    }

    /// Whether a blob with this digest is stored.
    pub fn blob_exists(&self, d: &Digest) -> (r: bool)
        ensures
            r == self.has_blob(d.hash@),
    {
        self.find_blob(&d.hash).is_some()
    }

    /// The reference count of a stored blob.
    pub fn blob_ref_count(&self, d: &Digest) -> (r: Result<u64, RegistryError>)
        requires
            self.wf(),
        ensures
            match r {
                Ok(c) => self.has_blob(d.hash@) && c == self.blob_rc(d.hash@),
                Err(e) => e == RegistryError::NotFound && !self.has_blob(d.hash@),
            },
    {
        match self.find_blob(&d.hash) {
            Some(i) => {
                proof {
                    self.lemma_blob_at(i as int);
                }
                Ok(self.blobs[i].refcount)
            },
            None => Err(RegistryError::NotFound),
        }
    }

    /// Releases one reference to a blob. The physical bytes are removed
    /// only when the reference count reaches zero; until then the blob
    /// stays retrievable.
    pub fn delete_blob(&mut self, d: &Digest) -> (r: Result<(), RegistryError>)
        requires
            old(self).wf(),
        ensures
            final(self).wf(),
            Self::config_unchanged(*old(self), *final(self)),
            final(self).sessions@ == old(self).sessions@,
            final(self).next_session_id == old(self).next_session_id,
            Self::blobs_agree_except(*old(self), *final(self), d.hash@),
            match r {
                Ok(()) => old(self).has_blob(d.hash@) && (old(self).blob_rc(d.hash@) > 1 ==> final(self).has_blob(d.hash@) && final(self).blob_rc(d.hash@) == old(self).blob_rc(d.hash@)
                    - 1 && final(self).blob_data(d.hash@) == old(self).blob_data(d.hash@)) && (old(self).blob_rc(d.hash@) == 1 ==> !final(self).has_blob(d.hash@)),
                Err(e) => e == RegistryError::NotFound && !old(self).has_blob(d.hash@) && *final(self) == *old(self),
            },
    {
        let i = match self.find_blob(&d.hash) {
            None => {
                return Err(RegistryError::NotFound);
            },
            Some(i) => i,
        };
        proof {
            self.lemma_blob_at(i as int);
        }
        let ghost pre = *self;
        let rc = self.blobs[i].refcount;
        let hash = crate::bytes::copy_bytes(&self.blobs[i].hash);
        if rc == 1 {
            self.blobs[i] = BlobEntry { hash, data: Vec::new(), refcount: 0 };
            proof {
                assert(self.wf());
                assert forall|j: int|
                    0 <= j < self.blobs@.len() && (#[trigger] self.blobs@[j]).refcount >= 1
                        implies self.blobs@[j].hash@ != d.hash@ by {
                    if j != i as int {
                        assert(pre.blobs@[j].refcount >= 1 && pre.blobs@[i as int].refcount >= 1);
                    }
                }
                assert(!self.has_blob(d.hash@));
                BlobStore::lemma_blobs_frame(pre, *self, d.hash@);
            }
        } else {
            let bdata = crate::bytes::copy_bytes(&self.blobs[i].data);
            self.blobs[i] = BlobEntry { hash, data: bdata, refcount: rc - 1 };
            proof {
                assert(self.wf());
                self.lemma_blob_at(i as int);
                BlobStore::lemma_blobs_frame(pre, *self, d.hash@);
            }
        }
        Ok(())
    }

    /// Records one more reference to a stored blob (a manifest that names
    /// it was stored).
    pub fn add_ref(&mut self, h: &Vec<u8>) -> (r: Result<(), RegistryError>)
        requires
            old(self).wf(),
        ensures
            final(self).wf(),
            Self::config_unchanged(*old(self), *final(self)),
            final(self).sessions@ == old(self).sessions@,
            final(self).next_session_id == old(self).next_session_id,
            Self::blobs_agree_except(*old(self), *final(self), h@),
            match r {
                Ok(()) => old(self).has_blob(h@) && old(self).blob_rc(h@) < u64::MAX && final(self).has_blob(h@) && final(self).blob_rc(h@) == old(self).blob_rc(h@) + 1 && final(self).blob_data(h@) == old(self).blob_data(h@),
                Err(e) => *final(self) == *old(self) && (
                if !old(self).has_blob(h@) {
                    e == RegistryError::NotFound
                } else {
                    e == RegistryError::CapacityExceeded && old(self).blob_rc(h@) == u64::MAX
                }),
            },
    {
        let i = match self.find_blob(h) {
            None => {
                return Err(RegistryError::NotFound);
            },
            Some(i) => i,
        };
        proof {
            self.lemma_blob_at(i as int);
        }
        let rc = self.blobs[i].refcount;
        if rc == u64::MAX {
            return Err(RegistryError::CapacityExceeded);
        }
        let ghost pre = *self;
        let hash = crate::bytes::copy_bytes(&self.blobs[i].hash);
        let bdata = crate::bytes::copy_bytes(&self.blobs[i].data);
        self.blobs[i] = BlobEntry { hash, data: bdata, refcount: rc + 1 };
        proof {
            assert(self.wf());
            self.lemma_blob_at(i as int);
            BlobStore::lemma_blobs_frame(pre, *self, h@);
        }
        Ok(())
    }

    /// Whether the live session `id` has sat idle past the configured
    /// timeout at time `now`: no accepted activity for `session_timeout`.
    pub open spec fn session_expired(self, id: u64, now: u64) -> bool {
        self.session_last_active(id) + self.session_timeout <= now
    }

    /// Expires idle sessions: every live session whose last accepted
    /// activity lies `session_timeout` or more before `now` is aborted; all
    /// others are untouched. Safe to run at any point between a client's
    /// own calls — the client's later completion attempt then fails with
    /// `SessionExpired`.
    pub fn expire_sessions(&mut self, now: u64)
        requires
            old(self).wf(),
        ensures
            final(self).wf(),
            Self::config_unchanged(*old(self), *final(self)),
            final(self).blobs@ == old(self).blobs@,
            final(self).next_session_id == old(self).next_session_id,
            forall|x: u64|
                #[trigger] final(self).has_session(x) == (old(self).has_session(x) && !old(self).session_expired(x, now)),
            forall|x: u64|
                #[trigger] final(self).has_session(x) ==> final(self).session_bytes(x) == old(self).session_bytes(x) && final(self).session_repo(x) == old(self).session_repo(x)
                    && final(self).session_created(x) == old(self).session_created(x) && final(self).session_last_active(x) == old(self).session_last_active(x),
    {
        let ghost pre = *self;
        let n = self.sessions.len();
        let mut i: usize = 0;
        while i < n
            invariant
                pre.wf(),
                n == self.sessions@.len(),
                n == pre.sessions@.len(),
                0 <= i <= n,
                self.blobs@ == pre.blobs@,
                self.next_session_id == pre.next_session_id,
                Self::config_unchanged(pre, *self),
                forall|k: int| i <= k < n ==> self.sessions@[k] == pre.sessions@[k],
                forall|k: int|
                    0 <= k < i ==> (if (#[trigger] pre.sessions@[k]).active
                        && !(pre.sessions@[k].last_active + pre.session_timeout <= now) {
                        self.sessions@[k] == pre.sessions@[k]
                    } else {
                        !self.sessions@[k].active && self.sessions@[k].id == pre.sessions@[k].id
                    }),
            decreases n - i,
        {
            let active = self.sessions[i].active;
            let created = self.sessions[i].created_at;
            let last = self.sessions[i].last_active;
            if active && last as u128 + self.session_timeout as u128 <= now as u128 {
                self.sessions[i] = UploadSession {
                    id: self.sessions[i].id,
                    repo: Vec::new(),
                    data: Vec::new(),
                    created_at: created,
                    last_active: last,
                    active: false,
                };
            }
            i += 1;
        }
        proof {
            assert forall|k: int| 0 <= k < self.sessions@.len() implies (
                #[trigger] self.sessions@[k]).id == pre.sessions@[k].id && (
                self.sessions@[k].active ==> self.sessions@[k] == pre.sessions@[k]
                && pre.sessions@[k].active) by {
                assert(pre.sessions@[k].active || !pre.sessions@[k].active);
            }
            assert(self.wf());
            assert forall|x: u64|
                #[trigger] self.has_session(x) == (pre.has_session(x) && !pre.session_expired(
                    x,
                    now,
                )) && (self.has_session(x) ==> self.session_bytes(x) == pre.session_bytes(x)
                && self.session_repo(x) == pre.session_repo(x) && self.session_created(x)
                == pre.session_created(x) && self.session_last_active(x)
                == pre.session_last_active(x)) by {
                if pre.has_session(x) {
                    let k = pre.session_index(x);
                    assert(pre.sessions@[k].active && pre.sessions@[k].id == x);
                    if !pre.session_expired(x, now) {
                        assert(self.sessions@[k] == pre.sessions@[k]);
                        self.lemma_session_at(k);
                    } else {
                        assert forall|j: int|
                            0 <= j < self.sessions@.len() && (#[trigger] self.sessions@[j]).active
                                implies self.sessions@[j].id != x by {
                            if self.sessions@[j].id == x {
                                assert(self.sessions@[j] == pre.sessions@[j]);
                                assert(pre.sessions@[j].active && pre.sessions@[j].id == x);
                                if j != k {
                                    assert(pre.sessions@[j].id != pre.sessions@[k].id);
                                }
                            }
                        }
                        assert(!self.has_session(x));
                    }
                } else {
                    if self.has_session(x) {
                        let k = self.session_index(x);
                        assert(self.sessions@[k].active && self.sessions@[k].id == x);
                        assert(self.sessions@[k] == pre.sessions@[k]);
                        pre.lemma_session_at(k);
                    }
                }
            }
        }
    }
}

/// Law (upload round-trip): beginning an upload, appending chunks, and
/// completing with the digest of the received bytes publishes a blob whose
/// retrieved bytes are exactly the bytes received, under that digest.
pub proof fn lemma_upload_round_trip(
    pre: BlobStore,
    post: BlobStore,
    id: u64,
    d: Digest,
    v: Seq<u8>,
)
    requires
        pre.has_session(id),
        !pre.has_blob(d.hash@),
        digest_accepts(pre.session_bytes(id), d),
        post.has_blob(d.hash@),
        post.blob_data(d.hash@) == (if pre.has_blob(d.hash@) {
            pre.blob_data(d.hash@)
        } else {
            pre.session_bytes(id)
        }),
        v == post.blob_data(d.hash@),
    ensures
        v == pre.session_bytes(id),
        d.hash@ == sha256_of(pre.session_bytes(id)),
{
}

/// Law (upload round-trip, failure half): a completion that failed with a
/// digest mismatch left the stored blobs untouched, so no blob became
/// retrievable under the asserted digest.
pub proof fn lemma_failed_upload_leaves_no_blob(pre: BlobStore, post: BlobStore, h: Seq<u8>)
    requires
        post.blobs@ == pre.blobs@,
        !pre.has_blob(h),
    ensures
        !post.has_blob(h),
{
    if post.has_blob(h) {
        let i = post.blob_index(h);
        assert(pre.blobs@[i].refcount >= 1 && pre.blobs@[i].hash@ == h);
    }
}

/// Law (idempotent publish): completing two independent uploads with
/// identical content yields the same digest and one physical copy whose
/// reference count is two, not two stored blobs.
pub proof fn lemma_publish_idempotent(
    s0: BlobStore,
    s1: BlobStore,
    s2: BlobStore,
    id1: u64,
    id2: u64,
    d1: Digest,
    d2: Digest,
)
    requires
        s0.has_session(id1),
        s1.has_session(id2),
        s0.session_bytes(id1) == s1.session_bytes(id2),
        !s0.has_blob(d1.hash@),
        d1.hash@ == sha256_of(s0.session_bytes(id1)),
        s1.has_blob(d1.hash@),
        s1.blob_rc(d1.hash@) == (if s0.has_blob(d1.hash@) {
            (s0.blob_rc(d1.hash@) + 1) as int
        } else {
            1int
        }),
        d2.hash@ == sha256_of(s1.session_bytes(id2)),
        s2.has_blob(d2.hash@),
        s2.blob_rc(d2.hash@) == (if s1.has_blob(d2.hash@) {
            (s1.blob_rc(d2.hash@) + 1) as int
        } else {
            1int
        }),
    ensures
        d1.hash@ == d2.hash@,
        s2.blob_rc(d1.hash@) == 2,
{
}

} // verus!
