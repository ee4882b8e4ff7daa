//! The manifest store: image manifests keyed by repository and digest,
//! mutable tag pointers with their history, and the repository catalog.
//!
//! As in the blob store, a deleted record stays as an inert slot with its
//! bytes released, so every mutation is an in-place update or a push.

use vstd::prelude::*;
use crate::bytes::bytes_eq;
use crate::bytes::contains_seq;
use crate::bytes::copy_bytes;
use crate::bytes::copy_list;
use crate::bytes::insert_sorted;
use crate::bytes::sorted_strict;
use crate::bytes::views_of;
use crate::digest::sha256_of;
use crate::errors::RegistryError;

verus! {

/// One stored manifest. Live while `present`.
pub struct ManifestEntry {
    pub repo: Vec<u8>,
    pub hash: Vec<u8>,
    pub data: Vec<u8>,
    pub refs: Vec<Vec<u8>>,
    pub refcount: u64,
    pub present: bool,
}

/// One tag pointer. Live while `active`. `history[0]` is the manifest hash
/// the tag currently points to; older targets follow, most recent first.
pub struct TagEntry {
    pub repo: Vec<u8>,
    pub tag: Vec<u8>,
    pub history: Vec<Vec<u8>>,
    pub active: bool,
}

/// The manifest store.
pub struct ManifestStore {
    pub manifests: Vec<ManifestEntry>,
    pub tags: Vec<TagEntry>,
}

impl ManifestStore {
    /// Internal invariant: live manifests are unique per (repository,
    /// digest) and digest-consistent; live tags are unique per (repository,
    /// tag) and their history is never empty.
    pub open spec fn wf(self) -> bool {
        &&& forall|i: int, j: int|
            0 <= i < self.manifests@.len() && 0 <= j < self.manifests@.len() && i != j
                && (#[trigger] self.manifests@[i]).present && (#[trigger] self.manifests@[j]).present
                ==> !(self.manifests@[i].repo@ == self.manifests@[j].repo@
                && self.manifests@[i].hash@ == self.manifests@[j].hash@)
        &&& forall|i: int|
            0 <= i < self.manifests@.len() && (#[trigger] self.manifests@[i]).present
                ==> self.manifests@[i].hash@ == sha256_of(self.manifests@[i].data@)
                    && self.manifests@[i].hash@.len() == 32
        &&& forall|i: int, j: int|
            0 <= i < self.tags@.len() && 0 <= j < self.tags@.len() && i != j
                && (#[trigger] self.tags@[i]).active && (#[trigger] self.tags@[j]).active ==> !(
            self.tags@[i].repo@ == self.tags@[j].repo@ && self.tags@[i].tag@ == self.tags@[j].tag@)
        &&& forall|i: int|
            0 <= i < self.tags@.len() && (#[trigger] self.tags@[i]).active
                ==> self.tags@[i].history@.len() >= 1
        &&& forall|i: int|
            0 <= i < self.manifests@.len() && (#[trigger] self.manifests@[i]).present
                ==> crate::bytes::distinct_list(self.manifests@[i].refs@)
        &&& forall|i: int|
            0 <= i < self.manifests@.len() && (#[trigger] self.manifests@[i]).present
                ==> self.manifests@[i].refcount >= 1
    }

    /// Whether a live manifest is stored under (repository, digest hash).
    pub open spec fn has_manifest(self, repo: Seq<u8>, h: Seq<u8>) -> bool {
        exists|i: int|
            0 <= i < self.manifests@.len() && (#[trigger] self.manifests@[i]).present
                && self.manifests@[i].repo@ == repo && self.manifests@[i].hash@ == h
    }

    /// The index of the live manifest under (repository, digest hash).
    pub open spec fn manifest_index(self, repo: Seq<u8>, h: Seq<u8>) -> int {
        choose|i: int|
            0 <= i < self.manifests@.len() && (#[trigger] self.manifests@[i]).present
                && self.manifests@[i].repo@ == repo && self.manifests@[i].hash@ == h
    }

    /// The bytes of the live manifest under (repository, digest hash).
    pub open spec fn manifest_data(self, repo: Seq<u8>, h: Seq<u8>) -> Seq<u8> {
        self.manifests@[self.manifest_index(repo, h)].data@
    }

    /// The distinct digest references recorded for the manifest.
    pub open spec fn manifest_refs(self, repo: Seq<u8>, h: Seq<u8>) -> Seq<Seq<u8>> {
        views_of(self.manifests@[self.manifest_index(repo, h)].refs@)
    }

    /// The reference count of the live manifest under (repository, digest
    /// hash): one for the stored record itself, plus one per stored
    /// manifest that references it.
    pub open spec fn manifest_rc(self, repo: Seq<u8>, h: Seq<u8>) -> u64 {
        self.manifests@[self.manifest_index(repo, h)].refcount
    }

    /// Whether a live tag (repository, tag) exists.
    pub open spec fn has_tag(self, repo: Seq<u8>, t: Seq<u8>) -> bool {
        exists|i: int|
            0 <= i < self.tags@.len() && (#[trigger] self.tags@[i]).active && self.tags@[i].repo@
                == repo && self.tags@[i].tag@ == t
    }

    /// The index of the live tag (repository, tag).
    pub open spec fn tag_index(self, repo: Seq<u8>, t: Seq<u8>) -> int {
        choose|i: int|
            0 <= i < self.tags@.len() && (#[trigger] self.tags@[i]).active && self.tags@[i].repo@
                == repo && self.tags@[i].tag@ == t
    }

    /// Every manifest hash the tag has pointed to, most recent first.
    pub open spec fn tag_history(self, repo: Seq<u8>, t: Seq<u8>) -> Seq<Seq<u8>> {
        views_of(self.tags@[self.tag_index(repo, t)].history@)
    }

    /// The manifest hash the tag currently points to.
    pub open spec fn tag_digest(self, repo: Seq<u8>, t: Seq<u8>) -> Seq<u8> {
        self.tag_history(repo, t)[0]
    }

    /// Whether the repository holds at least one live manifest.
    pub open spec fn has_repo(self, repo: Seq<u8>) -> bool {
        exists|i: int|
            0 <= i < self.manifests@.len() && (#[trigger] self.manifests@[i]).present
                && self.manifests@[i].repo@ == repo
    }

    /// All live manifests except the one under (repo, h) agree.
    pub open spec fn manifests_agree_except(pre: Self, post: Self, repo: Seq<u8>, h: Seq<u8>) -> bool {
        forall|r: Seq<u8>, g: Seq<u8>|
            !(r == repo && g == h) ==> #[trigger] post.has_manifest(r, g) == pre.has_manifest(r, g)
                && (pre.has_manifest(r, g) && post.has_manifest(r, g) ==> post.manifest_data(r, g)
                == pre.manifest_data(r, g) && post.manifest_refs(r, g) == pre.manifest_refs(r, g))
    }

    /// All live manifests except the one under (repo, h) agree, reference
    /// counts included.
    pub open spec fn manifests_agree_rc_except(pre: Self, post: Self, repo: Seq<u8>, h: Seq<u8>) -> bool {
        forall|r: Seq<u8>, g: Seq<u8>|
            !(r == repo && g == h) ==> #[trigger] post.has_manifest(r, g) == pre.has_manifest(r, g)
                && (pre.has_manifest(r, g) && post.has_manifest(r, g) ==> post.manifest_data(r, g)
                == pre.manifest_data(r, g) && post.manifest_refs(r, g) == pre.manifest_refs(r, g)
                && post.manifest_rc(r, g) == pre.manifest_rc(r, g))
    }

    /// All live tags except (repo, t) agree.
    pub open spec fn tags_agree_except(pre: Self, post: Self, repo: Seq<u8>, t: Seq<u8>) -> bool {
        forall|r: Seq<u8>, u: Seq<u8>|
            !(r == repo && u == t) ==> #[trigger] post.has_tag(r, u) == pre.has_tag(r, u) && (
            pre.has_tag(r, u) && post.has_tag(r, u) ==> post.tag_history(r, u) == pre.tag_history(
                r,
                u,
            ))
    }

    /// The live manifests of `pre` and `post` are the same.
    pub open spec fn manifests_same(pre: Self, post: Self) -> bool {
        &&& forall|r: Seq<u8>, g: Seq<u8>|
            #[trigger] post.has_manifest(r, g) == pre.has_manifest(r, g) && (pre.has_manifest(r, g)
                && post.has_manifest(r, g) ==> post.manifest_data(r, g) == pre.manifest_data(r, g)
                && post.manifest_refs(r, g) == pre.manifest_refs(r, g))
        &&& forall|r: Seq<u8>| #[trigger] post.has_repo(r) == pre.has_repo(r)
    }

    /// The live manifests of `pre` and `post` are the same, reference
    /// counts included.
    pub open spec fn manifests_same_rc(pre: Self, post: Self) -> bool {
        forall|r: Seq<u8>, g: Seq<u8>|
            #[trigger] post.has_manifest(r, g) == pre.has_manifest(r, g) && (pre.has_manifest(r, g)
                && post.has_manifest(r, g) ==> post.manifest_data(r, g) == pre.manifest_data(r, g)
                && post.manifest_refs(r, g) == pre.manifest_refs(r, g) && post.manifest_rc(r, g)
                == pre.manifest_rc(r, g))
    }

    /// The live tags of `pre` and `post` are the same.
    pub open spec fn tags_same(pre: Self, post: Self) -> bool {
        forall|r: Seq<u8>, t: Seq<u8>|
            #[trigger] post.has_tag(r, t) == pre.has_tag(r, t) && (pre.has_tag(r, t)
                && post.has_tag(r, t) ==> post.tag_history(r, t) == pre.tag_history(r, t))
    }

    /// Chaining: a tag-preserving step followed by an exception-framed tag
    /// change is still exception-framed.
    pub proof fn lemma_tags_same_then_agree(m0: Self, m1: Self, m2: Self, repo: Seq<u8>, t: Seq<u8>)
        requires
            Self::tags_same(m0, m1),
            Self::tags_agree_except(m1, m2, repo, t),
        ensures
            Self::tags_agree_except(m0, m2, repo, t),
    {
        assert forall|r: Seq<u8>, u: Seq<u8>| !(r == repo && u == t) implies #[trigger] m2.has_tag(
            r,
            u,
        ) == m0.has_tag(r, u) && (m0.has_tag(r, u) && m2.has_tag(r, u) ==> m2.tag_history(r, u)
            == m0.tag_history(r, u)) by {
            assert(m1.has_tag(r, u) == m0.has_tag(r, u) && (m0.has_tag(r, u) && m1.has_tag(r, u)
                ==> m1.tag_history(r, u) == m0.tag_history(r, u)));
            assert(m2.has_tag(r, u) == m1.has_tag(r, u) && (m1.has_tag(r, u) && m2.has_tag(r, u)
                ==> m2.tag_history(r, u) == m1.tag_history(r, u)));
        }
    }

    /// A live manifest entry at index `i` is the one its key resolves to.
    pub proof fn lemma_manifest_at(self, i: int)
        requires
            self.wf(),
            0 <= i < self.manifests@.len(),
            self.manifests@[i].present,
        ensures
            self.has_manifest(self.manifests@[i].repo@, self.manifests@[i].hash@),
            self.manifest_index(self.manifests@[i].repo@, self.manifests@[i].hash@) == i,
            self.has_repo(self.manifests@[i].repo@),
    {
        let repo = self.manifests@[i].repo@;
        let h = self.manifests@[i].hash@;
        assert(self.has_manifest(repo, h));
        let j = self.manifest_index(repo, h);
        if j != i {
            assert(!(self.manifests@[i].repo@ == self.manifests@[j].repo@
                && self.manifests@[i].hash@ == self.manifests@[j].hash@));
        }
    }

    /// A live tag entry at index `i` is the one its key resolves to.
    pub proof fn lemma_tag_at(self, i: int)
        requires
            self.wf(),
            0 <= i < self.tags@.len(),
            self.tags@[i].active,
        ensures
            self.has_tag(self.tags@[i].repo@, self.tags@[i].tag@),
            self.tag_index(self.tags@[i].repo@, self.tags@[i].tag@) == i,
    {
        let repo = self.tags@[i].repo@;
        let t = self.tags@[i].tag@;
        assert(self.has_tag(repo, t));
        let j = self.tag_index(repo, t);
        if j != i {
            assert(!(self.tags@[i].repo@ == self.tags@[j].repo@ && self.tags@[i].tag@
                == self.tags@[j].tag@));
        }
    }

    /// Manifests agree except (repo, h) when the list changed only at that
    /// key's slot.
    proof fn lemma_manifests_frame(pre: Self, post: Self, repo: Seq<u8>, h: Seq<u8>)
        requires
            pre.wf(),
            post.wf(),
            forall|i: int|
                0 <= i < pre.manifests@.len() && !((#[trigger] pre.manifests@[i]).repo@ == repo
                    && pre.manifests@[i].hash@ == h) ==> i < post.manifests@.len()
                    && post.manifests@[i] == pre.manifests@[i],
            forall|i: int|
                0 <= i < post.manifests@.len() && !((#[trigger] post.manifests@[i]).repo@ == repo
                    && post.manifests@[i].hash@ == h) ==> i < pre.manifests@.len()
                    && post.manifests@[i] == pre.manifests@[i],
        ensures
            Self::manifests_agree_except(pre, post, repo, h),
            Self::manifests_agree_rc_except(pre, post, repo, h),
    {
        assert forall|r: Seq<u8>, g: Seq<u8>| !(r == repo && g == h) implies #[trigger] post.has_manifest(
            r,
            g,
        ) == pre.has_manifest(r, g) && (pre.has_manifest(r, g) && post.has_manifest(r, g)
            ==> post.manifest_data(r, g) == pre.manifest_data(r, g) && post.manifest_refs(r, g)
            == pre.manifest_refs(r, g) && post.manifest_rc(r, g) == pre.manifest_rc(r, g)) by {
            if pre.has_manifest(r, g) {
                let i = pre.manifest_index(r, g);
                assert(pre.manifests@[i].present && pre.manifests@[i].repo@ == r
                    && pre.manifests@[i].hash@ == g);
                assert(post.manifests@[i] == pre.manifests@[i]);
                post.lemma_manifest_at(i);
            }
            if post.has_manifest(r, g) {
                let i = post.manifest_index(r, g);
                assert(post.manifests@[i].present && post.manifests@[i].repo@ == r
                    && post.manifests@[i].hash@ == g);
                assert(pre.manifests@[i] == post.manifests@[i]);
                pre.lemma_manifest_at(i);
            }
        }
    }

    /// Tags agree except (repo, t) when the list changed only at that key's
    /// slot.
    proof fn lemma_tags_frame(pre: Self, post: Self, repo: Seq<u8>, t: Seq<u8>)
        requires
            pre.wf(),
            post.wf(),
            forall|i: int|
                0 <= i < pre.tags@.len() && !((#[trigger] pre.tags@[i]).repo@ == repo
                    && pre.tags@[i].tag@ == t) ==> i < post.tags@.len() && post.tags@[i]
                    == pre.tags@[i],
            forall|i: int|
                0 <= i < post.tags@.len() && !((#[trigger] post.tags@[i]).repo@ == repo
                    && post.tags@[i].tag@ == t) ==> i < pre.tags@.len() && post.tags@[i]
                    == pre.tags@[i],
        ensures
            Self::tags_agree_except(pre, post, repo, t),
    {
        assert forall|r: Seq<u8>, u: Seq<u8>| !(r == repo && u == t) implies #[trigger] post.has_tag(
            r,
            u,
        ) == pre.has_tag(r, u) && (pre.has_tag(r, u) && post.has_tag(r, u) ==> post.tag_history(
            r,
            u,
        ) == pre.tag_history(r, u)) by {
            if pre.has_tag(r, u) {
                let i = pre.tag_index(r, u);
                assert(pre.tags@[i].active && pre.tags@[i].repo@ == r && pre.tags@[i].tag@ == u);
                assert(post.tags@[i] == pre.tags@[i]);
                post.lemma_tag_at(i);
            }
            if post.has_tag(r, u) {
                let i = post.tag_index(r, u);
                assert(post.tags@[i].active && post.tags@[i].repo@ == r && post.tags@[i].tag@ == u);
                assert(pre.tags@[i] == post.tags@[i]);
                pre.lemma_tag_at(i);
            }
        }
    }

    fn find_manifest(&self, repo: &Vec<u8>, h: &Vec<u8>) -> (r: Option<usize>)
        ensures
            match r {
                Some(i) => i < self.manifests@.len() && self.manifests@[i as int].present
                    && self.manifests@[i as int].repo@ == repo@ && self.manifests@[i as int].hash@
                    == h@ && self.has_manifest(repo@, h@),
                None => !self.has_manifest(repo@, h@),
            },
    {
        let n = self.manifests.len();
        let mut i: usize = 0;
        while i < n
            invariant
                n == self.manifests@.len(),
                0 <= i <= n,
                forall|k: int|
                    0 <= k < i ==> !((#[trigger] self.manifests@[k]).present
                        && self.manifests@[k].repo@ == repo@ && self.manifests@[k].hash@ == h@),
            decreases n - i,
        {
            if self.manifests[i].present && bytes_eq(&self.manifests[i].repo, repo) && bytes_eq(
                &self.manifests[i].hash,
                h,
            ) {
                return Some(i);
            }
            i += 1;
        }
        None
    }

    fn find_tag(&self, repo: &Vec<u8>, t: &Vec<u8>) -> (r: Option<usize>)
        ensures
            match r {
                Some(i) => i < self.tags@.len() && self.tags@[i as int].active
                    && self.tags@[i as int].repo@ == repo@ && self.tags@[i as int].tag@ == t@
                    && self.has_tag(repo@, t@),
                None => !self.has_tag(repo@, t@),
            },
    {
        let n = self.tags.len();
        let mut i: usize = 0;
        while i < n
            invariant
                n == self.tags@.len(),
                0 <= i <= n,
                forall|k: int|
                    0 <= k < i ==> !((#[trigger] self.tags@[k]).active && self.tags@[k].repo@
                        == repo@ && self.tags@[k].tag@ == t@),
            decreases n - i,
        {
            if self.tags[i].active && bytes_eq(&self.tags[i].repo, repo) && bytes_eq(
                &self.tags[i].tag,
                t,
            ) {
                return Some(i);
            }
            i += 1;
        }
        None
    }

    /// An empty manifest store.
    pub fn new() -> (s: Self)
        ensures
            s.wf(),
            s.manifests@.len() == 0,
            s.tags@.len() == 0,
            forall|r: Seq<u8>, h: Seq<u8>| !(#[trigger] s.has_manifest(r, h)),
            forall|r: Seq<u8>, t: Seq<u8>| !(#[trigger] s.has_tag(r, t)),
            forall|r: Seq<u8>| !(#[trigger] s.has_repo(r)),
    {
        ManifestStore { manifests: Vec::new(), tags: Vec::new() }
    }

    /// Stores a manifest under (repository, digest hash). Storing one that
    /// is already present changes nothing (the stored record is immutable);
    /// the result says whether the record is new.
    pub fn insert_manifest(
        &mut self,
        repo: Vec<u8>,
        hash: Vec<u8>,
        data: Vec<u8>,
        refs: Vec<Vec<u8>>,
    ) -> (is_new: bool)
        requires
            old(self).wf(),
            hash@ == sha256_of(data@),
            hash@.len() == 32,
            crate::bytes::distinct_list(refs@),
        ensures
            final(self).wf(),
            is_new == !old(self).has_manifest(repo@, hash@),
            final(self).has_manifest(repo@, hash@),
            final(self).manifest_data(repo@, hash@) == (
            if old(self).has_manifest(repo@, hash@) {
                old(self).manifest_data(repo@, hash@)
            } else {
                data@
            }),
            final(self).manifest_refs(repo@, hash@) == (
            if old(self).has_manifest(repo@, hash@) {
                old(self).manifest_refs(repo@, hash@)
            } else {
                views_of(refs@)
            }),
            final(self).manifest_rc(repo@, hash@) == (
            if old(self).has_manifest(repo@, hash@) {
                old(self).manifest_rc(repo@, hash@)
            } else {
                1u64
            }),
            Self::manifests_agree_except(*old(self), *final(self), repo@, hash@),
            Self::manifests_agree_rc_except(*old(self), *final(self), repo@, hash@),
            final(self).tags@ == old(self).tags@,
            Self::tags_same(*old(self), *final(self)),
    {
        let ghost pre = *self;
        match self.find_manifest(&repo, &hash) {
            Some(i) => {
                proof {
                    self.lemma_manifest_at(i as int);
                    Self::lemma_manifests_frame(pre, *self, repo@, hash@);
                }
                false
            },
            None => {
                self.manifests.push(
                    ManifestEntry { repo, hash, data, refs, refcount: 1, present: true },
                );
                proof {
                    let n = pre.manifests@.len() as int;
                    assert(self.wf());
                    self.lemma_manifest_at(n);
                    Self::lemma_manifests_frame(pre, *self, repo@, hash@);
                }
                true
            },
        }
    }

    /// Removes the manifest under (repository, digest hash) and hands back
    /// the digest references it recorded, for the caller's cascading
    /// reference-count decrements.
    pub fn remove_manifest(&mut self, repo: &Vec<u8>, hash: &Vec<u8>) -> (r: Result<
        Vec<Vec<u8>>,
        RegistryError,
    >)
        requires
            old(self).wf(),
        ensures
            final(self).wf(),
            final(self).tags@ == old(self).tags@,
            Self::tags_same(*old(self), *final(self)),
            Self::manifests_agree_except(*old(self), *final(self), repo@, hash@),
            Self::manifests_agree_rc_except(*old(self), *final(self), repo@, hash@),
            match r {
                Ok(refs) => old(self).has_manifest(repo@, hash@) && views_of(refs@) == old(self).manifest_refs(repo@, hash@) && crate::bytes::distinct_list(refs@) && !final(self).has_manifest(repo@, hash@),
                Err(e) => e == RegistryError::NotFound && !old(self).has_manifest(repo@, hash@)
                    && *final(self) == *old(self),
            },
    {
        let i = match self.find_manifest(repo, hash) {
            None => {
                return Err(RegistryError::NotFound);
            },
            Some(i) => i,
        };
        proof {
            self.lemma_manifest_at(i as int);
        }
        let ghost pre = *self;
        let refs = copy_list(&self.manifests[i].refs);
        proof {
            assert forall|a: int, b: int| 0 <= a < b < refs@.len() implies (#[trigger] refs@[a])@
                != (#[trigger] refs@[b])@ by {
                let mrefs = self.manifests@[i as int].refs@;
                assert(views_of(refs@) == views_of(mrefs));
                assert(views_of(mrefs).len() == mrefs.len());
                assert(views_of(refs@)[a] == refs@[a]@);
                assert(views_of(refs@)[b] == refs@[b]@);
                assert(views_of(mrefs)[a] == mrefs[a]@);
                assert(views_of(mrefs)[b] == mrefs[b]@);
            }
        }
        let rcopy = copy_bytes(&self.manifests[i].repo);
        let hcopy = copy_bytes(&self.manifests[i].hash);
        self.manifests[i] = ManifestEntry {
            repo: rcopy,
            hash: hcopy,
            data: Vec::new(),
            refs: Vec::new(),
            refcount: 0,
            present: false,
        };
        proof {
            assert(self.wf());
            assert forall|j: int|
                0 <= j < self.manifests@.len() && (#[trigger] self.manifests@[j]).present
                    implies !(self.manifests@[j].repo@ == repo@ && self.manifests@[j].hash@
                == hash@) by {
                if j != i as int {
                    assert(pre.manifests@[j].present && pre.manifests@[i as int].present);
                }
            }
            assert(!self.has_manifest(repo@, hash@));
            Self::lemma_manifests_frame(pre, *self, repo@, hash@);
        }
        Ok(refs)
    }

    /// Atomically repoints (or creates) a tag to a manifest hash. Last
    /// write wins; the previous target stays in the tag's history.
    pub fn point_tag(&mut self, repo: Vec<u8>, tag: Vec<u8>, hash: &Vec<u8>)
        requires
            old(self).wf(),
        ensures
            final(self).wf(),
            final(self).manifests@ == old(self).manifests@,
            Self::manifests_same(*old(self), *final(self)),
            Self::manifests_same_rc(*old(self), *final(self)),
            final(self).has_tag(repo@, tag@),
            final(self).tag_digest(repo@, tag@) == hash@,
            final(self).tag_history(repo@, tag@) == seq![hash@] + (
            if old(self).has_tag(repo@, tag@) {
                old(self).tag_history(repo@, tag@)
            } else {
                Seq::<Seq<u8>>::empty()
            }),
            Self::tags_agree_except(*old(self), *final(self), repo@, tag@),
    {
        let ghost pre = *self;
        let mut nh: Vec<Vec<u8>> = Vec::new();
        nh.push(copy_bytes(hash));
        match self.find_tag(&repo, &tag) {
            Some(i) => {
                proof {
                    self.lemma_tag_at(i as int);
                }
                let old_hist = copy_list(&self.tags[i].history);
                let mut k: usize = 0;
                let m = old_hist.len();
                while k < m
                    invariant
                        m == old_hist@.len(),
                        0 <= k <= m,
                        views_of(nh@) =~= seq![hash@] + views_of(old_hist@).take(k as int),
                    decreases m - k,
                {
                    let ghost nhpre = nh@;
                    nh.push(copy_bytes(&old_hist[k]));
                    proof {
                        assert(views_of(nh@) =~= views_of(nhpre).push(old_hist@[k as int]@));
                        assert(views_of(nh@) =~= seq![hash@] + views_of(old_hist@).take(k + 1));
                    }
                    k += 1;
                }
                proof {
                    assert(views_of(old_hist@).take(m as int) =~= views_of(old_hist@));
                }
                self.tags[i] = TagEntry { repo, tag, history: nh, active: true };
                proof {
                    assert(self.wf());
                    self.lemma_tag_at(i as int);
                    assert(self.tag_history(pre.tags@[i as int].repo@, pre.tags@[i as int].tag@)
                        =~= seq![hash@] + pre.tag_history(
                        pre.tags@[i as int].repo@,
                        pre.tags@[i as int].tag@,
                    ));
                    Self::lemma_tags_frame(pre, *self, pre.tags@[i as int].repo@, pre.tags@[i as int].tag@);
                }
            },
            None => {
                proof {
                    assert(views_of(nh@) =~= seq![hash@]);
                }
                self.tags.push(TagEntry { repo, tag, history: nh, active: true });
                proof {
                    let n = pre.tags@.len() as int;
                    assert forall|j: int|
                        0 <= j < self.tags@.len() && j != n && (#[trigger] self.tags@[j]).active
                            implies !(self.tags@[j].repo@ == repo@ && self.tags@[j].tag@
                        == tag@) by {
                        assert(pre.tags@[j] == self.tags@[j]);
                        if self.tags@[j].repo@ == repo@ && self.tags@[j].tag@ == tag@ {
                            assert(pre.has_tag(repo@, tag@));
                        }
                    }
                    assert(self.wf());
                    self.lemma_tag_at(n);
                    assert(self.tag_history(repo@, tag@) =~= seq![hash@] + Seq::<Seq<u8>>::empty());
                    Self::lemma_tags_frame(pre, *self, repo@, tag@);
                }
            },
        }
    }

    /// Deletes a tag pointer. The manifest it pointed to is untouched.
    pub fn delete_tag(&mut self, repo: &Vec<u8>, tag: &Vec<u8>) -> (r: Result<(), RegistryError>)
        requires
            old(self).wf(),
        ensures
            final(self).wf(),
            final(self).manifests@ == old(self).manifests@,
            Self::manifests_same(*old(self), *final(self)),
            Self::manifests_same_rc(*old(self), *final(self)),
            Self::tags_agree_except(*old(self), *final(self), repo@, tag@),
            match r {
                Ok(()) => old(self).has_tag(repo@, tag@) && !final(self).has_tag(repo@, tag@),
                Err(e) => e == RegistryError::NotFound && !old(self).has_tag(repo@, tag@) && *final(self) == *old(self),
            },
    {
        let i = match self.find_tag(repo, tag) {
            None => {
                return Err(RegistryError::NotFound);
            },
            Some(i) => i,
        };
        proof {
            self.lemma_tag_at(i as int);
        }
        let ghost pre = *self;
        let rcopy = copy_bytes(repo);
        let tcopy = copy_bytes(tag);
        self.tags[i] = TagEntry { repo: rcopy, tag: tcopy, history: Vec::new(), active: false };
        proof {
            assert(self.wf());
            assert forall|j: int|
                0 <= j < self.tags@.len() && (#[trigger] self.tags@[j]).active implies !(
            self.tags@[j].repo@ == repo@ && self.tags@[j].tag@ == tag@) by {
                if j != i as int {
                    assert(pre.tags@[j].active && pre.tags@[i as int].active);
                }
            }
            assert(!self.has_tag(repo@, tag@));
            Self::lemma_tags_frame(pre, *self, repo@, tag@);
        }
        Ok(())
    }

    /// Records one more reference to a stored manifest (a manifest that
    /// names it was stored).
    pub fn add_manifest_ref(&mut self, repo: &Vec<u8>, hash: &Vec<u8>) -> (r: Result<
        (),
        RegistryError,
    >)
        requires
            old(self).wf(),
        ensures
            final(self).wf(),
            final(self).tags@ == old(self).tags@,
            Self::manifests_agree_rc_except(*old(self), *final(self), repo@, hash@),
            match r {
                Ok(()) => old(self).has_manifest(repo@, hash@) && old(self).manifest_rc(
                    repo@,
                    hash@,
                ) < u64::MAX && final(self).has_manifest(repo@, hash@) && final(self).manifest_rc(
                    repo@,
                    hash@,
                ) == old(self).manifest_rc(repo@, hash@) + 1 && final(self).manifest_data(
                    repo@,
                    hash@,
                ) == old(self).manifest_data(repo@, hash@) && final(self).manifest_refs(
                    repo@,
                    hash@,
                ) == old(self).manifest_refs(repo@, hash@),
                Err(e) => *final(self) == *old(self) && (
                if !old(self).has_manifest(repo@, hash@) {
                    e == RegistryError::NotFound
                } else {
                    e == RegistryError::CapacityExceeded && old(self).manifest_rc(repo@, hash@)
                        == u64::MAX
                }),
            },
    {
        let i = match self.find_manifest(repo, hash) {
            None => {
                return Err(RegistryError::NotFound);
            },
            Some(i) => i,
        };
        proof {
            self.lemma_manifest_at(i as int);
        }
        let rc = self.manifests[i].refcount;
        if rc == u64::MAX {
            return Err(RegistryError::CapacityExceeded);
        }
        let ghost pre = *self;
        let rcopy = copy_bytes(&self.manifests[i].repo);
        let hcopy = copy_bytes(&self.manifests[i].hash);
        let dcopy = copy_bytes(&self.manifests[i].data);
        let refs2 = copy_list(&self.manifests[i].refs);
        proof {
            assert forall|a: int, b: int| 0 <= a < b < refs2@.len() implies (#[trigger] refs2@[a])@
                != (#[trigger] refs2@[b])@ by {
                let mrefs = self.manifests@[i as int].refs@;
                assert(views_of(refs2@) == views_of(mrefs));
                assert(views_of(mrefs).len() == mrefs.len());
                assert(views_of(refs2@)[a] == refs2@[a]@);
                assert(views_of(refs2@)[b] == refs2@[b]@);
                assert(views_of(mrefs)[a] == mrefs[a]@);
                assert(views_of(mrefs)[b] == mrefs[b]@);
            }
        }
        self.manifests[i] = ManifestEntry {
            repo: rcopy,
            hash: hcopy,
            data: dcopy,
            refs: refs2,
            refcount: rc + 1,
            present: true,
        };
        proof {
            assert(self.wf());
            self.lemma_manifest_at(i as int);
            Self::lemma_manifests_frame(pre, *self, repo@, hash@);
        }
        Ok(())
    }

    /// Releases one reference to a stored manifest; the record is reclaimed
    /// when its count reaches zero. Reclamation does not recurse into the
    /// reclaimed record's own references (deletion decrements and maybe
    /// reclaims, it never follows pointers downward).
    pub fn release_manifest_ref(&mut self, repo: &Vec<u8>, hash: &Vec<u8>) -> (r: Result<
        (),
        RegistryError,
    >)
        requires
            old(self).wf(),
        ensures
            final(self).wf(),
            final(self).tags@ == old(self).tags@,
            Self::manifests_agree_rc_except(*old(self), *final(self), repo@, hash@),
            match r {
                Ok(()) => old(self).has_manifest(repo@, hash@) && (old(self).manifest_rc(
                    repo@,
                    hash@,
                ) > 1 ==> final(self).has_manifest(repo@, hash@) && final(self).manifest_rc(
                    repo@,
                    hash@,
                ) == old(self).manifest_rc(repo@, hash@) - 1 && final(self).manifest_data(
                    repo@,
                    hash@,
                ) == old(self).manifest_data(repo@, hash@) && final(self).manifest_refs(
                    repo@,
                    hash@,
                ) == old(self).manifest_refs(repo@, hash@)) && (old(self).manifest_rc(repo@, hash@)
                    == 1 ==> !final(self).has_manifest(repo@, hash@)),
                Err(e) => e == RegistryError::NotFound && !old(self).has_manifest(repo@, hash@)
                    && *final(self) == *old(self),
            },
    {
        let i = match self.find_manifest(repo, hash) {
            None => {
                return Err(RegistryError::NotFound);
            },
            Some(i) => i,
        };
        proof {
            self.lemma_manifest_at(i as int);
        }
        let ghost pre = *self;
        let rc = self.manifests[i].refcount;
        let rcopy = copy_bytes(&self.manifests[i].repo);
        let hcopy = copy_bytes(&self.manifests[i].hash);
        if rc == 1 {
            self.manifests[i] = ManifestEntry {
                repo: rcopy,
                hash: hcopy,
                data: Vec::new(),
                refs: Vec::new(),
                refcount: 0,
                present: false,
            };
            proof {
                assert(self.wf());
                assert forall|j: int|
                    0 <= j < self.manifests@.len() && (#[trigger] self.manifests@[j]).present
                        implies !(self.manifests@[j].repo@ == repo@ && self.manifests@[j].hash@
                    == hash@) by {
                    if j != i as int {
                        assert(pre.manifests@[j].present && pre.manifests@[i as int].present);
                    }
                }
                assert(!self.has_manifest(repo@, hash@));
                Self::lemma_manifests_frame(pre, *self, repo@, hash@);
            }
        } else {
            let dcopy = copy_bytes(&self.manifests[i].data);
            let refs2 = copy_list(&self.manifests[i].refs);
            proof {
                assert forall|a: int, b: int|
                    0 <= a < b < refs2@.len() implies (#[trigger] refs2@[a])@ != (
                #[trigger] refs2@[b])@ by {
                    let mrefs = self.manifests@[i as int].refs@;
                    assert(views_of(refs2@) == views_of(mrefs));
                    assert(views_of(mrefs).len() == mrefs.len());
                    assert(views_of(refs2@)[a] == refs2@[a]@);
                    assert(views_of(refs2@)[b] == refs2@[b]@);
                    assert(views_of(mrefs)[a] == mrefs[a]@);
                    assert(views_of(mrefs)[b] == mrefs[b]@);
                }
            }
            self.manifests[i] = ManifestEntry {
                repo: rcopy,
                hash: hcopy,
                data: dcopy,
                refs: refs2,
                refcount: rc - 1,
                present: true,
            };
            proof {
                assert(self.wf());
                self.lemma_manifest_at(i as int);
                Self::lemma_manifests_frame(pre, *self, repo@, hash@);
            }
        }
        Ok(())
    }

    /// The bytes of the manifest stored under (repository, digest hash).
    pub fn manifest_bytes(&self, repo: &Vec<u8>, hash: &Vec<u8>) -> (r: Result<
        &Vec<u8>,
        RegistryError,
    >)
        requires
            self.wf(),
        ensures
            match r {
                Ok(v) => self.has_manifest(repo@, hash@) && v@ == self.manifest_data(repo@, hash@),
                Err(e) => e == RegistryError::NotFound && !self.has_manifest(repo@, hash@),
            },
    {
        match self.find_manifest(repo, hash) {
            Some(i) => {
                proof {
                    self.lemma_manifest_at(i as int);
                }
                Ok(&self.manifests[i].data)
            },
            None => Err(RegistryError::NotFound),
        }
    }

    /// The reference count of a stored manifest.
    pub fn manifest_ref_count(&self, repo: &Vec<u8>, hash: &Vec<u8>) -> (r: Result<
        u64,
        RegistryError,
    >)
        requires
            self.wf(),
        ensures
            match r {
                Ok(c) => self.has_manifest(repo@, hash@) && c == self.manifest_rc(repo@, hash@),
                Err(e) => e == RegistryError::NotFound && !self.has_manifest(repo@, hash@),
            },
    {
        match self.find_manifest(repo, hash) {
            Some(i) => {
                proof {
                    self.lemma_manifest_at(i as int);
                }
                Ok(self.manifests[i].refcount)
            },
            None => Err(RegistryError::NotFound),
        }
    }

    /// The manifest hash a tag currently points to.
    pub fn tag_target(&self, repo: &Vec<u8>, tag: &Vec<u8>) -> (r: Result<&Vec<u8>, RegistryError>)
        requires
            self.wf(),
        ensures
            match r {
                Ok(v) => self.has_tag(repo@, tag@) && v@ == self.tag_digest(repo@, tag@),
                Err(e) => e == RegistryError::NotFound && !self.has_tag(repo@, tag@),
            },
    {
        match self.find_tag(repo, tag) {
            Some(i) => {
                proof {
                    self.lemma_tag_at(i as int);
                    assert(views_of(self.tags@[i as int].history@)[0]
                        == self.tags@[i as int].history@[0]@);
                }
                Ok(&self.tags[i].history[0])
            },
            None => Err(RegistryError::NotFound),
        }
    }

    /// Every hash a tag has pointed to, most recent first.
    pub fn history_of(&self, repo: &Vec<u8>, tag: &Vec<u8>) -> (r: Result<
        Vec<Vec<u8>>,
        RegistryError,
    >)
        requires
            self.wf(),
        ensures
            match r {
                Ok(v) => self.has_tag(repo@, tag@) && views_of(v@) == self.tag_history(repo@, tag@),
                Err(e) => e == RegistryError::NotFound && !self.has_tag(repo@, tag@),
            },
    {
        match self.find_tag(repo, tag) {
            Some(i) => {
                proof {
                    self.lemma_tag_at(i as int);
                }
                Ok(copy_list(&self.tags[i].history))
            },
            None => Err(RegistryError::NotFound),
        }
    }

    /// The tag names of a repository, lexicographically ordered. An empty
    /// list, not an error, for a repository with no tags.
    pub fn list_tags(&self, repo: &Vec<u8>) -> (r: Vec<Vec<u8>>)
        requires
            self.wf(),
        ensures
            sorted_strict(views_of(r@)),
            forall|t: Seq<u8>| #[trigger] contains_seq(views_of(r@), t) == self.has_tag(repo@, t),
    {
        let n = self.tags.len();
        let mut out: Vec<Vec<u8>> = Vec::new();
        let mut i: usize = 0;
        while i < n
            invariant
                self.wf(),
                n == self.tags@.len(),
                0 <= i <= n,
                sorted_strict(views_of(out@)),
                forall|t: Seq<u8>|
                    #[trigger] contains_seq(views_of(out@), t) == exists|k: int|
                        0 <= k < i && (#[trigger] self.tags@[k]).active && self.tags@[k].repo@
                            == repo@ && self.tags@[k].tag@ == t,
            decreases n - i,
        {
            let ghost pre = out@;
            if self.tags[i].active && bytes_eq(&self.tags[i].repo, repo) {
                insert_sorted(&mut out, &self.tags[i].tag);
            }
            proof {
                assert forall|t: Seq<u8>|
                    #[trigger] contains_seq(views_of(out@), t) == exists|k: int|
                        0 <= k < i + 1 && (#[trigger] self.tags@[k]).active && self.tags@[k].repo@
                            == repo@ && self.tags@[k].tag@ == t by {
                    let here = self.tags@[i as int].active && self.tags@[i as int].repo@ == repo@;
                    if contains_seq(views_of(out@), t) {
                        if here && t == self.tags@[i as int].tag@ {
                            assert(self.tags@[i as int].active);
                        } else {
                            assert(contains_seq(views_of(pre), t));
                            let k = choose|k: int|
                                0 <= k < i && (#[trigger] self.tags@[k]).active
                                    && self.tags@[k].repo@ == repo@ && self.tags@[k].tag@ == t;
                            assert(self.tags@[k].active);
                        }
                    }
                    if exists|k: int|
                        0 <= k < i + 1 && (#[trigger] self.tags@[k]).active && self.tags@[k].repo@
                            == repo@ && self.tags@[k].tag@ == t {
                        let k = choose|k: int|
                            0 <= k < i + 1 && (#[trigger] self.tags@[k]).active
                                && self.tags@[k].repo@ == repo@ && self.tags@[k].tag@ == t;
                        if k < i {
                            assert(contains_seq(views_of(pre), t));
                        }
                        assert(contains_seq(views_of(out@), t));
                    }
                }
            }
            i += 1;
        }
        proof {
            assert forall|t: Seq<u8>|
                #[trigger] contains_seq(views_of(out@), t) == self.has_tag(repo@, t) by {}
        }
        out
    }

    /// The repository catalog: every repository with a live manifest,
    /// lexicographically ordered.
    pub fn catalog(&self) -> (r: Vec<Vec<u8>>)
        requires
            self.wf(),
        ensures
            sorted_strict(views_of(r@)),
            forall|x: Seq<u8>| #[trigger] contains_seq(views_of(r@), x) == self.has_repo(x),
    {
        let n = self.manifests.len();
        let mut out: Vec<Vec<u8>> = Vec::new();
        let mut i: usize = 0;
        while i < n
            invariant
                self.wf(),
                n == self.manifests@.len(),
                0 <= i <= n,
                sorted_strict(views_of(out@)),
                forall|x: Seq<u8>|
                    #[trigger] contains_seq(views_of(out@), x) == exists|k: int|
                        0 <= k < i && (#[trigger] self.manifests@[k]).present
                            && self.manifests@[k].repo@ == x,
            decreases n - i,
        {
            let ghost pre = out@;
            if self.manifests[i].present {
                insert_sorted(&mut out, &self.manifests[i].repo);
            }
            proof {
                assert forall|x: Seq<u8>|
                    #[trigger] contains_seq(views_of(out@), x) == exists|k: int|
                        0 <= k < i + 1 && (#[trigger] self.manifests@[k]).present
                            && self.manifests@[k].repo@ == x by {
                    let here = self.manifests@[i as int].present;
                    if contains_seq(views_of(out@), x) {
                        if here && x == self.manifests@[i as int].repo@ {
                            assert(self.manifests@[i as int].present);
                        } else {
                            assert(contains_seq(views_of(pre), x));
                            let k = choose|k: int|
                                0 <= k < i && (#[trigger] self.manifests@[k]).present
                                    && self.manifests@[k].repo@ == x;
                            assert(self.manifests@[k].present);
                        }
                    }
                    if exists|k: int|
                        0 <= k < i + 1 && (#[trigger] self.manifests@[k]).present
                            && self.manifests@[k].repo@ == x {
                        let k = choose|k: int|
                            0 <= k < i + 1 && (#[trigger] self.manifests@[k]).present
                                && self.manifests@[k].repo@ == x;
                        if k < i {
                            assert(contains_seq(views_of(pre), x));
                        }
                        assert(contains_seq(views_of(out@), x));
                    }
                }
            }
            i += 1;
        }
        out
    }

    /// One page of the catalog: at most `limit` repository names starting
    /// at position `start` of the full lexicographically ordered catalog.
    pub fn catalog_page(&self, start: usize, limit: usize) -> (r: Vec<Vec<u8>>)
        requires
            self.wf(),
        ensures
            exists|full: Seq<Seq<u8>>|
                sorted_strict(full) && (forall|x: Seq<u8>|
                    #[trigger] contains_seq(full, x) == self.has_repo(x)) && views_of(r@)
                    == #[trigger] full.subrange(
                    vstd::math::min(start as int, full.len() as int),
                    vstd::math::min(start as int + limit as int, full.len() as int),
                ),
    {
        let cat = self.catalog();
        let n = cat.len();
        let lo = if start <= n {
            start
        } else {
            n
        };
        let hi = if limit <= n - lo {
            lo + limit
        } else {
            n
        };
        let mut out: Vec<Vec<u8>> = Vec::new();
        let mut i: usize = lo;
        while i < hi
            invariant
                n == cat@.len(),
                lo <= i <= hi <= n,
                views_of(out@) =~= views_of(cat@).subrange(lo as int, i as int),
            decreases hi - i,
        {
            let ghost pre = out@;
            out.push(copy_bytes(&cat[i]));
            proof {
                assert(views_of(out@) =~= views_of(pre).push(cat@[i as int]@));
                assert(views_of(out@) =~= views_of(cat@).subrange(lo as int, i + 1));
            }
            i += 1;
        }
        proof {
            let full = views_of(cat@);
            assert(views_of(out@) =~= full.subrange(
                vstd::math::min(start as int, full.len() as int),
                vstd::math::min(start as int + limit as int, full.len() as int),
            ));
        }
        out
    }
}

/// Law (tag pointer race): two writes that stored manifests `h1` then `h2`
/// and repointed the same tag leave the tag at the later digest, while both
/// digest-addressed manifests stay independently retrievable.
pub proof fn lemma_tag_last_write_wins(
    m1: ManifestStore,
    m2: ManifestStore,
    repo: Seq<u8>,
    tag: Seq<u8>,
    h1: Seq<u8>,
    h2: Seq<u8>,
)
    requires
        h1 != h2,
        m1.has_manifest(repo, h1),
        forall|r: Seq<u8>, g: Seq<u8>|
            !(r == repo && g == h2) ==> #[trigger] m2.has_manifest(r, g) == m1.has_manifest(r, g),
        m2.has_manifest(repo, h2),
        m2.has_tag(repo, tag),
        m2.tag_digest(repo, tag) == h2,
    ensures
        m2.has_manifest(repo, h1),
        m2.has_manifest(repo, h2),
        m2.tag_digest(repo, tag) == h2,
{
    assert(m2.has_manifest(repo, h1) == m1.has_manifest(repo, h1));
}

} // verus!
