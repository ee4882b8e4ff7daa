//! The registry facade: composes the blob store, the manifest store and
//! the proxy configuration; enforces the manifest size limit; validates
//! and garbage-collects manifest references.

use vstd::prelude::*;
use crate::blob::BlobStore;
use crate::bytes::bytes_eq;
use crate::bytes::contains_seq;
use crate::bytes::contains_vec;
use crate::bytes::copy_bytes;
use crate::bytes::distinct_list;
use crate::bytes::views_of;
use crate::digest::{compute, hash_of_text, is_sha256_text, sha256_of, Digest};
use crate::errors::RegistryError;
use crate::manifest::ManifestStore;
use crate::proxy::{pick_proxy, proxy_pick, RegistryProxyConfig};
use crate::scan::{extract_refs, json_doc_ok, json_parses, refs_of};

verus! {

/// The registry: content-addressed blobs, manifests and tags, plus the
/// static proxy configuration and the manifest size limit.
pub struct Registry {
    pub max_manifest_size: u64,
    pub blobs: BlobStore,
    pub manifests: ManifestStore,
    pub proxies: Vec<RegistryProxyConfig>,
}

/// Whether `g` is the hash of some well-formed digest reference of the
/// manifest document `bytes`.
pub open spec fn ref_hash_listed(bytes: Seq<u8>, g: Seq<u8>) -> bool {
    exists|t: Seq<u8>|
        #[trigger] contains_seq(refs_of(bytes, 0), t) && is_sha256_text(t) && hash_of_text(t) == g
}

/// Whether every digest reference of the document resolves to a stored
/// blob, or to a manifest of the same repository.
pub open spec fn all_refs_resolve(
    blobs: BlobStore,
    ms: ManifestStore,
    repo: Seq<u8>,
    bytes: Seq<u8>,
) -> bool {
    forall|t: Seq<u8>|
        #[trigger] contains_seq(refs_of(bytes, 0), t) ==> is_sha256_text(t) && (blobs.has_blob(
            hash_of_text(t),
        ) || ms.has_manifest(repo, hash_of_text(t)))
}

/// The manifest hash a reference names: a digest reference names its own
/// hash, a tag names the tag's current target.
pub open spec fn resolved_hash(ms: ManifestStore, repo: Seq<u8>, reference: Seq<u8>) -> Seq<u8> {
    if is_sha256_text(reference) {
        hash_of_text(reference)
    } else {
        ms.tag_digest(repo, reference)
    }
}

/// Whether the reference resolves to a stored manifest of the repository.
pub open spec fn resolvable(ms: ManifestStore, repo: Seq<u8>, reference: Seq<u8>) -> bool {
    if is_sha256_text(reference) {
        ms.has_manifest(repo, hash_of_text(reference))
    } else {
        ms.has_tag(repo, reference) && ms.has_manifest(repo, ms.tag_digest(repo, reference))
    }
}

/// How storing a manifest changes blob reference counts: when `counted`,
/// every stored blob that the document references gains one reference;
/// nothing else changes.
pub open spec fn publish_ref_effect(
    preb: BlobStore,
    postb: BlobStore,
    bytes: Seq<u8>,
    counted: bool,
) -> bool {
    forall|g: Seq<u8>|
        #![trigger postb.has_blob(g)]
        postb.has_blob(g) == preb.has_blob(g) && (preb.has_blob(g) ==> postb.blob_data(g)
            == preb.blob_data(g) && postb.blob_rc(g) == preb.blob_rc(g) + (
        if counted && ref_hash_listed(bytes, g) && preb.blob_rc(g) < u64::MAX {
            1int
        } else {
            0int
        }))
}

/// How deleting a manifest changes blob reference counts: every stored
/// blob among `refs` loses one reference, and is gone when it was the
/// last; nothing else changes.
pub open spec fn gc_effect(preb: BlobStore, postb: BlobStore, refs: Seq<Seq<u8>>) -> bool {
    forall|g: Seq<u8>|
        #![trigger postb.has_blob(g)]
        if contains_seq(refs, g) && preb.has_blob(g) {
            if preb.blob_rc(g) > 1 {
                postb.has_blob(g) && postb.blob_rc(g) == preb.blob_rc(g) - 1 && postb.blob_data(g)
                    == preb.blob_data(g)
            } else {
                !postb.has_blob(g)
            }
        } else {
            postb.has_blob(g) == preb.has_blob(g) && (preb.has_blob(g) ==> postb.blob_rc(g)
                == preb.blob_rc(g) && postb.blob_data(g) == preb.blob_data(g))
        }
}

/// Loop view of reference counting: the first `k` collected hashes have
/// been credited against `bpre`.
pub open spec fn add_refs_partial(bpre: BlobStore, bcur: BlobStore, hs: Seq<Seq<u8>>, k: int) -> bool {
    forall|g: Seq<u8>|
        #![trigger bcur.has_blob(g)]
        bcur.has_blob(g) == bpre.has_blob(g) && (bpre.has_blob(g) ==> bcur.blob_data(g)
            == bpre.blob_data(g) && bcur.blob_rc(g) == bpre.blob_rc(g) + (
        if contains_seq(hs.take(k), g) && bpre.blob_rc(g) < u64::MAX {
            1int
        } else {
            0int
        }))
}

proof fn lemma_add_refs_zero(bpre: BlobStore, hs: Seq<Seq<u8>>)
    ensures
        add_refs_partial(bpre, bpre, hs, 0),
{
    assert forall|g: Seq<u8>|
        #![trigger bpre.has_blob(g)]
        bpre.has_blob(g) == bpre.has_blob(g) && (bpre.has_blob(g) ==> bpre.blob_data(g)
            == bpre.blob_data(g) && bpre.blob_rc(g) == bpre.blob_rc(g) + (
        if contains_seq(hs.take(0), g) && bpre.blob_rc(g) < u64::MAX {
            1int
        } else {
            0int
        })) by {
        if contains_seq(hs.take(0), g) {
            let z = choose|z: int| 0 <= z < hs.take(0).len() && hs.take(0)[z] == g;
            assert(false);
        }
    }
}

#[verifier::spinoff_prover]
proof fn lemma_add_refs_step(
    bpre: BlobStore,
    bcur: BlobStore,
    bpost: BlobStore,
    hs: Seq<Seq<u8>>,
    k: int,
    r: Result<(), RegistryError>,
)
    requires
        0 <= k < hs.len(),
        forall|a: int, b: int| 0 <= a < b < hs.len() ==> hs[a] != hs[b],
        add_refs_partial(bpre, bcur, hs, k),
        BlobStore::blobs_agree_except(bcur, bpost, hs[k]),
        match r {
            Ok(()) => bcur.has_blob(hs[k]) && bcur.blob_rc(hs[k]) < u64::MAX && bpost.has_blob(
                hs[k],
            ) && bpost.blob_rc(hs[k]) == bcur.blob_rc(hs[k]) + 1 && bpost.blob_data(hs[k])
                == bcur.blob_data(hs[k]),
            Err(e) => bpost == bcur && (!bcur.has_blob(hs[k]) || bcur.blob_rc(hs[k]) == u64::MAX),
        },
    ensures
        add_refs_partial(bpre, bpost, hs, k + 1),
{
    let hk = hs[k];
    assert(!contains_seq(hs.take(k), hk)) by {
        if contains_seq(hs.take(k), hk) {
            let z = choose|z: int| 0 <= z < hs.take(k).len() && hs.take(k)[z] == hk;
            assert(hs[z] == hs[k]);
        }
    }
    assert forall|g: Seq<u8>|
        #![trigger bpost.has_blob(g)]
        bpost.has_blob(g) == bpre.has_blob(g) && (bpre.has_blob(g) ==> bpost.blob_data(g)
            == bpre.blob_data(g) && bpost.blob_rc(g) == bpre.blob_rc(g) + (
        if contains_seq(hs.take(k + 1), g) && bpre.blob_rc(g) < u64::MAX {
            1int
        } else {
            0int
        })) by {
        assert(bcur.has_blob(g) == bpre.has_blob(g));
        if g != hk {
            assert(contains_seq(hs.take(k + 1), g) == contains_seq(hs.take(k), g)) by {
                let t1 = hs.take(k + 1);
                let t0 = hs.take(k);
                if contains_seq(t1, g) {
                    let z = choose|z: int| 0 <= z < t1.len() && t1[z] == g;
                    assert(z < k);
                    assert(t0[z] == g);
                }
                if contains_seq(t0, g) {
                    let z = choose|z: int| 0 <= z < t0.len() && t0[z] == g;
                    assert(t1[z] == g);
                }
            }
            assert(bpost.has_blob(g) == bcur.has_blob(g));
            if bcur.has_blob(g) {
                assert(bpost.blob_data(g) == bcur.blob_data(g) && bpost.blob_rc(g)
                    == bcur.blob_rc(g));
            }
        } else {
            assert(hs.take(k + 1)[k] == hk);
            assert(contains_seq(hs.take(k + 1), hk));
            if bcur.has_blob(hk) {
                assert(bcur.blob_rc(hk) == bpre.blob_rc(hk));
                if bcur.blob_rc(hk) < u64::MAX {
                    assert(r is Ok);
                } else {
                    assert(bpost == bcur);
                }
            } else {
                assert(bpost == bcur);
            }
        }
    }
}

proof fn lemma_publish_effect_from_partial(
    bpre: BlobStore,
    bpost: BlobStore,
    bytes: Seq<u8>,
    hs: Seq<Seq<u8>>,
)
    requires
        add_refs_partial(bpre, bpost, hs, hs.len() as int),
        forall|g: Seq<u8>| #[trigger] contains_seq(hs, g) == ref_hash_listed(bytes, g),
    ensures
        publish_ref_effect(bpre, bpost, bytes, true),
{
    assert(hs.take(hs.len() as int) =~= hs);
    assert forall|g: Seq<u8>|
        #![trigger bpost.has_blob(g)]
        bpost.has_blob(g) == bpre.has_blob(g) && (bpre.has_blob(g) ==> bpost.blob_data(g)
            == bpre.blob_data(g) && bpost.blob_rc(g) == bpre.blob_rc(g) + (
        if ref_hash_listed(bytes, g) && bpre.blob_rc(g) < u64::MAX {
            1int
        } else {
            0int
        })) by {
        assert(bpost.has_blob(g) == bpre.has_blob(g));
        assert(contains_seq(hs, g) == ref_hash_listed(bytes, g));
    }
}

/// Loop view of the delete cascade: the first `k` recorded references
/// have been released against `bpre`.
pub open spec fn gc_refs_partial(bpre: BlobStore, bcur: BlobStore, hs: Seq<Seq<u8>>, k: int) -> bool {
    forall|g: Seq<u8>|
        #![trigger bcur.has_blob(g)]
        if contains_seq(hs.take(k), g) && bpre.has_blob(g) {
            if bpre.blob_rc(g) > 1 {
                bcur.has_blob(g) && bcur.blob_rc(g) == bpre.blob_rc(g) - 1 && bcur.blob_data(g)
                    == bpre.blob_data(g)
            } else {
                !bcur.has_blob(g)
            }
        } else {
            bcur.has_blob(g) == bpre.has_blob(g) && (bpre.has_blob(g) ==> bcur.blob_rc(g)
                == bpre.blob_rc(g) && bcur.blob_data(g) == bpre.blob_data(g))
        }
}

proof fn lemma_gc_refs_zero(bpre: BlobStore, hs: Seq<Seq<u8>>)
    ensures
        gc_refs_partial(bpre, bpre, hs, 0),
{
    assert forall|g: Seq<u8>| #![trigger bpre.has_blob(g)] !contains_seq(hs.take(0), g) by {
        if contains_seq(hs.take(0), g) {
            let z = choose|z: int| 0 <= z < hs.take(0).len() && hs.take(0)[z] == g;
            assert(false);
        }
    }
}

proof fn lemma_gc_refs_step(
    bpre: BlobStore,
    bcur: BlobStore,
    bpost: BlobStore,
    hs: Seq<Seq<u8>>,
    k: int,
    r: Result<(), RegistryError>,
)
    requires
        0 <= k < hs.len(),
        forall|a: int, b: int| 0 <= a < b < hs.len() ==> hs[a] != hs[b],
        gc_refs_partial(bpre, bcur, hs, k),
        BlobStore::blobs_agree_except(bcur, bpost, hs[k]),
        match r {
            Ok(()) => bcur.has_blob(hs[k]) && (bcur.blob_rc(hs[k]) > 1 ==> bpost.has_blob(hs[k])
                && bpost.blob_rc(hs[k]) == bcur.blob_rc(hs[k]) - 1 && bpost.blob_data(hs[k])
                == bcur.blob_data(hs[k])) && (bcur.blob_rc(hs[k]) == 1 ==> !bpost.has_blob(hs[k])),
            Err(e) => bpost == bcur && !bcur.has_blob(hs[k]),
        },
    ensures
        gc_refs_partial(bpre, bpost, hs, k + 1),
{
    let hk = hs[k];
    assert(!contains_seq(hs.take(k), hk)) by {
        if contains_seq(hs.take(k), hk) {
            let z = choose|z: int| 0 <= z < hs.take(k).len() && hs.take(k)[z] == hk;
            assert(hs[z] == hs[k]);
        }
    }
    assert forall|g: Seq<u8>|
        #![trigger bpost.has_blob(g)]
        if contains_seq(hs.take(k + 1), g) && bpre.has_blob(g) {
            if bpre.blob_rc(g) > 1 {
                bpost.has_blob(g) && bpost.blob_rc(g) == bpre.blob_rc(g) - 1 && bpost.blob_data(g)
                    == bpre.blob_data(g)
            } else {
                !bpost.has_blob(g)
            }
        } else {
            bpost.has_blob(g) == bpre.has_blob(g) && (bpre.has_blob(g) ==> bpost.blob_rc(g)
                == bpre.blob_rc(g) && bpost.blob_data(g) == bpre.blob_data(g))
        } by {
        assert(bcur.has_blob(g) == bcur.has_blob(g));
        if g != hk {
            assert(contains_seq(hs.take(k + 1), g) == contains_seq(hs.take(k), g)) by {
                let t1 = hs.take(k + 1);
                let t0 = hs.take(k);
                if contains_seq(t1, g) {
                    let z = choose|z: int| 0 <= z < t1.len() && t1[z] == g;
                    assert(z < k);
                    assert(t0[z] == g);
                }
                if contains_seq(t0, g) {
                    let z = choose|z: int| 0 <= z < t0.len() && t0[z] == g;
                    assert(t1[z] == g);
                }
            }
            assert(bpost.has_blob(g) == bcur.has_blob(g));
            if bcur.has_blob(g) {
                assert(bpost.blob_data(g) == bcur.blob_data(g) && bpost.blob_rc(g)
                    == bcur.blob_rc(g));
            }
        } else {
            assert(hs.take(k + 1)[k] == hk);
            assert(contains_seq(hs.take(k + 1), hk));
            assert(bcur.has_blob(hk) == bpre.has_blob(hk) && (bpre.has_blob(hk)
                ==> bcur.blob_rc(hk) == bpre.blob_rc(hk) && bcur.blob_data(hk)
                == bpre.blob_data(hk)));
            if bpre.has_blob(hk) {
                assert(r is Ok);
            } else {
                assert(bpost == bcur);
            }
        }
    }
}

proof fn lemma_gc_effect_from_partial(bpre: BlobStore, bpost: BlobStore, hs: Seq<Seq<u8>>)
    requires
        gc_refs_partial(bpre, bpost, hs, hs.len() as int),
    ensures
        gc_effect(bpre, bpost, hs),
{
    assert(hs.take(hs.len() as int) =~= hs);
    assert forall|g: Seq<u8>|
        #![trigger bpost.has_blob(g)]
        if contains_seq(hs, g) && bpre.has_blob(g) {
            if bpre.blob_rc(g) > 1 {
                bpost.has_blob(g) && bpost.blob_rc(g) == bpre.blob_rc(g) - 1 && bpost.blob_data(g)
                    == bpre.blob_data(g)
            } else {
                !bpost.has_blob(g)
            }
        } else {
            bpost.has_blob(g) == bpre.has_blob(g) && (bpre.has_blob(g) ==> bpost.blob_rc(g)
                == bpre.blob_rc(g) && bpost.blob_data(g) == bpre.blob_data(g))
        } by {
        assert(contains_seq(hs.take(hs.len() as int), g) == contains_seq(hs, g));
        assert(bpost.has_blob(g) == bpost.has_blob(g));
    }
}

/// What storing a manifest may do to one other stored manifest (r, g): the
/// stored record itself, under `h`, is excluded; when `counted`, a
/// manifest of the repository that the document references gains a
/// reference; anything else is unchanged.
pub open spec fn mref_change_ok(
    mpre: ManifestStore,
    mpost: ManifestStore,
    repo: Seq<u8>,
    h: Seq<u8>,
    bytes: Seq<u8>,
    counted: bool,
    r: Seq<u8>,
    g: Seq<u8>,
) -> bool {
    !(r == repo && g == h) ==> (mpost.has_manifest(r, g) == mpre.has_manifest(r, g) && (
    mpre.has_manifest(r, g) ==> mpost.manifest_data(r, g) == mpre.manifest_data(r, g)
        && mpost.manifest_refs(r, g) == mpre.manifest_refs(r, g) && mpost.manifest_rc(r, g)
        == mpre.manifest_rc(r, g) + (
    if counted && r == repo && ref_hash_listed(bytes, g) && mpre.manifest_rc(r, g) < u64::MAX {
        1int
    } else {
        0int
    })))
}

/// How storing a manifest changes the reference counts of other stored
/// manifests of the repository: `mref_change_ok` at every key.
pub open spec fn publish_mref_effect(
    mpre: ManifestStore,
    mpost: ManifestStore,
    repo: Seq<u8>,
    h: Seq<u8>,
    bytes: Seq<u8>,
    counted: bool,
) -> bool {
    forall|r: Seq<u8>, g: Seq<u8>| #[trigger] mref_change_ok(mpre, mpost, repo, h, bytes, counted, r, g)
}

/// How deleting the manifest under (repo, h) changes the other stored
/// manifests: every one of the repository among `refs` loses a reference,
/// and is reclaimed when it was the last; nothing else changes.
pub open spec fn gc_mref_effect(
    mpre: ManifestStore,
    mpost: ManifestStore,
    repo: Seq<u8>,
    h: Seq<u8>,
    refs: Seq<Seq<u8>>,
) -> bool {
    forall|r: Seq<u8>, g: Seq<u8>|
        #![trigger mpost.has_manifest(r, g)]
        !(r == repo && g == h) ==> (
        if r == repo && contains_seq(refs, g) && mpre.has_manifest(r, g) {
            if mpre.manifest_rc(r, g) > 1 {
                mpost.has_manifest(r, g) && mpost.manifest_rc(r, g) == mpre.manifest_rc(r, g) - 1
                    && mpost.manifest_data(r, g) == mpre.manifest_data(r, g)
                    && mpost.manifest_refs(r, g) == mpre.manifest_refs(r, g)
            } else {
                !mpost.has_manifest(r, g)
            }
        } else {
            mpost.has_manifest(r, g) == mpre.has_manifest(r, g) && (mpre.has_manifest(r, g)
                ==> mpost.manifest_data(r, g) == mpre.manifest_data(r, g) && mpost.manifest_refs(
                r,
                g,
            ) == mpre.manifest_refs(r, g) && mpost.manifest_rc(r, g) == mpre.manifest_rc(r, g))
        })
}

/// Loop view of manifest reference counting: the first `k` collected
/// hashes have been credited against `mpre`.
pub open spec fn add_mrefs_partial(
    mpre: ManifestStore,
    mcur: ManifestStore,
    repo: Seq<u8>,
    hs: Seq<Seq<u8>>,
    k: int,
) -> bool {
    forall|r: Seq<u8>, g: Seq<u8>|
        #![trigger mcur.has_manifest(r, g)]
        mcur.has_manifest(r, g) == mpre.has_manifest(r, g) && (mpre.has_manifest(r, g)
            ==> mcur.manifest_data(r, g) == mpre.manifest_data(r, g) && mcur.manifest_refs(r, g)
            == mpre.manifest_refs(r, g) && mcur.manifest_rc(r, g) == mpre.manifest_rc(r, g) + (
        if r == repo && contains_seq(hs.take(k), g) && mpre.manifest_rc(r, g) < u64::MAX {
            1int
        } else {
            0int
        }))
}

proof fn lemma_add_mrefs_zero(mpre: ManifestStore, repo: Seq<u8>, hs: Seq<Seq<u8>>)
    ensures
        add_mrefs_partial(mpre, mpre, repo, hs, 0),
{
    assert forall|r: Seq<u8>, g: Seq<u8>|
        #![trigger mpre.has_manifest(r, g)]
        !(r == repo && contains_seq(hs.take(0), g)) by {
        if contains_seq(hs.take(0), g) {
            let z = choose|z: int| 0 <= z < hs.take(0).len() && hs.take(0)[z] == g;
            assert(false);
        }
    }
}

#[verifier::spinoff_prover]
proof fn lemma_add_mrefs_step(
    mpre: ManifestStore,
    mcur: ManifestStore,
    mpost: ManifestStore,
    repo: Seq<u8>,
    hs: Seq<Seq<u8>>,
    k: int,
    r: Result<(), RegistryError>,
)
    requires
        0 <= k < hs.len(),
        forall|a: int, b: int| 0 <= a < b < hs.len() ==> hs[a] != hs[b],
        add_mrefs_partial(mpre, mcur, repo, hs, k),
        ManifestStore::manifests_agree_rc_except(mcur, mpost, repo, hs[k]),
        match r {
            Ok(()) => mcur.has_manifest(repo, hs[k]) && mcur.manifest_rc(repo, hs[k]) < u64::MAX
                && mpost.has_manifest(repo, hs[k]) && mpost.manifest_rc(repo, hs[k])
                == mcur.manifest_rc(repo, hs[k]) + 1 && mpost.manifest_data(repo, hs[k])
                == mcur.manifest_data(repo, hs[k]) && mpost.manifest_refs(repo, hs[k])
                == mcur.manifest_refs(repo, hs[k]),
            Err(e) => mpost == mcur && (!mcur.has_manifest(repo, hs[k]) || mcur.manifest_rc(
                repo,
                hs[k],
            ) == u64::MAX),
        },
    ensures
        add_mrefs_partial(mpre, mpost, repo, hs, k + 1),
{
    let hk = hs[k];
    assert(!contains_seq(hs.take(k), hk)) by {
        if contains_seq(hs.take(k), hk) {
            let z = choose|z: int| 0 <= z < hs.take(k).len() && hs.take(k)[z] == hk;
            assert(hs[z] == hs[k]);
        }
    }
    assert forall|r2: Seq<u8>, g: Seq<u8>|
        #![trigger mpost.has_manifest(r2, g)]
        mpost.has_manifest(r2, g) == mpre.has_manifest(r2, g) && (mpre.has_manifest(r2, g)
            ==> mpost.manifest_data(r2, g) == mpre.manifest_data(r2, g) && mpost.manifest_refs(
            r2,
            g,
        ) == mpre.manifest_refs(r2, g) && mpost.manifest_rc(r2, g) == mpre.manifest_rc(r2, g) + (
        if r2 == repo && contains_seq(hs.take(k + 1), g) && mpre.manifest_rc(r2, g) < u64::MAX {
            1int
        } else {
            0int
        })) by {
        assert(mcur.has_manifest(r2, g) == mpre.has_manifest(r2, g));
        if !(r2 == repo && g == hk) {
            if r2 == repo && g != hk {
                assert(contains_seq(hs.take(k + 1), g) == contains_seq(hs.take(k), g)) by {
                    let t1 = hs.take(k + 1);
                    let t0 = hs.take(k);
                    if contains_seq(t1, g) {
                        let z = choose|z: int| 0 <= z < t1.len() && t1[z] == g;
                        assert(z < k);
                        assert(t0[z] == g);
                    }
                    if contains_seq(t0, g) {
                        let z = choose|z: int| 0 <= z < t0.len() && t0[z] == g;
                        assert(t1[z] == g);
                    }
                }
            }
            assert(mpost.has_manifest(r2, g) == mcur.has_manifest(r2, g));
            if mcur.has_manifest(r2, g) {
                assert(mpost.manifest_data(r2, g) == mcur.manifest_data(r2, g)
                    && mpost.manifest_refs(r2, g) == mcur.manifest_refs(r2, g)
                    && mpost.manifest_rc(r2, g) == mcur.manifest_rc(r2, g));
            }
        } else {
            assert(hs.take(k + 1)[k] == hk);
            assert(contains_seq(hs.take(k + 1), hk));
            if mcur.has_manifest(repo, hk) {
                assert(mcur.manifest_rc(repo, hk) == mpre.manifest_rc(repo, hk));
                if mcur.manifest_rc(repo, hk) < u64::MAX {
                    assert(r is Ok);
                } else {
                    assert(mpost == mcur);
                }
            } else {
                assert(mpost == mcur);
            }
        }
    }
}

#[verifier::spinoff_prover]
proof fn lemma_publish_mref_from_partial(
    mpre: ManifestStore,
    mpost: ManifestStore,
    repo: Seq<u8>,
    h: Seq<u8>,
    bytes: Seq<u8>,
    hs: Seq<Seq<u8>>,
)
    requires
        add_mrefs_partial(mpre, mpost, repo, hs, hs.len() as int),
        forall|g: Seq<u8>| #[trigger] contains_seq(hs, g) == ref_hash_listed(bytes, g),
    ensures
        publish_mref_effect(mpre, mpost, repo, h, bytes, true),
{
    assert(hs.take(hs.len() as int) =~= hs);
    assert forall|r: Seq<u8>, g: Seq<u8>| #[trigger] mref_change_ok(
        mpre,
        mpost,
        repo,
        h,
        bytes,
        true,
        r,
        g,
    ) by {
        assert(mpost.has_manifest(r, g) == mpre.has_manifest(r, g));
        assert(contains_seq(hs, g) == ref_hash_listed(bytes, g));
    }
}

/// Chaining at one key: a count-strong exception frame followed by an
/// effect is the same effect from the start.
proof fn lemma_mref_effect_compose_point(
    mold: ManifestStore,
    mmid: ManifestStore,
    mpost: ManifestStore,
    repo: Seq<u8>,
    h: Seq<u8>,
    bytes: Seq<u8>,
    counted: bool,
    r: Seq<u8>,
    g: Seq<u8>,
)
    requires
        ManifestStore::manifests_agree_rc_except(mold, mmid, repo, h),
        publish_mref_effect(mmid, mpost, repo, h, bytes, counted),
        !(r == repo && g == h),
    ensures
        mpost.has_manifest(r, g) == mold.has_manifest(r, g),
        mold.has_manifest(r, g) ==> mpost.manifest_data(r, g) == mold.manifest_data(r, g)
            && mpost.manifest_refs(r, g) == mold.manifest_refs(r, g) && mpost.manifest_rc(r, g)
            == mold.manifest_rc(r, g) + (
        if counted && r == repo && ref_hash_listed(bytes, g) && mold.manifest_rc(r, g)
            < u64::MAX {
            1int
        } else {
            0int
        }),
{
    assert(mref_change_ok(mmid, mpost, repo, h, bytes, counted, r, g));
    assert(mmid.has_manifest(r, g) == mold.has_manifest(r, g) && (mold.has_manifest(r, g)
        && mmid.has_manifest(r, g) ==> mmid.manifest_data(r, g) == mold.manifest_data(r, g)
        && mmid.manifest_refs(r, g) == mold.manifest_refs(r, g) && mmid.manifest_rc(r, g)
        == mold.manifest_rc(r, g)));
    assert(mpost.has_manifest(r, g) == mmid.has_manifest(r, g));
    assert(mmid.has_manifest(r, g) ==> mpost.manifest_data(r, g) == mmid.manifest_data(r, g));
    assert(mmid.has_manifest(r, g) ==> mpost.manifest_rc(r, g) == mmid.manifest_rc(r, g) + (
    if counted && r == repo && ref_hash_listed(bytes, g) && mmid.manifest_rc(r, g) < u64::MAX {
        1int
    } else {
        0int
    }));
}

/// Chaining: a count-strong exception frame followed by an effect is the
/// same effect from the start.
#[verifier::rlimit(100)]
proof fn lemma_mref_effect_compose(
    mold: ManifestStore,
    mmid: ManifestStore,
    mpost: ManifestStore,
    repo: Seq<u8>,
    h: Seq<u8>,
    bytes: Seq<u8>,
    counted: bool,
)
    requires
        ManifestStore::manifests_agree_rc_except(mold, mmid, repo, h),
        publish_mref_effect(mmid, mpost, repo, h, bytes, counted),
    ensures
        publish_mref_effect(mold, mpost, repo, h, bytes, counted),
{
    assert forall|r: Seq<u8>, g: Seq<u8>| #[trigger] mref_change_ok(
        mold,
        mpost,
        repo,
        h,
        bytes,
        counted,
        r,
        g,
    ) by {
        if !(r == repo && g == h) {
            lemma_mref_effect_compose_point(mold, mmid, mpost, repo, h, bytes, counted, r, g);
        }
    }
}

/// Chaining at one key: an effect followed by a count-preserving step is
/// the same effect.
proof fn lemma_mref_effect_then_same_point(
    mold: ManifestStore,
    m1: ManifestStore,
    m2: ManifestStore,
    repo: Seq<u8>,
    h: Seq<u8>,
    bytes: Seq<u8>,
    counted: bool,
    r: Seq<u8>,
    g: Seq<u8>,
)
    requires
        publish_mref_effect(mold, m1, repo, h, bytes, counted),
        ManifestStore::manifests_same_rc(m1, m2),
        !(r == repo && g == h),
    ensures
        m2.has_manifest(r, g) == mold.has_manifest(r, g),
        mold.has_manifest(r, g) ==> m2.manifest_data(r, g) == mold.manifest_data(r, g)
            && m2.manifest_refs(r, g) == mold.manifest_refs(r, g) && m2.manifest_rc(r, g)
            == mold.manifest_rc(r, g) + (
        if counted && r == repo && ref_hash_listed(bytes, g) && mold.manifest_rc(r, g)
            < u64::MAX {
            1int
        } else {
            0int
        }),
{
    assert(mref_change_ok(mold, m1, repo, h, bytes, counted, r, g));
    assert(m1.has_manifest(r, g) == mold.has_manifest(r, g));
    assert(mold.has_manifest(r, g) ==> m1.manifest_data(r, g) == mold.manifest_data(r, g));
    assert(mold.has_manifest(r, g) ==> m1.manifest_rc(r, g) == mold.manifest_rc(r, g) + (
    if counted && r == repo && ref_hash_listed(bytes, g) && mold.manifest_rc(r, g) < u64::MAX {
        1int
    } else {
        0int
    }));
    assert(m2.has_manifest(r, g) == m1.has_manifest(r, g));
    assert(m1.has_manifest(r, g) && m2.has_manifest(r, g) ==> m2.manifest_data(r, g)
        == m1.manifest_data(r, g) && m2.manifest_refs(r, g) == m1.manifest_refs(r, g)
        && m2.manifest_rc(r, g) == m1.manifest_rc(r, g));
}

/// Chaining: an effect followed by a count-preserving step is the same
/// effect.
#[verifier::rlimit(100)]
proof fn lemma_mref_effect_then_same(
    mold: ManifestStore,
    m1: ManifestStore,
    m2: ManifestStore,
    repo: Seq<u8>,
    h: Seq<u8>,
    bytes: Seq<u8>,
    counted: bool,
)
    requires
        publish_mref_effect(mold, m1, repo, h, bytes, counted),
        ManifestStore::manifests_same_rc(m1, m2),
    ensures
        publish_mref_effect(mold, m2, repo, h, bytes, counted),
{
    assert forall|r: Seq<u8>, g: Seq<u8>| #[trigger] mref_change_ok(
        mold,
        m2,
        repo,
        h,
        bytes,
        counted,
        r,
        g,
    ) by {
        if !(r == repo && g == h) {
            lemma_mref_effect_then_same_point(mold, m1, m2, repo, h, bytes, counted, r, g);
        }
    }
}

/// An uncounted effect is just the count-strong exception frame.
proof fn lemma_mref_effect_from_agree(
    mold: ManifestStore,
    mpost: ManifestStore,
    repo: Seq<u8>,
    h: Seq<u8>,
    bytes: Seq<u8>,
)
    requires
        ManifestStore::manifests_agree_rc_except(mold, mpost, repo, h),
    ensures
        publish_mref_effect(mold, mpost, repo, h, bytes, false),
{
    assert forall|r: Seq<u8>, g: Seq<u8>| #[trigger] mref_change_ok(
        mold,
        mpost,
        repo,
        h,
        bytes,
        false,
        r,
        g,
    ) by {
        if !(r == repo && g == h) {
            assert(mpost.has_manifest(r, g) == mold.has_manifest(r, g) && (mold.has_manifest(r, g)
                && mpost.has_manifest(r, g) ==> mpost.manifest_data(r, g) == mold.manifest_data(
                r,
                g,
            ) && mpost.manifest_refs(r, g) == mold.manifest_refs(r, g) && mpost.manifest_rc(r, g)
                == mold.manifest_rc(r, g)));
        }
    }
}

/// Loop view of the manifest delete cascade: the first `k` recorded
/// references have been released against `mpre`.
pub open spec fn gc_mrefs_partial(
    mpre: ManifestStore,
    mcur: ManifestStore,
    repo: Seq<u8>,
    hs: Seq<Seq<u8>>,
    k: int,
) -> bool {
    forall|r: Seq<u8>, g: Seq<u8>|
        #![trigger mcur.has_manifest(r, g)]
        if r == repo && contains_seq(hs.take(k), g) && mpre.has_manifest(r, g) {
            if mpre.manifest_rc(r, g) > 1 {
                mcur.has_manifest(r, g) && mcur.manifest_rc(r, g) == mpre.manifest_rc(r, g) - 1
                    && mcur.manifest_data(r, g) == mpre.manifest_data(r, g) && mcur.manifest_refs(
                    r,
                    g,
                ) == mpre.manifest_refs(r, g)
            } else {
                !mcur.has_manifest(r, g)
            }
        } else {
            mcur.has_manifest(r, g) == mpre.has_manifest(r, g) && (mpre.has_manifest(r, g)
                ==> mcur.manifest_data(r, g) == mpre.manifest_data(r, g) && mcur.manifest_refs(
                r,
                g,
            ) == mpre.manifest_refs(r, g) && mcur.manifest_rc(r, g) == mpre.manifest_rc(r, g))
        }
}

proof fn lemma_gc_mrefs_zero(mpre: ManifestStore, repo: Seq<u8>, hs: Seq<Seq<u8>>)
    ensures
        gc_mrefs_partial(mpre, mpre, repo, hs, 0),
{
    assert forall|r: Seq<u8>, g: Seq<u8>|
        #![trigger mpre.has_manifest(r, g)]
        !(r == repo && contains_seq(hs.take(0), g)) by {
        if contains_seq(hs.take(0), g) {
            let z = choose|z: int| 0 <= z < hs.take(0).len() && hs.take(0)[z] == g;
            assert(false);
        }
    }
}

#[verifier::spinoff_prover]
proof fn lemma_gc_mrefs_step(
    mpre: ManifestStore,
    mcur: ManifestStore,
    mpost: ManifestStore,
    repo: Seq<u8>,
    hs: Seq<Seq<u8>>,
    k: int,
    r: Result<(), RegistryError>,
)
    requires
        mpre.wf(),
        0 <= k < hs.len(),
        forall|a: int, b: int| 0 <= a < b < hs.len() ==> hs[a] != hs[b],
        gc_mrefs_partial(mpre, mcur, repo, hs, k),
        ManifestStore::manifests_agree_rc_except(mcur, mpost, repo, hs[k]),
        match r {
            Ok(()) => mcur.has_manifest(repo, hs[k]) && (mcur.manifest_rc(repo, hs[k]) > 1
                ==> mpost.has_manifest(repo, hs[k]) && mpost.manifest_rc(repo, hs[k])
                == mcur.manifest_rc(repo, hs[k]) - 1 && mpost.manifest_data(repo, hs[k])
                == mcur.manifest_data(repo, hs[k]) && mpost.manifest_refs(repo, hs[k])
                == mcur.manifest_refs(repo, hs[k])) && (mcur.manifest_rc(repo, hs[k]) == 1
                ==> !mpost.has_manifest(repo, hs[k])),
            Err(e) => mpost == mcur && !mcur.has_manifest(repo, hs[k]),
        },
    ensures
        gc_mrefs_partial(mpre, mpost, repo, hs, k + 1),
{
    let hk = hs[k];
    assert(!contains_seq(hs.take(k), hk)) by {
        if contains_seq(hs.take(k), hk) {
            let z = choose|z: int| 0 <= z < hs.take(k).len() && hs.take(k)[z] == hk;
            assert(hs[z] == hs[k]);
        }
    }
    assert forall|r2: Seq<u8>, g: Seq<u8>|
        #![trigger mpost.has_manifest(r2, g)]
        if r2 == repo && contains_seq(hs.take(k + 1), g) && mpre.has_manifest(r2, g) {
            if mpre.manifest_rc(r2, g) > 1 {
                mpost.has_manifest(r2, g) && mpost.manifest_rc(r2, g) == mpre.manifest_rc(r2, g)
                    - 1 && mpost.manifest_data(r2, g) == mpre.manifest_data(r2, g)
                    && mpost.manifest_refs(r2, g) == mpre.manifest_refs(r2, g)
            } else {
                !mpost.has_manifest(r2, g)
            }
        } else {
            mpost.has_manifest(r2, g) == mpre.has_manifest(r2, g) && (mpre.has_manifest(r2, g)
                ==> mpost.manifest_data(r2, g) == mpre.manifest_data(r2, g)
                && mpost.manifest_refs(r2, g) == mpre.manifest_refs(r2, g) && mpost.manifest_rc(
                r2,
                g,
            ) == mpre.manifest_rc(r2, g))
        } by {
        assert(mcur.has_manifest(r2, g) == mcur.has_manifest(r2, g));
        if !(r2 == repo && g == hk) {
            if r2 == repo && g != hk {
                assert(contains_seq(hs.take(k + 1), g) == contains_seq(hs.take(k), g)) by {
                    let t1 = hs.take(k + 1);
                    let t0 = hs.take(k);
                    if contains_seq(t1, g) {
                        let z = choose|z: int| 0 <= z < t1.len() && t1[z] == g;
                        assert(z < k);
                        assert(t0[z] == g);
                    }
                    if contains_seq(t0, g) {
                        let z = choose|z: int| 0 <= z < t0.len() && t0[z] == g;
                        assert(t1[z] == g);
                    }
                }
            }
            assert(mpost.has_manifest(r2, g) == mcur.has_manifest(r2, g));
            if mcur.has_manifest(r2, g) {
                assert(mpost.manifest_data(r2, g) == mcur.manifest_data(r2, g)
                    && mpost.manifest_refs(r2, g) == mcur.manifest_refs(r2, g)
                    && mpost.manifest_rc(r2, g) == mcur.manifest_rc(r2, g));
            }
        } else {
            assert(hs.take(k + 1)[k] == hk);
            assert(contains_seq(hs.take(k + 1), hk));
            assert(mcur.has_manifest(repo, hk) == mpre.has_manifest(repo, hk) && (
            mpre.has_manifest(repo, hk) ==> mcur.manifest_rc(repo, hk) == mpre.manifest_rc(
                repo,
                hk,
            ) && mcur.manifest_data(repo, hk) == mpre.manifest_data(repo, hk)
                && mcur.manifest_refs(repo, hk) == mpre.manifest_refs(repo, hk)));
            if mpre.has_manifest(repo, hk) {
                let ix = mpre.manifest_index(repo, hk);
                assert(mpre.manifests@[ix].present && mpre.manifests@[ix].refcount >= 1);
                assert(mpre.manifest_rc(repo, hk) >= 1);
                assert(r is Ok);
                if mpre.manifest_rc(repo, hk) == 1 {
                    assert(mcur.manifest_rc(repo, hk) == 1);
                    assert(!mpost.has_manifest(repo, hk));
                } else {
                    assert(mcur.manifest_rc(repo, hk) > 1);
                    assert(mpost.has_manifest(repo, hk) && mpost.manifest_rc(repo, hk)
                        == mpre.manifest_rc(repo, hk) - 1);
                }
            } else {
                assert(mpost == mcur);
            }
        }
    }
}

#[verifier::spinoff_prover]
proof fn lemma_gc_mref_compose(
    mold: ManifestStore,
    mmid: ManifestStore,
    mpost: ManifestStore,
    repo: Seq<u8>,
    h: Seq<u8>,
    hs: Seq<Seq<u8>>,
)
    requires
        ManifestStore::manifests_agree_rc_except(mold, mmid, repo, h),
        !mmid.has_manifest(repo, h),
        gc_mrefs_partial(mmid, mpost, repo, hs, hs.len() as int),
    ensures
        gc_mref_effect(mold, mpost, repo, h, hs),
        !mpost.has_manifest(repo, h),
{
    assert(hs.take(hs.len() as int) =~= hs);
    assert forall|r: Seq<u8>, g: Seq<u8>|
        #![trigger mpost.has_manifest(r, g)]
        !(r == repo && g == h) ==> (
        if r == repo && contains_seq(hs, g) && mold.has_manifest(r, g) {
            if mold.manifest_rc(r, g) > 1 {
                mpost.has_manifest(r, g) && mpost.manifest_rc(r, g) == mold.manifest_rc(r, g) - 1
                    && mpost.manifest_data(r, g) == mold.manifest_data(r, g)
                    && mpost.manifest_refs(r, g) == mold.manifest_refs(r, g)
            } else {
                !mpost.has_manifest(r, g)
            }
        } else {
            mpost.has_manifest(r, g) == mold.has_manifest(r, g) && (mold.has_manifest(r, g)
                ==> mpost.manifest_data(r, g) == mold.manifest_data(r, g) && mpost.manifest_refs(
                r,
                g,
            ) == mold.manifest_refs(r, g) && mpost.manifest_rc(r, g) == mold.manifest_rc(r, g))
        }) by {
        if !(r == repo && g == h) {
            assert(mmid.has_manifest(r, g) == mold.has_manifest(r, g));
            assert(contains_seq(hs.take(hs.len() as int), g) == contains_seq(hs, g));
            assert(mpost.has_manifest(r, g) == mpost.has_manifest(r, g));
        }
    }
    assert(mpost.has_manifest(repo, h) == mmid.has_manifest(repo, h)) by {
        if contains_seq(hs.take(hs.len() as int), h) && mmid.has_manifest(repo, h) {
            assert(false);
        }
    }
}

/// Which plan serves a request: the object is local, or an upstream must
/// be fetched from (the index names the configured upstream, whose host
/// and credentials the caller reads), or the repository is under no
/// configured alias.
pub enum ResolvePlan {
    Local,
    Fetch { upstream: usize },
    Unknown,
}

impl Registry {
    /// Internal invariant: both stores are well-formed.
    pub open spec fn wf(self) -> bool {
        self.blobs.wf() && self.manifests.wf()
    }

    /// An empty registry with the given limits and proxy configuration.
    pub fn new(
        max_manifest_size: u64,
        max_blob_size: u64,
        max_sessions: u64,
        session_timeout: u64,
        proxies: Vec<RegistryProxyConfig>,
    ) -> (s: Self)
        ensures
            s.wf(),
            s.max_manifest_size == max_manifest_size,
            s.blobs.max_blob_size == max_blob_size,
            s.blobs.max_sessions == max_sessions,
            s.blobs.session_timeout == session_timeout,
            s.blobs.next_session_id == 0,
            s.blobs.sessions@.len() == 0,
            s.blobs.blobs@.len() == 0,
            s.proxies == proxies,
            forall|h: Seq<u8>| !(#[trigger] s.blobs.has_blob(h)),
            forall|id: u64| !(#[trigger] s.blobs.has_session(id)),
            forall|r: Seq<u8>, h: Seq<u8>| !(#[trigger] s.manifests.has_manifest(r, h)),
            forall|r: Seq<u8>, t: Seq<u8>| !(#[trigger] s.manifests.has_tag(r, t)),
    {
        Registry {
            max_manifest_size,
            blobs: BlobStore::new(max_blob_size, max_sessions, session_timeout),
            manifests: ManifestStore::new(),
            proxies,
        }
    }

    /// Stores a manifest under the repository and reference. Enforces the
    /// manifest size limit before any store work; validates the JSON
    /// structure (a document that does not parse resolves no references, so
    /// it surfaces as `ManifestReferenceMissing` — the error taxonomy has
    /// no separate malformed-manifest error); verifies that every digest
    /// reference resolves (unless `proxy_population`, the explicit
    /// proxy-cache write path, where missing references are left to the
    /// proxy); computes the canonical digest; and atomically repoints the
    /// tag when the reference is one.
    /// Each stored blob and each stored manifest of the repository that the
    /// document references gains one reference count (once, however often
    /// it is named) when the manifest is new.
    #[verifier::rlimit(100)]
    pub fn put_manifest(
        &mut self,
        repo: Vec<u8>,
        reference: &Vec<u8>,
        bytes: Vec<u8>,
        proxy_population: bool,
    ) -> (r: Result<Digest, RegistryError>)
        requires
            old(self).wf(),
        ensures
            final(self).wf(),
            final(self).max_manifest_size == old(self).max_manifest_size,
            final(self).proxies == old(self).proxies,
            final(self).blobs.sessions@ == old(self).blobs.sessions@,
            final(self).blobs.next_session_id == old(self).blobs.next_session_id,
            BlobStore::config_unchanged(old(self).blobs, final(self).blobs),
            match r {
                Ok(d) => {
                    &&& d.valid()
                    &&& d.hash@ == sha256_of(bytes@)
                    &&& bytes@.len() <= old(self).max_manifest_size
                    &&& json_doc_ok(bytes@)
                    &&& (proxy_population || all_refs_resolve(
                        old(self).blobs,
                        old(self).manifests,
                        repo@,
                        bytes@,
                    ))
                    &&& (is_sha256_text(reference@) ==> hash_of_text(reference@) == d.hash@)
                    &&& final(self).manifests.has_manifest(repo@, d.hash@)
                    &&& final(self).manifests.manifest_data(repo@, d.hash@) == (
                    if old(self).manifests.has_manifest(repo@, d.hash@) {
                        old(self).manifests.manifest_data(repo@, d.hash@)
                    } else {
                        bytes@
                    })
                    &&& publish_mref_effect(
                        old(self).manifests,
                        final(self).manifests,
                        repo@,
                        d.hash@,
                        bytes@,
                        !old(self).manifests.has_manifest(repo@, d.hash@),
                    )
                    &&& final(self).manifests.manifest_rc(repo@, d.hash@) == (
                    if old(self).manifests.has_manifest(repo@, d.hash@) {
                        old(self).manifests.manifest_rc(repo@, d.hash@) as int
                    } else if ref_hash_listed(bytes@, d.hash@) {
                        2int
                    } else {
                        1int
                    })
                    &&& publish_ref_effect(
                        old(self).blobs,
                        final(self).blobs,
                        bytes@,
                        !old(self).manifests.has_manifest(repo@, d.hash@),
                    )
                    &&& (if is_sha256_text(reference@) {
                        final(self).manifests.tags@ == old(self).manifests.tags@
                    } else {
                        final(self).manifests.has_tag(repo@, reference@) && final(self).manifests.tag_digest(repo@, reference@) == d.hash@ && final(self).manifests.tag_history(repo@, reference@) == seq![d.hash@] + (
                        if old(self).manifests.has_tag(repo@, reference@) {
                            old(self).manifests.tag_history(repo@, reference@)
                        } else {
                            Seq::<Seq<u8>>::empty()
                        }) && ManifestStore::tags_agree_except(
                            old(self).manifests,
                            final(self).manifests,
                            repo@,
                            reference@,
                        )
                    })
                },
                Err(e) => *final(self) == *old(self) && e == (
                if bytes@.len() > old(self).max_manifest_size {
                    RegistryError::SizeLimitExceeded
                } else if !json_doc_ok(bytes@) {
                    RegistryError::ManifestReferenceMissing
                } else if !proxy_population && !all_refs_resolve(
                    old(self).blobs,
                    old(self).manifests,
                    repo@,
                    bytes@,
                ) {
                    RegistryError::ManifestReferenceMissing
                } else {
                    RegistryError::DigestMismatch
                }) && (bytes@.len() > old(self).max_manifest_size || !json_doc_ok(bytes@) || (
                !proxy_population && !all_refs_resolve(
                    old(self).blobs,
                    old(self).manifests,
                    repo@,
                    bytes@,
                )) || (is_sha256_text(reference@) && hash_of_text(reference@) != sha256_of(
                    bytes@,
                ))),
            },
    {
        if bytes.len() as u64 > self.max_manifest_size {
            return Err(RegistryError::SizeLimitExceeded);
        }
        if !json_parses(&bytes) {
            return Err(RegistryError::ManifestReferenceMissing);
        }
        let refs = extract_refs(&bytes);
        let nrefs = refs.len();
        if !proxy_population {
            let mut k: usize = 0;
            while k < nrefs
                invariant
                    !proxy_population,
                    *self == *old(self),
                    self.wf(),
                    bytes@.len() <= self.max_manifest_size,
                    json_doc_ok(bytes@),
                    nrefs == refs@.len(),
                    views_of(refs@) == refs_of(bytes@, 0),
                    0 <= k <= nrefs,
                    forall|a: int|
                        0 <= a < k ==> is_sha256_text(#[trigger] views_of(refs@)[a]) && (
                        self.blobs.has_blob(hash_of_text(views_of(refs@)[a]))
                            || self.manifests.has_manifest(
                            repo@,
                            hash_of_text(views_of(refs@)[a]),
                        )),
                decreases nrefs - k,
            {
                proof {
                    assert(views_of(refs@)[k as int] == refs@[k as int]@);
                }
                let dk = match Digest::from_text(&refs[k]) {
                    Err(_) => {
                        proof {
                            assert(contains_seq(refs_of(bytes@, 0), views_of(refs@)[k as int]));
                            assert(!all_refs_resolve(self.blobs, self.manifests, repo@, bytes@));
                        }
                        return Err(RegistryError::ManifestReferenceMissing);
                    },
                    Ok(dk) => dk,
                };
                if !self.blobs.blob_exists(&dk) && self.manifests.manifest_bytes(
                    &repo,
                    &dk.hash,
                ).is_err() {
                    proof {
                        assert(contains_seq(refs_of(bytes@, 0), views_of(refs@)[k as int]));
                        assert(!all_refs_resolve(self.blobs, self.manifests, repo@, bytes@));
                    }
                    return Err(RegistryError::ManifestReferenceMissing);
                }
                k += 1;
            }
            proof {
                assert forall|t: Seq<u8>| #[trigger]
                    contains_seq(refs_of(bytes@, 0), t) implies is_sha256_text(t) && (
                self.blobs.has_blob(hash_of_text(t)) || self.manifests.has_manifest(
                    repo@,
                    hash_of_text(t),
                )) by {
                    let a = choose|a: int|
                        0 <= a < refs_of(bytes@, 0).len() && refs_of(bytes@, 0)[a] == t;
                    assert(views_of(refs@)[a] == t);
                }
                assert(all_refs_resolve(old(self).blobs, old(self).manifests, repo@, bytes@));
            }
        }
        let d = compute(&bytes);
        if let Ok(rd) = Digest::from_text(reference) {
            if !bytes_eq(&rd.hash, &d.hash) {
                return Err(RegistryError::DigestMismatch);
            }
        }
        let mut hashes: Vec<Vec<u8>> = Vec::new();
        let mut k: usize = 0;
        while k < nrefs
            invariant
                *self == *old(self),
                nrefs == refs@.len(),
                views_of(refs@) == refs_of(bytes@, 0),
                0 <= k <= nrefs,
                distinct_list(hashes@),
                forall|g: Seq<u8>|
                    #[trigger] contains_seq(views_of(hashes@), g) == exists|a: int|
                        0 <= a < k && is_sha256_text(#[trigger] views_of(refs@)[a])
                            && hash_of_text(views_of(refs@)[a]) == g,
            decreases nrefs - k,
        {
            let ghost hpre = hashes@;
            let ghost tv = refs@[k as int]@;
            proof {
                assert(views_of(refs@)[k as int] == tv);
            }
            let mut pushed: bool = false;
            let ghost gh: Seq<u8> = Seq::empty();
            match Digest::from_text(&refs[k]) {
                Ok(dk) => {
                    if !contains_vec(&hashes, &dk.hash) {
                        proof {
                            gh = dk.hash@;
                        }
                        hashes.push(dk.hash);
                        pushed = true;
                    }
                },
                Err(_) => {},
            }
            proof {
                if pushed {
                    assert forall|a: int, b: int|
                        0 <= a < b < hashes@.len() implies (#[trigger] hashes@[a])@ != (
                    #[trigger] hashes@[b])@ by {
                        if b == hashes@.len() - 1 {
                            assert(hashes@[a] == hpre[a]);
                            assert(views_of(hpre)[a] == hpre[a]@);
                            assert(contains_seq(views_of(hpre), hpre[a]@));
                        }
                    }
                }
                assert forall|g: Seq<u8>|
                    #[trigger] contains_seq(views_of(hashes@), g) == exists|a: int|
                        0 <= a < k + 1 && is_sha256_text(#[trigger] views_of(refs@)[a])
                            && hash_of_text(views_of(refs@)[a]) == g by {
                    if pushed {
                        assert(views_of(hashes@) =~= views_of(hpre).push(gh));
                    } else {
                        assert(hashes@ == hpre);
                    }
                    if contains_seq(views_of(hashes@), g) {
                        if contains_seq(views_of(hpre), g) {
                            let a = choose|a: int|
                                0 <= a < k && is_sha256_text(#[trigger] views_of(refs@)[a])
                                    && hash_of_text(views_of(refs@)[a]) == g;
                            assert(is_sha256_text(views_of(refs@)[a]));
                        } else {
                            let z = choose|z: int|
                                0 <= z < views_of(hashes@).len() && views_of(hashes@)[z] == g;
                            assert(g == gh);
                            assert(is_sha256_text(views_of(refs@)[k as int]));
                        }
                    }
                    if exists|a: int|
                        0 <= a < k + 1 && is_sha256_text(#[trigger] views_of(refs@)[a])
                            && hash_of_text(views_of(refs@)[a]) == g {
                        let a = choose|a: int|
                            0 <= a < k + 1 && is_sha256_text(#[trigger] views_of(refs@)[a])
                                && hash_of_text(views_of(refs@)[a]) == g;
                        if a < k {
                            assert(contains_seq(views_of(hpre), g));
                            let z = choose|z: int|
                                0 <= z < views_of(hpre).len() && views_of(hpre)[z] == g;
                            assert(views_of(hashes@)[z] == g);
                        } else {
                            if pushed {
                                assert(views_of(hashes@)[views_of(hashes@).len() - 1] == gh);
                            } else {
                                assert(contains_seq(views_of(hpre), g));
                                let z = choose|z: int|
                                    0 <= z < views_of(hpre).len() && views_of(hpre)[z] == g;
                                assert(views_of(hashes@)[z] == g);
                            }
                        }
                        assert(contains_seq(views_of(hashes@), g));
                    }
                }
            }
            k += 1;
        }
        proof {
            assert forall|g: Seq<u8>|
                #[trigger] contains_seq(views_of(hashes@), g) == ref_hash_listed(bytes@, g) by {
                if contains_seq(views_of(hashes@), g) {
                    let a = choose|a: int|
                        0 <= a < nrefs && is_sha256_text(#[trigger] views_of(refs@)[a])
                            && hash_of_text(views_of(refs@)[a]) == g;
                    assert(contains_seq(refs_of(bytes@, 0), views_of(refs@)[a]));
                }
                if ref_hash_listed(bytes@, g) {
                    let t = choose|t: Seq<u8>|
                        #[trigger] contains_seq(refs_of(bytes@, 0), t) && is_sha256_text(t)
                            && hash_of_text(t) == g;
                    let a = choose|a: int|
                        0 <= a < refs_of(bytes@, 0).len() && refs_of(bytes@, 0)[a] == t;
                    assert(views_of(refs@)[a] == t);
                }
            }
        }
        let ghost pre = *self;
        proof {
            assert(*self == *old(self));
        }
        let repo2 = copy_bytes(&repo);
        let hash2 = copy_bytes(&d.hash);
        let is_new = self.manifests.insert_manifest(repo2, hash2, bytes, copy_ref_hashes(&hashes));
        let ghost mid = *self;
        if is_new {
            let ghost bpre = self.blobs;
            let ghost hs = views_of(hashes@);
            proof {
                assert forall|a: int, b: int| 0 <= a < b < hs.len() implies hs[a] != hs[b] by {
                    assert(hs[a] == hashes@[a]@);
                    assert(hs[b] == hashes@[b]@);
                }
                lemma_add_refs_zero(bpre, hs);
            }
            let nh = hashes.len();
            let mut k2: usize = 0;
            while k2 < nh
                invariant
                    bpre == mid.blobs,
                    self.manifests == mid.manifests,
                    self.max_manifest_size == mid.max_manifest_size,
                    self.proxies == mid.proxies,
                    self.manifests.wf(),
                    bpre.wf(),
                    self.blobs.wf(),
                    nh == hashes@.len(),
                    hs == views_of(hashes@),
                    hs.len() == nh,
                    forall|a: int, b: int| 0 <= a < b < hs.len() ==> hs[a] != hs[b],
                    0 <= k2 <= nh,
                    self.blobs.sessions@ == bpre.sessions@,
                    self.blobs.next_session_id == bpre.next_session_id,
                    BlobStore::config_unchanged(bpre, self.blobs),
                    add_refs_partial(bpre, self.blobs, hs, k2 as int),
                decreases nh - k2,
            {
                let ghost bcur = self.blobs;
                proof {
                    assert(hs[k2 as int] == hashes@[k2 as int]@);
                }
                let ar = self.blobs.add_ref(&hashes[k2]);
                proof {
                    lemma_add_refs_step(bpre, bcur, self.blobs, hs, k2 as int, ar);
                }
                k2 += 1;
            }
            proof {
                assert(bpre == pre.blobs);
                lemma_publish_effect_from_partial(pre.blobs, self.blobs, bytes@, hs);
            }
            let ghost b2 = self.blobs;
            proof {
                assert(self.manifests == mid.manifests);
                lemma_add_mrefs_zero(mid.manifests, repo@, hs);
            }
            let nh3 = hashes.len();
            let mut k3: usize = 0;
            while k3 < nh3
                invariant
                    mid.manifests.wf(),
                    self.manifests.wf(),
                    self.blobs == b2,
                    self.max_manifest_size == mid.max_manifest_size,
                    self.proxies == mid.proxies,
                    nh3 == hashes@.len(),
                    hs == views_of(hashes@),
                    hs.len() == nh3,
                    forall|a: int, b: int| 0 <= a < b < hs.len() ==> hs[a] != hs[b],
                    0 <= k3 <= nh3,
                    self.manifests.tags@ == mid.manifests.tags@,
                    add_mrefs_partial(mid.manifests, self.manifests, repo@, hs, k3 as int),
                decreases nh3 - k3,
            {
                let ghost mcur = self.manifests;
                proof {
                    assert(hs[k3 as int] == hashes@[k3 as int]@);
                }
                let mr = self.manifests.add_manifest_ref(&repo, &hashes[k3]);
                proof {
                    lemma_add_mrefs_step(mid.manifests, mcur, self.manifests, repo@, hs, k3 as int, mr);
                }
                k3 += 1;
            }
            proof {
                lemma_publish_mref_from_partial(mid.manifests, self.manifests, repo@, d.hash@, bytes@, hs);
                lemma_mref_effect_compose(pre.manifests, mid.manifests, self.manifests, repo@, d.hash@, bytes@, true);
                assert(hs.take(nh3 as int) =~= hs);
                assert(self.manifests.has_manifest(repo@, d.hash@) == mid.manifests.has_manifest(repo@, d.hash@));
                assert(contains_seq(hs, d.hash@) == ref_hash_listed(bytes@, d.hash@));
                assert(self.manifests.manifest_rc(repo@, d.hash@) == 1 + (
                if ref_hash_listed(bytes@, d.hash@) {
                    1int
                } else {
                    0int
                }));
            }
        }
        let ghost after_refs = *self;
        proof {
            if !is_new {
                lemma_mref_effect_from_agree(pre.manifests, after_refs.manifests, repo@, d.hash@, bytes@);
                assert(after_refs.blobs == pre.blobs);
                assert(publish_ref_effect(pre.blobs, after_refs.blobs, bytes@, false)) by {
                    assert forall|g: Seq<u8>|
                        #![trigger after_refs.blobs.has_blob(g)]
                        after_refs.blobs.has_blob(g) == pre.blobs.has_blob(g) && (
                        pre.blobs.has_blob(g) ==> after_refs.blobs.blob_data(g)
                            == pre.blobs.blob_data(g) && after_refs.blobs.blob_rc(g)
                            == pre.blobs.blob_rc(g)) by {}
                }
            }
        }
        if Digest::from_text(reference).is_err() {
            let tagcopy = copy_bytes(reference);
            self.manifests.point_tag(repo, tagcopy, &d.hash);
            proof {
                lemma_mref_effect_then_same(
                    pre.manifests,
                    after_refs.manifests,
                    self.manifests,
                    repo@,
                    d.hash@,
                    bytes@,
                    is_new,
                );
                assert(self.manifests.manifest_rc(repo@, d.hash@) == after_refs.manifests.manifest_rc(repo@, d.hash@));
                ManifestStore::lemma_tags_same_then_agree(
                    pre.manifests,
                    after_refs.manifests,
                    self.manifests,
                    repo@,
                    reference@,
                );
                assert(self.manifests.has_manifest(repo@, d.hash@) && self.manifests.manifest_data(
                    repo@,
                    d.hash@,
                ) == after_refs.manifests.manifest_data(repo@, d.hash@));
                assert(pre.manifests.has_tag(repo@, reference@) == after_refs.manifests.has_tag(
                    repo@,
                    reference@,
                ));
                if pre.manifests.has_tag(repo@, reference@) {
                    assert(after_refs.manifests.tag_history(repo@, reference@)
                        == pre.manifests.tag_history(repo@, reference@));
                }
            }
        }
        proof {
            assert(publish_ref_effect(pre.blobs, self.blobs, bytes@, is_new));
        }
        Ok(d)
    }

    /// The manifest a reference resolves to: a tag is resolved to its
    /// current target first; `NotFound` when neither a matching tag nor a
    /// matching digest exists in the repository.
    pub fn get_manifest(&self, repo: &Vec<u8>, reference: &Vec<u8>) -> (r: Result<
        &Vec<u8>,
        RegistryError,
    >)
        requires
            self.wf(),
        ensures
            match r {
                Ok(v) => resolvable(self.manifests, repo@, reference@) && v@
                    == self.manifests.manifest_data(
                    repo@,
                    resolved_hash(self.manifests, repo@, reference@),
                ),
                Err(e) => e == RegistryError::NotFound && !resolvable(
                    self.manifests,
                    repo@,
                    reference@,
                ),
            },
    {
        match Digest::from_text(reference) {
            Ok(rd) => self.manifests.manifest_bytes(repo, &rd.hash),
            Err(_) => {
                match self.manifests.tag_target(repo, reference) {
                    Ok(h) => self.manifests.manifest_bytes(repo, h),
                    Err(_) => Err(RegistryError::NotFound),
                }
            },
        }
    }

    /// Deletes a tag pointer (when the reference is a tag), or deletes the
    /// digest-addressed manifest record and releases one reference to every
    /// blob and sub-manifest it recorded, removing or reclaiming one whose
    /// count reaches zero (one level: a reclaimed sub-manifest's own
    /// references are not followed).
    pub fn delete_manifest(&mut self, repo: &Vec<u8>, reference: &Vec<u8>) -> (r: Result<
        (),
        RegistryError,
    >)
        requires
            old(self).wf(),
        ensures
            final(self).wf(),
            final(self).max_manifest_size == old(self).max_manifest_size,
            final(self).proxies == old(self).proxies,
            final(self).blobs.sessions@ == old(self).blobs.sessions@,
            final(self).blobs.next_session_id == old(self).blobs.next_session_id,
            BlobStore::config_unchanged(old(self).blobs, final(self).blobs),
            match r {
                Ok(()) => (
                if is_sha256_text(reference@) {
                    &&& old(self).manifests.has_manifest(repo@, hash_of_text(reference@))
                    &&& !final(self).manifests.has_manifest(repo@, hash_of_text(reference@))
                    &&& gc_mref_effect(
                        old(self).manifests,
                        final(self).manifests,
                        repo@,
                        hash_of_text(reference@),
                        old(self).manifests.manifest_refs(repo@, hash_of_text(reference@)),
                    )
                    &&& final(self).manifests.tags@ == old(self).manifests.tags@
                    &&& gc_effect(
                        old(self).blobs,
                        final(self).blobs,
                        old(self).manifests.manifest_refs(repo@, hash_of_text(reference@)),
                    )
                } else {
                    &&& old(self).manifests.has_tag(repo@, reference@)
                    &&& !final(self).manifests.has_tag(repo@, reference@)
                    &&& ManifestStore::tags_agree_except(
                        old(self).manifests,
                        final(self).manifests,
                        repo@,
                        reference@,
                    )
                    &&& ManifestStore::manifests_same(old(self).manifests, final(self).manifests)
                    &&& final(self).blobs == old(self).blobs
                }),
                Err(e) => e == RegistryError::NotFound && *final(self) == *old(self) && (
                if is_sha256_text(reference@) {
                    !old(self).manifests.has_manifest(repo@, hash_of_text(reference@))
                } else {
                    !old(self).manifests.has_tag(repo@, reference@)
                }),
            },
    {
        match Digest::from_text(reference) {
            Ok(rd) => {
                let ghost pre = *self;
                let refs = match self.manifests.remove_manifest(repo, &rd.hash) {
                    Err(_) => {
                        return Err(RegistryError::NotFound);
                    },
                    Ok(refs) => refs,
                };
                let ghost mid = *self;
                let ghost bpre = self.blobs;
                let ghost hs = views_of(refs@);
                proof {
                    assert(bpre == pre.blobs);
                    assert forall|a: int, b: int| 0 <= a < b < hs.len() implies hs[a] != hs[b] by {
                        assert(hs[a] == refs@[a]@);
                        assert(hs[b] == refs@[b]@);
                    }
                    lemma_gc_refs_zero(bpre, hs);
                }
                let nr = refs.len();
                let mut k: usize = 0;
                while k < nr
                    invariant
                        bpre == mid.blobs,
                        self.manifests == mid.manifests,
                        self.max_manifest_size == mid.max_manifest_size,
                        self.proxies == mid.proxies,
                        self.manifests.wf(),
                        bpre.wf(),
                        self.blobs.wf(),
                        nr == refs@.len(),
                        hs == views_of(refs@),
                        hs.len() == nr,
                        forall|a: int, b: int| 0 <= a < b < hs.len() ==> hs[a] != hs[b],
                        0 <= k <= nr,
                        self.blobs.sessions@ == bpre.sessions@,
                        self.blobs.next_session_id == bpre.next_session_id,
                        BlobStore::config_unchanged(bpre, self.blobs),
                        gc_refs_partial(bpre, self.blobs, hs, k as int),
                    decreases nr - k,
                {
                    let ghost bcur = self.blobs;
                    proof {
                        assert(hs[k as int] == refs@[k as int]@);
                    }
                    let dk = Digest {
                        algo: crate::digest::DigestAlgorithm::Sha256,
                        hash: copy_bytes(&refs[k]),
                    };
                    let dr = self.blobs.delete_blob(&dk);
                    proof {
                        lemma_gc_refs_step(bpre, bcur, self.blobs, hs, k as int, dr);
                    }
                    k += 1;
                }
                let ghost b3 = self.blobs;
                proof {
                    lemma_gc_effect_from_partial(pre.blobs, self.blobs, hs);
                    assert(hs == pre.manifests.manifest_refs(repo@, rd.hash@));
                    assert(self.manifests == mid.manifests);
                    lemma_gc_mrefs_zero(mid.manifests, repo@, hs);
                }
                let nr2 = refs.len();
                let mut k4: usize = 0;
                while k4 < nr2
                    invariant
                        mid.manifests.wf(),
                        self.manifests.wf(),
                        self.blobs == b3,
                        self.max_manifest_size == mid.max_manifest_size,
                        self.proxies == mid.proxies,
                        nr2 == refs@.len(),
                        hs == views_of(refs@),
                        hs.len() == nr2,
                        forall|a: int, b: int| 0 <= a < b < hs.len() ==> hs[a] != hs[b],
                        0 <= k4 <= nr2,
                        self.manifests.tags@ == mid.manifests.tags@,
                        gc_mrefs_partial(mid.manifests, self.manifests, repo@, hs, k4 as int),
                    decreases nr2 - k4,
                {
                    let ghost mcur = self.manifests;
                    proof {
                        assert(hs[k4 as int] == refs@[k4 as int]@);
                    }
                    let mr = self.manifests.release_manifest_ref(repo, &refs[k4]);
                    proof {
                        lemma_gc_mrefs_step(mid.manifests, mcur, self.manifests, repo@, hs, k4 as int, mr);
                    }
                    k4 += 1;
                }
                proof {
                    lemma_gc_mref_compose(pre.manifests, mid.manifests, self.manifests, repo@, rd.hash@, hs);
                }
                Ok(())
            },
            Err(_) => {
                match self.manifests.delete_tag(repo, reference) {
                    Ok(()) => Ok(()),
                    Err(_) => Err(RegistryError::NotFound),
                }
            },
        }
    }

    /// How to serve a request for (repository, reference): locally when it
    /// resolves; by an upstream fetch when the repository's first segment
    /// is a configured alias; not at all otherwise.
    pub fn resolve_plan(&self, repo: &Vec<u8>, reference: &Vec<u8>) -> (p: ResolvePlan)
        requires
            self.wf(),
        ensures
            match p {
                ResolvePlan::Local => resolvable(self.manifests, repo@, reference@),
                ResolvePlan::Fetch { upstream } => !resolvable(self.manifests, repo@, reference@)
                    && upstream < self.proxies@.len() && proxy_pick(self.proxies@, repo@, 0)
                    == upstream as int,
                ResolvePlan::Unknown => !resolvable(self.manifests, repo@, reference@)
                    && proxy_pick(self.proxies@, repo@, 0) < 0,
            },
    {
        match self.get_manifest(repo, reference) {
            Ok(_) => ResolvePlan::Local,
            Err(_) => {
                match pick_proxy(&self.proxies, repo) {
                    Some(i) => ResolvePlan::Fetch { upstream: i },
                    None => ResolvePlan::Unknown,
                }
            },
        }
    }

    /// Persists an object fetched from an upstream: verifies the fetched
    /// bytes against the digest the upstream declared, discarding them on a
    /// mismatch with `UpstreamIntegrityViolation`; on success stores them
    /// through the proxy-population write path, after which the reference
    /// resolves locally. Nothing is stored on any failure, and every
    /// failure is tied to a fault in the input: on a size-respecting,
    /// well-formed document whose declared digest matches, ingestion is
    /// owed. A missing object is never cached negatively.
    pub fn ingest_manifest(
        &mut self,
        repo: Vec<u8>,
        reference: &Vec<u8>,
        declared: &Vec<u8>,
        bytes: Vec<u8>,
    ) -> (r: Result<Digest, RegistryError>)
        requires
            old(self).wf(),
        ensures
            final(self).wf(),
            match r {
                Ok(d) => {
                    &&& d.valid()
                    &&& d.hash@ == sha256_of(bytes@)
                    &&& is_sha256_text(declared@) && hash_of_text(declared@) == d.hash@
                    &&& bytes@.len() <= old(self).max_manifest_size
                    &&& json_doc_ok(bytes@)
                    &&& final(self).manifests.has_manifest(repo@, d.hash@)
                    &&& (is_sha256_text(reference@) ==> hash_of_text(reference@) == d.hash@)
                    &&& (!is_sha256_text(reference@) ==> final(self).manifests.has_tag(
                        repo@,
                        reference@,
                    ) && final(self).manifests.tag_digest(repo@, reference@) == d.hash@)
                    &&& resolvable(final(self).manifests, repo@, reference@)
                },
                Err(e) => *final(self) == *old(self) && (
                if !is_sha256_text(declared@) {
                    e == (if crate::digest::has_sha256_tag(declared@) {
                        RegistryError::UpstreamIntegrityViolation
                    } else {
                        RegistryError::UnsupportedAlgorithm
                    })
                } else if hash_of_text(declared@) != sha256_of(bytes@) {
                    e == RegistryError::UpstreamIntegrityViolation
                } else {
                    e == (if bytes@.len() > old(self).max_manifest_size {
                        RegistryError::SizeLimitExceeded
                    } else if !json_doc_ok(bytes@) {
                        RegistryError::ManifestReferenceMissing
                    } else {
                        RegistryError::DigestMismatch
                    })
                }) && (!is_sha256_text(declared@) || hash_of_text(declared@) != sha256_of(bytes@)
                    || bytes@.len() > old(self).max_manifest_size || !json_doc_ok(bytes@) || (
                is_sha256_text(reference@) && hash_of_text(reference@) != sha256_of(bytes@))),
            },
    {
        let rd = match Digest::from_text(declared) {
            Err(e) => {
                return Err(
                    if matches!(e, RegistryError::DigestMismatch) {
                        RegistryError::UpstreamIntegrityViolation
                    } else {
                        RegistryError::UnsupportedAlgorithm
                    },
                );
            },
            Ok(rd) => rd,
        };
        if !crate::digest::verify(&bytes, &rd) {
            return Err(RegistryError::UpstreamIntegrityViolation);
        }
        match self.put_manifest(repo, reference, bytes, true) {
            Err(e) => Err(e),
            Ok(d) => Ok(d),
        }
    }
}

/// A fresh list of the same reference hashes, keeping their distinctness.
fn copy_ref_hashes(hashes: &Vec<Vec<u8>>) -> (r: Vec<Vec<u8>>)
    ensures
        views_of(r@) == views_of(hashes@),
        distinct_list(hashes@) ==> distinct_list(r@),
{
    let r = crate::bytes::copy_list(hashes);
    proof {
        if distinct_list(hashes@) {
            assert forall|a: int, b: int| 0 <= a < b < r@.len() implies (#[trigger] r@[a])@ != (
            #[trigger] r@[b])@ by {
                assert(views_of(r@).len() == r@.len());
                assert(views_of(hashes@).len() == hashes@.len());
                assert(views_of(r@)[a] == r@[a]@);
                assert(views_of(r@)[b] == r@[b]@);
                assert(views_of(hashes@)[a] == hashes@[a]@);
                assert(views_of(hashes@)[b] == hashes@[b]@);
            }
        }
    }
    r
}

/// Law (garbage collection): deleting a manifest that was the sole
/// referencer of a blob brings its reference count to zero and removes it
/// (a later `get_blob` reports `NotFound`); deleting one of two referencing
/// manifests leaves the blob retrievable with one reference fewer.
pub proof fn lemma_gc_referenced_blob(
    preb: BlobStore,
    postb: BlobStore,
    refs: Seq<Seq<u8>>,
    g: Seq<u8>,
)
    requires
        gc_effect(preb, postb, refs),
        contains_seq(refs, g),
        preb.has_blob(g),
    ensures
        preb.blob_rc(g) == 1 ==> !postb.has_blob(g),
        preb.blob_rc(g) > 1 ==> postb.has_blob(g) && postb.blob_rc(g) == preb.blob_rc(g) - 1
            && postb.blob_data(g) == preb.blob_data(g),
{
    assert(postb.has_blob(g) == postb.has_blob(g));
}

/// Law (proxy fetch once): an object that was absent locally and has been
/// ingested resolves locally, so no later request plans an upstream fetch
/// for it.
pub proof fn lemma_proxy_fetch_once(
    pre: Registry,
    post: Registry,
    repo: Seq<u8>,
    reference: Seq<u8>,
    h: Seq<u8>,
)
    requires
        !resolvable(pre.manifests, repo, reference),
        post.manifests.has_manifest(repo, h),
        is_sha256_text(reference) ==> hash_of_text(reference) == h,
        !is_sha256_text(reference) ==> post.manifests.has_tag(repo, reference)
            && post.manifests.tag_digest(repo, reference) == h,
    ensures
        resolvable(post.manifests, repo, reference),
{
}

} // verus!
