use trow::blob::BlobStore;
use trow::digest::{compute, Digest, DigestAlgorithm};
use trow::errors::RegistryError;

fn store() -> BlobStore {
    BlobStore::new(1024, 8, 3600)
}

#[test]
fn upload_round_trip() {
    let mut s = store();
    let content = b"first half second half".to_vec();
    let id = s.begin_upload(b"repo".to_vec(), 0).unwrap();
    let off = s.append_chunk(id, 0, &b"first half ".to_vec(), 0).unwrap();
    assert_eq!(off, 11);
    let off2 = s.append_chunk(id, off, &b"second half".to_vec(), 0).unwrap();
    assert_eq!(off2, 22);
    let d = compute(&content);
    let published = s.complete_upload(id, &d).unwrap();
    assert_eq!(published.hash, d.hash);
    let got = s.get_blob(&d).unwrap();
    assert_eq!(got, &content);
    assert_eq!(s.blob_ref_count(&d).unwrap(), 1);
}

#[test]
fn wrong_digest_leaves_no_blob() {
    let mut s = store();
    let id = s.begin_upload(b"repo".to_vec(), 0).unwrap();
    s.append_chunk(id, 0, &b"real content".to_vec(), 0).unwrap();
    let wrong = compute(&b"other content".to_vec());
    assert_eq!(s.complete_upload(id, &wrong).unwrap_err(), RegistryError::DigestMismatch);
    // the session is discarded, and nothing is retrievable under the digest
    assert_eq!(s.get_blob(&wrong).unwrap_err(), RegistryError::NotFound);
    assert_eq!(
        s.append_chunk(id, 12, &b"more".to_vec(), 0).unwrap_err(),
        RegistryError::SessionExpired
    );
}

#[test]
fn idempotent_publish_counts_references() {
    let mut s = store();
    let content = b"identical layer".to_vec();
    let d = compute(&content);

    let id1 = s.begin_upload(b"repo-a".to_vec(), 0).unwrap();
    s.append_chunk(id1, 0, &content, 0).unwrap();
    let d1 = s.complete_upload(id1, &d).unwrap();

    let id2 = s.begin_upload(b"repo-b".to_vec(), 0).unwrap();
    s.append_chunk(id2, 0, &content, 0).unwrap();
    let d2 = s.complete_upload(id2, &d).unwrap();

    assert_eq!(d1.hash, d2.hash);
    assert_eq!(s.blob_ref_count(&d).unwrap(), 2);
    assert_eq!(s.get_blob(&d).unwrap(), &content);
}

#[test]
fn offset_conflict_is_rejected() {
    let mut s = store();
    let id = s.begin_upload(b"repo".to_vec(), 0).unwrap();
    s.append_chunk(id, 0, &b"abc".to_vec(), 0).unwrap();
    assert_eq!(
        s.append_chunk(id, 0, &b"abc".to_vec(), 0).unwrap_err(),
        RegistryError::OffsetConflict
    );
    assert_eq!(
        s.append_chunk(id, 7, &b"abc".to_vec(), 0).unwrap_err(),
        RegistryError::OffsetConflict
    );
    // the failed appends changed nothing
    assert_eq!(s.append_chunk(id, 3, &b"def".to_vec(), 0).unwrap(), 6);
}

#[test]
fn size_limit_is_enforced() {
    let mut s = BlobStore::new(4, 8, 3600);
    let id = s.begin_upload(b"repo".to_vec(), 0).unwrap();
    s.append_chunk(id, 0, &b"abcd".to_vec(), 0).unwrap();
    assert_eq!(
        s.append_chunk(id, 4, &b"e".to_vec(), 0).unwrap_err(),
        RegistryError::SizeLimitExceeded
    );
}

#[test]
fn abort_is_idempotent() {
    let mut s = store();
    let id = s.begin_upload(b"repo".to_vec(), 0).unwrap();
    s.abort_upload(id);
    s.abort_upload(id);
    assert_eq!(
        s.append_chunk(id, 0, &b"x".to_vec(), 0).unwrap_err(),
        RegistryError::SessionExpired
    );
}

#[test]
fn sessions_expire_after_idle_timeout() {
    let mut s = BlobStore::new(1024, 8, 100);
    let idle = s.begin_upload(b"repo".to_vec(), 0).unwrap();
    let busy = s.begin_upload(b"repo".to_vec(), 0).unwrap();
    // an accepted chunk refreshes the idle clock
    s.append_chunk(busy, 0, &b"x".to_vec(), 95).unwrap();
    s.expire_sessions(120);
    // no activity since time 0: expired
    assert_eq!(
        s.append_chunk(idle, 0, &b"x".to_vec(), 120).unwrap_err(),
        RegistryError::SessionExpired
    );
    // last active at 95: still alive at 120
    assert_eq!(s.append_chunk(busy, 1, &b"y".to_vec(), 120).unwrap(), 2);
}

#[test]
fn session_capacity_is_enforced() {
    let mut s = BlobStore::new(1024, 1, 3600);
    let _id = s.begin_upload(b"repo".to_vec(), 0).unwrap();
    assert_eq!(
        s.begin_upload(b"repo".to_vec(), 0).unwrap_err(),
        RegistryError::CapacityExceeded
    );
}

#[test]
fn delete_blob_decrements_and_reclaims() {
    let mut s = store();
    let content = b"to be deleted".to_vec();
    let d = compute(&content);
    for _ in 0..2 {
        let id = s.begin_upload(b"repo".to_vec(), 0).unwrap();
        s.append_chunk(id, 0, &content, 0).unwrap();
        s.complete_upload(id, &d).unwrap();
    }
    assert_eq!(s.blob_ref_count(&d).unwrap(), 2);
    s.delete_blob(&d).unwrap();
    assert_eq!(s.blob_ref_count(&d).unwrap(), 1);
    assert_eq!(s.get_blob(&d).unwrap(), &content);
    s.delete_blob(&d).unwrap();
    assert_eq!(s.get_blob(&d).unwrap_err(), RegistryError::NotFound);
    assert_eq!(s.delete_blob(&d).unwrap_err(), RegistryError::NotFound);
}

#[test]
fn get_blob_of_unknown_digest_is_not_found() {
    let s = store();
    let d = Digest { algo: DigestAlgorithm::Sha256, hash: vec![7u8; 32] };
    assert_eq!(s.get_blob(&d).unwrap_err(), RegistryError::NotFound);
    assert!(!s.blob_exists(&d));
}
