use trow::digest::{compute, Digest};
use trow::errors::RegistryError;
use trow::registry::Registry;

fn registry() -> Registry {
    Registry::new(4096, 4096, 16, 3600, Vec::new())
}

fn upload_blob(reg: &mut Registry, content: &[u8]) -> Digest {
    let d = compute(&content.to_vec());
    let id = reg.blobs.begin_upload(b"repo".to_vec(), 0).unwrap();
    reg.blobs.append_chunk(id, 0, &content.to_vec(), 0).unwrap();
    reg.blobs.complete_upload(id, &d).unwrap()
}

fn manifest_referencing(d: &Digest) -> Vec<u8> {
    let text = String::from_utf8(d.to_text()).unwrap();
    format!("{{\"config\":{{\"digest\":\"{}\"}},\"layers\":[]}}", text).into_bytes()
}

fn manifest_referencing_with_note(d: &Digest, note: &str) -> Vec<u8> {
    let text = String::from_utf8(d.to_text()).unwrap();
    format!(
        "{{\"note\":\"{}\",\"config\":{{\"digest\":\"{}\"}},\"layers\":[]}}",
        note, text
    )
    .into_bytes()
}

#[test]
fn put_and_get_by_tag_and_digest() {
    let mut reg = registry();
    let blob = upload_blob(&mut reg, b"layer-0");
    let doc = manifest_referencing(&blob);
    let d = reg
        .put_manifest(b"my/app".to_vec(), &b"latest".to_vec(), doc.clone(), false)
        .unwrap();
    let by_tag = reg.get_manifest(&b"my/app".to_vec(), &b"latest".to_vec()).unwrap();
    assert_eq!(by_tag, &doc);
    let by_digest = reg.get_manifest(&b"my/app".to_vec(), &d.to_text()).unwrap();
    assert_eq!(by_digest, &doc);
    // the referenced blob gained one reference
    assert_eq!(reg.blobs.blob_ref_count(&blob).unwrap(), 2);
}

#[test]
fn missing_reference_is_rejected() {
    let mut reg = registry();
    let absent = compute(&b"never uploaded".to_vec());
    let doc = manifest_referencing(&absent);
    let r = reg.put_manifest(b"my/app".to_vec(), &b"latest".to_vec(), doc, false);
    assert_eq!(r.unwrap_err(), RegistryError::ManifestReferenceMissing);
    assert_eq!(
        reg.get_manifest(&b"my/app".to_vec(), &b"latest".to_vec()).unwrap_err(),
        RegistryError::NotFound
    );
}

#[test]
fn invalid_document_is_rejected() {
    let mut reg = registry();
    let r = reg.put_manifest(
        b"my/app".to_vec(),
        &b"latest".to_vec(),
        b"{not json".to_vec(),
        false,
    );
    assert_eq!(r.unwrap_err(), RegistryError::ManifestReferenceMissing);
}

#[test]
fn whitespace_formatted_manifest_is_accepted() {
    let mut reg = registry();
    let blob = upload_blob(&mut reg, b"layer-1");
    let text = String::from_utf8(blob.to_text()).unwrap();
    // a pretty-printed document: whitespace around the digest member is
    // read the same as the compact form
    let doc = format!(
        "{{\n  \"config\": {{\n    \"digest\" : \"{}\"\n  }},\n  \"layers\": []\n}}",
        text
    )
    .into_bytes();
    let d = reg
        .put_manifest(b"my/app".to_vec(), &b"latest".to_vec(), doc.clone(), false)
        .unwrap();
    // the reference was seen and counted
    assert_eq!(reg.blobs.blob_ref_count(&blob).unwrap(), 2);
    assert_eq!(reg.get_manifest(&b"my/app".to_vec(), &d.to_text()).unwrap(), &doc);
    // and a missing reference is still caught in the pretty-printed form
    let absent = compute(&b"nowhere".to_vec());
    let gone = String::from_utf8(absent.to_text()).unwrap();
    let bad = format!("{{\"config\": {{\"digest\": \"{}\"}}}}", gone).into_bytes();
    let r = reg.put_manifest(b"my/app".to_vec(), &b"other".to_vec(), bad, false);
    assert_eq!(r.unwrap_err(), RegistryError::ManifestReferenceMissing);
}

#[test]
fn digest_as_a_plain_string_value_is_not_a_reference() {
    let mut reg = registry();
    let blob = upload_blob(&mut reg, b"layer-2");
    // the word appears as a value and as a key with a non-string value:
    // neither names a reference
    let doc = b"{\"name\":\"digest\",\"digest\":7,\"layers\":[]}".to_vec();
    reg.put_manifest(b"my/app".to_vec(), &b"latest".to_vec(), doc, false).unwrap();
    assert_eq!(reg.blobs.blob_ref_count(&blob).unwrap(), 1);
}

#[test]
fn manifest_size_limit_is_enforced_first() {
    let mut reg = Registry::new(8, 4096, 16, 3600, Vec::new());
    let r = reg.put_manifest(
        b"my/app".to_vec(),
        &b"latest".to_vec(),
        b"{\"a\":\"0123456789\"}".to_vec(),
        false,
    );
    assert_eq!(r.unwrap_err(), RegistryError::SizeLimitExceeded);
}

#[test]
fn put_by_digest_must_match_content() {
    let mut reg = registry();
    let doc = b"{\"layers\":[]}".to_vec();
    let other = compute(&b"different".to_vec());
    let r = reg.put_manifest(b"my/app".to_vec(), &other.to_text(), doc.clone(), false);
    assert_eq!(r.unwrap_err(), RegistryError::DigestMismatch);
    let right = compute(&doc);
    reg.put_manifest(b"my/app".to_vec(), &right.to_text(), doc, false).unwrap();
}

#[test]
fn tag_overwrite_is_last_write_wins() {
    let mut reg = registry();
    let doc_a = b"{\"layers\":[],\"v\":\"a\"}".to_vec();
    let doc_b = b"{\"layers\":[],\"v\":\"b\"}".to_vec();
    let da = reg
        .put_manifest(b"my/app".to_vec(), &b"latest".to_vec(), doc_a.clone(), false)
        .unwrap();
    let db = reg
        .put_manifest(b"my/app".to_vec(), &b"latest".to_vec(), doc_b.clone(), false)
        .unwrap();
    // the tag points at the later digest
    assert_eq!(
        reg.get_manifest(&b"my/app".to_vec(), &b"latest".to_vec()).unwrap(),
        &doc_b
    );
    // both manifests stay retrievable by digest
    assert_eq!(reg.get_manifest(&b"my/app".to_vec(), &da.to_text()).unwrap(), &doc_a);
    assert_eq!(reg.get_manifest(&b"my/app".to_vec(), &db.to_text()).unwrap(), &doc_b);
    // and the history lists both, most recent first
    let hist = reg
        .manifests
        .history_of(&b"my/app".to_vec(), &b"latest".to_vec())
        .unwrap();
    assert_eq!(hist, vec![db.hash.clone(), da.hash.clone()]);
}

#[test]
fn garbage_collection_of_sole_and_shared_references() {
    let mut reg = registry();
    let blob = upload_blob(&mut reg, b"shared layer");
    // two manifests referencing the same blob
    let doc_a = manifest_referencing_with_note(&blob, "a");
    let doc_b = manifest_referencing_with_note(&blob, "b");
    let da = reg.put_manifest(b"my/app".to_vec(), &b"a".to_vec(), doc_a, false).unwrap();
    let db = reg.put_manifest(b"my/app".to_vec(), &b"b".to_vec(), doc_b, false).unwrap();
    assert_eq!(reg.blobs.blob_ref_count(&blob).unwrap(), 3);
    // release the upload's own reference: the manifests keep it alive
    reg.blobs.delete_blob(&blob).unwrap();
    assert_eq!(reg.blobs.blob_ref_count(&blob).unwrap(), 2);
    // deleting one of two referencing manifests leaves the blob retrievable
    reg.delete_manifest(&b"my/app".to_vec(), &da.to_text()).unwrap();
    assert_eq!(reg.blobs.blob_ref_count(&blob).unwrap(), 1);
    assert!(reg.blobs.blob_exists(&blob));
    // deleting the sole remaining referencer reclaims the blob
    reg.delete_manifest(&b"my/app".to_vec(), &db.to_text()).unwrap();
    assert_eq!(reg.blobs.get_blob(&blob).unwrap_err(), RegistryError::NotFound);
}

#[test]
fn index_deletion_releases_sub_manifests() {
    let mut reg = registry();
    // a child manifest, then an index manifest referencing it
    let child_doc = b"{\"layers\":[],\"role\":\"child\"}".to_vec();
    let child = reg
        .put_manifest(b"my/app".to_vec(), &b"child".to_vec(), child_doc.clone(), false)
        .unwrap();
    assert_eq!(
        reg.manifests.manifest_ref_count(&b"my/app".to_vec(), &child.hash).unwrap(),
        1
    );
    let child_text = String::from_utf8(child.to_text()).unwrap();
    let index_doc =
        format!("{{\"manifests\":[{{\"digest\":\"{}\"}}]}}", child_text).into_bytes();
    let index = reg
        .put_manifest(b"my/app".to_vec(), &b"latest".to_vec(), index_doc, false)
        .unwrap();
    // the index holds a reference to the child
    assert_eq!(
        reg.manifests.manifest_ref_count(&b"my/app".to_vec(), &child.hash).unwrap(),
        2
    );
    // deleting the index cascades: the child keeps its own reference
    reg.delete_manifest(&b"my/app".to_vec(), &index.to_text()).unwrap();
    assert_eq!(
        reg.manifests.manifest_ref_count(&b"my/app".to_vec(), &child.hash).unwrap(),
        1
    );
    assert_eq!(
        reg.get_manifest(&b"my/app".to_vec(), &child.to_text()).unwrap(),
        &child_doc
    );
}

#[test]
fn deleting_a_tag_keeps_the_manifest() {
    let mut reg = registry();
    let doc = b"{\"layers\":[]}".to_vec();
    let d = reg
        .put_manifest(b"my/app".to_vec(), &b"latest".to_vec(), doc.clone(), false)
        .unwrap();
    reg.delete_manifest(&b"my/app".to_vec(), &b"latest".to_vec()).unwrap();
    assert_eq!(
        reg.get_manifest(&b"my/app".to_vec(), &b"latest".to_vec()).unwrap_err(),
        RegistryError::NotFound
    );
    assert_eq!(reg.get_manifest(&b"my/app".to_vec(), &d.to_text()).unwrap(), &doc);
    assert_eq!(
        reg.delete_manifest(&b"my/app".to_vec(), &b"latest".to_vec()).unwrap_err(),
        RegistryError::NotFound
    );
}

#[test]
fn tags_are_listed_lexicographically() {
    let mut reg = registry();
    for tag in [&b"zeta"[..], &b"alpha"[..], &b"mid"[..]] {
        let doc = format!("{{\"layers\":[],\"t\":\"{}\"}}", String::from_utf8_lossy(tag));
        reg.put_manifest(b"my/app".to_vec(), &tag.to_vec(), doc.into_bytes(), false)
            .unwrap();
    }
    let tags = reg.manifests.list_tags(&b"my/app".to_vec());
    assert_eq!(tags, vec![b"alpha".to_vec(), b"mid".to_vec(), b"zeta".to_vec()]);
    // a repository with no tags lists empty, not an error
    let none = reg.manifests.list_tags(&b"other/app".to_vec());
    assert!(none.is_empty());
}

#[test]
fn catalog_is_ordered_and_paginated() {
    let mut reg = registry();
    for repo in [&b"zoo/a"[..], &b"bar/b"[..], &b"foo/c"[..]] {
        let doc = format!("{{\"layers\":[],\"r\":\"{}\"}}", String::from_utf8_lossy(repo));
        reg.put_manifest(repo.to_vec(), &b"latest".to_vec(), doc.into_bytes(), false)
            .unwrap();
    }
    let all = reg.manifests.catalog_page(0, 10);
    assert_eq!(all, vec![b"bar/b".to_vec(), b"foo/c".to_vec(), b"zoo/a".to_vec()]);
    let page = reg.manifests.catalog_page(1, 1);
    assert_eq!(page, vec![b"foo/c".to_vec()]);
    let past_end = reg.manifests.catalog_page(5, 2);
    assert!(past_end.is_empty());
}

#[test]
fn manifest_history_of_unknown_tag_is_not_found() {
    let reg = registry();
    assert_eq!(
        reg.manifests
            .history_of(&b"my/app".to_vec(), &b"latest".to_vec())
            .unwrap_err(),
        RegistryError::NotFound
    );
}
