use trow::digest::{compute, verify, Digest, DigestAlgorithm};
use trow::errors::RegistryError;

fn text_of(d: &Digest) -> String {
    String::from_utf8(d.to_text()).unwrap()
}

#[test]
fn compute_known_digest_of_abc() {
    let d = compute(&b"abc".to_vec());
    assert_eq!(
        text_of(&d),
        "sha256:ba7816bf8f01cfea414140de5dae2223b00361a396177a9cb410ff61f20015ad"
    );
}

#[test]
fn compute_known_digest_of_empty() {
    let d = compute(&Vec::new());
    assert_eq!(
        text_of(&d),
        "sha256:e3b0c44298fc1c149afbf4c8996fb92427ae41e4649b934ca495991b7852b855"
    );
}

#[test]
fn computed_digest_verifies_and_mutation_fails() {
    let content = b"layer bytes".to_vec();
    let d = compute(&content);
    assert!(verify(&content, &d));
    let mut mutated = content.clone();
    mutated[0] ^= 1;
    assert!(!verify(&mutated, &d));
    assert!(!verify(&b"".to_vec(), &d));
}

#[test]
fn digest_text_round_trip() {
    let d = compute(&b"round trip".to_vec());
    let parsed = Digest::from_text(&d.to_text()).unwrap();
    assert_eq!(parsed.hash, d.hash);
    assert!(matches!(parsed.algo, DigestAlgorithm::Sha256));
}

#[test]
fn unknown_algorithm_tag_is_rejected() {
    let r = Digest::from_text(&b"md5:d41d8cd98f00b204e9800998ecf8427e".to_vec());
    assert_eq!(r.unwrap_err(), RegistryError::UnsupportedAlgorithm);
    let r2 = Digest::from_text(&b"plainly-not-a-digest".to_vec());
    assert_eq!(r2.unwrap_err(), RegistryError::UnsupportedAlgorithm);
}

#[test]
fn malformed_sha256_text_is_rejected() {
    // right tag, wrong length
    let r = Digest::from_text(&b"sha256:abcd".to_vec());
    assert_eq!(r.unwrap_err(), RegistryError::DigestMismatch);
    // right length, a non-hex character
    let mut t = compute(&b"x".to_vec()).to_text();
    t[10] = b'G';
    let r2 = Digest::from_text(&t);
    assert_eq!(r2.unwrap_err(), RegistryError::DigestMismatch);
}
