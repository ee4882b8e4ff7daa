use trow::admission::{decide, mutate, Decision, ImageValidationConfig};
use trow::proxy::RegistryProxyConfig;

fn policy(default_allow: bool, allow: &[&[u8]], deny: &[&[u8]]) -> ImageValidationConfig {
    ImageValidationConfig {
        default_allow,
        allow: allow.iter().map(|p| p.to_vec()).collect(),
        deny: deny.iter().map(|p| p.to_vec()).collect(),
    }
}

#[test]
fn admission_boundary_cases() {
    let cfg = policy(true, &[b"trow.test/"], &[b"toto"]);
    assert_eq!(decide(&cfg, &b"toto/image:v1".to_vec()), Decision::Deny);
    assert_eq!(decide(&cfg, &b"trow.test/app:v1".to_vec()), Decision::Allow);
    assert_eq!(decide(&cfg, &b"other/app:v1".to_vec()), Decision::Allow);
}

#[test]
fn deny_overrides_allow_when_both_match() {
    let cfg = policy(true, &[b"shared/"], &[b"shared"]);
    assert_eq!(decide(&cfg, &b"shared/app:v1".to_vec()), Decision::Deny);
}

#[test]
fn prefixes_match_on_segment_boundaries_only() {
    let cfg = policy(true, &[], &[b"toto"]);
    // "totofu" is not under the "toto" segment
    assert_eq!(decide(&cfg, &b"totofu/image:v1".to_vec()), Decision::Allow);
    assert_eq!(decide(&cfg, &b"toto:v1".to_vec()), Decision::Deny);
    assert_eq!(decide(&cfg, &b"toto".to_vec()), Decision::Deny);
}

#[test]
fn default_action_applies_when_nothing_matches() {
    let deny_by_default = policy(false, &[b"ok/"], &[]);
    assert_eq!(decide(&deny_by_default, &b"ok/app:v1".to_vec()), Decision::Allow);
    assert_eq!(decide(&deny_by_default, &b"other/app:v1".to_vec()), Decision::Deny);
}

#[test]
fn malformed_references_are_denied_even_under_default_allow() {
    let cfg = policy(true, &[], &[]);
    assert_eq!(decide(&cfg, &b"".to_vec()), Decision::Deny);
    assert_eq!(decide(&cfg, &b"/leading/slash:v1".to_vec()), Decision::Deny);
    assert_eq!(decide(&cfg, &b"has space:v1".to_vec()), Decision::Deny);
}

#[test]
fn mutate_rewrites_admitted_upstream_references() {
    let cfg = policy(true, &[], &[]);
    let proxies = vec![RegistryProxyConfig {
        alias: b"lovni".to_vec(),
        host: b"jul.example.com".to_vec(),
        username: None,
        password: None,
    }];
    let local = b"trow.test".to_vec();
    let out = mutate(&cfg, &proxies, &local, &b"jul.example.com/foo/bar:tag".to_vec());
    assert_eq!(out, b"trow.test/lovni/foo/bar:tag".to_vec());
}

#[test]
fn mutate_leaves_other_references_unchanged() {
    let cfg = policy(true, &[], &[b"jul.example.com"]);
    let proxies = vec![RegistryProxyConfig {
        alias: b"lovni".to_vec(),
        host: b"jul.example.com".to_vec(),
        username: None,
        password: None,
    }];
    let local = b"trow.test".to_vec();
    // denied: unchanged
    let denied = mutate(&cfg, &proxies, &local, &b"jul.example.com/foo:t".to_vec());
    assert_eq!(denied, b"jul.example.com/foo:t".to_vec());
    // allowed but under no configured host: unchanged
    let open = policy(true, &[], &[]);
    let other = mutate(&open, &proxies, &local, &b"other.example.com/foo:t".to_vec());
    assert_eq!(other, b"other.example.com/foo:t".to_vec());
}
