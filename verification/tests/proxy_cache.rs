use trow::digest::compute;
use trow::errors::RegistryError;
use trow::proxy::RegistryProxyConfig;
use trow::registry::{Registry, ResolvePlan};

fn proxied_registry() -> Registry {
    Registry::new(
        4096,
        4096,
        16,
        3600,
        vec![RegistryProxyConfig {
            alias: b"lovni".to_vec(),
            host: b"jul.example.com".to_vec(),
            username: Some(b"robert".to_vec()),
            password: Some(b"1234".to_vec()),
        }],
    )
}

#[test]
fn absent_object_under_alias_plans_one_fetch_then_serves_locally() {
    let mut reg = proxied_registry();
    let repo = b"lovni/ubuntu".to_vec();
    let tag = b"latest".to_vec();

    // absent locally, repository under the alias: fetch from the upstream
    let plan = reg.resolve_plan(&repo, &tag);
    match plan {
        ResolvePlan::Fetch { upstream } => {
            assert_eq!(reg.proxies[upstream].host, b"jul.example.com".to_vec());
        },
        _ => panic!("expected an upstream fetch plan"),
    }

    // the fetched bytes are ingested under the upstream-declared digest
    let doc = b"{\"layers\":[],\"os\":\"linux\"}".to_vec();
    let declared = compute(&doc);
    let d = reg.ingest_manifest(repo.clone(), &tag, &declared.to_text(), doc.clone()).unwrap();
    assert_eq!(d.hash, declared.hash);

    // later requests resolve locally: no further upstream call is planned
    assert!(matches!(reg.resolve_plan(&repo, &tag), ResolvePlan::Local));
    assert_eq!(reg.get_manifest(&repo, &tag).unwrap(), &doc);
}

#[test]
fn pretty_printed_upstream_manifest_is_ingested() {
    let mut reg = proxied_registry();
    let repo = b"lovni/alpine".to_vec();
    let tag = b"3.20".to_vec();
    // upstreams serve manifests as pushed, often pretty-printed
    let doc = b"{\n  \"layers\": [],\n  \"os\" : \"linux\"\n}".to_vec();
    let declared = compute(&doc);
    reg.ingest_manifest(repo.clone(), &tag, &declared.to_text(), doc.clone()).unwrap();
    assert!(matches!(reg.resolve_plan(&repo, &tag), ResolvePlan::Local));
    assert_eq!(reg.get_manifest(&repo, &tag).unwrap(), &doc);
}

#[test]
fn upstream_integrity_violation_discards_the_bytes() {
    let mut reg = proxied_registry();
    let repo = b"lovni/ubuntu".to_vec();
    let tag = b"latest".to_vec();
    let doc = b"{\"layers\":[]}".to_vec();
    let wrong = compute(&b"something else".to_vec());
    let r = reg.ingest_manifest(repo.clone(), &tag, &wrong.to_text(), doc);
    assert_eq!(r.unwrap_err(), RegistryError::UpstreamIntegrityViolation);
    // nothing was cached, not even negatively: the next request plans a retry
    assert!(matches!(reg.resolve_plan(&repo, &tag), ResolvePlan::Fetch { .. }));
}

#[test]
fn repository_under_no_alias_is_unknown_when_absent() {
    let reg = proxied_registry();
    let plan = reg.resolve_plan(&b"plain/app".to_vec(), &b"latest".to_vec());
    assert!(matches!(plan, ResolvePlan::Unknown));
}

#[test]
fn proxy_population_accepts_missing_references() {
    let mut reg = proxied_registry();
    // a manifest naming a blob the registry does not hold yet
    let absent = compute(&b"remote layer".to_vec());
    let text = String::from_utf8(absent.to_text()).unwrap();
    let doc = format!("{{\"config\":{{\"digest\":\"{}\"}},\"layers\":[]}}", text).into_bytes();
    let declared = compute(&doc);
    reg.ingest_manifest(
        b"lovni/ubuntu".to_vec(),
        &b"latest".to_vec(),
        &declared.to_text(),
        doc.clone(),
    )
    .unwrap();
    assert_eq!(
        reg.get_manifest(&b"lovni/ubuntu".to_vec(), &b"latest".to_vec()).unwrap(),
        &doc
    );
}
