use trow::admission::ImageValidationConfig;
use trow::build_handlers;
use trow::proxy::RegistryProxyConfig;
use trow::{NetAddr, TrowBuilder};

fn builder() -> TrowBuilder {
    TrowBuilder::new(
        "./data".to_string(),
        NetAddr { host: "0.0.0.0".to_string(), port: 8443 },
        "127.0.0.1:51000".to_string(),
        "trow.test".to_string(),
        false,
        false,
        4,
        100,
        "error".to_string(),
    )
}

#[test]
fn builder_sets_base_configuration() {
    let b = builder();
    assert_eq!(b.config.data_dir, "./data");
    assert_eq!(b.config.addr.port, 8443);
    assert_eq!(b.config.service_name, "trow.test");
    assert_eq!(b.config.max_manifest_size, 4);
    assert_eq!(b.config.max_blob_size, 100);
    assert_eq!(b.config.token_secret.len(), 36);
    assert!(b.config.user.is_none());
    assert!(b.config.tls.is_none());
    assert!(b.config.image_validation_config.is_none());
    assert!(b.config.proxy_registry_config.is_empty());
}

#[test]
fn builder_installs_proxies_validation_tls_and_user() {
    let mut b = builder();
    b.with_proxy_registries(vec![RegistryProxyConfig {
        alias: b"lovni".to_vec(),
        host: b"jul.example.com".to_vec(),
        username: None,
        password: None,
    }]);
    b.with_image_validation(ImageValidationConfig {
        default_allow: true,
        allow: vec![b"trow.test/".to_vec()],
        deny: vec![b"toto".to_vec()],
    });
    b.with_tls("cert.pem".to_string(), "key.pem".to_string());
    b.with_user("robert".to_string(), "hunter2".to_string());

    assert_eq!(b.config.proxy_registry_config.len(), 1);
    let v = b.config.image_validation_config.as_ref().unwrap();
    assert!(v.default_allow);
    assert_eq!(v.deny, vec![b"toto".to_vec()]);
    let tls = b.config.tls.as_ref().unwrap();
    assert_eq!(tls.cert_file, "cert.pem");
    let u = b.config.user.as_ref().unwrap();
    assert_eq!(u.user, "robert");
    // only a salted hash is kept, never the password itself
    assert!(!u.hash_encoded.is_empty());
    assert!(u.hash_encoded != "hunter2");
    assert!(u.hash_encoded.starts_with("$argon2"));
}

#[test]
fn builder_produces_a_registry_with_mebibyte_limits() {
    let reg = builder().registry();
    assert_eq!(reg.max_manifest_size, 4 * 1048576);
    assert_eq!(reg.blobs.max_blob_size, 100 * 1048576);
    assert!(reg.proxies.is_empty());
}

#[test]
fn build_handlers_yields_an_empty_registry() {
    let reg = build_handlers("https://127.0.0.1:51000".to_string()).unwrap();
    assert_eq!(
        reg.manifests.catalog_page(0, 10),
        Vec::<Vec<u8>>::new()
    );
}
