//! A verified core for a container image registry: a content-addressable
//! blob store with resumable chunked uploads, a manifest store with tag
//! resolution and a repository catalog, a pull-through proxy cache, and an
//! image-admission decision engine.

use vstd::prelude::*;

pub mod admission;
pub mod blob;
pub mod bytes;
pub mod digest;
pub mod errors;
pub mod manifest;
pub mod proxy;
pub mod registry;
pub mod scan;

use crate::admission::ImageValidationConfig;
use crate::proxy::RegistryProxyConfig;
use crate::registry::Registry;

verus! {

/// The configuration could not be assembled.
#[derive(Debug)]
pub struct ConfigError {}

/// A host and port to listen on.
#[derive(Clone, Debug)]
pub struct NetAddr {
    pub host: String,
    pub port: u16,
}

/// Paths of the TLS certificate and key files.
#[derive(Clone, Debug)]
pub struct TlsConfig {
    pub cert_file: String,
    pub key_file: String,
}

/// A user allowed to push, with the encoded hash of their password.
#[derive(Clone, Debug)]
pub struct UserConfig {
    pub user: String,
    pub hash_encoded: String,
}

/// The full configuration of a registry process, assembled once at startup
/// and read-only afterwards. Sizes are in mebibytes.
pub struct TrowConfig {
    pub data_dir: String,
    pub addr: NetAddr,
    pub listen: String,
    pub service_name: String,
    pub proxy_registry_config: Vec<RegistryProxyConfig>,
    pub image_validation_config: Option<ImageValidationConfig>,
    pub dry_run: bool,
    pub max_manifest_size: u32,
    pub max_blob_size: u32,
    pub token_secret: String,
    pub user: Option<UserConfig>,
    pub cors: bool,
    pub log_level: String,
    pub tls: Option<TlsConfig>,
}

/// Relies on `uuid::Uuid::new_v4` and its hyphenated text form: a fresh
/// random identifier, 36 characters long; random, so nothing more is
/// promised of it.
#[verifier::external_body]
fn new_token_secret() -> (r: String)
    ensures
        r@.len() == 36,
{
    uuid::Uuid::new_v4().to_string()
}

/// Relies on `uuid::Uuid::new_v4`: a fresh random identifier of exactly 16
/// bytes; random, so nothing more is promised of it.
#[verifier::external_body]
fn new_salt() -> (r: Vec<u8>)
    ensures
        r@.len() == 16,
{
    uuid::Uuid::new_v4().as_bytes().to_vec()
}

/// What `argon2::hash_encoded` returns under its default configuration: a
/// deterministic function of the password and the salt alone.
pub uninterp spec fn argon2_of(pass: Seq<char>, salt: Seq<u8>) -> Seq<char>;

/// Relies on `argon2::hash_encoded` (rust-argon2) with the default
/// configuration: hashes the password with the salt into a non-empty
/// encoded string, a pure function of the two. It fails only on
/// out-of-range parameter lengths, which the preconditions exclude.
#[verifier::external_body]
fn argon2_hash(pass: &String, salt: &Vec<u8>) -> (r: String)
    requires
        pass@.len() < 1000000000,
        8 <= salt@.len() < 4294967295,
    ensures
        r@ == argon2_of(pass@, salt@),
        r@.len() > 0,
{
    argon2::hash_encoded(pass.as_bytes(), salt.as_slice(), &argon2::Config::default()).unwrap()
}

/// Assembles a registry configuration step by step, then builds the
/// registry core from it.
pub struct TrowBuilder {
    pub config: TrowConfig,
}

impl TrowBuilder {
    /// A builder with the given base settings, no proxies, no validation
    /// policy, no TLS and no user, and a fresh random token secret.
    pub fn new(
        data_dir: String,
        addr: NetAddr,
        listen: String,
        service_name: String,
        dry_run: bool,
        cors: bool,
        max_manifest_size: u32,
        max_blob_size: u32,
        log_level: String,
    ) -> (b: TrowBuilder)
        ensures
            b.config.data_dir@ == data_dir@,
            b.config.addr.host@ == addr.host@,
            b.config.addr.port == addr.port,
            b.config.listen@ == listen@,
            b.config.service_name@ == service_name@,
            b.config.dry_run == dry_run,
            b.config.cors == cors,
            b.config.max_manifest_size == max_manifest_size,
            b.config.max_blob_size == max_blob_size,
            b.config.log_level@ == log_level@,
            b.config.proxy_registry_config@.len() == 0,
            b.config.image_validation_config is None,
            b.config.user is None,
            b.config.tls is None,
            b.config.token_secret@.len() == 36,
    {
        TrowBuilder {
            config: TrowConfig {
                data_dir,
                addr,
                listen,
                service_name,
                proxy_registry_config: Vec::new(),
                image_validation_config: None,
                dry_run,
                max_manifest_size,
                max_blob_size,
                token_secret: new_token_secret(),
                user: None,
                cors,
                log_level,
                tls: None,
            },
        }
    }

    /// Installs the proxy registry configuration.
    pub fn with_proxy_registries(&mut self, config: Vec<RegistryProxyConfig>)
        ensures
            final(self).config == (TrowConfig {
                proxy_registry_config: config,
                ..old(self).config
            }),
    {
        self.config.proxy_registry_config = config;
    }

    /// Installs the image validation policy.
    pub fn with_image_validation(&mut self, config: ImageValidationConfig)
        ensures
            final(self).config == (TrowConfig {
                image_validation_config: Some(config),
                ..old(self).config
            }),
    {
        self.config.image_validation_config = Some(config);
    }

    /// Installs the TLS certificate and key file paths.
    pub fn with_tls(&mut self, cert_file: String, key_file: String)
        ensures
            final(self).config == (TrowConfig {
                tls: Some(TlsConfig { cert_file, key_file }),
                ..old(self).config
            }),
    {
        self.config.tls = Some(TlsConfig { cert_file, key_file });
    }

    /// Installs a user, storing only a salted argon2 hash of the password
    /// (the salt is 16 fresh random bytes). No other configuration field
    /// changes.
    pub fn with_user(&mut self, user: String, pass: String)
        requires
            pass@.len() < 1000000000,
        ensures
            match final(self).config.user {
                Some(u) => u.user@ == user@ && u.hash_encoded@.len() > 0 && exists|salt: Seq<u8>|
                    salt.len() == 16 && u.hash_encoded@ == #[trigger] argon2_of(pass@, salt),
                None => false,
            },
            final(self).config == (TrowConfig {
                user: final(self).config.user,
                ..old(self).config
            }),
    {
        let salt = new_salt();
        let hash_encoded = argon2_hash(&pass, &salt);
        proof {
            assert(hash_encoded@ == argon2_of(pass@, salt@));
        }
        self.config.user = Some(UserConfig { user, hash_encoded });
    }

    /// Builds the registry core from the configured limits (mebibytes) and
    /// proxies. Upload sessions expire after an hour of idleness; at most
    /// 4096 are tracked at a time.
    pub fn registry(self) -> (reg: Registry)
        ensures
            reg.wf(),
            reg.max_manifest_size == self.config.max_manifest_size * 1048576,
            reg.blobs.max_blob_size == self.config.max_blob_size * 1048576,
            reg.blobs.max_sessions == 4096,
            reg.blobs.session_timeout == 3600,
            reg.blobs.next_session_id == 0,
            reg.blobs.sessions@.len() == 0,
            reg.blobs.blobs@.len() == 0,
            reg.proxies == self.config.proxy_registry_config,
            forall|h: Seq<u8>| !(#[trigger] reg.blobs.has_blob(h)),
            forall|id: u64| !(#[trigger] reg.blobs.has_session(id)),
            forall|r: Seq<u8>, h: Seq<u8>| !(#[trigger] reg.manifests.has_manifest(r, h)),
            forall|r: Seq<u8>, t: Seq<u8>| !(#[trigger] reg.manifests.has_tag(r, t)),
    {
        Registry::new(
            self.config.max_manifest_size as u64 * 1048576,
            self.config.max_blob_size as u64 * 1048576,
            4096,
            3600,
            self.config.proxy_registry_config,
        )
    }
}

/// The backend handlers the frontend talks to: an empty registry core with
/// default limits. The address only names the frontend-to-backend link; the
/// caller wires it up.
pub fn build_handlers(listen_addr: String) -> (r: Result<Registry, ConfigError>)
    ensures
        match r {
            Ok(reg) => reg.wf() && reg.max_manifest_size == 4 * 1048576
                && reg.blobs.max_blob_size == 100 * 1048576 && reg.blobs.max_sessions == 4096
                && reg.blobs.session_timeout == 3600 && reg.blobs.next_session_id == 0
                && reg.blobs.sessions@.len() == 0 && reg.blobs.blobs@.len() == 0
                && reg.proxies@.len() == 0 && (forall|h: Seq<u8>|
                !(#[trigger] reg.blobs.has_blob(h))) && (forall|rp: Seq<u8>, g: Seq<u8>|
                !(#[trigger] reg.manifests.has_manifest(rp, g))) && (forall|rp: Seq<u8>, t: Seq<u8>|
                !(#[trigger] reg.manifests.has_tag(rp, t))),
            Err(_) => false,
        },
{
    let _ = listen_addr;
    Ok(Registry::new(4 * 1048576, 100 * 1048576, 4096, 3600, Vec::new()))
}

} // verus!
