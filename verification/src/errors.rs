//! The error taxonomy of the registry core, and the error types of the
//! management API surface.

use vstd::prelude::*;

verus! {

/// Domain failures of the registry core. Every store operation reports
/// exactly one of these; none is silently swallowed.
#[derive(Clone, Copy, Debug, PartialEq, Eq, Structural)]
pub enum RegistryError {
    /// Unknown repository, reference or digest.
    NotFound,
    /// A digest did not match the bytes it was asserted for.
    DigestMismatch,
    /// A chunk was appended at an offset other than the session's current one.
    OffsetConflict,
    /// The upload session no longer exists (completed, aborted or expired).
    SessionExpired,
    /// A blob or manifest exceeded the configured maximum size.
    SizeLimitExceeded,
    /// A configured resource limit on sessions or reference counts was hit.
    CapacityExceeded,
    /// A manifest referenced a digest that resolves to nothing.
    ManifestReferenceMissing,
    /// The upstream registry could not be reached; safe to retry.
    UpstreamUnavailable,
    /// Upstream bytes did not match the digest the upstream declared.
    UpstreamIntegrityViolation,
    /// A digest carried an algorithm tag this registry does not support.
    UnsupportedAlgorithm,
}

/// Failures of a management-console component.
#[derive(Clone, Debug)]
pub enum ComponentError {
    Unknown,
}

/// Failures seen by a management-console API client.
#[derive(Clone, Debug)]
pub enum ApiError {
    RequestFailed,
    DeserializationFailed,
    ResponseParsingFailed,
    InvalidHeader { expected: String, found: String },
    Unknown,
}

} // verus!
