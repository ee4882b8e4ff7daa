//! The digest codec: computing and verifying content digests, and the
//! textual form `sha256:<64 lowercase hex digits>`.

use vstd::prelude::*;
use crate::bytes::bytes_eq;
use crate::errors::RegistryError;

verus! {

/// What SHA-256 returns on the given bytes: a function of the input alone,
/// the same in every process and on every machine.
pub uninterp spec fn sha256_of(bytes: Seq<u8>) -> Seq<u8>;

/// Relies on sha2's `Digest::digest` for `Sha256`: a pure, deterministic
/// hash of the input bytes alone, 32 bytes long.
#[verifier::external_body]
fn sha256(bytes: &Vec<u8>) -> (r: Vec<u8>)
    ensures
        r@ == sha256_of(bytes@),
        r@.len() == 32,
{
    <sha2::Sha256 as sha2::Digest>::digest(bytes.as_slice()).to_vec()
}

/// The hash algorithms the registry supports.
#[derive(Clone, Copy, Debug, PartialEq, Eq, Structural)]
pub enum DigestAlgorithm {
    Sha256,
}

/// An algorithm-prefixed content hash. Two blobs with an equal digest are
/// considered identical.
#[derive(Clone, Debug)]
pub struct Digest {
    pub algo: DigestAlgorithm,
    pub hash: Vec<u8>,
}

impl Digest {
    /// A well-formed digest holds a full-length hash for its algorithm.
    pub open spec fn valid(self) -> bool {
        self.algo == DigestAlgorithm::Sha256 && self.hash@.len() == 32
    }
}

/// What `compute` promises of its result.
pub open spec fn computed_digest(bytes: Seq<u8>, d: Digest) -> bool {
    d.algo == DigestAlgorithm::Sha256 && d.hash@ == sha256_of(bytes)
}

/// What `verify` accepts: the digest's hash equals the hash of the bytes.
pub open spec fn digest_accepts(bytes: Seq<u8>, d: Digest) -> bool {
    d.hash@ == sha256_of(bytes)
}

/// Computes the digest of the given content.
pub fn compute(bytes: &Vec<u8>) -> (d: Digest)
    ensures
        computed_digest(bytes@, d),
        d.valid(),
{
    Digest { algo: DigestAlgorithm::Sha256, hash: sha256(bytes) }
}

/// Whether the given content has the expected digest.
pub fn verify(bytes: &Vec<u8>, expected: &Digest) -> (r: bool)
    ensures
        r == digest_accepts(bytes@, *expected),
{
    let d = compute(bytes);
    bytes_eq(&expected.hash, &d.hash)
}

/// Law: a digest computed over some bytes verifies against those same
/// bytes. (That a mutation of the bytes is rejected holds only with
/// overwhelming probability and is not stated here.)
pub proof fn lemma_computed_digest_verifies(bytes: Seq<u8>, d: Digest)
    requires
        computed_digest(bytes, d),
    ensures
        digest_accepts(bytes, d),
{
}

/// Law: digests are deterministic — two digests computed over equal bytes
/// hold the same hash.
pub proof fn lemma_digest_deterministic(bytes: Seq<u8>, d1: Digest, d2: Digest)
    requires
        computed_digest(bytes, d1),
        computed_digest(bytes, d2),
    ensures
        d1.hash@ == d2.hash@,
{
}

/// Whether `c` is a lowercase hexadecimal digit.
pub open spec fn is_hex_digit(c: u8) -> bool {
    (48 <= c <= 57) || (97 <= c <= 102)
}

/// The value of a lowercase hexadecimal digit.
pub open spec fn hex_val(c: u8) -> u8 {
    if 48 <= c <= 57 {
        (c - 48) as u8
    } else {
        (c - 87) as u8
    }
}

/// The lowercase hexadecimal digit for a value below 16.
pub open spec fn hex_char(n: u8) -> u8 {
    if n < 10 {
        (n + 48) as u8
    } else {
        (n + 87) as u8
    }
}

/// The lowercase hexadecimal encoding of a byte string.
pub open spec fn hex_of(h: Seq<u8>) -> Seq<u8> {
    Seq::new(
        h.len() * 2,
        |i: int|
            if i % 2 == 0 {
                hex_char((h[i / 2] / 16) as u8)
            } else {
                hex_char((h[i / 2] % 16) as u8)
            },
    )
}

/// The bytes of the algorithm tag `sha256:`.
pub open spec fn sha256_prefix() -> Seq<u8> {
    seq![115u8, 104u8, 97u8, 50u8, 53u8, 54u8, 58u8]
}

/// The textual form of a digest whose hash is `h`.
pub open spec fn digest_text_of(h: Seq<u8>) -> Seq<u8> {
    sha256_prefix() + hex_of(h)
}

/// Whether `s` starts with the supported algorithm tag `sha256:`.
pub open spec fn has_sha256_tag(s: Seq<u8>) -> bool {
    s.len() >= 7 && s.subrange(0, 7) == sha256_prefix()
}

/// Whether `s` is a well-formed textual sha256 digest.
pub open spec fn is_sha256_text(s: Seq<u8>) -> bool {
    s.len() == 71 && has_sha256_tag(s) && forall|i: int| 7 <= i < 71 ==> is_hex_digit(#[trigger] s[i])
}

/// The hash encoded by a well-formed textual sha256 digest.
pub open spec fn hash_of_text(s: Seq<u8>) -> Seq<u8> {
    Seq::new(32, |k: int| (hex_val(s[7 + 2 * k]) * 16 + hex_val(s[7 + 2 * k + 1])) as u8)
}

fn hex_char_exec(n: u8) -> (r: u8)
    requires
        n < 16,
    ensures
        r == hex_char(n),
{
    if n < 10 {
        n + 48
    } else {
        n + 87
    }
}

fn hex_val_exec(c: u8) -> (r: u8)
    requires
        is_hex_digit(c),
    ensures
        r == hex_val(c),
{
    if c <= 57 {
        c - 48
    } else {
        c - 87
    }
}

impl Digest {
    /// The textual form `sha256:<hex>` of this digest.
    pub fn to_text(&self) -> (r: Vec<u8>)
        requires
            self.valid(),
        ensures
            r@ == digest_text_of(self.hash@),
    {
        let mut r: Vec<u8> = Vec::new();
        r.push(115);
        r.push(104);
        r.push(97);
        r.push(50);
        r.push(53);
        r.push(54);
        r.push(58);
        assert(r@ =~= sha256_prefix());
        let n = self.hash.len();
        let mut i: usize = 0;
        while i < n
            invariant
                n == self.hash@.len(),
                0 <= i <= n,
                r@ =~= sha256_prefix() + hex_of(self.hash@).take(2 * i),
            decreases n - i,
        {
            let b = self.hash[i];
            r.push(hex_char_exec(b / 16));
            r.push(hex_char_exec(b % 16));
            proof {
                assert(hex_of(self.hash@)[2 * i as int] == hex_char((self.hash@[i as int] / 16) as u8));
                assert(hex_of(self.hash@)[2 * i + 1] == hex_char((self.hash@[i as int] % 16) as u8));
                assert(r@ =~= sha256_prefix() + hex_of(self.hash@).take(2 * (i + 1)));
            }
            i += 1;
        }
        proof {
            assert(hex_of(self.hash@).take(2 * n as int) =~= hex_of(self.hash@));
        }
        r
    }

    /// Parses the textual form of a digest. Fails with
    /// `UnsupportedAlgorithm` when the algorithm tag is not `sha256:`, and
    /// with `DigestMismatch` when the tag is right but the rest is not 64
    /// lowercase hex digits.
    pub fn from_text(s: &Vec<u8>) -> (r: Result<Digest, RegistryError>)
        ensures
            match r {
                Ok(d) => is_sha256_text(s@) && d.valid() && d.hash@ == hash_of_text(s@),
                Err(e) => !is_sha256_text(s@) && e == (
                    if has_sha256_tag(s@) {
                        RegistryError::DigestMismatch
                    } else {
                        RegistryError::UnsupportedAlgorithm
                    }
                ),
            },
    {
        if s.len() < 7 {
            assert(!has_sha256_tag(s@));
            return Err(RegistryError::UnsupportedAlgorithm);
        }
        if !(s[0] == 115 && s[1] == 104 && s[2] == 97 && s[3] == 50 && s[4] == 53 && s[5] == 54
            && s[6] == 58) {
            assert(!has_sha256_tag(s@)) by {
                if has_sha256_tag(s@) {
                    assert(forall|j: int| 0 <= j < 7 ==> s@[j] == sha256_prefix()[j]);
                }
            }
            return Err(RegistryError::UnsupportedAlgorithm);
        }
        assert(s@.subrange(0, 7) =~= sha256_prefix());
        if s.len() != 71 {
            return Err(RegistryError::DigestMismatch);
        }
        let mut i: usize = 7;
        while i < 71
            invariant
                s@.len() == 71,
                has_sha256_tag(s@),
                7 <= i <= 71,
                forall|j: int| 7 <= j < i ==> is_hex_digit(#[trigger] s@[j]),
            decreases 71 - i,
        {
            let c = s[i];
            if !((48 <= c && c <= 57) || (97 <= c && c <= 102)) {
                return Err(RegistryError::DigestMismatch);
            }
            i += 1;
        }
        let mut hash: Vec<u8> = Vec::new();
        let mut k: usize = 0;
        while k < 32
            invariant
                s@.len() == 71,
                is_sha256_text(s@),
                0 <= k <= 32,
                hash@ =~= hash_of_text(s@).take(k as int),
            decreases 32 - k,
        {
            let hi = hex_val_exec(s[7 + 2 * k]);
            let lo = hex_val_exec(s[7 + 2 * k + 1]);
            hash.push(hi * 16 + lo);
            proof {
                assert(hash@ =~= hash_of_text(s@).take(k + 1));
            }
            k += 1;
        }
        proof {
            assert(hash_of_text(s@).take(32) =~= hash_of_text(s@));
        }
        Ok(Digest { algo: DigestAlgorithm::Sha256, hash })
    }
}

} // verus!
