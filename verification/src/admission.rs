//! The image-admission decision engine: a pure, total evaluation of an
//! image reference against configured allow/deny prefix rules, and the
//! rewrite of admitted references to route through the proxy cache.

use vstd::prelude::*;
use crate::bytes::views_of;
use crate::proxy::RegistryProxyConfig;

verus! {

/// The admission policy: a default action and prefix lists. Loaded once at
/// startup, read-only afterwards.
pub struct ImageValidationConfig {
    pub default_allow: bool,
    pub allow: Vec<Vec<u8>>,
    pub deny: Vec<Vec<u8>>,
}

/// The admission verdict.
#[derive(Clone, Copy, Debug, PartialEq, Eq, Structural)]
pub enum Decision {
    Allow,
    Deny,
}

/// Bytes an image reference may hold.
pub open spec fn allowed_ref_byte(c: u8) -> bool {
    (48 <= c <= 57) || (65 <= c <= 90) || (97 <= c <= 122) || c == 46 || c == 45 || c == 95 || c
        == 47 || c == 58 || c == 64
}

/// A well-formed image reference: non-empty, over the reference alphabet,
/// not starting with a path separator.
pub open spec fn valid_reference(r: Seq<u8>) -> bool {
    r.len() > 0 && r[0] != 47 && forall|i: int| 0 <= i < r.len() ==> allowed_ref_byte(#[trigger] r[i])
}

/// Whether prefix `p` matches reference `r` on a segment boundary: `r`
/// starts with `p`, and the match ends the reference, ends at a `/` or `:`,
/// or `p` itself ends with `/`.
pub open spec fn prefix_matches(p: Seq<u8>, r: Seq<u8>) -> bool {
    &&& 0 < p.len() <= r.len()
    &&& r.subrange(0, p.len() as int) == p
    &&& (p.len() == r.len() || p[p.len() - 1] == 47 || r[p.len() as int] == 47 || r[p.len() as int]
        == 58)
}

/// Whether any prefix of the list matches the reference.
pub open spec fn any_match(ps: Seq<Seq<u8>>, r: Seq<u8>) -> bool {
    exists|i: int| 0 <= i < ps.len() && prefix_matches(#[trigger] ps[i], r)
}

/// The admission decision: a malformed reference is denied outright; a
/// matching deny prefix denies; otherwise a matching allow prefix allows;
/// otherwise the default action applies.
pub open spec fn decide_spec(cfg: ImageValidationConfig, r: Seq<u8>) -> Decision {
    if !valid_reference(r) {
        Decision::Deny
    } else if any_match(views_of(cfg.deny@), r) {
        Decision::Deny
    } else if any_match(views_of(cfg.allow@), r) {
        Decision::Allow
    } else if cfg.default_allow {
        Decision::Allow
    } else {
        Decision::Deny
    }
}

/// Law: a matching deny prefix always wins, whatever the allow list and
/// the default action say.
pub proof fn lemma_deny_overrides(cfg: ImageValidationConfig, r: Seq<u8>)
    requires
        any_match(views_of(cfg.deny@), r),
    ensures
        decide_spec(cfg, r) == Decision::Deny,
{
}

fn prefix_matches_exec(p: &Vec<u8>, r: &Vec<u8>) -> (res: bool)
    ensures
        res == prefix_matches(p@, r@),
{
    let n = p.len();
    if n == 0 || n > r.len() {
        return false;
    }
    let mut i: usize = 0;
    while i < n
        invariant
            n == p@.len(),
            0 < n <= r@.len(),
            0 <= i <= n,
            forall|k: int| 0 <= k < i ==> p@[k] == r@[k],
        decreases n - i,
    {
        if p[i] != r[i] {
            proof {
                if prefix_matches(p@, r@) {
                    assert(r@.subrange(0, n as int)[i as int] == r@[i as int]);
                }
            }
            return false;
        }
        i += 1;
    }
    proof {
        assert(r@.subrange(0, n as int) =~= p@);
    }
    if n == r.len() {
        return true;
    }
    if p[n - 1] == 47 {
        return true;
    }
    r[n] == 47 || r[n] == 58
}

fn any_match_exec(ps: &Vec<Vec<u8>>, r: &Vec<u8>) -> (res: bool)
    ensures
        res == any_match(views_of(ps@), r@),
{
    let n = ps.len();
    let mut i: usize = 0;
    while i < n
        invariant
            n == ps@.len(),
            0 <= i <= n,
            forall|k: int| 0 <= k < i ==> !prefix_matches(views_of(ps@)[k], r@),
        decreases n - i,
    {
        proof {
            assert(views_of(ps@)[i as int] == ps@[i as int]@);
        }
        if prefix_matches_exec(&ps[i], r) {
            return true;
        }
        i += 1;
    }
    false
}

/// Decides whether an image reference is admitted. Total: every reference,
/// well-formed or not, gets a verdict, and a malformed one is denied even
/// under a default-allow policy.
pub fn decide(cfg: &ImageValidationConfig, reference: &Vec<u8>) -> (d: Decision)
    ensures
        d == decide_spec(*cfg, reference@),
{
    let n = reference.len();
    if n == 0 {
        return Decision::Deny;
    }
    if reference[0] == 47 {
        return Decision::Deny;
    }
    let mut i: usize = 0;
    while i < n
        invariant
            n == reference@.len(),
            n > 0,
            reference@[0] != 47,
            0 <= i <= n,
            forall|k: int| 0 <= k < i ==> allowed_ref_byte(#[trigger] reference@[k]),
        decreases n - i,
    {
        let c = reference[i];
        if !((48 <= c && c <= 57) || (65 <= c && c <= 90) || (97 <= c && c <= 122) || c == 46 || c
            == 45 || c == 95 || c == 47 || c == 58 || c == 64) {
            proof {
                assert(!allowed_ref_byte(reference@[i as int]));
            }
            return Decision::Deny;
        }
        i += 1;
    }
    assert(valid_reference(reference@));
    if any_match_exec(&cfg.deny, reference) {
        return Decision::Deny;
    }
    if any_match_exec(&cfg.allow, reference) {
        return Decision::Allow;
    }
    if cfg.default_allow {
        Decision::Allow
    } else {
        Decision::Deny
    }
}

/// The position of the first `/` in `r` at or after `j`, or the length.
pub open spec fn slash_end(r: Seq<u8>, j: int) -> int
    decreases r.len() - j when 0 <= j <= r.len()
{
    if j >= r.len() {
        j
    } else if r[j] == 47 {
        j
    } else {
        slash_end(r, j + 1)
    }
}

/// The host part of a reference: everything before the first `/`.
pub open spec fn host_part(r: Seq<u8>) -> Seq<u8> {
    r.subrange(0, slash_end(r, 0))
}

/// The first configured upstream whose host is the reference's host part
/// and which leaves a repository part after it, from index `i` on;
/// negative when none.
pub open spec fn host_pick(proxies: Seq<RegistryProxyConfig>, r: Seq<u8>, i: int) -> int
    decreases proxies.len() - i when 0 <= i <= proxies.len()
{
    if i >= proxies.len() {
        -1
    } else if proxies[i].host@ == host_part(r) && slash_end(r, 0) < r.len() {
        i
    } else {
        host_pick(proxies, r, i + 1)
    }
}

/// What `mutate` rewrites a reference to: when the verdict is `Allow` and
/// the reference points at a configured upstream host, the local registry
/// host, the matching alias, and the repository/reference part; otherwise
/// the reference unchanged.
pub open spec fn mutate_spec(
    cfg: ImageValidationConfig,
    proxies: Seq<RegistryProxyConfig>,
    local: Seq<u8>,
    r: Seq<u8>,
) -> Seq<u8> {
    if decide_spec(cfg, r) == Decision::Allow && host_pick(proxies, r, 0) >= 0 {
        local + seq![47u8] + proxies[host_pick(proxies, r, 0)].alias@ + r.skip(slash_end(r, 0))
    } else {
        r
    }
}

/// Rewrites an admitted reference that points at a configured upstream so
/// that future pulls route through the proxy cache; anything else comes
/// back unchanged. Total: never fails.
pub fn mutate(
    cfg: &ImageValidationConfig,
    proxies: &Vec<RegistryProxyConfig>,
    local: &Vec<u8>,
    reference: &Vec<u8>,
) -> (out: Vec<u8>)
    ensures
        out@ == mutate_spec(*cfg, proxies@, local@, reference@),
{
    let d = decide(cfg, reference);
    if !matches!(d, Decision::Allow) {
        return crate::bytes::copy_bytes(reference);
    }
    let n = reference.len();
    let mut se: usize = 0;
    while se < n && reference[se] != 47
        invariant
            n == reference@.len(),
            0 <= se <= n,
            slash_end(reference@, 0) == slash_end(reference@, se as int),
        decreases n - se,
    {
        proof {
            assert(slash_end(reference@, se as int) == slash_end(reference@, se + 1));
        }
        se += 1;
    }
    assert(slash_end(reference@, 0) == se);
    if se == n {
        proof {
            assert(host_pick(proxies@, reference@, 0) < 0) by {
                lemma_host_pick_none(proxies@, reference@, 0);
            }
        }
        return crate::bytes::copy_bytes(reference);
    }
    let ghost hp = host_part(reference@);
    let mut host: Vec<u8> = Vec::new();
    let mut k: usize = 0;
    while k < se
        invariant
            n == reference@.len(),
            0 <= k <= se <= n,
            host@ =~= reference@.subrange(0, k as int),
        decreases se - k,
    {
        host.push(reference[k]);
        k += 1;
    }
    proof {
        assert(host@ =~= hp);
    }
    let np = proxies.len();
    let mut i: usize = 0;
    while i < np
        invariant
            np == proxies@.len(),
            0 <= i <= np,
            n == reference@.len(),
            host@ == host_part(reference@),
            slash_end(reference@, 0) == se < n,
            decide_spec(*cfg, reference@) == Decision::Allow,
            host_pick(proxies@, reference@, 0) == host_pick(proxies@, reference@, i as int),
        decreases np - i,
    {
        if crate::bytes::bytes_eq(&proxies[i].host, &host) {
            let mut out = crate::bytes::copy_bytes(local);
            out.push(47);
            let a = &proxies[i].alias;
            let an = a.len();
            let mut k2: usize = 0;
            while k2 < an
                invariant
                    an == a@.len(),
                    0 <= k2 <= an,
                    out@ =~= local@ + seq![47u8] + a@.take(k2 as int),
                decreases an - k2,
            {
                out.push(a[k2]);
                k2 += 1;
            }
            let mut k3: usize = se;
            while k3 < n
                invariant
                    an == a@.len(),
                    n == reference@.len(),
                    se <= k3 <= n,
                    out@ =~= local@ + seq![47u8] + a@ + reference@.subrange(se as int, k3 as int),
                decreases n - k3,
            {
                out.push(reference[k3]);
                k3 += 1;
            }
            proof {
                assert(host_pick(proxies@, reference@, i as int) == i);
                assert(reference@.subrange(se as int, n as int) =~= reference@.skip(se as int));
                assert(out@ =~= local@ + seq![47u8] + a@ + reference@.skip(se as int));
                assert(decide_spec(*cfg, reference@) == Decision::Allow);
                assert(host_pick(proxies@, reference@, 0) == i as int);
                assert(mutate_spec(*cfg, proxies@, local@, reference@) == local@ + seq![47u8]
                    + proxies@[i as int].alias@ + reference@.skip(slash_end(reference@, 0)));
                assert(out@ =~= mutate_spec(*cfg, proxies@, local@, reference@));
            }
            return out;
        }
        proof {
            assert(host_pick(proxies@, reference@, i as int) == host_pick(
                proxies@,
                reference@,
                i + 1,
            ));
        }
        i += 1;
    }
    crate::bytes::copy_bytes(reference)
}

/// When the reference has no `/`, no upstream host can match with a
/// repository part left over.
proof fn lemma_host_pick_none(proxies: Seq<RegistryProxyConfig>, r: Seq<u8>, i: int)
    requires
        0 <= i <= proxies.len(),
        slash_end(r, 0) >= r.len(),
    ensures
        host_pick(proxies, r, i) < 0,
    decreases proxies.len() - i,
{
    if i < proxies.len() {
        lemma_host_pick_none(proxies, r, i + 1);
    }
}

} // verus!
