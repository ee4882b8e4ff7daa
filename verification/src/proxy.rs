//! Static configuration of upstream registries for the pull-through proxy
//! cache, and the choice of upstream for a repository.

use vstd::prelude::*;

verus! {

/// One upstream registry: repositories whose first path segment equals
/// `alias` are proxied to `host`, with the optional credentials.
pub struct RegistryProxyConfig {
    pub alias: Vec<u8>,
    pub host: Vec<u8>,
    pub username: Option<Vec<u8>>,
    pub password: Option<Vec<u8>>,
}

/// Whether `alias` is the first `/`-separated segment of `repo`.
pub open spec fn alias_matches(alias: Seq<u8>, repo: Seq<u8>) -> bool {
    &&& 0 < alias.len() <= repo.len()
    &&& repo.subrange(0, alias.len() as int) == alias
    &&& (alias.len() == repo.len() || repo[alias.len() as int] == 47)
}

/// The first configured upstream whose alias matches `repo`, from index
/// `i` on; negative when none matches.
pub open spec fn proxy_pick(proxies: Seq<RegistryProxyConfig>, repo: Seq<u8>, i: int) -> int
    decreases proxies.len() - i when 0 <= i <= proxies.len()
{
    if i >= proxies.len() {
        -1
    } else if alias_matches(proxies[i].alias@, repo) {
        i
    } else {
        proxy_pick(proxies, repo, i + 1)
    }
}

/// Whether `alias` is the first segment of `repo` (executable form).
pub fn alias_matches_exec(alias: &Vec<u8>, repo: &Vec<u8>) -> (r: bool)
    ensures
        r == alias_matches(alias@, repo@),
{
    let n = alias.len();
    if n == 0 || n > repo.len() {
        return false;
    }
    let mut i: usize = 0;
    while i < n
        invariant
            n == alias@.len(),
            n <= repo@.len(),
            0 <= i <= n,
            forall|k: int| 0 <= k < i ==> alias@[k] == repo@[k],
        decreases n - i,
    {
        if alias[i] != repo[i] {
            proof {
                if alias_matches(alias@, repo@) {
                    assert(repo@.subrange(0, n as int)[i as int] == repo@[i as int]);
                }
            }
            return false;
        }
        i += 1;
    }
    proof {
        assert(repo@.subrange(0, n as int) =~= alias@);
    }
    if n == repo.len() {
        true
    } else {
        repo[n] == 47
    }
}

/// The index of the first configured upstream whose alias matches `repo`.
pub fn pick_proxy(proxies: &Vec<RegistryProxyConfig>, repo: &Vec<u8>) -> (r: Option<usize>)
    ensures
        match r {
            Some(i) => i < proxies@.len() && proxy_pick(proxies@, repo@, 0) == i as int,
            None => proxy_pick(proxies@, repo@, 0) < 0,
        },
{
    let n = proxies.len();
    let mut i: usize = 0;
    while i < n
        invariant
            n == proxies@.len(),
            0 <= i <= n,
            proxy_pick(proxies@, repo@, 0) == proxy_pick(proxies@, repo@, i as int),
        decreases n - i,
    {
        if alias_matches_exec(&proxies[i].alias, repo) {
            return Some(i);
        }
        proof {
            assert(proxy_pick(proxies@, repo@, i as int) == proxy_pick(proxies@, repo@, i + 1));
        }
        i += 1;
    }
    None
}

} // verus!
