//! Extraction of digest references from a manifest document.
//!
//! A manifest references blobs and sub-manifests through `"digest"` members
//! of its JSON serialization. The scanner collects, in order, the string
//! value of every `"digest"` member, tolerating JSON whitespace between the
//! key, the colon and the opening quote, so that pretty-printed documents
//! are read the same as compact ones.

use vstd::prelude::*;
use crate::bytes::views_of;

verus! {

/// Whether the overall document is well-formed JSON: what
/// `serde_json::from_slice` accepts, a function of the bytes alone.
pub uninterp spec fn json_doc_ok(bytes: Seq<u8>) -> bool;

/// Relies on `serde_json::from_slice::<Value>`: whether the bytes parse as
/// a JSON document depends on the bytes alone.
#[verifier::external_body]
pub fn json_parses(bytes: &Vec<u8>) -> (r: bool)
    ensures
        r == json_doc_ok(bytes@),
{
    serde_json::from_slice::<serde_json::Value>(bytes.as_slice()).is_ok()
}

/// The four whitespace bytes of JSON: space, tab, line feed, carriage
/// return.
pub open spec fn is_json_ws(c: u8) -> bool {
    c == 32 || c == 9 || c == 10 || c == 13
}

/// The position of the first non-whitespace byte at or after `j`, or the
/// length of `s`.
pub open spec fn ws_end(s: Seq<u8>, j: int) -> int
    decreases s.len() - j when 0 <= j <= s.len()
{
    if j >= s.len() {
        j
    } else if is_json_ws(s[j]) {
        ws_end(s, j + 1)
    } else {
        j
    }
}

/// `ws_end` stays between its start and the end of `s`.
pub proof fn lemma_ws_end_bounds(s: Seq<u8>, j: int)
    requires
        0 <= j <= s.len(),
    ensures
        j <= ws_end(s, j) <= s.len(),
    decreases s.len() - j,
{
    if j < s.len() && is_json_ws(s[j]) {
        lemma_ws_end_bounds(s, j + 1);
    }
}

/// The position of the first `"` at or after `j`, or the length of `s`.
pub open spec fn quote_end(s: Seq<u8>, j: int) -> int
    decreases s.len() - j when 0 <= j <= s.len()
{
    if j >= s.len() {
        j
    } else if s[j] == 34 {
        j
    } else {
        quote_end(s, j + 1)
    }
}

/// `quote_end` stays between its start and the end of `s`.
pub proof fn lemma_quote_end_bounds(s: Seq<u8>, j: int)
    requires
        0 <= j <= s.len(),
    ensures
        j <= quote_end(s, j) <= s.len(),
    decreases s.len() - j,
{
    if j < s.len() && s[j] != 34 {
        lemma_quote_end_bounds(s, j + 1);
    }
}

/// Whether the eight bytes of a `"digest"` member key stand at position `i`.
pub open spec fn digest_key_at(s: Seq<u8>, i: int) -> bool {
    &&& 0 <= i
    &&& i + 8 <= s.len()
    &&& s[i] == 34
    &&& s[i + 1] == 100
    &&& s[i + 2] == 105
    &&& s[i + 3] == 103
    &&& s[i + 4] == 101
    &&& s[i + 5] == 115
    &&& s[i + 6] == 116
    &&& s[i + 7] == 34
}

/// The position of the colon after a `"digest"` key at `i`, whitespace
/// skipped.
pub open spec fn colon_pos(s: Seq<u8>, i: int) -> int {
    ws_end(s, i + 8)
}

/// The position of the opening quote of the member's value, whitespace
/// skipped after the colon.
pub open spec fn value_quote_pos(s: Seq<u8>, i: int) -> int {
    ws_end(s, colon_pos(s, i) + 1)
}

/// Whether a `"digest"` member with a string value starts at position `i`:
/// the key, then optional whitespace, a colon, optional whitespace, and the
/// value's opening quote.
pub open spec fn marker_at(s: Seq<u8>, i: int) -> bool {
    &&& digest_key_at(s, i)
    &&& colon_pos(s, i) < s.len()
    &&& s[colon_pos(s, i)] == 58
    &&& value_quote_pos(s, i) < s.len()
    &&& s[value_quote_pos(s, i)] == 34
}

/// The digest strings referenced by the document, in order: the string
/// value of every `"digest"` member, whitespace-tolerant.
pub open spec fn refs_of(s: Seq<u8>, i: int) -> Seq<Seq<u8>>
    decreases s.len() - i when 0 <= i <= s.len() via refs_of_decreases
{
    if i + 8 > s.len() {
        Seq::empty()
    } else if marker_at(s, i) {
        let v = value_quote_pos(s, i);
        let j = quote_end(s, v + 1);
        if j < s.len() {
            seq![s.subrange(v + 1, j)] + refs_of(s, j + 1)
        } else {
            Seq::empty()
        }
    } else {
        refs_of(s, i + 1)
    }
}

#[via_fn]
proof fn refs_of_decreases(s: Seq<u8>, i: int) {
    if 0 <= i <= s.len() && i + 8 <= s.len() && marker_at(s, i) {
        lemma_ws_end_bounds(s, i + 8);
        let c = colon_pos(s, i);
        lemma_ws_end_bounds(s, c + 1);
        let v = value_quote_pos(s, i);
        lemma_quote_end_bounds(s, v + 1);
    }
}

/// Collects the digest references of a manifest document.
pub fn extract_refs(data: &Vec<u8>) -> (r: Vec<Vec<u8>>)
    ensures
        views_of(r@) == refs_of(data@, 0),
{
    let n = data.len();
    let mut out: Vec<Vec<u8>> = Vec::new();
    let mut i: usize = 0;
    proof {
        assert(views_of(out@) =~= Seq::<Seq<u8>>::empty());
    }
    while i < n && n - i >= 8
        invariant
            n == data@.len(),
            0 <= i <= n,
            views_of(out@) + refs_of(data@, i as int) == refs_of(data@, 0),
        decreases n - i,
    {
        let ghost s = data@;
        let is_key = data[i] == 34 && data[i + 1] == 100 && data[i + 2] == 105 && data[i + 3]
            == 103 && data[i + 4] == 101 && data[i + 5] == 115 && data[i + 6] == 116 && data[i + 7]
            == 34;
        if is_key {
            assert(digest_key_at(s, i as int));
            let mut a = i + 8;
            while a < n && (data[a] == 32 || data[a] == 9 || data[a] == 10 || data[a] == 13)
                invariant
                    n == data@.len(),
                    i + 8 <= a <= n,
                    ws_end(data@, i + 8) == ws_end(data@, a as int),
                decreases n - a,
            {
                proof {
                    assert(ws_end(data@, a as int) == ws_end(data@, a + 1));
                }
                a += 1;
            }
            proof {
                assert(colon_pos(s, i as int) == a);
            }
            if a < n && data[a] == 58 {
                let mut b = a + 1;
                while b < n && (data[b] == 32 || data[b] == 9 || data[b] == 10 || data[b] == 13)
                    invariant
                        n == data@.len(),
                        a + 1 <= b <= n,
                        ws_end(data@, a + 1) == ws_end(data@, b as int),
                    decreases n - b,
                {
                    proof {
                        assert(ws_end(data@, b as int) == ws_end(data@, b + 1));
                    }
                    b += 1;
                }
                proof {
                    assert(value_quote_pos(s, i as int) == b);
                }
                if b < n && data[b] == 34 {
                    assert(marker_at(s, i as int));
                    let mut j = b + 1;
                    while j < n && data[j] != 34
                        invariant
                            n == data@.len(),
                            b + 1 <= j <= n,
                            quote_end(data@, b + 1) == quote_end(data@, j as int),
                        decreases n - j,
                    {
                        proof {
                            assert(quote_end(data@, j as int) == quote_end(data@, j + 1));
                        }
                        j += 1;
                    }
                    if j < n {
                        assert(quote_end(s, b + 1) == j);
                        let mut val: Vec<u8> = Vec::new();
                        let mut k = b + 1;
                        while k < j
                            invariant
                                n == data@.len(),
                                b + 1 <= k <= j <= n,
                                val@ =~= data@.subrange(b + 1, k as int),
                            decreases j - k,
                        {
                            val.push(data[k]);
                            k += 1;
                        }
                        proof {
                            assert(val@ =~= s.subrange(b + 1, j as int));
                            assert(refs_of(s, i as int) == seq![s.subrange(b + 1, j as int)]
                                + refs_of(s, j + 1));
                        }
                        let ghost out_pre = out@;
                        out.push(val);
                        proof {
                            assert(views_of(out@) =~= views_of(out_pre).push(val@));
                            assert(views_of(out@) + refs_of(s, j + 1) =~= views_of(out_pre)
                                + refs_of(s, i as int));
                        }
                        i = j + 1;
                    } else {
                        assert(quote_end(s, b + 1) == n);
                        assert(refs_of(s, i as int) =~= Seq::<Seq<u8>>::empty());
                        proof {
                            assert(views_of(out@) + refs_of(s, n as int) =~= views_of(out@)
                                + refs_of(s, i as int));
                        }
                        i = n;
                    }
                } else {
                    proof {
                        assert(!marker_at(s, i as int));
                        assert(refs_of(s, i as int) == refs_of(s, i + 1));
                    }
                    i += 1;
                }
            } else {
                proof {
                    assert(!marker_at(s, i as int));
                    assert(refs_of(s, i as int) == refs_of(s, i + 1));
                }
                i += 1;
            }
        } else {
            proof {
                assert(!digest_key_at(s, i as int));
                assert(!marker_at(s, i as int));
                assert(refs_of(s, i as int) == refs_of(s, i + 1));
            }
            i += 1;
        }
    }
    proof {
        assert(refs_of(data@, i as int) =~= Seq::<Seq<u8>>::empty());
        assert(views_of(out@) =~= views_of(out@) + refs_of(data@, i as int));
    }
    out
}

} // verus!
