//! Byte-string helpers shared by the stores: equality, lexicographic order,
//! and copying. Repository names, tags and digest text are byte strings.

use vstd::prelude::*;

verus! {

/// Strict lexicographic order on byte strings (shorter prefix sorts first).
pub open spec fn lex_lt(a: Seq<u8>, b: Seq<u8>) -> bool
    decreases a.len(),
{
    if b.len() == 0 {
        false
    } else if a.len() == 0 {
        true
    } else if a[0] != b[0] {
        a[0] < b[0]
    } else {
        lex_lt(a.skip(1), b.skip(1))
    }
}

/// Lexicographic order is total: two byte strings are equal or one is smaller.
pub proof fn lemma_lex_total(a: Seq<u8>, b: Seq<u8>)
    ensures
        lex_lt(a, b) || lex_lt(b, a) || a == b,
    decreases a.len(),
{
    if b.len() == 0 {
        if a.len() == 0 {
            assert(a =~= b);
        }
    } else if a.len() == 0 {
    } else if a[0] == b[0] {
        lemma_lex_total(a.skip(1), b.skip(1));
        assert(lex_lt(a, b) == lex_lt(a.skip(1), b.skip(1)));
        assert(lex_lt(b, a) == lex_lt(b.skip(1), a.skip(1)));
        if !lex_lt(a, b) && !lex_lt(b, a) {
            assert(a.skip(1) =~= b.skip(1));
            assert forall|i: int| 0 <= i < a.len() implies a[i] == b[i] by {
                if i >= 1 {
                    assert(a.skip(1)[i - 1] == b.skip(1)[i - 1]);
                }
            }
            assert(a =~= b);
        }
    }
}

/// Lexicographic order is transitive.
pub proof fn lemma_lex_trans(a: Seq<u8>, b: Seq<u8>, c: Seq<u8>)
    requires
        lex_lt(a, b),
        lex_lt(b, c),
    ensures
        lex_lt(a, c),
    decreases a.len(),
{
    if a.len() == 0 {
    } else if b.len() == 0 {
    } else if c.len() == 0 {
    } else if a[0] == b[0] && b[0] == c[0] {
        lemma_lex_trans(a.skip(1), b.skip(1), c.skip(1));
    }
}

/// Whether two byte vectors hold the same bytes.
pub fn bytes_eq(a: &Vec<u8>, b: &Vec<u8>) -> (r: bool)
    ensures
        r == (a@ == b@),
{
    if a.len() != b.len() {
        assert(a@ !~= b@);
        return false;
    }
    let n = a.len();
    let mut i: usize = 0;
    while i < n
        invariant
            n == a@.len(),
            n == b@.len(),
            0 <= i <= n,
            forall|k: int| 0 <= k < i ==> a@[k] == b@[k],
        decreases n - i,
    {
        if a[i] != b[i] {
            return false;
        }
        i += 1;
    }
    assert(a@ =~= b@);
    true
}

/// Whether `a` is strictly below `b` in lexicographic order.
pub fn bytes_lt(a: &Vec<u8>, b: &Vec<u8>) -> (r: bool)
    ensures
        r == lex_lt(a@, b@),
{
    let mut i: usize = 0;
    proof {
        assert(a@.skip(0) =~= a@);
        assert(b@.skip(0) =~= b@);
    }
    loop
        invariant
            0 <= i <= a@.len(),
            i <= b@.len(),
            lex_lt(a@, b@) == lex_lt(a@.skip(i as int), b@.skip(i as int)),
        decreases a@.len() - i,
    {
        if i == b.len() {
            return false;
        }
        if i == a.len() {
            return true;
        }
        let x = a[i];
        let y = b[i];
        proof {
            assert(a@.skip(i as int)[0] == a@[i as int]);
            assert(b@.skip(i as int)[0] == b@[i as int]);
        }
        if x != y {
            return x < y;
        }
        proof {
            assert(a@.skip(i as int).skip(1) =~= a@.skip(i + 1));
            assert(b@.skip(i as int).skip(1) =~= b@.skip(i + 1));
        }
        i += 1;
    }
}

/// The byte strings a vector of byte vectors holds.
pub open spec fn views_of(s: Seq<Vec<u8>>) -> Seq<Seq<u8>> {
    s.map_values(|v: Vec<u8>| v@)
}

/// Strictly ascending lexicographic order (which also means: no duplicates).
pub open spec fn sorted_strict(s: Seq<Seq<u8>>) -> bool {
    forall|i: int, j: int| 0 <= i < j < s.len() ==> lex_lt(#[trigger] s[i], #[trigger] s[j])
}

/// Whether the byte string `x` occurs in `s`.
pub open spec fn contains_seq(s: Seq<Seq<u8>>, x: Seq<u8>) -> bool {
    exists|i: int| 0 <= i < s.len() && #[trigger] s[i] == x
}

/// Whether the byte strings of the list are pairwise distinct.
pub open spec fn distinct_list(l: Seq<Vec<u8>>) -> bool {
    forall|a: int, b: int| 0 <= a < b < l.len() ==> (#[trigger] l[a])@ != (#[trigger] l[b])@
}

/// Inserts `x` into a strictly sorted vector of byte strings, keeping it
/// strictly sorted; a byte string already present is not duplicated.
pub fn insert_sorted(v: &mut Vec<Vec<u8>>, x: &Vec<u8>)
    requires
        sorted_strict(views_of(old(v)@)),
    ensures
        sorted_strict(views_of(final(v)@)),
        forall|y: Seq<u8>|
            #[trigger] contains_seq(views_of(final(v)@), y) == (contains_seq(
                views_of(old(v)@),
                y,
            ) || y == x@),
{
    let ghost pre = v@;
    let n = v.len();
    let mut k: usize = 0;
    while k < n && bytes_lt(&v[k], x)
        invariant
            v@ == pre,
            n == v@.len(),
            sorted_strict(views_of(v@)),
            0 <= k <= n,
            forall|m: int| 0 <= m < k ==> lex_lt(views_of(v@)[m], x@),
        decreases n - k,
    {
        proof {
            assert(views_of(v@)[k as int] == v@[k as int]@);
        }
        k += 1;
    }
    if k < n && bytes_eq(&v[k], x) {
        proof {
            assert(views_of(v@)[k as int] == x@);
            assert(contains_seq(views_of(v@), x@));
        }
        return ;
    }
    proof {
        if k < n {
            assert(views_of(v@)[k as int] == v@[k as int]@);
            lemma_lex_total(v@[k as int]@, x@);
            assert(lex_lt(x@, views_of(v@)[k as int]));
        }
    }
    v.insert(k, copy_bytes(x));
    proof {
        let s = views_of(v@);
        let olds = views_of(pre);
        assert forall|i: int| 0 <= i < s.len() implies s[i] == (
            if i < k {
                olds[i]
            } else if i == k {
                x@
            } else {
                olds[i - 1]
            }) by {
            assert(s[i] == v@[i]@);
            if i < k {
                assert(v@[i] == pre[i]);
            } else if i > k {
                assert(v@[i] == pre[i - 1]);
            }
        }
        assert forall|i: int, j: int| 0 <= i < j < s.len() implies lex_lt(s[i], s[j]) by {
            if j < k {
            } else if j == k {
                assert(lex_lt(olds[i], x@));
            } else if i == k {
                if j - 1 == k {
                    assert(lex_lt(x@, olds[k as int]));
                } else {
                    assert(lex_lt(olds[k as int], olds[j - 1]));
                    lemma_lex_trans(x@, olds[k as int], olds[j - 1]);
                }
            } else if i < k {
                if j - 1 == i {
                    assert(lex_lt(olds[i], x@));
                    assert(lex_lt(x@, olds[k as int]));
                } else {
                    assert(lex_lt(olds[i], olds[j - 1]));
                }
            } else {
                assert(lex_lt(olds[i - 1], olds[j - 1]));
            }
        }
        assert(sorted_strict(s));
        assert forall|y: Seq<u8>|
            #[trigger] contains_seq(s, y) == (contains_seq(olds, y) || y == x@) by {
            if contains_seq(s, y) {
                let i = choose|i: int| 0 <= i < s.len() && s[i] == y;
                if i < k {
                    assert(olds[i] == y);
                } else if i > k {
                    assert(olds[i - 1] == y);
                }
            }
            if contains_seq(olds, y) {
                let i = choose|i: int| 0 <= i < olds.len() && olds[i] == y;
                if i < k {
                    assert(s[i] == y);
                } else {
                    assert(s[i + 1] == y);
                }
            }
            if y == x@ {
                assert(s[k as int] == y);
            }
        }
    }
}

/// Whether the list holds a byte vector with the same bytes as `x`.
pub fn contains_vec(v: &Vec<Vec<u8>>, x: &Vec<u8>) -> (r: bool)
    ensures
        r == contains_seq(views_of(v@), x@),
{
    let n = v.len();
    let mut i: usize = 0;
    while i < n
        invariant
            n == v@.len(),
            0 <= i <= n,
            forall|k: int| 0 <= k < i ==> views_of(v@)[k] != x@,
        decreases n - i,
    {
        if bytes_eq(&v[i], x) {
            proof {
                assert(views_of(v@)[i as int] == x@);
            }
            return true;
        }
        proof {
            assert(views_of(v@)[i as int] == v@[i as int]@);
        }
        i += 1;
    }
    false
}

/// The list with later duplicates removed: same byte strings, each once.
pub fn dedup_list(v: &Vec<Vec<u8>>) -> (r: Vec<Vec<u8>>)
    ensures
        forall|i: int, j: int|
            0 <= i < j < r@.len() ==> views_of(r@)[i] != views_of(r@)[j],
        forall|y: Seq<u8>|
            #[trigger] contains_seq(views_of(r@), y) == contains_seq(views_of(v@), y),
{
    let n = v.len();
    let mut out: Vec<Vec<u8>> = Vec::new();
    let mut i: usize = 0;
    while i < n
        invariant
            n == v@.len(),
            0 <= i <= n,
            forall|a: int, b: int|
                0 <= a < b < out@.len() ==> views_of(out@)[a] != views_of(out@)[b],
            forall|y: Seq<u8>|
                #[trigger] contains_seq(views_of(out@), y) == contains_seq(
                    views_of(v@).take(i as int),
                    y,
                ),
        decreases n - i,
    {
        let ghost pre = out@;
        if !contains_vec(&out, &v[i]) {
            out.push(copy_bytes(&v[i]));
        }
        proof {
            let vi = v@[i as int]@;
            assert(views_of(v@)[i as int] == vi);
            if out@.len() > pre.len() {
                assert(views_of(out@) =~= views_of(pre).push(vi));
                assert forall|a: int, b: int|
                    0 <= a < b < out@.len() implies views_of(out@)[a] != views_of(out@)[b] by {
                    if b == out@.len() - 1 {
                        assert(views_of(out@)[a] == views_of(pre)[a]);
                        assert(contains_seq(views_of(pre), views_of(pre)[a]));
                    }
                }
            } else {
                assert(out@ == pre);
            }
            assert forall|y: Seq<u8>|
                #[trigger] contains_seq(views_of(out@), y) == contains_seq(
                    views_of(v@).take(i + 1),
                    y,
                ) by {
                let tk = views_of(v@).take(i + 1);
                let prev = views_of(v@).take(i as int);
                assert(contains_seq(views_of(pre), y) == contains_seq(prev, y));
                assert(tk[i as int] == vi);
                if contains_seq(views_of(out@), y) {
                    let a = choose|a: int|
                        0 <= a < views_of(out@).len() && views_of(out@)[a] == y;
                    if a < pre.len() {
                        assert(views_of(out@)[a] == views_of(pre)[a]);
                        assert(contains_seq(views_of(pre), y));
                        let b = choose|b: int| 0 <= b < prev.len() && prev[b] == y;
                        assert(tk[b] == y);
                    } else {
                        assert(views_of(out@)[a] == vi);
                    }
                    assert(contains_seq(tk, y));
                }
                if contains_seq(tk, y) {
                    let b = choose|b: int| 0 <= b < tk.len() && tk[b] == y;
                    if b < i {
                        assert(prev[b] == y);
                        assert(contains_seq(prev, y));
                        let a = choose|a: int|
                            0 <= a < views_of(pre).len() && views_of(pre)[a] == y;
                        assert(views_of(out@)[a] == y);
                    } else {
                        assert(y == vi);
                        if out@.len() > pre.len() {
                            assert(views_of(out@)[out@.len() - 1] == vi);
                        } else {
                            assert(contains_seq(views_of(pre), vi));
                            let a = choose|a: int|
                                0 <= a < views_of(pre).len() && views_of(pre)[a] == vi;
                            assert(views_of(out@)[a] == vi);
                        }
                    }
                    assert(contains_seq(views_of(out@), y));
                }
            }
        }
        i += 1;
    }
    proof {
        assert(views_of(v@).take(n as int) =~= views_of(v@));
    }
    out
}

/// A fresh list holding the same byte strings.
pub fn copy_list(v: &Vec<Vec<u8>>) -> (r: Vec<Vec<u8>>)
    ensures
        views_of(r@) == views_of(v@),
{
    let n = v.len();
    let mut out: Vec<Vec<u8>> = Vec::new();
    let mut i: usize = 0;
    while i < n
        invariant
            n == v@.len(),
            0 <= i <= n,
            views_of(out@) =~= views_of(v@).take(i as int),
        decreases n - i,
    {
        let ghost pre = out@;
        out.push(copy_bytes(&v[i]));
        proof {
            assert(views_of(out@) =~= views_of(pre).push(v@[i as int]@));
            assert(views_of(out@) =~= views_of(v@).take(i + 1));
        }
        i += 1;
    }
    proof {
        assert(views_of(v@).take(n as int) =~= views_of(v@));
    }
    out
}

/// A fresh vector holding the same bytes.
pub fn copy_bytes(a: &Vec<u8>) -> (r: Vec<u8>)
    ensures
        r@ == a@,
{
    let mut r: Vec<u8> = Vec::new();
    let n = a.len();
    let mut i: usize = 0;
    while i < n
        invariant
            n == a@.len(),
            0 <= i <= n,
            r@ =~= a@.take(i as int),
        decreases n - i,
    {
        r.push(a[i]);
        i += 1;
    }
    assert(a@.take(n as int) =~= a@);
    r
}

} // verus!
