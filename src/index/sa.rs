//! Suffix-array construction over a coded text. Suffixes compare
//! lexicographically, a suffix that ends first being the smaller (an implicit
//! -1 after the last symbol); sentinel bytes take part as ordinary symbols.
use vstd::prelude::*;
use vstd::seq_lib::lemma_multiset_commutative;

verus! {

broadcast use vstd::seq_lib::group_to_multiset_ensures, vstd::multiset::group_multiset_axioms;

/// The suffix of `t` at `i` is lexicographically at most the suffix at `j`.
pub open spec fn suffix_le(t: Seq<u8>, i: int, j: int) -> bool
    decreases t.len() - i,
{
    if i >= t.len() {
        true
    } else if j >= t.len() {
        false
    } else if t[i] != t[j] {
        t[i] < t[j]
    } else {
        suffix_le(t, i + 1, j + 1)
    }
}

/// Every earlier entry of `s` names a suffix at most that of every later one.
pub open spec fn suffixes_sorted(t: Seq<u8>, s: Seq<u32>) -> bool {
    forall|a: int, b: int| 0 <= a < b < s.len() ==> suffix_le(t, s[a] as int, s[b] as int)
}

/// The positions 0, 1, ..., n - 1 in order.
pub open spec fn identity_seq(n: nat) -> Seq<u32> {
    Seq::new(n, |i: int| i as u32)
}

pub proof fn lemma_suffix_le_total(t: Seq<u8>, i: int, j: int)
    requires
        0 <= i,
        0 <= j,
    ensures
        suffix_le(t, i, j) || suffix_le(t, j, i),
    decreases t.len() - i,
{
    if i < t.len() && j < t.len() && t[i] == t[j] {
        lemma_suffix_le_total(t, i + 1, j + 1);
    }
}

pub proof fn lemma_suffix_le_trans(t: Seq<u8>, i: int, j: int, k: int)
    requires
        0 <= i,
        0 <= j,
        0 <= k,
        suffix_le(t, i, j),
        suffix_le(t, j, k),
    ensures
        suffix_le(t, i, k),
    decreases t.len() - i,
{
    if i < t.len() && j < t.len() && k < t.len() && t[i] == t[j] && t[j] == t[k] {
        lemma_suffix_le_trans(t, i + 1, j + 1, k + 1);
    }
}

/// Compares the suffixes at `i` and `j` symbol by symbol.
fn suffix_le_exec(t: &[u8], i: usize, j: usize) -> (r: bool)
    requires
        i <= t@.len(),
        j <= t@.len(),
    ensures
        r == suffix_le(t@, i as int, j as int),
{
    let n = t.len();
    let mut a: usize = i;
    let mut b: usize = j;
    while a < n && b < n && t[a] == t[b]
        invariant
            n == t@.len(),
            i <= a <= n,
            j <= b <= n,
            a - i == b - j,
            suffix_le(t@, i as int, j as int) == suffix_le(t@, a as int, b as int),
        decreases n - a,
    {
        a += 1;
        b += 1;
    }
    if a >= n {
        true
    } else if b >= n {
        false
    } else {
        t[a] < t[b]
    }
}

/// Merges two sorted runs of suffix positions into one.
fn merge_runs(t: &[u8], a: &Vec<u32>, b: &Vec<u32>) -> (out: Vec<u32>)
    requires
        forall|k: int| 0 <= k < a@.len() ==> a@[k] <= t@.len(),
        forall|k: int| 0 <= k < b@.len() ==> b@[k] <= t@.len(),
        suffixes_sorted(t@, a@),
        suffixes_sorted(t@, b@),
    ensures
        out@.to_multiset() == a@.to_multiset().add(b@.to_multiset()),
        suffixes_sorted(t@, out@),
        forall|k: int| 0 <= k < out@.len() ==> out@[k] <= t@.len(),
{
    let mut out: Vec<u32> = Vec::new();
    let mut i: usize = 0;
    let mut j: usize = 0;
    while i < a.len() || j < b.len()
        invariant
            i <= a@.len(),
            j <= b@.len(),
            forall|k: int| 0 <= k < a@.len() ==> a@[k] <= t@.len(),
            forall|k: int| 0 <= k < b@.len() ==> b@[k] <= t@.len(),
            forall|k: int| 0 <= k < out@.len() ==> out@[k] <= t@.len(),
            suffixes_sorted(t@, a@),
            suffixes_sorted(t@, b@),
            suffixes_sorted(t@, out@),
            out@.to_multiset() == a@.subrange(0, i as int).to_multiset().add(
                b@.subrange(0, j as int).to_multiset(),
            ),
            forall|k: int|
                0 <= k < out@.len() ==> (i < a@.len() ==> suffix_le(
                    t@,
                    #[trigger] out@[k] as int,
                    a@[i as int] as int,
                )) && (j < b@.len() ==> suffix_le(t@, out@[k] as int, b@[j as int] as int)),
        decreases a@.len() + b@.len() - i - j,
    {
        let take_a = if i >= a.len() {
            false
        } else if j >= b.len() {
            true
        } else {
            suffix_le_exec(t, a[i] as usize, b[j] as usize)
        };
        let ghost old_out = out@;
        if take_a {
            let e = a[i];
            proof {
                if j < b@.len() {
                    assert(suffix_le(t@, e as int, b@[j as int] as int));
                }
                assert(a@.subrange(0, i + 1) =~= a@.subrange(0, i as int).push(e));
            }
            out.push(e);
            i += 1;
            proof {
                assert forall|k: int| 0 <= k < out@.len() implies (i < a@.len() ==> suffix_le(
                    t@,
                    #[trigger] out@[k] as int,
                    a@[i as int] as int,
                )) && (j < b@.len() ==> suffix_le(t@, out@[k] as int, b@[j as int] as int)) by {
                    if i < a@.len() {
                        assert(suffix_le(t@, e as int, a@[i as int] as int));
                        if k < old_out.len() {
                            lemma_suffix_le_trans(
                                t@,
                                out@[k] as int,
                                e as int,
                                a@[i as int] as int,
                            );
                        }
                    }
                }
            }
        } else {
            let e = b[j];
            proof {
                if i < a@.len() {
                    lemma_suffix_le_total(t@, a@[i as int] as int, e as int);
                    assert(suffix_le(t@, e as int, a@[i as int] as int));
                }
                assert(b@.subrange(0, j + 1) =~= b@.subrange(0, j as int).push(e));
            }
            out.push(e);
            j += 1;
            proof {
                assert forall|k: int| 0 <= k < out@.len() implies (i < a@.len() ==> suffix_le(
                    t@,
                    #[trigger] out@[k] as int,
                    a@[i as int] as int,
                )) && (j < b@.len() ==> suffix_le(t@, out@[k] as int, b@[j as int] as int)) by {
                    if j < b@.len() {
                        assert(suffix_le(t@, e as int, b@[j as int] as int));
                        if k < old_out.len() {
                            lemma_suffix_le_trans(
                                t@,
                                out@[k] as int,
                                e as int,
                                b@[j as int] as int,
                            );
                        }
                    }
                }
            }
        }
        proof {
            assert forall|x: int, y: int| 0 <= x < y < out@.len() implies suffix_le(
                t@,
                out@[x] as int,
                out@[y] as int,
            ) by {
                if y == out@.len() - 1 {
                    assert(suffix_le(t@, old_out[x] as int, out@[y] as int));
                } else {
                    assert(suffix_le(t@, old_out[x] as int, old_out[y] as int));
                }
            }
            assert(out@.to_multiset() =~= a@.subrange(0, i as int).to_multiset().add(
                b@.subrange(0, j as int).to_multiset(),
            ));
        }
    }
    assert(a@.subrange(0, i as int) =~= a@);
    assert(b@.subrange(0, j as int) =~= b@);
    out
}

/// Sorts the positions `v[lo..hi]` by their suffixes.
fn sort_positions(t: &[u8], v: &Vec<u32>, lo: usize, hi: usize) -> (out: Vec<u32>)
    requires
        lo <= hi <= v@.len(),
        forall|k: int| 0 <= k < v@.len() ==> v@[k] <= t@.len(),
    ensures
        out@.to_multiset() == v@.subrange(lo as int, hi as int).to_multiset(),
        suffixes_sorted(t@, out@),
        forall|k: int| 0 <= k < out@.len() ==> out@[k] <= t@.len(),
    decreases hi - lo,
{
    if hi - lo <= 1 {
        let mut out: Vec<u32> = Vec::new();
        if hi > lo {
            out.push(v[lo]);
        }
        assert(out@ =~= v@.subrange(lo as int, hi as int));
        return out;
    }
    let mid = lo + (hi - lo) / 2;
    let left = sort_positions(t, v, lo, mid);
    let right = sort_positions(t, v, mid, hi);
    proof {
        assert(v@.subrange(lo as int, hi as int) =~= v@.subrange(lo as int, mid as int) + v@.subrange(
            mid as int,
            hi as int,
        ));
        lemma_multiset_commutative(
            v@.subrange(lo as int, mid as int),
            v@.subrange(mid as int, hi as int),
        );
    }
    merge_runs(t, &left, &right)
}

/// `sa` lists the positions `0..n`, each once.
pub open spec fn is_permutation(sa: Seq<u32>, n: nat) -> bool {
    &&& sa.len() == n
    &&& forall|i: int| 0 <= i < n ==> sa[i] < n
    &&& forall|i: int, j: int| 0 <= i < j < n ==> sa[i] != sa[j]
}

/// Rank of the suffix at `p` given the inverse array, -1 for the empty
/// suffix at `n`.
pub open spec fn rank_at(inv: Seq<usize>, n: int, p: int) -> int {
    if p >= n {
        -1
    } else {
        inv[p] as int
    }
}

/// The local order condition between the entries `a` and `a + 1`.
pub open spec fn adjacent_ok(t: Seq<u8>, sa: Seq<u32>, inv: Seq<usize>, a: int) -> bool {
    let x = sa[a] as int;
    let y = sa[a + 1] as int;
    t[x] < t[y] || (t[x] == t[y] && rank_at(inv, t.len() as int, x + 1) < rank_at(inv, t.len() as int, y + 1))
}

/// `inv` is the inverse of the permutation `sa` of `0..n`.
pub open spec fn inverse_ok(sa: Seq<u32>, inv: Seq<usize>, n: int) -> bool {
    &&& sa.len() == n
    &&& inv.len() == n
    &&& forall|j: int| 0 <= j < n ==> (#[trigger] sa[j]) < n && inv[sa[j] as int] == j
    &&& forall|p: int| 0 <= p < n ==> (#[trigger] inv[p]) < n && sa[inv[p] as int] == p
}

proof fn lemma_adjacent_chain(t: Seq<u8>, sa: Seq<u32>, inv: Seq<usize>, a: int, b: int)
    requires
        inverse_ok(sa, inv, t.len() as int),
        forall|c: int| 0 <= c < t.len() - 1 ==> adjacent_ok(t, sa, inv, c),
        0 <= a < b < t.len(),
    ensures
        t[sa[a] as int] <= t[sa[b] as int],
        t[sa[a] as int] == t[sa[b] as int] ==> rank_at(inv, t.len() as int, sa[a] + 1) < rank_at(
            inv,
            t.len() as int,
            sa[b] + 1,
        ),
    decreases b - a,
{
    assert(adjacent_ok(t, sa, inv, b - 1));
    if b > a + 1 {
        lemma_adjacent_chain(t, sa, inv, a, b - 1);
    }
}

proof fn lemma_certified_order(t: Seq<u8>, sa: Seq<u32>, inv: Seq<usize>, x: int, y: int)
    requires
        inverse_ok(sa, inv, t.len() as int),
        forall|c: int| 0 <= c < t.len() - 1 ==> adjacent_ok(t, sa, inv, c),
        0 <= x < t.len(),
        0 <= y < t.len(),
        inv[x] < inv[y],
    ensures
        suffix_le(t, x, y),
    decreases t.len() - x,
{
    let n = t.len() as int;
    let a = inv[x] as int;
    let b = inv[y] as int;
    assert(sa[a] == x && sa[b] == y);
    lemma_adjacent_chain(t, sa, inv, a, b);
    if t[x] == t[y] {
        if x + 1 < n {
            assert(y + 1 < n);
            lemma_certified_order(t, sa, inv, x + 1, y + 1);
        } else {
            assert(suffix_le(t, x + 1, y + 1));
        }
        assert(suffix_le(t, x, y) == suffix_le(t, x + 1, y + 1));
    }
}

/// Checks that `sa` is the suffix array of `text`: a permutation whose
/// neighbours are ordered by first symbol, then by the ranks of the
/// suffixes one further on.
pub fn certify_sa(text: &[u8], sa: &Vec<u32>) -> (ok: bool)
    ensures
        ok ==> is_permutation(sa@, text@.len()) && suffixes_sorted(text@, sa@),
{
    let n = text.len();
    if sa.len() != n {
        return false;
    }
    let mut inv: Vec<usize> = Vec::with_capacity(n);
    let mut p: usize = 0;
    while p < n
        invariant
            p <= n,
            inv@.len() == p,
            forall|q: int| 0 <= q < p ==> inv@[q] == n,
        decreases n - p,
    {
        inv.push(n);
        p += 1;
    }
    let mut i: usize = 0;
    while i < n
        invariant
            n == text@.len(),
            n == sa@.len(),
            inv@.len() == n,
            i <= n,
            forall|j: int| 0 <= j < i ==> (#[trigger] sa@[j]) < n && inv@[sa@[j] as int] == j,
            forall|q: int| 0 <= q < n ==> (#[trigger] inv@[q]) == n || (inv@[q] < i && sa@[inv@[q] as int] == q),
        decreases n - i,
    {
        let q = sa[i] as usize;
        if q >= n || inv[q] != n {
            return false;
        }
        inv.set(q, i);
        i += 1;
    }
    let mut q: usize = 0;
    while q < n
        invariant
            n == sa@.len(),
            inv@.len() == n,
            q <= n,
            forall|r: int| 0 <= r < n ==> (#[trigger] inv@[r]) == n || (inv@[r] < n && sa@[inv@[r] as int] == r),
            forall|r: int| 0 <= r < q ==> (#[trigger] inv@[r]) < n,
        decreases n - q,
    {
        if inv[q] == n {
            return false;
        }
        q += 1;
    }
    let mut a: usize = 0;
    while n > 0 && a < n - 1
        invariant
            n == text@.len(),
            inverse_ok(sa@, inv@, n as int),
            a <= n,
            forall|c: int| 0 <= c < a ==> adjacent_ok(text@, sa@, inv@, c),
        decreases n - a,
    {
        let x = sa[a] as usize;
        let y = sa[a + 1] as usize;
        assert(x < n && y < n) by {
            assert(sa@[a as int] < n);
            assert(sa@[a + 1] < n);
        }
        if text[x] > text[y] {
            return false;
        }
        if text[x] == text[y] {
            let rx: usize = if x + 1 < n {
                inv[x + 1] + 1
            } else {
                0
            };
            let ry: usize = if y + 1 < n {
                inv[y + 1] + 1
            } else {
                0
            };
            if rx >= ry {
                return false;
            }
        }
        a += 1;
    }
    proof {
        assert forall|i: int, j: int| 0 <= i < j < n implies sa@[i] != sa@[j] by {
            assert(inv@[sa@[i] as int] == i);
            assert(inv@[sa@[j] as int] == j);
        }
        assert forall|i: int, j: int| 0 <= i < j < sa@.len() implies suffix_le(
            text@,
            sa@[i] as int,
            sa@[j] as int,
        ) by {
            assert(inv@[sa@[i] as int] == i);
            assert(inv@[sa@[j] as int] == j);
            lemma_certified_order(text@, sa@, inv@, sa@[i] as int, sa@[j] as int);
        }
    }
    true
}

/// Sorts `ids[lo..hi)` by `keys[id]` (merge sort).
fn sort_ids_by_key(ids: &Vec<u32>, keys: &Vec<u64>, lo: usize, hi: usize) -> (out: Vec<u32>)
    requires
        lo <= hi <= ids@.len(),
        forall|k: int| 0 <= k < ids@.len() ==> ids@[k] < keys@.len(),
    ensures
        out@.len() == hi - lo,
        forall|k: int| 0 <= k < out@.len() ==> out@[k] < keys@.len(),
    decreases hi - lo,
{
    if hi - lo <= 1 {
        let mut out: Vec<u32> = Vec::new();
        if hi > lo {
            out.push(ids[lo]);
        }
        return out;
    }
    let mid = lo + (hi - lo) / 2;
    let left = sort_ids_by_key(ids, keys, lo, mid);
    let right = sort_ids_by_key(ids, keys, mid, hi);
    let mut out: Vec<u32> = Vec::new();
    let mut i: usize = 0;
    let mut j: usize = 0;
    while i < left.len() || j < right.len()
        invariant
            i <= left@.len(),
            j <= right@.len(),
            out@.len() == i + j,
            forall|k: int| 0 <= k < left@.len() ==> left@[k] < keys@.len(),
            forall|k: int| 0 <= k < right@.len() ==> right@[k] < keys@.len(),
            forall|k: int| 0 <= k < out@.len() ==> out@[k] < keys@.len(),
        decreases left@.len() + right@.len() - i - j,
    {
        let take_left = i < left.len() && (j >= right.len() || keys[left[i] as usize] <= keys[right[j] as usize]);
        if take_left {
            out.push(left[i]);
            i += 1;
        } else {
            out.push(right[j]);
            j += 1;
        }
    }
    out
}

/// Prefix doubling: sorts positions by their first `2k` symbols for
/// `k = 1, 2, 4, ...` until all ranks differ. Its result is checked by
/// `certify_sa` before use.
fn doubling_sa(text: &[u8]) -> (sa: Vec<u32>)
    requires
        text@.len() <= u32::MAX,
    ensures
        sa@.len() == text@.len(),
{
    let n = text.len();
    let mut sa: Vec<u32> = Vec::with_capacity(n);
    let mut rank: Vec<u32> = Vec::with_capacity(n);
    let mut i: usize = 0;
    while i < n
        invariant
            n == text@.len(),
            n <= u32::MAX,
            i <= n,
            sa@.len() == i,
            rank@.len() == i,
            forall|k: int| 0 <= k < i ==> sa@[k] < n,
            forall|k: int| 0 <= k < i ==> rank@[k] < 256,
        decreases n - i,
    {
        sa.push(i as u32);
        rank.push(text[i] as u32);
        i += 1;
    }
    if n == 0 {
        return sa;
    }
    let mut k: usize = 1;
    loop
        invariant
            n == text@.len(),
            0 < n <= u32::MAX,
            1 <= k <= n,
            sa@.len() == n,
            rank@.len() == n,
            forall|t: int| 0 <= t < n ==> sa@[t] < n,
            forall|t: int| 0 <= t < n ==> rank@[t] <= 0xffff_fffe,
        decreases n - k,
    {
        let mut keys: Vec<u64> = Vec::with_capacity(n);
        let mut p: usize = 0;
        while p < n
            invariant
                0 < n <= u32::MAX,
                p <= n,
                rank@.len() == n,
                keys@.len() == p,
                forall|t: int| 0 <= t < n ==> rank@[t] <= 0xffff_fffe,
            decreases n - p,
        {
            let second: u64 = if k < n - p {
                rank[p + k] as u64 + 1
            } else {
                0
            };
            let first = rank[p] as u64;
            assert(first * 0x1_0000_0000 + second <= 0xffff_ffff_ffff_ffff) by (nonlinear_arith)
                requires
                    first <= 0xffff_fffe,
                    second <= 0xffff_ffff,
            ;
            keys.push(first * 0x1_0000_0000 + second);
            p += 1;
        }
        sa = sort_ids_by_key(&sa, &keys, 0, n);
        let mut tmp: Vec<u32> = Vec::with_capacity(n);
        let mut p: usize = 0;
        while p < n
            invariant
                p <= n,
                tmp@.len() == p,
                forall|t: int| 0 <= t < p ==> tmp@[t] == 0,
            decreases n - p,
        {
            tmp.push(0);
            p += 1;
        }
        let mut q: usize = 1;
        while q < n
            invariant
                0 < n <= u32::MAX,
                1 <= q <= n,
                sa@.len() == n,
                tmp@.len() == n,
                keys@.len() == n,
                forall|t: int| 0 <= t < n ==> sa@[t] < n,
                forall|t: int| 0 <= t < n ==> tmp@[t] < q,
            decreases n - q,
        {
            let a = sa[q - 1] as usize;
            let b = sa[q] as usize;
            let v = tmp[a] + if keys[a] != keys[b] {
                1
            } else {
                0
            };
            tmp.set(b, v);
            q += 1;
        }
        rank = tmp;
        if rank[sa[n - 1] as usize] as usize == n - 1 || k >= n - k {
            break;
        }
        k = k * 2;
    }
    sa
}

/// Builds the suffix array of a coded text: a permutation of `0..n` that
/// lists the suffixes in lexicographic order. Prefix doubling computes it,
/// a linear check certifies it; a merge sort on direct suffix comparison
/// stands behind the check.
pub fn build_sa(text: &[u8]) -> (sa: Vec<u32>)
    requires
        text@.len() <= u32::MAX,
    ensures
        is_permutation(sa@, text@.len()),
        suffixes_sorted(text@, sa@),
{
    let candidate = doubling_sa(text);
    if certify_sa(text, &candidate) {
        return candidate;
    }
    let n = text.len();
    let mut ids: Vec<u32> = Vec::with_capacity(n);
    let mut i: usize = 0;
    while i < n
        invariant
            n == text@.len(),
            n <= u32::MAX,
            i <= n,
            ids@ == identity_seq(i as nat),
        decreases n - i,
    {
        ids.push(i as u32);
        i += 1;
        assert(ids@ =~= identity_seq(i as nat));
    }
    let sa = sort_positions(text, &ids, 0, n);
    proof {
        assert(ids@.subrange(0, n as int) =~= ids@);
        assert(sa@.len() == sa@.to_multiset().len());
        assert(ids@.len() == ids@.to_multiset().len());
        assert forall|k: int| 0 <= k < sa@.len() implies sa@[k] < text@.len() by {
            assert(sa@.contains(sa@[k]));
            assert(sa@.to_multiset().count(sa@[k]) > 0);
            assert(ids@.contains(sa@[k]));
        }
        assert(ids@.no_duplicates());
        ids@.lemma_multiset_has_no_duplicates();
        assert forall|x: u32| sa@.to_multiset().contains(x) implies sa@.to_multiset().count(x) == 1 by {
            assert(ids@.to_multiset().contains(x));
        }
        sa@.lemma_multiset_has_no_duplicates_conv();
    }
    sa
}

} // verus!
