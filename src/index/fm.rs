//! The FM-index over a coded text: C-table, block-sampled occurrence counts,
//! backward search, and the mapping from text positions to contigs.
use vstd::prelude::*;
use vstd::arithmetic::div_mod::{lemma_fundamental_div_mod, lemma_div_is_ordered};
use vstd::arithmetic::mul::lemma_mul_inequality;
use crate::index::bwt::bwt_spec;
use crate::index::sa::{is_permutation, suffixes_sorted};

verus! {

/// First eight bytes of every serialized index.
pub const INDEX_MAGIC: u64 = 0x4257_4152_5553_5446;

/// Format version of the serialized index.
pub const INDEX_VERSION: u32 = 1;

/// A named reference sequence: `len` symbols starting at `offset` in the
/// concatenated coded text.
pub struct Contig {
    pub name: String,
    pub len: u32,
    pub offset: u32,
}

impl Clone for Contig {
    fn clone(&self) -> (r: Self)
        ensures
            r.name@ == self.name@,
            r.len == self.len,
            r.offset == self.offset,
    {
        Contig { name: self.name.clone(), len: self.len, offset: self.offset }
    }
}

/// Provenance of an index.
pub struct IndexMeta {
    pub reference_file: Option<String>,
    pub build_args: Option<String>,
    pub build_timestamp: Option<String>,
}

/// The FM-index. `c[a]` counts the symbols below `a`, `occ_samples` holds
/// for each block and symbol the count of that symbol before the block.
pub struct FMIndex {
    pub magic: u64,
    pub version: u32,
    pub sigma: u8,
    pub block: u32,
    pub c: Vec<u32>,
    pub bwt: Vec<u8>,
    pub occ_samples: Vec<u32>,
    pub sa: Vec<u32>,
    pub contigs: Vec<Contig>,
    pub text: Vec<u8>,
    pub meta: IndexMeta,
}

/// Number of occurrences of `a` in `s[0..p)`.
pub open spec fn count_prefix(s: Seq<u8>, a: u8, p: int) -> nat
    decreases p,
{
    if p <= 0 {
        0
    } else {
        count_prefix(s, a, p - 1) + if s[p - 1] == a {
            1nat
        } else {
            0nat
        }
    }
}

/// Number of symbols below `a` in `s[0..p)`.
pub open spec fn count_less(s: Seq<u8>, a: u8, p: int) -> nat
    decreases p,
{
    if p <= 0 {
        0
    } else {
        count_less(s, a, p - 1) + if s[p - 1] < a {
            1nat
        } else {
            0nat
        }
    }
}

/// Number of blocks of size `b` that cover `n` symbols.
pub open spec fn num_blocks(n: int, b: int) -> int {
    if n <= 0 {
        0
    } else {
        (n - 1) / b + 1
    }
}

/// Index of the sample of symbol `a` for block `bi`.
pub open spec fn slot(bi: int, a: int, sigma: int) -> int {
    bi * sigma + a
}

/// The contig covers text position `pos`.
pub open spec fn contig_holds(c: Contig, pos: int) -> bool {
    c.offset <= pos < c.offset + c.len
}

/// Contigs lie inside a text of length `n`, ordered by offset, without
/// overlap.
pub open spec fn contigs_wf(cs: Seq<Contig>, n: int) -> bool {
    &&& forall|k: int| 0 <= k < cs.len() ==> cs[k].offset + cs[k].len <= n
    &&& forall|j: int, k: int|
        0 <= j < k < cs.len() ==> #[trigger] cs[j].offset + cs[j].len <= #[trigger] cs[k].offset
}

pub proof fn lemma_count_le(s: Seq<u8>, a: u8, p: int, q: int)
    requires
        0 <= p <= q,
    ensures
        count_prefix(s, a, p) <= count_prefix(s, a, q),
        count_prefix(s, a, q) - count_prefix(s, a, p) <= q - p,
        count_less(s, a, p) + count_prefix(s, a, p) <= p,
    decreases q,
{
    if q > p {
        lemma_count_le(s, a, p, q - 1);
    } else if p > 0 {
        lemma_count_le(s, a, p - 1, p - 1);
    }
}

proof fn lemma_count_less_succ(s: Seq<u8>, a: u8, p: int)
    requires
        a < 255,
    ensures
        count_less(s, (a + 1) as u8, p) == count_less(s, a, p) + count_prefix(s, a, p),
    decreases p,
{
    if p > 0 {
        lemma_count_less_succ(s, a, p - 1);
    }
}

/// Occurrence counts: each step of `occ` adds one exactly where the BWT holds
/// the symbol, `occ(a, 0)` is zero, and `occ(a, N)` is the gap between
/// consecutive C-table entries, that is the number of `a` in the BWT.
pub proof fn lemma_occ_laws(idx: &FMIndex, a: u8, pos: int)
    requires
        idx.wf(),
        a < idx.sigma,
        0 <= pos < idx.bwt@.len(),
    ensures
        idx.occ_spec(a, 0) == 0,
        idx.occ_spec(a, pos + 1) == idx.occ_spec(a, pos) + if idx.bwt@[pos] == a {
            1int
        } else {
            0int
        },
        a + 1 < idx.sigma ==> idx.c@[a + 1] == idx.c@[a as int] + idx.occ_spec(
            a,
            idx.bwt@.len() as int,
        ),
{
    lemma_count_less_succ(idx.bwt@, a, idx.bwt@.len() as int);
    if a + 1 < idx.sigma {
        assert(idx.c@[a + 1] == count_less(idx.bwt@, (a + 1) as u8, idx.bwt@.len() as int));
    }
}

proof fn lemma_block_start(n: int, b: int, bi: int)
    requires
        n > 0,
        b > 0,
        0 <= bi < num_blocks(n, b),
    ensures
        bi * b <= n - 1,
{
    let q = (n - 1) / b;
    lemma_fundamental_div_mod(n - 1, b);
    lemma_mul_inequality(bi, q, b);
    assert(q * b == b * q) by (nonlinear_arith);
    assert(bi * b == b * bi) by (nonlinear_arith);
}

proof fn lemma_slot_bound(bi: int, a: int, s: int, nb: int)
    requires
        0 <= bi < nb,
        0 <= a < s,
    ensures
        0 <= slot(bi, a, s) < nb * s,
{
    lemma_mul_inequality(bi + 1, nb, s);
    assert((bi + 1) * s == bi * s + s) by (nonlinear_arith);
    assert(bi * s >= 0) by (nonlinear_arith)
        requires
            bi >= 0,
            s > 0,
    ;
}

impl FMIndex {
    /// The invariant of a built index.
    pub open spec fn wf(&self) -> bool {
        let n = self.bwt@.len() as int;
        let s = self.sigma as int;
        &&& n <= u32::MAX
        &&& self.sa@.len() == n
        &&& self.text@.len() == n
        &&& forall|k: int| 0 <= k < n ==> self.sa@[k] < n
        &&& is_permutation(self.sa@, n as nat)
        &&& suffixes_sorted(self.text@, self.sa@)
        &&& self.bwt@ == bwt_spec(self.text@, self.sa@)
        &&& self.block > 0
        &&& self.c@.len() == s
        &&& forall|a: int| 0 <= a < s ==> self.c@[a] == count_less(self.bwt@, a as u8, n)
        &&& self.occ_samples@.len() == num_blocks(n, self.block as int) * s
        &&& forall|bi: int, a: int|
            0 <= bi < num_blocks(n, self.block as int) && 0 <= a < s
                ==> #[trigger] self.occ_samples@[slot(bi, a, s)] == count_prefix(
                self.bwt@,
                a as u8,
                bi * self.block,
            )
        &&& contigs_wf(self.contigs@, n)
    }

    /// `occ(a, pos)` as the index defines it: occurrences of `a` in
    /// `BWT[0..pos)`.
    pub open spec fn occ_spec(&self, a: u8, pos: int) -> nat {
        count_prefix(self.bwt@, a, pos)
    }

    /// Interval after extending `[l, r)` by the symbols `pat[0..i)`, taken
    /// from right to left; `None` once an interval comes out empty.
    pub open spec fn search_spec(&self, pat: Seq<u8>, i: int, l: int, r: int) -> Option<(int, int)>
        decreases i,
    {
        if i <= 0 {
            Some((l, r))
        } else {
            let a = pat[i - 1];
            let nl = self.c@[a as int] + count_prefix(self.bwt@, a, l);
            let nr = self.c@[a as int] + count_prefix(self.bwt@, a, r);
            if nl >= nr {
                None
            } else {
                self.search_spec(pat, i - 1, nl, nr)
            }
        }
    }

    /// Builds the index from a coded text, its BWT and suffix array.
    pub fn build(
        text: Vec<u8>,
        bwt: Vec<u8>,
        sa: Vec<u32>,
        contigs: Vec<Contig>,
        sigma: u8,
        block: usize,
    ) -> (idx: Self)
        requires
            bwt@.len() <= u32::MAX,
            sa@.len() == bwt@.len(),
            text@.len() == bwt@.len(),
            is_permutation(sa@, text@.len()),
            suffixes_sorted(text@, sa@),
            bwt@ == bwt_spec(text@, sa@),
            0 < block <= u32::MAX,
            contigs_wf(contigs@, bwt@.len() as int),
        ensures
            idx.wf(),
            idx.magic == INDEX_MAGIC,
            idx.version == INDEX_VERSION,
            idx.sigma == sigma,
            idx.block == block as u32,
            idx.bwt@ == bwt@,
            idx.sa@ == sa@,
            idx.text@ == text@,
            idx.contigs@ == contigs@,
    {
        let n = bwt.len();
        let s = sigma as usize;
        let mut c: Vec<u32> = Vec::with_capacity(s);
        let mut a: usize = 0;
        while a < s
            invariant
                n == bwt@.len(),
                n <= u32::MAX,
                s == sigma as usize,
                a <= s,
                c@.len() == a,
                forall|k: int| 0 <= k < a ==> c@[k] == count_less(bwt@, k as u8, n as int),
            decreases s - a,
        {
            let mut cnt: u32 = 0;
            let mut j: usize = 0;
            while j < n
                invariant
                    n == bwt@.len(),
                    n <= u32::MAX,
                    a < s,
                    s <= 255,
                    j <= n,
                    cnt == count_less(bwt@, a as u8, j as int),
                decreases n - j,
            {
                proof {
                    lemma_count_le(bwt@, a as u8, j as int, j as int);
                }
                if bwt[j] < a as u8 {
                    cnt += 1;
                }
                j += 1;
            }
            c.push(cnt);
            a += 1;
        }

        let nb: usize = if n == 0 {
            0
        } else {
            (n - 1) / block + 1
        };
        let mut occ_samples: Vec<u32> = Vec::new();
        let mut running: Vec<u32> = Vec::with_capacity(s);
        let mut a: usize = 0;
        while a < s
            invariant
                a <= s,
                running@.len() == a,
                forall|k: int| 0 <= k < a ==> running@[k] == 0,
            decreases s - a,
        {
            running.push(0);
            a += 1;
        }
        let mut bi: usize = 0;
        let mut start: usize = 0;
        while bi < nb
            invariant
                n == bwt@.len(),
                n <= u32::MAX,
                s == sigma as usize,
                0 < block,
                nb == num_blocks(n as int, block as int),
                bi <= nb,
                bi < nb ==> start == bi * block,
                start <= n,
                running@.len() == s,
                forall|k: int| 0 <= k < s ==> running@[k] == count_prefix(bwt@, k as u8, start as int),
                occ_samples@.len() == bi * s,
                forall|b2: int, k: int|
                    0 <= b2 < bi && 0 <= k < s ==> #[trigger] occ_samples@[slot(b2, k, s as int)]
                        == count_prefix(bwt@, k as u8, b2 * block),
            decreases nb - bi,
        {
            proof {
                lemma_block_start(n as int, block as int, bi as int);
            }
            let mut a: usize = 0;
            while a < s
                invariant
                    s == sigma as usize,
                    bi < nb,
                    start == bi * block,
                    a <= s,
                    running@.len() == s,
                    forall|k: int| 0 <= k < s ==> running@[k] == count_prefix(bwt@, k as u8, start as int),
                    occ_samples@.len() == bi * s + a,
                    forall|b2: int, k: int|
                        0 <= b2 < bi && 0 <= k < s ==> #[trigger] occ_samples@[slot(b2, k, s as int)]
                            == count_prefix(bwt@, k as u8, b2 * block),
                    forall|k: int|
                        0 <= k < a ==> #[trigger] occ_samples@[slot(bi as int, k, s as int)]
                            == count_prefix(bwt@, k as u8, start as int),
                decreases s - a,
            {
                proof {
                    assert forall|b2: int, k: int| 0 <= b2 < bi && 0 <= k < s implies slot(b2, k, s as int) < bi * s by {
                        lemma_slot_bound(b2, k, s as int, bi as int);
                    }
                }
                occ_samples.push(running[a]);
                a += 1;
            }
            let end: usize = if n - start < block {
                n
            } else {
                start + block
            };
            let mut j: usize = start;
            while j < end
                invariant
                    n == bwt@.len(),
                    n <= u32::MAX,
                    s == sigma as usize,
                    start <= j <= end <= n,
                    running@.len() == s,
                    forall|k: int| 0 <= k < s ==> running@[k] == count_prefix(bwt@, k as u8, j as int),
                decreases end - j,
            {
                let ch = bwt[j];
                proof {
                    assert forall|k: int| 0 <= k < s implies count_prefix(bwt@, k as u8, j + 1) == running@[k]
                        + if bwt@[j as int] == k as u8 {
                        1nat
                    } else {
                        0nat
                    } by {}
                    if (ch as usize) < s {
                        lemma_count_le(bwt@, ch, j as int, n as int);
                    }
                }
                if (ch as usize) < s {
                    let v = running[ch as usize];
                    running.set(ch as usize, v + 1);
                }
                j += 1;
            }
            proof {
                assert forall|b2: int, k: int|
                    0 <= b2 < bi + 1 && 0 <= k < s implies #[trigger] occ_samples@[slot(b2, k, s as int)]
                        == count_prefix(bwt@, k as u8, b2 * block) by {
                    if b2 == bi {
                    }
                }
                assert(occ_samples@.len() == (bi + 1) * s) by (nonlinear_arith)
                    requires
                        occ_samples@.len() == bi * s + s,
                ;
                if bi + 1 < nb {
                    lemma_block_start(n as int, block as int, bi + 1);
                    assert((bi + 1) * block == bi * block + block) by (nonlinear_arith);
                }
            }
            start = end;
            bi += 1;
        }
        proof {
            assert(occ_samples@.len() == num_blocks(n as int, block as int) * s);
        }
        FMIndex {
            magic: INDEX_MAGIC,
            version: INDEX_VERSION,
            sigma,
            block: block as u32,
            c,
            bwt,
            occ_samples,
            sa,
            contigs,
            text,
            meta: IndexMeta { reference_file: None, build_args: None, build_timestamp: None },
        }
    }

    /// Records the provenance of the index.
    pub fn set_meta(&mut self, meta: IndexMeta)
        ensures
            final(self).meta == meta,
            final(self).magic == old(self).magic,
            final(self).version == old(self).version,
            final(self).sigma == old(self).sigma,
            final(self).block == old(self).block,
            final(self).c@ == old(self).c@,
            final(self).bwt@ == old(self).bwt@,
            final(self).occ_samples@ == old(self).occ_samples@,
            final(self).sa@ == old(self).sa@,
            final(self).contigs@ == old(self).contigs@,
            final(self).text@ == old(self).text@,
    {
        self.meta = meta;
    }

    /// Number of occurrences of `c` in `BWT[0..pos)`.
    pub fn occ(&self, c: u8, pos: usize) -> (r: u32)
        requires
            self.wf(),
            c < self.sigma,
            pos <= self.bwt@.len(),
        ensures
            r == self.occ_spec(c, pos as int),
    {
        if pos == 0 {
            return 0;
        }
        let s = self.sigma as usize;
        let block = self.block as usize;
        let bi = (pos - 1) / block;
        let ghost n = self.bwt@.len() as int;
        let samples_len = self.occ_samples.len();
        proof {
            lemma_div_is_ordered(pos - 1, n - 1, block as int);
            lemma_fundamental_div_mod(pos - 1, block as int);
            assert(bi * block == block * bi) by (nonlinear_arith);
            assert(bi < num_blocks(n, block as int));
            lemma_slot_bound(bi as int, c as int, s as int, num_blocks(n, block as int));
            assert(slot(bi as int, c as int, s as int) == bi * s + c);
            assert(bi * s + c < self.occ_samples@.len());
        }
        let base = self.occ_samples[bi * s + c as usize];
        let start = bi * block;
        assert(base == count_prefix(self.bwt@, c, start as int)) by {
            assert(self.occ_samples@[slot(bi as int, c as int, s as int)] == count_prefix(
                self.bwt@,
                c,
                bi * self.block,
            ));
        }
        let mut add: u32 = 0;
        let mut j: usize = start;
        while j < pos
            invariant
                self.wf(),
                start <= j <= pos <= self.bwt@.len(),
                base + add == count_prefix(self.bwt@, c, j as int),
            decreases pos - j,
        {
            proof {
                lemma_count_le(self.bwt@, c, j + 1, self.bwt@.len() as int);
            }
            if self.bwt[j] == c {
                add += 1;
            }
            j += 1;
        }
        proof {
            lemma_count_le(self.bwt@, c, 0, pos as int);
        }
        base + add
    }

    /// Extends the interval `[l, r)` by symbol `c` on the left:
    /// `(C[c] + occ(c, l), C[c] + occ(c, r))`.
    pub fn rank_range(&self, c: u8, l: usize, r: usize) -> (res: (usize, usize))
        requires
            self.wf(),
            c < self.sigma,
            l <= r <= self.bwt@.len(),
        ensures
            res.0 == self.c@[c as int] + self.occ_spec(c, l as int),
            res.1 == self.c@[c as int] + self.occ_spec(c, r as int),
            res.0 <= res.1 <= self.bwt@.len(),
    {
        proof {
            let n = self.bwt@.len() as int;
            lemma_count_le(self.bwt@, c, l as int, r as int);
            lemma_count_le(self.bwt@, c, r as int, n);
            lemma_count_le(self.bwt@, c, n, n);
        }
        let c0 = self.c[c as usize] as usize;
        let nl = c0 + self.occ(c, l) as usize;
        let nr = c0 + self.occ(c, r) as usize;
        (nl, nr)
    }

    /// Exact-match backward search of a coded pattern (no sentinel code):
    /// the suffix-array interval of the pattern, or `None` when it is empty.
    pub fn backward_search(&self, pat: &[u8]) -> (res: Option<(usize, usize)>)
        requires
            self.wf(),
            forall|k: int| 0 <= k < pat@.len() ==> 0 < #[trigger] pat@[k] < self.sigma,
        ensures
            self.bwt@.len() == 0 ==> res is None,
            self.bwt@.len() > 0 ==> match res {
                Some((l, r)) => self.search_spec(pat@, pat@.len() as int, 0, self.bwt@.len() as int)
                    == Some((l as int, r as int)),
                None => self.search_spec(pat@, pat@.len() as int, 0, self.bwt@.len() as int) is None,
            },
            res matches Some((l, r)) ==> l < r <= self.bwt@.len(),
    {
        if self.bwt.len() == 0 {
            return None;
        }
        let mut l: usize = 0;
        let mut r: usize = self.bwt.len();
        let mut i: usize = pat.len();
        while i > 0
            invariant
                self.wf(),
                forall|k: int| 0 <= k < pat@.len() ==> 0 < #[trigger] pat@[k] < self.sigma,
                i <= pat@.len(),
                l < r <= self.bwt@.len(),
                self.search_spec(pat@, pat@.len() as int, 0, self.bwt@.len() as int)
                    == self.search_spec(pat@, i as int, l as int, r as int),
            decreases i,
        {
            let a = pat[i - 1];
            let (nl, nr) = self.rank_range(a, l, r);
            if nl >= nr {
                return None;
            }
            l = nl;
            r = nr;
            i -= 1;
        }
        Some((l, r))
    }

    /// The text positions `SA[l..r)`.
    pub fn sa_interval_positions(&self, l: usize, r: usize) -> (res: &[u32])
        requires
            l <= r <= self.sa@.len(),
        ensures
            res@ == self.sa@.subrange(l as int, r as int),
    {
        &self.sa.as_slice()[l..r]
    }

    /// Maps a text position to `(contig index, offset in contig)`; `None` on a
    /// sentinel or past the last contig.
    pub fn map_text_pos(&self, pos: u32) -> (res: Option<(usize, u32)>)
        requires
            contigs_wf(self.contigs@, self.bwt@.len() as int),
            self.bwt@.len() <= u32::MAX,
        ensures
            match res {
                Some((ci, off)) => ci < self.contigs@.len() && contig_holds(
                    self.contigs@[ci as int],
                    pos as int,
                ) && off == pos - self.contigs@[ci as int].offset,
                None => forall|k: int|
                    0 <= k < self.contigs@.len() ==> !contig_holds(#[trigger] self.contigs@[k], pos as int),
            },
    {
        let mut lo: usize = 0;
        let mut hi: usize = self.contigs.len();
        while lo < hi
            invariant
                contigs_wf(self.contigs@, self.bwt@.len() as int),
                self.bwt@.len() <= u32::MAX,
                lo <= hi <= self.contigs@.len(),
                forall|k: int|
                    0 <= k < lo ==> #[trigger] self.contigs@[k].offset + self.contigs@[k].len <= pos,
                forall|k: int| hi <= k < self.contigs@.len() ==> pos < #[trigger] self.contigs@[k].offset,
            decreases hi - lo,
        {
            let mid = lo + (hi - lo) / 2;
            let c = &self.contigs[mid];
            if pos < c.offset {
                proof {
                    assert forall|k: int| mid <= k < self.contigs@.len() implies pos
                        < #[trigger] self.contigs@[k].offset by {
                        if k > mid {
                            assert(self.contigs@[mid as int].offset + self.contigs@[mid as int].len
                                <= self.contigs@[k].offset);
                        }
                    }
                }
                hi = mid;
            } else if pos >= c.offset + c.len {
                proof {
                    assert forall|k: int| 0 <= k < mid + 1 implies #[trigger] self.contigs@[k].offset
                        + self.contigs@[k].len <= pos by {
                        if k < mid {
                            assert(self.contigs@[k].offset + self.contigs@[k].len
                                <= self.contigs@[mid as int].offset);
                        }
                    }
                }
                lo = mid + 1;
            } else {
                return Some((mid, pos - c.offset));
            }
        }
        None
    }
}

/// Why a serialized index was refused.
pub enum IndexError {
    /// Too short to hold the envelope.
    Truncated,
    /// The first eight bytes are not the index magic.
    BadMagic,
    /// The envelope carries another format version, given here.
    UnsupportedVersion(u32),
}

/// Little-endian bytes of `v`, `k` of them.
pub open spec fn le_bytes(v: nat, k: nat) -> Seq<u8>
    decreases k,
{
    if k == 0 {
        Seq::empty()
    } else {
        seq![(v % 256) as u8] + le_bytes(v / 256, (k - 1) as nat)
    }
}

/// The value of little-endian bytes.
pub open spec fn le_value(b: Seq<u8>) -> nat
    decreases b.len(),
{
    if b.len() == 0 {
        0
    } else {
        b[0] as nat + 256 * le_value(b.drop_first())
    }
}

/// The twelve bytes that open a serialized index: magic, then version.
pub open spec fn envelope_header() -> Seq<u8> {
    le_bytes(INDEX_MAGIC as nat, 8) + le_bytes(INDEX_VERSION as nat, 4)
}

proof fn lemma_le_bytes_len(v: nat, k: nat)
    ensures
        le_bytes(v, k).len() == k,
    decreases k,
{
    if k > 0 {
        lemma_le_bytes_len(v / 256, (k - 1) as nat);
    }
}

fn push_le(out: &mut Vec<u8>, v: u64, k: usize)
    requires
        k <= 8,
    ensures
        final(out)@ == old(out)@ + le_bytes(v as nat, k as nat),
    decreases k,
{
    if k == 0 {
        assert(old(out)@ + le_bytes(v as nat, 0) =~= old(out)@);
        return;
    }
    out.push((v % 256) as u8);
    push_le(out, v / 256, k - 1);
    assert(final(out)@ =~= old(out)@ + le_bytes(v as nat, k as nat));
}

/// Wraps a serialized index body in the envelope: magic, version, body.
pub fn frame_index(payload: &[u8]) -> (out: Vec<u8>)
    ensures
        out@ == envelope_header() + payload@,
{
    let mut out: Vec<u8> = Vec::new();
    push_le(&mut out, INDEX_MAGIC, 8);
    push_le(&mut out, INDEX_VERSION as u64, 4);
    let mut i: usize = 0;
    while i < payload.len()
        invariant
            i <= payload@.len(),
            out@ == envelope_header() + payload@.subrange(0, i as int),
        decreases payload@.len() - i,
    {
        out.push(payload[i]);
        i += 1;
        assert(out@ =~= envelope_header() + payload@.subrange(0, i as int));
    }
    assert(payload@.subrange(0, i as int) =~= payload@);
    out
}

fn read_le_u32(b: &[u8], at: usize) -> (r: u32)
    requires
        at + 4 <= b@.len(),
    ensures
        r == le_value(b@.subrange(at as int, at + 4)),
{
    let ghost s = b@.subrange(at as int, at + 4);
    assert(s.drop_first().drop_first().drop_first().drop_first() =~= Seq::<u8>::empty());
    reveal_with_fuel(le_value, 5);
    assert(s.drop_first()[0] == b@[at + 1]);
    assert(s.drop_first().drop_first()[0] == b@[at + 2]);
    assert(s.drop_first().drop_first().drop_first()[0] == b@[at + 3]);
    b[at] as u32 + 256 * (b[at + 1] as u32 + 256 * (b[at + 2] as u32 + 256 * (b[at + 3] as u32)))
}

/// Checks the envelope of a serialized index and returns its body.
pub fn open_index_frame(bytes: &[u8]) -> (res: Result<Vec<u8>, IndexError>)
    ensures
        bytes@.len() < 12 <==> res matches Err(IndexError::Truncated),
        bytes@.len() >= 12 && bytes@.subrange(0, 8) != le_bytes(INDEX_MAGIC as nat, 8) <==> res matches Err(
            IndexError::BadMagic,
        ),
        res matches Err(IndexError::UnsupportedVersion(v)) <==> bytes@.len() >= 12 && bytes@.subrange(0, 8)
            == le_bytes(INDEX_MAGIC as nat, 8) && bytes@.subrange(8, 12) != le_bytes(
            INDEX_VERSION as nat,
            4,
        ),
        res matches Err(IndexError::UnsupportedVersion(v)) ==> v == le_value(bytes@.subrange(8, 12)),
        res matches Ok(body) <==> bytes@.len() >= 12 && bytes@.subrange(0, 12) == envelope_header(),
        res matches Ok(body) ==> body@ == bytes@.subrange(12, bytes@.len() as int),
{
    if bytes.len() < 12 {
        return Err(IndexError::Truncated);
    }
    let mut head: Vec<u8> = Vec::new();
    push_le(&mut head, INDEX_MAGIC, 8);
    push_le(&mut head, INDEX_VERSION as u64, 4);
    assert(head@ == envelope_header());
    proof {
        lemma_le_bytes_len(INDEX_MAGIC as nat, 8);
        lemma_le_bytes_len(INDEX_VERSION as nat, 4);
        assert(head@.subrange(0, 8) =~= le_bytes(INDEX_MAGIC as nat, 8));
        assert(head@.subrange(8, 12) =~= le_bytes(INDEX_VERSION as nat, 4));
    }
    let mut k: usize = 0;
    while k < 8
        invariant
            bytes@.len() >= 12,
            head@ == envelope_header(),
            head@.len() == 12,
            head@.subrange(0, 8) == le_bytes(INDEX_MAGIC as nat, 8),
            head@.subrange(8, 12) == le_bytes(INDEX_VERSION as nat, 4),
            k <= 8,
            bytes@.subrange(0, k as int) == head@.subrange(0, k as int),
        decreases 8 - k,
    {
        if bytes[k] != head[k] {
            assert(bytes@.subrange(0, 8)[k as int] != head@.subrange(0, 8)[k as int]);
            return Err(IndexError::BadMagic);
        }
        k += 1;
        assert(bytes@.subrange(0, k as int) =~= head@.subrange(0, k as int));
    }
    assert(head@.subrange(0, 8) =~= le_bytes(INDEX_MAGIC as nat, 8));
    while k < 12
        invariant
            bytes@.len() >= 12,
            head@ == envelope_header(),
            head@.len() == 12,
            head@.subrange(0, 8) == le_bytes(INDEX_MAGIC as nat, 8),
            head@.subrange(8, 12) == le_bytes(INDEX_VERSION as nat, 4),
            8 <= k <= 12,
            bytes@.subrange(0, k as int) == head@.subrange(0, k as int),
        decreases 12 - k,
    {
        if bytes[k] != head[k] {
            assert(bytes@.subrange(8, 12)[k - 8] != head@.subrange(8, 12)[k - 8]);
            assert(bytes@.subrange(0, 8) =~= bytes@.subrange(0, k as int).subrange(0, 8));
            assert(head@.subrange(0, 8) =~= head@.subrange(0, k as int).subrange(0, 8));
            return Err(IndexError::UnsupportedVersion(read_le_u32(bytes, 8)));
        }
        k += 1;
        assert(bytes@.subrange(0, k as int) =~= head@.subrange(0, k as int));
    }
    assert(bytes@.subrange(8, 12) =~= bytes@.subrange(0, 12).subrange(8, 12));
    assert(head@.subrange(8, 12) =~= le_bytes(INDEX_VERSION as nat, 4));
    assert(head@.subrange(0, 12) =~= head@);
    let mut body: Vec<u8> = Vec::new();
    let mut i: usize = 12;
    while i < bytes.len()
        invariant
            12 <= i <= bytes@.len(),
            body@ == bytes@.subrange(12, i as int),
        decreases bytes@.len() - i,
    {
        body.push(bytes[i]);
        i += 1;
        assert(body@ =~= bytes@.subrange(12, i as int));
    }
    Ok(body)
}

/// Opening a framed body gives the body back.
pub proof fn lemma_frame_round_trip(payload: Seq<u8>)
    ensures
        (envelope_header() + payload).subrange(0, 12) == envelope_header(),
        (envelope_header() + payload).subrange(12, 12 + payload.len() as int) == payload,
{
    lemma_le_bytes_len(INDEX_MAGIC as nat, 8);
    lemma_le_bytes_len(INDEX_VERSION as nat, 4);
    assert((envelope_header() + payload).subrange(0, 12) =~= envelope_header());
    assert((envelope_header() + payload).subrange(12, 12 + payload.len() as int) =~= payload);
}

} // verus!
