//! SMEM seeding: maximal exact matches between a read and the reference,
//! found by repeated backward search on the FM-index.
use vstd::prelude::*;
use crate::index::fm::{Contig, FMIndex, contig_holds, contigs_wf};

verus! {

broadcast use vstd::seq_lib::group_to_multiset_ensures, vstd::multiset::group_multiset_axioms;

/// An exact match of read interval `[qb, qe)` with reference interval
/// `[rb, re)` of contig `contig`.
#[derive(Clone, Copy, Debug, PartialEq, Eq, Structural)]
pub struct MemSeed {
    pub contig: usize,
    pub qb: usize,
    pub qe: usize,
    pub rb: u32,
    pub re: u32,
}

/// An aligned region of a read.
#[derive(Clone, Debug, PartialEq, Eq)]
pub struct AlnReg {
    pub qb: usize,
    pub qe: usize,
    pub rb: u32,
    pub re: u32,
    pub contig: usize,
    pub score: i32,
    pub sub_score: i32,
    pub cigar: String,
    pub nm: u32,
    pub is_rev: bool,
}

/// A seed with a non-empty read interval, no longer than `u32` counts.
pub open spec fn seed_ok(s: MemSeed) -> bool {
    s.qb < s.qe <= u32::MAX && s.rb <= s.re
}

/// Length of the seed on the read.
pub open spec fn seed_len(s: MemSeed) -> int {
    s.qe - s.qb
}

/// Strict lexicographic order on `(contig, qb, qe, rb, re)`.
pub open spec fn seed_lt(a: MemSeed, b: MemSeed) -> bool {
    if a.contig != b.contig {
        a.contig < b.contig
    } else if a.qb != b.qb {
        a.qb < b.qb
    } else if a.qe != b.qe {
        a.qe < b.qe
    } else if a.rb != b.rb {
        a.rb < b.rb
    } else {
        a.re < b.re
    }
}

fn seed_lt_exec(a: &MemSeed, b: &MemSeed) -> (r: bool)
    ensures
        r == seed_lt(*a, *b),
{
    if a.contig != b.contig {
        a.contig < b.contig
    } else if a.qb != b.qb {
        a.qb < b.qb
    } else if a.qe != b.qe {
        a.qe < b.qe
    } else if a.rb != b.rb {
        a.rb < b.rb
    } else {
        a.re < b.re
    }
}

/// Strictly increasing in `seed_lt`, hence without duplicates.
pub open spec fn seeds_sorted(s: Seq<MemSeed>) -> bool {
    forall|i: int, j: int| 0 <= i < j < s.len() ==> seed_lt(#[trigger] s[i], #[trigger] s[j])
}

proof fn lemma_seed_lt_trans(a: MemSeed, b: MemSeed, c: MemSeed)
    requires
        seed_lt(a, b),
        seed_lt(b, c),
    ensures
        seed_lt(a, c),
{
}

/// Sorts the seeds by `(contig, qb, qe, rb, re)` and drops duplicates.
fn dedup_seeds(seeds: &mut Vec<MemSeed>)
    ensures
        seeds_sorted(final(seeds)@),
        forall|x: MemSeed| final(seeds)@.contains(x) <==> old(seeds)@.contains(x),
{
    let ghost orig = seeds@;
    let mut src: Vec<MemSeed> = Vec::new();
    std::mem::swap(seeds, &mut src);
    let mut out: Vec<MemSeed> = Vec::new();
    let mut k: usize = 0;
    while k < src.len()
        invariant
            src@ == orig,
            k <= src@.len(),
            seeds_sorted(out@),
            forall|x: MemSeed| out@.contains(x) <==> orig.subrange(0, k as int).contains(x),
        decreases src@.len() - k,
    {
        let s = src[k];
        let mut pos: usize = out.len();
        while pos > 0 && seed_lt_exec(&s, &out[pos - 1])
            invariant
                pos <= out@.len(),
                forall|t: int| pos <= t < out@.len() ==> seed_lt(s, #[trigger] out@[t]),
            decreases pos,
        {
            pos -= 1;
        }
        let dup = pos > 0 && out[pos - 1] == s;
        let ghost old_out = out@;
        assert(forall|x: MemSeed| old_out.contains(x) <==> orig.subrange(0, k as int).contains(x));
        if !dup {
            out.insert(pos, s);
            proof {
                assert forall|i: int, j: int| 0 <= i < j < out@.len() implies seed_lt(
                    #[trigger] out@[i],
                    #[trigger] out@[j],
                ) by {
                    if j < pos {
                        assert(out@[i] == old_out[i] && out@[j] == old_out[j]);
                    } else if j == pos {
                        assert(out@[i] == old_out[i]);
                        assert(!seed_lt(s, old_out[pos - 1]));
                        assert(old_out[pos - 1] != s);
                        if i < pos - 1 {
                            lemma_seed_lt_trans(old_out[i], old_out[pos - 1], s);
                        }
                    } else if i < pos {
                        assert(out@[i] == old_out[i] && out@[j] == old_out[j - 1]);
                        if i < pos - 1 {
                            lemma_seed_lt_trans(old_out[i], old_out[pos - 1], s);
                        }
                        assert(seed_lt(old_out[pos - 1], s) || pos == 0);
                        lemma_seed_lt_trans(old_out[i], s, old_out[j - 1]);
                    } else if i == pos {
                        assert(out@[j] == old_out[j - 1]);
                    } else {
                        assert(out@[i] == old_out[i - 1] && out@[j] == old_out[j - 1]);
                    }
                }
            }
        }
        proof {
            assert(orig.subrange(0, k + 1) =~= orig.subrange(0, k as int).push(s));
            let ghost pre = orig.subrange(0, k as int);
            let ghost cur = orig.subrange(0, k + 1);
            assert(cur[k as int] == s);
            assert forall|x: MemSeed| out@.contains(x) implies cur.contains(x) by {
                let t = choose|t: int| 0 <= t < out@.len() && out@[t] == x;
                if !dup && t == pos {
                    assert(cur[k as int] == x);
                } else {
                    let t2 = if !dup && t > pos {
                        t - 1
                    } else {
                        t
                    };
                    assert(old_out[t2] == x);
                    assert(old_out.contains(x));
                    assert(pre.contains(x));
                    let w = choose|w: int| 0 <= w < pre.len() && #[trigger] pre[w] == x;
                    assert(cur[w] == x);
                }
            }
            assert forall|x: MemSeed| cur.contains(x) implies out@.contains(x) by {
                let w = choose|w: int| 0 <= w < cur.len() && #[trigger] cur[w] == x;
                if w == k {
                    if dup {
                        assert(out@[pos - 1] == x);
                    } else {
                        assert(out@[pos as int] == x);
                    }
                } else {
                    assert(pre[w] == x);
                    assert(pre.contains(x));
                    assert(old_out.contains(x));
                    let t = choose|t: int| 0 <= t < old_out.len() && old_out[t] == x;
                    if dup || t < pos {
                        assert(out@[t] == x);
                    } else {
                        assert(out@[t + 1] == x);
                    }
                }
            }
        }
        k += 1;
    }
    assert(orig.subrange(0, k as int) =~= orig);
    *seeds = out;
}

/// A raw MEM: read interval `[qb, qe)` and suffix-array interval `[l, r)`.
pub type Mem = (usize, usize, usize, usize);

/// `a`'s read interval contains `b`'s.
pub open spec fn covers(a: Mem, b: Mem) -> bool {
    a.0 <= b.0 && a.1 >= b.1
}

pub open spec fn mem_len(a: Mem) -> int {
    a.1 - a.0
}

/// Longest first.
pub open spec fn mems_by_length(s: Seq<Mem>) -> bool {
    forall|i: int, j: int| 0 <= i < j < s.len() ==> mem_len(#[trigger] s[i]) >= mem_len(#[trigger] s[j])
}

/// Stable sort of MEMs by read length, longest first.
fn sort_mems_by_length(mems: Vec<Mem>) -> (out: Vec<Mem>)
    requires
        forall|k: int| 0 <= k < mems@.len() ==> (#[trigger] mems@[k]).0 <= mems@[k].1,
    ensures
        mems_by_length(out@),
        forall|x: Mem| out@.contains(x) <==> mems@.contains(x),
        forall|k: int| 0 <= k < out@.len() ==> (#[trigger] out@[k]).0 <= out@[k].1,
{
    let mut out: Vec<Mem> = Vec::new();
    let mut k: usize = 0;
    while k < mems.len()
        invariant
            k <= mems@.len(),
            forall|k: int| 0 <= k < mems@.len() ==> (#[trigger] mems@[k]).0 <= mems@[k].1,
            forall|k: int| 0 <= k < out@.len() ==> (#[trigger] out@[k]).0 <= out@[k].1,
            mems_by_length(out@),
            forall|x: Mem| out@.contains(x) <==> mems@.subrange(0, k as int).contains(x),
        decreases mems@.len() - k,
    {
        let m = mems[k];
        let len = m.1 - m.0;
        let mut pos: usize = out.len();
        while pos > 0 && out[pos - 1].1 - out[pos - 1].0 < len
            invariant
                pos <= out@.len(),
                forall|k: int| 0 <= k < out@.len() ==> (#[trigger] out@[k]).0 <= out@[k].1,
                forall|t: int| pos <= t < out@.len() ==> mem_len(#[trigger] out@[t]) < len,
            decreases pos,
        {
            pos -= 1;
        }
        let ghost old_out = out@;
        assert(forall|x: Mem| old_out.contains(x) <==> mems@.subrange(0, k as int).contains(x));
        out.insert(pos, m);
        proof {
            assert forall|i: int, j: int| 0 <= i < j < out@.len() implies mem_len(#[trigger] out@[i]) >= mem_len(
                #[trigger] out@[j],
            ) by {
                if j < pos {
                    assert(out@[i] == old_out[i] && out@[j] == old_out[j]);
                } else if j == pos {
                    assert(out@[i] == old_out[i]);
                    assert(mem_len(old_out[i]) >= mem_len(old_out[pos - 1]));
                } else if i < pos {
                    assert(out@[i] == old_out[i] && out@[j] == old_out[j - 1]);
                } else if i == pos {
                    assert(out@[j] == old_out[j - 1]);
                } else {
                    assert(out@[i] == old_out[i - 1] && out@[j] == old_out[j - 1]);
                }
            }
            assert forall|t: int| 0 <= t < out@.len() implies (#[trigger] out@[t]).0 <= out@[t].1 by {
                if t < pos {
                    assert(out@[t] == old_out[t]);
                } else if t > pos {
                    assert(out@[t] == old_out[t - 1]);
                }
            }
            let ghost pre = mems@.subrange(0, k as int);
            let ghost cur = mems@.subrange(0, k + 1);
            assert(cur[k as int] == m);
            assert forall|x: Mem| out@.contains(x) implies cur.contains(x) by {
                let t = choose|t: int| 0 <= t < out@.len() && out@[t] == x;
                if t == pos {
                    assert(cur[k as int] == x);
                } else {
                    let t2 = if t > pos {
                        t - 1
                    } else {
                        t
                    };
                    assert(old_out[t2] == x);
                    assert(old_out.contains(x));
                    assert(pre.contains(x));
                    let w = choose|w: int| 0 <= w < pre.len() && #[trigger] pre[w] == x;
                    assert(cur[w] == x);
                }
            }
            assert forall|x: Mem| cur.contains(x) implies out@.contains(x) by {
                let w = choose|w: int| 0 <= w < cur.len() && #[trigger] cur[w] == x;
                if w == k {
                    assert(out@[pos as int] == x);
                } else {
                    assert(pre[w] == x);
                    assert(pre.contains(x));
                    assert(old_out.contains(x));
                    let t = choose|t: int| 0 <= t < old_out.len() && old_out[t] == x;
                    if t < pos {
                        assert(out@[t] == x);
                    } else {
                        assert(out@[t + 1] == x);
                    }
                }
            }
        }
        k += 1;
    }
    assert(mems@.subrange(0, k as int) =~= mems@);
    out
}

/// Keeps the super-maximal MEMs: sorted longest first, a MEM is dropped when
/// the read interval of a MEM kept before it contains its own.
fn filter_contained(mems: &mut Vec<Mem>)
    requires
        forall|k: int| 0 <= k < old(mems)@.len() ==> (#[trigger] old(mems)@[k]).0 <= old(mems)@[k].1,
    ensures
        mems_by_length(final(mems)@),
        forall|x: Mem| #[trigger] final(mems)@.contains(x) ==> old(mems)@.contains(x),
        forall|i: int, j: int| 0 <= i < j < final(mems)@.len() ==> !covers(#[trigger] final(mems)@[i], #[trigger] final(mems)@[j]),
        forall|x: Mem|
            #[trigger] old(mems)@.contains(x) ==> final(mems)@.contains(x) || exists|t: int|
                0 <= t < final(mems)@.len() && covers(#[trigger] final(mems)@[t], x),
{
    let mut src: Vec<Mem> = Vec::new();
    std::mem::swap(mems, &mut src);
    let sorted = sort_mems_by_length(src);
    let mut out: Vec<Mem> = Vec::new();
    let mut k: usize = 0;
    while k < sorted.len()
        invariant
            k <= sorted@.len(),
            mems_by_length(sorted@),
            forall|i: int, j: int| 0 <= i < j < out@.len() ==> !covers(#[trigger] out@[i], #[trigger] out@[j]),
            forall|x: Mem| #[trigger] out@.contains(x) ==> sorted@.contains(x),
            forall|i: int, j: int|
                0 <= i < out@.len() && k <= j < sorted@.len() ==> mem_len(#[trigger] out@[i]) >= mem_len(
                    #[trigger] sorted@[j],
                ),
            forall|w: int|
                0 <= w < k ==> out@.contains(#[trigger] sorted@[w]) || exists|t: int|
                    0 <= t < out@.len() && covers(#[trigger] out@[t], sorted@[w]),
            mems_by_length(out@),
        decreases sorted@.len() - k,
    {
        let m = sorted[k];
        let mut keep = true;
        let mut t: usize = 0;
        while t < out.len()
            invariant
                t <= out@.len(),
                keep == forall|u: int| 0 <= u < t ==> !covers(#[trigger] out@[u], m),
            decreases out@.len() - t,
        {
            if out[t].0 <= m.0 && out[t].1 >= m.1 {
                keep = false;
            }
            t += 1;
        }
        let ghost old_out = out@;
        if keep {
            out.push(m);
            proof {
                assert forall|i: int, j: int| 0 <= i < j < out@.len() implies !covers(#[trigger] out@[i], #[trigger] out@[j]) by {
                    if j < old_out.len() {
                        assert(out@[i] == old_out[i] && out@[j] == old_out[j]);
                    } else {
                        assert(out@[i] == old_out[i]);
                    }
                }
                assert forall|x: Mem| #[trigger] out@.contains(x) implies sorted@.contains(x) by {
                    let t = choose|t: int| 0 <= t < out@.len() && out@[t] == x;
                    if t < old_out.len() {
                        assert(old_out[t] == x);
                        assert(old_out.contains(x));
                    } else {
                        assert(sorted@[k as int] == x);
                    }
                }
            }
        }
        proof {
            assert forall|w: int| 0 <= w < k + 1 implies out@.contains(#[trigger] sorted@[w]) || exists|t: int|
                0 <= t < out@.len() && covers(#[trigger] out@[t], sorted@[w]) by {
                if w < k {
                    if old_out.contains(sorted@[w]) {
                        let t = choose|t: int| 0 <= t < old_out.len() && old_out[t] == sorted@[w];
                        assert(out@[t] == sorted@[w]);
                    } else {
                        let t = choose|t: int| 0 <= t < old_out.len() && covers(#[trigger] old_out[t], sorted@[w]);
                        assert(out@[t] == old_out[t]);
                    }
                } else if keep {
                    assert(out@[old_out.len() as int] == m);
                } else {
                    let u = choose|u: int| 0 <= u < out@.len() && covers(#[trigger] out@[u], m);
                    assert(covers(out@[u], sorted@[w]));
                }
            }
            assert forall|i: int, j: int|
                0 <= i < out@.len() && k + 1 <= j < sorted@.len() implies mem_len(#[trigger] out@[i]) >= mem_len(
                #[trigger] sorted@[j],
            ) by {
                if i < old_out.len() {
                    assert(out@[i] == old_out[i]);
                } else {
                    assert(out@[i] == sorted@[k as int]);
                }
            }
            assert forall|i: int, j: int| 0 <= i < j < out@.len() implies mem_len(#[trigger] out@[i]) >= mem_len(
                #[trigger] out@[j],
            ) by {
                if j < old_out.len() {
                    assert(out@[i] == old_out[i] && out@[j] == old_out[j]);
                } else {
                    assert(out@[i] == old_out[i]);
                    assert(out@[j] == sorted@[k as int]);
                }
            }
        }
        k += 1;
    }
    proof {
        assert forall|x: Mem| #[trigger] sorted@.contains(x) implies out@.contains(x) || exists|t: int|
            0 <= t < out@.len() && covers(#[trigger] out@[t], x) by {
            let w = choose|w: int| 0 <= w < sorted@.len() && sorted@[w] == x;
            assert(out@.contains(sorted@[w]) || exists|t: int| 0 <= t < out@.len() && covers(#[trigger] out@[t], sorted@[w]));
        }
    }
    *mems = out;
}

/// The seed is an exact match: its reference interval lies inside its
/// contig, and the text there equals the read at its read interval.
pub open spec fn seed_matches(fm: &FMIndex, q: Seq<u8>, s: MemSeed) -> bool {
    &&& s.contig < fm.contigs@.len()
    &&& s.qb < s.qe <= q.len()
    &&& s.re - s.rb == s.qe - s.qb
    &&& s.re <= fm.contigs@[s.contig as int].len
    &&& forall|k: int|
        0 <= k < s.qe - s.qb ==> fm.text@[fm.contigs@[s.contig as int].offset + s.rb + k] == #[trigger] q[s.qb + k]
}

/// The read's codes are queryable: no sentinel, all below sigma.
pub open spec fn read_codes_ok(fm: &FMIndex, q: Seq<u8>) -> bool {
    forall|k: int| 0 <= k < q.len() ==> 0 < #[trigger] q[k] < fm.sigma
}

/// The read interval `[qb, qe)` cannot grow to the right: it ends the read,
/// or backward search finds no occurrence of `q[qb..qe+1]`.
pub open spec fn right_maximal(fm: &FMIndex, q: Seq<u8>, qb: int, qe: int) -> bool {
    qe == q.len() || fm.search_spec(q.subrange(qb, qe + 1), qe + 1 - qb, 0, fm.bwt@.len() as int) is None
}

/// Checks the text against the read at the seed's position.
fn text_matches(fm: &FMIndex, query: &[u8], contig: usize, qb: usize, off: u32, len: usize) -> (r: bool)
    requires
        fm.wf(),
        contig < fm.contigs@.len(),
        qb + len <= query@.len(),
        off + len <= fm.contigs@[contig as int].len,
    ensures
        r == forall|k: int|
            0 <= k < len ==> fm.text@[fm.contigs@[contig as int].offset + off + k] == #[trigger] query@[qb + k],
{
    let start = fm.contigs[contig].offset as usize + off as usize;
    let ql = query.len();
    let mut k: usize = 0;
    while k < len
        invariant
            fm.wf(),
            contig < fm.contigs@.len(),
            qb + len <= query@.len() == ql,
            off + len <= fm.contigs@[contig as int].len,
            start == fm.contigs@[contig as int].offset + off,
            k <= len,
            forall|t: int| 0 <= t < k ==> fm.text@[start + t] == #[trigger] query@[qb + t],
        decreases len - k,
    {
        assert(fm.contigs@[contig as int].offset + fm.contigs@[contig as int].len <= fm.bwt@.len());
        if fm.text[start + k] != query[qb + k] {
            return false;
        }
        k += 1;
    }
    true
}

/// Backward search finds the read window `q[a..b)`.
pub open spec fn found(fm: &FMIndex, q: Seq<u8>, a: int, b: int) -> bool {
    fm.search_spec(q.subrange(a, b), b - a, 0, fm.bwt@.len() as int) is Some
}

/// A MEM of the read: at least `min_len` long, right-maximal, with the
/// suffix-array interval that backward search gives for its read interval.
pub open spec fn mem_ok(fm: &FMIndex, q: Seq<u8>, min_len: int, m: Mem) -> bool {
    &&& m.0 < m.1 <= q.len()
    &&& m.1 - m.0 >= min_len
    &&& m.2 < m.3 <= fm.sa@.len()
    &&& fm.search_spec(q.subrange(m.0 as int, m.1 as int), m.1 - m.0, 0, fm.bwt@.len() as int) == Some(
        (m.2 as int, m.3 as int),
    )
    &&& right_maximal(fm, q, m.0 as int, m.1 as int)
}

/// Some MEM covers the read window of length `min_len` at `qb`.
pub open spec fn window_covered(mems: Seq<Mem>, qb: int, min_len: int) -> bool {
    exists|i: int| 0 <= i < mems.len() && (#[trigger] mems[i]).0 <= qb && qb + min_len <= mems[i].1
}

/// The super-maximal exact matches: valid MEMs; every window of length
/// `min_len` that backward search finds lies inside one of them; none lies
/// inside another.
pub open spec fn smems_ok(fm: &FMIndex, q: Seq<u8>, min_len: int, mems: Seq<Mem>) -> bool {
    &&& forall|i: int| 0 <= i < mems.len() ==> mem_ok(fm, q, min_len, #[trigger] mems[i])
    &&& forall|qb: int|
        0 <= qb && qb + min_len <= q.len() && #[trigger] found(fm, q, qb, qb + min_len) ==> window_covered(
            mems,
            qb,
            min_len,
        )
    &&& forall|i: int, j: int|
        0 <= i < mems.len() && 0 <= j < mems.len() && covers(#[trigger] mems[i], #[trigger] mems[j]) ==> mems[i].0
            == mems[j].0 && mems[i].1 == mems[j].1
}

/// The seed that MEM `m` gives at text position `pos`: the position lies in
/// a contig with room for the match, and the text there equals the read.
pub open spec fn seed_at(fm: &FMIndex, q: Seq<u8>, m: Mem, pos: int, s: MemSeed) -> bool {
    &&& s.contig < fm.contigs@.len()
    &&& contig_holds(fm.contigs@[s.contig as int], pos)
    &&& s.rb == pos - fm.contigs@[s.contig as int].offset
    &&& s.qb == m.0
    &&& s.qe == m.1
    &&& s.re == s.rb + (m.1 - m.0)
    &&& s.re <= fm.contigs@[s.contig as int].len
    &&& forall|t: int|
        0 <= t < m.1 - m.0 ==> fm.text@[fm.contigs@[s.contig as int].offset + s.rb + t] == #[trigger] q[m.0 + t]
}

/// `s` is the seed of some MEM at some position of its interval.
pub open spec fn mem_seed(fm: &FMIndex, q: Seq<u8>, mems: Seq<Mem>, s: MemSeed) -> bool {
    exists|i: int, k: int|
        0 <= i < mems.len() && mems[i].2 <= k < mems[i].3 && #[trigger] seed_at(fm, q, mems[i], fm.sa@[k] as int, s)
}

/// Every seed of position `k` of MEM `i` is in `seeds`.
pub open spec fn handled(fm: &FMIndex, q: Seq<u8>, mems: Seq<Mem>, seeds: Seq<MemSeed>, i: int, k: int) -> bool {
    forall|s: MemSeed| #[trigger] seed_at(fm, q, mems[i], fm.sa@[k] as int, s) ==> seeds.contains(s)
}

proof fn lemma_contig_unique(cs: Seq<Contig>, n: int, a: int, b: int, pos: int)
    requires
        contigs_wf(cs, n),
        0 <= a < cs.len(),
        0 <= b < cs.len(),
        contig_holds(cs[a], pos),
        contig_holds(cs[b], pos),
    ensures
        a == b,
{
    if a < b {
        assert(cs[a].offset + cs[a].len <= cs[b].offset);
    } else if b < a {
        assert(cs[b].offset + cs[b].len <= cs[a].offset);
    }
}

proof fn lemma_covers_same(x: Mem, y: Mem)
    requires
        covers(x, y),
        mem_len(x) <= mem_len(y),
    ensures
        x.0 == y.0 && x.1 == y.1,
{
}

/// The super-maximal exact matches of a coded read: for each start the
/// longest match of length at least `min_len` that backward search finds,
/// growing one symbol at a time; then those contained in another dropped.
pub fn find_smems(fm: &FMIndex, query_alpha: &[u8], min_len: usize) -> (mems: Vec<Mem>)
    requires
        fm.wf(),
        read_codes_ok(fm, query_alpha@),
    ensures
        min_len == 0 || query_alpha@.len() == 0 || min_len > query_alpha@.len() ==> mems@.len() == 0,
        min_len > 0 ==> smems_ok(fm, query_alpha@, min_len as int, mems@),
{
    let n = query_alpha.len();
    if min_len == 0 || n == 0 || min_len > n {
        return Vec::new();
    }
    let ghost q = query_alpha@;
    let ghost big_n = fm.bwt@.len() as int;
    let mut raw: Vec<Mem> = Vec::new();
    let mut qb: usize = 0;
    while qb <= n - min_len
        invariant
            fm.wf(),
            read_codes_ok(fm, query_alpha@),
            q == query_alpha@,
            big_n == fm.bwt@.len(),
            n == q.len(),
            0 < min_len <= n,
            qb <= n - min_len + 1,
            forall|k: int| 0 <= k < raw@.len() ==> mem_ok(fm, q, min_len as int, #[trigger] raw@[k]),
            forall|c: int|
                0 <= c < qb && c + min_len <= n && #[trigger] found(fm, q, c, c + min_len) ==> window_covered(
                    raw@,
                    c,
                    min_len as int,
                ),
        decreases n - qb,
    {
        let mut best_len: usize = 0;
        let mut best_l: usize = 0;
        let mut best_r: usize = 0;
        let mut len: usize = min_len;
        let mut going = true;
        while going && len <= n - qb
            invariant
                fm.wf(),
                read_codes_ok(fm, query_alpha@),
                q == query_alpha@,
                big_n == fm.bwt@.len(),
                n == q.len(),
                min_len <= len,
                qb + min_len <= n,
                !going ==> qb + best_len <= n,
                going ==> best_len < len,
                going ==> best_len == 0 || best_len + 1 == len,
                going && best_len == 0 ==> len == min_len,
                !going && best_len == 0 ==> !found(fm, q, qb as int, qb + min_len),
                !going && best_len > 0 ==> right_maximal(fm, q, qb as int, qb + best_len),
                best_len == 0 || (min_len <= best_len <= len && qb + best_len <= n && best_l < best_r
                    <= fm.sa@.len() && fm.search_spec(q.subrange(qb as int, qb + best_len), best_len as int, 0, big_n)
                    == Some((best_l as int, best_r as int))),
            decreases n + 1 - len - (if going {
                0int
            } else {
                1int
            }),
        {
            let pat = &query_alpha[qb..qb + len];
            proof {
                assert forall|k: int| 0 <= k < pat@.len() implies 0 < #[trigger] pat@[k] < fm.sigma by {
                    assert(pat@[k] == query_alpha@[qb + k]);
                }
            }
            match fm.backward_search(pat) {
                Some((sl, sr)) => {
                    best_len = len;
                    best_l = sl;
                    best_r = sr;
                    if len == n - qb {
                        going = false;
                    } else {
                        len += 1;
                    }
                },
                None => {
                    going = false;
                    proof {
                        if big_n == 0 {
                            assert(pat@.len() > 0);
                            let a = pat@[pat@.len() - 1];
                            assert(fm.search_spec(pat@, pat@.len() as int, 0, 0) is None);
                        }
                        if best_len > 0 {
                            assert(pat@ == query_alpha@.subrange(qb as int, qb + best_len + 1));
                        }
                    }
                },
            }
        }
        let ghost old_raw = raw@;
        if best_len >= min_len {
            raw.push((qb, qb + best_len, best_l, best_r));
        }
        proof {
            assert forall|k: int| 0 <= k < raw@.len() implies mem_ok(fm, q, min_len as int, #[trigger] raw@[k]) by {
                if k < old_raw.len() {
                    assert(raw@[k] == old_raw[k]);
                }
            }
            assert forall|c: int|
                0 <= c < qb + 1 && c + min_len <= n && #[trigger] found(fm, q, c, c + min_len) implies window_covered(
                raw@,
                c,
                min_len as int,
            ) by {
                if c < qb {
                    let i = choose|i: int|
                        0 <= i < old_raw.len() && (#[trigger] old_raw[i]).0 <= c && c + min_len <= old_raw[i].1;
                    assert(raw@[i] == old_raw[i]);
                } else {
                    assert(raw@[old_raw.len() as int].0 == qb);
                }
            }
        }
        qb += 1;
    }
    let ghost all = raw@;
    filter_contained(&mut raw);
    proof {
        assert forall|k: int| 0 <= k < raw@.len() implies mem_ok(fm, q, min_len as int, #[trigger] raw@[k]) by {
            assert(raw@.contains(raw@[k]));
            assert(all.contains(raw@[k]));
            let w = choose|w: int| 0 <= w < all.len() && all[w] == raw@[k];
            assert(mem_ok(fm, q, min_len as int, all[w]));
        }
        assert forall|c: int|
            0 <= c && c + min_len <= n && #[trigger] found(fm, q, c, c + min_len) implies window_covered(
            raw@,
            c,
            min_len as int,
        ) by {
            let i = choose|i: int| 0 <= i < all.len() && (#[trigger] all[i]).0 <= c && c + min_len <= all[i].1;
            assert(all.contains(all[i]));
            if raw@.contains(all[i]) {
                let t = choose|t: int| 0 <= t < raw@.len() && raw@[t] == all[i];
                assert(raw@[t].0 <= c);
            } else {
                let t = choose|t: int| 0 <= t < raw@.len() && covers(#[trigger] raw@[t], all[i]);
                assert(raw@[t].0 <= c);
            }
        }
        assert forall|i: int, j: int|
            0 <= i < raw@.len() && 0 <= j < raw@.len() && covers(#[trigger] raw@[i], #[trigger] raw@[j]) implies raw@[i].0
            == raw@[j].0 && raw@[i].1 == raw@[j].1 by {
            if i < j {
                assert(!covers(raw@[i], raw@[j]));
            } else if j < i {
                assert(mem_len(raw@[j]) >= mem_len(raw@[i]));
                lemma_covers_same(raw@[i], raw@[j]);
            }
        }
    }
    raw
}

/// The seeds of MEMs: for each MEM and each text position of its
/// suffix-array interval, the seed there when the position lies in a contig
/// with room for the match and the text equals the read.
fn expand_mems(fm: &FMIndex, query_alpha: &[u8], mems: &Vec<Mem>, min_len: Ghost<int>) -> (seeds: Vec<MemSeed>)
    requires
        fm.wf(),
        query_alpha@.len() <= u32::MAX,
        forall|i: int| 0 <= i < mems@.len() ==> mem_ok(fm, query_alpha@, min_len@, #[trigger] mems@[i]),
    ensures
        forall|s: MemSeed| #[trigger] seeds@.contains(s) <==> mem_seed(fm, query_alpha@, mems@, s),
        forall|k: int| 0 <= k < seeds@.len() ==> mem_seed(fm, query_alpha@, mems@, #[trigger] seeds@[k]),
{
    let ghost q = query_alpha@;
    let n = query_alpha.len();
    let mut seeds: Vec<MemSeed> = Vec::new();
    let mut mi: usize = 0;
    while mi < mems.len()
        invariant
            fm.wf(),
            q == query_alpha@,
            n == q.len(),
            n <= u32::MAX,
            mi <= mems@.len(),
            forall|i: int| 0 <= i < mems@.len() ==> mem_ok(fm, q, min_len@, #[trigger] mems@[i]),
            forall|t: int| 0 <= t < seeds@.len() ==> mem_seed(fm, q, mems@, #[trigger] seeds@[t]),
            forall|i: int, k: int|
                0 <= i < mi && mems@[i].2 <= k < mems@[i].3 ==> #[trigger] handled(fm, q, mems@, seeds@, i, k),
        decreases mems@.len() - mi,
    {
        let (mqb, mqe, l, r) = mems[mi];
        assert(mem_ok(fm, q, min_len@, mems@[mi as int]));
        let positions = fm.sa_interval_positions(l, r);
        let mut pi: usize = 0;
        while pi < positions.len()
            invariant
                fm.wf(),
                q == query_alpha@,
                n == q.len(),
                n <= u32::MAX,
                mi < mems@.len(),
                mems@[mi as int] == (mqb, mqe, l, r),
                mqb < mqe <= n,
                l < r <= fm.sa@.len(),
                positions@ == fm.sa@.subrange(l as int, r as int),
                forall|i: int| 0 <= i < mems@.len() ==> mem_ok(fm, q, min_len@, #[trigger] mems@[i]),
                forall|t: int| 0 <= t < seeds@.len() ==> mem_seed(fm, q, mems@, #[trigger] seeds@[t]),
                forall|i: int, k: int|
                    0 <= i < mi && mems@[i].2 <= k < mems@[i].3 ==> #[trigger] handled(fm, q, mems@, seeds@, i, k),
                forall|k: int| l <= k < l + pi ==> #[trigger] handled(fm, q, mems@, seeds@, mi as int, k),
            decreases positions@.len() - pi,
        {
            let sa_pos = positions[pi];
            let ghost k = l + pi;
            assert(sa_pos == fm.sa@[k]);
            let ghost old_seeds = seeds@;
            match fm.map_text_pos(sa_pos) {
                Some((ci, off)) => {
                    let seed_len = mqe - mqb;
                    let contig_len = fm.contigs[ci].len;
                    let fits = seed_len as u64 <= (contig_len - off) as u64;
                    let matches = fits && text_matches(fm, query_alpha, ci, mqb, off, seed_len);
                    let ghost cand = MemSeed { contig: ci, qb: mqb, qe: mqe, rb: off, re: (off + seed_len) as u32 };
                    proof {
                        assert forall|s: MemSeed| #[trigger] seed_at(fm, q, mems@[mi as int], sa_pos as int, s) implies s
                            == cand && matches by {
                            lemma_contig_unique(fm.contigs@, fm.bwt@.len() as int, s.contig as int, ci as int, sa_pos as int);
                            if fits {
                                assert forall|t: int| 0 <= t < seed_len implies fm.text@[fm.contigs@[ci as int].offset + off + t]
                                    == #[trigger] query_alpha@[mqb + t] by {
                                    assert(fm.text@[fm.contigs@[s.contig as int].offset + s.rb + t] == q[mqb + t]);
                                }
                            }
                        }
                    }
                    if matches {
                        let sl = seed_len as u32;
                        let s = MemSeed { contig: ci, qb: mqb, qe: mqe, rb: off, re: off + sl };
                        seeds.push(s);
                        proof {
                            assert(seed_at(fm, q, mems@[mi as int], fm.sa@[k] as int, s));
                            assert(mem_seed(fm, q, mems@, s));
                            assert forall|t: int| 0 <= t < seeds@.len() implies mem_seed(fm, q, mems@, #[trigger] seeds@[t]) by {
                                if t < old_seeds.len() {
                                    assert(seeds@[t] == old_seeds[t]);
                                }
                            }
                            assert(seeds@[old_seeds.len() as int] == s);
                        }
                    }
                },
                None => {
                    proof {
                        assert forall|s: MemSeed| #[trigger] seed_at(fm, q, mems@[mi as int], sa_pos as int, s) implies false by {
                            assert(!contig_holds(fm.contigs@[s.contig as int], sa_pos as int));
                        }
                    }
                },
            }
            proof {
                assert forall|i: int, kk: int|
                    (0 <= i < mi && mems@[i].2 <= kk < mems@[i].3) || (i == mi && l <= kk < l + pi + 1) implies #[trigger] handled(
                    fm,
                    q,
                    mems@,
                    seeds@,
                    i,
                    kk,
                ) by {
                    if i < mi || kk < k {
                        assert(handled(fm, q, mems@, old_seeds, i, kk));
                        assert forall|s: MemSeed| #[trigger] seed_at(fm, q, mems@[i], fm.sa@[kk] as int, s) implies seeds@.contains(s) by {
                            assert(old_seeds.contains(s));
                            let w = choose|w: int| 0 <= w < old_seeds.len() && old_seeds[w] == s;
                            assert(seeds@[w] == s);
                        }
                    } else {
                        assert forall|s: MemSeed| #[trigger] seed_at(fm, q, mems@[i], fm.sa@[kk] as int, s) implies seeds@.contains(s) by {
                            assert(seeds@[old_seeds.len() as int] == s);
                        }
                    }
                }
            }
            pi += 1;
        }
        mi += 1;
    }
    proof {
        assert forall|s: MemSeed| #[trigger] seeds@.contains(s) <==> mem_seed(fm, q, mems@, s) by {
            if mem_seed(fm, q, mems@, s) {
                let (i, k) = choose|i: int, k: int|
                    0 <= i < mems@.len() && mems@[i].2 <= k < mems@[i].3 && #[trigger] seed_at(fm, q, mems@[i], fm.sa@[k] as int, s);
                assert(handled(fm, q, mems@, seeds@, i, k));
            }
            if seeds@.contains(s) {
                let t = choose|t: int| 0 <= t < seeds@.len() && seeds@[t] == s;
                assert(mem_seed(fm, q, mems@, seeds@[t]));
            }
        }
    }
    seeds
}

/// SMEM seeding: the super-maximal exact matches of `find_smems`, each laid
/// on every text position of its suffix-array interval that falls inside a
/// contig with room for it and matches the read there; duplicates removed,
/// sorted by `(contig, qb, qe, rb, re)`.
pub fn find_smem_seeds(fm: &FMIndex, query_alpha: &[u8], min_len: usize) -> (seeds: Vec<MemSeed>)
    requires
        fm.wf(),
        read_codes_ok(fm, query_alpha@),
        query_alpha@.len() <= u32::MAX,
    ensures
        min_len == 0 || query_alpha@.len() == 0 || min_len > query_alpha@.len() ==> seeds@.len() == 0,
        min_len > 0 ==> exists|mems: Seq<Mem>|
            smems_ok(fm, query_alpha@, min_len as int, mems) && forall|s: MemSeed|
                #[trigger] seeds@.contains(s) <==> mem_seed(fm, query_alpha@, mems, s),
        forall|k: int| 0 <= k < seeds@.len() ==> seed_matches(fm, query_alpha@, #[trigger] seeds@[k]),
        forall|k: int| 0 <= k < seeds@.len() ==> (#[trigger] seeds@[k]).qe - seeds@[k].qb >= min_len,
        forall|k: int| 0 <= k < seeds@.len() ==> seed_ok(#[trigger] seeds@[k]),
        forall|k: int|
            0 <= k < seeds@.len() ==> right_maximal(fm, query_alpha@, (#[trigger] seeds@[k]).qb as int, seeds@[k].qe as int),
        forall|a: int, b: int|
            0 <= a < seeds@.len() && 0 <= b < seeds@.len() && (#[trigger] seeds@[b]).qb <= (#[trigger] seeds@[a]).qb
                && seeds@[a].qe <= seeds@[b].qe ==> seeds@[a].qb == seeds@[b].qb && seeds@[a].qe == seeds@[b].qe,
        seeds_sorted(seeds@),
{
    let n = query_alpha.len();
    if min_len == 0 || n == 0 || min_len > n {
        let seeds: Vec<MemSeed> = Vec::new();
        proof {
            let none = Seq::<Mem>::empty();
            if min_len > 0 {
                assert forall|c: int|
                    0 <= c && c + min_len <= query_alpha@.len() && #[trigger] found(fm, query_alpha@, c, c + min_len)
                        implies window_covered(none, c, min_len as int) by {}
                assert(smems_ok(fm, query_alpha@, min_len as int, none));
            }
            assert forall|s: MemSeed| #[trigger] seeds@.contains(s) <==> mem_seed(fm, query_alpha@, none, s) by {}
        }
        return seeds;
    }
    let ghost q = query_alpha@;
    let mems = find_smems(fm, query_alpha, min_len);
    let mut seeds = expand_mems(fm, query_alpha, &mems, Ghost(min_len as int));
    let ghost before = seeds@;
    dedup_seeds(&mut seeds);
    proof {
        assert forall|k: int| 0 <= k < seeds@.len() implies mem_seed(fm, q, mems@, #[trigger] seeds@[k]) by {
            assert(seeds@.contains(seeds@[k]));
            assert(before.contains(seeds@[k]));
        }
        assert forall|k: int| 0 <= k < seeds@.len() implies seed_matches(fm, q, #[trigger] seeds@[k])
            && seeds@[k].qe - seeds@[k].qb >= min_len && seed_ok(seeds@[k]) && right_maximal(
            fm,
            q,
            seeds@[k].qb as int,
            seeds@[k].qe as int,
        ) by {
            let s = seeds@[k];
            let (i, kk) = choose|i: int, kk: int|
                0 <= i < mems@.len() && mems@[i].2 <= kk < mems@[i].3 && #[trigger] seed_at(fm, q, mems@[i], fm.sa@[kk] as int, s);
            assert(mem_ok(fm, q, min_len as int, mems@[i]));
        }
        assert forall|a: int, b: int|
            0 <= a < seeds@.len() && 0 <= b < seeds@.len() && (#[trigger] seeds@[b]).qb <= (#[trigger] seeds@[a]).qb
                && seeds@[a].qe <= seeds@[b].qe implies seeds@[a].qb == seeds@[b].qb && seeds@[a].qe == seeds@[b].qe by {
            let sa_ = seeds@[a];
            let sb = seeds@[b];
            let (i, ki) = choose|i: int, ki: int|
                0 <= i < mems@.len() && mems@[i].2 <= ki < mems@[i].3 && #[trigger] seed_at(fm, q, mems@[i], fm.sa@[ki] as int, sa_);
            let (j, kj) = choose|j: int, kj: int|
                0 <= j < mems@.len() && mems@[j].2 <= kj < mems@[j].3 && #[trigger] seed_at(fm, q, mems@[j], fm.sa@[kj] as int, sb);
            assert(covers(mems@[j], mems@[i]));
        }
        assert forall|s: MemSeed| #[trigger] seeds@.contains(s) <==> mem_seed(fm, q, mems@, s) by {
            assert(seeds@.contains(s) <==> before.contains(s));
        }
    }
    seeds
}

/// MEM seeding; the same as `find_smem_seeds`.
pub fn find_mem_seeds(fm: &FMIndex, query_alpha: &[u8], min_len: usize) -> (seeds: Vec<MemSeed>)
    requires
        fm.wf(),
        read_codes_ok(fm, query_alpha@),
        query_alpha@.len() <= u32::MAX,
    ensures
        min_len == 0 || query_alpha@.len() == 0 || min_len > query_alpha@.len() ==> seeds@.len() == 0,
        forall|k: int| 0 <= k < seeds@.len() ==> seed_matches(fm, query_alpha@, #[trigger] seeds@[k]),
        forall|k: int| 0 <= k < seeds@.len() ==> (#[trigger] seeds@[k]).qe - seeds@[k].qb >= min_len,
        forall|k: int| 0 <= k < seeds@.len() ==> seed_ok(#[trigger] seeds@[k]),
        forall|k: int|
            0 <= k < seeds@.len() ==> right_maximal(fm, query_alpha@, (#[trigger] seeds@[k]).qb as int, seeds@[k].qe as int),
        min_len > 0 ==> exists|mems: Seq<Mem>|
            smems_ok(fm, query_alpha@, min_len as int, mems) && forall|s: MemSeed|
                #[trigger] seeds@.contains(s) <==> mem_seed(fm, query_alpha@, mems, s),
        seeds_sorted(seeds@),
{
    find_smem_seeds(fm, query_alpha, min_len)
}

} // verus!
