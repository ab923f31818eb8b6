//! Read alignment: SMEM seeding, chaining, banded Smith-Waterman, and the
//! per-read orchestration.
use vstd::prelude::*;
use crate::align::chain::{
    Chain, build_chains, chain_from, chain_ok, chains_from, filter_chains, filtered, lemma_filtered_from, links,
    seeds_score, valid_chain, weak_threshold,
};
use crate::align::seed::{Mem, MemSeed, find_smem_seeds, mem_seed, read_codes_ok, seed_matches, seed_ok, smems_ok};
use crate::align::sw::{
    SwBuffer, cigar_text, decimal, is_op, lemma_cigar_text_nonempty, lemma_len_concat, nm_spec, ops_to_cigar,
    params_ok, push_char, push_decimal, query_len, ref_len, sw_align, sw_best, traceback,
};
use vstd::string::StringExecFns;
use crate::index::fm::FMIndex;
use crate::io::bytes_chars;
use crate::util::dna::{
    SIGMA, base_of, code_of, comp_base, from_alphabet, is_norm_base, lemma_normalize_bases, normalize_seq,
    normalize_spec, revcomp, revcomp_spec, to_alphabet,
};

pub mod chain;
pub mod seed;
pub mod sw;

pub use sw::{banded_sw, SwParams, SwResult};

verus! {

/// Alignment options: scoring, band, the score a read needs to be reported
/// as mapped, and the number of worker threads.
#[derive(Clone, Copy, Debug)]
pub struct AlignOpt {
    pub match_score: i32,
    pub mismatch_penalty: i32,
    pub gap_open: i32,
    pub gap_extend: i32,
    pub band_width: usize,
    pub score_threshold: i32,
    pub threads: usize,
}

impl Default for AlignOpt {
    fn default() -> (r: Self)
        ensures
            r.match_score == 2,
            r.mismatch_penalty == 1,
            r.gap_open == 2,
            r.gap_extend == 1,
            r.band_width == 16,
            r.score_threshold == 20,
            r.threads == 1,
    {
        AlignOpt {
            match_score: 2,
            mismatch_penalty: 1,
            gap_open: 2,
            gap_extend: 1,
            band_width: 16,
            score_threshold: 20,
            threads: 1,
        }
    }
}

/// The Smith-Waterman parameters of the options.
pub open spec fn params_of(opt: AlignOpt) -> SwParams {
    SwParams {
        match_score: opt.match_score,
        mismatch_penalty: opt.mismatch_penalty,
        gap_open: opt.gap_open,
        gap_extend: opt.gap_extend,
        band_width: opt.band_width,
    }
}

impl AlignOpt {
    /// The Smith-Waterman parameters of these options.
    pub fn sw_params(&self) -> (p: SwParams)
        ensures
            p == params_of(*self),
    {
        SwParams {
            match_score: self.match_score,
            mismatch_penalty: self.mismatch_penalty,
            gap_open: self.gap_open,
            gap_extend: self.gap_extend,
            band_width: self.band_width,
        }
    }
}

/// Mapping quality of the primary record from the best and second-best
/// scores: `floor(60 * max(0, best - second) / best)`, raised to 50 for a
/// unique hit scoring above 20, capped at 3 when the two are within 5,
/// clamped to `[0, 60]`; 0 when `best <= 0`.
pub open spec fn mapq_spec(best: int, second: int) -> int {
    if best <= 0 {
        0
    } else {
        let delta = if best - second > 0 {
            best - second
        } else {
            0
        };
        let q0 = delta * 60 / best;
        let q1 = if second <= 0 && best > 20 && q0 < 50 {
            50
        } else {
            q0
        };
        let q2 = if delta < 5 && second > 0 && q1 > 3 {
            3
        } else {
            q1
        };
        if q2 > 60 {
            60
        } else if q2 < 0 {
            0
        } else {
            q2
        }
    }
}

/// Mapping quality from the best and second-best alignment scores.
pub fn compute_mapq(best_score: i32, second_best_score: i32) -> (q: u8)
    ensures
        q == mapq_spec(best_score as int, second_best_score as int),
{
    if best_score <= 0 {
        return 0;
    }
    let best = best_score as i64;
    let second = second_best_score as i64;
    let delta: i64 = if best - second > 0 {
        best - second
    } else {
        0
    };
    assert(0 <= delta * 60 <= 0x1_0000_0000 * 60) by (nonlinear_arith)
        requires
            0 <= delta <= 0x1_0000_0000,
    ;
    let q0 = delta * 60 / best;
    assert(0 <= q0 <= delta * 60) by (nonlinear_arith)
        requires
            q0 == (delta * 60) as int / best as int,
            best > 0,
            delta >= 0,
    ;
    let q1 = if second <= 0 && best > 20 && q0 < 50 {
        50
    } else {
        q0
    };
    let q2 = if delta < 5 && second > 0 && q1 > 3 {
        3
    } else {
        q1
    };
    if q2 > 60 {
        60
    } else {
        q2 as u8
    }
}

/// The mapping quality lies in `[0, 60]`, and is 0 when the best score is not
/// positive or when the best and second-best scores are equal and positive.
pub proof fn lemma_mapq_bounds(best: int, second: int)
    ensures
        0 <= mapq_spec(best, second) <= 60,
        best <= 0 ==> mapq_spec(best, second) == 0,
        best == second && second > 0 ==> mapq_spec(best, second) == 0,
{
    if best > 0 && best == second {
        assert(0int * 60 / best == 0) by (nonlinear_arith)
            requires
                best > 0,
        ;
    }
}

/// Longest read the aligner takes: scores of up to `2^28` bases stay far
/// inside `i32`.
pub const READ_LEN_MAX: usize = 0x1000_0000;

/// Seeds of a chain on one contig, each a valid interval pair of equal
/// lengths inside the read and the contig.
pub open spec fn chain_fits(fm: &FMIndex, c: &Chain, read_len: int, max_gap: int) -> bool {
    &&& c.contig < fm.contigs@.len()
    &&& chain_ok(c.seeds@, max_gap)
    &&& forall|k: int|
        0 <= k < c.seeds@.len() ==> {
            let s = #[trigger] c.seeds@[k];
            &&& seed_ok(s)
            &&& s.contig == c.contig
            &&& s.qe <= read_len
            &&& s.re - s.rb == s.qe - s.qb
            &&& s.re <= fm.contigs@[c.contig as int].len
        }
}

/// Decoded bases of contig `ci` over `[r0, r1)`.
fn decode_window(fm: &FMIndex, ci: usize, r0: u32, r1: u32) -> (w: Vec<u8>)
    requires
        fm.wf(),
        ci < fm.contigs@.len(),
        r0 <= r1 <= fm.contigs@[ci as int].len,
    ensures
        w@.len() == r1 - r0,
        forall|k: int|
            0 <= k < w@.len() ==> w@[k] == base_of(#[trigger] fm.text@[fm.contigs@[ci as int].offset + r0 + k]),
{
    let start = fm.contigs[ci].offset as usize + r0 as usize;
    let len = (r1 - r0) as usize;
    let mut w: Vec<u8> = Vec::new();
    let mut k: usize = 0;
    while k < len
        invariant
            fm.wf(),
            ci < fm.contigs@.len(),
            r0 <= r1 <= fm.contigs@[ci as int].len,
            start == fm.contigs@[ci as int].offset + r0,
            len == r1 - r0,
            k <= len,
            w@.len() == k,
            forall|t: int| 0 <= t < k ==> w@[t] == base_of(#[trigger] fm.text@[start + t]),
        decreases len - k,
    {
        assert(fm.contigs@[ci as int].offset + fm.contigs@[ci as int].len <= fm.bwt@.len());
        w.push(from_alphabet(fm.text[start + k]));
        k += 1;
    }
    w
}

proof fn lemma_push_op(ops: Seq<char>, c: char)
    ensures
        query_len(ops.push(c)) == query_len(ops) + (if c == 'M' || c == 'I' {
            1int
        } else {
            0int
        }),
        ref_len(ops.push(c)) == ref_len(ops) + (if c == 'M' || c == 'D' {
            1int
        } else {
            0int
        }),
{
    lemma_len_concat(ops, seq![c]);
    assert(ops + seq![c] =~= ops.push(c));
    assert(seq![c].drop_first() =~= Seq::<char>::empty());
    reveal_with_fuel(query_len, 2);
    reveal_with_fuel(ref_len, 2);
}

/// Decoded bases of contig `ci` over `[r0, r1)`.
pub open spec fn window_spec(fm: &FMIndex, ci: int, r0: int, r1: int) -> Seq<u8> {
    Seq::new((r1 - r0) as nat, |t: int| base_of(fm.text@[fm.contigs@[ci].offset + r0 + t]))
}

/// The gap between seeds `a` and `b` is aligned: non-empty on both axes,
/// and small enough for the matrices.
pub open spec fn gap_aligned(a: MemSeed, b: MemSeed) -> bool {
    &&& b.qb > a.qe
    &&& b.rb > a.re
    &&& (b.qb - a.qe + 1) * (b.rb - a.re + 1) <= usize::MAX
    &&& b.qb - a.qe <= 0xffff_ffff - (b.rb - a.re)
}

/// What the gap alignment between seeds `a` and `b` contributes: its score,
/// ops and edit distance when its score is positive, nothing otherwise.
pub open spec fn gap_part(fm: &FMIndex, contig: int, read: Seq<u8>, p: SwParams, a: MemSeed, b: MemSeed) -> (
    int,
    Seq<char>,
    nat,
) {
    let qs = read.subrange(a.qe as int, b.qb as int);
    let rs = window_spec(fm, contig, a.re as int, b.rb as int);
    let best = sw_best(qs, rs, p);
    let t = traceback(qs, rs, p, best.1, best.2);
    if gap_aligned(a, b) && best.0 > 0 {
        (best.0, t.0, nm_spec(qs, rs, t.0, t.1 as int, t.2 as int))
    } else {
        (0, Seq::empty(), 0)
    }
}

/// Score, ops and edit distance (saturating at `u32::MAX`) of a chain
/// alignment after its first `k` seeds: for each seed, the gap alignment
/// from the previous seed, then an M run over the seed.
pub open spec fn chain_state(fm: &FMIndex, contig: int, c: Seq<MemSeed>, read: Seq<u8>, p: SwParams, k: int) -> (
    int,
    Seq<char>,
    nat,
)
    decreases k,
{
    if k <= 0 {
        (0, Seq::empty(), 0)
    } else {
        let pr = chain_state(fm, contig, c, read, p, k - 1);
        let s = c[k - 1];
        let g = if k >= 2 {
            gap_part(fm, contig, read, p, c[k - 2], s)
        } else {
            (0int, Seq::<char>::empty(), 0nat)
        };
        let len = s.qe - s.qb;
        let nm = if pr.2 + g.2 > 0xffff_ffff {
            0xffff_ffffnat
        } else {
            (pr.2 + g.2) as nat
        };
        (pr.0 + g.0 + len * p.match_score, pr.1 + g.1 + Seq::new(len as nat, |t: int| 'M'), nm)
    }
}

/// One alignment of a read along a chain: the seeds in order, each an exact
/// run of M, with banded Smith-Waterman on each gap between consecutive
/// seeds that is non-empty on both axes and small enough for the matrices;
/// a gap alignment with a positive score contributes its ops, score and edit
/// distance. Returns `(score, cigar, nm)`; an empty chain gives zeros.
pub fn chain_to_alignment(
    fm: &FMIndex,
    chain: &Chain,
    read: &[u8],
    p: SwParams,
    buf: &mut SwBuffer,
) -> (res: (i32, String, u32))
    requires
        fm.wf(),
        chain_fits(fm, chain, read@.len() as int, read@.len() as int),
        params_ok(p, read@.len() as int),
        read@.len() <= READ_LEN_MAX,
    ensures
        chain.seeds@.len() == 0 ==> res.0 == 0 && res.1@.len() == 0 && res.2 == 0,
        res.0 == chain_state(fm, chain.contig as int, chain.seeds@, read@, p, chain.seeds@.len() as int).0,
        res.1@ == cigar_text(chain_state(fm, chain.contig as int, chain.seeds@, read@, p, chain.seeds@.len() as int).1),
        res.2 == chain_state(fm, chain.contig as int, chain.seeds@, read@, p, chain.seeds@.len() as int).2,
        chain.seeds@.len() > 0 ==> res.1@.len() > 0,
        chain.seeds@.len() > 0 ==> {
            let first = chain.seeds@[0];
            let last = chain.seeds@.last();
            &&& res.0 >= seeds_score(chain.seeds@) * p.match_score
            &&& res.0 <= (last.qe - first.qb) * p.match_score
            &&& exists|ops: Seq<char>|
                (forall|k: int| 0 <= k < ops.len() ==> is_op(#[trigger] ops[k])) && res.1@ == cigar_text(ops)
                    && query_len(ops) <= last.qe - first.qb && ref_len(ops) <= last.re - first.rb
        },
{
    let n = chain.seeds.len();
    if n == 0 {
        return (0, String::new(), 0);
    }
    let ghost sd = chain.seeds@;
    let ghost m = p.match_score as int;
    let first = chain.seeds[0];
    let mut ops: Vec<char> = Vec::new();
    let mut score: i32 = 0;
    let mut nm: u32 = 0;
    let mut k: usize = 0;
    while k < n
        invariant
            fm.wf(),
            chain_fits(fm, chain, read@.len() as int, read@.len() as int),
            params_ok(p, read@.len() as int),
            read@.len() <= READ_LEN_MAX,
            sd == chain.seeds@,
            n == sd.len(),
            n > 0,
            m == p.match_score,
            first == sd[0],
            k <= n,
            forall|t: int| 0 <= t < ops@.len() ==> is_op(#[trigger] ops@[t]),
            k == 0 ==> score == 0 && ops@.len() == 0,
            k > 0 ==> score >= seeds_score(sd) * m - seeds_score(sd.subrange(k as int, n as int)) * m,
            k > 0 ==> score <= (sd[k - 1].qe - first.qb) * m,
            k > 0 ==> query_len(ops@) <= sd[k - 1].qe - first.qb,
            k > 0 ==> ref_len(ops@) <= sd[k - 1].re - first.rb,
            score >= 0,
            score == chain_state(fm, chain.contig as int, sd, read@, p, k as int).0,
            ops@ == chain_state(fm, chain.contig as int, sd, read@, p, k as int).1,
            nm == chain_state(fm, chain.contig as int, sd, read@, p, k as int).2,
            k > 0 ==> ops@.len() > 0,
        decreases n - k,
    {
        let s = chain.seeds[k];
        assert(sd[k as int] == s);
        let ghost st0 = chain_state(fm, chain.contig as int, sd, read@, p, k as int);
        let ghost g = if k >= 1 {
            gap_part(fm, chain.contig as int, read@, p, sd[k - 1], s)
        } else {
            (0int, Seq::<char>::empty(), 0nat)
        };
        let ghost ops0 = ops@;
        let ghost nm0 = nm;
        if k > 0 {
            let prev = chain.seeds[k - 1];
            assert(links(sd[k - 1], sd[k as int], read@.len() as int));
            let q0 = prev.qe;
            let q1 = s.qb;
            let r0 = prev.re;
            let r1 = s.rb;
            if q1 > q0 && r1 > r0 {
                let gq = q1 - q0;
                let gr = (r1 - r0) as usize;
                let fits = match (gq + 1).checked_mul(gr + 1) {
                    Some(_) => gq <= 0xffff_ffff - gr,
                    None => false,
                };
                if fits {
                    let window = decode_window(fm, chain.contig, r0, r1);
                    let gap = &read[q0..q1];
                    proof {
                        assert(gq * p.match_score <= read@.len() * p.match_score) by (nonlinear_arith)
                            requires
                                gq <= read@.len(),
                                p.match_score >= 0,
                        ;
                    }
                    proof {
                        assert(window@ =~= window_spec(fm, chain.contig as int, r0 as int, r1 as int));
                        assert(gap_aligned(sd[k - 1], s));
                    }
                    let (sw_res, mut sw_ops) = sw_align(gap, window.as_slice(), p, buf);
                    if sw_res.score > 0 {
                        let ghost old_ops = ops@;
                        let ghost add = sw_ops@;
                        ops.append(&mut sw_ops);
                        proof {
                            lemma_len_concat(old_ops, add);
                            assert forall|t: int| 0 <= t < ops@.len() implies is_op(#[trigger] ops@[t]) by {
                                if t >= old_ops.len() {
                                    assert(ops@[t] == add[t - old_ops.len()]);
                                } else {
                                    assert(ops@[t] == old_ops[t]);
                                }
                            }
                            assert((sd[k - 1].qe - first.qb) * m + gq * m == (s.qb - first.qb) * m)
                                by (nonlinear_arith)
                                requires
                                    gq == s.qb - sd[k - 1].qe,
                            ;
                            assert((s.qb - first.qb) * m <= read@.len() * m) by (nonlinear_arith)
                                requires
                                    s.qb - first.qb <= read@.len(),
                                    m >= 0,
                            ;
                        }
                        score = score + sw_res.score;
                        nm = nm.saturating_add(sw_res.nm);
                    }
                }
            }
        }
        proof {
            if k == 0 || !(g.0 > 0) {
                assert(ops@ =~= ops0 + g.1);
            } else {
                assert(ops@ =~= ops0 + g.1);
            }
        }
        let ghost ops1 = ops@;
        let len = s.qe - s.qb;
        let ghost pre_score = score as int;
        let ghost pre_q = query_len(ops@);
        let ghost pre_r = ref_len(ops@);
        let mut t: usize = 0;
        while t < len
            invariant
                forall|u: int| 0 <= u < ops@.len() ==> is_op(#[trigger] ops@[u]),
                t <= len,
                query_len(ops@) == pre_q + t,
                ref_len(ops@) == pre_r + t,
                ops@ == ops1 + Seq::new(t as nat, |u: int| 'M'),
            decreases len - t,
        {
            proof {
                lemma_push_op(ops@, 'M');
            }
            ops.push('M');
            t += 1;
            assert(ops@ =~= ops1 + Seq::new(t as nat, |u: int| 'M'));
        }
        proof {
            let prev_end: int = if k > 0 {
                sd[k - 1].qe as int
            } else {
                first.qb as int
            };
            assert(k > 0 ==> sd[k - 1].qe <= s.qb);
            assert(pre_score <= (s.qb - first.qb) * m) by {
                if k > 0 {
                    assert((sd[k - 1].qe - first.qb) * m <= (s.qb - first.qb) * m) by (nonlinear_arith)
                        requires
                            sd[k - 1].qe <= s.qb,
                            m >= 0,
                    ;
                }
            }
            assert((s.qb - first.qb) * m + len * m == (s.qe - first.qb) * m) by (nonlinear_arith)
                requires
                    len == s.qe - s.qb,
            ;
            assert((s.qe - first.qb) * m <= read@.len() * m) by (nonlinear_arith)
                requires
                    s.qe - first.qb <= read@.len(),
                    m >= 0,
            ;
            assert(len * m >= 0) by (nonlinear_arith)
                requires
                    m >= 0,
            ;
            assert(sd.subrange(k as int, n as int).drop_first() =~= sd.subrange(k + 1, n as int));
            assert(seeds_score(sd.subrange(k as int, n as int)) == len + seeds_score(sd.subrange(k + 1, n as int)));
            assert(seeds_score(sd.subrange(k as int, n as int)) * m == len * m + seeds_score(sd.subrange(k + 1, n as int)) * m)
                by (nonlinear_arith)
                requires
                    seeds_score(sd.subrange(k as int, n as int)) == len + seeds_score(sd.subrange(k + 1, n as int)),
            ;
            if k == 0 {
                assert(sd.subrange(0, n as int) =~= sd);
            }
        }
        score = score + (len as i32) * p.match_score;
        k += 1;
    }
    proof {
        lemma_cigar_text_nonempty(ops@);
        assert(sd.subrange(n as int, n as int) =~= Seq::<MemSeed>::empty());
        assert(sd.last() == sd[n - 1]);
    }
    let cigar = ops_to_cigar(ops.as_slice());
    (score, cigar, nm)
}

/// A candidate alignment of a read on one strand: score, strand, contig,
/// 1-based leftmost reference position, CIGAR and edit distance.
#[derive(Debug, PartialEq, Eq)]
pub struct AlignCandidate {
    pub score: i32,
    pub is_reverse: bool,
    pub contig_idx: usize,
    pub pos1: u32,
    pub cigar: String,
    pub nm: u32,
}

/// Seeding length for a read of `n` bases: `min(n, 20)`.
pub open spec fn min_mem_len(n: int) -> int {
    if n < 20 {
        n
    } else {
        20
    }
}

/// The seeds that `find_smem_seeds` promises for a coded read.
pub open spec fn smem_seeds_ok(fm: &FMIndex, q: Seq<u8>, min_len: int, seeds: Seq<MemSeed>) -> bool {
    &&& min_len > 0 ==> exists|mems: Seq<Mem>|
        #[trigger] smems_ok(fm, q, min_len, mems) && forall|s: MemSeed|
            #[trigger] seeds.contains(s) <==> mem_seed(fm, q, mems, s)
    &&& forall|k: int| 0 <= k < seeds.len() ==> seed_matches(fm, q, #[trigger] seeds[k])
    &&& forall|k: int| 0 <= k < seeds.len() ==> seed_ok(#[trigger] seeds[k])
}

/// The chains that `build_chains` promises for these seeds.
pub open spec fn built_chains_ok(seeds: Seq<MemSeed>, max_gap: int, chains: Seq<Chain>) -> bool {
    &&& chains_from(chains, seeds, max_gap)
    &&& seeds.len() == 0 <==> chains.len() == 0
    &&& forall|other: Seq<MemSeed>|
        valid_chain(other, seeds, max_gap) ==> #[trigger] seeds_score(other) <= chains[0].score
}

/// The chains that survive filtering at 30% of the best score.
pub open spec fn kept_chains(chains: Seq<Chain>) -> Seq<Chain> {
    if chains.len() == 0 {
        Seq::empty()
    } else {
        filtered(chains, weak_threshold(chains[0].score as int, 30), chains.len() as int)
    }
}

/// Score, ops and edit distance of the alignment along a chain.
pub open spec fn chain_result(fm: &FMIndex, c: Chain, read: Seq<u8>, p: SwParams) -> (int, Seq<char>, nat) {
    chain_state(fm, c.contig as int, c.seeds@, read, p, c.seeds@.len() as int)
}

/// The chains among `cs[0..k)` whose alignment scores above 0.
pub open spec fn scoring_chains(fm: &FMIndex, cs: Seq<Chain>, read: Seq<u8>, p: SwParams, k: int) -> Seq<Chain>
    decreases k,
{
    if k <= 0 {
        Seq::empty()
    } else {
        let prev = scoring_chains(fm, cs, read, p, k - 1);
        if chain_result(fm, cs[k - 1], read, p).0 > 0 {
            prev.push(cs[k - 1])
        } else {
            prev
        }
    }
}

/// `x` is the candidate of chain `c` on the given strand.
pub open spec fn cand_of(fm: &FMIndex, c: Chain, read: Seq<u8>, p: SwParams, rev: bool, x: AlignCandidate) -> bool {
    let st = chain_result(fm, c, read, p);
    &&& x.score == st.0
    &&& x.cigar@ == cigar_text(st.1)
    &&& x.nm == st.2
    &&& x.is_reverse == rev
    &&& x.contig_idx == c.contig
    &&& x.pos1 == c.seeds@[0].rb + 1
}

/// The candidates of one strand: one for each chain that survives
/// filtering and aligns with a positive score, in chain order, the chains
/// being built from the read's SMEM seeds.
pub open spec fn strand_cands(
    fm: &FMIndex,
    qnorm: Seq<u8>,
    qalpha: Seq<u8>,
    p: SwParams,
    rev: bool,
    cands: Seq<AlignCandidate>,
) -> bool {
    &&& qalpha.len() == 0 ==> cands.len() == 0
    &&& qalpha.len() > 0 ==> exists|seeds: Seq<MemSeed>, chains: Seq<Chain>|
        smem_seeds_ok(fm, qalpha, min_mem_len(qalpha.len() as int), seeds) && #[trigger] built_chains_ok(
            seeds,
            qalpha.len() as int,
            chains,
        ) && {
            let sc = scoring_chains(fm, kept_chains(chains), qnorm, p, kept_chains(chains).len() as int);
            &&& cands.len() == sc.len()
            &&& forall|i: int| 0 <= i < cands.len() ==> cand_of(fm, sc[i], qnorm, p, rev, #[trigger] cands[i])
        }
}

/// Candidates of one strand: SMEM seeds of length `min(len, 20)`, chains
/// with gaps up to the read length filtered at 30% of the best score, and
/// each chain aligned; those with a positive score are kept.
fn align_one_direction(
    fm: &FMIndex,
    query_norm: &[u8],
    query_alpha: &[u8],
    p: SwParams,
    is_reverse: bool,
    buf: &mut SwBuffer,
) -> (cands: Vec<AlignCandidate>)
    requires
        fm.wf(),
        read_codes_ok(fm, query_alpha@),
        query_norm@.len() == query_alpha@.len(),
        query_alpha@.len() <= READ_LEN_MAX,
        params_ok(p, query_alpha@.len() as int),
    ensures
        forall|k: int|
            0 <= k < cands@.len() ==> (#[trigger] cands@[k]).score > 0 && cands@[k].is_reverse == is_reverse
                && cands@[k].contig_idx < fm.contigs@.len() && cands@[k].pos1 >= 1 && cands@[k].pos1
                <= fm.contigs@[cands@[k].contig_idx as int].len && cands@[k].cigar@.len() > 0,
        strand_cands(fm, query_norm@, query_alpha@, p, is_reverse, cands@),
{
    let mut cands: Vec<AlignCandidate> = Vec::new();
    let len = query_alpha.len();
    if len == 0 {
        return cands;
    }
    assert(min_mem_len(len as int) > 0);
    let seed_len = if len < 20 {
        len
    } else {
        20
    };
    let seeds = find_smem_seeds(fm, query_alpha, seed_len);
    let mut chains = build_chains(seeds.as_slice(), len);
    let ghost built = chains@;
    filter_chains(&mut chains, 30);
    proof {
        if built.len() > 0 {
            lemma_filtered_from(built, weak_threshold(built[0].score as int, 30), built.len() as int);
        }
        assert(chains@ == kept_chains(built));
        assert(smem_seeds_ok(fm, query_alpha@, min_mem_len(len as int), seeds@));
        assert(built_chains_ok(seeds@, len as int, built));
    }
    let ghost kc = chains@;
    let mut k: usize = 0;
    while k < chains.len()
        invariant
            fm.wf(),
            query_norm@.len() == len,
            len == query_alpha@.len(),
            0 < len <= READ_LEN_MAX,
            params_ok(p, len as int),
            chains_from(built, seeds@, len as int),
            forall|t: int| 0 <= t < chains@.len() ==> built.contains(#[trigger] chains@[t]),
            forall|t: int| 0 <= t < seeds@.len() ==> seed_matches(fm, query_alpha@, #[trigger] seeds@[t]),
            forall|t: int| 0 <= t < seeds@.len() ==> seed_ok(#[trigger] seeds@[t]),
            forall|t: int|
                0 <= t < cands@.len() ==> (#[trigger] cands@[t]).score > 0 && cands@[t].is_reverse == is_reverse
                    && cands@[t].contig_idx < fm.contigs@.len() && cands@[t].pos1 >= 1 && cands@[t].pos1
                    <= fm.contigs@[cands@[t].contig_idx as int].len && cands@[t].cigar@.len() > 0,
            kc == chains@,
            k <= chains@.len(),
            cands@.len() == scoring_chains(fm, kc, query_norm@, p, k as int).len(),
            forall|i: int|
                0 <= i < cands@.len() ==> cand_of(
                    fm,
                    scoring_chains(fm, kc, query_norm@, p, k as int)[i],
                    query_norm@,
                    p,
                    is_reverse,
                    #[trigger] cands@[i],
                ),
        decreases chains@.len() - k,
    {
        let chain = &chains[k];
        proof {
            assert(built.contains(chains@[k as int]));
            let w = choose|w: int| 0 <= w < built.len() && built[w] == chains@[k as int];
            assert(chain_from(built[w], seeds@, len as int));
            assert forall|t: int| 0 <= t < chain.seeds@.len() implies {
                let s = #[trigger] chain.seeds@[t];
                &&& seed_ok(s)
                &&& s.contig == chain.contig
                &&& s.qe <= query_norm@.len()
                &&& s.re - s.rb == s.qe - s.qb
                &&& s.re <= fm.contigs@[chain.contig as int].len
            } by {
                assert(seeds@.contains(chain.seeds@[t]));
                let v = choose|v: int| 0 <= v < seeds@.len() && seeds@[v] == chain.seeds@[t];
                assert(seed_matches(fm, query_alpha@, seeds@[v]));
                assert(seed_ok(seeds@[v]));
                assert(chain.seeds@[0].contig == chain.contig);
            }
            assert(seeds@.contains(chain.seeds@[0]));
            let v0 = choose|v: int| 0 <= v < seeds@.len() && seeds@[v] == chain.seeds@[0];
            assert(seed_matches(fm, query_alpha@, seeds@[v0]));
        }
        let (score, cigar, nm) = chain_to_alignment(fm, chain, query_norm, p, buf);
        if score > 0 {
            let first = chain.seeds[0];
            let ghost old_c = cands@;
            cands.push(
                AlignCandidate {
                    score,
                    is_reverse,
                    contig_idx: chain.contig,
                    pos1: first.rb + 1,
                    cigar,
                    nm,
                },
            );
            proof {
                assert(first.rb < first.re);
                assert forall|t: int| 0 <= t < cands@.len() implies (#[trigger] cands@[t]).score > 0
                    && cands@[t].is_reverse == is_reverse && cands@[t].contig_idx < fm.contigs@.len()
                    && cands@[t].pos1 >= 1 && cands@[t].pos1 <= fm.contigs@[cands@[t].contig_idx as int].len
                    && cands@[t].cigar@.len() > 0 by {
                    if t < old_c.len() {
                        assert(cands@[t] == old_c[t]);
                    }
                }
                let sc = scoring_chains(fm, kc, query_norm@, p, k + 1);
                assert forall|i: int| 0 <= i < cands@.len() implies cand_of(fm, sc[i], query_norm@, p, is_reverse, #[trigger] cands@[i]) by {
                    if i < old_c.len() {
                        assert(cands@[i] == old_c[i]);
                    }
                }
            }
        }
        k += 1;
    }
    proof {
        let sc = scoring_chains(fm, kc, query_norm@, p, kc.len() as int);
        assert(built_chains_ok(seeds@, len as int, built));
        assert(cands@.len() == sc.len());
    }
    cands
}

/// One reported alignment of a read: strand, primary or secondary, contig,
/// 1-based position, mapping quality, CIGAR, score (`AS`), the read's
/// next-best score (`XS`) and edit distance (`NM`).
#[derive(Debug, PartialEq, Eq)]
pub struct ReadHit {
    pub is_reverse: bool,
    pub is_secondary: bool,
    pub contig_idx: usize,
    pub pos1: u32,
    pub mapq: u8,
    pub cigar: String,
    pub score: i32,
    pub next_best: i32,
    pub nm: u32,
}

impl ReadHit {
    /// SAM flag: 0x10 on the reverse strand, 0x100 when secondary.
    pub fn flag(&self) -> (f: u16)
        ensures
            f == (if self.is_reverse {
                16int
            } else {
                0int
            }) + (if self.is_secondary {
                256int
            } else {
                0int
            }),
    {
        (if self.is_reverse {
            16
        } else {
            0
        }) + (if self.is_secondary {
            256
        } else {
            0
        })
    }
}

/// Two candidates sit at the same place: contig, position and strand.
pub open spec fn same_place(a: AlignCandidate, b: AlignCandidate) -> bool {
    a.contig_idx == b.contig_idx && a.pos1 == b.pos1 && a.is_reverse == b.is_reverse
}

/// A candidate that can be reported against `nc` contigs.
pub open spec fn cand_ok(nc: int, c: AlignCandidate) -> bool {
    c.score > 0 && c.contig_idx < nc && c.pos1 >= 1
}

/// The hit reports the candidate.
pub open spec fn hit_of(h: ReadHit, c: AlignCandidate) -> bool {
    &&& h.score == c.score
    &&& h.is_reverse == c.is_reverse
    &&& h.contig_idx == c.contig_idx
    &&& h.pos1 == c.pos1
    &&& h.cigar == c.cigar
    &&& h.nm == c.nm
}

/// What the orchestrator reports for one read against `nc` contigs.
pub open spec fn hits_ok(nc: int, threshold: int, hits: Seq<ReadHit>) -> bool {
    &&& hits.len() <= 5
    &&& hits.len() > 0 ==> hits[0].score >= threshold && !hits[0].is_secondary && hits[0].mapq == mapq_spec(
        hits[0].score as int,
        hits[0].next_best as int,
    )
    &&& forall|k: int| 0 < k < hits.len() ==> (#[trigger] hits[k]).is_secondary && hits[k].mapq == 0
    &&& forall|k: int|
        0 <= k < hits.len() ==> (#[trigger] hits[k]).next_best == (if hits.len() > 1 {
            hits[1].score
        } else {
            0
        }) && hits[k].contig_idx < nc && hits[k].pos1 >= 1 && hits[k].score > 0
    &&& forall|i: int, j: int| 0 <= i < j < hits.len() ==> (#[trigger] hits[i]).score >= (#[trigger] hits[j]).score
    &&& forall|i: int, j: int|
        0 <= i < j < hits.len() ==> !((#[trigger] hits[i]).contig_idx == (#[trigger] hits[j]).contig_idx
            && hits[i].pos1 == hits[j].pos1 && hits[i].is_reverse == hits[j].is_reverse)
}

/// The hit reports one of the candidates.
pub open spec fn reports_some(h: ReadHit, cands: Seq<AlignCandidate>) -> bool {
    exists|c: int| 0 <= c < cands.len() && #[trigger] hit_of(h, cands[c])
}

/// Some hit sits at the candidate's place with at least its score.
pub open spec fn covered_by(c: AlignCandidate, hits: Seq<ReadHit>) -> bool {
    exists|k: int|
        0 <= k < hits.len() && #[trigger] hits[k].contig_idx == c.contig_idx && hits[k].pos1 == c.pos1
            && hits[k].is_reverse == c.is_reverse && hits[k].score >= c.score
}

/// Some kept candidate sits at the candidate's place with at least its
/// score.
pub open spec fn kept_covers(c: AlignCandidate, ks: Seq<AlignCandidate>) -> bool {
    exists|k: int| 0 <= k < ks.len() && #[trigger] same_place(ks[k], c) && ks[k].score >= c.score
}

/// How the hits relate to the candidates they were selected from: none
/// exactly when no candidate reaches the threshold (the best score being
/// the first hit's), each hit reporting a candidate, and each candidate
/// covered by a hit at its place scoring at least as much, unless five hits
/// were taken.
pub open spec fn selected_from(cands: Seq<AlignCandidate>, threshold: int, hits: Seq<ReadHit>) -> bool {
    &&& hits.len() == 0 <==> (forall|k: int| 0 <= k < cands.len() ==> (#[trigger] cands[k]).score < threshold)
    &&& hits.len() > 0 ==> forall|k: int| 0 <= k < cands.len() ==> (#[trigger] cands[k]).score <= hits[0].score
    &&& forall|k: int| 0 <= k < hits.len() ==> reports_some(#[trigger] hits[k], cands)
    &&& hits.len() > 0 && hits.len() < 5 ==> forall|c: int| 0 <= c < cands.len() ==> covered_by(#[trigger] cands[c], hits)
    &&& forall|k: int, c: int|
        0 <= k < hits.len() && 0 <= c < cands.len() && #[trigger] hits[k].contig_idx == (#[trigger] cands[c]).contig_idx
            && hits[k].pos1 == cands[c].pos1 && hits[k].is_reverse == cands[c].is_reverse ==> cands[c].score
            <= hits[k].score
}

/// Codes of a normalized sequence.
fn encode(norm: &[u8]) -> (codes: Vec<u8>)
    requires
        forall|k: int| 0 <= k < norm@.len() ==> is_norm_base(#[trigger] norm@[k]),
    ensures
        codes@.len() == norm@.len(),
        forall|k: int| 0 <= k < codes@.len() ==> 1 <= #[trigger] codes@[k] <= 5,
        forall|k: int| 0 <= k < codes@.len() ==> codes@[k] == code_of(#[trigger] norm@[k]),
{
    let mut codes: Vec<u8> = Vec::with_capacity(norm.len());
    let mut k: usize = 0;
    while k < norm.len()
        invariant
            k <= norm@.len(),
            codes@.len() == k,
            forall|k: int| 0 <= k < norm@.len() ==> is_norm_base(#[trigger] norm@[k]),
            forall|t: int| 0 <= t < k ==> 1 <= #[trigger] codes@[t] <= 5,
            forall|t: int| 0 <= t < k ==> codes@[t] == code_of(#[trigger] norm@[t]),
        decreases norm@.len() - k,
    {
        codes.push(to_alphabet(norm[k]));
        k += 1;
    }
    codes
}

/// Orders candidates by score, highest first, keeping the order of equals.
fn sort_by_score(cands: Vec<AlignCandidate>, nc: Ghost<int>) -> (out: Vec<AlignCandidate>)
    requires
        forall|k: int| 0 <= k < cands@.len() ==> cand_ok(nc@, #[trigger] cands@[k]),
    ensures
        forall|k: int| 0 <= k < out@.len() ==> cand_ok(nc@, #[trigger] out@[k]),
        forall|i: int, j: int| 0 <= i < j < out@.len() ==> (#[trigger] out@[i]).score >= (#[trigger] out@[j]).score,
        out@.len() == cands@.len(),
        forall|x: AlignCandidate| out@.contains(x) <==> cands@.contains(x),
{
    let ghost orig = cands@;
    let mut src = cands;
    let mut out: Vec<AlignCandidate> = Vec::new();
    let ghost total = src@.len();
    let ghost mut taken: int = 0;
    while src.len() > 0
        invariant
            src@ == orig.subrange(taken, total as int),
            0 <= taken <= total,
            total == orig.len(),
            forall|k: int| 0 <= k < orig.len() ==> cand_ok(nc@, #[trigger] orig[k]),
            forall|k: int| 0 <= k < out@.len() ==> cand_ok(nc@, #[trigger] out@[k]),
            forall|i: int, j: int| 0 <= i < j < out@.len() ==> (#[trigger] out@[i]).score >= (#[trigger] out@[j]).score,
            out@.len() == taken,
            forall|x: AlignCandidate| out@.contains(x) <==> orig.subrange(0, taken).contains(x),
        decreases src@.len(),
    {
        let c = src.remove(0);
        proof {
            assert(c == orig[taken]);
            assert(src@ =~= orig.subrange(taken + 1, total as int));
        }
        let mut pos: usize = out.len();
        while pos > 0 && out[pos - 1].score < c.score
            invariant
                pos <= out@.len(),
                forall|t: int| pos <= t < out@.len() ==> (#[trigger] out@[t]).score < c.score,
            decreases pos,
        {
            pos -= 1;
        }
        let ghost old_out = out@;
        assert(forall|x: AlignCandidate| old_out.contains(x) <==> orig.subrange(0, taken).contains(x));
        out.insert(pos, c);
        proof {
            assert forall|k: int| 0 <= k < out@.len() implies cand_ok(nc@, #[trigger] out@[k]) by {
                if k < pos {
                    assert(out@[k] == old_out[k]);
                } else if k > pos {
                    assert(out@[k] == old_out[k - 1]);
                }
            }
            assert forall|i: int, j: int| 0 <= i < j < out@.len() implies (#[trigger] out@[i]).score
                >= (#[trigger] out@[j]).score by {
                if j < pos {
                    assert(out@[i] == old_out[i] && out@[j] == old_out[j]);
                } else if j == pos {
                    assert(out@[i] == old_out[i]);
                    assert(old_out[pos - 1].score >= c.score);
                    assert(old_out[i].score >= old_out[pos - 1].score || i == pos - 1);
                } else if i < pos {
                    assert(out@[i] == old_out[i] && out@[j] == old_out[j - 1]);
                } else if i == pos {
                    assert(out@[j] == old_out[j - 1]);
                } else {
                    assert(out@[i] == old_out[i - 1] && out@[j] == old_out[j - 1]);
                }
            }
            let pre = orig.subrange(0, taken);
            let cur = orig.subrange(0, taken + 1);
            assert(cur[taken] == c);
            assert forall|x: AlignCandidate| out@.contains(x) implies cur.contains(x) by {
                let t = choose|t: int| 0 <= t < out@.len() && out@[t] == x;
                if t == pos {
                    assert(cur[taken] == x);
                } else {
                    let t2 = if t > pos {
                        t - 1
                    } else {
                        t
                    };
                    assert(old_out[t2] == x);
                    assert(old_out.contains(x));
                    assert(pre.contains(x));
                    let w = choose|w: int| 0 <= w < pre.len() && #[trigger] pre[w] == x;
                    assert(cur[w] == x);
                }
            }
            assert forall|x: AlignCandidate| cur.contains(x) implies out@.contains(x) by {
                let w = choose|w: int| 0 <= w < cur.len() && #[trigger] cur[w] == x;
                if w == taken {
                    assert(out@[pos as int] == x);
                } else {
                    assert(pre[w] == x);
                    assert(pre.contains(x));
                    assert(old_out.contains(x));
                    let t = choose|t: int| 0 <= t < old_out.len() && old_out[t] == x;
                    if t < pos {
                        assert(out@[t] == x);
                    } else {
                        assert(out@[t + 1] == x);
                    }
                }
            }
            taken = taken + 1;
        }
    }
    proof {
        assert(orig.subrange(0, taken) =~= orig);
    }
    out
}

/// Candidates ordered by score, highest first, each reportable.
pub open spec fn ranked(nc: int, s: Seq<AlignCandidate>) -> bool {
    &&& forall|k: int| 0 <= k < s.len() ==> cand_ok(nc, #[trigger] s[k])
    &&& forall|i: int, j: int| 0 <= i < j < s.len() ==> (#[trigger] s[i]).score >= (#[trigger] s[j]).score
}

/// Keeps, in order, the first candidate of each place, at most five.
fn keep_best_places(src: Vec<AlignCandidate>, nc: Ghost<int>) -> (kept: Vec<AlignCandidate>)
    requires
        ranked(nc@, src@),
    ensures
        ranked(nc@, kept@),
        kept@.len() <= 5,
        forall|k: int| 0 <= k < kept@.len() ==> src@.contains(#[trigger] kept@[k]),
        forall|i: int, j: int| 0 <= i < j < kept@.len() ==> !same_place(#[trigger] kept@[i], #[trigger] kept@[j]),
        src@.len() > 0 ==> kept@.len() > 0 && kept@[0] == src@[0],
        src@.len() == 0 ==> kept@.len() == 0,
        kept@.len() < 5 ==> forall|c: int| 0 <= c < src@.len() ==> kept_covers(#[trigger] src@[c], kept@),
        forall|k: int, c: int|
            0 <= k < kept@.len() && 0 <= c < src@.len() && same_place(#[trigger] kept@[k], #[trigger] src@[c])
                ==> src@[c].score <= kept@[k].score,
{
    let ghost sorted = src@;
    let ghost n_all = sorted.len();
    let ghost mut done: int = 0;
    let mut src = src;
    let mut kept: Vec<AlignCandidate> = Vec::new();
    while src.len() > 0
        invariant
            n_all == sorted.len(),
            0 <= done <= n_all,
            src@ == sorted.subrange(done, n_all as int),
            forall|k: int| 0 <= k < sorted.len() ==> cand_ok(nc@, #[trigger] sorted[k]),
            forall|i: int, j: int| 0 <= i < j < sorted.len() ==> (#[trigger] sorted[i]).score >= (#[trigger] sorted[j]).score,
            forall|k: int| 0 <= k < kept@.len() ==> cand_ok(nc@, #[trigger] kept@[k]),
            forall|k: int| 0 <= k < kept@.len() ==> sorted.subrange(0, done).contains(#[trigger] kept@[k]),
            forall|i: int, j: int| 0 <= i < j < kept@.len() ==> (#[trigger] kept@[i]).score >= (#[trigger] kept@[j]).score,
            forall|i: int, j: int| 0 <= i < j < kept@.len() ==> !same_place(#[trigger] kept@[i], #[trigger] kept@[j]),
            kept@.len() <= 5,
            done > 0 ==> kept@.len() > 0 && kept@[0] == sorted[0],
            kept@.len() < 5 ==> forall|c: int| 0 <= c < done ==> kept_covers(#[trigger] sorted[c], kept@),
            n_all == 0 ==> kept@.len() == 0,
            forall|k: int, cc: int|
                0 <= k < kept@.len() && 0 <= cc < done && same_place(#[trigger] kept@[k], #[trigger] sorted[cc])
                    ==> sorted[cc].score <= kept@[k].score,
        decreases src@.len(),
    {
        let c = src.remove(0);
        proof {
            assert(c == sorted[done]);
            assert(src@ =~= sorted.subrange(done + 1, n_all as int));
        }
        let mut fresh = kept.len() < 5;
        let mut t: usize = 0;
        let ghost mut twin: int = -1;
        while t < kept.len()
            invariant
                t <= kept@.len(),
                fresh ==> kept@.len() < 5,
                fresh ==> forall|u: int| 0 <= u < t ==> !same_place(#[trigger] kept@[u], c),
                kept@.len() < 5 && !fresh ==> 0 <= twin < kept@.len() && same_place(kept@[twin], c),
            decreases kept@.len() - t,
        {
            if kept[t].contig_idx == c.contig_idx && kept[t].pos1 == c.pos1 && kept[t].is_reverse == c.is_reverse {
                proof {
                    if fresh || twin < 0 {
                        twin = t as int;
                    }
                }
                fresh = false;
            }
            t += 1;
        }
        let ghost old_kept = kept@;
        proof {
            assert forall|k: int| 0 <= k < old_kept.len() implies (#[trigger] old_kept[k]).score >= c.score by {
                assert(sorted.subrange(0, done).contains(old_kept[k]));
                let w = choose|w: int| 0 <= w < done && #[trigger] sorted.subrange(0, done)[w] == old_kept[k];
                assert(sorted[w] == old_kept[k]);
            }
        }
        if fresh {
            kept.push(c);
        }
        proof {
            assert forall|k: int| 0 <= k < kept@.len() implies cand_ok(nc@, #[trigger] kept@[k]) by {
                if k < old_kept.len() {
                    assert(kept@[k] == old_kept[k]);
                } else {
                    assert(kept@[k] == sorted[done]);
                }
            }
            assert forall|k: int| 0 <= k < kept@.len() implies sorted.subrange(0, done + 1).contains(#[trigger] kept@[k]) by {
                if k < old_kept.len() {
                    assert(kept@[k] == old_kept[k]);
                    let w = choose|w: int| 0 <= w < done && #[trigger] sorted.subrange(0, done)[w] == old_kept[k];
                    assert(sorted.subrange(0, done + 1)[w] == old_kept[k]);
                } else {
                    assert(sorted.subrange(0, done + 1)[done] == c);
                }
            }
            assert forall|i: int, j: int| 0 <= i < j < kept@.len() implies (#[trigger] kept@[i]).score >= (#[trigger] kept@[j]).score by {
                assert(kept@[i] == old_kept[i]);
                if j < old_kept.len() {
                    assert(kept@[j] == old_kept[j]);
                }
            }
            assert forall|i: int, j: int| 0 <= i < j < kept@.len() implies !same_place(#[trigger] kept@[i], #[trigger] kept@[j]) by {
                assert(kept@[i] == old_kept[i]);
                if j < old_kept.len() {
                    assert(kept@[j] == old_kept[j]);
                }
            }
            if done == 0 {
                assert(kept@[0] == sorted[0]);
            } else {
                assert(kept@[0] == old_kept[0]);
            }
            if kept@.len() < 5 {
                assert forall|cc: int| 0 <= cc < done + 1 implies kept_covers(#[trigger] sorted[cc], kept@) by {
                    if cc < done {
                        assert(old_kept.len() < 5);
                        assert(kept_covers(sorted[cc], old_kept));
                        let k = choose|k: int| 0 <= k < old_kept.len() && #[trigger] same_place(old_kept[k], sorted[cc])
                            && old_kept[k].score >= sorted[cc].score;
                        assert(kept@[k] == old_kept[k]);
                        assert(same_place(kept@[k], sorted[cc]));
                    } else if fresh {
                        assert(kept@[old_kept.len() as int] == c);
                        assert(same_place(kept@[old_kept.len() as int], sorted[cc]));
                    } else {
                        assert(old_kept.len() < 5);
                        assert(kept@[twin] == old_kept[twin]);
                        assert(same_place(kept@[twin], sorted[cc]));
                    }
                }
            }
            assert forall|k: int, cc: int|
                0 <= k < kept@.len() && 0 <= cc < done + 1 && same_place(#[trigger] kept@[k], #[trigger] sorted[cc])
                    implies sorted[cc].score <= kept@[k].score by {
                if k < old_kept.len() {
                    assert(kept@[k] == old_kept[k]);
                    if cc == done {
                        assert(old_kept[k].score >= c.score);
                    }
                } else {
                    assert(kept@[k] == c);
                    if cc < done {
                        assert(kept_covers(sorted[cc], old_kept));
                        let k2 = choose|k2: int| 0 <= k2 < old_kept.len() && #[trigger] same_place(old_kept[k2], sorted[cc])
                            && old_kept[k2].score >= sorted[cc].score;
                        assert(same_place(old_kept[k2], c));
                        assert(false);
                    }
                }
            }
            done = done + 1;
        }
    }
    proof {
        assert(sorted.subrange(0, done) =~= sorted);
        assert forall|k: int| 0 <= k < kept@.len() implies sorted.contains(#[trigger] kept@[k]) by {
            let w = choose|w: int| 0 <= w < done && #[trigger] sorted.subrange(0, done)[w] == kept@[k];
            assert(sorted[w] == kept@[k]);
        }
    }
    kept
}

/// The hits of the kept candidates: none below the threshold, the first
/// primary with its mapping quality, the rest secondary.
fn hits_of_kept(kept: Vec<AlignCandidate>, threshold: i32, nc: Ghost<int>) -> (hits: Vec<ReadHit>)
    requires
        ranked(nc@, kept@),
        kept@.len() <= 5,
        forall|i: int, j: int| 0 <= i < j < kept@.len() ==> !same_place(#[trigger] kept@[i], #[trigger] kept@[j]),
    ensures
        hits_ok(nc@, threshold as int, hits@),
        hits@.len() == 0 <==> (kept@.len() == 0 || kept@[0].score < threshold),
        hits@.len() > 0 ==> hits@.len() == kept@.len(),
        forall|k: int| 0 <= k < hits@.len() ==> #[trigger] hit_of(hits@[k], kept@[k]),
{
    let mut hits: Vec<ReadHit> = Vec::new();
    if kept.len() == 0 || kept[0].score < threshold {
        return hits;
    }
    let mut kept = kept;
    let best = kept[0].score;
    let second = if kept.len() > 1 {
        kept[1].score
    } else {
        0
    };
    let mapq = compute_mapq(best, second);
    let n = kept.len();
    let mut k: usize = 0;
    let ghost ks = kept@;
    while kept.len() > 0
        invariant
            ks.len() == n,
            n <= 5,
            n > 0,
            ks[0].score == best,
            ks[0].score >= threshold,
            second == (if n > 1 {
                ks[1].score
            } else {
                0
            }),
            mapq == mapq_spec(best as int, second as int),
            k + kept@.len() == n,
            kept@ == ks.subrange(k as int, n as int),
            hits@.len() == k,
            forall|t: int|
                0 <= t < k ==> hit_of(#[trigger] hits@[t], ks[t]) && hits@[t].next_best == second
                    && hits@[t].is_secondary == (t > 0) && hits@[t].mapq == (if t == 0 {
                    mapq as int
                } else {
                    0
                }),
        decreases kept@.len(),
    {
        let c = kept.remove(0);
        assert(c == ks[k as int]);
        let hit = ReadHit {
            is_reverse: c.is_reverse,
            is_secondary: k > 0,
            contig_idx: c.contig_idx,
            pos1: c.pos1,
            mapq: if k == 0 {
                mapq
            } else {
                0
            },
            cigar: c.cigar,
            score: c.score,
            next_best: second,
            nm: c.nm,
        };
        hits.push(hit);
        k += 1;
        assert(kept@ =~= ks.subrange(k as int, n as int));
    }
    proof {
        assert(hit_of(hits@[0], ks[0]));
        if n > 1 {
            assert(hit_of(hits@[1], ks[1]));
        }
    }
    hits
}

proof fn lemma_ranked_max(orig: Seq<AlignCandidate>, sorted: Seq<AlignCandidate>, k: int)
    requires
        forall|x: AlignCandidate| sorted.contains(x) <==> orig.contains(x),
        forall|i: int, j: int| 0 <= i < j < sorted.len() ==> (#[trigger] sorted[i]).score >= (#[trigger] sorted[j]).score,
        0 <= k < orig.len(),
    ensures
        sorted.len() > 0,
        orig[k].score <= sorted[0].score,
{
    assert(orig.contains(orig[k]));
    assert(sorted.contains(orig[k]));
    let w = choose|w: int| 0 <= w < sorted.len() && sorted[w] == orig[k];
    if w > 0 {
        assert(sorted[0].score >= sorted[w].score);
    }
}

/// With no hits, no candidate reaches the threshold; with hits, none is
/// above the first.
proof fn lemma_selection_best(
    orig: Seq<AlignCandidate>,
    sorted: Seq<AlignCandidate>,
    ks: Seq<AlignCandidate>,
    hits: Seq<ReadHit>,
    threshold: int,
)
    requires
        forall|x: AlignCandidate| sorted.contains(x) <==> orig.contains(x),
        forall|i: int, j: int| 0 <= i < j < sorted.len() ==> (#[trigger] sorted[i]).score >= (#[trigger] sorted[j]).score,
        sorted.len() > 0 ==> ks.len() > 0 && ks[0] == sorted[0],
        sorted.len() == 0 ==> ks.len() == 0,
        hits.len() == 0 <==> (ks.len() == 0 || ks[0].score < threshold),
        hits.len() > 0 ==> hit_of(hits[0], ks[0]),
    ensures
        hits.len() == 0 <==> (forall|k: int| 0 <= k < orig.len() ==> (#[trigger] orig[k]).score < threshold),
        hits.len() > 0 ==> forall|k: int| 0 <= k < orig.len() ==> (#[trigger] orig[k]).score <= hits[0].score,
{
    assert forall|k: int| 0 <= k < orig.len() implies (#[trigger] orig[k]).score <= sorted[0].score && sorted.len()
        > 0 by {
        lemma_ranked_max(orig, sorted, k);
    }
    if hits.len() > 0 {
        assert(sorted[0] == ks[0]);
        assert(sorted.contains(ks[0]));
        assert(orig.contains(ks[0]));
        let c = choose|c: int| 0 <= c < orig.len() && orig[c] == ks[0];
        assert(orig[c].score >= threshold);
    }
}

/// No candidate at a hit's place scores above the hit.
proof fn lemma_selection_best_place(
    orig: Seq<AlignCandidate>,
    sorted: Seq<AlignCandidate>,
    ks: Seq<AlignCandidate>,
    hits: Seq<ReadHit>,
)
    requires
        forall|x: AlignCandidate| sorted.contains(x) <==> orig.contains(x),
        forall|k: int, c: int|
            0 <= k < ks.len() && 0 <= c < sorted.len() && same_place(#[trigger] ks[k], #[trigger] sorted[c])
                ==> sorted[c].score <= ks[k].score,
        hits.len() > 0 ==> hits.len() == ks.len(),
        forall|k: int| 0 <= k < hits.len() ==> #[trigger] hit_of(hits[k], ks[k]),
    ensures
        forall|k: int, c: int|
            0 <= k < hits.len() && 0 <= c < orig.len() && #[trigger] hits[k].contig_idx == (#[trigger] orig[c]).contig_idx
                && hits[k].pos1 == orig[c].pos1 && hits[k].is_reverse == orig[c].is_reverse ==> orig[c].score
                <= hits[k].score,
{
    assert forall|k: int, c: int|
        0 <= k < hits.len() && 0 <= c < orig.len() && #[trigger] hits[k].contig_idx == (#[trigger] orig[c]).contig_idx
            && hits[k].pos1 == orig[c].pos1 && hits[k].is_reverse == orig[c].is_reverse implies orig[c].score
            <= hits[k].score by {
        assert(hit_of(hits[k], ks[k]));
        assert(orig.contains(orig[c]));
        assert(sorted.contains(orig[c]));
        let w = choose|w: int| 0 <= w < sorted.len() && sorted[w] == orig[c];
        assert(same_place(ks[k], sorted[w]));
    }
}

/// Every hit reports a candidate.
proof fn lemma_selection_from(
    orig: Seq<AlignCandidate>,
    sorted: Seq<AlignCandidate>,
    ks: Seq<AlignCandidate>,
    hits: Seq<ReadHit>,
)
    requires
        forall|x: AlignCandidate| sorted.contains(x) <==> orig.contains(x),
        forall|k: int| 0 <= k < ks.len() ==> sorted.contains(#[trigger] ks[k]),
        hits.len() > 0 ==> hits.len() == ks.len(),
        forall|k: int| 0 <= k < hits.len() ==> #[trigger] hit_of(hits[k], ks[k]),
    ensures
        forall|k: int| 0 <= k < hits.len() ==> reports_some(#[trigger] hits[k], orig),
{
    assert forall|t: int| 0 <= t < hits.len() implies reports_some(#[trigger] hits[t], orig) by {
        assert(hit_of(hits[t], ks[t]));
        assert(sorted.contains(ks[t]));
        assert(orig.contains(ks[t]));
        let c = choose|c: int| 0 <= c < orig.len() && orig[c] == ks[t];
        assert(hit_of(hits[t], orig[c]));
    }
}

/// Short of five hits, every candidate is covered by a hit at its place.
proof fn lemma_selection_cover(
    orig: Seq<AlignCandidate>,
    sorted: Seq<AlignCandidate>,
    ks: Seq<AlignCandidate>,
    hits: Seq<ReadHit>,
)
    requires
        forall|x: AlignCandidate| sorted.contains(x) <==> orig.contains(x),
        ks.len() < 5 ==> forall|c: int| 0 <= c < sorted.len() ==> kept_covers(#[trigger] sorted[c], ks),
        hits.len() > 0 ==> hits.len() == ks.len(),
        forall|k: int| 0 <= k < hits.len() ==> #[trigger] hit_of(hits[k], ks[k]),
    ensures
        hits.len() > 0 && hits.len() < 5 ==> forall|c: int| 0 <= c < orig.len() ==> covered_by(#[trigger] orig[c], hits),
{
    if hits.len() > 0 && hits.len() < 5 {
        assert forall|c: int| 0 <= c < orig.len() implies covered_by(#[trigger] orig[c], hits) by {
            assert(orig.contains(orig[c]));
            assert(sorted.contains(orig[c]));
            let w = choose|w: int| 0 <= w < sorted.len() && sorted[w] == orig[c];
            assert(kept_covers(sorted[w], ks));
            let k = choose|k: int| 0 <= k < ks.len() && #[trigger] same_place(ks[k], sorted[w]) && ks[k].score >= sorted[w].score;
            assert(hit_of(hits[k], ks[k]));
            assert(hits[k].contig_idx == orig[c].contig_idx);
        }
    }
}

/// Selects the reported hits among candidate alignments against
/// `n_contigs` contigs: ordered by score, the best one per
/// contig/position/strand, at most five; none when the best score is below
/// `threshold`. The first hit is primary with its mapping quality; the
/// others are secondary with quality 0; every hit carries the second hit's
/// score (or 0) as the next-best score.
pub fn select_hits(cands: Vec<AlignCandidate>, threshold: i32, n_contigs: usize) -> (hits: Vec<ReadHit>)
    requires
        forall|k: int| 0 <= k < cands@.len() ==> cand_ok(n_contigs as int, #[trigger] cands@[k]),
    ensures
        hits_ok(n_contigs as int, threshold as int, hits@),
        selected_from(cands@, threshold as int, hits@),
{
    let ghost nc = n_contigs as int;
    let ghost orig = cands@;
    let sorted_v = sort_by_score(cands, Ghost(nc));
    let ghost sorted = sorted_v@;
    let kept = keep_best_places(sorted_v, Ghost(nc));
    let ghost ks = kept@;
    let hits = hits_of_kept(kept, threshold, Ghost(nc));
    proof {
        lemma_selection_best(orig, sorted, ks, hits@, threshold as int);
        lemma_selection_from(orig, sorted, ks, hits@);
        lemma_selection_cover(orig, sorted, ks, hits@);
        lemma_selection_best_place(orig, sorted, ks, hits@);
    }
    hits
}

/// Codes of a sequence.
pub open spec fn codes_of(s: Seq<u8>) -> Seq<u8> {
    Seq::new(s.len(), |k: int| code_of(s[k]))
}

/// What the orchestrator reports for a read: nothing for an empty read;
/// otherwise the hits selected among the candidates of the normalized read
/// and of its reverse complement.
pub open spec fn read_hits_ok(fm: &FMIndex, seq: Seq<u8>, opt: AlignOpt, hits: Seq<ReadHit>) -> bool {
    let fwd_norm = normalize_spec(seq);
    let rev_norm = revcomp_spec(fwd_norm);
    &&& hits_ok(fm.contigs@.len() as int, opt.score_threshold as int, hits)
    &&& seq.len() == 0 ==> hits.len() == 0
    &&& seq.len() > 0 ==> exists|fwd: Seq<AlignCandidate>, rev: Seq<AlignCandidate>|
        strand_cands(fm, fwd_norm, codes_of(fwd_norm), params_of(opt), false, fwd) && strand_cands(
            fm,
            rev_norm,
            codes_of(rev_norm),
            params_of(opt),
            true,
            rev,
        ) && #[trigger] selected_from(fwd + rev, opt.score_threshold as int, hits)
}

/// Aligns one read: candidates from the normalized read and from its reverse
/// complement, selected by `select_hits`. Nothing is reported for an empty
/// read.
pub fn align_read_hits(fm: &FMIndex, seq: &[u8], opt: &AlignOpt, buf: &mut SwBuffer) -> (hits: Vec<ReadHit>)
    requires
        fm.wf(),
        fm.sigma as usize == SIGMA,
        seq@.len() <= READ_LEN_MAX,
        params_ok(params_of(*opt), seq@.len() as int),
    ensures
        read_hits_ok(fm, seq@, *opt, hits@),
{
    if seq.len() == 0 {
        return Vec::new();
    }
    let p = opt.sw_params();
    let fwd_norm = normalize_seq(seq);
    let rev_norm = revcomp(fwd_norm.as_slice());
    proof {
        lemma_normalize_bases(seq@);
        assert forall|k: int| 0 <= k < rev_norm@.len() implies is_norm_base(#[trigger] rev_norm@[k]) by {
            assert(rev_norm@[k] == comp_base(fwd_norm@[fwd_norm@.len() - 1 - k]));
        }
        assert forall|k: int| 0 <= k < fwd_norm@.len() implies is_norm_base(#[trigger] fwd_norm@[k]) by {
            assert(fwd_norm@[k] == normalize_spec(seq@)[k]);
        }
    }
    let fwd_alpha = encode(fwd_norm.as_slice());
    let rev_alpha = encode(rev_norm.as_slice());
    proof {
        assert(fwd_alpha@ =~= codes_of(fwd_norm@));
        assert(rev_alpha@ =~= codes_of(rev_norm@));
    }
    let mut cands = align_one_direction(fm, fwd_norm.as_slice(), fwd_alpha.as_slice(), p, false, buf);
    let mut rev_cands = align_one_direction(fm, rev_norm.as_slice(), rev_alpha.as_slice(), p, true, buf);
    let ghost c1 = cands@;
    let ghost c2 = rev_cands@;
    cands.append(&mut rev_cands);
    proof {
        assert forall|k: int| 0 <= k < cands@.len() implies cand_ok(fm.contigs@.len() as int, #[trigger] cands@[k]) by {
            if k < c1.len() {
                assert(cands@[k] == c1[k]);
            } else {
                assert(cands@[k] == c2[k - c1.len()]);
            }
        }
    }
    let ghost all = cands@;
    let hits = select_hits(cands, opt.score_threshold, fm.contigs.len());
    proof {
        assert(all =~= c1 + c2);
        assert(selected_from(c1 + c2, opt.score_threshold as int, hits@));
    }
    hits
}

/// SAM line of an unmapped read.
pub open spec fn unmapped_line(qname: Seq<char>, seq: Seq<u8>, qual: Seq<u8>) -> Seq<char> {
    qname + "\t4\t*\t0\t0\t*\t*\t0\t0\t"@ + bytes_chars(seq) + "\t"@ + bytes_chars(qual)
}

/// SAM line of one hit on the contig named `rname`.
pub open spec fn hit_line(qname: Seq<char>, rname: Seq<char>, h: ReadHit, seq: Seq<u8>, qual: Seq<u8>) -> Seq<char> {
    let flag: nat = ((if h.is_reverse {
        16int
    } else {
        0int
    }) + (if h.is_secondary {
        256int
    } else {
        0int
    })) as nat;
    qname + "\t"@ + decimal(flag) + "\t"@ + rname + "\t"@ + decimal(h.pos1 as nat) + "\t"@ + decimal(
        h.mapq as nat,
    ) + "\t"@ + h.cigar@ + "\t*\t0\t0\t"@ + bytes_chars(seq) + "\t"@ + bytes_chars(qual) + "\tAS:i:"@
        + decimal(h.score as nat) + "\tXS:i:"@ + decimal(h.next_best as nat) + "\tNM:i:"@ + decimal(
        h.nm as nat,
    )
}

fn push_text(out: &mut String, t: &str)
    ensures
        final(out)@ == old(out)@ + t@,
{
    out.append(t);
}

fn push_bytes(out: &mut String, b: &[u8])
    ensures
        final(out)@ == old(out)@ + bytes_chars(b@),
{
    let ghost start = out@;
    let mut k: usize = 0;
    while k < b.len()
        invariant
            k <= b@.len(),
            out@ == start + bytes_chars(b@.subrange(0, k as int)),
        decreases b@.len() - k,
    {
        push_char(out, b[k] as char);
        k += 1;
        assert(out@ =~= start + bytes_chars(b@.subrange(0, k as int)));
    }
    assert(b@.subrange(0, k as int) =~= b@);
}

/// The SAM header: `@HD`, one `@SQ` per contig, `@PG`.
pub fn sam_header(fm: &FMIndex) -> (lines: Vec<String>)
    ensures
        lines@.len() == fm.contigs@.len() + 2,
        lines@[0]@ == "@HD\tVN:1.6\tSO:unsorted"@,
        forall|k: int|
            0 <= k < fm.contigs@.len() ==> (#[trigger] lines@[k + 1])@ == "@SQ\tSN:"@ + fm.contigs@[k].name@
                + "\tLN:"@ + decimal(fm.contigs@[k].len as nat),
        lines@[fm.contigs@.len() + 1 as int]@ == "@PG\tID:bwa-rust\tPN:bwa-rust"@,
{
    let mut lines: Vec<String> = Vec::new();
    let mut hd = String::new();
    push_text(&mut hd, "@HD\tVN:1.6\tSO:unsorted");
    lines.push(hd);
    let mut k: usize = 0;
    while k < fm.contigs.len()
        invariant
            k <= fm.contigs@.len(),
            lines@.len() == k + 1,
            lines@[0]@ == "@HD\tVN:1.6\tSO:unsorted"@,
            forall|t: int|
                0 <= t < k ==> (#[trigger] lines@[t + 1])@ == "@SQ\tSN:"@ + fm.contigs@[t].name@ + "\tLN:"@
                    + decimal(fm.contigs@[t].len as nat),
        decreases fm.contigs@.len() - k,
    {
        let c = &fm.contigs[k];
        let mut line = String::new();
        push_text(&mut line, "@SQ\tSN:");
        push_text(&mut line, c.name.as_str());
        push_text(&mut line, "\tLN:");
        push_decimal(&mut line, c.len as usize);
        assert(line@ =~= "@SQ\tSN:"@ + fm.contigs@[k as int].name@ + "\tLN:"@ + decimal(fm.contigs@[k as int].len as nat));
        lines.push(line);
        k += 1;
    }
    let mut pg = String::new();
    push_text(&mut pg, "@PG\tID:bwa-rust\tPN:bwa-rust");
    lines.push(pg);
    lines
}

/// Whether `lines` are the SAM records of a read with these hits: one
/// unmapped record when there are none, else one record per hit.
pub open spec fn sam_lines_spec(
    fm: &FMIndex,
    qname: Seq<char>,
    seq: Seq<u8>,
    qual: Seq<u8>,
    hits: Seq<ReadHit>,
    lines: Seq<String>,
) -> bool {
    if hits.len() == 0 {
        lines.len() == 1 && lines[0]@ == unmapped_line(qname, seq, qual)
    } else {
        &&& lines.len() == hits.len()
        &&& forall|k: int|
            0 <= k < hits.len() ==> (#[trigger] lines[k])@ == hit_line(
                qname,
                fm.contigs@[hits[k].contig_idx as int].name@,
                hits[k],
                seq,
                qual,
            )
    }
}

/// The SAM records of a read with these hits.
pub fn sam_records(fm: &FMIndex, qname: &str, seq: &[u8], qual: &[u8], hits: &Vec<ReadHit>) -> (lines: Vec<String>)
    requires
        forall|k: int|
            0 <= k < hits@.len() ==> (#[trigger] hits@[k]).contig_idx < fm.contigs@.len() && hits@[k].score >= 0
                && hits@[k].next_best >= 0,
    ensures
        sam_lines_spec(fm, qname@, seq@, qual@, hits@, lines@),
{
    let mut lines: Vec<String> = Vec::new();
    if hits.len() == 0 {
        let mut line = String::new();
        push_text(&mut line, qname);
        push_text(&mut line, "\t4\t*\t0\t0\t*\t*\t0\t0\t");
        push_bytes(&mut line, seq);
        push_text(&mut line, "\t");
        push_bytes(&mut line, qual);
        assert(line@ =~= unmapped_line(qname@, seq@, qual@));
        lines.push(line);
        return lines;
    }
    let mut k: usize = 0;
    while k < hits.len()
        invariant
            k <= hits@.len(),
            lines@.len() == k,
            forall|k: int|
                0 <= k < hits@.len() ==> (#[trigger] hits@[k]).contig_idx < fm.contigs@.len() && hits@[k].score >= 0
                    && hits@[k].next_best >= 0,
            forall|t: int|
                0 <= t < k ==> (#[trigger] lines@[t])@ == hit_line(
                    qname@,
                    fm.contigs@[hits@[t].contig_idx as int].name@,
                    hits@[t],
                    seq@,
                    qual@,
                ),
        decreases hits@.len() - k,
    {
        let h = &hits[k];
        let mut line = String::new();
        push_text(&mut line, qname);
        push_text(&mut line, "\t");
        push_decimal(&mut line, h.flag() as usize);
        push_text(&mut line, "\t");
        push_text(&mut line, fm.contigs[h.contig_idx].name.as_str());
        push_text(&mut line, "\t");
        push_decimal(&mut line, h.pos1 as usize);
        push_text(&mut line, "\t");
        push_decimal(&mut line, h.mapq as usize);
        push_text(&mut line, "\t");
        push_text(&mut line, h.cigar.as_str());
        push_text(&mut line, "\t*\t0\t0\t");
        push_bytes(&mut line, seq);
        push_text(&mut line, "\t");
        push_bytes(&mut line, qual);
        push_text(&mut line, "\tAS:i:");
        push_decimal(&mut line, h.score as usize);
        push_text(&mut line, "\tXS:i:");
        push_decimal(&mut line, h.next_best as usize);
        push_text(&mut line, "\tNM:i:");
        push_decimal(&mut line, h.nm as usize);
        assert(line@ =~= hit_line(qname@, fm.contigs@[h.contig_idx as int].name@, *h, seq@, qual@));
        lines.push(line);
        k += 1;
    }
    lines
}

/// Aligns one read and returns its SAM records.
pub fn align_read(
    fm: &FMIndex,
    qname: &str,
    seq: &[u8],
    qual: &[u8],
    opt: &AlignOpt,
    buf: &mut SwBuffer,
) -> (lines: Vec<String>)
    requires
        fm.wf(),
        fm.sigma as usize == SIGMA,
        seq@.len() <= READ_LEN_MAX,
        params_ok(params_of(*opt), seq@.len() as int),
    ensures
        exists|hits: Seq<ReadHit>|
            #[trigger] read_hits_ok(fm, seq@, *opt, hits) && sam_lines_spec(fm, qname@, seq@, qual@, hits, lines@),
{
    let hits = align_read_hits(fm, seq, opt, buf);
    proof {
        assert forall|k: int| 0 <= k < hits@.len() implies (#[trigger] hits@[k]).contig_idx < fm.contigs@.len()
            && hits@[k].score >= 0 && hits@[k].next_best >= 0 by {
            if hits@.len() > 1 {
                assert(hits@[1].score > 0);
            }
        }
    }
    sam_records(fm, qname, seq, qual, &hits)
}

} // verus!
