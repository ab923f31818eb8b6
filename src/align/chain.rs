//! Seed chaining: colinear, non-overlapping runs of seeds on one contig,
//! found by dynamic programming, extracted greedily, then filtered.
use vstd::prelude::*;
use crate::align::seed::{MemSeed, seed_ok, seed_len};

verus! {

broadcast use vstd::seq_lib::group_to_multiset_ensures, vstd::multiset::group_multiset_axioms;

/// A chain of seeds on one contig and its score.
#[derive(Clone, Debug, PartialEq, Eq)]
pub struct Chain {
    pub contig: usize,
    pub seeds: Vec<MemSeed>,
    pub score: u32,
}

/// Seed `b` may follow seed `a` in a chain: same contig, both intervals
/// after `a`'s, with gaps of at most `max_gap`.
pub open spec fn links(a: MemSeed, b: MemSeed, max_gap: int) -> bool {
    &&& a.contig == b.contig
    &&& a.qe <= b.qb
    &&& a.re <= b.rb
    &&& b.qb - a.qe <= max_gap
    &&& b.rb - a.re <= max_gap
}

/// Consecutive seeds link.
pub open spec fn chain_ok(c: Seq<MemSeed>, max_gap: int) -> bool {
    forall|k: int| 0 <= k < c.len() - 1 ==> links(#[trigger] c[k], c[k + 1], max_gap)
}

/// Sum of the seeds' read lengths.
pub open spec fn seeds_score(c: Seq<MemSeed>) -> int
    decreases c.len(),
{
    if c.len() == 0 {
        0
    } else {
        seed_len(c[0]) + seeds_score(c.drop_first())
    }
}

/// What `best_chain` promises of a chain drawn from `seeds`.
pub open spec fn chain_from(c: Chain, seeds: Seq<MemSeed>, max_gap: int) -> bool {
    &&& c.seeds@.len() >= 1
    &&& chain_ok(c.seeds@, max_gap)
    &&& forall|k: int| 0 <= k < c.seeds@.len() ==> seeds.contains(#[trigger] c.seeds@[k])
    &&& forall|k: int| 0 <= k < c.seeds@.len() ==> (#[trigger] c.seeds@[k]).contig == c.contig
    &&& c.score == seeds_score(c.seeds@)
}

/// Sort key order `(contig, qb, rb)`.
pub open spec fn key_le(a: MemSeed, b: MemSeed) -> bool {
    a.contig < b.contig || (a.contig == b.contig && (a.qb < b.qb || (a.qb == b.qb && a.rb <= b.rb)))
}

fn key_le_exec(a: &MemSeed, b: &MemSeed) -> (r: bool)
    ensures
        r == key_le(*a, *b),
{
    a.contig < b.contig || (a.contig == b.contig && (a.qb < b.qb || (a.qb == b.qb && a.rb <= b.rb)))
}

/// The indices `0..n` in order.
pub open spec fn index_seq(n: nat) -> Seq<usize> {
    Seq::new(n, |i: int| i as usize)
}

/// The indices of `seeds` ordered stably by `(contig, qb, rb)`.
fn sorted_indices(seeds: &[MemSeed]) -> (idxs: Vec<usize>)
    ensures
        idxs@.to_multiset() == index_seq(seeds@.len()).to_multiset(),
        idxs@.len() == seeds@.len(),
        forall|t: int| 0 <= t < idxs@.len() ==> idxs@[t] < seeds@.len(),
        forall|a: int, b: int|
            0 <= a < b < idxs@.len() ==> key_le(seeds@[#[trigger] idxs@[a] as int], seeds@[#[trigger] idxs@[b] as int]),
{
    let n = seeds.len();
    let mut idxs: Vec<usize> = Vec::new();
    let mut k: usize = 0;
    while k < n
        invariant
            n == seeds@.len(),
            k <= n,
            idxs@.len() == k,
            idxs@.to_multiset() == index_seq(k as nat).to_multiset(),
            forall|t: int| 0 <= t < idxs@.len() ==> idxs@[t] < k,
            forall|a: int, b: int|
                0 <= a < b < idxs@.len() ==> key_le(seeds@[#[trigger] idxs@[a] as int], seeds@[#[trigger] idxs@[b] as int]),
        decreases n - k,
    {
        let mut pos: usize = idxs.len();
        while pos > 0 && !key_le_exec(&seeds[idxs[pos - 1]], &seeds[k])
            invariant
                n == seeds@.len(),
                k < n,
                pos <= idxs@.len(),
                forall|t: int| 0 <= t < idxs@.len() ==> idxs@[t] < k,
                forall|t: int| pos <= t < idxs@.len() ==> !key_le(seeds@[#[trigger] idxs@[t] as int], seeds@[k as int]),
            decreases pos,
        {
            pos -= 1;
        }
        let ghost old = idxs@;
        idxs.insert(pos, k);
        proof {
            assert(index_seq((k + 1) as nat) =~= index_seq(k as nat).push(k));
            assert forall|t: int| 0 <= t < idxs@.len() implies idxs@[t] < k + 1 by {
                if t < pos {
                    assert(idxs@[t] == old[t]);
                } else if t > pos {
                    assert(idxs@[t] == old[t - 1]);
                }
            }
            assert forall|a: int, b: int| 0 <= a < b < idxs@.len() implies key_le(
                seeds@[#[trigger] idxs@[a] as int],
                seeds@[#[trigger] idxs@[b] as int],
            ) by {
                if b < pos {
                    assert(idxs@[a] == old[a] && idxs@[b] == old[b]);
                } else if b == pos {
                    assert(idxs@[a] == old[a]);
                    assert(key_le(seeds@[old[pos - 1] as int], seeds@[k as int]));
                    if a < pos - 1 {
                        assert(key_le(seeds@[old[a] as int], seeds@[old[pos - 1] as int]));
                    }
                } else if a < pos {
                    assert(idxs@[a] == old[a] && idxs@[b] == old[b - 1]);
                    assert(!key_le(seeds@[old[b - 1] as int], seeds@[k as int]));
                    if pos > 0 {
                        assert(key_le(seeds@[old[pos - 1] as int], seeds@[k as int]));
                        if a < pos - 1 {
                            assert(key_le(seeds@[old[a] as int], seeds@[old[pos - 1] as int]));
                        }
                    }
                } else if a == pos {
                    assert(idxs@[b] == old[b - 1]);
                    assert(!key_le(seeds@[old[b - 1] as int], seeds@[k as int]));
                } else {
                    assert(idxs@[a] == old[a - 1] && idxs@[b] == old[b - 1]);
                }
            }
        }
        k += 1;
    }
    proof {
        assert(idxs@.len() == idxs@.to_multiset().len());
    }
    idxs
}

/// A chain that `seeds` could form: non-empty, linked, each seed taken
/// from `seeds`.
pub open spec fn valid_chain(c: Seq<MemSeed>, seeds: Seq<MemSeed>, max_gap: int) -> bool {
    &&& c.len() >= 1
    &&& chain_ok(c, max_gap)
    &&& forall|k: int| 0 <= k < c.len() ==> seeds.contains(#[trigger] c[k])
}

proof fn lemma_seeds_score_push(c: Seq<MemSeed>, x: MemSeed)
    ensures
        seeds_score(c.push(x)) == seeds_score(c) + seed_len(x),
    decreases c.len(),
{
    if c.len() > 0 {
        assert(c.push(x).drop_first() =~= c.drop_first().push(x));
        lemma_seeds_score_push(c.drop_first(), x);
    } else {
        assert(c.push(x).drop_first() =~= Seq::<MemSeed>::empty());
        reveal_with_fuel(seeds_score, 2);
    }
}

/// No valid chain ending at the seed in sorted position `t` scores above
/// `dp[t]`.
proof fn lemma_dp_bounds_chains(
    sd: Seq<MemSeed>,
    ix: Seq<usize>,
    dp: Seq<u32>,
    max_gap: int,
    c: Seq<MemSeed>,
    t: int,
)
    requires
        ix.len() == sd.len(),
        dp.len() == sd.len(),
        forall|k: int| 0 <= k < sd.len() ==> seed_ok(#[trigger] sd[k]),
        forall|k: int| 0 <= k < ix.len() ==> ix[k] < sd.len(),
        ix.to_multiset() == index_seq(sd.len()).to_multiset(),
        forall|a: int, b: int| 0 <= a < b < ix.len() ==> key_le(sd[#[trigger] ix[a] as int], sd[#[trigger] ix[b] as int]),
        forall|u: int| 0 <= u < dp.len() ==> dp[u] >= seed_len(#[trigger] sd[ix[u] as int]),
        forall|w: int, u: int|
            0 <= u < w < dp.len() && links(sd[ix[u] as int], sd[ix[w] as int], max_gap) ==> #[trigger] dp[w]
                >= #[trigger] dp[u] + seed_len(sd[ix[w] as int]),
        valid_chain(c, sd, max_gap),
        0 <= t < sd.len(),
        sd.len() <= usize::MAX,
        sd[ix[t] as int] == c.last(),
    ensures
        seeds_score(c) <= dp[t],
    decreases c.len(),
{
    if c.len() == 1 {
        assert(c.drop_first() =~= Seq::<MemSeed>::empty());
        assert(c.last() == c[0]);
        reveal_with_fuel(seeds_score, 2);
        assert(seeds_score(c) == seed_len(c[0]));
        assert(dp[t] >= seed_len(sd[ix[t] as int]));
    } else {
        let c2 = c.drop_last();
        let a = c2.last();
        assert(links(c[c.len() - 2], c[c.len() - 1], max_gap));
        assert(a == c[c.len() - 2]);
        assert(sd.contains(a));
        let w = choose|w: int| 0 <= w < sd.len() && sd[w] == a;
        let wu = w as usize;
        assert(index_seq(sd.len())[w] == wu);
        assert(index_seq(sd.len()).contains(wu));
        assert(ix.to_multiset().count(wu) > 0);
        assert(ix.contains(wu));
        let u = choose|u: int| 0 <= u < ix.len() && ix[u] == wu;
        assert(sd[ix[u] as int] == a);
        assert(seed_ok(a));
        assert(a.qb < c.last().qb);
        if u > t {
            assert(key_le(sd[ix[t] as int], sd[ix[u] as int]));
        }
        assert(u != t);
        assert(u < t);
        assert forall|k: int| 0 <= k < c2.len() - 1 implies links(#[trigger] c2[k], c2[k + 1], max_gap) by {
            assert(c2[k] == c[k] && c2[k + 1] == c[k + 1]);
        }
        assert forall|k: int| 0 <= k < c2.len() implies sd.contains(#[trigger] c2[k]) by {
            assert(c2[k] == c[k]);
        }
        lemma_dp_bounds_chains(sd, ix, dp, max_gap, c2, u);
        assert(c2.push(c.last()) =~= c);
        lemma_seeds_score_push(c2, c.last());
        assert(dp[t] >= dp[u] + seed_len(sd[ix[t] as int]));
    }
}

/// The best-scoring chain among `seeds`: a DP over seeds sorted by
/// `(contig, qb, rb)`, where a seed extends the best chain ending at an
/// earlier seed it links to (the first such chain on ties).
pub fn best_chain(seeds: &[MemSeed], max_gap: usize) -> (res: Option<Chain>)
    requires
        forall|k: int| 0 <= k < seeds@.len() ==> seed_ok(#[trigger] seeds@[k]),
    ensures
        seeds@.len() == 0 <==> res is None,
        res matches Some(c) ==> chain_from(c, seeds@, max_gap as int),
        res matches Some(c) ==> forall|other: Seq<MemSeed>|
            valid_chain(other, seeds@, max_gap as int) ==> #[trigger] seeds_score(other) <= c.score,
{
    if seeds.len() == 0 {
        return None;
    }
    let idxs = sorted_indices(seeds);
    let n = idxs.len();
    let ghost sd = seeds@;
    let ghost ix = idxs@;
    let mut dp: Vec<u32> = Vec::new();
    let mut prev: Vec<Option<usize>> = Vec::new();
    let mut best_t: usize = 0;
    let mut t: usize = 0;
    while t < n
        invariant
            n == ix.len(),
            ix == idxs@,
            sd == seeds@,
            n == sd.len(),
            n > 0,
            forall|k: int| 0 <= k < sd.len() ==> seed_ok(#[trigger] sd[k]),
            forall|k: int| 0 <= k < n ==> ix[k] < n,
            t <= n,
            dp@.len() == t,
            prev@.len() == t,
            t > 0 ==> best_t < t,
            forall|u: int| 0 <= u < t ==> dp@[best_t as int] >= #[trigger] dp@[u],
            forall|u: int| 0 <= u < t ==> dp@[u] >= seed_len(#[trigger] sd[ix[u] as int]),
            forall|u: int| 0 <= u < t ==> dp@[u] <= (#[trigger] sd[ix[u] as int]).qe,
            forall|w: int, u: int|
                0 <= u < w < t && links(sd[ix[u] as int], sd[ix[w] as int], max_gap as int) ==> #[trigger] dp@[w]
                    >= #[trigger] dp@[u] + seed_len(sd[ix[w] as int]),
            forall|u: int|
                0 <= u < t ==> match #[trigger] prev@[u] {
                    Some(v) => v < u && links(sd[ix[v as int] as int], sd[ix[u] as int], max_gap as int)
                        && dp@[u] == dp@[v as int] + seed_len(sd[ix[u] as int]),
                    None => dp@[u] == seed_len(sd[ix[u] as int]),
                },
        decreases n - t,
    {
        let si = seeds[idxs[t]];
        let len_i = (si.qe - si.qb) as u32;
        let mut best_here: u32 = len_i;
        let mut prev_here: Option<usize> = None;
        let mut u: usize = 0;
        while u < t
            invariant
                n == ix.len(),
                ix == idxs@,
                sd == seeds@,
                n == sd.len(),
                forall|k: int| 0 <= k < sd.len() ==> seed_ok(#[trigger] sd[k]),
                forall|k: int| 0 <= k < n ==> ix[k] < n,
                t < n,
                u <= t,
                dp@.len() == t,
                si == sd[ix[t as int] as int],
                len_i == seed_len(si),
                best_here >= len_i,
                best_here <= si.qe,
                forall|w: int| 0 <= w < t ==> dp@[w] <= (#[trigger] sd[ix[w] as int]).qe,
                forall|w: int|
                    0 <= w < u && links(sd[ix[w] as int], si, max_gap as int) ==> best_here >= #[trigger] dp@[w] + len_i,
                match prev_here {
                    Some(v) => v < u && links(sd[ix[v as int] as int], si, max_gap as int) && best_here
                        == dp@[v as int] + len_i,
                    None => best_here == len_i,
                },
            decreases t - u,
        {
            let sj = seeds[idxs[u]];
            if sj.contig == si.contig && sj.qe <= si.qb && sj.re <= si.rb {
                let gap_q = si.qb - sj.qe;
                let gap_r = (si.rb - sj.re) as usize;
                if gap_q <= max_gap && gap_r <= max_gap {
                    assert(dp@[u as int] <= sj.qe);
                    let cand = dp[u] + len_i;
                    if cand > best_here {
                        best_here = cand;
                        prev_here = Some(u);
                    }
                }
            }
            u += 1;
        }
        let ghost old_dp = dp@;
        dp.push(best_here);
        prev.push(prev_here);
        if t == 0 || best_here > dp[best_t] {
            best_t = t;
        }
        proof {
            assert forall|w: int, u: int|
                0 <= u < w < t + 1 && links(sd[ix[u] as int], sd[ix[w] as int], max_gap as int) implies #[trigger] dp@[w]
                    >= #[trigger] dp@[u] + seed_len(sd[ix[w] as int]) by {
                assert(dp@[u] == old_dp[u]);
                if w < t {
                    assert(dp@[w] == old_dp[w]);
                }
            }
            assert forall|u: int| 0 <= u < t + 1 implies dp@[best_t as int] >= #[trigger] dp@[u] by {
                if u < t {
                    assert(dp@[u] == old_dp[u]);
                }
            }
        }
        t += 1;
    }
    let ghost dp_final = dp@;
    let contig = seeds[idxs[best_t]].contig;
    let mut chain_seeds: Vec<MemSeed> = Vec::new();
    let mut cur: Option<usize> = Some(best_t);
    let ghost best_seed = sd[ix[best_t as int] as int];
    while cur.is_some()
        invariant
            n == ix.len(),
            ix == idxs@,
            sd == seeds@,
            n == sd.len(),
            forall|k: int| 0 <= k < n ==> ix[k] < n,
            dp@.len() == n,
            prev@.len() == n,
            best_t < n,
            contig == best_seed.contig,
            best_seed == sd[ix[best_t as int] as int],
            forall|u: int|
                0 <= u < n ==> match #[trigger] prev@[u] {
                    Some(v) => v < u && links(sd[ix[v as int] as int], sd[ix[u] as int], max_gap as int)
                        && dp@[u] == dp@[v as int] + seed_len(sd[ix[u] as int]),
                    None => dp@[u] == seed_len(sd[ix[u] as int]),
                },
            chain_ok(chain_seeds@, max_gap as int),
            forall|k: int| 0 <= k < chain_seeds@.len() ==> sd.contains(#[trigger] chain_seeds@[k]),
            forall|k: int| 0 <= k < chain_seeds@.len() ==> (#[trigger] chain_seeds@[k]).contig == contig,
            match cur {
                Some(c) => c < n && dp@[c as int] + seeds_score(chain_seeds@) == dp@[best_t as int]
                    && sd[ix[c as int] as int].contig == contig && (chain_seeds@.len() > 0 ==> links(
                    sd[ix[c as int] as int],
                    chain_seeds@[0],
                    max_gap as int,
                )),
                None => seeds_score(chain_seeds@) == dp@[best_t as int] && chain_seeds@.len() > 0,
            },
        decreases match cur {
            Some(c) => c + 1,
            None => 0,
        },
    {
        let c = cur.unwrap();
        let s = seeds[idxs[c]];
        let ghost old_chain = chain_seeds@;
        chain_seeds.insert(0, s);
        proof {
            assert(chain_seeds@.drop_first() =~= old_chain);
            assert(sd[ix[c as int] as int] == s);
            assert forall|k: int| 0 <= k < chain_seeds@.len() - 1 implies links(
                #[trigger] chain_seeds@[k],
                chain_seeds@[k + 1],
                max_gap as int,
            ) by {
                if k > 0 {
                    assert(chain_seeds@[k] == old_chain[k - 1]);
                }
            }
            assert forall|k: int| 0 <= k < chain_seeds@.len() implies sd.contains(#[trigger] chain_seeds@[k])
                && chain_seeds@[k].contig == contig by {
                if k > 0 {
                    assert(chain_seeds@[k] == old_chain[k - 1]);
                }
            }
            assert(prev@[c as int] == prev[c as int]);
        }
        cur = prev[c];
    }
    proof {
        assert forall|other: Seq<MemSeed>| valid_chain(other, seeds@, max_gap as int) implies #[trigger] seeds_score(
            other,
        ) <= dp@[best_t as int] by {
            let last = other.last();
            assert(other[other.len() - 1] == last);
            assert(sd.contains(last));
            let w = choose|w: int| 0 <= w < sd.len() && sd[w] == last;
            let wu = w as usize;
            assert(index_seq(n as nat)[w] == wu);
            assert(index_seq(n as nat).contains(wu));
            assert(ix.to_multiset().count(wu) > 0);
            assert(ix.contains(wu));
            let t = choose|t: int| 0 <= t < ix.len() && ix[t] == wu;
            lemma_dp_bounds_chains(sd, ix, dp_final, max_gap as int, other, t);
            assert(dp_final[best_t as int] >= dp_final[t]);
        }
    }
    let score = dp[best_t];
    Some(Chain { contig, seeds: chain_seeds, score })
}

/// Within a chain of valid seeds both `qb` and `rb` strictly increase.
pub proof fn lemma_chain_monotone(c: Seq<MemSeed>, max_gap: int, k: int, l: int)
    requires
        chain_ok(c, max_gap),
        forall|t: int| 0 <= t < c.len() ==> seed_ok(#[trigger] c[t]),
        forall|t: int| 0 <= t < c.len() ==> (#[trigger] c[t]).rb < c[t].re,
        0 <= k < l < c.len(),
    ensures
        c[k].qb < c[l].qb,
        c[k].rb < c[l].rb,
    decreases l - k,
{
    assert(links(c[l - 1], c[l], max_gap));
    assert(seed_ok(c[l - 1]));
    assert(c[l - 1].rb < c[l - 1].re);
    if k < l - 1 {
        lemma_chain_monotone(c, max_gap, k, l - 1);
    }
}

/// A linked chain stays on the contig of its first seed.
proof fn lemma_chain_contig(c: Seq<MemSeed>, max_gap: int, k: int)
    requires
        chain_ok(c, max_gap),
        0 <= k < c.len(),
    ensures
        c[k].contig == c[0].contig,
    decreases k,
{
    if k > 0 {
        assert(links(c[k - 1], c[k], max_gap));
        lemma_chain_contig(c, max_gap, k - 1);
    }
}

/// The chain's first seed lies on one of the first `ci` listed contigs.
pub open spec fn on_contig_among(other: Seq<MemSeed>, contigs: Seq<usize>, ci: int) -> bool {
    exists|u: int| 0 <= u < ci && contigs[u] == other[0].contig
}

/// Two seeds cover the same read and reference intervals.
pub open spec fn same_key(a: MemSeed, b: MemSeed) -> bool {
    a.qb == b.qb && a.qe == b.qe && a.rb == b.rb && a.re == b.re
}

/// A seed of the chain covers the same intervals as `s`.
pub open spec fn keyed_by(s: MemSeed, y: Chain) -> bool {
    exists|t: int| 0 <= t < y.seeds@.len() && #[trigger] same_key(y.seeds@[t], s)
}

/// No seed of `x` covers the same intervals as a seed of `y`.
pub open spec fn key_disjoint(x: Chain, y: Chain) -> bool {
    forall|t: int| 0 <= t < x.seeds@.len() ==> !keyed_by(#[trigger] x.seeds@[t], y)
}

/// Some chain of the list on the seed's contig uses a seed with its
/// intervals.
pub open spec fn seed_used(s: MemSeed, chains: Seq<Chain>) -> bool {
    exists|y: Chain| chains.contains(y) && y.contig == s.contig && #[trigger] keyed_by(s, y)
}

/// Number of chains of the list on contig `x`.
pub open spec fn contig_count(cs: Seq<Chain>, x: usize) -> nat {
    cs.map_values(|c: Chain| c.contig).to_multiset().count(x)
}

/// Some chain of the list scores at least as much as `other`.
pub open spec fn beaten(other: Seq<MemSeed>, chains: Seq<Chain>) -> bool {
    exists|k: int| 0 <= k < chains.len() && #[trigger] chains[k].score >= seeds_score(other)
}

/// Every chain is drawn from `seeds`, and the list is ordered by score,
/// highest first.
pub open spec fn chains_from(out: Seq<Chain>, seeds: Seq<MemSeed>, max_gap: int) -> bool {
    &&& forall|k: int| 0 <= k < out.len() ==> chain_from(#[trigger] out[k], seeds, max_gap)
    &&& forall|i: int, j: int| 0 <= i < j < out.len() ==> (#[trigger] out[i]).score >= (#[trigger] out[j]).score
}

/// Inserts `c` after every chain scoring at least as much.
fn insert_by_score(out: &mut Vec<Chain>, c: Chain, seeds: Ghost<Seq<MemSeed>>, max_gap: Ghost<int>)
    requires
        chains_from(old(out)@, seeds@, max_gap@),
        chain_from(c, seeds@, max_gap@),
    ensures
        chains_from(final(out)@, seeds@, max_gap@),
        final(out)@.len() == old(out)@.len() + 1,
        forall|other: Seq<MemSeed>| #[trigger] beaten(other, old(out)@) ==> beaten(other, final(out)@),
        forall|other: Seq<MemSeed>| seeds_score(other) <= c.score ==> #[trigger] beaten(other, final(out)@),
        forall|y: Chain| #[trigger] final(out)@.contains(y) <==> old(out)@.contains(y) || y == c,
        forall|x: usize| #[trigger] contig_count(final(out)@, x) == contig_count(old(out)@, x) + (if c.contig == x {
            1nat
        } else {
            0nat
        }),
{
    let mut pos: usize = out.len();
    while pos > 0 && out[pos - 1].score < c.score
        invariant
            pos <= out@.len(),
            forall|t: int| pos <= t < out@.len() ==> (#[trigger] out@[t]).score < c.score,
        decreases pos,
    {
        pos -= 1;
    }
    let ghost old_out = out@;
    let ghost c_score = c.score;
    let ghost c_contig = c.contig;
    let ghost c_val = c;
    out.insert(pos, c);
    proof {
        assert forall|y: Chain| #[trigger] out@.contains(y) <==> old_out.contains(y) || y == c_val by {
            if out@.contains(y) {
                let t = choose|t: int| 0 <= t < out@.len() && out@[t] == y;
                if t < pos {
                    assert(old_out[t] == y);
                } else if t > pos {
                    assert(old_out[t - 1] == y);
                }
            }
            if old_out.contains(y) {
                let t = choose|t: int| 0 <= t < old_out.len() && old_out[t] == y;
                if t < pos {
                    assert(out@[t] == y);
                } else {
                    assert(out@[t + 1] == y);
                }
            }
            if y == c_val {
                assert(out@[pos as int] == y);
            }
        }
        assert(out@.map_values(|c: Chain| c.contig) =~= old_out.map_values(|c: Chain| c.contig).insert(
            pos as int,
            c_contig,
        ));
        assert forall|other: Seq<MemSeed>| beaten(other, old_out) implies beaten(other, out@) by {
            let k = choose|k: int| 0 <= k < old_out.len() && #[trigger] old_out[k].score >= seeds_score(other);
            if k < pos {
                assert(out@[k] == old_out[k]);
                assert(out@[k].score >= seeds_score(other));
            } else {
                assert(out@[k + 1] == old_out[k]);
                assert(out@[k + 1].score >= seeds_score(other));
            }
        }
        assert forall|other: Seq<MemSeed>| seeds_score(other) <= c_score implies beaten(other, out@) by {
            assert(out@[pos as int].score >= seeds_score(other));
        }
        assert forall|k: int| 0 <= k < out@.len() implies chain_from(#[trigger] out@[k], seeds@, max_gap@) by {
            if k < pos {
                assert(out@[k] == old_out[k]);
            } else if k > pos {
                assert(out@[k] == old_out[k - 1]);
            }
        }
        assert forall|i: int, j: int| 0 <= i < j < out@.len() implies (#[trigger] out@[i]).score
            >= (#[trigger] out@[j]).score by {
            if j < pos {
                assert(out@[i] == old_out[i] && out@[j] == old_out[j]);
            } else if j == pos {
                assert(out@[i] == old_out[i]);
                assert(old_out[pos - 1].score >= c.score);
                assert(old_out[i].score >= old_out[pos - 1].score || i == pos - 1);
            } else if i < pos {
                assert(out@[i] == old_out[i] && out@[j] == old_out[j - 1]);
            } else if i == pos {
                assert(out@[j] == old_out[j - 1]);
            } else {
                assert(out@[i] == old_out[i - 1] && out@[j] == old_out[j - 1]);
            }
        }
    }
}

/// All chains over `seeds`: per contig (in order of first appearance), up to
/// five chains taken greedily, each time removing the chained seeds from the
/// pool; the union ordered by score, highest first.
pub fn build_chains(seeds: &[MemSeed], max_gap: usize) -> (chains: Vec<Chain>)
    requires
        forall|k: int| 0 <= k < seeds@.len() ==> seed_ok(#[trigger] seeds@[k]),
    ensures
        chains_from(chains@, seeds@, max_gap as int),
        seeds@.len() == 0 <==> chains@.len() == 0,
        forall|other: Seq<MemSeed>|
            valid_chain(other, seeds@, max_gap as int) ==> #[trigger] seeds_score(other) <= chains@[0].score,
        forall|x: usize| #[trigger] contig_count(chains@, x) <= 5,
        forall|x: Chain, y: Chain|
            chains@.contains(x) && chains@.contains(y) && x.contig == y.contig && x != y ==> #[trigger] key_disjoint(x, y),
        forall|j: int|
            0 <= j < seeds@.len() && contig_count(chains@, seeds@[j].contig) < 5 ==> seed_used(
                #[trigger] seeds@[j],
                chains@,
            ),
{
    let mut chains: Vec<Chain> = Vec::new();
    if seeds.len() == 0 {
        return chains;
    }
    let ghost sd = seeds@;
    let mut contigs: Vec<usize> = Vec::new();
    let mut k: usize = 0;
    while k < seeds.len()
        invariant
            sd == seeds@,
            k <= sd.len(),
            k > 0 ==> contigs@.len() > 0 && contigs@[0] == sd[0].contig,
            k == 0 ==> contigs@.len() == 0,
            forall|j: int| 0 <= j < k ==> contigs@.contains(#[trigger] sd[j].contig),
            forall|a: int, b: int| 0 <= a < b < contigs@.len() ==> #[trigger] contigs@[a] != #[trigger] contigs@[b],
        decreases seeds@.len() - k,
    {
        let c = seeds[k].contig;
        let mut seen = false;
        let mut t: usize = 0;
        while t < contigs.len()
            invariant
                t <= contigs@.len(),
                contigs@.len() == 0 ==> !seen,
                seen ==> contigs@.contains(c),
                !seen ==> forall|u: int| 0 <= u < t ==> contigs@[u] != c,
            decreases contigs@.len() - t,
        {
            if contigs[t] == c {
                seen = true;
            }
            t += 1;
        }
        let ghost old_contigs = contigs@;
        if !seen {
            contigs.push(c);
        }
        proof {
            assert forall|j: int| 0 <= j < k + 1 implies contigs@.contains(#[trigger] sd[j].contig) by {
                if j < k {
                    let w = choose|w: int| 0 <= w < old_contigs.len() && old_contigs[w] == sd[j].contig;
                    assert(contigs@[w] == sd[j].contig);
                } else if !seen {
                    assert(contigs@[old_contigs.len() as int] == c);
                }
            }
        }
        k += 1;
    }
    let mut ci: usize = 0;
    while ci < contigs.len()
        invariant
            sd == seeds@,
            sd.len() > 0,
            forall|k: int| 0 <= k < sd.len() ==> seed_ok(#[trigger] sd[k]),
            ci <= contigs@.len(),
            contigs@.len() > 0,
            contigs@[0] == sd[0].contig,
            chains_from(chains@, sd, max_gap as int),
            ci > 0 ==> chains@.len() > 0,
            forall|j: int| 0 <= j < sd.len() ==> contigs@.contains(#[trigger] sd[j].contig),
            forall|other: Seq<MemSeed>|
                #[trigger] valid_chain(other, sd, max_gap as int) && on_contig_among(other, contigs@, ci as int)
                    ==> beaten(other, chains@),
            forall|a: int, b: int| 0 <= a < b < contigs@.len() ==> #[trigger] contigs@[a] != #[trigger] contigs@[b],
            forall|x: usize| #[trigger] contig_count(chains@, x) <= 5,
            forall|x: usize|
                (forall|u: int| 0 <= u < ci ==> contigs@[u] != x) ==> #[trigger] contig_count(chains@, x) == 0,
            forall|y: Chain| #[trigger] chains@.contains(y) ==> exists|u: int| 0 <= u < ci && contigs@[u] == y.contig,
            forall|x: Chain, y: Chain|
                chains@.contains(x) && chains@.contains(y) && x.contig == y.contig && x != y ==> #[trigger] key_disjoint(x, y),
            forall|j: int|
                0 <= j < sd.len() && (exists|u: int| 0 <= u < ci && contigs@[u] == sd[j].contig) && contig_count(
                    chains@,
                    sd[j].contig,
                ) < 5 ==> seed_used(#[trigger] sd[j], chains@),
        decreases contigs@.len() - ci,
    {
        let c = contigs[ci];
        let mut remaining: Vec<MemSeed> = Vec::new();
        let mut k: usize = 0;
        while k < seeds.len()
            invariant
                sd == seeds@,
                k <= sd.len(),
                sd.len() > 0,
                c == contigs@[ci as int],
                ci < contigs@.len(),
                contigs@[0] == sd[0].contig,
                ci == 0 && k > 0 ==> remaining@.len() > 0,
                forall|t: int| 0 <= t < remaining@.len() ==> sd.contains(#[trigger] remaining@[t]),
                forall|t: int| 0 <= t < remaining@.len() ==> (#[trigger] remaining@[t]).contig == c,
                forall|j: int| 0 <= j < k && sd[j].contig == c ==> remaining@.contains(#[trigger] sd[j]),
            decreases sd.len() - k,
        {
            if seeds[k].contig == c {
                let ghost old_rem = remaining@;
                remaining.push(seeds[k]);
                proof {
                    assert forall|t: int| 0 <= t < remaining@.len() implies sd.contains(#[trigger] remaining@[t]) by {
                        if t < old_rem.len() {
                            assert(remaining@[t] == old_rem[t]);
                        } else {
                            assert(remaining@[t] == sd[k as int]);
                        }
                    }
                    assert forall|j: int| 0 <= j < k + 1 && sd[j].contig == c implies remaining@.contains(#[trigger] sd[j]) by {
                        if j < k {
                            let w = choose|w: int| 0 <= w < old_rem.len() && old_rem[w] == sd[j];
                            assert(remaining@[w] == sd[j]);
                        } else {
                            assert(remaining@[old_rem.len() as int] == sd[j]);
                        }
                    }
                }
            }
            k += 1;
        }
        let ghost first_len = remaining@.len();
        let ghost rem0 = remaining@;
        let ghost start = chains@;
        let ghost mut rc: Seq<Chain> = Seq::empty();
        proof {
            assert(contig_count(start, c) == 0) by {
                assert forall|u: int| 0 <= u < ci implies contigs@[u] != c by {
                    assert(contigs@[u] != contigs@[ci as int]);
                }
            }
        }
        let mut round: usize = 0;
        while round < 5 && remaining.len() > 0
            invariant
                sd == seeds@,
                forall|k: int| 0 <= k < sd.len() ==> seed_ok(#[trigger] sd[k]),
                forall|t: int| 0 <= t < remaining@.len() ==> sd.contains(#[trigger] remaining@[t]),
                forall|t: int| 0 <= t < remaining@.len() ==> (#[trigger] remaining@[t]).contig == c,
                chains_from(chains@, sd, max_gap as int),
                round <= 5,
                round == 0 ==> remaining@.len() == first_len,
                round == 0 ==> remaining@ == rem0,
                round > 0 ==> chains@.len() > 0,
                ci > 0 ==> chains@.len() > 0,
                forall|j: int| 0 <= j < sd.len() && sd[j].contig == c ==> rem0.contains(#[trigger] sd[j]),
                forall|other: Seq<MemSeed>|
                    #[trigger] valid_chain(other, sd, max_gap as int) && on_contig_among(other, contigs@, ci as int)
                        ==> beaten(other, chains@),
                round > 0 ==> forall|other: Seq<MemSeed>|
                    #[trigger] valid_chain(other, sd, max_gap as int) && other[0].contig == c ==> beaten(other, chains@),
                c == contigs@[ci as int],
                ci < contigs@.len(),
                contig_count(chains@, c) == round,
                forall|x: usize| x != c ==> #[trigger] contig_count(chains@, x) == contig_count(start, x),
                rc.len() == round,
                forall|y: Chain| #[trigger] chains@.contains(y) <==> start.contains(y) || rc.contains(y),
                forall|r: int| 0 <= r < rc.len() ==> (#[trigger] rc[r]).contig == c,
                forall|r1: int, r2: int|
                    0 <= r1 < rc.len() && 0 <= r2 < rc.len() && r1 != r2 ==> key_disjoint(#[trigger] rc[r1], #[trigger] rc[r2]),
                forall|w: int, r: int|
                    0 <= w < remaining@.len() && 0 <= r < rc.len() ==> !keyed_by(#[trigger] remaining@[w], #[trigger] rc[r]),
                forall|j: int|
                    0 <= j < sd.len() && sd[j].contig == c ==> remaining@.contains(#[trigger] sd[j]) || exists|r: int|
                        0 <= r < rc.len() && keyed_by(sd[j], #[trigger] rc[r]),
            decreases 5 - round,
        {
            proof {
                assert forall|t: int| 0 <= t < remaining@.len() implies seed_ok(#[trigger] remaining@[t]) by {
                    assert(sd.contains(remaining@[t]));
                }
            }
            let found = best_chain(remaining.as_slice(), max_gap);
            match found {
                Some(chain) => {
                    proof {
                        assert forall|t: int| 0 <= t < chain.seeds@.len() implies sd.contains(#[trigger] chain.seeds@[t]) by {
                            assert(remaining@.contains(chain.seeds@[t]));
                            let w = choose|w: int| 0 <= w < remaining@.len() && remaining@[w] == chain.seeds@[t];
                            assert(sd.contains(remaining@[w]));
                        }
                    }
                    let mut kept: Vec<MemSeed> = Vec::new();
                    let mut t: usize = 0;
                    while t < remaining.len()
                        invariant
                            t <= remaining@.len(),
                            forall|w: int| 0 <= w < remaining@.len() ==> sd.contains(#[trigger] remaining@[w]),
                            forall|w: int| 0 <= w < kept@.len() ==> sd.contains(#[trigger] kept@[w]),
                            forall|w: int| 0 <= w < kept@.len() ==> (#[trigger] kept@[w]).contig == c,
                            forall|w: int| 0 <= w < remaining@.len() ==> (#[trigger] remaining@[w]).contig == c,
                            forall|w: int| 0 <= w < kept@.len() ==> remaining@.contains(#[trigger] kept@[w]),
                            forall|w: int| 0 <= w < kept@.len() ==> !keyed_by(#[trigger] kept@[w], chain),
                            forall|w: int|
                                0 <= w < t ==> kept@.contains(#[trigger] remaining@[w]) || keyed_by(remaining@[w], chain),
                        decreases remaining@.len() - t,
                    {
                        let s = remaining[t];
                        let mut used = false;
                        let mut u: usize = 0;
                        while u < chain.seeds.len()
                            invariant
                                u <= chain.seeds@.len(),
                                used == exists|v: int| 0 <= v < u && #[trigger] same_key(chain.seeds@[v], s),
                            decreases chain.seeds@.len() - u,
                        {
                            let cs = chain.seeds[u];
                            if cs.qb == s.qb && cs.qe == s.qe && cs.rb == s.rb && cs.re == s.re {
                                used = true;
                                assert(same_key(chain.seeds@[u as int], s));
                            } else {
                                assert(!same_key(chain.seeds@[u as int], s));
                            }
                            u += 1;
                        }
                        if !used {
                            let ghost old_kept = kept@;
                            kept.push(s);
                            proof {
                                assert forall|w: int| 0 <= w < kept@.len() implies sd.contains(#[trigger] kept@[w])
                                    && kept@[w].contig == c && remaining@.contains(kept@[w]) && !keyed_by(kept@[w], chain) by {
                                    if w < old_kept.len() {
                                        assert(kept@[w] == old_kept[w]);
                                    } else {
                                        assert(kept@[w] == remaining@[t as int]);
                                    }
                                }
                                assert forall|w: int| 0 <= w < t + 1 implies kept@.contains(#[trigger] remaining@[w])
                                    || keyed_by(remaining@[w], chain) by {
                                    if w < t {
                                        if old_kept.contains(remaining@[w]) {
                                            let v = choose|v: int| 0 <= v < old_kept.len() && old_kept[v] == remaining@[w];
                                            assert(kept@[v] == remaining@[w]);
                                        }
                                    } else {
                                        assert(kept@[old_kept.len() as int] == remaining@[w]);
                                    }
                                }
                            }
                        } else {
                            proof {
                                let v = choose|v: int| 0 <= v < chain.seeds@.len() && #[trigger] same_key(chain.seeds@[v], s);
                                assert(keyed_by(remaining@[t as int], chain));
                            }
                        }
                        t += 1;
                    }
                    let ghost best_score = chain.score;
                    proof {
                        assert(remaining@.contains(chain.seeds@[0]));
                        assert(chain.seeds@[0].contig == chain.contig);
                    }
                    proof {
                        if round == 0 {
                            assert forall|other: Seq<MemSeed>|
                                valid_chain(other, sd, max_gap as int) && other[0].contig == c implies seeds_score(other)
                                <= best_score by {
                                assert forall|k: int| 0 <= k < other.len() implies rem0.contains(#[trigger] other[k]) by {
                                    lemma_chain_contig(other, max_gap as int, k);
                                    assert(sd.contains(other[k]));
                                    let w = choose|w: int| 0 <= w < sd.len() && sd[w] == other[k];
                                    assert(sd[w].contig == c);
                                }
                                assert(valid_chain(other, rem0, max_gap as int));
                            }
                        }
                    }
                    let ghost old_rem = remaining@;
                    let ghost ch = chain;
                    proof {
                        assert forall|t: int| 0 <= t < ch.seeds@.len() implies old_rem.contains(#[trigger] ch.seeds@[t]) by {}
                        assert forall|r: int| 0 <= r < rc.len() implies key_disjoint(ch, #[trigger] rc[r]) && key_disjoint(rc[r], ch) by {
                            assert forall|t: int| 0 <= t < ch.seeds@.len() implies !keyed_by(#[trigger] ch.seeds@[t], rc[r]) by {
                                assert(old_rem.contains(ch.seeds@[t]));
                                let w = choose|w: int| 0 <= w < old_rem.len() && old_rem[w] == ch.seeds@[t];
                                assert(!keyed_by(old_rem[w], rc[r]));
                            }
                            assert forall|t: int| 0 <= t < rc[r].seeds@.len() implies !keyed_by(#[trigger] rc[r].seeds@[t], ch) by {
                                if keyed_by(rc[r].seeds@[t], ch) {
                                    let u = choose|u: int| 0 <= u < ch.seeds@.len() && #[trigger] same_key(ch.seeds@[u], rc[r].seeds@[t]);
                                    assert(same_key(rc[r].seeds@[t], ch.seeds@[u]));
                                    assert(keyed_by(ch.seeds@[u], rc[r]));
                                }
                            }
                        }
                    }
                    remaining = kept;
                    insert_by_score(&mut chains, chain, Ghost(sd), Ghost(max_gap as int));
                    proof {
                        let old_rc = rc;
                        rc = rc.push(ch);
                        assert forall|y: Chain| #[trigger] chains@.contains(y) <==> start.contains(y) || rc.contains(y) by {
                            if old_rc.contains(y) {
                                let r = choose|r: int| 0 <= r < old_rc.len() && old_rc[r] == y;
                                assert(rc[r] == y);
                            }
                            if y == ch {
                                assert(rc[old_rc.len() as int] == y);
                            }
                            if rc.contains(y) {
                                let r = choose|r: int| 0 <= r < rc.len() && rc[r] == y;
                                if r < old_rc.len() {
                                    assert(old_rc[r] == y);
                                }
                            }
                        }
                        assert forall|r: int| 0 <= r < rc.len() implies (#[trigger] rc[r]).contig == c by {
                            if r < old_rc.len() {
                                assert(rc[r] == old_rc[r]);
                            }
                        }
                        assert forall|r1: int, r2: int|
                            0 <= r1 < rc.len() && 0 <= r2 < rc.len() && r1 != r2 implies key_disjoint(#[trigger] rc[r1], #[trigger] rc[r2]) by {
                            if r1 < old_rc.len() && r2 < old_rc.len() {
                                assert(rc[r1] == old_rc[r1] && rc[r2] == old_rc[r2]);
                            } else if r1 < old_rc.len() {
                                assert(rc[r1] == old_rc[r1]);
                                assert(key_disjoint(old_rc[r1], ch));
                            } else {
                                assert(rc[r2] == old_rc[r2]);
                                assert(key_disjoint(ch, old_rc[r2]));
                            }
                        }
                        assert forall|w: int, r: int|
                            0 <= w < remaining@.len() && 0 <= r < rc.len() implies !keyed_by(#[trigger] remaining@[w], #[trigger] rc[r]) by {
                            assert(old_rem.contains(remaining@[w]));
                            if r < old_rc.len() {
                                assert(rc[r] == old_rc[r]);
                                let v = choose|v: int| 0 <= v < old_rem.len() && old_rem[v] == remaining@[w];
                                assert(!keyed_by(old_rem[v], old_rc[r]));
                            }
                        }
                        assert forall|j: int|
                            0 <= j < sd.len() && sd[j].contig == c implies remaining@.contains(#[trigger] sd[j]) || exists|r: int|
                                0 <= r < rc.len() && keyed_by(sd[j], #[trigger] rc[r]) by {
                            if old_rem.contains(sd[j]) {
                                let v = choose|v: int| 0 <= v < old_rem.len() && old_rem[v] == sd[j];
                                if !remaining@.contains(old_rem[v]) {
                                    assert(keyed_by(sd[j], rc[old_rc.len() as int]));
                                }
                            } else {
                                let r = choose|r: int| 0 <= r < old_rc.len() && keyed_by(sd[j], #[trigger] old_rc[r]);
                                assert(rc[r] == old_rc[r]);
                            }
                        }
                    }
                },
                None => {
                    assert(false);
                },
            }
            round += 1;
        }
        proof {
            assert forall|x: usize| #[trigger] contig_count(chains@, x) <= 5 by {
                if x != c {
                    assert(contig_count(chains@, x) == contig_count(start, x));
                }
            }
            assert forall|x: usize|
                (forall|u: int| 0 <= u < ci + 1 ==> contigs@[u] != x) implies #[trigger] contig_count(chains@, x) == 0 by {
                assert(contigs@[ci as int] != x);
                assert(contig_count(chains@, x) == contig_count(start, x));
            }
            assert(first_len > 0 ==> round > 0);
            assert forall|other: Seq<MemSeed>|
                #[trigger] valid_chain(other, sd, max_gap as int) && on_contig_among(other, contigs@, ci + 1)
                    implies beaten(other, chains@) by {
                let u = choose|u: int| 0 <= u < ci + 1 && contigs@[u] == other[0].contig;
                if u < ci {
                    assert(on_contig_among(other, contigs@, ci as int));
                } else {
                    assert(sd.contains(other[0]));
                    let w = choose|w: int| 0 <= w < sd.len() && sd[w] == other[0];
                    assert(rem0.contains(sd[w]));
                    assert(first_len > 0);
                }
            }
        }
        ci += 1;
    }
    proof {
        assert forall|other: Seq<MemSeed>| valid_chain(other, seeds@, max_gap as int) implies #[trigger] seeds_score(
            other,
        ) <= chains@[0].score by {
            assert(sd.contains(other[0]));
            let w = choose|w: int| 0 <= w < sd.len() && sd[w] == other[0];
            assert(contigs@.contains(sd[w].contig));
            let u = choose|u: int| 0 <= u < contigs@.len() && contigs@[u] == sd[w].contig;
            assert(on_contig_among(other, contigs@, contigs@.len() as int));
            assert(beaten(other, chains@));
            let k = choose|k: int| 0 <= k < chains@.len() && #[trigger] chains@[k].score >= seeds_score(other);
            if k > 0 {
                assert(chains@[0].score >= chains@[k].score);
            }
        }
    }
    chains
}

/// Smallest `qb` of the seeds (0 for none).
pub open spec fn span_lo(s: Seq<MemSeed>) -> int
    decreases s.len(),
{
    if s.len() == 0 {
        0
    } else if s.len() == 1 {
        s[0].qb as int
    } else {
        let m = span_lo(s.drop_last());
        if s.last().qb < m {
            s.last().qb as int
        } else {
            m
        }
    }
}

/// Largest `qe` of the seeds (0 for none).
pub open spec fn span_hi(s: Seq<MemSeed>) -> int
    decreases s.len(),
{
    if s.len() == 0 {
        0
    } else if s.len() == 1 {
        s[0].qe as int
    } else {
        let m = span_hi(s.drop_last());
        if s.last().qe > m {
            s.last().qe as int
        } else {
            m
        }
    }
}

/// The read interval a chain covers, `(min qb, max qe)`.
pub fn chain_query_range(chain: &Chain) -> (r: (usize, usize))
    ensures
        r.0 == span_lo(chain.seeds@),
        r.1 == span_hi(chain.seeds@),
{
    let n = chain.seeds.len();
    if n == 0 {
        return (0, 0);
    }
    let mut lo = chain.seeds[0].qb;
    let mut hi = chain.seeds[0].qe;
    let mut k: usize = 1;
    assert(chain.seeds@.subrange(0, 1).len() == 1);
    while k < n
        invariant
            n == chain.seeds@.len(),
            1 <= k <= n,
            lo == span_lo(chain.seeds@.subrange(0, k as int)),
            hi == span_hi(chain.seeds@.subrange(0, k as int)),
        decreases n - k,
    {
        let s = chain.seeds[k];
        assert(chain.seeds@.subrange(0, k + 1).drop_last() =~= chain.seeds@.subrange(0, k as int));
        if s.qb < lo {
            lo = s.qb;
        }
        if s.qe > hi {
            hi = s.qe;
        }
        k += 1;
    }
    assert(chain.seeds@.subrange(0, n as int) =~= chain.seeds@);
    (lo, hi)
}

pub open spec fn span_len(c: Chain) -> int {
    if span_hi(c.seeds@) > span_lo(c.seeds@) {
        span_hi(c.seeds@) - span_lo(c.seeds@)
    } else {
        0
    }
}

/// The read spans of `a` and `b` overlap by more than 80% of the shorter.
pub open spec fn too_close(a: Chain, b: Chain) -> bool {
    let start = if span_lo(a.seeds@) > span_lo(b.seeds@) {
        span_lo(a.seeds@)
    } else {
        span_lo(b.seeds@)
    };
    let end = if span_hi(a.seeds@) < span_hi(b.seeds@) {
        span_hi(a.seeds@)
    } else {
        span_hi(b.seeds@)
    };
    let shorter = if span_len(a) < span_len(b) {
        span_len(a)
    } else {
        span_len(b)
    };
    end > start && shorter > 0 && 5 * (end - start) > 4 * shorter
}

/// The weak-chain threshold `best * pct / 100`, scaled by 100: a chain is
/// weak when `100 * score` is below it.
pub open spec fn weak_threshold(best: int, pct: int) -> int {
    best * pct
}

/// The chains among `s[0..k)` that survive filtering: a chain stays when
/// `100 * score` reaches the scaled threshold `thr` and it is not too close
/// to a chain that stayed before.
pub open spec fn filtered(s: Seq<Chain>, thr: int, k: int) -> Seq<Chain>
    decreases k,
{
    if k <= 0 {
        Seq::empty()
    } else {
        let prev = filtered(s, thr, k - 1);
        let c = s[k - 1];
        if c.score * 100 >= thr && forall|t: int| 0 <= t < prev.len() ==> !too_close(#[trigger] prev[t], c) {
            prev.push(c)
        } else {
            prev
        }
    }
}

fn too_close_exec(a: &Chain, b: &Chain) -> (r: bool)
    ensures
        r == too_close(*a, *b),
{
    let (alo, ahi) = chain_query_range(a);
    let (blo, bhi) = chain_query_range(b);
    let start = if alo > blo {
        alo
    } else {
        blo
    };
    let end = if ahi < bhi {
        ahi
    } else {
        bhi
    };
    let alen = if ahi > alo {
        ahi - alo
    } else {
        0
    };
    let blen = if bhi > blo {
        bhi - blo
    } else {
        0
    };
    let shorter = if alen < blen {
        alen
    } else {
        blen
    };
    end > start && shorter > 0 && 5 * ((end - start) as u128) > 4 * (shorter as u128)
}

/// Drops weak and redundant chains from a list ordered by score: first
/// every chain scoring below `best * min_score_pct / 100` (exactly, no rounding), `best`
/// being the first chain's score; then, sweeping in order, every chain too
/// close to one kept before it. The order of the rest is kept.
pub fn filter_chains(chains: &mut Vec<Chain>, min_score_pct: u32)
    requires
        0 < min_score_pct <= 100,
    ensures
        old(chains)@.len() == 0 ==> final(chains)@.len() == 0,
        old(chains)@.len() > 0 ==> final(chains)@ == filtered(
            old(chains)@,
            weak_threshold(old(chains)@[0].score as int, min_score_pct as int),
            old(chains)@.len() as int,
        ),
{
    if chains.len() == 0 {
        return;
    }
    let ghost orig = chains@;
    let best = chains[0].score;
    assert((best as u64) * (min_score_pct as u64) <= 0xffff_ffff * 100) by (nonlinear_arith)
        requires
            best <= 0xffff_ffff,
            min_score_pct <= 100,
    ;
    let thr: u64 = (best as u64) * (min_score_pct as u64);
    let ghost thr_i = weak_threshold(best as int, min_score_pct as int);
    let mut src: Vec<Chain> = Vec::new();
    std::mem::swap(chains, &mut src);
    let mut out: Vec<Chain> = Vec::new();
    let n = src.len();
    let mut k: usize = 0;
    while k < n
        invariant
            n == orig.len(),
            k <= n,
            src@ == orig.subrange(k as int, n as int),
            out@ == filtered(orig, thr_i, k as int),
            thr == thr_i,
        decreases n - k,
    {
        let c = src.remove(0);
        assert(c == orig[k as int]);
        let mut ok = (c.score as u64) * 100 >= thr;
        let mut t: usize = 0;
        while t < out.len()
            invariant
                t <= out@.len(),
                ok == ((c.score * 100 >= thr_i) && forall|w: int| 0 <= w < t ==> !too_close(#[trigger] out@[w], c)),
            decreases out@.len() - t,
        {
            if too_close_exec(&out[t], &c) {
                ok = false;
            }
            t += 1;
        }
        if ok {
            out.push(c);
        }
        k += 1;
        assert(src@ =~= orig.subrange(k as int, n as int));
    }
    *chains = out;
}

/// Filtering only drops chains.
pub proof fn lemma_filtered_from(s: Seq<Chain>, thr: int, k: int)
    requires
        k <= s.len(),
    ensures
        forall|t: int| 0 <= t < filtered(s, thr, k).len() ==> s.contains(#[trigger] filtered(s, thr, k)[t]),
    decreases k,
{
    if k > 0 {
        lemma_filtered_from(s, thr, k - 1);
        let prev = filtered(s, thr, k - 1);
        assert forall|t: int| 0 <= t < filtered(s, thr, k).len() implies s.contains(#[trigger] filtered(s, thr, k)[t]) by {
            if t < prev.len() {
                assert(filtered(s, thr, k)[t] == prev[t]);
            } else {
                assert(filtered(s, thr, k)[t] == s[k - 1]);
            }
        }
    }
}

} // verus!
