use bwa_rust::align::chain::{best_chain, build_chains, chain_query_range, filter_chains, Chain};
use bwa_rust::align::seed::MemSeed;

#[test]
fn best_chain_simple_diagonal() {
    let seeds = vec![
        MemSeed { contig: 0, qb: 0, qe: 4, rb: 0, re: 4 },
        MemSeed { contig: 0, qb: 4, qe: 8, rb: 4, re: 8 },
    ];
    let chain = best_chain(&seeds, 10).expect("chain");
    assert_eq!(chain.contig, 0);
    assert_eq!(chain.seeds.len(), 2);
    assert_eq!(chain.score, 8);
}

#[test]
fn best_chain_avoids_overlapping_and_far_gaps() {
    let seeds = vec![
        MemSeed { contig: 0, qb: 0, qe: 4, rb: 0, re: 4 },
        MemSeed { contig: 0, qb: 3, qe: 6, rb: 3, re: 6 },
        MemSeed { contig: 0, qb: 20, qe: 24, rb: 20, re: 24 },
        MemSeed { contig: 0, qb: 4, qe: 8, rb: 4, re: 8 },
    ];
    let chain = best_chain(&seeds, 10).expect("chain");
    assert_eq!(chain.seeds.len(), 2);
    assert_eq!(chain.seeds[0].qb, 0);
    assert_eq!(chain.seeds[1].qb, 4);
    assert_eq!(chain.score, 8);
}

#[test]
fn build_chains_multi() {
    let seeds = vec![
        MemSeed { contig: 0, qb: 0, qe: 4, rb: 0, re: 4 },
        MemSeed { contig: 0, qb: 4, qe: 8, rb: 4, re: 8 },
        MemSeed { contig: 0, qb: 0, qe: 4, rb: 100, re: 104 },
        MemSeed { contig: 0, qb: 4, qe: 8, rb: 104, re: 108 },
    ];
    let chains = build_chains(&seeds, 10);
    assert!(chains.len() >= 2);
}

#[test]
fn filter_chains_removes_weak() {
    let mut chains = vec![
        Chain { contig: 0, seeds: vec![MemSeed { contig: 0, qb: 0, qe: 20, rb: 0, re: 20 }], score: 20 },
        Chain { contig: 0, seeds: vec![MemSeed { contig: 0, qb: 0, qe: 3, rb: 100, re: 103 }], score: 3 },
    ];
    filter_chains(&mut chains, 50);
    assert_eq!(chains.len(), 1);
    assert_eq!(chains[0].score, 20);
}

#[test]
fn best_chain_empty_is_none() {
    assert!(best_chain(&[], 10).is_none());
    assert!(build_chains(&[], 10).is_empty());
}

#[test]
fn chain_seeds_strictly_increase() {
    let seeds = vec![
        MemSeed { contig: 0, qb: 10, qe: 14, rb: 30, re: 34 },
        MemSeed { contig: 0, qb: 0, qe: 4, rb: 20, re: 24 },
        MemSeed { contig: 0, qb: 5, qe: 9, rb: 25, re: 29 },
    ];
    let chain = best_chain(&seeds, 10).expect("chain");
    assert_eq!(chain.score, 12);
    for w in chain.seeds.windows(2) {
        assert!(w[0].qb < w[1].qb);
        assert!(w[0].rb < w[1].rb);
    }
}

#[test]
fn build_chains_sorted_by_score_and_per_contig() {
    let seeds = vec![
        MemSeed { contig: 1, qb: 0, qe: 3, rb: 0, re: 3 },
        MemSeed { contig: 0, qb: 0, qe: 5, rb: 0, re: 5 },
        MemSeed { contig: 0, qb: 5, qe: 10, rb: 5, re: 10 },
    ];
    let chains = build_chains(&seeds, 10);
    assert_eq!(chains.len(), 2);
    assert_eq!(chains[0].score, 10);
    assert_eq!(chains[0].contig, 0);
    assert_eq!(chains[1].score, 3);
    assert_eq!(chains[1].contig, 1);
}

#[test]
fn filter_drops_overlapping_weaker_chain() {
    let mut chains = vec![
        Chain { contig: 0, seeds: vec![MemSeed { contig: 0, qb: 0, qe: 20, rb: 0, re: 20 }], score: 20 },
        Chain { contig: 0, seeds: vec![MemSeed { contig: 0, qb: 2, qe: 8, rb: 50, re: 56 }], score: 6 },
    ];
    filter_chains(&mut chains, 30);
    assert_eq!(chains.len(), 1);
    assert_eq!(chains[0].score, 20);
}

#[test]
fn filter_keeps_disjoint_chains() {
    let mut chains = vec![
        Chain { contig: 0, seeds: vec![MemSeed { contig: 0, qb: 0, qe: 20, rb: 0, re: 20 }], score: 20 },
        Chain { contig: 0, seeds: vec![MemSeed { contig: 0, qb: 20, qe: 26, rb: 50, re: 56 }], score: 6 },
    ];
    filter_chains(&mut chains, 30);
    assert_eq!(chains.len(), 2);
    let mut again = chains.clone();
    filter_chains(&mut again, 30);
    assert_eq!(again, chains);
}

#[test]
fn query_range_spans_seeds() {
    let c = Chain {
        contig: 0,
        seeds: vec![
            MemSeed { contig: 0, qb: 3, qe: 7, rb: 0, re: 4 },
            MemSeed { contig: 0, qb: 9, qe: 15, rb: 6, re: 12 },
        ],
        score: 10,
    };
    assert_eq!(chain_query_range(&c), (3, 15));
}

#[test]
fn filter_threshold_is_not_rounded_down() {
    let mut chains = vec![
        Chain { contig: 0, seeds: vec![MemSeed { contig: 0, qb: 0, qe: 7, rb: 0, re: 7 }], score: 7 },
        Chain { contig: 0, seeds: vec![MemSeed { contig: 0, qb: 10, qe: 12, rb: 50, re: 52 }], score: 2 },
    ];
    filter_chains(&mut chains, 30);
    assert_eq!(chains.len(), 1);
    assert_eq!(chains[0].score, 7);
}
