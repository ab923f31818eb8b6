use bwa_rust::align::seed::{find_mem_seeds, find_smem_seeds};
use bwa_rust::index::bwt::build_bwt;
use bwa_rust::index::fm::{Contig, FMIndex};
use bwa_rust::index::sa::build_sa;
use bwa_rust::util::dna;

fn build_test_fm(seq: &[u8]) -> FMIndex {
    let norm = dna::normalize_seq(seq);
    let mut text: Vec<u8> = Vec::new();
    for &b in &norm {
        text.push(dna::to_alphabet(b));
    }
    let len = text.len() as u32;
    let contigs = vec![Contig { name: "chr1".to_string(), len, offset: 0 }];
    text.push(0);
    let sa_arr = build_sa(&text);
    let bwt_arr = build_bwt(&text, &sa_arr);
    FMIndex::build(text, bwt_arr, sa_arr, contigs, dna::SIGMA as u8, 4)
}

fn code(read: &[u8]) -> Vec<u8> {
    dna::normalize_seq(read).iter().map(|&b| dna::to_alphabet(b)).collect()
}

#[test]
fn smem_seeds_basic() {
    let fm = build_test_fm(b"ACGTACGT");
    let read = b"CGTA";
    let norm = dna::normalize_seq(read);
    let alpha: Vec<u8> = norm.iter().map(|&b| dna::to_alphabet(b)).collect();
    let seeds = find_smem_seeds(&fm, &alpha, 2);
    assert!(seeds.iter().any(|s| s.contig == 0 && s.qb == 0 && s.qe == 4));
}

#[test]
fn smem_seeds_respect_min_len() {
    let fm = build_test_fm(b"ACGTACGT");
    let read = b"CGTA";
    let norm = dna::normalize_seq(read);
    let alpha: Vec<u8> = norm.iter().map(|&b| dna::to_alphabet(b)).collect();
    let seeds = find_smem_seeds(&fm, &alpha, 5);
    assert!(seeds.is_empty());
}

#[test]
fn smem_finds_longer_match() {
    let fm = build_test_fm(b"ACGTACGTACGTACGTACGTACGTACGT");
    let read = b"ACGTACGTACGT";
    let norm = dna::normalize_seq(read);
    let alpha: Vec<u8> = norm.iter().map(|&b| dna::to_alphabet(b)).collect();
    let seeds = find_smem_seeds(&fm, &alpha, 4);
    assert!(!seeds.is_empty());
    assert!(seeds.iter().any(|s| s.qe - s.qb >= 12));
}

#[test]
fn smem_edge_cases_are_empty() {
    let fm = build_test_fm(b"ACGTACGT");
    assert!(find_smem_seeds(&fm, &[], 2).is_empty());
    assert!(find_smem_seeds(&fm, &code(b"ACGT"), 0).is_empty());
    assert!(find_mem_seeds(&fm, &code(b"ACGT"), 9).is_empty());
}

#[test]
fn seeds_are_exact_sorted_and_unique() {
    let reference = b"GGATCCATTGACGTTACGGATCCAT";
    let fm = build_test_fm(reference);
    let read = b"ATCCATTGA";
    let seeds = find_smem_seeds(&fm, &code(read), 3);
    assert!(!seeds.is_empty());
    for s in &seeds {
        let len = s.qe - s.qb;
        assert_eq!(s.re - s.rb, len as u32);
        assert_eq!(&reference[s.rb as usize..s.re as usize], &read[s.qb..s.qe]);
    }
    for w in seeds.windows(2) {
        let a = (w[0].contig, w[0].qb, w[0].qe, w[0].rb, w[0].re);
        let b = (w[1].contig, w[1].qb, w[1].qe, w[1].rb, w[1].re);
        assert!(a < b);
    }
}

#[test]
fn contained_mems_are_dropped() {
    let fm = build_test_fm(b"TTTTACGTACGGGGG");
    let seeds = find_smem_seeds(&fm, &code(b"ACGTACG"), 2);
    assert_eq!(seeds.len(), 1);
    assert_eq!((seeds[0].qb, seeds[0].qe, seeds[0].rb), (0, 7, 4));
}

#[test]
fn smem_seed_exact_for_cgta() {
    let fm = build_test_fm(b"ACGTACGT");
    let seeds = find_smem_seeds(&fm, &code(b"CGTA"), 2);
    assert_eq!(seeds, vec![bwa_rust::align::seed::MemSeed { contig: 0, qb: 0, qe: 4, rb: 1, re: 5 }]);
}
