use bwa_rust::align::sw::SwBuffer;
use bwa_rust::align::{
    align_read, align_read_hits, banded_sw, compute_mapq, sam_header, select_hits, AlignCandidate, AlignOpt, SwParams,
};
use bwa_rust::index::bwt::build_bwt;
use bwa_rust::index::fm::{Contig, FMIndex};
use bwa_rust::index::sa::build_sa;
use bwa_rust::util::dna;

fn default_params() -> SwParams {
    SwParams { match_score: 2, mismatch_penalty: 1, gap_open: 1, gap_extend: 0, band_width: 8 }
}

#[test]
fn mod_sw_perfect_match() {
    let p = default_params();
    let q = b"ACGT";
    let r = b"ACGT";
    let res = banded_sw(q, r, p);
    assert_eq!(res.score, 8);
    assert_eq!(res.query_start, 0);
    assert_eq!(res.query_end, 4);
    assert_eq!(res.ref_start, 0);
    assert_eq!(res.ref_end, 4);
    assert_eq!(res.cigar, "4M");
    assert_eq!(res.nm, 0);
}

#[test]
fn sw_single_mismatch_still_aligns_full() {
    let p = default_params();
    let q = b"AGGT";
    let r = b"ACGT";
    let res = banded_sw(q, r, p);
    assert_eq!(res.cigar, "4M");
    assert_eq!(res.query_start, 0);
    assert_eq!(res.query_end, 4);
    assert_eq!(res.ref_start, 0);
    assert_eq!(res.ref_end, 4);
    assert_eq!(res.score, 3 * 2 - 1);
    assert_eq!(res.nm, 1);
}

#[test]
fn mod_sw_single_insertion() {
    let p = default_params();
    let q = b"ACGGT";
    let r = b"ACGT";
    let res = banded_sw(q, r, p);
    assert_eq!(res.score, 7);
    assert_eq!(res.query_start, 0);
    assert_eq!(res.query_end, 5);
    assert_eq!(res.ref_start, 0);
    assert_eq!(res.ref_end, 4);
    assert_eq!(res.cigar, "2M1I2M");
    assert_eq!(res.nm, 1);
}

#[test]
fn mapq_simple_model() {
    assert_eq!(compute_mapq(50, 0), 60);
    assert_eq!(compute_mapq(50, 25), 30);
    assert_eq!(compute_mapq(10, 10), 0);
}

#[test]
fn mapq_bounds_and_caps() {
    assert_eq!(compute_mapq(0, 0), 0);
    assert_eq!(compute_mapq(-5, 3), 0);
    assert_eq!(compute_mapq(30, 30), 0);
    assert_eq!(compute_mapq(30, 27), 3);
    assert_eq!(compute_mapq(21, 0), 60);
    assert_eq!(compute_mapq(15, 0), 60);
    assert_eq!(compute_mapq(100, 90), 6);
    assert_eq!(compute_mapq(40, 50), 0);
    for best in -3..80 {
        for second in -3..80 {
            let q = compute_mapq(best, second);
            assert!(q <= 60);
        }
    }
}

fn build_fm(contigs_seq: &[(&str, &[u8])]) -> FMIndex {
    let mut text: Vec<u8> = Vec::new();
    let mut contigs = Vec::new();
    for (name, seq) in contigs_seq {
        let norm = dna::normalize_seq(seq);
        let start = text.len() as u32;
        for &b in &norm {
            text.push(dna::to_alphabet(b));
        }
        contigs.push(Contig { name: name.to_string(), len: norm.len() as u32, offset: start });
        text.push(0);
    }
    let sa = build_sa(&text);
    let bwt = build_bwt(&text, &sa);
    FMIndex::build(text, bwt, sa, contigs, dna::SIGMA as u8, 8)
}

const REFERENCE: &[u8] = b"TTGACCATGCAAGTCCGATAGGCTTACGAATCGGCATTAGCCTAGGTACCATGATTCAGGCA";

#[test]
fn empty_read_is_one_unmapped_record() {
    let fm = build_fm(&[("chr1", REFERENCE)]);
    let opt = AlignOpt::default();
    let mut buf = SwBuffer::new();
    let lines = align_read(&fm, "r0", b"", b"", &opt, &mut buf);
    assert_eq!(lines.len(), 1);
    let fields: Vec<&str> = lines[0].split('\t').collect();
    assert_eq!(fields[0], "r0");
    let flag: u32 = fields[1].parse().unwrap();
    assert!(flag & 0x4 != 0);
    assert_eq!(fields[2], "*");
    assert_eq!(fields[3], "0");
    assert_eq!(fields[5], "*");
}

#[test]
fn exact_window_maps_uniquely() {
    let fm = build_fm(&[("chr1", REFERENCE)]);
    let opt = AlignOpt::default();
    let mut buf = SwBuffer::new();
    let read = &REFERENCE[17..37];
    let qual = vec![b'I'; 20];
    let lines = align_read(&fm, "r1", read, &qual, &opt, &mut buf);
    assert_eq!(lines.len(), 1);
    let fields: Vec<&str> = lines[0].split('\t').collect();
    assert_eq!(fields[1], "0");
    assert_eq!(fields[2], "chr1");
    assert_eq!(fields[3], "18");
    assert_eq!(fields[4], "60");
    assert_eq!(fields[5], "20M");
    assert!(lines[0].contains("NM:i:0"));
    assert!(lines[0].contains("AS:i:40"));
}

#[test]
fn reverse_complement_read_maps_on_reverse_strand() {
    let fm = build_fm(&[("chr1", REFERENCE)]);
    let opt = AlignOpt::default();
    let mut buf = SwBuffer::new();
    let read = dna::revcomp(&REFERENCE[30..55]);
    let hits = align_read_hits(&fm, &read, &opt, &mut buf);
    assert_eq!(hits.len(), 1);
    assert!(hits[0].is_reverse);
    assert_eq!(hits[0].flag(), 16);
    assert_eq!(hits[0].pos1, 31);
    assert_eq!(hits[0].cigar, "25M");
}

#[test]
fn both_strands_report_primary_and_secondary() {
    let unit: &[u8] = b"GATTACAGGCTTACCGTAGCATG";
    let mut reference = Vec::new();
    reference.extend_from_slice(b"CCCC");
    reference.extend_from_slice(unit);
    reference.extend_from_slice(b"TTTTTTTT");
    reference.extend_from_slice(&dna::revcomp(unit));
    reference.extend_from_slice(b"AAAA");
    let fm = build_fm(&[("chr1", &reference)]);
    let opt = AlignOpt::default();
    let mut buf = SwBuffer::new();
    let hits = align_read_hits(&fm, unit, &opt, &mut buf);
    assert_eq!(hits.len(), 2);
    assert!(!hits[0].is_secondary);
    assert!(!hits[0].is_reverse);
    assert_eq!(hits[0].pos1, 5);
    assert!(hits[1].is_secondary);
    assert!(hits[1].is_reverse);
    assert_eq!(hits[1].pos1, 36);
    assert_eq!(hits[0].score, hits[1].score);
    assert_eq!(hits[0].mapq, 0);
    assert_eq!(hits[1].mapq, 0);
    assert_eq!(hits[0].next_best, hits[1].score);
    let lines = align_read(&fm, "r2", unit, unit, &opt, &mut buf);
    assert_eq!(lines.len(), 2);
    let flag: u32 = lines[1].split('\t').nth(1).unwrap().parse().unwrap();
    assert_eq!(flag, 0x110);
}

#[test]
fn unrelated_read_is_unmapped() {
    let fm = build_fm(&[("chr1", REFERENCE)]);
    let opt = AlignOpt::default();
    let mut buf = SwBuffer::new();
    let hits = align_read_hits(&fm, b"NNNNNNNNNNNNNNNNNNNNNNNN", &opt, &mut buf);
    assert!(hits.is_empty());
}

#[test]
fn header_lists_contigs() {
    let fm = build_fm(&[("chr1", b"ACGTACGT"), ("chr2", b"GGCC")]);
    let lines = sam_header(&fm);
    assert_eq!(lines.len(), 4);
    assert_eq!(lines[0], "@HD\tVN:1.6\tSO:unsorted");
    assert_eq!(lines[1], "@SQ\tSN:chr1\tLN:8");
    assert_eq!(lines[2], "@SQ\tSN:chr2\tLN:4");
    assert!(lines[3].starts_with("@PG"));
}

#[test]
fn default_options() {
    let opt = AlignOpt::default();
    assert_eq!(opt.match_score, 2);
    assert_eq!(opt.mismatch_penalty, 1);
    assert_eq!(opt.gap_open, 2);
    assert_eq!(opt.gap_extend, 1);
    assert_eq!(opt.band_width, 16);
    assert_eq!(opt.score_threshold, 20);
    assert_eq!(opt.threads, 1);
}

fn cand(score: i32, contig_idx: usize, pos1: u32, is_reverse: bool) -> AlignCandidate {
    AlignCandidate { score, is_reverse, contig_idx, pos1, cigar: format!("{}M", score / 2), nm: 0 }
}

#[test]
fn selection_dedups_and_caps() {
    let cands = vec![
        cand(30, 0, 10, false),
        cand(50, 0, 10, false),
        cand(50, 0, 10, true),
        cand(40, 1, 3, false),
        cand(22, 0, 99, false),
        cand(21, 0, 98, false),
        cand(25, 0, 97, false),
        cand(24, 0, 96, false),
    ];
    let hits = select_hits(cands, 20, 2);
    assert_eq!(hits.len(), 5);
    let scores: Vec<i32> = hits.iter().map(|h| h.score).collect();
    assert_eq!(scores, vec![50, 50, 40, 25, 24]);
    assert!(!hits[0].is_reverse && hits[1].is_reverse);
    assert_eq!(hits[0].mapq, 0);
    assert!(hits.iter().skip(1).all(|h| h.is_secondary && h.mapq == 0));
    assert!(hits.iter().all(|h| h.next_best == 50));
    for i in 0..hits.len() {
        for j in i + 1..hits.len() {
            let a = &hits[i];
            let b = &hits[j];
            assert!(!(a.contig_idx == b.contig_idx && a.pos1 == b.pos1 && a.is_reverse == b.is_reverse));
        }
    }
}

#[test]
fn selection_threshold_and_mapq() {
    assert!(select_hits(vec![cand(19, 0, 1, false)], 20, 1).is_empty());
    assert!(select_hits(vec![], 20, 1).is_empty());
    let hits = select_hits(vec![cand(40, 0, 1, false), cand(10, 0, 1, false)], 20, 1);
    assert_eq!(hits.len(), 1);
    assert_eq!(hits[0].score, 40);
    assert_eq!(hits[0].next_best, 0);
    assert_eq!(hits[0].mapq, 60);
}
