use bwa_rust::align::sw::{banded_sw, banded_sw_with_buf, ops_to_cigar, parse_cigar, SwBuffer, SwParams};

fn default_params() -> SwParams {
    SwParams { match_score: 2, mismatch_penalty: 1, gap_open: 1, gap_extend: 0, band_width: 8 }
}

#[test]
fn sw_sw_perfect_match() {
    let p = default_params();
    let q = b"ACGT";
    let r = b"ACGT";
    let res = banded_sw(q, r, p);
    assert_eq!(res.score, 8);
    assert_eq!(res.query_start, 0);
    assert_eq!(res.query_end, 4);
    assert_eq!(res.ref_start, 0);
    assert_eq!(res.ref_end, 4);
    assert_eq!(res.cigar, "4M");
    assert_eq!(res.nm, 0);
}

#[test]
fn sw_single_mismatch() {
    let p = default_params();
    let q = b"AGGT";
    let r = b"ACGT";
    let res = banded_sw(q, r, p);
    assert_eq!(res.cigar, "4M");
    assert_eq!(res.score, 3 * 2 - 1);
    assert_eq!(res.nm, 1);
}

#[test]
fn sw_sw_single_insertion() {
    let p = default_params();
    let q = b"ACGGT";
    let r = b"ACGT";
    let res = banded_sw(q, r, p);
    assert_eq!(res.score, 7);
    assert_eq!(res.cigar, "2M1I2M");
    assert_eq!(res.nm, 1);
}

#[test]
fn sw_deletion() {
    let p = default_params();
    let q = b"ACGT";
    let r = b"ACGGT";
    let res = banded_sw(q, r, p);
    assert!(res.score > 0);
    assert!(res.cigar.contains('D') || res.cigar.contains('M'));
}

#[test]
fn sw_empty_inputs() {
    let p = default_params();
    assert_eq!(banded_sw(b"", b"ACGT", p).score, 0);
    assert_eq!(banded_sw(b"ACGT", b"", p).score, 0);
}

#[test]
fn sw_buffer_reuse() {
    let p = default_params();
    let mut buf = SwBuffer::new();
    let r1 = banded_sw_with_buf(b"ACGT", b"ACGT", p, &mut buf);
    assert_eq!(r1.score, 8);
    let r2 = banded_sw_with_buf(b"AGGT", b"ACGT", p, &mut buf);
    assert_eq!(r2.nm, 1);
}

#[test]
fn sw_deletion_cigar_and_accounting() {
    let p = default_params();
    let res = banded_sw(b"ACGT", b"ACGGT", p);
    assert_eq!(res.score, 7);
    assert!(res.cigar == "2M1D2M" || res.cigar == "3M1D1M");
    assert_eq!(res.nm, 1);
    assert_eq!((res.query_start, res.query_end), (0, 4));
    assert_eq!((res.ref_start, res.ref_end), (0, 5));
}

#[test]
fn sw_no_positive_cell_is_empty() {
    let p = default_params();
    let res = banded_sw(b"AAAA", b"CCCC", p);
    assert_eq!(res.score, 0);
    assert_eq!(res.cigar, "");
    assert_eq!(res.nm, 0);
    assert_eq!((res.query_start, res.query_end, res.ref_start, res.ref_end), (0, 0, 0, 0));
}

#[test]
fn sw_local_inside_longer_reference() {
    let p = default_params();
    let res = banded_sw(b"GATTACA", b"TTTGATTACATTT", SwParams { band_width: 20, ..p });
    assert_eq!(res.score, 14);
    assert_eq!(res.cigar, "7M");
    assert_eq!((res.ref_start, res.ref_end), (3, 10));
}

/// Brute-force, unbanded Smith-Waterman score with the same recurrence.
fn brute_sw(q: &[u8], r: &[u8], p: SwParams) -> i32 {
    let neg = i32::MIN / 4;
    let (m, n) = (q.len(), r.len());
    let mut h = vec![vec![0i32; n + 1]; m + 1];
    let mut e = vec![vec![neg; n + 1]; m + 1];
    let mut f = vec![vec![neg; n + 1]; m + 1];
    let mut best = 0;
    for i in 1..=m {
        for j in 1..=n {
            e[i][j] = (h[i - 1][j] - p.gap_open - p.gap_extend).max(e[i - 1][j] - p.gap_extend);
            f[i][j] = (h[i][j - 1] - p.gap_open - p.gap_extend).max(f[i][j - 1] - p.gap_extend);
            let s = if q[i - 1] == r[j - 1] { p.match_score } else { -p.mismatch_penalty };
            h[i][j] = 0.max(h[i - 1][j - 1] + s).max(e[i][j]).max(f[i][j]);
            best = best.max(h[i][j]);
        }
    }
    best
}

#[test]
fn sw_wide_band_matches_unbanded() {
    let p = SwParams { match_score: 2, mismatch_penalty: 3, gap_open: 2, gap_extend: 1, band_width: 12 };
    let cases: [(&[u8], &[u8]); 5] = [
        (b"ACGTTGCA", b"ACGTGCA"),
        (b"GGGACGTA", b"TTACGTAC"),
        (b"ACACACACAC", b"CACACA"),
        (b"TTTTGGGGCCCC", b"GGGGTTTTCCCC"),
        (b"A", b"ACGTACGTACGT"),
    ];
    for (q, r) in cases.iter() {
        assert_eq!(banded_sw(q, r, p).score, brute_sw(q, r, p));
    }
}

#[test]
fn sw_cigar_accounting() {
    let p = SwParams { match_score: 2, mismatch_penalty: 3, gap_open: 2, gap_extend: 1, band_width: 12 };
    let res = banded_sw(b"ACGTTTGCAGT", b"ACGTGCAGT", p);
    let ops = parse_cigar(&res.cigar);
    let q: usize = ops.iter().filter(|(c, _)| *c == 'M' || *c == 'I').map(|(_, n)| n).sum();
    let r: usize = ops.iter().filter(|(c, _)| *c == 'M' || *c == 'D').map(|(_, n)| n).sum();
    assert_eq!(q, res.query_end - res.query_start);
    assert_eq!(r, res.ref_end - res.ref_start);
}

#[test]
fn cigar_text_round_trip() {
    let ops: Vec<char> = "MMMMMMMMMMMMIIDMM".chars().collect();
    let text = ops_to_cigar(&ops);
    assert_eq!(text, "12M2I1D2M");
    assert_eq!(parse_cigar(&text), vec![('M', 12), ('I', 2), ('D', 1), ('M', 2)]);
    assert_eq!(ops_to_cigar(&[]), "");
    assert_eq!(parse_cigar("0M3I"), vec![('I', 3)]);
}

#[test]
fn sw_buffer_reuse_matches_fresh_buffer() {
    let p = SwParams { match_score: 2, mismatch_penalty: 3, gap_open: 2, gap_extend: 1, band_width: 6 };
    let cases: [(&[u8], &[u8]); 4] = [
        (b"ACGTTGCAACGT", b"ACGTGCAACG"),
        (b"GG", b"GGGGGGGGGG"),
        (b"TTACGGATCA", b"TTACGATCA"),
        (b"A", b"C"),
    ];
    let mut buf = SwBuffer::new();
    for (q, r) in cases.iter() {
        assert_eq!(banded_sw_with_buf(q, r, p, &mut buf), banded_sw(q, r, p));
    }
}
