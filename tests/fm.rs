use bwa_rust::index::bwt::build_bwt;
use bwa_rust::index::fm::{frame_index, open_index_frame, Contig, FMIndex, IndexError, IndexMeta, INDEX_MAGIC, INDEX_VERSION};
use bwa_rust::index::sa::build_sa;
use bwa_rust::util::dna;

fn build(contigs_seq: &[(&str, &[u8])], block: usize) -> FMIndex {
    let mut text: Vec<u8> = Vec::new();
    let mut contigs = Vec::new();
    for (name, seq) in contigs_seq {
        let start = text.len() as u32;
        for &b in dna::normalize_seq(seq).iter() {
            text.push(dna::to_alphabet(b));
        }
        contigs.push(Contig { name: name.to_string(), len: text.len() as u32 - start, offset: start });
        text.push(0);
    }
    let sa = build_sa(&text);
    let bwt = build_bwt(&text, &sa);
    FMIndex::build(text, bwt, sa, contigs, dna::SIGMA as u8, block)
}

fn code(s: &[u8]) -> Vec<u8> {
    s.iter().map(|&b| dna::to_alphabet(b)).collect()
}

#[test]
fn search_whole_reference() {
    let fm = build(&[("ref", b"ACGT")], 4);
    let (l, r) = fm.backward_search(&code(b"ACGT")).expect("found");
    assert_eq!(r - l, 1);
    let pos = fm.sa_interval_positions(l, r);
    assert_eq!(fm.map_text_pos(pos[0]), Some((0, 0)));
}

#[test]
fn search_repeated_pattern() {
    let fm = build(&[("ref", b"ACGTACGT")], 4);
    let (l, r) = fm.backward_search(&code(b"CGT")).expect("found");
    assert_eq!(r - l, 2);
    let mut pos = fm.sa_interval_positions(l, r).to_vec();
    pos.sort();
    assert_eq!(pos, vec![1, 5]);
}

#[test]
fn search_absent_pattern() {
    let fm = build(&[("ref", b"ACGTACGT")], 4);
    assert_eq!(fm.backward_search(&code(b"GA")), None);
    let empty = FMIndex::build(vec![], vec![], vec![], vec![], dna::SIGMA as u8, 4);
    assert_eq!(empty.backward_search(&code(b"A")), None);
}

#[test]
fn occ_counts_prefixes() {
    let fm = build(&[("a", b"GATTACAGATTACA"), ("b", b"CCGGTTN")], 3);
    let n = fm.bwt.len();
    for a in 0..dna::SIGMA as u8 {
        assert_eq!(fm.occ(a, 0), 0);
        let mut count = 0u32;
        for pos in 0..n {
            assert_eq!(fm.occ(a, pos), count);
            if fm.bwt[pos] == a {
                count += 1;
            }
            assert_eq!(fm.occ(a, pos + 1) - fm.occ(a, pos), if fm.bwt[pos] == a { 1 } else { 0 });
        }
        assert_eq!(fm.occ(a, n), count);
        if (a as usize) + 1 < dna::SIGMA {
            assert_eq!(fm.c[a as usize + 1] - fm.c[a as usize], count);
        }
    }
    let (l, r) = fm.rank_range(1, 0, n);
    assert_eq!(r - l, fm.occ(1, n) as usize);
}

#[test]
fn found_positions_match_pattern() {
    let fm = build(&[("a", b"GATTACAGATTACA"), ("b", b"CCGATTGG")], 5);
    let pat = code(b"GATT");
    let (l, r) = fm.backward_search(&pat).expect("found");
    assert_eq!(r - l, 3);
    for &p in fm.sa_interval_positions(l, r) {
        assert_eq!(&fm.text[p as usize..p as usize + pat.len()], &pat[..]);
    }
}

#[test]
fn text_positions_map_to_contigs() {
    let fm = build(&[("a", b"ACGT"), ("b", b"GG"), ("c", b"TTT")], 4);
    assert_eq!(fm.map_text_pos(0), Some((0, 0)));
    assert_eq!(fm.map_text_pos(3), Some((0, 3)));
    assert_eq!(fm.map_text_pos(4), None);
    assert_eq!(fm.map_text_pos(5), Some((1, 0)));
    assert_eq!(fm.map_text_pos(6), Some((1, 1)));
    assert_eq!(fm.map_text_pos(8), Some((2, 0)));
    assert_eq!(fm.map_text_pos(11), None);
    assert_eq!(fm.map_text_pos(99), None);
}

#[test]
fn built_index_fields() {
    let mut fm = build(&[("a", b"ACGTN")], 2);
    assert_eq!(fm.magic, INDEX_MAGIC);
    assert_eq!(fm.version, INDEX_VERSION);
    assert_eq!(fm.block, 2);
    assert_eq!(fm.c, vec![0, 1, 2, 3, 4, 5]);
    assert_eq!(fm.occ_samples.len(), 3 * dna::SIGMA);
    fm.set_meta(IndexMeta { reference_file: Some("ref.fa".to_string()), build_args: None, build_timestamp: None });
    assert_eq!(fm.meta.reference_file.as_deref(), Some("ref.fa"));
}

#[test]
fn envelope_round_trip() {
    let body = vec![7u8, 0, 255, 42];
    let framed = frame_index(&body);
    assert_eq!(framed.len(), 12 + body.len());
    assert_eq!(&framed[..8], &INDEX_MAGIC.to_le_bytes());
    assert_eq!(&framed[8..12], &INDEX_VERSION.to_le_bytes());
    assert_eq!(open_index_frame(&framed).ok(), Some(body));
    assert_eq!(open_index_frame(&frame_index(&[])).ok(), Some(vec![]));
}

#[test]
fn envelope_rejects_bad_input() {
    assert!(matches!(open_index_frame(&[1, 2, 3]), Err(IndexError::Truncated)));
    let mut bad_magic = frame_index(&[1, 2]);
    bad_magic[0] ^= 1;
    assert!(matches!(open_index_frame(&bad_magic), Err(IndexError::BadMagic)));
    let mut bad_version = frame_index(&[1, 2]);
    bad_version[8..12].copy_from_slice(&7u32.to_le_bytes());
    assert!(matches!(open_index_frame(&bad_version), Err(IndexError::UnsupportedVersion(7))));
}
