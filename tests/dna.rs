use bwa_rust::util::dna::{complement, from_alphabet, normalize_seq, revcomp, to_alphabet, SIGMA};

#[test]
fn alphabet_round_trip() {
    for c in 1u8..=5 {
        assert_eq!(to_alphabet(from_alphabet(c)), c);
    }
    for &b in b"ACGTNacgtn" {
        assert_eq!(from_alphabet(to_alphabet(b)), b.to_ascii_uppercase());
    }
}

#[test]
fn alphabet_codes() {
    assert_eq!(to_alphabet(0), 0);
    assert_eq!(to_alphabet(b'A'), 1);
    assert_eq!(to_alphabet(b'c'), 2);
    assert_eq!(to_alphabet(b'G'), 3);
    assert_eq!(to_alphabet(b'u'), 4);
    assert_eq!(to_alphabet(b'R'), 5);
    assert_eq!(from_alphabet(0), 0);
    assert_eq!(from_alphabet(9), b'N');
    assert_eq!(SIGMA, 6);
}

#[test]
fn normalize_and_complement() {
    assert_eq!(normalize_seq(b"acgtuRYn-"), b"ACGTTNNNN".to_vec());
    assert_eq!(complement(b'a'), b'T');
    assert_eq!(complement(b'U'), b'A');
    assert_eq!(complement(b'x'), b'N');
    assert_eq!(revcomp(b"AACGTN"), b"NACGTT".to_vec());
    assert!(revcomp(b"").is_empty());
}

#[test]
fn revcomp_involution() {
    let samples: [&[u8]; 4] = [b"acgtuxyzACGT", b"", b"NNNN", b"GATTACA"];
    for s in samples.iter() {
        let n = normalize_seq(s);
        assert_eq!(revcomp(&revcomp(&n)), n);
    }
}
