use bwa_rust::index::bwt::build_bwt;
use bwa_rust::index::sa::build_sa;

#[test]
fn sa_basic() {
    let text = [1u8, 2, 3, 4, 0];
    let sa = build_sa(&text);
    assert_eq!(sa, vec![4, 0, 1, 2, 3]);
}

#[test]
fn sa_is_sorted_permutation() {
    let text = [1u8, 2, 3, 4, 1, 2, 3, 4, 0, 3, 3, 1, 0];
    let sa = build_sa(&text);
    let mut seen = sa.clone();
    seen.sort();
    assert_eq!(seen, (0..text.len() as u32).collect::<Vec<_>>());
    for w in sa.windows(2) {
        assert!(text[w[0] as usize..] < text[w[1] as usize..]);
    }
}

#[test]
fn sa_of_empty_text() {
    assert!(build_sa(&[]).is_empty());
    assert!(build_bwt(&[], &[]).is_empty());
}

#[test]
fn bwt_reads_previous_symbol() {
    let text = [1u8, 2, 1, 3, 0];
    let sa = build_sa(&text);
    let bwt = build_bwt(&text, &sa);
    let n = text.len();
    for i in 0..n {
        let p = sa[i] as usize;
        assert_eq!(bwt[i], text[(p + n - 1) % n]);
    }
    assert_eq!(sa, vec![4, 0, 2, 1, 3]);
    assert_eq!(bwt, vec![3, 0, 2, 1, 1]);
}

#[test]
fn sa_on_repetitive_text() {
    let mut text: Vec<u8> = Vec::new();
    for i in 0..3000u32 {
        text.push(if i % 97 == 0 { 2 } else { 1 });
    }
    text.push(0);
    let sa = build_sa(&text);
    assert_eq!(sa.len(), text.len());
    assert_eq!(sa[0] as usize, text.len() - 1);
    for w in sa.windows(2) {
        assert!(text[w[0] as usize..] < text[w[1] as usize..]);
    }
}
