use bwa_rust::io::fasta::FastaReader;
use bwa_rust::io::fastq::FastqReader;
use bwa_rust::io::ParseError;

#[test]
fn parse_simple_fasta() {
    let data = b">chr1 first\nACgTNN\n>chr2\nAAA\n";
    let mut r = FastaReader::new(&data[..]);

    let r1 = r.next_record().unwrap().unwrap();
    assert_eq!(r1.id, "chr1");
    assert_eq!(r1.desc.as_deref(), Some("first"));
    assert_eq!(r1.seq, b"ACGTNN");

    let r2 = r.next_record().unwrap().unwrap();
    assert_eq!(r2.id, "chr2");
    assert_eq!(r2.desc, None);
    assert_eq!(r2.seq, b"AAA");

    assert!(r.next_record().unwrap().is_none());
}

#[test]
fn parse_fasta_with_crlf_and_whitespace() {
    let data = b">chr1 desc\r\nAC g t n\r\n acgt\r\n>chr2 \r\n N N N \r\n";
    let mut r = FastaReader::new(&data[..]);

    let r1 = r.next_record().unwrap().unwrap();
    assert_eq!(r1.id, "chr1");
    assert_eq!(r1.desc.as_deref(), Some("desc"));
    assert_eq!(r1.seq, b"ACGTNACGT");

    let r2 = r.next_record().unwrap().unwrap();
    assert_eq!(r2.id, "chr2");
    assert_eq!(r2.desc, None);
    assert_eq!(r2.seq, b"NNN");

    assert!(r.next_record().unwrap().is_none());
}

#[test]
fn parse_fasta_with_leading_empty_lines() {
    let data = b"\n\n>chr1\nACGT\n";
    let mut r = FastaReader::new(&data[..]);

    let r1 = r.next_record().unwrap().unwrap();
    assert_eq!(r1.id, "chr1");
    assert_eq!(r1.desc, None);
    assert_eq!(r1.seq, b"ACGT");

    assert!(r.next_record().unwrap().is_none());
}

#[test]
fn fasta_data_before_header_is_an_error() {
    let mut r = FastaReader::new(&b"ACGT\n>chr1\nAC\n"[..]);
    assert_eq!(r.next_record().err(), Some(ParseError::MissingHeader));
    let mut empty = FastaReader::new(&b""[..]);
    assert!(empty.next_record().unwrap().is_none());
}

#[test]
fn fasta_header_with_tabs_and_empty_sequence() {
    let mut r = FastaReader::new(&b">x\tsome  words \n>y\nGG"[..]);
    let a = r.next_record().unwrap().unwrap();
    assert_eq!(a.id, "x");
    assert_eq!(a.desc.as_deref(), Some("some  words"));
    assert!(a.seq.is_empty());
    let b = r.next_record().unwrap().unwrap();
    assert_eq!(b.id, "y");
    assert_eq!(b.seq, b"GG");
    assert!(r.next_record().unwrap().is_none());
}

#[test]
fn parse_fastq_records() {
    let data = b"@r1 first read\nACGT\n+\nIIII\n@r2\nGG \n+r2\n#I\n";
    let mut r = FastqReader::new(&data[..]);
    let a = r.next_record().unwrap().unwrap();
    assert_eq!(a.id, "r1");
    assert_eq!(a.desc.as_deref(), Some("first read"));
    assert_eq!(a.seq, b"ACGT");
    assert_eq!(a.qual, b"IIII");
    let b = r.next_record().unwrap().unwrap();
    assert_eq!(b.id, "r2");
    assert_eq!(b.desc, None);
    assert_eq!(b.seq, b"GG");
    assert_eq!(b.qual, b"#I");
    assert!(r.next_record().unwrap().is_none());
}

#[test]
fn fastq_errors() {
    let cases: [(&[u8], ParseError); 5] = [
        (b">r1\nACGT\n+\nIIII\n", ParseError::BadFastqHeader),
        (b"@r1\n", ParseError::UnexpectedEof),
        (b"@r1\nACGT\nIIII\n", ParseError::MissingPlus),
        (b"@r1\nACGT\n+\n", ParseError::MissingQuality),
        (b"@r1\nACGT\n+\nIII\n", ParseError::LengthMismatch),
    ];
    for (data, err) in cases.iter() {
        let mut r = FastqReader::new(data);
        assert_eq!(r.next_record().err(), Some(*err));
    }
}
