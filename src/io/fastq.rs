//! FASTQ records from a byte buffer: four lines per record, no wrapping.
use vstd::prelude::*;
use crate::io::{
    ParseError, bytes_chars, find_line_end, header_desc, header_id, is_ascii_bytes, line_at, line_end,
    next_line, split_header, trim_end, trim_end_range,
};

verus! {

pub const FASTQ_MARK: u8 = 64;

pub const PLUS_MARK: u8 = 43;

/// One FASTQ record.
#[derive(Clone, Debug)]
pub struct FastqRecord {
    pub id: String,
    pub desc: Option<String>,
    pub seq: Vec<u8>,
    pub qual: Vec<u8>,
}

/// Reads FASTQ records one by one from a byte buffer.
pub struct FastqReader<'a> {
    data: &'a [u8],
    pos: usize,
}

/// Header text of the record at `p`, after its `@`, without trailing
/// whitespace.
pub open spec fn fastq_header(d: Seq<u8>, p: int) -> Seq<u8> {
    trim_end(d.subrange(p + 1, line_end(d, p)))
}

fn copy_range(d: &[u8], lo: usize, hi: usize) -> (v: Vec<u8>)
    requires
        lo <= hi <= d@.len(),
    ensures
        v@ == d@.subrange(lo as int, hi as int),
{
    let mut v: Vec<u8> = Vec::new();
    let mut k = lo;
    while k < hi
        invariant
            lo <= k <= hi <= d@.len(),
            v@ == d@.subrange(lo as int, k as int),
        decreases hi - k,
    {
        v.push(d[k]);
        k += 1;
        assert(v@ =~= d@.subrange(lo as int, k as int));
    }
    v
}

fn line_after(d: &[u8], e: usize) -> (s: usize)
    requires
        e <= d@.len(),
    ensures
        s == if e < d@.len() {
            e + 1
        } else {
            d@.len() as int
        },
{
    if e < d.len() {
        e + 1
    } else {
        d.len()
    }
}

impl<'a> FastqReader<'a> {
    /// A reader at the start of `data`.
    pub fn new(data: &'a [u8]) -> (r: Self)
        ensures
            r.view_data() == data@,
            r.position() == 0,
    {
        FastqReader { data, pos: 0 }
    }

    pub closed spec fn view_data(&self) -> Seq<u8> {
        self.data@
    }

    pub closed spec fn position(&self) -> int {
        self.pos as int
    }

    /// The next record: a `@` header, the sequence, a `+` line and the
    /// qualities, each without trailing whitespace; `None` at the end.
    pub fn next_record(&mut self) -> (res: Result<Option<FastqRecord>, ParseError>)
        requires
            old(self).position() <= old(self).view_data().len(),
        ensures
            final(self).view_data() == old(self).view_data(),
            final(self).position() <= final(self).view_data().len(),
            ({
                let d = old(self).view_data();
                let p = old(self).position();
                let s1 = next_line(d, p);
                let s2 = next_line(d, s1);
                let s3 = next_line(d, s2);
                let seq = trim_end(line_at(d, s1));
                let qual = trim_end(line_at(d, s3));
                let hdr = fastq_header(d, p);
                if p >= d.len() {
                    res matches Ok(None) && final(self).position() == d.len()
                } else if d[p] != FASTQ_MARK {
                    res matches Err(ParseError::BadFastqHeader)
                } else if s1 >= d.len() {
                    res matches Err(ParseError::UnexpectedEof)
                } else if s2 >= d.len() || d[s2] != PLUS_MARK {
                    res matches Err(ParseError::MissingPlus)
                } else if s3 >= d.len() {
                    res matches Err(ParseError::MissingQuality)
                } else if seq.len() != qual.len() {
                    res matches Err(ParseError::LengthMismatch)
                } else {
                    &&& (res is Err ==> res matches Err(ParseError::InvalidText))
                    &&& (res is Ok ==> (res matches Ok(Some(rec)) && rec.seq@ == seq && rec.qual@ == qual
                        && final(self).position() == next_line(d, s3)))
                    &&& (is_ascii_bytes(hdr) ==> (res matches Ok(Some(rec)) && rec.id@ == bytes_chars(
                        header_id(hdr),
                    ) && (header_desc(hdr).len() == 0 <==> rec.desc is None) && (rec.desc matches Some(t)
                        ==> t@ == bytes_chars(header_desc(hdr)))))
                }
            }),
    {
        let d = self.data;
        let n = d.len();
        let p = self.pos;
        if p >= n {
            return Ok(None);
        }
        if d[p] != FASTQ_MARK {
            return Err(ParseError::BadFastqHeader);
        }
        let e0 = find_line_end(d, p);
        let s1 = line_after(d, e0);
        if s1 >= n {
            return Err(ParseError::UnexpectedEof);
        }
        let e1 = find_line_end(d, s1);
        let s2 = line_after(d, e1);
        if s2 >= n || d[s2] != PLUS_MARK {
            return Err(ParseError::MissingPlus);
        }
        let e2 = find_line_end(d, s2);
        let s3 = line_after(d, e2);
        if s3 >= n {
            return Err(ParseError::MissingQuality);
        }
        let e3 = find_line_end(d, s3);
        let seq_end = trim_end_range(d, s1, e1);
        let qual_end = trim_end_range(d, s3, e3);
        if seq_end - s1 != qual_end - s3 {
            return Err(ParseError::LengthMismatch);
        }
        proof {
            assert(line_end(d@, p as int) == line_end(d@, p + 1));
        }
        let hdr_end = trim_end_range(d, p + 1, e0);
        let (id, desc) = match split_header(d, p + 1, hdr_end) {
            Ok(v) => v,
            Err(err) => {
                return Err(err);
            },
        };
        let seq = copy_range(d, s1, seq_end);
        let qual = copy_range(d, s3, qual_end);
        self.pos = line_after(d, e3);
        Ok(Some(FastqRecord { id, desc, seq, qual }))
    }
}

} // verus!
