//! FASTA records from a byte buffer.
use vstd::prelude::*;
use crate::io::{
    ParseError, NEWLINE, bytes_chars, find_line_end, header_desc, header_id, is_ascii_bytes, is_ws, line_end,
    next_line, split_header, trim_end, trim_end_range, trim_start, trim_start_range,
};
use crate::util::dna::upper;

verus! {

pub const HEADER_MARK: u8 = 62;

/// One FASTA record: identifier, optional description, upper-cased sequence
/// without whitespace.
#[derive(Clone, Debug)]
pub struct FastaRecord {
    pub id: String,
    pub desc: Option<String>,
    pub seq: Vec<u8>,
}

/// Reads FASTA records one by one from a byte buffer.
pub struct FastaReader<'a> {
    data: &'a [u8],
    pos: usize,
}

/// Bytes removed from sequence lines.
pub open spec fn is_seq_ws(b: u8) -> bool {
    b == 10 || b == 13 || b == 32 || b == 9
}

/// Sequence bytes of `s`: whitespace dropped, the rest upper-cased.
pub open spec fn clean_seq(s: Seq<u8>) -> Seq<u8>
    decreases s.len(),
{
    if s.len() == 0 {
        Seq::empty()
    } else if is_seq_ws(s.last()) {
        clean_seq(s.drop_last())
    } else {
        clean_seq(s.drop_last()).push(upper(s.last()))
    }
}

/// Start of the first header line (a line beginning with `>`) at or after
/// `p`, or the end; `at_start` tells whether `p` begins a line.
pub open spec fn next_header(d: Seq<u8>, p: int, at_start: bool) -> int
    decreases d.len() - p,
{
    if p >= d.len() {
        d.len() as int
    } else if at_start && d[p] == HEADER_MARK {
        p
    } else {
        next_header(d, p + 1, d[p] == NEWLINE)
    }
}

pub open spec fn all_ws(s: Seq<u8>) -> bool {
    forall|k: int| 0 <= k < s.len() ==> is_ws(#[trigger] s[k])
}

/// The trimmed text of the header line starting at `h`, after its `>`.
pub open spec fn fasta_header(d: Seq<u8>, h: int) -> Seq<u8> {
    trim_start(trim_end(d.subrange(h + 1, line_end(d, h))))
}

impl<'a> FastaReader<'a> {
    /// A reader at the start of `data`.
    pub fn new(data: &'a [u8]) -> (r: Self)
        ensures
            r.view_data() == data@,
            r.position() == 0,
    {
        FastaReader { data, pos: 0 }
    }

    pub closed spec fn view_data(&self) -> Seq<u8> {
        self.data@
    }

    pub closed spec fn position(&self) -> int {
        self.pos as int
    }

    /// The next record. Blank lines may precede the first header; any other
    /// bytes there are an error. The record runs from its header line to the
    /// next header line or the end of the data.
    pub fn next_record(&mut self) -> (res: Result<Option<FastaRecord>, ParseError>)
        requires
            old(self).position() <= old(self).view_data().len(),
        ensures
            final(self).view_data() == old(self).view_data(),
            final(self).position() <= final(self).view_data().len(),
            ({
                let d = old(self).view_data();
                let p = old(self).position();
                let h = next_header(d, p, true);
                if !all_ws(d.subrange(p, h)) {
                    res matches Err(ParseError::MissingHeader)
                } else if h == d.len() {
                    res matches Ok(None) && final(self).position() == d.len()
                } else {
                    let s = next_line(d, h);
                    let hdr = fasta_header(d, h);
                    &&& (res is Err ==> res matches Err(ParseError::InvalidText))
                    &&& (res is Ok ==> (res matches Ok(Some(rec)) && rec.seq@ == clean_seq(
                        d.subrange(s, next_header(d, s, true)),
                    ) && final(self).position() == next_header(d, s, true)))
                    &&& (is_ascii_bytes(hdr) ==> (res matches Ok(Some(rec)) && rec.id@ == bytes_chars(
                        header_id(hdr),
                    ) && (header_desc(hdr).len() == 0 <==> rec.desc is None) && (rec.desc matches Some(t)
                        ==> t@ == bytes_chars(header_desc(hdr)))))
                }
            }),
    {
        let d = self.data;
        let n = d.len();
        let p = self.pos;
        let mut h = p;
        let mut at_start = true;
        let mut blank = true;
        while h < n && !(at_start && d[h] == HEADER_MARK)
            invariant
                n == d@.len(),
                p <= h <= n,
                next_header(d@, p as int, true) == next_header(d@, h as int, at_start),
                blank == all_ws(d@.subrange(p as int, h as int)),
            decreases n - h,
        {
            let b = d[h];
            let ws = b == 32 || b == 9 || b == 10 || b == 13 || b == 11 || b == 12;
            proof {
                assert(d@.subrange(p as int, h + 1) =~= d@.subrange(p as int, h as int).push(b));
                if !ws {
                    assert(!is_ws(d@.subrange(p as int, h + 1)[h - p]));
                }
            }
            if !ws {
                blank = false;
            }
            at_start = b == NEWLINE;
            h += 1;
        }
        if !blank {
            return Err(ParseError::MissingHeader);
        }
        if h == n {
            self.pos = n;
            return Ok(None);
        }
        let e = find_line_end(d, h + 1);
        proof {
            assert(line_end(d@, h as int) == line_end(d@, h + 1));
        }
        let te = trim_end_range(d, h + 1, e);
        let ts = trim_start_range(d, h + 1, te);
        proof {
            assert(d@.subrange(ts as int, te as int) == fasta_header(d@, h as int));
        }
        let (id, desc) = match split_header(d, ts, te) {
            Ok(v) => v,
            Err(err) => {
                return Err(err);
            },
        };
        let s = if e < n {
            e + 1
        } else {
            n
        };
        let mut seq: Vec<u8> = Vec::new();
        let mut k = s;
        let mut at_start = true;
        while k < n && !(at_start && d[k] == HEADER_MARK)
            invariant
                n == d@.len(),
                s <= k <= n,
                next_header(d@, s as int, true) == next_header(d@, k as int, at_start),
                seq@ == clean_seq(d@.subrange(s as int, k as int)),
            decreases n - k,
        {
            let b = d[k];
            proof {
                assert(d@.subrange(s as int, k + 1).drop_last() =~= d@.subrange(s as int, k as int));
            }
            if !(b == 10 || b == 13 || b == 32 || b == 9) {
                let u = if b >= 97 && b <= 122 {
                    b - 32
                } else {
                    b
                };
                seq.push(u);
            }
            at_start = b == NEWLINE;
            k += 1;
        }
        proof {
            assert(s == next_line(d@, h as int));
            assert(k == next_header(d@, k as int, at_start));
        }
        self.pos = k;
        Ok(Some(FastaRecord { id, desc, seq }))
    }
}

} // verus!
