//! Record sources: FASTA and FASTQ parsed from a byte buffer.
use vstd::prelude::*;

pub mod fasta;
pub mod fastq;

verus! {

/// Why a record could not be parsed.
#[derive(Clone, Copy, Debug, PartialEq, Eq, Structural)]
pub enum ParseError {
    /// FASTA sequence data before any `>` header.
    MissingHeader,
    /// A FASTQ record that does not start with `@`.
    BadFastqHeader,
    /// A FASTQ record that ends after its header.
    UnexpectedEof,
    /// A FASTQ record without its `+` line.
    MissingPlus,
    /// A FASTQ record without its quality line.
    MissingQuality,
    /// A FASTQ record whose sequence and quality differ in length.
    LengthMismatch,
    /// A header that is not valid UTF-8.
    InvalidText,
}

pub const NEWLINE: u8 = 10;

/// ASCII whitespace.
pub open spec fn is_ws(b: u8) -> bool {
    b == 32 || b == 9 || b == 10 || b == 13 || b == 11 || b == 12
}

pub open spec fn is_ascii_bytes(b: Seq<u8>) -> bool {
    forall|k: int| 0 <= k < b.len() ==> #[trigger] b[k] < 128
}

/// Bytes read as characters, one each.
pub open spec fn bytes_chars(b: Seq<u8>) -> Seq<char> {
    Seq::new(b.len(), |k: int| b[k] as char)
}

/// Position of the first newline at or after `p`, or the end.
pub open spec fn line_end(d: Seq<u8>, p: int) -> int
    decreases d.len() - p,
{
    if p >= d.len() {
        d.len() as int
    } else if d[p] == NEWLINE {
        p
    } else {
        line_end(d, p + 1)
    }
}

/// Start of the line after the one starting at `p`.
pub open spec fn next_line(d: Seq<u8>, p: int) -> int {
    if line_end(d, p) < d.len() {
        line_end(d, p) + 1
    } else {
        d.len() as int
    }
}

/// The bytes of the line starting at `p`, without its newline.
pub open spec fn line_at(d: Seq<u8>, p: int) -> Seq<u8> {
    d.subrange(p, line_end(d, p))
}

/// `s` without trailing whitespace.
pub open spec fn trim_end(s: Seq<u8>) -> Seq<u8>
    decreases s.len(),
{
    if s.len() > 0 && is_ws(s.last()) {
        trim_end(s.drop_last())
    } else {
        s
    }
}

/// `s` without leading whitespace.
pub open spec fn trim_start(s: Seq<u8>) -> Seq<u8>
    decreases s.len(),
{
    if s.len() > 0 && is_ws(s[0]) {
        trim_start(s.drop_first())
    } else {
        s
    }
}

/// Index of the first whitespace byte at or after `k`, or the length.
pub open spec fn first_ws(s: Seq<u8>, k: int) -> int
    decreases s.len() - k,
{
    if k >= s.len() {
        s.len() as int
    } else if is_ws(s[k]) {
        k
    } else {
        first_ws(s, k + 1)
    }
}

/// The identifier of a header: up to the first whitespace.
pub open spec fn header_id(h: Seq<u8>) -> Seq<u8> {
    h.subrange(0, first_ws(h, 0))
}

/// The description of a header: the rest, trimmed; absent when empty.
pub open spec fn header_desc(h: Seq<u8>) -> Seq<u8> {
    trim_start(trim_end(h.subrange(first_ws(h, 0), h.len() as int)))
}

pub(crate) fn find_line_end(d: &[u8], p: usize) -> (e: usize)
    requires
        p <= d@.len(),
    ensures
        e == line_end(d@, p as int),
        p <= e <= d@.len(),
{
    let mut e = p;
    while e < d.len() && d[e] != NEWLINE
        invariant
            p <= e <= d@.len(),
            line_end(d@, p as int) == line_end(d@, e as int),
        decreases d@.len() - e,
    {
        e += 1;
    }
    e
}

pub(crate) fn trim_end_range(d: &[u8], lo: usize, hi: usize) -> (r: usize)
    requires
        lo <= hi <= d@.len(),
    ensures
        lo <= r <= hi,
        d@.subrange(lo as int, r as int) == trim_end(d@.subrange(lo as int, hi as int)),
{
    let mut r = hi;
    while r > lo && (d[r - 1] == 32 || d[r - 1] == 9 || d[r - 1] == 10 || d[r - 1] == 13 || d[r - 1] == 11
        || d[r - 1] == 12)
        invariant
            lo <= r <= hi <= d@.len(),
            trim_end(d@.subrange(lo as int, r as int)) == trim_end(d@.subrange(lo as int, hi as int)),
        decreases r,
    {
        assert(d@.subrange(lo as int, r as int).drop_last() =~= d@.subrange(lo as int, r - 1));
        r -= 1;
    }
    r
}

pub(crate) fn trim_start_range(d: &[u8], lo: usize, hi: usize) -> (r: usize)
    requires
        lo <= hi <= d@.len(),
    ensures
        lo <= r <= hi,
        d@.subrange(r as int, hi as int) == trim_start(d@.subrange(lo as int, hi as int)),
{
    let mut r = lo;
    while r < hi && (d[r] == 32 || d[r] == 9 || d[r] == 10 || d[r] == 13 || d[r] == 11 || d[r] == 12)
        invariant
            lo <= r <= hi <= d@.len(),
            trim_start(d@.subrange(r as int, hi as int)) == trim_start(d@.subrange(lo as int, hi as int)),
        decreases hi - r,
    {
        assert(d@.subrange(r as int, hi as int).drop_first() =~= d@.subrange(r + 1, hi as int));
        r += 1;
    }
    r
}

/// Relies on String::from_utf8: the bytes as text when they are valid UTF-8,
/// ASCII bytes giving one character each.
#[verifier::external_body]
fn utf8_text(b: Vec<u8>) -> (r: Option<String>)
    ensures
        is_ascii_bytes(b@) ==> r.is_some() && r.unwrap()@ == bytes_chars(b@),
{
    String::from_utf8(b).ok()
}

/// Text of `d[lo..hi)`.
pub(crate) fn text_of(d: &[u8], lo: usize, hi: usize) -> (r: Option<String>)
    requires
        lo <= hi <= d@.len(),
    ensures
        is_ascii_bytes(d@.subrange(lo as int, hi as int)) ==> (r matches Some(s) && s@ == bytes_chars(
            d@.subrange(lo as int, hi as int),
        )),
{
    let mut v: Vec<u8> = Vec::new();
    let mut k = lo;
    while k < hi
        invariant
            lo <= k <= hi <= d@.len(),
            v@ == d@.subrange(lo as int, k as int),
        decreases hi - k,
    {
        v.push(d[k]);
        k += 1;
        assert(v@ =~= d@.subrange(lo as int, k as int));
    }
    utf8_text(v)
}

/// Splits a header (its bytes `d[lo..hi)`) into identifier and description.
pub(crate) fn split_header(d: &[u8], lo: usize, hi: usize) -> (r: Result<(String, Option<String>), ParseError>)
    requires
        lo <= hi <= d@.len(),
    ensures
        r is Err ==> r matches Err(ParseError::InvalidText),
        is_ascii_bytes(d@.subrange(lo as int, hi as int)) ==> (r matches Ok((id, desc)) && id@ == bytes_chars(
            header_id(d@.subrange(lo as int, hi as int)),
        ) && (header_desc(d@.subrange(lo as int, hi as int)).len() == 0 <==> desc is None) && (
        desc matches Some(t) ==> t@ == bytes_chars(header_desc(d@.subrange(lo as int, hi as int))))),
{
    let ghost h = d@.subrange(lo as int, hi as int);
    let mut w = lo;
    while w < hi && !(d[w] == 32 || d[w] == 9 || d[w] == 10 || d[w] == 13 || d[w] == 11 || d[w] == 12)
        invariant
            lo <= w <= hi <= d@.len(),
            h == d@.subrange(lo as int, hi as int),
            first_ws(h, 0) == first_ws(h, w - lo),
        decreases hi - w,
    {
        w += 1;
    }
    assert(first_ws(h, 0) == w - lo);
    assert(header_id(h) =~= d@.subrange(lo as int, w as int));
    assert(h.subrange(w - lo, h.len() as int) =~= d@.subrange(w as int, hi as int));
    let e = trim_end_range(d, w, hi);
    let s = trim_start_range(d, w, e);
    let id = match text_of(d, lo, w) {
        Some(t) => t,
        None => {
            proof {
                if is_ascii_bytes(h) {
                    assert(is_ascii_bytes(d@.subrange(lo as int, w as int))) by {
                        assert forall|k: int| 0 <= k < w - lo implies #[trigger] d@.subrange(lo as int, w as int)[k] < 128 by {
                            assert(h[k] < 128);
                        }
                    }
                }
            }
            return Err(ParseError::InvalidText);
        },
    };
    proof {
        if is_ascii_bytes(h) {
            assert forall|k: int| 0 <= k < w - lo implies #[trigger] d@.subrange(lo as int, w as int)[k] < 128 by {
                assert(h[k] < 128);
            }
            assert forall|k: int| 0 <= k < e - s implies #[trigger] d@.subrange(s as int, e as int)[k] < 128 by {
                assert(h[s - lo + k] < 128);
            }
        }
    }
    if s == e {
        return Ok((id, None));
    }
    match text_of(d, s, e) {
        Some(t) => Ok((id, Some(t))),
        None => Err(ParseError::InvalidText),
    }
}

} // verus!
