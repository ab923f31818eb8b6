//! The nucleotide alphabet: raw DNA bytes, their normal form, and the small
//! integer codes on which the index works ({0: sentinel, 1: A, 2: C, 3: G,
//! 4: T, 5: N}).
use vstd::prelude::*;

verus! {

/// Size of the coded alphabet, the sentinel included.
pub const SIGMA: usize = 6;

pub const BASE_A: u8 = 65;
pub const BASE_C: u8 = 67;
pub const BASE_G: u8 = 71;
pub const BASE_T: u8 = 84;
pub const BASE_U: u8 = 85;
pub const BASE_N: u8 = 78;
const LOWER_A: u8 = 97;
const LOWER_Z: u8 = 122;

/// ASCII upper-casing of one byte.
pub open spec fn upper(b: u8) -> u8 {
    if 97 <= b && b <= 122 {
        (b - 32) as u8
    } else {
        b
    }
}

/// The code of a raw byte: A/C/G/T/U map to 1/2/3/4/4, the sentinel byte 0
/// to itself, everything else to N (5). Case is ignored.
pub open spec fn code_of(b: u8) -> u8 {
    if b == 0 {
        0
    } else {
        let u = upper(b);
        if u == 65 {
            1
        } else if u == 67 {
            2
        } else if u == 71 {
            3
        } else if u == 84 || u == 85 {
            4
        } else {
            5
        }
    }
}

/// The byte of a code: 0 for the sentinel, A/C/G/T/N for 1..5, N otherwise.
pub open spec fn base_of(a: u8) -> u8 {
    if a == 0 {
        0
    } else if a == 1 {
        65
    } else if a == 2 {
        67
    } else if a == 3 {
        71
    } else if a == 4 {
        84
    } else {
        78
    }
}

/// The normal form of a base: upper case, U read as T, anything outside
/// ACGTN read as N.
pub open spec fn norm_base(b: u8) -> u8 {
    let u = upper(b);
    if u == 65 || u == 67 || u == 71 || u == 84 || u == 78 {
        u
    } else if u == 85 {
        84
    } else {
        78
    }
}

/// Watson-Crick complement of a base, case-insensitive; N for anything else.
pub open spec fn comp_base(b: u8) -> u8 {
    let u = upper(b);
    if u == 65 {
        84
    } else if u == 67 {
        71
    } else if u == 71 {
        67
    } else if u == 84 || u == 85 {
        65
    } else {
        78
    }
}

pub open spec fn normalize_spec(s: Seq<u8>) -> Seq<u8> {
    Seq::new(s.len(), |i: int| norm_base(s[i]))
}

pub open spec fn revcomp_spec(s: Seq<u8>) -> Seq<u8> {
    Seq::new(s.len(), |i: int| comp_base(s[s.len() - 1 - i]))
}

/// A byte among A, C, G, T, N (upper case).
pub open spec fn is_norm_base(b: u8) -> bool {
    b == 65 || b == 67 || b == 71 || b == 84 || b == 78
}

fn ascii_upper(b: u8) -> (r: u8)
    ensures
        r == upper(b),
{
    if b >= LOWER_A && b <= LOWER_Z {
        b - 32
    } else {
        b
    }
}

/// Maps a raw byte to its alphabet code.
pub fn to_alphabet(b: u8) -> (r: u8)
    ensures
        r == code_of(b),
        r < SIGMA,
{
    if b == 0 {
        return 0;
    }
    let u = ascii_upper(b);
    if u == BASE_A {
        1
    } else if u == BASE_C {
        2
    } else if u == BASE_G {
        3
    } else if u == BASE_T || u == BASE_U {
        4
    } else {
        5
    }
}

/// Maps an alphabet code back to its byte.
pub fn from_alphabet(a: u8) -> (r: u8)
    ensures
        r == base_of(a),
{
    match a {
        0 => 0,
        1 => BASE_A,
        2 => BASE_C,
        3 => BASE_G,
        4 => BASE_T,
        _ => BASE_N,
    }
}

fn norm_one(b: u8) -> (r: u8)
    ensures
        r == norm_base(b),
{
    let u = ascii_upper(b);
    if u == BASE_A || u == BASE_C || u == BASE_G || u == BASE_T || u == BASE_N {
        u
    } else if u == BASE_U {
        BASE_T
    } else {
        BASE_N
    }
}

/// Upper-cases a sequence, reads U as T and every byte outside ACGTN as N.
pub fn normalize_seq(seq: &[u8]) -> (out: Vec<u8>)
    ensures
        out@ == normalize_spec(seq@),
{
    let mut out: Vec<u8> = Vec::with_capacity(seq.len());
    let mut i: usize = 0;
    while i < seq.len()
        invariant
            i <= seq@.len(),
            out@ == normalize_spec(seq@.subrange(0, i as int)),
        decreases seq@.len() - i,
    {
        out.push(norm_one(seq[i]));
        i += 1;
    }
    assert(seq@.subrange(0, i as int) == seq@);
    out
}

/// Complement of one base.
pub fn complement(base: u8) -> (r: u8)
    ensures
        r == comp_base(base),
{
    let u = ascii_upper(base);
    if u == BASE_A {
        BASE_T
    } else if u == BASE_C {
        BASE_G
    } else if u == BASE_G {
        BASE_C
    } else if u == BASE_T || u == BASE_U {
        BASE_A
    } else {
        BASE_N
    }
}

/// Reverse complement of a sequence.
pub fn revcomp(seq: &[u8]) -> (out: Vec<u8>)
    ensures
        out@ == revcomp_spec(seq@),
{
    let n = seq.len();
    let mut out: Vec<u8> = Vec::with_capacity(n);
    let mut i: usize = 0;
    while i < n
        invariant
            n == seq@.len(),
            i <= n,
            out@.len() == i,
            forall|k: int| 0 <= k < i ==> out@[k] == comp_base(#[trigger] seq@[n - 1 - k]),
        decreases n - i,
    {
        out.push(complement(seq[n - 1 - i]));
        i += 1;
    }
    assert(out@ =~= revcomp_spec(seq@));
    out
}

/// Decoding then encoding gives back every code of a base; encoding then
/// decoding any of A, C, G, T, N in either case gives the upper-case byte.
pub proof fn lemma_alphabet_round_trip(c: u8, b: u8)
    ensures
        1 <= c <= 5 ==> code_of(base_of(c)) == c,
        is_norm_base(upper(b)) ==> base_of(code_of(b)) == upper(b),
{
}

/// Every byte of a normalized sequence is one of A, C, G, T, N.
pub proof fn lemma_normalize_bases(s: Seq<u8>)
    ensures
        forall|i: int| 0 <= i < s.len() ==> is_norm_base(#[trigger] normalize_spec(s)[i]),
{
}

/// The reverse complement is an involution on normalized sequences.
pub proof fn lemma_revcomp_involution(s: Seq<u8>)
    ensures
        revcomp_spec(revcomp_spec(normalize_spec(s))) == normalize_spec(s),
{
    let n = normalize_spec(s);
    let r = revcomp_spec(revcomp_spec(n));
    assert forall|i: int| 0 <= i < n.len() implies r[i] == n[i] by {
        assert(is_norm_base(n[i]));
    }
    assert(r =~= n);
}

} // verus!
