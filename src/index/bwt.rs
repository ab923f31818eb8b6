//! The Burrows-Wheeler transform of a coded text, read off its suffix array.
use vstd::prelude::*;

verus! {

/// `BWT[i] = T[(SA[i] - 1) mod N]`.
pub open spec fn bwt_spec(t: Seq<u8>, sa: Seq<u32>) -> Seq<u8> {
    Seq::new(sa.len(), |i: int| t[(sa[i] as int - 1) % (t.len() as int)])
}

/// Builds the BWT from the text and its suffix array; empty for an empty text.
pub fn build_bwt(text: &[u8], sa: &[u32]) -> (bwt: Vec<u8>)
    requires
        forall|k: int| 0 <= k < sa@.len() ==> sa@[k] < text@.len(),
    ensures
        text@.len() == 0 ==> bwt@.len() == 0,
        text@.len() > 0 ==> bwt@ == bwt_spec(text@, sa@),
{
    let n = text.len();
    if n == 0 {
        return Vec::new();
    }
    let mut bwt: Vec<u8> = Vec::with_capacity(sa.len());
    let mut i: usize = 0;
    while i < sa.len()
        invariant
            n == text@.len(),
            n > 0,
            i <= sa@.len(),
            forall|k: int| 0 <= k < sa@.len() ==> sa@[k] < n,
            bwt@ == bwt_spec(text@, sa@).subrange(0, i as int),
        decreases sa@.len() - i,
    {
        let p = sa[i] as usize;
        let prev = if p == 0 {
            text[n - 1]
        } else {
            text[p - 1]
        };
        proof {
            let q = (p as int - 1) % (n as int);
            if p == 0 {
                assert(q == n - 1) by (nonlinear_arith)
                    requires
                        q == (p as int - 1) % (n as int),
                        p == 0,
                        n > 0,
                ;
            } else {
                assert(q == p - 1) by (nonlinear_arith)
                    requires
                        q == (p as int - 1) % (n as int),
                        0 < p < n,
                ;
            }
        }
        bwt.push(prev);
        i += 1;
        assert(bwt@ =~= bwt_spec(text@, sa@).subrange(0, i as int));
    }
    assert(bwt_spec(text@, sa@).subrange(0, i as int) =~= bwt_spec(text@, sa@));
    bwt
}

} // verus!
