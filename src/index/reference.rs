//! Building an index from reference records: coded contigs joined by
//! sentinels, then suffix array, BWT and FM-index.
use vstd::prelude::*;
use crate::index::bwt::{build_bwt, bwt_spec};
use crate::index::fm::{Contig, FMIndex, contigs_wf};
use crate::index::sa::{build_sa, suffixes_sorted};
use crate::util::dna::{SIGMA, code_of, normalize_seq, normalize_spec, to_alphabet};

verus! {

/// Why no index could be built.
#[derive(Clone, Copy, Debug, PartialEq, Eq, Structural)]
pub enum BuildError {
    /// No records, or only empty ones.
    EmptyReference,
    /// The joined text would not fit `u32` positions.
    TooLarge,
}

/// The coded text of a sequence: its normal form, encoded.
pub open spec fn coded(s: Seq<u8>) -> Seq<u8> {
    Seq::new(s.len(), |k: int| code_of(normalize_spec(s)[k]))
}

/// The text of the records: each coded sequence followed by a sentinel.
pub open spec fn joined_text(seqs: Seq<Seq<u8>>) -> Seq<u8>
    decreases seqs.len(),
{
    if seqs.len() == 0 {
        Seq::empty()
    } else {
        joined_text(seqs.drop_last()) + coded(seqs.last()) + seq![0u8]
    }
}

/// Appends one record to the text and its contig to the list.
pub fn push_contig(text: &mut Vec<u8>, contigs: &mut Vec<Contig>, name: String, seq: &[u8])
    requires
        old(text)@.len() + seq@.len() + 1 <= u32::MAX,
        contigs_wf(old(contigs)@, old(text)@.len() as int),
    ensures
        final(text)@ == old(text)@ + coded(seq@) + seq![0u8],
        final(contigs)@.len() == old(contigs)@.len() + 1,
        final(contigs)@.subrange(0, old(contigs)@.len() as int) == old(contigs)@,
        final(contigs)@.last().name@ == name@,
        final(contigs)@.last().len == seq@.len(),
        final(contigs)@.last().offset == old(text)@.len(),
        contigs_wf(final(contigs)@, final(text)@.len() as int),
{
    let norm = normalize_seq(seq);
    let start = text.len();
    let ghost t0 = text@;
    let mut k: usize = 0;
    while k < norm.len()
        invariant
            norm@ == normalize_spec(seq@),
            norm@.len() == seq@.len(),
            start == t0.len(),
            k <= norm@.len(),
            text@ == t0 + coded(seq@).subrange(0, k as int),
        decreases norm@.len() - k,
    {
        text.push(to_alphabet(norm[k]));
        k += 1;
        assert(text@ =~= t0 + coded(seq@).subrange(0, k as int));
    }
    assert(coded(seq@).subrange(0, k as int) =~= coded(seq@));
    text.push(0);
    let ghost c0 = contigs@;
    contigs.push(Contig { name, len: seq.len() as u32, offset: start as u32 });
    assert(contigs@.subrange(0, c0.len() as int) =~= c0);
    assert forall|j: int, l: int| 0 <= j < l < contigs@.len() implies #[trigger] contigs@[j].offset
        + contigs@[j].len <= #[trigger] contigs@[l].offset by {
        if l < c0.len() {
            assert(contigs@[j] == c0[j] && contigs@[l] == c0[l]);
        } else {
            assert(contigs@[j] == c0[j]);
        }
    }
}

/// Every record's sequence is empty.
pub open spec fn all_empty(records: Seq<(String, Vec<u8>)>) -> bool {
    forall|k: int| 0 <= k < records.len() ==> (#[trigger] records[k]).1@.len() == 0
}

/// Builds the FM-index of reference records `(name, sequence)`: the joined
/// text, its suffix array and BWT, with occurrence blocks of `block`.
pub fn index_reference(records: &Vec<(String, Vec<u8>)>, block: usize) -> (res: Result<FMIndex, BuildError>)
    requires
        0 < block <= u32::MAX,
    ensures
        res matches Ok(idx) ==> {
            &&& idx.wf()
            &&& idx.sigma == SIGMA
            &&& idx.contigs@.len() == records@.len()
            &&& idx.text@ == joined_text(Seq::new(records@.len(), |k: int| records@[k].1@))
            &&& suffixes_sorted(idx.text@, idx.sa@)
            &&& idx.bwt@ == bwt_spec(idx.text@, idx.sa@)
            &&& forall|k: int|
                0 <= k < records@.len() ==> (#[trigger] idx.contigs@[k]).name@ == records@[k].0@
                    && idx.contigs@[k].len == records@[k].1@.len()
        },
        all_empty(records@) <==> (res matches Err(BuildError::EmptyReference)),
        (res matches Err(BuildError::TooLarge)) <==> (!all_empty(records@) && joined_text(
            Seq::new(records@.len(), |k: int| records@[k].1@),
        ).len() > u32::MAX),
{
    let ghost seqs = Seq::new(records@.len(), |k: int| records@[k].1@);
    let ghost recs = records@;
    let n = records.len();
    let mut any = false;
    let mut k: usize = 0;
    while k < n
        invariant
            n == recs.len(),
            recs == records@,
            k <= n,
            any == exists|t: int| 0 <= t < k && (#[trigger] recs[t]).1@.len() > 0,
        decreases n - k,
    {
        if records[k].1.len() > 0 {
            any = true;
        }
        proof {
            if recs[k as int].1@.len() > 0 {
                assert(0 <= k < k + 1 && recs[k as int].1@.len() > 0);
            }
        }
        k += 1;
    }
    if !any {
        proof {
            assert forall|t: int| 0 <= t < recs.len() implies (#[trigger] recs[t]).1@.len() == 0 by {
                if recs[t].1@.len() > 0 {
                    assert(exists|t: int| 0 <= t < k && (#[trigger] recs[t]).1@.len() > 0);
                }
            }
        }
        return Err(BuildError::EmptyReference);
    }
    let ghost witness = choose|t: int| 0 <= t < n && (#[trigger] recs[t]).1@.len() > 0;
    let mut text: Vec<u8> = Vec::new();
    let mut contigs: Vec<Contig> = Vec::new();
    let mut k: usize = 0;
    while k < n
        invariant
            n == recs.len(),
            n > 0,
            0 <= witness < n,
            recs[witness].1@.len() > 0,
            seqs == Seq::new(recs.len(), |k: int| recs[k].1@),
            k <= n,
            recs == records@,
            text@ == joined_text(seqs.subrange(0, k as int)),
            text@.len() <= u32::MAX,
            contigs_wf(contigs@, text@.len() as int),
            contigs@.len() == k,
            forall|t: int|
                0 <= t < k ==> (#[trigger] contigs@[t]).name@ == recs[t].0@ && contigs@[t].len == recs[t].1@.len(),
        decreases n - k,
    {
        let name = records[k].0.clone();
        let seq = &records[k].1;
        if text.len() > 0xffff_fffe || seq.len() > 0xffff_fffe - text.len() {
            proof {
                assert(recs[witness].1@.len() > 0);
                assert(!all_empty(recs));
                lemma_joined_step(seqs, k as int);
                assert(seqs.subrange(0, k + 1).last() == seq@);
                lemma_joined_mono(seqs, k + 1, n as int);
                assert(seqs.subrange(0, n as int) =~= seqs);
            }
            return Err(BuildError::TooLarge);
        }
        push_contig(&mut text, &mut contigs, name, seq.as_slice());
        proof {
            assert(seqs.subrange(0, k + 1).drop_last() =~= seqs.subrange(0, k as int));
            assert(seqs.subrange(0, k + 1).last() == seq@);
            assert forall|t: int| 0 <= t < k + 1 implies (#[trigger] contigs@[t]).name@ == recs[t].0@
                && contigs@[t].len == recs[t].1@.len() by {
                if t < k {
                    assert(contigs@[t] == contigs@.subrange(0, k as int)[t]);
                }
            }
        }
        k += 1;
    }
    proof {
        assert(seqs.subrange(0, n as int) =~= seqs);
        lemma_joined_len(seqs, n as int);
    }
    let sa = build_sa(text.as_slice());
    let bwt = build_bwt(text.as_slice(), sa.as_slice());
    let idx = FMIndex::build(text, bwt, sa, contigs, SIGMA as u8, block);
    Ok(idx)
}

proof fn lemma_joined_step(seqs: Seq<Seq<u8>>, k: int)
    requires
        0 <= k < seqs.len(),
    ensures
        joined_text(seqs.subrange(0, k + 1)).len() == joined_text(seqs.subrange(0, k)).len() + seqs[k].len() + 1,
{
    assert(seqs.subrange(0, k + 1).drop_last() =~= seqs.subrange(0, k));
    assert(seqs.subrange(0, k + 1).last() == seqs[k]);
}

proof fn lemma_joined_mono(seqs: Seq<Seq<u8>>, k: int, m: int)
    requires
        0 <= k <= m <= seqs.len(),
    ensures
        joined_text(seqs.subrange(0, k)).len() <= joined_text(seqs.subrange(0, m)).len(),
    decreases m - k,
{
    if k < m {
        lemma_joined_mono(seqs, k, m - 1);
        lemma_joined_step(seqs, m - 1);
    }
}

proof fn lemma_joined_len(seqs: Seq<Seq<u8>>, k: int)
    requires
        0 < k <= seqs.len(),
    ensures
        joined_text(seqs.subrange(0, k)).len() > 0,
{
    assert(seqs.subrange(0, k).len() > 0);
    assert(joined_text(seqs.subrange(0, k)) == joined_text(seqs.subrange(0, k).drop_last()) + coded(
        seqs.subrange(0, k).last(),
    ) + seq![0u8]);
}

} // verus!
