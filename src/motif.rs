//! Positions of a sequence motif on both strands of a reference sequence.
use vstd::prelude::*;

use crate::dna::{revcomp, revcomp_spec};
use crate::mod_base_code::Strand;

verus! {

/// A byte of reference text in upper case.
pub open spec fn upper(b: u8) -> u8 {
    if 97 <= b <= 122 {
        (b - 32) as u8
    } else {
        b
    }
}

/// `motif` occurs in `seq` starting at `i`, case aside.
pub open spec fn occurs_at(seq: Seq<u8>, motif: Seq<u8>, i: int) -> bool {
    &&& 0 <= i
    &&& i + motif.len() <= seq.len()
    &&& forall|k: int| 0 <= k < motif.len() ==> upper(#[trigger] seq[i + k]) == motif[k]
}

/// `p` is the offset base of a forward occurrence of the motif.
pub open spec fn plus_site(seq: Seq<u8>, motif: Seq<u8>, offset: int, p: int) -> bool {
    occurs_at(seq, motif, p - offset)
}

/// `p` is the offset base of an occurrence on the reverse strand, where the
/// forward text reads the motif's reverse complement.
pub open spec fn minus_site(seq: Seq<u8>, motif: Seq<u8>, offset: int, p: int) -> bool {
    occurs_at(seq, revcomp_spec(motif), p - (motif.len() - 1 - offset))
}

/// The motif positions among the first `n` bases, ascending, the positive
/// strand first where both strands have one.
pub open spec fn motif_locations_spec(seq: Seq<u8>, motif: Seq<u8>, offset: int, n: int) -> Seq<(u32, Strand)>
    decreases n,
{
    if n <= 0 {
        Seq::empty()
    } else {
        let p = n - 1;
        motif_locations_spec(seq, motif, offset, n - 1) + (if plus_site(seq, motif, offset, p) {
            seq![(p as u32, Strand::Positive)]
        } else {
            Seq::empty()
        }) + (if minus_site(seq, motif, offset, p) {
            seq![(p as u32, Strand::Negative)]
        } else {
            Seq::empty()
        })
    }
}

fn occurs_at_exec(seq: &Vec<u8>, motif: &Vec<u8>, i: usize) -> (r: bool)
    requires
        i + motif@.len() <= seq@.len(),
    ensures
        r == occurs_at(seq@, motif@, i as int),
{
    let n = seq.len();
    let mut k: usize = 0;
    while k < motif.len()
        invariant
            k <= motif@.len(),
            n == seq@.len(),
            i + motif@.len() <= seq@.len(),
            forall|j: int| 0 <= j < k ==> upper(#[trigger] seq@[i + j]) == motif@[j],
        decreases motif@.len() - k,
    {
        let b = seq[i + k];
        let u = if b >= 97 && b <= 122 {
            b - 32
        } else {
            b
        };
        if u != motif[k] {
            proof {
                assert(upper(seq@[i + k as int]) != motif@[k as int]);
            }
            return false;
        }
        k = k + 1;
    }
    true
}

/// Every position of the reference where the motif's offset base lies, on
/// either strand, ascending.
pub fn find_motif_locations(seq: &Vec<u8>, motif: &Vec<u8>, offset: usize) -> (r: Vec<(u32, Strand)>)
    requires
        seq@.len() <= u32::MAX,
        offset < motif@.len(),
    ensures
        r@ == motif_locations_spec(seq@, motif@, offset as int, seq@.len() as int),
{
    let rc = revcomp(motif);
    let m = motif.len();
    let back = m - 1 - offset;
    let mut out: Vec<(u32, Strand)> = Vec::new();
    let mut p: usize = 0;
    while p < seq.len()
        invariant
            p <= seq@.len(),
            seq@.len() <= u32::MAX,
            m == motif@.len(),
            rc@ == revcomp_spec(motif@),
            rc@.len() == m,
            offset < m,
            back == m - 1 - offset,
            out@ == motif_locations_spec(seq@, motif@, offset as int, p as int),
        decreases seq@.len() - p,
    {
        let ghost before = out@;
        let plus = p >= offset && m <= seq.len() - (p - offset) && occurs_at_exec(seq, motif, p - offset);
        if plus {
            out.push((p as u32, Strand::Positive));
        }
        let ghost mid = out@;
        let minus = p >= back && m <= seq.len() - (p - back) && occurs_at_exec(seq, &rc, p - back);
        if minus {
            out.push((p as u32, Strand::Negative));
        }
        proof {
            assert(plus == plus_site(seq@, motif@, offset as int, p as int));
            assert(minus == minus_site(seq@, motif@, offset as int, p as int));
            assert(out@ =~= motif_locations_spec(seq@, motif@, offset as int, p as int + 1));
        }
        p = p + 1;
    }
    out
}

} // verus!
