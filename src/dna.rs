//! Complements of DNA text, as bio computes them.
use vstd::prelude::*;

verus! {

/// The IUPAC complement of an upper-case code; other bytes are kept.
pub open spec fn upper_complement(b: u8) -> u8 {
    if b == 65 { 84u8 }  // A -> T
    else if b == 84 { 65u8 }  // T -> A
    else if b == 67 { 71u8 }  // C -> G
    else if b == 71 { 67u8 }  // G -> C
    else if b == 89 { 82u8 }  // Y -> R
    else if b == 82 { 89u8 }  // R -> Y
    else if b == 75 { 77u8 }  // K -> M
    else if b == 77 { 75u8 }  // M -> K
    else if b == 68 { 72u8 }  // D -> H
    else if b == 72 { 68u8 }  // H -> D
    else if b == 86 { 66u8 }  // V -> B
    else if b == 66 { 86u8 }  // B -> V
    else { b }  // W, S, N and the rest stay
}

/// The complement of one byte of DNA text: IUPAC codes in either case, with
/// the case kept; any other byte is kept.
pub open spec fn iupac_complement(b: u8) -> u8 {
    if 97 <= b <= 122 && upper_complement((b - 32) as u8) != (b - 32) as u8 {
        (upper_complement((b - 32) as u8) + 32) as u8
    } else if 97 <= b <= 122 {
        b
    } else {
        upper_complement(b)
    }
}

/// The reverse complement of DNA text.
pub open spec fn revcomp_spec(s: Seq<u8>) -> Seq<u8> {
    Seq::new(s.len(), |i: int| iupac_complement(s[s.len() - 1 - i]))
}

/// Relies on bio::alphabets::dna::complement: a table lookup that swaps
/// A/T, C/G, Y/R, K/M, D/H, V/B in either case and keeps every other byte.
#[verifier::external_body]
pub(crate) fn complement(b: u8) -> (r: u8)
    ensures
        r == iupac_complement(b),
{
    bio::alphabets::dna::complement(b)
}

/// Relies on bio::alphabets::dna::revcomp: the text reversed, each byte
/// complemented as `complement` does.
#[verifier::external_body]
pub(crate) fn revcomp(s: &Vec<u8>) -> (r: Vec<u8>)
    ensures
        r@ == revcomp_spec(s@),
{
    bio::alphabets::dna::revcomp(s)
}

} // verus!
