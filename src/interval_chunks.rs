//! The split of a contig into the half-open intervals processed in parallel.
use vstd::prelude::*;

use crate::mod_base_code::Strand;

verus! {

/// The `i`-th interval of `[start, end)` cut into pieces of `size`.
pub open spec fn chunk(start: int, end: int, size: int, i: int) -> (int, int) {
    let a = start + i * size;
    let b = a + size;
    (a, if b > end { end } else { b })
}

pub open spec fn has_location_in(locs: Seq<(u32, Strand)>, a: int, b: int) -> bool {
    exists|j: int| 0 <= j < locs.len() && a <= (#[trigger] locs[j]).0 < b
}

/// The intervals that start before `end`, in order; with motif locations,
/// only those holding one.
pub open spec fn chunks_spec(start: int, end: int, size: int, locs: Option<Seq<(u32, Strand)>>, n: nat) -> Seq<(u32, u32)>
    decreases n,
{
    if n == 0 {
        Seq::empty()
    } else {
        let c = chunk(start, end, size, n - 1);
        chunks_spec(start, end, size, locs, (n - 1) as nat) + if match locs {
            Some(l) => has_location_in(l, c.0, c.1),
            None => true,
        } {
            seq![(c.0 as u32, c.1 as u32)]
        } else {
            Seq::empty()
        }
    }
}

/// The number of intervals: `ceil((end - start) / size)`.
pub open spec fn chunk_count(start: int, end: int, size: int) -> nat {
    if end <= start {
        0
    } else {
        ((end - start + size - 1) / size) as nat
    }
}

fn has_location(locs: &Vec<(u32, Strand)>, a: u32, b: u32) -> (r: bool)
    ensures
        r == has_location_in(locs@, a as int, b as int),
{
    let mut j: usize = 0;
    while j < locs.len()
        invariant
            j <= locs@.len(),
            forall|k: int| 0 <= k < j ==> !(a <= (#[trigger] locs@[k]).0 < b),
        decreases locs@.len() - j,
    {
        if a <= locs[j].0 && locs[j].0 < b {
            return true;
        }
        j = j + 1;
    }
    false
}

/// Cuts `[start, start + length)` into intervals of `size`, the last one
/// possibly shorter, keeping, where motif locations are given, only the
/// intervals that hold one.
pub fn interval_chunks(start: u32, length: u32, size: u32, motif_locations: Option<&Vec<(u32, Strand)>>) -> (r: Vec<(u32, u32)>)
    requires
        size > 0,
        start + length <= u32::MAX,
    ensures
        r@ == chunks_spec(
            start as int,
            start + length,
            size as int,
            match motif_locations {
                Some(l) => Some(l@),
                None => None,
            },
            chunk_count(start as int, start + length, size as int),
        ),
{
    let end: u32 = start + length;
    let ghost locs = match motif_locations {
        Some(l) => Some(l@),
        None => None,
    };
    let mut out: Vec<(u32, u32)> = Vec::new();
    let mut a: u32 = start;
    let mut i: u32 = 0;
    while a < end
        invariant
            start <= a <= end,
            end == start + length,
            size > 0,
            a as int == start + i * size,
            i == chunk_count(start as int, a as int, size as int),
            locs == match motif_locations {
                Some(l) => Some(l@),
                None => None,
            },
            out@ == chunks_spec(start as int, end as int, size as int, locs, i as nat),
        decreases end - a,
    {
        let b: u32 = if size > end - a {
            end
        } else {
            a + size
        };
        let keep = match motif_locations {
            Some(l) => has_location(l, a, b),
            None => true,
        };
        if keep {
            out.push((a, b));
        }
        proof {
            assert(chunk(start as int, end as int, size as int, i as int) == (a as int, b as int));
            assert(out@ =~= chunks_spec(start as int, end as int, size as int, locs, (i + 1) as nat));
            assert(((a - start + size) + size - 1) / (size as int) == (a - start + size - 1) / (size as int) + 1) by (nonlinear_arith)
                requires
                    size > 0,
            ;
            assert((i * size + size - 1) / (size as int) == i) by (nonlinear_arith)
                requires
                    size > 0,
                    i >= 0,
            ;
            assert((i + 1) * size == i * size + size) by (nonlinear_arith);
            assert(((i + 1) * size + size - 1) / (size as int) == i + 1) by (nonlinear_arith)
                requires
                    size > 0,
                    i >= 0,
            ;
        }
        if b == end {
            proof {
                assert(chunk_count(start as int, end as int, size as int) == i + 1) by (nonlinear_arith)
                    requires
                        end as int <= start + (i + 1) * size,
                        end as int > start + i * size,
                        size > 0,
                        i >= 0,
                ;
            }
            return out;
        }
        a = b;
        i = i + 1;
    }
    out
}

} // verus!
