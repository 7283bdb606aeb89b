//! Conversion between the skip lists of an MM tag and absolute positions
//! on the forward read.
use vstd::prelude::*;

use crate::mod_base_code::InputError;

verus! {

/// The indices of `seq` that hold `base`, in ascending order.
pub open spec fn occurrences(seq: Seq<u8>, base: u8) -> Seq<int>
    decreases seq.len(),
{
    if seq.len() == 0 {
        Seq::empty()
    } else {
        let rest = occurrences(seq.drop_last(), base);
        if seq.last() == base {
            rest.push(seq.len() - 1)
        } else {
            rest
        }
    }
}

/// The index into the occurrence list of the `i`-th position that a skip
/// list names: each delta skips that many occurrences, then takes one.
pub open spec fn cumulative_index(deltas: Seq<u32>, i: int) -> int
    decreases i + 1,
{
    if i < 0 {
        -1
    } else {
        cumulative_index(deltas, i - 1) + deltas[i] + 1
    }
}

pub open spec fn strictly_increasing(s: Seq<int>) -> bool {
    forall|i: int, j: int| 0 <= i < j < s.len() ==> s[i] < s[j]
}

/// `positions` lists occurrences, each at most once, in ascending order.
pub open spec fn ascending_occurrences(positions: Seq<int>, occ: Seq<int>) -> bool {
    &&& strictly_increasing(positions)
    &&& forall|i: int| 0 <= i < positions.len() ==> occ.contains(#[trigger] positions[i])
}

pub open spec fn usize_seq_as_int(s: Seq<usize>) -> Seq<int> {
    s.map_values(|x: usize| x as int)
}

pub proof fn lemma_occurrences_props(seq: Seq<u8>, base: u8)
    ensures
        strictly_increasing(occurrences(seq, base)),
        forall|i: int|
            0 <= i < occurrences(seq, base).len() ==> 0 <= #[trigger] occurrences(seq, base)[i]
                < seq.len() && seq[occurrences(seq, base)[i]] == base,
        forall|k: int| 0 <= k < seq.len() && seq[k] == base ==> occurrences(seq, base).contains(k),
    decreases seq.len(),
{
    if seq.len() > 0 {
        lemma_occurrences_props(seq.drop_last(), base);
        let rest = occurrences(seq.drop_last(), base);
        if seq.last() == base {
            let o = rest.push(seq.len() - 1);
            assert forall|k: int| 0 <= k < seq.len() && seq[k] == base implies o.contains(k) by {
                if k == seq.len() - 1 {
                    assert(o[o.len() - 1] == k);
                } else {
                    assert(seq.drop_last()[k] == seq[k]);
                    let j = choose|j: int| 0 <= j < rest.len() && rest[j] == k;
                    assert(o[j] == k);
                }
            }
        } else {
            assert forall|k: int| 0 <= k < seq.len() && seq[k] == base implies rest.contains(k) by {
                assert(seq.drop_last()[k] == seq[k]);
            }
        }
    }
}

pub proof fn lemma_cumulative_monotone(deltas: Seq<u32>, i: int, j: int)
    requires
        -1 <= i <= j,
    ensures
        cumulative_index(deltas, i) + (j - i) <= cumulative_index(deltas, j),
    decreases j - i,
{
    if i < j {
        lemma_cumulative_monotone(deltas, i, j - 1);
    }
}

/// The ascending positions of one canonical base on a forward read.
pub struct DeltaListConverter {
    pub canonical_base: u8,
    pub positions: Vec<usize>,
    pub read_seq: Ghost<Seq<u8>>,
}

impl DeltaListConverter {
    pub open spec fn occ(&self) -> Seq<int> {
        usize_seq_as_int(self.positions@)
    }

    pub open spec fn wf(&self) -> bool {
        self.occ() == occurrences(self.read_seq@, self.canonical_base)
    }

    pub fn new(seq: &Vec<u8>, base: u8) -> (r: DeltaListConverter)
        ensures
            r.wf(),
            r.read_seq@ == seq@,
            r.canonical_base == base,
    {
        let mut positions: Vec<usize> = Vec::new();
        let mut i: usize = 0;
        while i < seq.len()
            invariant
                i <= seq@.len(),
                usize_seq_as_int(positions@) == occurrences(seq@.subrange(0, i as int), base),
            decreases seq@.len() - i,
        {
            proof {
                assert(seq@.subrange(0, i as int + 1).drop_last() =~= seq@.subrange(0, i as int));
            }
            if seq[i] == base {
                positions.push(i);
                proof {
                    assert(usize_seq_as_int(positions@) =~= occurrences(seq@.subrange(0, i as int), base).push(i as int));
                }
            }
            i = i + 1;
        }
        proof {
            assert(seq@.subrange(0, seq@.len() as int) =~= seq@);
        }
        DeltaListConverter { canonical_base: base, positions, read_seq: Ghost(seq@) }
    }

    /// Maps a skip list to the forward-read positions it names.
    pub fn to_positions(&self, deltas: &Vec<u32>) -> (r: Result<Vec<usize>, InputError>)
        requires
            self.wf(),
        ensures
            r is Ok <==> (deltas@.len() == 0 || cumulative_index(deltas@, deltas@.len() - 1)
                < self.occ().len()),
            r matches Ok(ps) ==> ps@.len() == deltas@.len() && forall|i: int|
                0 <= i < ps@.len() ==> ps@[i] as int == self.occ()[cumulative_index(
                    deltas@,
                    i,
                )] && cumulative_index(deltas@, i) < self.occ().len(),
            r matches Err(e) ==> e == InputError::DeltaOverrun,
    {
        let mut out: Vec<usize> = Vec::new();
        let mut next: usize = 0;
        let mut i: usize = 0;
        while i < deltas.len()
            invariant
                i <= deltas@.len(),
                next as int == cumulative_index(deltas@, i as int - 1) + 1,
                next <= self.positions@.len(),
                out@.len() == i,
                forall|k: int|
                    0 <= k < i ==> out@[k] as int == self.occ()[cumulative_index(deltas@, k)]
                        && cumulative_index(deltas@, k) < self.occ().len(),
            decreases deltas@.len() - i,
        {
            let d = deltas[i];
            let n = self.positions.len();
            if (d as usize) >= n - next {
                proof {
                    lemma_cumulative_monotone(deltas@, i as int, deltas@.len() - 1);
                }
                return Err(InputError::DeltaOverrun);
            }
            let idx = next + d as usize;
            out.push(self.positions[idx]);
            next = idx + 1;
            i = i + 1;
        }
        Ok(out)
    }

    /// Maps ascending forward-read positions of the base back to a skip list.
    #[verifier::loop_isolation(false)]
    pub fn to_deltas(&self, positions: &Vec<usize>) -> (r: Result<Vec<u32>, InputError>)
        requires
            self.wf(),
            self.positions@.len() <= u32::MAX,
        ensures
            r is Ok <==> ascending_occurrences(usize_seq_as_int(positions@), self.occ()),
            r matches Ok(ds) ==> ds@.len() == positions@.len() && forall|i: int|
                0 <= i < ds@.len() ==> positions@[i] as int == self.occ()[cumulative_index(
                    ds@,
                    i,
                )] && cumulative_index(ds@, i) < self.occ().len(),
            r matches Err(e) ==> e == InputError::PositionsNotOccurrences,
    {
        proof {
            lemma_occurrences_props(self.read_seq@, self.canonical_base);
        }
        let ghost occ = self.occ();
        let ghost ps = usize_seq_as_int(positions@);
        let mut out: Vec<u32> = Vec::new();
        // index into the occurrence list just past the last match
        let mut next: usize = 0;
        let mut i: usize = 0;
        while i < positions.len()
            invariant
                occ == self.occ(),
                ps == usize_seq_as_int(positions@),
                strictly_increasing(occ),
                occ.len() == self.positions@.len(),
                self.positions@.len() <= u32::MAX,
                i <= positions@.len(),
                out@.len() == i,
                next <= occ.len(),
                next as int == cumulative_index(out@, i as int - 1) + 1,
                i > 0 ==> occ[next - 1] == ps[i - 1],
                i == 0 ==> next == 0,
                ascending_occurrences(ps.subrange(0, i as int), occ),
                forall|k: int|
                    0 <= k < i ==> #[trigger] ps[k] == occ[cumulative_index(out@, k)]
                        && cumulative_index(out@, k) < occ.len(),
            decreases positions@.len() - i,
        {
            let target = positions[i];
            let start = next;
            let mut j: usize = next;
            while j < self.positions.len() && self.positions[j] < target
                invariant
                    start <= j <= occ.len(),
                    occ == self.occ(),
                    occ.len() == self.positions@.len(),
                    forall|k: int| start <= k < j ==> occ[k] < target,
                decreases occ.len() - j,
            {
                j = j + 1;
            }
            if j == self.positions.len() || self.positions[j] != target {
                proof {
                    // no occurrence at or after `start` equals the target, and
                    // those before it are at most the previous position
                    if ascending_occurrences(ps, occ) {
                        assert(occ.contains(ps[i as int]));
                        let k = choose|k: int| 0 <= k < occ.len() && occ[k] == ps[i as int];
                        if k < start {
                            assert(i > 0);
                            assert(occ[k] <= occ[start - 1]);
                            assert(ps[i - 1] < ps[i as int]);
                        } else if k < j {
                        } else {
                            assert(occ[j as int] > target);
                            assert(occ[k] >= occ[j as int]);
                        }
                    }
                }
                return Err(InputError::PositionsNotOccurrences);
            }
            let d = (j - start) as u32;
            let ghost old_out = out@;
            out.push(d);
            proof {
                assert forall|k: int| 0 <= k < i implies cumulative_index(out@, k)
                    == cumulative_index(old_out, k) by {
                    lemma_cumulative_prefix(old_out, out@, k);
                }
                lemma_cumulative_prefix(old_out, out@, i as int - 1);
                assert(cumulative_index(out@, i as int) == j as int);
                assert(ps[i as int] == target as int);
                assert(occ[j as int] == self.positions@[j as int] as int);
                assert forall|k: int| 0 <= k < i + 1 implies ps[k] == occ[cumulative_index(out@, k)]
                    && cumulative_index(out@, k) < occ.len() by {
                    if k < i {
                        assert(ps[k] == occ[cumulative_index(old_out, k)]);
                        assert(cumulative_index(out@, k) == cumulative_index(old_out, k));
                    }
                }
                let pss = ps.subrange(0, i as int + 1);
                assert forall|a: int, b: int| 0 <= a < b < pss.len() implies pss[a] < pss[b] by {
                    if b < i {
                        assert(ps.subrange(0, i as int)[a] < ps.subrange(0, i as int)[b]);
                    } else {
                        lemma_cumulative_monotone(out@, a, i as int - 1);
                        lemma_cumulative_monotone(out@, -1, a);
                        let ca = cumulative_index(out@, a);
                        assert(0 <= ca <= next - 1);
                        assert(ps[a] == occ[ca]);
                        if ca < next - 1 {
                            assert(occ[ca] < occ[next - 1]);
                        }
                        assert(occ[next - 1] < occ[j as int]);
                        assert(pss[b] == occ[j as int]);
                        assert(pss[a] == ps[a]);
                    }
                }
                assert forall|a: int| 0 <= a < pss.len() implies occ.contains(#[trigger] pss[a]) by {
                    if a < i {
                        assert(ps.subrange(0, i as int)[a] == pss[a]);
                    } else {
                        assert(occ[j as int] == pss[a]);
                    }
                }
            }
            next = j + 1;
            i = i + 1;
        }
        proof {
            assert(ps.subrange(0, positions@.len() as int) =~= ps);
            assert forall|k: int| 0 <= k < out@.len() implies positions@[k] as int == self.occ()[cumulative_index(out@, k)]
                && cumulative_index(out@, k) < self.occ().len() by {
                assert(positions@[k] as int == ps[k]);
                assert(ps[k] == occ[cumulative_index(out@, k)]);
            }
        }
        Ok(out)
    }
}

proof fn lemma_cumulative_prefix(a: Seq<u32>, b: Seq<u32>, k: int)
    requires
        k < a.len() <= b.len(),
        a =~= b.subrange(0, a.len() as int),
    ensures
        cumulative_index(a, k) == cumulative_index(b, k),
    decreases k + 1,
{
    if k >= 0 {
        lemma_cumulative_prefix(a, b, k - 1);
        assert(a[k] == b[k]);
    }
}

} // verus!
