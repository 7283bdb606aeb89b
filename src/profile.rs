//! Per-call context of a read: the five bases around a call and the soft
//! clips at the read's ends.
use vstd::prelude::*;

use crate::dna::{complement, iupac_complement};
use crate::mod_bam::{info_view, parsed_from, ModGroupSpec};
use crate::mod_base_code::{DnaBase, ModCode, Strand};
use crate::mod_probs::{CollapseMethod, ModEntries};
use crate::read_cache::{bytes_eq, clone_bytes, collapse_opt, groups_wf, lemma_parsed_groups_wf};
use crate::record::{forward_sequence, forward_seq_spec, parse_record, precheck, record_tags_parse, ModRecord, RunError};

verus! {

/// The byte that stands for a base beyond the end of the sequence (`-`).
pub const MISSING: u8 = 45;

pub open spec fn base_or_missing(s: Seq<u8>, i: int) -> u8 {
    if 0 <= i < s.len() {
        s[i]
    } else {
        MISSING
    }
}

/// The five bases centred on `pos`, `-` where they run off the sequence.
pub open spec fn fivemer_spec(s: Seq<u8>, pos: int) -> Seq<u8> {
    seq![
        base_or_missing(s, pos - 2),
        base_or_missing(s, pos - 1),
        base_or_missing(s, pos),
        base_or_missing(s, pos + 1),
        base_or_missing(s, pos + 2),
    ]
}

fn base_at(s: &Vec<u8>, pos: usize, back: usize, ahead: usize) -> (r: u8)
    requires
        back == 0 || ahead == 0,
    ensures
        r == base_or_missing(s@, pos - back + ahead),
{
    if back > pos {
        return MISSING;
    }
    let i = pos - back;
    if ahead > s.len() || i >= s.len() - ahead {
        MISSING
    } else {
        s[i + ahead]
    }
}

pub fn get_fivemer(seq: &Vec<u8>, pos: usize) -> (r: Vec<u8>)
    ensures
        r@ == fivemer_spec(seq@, pos as int),
{
    let mut out: Vec<u8> = Vec::new();
    out.push(base_at(seq, pos, 2, 0));
    out.push(base_at(seq, pos, 1, 0));
    out.push(base_at(seq, pos, 0, 0));
    out.push(base_at(seq, pos, 0, 1));
    out.push(base_at(seq, pos, 0, 2));
    proof {
        assert(out@ =~= fivemer_spec(seq@, pos as int));
    }
    out
}

/// The five bases around a forward read position, read on the strand of
/// the call: reverse complemented for a call on the `-` strand.
pub open spec fn fivemer_on_strand(fwd: Seq<u8>, pos: int, strand: Strand) -> Seq<u8> {
    let k = fivemer_spec(fwd, pos);
    match strand {
        Strand::Positive => k,
        Strand::Negative => Seq::new(5, |i: int| complement_or_missing(k[4 - i])),
    }
}

pub open spec fn complement_or_missing(b: u8) -> u8 {
    if b == MISSING {
        MISSING
    } else {
        iupac_complement(b)
    }
}

pub fn get_fivemer_from_seq(seq: &Vec<u8>, is_reverse: bool, forward_position: usize, mod_strand: Strand) -> (r: Vec<u8>)
    ensures
        r@ == fivemer_on_strand(forward_seq_spec(seq@, is_reverse), forward_position as int, mod_strand),
{
    let fwd = forward_sequence(seq, is_reverse);
    let k = get_fivemer(&fwd, forward_position);
    match mod_strand {
        Strand::Positive => k,
        Strand::Negative => {
            let mut out: Vec<u8> = Vec::new();
            let mut i: usize = 0;
            while i < 5
                invariant
                    i <= 5,
                    k@.len() == 5,
                    out@.len() == i,
                    forall|j: int| 0 <= j < i ==> #[trigger] out@[j] == complement_or_missing(k@[4 - j]),
                decreases 5 - i,
            {
                let b = k[4 - i];
                let c = if b == MISSING {
                    MISSING
                } else {
                    complement(b)
                };
                out.push(c);
                i = i + 1;
            }
            proof {
                assert(out@ =~= fivemer_on_strand(fwd@, forward_position as int, mod_strand));
            }
            out
        },
    }
}

/// The kind of a CIGAR operation, as far as soft clipping goes.
#[derive(Debug, Clone, Copy, PartialEq, Eq, Structural)]
pub enum CigarOp {
    SoftClip(u32),
    Other,
}

/// Why the soft clips of a CIGAR could not be read.
#[derive(Debug, Clone, Copy, PartialEq, Eq, Structural)]
pub enum CigarError {
    /// More than two soft-clip operations.
    TooManySoftClips,
}

pub open spec fn soft_clip_lengths(cigar: Seq<CigarOp>) -> Seq<u32>
    decreases cigar.len(),
{
    if cigar.len() == 0 {
        Seq::empty()
    } else {
        soft_clip_lengths(cigar.drop_last()) + match cigar.last() {
            CigarOp::SoftClip(l) => seq![l],
            CigarOp::Other => Seq::empty(),
        }
    }
}

/// The soft clips at the start and at the end of an alignment, in CIGAR
/// order: the first and second soft-clip operations, 0 where absent.
pub fn get_soft_clipped(cigar: &Vec<CigarOp>) -> (r: Result<(usize, usize), CigarError>)
    ensures
        r is Err <==> soft_clip_lengths(cigar@).len() > 2,
        r matches Ok((a, b)) ==> {
            let l = soft_clip_lengths(cigar@);
            &&& a as int == (if l.len() > 0 { l[0] as int } else { 0 })
            &&& b as int == (if l.len() > 1 { l[1] as int } else { 0 })
        },
{
    let mut sc_start: Option<usize> = None;
    let mut sc_end: Option<usize> = None;
    let mut i: usize = 0;
    while i < cigar.len()
        invariant
            i <= cigar@.len(),
            soft_clip_lengths(cigar@.subrange(0, i as int)).len() <= 2,
            ({
                let l = soft_clip_lengths(cigar@.subrange(0, i as int));
                &&& (sc_start is None <==> l.len() == 0)
                &&& (sc_end is None <==> l.len() <= 1)
                &&& (sc_start matches Some(a) ==> a as int == l[0] as int)
                &&& (sc_end matches Some(b) ==> b as int == l[1] as int)
            }),
        decreases cigar@.len() - i,
    {
        proof {
            assert(cigar@.subrange(0, i as int + 1).drop_last() =~= cigar@.subrange(0, i as int));
        }
        match cigar[i] {
            CigarOp::SoftClip(l) => {
                if sc_start.is_none() {
                    sc_start = Some(l as usize);
                } else if sc_end.is_none() {
                    sc_end = Some(l as usize);
                } else {
                    proof {
                        lemma_soft_clips_grow(cigar@, i as int + 1, cigar@.len() as int);
                        assert(cigar@.subrange(0, cigar@.len() as int) =~= cigar@);
                    }
                    return Err(CigarError::TooManySoftClips);
                }
            },
            CigarOp::Other => {},
        }
        i = i + 1;
    }
    proof {
        assert(cigar@.subrange(0, i as int) =~= cigar@);
    }
    let a = match sc_start {
        Some(a) => a,
        None => 0,
    };
    let b = match sc_end {
        Some(b) => b,
        None => 0,
    };
    Ok((a, b))
}

proof fn lemma_soft_clips_grow(cigar: Seq<CigarOp>, i: int, j: int)
    requires
        0 <= i <= j <= cigar.len(),
    ensures
        soft_clip_lengths(cigar.subrange(0, i)).len() <= soft_clip_lengths(cigar.subrange(0, j)).len(),
    decreases j - i,
{
    if i < j {
        lemma_soft_clips_grow(cigar, i, j - 1);
        assert(cigar.subrange(0, j).drop_last() =~= cigar.subrange(0, j - 1));
    }
}

/// One modification call of a read with its context.
pub struct ModProfile {
    /// The forward read position of the call.
    pub query_position: usize,
    /// The reference position aligned to it, if any.
    pub ref_position: Option<u64>,
    pub num_soft_clipped_start: usize,
    pub num_soft_clipped_end: usize,
    pub read_length: usize,
    /// The probability of the code, in units of `1 / PROB_SCALE`.
    pub q_mod: u64,
    pub raw_mod_code: ModCode,
    /// The base quality at the call (0 where none is recorded).
    pub q_base: u8,
    /// The five bases around the call, on the strand of the call.
    pub query_kmer: Vec<u8>,
    pub mod_strand: Strand,
    pub alignment_strand: Option<Strand>,
    pub canonical_base: DnaBase,
}

/// The calls of one read.
pub struct ReadBaseModProfile {
    pub record_name: Vec<u8>,
    pub profile: Vec<ModProfile>,
}

/// Why a read's calls could not be profiled.
#[derive(Debug, Clone, Copy, PartialEq, Eq, Structural)]
pub enum ProfileError {
    Record(RunError),
    Cigar(CigarError),
}

/// Relies on `slice::sort_by_key`: the same profiles, ordered by forward
/// read position, ascending.
#[verifier::external_body]
fn sort_by_query_position(mut v: Vec<ModProfile>) -> (r: Vec<ModProfile>)
    ensures
        r@.len() == v@.len(),
        r@.to_multiset() == v@.to_multiset(),
        forall|i: int, j: int| 0 <= i < j < r@.len() ==> r@[i].query_position <= r@[j].query_position,
{
    v.sort_by_key(|p| p.query_position);
    v
}

fn reverse_profiles(v: Vec<ModProfile>) -> (r: Vec<ModProfile>)
    ensures
        r@ == v@.reverse(),
{
    let mut v = v;
    let mut out: Vec<ModProfile> = Vec::new();
    let ghost orig = v@;
    while v.len() > 0
        invariant
            v@ == orig.subrange(0, v@.len() as int),
            out@ == orig.subrange(v@.len() as int, orig.len() as int).reverse(),
            v@.len() <= orig.len(),
        decreases v@.len(),
    {
        let p = v.pop().unwrap();
        out.push(p);
        proof {
            assert(out@ =~= orig.subrange(v@.len() as int, orig.len() as int).reverse());
        }
    }
    proof {
        assert(orig.subrange(0, orig.len() as int) =~= orig);
    }
    out
}

/// The first reference position aligned to forward read position `q`.
pub open spec fn ref_of_query(pairs: Seq<(usize, u64)>, q: usize) -> Option<u64>
    decreases pairs.len(),
{
    if pairs.len() == 0 {
        None
    } else if ref_of_query(pairs.drop_last(), q) is Some {
        ref_of_query(pairs.drop_last(), q)
    } else if pairs.last().0 == q {
        Some(pairs.last().1)
    } else {
        None
    }
}

fn ref_position_of(pairs: &Vec<(usize, u64)>, q: usize) -> (r: Option<u64>)
    ensures
        r == ref_of_query(pairs@, q),
{
    let mut i: usize = 0;
    while i < pairs.len()
        invariant
            i <= pairs@.len(),
            ref_of_query(pairs@.subrange(0, i as int), q) is None,
        decreases pairs@.len() - i,
    {
        proof {
            assert(pairs@.subrange(0, i as int + 1).drop_last() =~= pairs@.subrange(0, i as int));
        }
        if pairs[i].0 == q {
            proof {
                lemma_ref_of_query_prefix(pairs@, q, i as int);
            }
            return Some(pairs[i].1);
        }
        i = i + 1;
    }
    proof {
        assert(pairs@.subrange(0, i as int) =~= pairs@);
    }
    None
}

proof fn lemma_ref_of_query_prefix(pairs: Seq<(usize, u64)>, q: usize, i: int)
    requires
        0 <= i < pairs.len(),
        pairs[i].0 == q,
        ref_of_query(pairs.subrange(0, i), q) is None,
    ensures
        ref_of_query(pairs, q) == Some(pairs[i].1),
    decreases pairs.len(),
{
    if i == pairs.len() - 1 {
        assert(pairs.drop_last() =~= pairs.subrange(0, i));
    } else {
        assert(pairs.drop_last().subrange(0, i) =~= pairs.subrange(0, i));
        lemma_ref_of_query_prefix(pairs.drop_last(), q, i);
    }
}

/// The base quality at forward read position `q`: the stored qualities are
/// in alignment orientation.
pub open spec fn forward_qual(quals: Seq<u8>, is_reverse: bool, q: int) -> u8 {
    let i = if is_reverse { quals.len() - 1 - q } else { q };
    if 0 <= i < quals.len() {
        quals[i]
    } else {
        0
    }
}

/// Profiles every call of a read: for each group, each position and each
/// code listed there (after the collapse method), one profile with the
/// position's context. The profiles come ordered by forward read position,
/// ascending for a forward read and descending for a reverse one.
pub fn process_record(
    record: &ModRecord,
    quals: &Vec<u8>,
    cigar: &Vec<CigarOp>,
    is_unmapped: bool,
    collapse_method: &Option<CollapseMethod>,
) -> (r: Result<ReadBaseModProfile, ProfileError>)
    ensures
        soft_clip_lengths(cigar@).len() > 2 ==> r == Err::<ReadBaseModProfile, ProfileError>(
            ProfileError::Cigar(CigarError::TooManySoftClips),
        ),
        soft_clip_lengths(cigar@).len() <= 2 && precheck(record) is Some ==> r
            == Err::<ReadBaseModProfile, ProfileError>(ProfileError::Record(precheck(record)->Some_0)),
        soft_clip_lengths(cigar@).len() <= 2 && record_tags_parse(record) ==> r is Ok,
        r matches Ok(p) ==> p.record_name@ == record.name@ && record.mm is Some && exists|gs: Seq<ModGroupSpec>|
            #[trigger] parsed_from(gs, record.mm->Some_0@, record.ml@, forward_seq_spec(record.seq@, record.is_reverse))
                && p.profile@.len() == profile_count(gs, *collapse_method)
                && forall|i: int| 0 <= i < p.profile@.len() ==> profile_from(#[trigger] p.profile@[i], gs, *collapse_method),
        r matches Ok(p) ==> forall|i: int, j: int|
            0 <= i < j < p.profile@.len() ==> if record.is_reverse {
                p.profile@[i].query_position >= p.profile@[j].query_position
            } else {
                p.profile@[i].query_position <= p.profile@[j].query_position
            },
        r matches Ok(p) ==> forall|i: int|
            0 <= i < p.profile@.len() ==> ({
                let x = #[trigger] p.profile@[i];
                &&& x.read_length == record.seq@.len()
                &&& x.ref_position == ref_of_query(record.aligned_pairs@, x.query_position)
                &&& x.q_base == forward_qual(quals@, record.is_reverse, x.query_position as int)
                &&& x.query_kmer@ == fivemer_on_strand(
                    forward_seq_spec(record.seq@, record.is_reverse),
                    x.query_position as int,
                    x.mod_strand,
                )
                &&& x.alignment_strand == if is_unmapped {
                    None
                } else if record.is_reverse {
                    Some(Strand::Negative)
                } else {
                    Some(Strand::Positive)
                }
            }),
{
    let (clip_a, clip_b) = match get_soft_clipped(cigar) {
        Ok(c) => c,
        Err(e) => {
            return Err(ProfileError::Cigar(e));
        },
    };
    let (num_clip_start, num_clip_end) = if record.is_reverse {
        (clip_b, clip_a)
    } else {
        (clip_a, clip_b)
    };
    let alignment_strand = if is_unmapped {
        None
    } else if record.is_reverse {
        Some(Strand::Negative)
    } else {
        Some(Strand::Positive)
    };
    let (info, _fwd) = match parse_record(record) {
        Ok(x) => x,
        Err(e) => {
            return Err(ProfileError::Record(e));
        },
    };
    let ghost gv = info_view(info.groups@);
    proof {
        lemma_parsed_groups_wf(gv, record.mm->Some_0@, record.ml@, forward_seq_spec(record.seq@, record.is_reverse));
    }
    let read_length = record.seq.len();
    let mut profiles: Vec<ModProfile> = Vec::new();
    let mut k: usize = 0;
    while k < info.groups.len()
        invariant
            k <= info.groups@.len(),
            gv == info_view(info.groups@),
            groups_wf(gv),
            read_length == record.seq@.len(),
            alignment_strand == if is_unmapped {
                None
            } else if record.is_reverse {
                Some(Strand::Negative)
            } else {
                Some(Strand::Positive)
            },
            profiles@.len() == profile_count(gv.subrange(0, k as int), *collapse_method),
            forall|i: int|
                0 <= i < profiles@.len() ==> profile_fits(#[trigger] profiles@[i], record, quals@, alignment_strand)
                    && profile_from(profiles@[i], gv, *collapse_method),
        decreases info.groups@.len() - k,
    {
        let g = &info.groups[k];
        proof {
            assert(gv[k as int] == g@);
            assert(g@.probs.len() == g@.positions.len());
        }
        let ghost before = profiles@.len();
        let mut i: usize = 0;
        while i < g.positions.len()
            invariant
                i <= g.positions@.len(),
                g.probs@.len() == g.positions@.len(),
                read_length == record.seq@.len(),
                profiles@.len() == before + probs_count(g@.probs.subrange(0, i as int), *collapse_method),
                forall|j: int|
                    0 <= j < profiles@.len() ==> profile_fits(#[trigger] profiles@[j], record, quals@, alignment_strand)
                        && profile_from(profiles@[j], gv, *collapse_method),
                k < gv.len(),
                gv[k as int] == g@,
            decreases g.positions@.len() - i,
        {
            let q = g.positions[i];
            let probs = match collapse_method {
                Some(m) => g.probs[i].collapse(m),
                None => g.probs[i].clone_entries(),
            };
            let ref_position = ref_position_of(&record.aligned_pairs, q);
            let q_base = if record.is_reverse {
                if q < quals.len() {
                    quals[quals.len() - 1 - q]
                } else {
                    0
                }
            } else if q < quals.len() {
                quals[q]
            } else {
                0
            };
            let kmer = get_fivemer_from_seq(&record.seq, record.is_reverse, q, g.strand);
            proof {
                assert(g@.probs[i as int] == g.probs@[i as int]@);
                assert(g@.positions[i as int] == q);
            }
            let mut c: usize = 0;
            let ghost start = profiles@.len();
            while c < probs.entries.len()
                invariant
                    c <= probs.entries@.len(),
                    profiles@.len() == start + c,
                    forall|j: int|
                        0 <= j < profiles@.len() ==> profile_fits(#[trigger] profiles@[j], record, quals@, alignment_strand)
                            && profile_from(profiles@[j], gv, *collapse_method),
                    probs@ == collapse_opt(gv[k as int].probs[i as int], *collapse_method),
                    i < gv[k as int].positions.len(),
                    q == gv[k as int].positions[i as int],
                    k < gv.len(),
                    gv[k as int] == g@,
                    ref_position == ref_of_query(record.aligned_pairs@, q),
                    q_base == forward_qual(quals@, record.is_reverse, q as int),
                    kmer@ == fivemer_on_strand(forward_seq_spec(record.seq@, record.is_reverse), q as int, g.strand),
                    read_length == record.seq@.len(),
                decreases probs.entries@.len() - c,
            {
                let (code, p) = probs.entries[c];
                let ghost old_profiles = profiles@;
                profiles.push(
                    ModProfile {
                        query_position: q,
                        ref_position,
                        num_soft_clipped_start: num_clip_start,
                        num_soft_clipped_end: num_clip_end,
                        read_length,
                        q_mod: p,
                        raw_mod_code: code,
                        q_base,
                        query_kmer: clone_kmer(&kmer),
                        mod_strand: g.strand,
                        alignment_strand,
                        canonical_base: g.canonical_base,
                    },
                );
                proof {
                    assert forall|j: int| 0 <= j < profiles@.len() implies profile_fits(#[trigger] profiles@[j], record, quals@, alignment_strand)
                        && profile_from(profiles@[j], gv, *collapse_method) by {
                        if j < old_profiles.len() {
                            assert(profiles@[j] == old_profiles[j]);
                        } else {
                            let x = profiles@[j];
                            assert(probs@[c as int] == (code, p));
                            assert(x.query_position == gv[k as int].positions[i as int]);
                            assert((x.raw_mod_code, x.q_mod) == collapse_opt(gv[k as int].probs[i as int], *collapse_method)[c as int]);
                        }
                    }
                }
                c = c + 1;
            }
            proof {
                assert(probs@ == collapse_opt(g@.probs[i as int], *collapse_method)) by {
                    assert(g@.probs[i as int] == g.probs@[i as int]@);
                }
                assert(g@.probs.subrange(0, i as int + 1).drop_last() =~= g@.probs.subrange(0, i as int));
            }
            i = i + 1;
        }
        proof {
            assert(g@.probs.subrange(0, i as int) =~= g@.probs);
            assert(gv.subrange(0, k as int + 1).drop_last() =~= gv.subrange(0, k as int));
        }
        k = k + 1;
    }
    proof {
        assert(gv.subrange(0, k as int) =~= gv);
        assert(parsed_from(gv, record.mm->Some_0@, record.ml@, forward_seq_spec(record.seq@, record.is_reverse)));
    }
    let ghost unsorted = profiles@;
    let sorted = sort_by_query_position(profiles);
    proof {
        assert forall|i: int| 0 <= i < sorted@.len() implies profile_fits(#[trigger] sorted@[i], record, quals@, alignment_strand)
            && profile_from(sorted@[i], gv, *collapse_method) by {
            lemma_multiset_member(sorted@, unsorted, i);
            let j = choose|j: int| 0 <= j < unsorted.len() && unsorted[j] == sorted@[i];
            assert(profile_fits(unsorted[j], record, quals@, alignment_strand) && profile_from(unsorted[j], gv, *collapse_method));
        }
    }
    let ordered = if record.is_reverse {
        reverse_profiles(sorted)
    } else {
        sorted
    };
    proof {
        assert forall|i: int| 0 <= i < ordered@.len() implies profile_fits(#[trigger] ordered@[i], record, quals@, alignment_strand)
            && profile_from(ordered@[i], gv, *collapse_method) by {
            if record.is_reverse {
                assert(ordered@[i] == sorted@[sorted@.len() - 1 - i]);
            }
        }
        assert(parsed_from(gv, record.mm->Some_0@, record.ml@, forward_seq_spec(record.seq@, record.is_reverse)));
        if record.is_reverse {
            assert forall|i: int, j: int| 0 <= i < j < ordered@.len() implies ordered@[i].query_position >= ordered@[j].query_position by {
                assert(ordered@[i] == sorted@[sorted@.len() - 1 - i]);
                assert(ordered@[j] == sorted@[sorted@.len() - 1 - j]);
            }
        }
    }
    Ok(ReadBaseModProfile { record_name: clone_bytes(&record.name), profile: ordered })
}

/// A profile reports one code listed, after the method, at one position of
/// one group, with that code's probability.
pub open spec fn profile_from(x: ModProfile, gs: Seq<ModGroupSpec>, method: Option<CollapseMethod>) -> bool {
    exists|k: int, i: int, c: int|
        0 <= k < gs.len() && 0 <= i < gs[k].positions.len() && 0 <= c < collapse_opt(gs[k].probs[i], method).len()
            && x.query_position == #[trigger] gs[k].positions[i] && x.mod_strand == gs[k].strand
            && x.canonical_base == gs[k].canonical_base && (x.raw_mod_code, x.q_mod) == #[trigger] collapse_opt(
            gs[k].probs[i],
            method,
        )[c]
}

/// A profile holds the read-level context it should.
pub open spec fn profile_fits(x: ModProfile, record: &ModRecord, quals: Seq<u8>, alignment_strand: Option<Strand>) -> bool {
    &&& x.read_length == record.seq@.len()
    &&& x.ref_position == ref_of_query(record.aligned_pairs@, x.query_position)
    &&& x.q_base == forward_qual(quals, record.is_reverse, x.query_position as int)
    &&& x.query_kmer@ == fivemer_on_strand(forward_seq_spec(record.seq@, record.is_reverse), x.query_position as int, x.mod_strand)
    &&& x.alignment_strand == alignment_strand
}

/// The number of profiles a sequence of groups gives.
pub open spec fn profile_count(gs: Seq<ModGroupSpec>, method: Option<CollapseMethod>) -> int
    decreases gs.len(),
{
    if gs.len() == 0 {
        0
    } else {
        profile_count(gs.drop_last(), method) + probs_count(gs.last().probs, method)
    }
}

pub open spec fn probs_count(ps: Seq<ModEntries>, method: Option<CollapseMethod>) -> int
    decreases ps.len(),
{
    if ps.len() == 0 {
        0
    } else {
        probs_count(ps.drop_last(), method) + collapse_opt(ps.last(), method).len()
    }
}

fn clone_kmer(v: &Vec<u8>) -> (r: Vec<u8>)
    ensures
        r@ == v@,
{
    clone_bytes(v)
}

proof fn lemma_multiset_member(a: Seq<ModProfile>, b: Seq<ModProfile>, i: int)
    requires
        a.to_multiset() == b.to_multiset(),
        0 <= i < a.len(),
    ensures
        b.contains(a[i]),
{
    a.to_multiset_ensures();
    b.to_multiset_ensures();
    assert(a.to_multiset().count(a[i]) > 0);
}

/// The profiles of many reads, with the counts of reads passed over.
pub struct ReadsBaseModProfile {
    pub profiles: Vec<ReadBaseModProfile>,
    pub num_skips: usize,
    pub num_fails: usize,
}

pub open spec fn profile_names(ps: Seq<ReadBaseModProfile>) -> Seq<Seq<u8>> {
    ps.map_values(|p: ReadBaseModProfile| p.record_name@)
}

/// The reads of `b` whose names `names` does not hold, in order.
pub open spec fn unseen_profiles(names: Seq<Seq<u8>>, b: Seq<ReadBaseModProfile>) -> Seq<ReadBaseModProfile>
    decreases b.len(),
{
    if b.len() == 0 {
        Seq::empty()
    } else {
        unseen_profiles(names, b.drop_last()) + if names.contains(b.last().record_name@) {
            Seq::empty()
        } else {
            seq![b.last()]
        }
    }
}

fn names_contain(ps: &Vec<ReadBaseModProfile>, upto: usize, name: &Vec<u8>) -> (r: bool)
    requires
        upto <= ps@.len(),
    ensures
        r == profile_names(ps@.subrange(0, upto as int)).contains(name@),
{
    let mut i: usize = 0;
    while i < upto
        invariant
            i <= upto <= ps@.len(),
            forall|k: int| 0 <= k < i ==> ps@[k].record_name@ != name@,
        decreases upto - i,
    {
        if bytes_eq(&ps[i].record_name, name) {
            proof {
                assert(profile_names(ps@.subrange(0, upto as int))[i as int] == name@);
            }
            return true;
        }
        i = i + 1;
    }
    proof {
        if profile_names(ps@.subrange(0, upto as int)).contains(name@) {
            let k = choose|k: int| 0 <= k < upto && profile_names(ps@.subrange(0, upto as int))[k] == name@;
            assert(ps@.subrange(0, upto as int)[k] == ps@[k]);
        }
    }
    false
}

impl ReadsBaseModProfile {
    pub fn zero() -> (r: Self)
        ensures
            r.profiles@.len() == 0,
            r.num_skips == 0,
            r.num_fails == 0,
    {
        ReadsBaseModProfile { profiles: Vec::new(), num_skips: 0, num_fails: 0 }
    }

    /// Adds a read's profile, or counts it as skipped (a record passed
    /// over) or failed (bad input, a failure or an improper CIGAR).
    pub fn add_result(&mut self, result: Result<ReadBaseModProfile, ProfileError>)
        requires
            old(self).num_skips < usize::MAX,
            old(self).num_fails < usize::MAX,
        ensures
            match result {
                Ok(p) => final(self).profiles@ == old(self).profiles@.push(p) && final(self).num_skips
                    == old(self).num_skips && final(self).num_fails == old(self).num_fails,
                Err(ProfileError::Record(RunError::Skipped(_))) => final(self).profiles@ == old(
                    self,
                ).profiles@ && final(self).num_skips == old(self).num_skips + 1
                    && final(self).num_fails == old(self).num_fails,
                Err(_) => final(self).profiles@ == old(self).profiles@ && final(self).num_skips
                    == old(self).num_skips && final(self).num_fails == old(self).num_fails + 1,
            },
    {
        match result {
            Ok(p) => self.profiles.push(p),
            Err(ProfileError::Record(RunError::Skipped(_))) => self.num_skips = self.num_skips + 1,
            Err(_) => self.num_fails = self.num_fails + 1,
        }
    }

    /// Takes in the reads of `other` whose names are not held yet, and adds
    /// its counts.
    pub fn op_mut(&mut self, other: Self)
        requires
            old(self).num_skips + other.num_skips <= usize::MAX,
            old(self).num_fails + other.num_fails <= usize::MAX,
        ensures
            final(self).profiles@ == old(self).profiles@ + unseen_profiles(
                profile_names(old(self).profiles@),
                other.profiles@,
            ),
            final(self).num_skips == old(self).num_skips + other.num_skips,
            final(self).num_fails == old(self).num_fails + other.num_fails,
    {
        let ghost start = self.profiles@;
        let held = self.profiles.len();
        let ghost order = other.profiles@;
        let num_skips = other.num_skips;
        let num_fails = other.num_fails;
        let mut rest = other.profiles;
        let n = rest.len();
        let mut i: usize = 0;
        while rest.len() > 0
            invariant
                n == order.len(),
                held == start.len(),
                self.num_skips == old(self).num_skips,
                self.num_fails == old(self).num_fails,
                num_skips == other.num_skips,
                num_fails == other.num_fails,
                old(self).num_skips + other.num_skips <= usize::MAX,
                old(self).num_fails + other.num_fails <= usize::MAX,
                i + rest@.len() == order.len(),
                rest@ == order.subrange(i as int, order.len() as int),
                self.profiles@ == start + unseen_profiles(profile_names(start), order.subrange(0, i as int)),
            decreases rest@.len(),
        {
            let p = rest.remove(0);
            proof {
                assert(order[i as int] == p);
                assert(rest@ =~= order.subrange(i as int + 1, order.len() as int));
                assert(order.subrange(0, i as int + 1).drop_last() =~= order.subrange(0, i as int));
                assert(self.profiles@.subrange(0, held as int) =~= start);
            }
            let seen = names_contain(&self.profiles, held, &p.record_name);
            if !seen {
                self.profiles.push(p);
            }
            proof {
                assert(self.profiles@ =~= start + unseen_profiles(profile_names(start), order.subrange(0, i as int + 1)));
            }
            i = i + 1;
        }
        proof {
            assert(order.subrange(0, i as int) =~= order);
        }
        self.num_skips = self.num_skips + num_skips;
        self.num_fails = self.num_fails + num_fails;
    }

    pub fn num_reads(&self) -> (r: usize)
        ensures
            r == self.profiles@.len(),
    {
        self.profiles.len()
    }
}

} // verus!
