//! The parsed contents of a read's MM/ML tags: for each group, the forward
//! read positions that carry calls and the probabilities at each of them.
use vstd::prelude::*;

use crate::delta_list::{
    ascending_occurrences, cumulative_index, lemma_cumulative_monotone, lemma_occurrences_props,
    occurrences, strictly_increasing, usize_seq_as_int, DeltaListConverter,
};
use crate::mm_tag::{
    format_mm, groups_view, listing_of, mm_bytes, parse_mm, MmGroup, MmGroupSpec, SkipMode,
};
use crate::mod_base_code::{
    base_byte, base_complement, DnaBase, InputError, ModCode, Strand,
};
use crate::mod_probs::{
    collapse_spec, prob_of_ml, prob_of_ml_spec, quantize, quantize_spec, sum_probs, BaseModProbs,
    CollapseMethod, ModEntries, HALF_BIN, PROB_SCALE,
};

verus! {

/// The base whose occurrences on the forward read a group counts: its own
/// base on the `+` strand, the complement on the `-` strand.
pub open spec fn counted_base(base: DnaBase, strand: Strand) -> u8 {
    match strand {
        Strand::Positive => base_byte(base),
        Strand::Negative => base_byte(base_complement(base)),
    }
}

/// The number of ML bytes a sequence of groups takes.
pub open spec fn ml_needed(gs: Seq<MmGroupSpec>) -> int
    decreases gs.len(),
{
    if gs.len() == 0 {
        0
    } else {
        ml_needed(gs.drop_last()) + gs.last().mod_codes.len() * gs.last().deltas.len()
    }
}

/// The entries that ML bytes from `at` on give to the codes of a group.
pub open spec fn ml_entries(codes: Seq<ModCode>, ml: Seq<u8>, at: int) -> ModEntries {
    Seq::new(codes.len(), |c: int| (codes[c], prob_of_ml_spec(ml[at + c])))
}

/// One group of parsed calls.
pub struct ModGroup {
    pub canonical_base: DnaBase,
    pub strand: Strand,
    pub mod_codes: Vec<ModCode>,
    pub skip_mode: SkipMode,
    /// Forward read positions, ascending.
    pub positions: Vec<usize>,
    /// The probabilities at each position, listed in the order of `mod_codes`.
    pub probs: Vec<BaseModProbs>,
}

pub struct ModGroupSpec {
    pub canonical_base: DnaBase,
    pub strand: Strand,
    pub mod_codes: Seq<ModCode>,
    pub skip_mode: SkipMode,
    pub positions: Seq<usize>,
    pub probs: Seq<ModEntries>,
}

impl View for ModGroup {
    type V = ModGroupSpec;

    open spec fn view(&self) -> ModGroupSpec {
        ModGroupSpec {
            canonical_base: self.canonical_base,
            strand: self.strand,
            mod_codes: self.mod_codes@,
            skip_mode: self.skip_mode,
            positions: self.positions@,
            probs: self.probs@.map_values(|b: BaseModProbs| b@),
        }
    }
}

/// `g` is what the raw group `raw` gives on the forward read `seq`, with its
/// probabilities read from `ml` at `at`.
pub open spec fn group_parsed(g: ModGroupSpec, raw: MmGroupSpec, seq: Seq<u8>, ml: Seq<u8>, at: int) -> bool {
    let n = raw.mod_codes.len();
    &&& g.canonical_base == raw.canonical_base
    &&& g.strand == raw.strand
    &&& g.mod_codes == raw.mod_codes
    &&& g.skip_mode == raw.skip_mode
    &&& g.positions.len() == raw.deltas.len()
    &&& g.probs.len() == raw.deltas.len()
    &&& forall|i: int|
        0 <= i < g.positions.len() ==> #[trigger] g.positions[i] as int == occurrences(
            seq,
            counted_base(raw.canonical_base, raw.strand),
        )[cumulative_index(raw.deltas, i)] && cumulative_index(raw.deltas, i) < occurrences(
            seq,
            counted_base(raw.canonical_base, raw.strand),
        ).len()
    &&& forall|i: int|
        0 <= i < g.probs.len() ==> #[trigger] g.probs[i] == ml_entries(raw.mod_codes, ml, at + i * n)
}

pub open spec fn info_view(gs: Seq<ModGroup>) -> Seq<ModGroupSpec> {
    gs.map_values(|g: ModGroup| g@)
}

/// `groups` is what the tags `mm`, `ml` give on the forward read `seq`.
pub open spec fn parsed_from(groups: Seq<ModGroupSpec>, mm: Seq<u8>, ml: Seq<u8>, seq: Seq<u8>) -> bool {
    exists|raws: Seq<MmGroupSpec>| #[trigger] mm_bytes(raws) == mm && parsed_with(groups, raws, ml, seq)
}

pub open spec fn parsed_with(groups: Seq<ModGroupSpec>, raws: Seq<MmGroupSpec>, ml: Seq<u8>, seq: Seq<u8>) -> bool {
    &&& ml.len() == ml_needed(raws)
    &&& groups.len() == raws.len()
    &&& forall|k: int|
        0 <= k < groups.len() ==> group_parsed(
            #[trigger] groups[k],
            raws[k],
            seq,
            ml,
            ml_needed(raws.subrange(0, k)),
        )
}

/// The ML bytes of the entries at one position.
pub open spec fn entries_ml(e: ModEntries) -> Seq<u8> {
    e.map_values(|p: (ModCode, u64)| quantize_spec(p.1))
}

pub open spec fn positions_ml(ps: Seq<ModEntries>) -> Seq<u8>
    decreases ps.len(),
{
    if ps.len() == 0 {
        Seq::empty()
    } else {
        positions_ml(ps.drop_last()) + entries_ml(ps.last())
    }
}

/// The ML bytes of a sequence of groups.
pub open spec fn groups_ml(gs: Seq<ModGroupSpec>) -> Seq<u8>
    decreases gs.len(),
{
    if gs.len() == 0 {
        Seq::empty()
    } else {
        groups_ml(gs.drop_last()) + positions_ml(gs.last().probs)
    }
}

/// The raw group `raw` names the positions of `g` on `seq`.
pub open spec fn deltas_name_positions(g: ModGroupSpec, raw: MmGroupSpec, seq: Seq<u8>) -> bool {
    let occ = occurrences(seq, counted_base(g.canonical_base, g.strand));
    &&& raw.canonical_base == g.canonical_base
    &&& raw.strand == g.strand
    &&& raw.mod_codes == g.mod_codes
    &&& raw.skip_mode == g.skip_mode
    &&& raw.deltas.len() == g.positions.len()
    &&& forall|i: int|
        0 <= i < raw.deltas.len() ==> g.positions[i] as int == occ[#[trigger] cumulative_index(
            raw.deltas,
            i,
        )] && cumulative_index(raw.deltas, i) < occ.len()
}

/// `mm`, `ml` are the tags that write `groups` on the forward read `seq`.
pub open spec fn serialized_to(groups: Seq<ModGroupSpec>, seq: Seq<u8>, mm: Seq<u8>, ml: Seq<u8>) -> bool {
    &&& ml == groups_ml(groups)
    &&& exists|raws: Seq<MmGroupSpec>|
        #[trigger] mm_bytes(raws) == mm && raws.len() == groups.len() && forall|k: int|
            0 <= k < groups.len() ==> deltas_name_positions(#[trigger] groups[k], raws[k], seq)
}

/// The skips of every group stay within the occurrences of its base on
/// the forward read `seq`.
pub open spec fn deltas_fit_read(raws: Seq<MmGroupSpec>, seq: Seq<u8>) -> bool {
    forall|k: int|
        0 <= k < raws.len() ==> (#[trigger] raws[k]).deltas.len() == 0 || cumulative_index(
            raws[k].deltas,
            raws[k].deltas.len() - 1,
        ) < occurrences(seq, counted_base(raws[k].canonical_base, raws[k].strand)).len()
}

/// Tags that parse: `mm` lists groups that each have a code, their skips
/// stay within the read, and `ml` holds one byte per code and call.
pub open spec fn tags_parse(raws: Seq<MmGroupSpec>, mm: Seq<u8>, ml: Seq<u8>, seq: Seq<u8>) -> bool {
    &&& listing_of(raws, mm)
    &&& ml.len() == ml_needed(raws)
    &&& deltas_fit_read(raws, seq)
}

/// The parsed MM/ML tags of one record.
pub struct ModBaseInfo {
    pub groups: Vec<ModGroup>,
}

/// Reads the positions and probabilities of one group, its ML bytes
/// starting at `offset`.
#[verifier::spinoff_prover]
fn group_calls(raw: &MmGroup, seq: &Vec<u8>, ml: &Vec<u8>, offset: usize) -> (r: Result<(ModGroup, usize), InputError>)
    requires
        offset <= ml@.len(),
    ensures
        r matches Ok((g, end)) ==> group_parsed(g@, raw@, seq@, ml@, offset as int) && end == offset
            + raw@.mod_codes.len() * raw@.deltas.len() && end <= ml@.len(),
        r matches Err(e) ==> e == InputError::DeltaOverrun || e == InputError::MlLengthMismatch,
        (raw@.deltas.len() == 0 || cumulative_index(raw@.deltas, raw@.deltas.len() - 1) < occurrences(
            seq@,
            counted_base(raw@.canonical_base, raw@.strand),
        ).len()) && offset + raw@.mod_codes.len() * raw@.deltas.len() <= ml@.len() ==> r is Ok,
{
    let ml_len = ml.len();
    let base = match raw.strand {
        Strand::Positive => raw.canonical_base,
        Strand::Negative => raw.canonical_base.complement(),
    };
    let converter = DeltaListConverter::new(seq, base.byte());
    proof {
        assert(converter.occ() == occurrences(seq@, counted_base(raw.canonical_base, raw.strand)));
    }
    let positions = match converter.to_positions(&raw.deltas) {
        Ok(p) => p,
        Err(e) => {
            return Err(e);
        },
    };
    let ghost occ = converter.occ();
    proof {
        assert(occ == occurrences(seq@, counted_base(raw.canonical_base, raw.strand)));
        assert forall|p: int| 0 <= p < positions@.len() implies #[trigger] positions@[p] as int == occ[cumulative_index(raw.deltas@, p)]
            && cumulative_index(raw.deltas@, p) < occ.len() by {
            assert(positions@.len() == raw.deltas@.len());
            assert(positions@[p] as int == converter.occ()[cumulative_index(raw.deltas@, p)]);
        }
    }
    let ghost owed = offset + raw@.mod_codes.len() * raw@.deltas.len() <= ml@.len();
    let n = raw.mod_codes.len();
    let ghost at = offset as int;
    let mut off = offset;
    let mut probs: Vec<BaseModProbs> = Vec::new();
    let mut i: usize = 0;
    while i < positions.len()
        invariant
            i <= positions@.len(),
            positions@.len() == raw.deltas@.len(),
            n == raw.mod_codes@.len(),
            probs@.len() == i,
            off as int == at + i * n,
            off <= ml@.len(),
            ml_len == ml@.len(),
            owed == (at + n * raw.deltas@.len() <= ml@.len()),
            at == offset as int,
            occ == occurrences(seq@, counted_base(raw.canonical_base, raw.strand)),
            forall|p: int|
                0 <= p < positions@.len() ==> #[trigger] positions@[p] as int == occ[cumulative_index(raw.deltas@, p)]
                    && cumulative_index(raw.deltas@, p) < occ.len(),
            forall|j: int|
                0 <= j < i ==> (#[trigger] probs@[j])@ == ml_entries(raw.mod_codes@, ml@, at + j * n),
        decreases positions@.len() - i,
    {
        proof {
            assert(i * n + n <= n * raw.deltas@.len()) by (nonlinear_arith)
                requires
                    i < raw.deltas@.len(),
            ;
        }
        if ml.len() - off < n {
            proof {
                if owed {
                    assert(off + n <= ml@.len());
                }
                assert(!owed);
                assert(raw@.mod_codes.len() * raw@.deltas.len() == n * raw.deltas@.len()) by (nonlinear_arith)
                    requires
                        n == raw@.mod_codes.len(),
                        raw@.deltas.len() == raw.deltas@.len(),
                ;
            }
            return Err(InputError::MlLengthMismatch);
        }
        let mut entries: Vec<(ModCode, u64)> = Vec::new();
        let mut c: usize = 0;
        while c < n
            invariant
                c <= n,
                n == raw.mod_codes@.len(),
                off + n <= ml@.len(),
                ml_len == ml@.len(),
                entries@.len() == c,
                forall|j: int|
                    0 <= j < c ==> #[trigger] entries@[j] == (
                        raw.mod_codes@[j],
                        prob_of_ml_spec(ml@[off + j]),
                    ),
            decreases n - c,
        {
            entries.push((raw.mod_codes[c], prob_of_ml(ml[off + c])));
            c = c + 1;
        }
        proof {
            assert(entries@ =~= ml_entries(raw.mod_codes@, ml@, at + i * n));
            assert(at + (i + 1) * n == at + i * n + n) by (nonlinear_arith);
        }
        probs.push(BaseModProbs { entries });
        off = off + n;
        i = i + 1;
    }
    let ghost pos_view = positions@;
    let g = ModGroup {
        canonical_base: raw.canonical_base,
        strand: raw.strand,
        mod_codes: clone_codes(&raw.mod_codes),
        skip_mode: raw.skip_mode,
        positions,
        probs,
    };
    proof {
        let gk = g@;
        assert forall|p: int| 0 <= p < gk.positions.len() implies #[trigger] gk.positions[p] as int
            == occ[cumulative_index(raw@.deltas, p)] && cumulative_index(raw@.deltas, p) < occ.len() by {
            assert(gk.positions[p] == pos_view[p]);
        }
        assert forall|p: int| 0 <= p < gk.probs.len() implies #[trigger] gk.probs[p]
            == ml_entries(raw@.mod_codes, ml@, at + p * n) by {
            assert(gk.probs[p] == g.probs@[p]@);
        }
        lemma_group_parsed_intro(gk, raw@, seq@, ml@, at);
        assert(at + raw.deltas@.len() * n == at + n * raw.deltas@.len()) by (nonlinear_arith);
    }
    Ok((g, off))
}

impl ModBaseInfo {
    /// Parses MM and ML against the forward read sequence.
    #[verifier::spinoff_prover]
    #[verifier::rlimit(50)]
    pub fn new(mm: &Vec<u8>, ml: &Vec<u8>, seq: &Vec<u8>) -> (r: Result<ModBaseInfo, InputError>)
        ensures
            r matches Ok(info) ==> parsed_from(info_view(info.groups@), mm@, ml@, seq@),
            r matches Err(e) ==> e == InputError::MalformedMm || e == InputError::UnknownModCode
                || e == InputError::DeltaOverrun || e == InputError::MlLengthMismatch,
            forall|raws: Seq<MmGroupSpec>| #[trigger] tags_parse(raws, mm@, ml@, seq@) ==> (r matches Ok(info)
                && parsed_with(info_view(info.groups@), raws, ml@, seq@)),
    {
        let raws = match parse_mm(mm) {
            Ok(raws) => raws,
            Err(e) => {
                proof {
                    assert forall|raws: Seq<MmGroupSpec>| #[trigger] tags_parse(raws, mm@, ml@, seq@) implies false by {
                        assert(listing_of(raws, mm@));
                    }
                }
                return Err(e);
            },
        };
        let ml_len = ml.len();
        let ghost rv = groups_view(raws@);
        let ghost owed = exists|raws: Seq<MmGroupSpec>| #[trigger] tags_parse(raws, mm@, ml@, seq@);
        proof {
            assert forall|r2: Seq<MmGroupSpec>| #[trigger] tags_parse(r2, mm@, ml@, seq@) implies r2 == rv by {
                assert(listing_of(r2, mm@));
            }
            if owed {
                let r2 = choose|r2: Seq<MmGroupSpec>| #[trigger] tags_parse(r2, mm@, ml@, seq@);
                assert(r2 == rv);
                assert(tags_parse(rv, mm@, ml@, seq@));
            }
        }
        let mut groups: Vec<ModGroup> = Vec::new();
        let mut offset: usize = 0;
        let mut k: usize = 0;
        while k < raws.len()
            invariant
                k <= raws@.len(),
                rv == groups_view(raws@),
                groups@.len() == k,
                offset as int == ml_needed(rv.subrange(0, k as int)),
                offset <= ml@.len(),
                owed == exists|raws: Seq<MmGroupSpec>| #[trigger] tags_parse(raws, mm@, ml@, seq@),
                owed ==> tags_parse(rv, mm@, ml@, seq@),
                forall|j: int|
                    0 <= j < k ==> group_parsed(
                        #[trigger] info_view(groups@)[j],
                        rv[j],
                        seq@,
                        ml@,
                        ml_needed(rv.subrange(0, j)),
                    ),
            decreases raws@.len() - k,
        {
            let raw = &raws[k];
            proof {
                assert(rv[k as int] == raw@);
                assert(rv.subrange(0, k as int + 1).drop_last() =~= rv.subrange(0, k as int));
                if owed {
                    lemma_ml_needed_prefix(rv, k as int + 1);
                    assert(deltas_fit_read(rv, seq@));
                    assert(rv[k as int].deltas.len() == 0 || cumulative_index(rv[k as int].deltas, rv[k as int].deltas.len() - 1)
                        < occurrences(seq@, counted_base(rv[k as int].canonical_base, rv[k as int].strand)).len());
                }
            }
            let (g, end) = match group_calls(raw, seq, ml, offset) {
                Ok(x) => x,
                Err(e) => {
                    return Err(e);
                },
            };
            let ghost old_groups = groups@;
            groups.push(g);
            proof {
                assert forall|j: int| 0 <= j < k + 1 implies group_parsed(
                    #[trigger] info_view(groups@)[j],
                    rv[j],
                    seq@,
                    ml@,
                    ml_needed(rv.subrange(0, j)),
                ) by {
                    if j < k {
                        assert(info_view(groups@)[j] == info_view(old_groups)[j]);
                    } else {
                        assert(info_view(groups@)[j] == g@);
                    }
                }
            }
            offset = end;
            k = k + 1;
        }
        proof {
            assert(rv.subrange(0, k as int) =~= rv);
        }
        if offset != ml.len() {
            return Err(InputError::MlLengthMismatch);
        }
        proof {
            assert(rv.subrange(0, k as int) =~= rv);
            assert(mm_bytes(rv) == mm@);
            assert(parsed_with(info_view(groups@), rv, ml@, seq@));
        }
        Ok(ModBaseInfo { groups })
    }
}

proof fn lemma_group_parsed_intro(g: ModGroupSpec, raw: MmGroupSpec, seq: Seq<u8>, ml: Seq<u8>, at: int)
    requires
        g.canonical_base == raw.canonical_base,
        g.strand == raw.strand,
        g.mod_codes == raw.mod_codes,
        g.skip_mode == raw.skip_mode,
        g.positions.len() == raw.deltas.len(),
        g.probs.len() == raw.deltas.len(),
        forall|i: int|
            0 <= i < g.positions.len() ==> #[trigger] g.positions[i] as int == occurrences(
                seq,
                counted_base(raw.canonical_base, raw.strand),
            )[cumulative_index(raw.deltas, i)] && cumulative_index(raw.deltas, i) < occurrences(
                seq,
                counted_base(raw.canonical_base, raw.strand),
            ).len(),
        forall|i: int|
            0 <= i < g.probs.len() ==> #[trigger] g.probs[i] == ml_entries(
                raw.mod_codes,
                ml,
                at + i * raw.mod_codes.len(),
            ),
    ensures
        group_parsed(g, raw, seq, ml, at),
{
}

/// Every group's positions are ascending occurrences of its counted base.
pub open spec fn positions_writable(groups: Seq<ModGroupSpec>, seq: Seq<u8>) -> bool {
    forall|k: int|
        0 <= k < groups.len() ==> ascending_occurrences(
            usize_seq_as_int(#[trigger] groups[k].positions),
            occurrences(seq, counted_base(groups[k].canonical_base, groups[k].strand)),
        )
}

impl ModBaseInfo {
    /// Writes the groups back as MM and ML tags, recomputing each group's
    /// skip list from its positions.
    #[verifier::spinoff_prover]
    pub fn serialize(&self, seq: &Vec<u8>) -> (r: Result<(Vec<u8>, Vec<u8>), InputError>)
        requires
            seq@.len() <= u32::MAX,
        ensures
            r is Ok <==> positions_writable(info_view(self.groups@), seq@),
            r matches Ok((mm, ml)) ==> serialized_to(info_view(self.groups@), seq@, mm@, ml@),
            r matches Err(e) ==> e == InputError::PositionsNotOccurrences,
    {
        let ghost gv = info_view(self.groups@);
        let mut raws: Vec<MmGroup> = Vec::new();
        let mut ml: Vec<u8> = Vec::new();
        let mut k: usize = 0;
        while k < self.groups.len()
            invariant
                k <= gv.len(),
                gv == info_view(self.groups@),
                seq@.len() <= u32::MAX,
                raws@.len() == k,
                ml@ == groups_ml(gv.subrange(0, k as int)),
                positions_writable(gv.subrange(0, k as int), seq@),
                forall|j: int|
                    0 <= j < k ==> deltas_name_positions(gv[j], #[trigger] groups_view(raws@)[j], seq@),
            decreases gv.len() - k,
        {
            let g = &self.groups[k];
            let base = match g.strand {
                Strand::Positive => g.canonical_base,
                Strand::Negative => g.canonical_base.complement(),
            };
            let converter = DeltaListConverter::new(seq, base.byte());
            proof {
                lemma_occurrences_props(seq@, base_byte(base));
                assert(gv[k as int] == g@);
                assert(converter.occ() == occurrences(seq@, counted_base(g.canonical_base, g.strand)));
                assert forall|a: int| 0 <= a < converter.occ().len() implies 0 <= #[trigger] converter.occ()[a] < seq@.len() by {}
                lemma_strictly_increasing_len(converter.occ(), seq@.len() as int);
            }
            let deltas = match converter.to_deltas(&g.positions) {
                Ok(d) => d,
                Err(e) => {
                    proof {
                        assert(gv[k as int].positions == g.positions@);
                        if positions_writable(gv, seq@) {
                            assert(ascending_occurrences(
                                usize_seq_as_int(gv[k as int].positions),
                                occurrences(seq@, counted_base(gv[k as int].canonical_base, gv[k as int].strand)),
                            ));
                        }
                    }
                    return Err(e);
                },
            };
            let raw = MmGroup {
                canonical_base: g.canonical_base,
                strand: g.strand,
                mod_codes: clone_codes(&g.mod_codes),
                skip_mode: g.skip_mode,
                deltas,
            };
            let ghost old_raws = raws@;
            raws.push(raw);
            let ghost ml_before = ml@;
            let mut i: usize = 0;
            while i < g.probs.len()
                invariant
                    i <= g.probs@.len(),
                    g@ == gv[k as int],
                    ml@ == ml_before + positions_ml(g@.probs.subrange(0, i as int)),
                decreases g.probs@.len() - i,
            {
                let entries = &g.probs[i].entries;
                let ghost ml_pos = ml@;
                let mut c: usize = 0;
                while c < entries.len()
                    invariant
                        c <= entries@.len(),
                        ml@ == ml_pos + entries_ml(entries@.subrange(0, c as int)),
                    decreases entries@.len() - c,
                {
                    ml.push(quantize(entries[c].1));
                    proof {
                        assert(entries_ml(entries@.subrange(0, c as int + 1)) =~= entries_ml(
                            entries@.subrange(0, c as int),
                        ).push(quantize_spec(entries@[c as int].1)));
                    }
                    c = c + 1;
                }
                proof {
                    assert(entries@.subrange(0, c as int) =~= entries@);
                    assert(g@.probs[i as int] == g.probs@[i as int]@);
                    assert(g@.probs.subrange(0, i as int + 1).drop_last() =~= g@.probs.subrange(
                        0,
                        i as int,
                    ));
                }
                i = i + 1;
            }
            proof {
                assert(g@.probs.subrange(0, i as int) =~= g@.probs);
                assert(gv.subrange(0, k as int + 1).drop_last() =~= gv.subrange(0, k as int));
                let rk = raws@[k as int]@;
                let p = usize_seq_as_int(g.positions@);
                assert forall|a: int| 0 <= a < p.len() implies g.positions@[a] as int == #[trigger] p[a] by {}
                assert(gv[k as int] == g@);
                assert(deltas_name_positions(gv[k as int], rk, seq@));
                assert forall|j: int| 0 <= j < k + 1 implies deltas_name_positions(
                    gv[j],
                    #[trigger] groups_view(raws@)[j],
                    seq@,
                ) by {
                    if j < k {
                        assert(groups_view(raws@)[j] == groups_view(old_raws)[j]);
                    } else {
                        assert(groups_view(raws@)[j] == rk);
                    }
                }
                let sub = gv.subrange(0, k as int + 1);
                assert forall|j: int| 0 <= j < sub.len() implies ascending_occurrences(
                    usize_seq_as_int(#[trigger] sub[j].positions),
                    occurrences(seq@, counted_base(sub[j].canonical_base, sub[j].strand)),
                ) by {
                    if j < k {
                        assert(sub[j] == gv.subrange(0, k as int)[j]);
                    }
                }
            }
            k = k + 1;
        }
        let mm = format_mm(&raws);
        proof {
            assert(gv.subrange(0, k as int) =~= gv);
            assert(groups_view(raws@).len() == gv.len());
            assert(mm_bytes(groups_view(raws@)) == mm@);
        }
        Ok((mm, ml))
    }
}

proof fn lemma_strictly_increasing_len(s: Seq<int>, bound: int)
    requires
        bound >= 0,
        strictly_increasing(s),
        forall|a: int| 0 <= a < s.len() ==> 0 <= #[trigger] s[a] < bound,
    ensures
        s.len() <= bound,
    decreases s.len(),
{
    if s.len() > 0 {
        let d = s.drop_last();
        assert forall|a: int| 0 <= a < d.len() implies 0 <= #[trigger] d[a] < s.last() by {
            assert(d[a] == s[a]);
        }
        assert forall|a: int, b: int| 0 <= a < b < d.len() implies d[a] < d[b] by {
            assert(d[a] == s[a] && d[b] == s[b]);
        }
        lemma_strictly_increasing_len(d, s.last());
        assert(s.last() == s[s.len() - 1]);
        assert(s[s.len() - 1] < bound);
        assert(s.len() == d.len() + 1);
    }
}

pub fn clone_codes(v: &Vec<ModCode>) -> (r: Vec<ModCode>)
    ensures
        r@ == v@,
{
    let mut out: Vec<ModCode> = Vec::new();
    let mut i: usize = 0;
    while i < v.len()
        invariant
            i <= v@.len(),
            out@ == v@.subrange(0, i as int),
        decreases v@.len() - i,
    {
        out.push(v[i]);
        proof {
            assert(out@ =~= v@.subrange(0, i as int + 1));
        }
        i = i + 1;
    }
    proof {
        assert(v@.subrange(0, i as int) =~= v@);
    }
    out
}


proof fn lemma_quantize_inverts(v: u8)
    ensures
        quantize_spec(prob_of_ml_spec(v)) == v,
{
    let p = prob_of_ml_spec(v);
    assert(p == 1441440 * (v as int) + 720720);
    assert(p / 1441440 == v) by (nonlinear_arith)
        requires
            p == 1441440 * (v as int) + 720720,
    ;
}

proof fn lemma_entries_ml(codes: Seq<ModCode>, ml: Seq<u8>, at: int)
    requires
        0 <= at,
        at + codes.len() <= ml.len(),
    ensures
        entries_ml(ml_entries(codes, ml, at)) == ml.subrange(at, at + codes.len()),
{
    assert forall|c: int| 0 <= c < codes.len() implies #[trigger] entries_ml(ml_entries(codes, ml, at))[c]
        == ml.subrange(at, at + codes.len())[c] by {
        lemma_quantize_inverts(ml[at + c]);
    }
    assert(entries_ml(ml_entries(codes, ml, at)) =~= ml.subrange(at, at + codes.len()));
}

proof fn lemma_positions_ml(probs: Seq<ModEntries>, codes: Seq<ModCode>, ml: Seq<u8>, at: int, m: int)
    requires
        0 <= at,
        0 <= m <= probs.len(),
        at + m * codes.len() <= ml.len(),
        forall|i: int| 0 <= i < probs.len() ==> #[trigger] probs[i] == ml_entries(codes, ml, at + i * codes.len()),
    ensures
        positions_ml(probs.subrange(0, m)) == ml.subrange(at, at + m * codes.len()),
    decreases m,
{
    let n = codes.len() as int;
    if m == 0 {
        assert(ml.subrange(at, at) =~= Seq::<u8>::empty());
        assert(probs.subrange(0, 0) =~= Seq::<ModEntries>::empty());
        assert(m * codes.len() == 0) by (nonlinear_arith) requires m == 0;
    } else {
        assert((m - 1) * n + n == m * n) by (nonlinear_arith);
        assert(0 <= (m - 1) * n) by (nonlinear_arith) requires m >= 1, n >= 0;
        let e = at + (m - 1) * n;
        assert(at + m * n == e + n);
        lemma_positions_ml(probs, codes, ml, at, m - 1);
        assert(probs.subrange(0, m).drop_last() =~= probs.subrange(0, m - 1));
        assert(probs.subrange(0, m).last() == probs[m - 1]);
        lemma_entries_ml(codes, ml, e);
        assert(positions_ml(probs.subrange(0, m)) == positions_ml(probs.subrange(0, m - 1)) + entries_ml(probs[m - 1]));
        assert(ml.subrange(at, e + n) =~= ml.subrange(at, e) + ml.subrange(e, e + n));
        assert(positions_ml(probs.subrange(0, m - 1)) == ml.subrange(at, e));
        assert(probs[m - 1] == ml_entries(codes, ml, e));
        assert(entries_ml(probs[m - 1]) == ml.subrange(e, e + n));
        assert(positions_ml(probs.subrange(0, m)) == ml.subrange(at, e + n));
    }
}

proof fn lemma_ml_needed_prefix(raws: Seq<MmGroupSpec>, m: int)
    requires
        0 <= m <= raws.len(),
    ensures
        0 <= ml_needed(raws.subrange(0, m)) <= ml_needed(raws),
    decreases raws.len(),
{
    if raws.len() > 0 {
        if m == raws.len() {
            assert(raws.subrange(0, m) =~= raws);
            lemma_ml_needed_prefix(raws.drop_last(), m - 1);
            assert(raws.drop_last().subrange(0, m - 1) =~= raws.drop_last());
        } else {
            lemma_ml_needed_prefix(raws.drop_last(), m);
            assert(raws.drop_last().subrange(0, m) =~= raws.subrange(0, m));
            lemma_ml_needed_prefix(raws.drop_last(), raws.len() - 1);
            assert(raws.drop_last().subrange(0, raws.len() - 1) =~= raws.drop_last());
        }
        let l = raws.last();
        assert(l.mod_codes.len() * l.deltas.len() >= 0) by (nonlinear_arith);
    }
}

proof fn lemma_groups_ml(groups: Seq<ModGroupSpec>, raws: Seq<MmGroupSpec>, ml: Seq<u8>, seq: Seq<u8>, m: int)
    requires
        parsed_with(groups, raws, ml, seq),
        0 <= m <= groups.len(),
    ensures
        groups_ml(groups.subrange(0, m)) == ml.subrange(0, ml_needed(raws.subrange(0, m))),
    decreases m,
{
    if m == 0 {
        assert(ml.subrange(0, 0) =~= Seq::<u8>::empty());
    } else {
        lemma_groups_ml(groups, raws, ml, seq, m - 1);
        assert(groups.subrange(0, m).drop_last() =~= groups.subrange(0, m - 1));
        assert(raws.subrange(0, m).drop_last() =~= raws.subrange(0, m - 1));
        let k = m - 1;
        let g = groups[k];
        let raw = raws[k];
        let at = ml_needed(raws.subrange(0, k));
        let n = raw.mod_codes.len() as int;
        assert(group_parsed(groups[k], raws[k], seq, ml, at));
        lemma_ml_needed_prefix(raws, k);
        lemma_ml_needed_prefix(raws, m);
        assert(ml_needed(raws.subrange(0, m)) == at + n * raw.deltas.len());
        assert(n * raw.deltas.len() == g.probs.len() * n) by (nonlinear_arith)
            requires
                g.probs.len() == raw.deltas.len(),
        ;
        lemma_positions_ml(g.probs, raw.mod_codes, ml, at, g.probs.len() as int);
        assert(g.probs.subrange(0, g.probs.len() as int) =~= g.probs);
        assert(ml.subrange(0, at + n * raw.deltas.len()) =~= ml.subrange(0, at) + ml.subrange(
            at,
            at + g.probs.len() * n,
        ));
    }
}

proof fn lemma_cumulative_lower(deltas: Seq<u32>, i: int)
    requires
        0 <= i,
    ensures
        cumulative_index(deltas, i) >= i,
{
    lemma_cumulative_monotone(deltas, -1, i);
}

/// Skip lists that name the same occurrences are equal.
proof fn lemma_same_positions_same_deltas(d1: Seq<u32>, d2: Seq<u32>, occ: Seq<int>)
    requires
        strictly_increasing(occ),
        d1.len() == d2.len(),
        forall|i: int| 0 <= i < d1.len() ==> #[trigger] cumulative_index(d1, i) < occ.len(),
        forall|i: int| 0 <= i < d2.len() ==> #[trigger] cumulative_index(d2, i) < occ.len(),
        forall|i: int|
            0 <= i < d1.len() ==> occ[#[trigger] cumulative_index(d1, i)] == occ[cumulative_index(d2, i)],
    ensures
        d1 == d2,
{
    assert forall|i: int| 0 <= i < d1.len() implies cumulative_index(d1, i) == cumulative_index(d2, i) by {
        lemma_cumulative_lower(d1, i);
        lemma_cumulative_lower(d2, i);
        let a = cumulative_index(d1, i);
        let b = cumulative_index(d2, i);
        if a < b {
            assert(occ[a] < occ[b]);
        } else if b < a {
            assert(occ[b] < occ[a]);
        }
    }
    assert forall|i: int| 0 <= i < d1.len() implies d1[i] == d2[i] by {
        assert(cumulative_index(d1, i) == cumulative_index(d1, i - 1) + d1[i] + 1);
        assert(cumulative_index(d2, i) == cumulative_index(d2, i - 1) + d2[i] + 1);
        if i > 0 {
            assert(cumulative_index(d1, i - 1) == cumulative_index(d2, i - 1));
        }
    }
    assert(d1 =~= d2);
}

/// Parsed groups can always be written back: their positions are ascending
/// occurrences of their bases.
pub proof fn parsed_groups_are_writable(groups: Seq<ModGroupSpec>, mm: Seq<u8>, ml: Seq<u8>, seq: Seq<u8>)
    requires
        parsed_from(groups, mm, ml, seq),
    ensures
        positions_writable(groups, seq),
{
    let raws = choose|raws: Seq<MmGroupSpec>| #[trigger] mm_bytes(raws) == mm && parsed_with(groups, raws, ml, seq);
    assert forall|k: int| 0 <= k < groups.len() implies ascending_occurrences(
        usize_seq_as_int(#[trigger] groups[k].positions),
        occurrences(seq, counted_base(groups[k].canonical_base, groups[k].strand)),
    ) by {
        let g = groups[k];
        let raw = raws[k];
        assert(group_parsed(groups[k], raws[k], seq, ml, ml_needed(raws.subrange(0, k))));
        let occ = occurrences(seq, counted_base(g.canonical_base, g.strand));
        lemma_occurrences_props(seq, counted_base(g.canonical_base, g.strand));
        let ps = usize_seq_as_int(g.positions);
        assert forall|a: int, b: int| 0 <= a < b < ps.len() implies ps[a] < ps[b] by {
            assert(ps[a] == g.positions[a] as int);
            assert(ps[b] == g.positions[b] as int);
            lemma_cumulative_monotone(raw.deltas, a, b);
            lemma_cumulative_lower(raw.deltas, a);
            assert(g.positions[a] as int == occ[cumulative_index(raw.deltas, a)]);
            assert(g.positions[b] as int == occ[cumulative_index(raw.deltas, b)]);
        }
        assert forall|a: int| 0 <= a < ps.len() implies occ.contains(#[trigger] ps[a]) by {
            assert(ps[a] == g.positions[a] as int);
            assert(g.positions[a] as int == occ[cumulative_index(raw.deltas, a)]);
            lemma_cumulative_lower(raw.deltas, a);
        }
    }
}

/// Tags parsed and written back with no transform in between come out
/// byte for byte as they went in.
pub proof fn parse_then_serialize_round_trip(
    groups: Seq<ModGroupSpec>,
    mm: Seq<u8>,
    ml: Seq<u8>,
    seq: Seq<u8>,
    mm2: Seq<u8>,
    ml2: Seq<u8>,
)
    requires
        parsed_from(groups, mm, ml, seq),
        serialized_to(groups, seq, mm2, ml2),
    ensures
        mm2 == mm,
        ml2 == ml,
{
    let raws = choose|raws: Seq<MmGroupSpec>| #[trigger] mm_bytes(raws) == mm && parsed_with(groups, raws, ml, seq);
    let raws2 = choose|raws2: Seq<MmGroupSpec>|
        #[trigger] mm_bytes(raws2) == mm2 && raws2.len() == groups.len() && forall|k: int|
            0 <= k < groups.len() ==> deltas_name_positions(#[trigger] groups[k], raws2[k], seq);
    assert forall|k: int| 0 <= k < raws.len() implies #[trigger] raws2[k] == raws[k] by {
        let g = groups[k];
        assert(group_parsed(groups[k], raws[k], seq, ml, ml_needed(raws.subrange(0, k))));
        assert(deltas_name_positions(groups[k], raws2[k], seq));
        let occ = occurrences(seq, counted_base(g.canonical_base, g.strand));
        lemma_occurrences_props(seq, counted_base(g.canonical_base, g.strand));
        let d1 = raws[k].deltas;
        let d2 = raws2[k].deltas;
        assert(g.canonical_base == raws[k].canonical_base && g.strand == raws[k].strand);
        assert forall|i: int| 0 <= i < d1.len() implies #[trigger] cumulative_index(d1, i) < occ.len()
            && g.positions[i] as int == occ[cumulative_index(d1, i)] by {
            assert(g.positions[i] as int == occ[cumulative_index(raws[k].deltas, i)]);
        }
        assert forall|i: int| 0 <= i < d2.len() implies #[trigger] cumulative_index(d2, i) < occ.len()
            && g.positions[i] as int == occ[cumulative_index(d2, i)] by {}
        assert forall|i: int| 0 <= i < d1.len() implies occ[#[trigger] cumulative_index(d1, i)]
            == occ[cumulative_index(d2, i)] by {
            assert(g.positions[i] as int == occ[cumulative_index(d1, i)]);
            assert(g.positions[i] as int == occ[cumulative_index(d2, i)]);
        }
        lemma_same_positions_same_deltas(d1, d2, occ);
    }
    assert(raws2 =~= raws);
    lemma_groups_ml(groups, raws, ml, seq, groups.len() as int);
    assert(groups.subrange(0, groups.len() as int) =~= groups);
    assert(raws.subrange(0, raws.len() as int) =~= raws);
    assert(ml.subrange(0, ml.len() as int) =~= ml);
}


pub open spec fn sum_bytes(s: Seq<u8>) -> int
    decreases s.len(),
{
    if s.len() == 0 {
        0
    } else {
        sum_bytes(s.drop_last()) + s.last()
    }
}

proof fn lemma_ml_entries_sum(codes: Seq<ModCode>, ml: Seq<u8>, at: int)
    requires
        0 <= at,
        at + codes.len() <= ml.len(),
    ensures
        sum_probs(ml_entries(codes, ml, at)) == 2 * HALF_BIN * sum_bytes(ml.subrange(at, at + codes.len()))
            + codes.len() * HALF_BIN,
    decreases codes.len(),
{
    if codes.len() > 0 {
        let d = codes.drop_last();
        lemma_ml_entries_sum(d, ml, at);
        assert(ml_entries(codes, ml, at).drop_last() =~= ml_entries(d, ml, at));
        assert(ml.subrange(at, at + codes.len()).drop_last() =~= ml.subrange(at, at + d.len()));
        let v = ml[at + d.len()];
        assert(ml_entries(codes, ml, at).last().1 == (2 * v + 1) * HALF_BIN);
    }
}

/// At every parsed position (whose entries are `ml_entries` of its ML
/// bytes, see `parsed_from`) the listed probabilities sum to at least zero
/// and to at most one plus half an ML bin per listed code, wherever the
/// position's ML bytes sum to at most 256, as quantizing probabilities of
/// total at most one by `floor(p * 256)` gives.
pub proof fn parsed_mass_is_bounded(codes: Seq<ModCode>, ml: Seq<u8>, at: int)
    requires
        0 <= at,
        at + codes.len() <= ml.len(),
        sum_bytes(ml.subrange(at, at + codes.len())) <= 256,
    ensures
        0 <= sum_probs(ml_entries(codes, ml, at)) <= PROB_SCALE + codes.len() * HALF_BIN,
{
    lemma_ml_entries_sum(codes, ml, at);
    let b = sum_bytes(ml.subrange(at, at + codes.len()));
    lemma_sum_bytes_nonneg(ml.subrange(at, at + codes.len()));
    assert(2 * HALF_BIN * b <= PROB_SCALE) by (nonlinear_arith)
        requires
            b <= 256,
    ;
    assert(codes.len() * HALF_BIN >= 0) by (nonlinear_arith);
    assert(2 * HALF_BIN * b >= 0) by (nonlinear_arith)
        requires
            b >= 0,
    ;
}

proof fn lemma_sum_bytes_nonneg(s: Seq<u8>)
    ensures
        sum_bytes(s) >= 0,
    decreases s.len(),
{
    if s.len() > 0 {
        lemma_sum_bytes_nonneg(s.drop_last());
    }
}


/// The codes a method leaves in a group's header, in order.
pub open spec fn collapse_codes(codes: Seq<ModCode>, method: CollapseMethod) -> Seq<ModCode> {
    collapse_spec(codes.map_values(|c: ModCode| (c, 0u64)), method).map_values(|p: (ModCode, u64)| p.0)
}

/// A method applied to the header and to every position of a group.
pub open spec fn collapse_group_spec(g: ModGroupSpec, method: CollapseMethod) -> ModGroupSpec {
    ModGroupSpec {
        mod_codes: collapse_codes(g.mod_codes, method),
        probs: g.probs.map_values(|e: ModEntries| collapse_spec(e, method)),
        ..g
    }
}

/// Methods applied one after the other to every group.
pub open spec fn collapse_all_spec(gs: Seq<ModGroupSpec>, methods: Seq<CollapseMethod>) -> Seq<ModGroupSpec>
    decreases methods.len(),
{
    if methods.len() == 0 {
        gs
    } else {
        collapse_all_spec(gs, methods.drop_last()).map_values(
            |g: ModGroupSpec| collapse_group_spec(g, methods.last()),
        )
    }
}

impl ModGroup {
    pub fn clone_group(&self) -> (r: ModGroup)
        ensures
            r@ == self@,
    {
        let mut probs: Vec<BaseModProbs> = Vec::new();
        let mut i: usize = 0;
        while i < self.probs.len()
            invariant
                i <= self.probs@.len(),
                probs@.len() == i,
                forall|j: int| 0 <= j < i ==> (#[trigger] probs@[j])@ == self.probs@[j]@,
            decreases self.probs@.len() - i,
        {
            probs.push(self.probs[i].clone_entries());
            i = i + 1;
        }
        let r = ModGroup {
            canonical_base: self.canonical_base,
            strand: self.strand,
            mod_codes: clone_codes(&self.mod_codes),
            skip_mode: self.skip_mode,
            positions: clone_positions(&self.positions),
            probs,
        };
        proof {
            assert(r@.probs =~= self@.probs);
        }
        r
    }

    /// Applies one collapse method to the header and to every position.
    pub fn collapse(&self, method: &CollapseMethod) -> (r: ModGroup)
        ensures
            r@ == collapse_group_spec(self@, *method),
    {
        let mut zeros: Vec<(ModCode, u64)> = Vec::new();
        let mut c: usize = 0;
        while c < self.mod_codes.len()
            invariant
                c <= self.mod_codes@.len(),
                zeros@ == self.mod_codes@.subrange(0, c as int).map_values(|x: ModCode| (x, 0u64)),
            decreases self.mod_codes@.len() - c,
        {
            zeros.push((self.mod_codes[c], 0u64));
            proof {
                assert(zeros@ =~= self.mod_codes@.subrange(0, c as int + 1).map_values(
                    |x: ModCode| (x, 0u64),
                ));
            }
            c = c + 1;
        }
        proof {
            assert(self.mod_codes@.subrange(0, c as int) =~= self.mod_codes@);
        }
        let header = BaseModProbs { entries: zeros }.collapse(method);
        let mut mod_codes: Vec<ModCode> = Vec::new();
        let mut h: usize = 0;
        while h < header.entries.len()
            invariant
                h <= header@.len(),
                mod_codes@ == header@.subrange(0, h as int).map_values(|p: (ModCode, u64)| p.0),
            decreases header@.len() - h,
        {
            mod_codes.push(header.entries[h].0);
            proof {
                assert(mod_codes@ =~= header@.subrange(0, h as int + 1).map_values(
                    |p: (ModCode, u64)| p.0,
                ));
            }
            h = h + 1;
        }
        proof {
            assert(header@.subrange(0, h as int) =~= header@);
        }
        let mut probs: Vec<BaseModProbs> = Vec::new();
        let mut i: usize = 0;
        while i < self.probs.len()
            invariant
                i <= self.probs@.len(),
                probs@.len() == i,
                forall|j: int|
                    0 <= j < i ==> (#[trigger] probs@[j])@ == collapse_spec(self.probs@[j]@, *method),
            decreases self.probs@.len() - i,
        {
            probs.push(self.probs[i].collapse(method));
            i = i + 1;
        }
        let r = ModGroup {
            canonical_base: self.canonical_base,
            strand: self.strand,
            mod_codes,
            skip_mode: self.skip_mode,
            positions: clone_positions(&self.positions),
            probs,
        };
        proof {
            assert(r@.probs =~= self@.probs.map_values(|e: ModEntries| collapse_spec(e, *method)));
            assert(r@.mod_codes =~= collapse_codes(self@.mod_codes, *method));
        }
        r
    }
}

pub fn clone_positions(v: &Vec<usize>) -> (r: Vec<usize>)
    ensures
        r@ == v@,
{
    let mut out: Vec<usize> = Vec::new();
    let mut i: usize = 0;
    while i < v.len()
        invariant
            i <= v@.len(),
            out@ == v@.subrange(0, i as int),
        decreases v@.len() - i,
    {
        out.push(v[i]);
        proof {
            assert(out@ =~= v@.subrange(0, i as int + 1));
        }
        i = i + 1;
    }
    proof {
        assert(v@.subrange(0, i as int) =~= v@);
    }
    out
}

impl ModBaseInfo {
    /// Applies each method in turn to every group.
    pub fn collapse_all(self, methods: &Vec<CollapseMethod>) -> (r: ModBaseInfo)
        ensures
            info_view(r.groups@) == collapse_all_spec(info_view(self.groups@), methods@),
    {
        let mut groups = self.groups;
        let ghost start = info_view(groups@);
        let mut m: usize = 0;
        while m < methods.len()
            invariant
                m <= methods@.len(),
                info_view(groups@) == collapse_all_spec(start, methods@.subrange(0, m as int)),
            decreases methods@.len() - m,
        {
            let mut next: Vec<ModGroup> = Vec::new();
            let mut k: usize = 0;
            while k < groups.len()
                invariant
                    m < methods@.len(),
                    k <= groups@.len(),
                    next@.len() == k,
                    forall|j: int|
                        0 <= j < k ==> (#[trigger] next@[j])@ == collapse_group_spec(
                            groups@[j]@,
                            methods@[m as int],
                        ),
                decreases groups@.len() - k,
            {
                next.push(groups[k].collapse(&methods[m]));
                k = k + 1;
            }
            proof {
                let pre = methods@.subrange(0, m as int + 1);
                assert(pre.drop_last() =~= methods@.subrange(0, m as int));
                assert(info_view(next@) =~= collapse_all_spec(start, pre));
            }
            groups = next;
            m = m + 1;
        }
        proof {
            assert(methods@.subrange(0, m as int) =~= methods@);
        }
        ModBaseInfo { groups }
    }
}

/// How many times `code` appears in a list of codes.
pub open spec fn code_count(codes: Seq<ModCode>, code: ModCode) -> int
    decreases codes.len(),
{
    if codes.len() == 0 {
        0
    } else {
        code_count(codes.drop_last(), code) + if codes.last() == code { 1int } else { 0int }
    }
}

/// The calls a read's groups list for `code`: each group contributes one
/// per position for each time it lists the code.
pub open spec fn code_calls(gs: Seq<ModGroupSpec>, code: ModCode) -> int
    decreases gs.len(),
{
    if gs.len() == 0 {
        0
    } else {
        code_calls(gs.drop_last(), code) + code_count(gs.last().mod_codes, code) * gs.last().positions.len()
    }
}

proof fn lemma_code_calls_nonneg(gs: Seq<ModGroupSpec>, code: ModCode)
    ensures
        code_calls(gs, code) >= 0,
    decreases gs.len(),
{
    if gs.len() > 0 {
        lemma_code_calls_nonneg(gs.drop_last(), code);
        lemma_code_count_nonneg(gs.last().mod_codes, code);
        let a = code_count(gs.last().mod_codes, code);
        let b = gs.last().positions.len() as int;
        assert(a * b >= 0) by (nonlinear_arith)
            requires
                a >= 0,
                b >= 0,
        ;
    }
}

proof fn lemma_code_count_nonneg(codes: Seq<ModCode>, code: ModCode)
    ensures
        code_count(codes, code) >= 0,
    decreases codes.len(),
{
    if codes.len() > 0 {
        lemma_code_count_nonneg(codes.drop_last(), code);
    }
}

impl ModBaseInfo {
    /// The number of calls listed for one code, held at `u64::MAX`.
    pub fn calls_of_code(&self, code: ModCode) -> (r: u64)
        ensures
            r == if code_calls(info_view(self.groups@), code) > u64::MAX {
                u64::MAX as int
            } else {
                code_calls(info_view(self.groups@), code)
            },
    {
        let ghost gv = info_view(self.groups@);
        let mut total: u64 = 0;
        let mut k: usize = 0;
        while k < self.groups.len()
            invariant
                k <= self.groups@.len(),
                gv == info_view(self.groups@),
                total == if code_calls(gv.subrange(0, k as int), code) > u64::MAX {
                    u64::MAX as int
                } else {
                    code_calls(gv.subrange(0, k as int), code)
                },
            decreases self.groups@.len() - k,
        {
            let g = &self.groups[k];
            proof {
                assert(gv[k as int] == g@);
                assert(gv.subrange(0, k as int + 1).drop_last() =~= gv.subrange(0, k as int));
                lemma_code_calls_nonneg(gv.subrange(0, k as int), code);
            }
            let mut c: usize = 0;
            let mut times: u64 = 0;
            while c < g.mod_codes.len()
                invariant
                    c <= g.mod_codes@.len(),
                    times as int == code_count(g.mod_codes@.subrange(0, c as int), code),
                    times <= c,
                decreases g.mod_codes@.len() - c,
            {
                proof {
                    assert(g.mod_codes@.subrange(0, c as int + 1).drop_last() =~= g.mod_codes@.subrange(0, c as int));
                }
                if g.mod_codes[c] == code {
                    times = times + 1;
                }
                c = c + 1;
            }
            proof {
                assert(g.mod_codes@.subrange(0, c as int) =~= g.mod_codes@);
            }
            let n = g.positions.len() as u64;
            let add: u64 = if n == 0 || times <= u64::MAX / n {
                proof {
                    if n > 0 {
                        assert(times * n <= u64::MAX) by (nonlinear_arith)
                            requires
                                n > 0,
                                times <= u64::MAX / n,
                        ;
                    }
                }
                times * n
            } else {
                proof {
                    assert(times * n > u64::MAX) by (nonlinear_arith)
                        requires
                            n > 0,
                            times > u64::MAX / n,
                    ;
                }
                u64::MAX
            };
            total = if add > u64::MAX - total { u64::MAX } else { total + add };
            k = k + 1;
        }
        proof {
            assert(gv.subrange(0, k as int) =~= gv);
        }
        total
    }
}

/// Collapse methods keep each group's base, strand, skip mode, positions
/// and number of probability vectors.
pub proof fn lemma_collapse_all_shape(gs: Seq<ModGroupSpec>, methods: Seq<CollapseMethod>)
    ensures
        collapse_all_spec(gs, methods).len() == gs.len(),
        forall|k: int|
            0 <= k < gs.len() ==> {
                let c = #[trigger] collapse_all_spec(gs, methods)[k];
                &&& c.positions == gs[k].positions
                &&& c.canonical_base == gs[k].canonical_base
                &&& c.strand == gs[k].strand
                &&& c.skip_mode == gs[k].skip_mode
                &&& c.probs.len() == gs[k].probs.len()
            },
    decreases methods.len(),
{
    if methods.len() > 0 {
        lemma_collapse_all_shape(gs, methods.drop_last());
    }
}

} // verus!
