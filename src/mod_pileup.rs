//! Per-column tallies of calls and their decoding into output rows.
use vstd::prelude::*;

use crate::mod_base_code::{
    base_complement, base_of_byte, canonical_code_of, mod_code_char, DnaBase, ModCode, Strand,
};
use crate::mod_probs::{BaseModCall, CollapseMethod};
use crate::mod_bam::{clone_codes, info_view, parsed_from};
use crate::thresholds::call_prob;
use crate::read_cache::{cached_from, threshold_call, find_read, lookup_spec, observed_codes, unusable, CachedRead, ReadCache};
use crate::record::forward_seq_spec;
use crate::record::ModRecord;

verus! {

/// What one alignment contributes at a column.
#[derive(Debug, Clone, Copy, PartialEq, Eq, Structural)]
pub enum Feature {
    Delete,
    Filtered,
    NoCall(DnaBase),
    ModCall(ModCode),
}

pub open spec fn feature_of_call(call: BaseModCall, read_base: DnaBase) -> Feature {
    match call {
        BaseModCall::Canonical(_) => Feature::ModCall(canonical_code_of(read_base)),
        BaseModCall::Modified(_, code) => Feature::ModCall(code),
        BaseModCall::Filtered => Feature::Filtered,
    }
}

impl Feature {
    pub fn from_base_mod_call(base_mod_call: BaseModCall, read_base: DnaBase) -> (r: Feature)
        ensures
            r == feature_of_call(base_mod_call, read_base),
    {
        match base_mod_call {
            BaseModCall::Canonical(_) => Feature::ModCall(read_base.canonical_mod_code()),
            BaseModCall::Modified(_, mod_code) => Feature::ModCall(mod_code),
            BaseModCall::Filtered => Feature::Filtered,
        }
    }
}

/// Counts of the features seen on one strand at one column.
#[allow(non_snake_case)]
#[derive(Debug, Clone, Copy, PartialEq, Eq, Structural)]
pub struct Tally {
    pub n_delete: u32,
    pub n_filtered: u32,
    pub n_basecall_A: u32,
    pub n_basecall_C: u32,
    pub n_basecall_G: u32,
    pub n_basecall_T: u32,
    pub n_modcall_A: u32,
    pub n_modcall_C: u32,
    pub n_modcall_a: u32,
    pub n_modcall_h: u32,
    pub n_modcall_m: u32,
}

pub open spec fn tally_total(t: Tally) -> int {
    t.n_delete + t.n_filtered + t.n_basecall_A + t.n_basecall_C + t.n_basecall_G + t.n_basecall_T
        + t.n_modcall_A + t.n_modcall_C + t.n_modcall_a + t.n_modcall_h + t.n_modcall_m
}

/// The tally with one more count of the feature's kind; calls of codes that
/// are not tallied (canonical G and T) leave it as it was.
pub open spec fn tally_add_spec(t: Tally, f: Feature) -> Tally {
    match f {
        Feature::Filtered => Tally { n_filtered: (t.n_filtered + 1) as u32, ..t },
        Feature::Delete => Tally { n_delete: (t.n_delete + 1) as u32, ..t },
        Feature::ModCall(code) => match code {
            ModCode::C => Tally { n_modcall_C: (t.n_modcall_C + 1) as u32, ..t },
            ModCode::h => Tally { n_modcall_h: (t.n_modcall_h + 1) as u32, ..t },
            ModCode::m => Tally { n_modcall_m: (t.n_modcall_m + 1) as u32, ..t },
            ModCode::A => Tally { n_modcall_A: (t.n_modcall_A + 1) as u32, ..t },
            ModCode::a => Tally { n_modcall_a: (t.n_modcall_a + 1) as u32, ..t },
            _ => t,
        },
        Feature::NoCall(base) => match base {
            DnaBase::A => Tally { n_basecall_A: (t.n_basecall_A + 1) as u32, ..t },
            DnaBase::C => Tally { n_basecall_C: (t.n_basecall_C + 1) as u32, ..t },
            DnaBase::G => Tally { n_basecall_G: (t.n_basecall_G + 1) as u32, ..t },
            DnaBase::T => Tally { n_basecall_T: (t.n_basecall_T + 1) as u32, ..t },
        },
    }
}

pub open spec fn empty_tally() -> Tally {
    Tally {
        n_delete: 0,
        n_filtered: 0,
        n_basecall_A: 0,
        n_basecall_C: 0,
        n_basecall_G: 0,
        n_basecall_T: 0,
        n_modcall_A: 0,
        n_modcall_C: 0,
        n_modcall_a: 0,
        n_modcall_h: 0,
        n_modcall_m: 0,
    }
}

impl Tally {
    pub fn new() -> (r: Tally)
        ensures
            r == empty_tally(),
    {
        Tally {
            n_delete: 0,
            n_filtered: 0,
            n_basecall_A: 0,
            n_basecall_C: 0,
            n_basecall_G: 0,
            n_basecall_T: 0,
            n_modcall_A: 0,
            n_modcall_C: 0,
            n_modcall_a: 0,
            n_modcall_h: 0,
            n_modcall_m: 0,
        }
    }

    pub fn add_feature(&mut self, feature: Feature)
        requires
            tally_total(*old(self)) < u32::MAX,
        ensures
            *final(self) == tally_add_spec(*old(self), feature),
            tally_total(*final(self)) <= tally_total(*old(self)) + 1,
    {
        match feature {
            Feature::Filtered => self.n_filtered = self.n_filtered + 1,
            Feature::Delete => self.n_delete = self.n_delete + 1,
            Feature::ModCall(mod_base) => match mod_base {
                ModCode::C => self.n_modcall_C = self.n_modcall_C + 1,
                ModCode::h => self.n_modcall_h = self.n_modcall_h + 1,
                ModCode::m => self.n_modcall_m = self.n_modcall_m + 1,
                ModCode::A => self.n_modcall_A = self.n_modcall_A + 1,
                ModCode::a => self.n_modcall_a = self.n_modcall_a + 1,
                _ => {},
            },
            Feature::NoCall(dna_base) => match dna_base {
                DnaBase::A => self.n_basecall_A = self.n_basecall_A + 1,
                DnaBase::C => self.n_basecall_C = self.n_basecall_C + 1,
                DnaBase::G => self.n_basecall_G = self.n_basecall_G + 1,
                DnaBase::T => self.n_basecall_T = self.n_basecall_T + 1,
            },
        }
    }
}

/// Which contributions a column counts.
#[derive(Debug, Clone, Copy, PartialEq, Eq, Structural)]
pub enum StrandRule {
    Positive,
    Negative,
    Both,
}

/// The reference strand a contribution belongs to: positive where the
/// alignment strand and the strand of the call agree.
pub open spec fn routed_strand(alignment_strand: Strand, read_strand: Strand) -> Strand {
    if alignment_strand == read_strand {
        Strand::Positive
    } else {
        Strand::Negative
    }
}

pub open spec fn rule_admits(rule: StrandRule, s: Strand) -> bool {
    match rule {
        StrandRule::Both => true,
        StrandRule::Positive => s == Strand::Positive,
        StrandRule::Negative => s == Strand::Negative,
    }
}

/// The tallies of both reference strands at one column.
#[derive(Debug, Clone, Copy, PartialEq, Eq, Structural)]
pub struct FeatureVector {
    pub pos_tally: Tally,
    pub neg_tally: Tally,
}

pub open spec fn fv_total(fv: FeatureVector) -> int {
    tally_total(fv.pos_tally) + tally_total(fv.neg_tally)
}

pub open spec fn fv_add_spec(
    fv: FeatureVector,
    alignment_strand: Strand,
    feature: Feature,
    read_strand: Strand,
    rule: StrandRule,
) -> FeatureVector {
    let s = routed_strand(alignment_strand, read_strand);
    if !rule_admits(rule, s) {
        fv
    } else if s == Strand::Positive {
        FeatureVector { pos_tally: tally_add_spec(fv.pos_tally, feature), ..fv }
    } else {
        FeatureVector { neg_tally: tally_add_spec(fv.neg_tally, feature), ..fv }
    }
}

impl FeatureVector {
    pub fn new() -> (r: FeatureVector)
        ensures
            r.pos_tally == empty_tally(),
            r.neg_tally == empty_tally(),
    {
        FeatureVector { pos_tally: Tally::new(), neg_tally: Tally::new() }
    }

    /// Counts a feature on the reference strand it belongs to, where the
    /// strand rule admits that strand.
    pub fn add_feature(
        &mut self,
        alignment_strand: Strand,
        feature: Feature,
        read_strand: Strand,
        strand_rule: &StrandRule,
    )
        requires
            fv_total(*old(self)) < u32::MAX,
        ensures
            *final(self) == fv_add_spec(*old(self), alignment_strand, feature, read_strand, *strand_rule),
            fv_total(*final(self)) <= fv_total(*old(self)) + 1,
    {
        match strand_rule {
            StrandRule::Both => match (alignment_strand, read_strand) {
                (Strand::Positive, Strand::Positive) => self.pos_tally.add_feature(feature),
                (Strand::Negative, Strand::Positive) => self.neg_tally.add_feature(feature),
                (Strand::Positive, Strand::Negative) => self.neg_tally.add_feature(feature),
                (Strand::Negative, Strand::Negative) => self.pos_tally.add_feature(feature),
            },
            StrandRule::Positive => match (alignment_strand, read_strand) {
                (Strand::Positive, Strand::Positive) => self.pos_tally.add_feature(feature),
                (Strand::Negative, Strand::Negative) => self.pos_tally.add_feature(feature),
                _ => {},
            },
            StrandRule::Negative => match (alignment_strand, read_strand) {
                (Strand::Negative, Strand::Positive) => self.neg_tally.add_feature(feature),
                (Strand::Positive, Strand::Negative) => self.neg_tally.add_feature(feature),
                _ => {},
            },
        }
    }
}

/// One output row: the counts of one modification code on one strand at one
/// reference position. The fraction modified is `n_modified /
/// filtered_coverage`.
#[derive(Debug, Clone, Copy, PartialEq, Eq, Structural)]
pub struct PileupFeatureCounts {
    pub strand: Strand,
    pub filtered_coverage: u32,
    pub raw_mod_code: char,
    pub n_canonical: u32,
    pub n_modified: u32,
    pub n_other_modified: u32,
    pub n_delete: u32,
    pub n_filtered: u32,
    pub n_diff: u32,
    pub n_nocall: u32,
}

/// How the modification counts of a base are reported.
#[derive(Debug, Clone, PartialEq, Eq)]
pub enum PileupNumericOptions {
    /// One row per observed modification code.
    Passthrough,
    /// One row summing every modification of the base.
    Combine,
    /// Calls are collapsed with the method before they are tallied.
    Collapse(CollapseMethod),
}

impl PileupNumericOptions {
    pub fn get_collapse_method(&self) -> (r: Option<&CollapseMethod>)
        ensures
            r matches Some(m) ==> *self == PileupNumericOptions::Collapse(*m),
            r is None ==> !(*self is Collapse),
    {
        match self {
            PileupNumericOptions::Collapse(method) => Some(method),
            _ => None,
        }
    }
}

/// The cytosine rows of one strand: one per observed `h`/`m` code, or one
/// combined row.
pub open spec fn cytosine_rows(
    combine: bool,
    observed: Seq<ModCode>,
    strand: Strand,
    t: Tally,
) -> Seq<PileupFeatureCounts> {
    let n_h = t.n_modcall_h;
    let n_m = t.n_modcall_m;
    let cov = (t.n_modcall_C + n_h + n_m) as u32;
    let n_diff = (t.n_basecall_A + t.n_basecall_G + t.n_basecall_T + t.n_modcall_A
        + t.n_modcall_a) as u32;
    let row = |code: char, n_mod: u32, n_other: u32|
        PileupFeatureCounts {
            strand,
            filtered_coverage: cov,
            raw_mod_code: code,
            n_canonical: t.n_modcall_C,
            n_modified: n_mod,
            n_other_modified: n_other,
            n_delete: t.n_delete,
            n_filtered: t.n_filtered,
            n_diff,
            n_nocall: t.n_basecall_C,
        };
    if combine {
        seq![row(mod_code_char(ModCode::C), (n_h + n_m) as u32, 0)]
    } else {
        (if observed.contains(ModCode::h) {
            seq![row(mod_code_char(ModCode::h), n_h, n_m)]
        } else {
            Seq::empty()
        }) + (if observed.contains(ModCode::m) {
            seq![row(mod_code_char(ModCode::m), n_m, n_h)]
        } else {
            Seq::empty()
        })
    }
}

/// The adenine row of one strand.
pub open spec fn adenine_row(strand: Strand, t: Tally) -> PileupFeatureCounts {
    PileupFeatureCounts {
        strand,
        filtered_coverage: (t.n_modcall_A + t.n_modcall_a) as u32,
        raw_mod_code: mod_code_char(ModCode::a),
        n_canonical: t.n_modcall_A,
        n_modified: t.n_modcall_a,
        n_other_modified: 0,
        n_delete: t.n_delete,
        n_filtered: t.n_filtered,
        n_diff: (t.n_basecall_C + t.n_basecall_T + t.n_basecall_G + t.n_modcall_C + t.n_modcall_m
            + t.n_modcall_h) as u32,
        n_nocall: t.n_basecall_A,
    }
}

/// The rows of one strand's tally: adenine where A calls were seen, then
/// cytosine where C calls were seen.
pub open spec fn tally_rows(
    options: PileupNumericOptions,
    observed: Seq<ModCode>,
    strand: Strand,
    t: Tally,
) -> Seq<PileupFeatureCounts> {
    (if t.n_modcall_A + t.n_modcall_a > 0 {
        seq![adenine_row(strand, t)]
    } else {
        Seq::empty()
    }) + (if t.n_modcall_h + t.n_modcall_m + t.n_modcall_C > 0 {
        cytosine_rows(options is Combine, observed, strand, t)
    } else {
        Seq::empty()
    })
}

pub open spec fn decode_spec(
    fv: FeatureVector,
    pos_observed: Seq<ModCode>,
    neg_observed: Seq<ModCode>,
    options: PileupNumericOptions,
) -> Seq<PileupFeatureCounts> {
    tally_rows(options, pos_observed, Strand::Positive, fv.pos_tally) + tally_rows(
        options,
        neg_observed,
        Strand::Negative,
        fv.neg_tally,
    )
}

/// Every row's coverage is its canonical, modified and other-modified
/// counts together.
pub open spec fn rows_cover(rows: Seq<PileupFeatureCounts>) -> bool {
    forall|i: int|
        0 <= i < rows.len() ==> (#[trigger] rows[i]).filtered_coverage == rows[i].n_canonical
            + rows[i].n_modified + rows[i].n_other_modified
}

fn push_cytosine_rows(
    options: &PileupNumericOptions,
    counts: &mut Vec<PileupFeatureCounts>,
    observed: &Vec<ModCode>,
    strand: Strand,
    t: &Tally,
)
    requires
        tally_total(*t) < u32::MAX,
    ensures
        final(counts)@ == old(counts)@ + cytosine_rows(options is Combine, observed@, strand, *t),
{
    let n_h = t.n_modcall_h;
    let n_m = t.n_modcall_m;
    let filtered_coverage = t.n_modcall_C + n_h + n_m;
    let n_diff = t.n_basecall_A + t.n_basecall_G + t.n_basecall_T + t.n_modcall_A + t.n_modcall_a;
    match options {
        PileupNumericOptions::Passthrough | PileupNumericOptions::Collapse(_) => {
            let ghost start = counts@;
            if contains_mod_code(observed, ModCode::h) {
                counts.push(
                    PileupFeatureCounts {
                        strand,
                        filtered_coverage,
                        raw_mod_code: ModCode::h.char(),
                        n_canonical: t.n_modcall_C,
                        n_modified: n_h,
                        n_other_modified: n_m,
                        n_delete: t.n_delete,
                        n_filtered: t.n_filtered,
                        n_diff,
                        n_nocall: t.n_basecall_C,
                    },
                );
            }
            if contains_mod_code(observed, ModCode::m) {
                counts.push(
                    PileupFeatureCounts {
                        strand,
                        filtered_coverage,
                        raw_mod_code: ModCode::m.char(),
                        n_canonical: t.n_modcall_C,
                        n_modified: n_m,
                        n_other_modified: n_h,
                        n_delete: t.n_delete,
                        n_filtered: t.n_filtered,
                        n_diff,
                        n_nocall: t.n_basecall_C,
                    },
                );
            }
            proof {
                assert(counts@ =~= start + cytosine_rows(options is Combine, observed@, strand, *t));
            }
        },
        PileupNumericOptions::Combine => {
            counts.push(
                PileupFeatureCounts {
                    strand,
                    filtered_coverage,
                    raw_mod_code: ModCode::C.char(),
                    n_canonical: t.n_modcall_C,
                    n_modified: n_h + n_m,
                    n_other_modified: 0,
                    n_delete: t.n_delete,
                    n_filtered: t.n_filtered,
                    n_diff,
                    n_nocall: t.n_basecall_C,
                },
            );
            proof {
                assert(counts@ =~= old(counts)@ + cytosine_rows(true, observed@, strand, *t));
            }
        },
    }
}

pub fn contains_mod_code(v: &Vec<ModCode>, c: ModCode) -> (r: bool)
    ensures
        r == v@.contains(c),
{
    crate::mod_probs::contains_code(v, c)
}

fn add_tally_to_counts(
    counts: &mut Vec<PileupFeatureCounts>,
    tally: &Tally,
    strand: Strand,
    observed_mods: &Vec<ModCode>,
    pileup_options: &PileupNumericOptions,
)
    requires
        tally_total(*tally) < u32::MAX,
    ensures
        final(counts)@ == old(counts)@ + tally_rows(*pileup_options, observed_mods@, strand, *tally),
{
    let ghost start = counts@;
    if tally.n_modcall_A + tally.n_modcall_a > 0 {
        let n_canonical = tally.n_modcall_A;
        let n_mod = tally.n_modcall_a;
        counts.push(
            PileupFeatureCounts {
                strand,
                filtered_coverage: n_canonical + n_mod,
                raw_mod_code: ModCode::a.char(),
                n_canonical,
                n_modified: n_mod,
                n_other_modified: 0,
                n_delete: tally.n_delete,
                n_filtered: tally.n_filtered,
                n_diff: tally.n_basecall_C + tally.n_basecall_T + tally.n_basecall_G
                    + tally.n_modcall_C + tally.n_modcall_m + tally.n_modcall_h,
                n_nocall: tally.n_basecall_A,
            },
        );
    }
    let ghost mid = counts@;
    if tally.n_modcall_h + tally.n_modcall_m + tally.n_modcall_C > 0 {
        push_cytosine_rows(pileup_options, counts, observed_mods, strand, tally);
    }
    proof {
        assert(counts@ =~= start + tally_rows(*pileup_options, observed_mods@, strand, *tally));
    }
}

impl FeatureVector {
    /// The rows of both strands, positive first.
    pub fn decode(
        self,
        pos_observed_mods: &Vec<ModCode>,
        neg_observed_mods: &Vec<ModCode>,
        pileup_options: &PileupNumericOptions,
    ) -> (r: Vec<PileupFeatureCounts>)
        requires
            fv_total(self) < u32::MAX,
        ensures
            r@ == decode_spec(self, pos_observed_mods@, neg_observed_mods@, *pileup_options),
            rows_cover(r@),
    {
        let mut counts: Vec<PileupFeatureCounts> = Vec::new();
        add_tally_to_counts(&mut counts, &self.pos_tally, Strand::Positive, pos_observed_mods, pileup_options);
        add_tally_to_counts(&mut counts, &self.neg_tally, Strand::Negative, neg_observed_mods, pileup_options);
        proof {
            assert(counts@ =~= decode_spec(self, pos_observed_mods@, neg_observed_mods@, *pileup_options));
            lemma_decoded_rows_cover(self, pos_observed_mods@, neg_observed_mods@, *pileup_options);
        }
        counts
    }
}

proof fn lemma_tally_rows(options: PileupNumericOptions, observed: Seq<ModCode>, strand: Strand, t: Tally)
    requires
        tally_total(t) < u32::MAX,
    ensures
        rows_cover(tally_rows(options, observed, strand, t)),
        tally_total(t) <= 0x7fff_ffff ==> rows_bounded(tally_rows(options, observed, strand, t)),
{
    let rows = tally_rows(options, observed, strand, t);
    let a = if t.n_modcall_A + t.n_modcall_a > 0 {
        seq![adenine_row(strand, t)]
    } else {
        Seq::empty()
    };
    let c = if t.n_modcall_h + t.n_modcall_m + t.n_modcall_C > 0 {
        cytosine_rows(options is Combine, observed, strand, t)
    } else {
        Seq::empty()
    };
    assert(rows == a + c);
    assert forall|i: int| 0 <= i < rows.len() implies (#[trigger] rows[i]).filtered_coverage
        == rows[i].n_canonical + rows[i].n_modified + rows[i].n_other_modified by {
        if i < a.len() {
            assert(rows[i] == a[i]);
        } else {
            assert(rows[i] == c[i - a.len()]);
        }
    }
    if tally_total(t) <= 0x7fff_ffff {
        assert forall|i: int| 0 <= i < rows.len() implies {
            let r = #[trigger] rows[i];
            r.filtered_coverage <= 0x7fff_ffff && r.n_canonical <= 0x7fff_ffff && r.n_modified
                <= 0x7fff_ffff && r.n_other_modified <= 0x7fff_ffff && r.n_delete <= 0x7fff_ffff
                && r.n_filtered <= 0x7fff_ffff && r.n_diff <= 0x7fff_ffff && r.n_nocall <= 0x7fff_ffff
        } by {
            if i < a.len() {
                assert(rows[i] == a[i]);
            } else {
                assert(rows[i] == c[i - a.len()]);
            }
        }
    }
}

/// In every decoded row the coverage is the canonical, modified and
/// other-modified counts together.
pub proof fn lemma_decoded_rows_cover(
    fv: FeatureVector,
    pos_observed: Seq<ModCode>,
    neg_observed: Seq<ModCode>,
    options: PileupNumericOptions,
)
    requires
        fv_total(fv) < u32::MAX,
    ensures
        rows_cover(decode_spec(fv, pos_observed, neg_observed, options)),
        fv_total(fv) <= 0x7fff_ffff ==> rows_bounded(decode_spec(fv, pos_observed, neg_observed, options)),
{
    let rows = decode_spec(fv, pos_observed, neg_observed, options);
    let p = tally_rows(options, pos_observed, Strand::Positive, fv.pos_tally);
    let n = tally_rows(options, neg_observed, Strand::Negative, fv.neg_tally);
    lemma_tally_rows(options, pos_observed, Strand::Positive, fv.pos_tally);
    lemma_tally_rows(options, neg_observed, Strand::Negative, fv.neg_tally);
    assert(rows == p + n);
    assert forall|i: int| 0 <= i < rows.len() implies (#[trigger] rows[i]) == if i < p.len() { p[i] } else { n[i - p.len()] } by {}
}

/// Every count of every row is below 2^31, so two rows add without overflow.
pub open spec fn rows_bounded(rows: Seq<PileupFeatureCounts>) -> bool {
    forall|i: int|
        0 <= i < rows.len() ==> {
            let r = #[trigger] rows[i];
            r.filtered_coverage <= 0x7fff_ffff && r.n_canonical <= 0x7fff_ffff && r.n_modified
                <= 0x7fff_ffff && r.n_other_modified <= 0x7fff_ffff && r.n_delete <= 0x7fff_ffff
                && r.n_filtered <= 0x7fff_ffff && r.n_diff <= 0x7fff_ffff && r.n_nocall <= 0x7fff_ffff
        }
}

/// What the pileup learned of one alignment at a column.
#[derive(Debug, Clone, Copy, PartialEq, Eq, Structural)]
pub enum AlignmentObservation {
    /// The alignment has a deletion at the column.
    Deleted { alignment_strand: Strand },
    /// The alignment has a base at the column (forward-oriented) and the
    /// read's calls there on its `+` and `-` strands.
    Base {
        alignment_strand: Strand,
        read_base: DnaBase,
        pos_call: Option<BaseModCall>,
        neg_call: Option<BaseModCall>,
    },
}

pub open spec fn fv_add_observation(fv: FeatureVector, o: AlignmentObservation, rule: StrandRule) -> FeatureVector {
    match o {
        AlignmentObservation::Deleted { alignment_strand } => fv_add_spec(
            fv,
            alignment_strand,
            Feature::Delete,
            Strand::Positive,
            rule,
        ),
        AlignmentObservation::Base { alignment_strand, read_base, pos_call, neg_call } => match (
            pos_call,
            neg_call,
        ) {
            (Some(p), Some(n)) => fv_add_spec(
                fv_add_spec(fv, alignment_strand, feature_of_call(p, read_base), Strand::Positive, rule),
                alignment_strand,
                feature_of_call(n, base_complement(read_base)),
                Strand::Negative,
                rule,
            ),
            (Some(p), None) => fv_add_spec(
                fv,
                alignment_strand,
                feature_of_call(p, read_base),
                Strand::Positive,
                rule,
            ),
            (None, Some(n)) => fv_add_spec(
                fv,
                alignment_strand,
                feature_of_call(n, base_complement(read_base)),
                Strand::Negative,
                rule,
            ),
            (None, None) => fv_add_spec(
                fv,
                alignment_strand,
                Feature::NoCall(read_base),
                Strand::Positive,
                rule,
            ),
        },
    }
}

/// The feature vector of a column's observations, in order.
pub open spec fn column_fv(obs: Seq<AlignmentObservation>, rule: StrandRule) -> FeatureVector
    decreases obs.len(),
{
    if obs.len() == 0 {
        FeatureVector { pos_tally: empty_tally(), neg_tally: empty_tally() }
    } else {
        fv_add_observation(column_fv(obs.drop_last(), rule), obs.last(), rule)
    }
}

/// Tallies a column's observations and decodes the tally into rows.
pub fn column_counts(
    obs: &Vec<AlignmentObservation>,
    strand_rule: StrandRule,
    pos_observed_mods: &Vec<ModCode>,
    neg_observed_mods: &Vec<ModCode>,
    pileup_options: &PileupNumericOptions,
) -> (r: Vec<PileupFeatureCounts>)
    requires
        obs@.len() < 0x3fff_ffff,
    ensures
        r@ == decode_spec(column_fv(obs@, strand_rule), pos_observed_mods@, neg_observed_mods@, *pileup_options),
        rows_cover(r@),
        rows_bounded(r@),
{
    let mut fv = FeatureVector::new();
    let mut i: usize = 0;
    while i < obs.len()
        invariant
            i <= obs@.len(),
            obs@.len() < 0x3fff_ffff,
            fv == column_fv(obs@.subrange(0, i as int), strand_rule),
            fv_total(fv) <= 2 * i,
        decreases obs@.len() - i,
    {
        proof {
            assert(obs@.subrange(0, i as int + 1).drop_last() =~= obs@.subrange(0, i as int));
        }
        match obs[i] {
            AlignmentObservation::Deleted { alignment_strand } => {
                fv.add_feature(alignment_strand, Feature::Delete, Strand::Positive, &strand_rule);
            },
            AlignmentObservation::Base { alignment_strand, read_base, pos_call, neg_call } => {
                match (pos_call, neg_call) {
                    (Some(p), Some(n)) => {
                        let pos_feature = Feature::from_base_mod_call(p, read_base);
                        let neg_feature = Feature::from_base_mod_call(n, read_base.complement());
                        fv.add_feature(alignment_strand, pos_feature, Strand::Positive, &strand_rule);
                        fv.add_feature(alignment_strand, neg_feature, Strand::Negative, &strand_rule);
                    },
                    (Some(p), None) => {
                        let pos_feature = Feature::from_base_mod_call(p, read_base);
                        fv.add_feature(alignment_strand, pos_feature, Strand::Positive, &strand_rule);
                    },
                    (None, Some(n)) => {
                        let neg_feature = Feature::from_base_mod_call(n, read_base.complement());
                        fv.add_feature(alignment_strand, neg_feature, Strand::Negative, &strand_rule);
                    },
                    (None, None) => {
                        fv.add_feature(alignment_strand, Feature::NoCall(read_base), Strand::Positive, &strand_rule);
                    },
                }
            },
        }
        i = i + 1;
    }
    proof {
        assert(obs@.subrange(0, i as int) =~= obs@);
        lemma_decoded_rows_cover(fv, pos_observed_mods@, neg_observed_mods@, *pileup_options);
    }
    fv.decode(pos_observed_mods, neg_observed_mods, pileup_options)
}

/// The first row of a code on a strand; -1 if none.
pub open spec fn find_row(rows: Seq<PileupFeatureCounts>, code: char, strand: Strand) -> int
    decreases rows.len(),
{
    if rows.len() == 0 {
        -1
    } else if find_row(rows.drop_last(), code, strand) >= 0 {
        find_row(rows.drop_last(), code, strand)
    } else if rows.last().raw_mod_code == code && rows.last().strand == strand {
        rows.len() - 1
    } else {
        -1
    }
}

/// Two rows' counts summed, reported on the positive strand.
pub open spec fn sum_rows(a: PileupFeatureCounts, b: PileupFeatureCounts) -> PileupFeatureCounts {
    PileupFeatureCounts {
        strand: Strand::Positive,
        filtered_coverage: (a.filtered_coverage + b.filtered_coverage) as u32,
        raw_mod_code: a.raw_mod_code,
        n_canonical: (a.n_canonical + b.n_canonical) as u32,
        n_modified: (a.n_modified + b.n_modified) as u32,
        n_other_modified: (a.n_other_modified + b.n_other_modified) as u32,
        n_delete: (a.n_delete + b.n_delete) as u32,
        n_filtered: (a.n_filtered + b.n_filtered) as u32,
        n_diff: (a.n_diff + b.n_diff) as u32,
        n_nocall: (a.n_nocall + b.n_nocall) as u32,
    }
}

pub open spec fn as_positive(a: PileupFeatureCounts) -> PileupFeatureCounts {
    PileupFeatureCounts { strand: Strand::Positive, ..a }
}

/// Each positive row of `plus`, with the negative row of its code in
/// `minus` added where there is one.
pub open spec fn absorbed_rows(plus: Seq<PileupFeatureCounts>, minus: Seq<PileupFeatureCounts>) -> Seq<PileupFeatureCounts>
    decreases plus.len(),
{
    if plus.len() == 0 {
        Seq::empty()
    } else {
        let r = plus.last();
        let j = find_row(minus, r.raw_mod_code, Strand::Negative);
        absorbed_rows(plus.drop_last(), minus) + if r.strand != Strand::Positive {
            Seq::empty()
        } else if j >= 0 {
            seq![sum_rows(r, minus[j])]
        } else {
            seq![r]
        }
    }
}

/// The negative rows of `minus` whose code has no positive row in `plus`,
/// moved to the positive strand.
pub open spec fn orphan_rows(plus: Seq<PileupFeatureCounts>, minus: Seq<PileupFeatureCounts>) -> Seq<PileupFeatureCounts>
    decreases minus.len(),
{
    if minus.len() == 0 {
        Seq::empty()
    } else {
        let m = minus.last();
        orphan_rows(plus, minus.drop_last()) + if m.strand == Strand::Negative && find_row(
            plus,
            m.raw_mod_code,
            Strand::Positive,
        ) < 0 {
            seq![as_positive(m)]
        } else {
            Seq::empty()
        }
    }
}

/// The rows of a positive motif position combined with those of its
/// mirrored negative position.
pub open spec fn combine_rows_spec(plus: Seq<PileupFeatureCounts>, minus: Seq<PileupFeatureCounts>) -> Seq<PileupFeatureCounts> {
    absorbed_rows(plus, minus) + orphan_rows(plus, minus)
}

fn find_row_index(rows: &Vec<PileupFeatureCounts>, code: char, strand: Strand) -> (r: Option<usize>)
    ensures
        r matches Some(i) ==> i as int == find_row(rows@, code, strand) && i < rows@.len(),
        r is None ==> find_row(rows@, code, strand) < 0,
{
    let mut i: usize = 0;
    while i < rows.len()
        invariant
            i <= rows@.len(),
            find_row(rows@.subrange(0, i as int), code, strand) < 0,
        decreases rows@.len() - i,
    {
        proof {
            assert(rows@.subrange(0, i as int + 1).drop_last() =~= rows@.subrange(0, i as int));
        }
        if rows[i].raw_mod_code == code && rows[i].strand == strand {
            proof {
                lemma_find_row_prefix(rows@, code, strand, i as int);
            }
            return Some(i);
        }
        i = i + 1;
    }
    proof {
        assert(rows@.subrange(0, i as int) =~= rows@);
    }
    None
}

proof fn lemma_find_row_prefix(rows: Seq<PileupFeatureCounts>, code: char, strand: Strand, i: int)
    requires
        0 <= i < rows.len(),
        rows[i].raw_mod_code == code && rows[i].strand == strand,
        find_row(rows.subrange(0, i), code, strand) < 0,
    ensures
        find_row(rows, code, strand) == i,
    decreases rows.len(),
{
    if i == rows.len() - 1 {
        assert(rows.drop_last() =~= rows.subrange(0, i));
    } else {
        assert(rows.drop_last().subrange(0, i) =~= rows.subrange(0, i));
        lemma_find_row_prefix(rows.drop_last(), code, strand, i);
    }
}

proof fn lemma_find_row_bounds(rows: Seq<PileupFeatureCounts>, code: char, strand: Strand)
    ensures
        -1 <= find_row(rows, code, strand) < rows.len(),
        find_row(rows, code, strand) >= 0 ==> rows[find_row(rows, code, strand)].raw_mod_code == code
            && rows[find_row(rows, code, strand)].strand == strand,
    decreases rows.len(),
{
    if rows.len() > 0 {
        lemma_find_row_bounds(rows.drop_last(), code, strand);
    }
}

/// Sums the counts of a positive motif position (`plus`) and of its
/// mirrored negative position (`minus`) into positive-strand rows: each
/// positive row absorbs the negative row of its code, and negative rows
/// with no positive row of their code are moved to the positive strand.
/// No negative row is reported, and none is counted twice.
pub fn combine_strand_rows(plus: &Vec<PileupFeatureCounts>, minus: &Vec<PileupFeatureCounts>) -> (r: Vec<PileupFeatureCounts>)
    requires
        rows_bounded(plus@),
        rows_bounded(minus@),
    ensures
        r@ == combine_rows_spec(plus@, minus@),
        forall|i: int| 0 <= i < r@.len() ==> (#[trigger] r@[i]).strand == Strand::Positive,
        rows_cover(plus@) && rows_cover(minus@) ==> rows_cover(r@),
{
    let mut out: Vec<PileupFeatureCounts> = Vec::new();
    let mut i: usize = 0;
    while i < plus.len()
        invariant
            i <= plus@.len(),
            rows_bounded(plus@),
            rows_bounded(minus@),
            out@ == absorbed_rows(plus@.subrange(0, i as int), minus@),
        decreases plus@.len() - i,
    {
        let r = plus[i];
        proof {
            assert(plus@.subrange(0, i as int + 1).drop_last() =~= plus@.subrange(0, i as int));
            assert(plus@.subrange(0, i as int + 1).last() == r);
            assert(plus@[i as int] == r);
        }
        if r.strand == Strand::Positive {
            match find_row_index(minus, r.raw_mod_code, Strand::Negative) {
                Some(j) => {
                    let m = minus[j];
                    proof {
                        assert(minus@[j as int] == m);
                    }
                    out.push(
                        PileupFeatureCounts {
                            strand: Strand::Positive,
                            filtered_coverage: r.filtered_coverage + m.filtered_coverage,
                            raw_mod_code: r.raw_mod_code,
                            n_canonical: r.n_canonical + m.n_canonical,
                            n_modified: r.n_modified + m.n_modified,
                            n_other_modified: r.n_other_modified + m.n_other_modified,
                            n_delete: r.n_delete + m.n_delete,
                            n_filtered: r.n_filtered + m.n_filtered,
                            n_diff: r.n_diff + m.n_diff,
                            n_nocall: r.n_nocall + m.n_nocall,
                        },
                    );
                },
                None => {
                    out.push(r);
                },
            }
        }
        proof {
            assert(out@ =~= absorbed_rows(plus@.subrange(0, i as int + 1), minus@));
        }
        i = i + 1;
    }
    proof {
        assert(plus@.subrange(0, i as int) =~= plus@);
    }
    let ghost absorbed = out@;
    let mut k: usize = 0;
    while k < minus.len()
        invariant
            k <= minus@.len(),
            out@ == absorbed + orphan_rows(plus@, minus@.subrange(0, k as int)),
        decreases minus@.len() - k,
    {
        let m = minus[k];
        proof {
            assert(minus@.subrange(0, k as int + 1).drop_last() =~= minus@.subrange(0, k as int));
            assert(minus@.subrange(0, k as int + 1).last() == m);
        }
        if m.strand == Strand::Negative && find_row_index(plus, m.raw_mod_code, Strand::Positive).is_none() {
            out.push(PileupFeatureCounts { strand: Strand::Positive, ..m });
        }
        proof {
            assert(out@ =~= absorbed + orphan_rows(plus@, minus@.subrange(0, k as int + 1)));
        }
        k = k + 1;
    }
    proof {
        assert(minus@.subrange(0, k as int) =~= minus@);
        lemma_combined_rows(plus@, minus@);
    }
    out
}

proof fn lemma_absorbed(plus: Seq<PileupFeatureCounts>, minus: Seq<PileupFeatureCounts>)
    requires
        rows_bounded(plus),
        rows_bounded(minus),
    ensures
        forall|i: int| 0 <= i < absorbed_rows(plus, minus).len() ==> (#[trigger] absorbed_rows(plus, minus)[i]).strand == Strand::Positive,
        rows_cover(plus) && rows_cover(minus) ==> rows_cover(absorbed_rows(plus, minus)),
    decreases plus.len(),
{
    if plus.len() > 0 {
        assert(rows_bounded(plus.drop_last())) by {
            assert forall|i: int| 0 <= i < plus.drop_last().len() implies #[trigger] plus.drop_last()[i] == plus[i] by {}
        }
        lemma_absorbed(plus.drop_last(), minus);
        let r = plus.last();
        lemma_find_row_bounds(minus, r.raw_mod_code, Strand::Negative);
        let rest = absorbed_rows(plus.drop_last(), minus);
        let all = absorbed_rows(plus, minus);
        assert forall|i: int| 0 <= i < all.len() implies (#[trigger] all[i]).strand == Strand::Positive by {
            if i < rest.len() {
                assert(all[i] == rest[i]);
            }
        }
        if rows_cover(plus) && rows_cover(minus) {
            assert(rows_cover(plus.drop_last())) by {
                assert forall|i: int| 0 <= i < plus.drop_last().len() implies (#[trigger] plus.drop_last()[i]).filtered_coverage
                    == plus.drop_last()[i].n_canonical + plus.drop_last()[i].n_modified + plus.drop_last()[i].n_other_modified by {
                    assert(plus.drop_last()[i] == plus[i]);
                }
            }
            assert(plus[plus.len() - 1] == r);
            let j = find_row(minus, r.raw_mod_code, Strand::Negative);
            if j >= 0 {
                assert(minus[j].filtered_coverage == minus[j].n_canonical + minus[j].n_modified + minus[j].n_other_modified);
                assert(minus[j].n_canonical <= 0x7fff_ffff);
                assert(r.n_canonical <= 0x7fff_ffff);
            }
            assert forall|i: int| 0 <= i < all.len() implies (#[trigger] all[i]).filtered_coverage
                == all[i].n_canonical + all[i].n_modified + all[i].n_other_modified by {
                if i < rest.len() {
                    assert(all[i] == rest[i]);
                }
            }
        }
    }
}

proof fn lemma_orphans(plus: Seq<PileupFeatureCounts>, minus: Seq<PileupFeatureCounts>)
    ensures
        forall|i: int| 0 <= i < orphan_rows(plus, minus).len() ==> (#[trigger] orphan_rows(plus, minus)[i]).strand == Strand::Positive,
        rows_cover(minus) ==> rows_cover(orphan_rows(plus, minus)),
    decreases minus.len(),
{
    if minus.len() > 0 {
        lemma_orphans(plus, minus.drop_last());
        let rest = orphan_rows(plus, minus.drop_last());
        let all = orphan_rows(plus, minus);
        assert forall|i: int| 0 <= i < all.len() implies (#[trigger] all[i]).strand == Strand::Positive by {
            if i < rest.len() {
                assert(all[i] == rest[i]);
            }
        }
        if rows_cover(minus) {
            assert(rows_cover(minus.drop_last())) by {
                assert forall|i: int| 0 <= i < minus.drop_last().len() implies (#[trigger] minus.drop_last()[i]).filtered_coverage
                    == minus.drop_last()[i].n_canonical + minus.drop_last()[i].n_modified + minus.drop_last()[i].n_other_modified by {
                    assert(minus.drop_last()[i] == minus[i]);
                }
            }
            assert(minus[minus.len() - 1] == minus.last());
            assert forall|i: int| 0 <= i < all.len() implies (#[trigger] all[i]).filtered_coverage
                == all[i].n_canonical + all[i].n_modified + all[i].n_other_modified by {
                if i < rest.len() {
                    assert(all[i] == rest[i]);
                }
            }
        }
    }
}

proof fn lemma_combined_rows(plus: Seq<PileupFeatureCounts>, minus: Seq<PileupFeatureCounts>)
    requires
        rows_bounded(plus),
        rows_bounded(minus),
    ensures
        forall|i: int| 0 <= i < combine_rows_spec(plus, minus).len() ==> (#[trigger] combine_rows_spec(plus, minus)[i]).strand == Strand::Positive,
        rows_cover(plus) && rows_cover(minus) ==> rows_cover(combine_rows_spec(plus, minus)),
{
    lemma_absorbed(plus, minus);
    lemma_orphans(plus, minus);
    let a = absorbed_rows(plus, minus);
    let o = orphan_rows(plus, minus);
    let all = combine_rows_spec(plus, minus);
    assert forall|i: int| 0 <= i < all.len() implies (#[trigger] all[i]).strand == Strand::Positive by {
        if i < a.len() {
            assert(all[i] == a[i]);
        } else {
            assert(all[i] == o[i - a.len()]);
        }
    }
    if rows_cover(plus) && rows_cover(minus) {
        assert forall|i: int| 0 <= i < all.len() implies (#[trigger] all[i]).filtered_coverage
            == all[i].n_canonical + all[i].n_modified + all[i].n_other_modified by {
            if i < a.len() {
                assert(all[i] == a[i]);
            } else {
                assert(all[i] == o[i - a.len()]);
            }
        }
    }
}

/// Under strand combination, the row of a positive-strand code at a motif
/// position reports its own counts plus those of the negative-strand row of
/// the same code at the mirrored position.
pub proof fn combined_row_is_sum(plus: Seq<PileupFeatureCounts>, minus: Seq<PileupFeatureCounts>, i: int)
    requires
        0 <= i < plus.len(),
        plus[i].strand == Strand::Positive,
        find_row(minus, plus[i].raw_mod_code, Strand::Negative) >= 0,
    ensures
        combine_rows_spec(plus, minus).contains(
            sum_rows(plus[i], minus[find_row(minus, plus[i].raw_mod_code, Strand::Negative)]),
        ),
{
    let target = sum_rows(plus[i], minus[find_row(minus, plus[i].raw_mod_code, Strand::Negative)]);
    lemma_absorbed_contains(plus, minus, i);
    let a = absorbed_rows(plus, minus);
    let k = choose|k: int| 0 <= k < a.len() && a[k] == target;
    assert(combine_rows_spec(plus, minus)[k] == target);
}

proof fn lemma_absorbed_contains(plus: Seq<PileupFeatureCounts>, minus: Seq<PileupFeatureCounts>, i: int)
    requires
        0 <= i < plus.len(),
        plus[i].strand == Strand::Positive,
        find_row(minus, plus[i].raw_mod_code, Strand::Negative) >= 0,
    ensures
        absorbed_rows(plus, minus).contains(
            sum_rows(plus[i], minus[find_row(minus, plus[i].raw_mod_code, Strand::Negative)]),
        ),
    decreases plus.len(),
{
    let target = sum_rows(plus[i], minus[find_row(minus, plus[i].raw_mod_code, Strand::Negative)]);
    let rest = absorbed_rows(plus.drop_last(), minus);
    let all = absorbed_rows(plus, minus);
    if i == plus.len() - 1 {
        assert(all[all.len() - 1] == target);
    } else {
        assert(plus.drop_last()[i] == plus[i]);
        lemma_absorbed_contains(plus.drop_last(), minus, i);
        let k = choose|k: int| 0 <= k < rest.len() && rest[k] == target;
        assert(all[k] == rest[k]);
    }
}

/// Positions with their rows, as plain sequences.
pub open spec fn entries_view(e: Seq<(u32, Vec<PileupFeatureCounts>)>) -> Seq<(u32, Seq<PileupFeatureCounts>)> {
    e.map_values(|x: (u32, Vec<PileupFeatureCounts>)| (x.0, x.1@))
}

/// What the `j`-th entry contributes under strand combination: a positive
/// motif position combines its rows with those of the next entry where that
/// is the next base; a negative one not absorbed so is reported one base
/// before; empty results are dropped.
pub open spec fn combined_entry(
    ev: Seq<(u32, Seq<PileupFeatureCounts>)>,
    locs: Seq<(u32, Strand)>,
    j: int,
) -> Seq<(u32, Seq<PileupFeatureCounts>)> {
    let (pos, rows) = ev[j];
    match motif_strand_at(locs, pos) {
        Some(Strand::Positive) => {
            let combined = if j + 1 < ev.len() && pos < u32::MAX && ev[j + 1].0 == pos + 1 {
                combine_rows_spec(rows, ev[j + 1].1)
            } else {
                combine_rows_spec(rows, Seq::empty())
            };
            if combined.len() > 0 { seq![(pos, combined)] } else { Seq::empty() }
        },
        Some(Strand::Negative) => {
            let absorbed = j > 0 && pos > 0 && ev[j - 1].0 == pos - 1 && motif_strand_at(
                locs,
                (pos - 1) as u32,
            ) == Some(Strand::Positive);
            let combined = combine_rows_spec(Seq::empty(), rows);
            if !absorbed && pos > 0 && combined.len() > 0 {
                seq![((pos - 1) as u32, combined)]
            } else {
                Seq::empty()
            }
        },
        None => Seq::empty(),
    }
}

/// The entries of the first `k` positions under strand combination.
pub open spec fn combine_entries_spec(
    ev: Seq<(u32, Seq<PileupFeatureCounts>)>,
    locs: Seq<(u32, Strand)>,
    k: int,
) -> Seq<(u32, Seq<PileupFeatureCounts>)>
    decreases k,
{
    if k <= 0 {
        Seq::empty()
    } else {
        combine_entries_spec(ev, locs, k - 1) + combined_entry(ev, locs, k - 1)
    }
}

/// Positions strictly ascending.
pub open spec fn keys_ascending(ev: Seq<(u32, Seq<PileupFeatureCounts>)>) -> bool {
    forall|a: int, b: int| 0 <= a < b < ev.len() ==> ev[a].0 < ev[b].0
}

/// The entries whose positions lie in `[start, end)`, in order.
pub open spec fn within_spec(ev: Seq<(u32, Seq<PileupFeatureCounts>)>, start: u32, end: u32) -> Seq<(u32, Seq<PileupFeatureCounts>)>
    decreases ev.len(),
{
    if ev.len() == 0 {
        Seq::empty()
    } else {
        within_spec(ev.drop_last(), start, end) + if start <= ev.last().0 < end {
            seq![ev.last()]
        } else {
            Seq::empty()
        }
    }
}

proof fn lemma_within(ev: Seq<(u32, Seq<PileupFeatureCounts>)>, start: u32, end: u32)
    requires
        keys_ascending(ev),
    ensures
        keys_ascending(within_spec(ev, start, end)),
        forall|i: int| 0 <= i < within_spec(ev, start, end).len() ==> start <= (#[trigger] within_spec(ev, start, end)[i]).0 < end,
        forall|i: int| 0 <= i < within_spec(ev, start, end).len() ==> ev.contains(#[trigger] within_spec(ev, start, end)[i]),
    decreases ev.len(),
{
    if ev.len() > 0 {
        let d = ev.drop_last();
        assert(keys_ascending(d)) by {
            assert forall|a: int, b: int| 0 <= a < b < d.len() implies d[a].0 < d[b].0 by {
                assert(d[a] == ev[a] && d[b] == ev[b]);
            }
        }
        lemma_within(d, start, end);
        let w = within_spec(d, start, end);
        let all = within_spec(ev, start, end);
        assert forall|i: int| 0 <= i < all.len() implies ev.contains(#[trigger] all[i]) by {
            if i < w.len() {
                assert(all[i] == w[i]);
                let j = choose|j: int| 0 <= j < d.len() && d[j] == w[i];
                assert(ev[j] == d[j]);
            } else {
                assert(all[i] == ev[ev.len() - 1]);
            }
        }
        assert forall|i: int| 0 <= i < all.len() implies start <= (#[trigger] all[i]).0 < end by {
            if i < w.len() {
                assert(all[i] == w[i]);
            }
        }
        assert forall|a: int, b: int| 0 <= a < b < all.len() implies all[a].0 < all[b].0 by {
            if b < w.len() {
                assert(all[a] == w[a] && all[b] == w[b]);
            } else {
                assert(all[a] == w[a]);
                assert(ev.contains(w[a]));
                let j = choose|j: int| 0 <= j < d.len() && d[j] == w[a];
                assert(ev[j] == d[j]);
                assert(all[b] == ev[ev.len() - 1]);
            }
        }
    }
}

/// Strand combination keeps positions strictly ascending: a negative
/// position reported one base before itself never meets the positive
/// position it would collide with, since that one absorbs it.
proof fn lemma_combine_ascending(ev: Seq<(u32, Seq<PileupFeatureCounts>)>, locs: Seq<(u32, Strand)>, k: int)
    requires
        keys_ascending(ev),
        0 <= k <= ev.len(),
    ensures
        keys_ascending(combine_entries_spec(ev, locs, k)),
        k > 0 ==> forall|i: int|
            0 <= i < combine_entries_spec(ev, locs, k).len() ==> (#[trigger] combine_entries_spec(ev, locs, k)[i]).0
                <= ev[k - 1].0 && (combine_entries_spec(ev, locs, k)[i].0 == ev[k - 1].0 ==> motif_strand_at(
                locs,
                ev[k - 1].0,
            ) == Some(Strand::Positive)),
    decreases k,
{
    if k > 0 {
        lemma_combine_ascending(ev, locs, k - 1);
        let prev = combine_entries_spec(ev, locs, k - 1);
        let add = combined_entry(ev, locs, k - 1);
        let all = combine_entries_spec(ev, locs, k);
        assert(all == prev + add);
        let pos = ev[k - 1].0;
        if k > 1 {
            assert(ev[k - 2].0 < pos);
        }
        assert(add.len() <= 1);
        if add.len() == 1 {
            let key = add[0].0;
            assert(key <= pos);
            assert(key == pos ==> motif_strand_at(locs, pos) == Some(Strand::Positive));
            assert(key >= pos - 1);
            assert forall|i: int| 0 <= i < prev.len() implies prev[i].0 < key by {
                let pk = prev[i].0;
                assert(k > 1);
                assert(pk <= ev[k - 2].0);
                if pk >= key {
                    assert(key < pos);
                    assert(motif_strand_at(locs, pos) == Some(Strand::Negative));
                    assert(key == pos - 1);
                    assert(pk == ev[k - 2].0);
                    assert(motif_strand_at(locs, ev[k - 2].0) == Some(Strand::Positive));
                    assert((pos - 1) as u32 == ev[k - 2].0);
                    assert(false);
                }
            }
        }
        assert forall|a: int, b: int| 0 <= a < b < all.len() implies all[a].0 < all[b].0 by {
            if b < prev.len() {
                assert(all[a] == prev[a] && all[b] == prev[b]);
            } else {
                assert(all[a] == prev[a]);
                assert(all[b] == add[0]);
            }
        }
        assert forall|i: int| 0 <= i < all.len() implies (#[trigger] all[i]).0 <= pos && (all[i].0 == pos
            ==> motif_strand_at(locs, pos) == Some(Strand::Positive)) by {
            if i < prev.len() {
                assert(all[i] == prev[i]);
                if k > 1 {
                    assert(prev[i].0 <= ev[k - 2].0);
                }
            } else {
                assert(all[i] == add[0]);
            }
        }
    }
}

/// Keeps the entries whose positions lie in `[start, end)`.
fn keep_within(entries: Vec<(u32, Vec<PileupFeatureCounts>)>, start: u32, end: u32) -> (r: Vec<(u32, Vec<PileupFeatureCounts>)>)
    ensures
        entries_view(r@) == within_spec(entries_view(entries@), start, end),
        forall|i: int| 0 <= i < r@.len() ==> entries@.contains(#[trigger] r@[i]),
{
    let ghost ev = entries_view(entries@);
    let ghost orig = entries@;
    let mut rest = entries;
    let mut out: Vec<(u32, Vec<PileupFeatureCounts>)> = Vec::new();
    let n = rest.len();
    let mut i: usize = 0;
    while rest.len() > 0
        invariant
            n == orig.len(),
            ev == entries_view(orig),
            i + rest@.len() == orig.len(),
            rest@ == orig.subrange(i as int, orig.len() as int),
            entries_view(out@) == within_spec(ev.subrange(0, i as int), start, end),
            forall|x: int| 0 <= x < out@.len() ==> orig.contains(#[trigger] out@[x]),
        decreases rest@.len(),
    {
        let e = rest.remove(0);
        proof {
            assert(orig[i as int] == e);
            assert(rest@ =~= orig.subrange(i as int + 1, orig.len() as int));
            assert(ev.subrange(0, i as int + 1).drop_last() =~= ev.subrange(0, i as int));
            assert(ev.subrange(0, i as int + 1).last() == (e.0, e.1@));
        }
        let ghost before = out@;
        if start <= e.0 && e.0 < end {
            out.push(e);
            proof {
                assert(entries_view(out@) =~= entries_view(before).push((e.0, e.1@)));
                assert forall|x: int| 0 <= x < out@.len() implies orig.contains(#[trigger] out@[x]) by {
                    if x < before.len() {
                        assert(out@[x] == before[x]);
                    } else {
                        assert(out@[x] == orig[i as int]);
                    }
                }
            }
        }
        proof {
            assert(entries_view(out@) =~= within_spec(ev.subrange(0, i as int + 1), start, end));
        }
        i = i + 1;
    }
    proof {
        assert(ev.subrange(0, i as int) =~= ev);
    }
    out
}

/// Folds each negative motif position into the positive position one base
/// before it. `entries` are positions with their rows, ascending; a
/// positive position absorbs the rows of the next entry where that is the
/// next base; a negative position whose partner has no entry is reported at
/// the partner's position.
pub fn combine_strands_in_entries(
    entries: &Vec<(u32, Vec<PileupFeatureCounts>)>,
    motif_locations: &Vec<(u32, Strand)>,
) -> (r: Vec<(u32, Vec<PileupFeatureCounts>)>)
    requires
        forall|k: int| 0 <= k < entries@.len() ==> rows_bounded((#[trigger] entries@[k]).1@),
    ensures
        forall|k: int|
            0 <= k < r@.len() ==> forall|i: int|
                0 <= i < (#[trigger] r@[k]).1@.len() ==> r@[k].1@[i].strand == Strand::Positive,
        (forall|k: int| 0 <= k < entries@.len() ==> rows_cover((#[trigger] entries@[k]).1@))
            ==> forall|k: int| 0 <= k < r@.len() ==> rows_cover((#[trigger] r@[k]).1@),
        entries_view(r@) == combine_entries_spec(entries_view(entries@), motif_locations@, entries@.len() as int),
{
    let ghost ev = entries_view(entries@);
    let mut out: Vec<(u32, Vec<PileupFeatureCounts>)> = Vec::new();
    let empty: Vec<PileupFeatureCounts> = Vec::new();
    let ghost all_cover = forall|k: int| 0 <= k < entries@.len() ==> rows_cover((#[trigger] entries@[k]).1@);
    let mut k: usize = 0;
    while k < entries.len()
        invariant
            k <= entries@.len(),
            empty@.len() == 0,
            forall|j: int| 0 <= j < entries@.len() ==> rows_bounded((#[trigger] entries@[j]).1@),
            all_cover == forall|j: int| 0 <= j < entries@.len() ==> rows_cover((#[trigger] entries@[j]).1@),
            forall|j: int|
                0 <= j < out@.len() ==> forall|i: int|
                    0 <= i < (#[trigger] out@[j]).1@.len() ==> out@[j].1@[i].strand == Strand::Positive,
            all_cover ==> forall|j: int| 0 <= j < out@.len() ==> rows_cover((#[trigger] out@[j]).1@),
            ev == entries_view(entries@),
            entries_view(out@) == combine_entries_spec(ev, motif_locations@, k as int),
        decreases entries@.len() - k,
    {
        let pos = entries[k].0;
        let rows = &entries[k].1;
        let ghost before = out@;
        proof {
            assert(ev[k as int] == (pos, rows@));
            if k + 1 < entries@.len() {
                assert(ev[k + 1] == (entries@[k + 1].0, entries@[k + 1].1@));
            }
            if k > 0 {
                assert(ev[k - 1] == (entries@[k - 1].0, entries@[k - 1].1@));
            }
        }
        proof {
            assert(rows_bounded(entries@[k as int].1@));
            if all_cover {
                assert(rows_cover(entries@[k as int].1@));
            }
        }
        match motif_strand(motif_locations, pos) {
            Some(Strand::Positive) => {
                let combined = if k + 1 < entries.len() && pos < u32::MAX && entries[k + 1].0 == pos + 1 {
                    proof {
                        assert(rows_bounded(entries@[k + 1].1@));
                        if all_cover {
                            assert(rows_cover(entries@[k + 1].1@));
                        }
                    }
                    combine_strand_rows(rows, &entries[k + 1].1)
                } else {
                    proof {
                        assert(empty@ =~= Seq::<PileupFeatureCounts>::empty());
                    }
                    combine_strand_rows(rows, &empty)
                };
                let ghost cv = combined@;
                proof {
                    assert(motif_strand_at(motif_locations@, pos) == Some(Strand::Positive));
                    if k + 1 < entries@.len() && pos < u32::MAX && entries@[k + 1].0 == pos + 1 {
                        assert(cv == combine_rows_spec(rows@, ev[k + 1].1));
                    } else {
                        assert(cv == combine_rows_spec(rows@, Seq::empty()));
                    }
                }
                if combined.len() > 0 {
                    out.push((pos, combined));
                    proof {
                        assert(combined_entry(ev, motif_locations@, k as int) == seq![(pos, cv)]);
                    }
                } else {
                    proof {
                        assert(combined_entry(ev, motif_locations@, k as int) =~= Seq::empty());
                    }
                }
            },
            Some(Strand::Negative) => {
                let absorbed = k > 0 && pos > 0 && entries[k - 1].0 == pos - 1 && motif_strand(
                    motif_locations,
                    pos - 1,
                ) == Some(Strand::Positive);
                proof {
                    assert(empty@ =~= Seq::<PileupFeatureCounts>::empty());
                    assert(motif_strand_at(motif_locations@, pos) == Some(Strand::Negative));
                }
                if !absorbed && pos > 0 {
                    let combined = combine_strand_rows(&empty, rows);
                    let ghost cv = combined@;
                    if combined.len() > 0 {
                        out.push((pos - 1, combined));
                        proof {
                            assert(combined_entry(ev, motif_locations@, k as int) == seq![((pos - 1) as u32, cv)]);
                        }
                    } else {
                        proof {
                            assert(combined_entry(ev, motif_locations@, k as int) =~= Seq::empty());
                        }
                    }
                } else {
                    proof {
                        assert(combined_entry(ev, motif_locations@, k as int) =~= Seq::empty());
                    }
                }
            },
            None => {
                proof {
                    assert(combined_entry(ev, motif_locations@, k as int) =~= Seq::empty());
                }
            },
        }
        proof {
            assert(entries_view(out@) =~= entries_view(before) + combined_entry(ev, motif_locations@, k as int));
        }
        k = k + 1;
    }
    out
}

/// One alignment over a pileup column.
#[derive(Debug, Clone, Copy)]
pub struct PileupAlignment {
    /// The index of the alignment's record in the region's record list.
    pub record: usize,
    pub is_del: bool,
    pub is_refskip: bool,
    /// The position in the stored sequence aligned to the column.
    pub qpos: Option<usize>,
}

/// The alignments over one reference position.
pub struct PileupColumn {
    pub pos: u32,
    pub alignments: Vec<PileupAlignment>,
}

/// The rows of one processed interval, by reference position.
pub struct ModBasePileup {
    pub chrom_name: String,
    /// Positions in the order the columns came, each with its non-empty rows.
    pub position_feature_counts: Vec<(u32, Vec<PileupFeatureCounts>)>,
}

impl ModBasePileup {
    /// Positions strictly ascending, so each position has one entry.
    pub open spec fn wf(&self) -> bool {
        forall|a: int, b: int|
            0 <= a < b < self.position_feature_counts@.len() ==> self.position_feature_counts@[a].0
                < self.position_feature_counts@[b].0
    }

    pub fn num_results(&self) -> (r: usize)
        ensures
            r == self.position_feature_counts@.len(),
    {
        self.position_feature_counts.len()
    }

    /// The positions and their rows, in strictly ascending position order.
    pub fn iter_counts(&self) -> (r: Vec<(u32, Vec<PileupFeatureCounts>)>)
        requires
            self.wf(),
        ensures
            entries_view(r@) == entries_view(self.position_feature_counts@),
            forall|a: int, b: int| 0 <= a < b < r@.len() ==> r@[a].0 < r@[b].0,
    {
        let mut copy: Vec<(u32, Vec<PileupFeatureCounts>)> = Vec::new();
        let mut k: usize = 0;
        while k < self.position_feature_counts.len()
            invariant
                k <= self.position_feature_counts@.len(),
                entries_view(copy@) == entries_view(self.position_feature_counts@.subrange(0, k as int)),
            decreases self.position_feature_counts@.len() - k,
        {
            let rows = &self.position_feature_counts[k].1;
            let mut cloned: Vec<PileupFeatureCounts> = Vec::new();
            let mut i: usize = 0;
            while i < rows.len()
                invariant
                    i <= rows@.len(),
                    cloned@ == rows@.subrange(0, i as int),
                decreases rows@.len() - i,
            {
                cloned.push(rows[i]);
                proof {
                    assert(cloned@ =~= rows@.subrange(0, i as int + 1));
                }
                i = i + 1;
            }
            proof {
                assert(rows@.subrange(0, i as int) =~= rows@);
            }
            let ghost before = copy@;
            copy.push((self.position_feature_counts[k].0, cloned));
            proof {
                assert(entries_view(copy@) =~= entries_view(before).push((self.position_feature_counts@[k as int].0, rows@)));
                assert(entries_view(self.position_feature_counts@.subrange(0, k as int + 1)) =~= entries_view(
                    self.position_feature_counts@.subrange(0, k as int),
                ).push((self.position_feature_counts@[k as int].0, rows@)));
            }
            k = k + 1;
        }
        proof {
            assert(self.position_feature_counts@.subrange(0, k as int) =~= self.position_feature_counts@);
        }
        proof {
            assert(entries_view(copy@) =~= entries_view(self.position_feature_counts@));
            assert forall|a: int, b: int| 0 <= a < b < copy@.len() implies copy@[a].0 < copy@[b].0 by {
                assert(entries_view(copy@)[a].0 == copy@[a].0);
                assert(entries_view(copy@)[b].0 == copy@[b].0);
                assert(entries_view(self.position_feature_counts@)[a].0 == self.position_feature_counts@[a].0);
                assert(entries_view(self.position_feature_counts@)[b].0 == self.position_feature_counts@[b].0);
            }
        }
        copy
    }
}

/// The columns come in strictly ascending reference order.
pub open spec fn columns_ascending(columns: Seq<PileupColumn>) -> bool {
    forall|a: int, b: int| 0 <= a < b < columns.len() ==> columns[a].pos < columns[b].pos
}

/// The end of the columns an interval tallies: one past its end when strands
/// are combined, so a positive motif position at the last base can take in
/// the negative one just after it.
pub open spec fn scan_end(start: u32, end: u32, combining: bool) -> u32 {
    if combining && end < u32::MAX {
        (end + 1) as u32
    } else {
        end
    }
}

/// The first strand the motif list gives for a position.
pub open spec fn motif_strand_at(locations: Seq<(u32, Strand)>, pos: u32) -> Option<Strand>
    decreases locations.len(),
{
    if locations.len() == 0 {
        None
    } else if motif_strand_at(locations.drop_last(), pos) is Some {
        motif_strand_at(locations.drop_last(), pos)
    } else if locations.last().0 == pos {
        Some(locations.last().1)
    } else {
        None
    }
}

/// The strand rule of a column, or none where the column is not processed:
/// outside `[start, end)`, or off the motif positions where these are given.
pub open spec fn column_rule(pos: u32, start: u32, end: u32, motifs: Option<Seq<(u32, Strand)>>) -> Option<StrandRule> {
    if pos < start || pos >= end {
        None
    } else {
        match motifs {
            None => Some(StrandRule::Both),
            Some(locs) => match motif_strand_at(locs, pos) {
                None => None,
                Some(Strand::Positive) => Some(StrandRule::Positive),
                Some(Strand::Negative) => Some(StrandRule::Negative),
            },
        }
    }
}

pub fn motif_strand(locations: &Vec<(u32, Strand)>, pos: u32) -> (r: Option<Strand>)
    ensures
        r == motif_strand_at(locations@, pos),
{
    let mut i: usize = 0;
    while i < locations.len()
        invariant
            i <= locations@.len(),
            motif_strand_at(locations@.subrange(0, i as int), pos) is None,
        decreases locations@.len() - i,
    {
        proof {
            assert(locations@.subrange(0, i as int + 1).drop_last() =~= locations@.subrange(0, i as int));
        }
        if locations[i].0 == pos {
            proof {
                lemma_motif_strand_prefix(locations@, pos, i as int);
            }
            return Some(locations[i].1);
        }
        i = i + 1;
    }
    proof {
        assert(locations@.subrange(0, i as int) =~= locations@);
    }
    None
}

proof fn lemma_motif_strand_prefix(locs: Seq<(u32, Strand)>, pos: u32, i: int)
    requires
        0 <= i < locs.len(),
        locs[i].0 == pos,
        motif_strand_at(locs.subrange(0, i), pos) is None,
    ensures
        motif_strand_at(locs, pos) == Some(locs[i].1),
    decreases locs.len(),
{
    if i == locs.len() - 1 {
        assert(locs.drop_last() =~= locs.subrange(0, i));
    } else {
        assert(locs.drop_last().subrange(0, i) =~= locs.subrange(0, i));
        lemma_motif_strand_prefix(locs.drop_last(), pos, i);
    }
}

pub fn get_column_rule(pos: u32, start: u32, end: u32, motifs: Option<&Vec<(u32, Strand)>>) -> (r: Option<StrandRule>)
    ensures
        r == column_rule(pos, start, end, match motifs {
            Some(m) => Some(m@),
            None => None,
        }),
{
    if pos < start || pos >= end {
        return None;
    }
    match motifs {
        None => Some(StrandRule::Both),
        Some(locs) => match motif_strand(locs, pos) {
            None => None,
            Some(Strand::Positive) => Some(StrandRule::Positive),
            Some(Strand::Negative) => Some(StrandRule::Negative),
        },
    }
}

pub fn extend_codes(out: &mut Vec<ModCode>, codes: &Vec<ModCode>)
    ensures
        final(out)@ == old(out)@ + codes@,
{
    let mut c: usize = 0;
    while c < codes.len()
        invariant
            c <= codes@.len(),
            out@ == old(out)@ + codes@.subrange(0, c as int),
        decreases codes@.len() - c,
    {
        out.push(codes[c]);
        proof {
            assert(out@ =~= old(out)@ + codes@.subrange(0, c as int + 1));
        }
        c = c + 1;
    }
    proof {
        assert(codes@.subrange(0, c as int) =~= codes@);
    }
}

/// The collapse method a pileup applies to calls.
pub open spec fn method_of(options: PileupNumericOptions) -> Option<CollapseMethod> {
    match options {
        PileupNumericOptions::Collapse(m) => Some(m),
        _ => None,
    }
}

/// Two optional methods do the same: equal kinds, codes and code lists.
pub open spec fn same_method(a: Option<CollapseMethod>, b: Option<CollapseMethod>) -> bool {
    match (a, b) {
        (None, None) => true,
        (Some(CollapseMethod::ReDistribute(x)), Some(CollapseMethod::ReDistribute(y))) => x == y,
        (Some(CollapseMethod::ReNormalize(x)), Some(CollapseMethod::ReNormalize(y))) => x == y,
        (Some(CollapseMethod::Convert { to: t1, from: f1 }), Some(CollapseMethod::Convert { to: t2, from: f2 })) => t1
            == t2 && f1@ == f2@,
        _ => false,
    }
}

pub fn clone_method(m: &CollapseMethod) -> (r: CollapseMethod)
    ensures
        same_method(Some(r), Some(*m)),
{
    match m {
        CollapseMethod::ReDistribute(c) => CollapseMethod::ReDistribute(*c),
        CollapseMethod::ReNormalize(c) => CollapseMethod::ReNormalize(*c),
        CollapseMethod::Convert { to, from } => CollapseMethod::Convert { to: *to, from: clone_codes(from) },
    }
}

/// The record an alignment counts for: in range, primary, with bases, and
/// not a reference skip.
pub open spec fn counted_record(records: Seq<ModRecord>, a: PileupAlignment) -> bool {
    &&& !a.is_refskip
    &&& a.record < records.len()
    &&& !records[a.record as int].is_secondary
    &&& records[a.record as int].seq@.len() > 0
}

pub open spec fn alignment_strand_of(rec: ModRecord) -> Strand {
    if rec.is_reverse {
        Strand::Negative
    } else {
        Strand::Positive
    }
}

/// The forward-oriented base an alignment shows at a column, if it is one
/// of A, C, G, T.
pub open spec fn read_base_at(rec: ModRecord, a: PileupAlignment) -> Option<DnaBase> {
    match a.qpos {
        Some(q) => if q < rec.seq@.len() {
            match base_of_byte(rec.seq@[q as int]) {
                Some(b) => Some(if rec.is_reverse { base_complement(b) } else { b }),
                None => None,
            }
        } else {
            None
        },
        None => None,
    }
}

/// What an alignment contributes to a column, given the cache of parsed
/// reads: the calls of its read there, or none where the read is skipped.
pub open spec fn alignment_obs(
    cache: ReadCache,
    records: Seq<ModRecord>,
    a: PileupAlignment,
    pos: u32,
    threshold: u64,
) -> Option<AlignmentObservation> {
    if !counted_record(records, a) {
        None
    } else {
        let rec = records[a.record as int];
        let strand = alignment_strand_of(rec);
        if a.is_del {
            Some(AlignmentObservation::Deleted { alignment_strand: strand })
        } else {
            match read_base_at(rec, a) {
                None => None,
                Some(b) => {
                    let calls = if cache.skipped(rec.name@) {
                        (None, None)
                    } else {
                        let c = cache.reads@[find_read(cache.reads@, rec.name@)];
                        (
                            lookup_spec(info_view(c.groups@), c.aligned_pairs@, b, Strand::Positive, pos as u64, cache.collapse_method, threshold),
                            lookup_spec(info_view(c.groups@), c.aligned_pairs@, base_complement(b), Strand::Negative, pos as u64, cache.collapse_method, threshold),
                        )
                    };
                    Some(AlignmentObservation::Base { alignment_strand: strand, read_base: b, pos_call: calls.0, neg_call: calls.1 })
                },
            }
        }
    }
}

/// The codes an alignment's read reports on reference strand `want`.
pub open spec fn alignment_codes(cache: ReadCache, records: Seq<ModRecord>, a: PileupAlignment, want: Strand) -> Seq<ModCode> {
    if !counted_record(records, a) {
        Seq::empty()
    } else {
        let rec = records[a.record as int];
        let i = find_read(cache.reads@, rec.name@);
        if i < 0 || cache.skipped(rec.name@) {
            Seq::empty()
        } else {
            let gs = info_view(cache.reads@[i].groups@);
            let mod_strand = if alignment_strand_of(rec) == want { Strand::Positive } else { Strand::Negative };
            observed_codes(gs, mod_strand, cache.collapse_method)
        }
    }
}

pub open spec fn column_obs(cache: ReadCache, records: Seq<ModRecord>, als: Seq<PileupAlignment>, pos: u32, threshold: u64) -> Seq<AlignmentObservation>
    decreases als.len(),
{
    if als.len() == 0 {
        Seq::empty()
    } else {
        column_obs(cache, records, als.drop_last(), pos, threshold) + match alignment_obs(cache, records, als.last(), pos, threshold) {
            Some(o) => seq![o],
            None => Seq::empty(),
        }
    }
}

pub open spec fn column_codes(cache: ReadCache, records: Seq<ModRecord>, als: Seq<PileupAlignment>, want: Strand) -> Seq<ModCode>
    decreases als.len(),
{
    if als.len() == 0 {
        Seq::empty()
    } else {
        column_codes(cache, records, als.drop_last(), want) + alignment_codes(cache, records, als.last(), want)
    }
}

/// The rows of one column, given its strand rule.
pub open spec fn column_rows(cache: ReadCache, records: Seq<ModRecord>, c: PileupColumn, rule: StrandRule, threshold: u64, options: PileupNumericOptions) -> Seq<PileupFeatureCounts> {
    let als = c.alignments@;
    decode_spec(
        column_fv(column_obs(cache, records, als, c.pos, threshold), rule),
        column_codes(cache, records, als, Strand::Positive),
        column_codes(cache, records, als, Strand::Negative),
        options,
    )
}

/// The processed columns among the first `n`, in order, each with its
/// non-empty rows.
pub open spec fn region_spec(
    cache: ReadCache,
    records: Seq<ModRecord>,
    columns: Seq<PileupColumn>,
    start: u32,
    end: u32,
    threshold: u64,
    options: PileupNumericOptions,
    motifs: Option<Seq<(u32, Strand)>>,
    n: int,
) -> Seq<(u32, Seq<PileupFeatureCounts>)>
    decreases n,
{
    if n <= 0 {
        Seq::empty()
    } else {
        let c = columns[n - 1];
        region_spec(cache, records, columns, start, end, threshold, options, motifs, n - 1) + match column_rule(c.pos, start, end, motifs) {
            None => Seq::empty(),
            Some(rule) => {
                let rows = column_rows(cache, records, c, rule, threshold, options);
                if rows.len() > 0 { seq![(c.pos, rows)] } else { Seq::empty() }
            },
        }
    }
}

/// The cache holds every counted record of the region: each primary record
/// with bases is either cached or skipped; a cached read is the parse of a
/// record of its name; a skipped name belongs to a record whose tags are
/// unusable.
pub open spec fn cache_covers(cache: ReadCache, records: Seq<ModRecord>, force_allow: bool, method: Option<CollapseMethod>) -> bool {
    &&& cache.wf()
    &&& cache.force_allow == force_allow
    &&& same_method(cache.collapse_method, method)
    &&& forall|j: int|
        0 <= j < records.len() && !records[j].is_secondary && records[j].seq@.len() > 0 ==> cache.skipped(
            (#[trigger] records[j]).name@,
        ) || find_read(cache.reads@, records[j].name@) >= 0
    &&& forall|i: int|
        0 <= i < cache.reads@.len() ==> exists|j: int|
            0 <= j < records.len() && #[trigger] records[j].name@ == (#[trigger] cache.reads@[i]).name@
                && cache.reads@[i].aligned_pairs@ == records[j].aligned_pairs@ && records[j].mm is Some
                && cached_from(info_view(cache.reads@[i].groups@), &records[j], cache.keep_view())
    &&& forall|n: Seq<u8>|
        #[trigger] cache.skipped(n) ==> exists|j: int|
            0 <= j < records.len() && #[trigger] records[j].name@ == n && unusable(force_allow, &records[j])
}

proof fn lemma_find_read_extend(old_reads: Seq<CachedRead>, new_reads: Seq<CachedRead>, name: Seq<u8>)
    requires
        find_read(old_reads, name) >= 0,
        old_reads.len() <= new_reads.len(),
        forall|i: int| 0 <= i < old_reads.len() ==> new_reads[i] == old_reads[i],
    ensures
        find_read(new_reads, name) == find_read(old_reads, name),
    decreases new_reads.len(),
{
    if new_reads.len() == old_reads.len() {
        assert(new_reads =~= old_reads);
    } else {
        let d = new_reads.drop_last();
        assert forall|i: int| 0 <= i < old_reads.len() implies d[i] == old_reads[i] by {}
        lemma_find_read_extend(old_reads, d, name);
    }
}

/// Parses the tags of every primary record with bases, in order, once per
/// read name.
fn fill_cache(cache: &mut ReadCache, records: &Vec<ModRecord>, method: Ghost<Option<CollapseMethod>>)
    requires
        same_method(old(cache).collapse_method, method@),
        old(cache).wf(),
        old(cache).reads@.len() == 0,
        old(cache).skip_set@.len() == 0,
    ensures
        cache_covers(*final(cache), records@, old(cache).force_allow, method@),
        same_method(final(cache).collapse_method, old(cache).collapse_method),
{
    let ghost fa = cache.force_allow;
    let ghost m = cache.collapse_method;
    let mut j: usize = 0;
    while j < records.len()
        invariant
            j <= records@.len(),
            cache.wf(),
            cache.force_allow == fa,
            cache.collapse_method == m,
            cache.restrict_mod_bases == old(cache).restrict_mod_bases,
            forall|k: int|
                0 <= k < j && !records@[k].is_secondary && records@[k].seq@.len() > 0 ==> cache.skipped(
                    (#[trigger] records@[k]).name@,
                ) || find_read(cache.reads@, records@[k].name@) >= 0,
            forall|i: int|
                0 <= i < cache.reads@.len() ==> exists|k: int|
                    0 <= k < records@.len() && #[trigger] records@[k].name@ == (#[trigger] cache.reads@[i]).name@
                        && cache.reads@[i].aligned_pairs@ == records@[k].aligned_pairs@ && records@[k].mm is Some
                        && cached_from(info_view(cache.reads@[i].groups@), &records@[k], cache.keep_view()),
            forall|n: Seq<u8>|
                #[trigger] cache.skipped(n) ==> exists|k: int|
                    0 <= k < records@.len() && #[trigger] records@[k].name@ == n && unusable(fa, &records@[k]),
        decreases records@.len() - j,
    {
        let rec = &records[j];
        if !rec.is_secondary && rec.seq.len() > 0 {
            let ghost before = *cache;
            cache.ensure_record(rec);
            proof {
                assert forall|k: int|
                    0 <= k < j + 1 && !records@[k].is_secondary && records@[k].seq@.len() > 0 implies cache.skipped(
                        (#[trigger] records@[k]).name@,
                    ) || find_read(cache.reads@, records@[k].name@) >= 0 by {
                    if k < j {
                        if before.skipped(records@[k].name@) {
                        } else {
                            lemma_find_read_extend(before.reads@, cache.reads@, records@[k].name@);
                        }
                    } else {
                        assert(records@[k] == *rec);
                    }
                }
                assert forall|i: int| 0 <= i < cache.reads@.len() implies exists|k: int|
                    0 <= k < records@.len() && #[trigger] records@[k].name@ == (#[trigger] cache.reads@[i]).name@
                        && cache.reads@[i].aligned_pairs@ == records@[k].aligned_pairs@ && records@[k].mm is Some
                        && cached_from(info_view(cache.reads@[i].groups@), &records@[k], cache.keep_view()) by {
                    if i < before.reads@.len() {
                        assert(cache.reads@[i] == before.reads@[i]);
                        let k = choose|k: int|
                            0 <= k < records@.len() && #[trigger] records@[k].name@ == (#[trigger] before.reads@[i]).name@
                                && before.reads@[i].aligned_pairs@ == records@[k].aligned_pairs@ && records@[k].mm is Some
                                && cached_from(info_view(before.reads@[i].groups@), &records@[k], before.keep_view());
                        assert(records@[k].name@ == cache.reads@[i].name@);
                    } else {
                        assert(records@[j as int] == *rec);
                        assert(records@[j as int].name@ == cache.reads@[i].name@);
                    }
                }
                assert forall|n: Seq<u8>| #[trigger] cache.skipped(n) implies exists|k: int|
                    0 <= k < records@.len() && #[trigger] records@[k].name@ == n && unusable(fa, &records@[k]) by {
                    if before.skipped(n) {
                    } else {
                        assert(records@[j as int] == *rec);
                        assert(unusable(fa, &records@[j as int]));
                    }
                }
            }
        }
        j = j + 1;
    }
}

/// The observations of a column's alignments and the codes their reads
/// report on each reference strand, from a cache that already holds every
/// counted record.
fn gather_column(
    read_cache: &mut ReadCache,
    records: &Vec<ModRecord>,
    column: &PileupColumn,
    threshold: u64,
) -> (r: (Vec<AlignmentObservation>, Vec<ModCode>, Vec<ModCode>))
    requires
        exists|m: Option<CollapseMethod>| cache_covers(*old(read_cache), records@, old(read_cache).force_allow, m),
        column.alignments@.len() < 0x3fff_ffff,
    ensures
        *final(read_cache) == *old(read_cache),
        r.0@.len() < 0x3fff_ffff,
        r.0@ == column_obs(*old(read_cache), records@, column.alignments@, column.pos, threshold),
        r.1@ == column_codes(*old(read_cache), records@, column.alignments@, Strand::Positive),
        r.2@ == column_codes(*old(read_cache), records@, column.alignments@, Strand::Negative),
{
    let ghost cache0 = *read_cache;
    let pos = column.pos;
    let ghost als = column.alignments@;
    let mut observations: Vec<AlignmentObservation> = Vec::new();
    let mut pos_observed: Vec<ModCode> = Vec::new();
    let mut neg_observed: Vec<ModCode> = Vec::new();
    let mut a: usize = 0;
    while a < column.alignments.len()
        invariant
            a <= column.alignments@.len(),
            als == column.alignments@,
            *read_cache == cache0,
            exists|m: Option<CollapseMethod>| cache_covers(cache0, records@, cache0.force_allow, m),
            column.alignments@.len() < 0x3fff_ffff,
            observations@.len() <= a,
            observations@ == column_obs(cache0, records@, als.subrange(0, a as int), pos, threshold),
            pos_observed@ == column_codes(cache0, records@, als.subrange(0, a as int), Strand::Positive),
            neg_observed@ == column_codes(cache0, records@, als.subrange(0, a as int), Strand::Negative),
        decreases column.alignments@.len() - a,
    {
        let alignment = column.alignments[a];
        let ghost pre = als.subrange(0, a as int);
        let ghost pre1 = als.subrange(0, a as int + 1);
        proof {
            assert(pre1.drop_last() =~= pre);
            assert(pre1.last() == alignment);
        }
        a = a + 1;
        if alignment.is_refskip || alignment.record >= records.len() {
            continue;
        }
        let record = &records[alignment.record];
        if record.is_secondary || record.seq.len() == 0 {
            continue;
        }
        proof {
            assert(records@[alignment.record as int] == *record);
            assert(counted_record(records@, alignment));
        }
        let alignment_strand = if record.is_reverse {
            Strand::Negative
        } else {
            Strand::Positive
        };
        if let Some(i) = read_cache.find(&record.name) {
            if !read_cache.is_skipped(&record.name) {
                let cached = &read_cache.reads[i];
                let plus = cached.mod_codes(Strand::Positive, &read_cache.collapse_method);
                let minus = cached.mod_codes(Strand::Negative, &read_cache.collapse_method);
                match alignment_strand {
                    Strand::Positive => {
                        extend_codes(&mut pos_observed, &plus);
                        extend_codes(&mut neg_observed, &minus);
                    },
                    Strand::Negative => {
                        extend_codes(&mut neg_observed, &plus);
                        extend_codes(&mut pos_observed, &minus);
                    },
                }
            }
        }
        if alignment.is_del {
            observations.push(AlignmentObservation::Deleted { alignment_strand });
            continue;
        }
        let read_base = match alignment.qpos {
            Some(q) => {
                if q >= record.seq.len() {
                    None
                } else {
                    DnaBase::parse_byte(record.seq[q])
                }
            },
            None => None,
        };
        let read_base = match read_base {
            Some(base) => if record.is_reverse {
                base.complement()
            } else {
                base
            },
            None => {
                continue;
            },
        };
        proof {
            assert(read_base_at(*record, alignment) == Some(read_base));
            assert(cache0.skipped(record.name@) || find_read(cache0.reads@, record.name@) >= 0) by {
                let j = alignment.record as int;
                assert(records@[j] == *record);
            }
        }
        let (pos_call, neg_call) = read_cache.get_mod_call(record, pos as u64, read_base, threshold);
        observations.push(AlignmentObservation::Base { alignment_strand, read_base, pos_call, neg_call });
    }
    proof {
        assert(als.subrange(0, a as int) =~= als);
    }
    proof {
        assert(als.subrange(0, a as int) =~= als);
    }
    (observations, pos_observed, neg_observed)
}

/// Tallies every processed column of an interval: columns in `[start_pos,
/// end_pos)` and, where motif locations are given, on a motif position,
/// counting only contributions on the motif's strand. The tags of the
/// region's primary records with bases are parsed first, once per read name.
/// Each column's rows are the decoded tally of its alignments' calls, which
/// come from the cache with the threshold applied; secondary alignments,
/// reads without bases, reference skips and bases that are not A, C, G or T
/// add nothing. With `combine_strands` and motif locations, each negative
/// motif position is folded into the positive one before it.
#[verifier::spinoff_prover]
#[verifier::rlimit(30)]
pub fn process_region(
    records: &Vec<ModRecord>,
    chrom_name: String,
    columns: &Vec<PileupColumn>,
    start_pos: u32,
    end_pos: u32,
    threshold: u64,
    pileup_numeric_options: &PileupNumericOptions,
    force_allow: bool,
    combine_strands: bool,
    motif_locations: Option<&Vec<(u32, Strand)>>,
) -> (r: ModBasePileup)
    requires
        forall|c: int| 0 <= c < columns@.len() ==> (#[trigger] columns@[c]).alignments@.len() < 0x3fff_ffff,
        columns_ascending(columns@),
    ensures
        r.chrom_name == chrom_name,
        r.wf(),
        forall|k: int|
            0 <= k < r.position_feature_counts@.len() ==> start_pos <= (#[trigger] r.position_feature_counts@[k]).0
                < end_pos,
        exists|cache: ReadCache|
            #[trigger] cache_covers(cache, records@, force_allow, method_of(*pileup_numeric_options)) && ({
                let motifs = match motif_locations {
                    Some(m) => Some(m@),
                    None => None,
                };
                let combining = combine_strands && motif_locations is Some;
                let plain = region_spec(
                    cache,
                    records@,
                    columns@,
                    start_pos,
                    scan_end(start_pos, end_pos, combining),
                    threshold,
                    *pileup_numeric_options,
                    motifs,
                    columns@.len() as int,
                );
                entries_view(r.position_feature_counts@) == if combining {
                    within_spec(
                        combine_entries_spec(plain, motif_locations->Some_0@, plain.len() as int),
                        start_pos,
                        end_pos,
                    )
                } else {
                    plain
                }
            }),
        forall|k: int|
            0 <= k < r.position_feature_counts@.len() ==> rows_cover(
                (#[trigger] r.position_feature_counts@[k]).1@,
            ),
{
    let method = match pileup_numeric_options.get_collapse_method() {
        Some(m) => Some(clone_method(m)),
        None => None,
    };
    proof {
        assert(same_method(method, method_of(*pileup_numeric_options)));
    }
    let mut read_cache = ReadCache::new(method, force_allow);
    fill_cache(&mut read_cache, records, Ghost(method_of(*pileup_numeric_options)));
    let ghost cache0 = read_cache;
    let mut position_feature_counts: Vec<(u32, Vec<PileupFeatureCounts>)> = Vec::new();
    let ghost motifs = match motif_locations {
        Some(m) => Some(m@),
        None => None,
    };
    let combining = combine_strands && motif_locations.is_some();
    let last: u32 = if combining && end_pos < u32::MAX {
        end_pos + 1
    } else {
        end_pos
    };
    let mut c: usize = 0;
    while c < columns.len()
        invariant
            c <= columns@.len(),
            read_cache == cache0,
            cache_covers(cache0, records@, force_allow, method_of(*pileup_numeric_options)),
            forall|j: int| 0 <= j < columns@.len() ==> (#[trigger] columns@[j]).alignments@.len() < 0x3fff_ffff,
            motifs == match motif_locations {
                Some(m) => Some(m@),
                None => None,
            },
            last == scan_end(start_pos, end_pos, combining),
            forall|k: int| 0 <= k < position_feature_counts@.len() ==> start_pos <= (#[trigger] position_feature_counts@[k]).0 < last,
            entries_view(position_feature_counts@) == region_spec(
                cache0,
                records@,
                columns@,
                start_pos,
                last,
                threshold,
                *pileup_numeric_options,
                motifs,
                c as int,
            ),
            columns_ascending(columns@) ==> forall|a: int, b: int|
                0 <= a < b < position_feature_counts@.len() ==> position_feature_counts@[a].0
                    < position_feature_counts@[b].0,
            columns_ascending(columns@) && c < columns@.len() ==> forall|a: int|
                0 <= a < position_feature_counts@.len() ==> position_feature_counts@[a].0 < columns@[c as int].pos,
            forall|k: int|
                0 <= k < position_feature_counts@.len() ==> rows_cover(
                    (#[trigger] position_feature_counts@[k]).1@,
                ) && rows_bounded(position_feature_counts@[k].1@),
        decreases columns@.len() - c,
    {
        let column = &columns[c];
        let pos = column.pos;
        let ghost before = position_feature_counts@;
        proof {
            if columns_ascending(columns@) && c + 1 < columns@.len() {
                assert(columns@[c as int].pos < columns@[c + 1].pos);
            }
            assert(columns@[c as int] == *column);
        }
        let rule = match get_column_rule(pos, start_pos, last, motif_locations) {
            Some(rule) => rule,
            None => {
                proof {
                    assert(entries_view(position_feature_counts@) =~= region_spec(
                        cache0, records@, columns@, start_pos, last, threshold, *pileup_numeric_options, motifs, c as int + 1));
                }
                c = c + 1;
                continue;
            },
        };
        let (observations, pos_observed, neg_observed) = gather_column(&mut read_cache, records, column, threshold);
        proof {
            assert(column.alignments@.subrange(0, column.alignments@.len() as int) =~= column.alignments@);
        }
        let rows = column_counts(&observations, rule, &pos_observed, &neg_observed, pileup_numeric_options);
        if rows.len() > 0 {
            position_feature_counts.push((pos, rows));
            proof {
                assert forall|x: int| 0 <= x < before.len() implies position_feature_counts@[x] == before[x] by {}
            }
        }
        proof {
            assert(entries_view(position_feature_counts@) =~= region_spec(
                cache0, records@, columns@, start_pos, last, threshold, *pileup_numeric_options, motifs, c as int + 1));
            if columns_ascending(columns@) && c + 1 < columns@.len() {
                assert(columns@[c as int].pos < columns@[c + 1].pos);
            }
        }
        c = c + 1;
    }
    proof {
        assert(read_cache == cache0);
    }
    proof {
        assert(keys_ascending(entries_view(position_feature_counts@))) by {
            let ev = entries_view(position_feature_counts@);
            assert forall|a: int, b: int| 0 <= a < b < ev.len() implies ev[a].0 < ev[b].0 by {
                assert(ev[a].0 == position_feature_counts@[a].0);
                assert(ev[b].0 == position_feature_counts@[b].0);
            }
        }
    }
    if combine_strands {
        if let Some(locs) = motif_locations {
            let combined = combine_strands_in_entries(&position_feature_counts, locs);
            let kept = keep_within(combined, start_pos, end_pos);
            let r = ModBasePileup { chrom_name, position_feature_counts: kept };
            proof {
                let ev = entries_view(position_feature_counts@);
                lemma_combine_ascending(ev, locs@, ev.len() as int);
                let cv = combine_entries_spec(ev, locs@, ev.len() as int);
                lemma_within(cv, start_pos, end_pos);
                let kv = entries_view(r.position_feature_counts@);
                assert forall|k: int| 0 <= k < r.position_feature_counts@.len() implies start_pos <= (#[trigger] r.position_feature_counts@[k]).0 < end_pos by {
                    assert(kv[k].0 == r.position_feature_counts@[k].0);
                }
                assert forall|a: int, b: int| 0 <= a < b < r.position_feature_counts@.len() implies r.position_feature_counts@[a].0 < r.position_feature_counts@[b].0 by {
                    assert(kv[a].0 == r.position_feature_counts@[a].0);
                    assert(kv[b].0 == r.position_feature_counts@[b].0);
                }
            }
            return r;
        }
    }
    proof {
        assert(last == end_pos);
    }
    ModBasePileup { chrom_name, position_feature_counts }
}

/// A call at or below the threshold is tallied as filtered and adds to no
/// coverage count; one above it adds nothing to the filtered count.
pub proof fn threshold_decides_filtering(t: Tally, call: BaseModCall, base: DnaBase, threshold: u64)
    requires
        !(call is Filtered),
        tally_total(t) < u32::MAX,
    ensures
        call_prob(call) <= threshold ==> tally_add_spec(t, feature_of_call(threshold_call(call, threshold), base))
            == (Tally { n_filtered: (t.n_filtered + 1) as u32, ..t }),
        call_prob(call) > threshold ==> tally_add_spec(
            t,
            feature_of_call(threshold_call(call, threshold), base),
        ).n_filtered == t.n_filtered,
{
}

} // verus!
