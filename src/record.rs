//! A read as the library sees it, and the per-record rewrite of its MM/ML
//! tags.
use vstd::prelude::*;

use crate::dna::{revcomp, revcomp_spec};
use crate::mm_tag::{MmGroupSpec, SkipMode};
use crate::mod_bam::{
    collapse_all_spec, info_view, parsed_from, parsed_groups_are_writable, positions_writable,
    serialized_to, tags_parse, ModBaseInfo, ModGroup, ModGroupSpec,
};
use crate::mod_base_code::InputError;
use crate::mod_probs::CollapseMethod;

verus! {

/// Why a record was passed over.
#[derive(Debug, Clone, Copy, PartialEq, Eq, Structural)]
pub enum SkipReason {
    /// A secondary or supplementary alignment.
    NotPrimary,
    /// The record carries no MM tag.
    NoModTags,
    /// The record has no bases.
    ZeroLengthSequence,
}

/// Why a record could not be processed.
#[derive(Debug, Clone, Copy, PartialEq, Eq, Structural)]
pub enum FailReason {
    /// Longer than a skip count can span.
    SequenceTooLong,
}

/// The outcome of a record that was not processed.
#[derive(Debug, Clone, Copy, PartialEq, Eq, Structural)]
pub enum RunError {
    BadInput(InputError),
    Skipped(SkipReason),
    Failed(FailReason),
}

/// The fields of an aligned record that the library reads.
pub struct ModRecord {
    pub name: Vec<u8>,
    /// The bases as stored, in alignment orientation.
    pub seq: Vec<u8>,
    pub is_reverse: bool,
    /// Secondary or supplementary.
    pub is_secondary: bool,
    /// The MM tag's text, if present.
    pub mm: Option<Vec<u8>>,
    /// The ML tag's bytes (empty where absent).
    pub ml: Vec<u8>,
    /// The tags were named `Mm`/`Ml` rather than `MM`/`ML`.
    pub legacy_tag_names: bool,
    /// Aligned pairs as (forward read position, reference position);
    /// insertions, deletions and clips are left out.
    pub aligned_pairs: Vec<(usize, u64)>,
}

/// The read as sequenced: the stored bases, reverse complemented for a
/// reverse alignment.
pub open spec fn forward_seq_spec(seq: Seq<u8>, is_reverse: bool) -> Seq<u8> {
    if is_reverse {
        revcomp_spec(seq)
    } else {
        seq
    }
}

pub fn forward_sequence(seq: &Vec<u8>, is_reverse: bool) -> (r: Vec<u8>)
    ensures
        r@ == forward_seq_spec(seq@, is_reverse),
{
    if is_reverse {
        revcomp(seq)
    } else {
        let mut out: Vec<u8> = Vec::new();
        let mut i: usize = 0;
        while i < seq.len()
            invariant
                i <= seq@.len(),
                out@ == seq@.subrange(0, i as int),
            decreases seq@.len() - i,
        {
            out.push(seq[i]);
            proof {
                assert(out@ =~= seq@.subrange(0, i as int + 1));
            }
            i = i + 1;
        }
        proof {
            assert(seq@.subrange(0, i as int) =~= seq@);
        }
        out
    }
}

/// The error a record meets before its tags are read, if any: records that
/// are not primary, have no bases or no MM tag are skipped; one longer than a
/// skip count can span fails.
pub open spec fn precheck(record: &ModRecord) -> Option<RunError> {
    if record.is_secondary {
        Some(RunError::Skipped(SkipReason::NotPrimary))
    } else if record.seq@.len() == 0 {
        Some(RunError::Skipped(SkipReason::ZeroLengthSequence))
    } else if record.mm is None {
        Some(RunError::Skipped(SkipReason::NoModTags))
    } else if record.seq@.len() > u32::MAX {
        Some(RunError::Failed(FailReason::SequenceTooLong))
    } else {
        None
    }
}

/// The record passes the checks and its tags parse against its forward read.
pub open spec fn record_tags_parse(record: &ModRecord) -> bool {
    &&& precheck(record) is None
    &&& exists|raws: Seq<MmGroupSpec>| #[trigger] tags_parse(
        raws,
        record.mm->Some_0@,
        record.ml@,
        forward_seq_spec(record.seq@, record.is_reverse),
    )
}

/// Primary records with bases are processed; others are skipped.
pub fn record_is_valid(record: &ModRecord) -> (r: Result<(), RunError>)
    ensures
        record.is_secondary ==> r == Err::<(), RunError>(RunError::Skipped(SkipReason::NotPrimary)),
        !record.is_secondary && record.seq@.len() == 0 ==> r == Err::<(), RunError>(
            RunError::Skipped(SkipReason::ZeroLengthSequence),
        ),
        !record.is_secondary && record.seq@.len() > 0 ==> r is Ok,
{
    if record.is_secondary {
        return Err(RunError::Skipped(SkipReason::NotPrimary));
    }
    if record.seq.len() == 0 {
        return Err(RunError::Skipped(SkipReason::ZeroLengthSequence));
    }
    Ok(())
}

/// Rewritten MM/ML tags and the names to write them under.
pub struct RewrittenTags {
    pub mm: Vec<u8>,
    pub ml: Vec<u8>,
    pub legacy_tag_names: bool,
}

/// The groups keep their bases, strands and positions under any methods.
proof fn lemma_collapse_keeps_positions(gs: Seq<ModGroupSpec>, methods: Seq<CollapseMethod>)
    ensures
        collapse_all_spec(gs, methods).len() == gs.len(),
        forall|k: int|
            0 <= k < gs.len() ==> (#[trigger] collapse_all_spec(gs, methods)[k]).positions
                == gs[k].positions && collapse_all_spec(gs, methods)[k].canonical_base
                == gs[k].canonical_base && collapse_all_spec(gs, methods)[k].strand == gs[k].strand,
    decreases methods.len(),
{
    if methods.len() > 0 {
        lemma_collapse_keeps_positions(gs, methods.drop_last());
    }
}

/// The same skip mode set on every group.
pub open spec fn with_skip_mode_spec(gs: Seq<ModGroupSpec>, mode: SkipMode) -> Seq<ModGroupSpec> {
    gs.map_values(|g: ModGroupSpec| ModGroupSpec { skip_mode: mode, ..g })
}

pub open spec fn updated_groups_spec(gs: Seq<ModGroupSpec>, new_mode: Option<SkipMode>) -> Seq<ModGroupSpec> {
    match new_mode {
        Some(mode) => with_skip_mode_spec(gs, mode),
        None => gs,
    }
}

/// Parses a valid record's tags; the checks come in the order stated.
pub(crate) fn parse_record(record: &ModRecord) -> (r: Result<(ModBaseInfo, Vec<u8>), RunError>)
    ensures
        precheck(record) is Some ==> (r matches Err(e) && e == precheck(record)->Some_0),
        precheck(record) is None ==> (r is Ok || r matches Err(RunError::BadInput(_))),
        record_tags_parse(record) ==> r is Ok,
        r matches Ok((info, fwd)) ==> record.mm is Some && fwd@ == forward_seq_spec(
            record.seq@,
            record.is_reverse,
        ) && fwd@.len() <= u32::MAX && parsed_from(info_view(info.groups@), record.mm->Some_0@, record.ml@, fwd@),
{
    record_is_valid(record)?;
    let mm = match &record.mm {
        Some(mm) => mm,
        None => {
            return Err(RunError::Skipped(SkipReason::NoModTags));
        },
    };
    let fwd = forward_sequence(&record.seq, record.is_reverse);
    proof {
        assert(fwd@.len() == record.seq@.len());
    }
    if fwd.len() > u32::MAX as usize {
        return Err(RunError::Failed(FailReason::SequenceTooLong));
    }
    match ModBaseInfo::new(mm, &record.ml, &fwd) {
        Ok(info) => Ok((info, fwd)),
        Err(e) => {
            proof {
                if exists|raws: Seq<MmGroupSpec>| #[trigger] tags_parse(raws, mm@, record.ml@, fwd@) {
                    let raws = choose|raws: Seq<MmGroupSpec>| #[trigger] tags_parse(raws, mm@, record.ml@, fwd@);
                    assert(tags_parse(raws, mm@, record.ml@, fwd@));
                }
            }
            Err(RunError::BadInput(e))
        },
    }
}

/// Applies the collapse methods in turn to every group of a record's tags
/// and writes the tags back under the names the record used.
pub fn adjust_mod_probs(record: &ModRecord, methods: &Vec<CollapseMethod>) -> (r: Result<RewrittenTags, RunError>)
    ensures
        precheck(record) is Some ==> (r matches Err(e) && e == precheck(record)->Some_0),
        precheck(record) is None ==> (r is Ok || r matches Err(RunError::BadInput(_))),
        record_tags_parse(record) ==> r is Ok,
        r matches Ok(t) ==> t.legacy_tag_names == record.legacy_tag_names && record.mm is Some
            && exists|gs: Seq<ModGroupSpec>|
            parsed_from(gs, record.mm->Some_0@, record.ml@, forward_seq_spec(record.seq@, record.is_reverse))
                && #[trigger] serialized_to(
                collapse_all_spec(gs, methods@),
                forward_seq_spec(record.seq@, record.is_reverse),
                t.mm@,
                t.ml@,
            ),
{
    let (info, fwd) = parse_record(record)?;
    let ghost parsed = info_view(info.groups@);
    let collapsed = info.collapse_all(methods);
    proof {
        parsed_groups_are_writable(parsed, record.mm->Some_0@, record.ml@, fwd@);
        lemma_collapse_keeps_positions(parsed, methods@);
        let cv = info_view(collapsed.groups@);
        assert forall|k: int| 0 <= k < cv.len() implies #[trigger] cv[k].positions == parsed[k].positions
            && cv[k].canonical_base == parsed[k].canonical_base && cv[k].strand == parsed[k].strand by {
            assert(cv[k] == collapse_all_spec(parsed, methods@)[k]);
        }
        assert(positions_writable(cv, fwd@));
    }
    match collapsed.serialize(&fwd) {
        Ok((mm, ml)) => {
            proof {
                let f = forward_seq_spec(record.seq@, record.is_reverse);
                assert(fwd@ == f);
                assert(parsed_from(parsed, record.mm->Some_0@, record.ml@, f));
                assert(serialized_to(collapse_all_spec(parsed, methods@), f, mm@, ml@));
            }
            let t = RewrittenTags { mm, ml, legacy_tag_names: record.legacy_tag_names };
            proof {
                let f = forward_seq_spec(record.seq@, record.is_reverse);
                assert(parsed_from(parsed, record.mm->Some_0@, record.ml@, f) && serialized_to(
                    collapse_all_spec(parsed, methods@),
                    f,
                    t.mm@,
                    t.ml@,
                ));
            }
            Ok(t)
        },
        Err(e) => Err(RunError::BadInput(e)),
    }
}

/// Rewrites a record's tags unchanged but for an optional new skip mode,
/// always under the names `MM`/`ML`.
#[verifier::spinoff_prover]
pub fn update_mod_tags(record: &ModRecord, new_mode: Option<SkipMode>) -> (r: Result<RewrittenTags, RunError>)
    ensures
        precheck(record) is Some ==> (r matches Err(e) && e == precheck(record)->Some_0),
        precheck(record) is None ==> (r is Ok || r matches Err(RunError::BadInput(_))),
        record_tags_parse(record) ==> r is Ok,
        r matches Ok(t) ==> !t.legacy_tag_names && record.mm is Some && exists|
            gs: Seq<ModGroupSpec>,
        |
            #[trigger] parsed_from(gs, record.mm->Some_0@, record.ml@, forward_seq_spec(record.seq@, record.is_reverse))
                && serialized_to(
                updated_groups_spec(gs, new_mode),
                forward_seq_spec(record.seq@, record.is_reverse),
                t.mm@,
                t.ml@,
            ),
{
    let (info, fwd) = parse_record(record)?;
    let ghost parsed = info_view(info.groups@);
    let mut groups = info.groups;
    if let Some(mode) = new_mode {
        let mut next: Vec<ModGroup> = Vec::new();
        let mut k: usize = 0;
        while k < groups.len()
            invariant
                k <= groups@.len(),
                info_view(groups@) == parsed,
                next@.len() == k,
                forall|j: int|
                    0 <= j < k ==> (#[trigger] info_view(next@)[j]) == (ModGroupSpec {
                        skip_mode: mode,
                        ..parsed[j]
                    }),
            decreases groups@.len() - k,
        {
            let mut g = groups[k].clone_group();
            g.skip_mode = mode;
            proof {
                assert(info_view(groups@)[k as int] == groups@[k as int]@);
                assert(g@ == (ModGroupSpec { skip_mode: mode, ..parsed[k as int] }));
            }
            let ghost old_next = next@;
            next.push(g);
            proof {
                assert(info_view(next@)[k as int] == g@);
                assert forall|j: int| 0 <= j < k + 1 implies (#[trigger] info_view(next@)[j]) == (ModGroupSpec {
                    skip_mode: mode,
                    ..parsed[j]
                }) by {
                    if j < k {
                        assert(next@[j] == old_next[j]);
                        assert(info_view(next@)[j] == info_view(old_next)[j]);
                    }
                }
            }
            k = k + 1;
        }
        proof {
            assert(info_view(next@) =~= with_skip_mode_spec(parsed, mode));
        }
        groups = next;
    }
    let updated = ModBaseInfo { groups };
    proof {
        parsed_groups_are_writable(parsed, record.mm->Some_0@, record.ml@, fwd@);
        let uv = info_view(updated.groups@);
        assert forall|k: int| 0 <= k < uv.len() implies #[trigger] uv[k].positions == parsed[k].positions
            && uv[k].canonical_base == parsed[k].canonical_base && uv[k].strand == parsed[k].strand by {}
        assert(positions_writable(uv, fwd@));
    }
    match updated.serialize(&fwd) {
        Ok((mm, ml)) => {
            proof {
                let f = forward_seq_spec(record.seq@, record.is_reverse);
                assert(fwd@ == f);
                assert(info_view(updated.groups@) == updated_groups_spec(parsed, new_mode));
                assert(parsed_from(parsed, record.mm->Some_0@, record.ml@, f));
                assert(serialized_to(updated_groups_spec(parsed, new_mode), f, mm@, ml@));
            }
            let t = RewrittenTags { mm, ml, legacy_tag_names: false };
            proof {
                let f = forward_seq_spec(record.seq@, record.is_reverse);
                assert(parsed_from(parsed, record.mm->Some_0@, record.ml@, f) && serialized_to(
                    updated_groups_spec(parsed, new_mode),
                    f,
                    t.mm@,
                    t.ml@,
                ));
            }
            Ok(t)
        },
        Err(e) => Err(RunError::BadInput(e)),
    }
}

} // verus!
