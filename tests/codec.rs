use modkit::mm_tag::{format_mm, parse_mm, SkipMode};
use modkit::mod_bam::ModBaseInfo;
use modkit::mod_base_code::{DnaBase, InputError, ModCode, Strand};
use modkit::mod_probs::{prob_of_ml, quantize, BaseModProbs, CollapseMethod, BIN, PROB_SCALE};
use modkit::record::{adjust_mod_probs, update_mod_tags, ModRecord, RunError, SkipReason};

fn record(seq: &str, mm: &str, ml: &[u8]) -> ModRecord {
    ModRecord {
        name: b"read1".to_vec(),
        seq: seq.as_bytes().to_vec(),
        is_reverse: false,
        is_secondary: false,
        mm: Some(mm.as_bytes().to_vec()),
        ml: ml.to_vec(),
        legacy_tag_names: false,
        aligned_pairs: Vec::new(),
    }
}

#[test]
fn tag_round_trip_keeps_bytes() {
    let seq = b"ACAGCTCCCCGA".to_vec();
    let mm = b"C+m,1,2,0;".to_vec();
    let ml = vec![128u8, 200, 50];
    let info = ModBaseInfo::new(&mm, &ml, &seq).unwrap();
    assert_eq!(info.groups.len(), 1);
    // the 2nd, 5th and 6th C of the read
    let cs: Vec<usize> = seq.iter().enumerate().filter(|(_, b)| **b == b'C').map(|(i, _)| i).collect();
    assert_eq!(info.groups[0].positions, vec![cs[1], cs[4], cs[5]]);
    let (mm2, ml2) = info.serialize(&seq).unwrap();
    assert_eq!(mm2, mm);
    assert_eq!(ml2, ml);
}

#[test]
fn adjust_without_methods_round_trips() {
    let r = record("ACAGCTCCCCGA", "C+m,1,2,0;", &[128, 200, 50]);
    let t = adjust_mod_probs(&r, &Vec::new()).unwrap();
    assert_eq!(t.mm, b"C+m,1,2,0;".to_vec());
    assert_eq!(t.ml, vec![128u8, 200, 50]);
    assert!(!t.legacy_tag_names);
}

#[test]
fn remove_h_redistributes_half_to_m() {
    let r = record("ACG", "C+hm,0,0;", &[100, 50]);
    // one C in the read: a single delta of 0 for a two-code group
    let r = ModRecord { mm: Some(b"C+hm,0;".to_vec()), ..r };
    let t = adjust_mod_probs(&r, &vec![CollapseMethod::ReDistribute(ModCode::h)]).unwrap();
    assert_eq!(t.mm, b"C+m,0;".to_vec());
    let expected = (((50.0 + 0.5) / 256.0 + (100.0 + 0.5) / 256.0 / 2.0) * 256.0 - 0.5f64).round() as u8;
    assert_eq!(t.ml, vec![expected]);
    assert_eq!(t.ml, vec![100u8]);
}

#[test]
fn parse_reports_overrun() {
    let seq = b"ACCA".to_vec();
    let r = ModBaseInfo::new(&b"C+m,2;".to_vec(), &vec![10u8], &seq);
    assert!(matches!(r, Err(InputError::DeltaOverrun)));
}

#[test]
fn parse_reports_ml_mismatch() {
    let seq = b"ACCA".to_vec();
    let r = ModBaseInfo::new(&b"C+m,0,0;".to_vec(), &vec![10u8], &seq);
    assert!(matches!(r, Err(InputError::MlLengthMismatch)));
    let r = ModBaseInfo::new(&b"C+m,0;".to_vec(), &vec![10u8, 11], &seq);
    assert!(matches!(r, Err(InputError::MlLengthMismatch)));
}

#[test]
fn parse_reports_unknown_code_and_malformed() {
    assert!(matches!(parse_mm(&b"C+z,0;".to_vec()), Err(InputError::UnknownModCode)));
    assert!(matches!(parse_mm(&b"C*m,0;".to_vec()), Err(InputError::MalformedMm)));
    assert!(matches!(parse_mm(&b"C+m,0".to_vec()), Err(InputError::MalformedMm)));
    assert!(matches!(parse_mm(&b"C+m,01;".to_vec()), Err(InputError::MalformedMm)));
}

#[test]
fn mm_text_round_trips_with_modes() {
    let text = b"C+hm?,0,12;A-a.;G+m,3;".to_vec();
    let groups = parse_mm(&text).unwrap();
    assert_eq!(groups.len(), 3);
    assert_eq!(groups[0].canonical_base, DnaBase::C);
    assert_eq!(groups[0].mod_codes, vec![ModCode::h, ModCode::m]);
    assert_eq!(groups[0].skip_mode, SkipMode::Ambiguous);
    assert_eq!(groups[0].deltas, vec![0u32, 12]);
    assert_eq!(groups[1].strand, Strand::Negative);
    assert_eq!(groups[1].skip_mode, SkipMode::ProbModified);
    assert!(groups[1].deltas.is_empty());
    assert_eq!(groups[2].skip_mode, SkipMode::DefaultImplicitProbModified);
    assert_eq!(format_mm(&groups), text);
}

#[test]
fn negative_strand_group_counts_complement() {
    // a '-' strand C group counts the Gs of the forward read
    let seq = b"AGTGG".to_vec();
    let info = ModBaseInfo::new(&b"C-m,1;".to_vec(), &vec![7u8], &seq).unwrap();
    assert_eq!(info.groups[0].positions, vec![3usize]);
}

#[test]
fn ml_quantization_is_exact() {
    for v in 0u8..=255 {
        assert_eq!(quantize(prob_of_ml(v)), v);
    }
    assert_eq!(prob_of_ml(0), BIN / 2);
    assert_eq!(quantize(PROB_SCALE), 255);
}

#[test]
fn convert_h_to_m_sums() {
    let p = |x: u64| PROB_SCALE / 10 * x;
    let probs = BaseModProbs { entries: vec![(ModCode::h, p(3)), (ModCode::m, p(4))] };
    let one = probs.convert(&vec![ModCode::h], ModCode::m);
    assert_eq!(one.entries, vec![(ModCode::m, p(7))]);
    let two = probs.convert(&vec![ModCode::m], ModCode::h).convert(&vec![ModCode::h], ModCode::m);
    assert_eq!(two.entries, vec![(ModCode::m, p(7))]);
}

#[test]
fn convert_saturates_at_one() {
    let probs = BaseModProbs { entries: vec![(ModCode::h, PROB_SCALE), (ModCode::m, PROB_SCALE / 2)] };
    let c = probs.convert(&vec![ModCode::h], ModCode::m);
    assert_eq!(c.entries, vec![(ModCode::m, PROB_SCALE)]);
}

#[test]
fn redistribute_raises_canonical_by_share() {
    let q = PROB_SCALE / 8;
    let probs = BaseModProbs { entries: vec![(ModCode::h, 2 * q), (ModCode::m, 3 * q)] };
    let before = probs.canonical();
    let r = probs.redistribute(ModCode::h);
    assert_eq!(r.entries, vec![(ModCode::m, 4 * q)]);
    assert_eq!(r.canonical(), before + q);
    // absent code: unchanged
    let same = probs.redistribute(ModCode::a);
    assert_eq!(same.entries, probs.entries);
}

#[test]
fn renormalize_drops_code() {
    let q = PROB_SCALE / 8;
    let probs = BaseModProbs { entries: vec![(ModCode::h, 2 * q), (ModCode::m, 3 * q)] };
    let r = probs.drop_code(ModCode::h);
    assert_eq!(r.entries, vec![(ModCode::m, 3 * q)]);
    assert_eq!(r.canonical(), 5 * q);
}

#[test]
fn update_sets_mode_and_upper_names() {
    let r = ModRecord { legacy_tag_names: true, ..record("ACAGCTCCCCGA", "C+m,1,2,0;", &[128, 200, 50]) };
    let t = update_mod_tags(&r, Some(SkipMode::Ambiguous)).unwrap();
    assert_eq!(t.mm, b"C+m?,1,2,0;".to_vec());
    assert_eq!(t.ml, vec![128u8, 200, 50]);
    assert!(!t.legacy_tag_names);
    let t = adjust_mod_probs(&r, &Vec::new()).unwrap();
    assert!(t.legacy_tag_names);
}

#[test]
fn invalid_records_are_skipped_or_failed() {
    let r = ModRecord { is_secondary: true, ..record("ACG", "C+m,0;", &[1]) };
    assert!(matches!(adjust_mod_probs(&r, &Vec::new()), Err(RunError::Skipped(SkipReason::NotPrimary))));
    let r = record("", "C+m,0;", &[1]);
    assert!(matches!(adjust_mod_probs(&r, &Vec::new()), Err(RunError::Skipped(SkipReason::ZeroLengthSequence))));
    let r = ModRecord { mm: None, ..record("ACG", "", &[]) };
    assert!(matches!(update_mod_tags(&r, None), Err(RunError::Skipped(SkipReason::NoModTags))));
    let r = record("ACG", "C+m,5;", &[1]);
    assert!(matches!(adjust_mod_probs(&r, &Vec::new()), Err(RunError::BadInput(InputError::DeltaOverrun))));
}

#[test]
fn reverse_read_uses_reverse_complement() {
    // stored GGTA reads TACC forward; the Cs are at 2 and 3
    let r = ModRecord { is_reverse: true, ..record("GGTA", "C+m,1;", &[9]) };
    let t = adjust_mod_probs(&r, &Vec::new()).unwrap();
    assert_eq!(t.mm, b"C+m,1;".to_vec());
    let fwd = modkit::record::forward_sequence(&b"GGTA".to_vec(), true);
    assert_eq!(fwd, b"TACC".to_vec());
    let info = ModBaseInfo::new(&b"C+m,1;".to_vec(), &vec![9u8], &fwd).unwrap();
    assert_eq!(info.groups[0].positions, vec![3usize]);
}
