use modkit::mod_base_code::{DnaBase, ModCode};
use modkit::mod_probs::{prob_of_ml, CollapseMethod, PROB_SCALE};
use modkit::read_ids_to_base_mod_probs::ReadIdsToBaseModProbs;
use modkit::record::{ModRecord, RunError, SkipReason};
use modkit::read_cache::ReadCache;
use modkit::mod_base_code::Strand;
use modkit::mod_probs::BaseModCall;

fn record(name: &str, seq: &str, reverse: bool, mm: Option<&str>, ml: &[u8]) -> ModRecord {
    ModRecord {
        name: name.as_bytes().to_vec(),
        seq: seq.as_bytes().to_vec(),
        is_reverse: reverse,
        is_secondary: false,
        mm: mm.map(|m| m.as_bytes().to_vec()),
        ml: ml.to_vec(),
        legacy_tag_names: false,
        aligned_pairs: (0..seq.len()).map(|i| (i, 100 + i as u64)).collect(),
    }
}

#[test]
fn sampled_reads_are_filed_once_by_base() {
    let mut store = ReadIdsToBaseModProbs::zero();
    let r1 = record("r1", "ACGCA", false, Some("C+m?,0,0;A+a?,1;"), &[250, 10, 200]);
    store.add_record(&r1, &None).unwrap();
    assert!(store.seen(&b"r1".to_vec()));
    // a second record with the same id is not filed again
    store.add_record(&r1, &None).unwrap();
    assert_eq!(store.num_reads(), 1);
    assert_eq!(store.mle_probs_for_base(DnaBase::C), vec![prob_of_ml(250), PROB_SCALE - prob_of_ml(10)]);
    assert_eq!(store.mle_probs_for_base(DnaBase::A), vec![prob_of_ml(200)]);
    assert!(store.mle_probs_for_base(DnaBase::G).is_empty());
    let no_tags = record("r2", "ACG", false, None, &[]);
    assert_eq!(store.add_record(&no_tags, &None), Err(RunError::Skipped(SkipReason::NoModTags)));
    assert_eq!(store.num_reads(), 1);
    store.add_read_without_probs(&b"r3".to_vec());
    assert_eq!(store.num_reads(), 2);
}

#[test]
fn sampled_probs_are_collapsed() {
    let mut store = ReadIdsToBaseModProbs::zero();
    let r = record("r1", "AC", false, Some("C+hm?,0;"), &[100, 50]);
    store.add_record(&r, &Some(CollapseMethod::ReDistribute(ModCode::h))).unwrap();
    // m takes half of h's mass; the canonical call (the rest) is the best
    let m = prob_of_ml(50) + prob_of_ml(100) / 2;
    assert_eq!(store.mle_probs_for_base(DnaBase::C), vec![PROB_SCALE - m]);
}

#[test]
fn negative_strand_group_filed_under_complement() {
    let mut store = ReadIdsToBaseModProbs::zero();
    let r = record("r1", "AGT", false, Some("C-m?,0;"), &[220]);
    store.add_record(&r, &None).unwrap();
    assert_eq!(store.mle_probs_for_base(DnaBase::G), vec![prob_of_ml(220)]);
    assert!(store.mle_probs_for_base(DnaBase::C).is_empty());
}

#[test]
fn read_cache_calls_by_reference_position() {
    let mut cache = ReadCache::new(None, false);
    let r = record("r1", "ACGCA", false, Some("C+m?,0,0;"), &[250, 10]);
    // the first C sits at reference 101
    let (pos, neg) = cache.get_mod_call(&r, 101, DnaBase::C, 0);
    assert_eq!(pos, Some(BaseModCall::Modified(prob_of_ml(250), ModCode::m)));
    assert_eq!(neg, None);
    let (pos, _) = cache.get_mod_call(&r, 103, DnaBase::C, 0);
    assert_eq!(pos, Some(BaseModCall::Canonical(PROB_SCALE - prob_of_ml(10))));
    // at or below the threshold the call is filtered
    let (pos, _) = cache.get_mod_call(&r, 101, DnaBase::C, prob_of_ml(250));
    assert_eq!(pos, Some(BaseModCall::Filtered));
    // no call at a position without a listed C
    let (pos, _) = cache.get_mod_call(&r, 100, DnaBase::A, 0);
    assert_eq!(pos, None);
    assert_eq!(cache.reads.len(), 1);
    let codes = cache.reads[0].mod_codes(Strand::Positive, &None);
    assert_eq!(codes, vec![ModCode::m]);
}

#[test]
fn read_cache_skips_implicit_and_malformed() {
    let mut cache = ReadCache::new(None, false);
    let implicit = record("r1", "ACG", false, Some("C+m,0;"), &[250]);
    assert_eq!(cache.get_mod_call(&implicit, 101, DnaBase::C, 0), (None, None));
    let bad = record("r2", "ACG", false, Some("C+m,4;"), &[250]);
    assert_eq!(cache.get_mod_call(&bad, 101, DnaBase::C, 0), (None, None));
    assert_eq!(cache.skip_set.len(), 2);
    assert!(cache.reads.is_empty());
}

#[test]
fn merging_sampled_reads_keeps_first() {
    let mut a = ReadIdsToBaseModProbs::zero();
    a.add_record(&record("r1", "AC", false, Some("C+m?,0;"), &[200]), &None).unwrap();
    let mut b = ReadIdsToBaseModProbs::zero();
    b.add_record(&record("r1", "AC", false, Some("C+m?,0;"), &[10]), &None).unwrap();
    b.add_record(&record("r2", "CC", false, Some("C+m?,0,0;"), &[10, 20]), &None).unwrap();
    a.op_mut(b);
    assert_eq!(a.num_reads(), 2);
    assert_eq!(a.size(), 3);
    assert_eq!(a.mle_probs_for_base(DnaBase::C)[0], prob_of_ml(200));
}

#[test]
fn profiles_accumulate_with_counts() {
    let mut acc = modkit::profile::ReadsBaseModProfile::zero();
    acc.add_result(Err(modkit::profile::ProfileError::Record(RunError::Skipped(SkipReason::NotPrimary))));
    acc.add_result(Err(modkit::profile::ProfileError::Cigar(modkit::profile::CigarError::TooManySoftClips)));
    acc.add_result(Ok(modkit::profile::ReadBaseModProfile { record_name: b"r1".to_vec(), profile: Vec::new() }));
    assert_eq!((acc.num_reads(), acc.num_skips, acc.num_fails), (1, 1, 1));
    let mut other = modkit::profile::ReadsBaseModProfile::zero();
    other.add_result(Ok(modkit::profile::ReadBaseModProfile { record_name: b"r1".to_vec(), profile: Vec::new() }));
    other.add_result(Ok(modkit::profile::ReadBaseModProfile { record_name: b"r2".to_vec(), profile: Vec::new() }));
    other.add_result(Err(modkit::profile::ProfileError::Record(RunError::Skipped(SkipReason::NoModTags))));
    acc.op_mut(other);
    assert_eq!((acc.num_reads(), acc.num_skips, acc.num_fails), (2, 2, 1));
    assert_eq!(acc.profiles[1].record_name, b"r2".to_vec());
}

#[test]
fn cache_reads_probs_of_one_base() {
    let cache = ReadCache::new(Some(CollapseMethod::ReDistribute(ModCode::h)), false);
    let seq = b"ACGCA".to_vec();
    let v = cache.get_mod_base_probs(&b"C+hm?,0;A+a?,0;".to_vec(), &vec![100u8, 50, 7], DnaBase::C, &seq).unwrap();
    assert_eq!(v.len(), 1);
    assert_eq!(v[0].0, 1);
    assert_eq!(v[0].1.entries, vec![(ModCode::m, prob_of_ml(50) + prob_of_ml(100) / 2)]);
    let a = cache.get_mod_base_probs(&b"C+hm?,0;A+a?,0;".to_vec(), &vec![100u8, 50, 7], DnaBase::A, &seq).unwrap();
    assert_eq!(a.len(), 1);
    assert_eq!(a[0].0, 0);
    assert!(cache.get_mod_base_probs(&b"C+m?,9;".to_vec(), &vec![1u8], DnaBase::C, &seq).is_err());
}

#[test]
fn best_calls_grouped_by_code() {
    let mut store = ReadIdsToBaseModProbs::zero();
    let r = record("r1", "ACGCA", false, Some("C+m?,0,0;"), &[250, 10]);
    store.add_record(&r, &None).unwrap();
    assert_eq!(store.mle_probs_for_code(ModCode::m), vec![prob_of_ml(250)]);
    assert_eq!(store.mle_probs_for_code(ModCode::C), vec![PROB_SCALE - prob_of_ml(10)]);
    assert!(store.mle_probs_for_code(ModCode::h).is_empty());
}

#[test]
fn cache_merges_groups_of_one_base() {
    let cache = ReadCache::new(None, false);
    let seq = b"ACGCA".to_vec();
    let v = cache.get_mod_base_probs(&b"C+h?,0;C+m?,0,0;".to_vec(), &vec![100u8, 50, 60], DnaBase::C, &seq).unwrap();
    assert_eq!(v.len(), 2);
    assert_eq!(v[0].0, 1);
    assert_eq!(v[0].1.entries, vec![(ModCode::h, prob_of_ml(100)), (ModCode::m, prob_of_ml(50))]);
    assert_eq!(v[1].0, 3);
    assert_eq!(v[1].1.entries, vec![(ModCode::m, prob_of_ml(60))]);
}

#[test]
fn calls_counted_per_code() {
    let seq = b"ACGCA".to_vec();
    let info = modkit::mod_bam::ModBaseInfo::new(&b"C+hm?,0,0;A+a?,0;".to_vec(), &vec![1u8, 2, 3, 4, 5], &seq).unwrap();
    assert_eq!(info.calls_of_code(ModCode::h), 2);
    assert_eq!(info.calls_of_code(ModCode::m), 2);
    assert_eq!(info.calls_of_code(ModCode::a), 1);
    assert_eq!(info.calls_of_code(ModCode::C), 0);
}

#[test]
fn keep_set_redistributes_other_codes() {
    let cache = ReadCache::new(None, false).with_restriction(vec![ModCode::m]);
    let seq = b"ACGCA".to_vec();
    let v = cache.get_mod_base_probs(&b"C+hm?,0;".to_vec(), &vec![100u8, 50], DnaBase::C, &seq).unwrap();
    assert_eq!(v.len(), 1);
    assert_eq!(v[0].1.entries, vec![(ModCode::m, prob_of_ml(50) + prob_of_ml(100) / 2)]);
    let mut cache = ReadCache::new(None, false).with_restriction(vec![ModCode::m]);
    let r = record("r1", "ACGCA", false, Some("C+hm?,0;"), &[200, 20]);
    // h (0.78) is redistributed: m 0.39 + 0.08, canonical takes the rest
    let (pos, _) = cache.get_mod_call(&r, 101, DnaBase::C, 0);
    let m = prob_of_ml(20) + prob_of_ml(200) / 2;
    assert_eq!(pos, Some(BaseModCall::Canonical(PROB_SCALE - m)));
}
