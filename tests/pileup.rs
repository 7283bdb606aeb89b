use modkit::interval_chunks::interval_chunks;
use modkit::mod_base_code::{DnaBase, ModCode, Strand};
use modkit::mod_pileup::{
    combine_strand_rows, process_region, Feature, FeatureVector, ModBasePileup, PileupAlignment,
    PileupColumn, PileupFeatureCounts, PileupNumericOptions, StrandRule,
};
use modkit::mod_probs::{CollapseMethod, PROB_SCALE};
use modkit::motif::find_motif_locations;
use modkit::profile::{get_fivemer, get_fivemer_from_seq, get_soft_clipped, process_record, CigarError, CigarOp};
use modkit::record::ModRecord;
use modkit::thresholds::{record_is_sampled, threshold_from_probs};

#[test]
fn test_feature_vector_basic() {
    let pos_observed_mods = vec![ModCode::m, ModCode::h];
    let neg_observed_mods = vec![];
    let mut fv = FeatureVector::new();
    fv.add_feature(Strand::Positive, Feature::NoCall(DnaBase::A), Strand::Positive, &StrandRule::Both);
    fv.add_feature(Strand::Positive, Feature::ModCall(ModCode::C), Strand::Positive, &StrandRule::Both);
    fv.add_feature(Strand::Positive, Feature::ModCall(ModCode::m), Strand::Positive, &StrandRule::Both);
    fv.add_feature(Strand::Positive, Feature::ModCall(ModCode::m), Strand::Positive, &StrandRule::Both);
    fv.add_feature(Strand::Positive, Feature::NoCall(DnaBase::C), Strand::Positive, &StrandRule::Both);
    fv.add_feature(Strand::Negative, Feature::NoCall(DnaBase::G), Strand::Positive, &StrandRule::Both);
    fv.add_feature(Strand::Negative, Feature::NoCall(DnaBase::G), Strand::Positive, &StrandRule::Both);
    let counts = fv.decode(&pos_observed_mods, &neg_observed_mods, &PileupNumericOptions::Passthrough);
    assert_eq!(counts.len(), 2); // h and m, negative strand should not be there
    for pileup_counts in counts {
        assert_eq!(pileup_counts.filtered_coverage, 3);
        assert_eq!(pileup_counts.n_nocall, 1);
        assert_eq!(pileup_counts.n_diff, 1);
        assert_eq!(pileup_counts.strand, Strand::Positive);
    }
    let mut fv = FeatureVector::new();
    let neg_observed_mods = vec![ModCode::m, ModCode::h];
    fv.add_feature(Strand::Positive, Feature::ModCall(ModCode::C), Strand::Positive, &StrandRule::Both);
    fv.add_feature(Strand::Negative, Feature::ModCall(ModCode::m), Strand::Positive, &StrandRule::Both);
    fv.add_feature(Strand::Negative, Feature::NoCall(DnaBase::G), Strand::Positive, &StrandRule::Both);
    fv.add_feature(Strand::Negative, Feature::NoCall(DnaBase::G), Strand::Positive, &StrandRule::Both);
    let counts = fv.decode(&pos_observed_mods, &neg_observed_mods, &PileupNumericOptions::Passthrough);
    assert_eq!(counts.len(), 4);
    counts.iter().filter(|c| c.strand == Strand::Negative).for_each(|c| assert_eq!(c.n_diff, 2));
}

#[test]
fn test_feature_vector_with_strand_rules() {
    let mut fv = FeatureVector::new();
    let pos_observed_mods = vec![ModCode::m];
    fv.add_feature(Strand::Positive, Feature::ModCall(ModCode::m), Strand::Positive, &StrandRule::Positive);
    // this feature should be ignored because it's on the wrong strand
    fv.add_feature(Strand::Negative, Feature::ModCall(ModCode::m), Strand::Positive, &StrandRule::Positive);
    let counts = fv.decode(&pos_observed_mods, &vec![], &PileupNumericOptions::Passthrough);
    assert_eq!(counts.len(), 1);
    let count = &counts[0];
    // change alignment strand to Positive and this will be 2
    assert_eq!(count.n_modified, 1);
}

#[test]
fn combine_mods_sums_h_and_m() {
    let mut fv = FeatureVector::new();
    for f in [Feature::ModCall(ModCode::h), Feature::ModCall(ModCode::m), Feature::ModCall(ModCode::m), Feature::ModCall(ModCode::C), Feature::Delete, Feature::Filtered] {
        fv.add_feature(Strand::Positive, f, Strand::Positive, &StrandRule::Both);
    }
    let counts = fv.decode(&vec![ModCode::h, ModCode::m], &vec![], &PileupNumericOptions::Combine);
    assert_eq!(counts.len(), 1);
    let c = counts[0];
    assert_eq!(c.raw_mod_code, 'C');
    assert_eq!(c.n_modified, 3);
    assert_eq!(c.n_other_modified, 0);
    assert_eq!(c.n_canonical, 1);
    assert_eq!(c.filtered_coverage, 4);
    assert_eq!(c.n_delete, 1);
    assert_eq!(c.n_filtered, 1);
}

#[test]
fn adenine_row_counts() {
    let mut fv = FeatureVector::new();
    fv.add_feature(Strand::Positive, Feature::ModCall(ModCode::a), Strand::Positive, &StrandRule::Both);
    fv.add_feature(Strand::Positive, Feature::ModCall(ModCode::A), Strand::Positive, &StrandRule::Both);
    fv.add_feature(Strand::Positive, Feature::NoCall(DnaBase::T), Strand::Positive, &StrandRule::Both);
    let counts = fv.decode(&vec![], &vec![], &PileupNumericOptions::Passthrough);
    assert_eq!(counts.len(), 1);
    assert_eq!(counts[0].raw_mod_code, 'a');
    assert_eq!(counts[0].n_modified, 1);
    assert_eq!(counts[0].n_canonical, 1);
    assert_eq!(counts[0].n_diff, 1);
    assert_eq!(counts[0].filtered_coverage, 2);
}

fn read(name: &str, seq: &str, reverse: bool, mm: &str, ml: &[u8], ref_start: u64) -> ModRecord {
    let n = seq.len();
    // forward read position i pairs with the reference position of the
    // stored base it came from
    let pairs = (0..n)
        .map(|i| {
            let stored = if reverse { n - 1 - i } else { i };
            (i, ref_start + stored as u64)
        })
        .collect();
    ModRecord {
        name: name.as_bytes().to_vec(),
        seq: seq.as_bytes().to_vec(),
        is_reverse: reverse,
        is_secondary: false,
        mm: Some(mm.as_bytes().to_vec()),
        ml: ml.to_vec(),
        legacy_tag_names: false,
        aligned_pairs: pairs,
    }
}

fn columns(n_reads: usize, positions: std::ops::Range<u32>, ref_start: u32) -> Vec<PileupColumn> {
    positions
        .map(|pos| PileupColumn {
            pos,
            alignments: (0..n_reads)
                .map(|r| PileupAlignment { record: r, is_del: false, is_refskip: false, qpos: Some((pos - ref_start) as usize) })
                .collect(),
        })
        .collect()
}

fn rows_at(p: &ModBasePileup, pos: u32) -> Vec<PileupFeatureCounts> {
    p.iter_counts().iter().find(|(q, _)| *q == pos).map(|(_, r)| r.clone()).unwrap_or_default()
}

#[test]
fn pileup_no_filtering_rows_add_up() {
    // reference ACGTACGT; two forward reads with m calls on both Cs
    let records = vec![
        read("r1", "ACGTACGT", false, "C+m?,0,0;", &[250, 10], 0),
        read("r2", "ACGTACGT", false, "C+m?,0,0;", &[240, 20], 0),
    ];
    let cols = columns(2, 0..8, 0);
    let p = process_region(&records, "chr1".to_string(), &cols, 0, 8, 0, &PileupNumericOptions::Passthrough, false, false, None);
    assert_eq!(p.chrom_name, "chr1");
    let at1 = rows_at(&p, 1);
    assert_eq!(at1.len(), 1);
    assert_eq!(at1[0].raw_mod_code, 'm');
    assert_eq!(at1[0].n_modified, 2);
    assert_eq!(at1[0].filtered_coverage, 2);
    let at5 = rows_at(&p, 5);
    assert_eq!(at5[0].n_canonical, 2);
    assert_eq!(at5[0].n_modified, 0);
    for (_, rows) in p.iter_counts() {
        for r in rows {
            assert_eq!(r.n_modified + r.n_canonical + r.n_other_modified, r.filtered_coverage);
        }
    }
    // positions without C calls give no rows
    assert!(rows_at(&p, 0).is_empty());
    assert_eq!(p.num_results(), 2);
}

#[test]
fn pileup_threshold_moves_low_calls_to_filtered() {
    let records = vec![
        read("r1", "ACGTACGT", false, "C+m?,0,0;", &[250, 130], 0),
        read("r2", "ACGTACGT", false, "C+m?,0,0;", &[240, 250], 0),
    ];
    let cols = columns(2, 0..8, 0);
    // a threshold of 0.6: calls of probability at most 0.6 are filtered
    let threshold = PROB_SCALE / 10 * 6;
    let p = process_region(&records, "chr1".to_string(), &cols, 0, 8, threshold, &PileupNumericOptions::Passthrough, false, false, None);
    let at1 = rows_at(&p, 1);
    assert_eq!(at1[0].n_modified, 2);
    assert_eq!(at1[0].n_filtered, 0);
    let at5 = rows_at(&p, 5);
    assert_eq!(at5[0].n_filtered, 1);
    assert_eq!(at5[0].n_modified, 1);
    assert_eq!(at5[0].filtered_coverage, 1);
    // with every call filtered a column has no rows
    let all_low = vec![read("r3", "ACGTACGT", false, "C+m?,0;", &[130], 0)];
    let p = process_region(&all_low, "chr1".to_string(), &columns(1, 0..8, 0), 0, 8, threshold, &PileupNumericOptions::Passthrough, false, false, None);
    assert!(rows_at(&p, 1).is_empty());
}

#[test]
fn pileup_threshold_from_percentile() {
    let probs: Vec<u64> = vec![90, 10, 50, 30, 70, 20, 80, 60];
    // 25th percentile of 8 values: index 2 of the sorted sample
    assert_eq!(threshold_from_probs(probs.clone(), 1, 4), Some(30));
    let mut shuffled = probs.clone();
    shuffled.reverse();
    assert_eq!(threshold_from_probs(shuffled, 1, 4), Some(30));
    assert_eq!(threshold_from_probs(probs.clone(), 1, 1), Some(90));
    assert_eq!(threshold_from_probs(probs, 0, 1), Some(10));
    assert_eq!(threshold_from_probs(vec![], 1, 4), None);
}

#[test]
fn sampling_by_fraction() {
    assert!(record_is_sampled(0, 1, 2));
    assert!(record_is_sampled(u64::MAX / 2, 1, 2));
    assert!(!record_is_sampled(u64::MAX / 2 + 1, 1, 2));
    assert!(!record_is_sampled(0, 0, 1));
    assert!(record_is_sampled(u64::MAX, 1, 1));
}

#[test]
fn cpg_strand_combine_sums_mirrored_counts() {
    // reference AACGTT: CpG at 2 (C, + strand) and 3 (G, - strand)
    // r1 forward: m call on the C at ref 2.
    // r2 reverse: stored AACGTT, forward read AACGTT reversed-complemented = AACGTT;
    // its C calls on the forward read sit at the reference G (3).
    let records = vec![
        read("r1", "AACGTT", false, "C+m?,0;", &[250], 0),
        read("r2", "AACGTT", true, "C+m?,0;", &[250], 0),
    ];
    let cols = columns(2, 0..6, 0);
    let motifs = find_motif_locations(&b"AACGTT".to_vec(), &b"CG".to_vec(), 0);
    assert_eq!(motifs, vec![(2, Strand::Positive), (3, Strand::Negative)]);
    let plain = process_region(&records, "c".to_string(), &cols, 0, 6, 0, &PileupNumericOptions::Passthrough, false, false, Some(&motifs));
    let plus = rows_at(&plain, 2);
    let minus = rows_at(&plain, 3);
    assert_eq!(plus.len(), 1);
    assert_eq!(plus[0].strand, Strand::Positive);
    assert_eq!(minus.len(), 1);
    assert_eq!(minus[0].strand, Strand::Negative);
    let combined = process_region(&records, "c".to_string(), &cols, 0, 6, 0, &PileupNumericOptions::Passthrough, false, true, Some(&motifs));
    let at2 = rows_at(&combined, 2);
    assert_eq!(at2.len(), 1);
    assert_eq!(at2[0].n_modified, plus[0].n_modified + minus[0].n_modified);
    assert_eq!(at2[0].n_modified, 2);
    assert!(rows_at(&combined, 3).is_empty());
    for (_, rows) in combined.iter_counts() {
        assert!(rows.iter().all(|r| r.strand == Strand::Positive));
    }
}

#[test]
fn combine_rows_keeps_orphans() {
    let row = |strand, code, n_mod| PileupFeatureCounts {
        strand,
        filtered_coverage: n_mod + 1,
        raw_mod_code: code,
        n_canonical: 1,
        n_modified: n_mod,
        n_other_modified: 0,
        n_delete: 0,
        n_filtered: 0,
        n_diff: 0,
        n_nocall: 0,
    };
    let plus = vec![row(Strand::Positive, 'm', 2)];
    let minus = vec![row(Strand::Negative, 'm', 3), row(Strand::Negative, 'h', 4)];
    let out = combine_strand_rows(&plus, &minus);
    assert_eq!(out.len(), 2);
    assert_eq!(out[0].n_modified, 5);
    assert_eq!(out[0].filtered_coverage, 7);
    assert_eq!(out[1].raw_mod_code, 'h');
    assert_eq!(out[1].strand, Strand::Positive);
}

#[test]
fn collapse_option_redistributes_h_in_pileup() {
    // one position with h 100, m 50; collapsing h leaves m with 100
    let records = vec![read("r1", "ACG", false, "C+hm?,0;", &[100, 50], 0)];
    let cols = columns(1, 0..3, 0);
    let opts = PileupNumericOptions::Collapse(CollapseMethod::ReDistribute(ModCode::h));
    let p = process_region(&records, "c".to_string(), &cols, 0, 3, 0, &opts, false, false, None);
    let at1 = rows_at(&p, 1);
    assert_eq!(at1.len(), 1);
    assert_eq!(at1[0].raw_mod_code, 'm');
    // canonical (0.41) beats m (0.39) after the redistribution
    assert_eq!(at1[0].n_canonical, 1);
}

#[test]
fn implicit_mode_needs_force_allow() {
    let records = vec![read("r1", "ACG", false, "C+m,0;", &[250], 0)];
    let cols = columns(1, 0..3, 0);
    let p = process_region(&records, "c".to_string(), &cols, 0, 3, 0, &PileupNumericOptions::Passthrough, false, false, None);
    assert!(rows_at(&p, 1).is_empty());
    let p = process_region(&records, "c".to_string(), &cols, 0, 3, 0, &PileupNumericOptions::Passthrough, true, false, None);
    assert_eq!(rows_at(&p, 1)[0].n_modified, 1);
}

#[test]
fn intervals_cover_contig() {
    assert_eq!(interval_chunks(0, 60, 25, None), vec![(0, 25), (25, 50), (50, 60)]);
    assert_eq!(interval_chunks(10, 50, 25, None), vec![(10, 35), (35, 60)]);
    assert!(interval_chunks(5, 0, 25, None).is_empty());
    let motifs = vec![(30u32, Strand::Positive)];
    assert_eq!(interval_chunks(0, 60, 25, Some(&motifs)), vec![(25, 50)]);
}

#[test]
fn motif_locations_both_strands() {
    let locs = find_motif_locations(&b"acgTTCGA".to_vec(), &b"CG".to_vec(), 0);
    assert_eq!(locs, vec![(1, Strand::Positive), (2, Strand::Negative), (5, Strand::Positive), (6, Strand::Negative)]);
    // a non-palindromic motif: GATC is its own reverse complement, GAA is not
    let locs = find_motif_locations(&b"TTCAAGAA".to_vec(), &b"GAA".to_vec(), 1);
    assert_eq!(locs, vec![(1, Strand::Negative), (6, Strand::Positive)]);
}

#[test]
fn fivemers_around_positions() {
    assert_eq!(get_fivemer(&b"ACGTA".to_vec(), 0), b"--ACG".to_vec());
    assert_eq!(get_fivemer(&b"ACGTA".to_vec(), 2), b"ACGTA".to_vec());
    assert_eq!(get_fivemer(&b"ACGTA".to_vec(), 4), b"GTA--".to_vec());
    // the - strand reads the reverse complement
    assert_eq!(get_fivemer_from_seq(&b"AACGT".to_vec(), false, 2, Strand::Negative), b"ACGTT".to_vec());
    // a reverse record is turned forward first: AACGT -> ACGTT
    assert_eq!(get_fivemer_from_seq(&b"AACGT".to_vec(), true, 1, Strand::Positive), b"-ACGT".to_vec());
}

#[test]
fn test_cigar_finds_softclips() {
    let cigar = vec![CigarOp::SoftClip(5), CigarOp::Other, CigarOp::SoftClip(3)];
    assert_eq!(get_soft_clipped(&cigar), Ok((5, 3)));
    assert_eq!(get_soft_clipped(&vec![CigarOp::Other]), Ok((0, 0)));
    assert_eq!(get_soft_clipped(&vec![CigarOp::SoftClip(2), CigarOp::Other]), Ok((2, 0)));
    let bad = vec![CigarOp::SoftClip(1), CigarOp::SoftClip(1), CigarOp::SoftClip(1)];
    assert_eq!(get_soft_clipped(&bad), Err(CigarError::TooManySoftClips));
}

#[test]
fn profiles_of_a_read() {
    let r = read("r1", "ACGCA", false, "C+hm?,0,0;", &[10, 250, 20, 30], 100);
    let quals = vec![30u8, 31, 32, 33, 34];
    let cigar = vec![CigarOp::SoftClip(1), CigarOp::Other, CigarOp::SoftClip(2)];
    let p = process_record(&r, &quals, &cigar, false, &None).unwrap();
    assert_eq!(p.record_name, b"r1".to_vec());
    assert_eq!(p.profile.len(), 4);
    let positions: Vec<usize> = p.profile.iter().map(|x| x.query_position).collect();
    assert_eq!(positions, vec![1, 1, 3, 3]);
    let first = &p.profile[0];
    assert_eq!(first.ref_position, Some(101));
    assert_eq!(first.q_base, 31);
    assert_eq!(first.query_kmer, b"-ACGC".to_vec());
    assert_eq!(first.num_soft_clipped_start, 1);
    assert_eq!(first.num_soft_clipped_end, 2);
    assert_eq!(first.alignment_strand, Some(Strand::Positive));
    assert_eq!(first.read_length, 5);
    // a reverse read lists its calls from the last forward position down
    let rr = read("r2", "TGCGT", true, "C+m?,0,0;", &[10, 250], 100);
    let p = process_record(&rr, &quals, &cigar, false, &None).unwrap();
    let positions: Vec<usize> = p.profile.iter().map(|x| x.query_position).collect();
    assert_eq!(positions, vec![3, 1]);
    assert_eq!(p.profile[0].num_soft_clipped_start, 2);
    assert_eq!(p.profile[0].q_base, 31);
    let bad = vec![CigarOp::SoftClip(1), CigarOp::SoftClip(1), CigarOp::SoftClip(1)];
    assert!(process_record(&r, &quals, &bad, false, &None).is_err());
}

#[test]
fn cpg_across_interval_boundary_reported_once() {
    // CpG at 2 (+) and 3 (-); intervals [0, 3) and [3, 6)
    let records = vec![
        read("r1", "AACGTT", false, "C+m?,0;", &[250], 0),
        read("r2", "AACGTT", true, "C+m?,0;", &[250], 0),
    ];
    let cols = columns(2, 0..6, 0);
    let motifs = find_motif_locations(&b"AACGTT".to_vec(), &b"CG".to_vec(), 0);
    let opts = PileupNumericOptions::Passthrough;
    let first = process_region(&records, "c".to_string(), &cols, 0, 3, 0, &opts, false, true, Some(&motifs));
    let second = process_region(&records, "c".to_string(), &cols, 3, 6, 0, &opts, false, true, Some(&motifs));
    let at2 = rows_at(&first, 2);
    assert_eq!(at2.len(), 1);
    assert_eq!(at2[0].n_modified, 2);
    assert_eq!(at2[0].strand, Strand::Positive);
    assert_eq!(first.num_results(), 1);
    assert_eq!(second.num_results(), 0);
    // every key lies in its interval
    for (q, _) in first.iter_counts() {
        assert!(q < 3);
    }
}

#[test]
fn secondary_and_empty_reads_add_nothing() {
    let mut secondary = read("r1", "ACGT", false, "C+m?,0;", &[250], 0);
    secondary.is_secondary = true;
    let empty = ModRecord { seq: Vec::new(), ..read("r2", "ACGT", false, "C+m?,0;", &[250], 0) };
    let records = vec![secondary, empty];
    let p = process_region(&records, "c".to_string(), &columns(2, 0..4, 0), 0, 4, 0, &PileupNumericOptions::Passthrough, false, false, None);
    assert_eq!(p.num_results(), 0);
}
