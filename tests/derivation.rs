use cramino::accumulator::{Accumulator, MetricConfig, RecordObservation};
use cramino::derivation::{
    effective_length, get_exon_number, get_nm_tag, get_phaseset, identity_terms, softclipped_bases,
    AuxValue, CigarOp, DerivationError, IdentityTerms,
};
use cramino::filter::{is_secondary, is_supplementary, FilterPolicy};
use cramino::karyotype::{reference_counts, sort_by_density};

#[test]
fn soft_clips_at_both_ends_are_removed() {
    let ops = [CigarOp::HardClip(5), CigarOp::SoftClip(10), CigarOp::Match(100), CigarOp::SoftClip(3)];
    assert_eq!(softclipped_bases(&ops), 13);
    assert_eq!(effective_length(113, &ops), Ok(100));
    assert_eq!(effective_length(12, &ops), Err(DerivationError::NegativeLength));
    assert_eq!(softclipped_bases(&[]), 0);
}

#[test]
fn exon_count_is_one_more_than_reference_skips() {
    let ops = [CigarOp::Match(10), CigarOp::RefSkip(500), CigarOp::Match(10), CigarOp::RefSkip(9), CigarOp::Match(1)];
    assert_eq!(get_exon_number(&ops), 3);
    assert_eq!(get_exon_number(&[CigarOp::Match(10)]), 1);
}

#[test]
fn identity_terms_count_each_gap_once() {
    let ops = [CigarOp::Match(90), CigarOp::Ins(5), CigarOp::Equal(5), CigarOp::Del(3), CigarOp::Diff(5), CigarOp::SoftClip(7)];
    let t = identity_terms(&ops, 12).unwrap();
    assert_eq!(t, IdentityTerms { numerator: 12 - 8 + 2, denominator: 100 + 2 });
    assert_eq!(identity_terms(&[CigarOp::SoftClip(5)], 0), Err(DerivationError::DegenerateAlignment));
}

#[test]
fn edit_distance_tag_encodings() {
    assert_eq!(get_nm_tag(Some(AuxValue::U8(7))), Ok(7));
    assert_eq!(get_nm_tag(Some(AuxValue::I32(70000))), Ok(70000));
    assert_eq!(get_nm_tag(Some(AuxValue::I16(-1))), Err(DerivationError::InvalidTag));
    assert_eq!(get_nm_tag(Some(AuxValue::Float)), Err(DerivationError::InvalidTag));
    assert_eq!(get_nm_tag(None), Err(DerivationError::MissingTag));
}

#[test]
fn phase_set_tag_encodings() {
    assert_eq!(get_phaseset(None), Ok(None));
    assert_eq!(get_phaseset(Some(AuxValue::U32(123456))), Ok(Some(123456)));
    assert_eq!(get_phaseset(Some(AuxValue::I8(4))), Ok(Some(4)));
    assert_eq!(get_phaseset(Some(AuxValue::I32(-4))), Err(DerivationError::NegativePhaseSet));
    assert_eq!(get_phaseset(Some(AuxValue::Other)), Err(DerivationError::InvalidTag));
}

#[test]
fn filter_policy_decisions() {
    let strict = FilterPolicy { include_unaligned: false, min_length: 100 };
    assert!(strict.passes(0, 101));
    assert!(!strict.passes(0, 100));
    assert!(!strict.passes(0x4, 500));
    let open = FilterPolicy { include_unaligned: true, min_length: 0 };
    assert!(open.passes(0x4, 0));
    assert!(is_secondary(0x100));
    assert!(!is_secondary(0x800));
    assert!(is_supplementary(0x800));
}

fn record(flags: u16, seq_len: usize, tid: i32, pos: i64, ps: Option<AuxValue>, phred: usize) -> RecordObservation {
    RecordObservation {
        flags,
        seq_len,
        cigar: vec![CigarOp::SoftClip(2), CigarOp::Match((seq_len - 2) as u32), CigarOp::RefSkip(10)],
        tid,
        pos,
        reference_end: pos + seq_len as i64,
        phase_tag: ps,
        phred: Ok(phred),
    }
}

#[test]
fn accumulator_keeps_families_in_lock_step() {
    let config = MetricConfig { identities: true, reference_ids: true, phasing: true, splicing: true };
    let mut acc = Accumulator::new(config, FilterPolicy { include_unaligned: false, min_length: 0 });
    assert_eq!(acc.observe(&record(0, 100, 0, 10, Some(AuxValue::U8(1)), 12)), Ok(true));
    assert_eq!(acc.observe(&record(0x100, 100, 0, 10, None, 12)), Ok(false));
    assert_eq!(acc.observe(&record(0x4, 100, -1, -1, None, 12)), Ok(false));
    assert_eq!(acc.observe(&record(0x800, 300, 1, 5, None, 45)), Ok(true));
    assert_eq!(
        acc.observe(&record(0, 50, 0, 0, Some(AuxValue::I16(-3)), 12)),
        Err(DerivationError::NegativePhaseSet)
    );
    let mut failing = record(0, 60, 0, 0, None, 0);
    failing.phred = Err(DerivationError::DegenerateAlignment);
    assert_eq!(acc.observe(&failing), Err(DerivationError::DegenerateAlignment));
    assert_eq!(acc.all_counts, 5);
    assert_eq!(acc.skipped, 2);
    assert_eq!(acc.num_reads, 1);
    let data = acc.finish();
    assert_eq!(data.lengths, Some(vec![298, 98]));
    assert_eq!(data.tids, Some(vec![0, 1]));
    assert_eq!(data.starts, Some(vec![10, 5]));
    assert_eq!(data.phasesets, Some(vec![Some(1), None]));
    assert_eq!(data.exons, Some(vec![2, 2]));
    let q = data.q_score_hist.unwrap();
    assert_eq!(q.counts[12], 1);
    assert_eq!(q.counts[40], 1);
    assert_eq!(q.bases[40], 298);
}

#[test]
fn accumulator_length_filter_and_unaligned_mode() {
    let config = MetricConfig { identities: false, reference_ids: false, phasing: false, splicing: false };
    let mut acc = Accumulator::new(config, FilterPolicy { include_unaligned: true, min_length: 100 });
    assert_eq!(acc.observe(&record(0x4, 100, -1, -1, None, 0)), Ok(false));
    assert_eq!(acc.observe(&record(0x4, 101, -1, -1, None, 0)), Ok(true));
    let data = acc.finish();
    assert_eq!(data.all_counts, 2);
    assert_eq!(data.lengths, Some(vec![99]));
    assert!(data.q_score_hist.is_none());
    assert!(data.tids.is_none());
    assert!(data.exons.is_none());
}

#[test]
fn accumulator_sorts_lengths_descending() {
    let config = MetricConfig { identities: false, reference_ids: false, phasing: false, splicing: false };
    let mut acc = Accumulator::new(config, FilterPolicy { include_unaligned: false, min_length: 0 });
    for len in [300usize, 1000, 50, 1000, 7] {
        assert_eq!(acc.observe(&record(0, len, 0, 0, None, 0)), Ok(true));
    }
    assert_eq!(acc.finish().lengths, Some(vec![998, 998, 298, 48, 5]));
}

#[test]
fn reads_per_reference_skip_unplaced_reads() {
    let mut counts = reference_counts(&[2, 0, -1, 2, 2, 0]);
    counts.sort();
    assert_eq!(counts, vec![(0, 2), (2, 3)]);
    assert!(reference_counts(&[-1, -1]).is_empty());
}

#[test]
fn references_ordered_by_read_density() {
    let entries = vec![(0, 10usize, 100u64), (1, 50, 100), (2, 1, 100), (3, 30, 1000), (4, 20, 50)];
    let sorted = sort_by_density(&entries);
    let order: Vec<i32> = sorted.iter().map(|e| e.0).collect();
    assert_eq!(order, vec![2, 3, 0, 4, 1]);
    let m = sorted[sorted.len() / 2];
    let normalized: Vec<f64> = sorted
        .iter()
        .map(|e| (e.1 as f64 * m.2 as f64) / (e.2 as f64 * m.1 as f64))
        .collect();
    assert_eq!(normalized[2], 1.0);
    assert!(normalized.windows(2).all(|w| w[0] <= w[1]));
}
