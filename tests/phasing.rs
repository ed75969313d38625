use cramino::phased::{phase_metrics, summarize_phase_blocks};

#[test]
fn phase_blocks_merge_same_reference_and_phase_set() {
    let tids = [0, 0, 0];
    let starts = [0i64, 50, 200];
    let ends = [100i64, 150, 300];
    let phasesets = [Some(1u32), Some(1), Some(2)];
    assert_eq!(phase_metrics(&tids, &starts, &ends, &phasesets), vec![150, 100]);
}

#[test]
fn phase_blocks_sort_their_input_and_skip_unphased_reads() {
    let tids = [1, 0, 0, 0];
    let starts = [10i64, 200, 0, 50];
    let ends = [20i64, 300, 100, 150];
    let phasesets = [Some(1u32), Some(2), Some(1), None];
    assert_eq!(phase_metrics(&tids, &starts, &ends, &phasesets), vec![100, 100, 10]);
}

#[test]
fn phase_block_end_is_the_largest_end() {
    let tids = [0, 0];
    let starts = [0i64, 10];
    let ends = [500i64, 20];
    let phasesets = [Some(7u32), Some(7)];
    assert_eq!(phase_metrics(&tids, &starts, &ends, &phasesets), vec![500]);
}

#[test]
fn no_phased_reads_give_no_blocks() {
    assert!(phase_metrics(&[0], &[0], &[10], &[None]).is_empty());
    assert!(phase_metrics(&[], &[], &[], &[]).is_empty());
}

#[test]
fn phase_summary_totals_and_n50() {
    let s = summarize_phase_blocks(&vec![100, 150, 50]).unwrap();
    assert_eq!(s.num_phaseblocks, 3);
    assert_eq!(s.total_bases_phased, 300);
    assert_eq!(s.n50_phaseblock_length, 100);
    assert_eq!(s.median_pair, (100, 100));
    assert!(summarize_phase_blocks(&vec![]).is_none());
}
