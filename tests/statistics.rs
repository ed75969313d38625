use cramino::calculations::{calculate_data_yield, central_pair, get_n, median_splice, modal_bucket, tally};
use cramino::phased::get_n50;
use cramino::report::{count_phased, get_genome_size, splice_summary, summarize_reads};

#[test]
fn test_modal_accuracy() {
    let array = [1.1f64, 2.2, 2.2, 3.3, 4.4];
    let expected = 2.2;
    let keys: Vec<i32> = array.iter().map(|x| (x * 10.0) as i32).collect();
    let result = modal_bucket(&keys) as f64 / 10.0;
    assert_eq!(result, expected, "The modal accuracy calculation failed!");
}

#[test]
fn modal_bucket_picks_one_of_the_most_frequent() {
    let m = modal_bucket(&[5, 7, 7, 5, 1]);
    assert!(m == 5 || m == 7);
    assert_eq!(modal_bucket(&[1, 7, 7, 5]), 7);
    assert_eq!(modal_bucket(&[3]), 3);
}

#[test]
fn tally_counts_each_value_once() {
    let mut t = tally(&[4, -1, 4, 2, 4]);
    t.sort();
    assert_eq!(t, vec![(-1, 1), (2, 1), (4, 3)]);
    assert!(tally(&[]).is_empty());
}

#[test]
fn n50_and_n75_of_descending_lengths() {
    let lengths = vec![5000u128, 3000, 1000];
    let total = 9000u128;
    assert_eq!(get_n(&lengths, total, 1, 2), 5000);
    assert_eq!(get_n(&lengths, total, 3, 4), 3000);
    assert_eq!(get_n(&lengths, total, 1, 1), 1000);
}

#[test]
fn n_value_is_a_member_and_non_increasing() {
    let lengths = vec![10u128, 8, 8, 5, 3, 1];
    let total: u128 = lengths.iter().sum();
    let mut previous = u128::MAX;
    for pct in 1u64..=100 {
        let v = get_n(&lengths, total, pct, 100);
        assert!(lengths.contains(&v));
        assert!(v <= previous);
        previous = v;
    }
}

#[test]
fn n_value_threshold_is_strict() {
    // a running sum equal to half the total does not cross it
    assert_eq!(get_n(&[2, 2], 4, 1, 2), 2);
    assert_eq!(get_n(&[3, 1], 4, 1, 2), 3);
    assert_eq!(get_n(&[2, 1, 1], 4, 1, 2), 1);
}

#[test]
fn n_value_of_empty_input_is_zero() {
    assert_eq!(get_n(&[], 0, 1, 2), 0);
    assert_eq!(get_n(&[], 0, 3, 4), 0);
    assert_eq!(get_n(&[], 0, 1, 1), 0);
}

#[test]
fn data_yield_counts_long_reads_above_25kb() {
    assert_eq!(calculate_data_yield(&[30000, 25000, 25001, 10]), (80011, 55001));
    assert_eq!(calculate_data_yield(&[]), (0, 0));
}

#[test]
fn median_of_counts() {
    assert_eq!(median_splice(&[1, 2, 3]), 2);
    assert_eq!(median_splice(&[1, 2, 4, 9]), 3);
    assert_eq!(median_splice(&[7]), 7);
    assert_eq!(median_splice(&[usize::MAX, usize::MAX]), usize::MAX);
}

#[test]
fn central_pair_of_odd_and_even_lengths() {
    assert_eq!(central_pair(&[9u128, 5, 1]), (5, 5));
    assert_eq!(central_pair(&[9u128, 5, 3, 1]), (5, 3));
}

#[test]
fn splice_median_does_not_depend_on_order() {
    let a = splice_summary(&vec![3, 1, 1, 2, 5]).unwrap();
    let b = splice_summary(&vec![5, 2, 1, 3, 1]).unwrap();
    assert_eq!(a.median_exons, 2);
    assert_eq!(a, b);
    assert_eq!(a.total_exons, 12);
    assert_eq!(a.num_single_exon, 2);
    assert_eq!(a.num_reads, 5);
    assert!(splice_summary(&vec![]).is_none());
}

#[test]
fn read_summary_of_three_reads() {
    let s = summarize_reads(&[30000, 5000, 1000], 2, 4).unwrap();
    assert_eq!(s.num_alignments, 3);
    assert_eq!(s.num_reads, 2);
    assert_eq!(s.all_counts, 4);
    assert_eq!(s.data_yield, 36000);
    assert_eq!(s.data_yield_long, 30000);
    assert_eq!(s.n50, 30000);
    assert_eq!(s.n75, 30000);
    assert_eq!(s.median_pair, (5000, 5000));
    assert!(summarize_reads(&[], 0, 0).is_none());
}

#[test]
fn phase_block_n50() {
    assert_eq!(get_n50(&[150, 100], 250), 150);
    assert_eq!(get_n50(&[100, 100], 200), 100);
    assert_eq!(get_n50(&[5, 4, 3, 2, 1], 15), 4);
}

#[test]
fn genome_size_sums_reference_lengths() {
    assert_eq!(get_genome_size(&[248956422, 242193529]), 491149951);
    assert_eq!(get_genome_size(&[u64::MAX, 1]), u64::MAX as u128 + 1);
    assert_eq!(get_genome_size(&[]), 0);
}

#[test]
fn phased_records_are_counted() {
    assert_eq!(count_phased(&[Some(1), None, Some(0)]), 2);
}
