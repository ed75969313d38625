use cramino::accumulator::Data;
use cramino::histograms::{
    build_histograms, build_length_histogram, build_qscore_histogram, histogram_count_rows,
    make_histogram_exons, make_histogram_identities, make_histogram_phaseblocks, QScoreHistogramData,
};

fn phred(identity: f64) -> usize {
    (-10.0 * (1.0 - identity / 100.0).log10()) as usize
}

#[test]
fn json_histograms_include_bins_with_scaled_and_unscaled_values() {
    let lengths = vec![1000u128, 3000, 5000];
    let identities = vec![90.0, 99.0, 90.0];
    let q10 = phred(90.0);
    let q99 = phred(99.0);
    let phreds: Vec<usize> = identities.iter().map(|x| phred(*x)).collect();
    let q_score_hist = QScoreHistogramData::from_phred_scores(&phreds, &lengths);
    assert_eq!(q_score_hist.counts[q10], 2);
    assert_eq!(q_score_hist.bases[q10], 6000);

    let data = Data {
        lengths: Some(lengths),
        num_reads: 3,
        all_counts: 3,
        q_score_hist: Some(q_score_hist),
        tids: None,
        starts: None,
        ends: None,
        phasesets: None,
        exons: None,
    };

    let histograms = build_histograms(&data);
    assert_eq!(histograms.read_length.bins.len(), 6);
    assert_eq!(histograms.read_length.bins[0].count, 1);
    assert_eq!(histograms.read_length.bins[0].bases, 1000);
    assert_eq!(histograms.read_length.bins[1].count, 1);
    assert_eq!(histograms.read_length.bins[1].bases, 3000);
    assert_eq!(histograms.read_length.bins[2].count, 1);
    assert_eq!(histograms.read_length.bins[2].bases, 5000);

    let q_score = histograms.q_score.as_ref().expect("Missing Q-score histogram");
    assert_eq!(q_score.bins.len(), 41);
    assert_eq!(q_score.bins[q10].count, 2);
    assert_eq!(q_score.bins[q10].bases, 6000);
    assert_eq!(q_score.bins[q99].count, 1);
    assert_eq!(q_score.bins[q99].bases, 3000);
    assert_ne!(q10, q99);
}

#[test]
fn histogram_counts_tsv_scaled_uses_bases() {
    let lengths = vec![1000u128, 3000, 5000];
    let rows = histogram_count_rows(&lengths, true).unwrap();
    assert_eq!(rows[0], (0, Some(2000), 1000));
    assert_eq!(rows[1], (2000, Some(4000), 3000));
    assert_eq!(rows[2], (4000, Some(6000), 5000));
    assert_eq!(rows.len(), 5);
}

#[test]
fn histogram_count_rows_show_overflow_only_when_present() {
    let rows = histogram_count_rows(&[70000, 1000, 1500], false).unwrap();
    assert_eq!(rows.len(), 31);
    assert_eq!(rows[0], (0, Some(2000), 2));
    assert_eq!(rows[30], (60000, None, 1));
    assert!(histogram_count_rows(&[], false).is_none());
}

#[test]
fn length_histogram_bins_cover_every_read_once() {
    let lengths = [45000u128, 9999, 10000, 2000, 1999, 0];
    let h = build_length_histogram(&lengths);
    assert_eq!(h.step, 2000);
    assert_eq!(h.max_value, 50000);
    assert_eq!(h.bins.len(), 26);
    assert_eq!(h.bins[0].count, 2);
    assert_eq!(h.bins[0].bases, 1999);
    assert_eq!(h.bins[1].count, 1);
    assert_eq!(h.bins[4].count, 1);
    assert_eq!(h.bins[5].start, 10000);
    assert_eq!(h.bins[5].count, 1);
    assert_eq!(h.bins[22].count, 1);
    assert_eq!(h.bins[25].start, 50000);
    assert_eq!(h.bins[25].end, None);
    let total: u64 = h.bins.iter().map(|b| b.count).sum();
    assert_eq!(total, lengths.len() as u64);
    let bases: u128 = h.bins.iter().map(|b| b.bases).sum();
    assert_eq!(bases, lengths.iter().sum::<u128>());
}

#[test]
fn length_histogram_is_capped_at_60kb() {
    let h = build_length_histogram(&[100000, 60000, 59999]);
    assert_eq!(h.max_value, 60000);
    assert_eq!(h.bins.len(), 31);
    assert_eq!(h.bins[29].count, 1);
    assert_eq!(h.bins[30].count, 2);
    assert_eq!(h.bins[30].bases, 160000);
}

#[test]
fn length_histogram_of_no_reads_is_empty() {
    let h = build_length_histogram(&[]);
    assert_eq!(h.bins.len(), 0);
    assert_eq!(h.max_value, 0);
}

#[test]
fn qscore_histogram_counts_every_read_once() {
    let phreds = [3usize, 40, 41, 100, 3, 0];
    let lengths = [10u128, 20, 30, 40, 50, 60];
    let data = QScoreHistogramData::from_phred_scores(&phreds, &lengths);
    let h = build_qscore_histogram(&data);
    assert_eq!(h.bins.len(), 41);
    assert_eq!(h.bins[3].count, 2);
    assert_eq!(h.bins[3].bases, 60);
    assert_eq!(h.bins[40].count, 3);
    assert_eq!(h.bins[40].bases, 90);
    assert_eq!(h.bins[40].end, None);
    let total: u64 = h.bins.iter().map(|b| b.count).sum();
    assert_eq!(total, phreds.len() as u64);
}

#[test]
fn qscore_histogram_without_identities_is_absent() {
    let data = Data {
        lengths: Some(vec![]),
        num_reads: 0,
        all_counts: 0,
        q_score_hist: None,
        tids: None,
        starts: None,
        ends: None,
        phasesets: None,
        exons: None,
    };
    let h = build_histograms(&data);
    assert!(h.q_score.is_none());
    assert!(h.read_length.bins.is_empty());
}

#[test]
fn phaseblock_bar_chart_counts() {
    let chart = make_histogram_phaseblocks(&[0, 9999, 10000, 999999, 1000000, 5000000, -5]);
    assert_eq!(chart.counts.len(), 101);
    assert_eq!(chart.counts[0], 3);
    assert_eq!(chart.counts[1], 1);
    assert_eq!(chart.counts[99], 1);
    assert_eq!(chart.counts[100], 2);
    assert_eq!(chart.dot_size, 1);
}

#[test]
fn exon_and_identity_bar_charts() {
    let exons = make_histogram_exons(&[1, 1, 2, 15, 20]);
    assert_eq!(exons.counts.len(), 16);
    assert_eq!(exons.counts[1], 2);
    assert_eq!(exons.counts[2], 1);
    assert_eq!(exons.counts[15], 2);
    let ids = make_histogram_identities(&vec![12usize; 1500]);
    assert_eq!(ids.counts[12], 1500);
    assert_eq!(ids.dot_size, 3);
}

#[test]
fn qscore_histogram_of_no_reads_has_no_bins() {
    let h = build_qscore_histogram(&QScoreHistogramData::new());
    assert!(h.bins.is_empty());
    assert_eq!(h.max_value, 40);
}

#[test]
fn build_histograms_hands_on_both_builders() {
    let lengths = vec![70000u128, 12000, 12000, 3];
    let q = QScoreHistogramData::from_phred_scores(&[5, 50, 5, 12], &lengths);
    let data = Data {
        lengths: Some(lengths.clone()),
        num_reads: 4,
        all_counts: 4,
        q_score_hist: Some(q.clone()),
        tids: None,
        starts: None,
        ends: None,
        phasesets: None,
        exons: None,
    };
    let h = build_histograms(&data);
    assert_eq!(h.read_length.bins, build_length_histogram(&lengths).bins);
    assert_eq!(h.read_length.max_value, 60000);
    assert_eq!(h.q_score.unwrap().bins, build_qscore_histogram(&q).bins);
}
