use cramino::cli::{is_file, is_stream_or_remote, BamFile, Cli, OutputFormat};

#[test]
fn output_format_parses_in_any_case() {
    assert_eq!(OutputFormat::parse("JSON"), Some(OutputFormat::Json));
    assert_eq!(OutputFormat::parse("Text"), Some(OutputFormat::Text));
    assert_eq!(OutputFormat::parse("tsv"), Some(OutputFormat::Tsv));
    assert_eq!(OutputFormat::parse("yaml"), None);
    assert_eq!(OutputFormat::from_lowercase("JSON"), None);
    assert_eq!(OutputFormat::Tsv.name(), "tsv");
}

#[test]
fn file_name_is_the_last_path_component() {
    let f = BamFile { path: "test-data/small-test-phased.bam".to_string() };
    assert_eq!(f.file_name(), Some("small-test-phased.bam".to_string()));
    let up = BamFile { path: "data/..".to_string() };
    assert_eq!(up.file_name(), None);
}

#[test]
fn streams_and_remote_inputs_need_no_file() {
    assert!(is_stream_or_remote("-"));
    assert!(is_stream_or_remote("https://example.org/x.cram"));
    assert!(is_stream_or_remote("s3://bucket/x.bam"));
    assert!(is_stream_or_remote("ftp://host/x.bam"));
    assert!(!is_stream_or_remote("reads.bam"));
    assert!(is_file("-", false));
    assert!(!is_file("reads.bam", false));
    assert!(is_file("reads.bam", true));
}

#[test]
fn unaligned_input_turns_off_alignment_metrics() {
    let cli = Cli {
        input: "-".to_string(),
        threads: 4,
        reference: None,
        min_read_len: 10,
        hist: None,
        hist_count: Some(None),
        scaled: false,
        arrow: None,
        karyotype: true,
        phased: true,
        spliced: true,
        ubam: true,
        format: OutputFormat::Text,
    };
    let cli = cli.normalized();
    assert!(!cli.karyotype && !cli.phased && !cli.spliced);
    let config = cli.metric_config();
    assert!(!config.identities);
    let policy = cli.filter_policy();
    assert!(policy.include_unaligned);
    assert_eq!(policy.min_length, 10);
    assert!(cli.histograms_requested());
}
