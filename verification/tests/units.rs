//! Tests of the pipeline's pieces: the measurement parser, the statistics
//! record, chunk partitioning, per-chunk folding and merging.
use station_stats::chunks::{merge_maps, process_chunk};
use station_stats::emit::{lex_lt_bytes, render_entries, sorted_entries};
use station_stats::parse::parse_measurement;
use station_stats::pipeline::{partition_ranges, summarize};
use station_stats::stats::Stats;

#[test]
fn parse_plain_and_signed() {
    assert_eq!(parse_measurement(b"12.0"), Some(120));
    assert_eq!(parse_measurement(b"-5.5"), Some(-55));
    assert_eq!(parse_measurement(b"0.0"), Some(0));
    assert_eq!(parse_measurement(b"99.9"), Some(999));
    assert_eq!(parse_measurement(b"-99.9"), Some(-999));
    assert_eq!(parse_measurement(b"7"), Some(70));
    assert_eq!(parse_measurement(b"-8"), Some(-80));
    assert_eq!(parse_measurement(b"007.5"), Some(75));
}

#[test]
fn parse_rejects_malformed() {
    assert_eq!(parse_measurement(b""), None);
    assert_eq!(parse_measurement(b"-"), None);
    assert_eq!(parse_measurement(b"."), None);
    assert_eq!(parse_measurement(b"bad"), None);
    assert_eq!(parse_measurement(b"1."), None);
    assert_eq!(parse_measurement(b".5"), None);
    assert_eq!(parse_measurement(b"1.25"), None);
    assert_eq!(parse_measurement(b"1.x"), None);
    assert_eq!(parse_measurement(b"1x.2"), None);
    assert_eq!(parse_measurement(b"--1.0"), None);
    assert_eq!(parse_measurement(b"1.0 "), None);
}

#[test]
fn parse_accepts_large_magnitudes() {
    assert_eq!(parse_measurement(b"100.0"), Some(1000));
    assert_eq!(parse_measurement(b"-100.0"), Some(-1000));
    assert_eq!(parse_measurement(b"1000"), Some(10000));
    // the largest representable magnitude, in tenths: i64::MAX
    assert_eq!(parse_measurement(b"922337203685477580.7"), Some(i64::MAX));
    assert_eq!(parse_measurement(b"-922337203685477580.7"), Some(-i64::MAX));
}

#[test]
fn parse_rejects_unrepresentable_magnitudes() {
    // one tenth past i64::MAX
    assert_eq!(parse_measurement(b"922337203685477580.8"), None);
    assert_eq!(parse_measurement(b"-922337203685477580.8"), None);
    assert_eq!(parse_measurement(b"9223372036854775807"), None);
    assert_eq!(parse_measurement(b"99999999999999999999.9"), None);
}

#[test]
fn stats_fold_and_mean() {
    let mut st = Stats::new(62); // 6.2
    st.fold_value(230); // 23.0
    assert_eq!(st.min, 62);
    assert_eq!(st.max, 230);
    assert_eq!(st.sum, 292);
    assert_eq!(st.count, 2);
    assert_eq!(st.mean_tenths(), 146);
}

#[test]
fn stats_merge_combines_fields() {
    let mut a = Stats::new(-10);
    a.fold_value(30);
    let mut b = Stats::new(20);
    b.fold_value(-50);
    a.merge_from(&b);
    assert_eq!(a.min, -50);
    assert_eq!(a.max, 30);
    assert_eq!(a.sum, -10);
    assert_eq!(a.count, 4);
}

#[test]
fn mean_ties_round_away_from_zero() {
    let mut st = Stats::new(1);
    st.fold_value(2); // 0.15 -> 0.2
    assert_eq!(st.mean_tenths(), 2);
    let mut st = Stats::new(-1);
    st.fold_value(-2); // -0.15 -> -0.2
    assert_eq!(st.mean_tenths(), -2);
}

#[test]
fn lex_order_is_bytewise() {
    assert!(lex_lt_bytes(b"a", b"b"));
    assert!(lex_lt_bytes(b"a", b"ab"));
    assert!(!lex_lt_bytes(b"ab", b"a"));
    assert!(!lex_lt_bytes(b"a", b"a"));
    assert!(lex_lt_bytes(b"", b"a"));
    assert!(lex_lt_bytes(b"St.", b"Sta"));
}

#[test]
fn partition_covers_input_at_line_boundaries() {
    let input = b"aa;1.0\nbb;2.0\ncc;3.0\ndd;4.0\n";
    for workers in 1..7 {
        let ranges = partition_ranges(input, workers);
        assert_eq!(ranges.len(), workers);
        assert_eq!(ranges[0].0, 0);
        assert_eq!(ranges[ranges.len() - 1].1, input.len());
        for w in ranges.windows(2) {
            assert_eq!(w[0].1, w[1].0);
        }
        for &(s, e) in &ranges {
            assert!(s <= e);
            assert!(e == input.len() || input[e - 1] == b'\n');
        }
    }
}

#[test]
fn split_process_merge_matches_whole() {
    let a = b"A;1.0\nB;2.0\nA;3.0\n";
    let b = b"B;-4.0\nC;5.0\n";
    let mut whole = a.to_vec();
    whole.extend_from_slice(b);
    let merged = merge_maps(process_chunk(a), process_chunk(b));
    let out = render_entries(&sorted_entries(merged));
    assert_eq!(out, summarize(&whole, 1));
    assert_eq!(out, b"A;1.0;2.0;3.0\nB;-4.0;-1.0;2.0\nC;5.0;5.0;5.0\n".to_vec());
}

#[test]
fn process_chunk_skips_lines_without_delimiter() {
    let merged = merge_maps(process_chunk(b"noise\nA;1.0\n"), process_chunk(b""));
    let out = render_entries(&sorted_entries(merged));
    assert_eq!(out, b"A;1.0;1.0;1.0\n".to_vec());
}

#[test]
fn merge_association_does_not_matter() {
    let a = b"A;1.0\nB;2.0\n";
    let b = b"A;3.0\n";
    let c = b"C;-1.5\nB;4.0";
    let mut whole = a.to_vec();
    whole.extend_from_slice(b);
    whole.extend_from_slice(c);
    let left = merge_maps(merge_maps(process_chunk(a), process_chunk(b)), process_chunk(c));
    let right = merge_maps(process_chunk(a), merge_maps(process_chunk(b), process_chunk(c)));
    let out_left = render_entries(&sorted_entries(left));
    let out_right = render_entries(&sorted_entries(right));
    assert_eq!(out_left, out_right);
    assert_eq!(out_left, summarize(&whole, 1));
}
