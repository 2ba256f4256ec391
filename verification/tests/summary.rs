//! End-to-end tests of the summary pipeline.
use station_stats::pipeline::summarize;

fn run(input: &[u8]) -> Vec<u8> {
    summarize(input, 8)
}

#[test]
fn ten_stations_sorted() {
    let input = b"Hamburg;12.0\nBulawayo;8.9\nPalembang;38.8\nSt. John's;15.2\nCracow;12.6\nBridgetown;26.9\nIstanbul;6.2\nRoseau;34.4\nConakry;31.2\nIstanbul;23.0\n";
    let expected = b"Bridgetown;26.9;26.9;26.9\nBulawayo;8.9;8.9;8.9\nConakry;31.2;31.2;31.2\nCracow;12.6;12.6;12.6\nHamburg;12.0;12.0;12.0\nIstanbul;6.2;14.6;23.0\nPalembang;38.8;38.8;38.8\nRoseau;34.4;34.4;34.4\nSt. John's;15.2;15.2;15.2\n";
    assert_eq!(run(input), expected.to_vec());
}

#[test]
fn two_records_one_station() {
    assert_eq!(run(b"A;1.0\nA;2.0\n"), b"A;1.0;1.5;2.0\n".to_vec());
}

#[test]
fn negative_and_sorted() {
    assert_eq!(
        run(b"Z;-5.5\nA;0.0\nM;5.5\n"),
        b"A;0.0;0.0;0.0\nM;5.5;5.5;5.5\nZ;-5.5;-5.5;-5.5\n".to_vec()
    );
}

#[test]
fn malformed_and_empty_lines_skipped() {
    assert_eq!(
        run(b"X;1.0\n\nX;3.0\nX;bad\nY;2.0\n"),
        b"X;1.0;2.0;3.0\nY;2.0;2.0;2.0\n".to_vec()
    );
}

#[test]
fn many_copies_one_station() {
    let mut input: Vec<u8> = Vec::new();
    for _ in 0..100_000 {
        input.extend_from_slice(b"S;1.0\n");
    }
    assert_eq!(run(&input), b"S;1.0;1.0;1.0\n".to_vec());
}

#[test]
fn empty_input_empty_output() {
    assert_eq!(run(b""), Vec::<u8>::new());
}

#[test]
fn no_trailing_newline_last_record_counts() {
    assert_eq!(run(b"A;1.0\nA;3.0"), b"A;1.0;2.0;3.0\n".to_vec());
}

#[test]
fn single_record_min_mean_max_equal() {
    assert_eq!(run(b"Oslo;-3.7\n"), b"Oslo;-3.7;-3.7;-3.7\n".to_vec());
}

#[test]
fn worker_count_does_not_change_output() {
    let input = b"Hamburg;12.0\nBulawayo;8.9\nPalembang;38.8\nSt. John's;15.2\nCracow;12.6\nBridgetown;26.9\nIstanbul;6.2\nRoseau;34.4\nConakry;31.2\nIstanbul;23.0\n";
    let reference = summarize(input, 1);
    for workers in 2..12 {
        assert_eq!(summarize(input, workers), reference);
    }
}

#[test]
fn duplicated_input_same_output() {
    // counts and sums double, so min, mean and max are unchanged
    let single = b"A;1.0\nB;-2.5\nA;2.0\n";
    let mut doubled = single.to_vec();
    doubled.extend_from_slice(single);
    assert_eq!(run(single), run(&doubled));
}

#[test]
fn output_keys_strictly_increasing() {
    let out = run(b"b;1.0\na;1.0\nc;1.0\nab;1.0\naa;1.0\n");
    let text: Vec<&[u8]> = out.split(|&b| b == b'\n').filter(|l| !l.is_empty()).collect();
    let keys: Vec<&[u8]> = text
        .iter()
        .map(|l| &l[..l.iter().position(|&b| b == b';').unwrap()])
        .collect();
    for w in keys.windows(2) {
        assert!(w[0] < w[1]);
    }
    assert_eq!(keys.len(), 5);
}

#[test]
fn mean_rounds_half_away_from_zero() {
    // 0.1 and 0.2 average to 0.15, which rounds to 0.2
    assert_eq!(run(b"A;0.1\nA;0.2\n"), b"A;0.1;0.2;0.2\n".to_vec());
    // symmetric for negative values
    assert_eq!(run(b"A;-0.1\nA;-0.2\n"), b"A;-0.2;-0.2;-0.1\n".to_vec());
}

#[test]
fn empty_station_name_is_a_record() {
    assert_eq!(run(b";1.0\n"), b";1.0;1.0;1.0\n".to_vec());
}

#[test]
fn integer_measurements_accepted() {
    assert_eq!(run(b"A;5\nA;7\n"), b"A;5.0;6.0;7.0\n".to_vec());
}

#[test]
fn large_magnitude_measurements_fold() {
    assert_eq!(run(b"A;100.0\nA;1.0\n"), b"A;1.0;50.5;100.0\n".to_vec());
    assert_eq!(
        run(b"B;922337203685477580.7\n"),
        b"B;922337203685477580.7;922337203685477580.7;922337203685477580.7\n".to_vec()
    );
}

#[test]
fn unrepresentable_magnitude_skipped() {
    assert_eq!(run(b"A;922337203685477580.8\nA;1.0\n"), b"A;1.0;1.0;1.0\n".to_vec());
}
