use linestats::decimal::Decimal;
use linestats::error::Error;
use linestats::pipeline::{run, Pipeline};
use linestats::stats::Statistic;
use linestats::table::{Aggregator, Entry};

fn d(scaled: i64) -> Decimal {
    Decimal { scaled }
}

fn entry(key: &str, min: i64, max: i64, sum: i128, count: u64) -> Entry {
    Entry { key: key.as_bytes().to_vec(), stat: Statistic { min: d(min), max: d(max), sum, count } }
}

fn keys(entries: &[Entry]) -> Vec<String> {
    entries.iter().map(|e| String::from_utf8(e.key.clone()).unwrap()).collect()
}

fn chunked(content: &[u8], size: usize) -> Vec<Vec<u8>> {
    content.chunks(size).map(|c| c.to_vec()).collect()
}

#[test]
fn a_new_table_is_empty() {
    let agg = Aggregator::new();
    assert_eq!(agg.get(b"X"), None);
    assert_eq!(agg.finalize(), vec![]);
}

#[test]
fn the_first_sighting_creates_and_the_next_update() {
    let mut agg = Aggregator::new();
    assert_eq!(agg.record(b"X", d(5)), Ok(()));
    assert_eq!(agg.get(b"X"), Some(Statistic { min: d(5), max: d(5), sum: 5, count: 1 }));
    assert_eq!(agg.record(b"Y", d(-1)), Ok(()));
    assert_eq!(agg.record(b"X", d(9)), Ok(()));
    assert_eq!(agg.record(b"X", d(-2)), Ok(()));
    assert_eq!(agg.get(b"X"), Some(Statistic { min: d(-2), max: d(9), sum: 12, count: 3 }));
    assert_eq!(agg.get(b"Y"), Some(Statistic { min: d(-1), max: d(-1), sum: -1, count: 1 }));
    assert_eq!(agg.get(b"Z"), None);
    assert_eq!(agg.get(b""), None);
}

#[test]
fn keys_come_out_in_lexicographic_order() {
    let mut agg = Aggregator::new();
    for key in ["Berlin", "Amsterdam", "Cairo"] {
        agg.record(key.as_bytes(), d(1)).unwrap();
    }
    assert_eq!(keys(&agg.finalize()), vec!["Amsterdam", "Berlin", "Cairo"]);
}

#[test]
fn the_order_is_that_of_the_bytes() {
    let mut agg = Aggregator::new();
    for key in ["b", "B", "ab", "a", "", "abc", "Zürich", "Zz", "aa", "é"] {
        agg.record(key.as_bytes(), d(1)).unwrap();
    }
    assert_eq!(
        keys(&agg.finalize()),
        vec!["", "B", "Zz", "Zürich", "a", "aa", "ab", "abc", "b", "é"]
    );
}

#[test]
fn the_same_input_gives_the_same_output_twice() {
    let content = b"Berlin;1.5\nCairo;30.1\nAmsterdam;-2.0\nBerlin;2.5\nCairo;29.9\n";
    let first = run(&chunked(content, 7), 100).unwrap();
    let second = run(&chunked(content, 7), 100).unwrap();
    assert_eq!(first, second);
    assert_eq!(
        first,
        vec![
            entry("Amsterdam", -20_000, -20_000, -20_000, 1),
            entry("Berlin", 15_000, 25_000, 40_000, 2),
            entry("Cairo", 299_000, 301_000, 600_000, 2),
        ]
    );
}

#[test]
fn the_order_of_the_lines_does_not_show_in_the_output() {
    let a = run(&vec![b"B;1\nA;2\nB;3\nC;4\nA;5\n".to_vec()], 100).unwrap();
    let b = run(&vec![b"A;5\nC;4\nB;3\nB;1\nA;2\n".to_vec()], 100).unwrap();
    assert_eq!(a, b);
}

#[test]
fn ten_twenty_thirty_under_one_key() {
    let got = run(&vec![b"X;10.0\nX;20.0\nX;30.0\n".to_vec()], 100).unwrap();
    assert_eq!(got, vec![entry("X", 100_000, 300_000, 600_000, 3)]);
    assert_eq!(got[0].stat.mean(), d(200_000));
}

#[test]
fn chunking_does_not_show_in_the_table() {
    let content = b"A;1.0\nB;2.5\nA;3.0\nC;-7.25\nB;0";
    let whole = run(&vec![content.to_vec()], 100).unwrap();
    assert_eq!(
        whole,
        vec![
            entry("A", 10_000, 30_000, 40_000, 2),
            entry("B", 0, 25_000, 25_000, 2),
            entry("C", -72_500, -72_500, -72_500, 1),
        ]
    );
    for size in 1..=content.len() {
        assert_eq!(run(&chunked(content, size), 100).unwrap(), whole);
    }
}

#[test]
fn a_line_without_a_delimiter_aborts_the_run() {
    assert_eq!(run(&vec![b"A;1.0\nB2.0\nC;3.0\n".to_vec()], 100), Err(Error::MalformedRecord));
    assert_eq!(run(&vec![b"A;1.0\n\nC;3.0\n".to_vec()], 100), Err(Error::MalformedRecord));
}

#[test]
fn a_line_with_two_delimiters_aborts_the_run() {
    assert_eq!(run(&vec![b"A;1.0\nB;2.0;3.0\nC;3.0\n".to_vec()], 100), Err(Error::MalformedRecord));
    assert_eq!(run(&chunked(b"A;1.0\nB;2.0;3.0\nC;3.0\n", 3), 100), Err(Error::MalformedRecord));
}

#[test]
fn a_malformed_last_line_without_terminator_aborts_the_run() {
    assert_eq!(run(&vec![b"A;1.0\nB".to_vec()], 100), Err(Error::MalformedRecord));
}

#[test]
fn a_value_that_is_no_number_aborts_the_run() {
    assert_eq!(run(&vec![b"A;1.0\nB;two\n".to_vec()], 100), Err(Error::InvalidNumber));
}

#[test]
fn bytes_that_are_no_text_abort_the_run() {
    assert_eq!(run(&vec![vec![b'A', b';', b'1', b'\n', 0xff, b';', b'1', b'\n']], 100), Err(Error::InvalidEncoding));
}

#[test]
fn a_tail_that_does_not_fit_aborts_the_run() {
    assert_eq!(run(&chunked(b"A;1.0\nLongKey;2.0\n", 6), 5), Err(Error::LineTooLong));
    assert_eq!(run(&chunked(b"A;1.0\nLongKey;2.0\n", 6), 6).unwrap().len(), 2);
}

#[test]
fn the_first_error_in_the_stream_is_the_one_reported() {
    assert_eq!(run(&vec![b"A;x\nB\n".to_vec()], 100), Err(Error::InvalidNumber));
    assert_eq!(run(&vec![b"B\nA;x\n".to_vec()], 100), Err(Error::MalformedRecord));
    assert_eq!(run(&vec![b"B\n".to_vec(), b"a tail that does not fit".to_vec()], 4), Err(Error::MalformedRecord));
    assert_eq!(run(&vec![b"B\na tail that does not fit".to_vec()], 4), Err(Error::LineTooLong));
}

#[test]
fn a_pipeline_is_fed_chunk_by_chunk() {
    let mut pipeline = Pipeline::new(100);
    assert_eq!(pipeline.feed(b"A;1.0\nB;2"), Ok(()));
    assert_eq!(pipeline.feed(b".5\nA;3.0"), Ok(()));
    assert_eq!(pipeline.feed(b""), Ok(()));
    assert_eq!(
        pipeline.finish(),
        Ok(vec![entry("A", 10_000, 30_000, 40_000, 2), entry("B", 25_000, 25_000, 25_000, 1)])
    );
}

#[test]
fn record_line_parses_and_records() {
    let mut agg = Aggregator::new();
    assert_eq!(agg.record_line(b"X;1.5"), Ok(()));
    assert_eq!(agg.record_line(b"X;oops"), Err(Error::InvalidNumber));
    assert_eq!(agg.record_line(b"X"), Err(Error::MalformedRecord));
    assert_eq!(agg.record_line(b"X;-1.5"), Ok(()));
    assert_eq!(agg.finalize(), vec![entry("X", -15_000, 15_000, 0, 2)]);
}

#[test]
fn record_lines_stops_at_the_first_refusal() {
    let mut agg = Aggregator::new();
    let lines = vec![b"X;1".to_vec(), b"Y;2".to_vec(), b"bad".to_vec(), b"Z;3".to_vec()];
    assert_eq!(agg.record_lines(&lines), Err(Error::MalformedRecord));
    assert_eq!(agg.get(b"Z"), None);
    let mut agg = Aggregator::new();
    let lines = vec![b"X;1".to_vec(), b"Y;2".to_vec(), b"X;3".to_vec()];
    assert_eq!(agg.record_lines(&lines), Ok(()));
    assert_eq!(agg.finalize(), vec![entry("X", 10_000, 30_000, 40_000, 2), entry("Y", 20_000, 20_000, 20_000, 1)]);
}

#[test]
fn merging_partial_tables_is_what_one_pass_gives() {
    let mut left = Aggregator::new();
    left.record_lines(&vec![b"A;1".to_vec(), b"B;2".to_vec(), b"A;3".to_vec(), b"A;5".to_vec()]).unwrap();
    let mut right = Aggregator::new();
    right.record_lines(&vec![b"C;4".to_vec(), b"A;-1".to_vec()]).unwrap();
    let merged = left.merge(&right).unwrap().finalize();
    let once = run(&vec![b"A;1\nB;2\nA;3\nA;5\nC;4\nA;-1\n".to_vec()], 100).unwrap();
    assert_eq!(merged, once);
    assert_eq!(merged[0], entry("A", -10_000, 50_000, 80_000, 4));
    assert_eq!(merged[0].stat.mean(), d(20_000));
}

#[test]
fn merging_with_an_empty_table_changes_nothing() {
    let mut left = Aggregator::new();
    left.record(b"A", d(1)).unwrap();
    let merged = left.merge(&Aggregator::new()).unwrap();
    assert_eq!(merged.get(b"A"), Some(Statistic { min: d(1), max: d(1), sum: 1, count: 1 }));
    let mut right = Aggregator::new();
    right.record(b"B", d(2)).unwrap();
    let merged = Aggregator::new().merge(&right).unwrap();
    assert_eq!(merged.finalize(), vec![entry("B", 2, 2, 2, 1)]);
}
