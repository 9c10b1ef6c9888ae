use station_agg::agg::aggregate_chunk;
use station_agg::chunk::plan;
use station_agg::error::AggError;
use station_agg::num::parse_reading;
use station_agg::pipeline::summarize;
use station_agg::render::lex_less;
use station_agg::scan::find_separator;
use station_agg::scan::find_terminator;
use station_agg::source::Mmap;
use station_agg::stats::StationResult;
use station_agg::table::table_get;

fn to_millis(x: f64) -> i64 {
    (x * 1000.0).round() as i64
}

fn run(input: &[u8], nthreads: usize) -> Result<Vec<u8>, AggError> {
    let m = Mmap::from_bytes(input.to_vec())?;
    summarize(&m, nthreads)
}

#[test]
fn it_aggregates_properly() {
    let mut station: StationResult = StationResult::default();
    station.add_reading(to_millis(-100.1));
    station.add_reading(to_millis(100.1));

    assert_eq!(station.min, to_millis(-100.1));
    assert_eq!(station.max, to_millis(100.1));
    assert_eq!(station.avg(), to_millis(0.0));
}

#[test]
fn it_aggregates_properly_and_rounds() {
    let mut station: StationResult = StationResult::default();
    station.add_reading(to_millis(-5.0));
    station.add_reading(to_millis(10.05));

    assert_eq!(station.min, to_millis(-5.0));
    assert_eq!(station.max, to_millis(10.05));
    assert_eq!(station.avg(), to_millis(2.525));
}

#[test]
fn finds_first_separator() {
    assert_eq!(find_separator(b"Triangulation;-123.3"), Some(13));
    assert_eq!(find_separator(b"a;b;c"), Some(1));
    assert_eq!(find_separator(b"no separator here"), None);
}

#[test]
fn finds_first_terminator() {
    assert_eq!(find_terminator(b"Triangulation;-123.3\n"), Some(20));
    assert_eq!(find_terminator(b"Triangulation;-123.3"), None);
    assert_eq!(find_terminator(b"a\nb\n"), Some(1));
}

#[test]
fn parses_readings() {
    assert_eq!(parse_reading(b"-123.3"), Ok(-123300));
    assert_eq!(parse_reading(b"38.3"), Ok(38300));
    assert_eq!(parse_reading(b"+2.75"), Ok(2750));
    assert_eq!(parse_reading(b"7"), Ok(7000));
    assert_eq!(parse_reading(b"0.125"), Ok(125));
}

#[test]
fn rejects_malformed_readings() {
    assert_eq!(parse_reading(b""), Err(AggError::ParseError));
    assert_eq!(parse_reading(b"abc"), Err(AggError::ParseError));
    assert_eq!(parse_reading(b"1."), Err(AggError::ParseError));
    assert_eq!(parse_reading(b".5"), Err(AggError::ParseError));
    assert_eq!(parse_reading(b"1.2345"), Err(AggError::ParseError));
    assert_eq!(parse_reading(b"12.0.0"), Err(AggError::ParseError));
    assert_eq!(parse_reading(b"9999999999.0"), Err(AggError::ParseError));
}

#[test]
fn plans_chunks_on_line_boundaries() {
    let data = b"A;1.0\nB;2.0\nC;3.0\n";
    let chunks = plan(data, 2);
    assert_eq!(chunks, vec![(0, 12), (12, 18)]);

    let one = plan(data, 1);
    assert_eq!(one, vec![(0, 18)]);

    for n in 1..6 {
        let chunks = plan(data, n);
        assert_eq!(chunks.len(), n);
        assert_eq!(chunks[0].0, 0);
        assert_eq!(chunks[n - 1].1, data.len());
        for i in 0..n {
            assert!(chunks[i].0 <= chunks[i].1);
            if i + 1 < n {
                assert_eq!(chunks[i + 1].0, chunks[i].1);
                let end = chunks[i].1;
                assert!(end == data.len() || data[end - 1] == b'\n');
            }
        }
    }
}

#[test]
fn aggregates_one_chunk() {
    let t = aggregate_chunk(b"A;1.0\nA;2.0\nB;-1.5\n").unwrap();
    let a = table_get(&t, b"A").unwrap();
    assert_eq!(a.count, 2);
    assert_eq!(a.sum, 3000);
    assert_eq!(a.min, 1000);
    assert_eq!(a.max, 2000);
    let b = table_get(&t, b"B").unwrap();
    assert_eq!(b.count, 1);
    assert_eq!(b.sum, -1500);
    assert_eq!(table_get(&t, b"C"), None);
}

#[test]
fn end_to_end_three_lines() {
    let out = run(b"A;1.0\nB;2.0\nA;3.0\n", 1).unwrap();
    assert_eq!(out, b"{A=1.0/2.0/3.0, B=2.0/2.0/2.0}".to_vec());
}

#[test]
fn end_to_end_is_chunk_count_independent() {
    let input = b"A;1.0\nB;2.0\nA;3.0\n";
    let expected = run(input, 1).unwrap();
    for n in 2..8 {
        assert_eq!(run(input, n).unwrap(), expected);
    }
}

#[test]
fn end_to_end_empty_file_fails() {
    assert_eq!(Mmap::from_bytes(Vec::new()).err(), Some(AggError::Empty));
    assert_eq!(run(b"", 1), Err(AggError::Empty));
}

#[test]
fn end_to_end_missing_separator_fails() {
    assert_eq!(run(b"A1.0\n", 1), Err(AggError::MalformedLine));
    assert_eq!(run(b"A;1.0\nB2.0\n", 2), Err(AggError::MalformedLine));
    assert_eq!(run(b"\n", 1), Err(AggError::MalformedLine));
}

#[test]
fn end_to_end_bad_number_fails() {
    assert_eq!(run(b"A;x\n", 1), Err(AggError::ParseError));
    assert_eq!(run(b"A;1.0\nB;\n", 1), Err(AggError::ParseError));
}

#[test]
fn end_to_end_no_complete_record_is_empty() {
    // bytes with no terminator yield no record at all
    assert_eq!(run(b"abc", 1), Err(AggError::Empty));
}

#[test]
fn trailing_line_without_terminator_is_dropped() {
    let out = run(b"A;1.0\nB;2.0", 1).unwrap();
    assert_eq!(out, b"{A=1.0/1.0/1.0}".to_vec());
}

#[test]
fn keys_sort_bytewise() {
    let out = run(b"b;1.0\nB;2.0\na;3.0\n", 1).unwrap();
    assert_eq!(out, b"{B=2.0/2.0/2.0, a=3.0/3.0/3.0, b=1.0/1.0/1.0}".to_vec());
}

#[test]
fn rounds_half_away_from_zero() {
    // 10.05 rounds up to 10.1; -10.05 rounds down to -10.1
    let out = run(b"A;10.05\nB;-10.05\n", 1).unwrap();
    assert_eq!(out, b"{A=10.1/10.1/10.1, B=-10.1/-10.1/-10.1}".to_vec());
    // the mean -5.0/10.05 is 2.525, rendered 2.5
    let out = run(b"C;-5.0\nC;10.05\n", 1).unwrap();
    assert_eq!(out, b"{C=-5.0/2.5/10.1}".to_vec());
}

#[test]
fn avg_rounds_half_away_from_zero_at_millis() {
    let mut station: StationResult = StationResult::default();
    station.add_reading(1);
    station.add_reading(2);
    assert_eq!(station.avg(), 2);

    let mut station: StationResult = StationResult::default();
    station.add_reading(-1);
    station.add_reading(-2);
    assert_eq!(station.avg(), -2);
}

#[test]
fn merged_combines_statistics() {
    let mut a: StationResult = StationResult::default();
    a.add_reading(to_millis(1.0));
    let mut b: StationResult = StationResult::default();
    b.add_reading(to_millis(3.0));
    let m = StationResult::merged(a, b);
    assert_eq!(m.count, 2);
    assert_eq!(m.sum, 4000);
    assert_eq!(m.min, 1000);
    assert_eq!(m.max, 3000);
    let n = StationResult::merged(b, a);
    assert_eq!(m, n);
}

#[test]
fn lex_less_orders_bytes() {
    assert!(lex_less(b"abc", b"abd"));
    assert!(lex_less(b"ab", b"abc"));
    assert!(!lex_less(b"abc", b"abc"));
    assert!(!lex_less(b"b", b"B"));
    assert!(lex_less(b"B", b"b"));
}
