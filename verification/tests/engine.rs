use one_brc::RunError;
use one_brc::aggregate::PartialAggregate;
use one_brc::aggregate::Row;
use one_brc::decimal::Decimal;
use one_brc::decimal::format_decimal;
use one_brc::decimal::dec_from_scaled;
use one_brc::decimal::parse_decimal;
use one_brc::fast::aggregate_fast;
use one_brc::record::Record;
use one_brc::record::parse_record;
use one_brc::strategy::Strategy;
use one_brc::strategy::accepts;
use one_brc::strategy::aggregate_lines;
use one_brc::strategy::aggregate_lines_lenient;
use one_brc::strategy::broadcast_consumer_aggregate;
use one_brc::strategy::default_worker_count;
use one_brc::strategy::run_strategy;

fn lines(input: &[&str]) -> Vec<Vec<u8>> {
    input.iter().map(|s| s.as_bytes().to_vec()).collect()
}

fn same_rows(a: &[Row], b: &[Row]) -> bool {
    a.len() == b.len()
        && a.iter().zip(b.iter()).all(|(x, y)| {
            x.name == y.name && x.min == y.min && x.mean == y.mean && x.max == y.max
        })
}

#[test]
fn test_float_parser() {
    let input = b"abc";
    let res = parse_decimal(input);
    assert!(res.is_err());
    let input = b"12,3";
    let res = parse_decimal(input);
    assert!(res.is_err());
    let input = b"12.3";
    let res = parse_decimal(input);
    assert_eq!(Decimal { neg: false, mantissa: 123, scale: 1 }, res.unwrap());
    let input = b"11321.3";
    let res = parse_decimal(input);
    assert_eq!(Decimal { neg: false, mantissa: 113213, scale: 1 }, res.unwrap());
    let input = b"-11.3";
    let res = parse_decimal(input);
    assert_eq!(Decimal { neg: true, mantissa: 113, scale: 1 }, res.unwrap());
}

#[test]
fn lib_test_float_parser() {
    let input = b"abc";
    let res = parse_decimal(input);
    assert!(res.is_err());
    let input = b"12,3";
    let res = parse_decimal(input);
    assert!(res.is_err());
    let input = b"12.3";
    let res = parse_decimal(input);
    assert_eq!(Decimal { neg: false, mantissa: 123, scale: 1 }, res.unwrap());
    let input = b"11321.3";
    let res = parse_decimal(input);
    assert_eq!(Decimal { neg: false, mantissa: 113213, scale: 1 }, res.unwrap());
}

#[test]
fn test_parser_error_kinds() {
    assert_eq!(parse_decimal(b"12a3"), Err(RunError::InvalidCharacter));
    assert_eq!(parse_decimal(b"1234567890123"), Err(RunError::ValueOutOfRange));
    assert_eq!(parse_decimal(b"0.1234567"), Err(RunError::ValueOutOfRange));
}

#[test]
fn test_parser_loose_grammar() {
    // A minus anywhere sets the sign; a second dot is ignored; the empty
    // string denotes zero.
    assert_eq!(parse_decimal(b"1-2.3"), Ok(Decimal { neg: true, mantissa: 123, scale: 1 }));
    assert_eq!(parse_decimal(b"1.2.3"), Ok(Decimal { neg: false, mantissa: 123, scale: 2 }));
    assert_eq!(parse_decimal(b""), Ok(Decimal { neg: false, mantissa: 0, scale: 0 }));
}

#[test]
fn test_format_round_trip() {
    for text in ["12.3", "-11.3", "11321.3", "0.5", "-0.007", "42"] {
        let d = parse_decimal(text.as_bytes()).unwrap();
        let shown = format_decimal(&d);
        let d2 = parse_decimal(&shown).unwrap();
        // Same value once rescaled; "42" comes back as "42.0".
        assert_eq!(
            one_brc::decimal::dec_scaled_exec(&d),
            one_brc::decimal::dec_scaled_exec(&d2)
        );
    }
    assert_eq!(format_decimal(&Decimal { neg: true, mantissa: 113, scale: 1 }), b"-11.3".to_vec());
    assert_eq!(format_decimal(&Decimal { neg: false, mantissa: 12, scale: 0 }), b"12.0".to_vec());
}

#[test]
fn test_dec_from_scaled() {
    assert_eq!(dec_from_scaled(25_250_000), Decimal { neg: false, mantissa: 2525, scale: 2 });
    assert_eq!(dec_from_scaled(5_000_000), Decimal { neg: false, mantissa: 50, scale: 1 });
    assert_eq!(dec_from_scaled(-18_400_000), Decimal { neg: true, mantissa: 184, scale: 1 });
    assert_eq!(dec_from_scaled(0), Decimal { neg: false, mantissa: 0, scale: 1 });
}

#[test]
fn test_parse_record() {
    let rec = parse_record(b"Adana;32.1").unwrap();
    assert_eq!(rec.name, b"Adana".to_vec());
    assert_eq!(rec.value, Decimal { neg: false, mantissa: 321, scale: 1 });
    assert_eq!(parse_record(b"NoSeparatorHere").err(), Some(RunError::MalformedRecord));
    assert_eq!(parse_record(b"Adana;3x").err(), Some(RunError::InvalidCharacter));
}

#[test]
fn test_end_to_end_rows() {
    let input = lines(&["Adana;32.1", "Adana;18.4", "Paris;5.0"]);
    let rows = aggregate_lines(&input).unwrap().finalize();
    assert_eq!(rows.len(), 2);
    assert_eq!(rows[0].name, b"Adana".to_vec());
    assert_eq!(format_decimal(&rows[0].min), b"18.4".to_vec());
    assert_eq!(format_decimal(&rows[0].mean), b"25.25".to_vec());
    assert_eq!(format_decimal(&rows[0].max), b"32.1".to_vec());
    assert_eq!(rows[1].name, b"Paris".to_vec());
    assert_eq!(format_decimal(&rows[1].min), b"5.0".to_vec());
    assert_eq!(format_decimal(&rows[1].mean), b"5.0".to_vec());
    assert_eq!(format_decimal(&rows[1].max), b"5.0".to_vec());
}

#[test]
fn test_single_record_entity() {
    let input = lines(&["Oslo;7.25"]);
    let rows = aggregate_lines(&input).unwrap().finalize();
    assert_eq!(rows.len(), 1);
    assert_eq!(rows[0].min, rows[0].max);
    assert_eq!(rows[0].min, rows[0].mean);
    assert_eq!(format_decimal(&rows[0].min), b"7.25".to_vec());
}

#[test]
fn test_stats_fields() {
    let input = lines(&["Adana;32.1", "Adana;18.4", "Paris;5.0"]);
    let agg = aggregate_lines(&input).unwrap();
    assert_eq!(agg.len(), 2);
    let st = agg.get(b"Adana").unwrap();
    assert_eq!(st.min, 18_400_000);
    assert_eq!(st.max, 32_100_000);
    assert_eq!(st.sum, 50_500_000);
    assert_eq!(st.count, 2);
    assert!(agg.get(b"Nowhere").is_none());
}

#[test]
fn test_merge_tables() {
    let a_lines = lines(&["Adana;32.1", "Paris;5.0"]);
    let b_lines = lines(&["Adana;18.4", "Lima;-3.5"]);
    let mut a = aggregate_lines(&a_lines).unwrap();
    let b = aggregate_lines(&b_lines).unwrap();
    a.merge(b);
    let st = a.get(b"Adana").unwrap();
    assert_eq!(st.min, 18_400_000);
    assert_eq!(st.max, 32_100_000);
    assert_eq!(st.count, 2);
    let lima = a.get(b"Lima").unwrap();
    assert_eq!(lima.min, -3_500_000);
    assert_eq!(lima.count, 1);
}

#[test]
fn test_merge_order_irrelevant() {
    let a_lines = lines(&["Adana;32.1", "Paris;5.0"]);
    let b_lines = lines(&["Adana;18.4", "Lima;-3.5"]);
    let mut ab = aggregate_lines(&a_lines).unwrap();
    ab.merge(aggregate_lines(&b_lines).unwrap());
    let mut ba = aggregate_lines(&b_lines).unwrap();
    ba.merge(aggregate_lines(&a_lines).unwrap());
    assert!(same_rows(&ab.finalize(), &ba.finalize()));
}

#[test]
fn test_malformed_fail_fast() {
    let input = lines(&["Adana;1.0", "NoSeparatorHere", "Paris;5.0"]);
    assert_eq!(aggregate_lines(&input).err(), Some(RunError::MalformedRecord));
    assert!(run_strategy(Strategy::MutexShared, &input, 2, 2, 2).is_err());
}

#[test]
fn test_malformed_lenient() {
    let input = lines(&["Adana;1.0", "NoSeparatorHere", "Adana;3.0", "Oslo;9x"]);
    let (agg, skipped) = aggregate_lines_lenient(&input);
    assert_eq!(skipped, 2);
    let clean = lines(&["Adana;1.0", "Adana;3.0"]);
    let expect = aggregate_lines(&clean).unwrap();
    assert!(same_rows(&agg.finalize(), &expect.finalize()));
}

#[test]
fn test_strategies_agree() {
    let input = lines(&[
        "Adana;32.1",
        "Adana;18.4",
        "Paris;5.0",
        "Lima;-3.5",
        "Paris;7.5",
        "Oslo;0.0",
        "Lima;12.25",
    ]);
    let base = run_strategy(Strategy::MutexShared, &input, 1, 1, 1).unwrap();
    for workers in [1usize, 2, 3, 8] {
        let r = run_strategy(Strategy::MutexShared, &input, workers, 1, 1).unwrap();
        assert!(same_rows(&base, &r));
    }
    for chunk in [1usize, 2, 3, 100] {
        let r = run_strategy(Strategy::ChunkedMutexShared, &input, 1, chunk, 1).unwrap();
        assert!(same_rows(&base, &r));
    }
    for workers in [1usize, 2, 5] {
        let r = run_strategy(Strategy::PointToPoint, &input, workers, 1, 1).unwrap();
        assert!(same_rows(&base, &r));
    }
    for consumers in [1u64, 2, 3, 7] {
        let r = run_strategy(Strategy::BroadcastFilter, &input, 1, 1, consumers).unwrap();
        assert!(same_rows(&base, &r));
    }
}

#[test]
fn test_fast_hasher_matches() {
    let input = lines(&[
        "Adana;32.1",
        "Adana;18.4",
        "Paris;5.0",
        "Lima;-3.5",
        "Paris;7.5",
        "Adana;20.0",
    ]);
    let fast = aggregate_fast(&input).unwrap();
    let plain = aggregate_lines(&input).unwrap();
    assert!(same_rows(&fast.finalize(), &plain.finalize()));
    let bad = lines(&["Adana;1.0", "broken"]);
    assert_eq!(aggregate_fast(&bad).err(), Some(RunError::MalformedRecord));
}

#[test]
fn test_accepts_exactly_one() {
    for name in [&b"Adana"[..], b"Paris", b"Lima", b"Oslo", b""] {
        for consumers in [1u64, 2, 3, 5, 8] {
            let taken: u64 = (0..consumers).filter(|c| accepts(*c, consumers, name)).count() as u64;
            assert_eq!(taken, 1);
        }
    }
}

#[test]
fn test_broadcast_exactly_once_counts() {
    let input = lines(&[
        "Adana;32.1",
        "Adana;18.4",
        "Paris;5.0",
        "Lima;-3.5",
        "Paris;7.5",
        "Adana;20.0",
        "Oslo;1.0",
    ]);
    let records: Vec<Record> =
        input.iter().map(|l| parse_record(l).unwrap()).collect();
    let whole = aggregate_lines(&input).unwrap();
    let consumers = 3u64;
    let mut partials: Vec<PartialAggregate> = Vec::new();
    for c in 0..consumers {
        partials.push(broadcast_consumer_aggregate(&records, c, consumers));
    }
    for name in [&b"Adana"[..], b"Paris", b"Lima", b"Oslo"] {
        let total: u64 = partials
            .iter()
            .map(|p| p.get(name).map(|st| st.count).unwrap_or(0))
            .sum();
        assert_eq!(total, whole.get(name).unwrap().count);
    }
}

#[test]
fn test_runners_direct() {
    let input = lines(&["Adana;32.1", "Adana;18.4", "Paris;5.0", "Lima;-3.5"]);
    let base = one_brc::strategy::aggregate_lines(&input).unwrap().finalize();
    let a = one_brc::strategy::run_mutex_shared(&input, 2).unwrap().finalize();
    let b = one_brc::strategy::run_chunked(&input, 3).unwrap().finalize();
    let c = one_brc::strategy::run_point_to_point(&input, 2).unwrap().finalize();
    let d = one_brc::strategy::run_broadcast(&input, 2).unwrap().finalize();
    assert!(same_rows(&base, &a));
    assert!(same_rows(&base, &b));
    assert!(same_rows(&base, &c));
    assert!(same_rows(&base, &d));
}

#[test]
fn test_empty_input() {
    let input: Vec<Vec<u8>> = Vec::new();
    let rows = aggregate_lines(&input).unwrap().finalize();
    assert!(rows.is_empty());
    let (agg, skipped) = aggregate_lines_lenient(&input);
    assert_eq!(skipped, 0);
    assert_eq!(agg.len(), 0);
}

#[test]
fn test_default_worker_count() {
    assert!(default_worker_count() >= 1);
}
