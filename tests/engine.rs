use station_stats::chunk::{process_chunk, FailurePolicy};
use station_stats::config::{Args, ConfigError};
use station_stats::engine::aggregate;
use station_stats::mapping::Mapping;
use station_stats::plan::plan_ranges;
use station_stats::record::{parse_line, ParseError};
use station_stats::stats::Aggregate;

fn sorted_entries(m: &Mapping) -> Vec<(Vec<u8>, u64, i64, i64, i128)> {
    let mut v: Vec<(Vec<u8>, u64, i64, i64, i128)> = m
        .entries()
        .into_iter()
        .map(|(k, a)| (k, a.count(), a.min(), a.max(), a.sum()))
        .collect();
    v.sort();
    v
}

const SAMPLE: &[u8] = b"Paris;12.3\nParis;15.0\nTokyo;9.9\n";

#[test]
fn end_to_end_three_lines() {
    let m = aggregate(SAMPLE, 4, FailurePolicy::Strict).unwrap();
    assert_eq!(m.len(), 2);
    let paris = m.get(b"Paris").unwrap();
    assert_eq!(paris.count(), 2);
    assert_eq!(paris.min(), 123);
    assert_eq!(paris.max(), 150);
    assert_eq!(paris.sum(), 273);
    let mean = paris.sum() as f64 / paris.count() as f64 / 10.0;
    assert!((mean - 13.65).abs() < 1e-9);
    let tokyo = m.get(b"Tokyo").unwrap();
    assert_eq!((tokyo.count(), tokyo.min(), tokyo.max(), tokyo.sum()), (1, 99, 99, 99));
    assert_eq!(tokyo.mean_tenths(), 99);
}

#[test]
fn strict_mode_rejects_non_number() {
    let r = aggregate(b"BadCity;notanumber\n", 1, FailurePolicy::Strict);
    let e = r.err().unwrap();
    assert_eq!(e.fault, ParseError::MalformedNumber);
    assert!(e.fault.is_record_malformed());
    assert_eq!(e.line, b"BadCity;notanumber".to_vec());
    assert_eq!(e.chunk_start, 0);
}

#[test]
fn lenient_mode_skips_non_number() {
    let m = aggregate(b"BadCity;notanumber\nLyon;1.0\n", 1, FailurePolicy::Lenient).unwrap();
    assert!(!m.contains(b"BadCity"));
    assert_eq!(m.get(b"Lyon").unwrap().count(), 1);
}

#[test]
fn empty_source_gives_empty_mapping() {
    let m = aggregate(b"", 3, FailurePolicy::Strict).unwrap();
    assert_eq!(m.len(), 0);
    assert!(plan_ranges(b"", 3).is_empty());
}

#[test]
fn chunk_count_does_not_change_result() {
    let data: &[u8] = b"A;1.0\nB;-2.5\nA;3.5\nC;0.0\nB;7\nA;-1.1\nC;2.2\n";
    let one = sorted_entries(&aggregate(data, 1, FailurePolicy::Strict).unwrap());
    for n in 2..12 {
        let many = sorted_entries(&aggregate(data, n, FailurePolicy::Strict).unwrap());
        assert_eq!(one, many);
    }
    assert_eq!(one[0], (b"A".to_vec(), 3, -11, 35, 34));
}

#[test]
fn strict_error_is_first_bad_line_whatever_the_chunks() {
    let data: &[u8] = b"A;1.0\nB;2.0\nnodelim\nC;\n";
    for n in 1..6 {
        let e = aggregate(data, n, FailurePolicy::Strict).err().unwrap();
        assert_eq!(e.fault, ParseError::MissingDelimiter);
        assert_eq!(e.line, b"nodelim".to_vec());
    }
}

#[test]
fn merge_order_does_not_matter() {
    let a = process_chunk(b"X;1.0\nY;2.0\n", FailurePolicy::Strict).unwrap();
    let b = process_chunk(b"Y;-4.0\nZ;5.5\n", FailurePolicy::Strict).unwrap();
    let c = process_chunk(b"X;9.9\n", FailurePolicy::Strict).unwrap();
    let mut ab = process_chunk(b"X;1.0\nY;2.0\n", FailurePolicy::Strict).unwrap();
    assert!(ab.fits_with(&b));
    ab.merge_from(&b);
    ab.merge_from(&c);
    let mut cb = process_chunk(b"X;9.9\n", FailurePolicy::Strict).unwrap();
    cb.merge_from(&b);
    cb.merge_from(&a);
    assert_eq!(sorted_entries(&ab), sorted_entries(&cb));
    assert_eq!(ab.get(b"Y").unwrap().min(), -40);
    assert_eq!(ab.get(b"X").unwrap().max(), 99);
}

#[test]
fn count_equals_number_of_lines() {
    let mut data = Vec::new();
    for i in 0..250 {
        data.extend_from_slice(format!("Oslo;{}.{}\n", i % 17, i % 10).as_bytes());
    }
    let m = aggregate(&data, 7, FailurePolicy::Strict).unwrap();
    assert_eq!(m.get(b"Oslo").unwrap().count(), 250);
}

#[test]
fn mean_lies_between_min_and_max() {
    let m = aggregate(b"K;-3.3\nK;8.1\nK;0.4\nL;5\nL;5.1\n", 2, FailurePolicy::Strict).unwrap();
    for (_, a) in m.entries() {
        assert!(a.min() <= a.mean_tenths() && a.mean_tenths() <= a.max());
        let exact = a.sum() as f64 / a.count() as f64;
        assert!(a.min() as f64 <= exact && exact <= a.max() as f64);
    }
    assert_eq!(m.get(b"L").unwrap().mean_tenths(), 51);
}

#[test]
fn merging_an_empty_mapping_changes_nothing() {
    let mut m = process_chunk(b"Q;4.4\nQ;1.1\n", FailurePolicy::Strict).unwrap();
    let before = sorted_entries(&m);
    m.merge_from(&Mapping::new());
    assert_eq!(sorted_entries(&m), before);
    let mut e = Mapping::new();
    e.merge_from(&m);
    assert_eq!(sorted_entries(&e), before);
}

#[test]
fn planned_ranges_rejoin_the_source() {
    let data: &[u8] = b"ab;1\ncdefg;2.5\nh;3\n\nijkl;4\nm;5";
    for n in 1..40 {
        let ranges = plan_ranges(data, n);
        let mut joined = Vec::new();
        let mut pos = 0;
        for (i, r) in ranges.iter().enumerate() {
            assert_eq!(r.start, pos);
            assert!(r.start < r.end);
            if i + 1 < ranges.len() {
                assert_eq!(data[r.end - 1], b'\n');
            }
            joined.extend_from_slice(&data[r.start..r.end]);
            pos = r.end;
        }
        assert_eq!(joined, data.to_vec());
    }
}

#[test]
fn many_chunks_collapse_to_one_per_line() {
    let ranges = plan_ranges(b"a;1\nb;2\nc;3\n", 100);
    assert_eq!(ranges.len(), 3);
    assert_eq!((ranges[1].start, ranges[1].end), (4, 8));
}

#[test]
fn parse_uses_last_delimiter_and_trims() {
    let (k, v) = parse_line(b"  St; John ;  -12.5 ").unwrap();
    assert_eq!(k, b"St; John".to_vec());
    assert_eq!(v, -125);
    assert_eq!(parse_line(b"X;+7").unwrap().1, 70);
    assert_eq!(parse_line(b"X;0.0").unwrap().1, 0);
}

#[test]
fn parse_error_variants() {
    assert_eq!(parse_line(b"nothing here"), Err(ParseError::MissingDelimiter));
    assert_eq!(parse_line(b"   ;1.0"), Err(ParseError::EmptyKey));
    assert_eq!(parse_line(b"Rome; \t"), Err(ParseError::EmptyValue));
    assert_eq!(parse_line(b"Rome;1.23"), Err(ParseError::MalformedNumber));
    assert_eq!(parse_line(b"Rome;1."), Err(ParseError::MalformedNumber));
    assert_eq!(parse_line(b"Rome;.5"), Err(ParseError::MalformedNumber));
    assert_eq!(parse_line(b"Rome;--1"), Err(ParseError::MalformedNumber));
    assert_eq!(parse_line(b"Rome;12345678901234567"), Err(ParseError::MalformedNumber));
    assert_eq!(parse_line(b"Rome;1234567890123456.7").unwrap().1, 12345678901234567);
    assert_eq!(parse_line(b"Ro\xffme;1.0"), Err(ParseError::InvalidEncoding));
    assert!(!ParseError::InvalidEncoding.is_record_malformed());
    assert!(ParseError::EmptyKey.is_record_malformed());
}

#[test]
fn invalid_encoding_fails_strict_and_is_skipped_lenient() {
    let data: &[u8] = b"Ok;1.0\nBa\xc3d;2.0\n";
    let e = aggregate(data, 2, FailurePolicy::Strict).err().unwrap();
    assert_eq!(e.fault, ParseError::InvalidEncoding);
    let m = aggregate(data, 2, FailurePolicy::Lenient).unwrap();
    assert_eq!(m.len(), 1);
}

#[test]
fn unterminated_last_line_is_counted() {
    let m = process_chunk(b"A;1.0\nA;2.0", FailurePolicy::Strict).unwrap();
    assert_eq!(m.get(b"A").unwrap().count(), 2);
    let e = process_chunk(b"A;1.0\n\n", FailurePolicy::Strict).err().unwrap();
    assert_eq!(e.fault, ParseError::MissingDelimiter);
}

#[test]
fn aggregate_updates() {
    let mut a = Aggregate::new(50);
    a.add_measurement(70);
    a.add_measurement(-20);
    a.add_measurement(50);
    assert_eq!((a.count(), a.min(), a.max(), a.sum()), (4, -20, 70, 150));
    let mut b = Aggregate::new(-30);
    b.merge(&a);
    assert_eq!((b.count(), b.min(), b.max(), b.sum()), (5, -30, 70, 120));
}

#[test]
fn mean_rounds_halves_upward() {
    let mut a = Aggregate::new(123);
    a.add_measurement(150);
    assert_eq!(a.mean_tenths(), 137);
    let mut n = Aggregate::new(-5);
    n.add_measurement(-6);
    assert_eq!(n.mean_tenths(), -5);
    let mut t = Aggregate::new(-10);
    t.add_measurement(-10);
    t.add_measurement(-11);
    assert_eq!(t.mean_tenths(), -10);
}

#[test]
fn validate_arguments() {
    let good = Args { file_path: String::from("m.txt"), lines_per_chunk: 256 };
    assert_eq!(good.validate(true), Ok(()));
    assert_eq!(good.validate(false), Err(ConfigError::MissingFile));
    let zero = Args { file_path: String::from("m.txt"), lines_per_chunk: 0 };
    assert_eq!(zero.validate(false), Err(ConfigError::ZeroLinesPerChunk));
}
