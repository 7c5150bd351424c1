use station_stats::chunk::FailurePolicy;
use station_stats::engine::aggregate;
use station_stats::mapping::Mapping;
use station_stats::render::{render, sorted_entries};

#[test]
fn empty_mapping_renders_braces() {
    assert_eq!(render(&Mapping::new()), b"{}".to_vec());
    let m = aggregate(b"", 1, FailurePolicy::Lenient).unwrap();
    assert_eq!(render(&m), b"{}".to_vec());
}

#[test]
fn end_to_end_rendering() {
    let m = aggregate(b"Tokyo;9.9\nParis;12.3\nParis;15.0\n", 2, FailurePolicy::Strict).unwrap();
    assert_eq!(
        String::from_utf8(render(&m)).unwrap(),
        "{Paris=12.3/13.7/15.0, Tokyo=9.9/9.9/9.9}"
    );
}

#[test]
fn negative_and_whole_values_render_with_one_decimal() {
    let m = aggregate(b"Oymyakon;-12\nOymyakon;-0.5\nZero;0\n", 1, FailurePolicy::Strict).unwrap();
    assert_eq!(
        String::from_utf8(render(&m)).unwrap(),
        "{Oymyakon=-12.0/-6.2/-0.5, Zero=0.0/0.0/0.0}"
    );
}

#[test]
fn keys_come_out_in_byte_order() {
    let m = aggregate(b"b;1\nAB;2\nA;3\na;4\n", 3, FailurePolicy::Strict).unwrap();
    let keys: Vec<Vec<u8>> = sorted_entries(&m).into_iter().map(|(k, _)| k).collect();
    assert_eq!(keys, vec![b"A".to_vec(), b"AB".to_vec(), b"a".to_vec(), b"b".to_vec()]);
}
