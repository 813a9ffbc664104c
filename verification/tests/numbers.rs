use vortex::db::{clamp_queries, random_world_id, world_id};
use vortex::digits::parse_usize;
use vortex::parser::parse_queries_param;

#[test]
fn query_counts_are_clamped() {
    assert_eq!(clamp_queries(i32::MIN), 1);
    assert_eq!(clamp_queries(0), 1);
    assert_eq!(clamp_queries(1), 1);
    assert_eq!(clamp_queries(20), 20);
    assert_eq!(clamp_queries(500), 500);
    assert_eq!(clamp_queries(501), 500);
    assert_eq!(clamp_queries(clamp_queries(12345)), clamp_queries(12345));
    assert_eq!(clamp_queries(parse_queries_param(b"GET /queries?q=9999 ")), 500);
}

#[test]
fn world_rows_are_numbered_from_one() {
    assert_eq!(world_id(0), 1);
    assert_eq!(world_id(9999), 10000);
}

#[test]
fn random_rows_are_in_the_table() {
    let mut seen = Vec::new();
    for _ in 0..1000 {
        let id = random_world_id();
        assert!((1..=10000).contains(&id));
        seen.push(id);
    }
    seen.sort();
    seen.dedup();
    assert!(seen.len() > 1);
}

#[test]
fn numbers_are_parsed_as_the_standard_library_does() {
    let texts = [
        "", "+", "-", "0", "7", "+7", "++7", "007", " 7", "7 ", "1_0", "-1", "-0", "x", "7x",
        "18446744073709551615", "18446744073709551616", "99999999999999999999999", "٣",
    ];
    for text in texts {
        assert_eq!(parse_usize(text.as_bytes()), text.parse::<usize>().ok(), "{:?}", text);
    }
    assert_eq!(parse_usize(usize::MAX.to_string().as_bytes()), Some(usize::MAX));
}
