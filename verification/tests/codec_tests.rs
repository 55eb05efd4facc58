use filekv::numeral::{fixed_decimal, parse_fixed, u64_to_decimal};
use filekv::store::{content_lookup, updated_content, RetrieveOutcome};

fn found(r: RetrieveOutcome) -> String {
    match r {
        RetrieveOutcome::Found(v) => v,
        RetrieveOutcome::NotFound => panic!("expected a value, found none"),
        RetrieveOutcome::Corrupt => panic!("expected a value, found corrupt content"),
    }
}

#[test]
fn decimal_rendering_exact_values() {
    assert_eq!(u64_to_decimal(0), "0".to_string());
    assert_eq!(u64_to_decimal(7), "7".to_string());
    assert_eq!(u64_to_decimal(1234567890123456789), "1234567890123456789".to_string());
    assert_eq!(u64_to_decimal(u64::MAX), "18446744073709551615".to_string());
    assert_eq!(fixed_decimal(42, 20), "00000000000000000042".to_string());
    assert_eq!(fixed_decimal(0, 20), "00000000000000000000".to_string());
}

#[test]
fn parse_fixed_reads_back_what_was_rendered() {
    let s = fixed_decimal(90210, 20);
    assert_eq!(parse_fixed(&s, 0, 20), Some(90210));
    assert_eq!(parse_fixed("00000000000000000000", 0, 20), Some(0));
    assert_eq!(parse_fixed("18446744073709551615", 0, 20), Some(u64::MAX));
    // One past u64::MAX does not fit.
    assert_eq!(parse_fixed("18446744073709551616", 0, 20), None);
    // A non-digit fails the parse.
    assert_eq!(parse_fixed("0000000000000000004x", 0, 20), None);
}

#[test]
fn record_content_exact_encoding() {
    let c = updated_content(None, "a", "b").unwrap();
    assert_eq!(c, "00000000000000000001a00000000000000000001b".to_string());
    let c2 = updated_content(Some(&c), "cd", "efg").unwrap();
    assert_eq!(
        c2,
        "00000000000000000001a00000000000000000001b00000000000000000002cd00000000000000000003efg"
            .to_string()
    );
}

#[test]
fn record_content_round_trip() {
    let c = updated_content(None, "alpha", "1").unwrap();
    assert_eq!(found(content_lookup(Some(&c), "alpha")), "1".to_string());
    assert!(matches!(content_lookup(Some(&c), "beta"), RetrieveOutcome::NotFound));
    assert!(matches!(content_lookup(None, "alpha"), RetrieveOutcome::NotFound));
}

#[test]
fn colliding_keys_share_a_record_without_loss() {
    // Two distinct keys whose digests collide land in the same record
    // file; the second store must leave the first key's value intact.
    let c1 = updated_content(None, "k1", "v1").unwrap();
    let c2 = updated_content(Some(&c1), "k2", "v2").unwrap();
    assert_eq!(found(content_lookup(Some(&c2), "k1")), "v1".to_string());
    assert_eq!(found(content_lookup(Some(&c2), "k2")), "v2".to_string());
    // Overwriting one of them touches only its own entry.
    let c3 = updated_content(Some(&c2), "k1", "v3").unwrap();
    assert_eq!(found(content_lookup(Some(&c3), "k1")), "v3".to_string());
    assert_eq!(found(content_lookup(Some(&c3), "k2")), "v2".to_string());
}

#[test]
fn malformed_content_is_reported_corrupt() {
    assert!(matches!(content_lookup(Some("garbage"), "k"), RetrieveOutcome::Corrupt));
    assert!(matches!(
        content_lookup(Some("00000000000000000005ab"), "k"),
        RetrieveOutcome::Corrupt
    ));
    assert_eq!(updated_content(Some("not a record"), "k", "v"), None);
    // A record that holds the same key twice is corrupt, not readable.
    let duplicated = "00000000000000000001k00000000000000000001a\
                      00000000000000000001k00000000000000000001b";
    assert!(matches!(content_lookup(Some(duplicated), "k"), RetrieveOutcome::Corrupt));
}

#[test]
fn empty_content_is_an_empty_record() {
    assert!(matches!(content_lookup(Some(""), "k"), RetrieveOutcome::NotFound));
    let c = updated_content(Some(""), "k", "v").unwrap();
    assert_eq!(found(content_lookup(Some(&c), "k")), "v".to_string());
}
