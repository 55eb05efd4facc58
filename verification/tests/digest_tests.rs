use filekv::digest::calculate_hash;
use filekv::store::record_file_name;

#[test]
fn digest_is_deterministic_across_calls() {
    let first = calculate_hash("probe");
    for _ in 0..10 {
        assert_eq!(calculate_hash("probe"), first);
    }
}

#[test]
fn digest_matches_fnv1a_vectors() {
    assert_eq!(calculate_hash(""), 14695981039346656037);
    assert_eq!(calculate_hash("a"), 0xaf63dc4c8601ec8c);
    assert_eq!(calculate_hash("alpha"), 9999721509958787115);
    assert_eq!(calculate_hash("Samet"), 8092962431438208829);
}

#[test]
fn digests_differ_on_a_sample_of_keys() {
    let keys = [
        "", "a", "b", "ab", "ba", "alpha", "beta", "key", "KEY", "0", "1", "10000", "1000000",
        "Samet", "test", "probe",
    ];
    let digests: Vec<u64> = keys.iter().map(|k| calculate_hash(k)).collect();
    for i in 0..digests.len() {
        for j in 0..digests.len() {
            if i != j {
                assert_ne!(digests[i], digests[j], "keys {} and {}", keys[i], keys[j]);
            }
        }
    }
}

#[test]
fn record_file_name_is_decimal_digest() {
    assert_eq!(record_file_name(""), "14695981039346656037".to_string());
    assert_eq!(record_file_name("alpha"), calculate_hash("alpha").to_string());
    assert_eq!(record_file_name("10000"), format!("{}", calculate_hash("10000")));
}
