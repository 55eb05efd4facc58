//! The full record file protocol, run against a simulated disk: a map
//! from file names to contents stands in for the store root directory,
//! exactly as the file layer uses the library.

use std::collections::HashMap;

use filekv::store::{content_lookup, record_file_name, updated_content, RetrieveOutcome};

fn disk_store(disk: &mut HashMap<String, String>, key: &str, val: &str) {
    let name = record_file_name(key);
    let old = disk.get(&name).map(|s| s.as_str());
    let new_content = updated_content(old, key, val).unwrap();
    disk.insert(name, new_content);
}

fn disk_retrieve(disk: &HashMap<String, String>, key: &str) -> Option<String> {
    let name = record_file_name(key);
    match content_lookup(disk.get(&name).map(|s| s.as_str()), key) {
        RetrieveOutcome::Found(v) => Some(v),
        RetrieveOutcome::NotFound => None,
        RetrieveOutcome::Corrupt => None,
    }
}

#[test]
fn protocol_write_then_read() {
    let mut disk = HashMap::new();
    disk_store(&mut disk, "alpha", "1");
    assert_eq!(disk_retrieve(&disk, "alpha"), Some("1".to_string()));
    disk_store(&mut disk, "alpha", "2");
    assert_eq!(disk_retrieve(&disk, "alpha"), Some("2".to_string()));
    assert_eq!(disk_retrieve(&disk, "beta"), None);
}

#[test]
fn protocol_one_file_per_digest() {
    let mut disk = HashMap::new();
    for i in 0..50u32 {
        disk_store(&mut disk, &i.to_string(), &i.to_string());
    }
    // Distinct digests mean distinct files; no digest of this sample
    // collides, so there are exactly fifty record files.
    assert_eq!(disk.len(), 50);
    for i in 0..50u32 {
        assert_eq!(disk_retrieve(&disk, &i.to_string()), Some(i.to_string()));
    }
}

#[test]
fn protocol_survives_reopen() {
    // Records written under one store root stay discoverable by a later
    // run: the digest is a pure function of the key, so the same keys
    // resolve to the same file names.
    let mut disk = HashMap::new();
    disk_store(&mut disk, "persistent", "datum");
    let reopened = disk.clone();
    assert_eq!(disk_retrieve(&reopened, "persistent"), Some("datum".to_string()));
}
