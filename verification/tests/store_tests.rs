use filekv::store::DB;

#[test]
fn test_set() {
    let mut db = DB::new("test".to_string());
    db.set(&"Samet".to_string(), &"Samet".to_string());
}

#[test]
fn test_get() {
    let mut db = DB::new("test".to_string());
    db.set(&"Samet".to_string(), &"Samet".to_string());
    let result = db.get(&"Samet".to_string());
    assert_eq!(result, Some("Samet".to_string()));
}

#[test]
fn write_then_read_scenario() {
    let mut db = DB::new("bench".to_string());
    db.store(&"alpha".to_string(), &"1".to_string());
    assert_eq!(db.retrive(&"alpha".to_string()), Some("1".to_string()));
    db.store(&"alpha".to_string(), &"2".to_string());
    assert_eq!(db.retrive(&"alpha".to_string()), Some("2".to_string()));
    assert_eq!(db.retrive(&"beta".to_string()), None);
}

#[test]
fn round_trip_returns_value_exactly() {
    let mut db = DB::new("root".to_string());
    db.store(&"key with spaces".to_string(), &"value\nwith\nnewlines".to_string());
    assert_eq!(
        db.retrive(&"key with spaces".to_string()),
        Some("value\nwith\nnewlines".to_string())
    );
}

#[test]
fn overwrite_keeps_only_latest_value() {
    let mut db = DB::new("root".to_string());
    db.store(&"k".to_string(), &"v1".to_string());
    db.store(&"k".to_string(), &"v2".to_string());
    assert_eq!(db.retrive(&"k".to_string()), Some("v2".to_string()));
}

#[test]
fn absent_key_returns_no_value() {
    let db = DB::new("root".to_string());
    assert_eq!(db.retrive(&"never stored".to_string()), None);
}

#[test]
fn empty_key_and_empty_value() {
    let mut db = DB::new("root".to_string());
    db.store(&"".to_string(), &"".to_string());
    assert_eq!(db.retrive(&"".to_string()), Some("".to_string()));
}

#[test]
fn many_keys_stay_independent() {
    let mut db = DB::new("root".to_string());
    for i in 0..100u32 {
        db.store(&i.to_string(), &(i * 2).to_string());
    }
    for i in 0..100u32 {
        assert_eq!(db.retrive(&i.to_string()), Some((i * 2).to_string()));
    }
}

#[test]
fn store_is_bound_to_its_root() {
    let db = DB::new("some/root".to_string());
    assert_eq!(db.root(), "some/root");
}
