use draugur::registry::Registry;

#[test]
fn save_then_load_restores_every_tenant() {
    let mut reg = Registry::new();
    reg.upsert(42, 100, 7);
    reg.upsert(42, 200, 7);
    reg.upsert(7, 500, 99);
    reg.upsert(18446744073709551615, 9999999999, 1);
    let bytes = reg.save_bytes();
    let loaded = Registry::load_bytes(&bytes);
    assert_eq!(loaded.len(), 3);
    let a = loaded.get(42).unwrap();
    assert_eq!(a.follow_ids, vec![100, 200]);
    assert_eq!(a.channel_id, 7);
    let b = loaded.get(7).unwrap();
    assert_eq!(b.follow_ids, vec![500]);
    assert_eq!(b.channel_id, 99);
    let c = loaded.get(18446744073709551615).unwrap();
    assert_eq!(c.follow_ids, vec![9999999999]);
    assert_eq!(c.channel_id, 1);
}

#[test]
fn negative_criteria_round_trip() {
    let mut reg = Registry::new();
    reg.upsert(1, -5, 2);
    reg.upsert(1, i64::MIN, 2);
    reg.upsert(1, i64::MAX, 2);
    let loaded = Registry::load_bytes(&reg.save_bytes());
    let cfg = loaded.get(1).unwrap();
    assert_eq!(cfg.follow_ids, vec![-5, i64::MIN, i64::MAX]);
}

#[test]
fn empty_registry_round_trips() {
    let reg = Registry::new();
    let bytes = reg.save_bytes();
    assert!(bytes.is_empty());
    let loaded = Registry::load_bytes(&bytes);
    assert_eq!(loaded.len(), 0);
}

#[test]
fn garbage_bytes_load_as_empty() {
    let data: Vec<u8> = b"not a registry file at all".to_vec();
    let loaded = Registry::load_bytes(&data);
    assert_eq!(loaded.len(), 0);
}

#[test]
fn unparsable_record_is_skipped_not_fatal() {
    let mut reg = Registry::new();
    reg.upsert(1, 10, 5);
    let good = reg.save_bytes();
    // A corrupt line in front: the load skips it and still reads the good
    // record after the newline.
    let mut data: Vec<u8> = b"???? garbage line\n".to_vec();
    data.extend_from_slice(&good);
    let loaded = Registry::load_bytes(&data);
    assert_eq!(loaded.len(), 1);
    assert_eq!(loaded.get(1).unwrap().follow_ids, vec![10]);
}

#[test]
fn duplicate_tenant_keys_keep_the_first_record() {
    let mut first = Registry::new();
    first.upsert(5, 111, 1);
    let mut second = Registry::new();
    second.upsert(5, 222, 2);
    let mut data = first.save_bytes();
    data.extend_from_slice(&second.save_bytes());
    let loaded = Registry::load_bytes(&data);
    assert_eq!(loaded.len(), 1);
    let cfg = loaded.get(5).unwrap();
    assert_eq!(cfg.follow_ids, vec![111]);
    assert_eq!(cfg.channel_id, 1);
}

#[test]
fn persisted_form_is_text_with_string_keys() {
    let mut reg = Registry::new();
    reg.upsert(42, 100, 7);
    let bytes = reg.save_bytes();
    let text = String::from_utf8(bytes).expect("the persisted form is text");
    // The tenant key is a decimal string, the record ends with a newline.
    assert!(text.contains("42"));
    assert!(text.ends_with('\n'));
}
