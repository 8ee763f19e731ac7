use draugur::registry::Registry;

#[test]
fn upsert_is_idempotent_and_destination_moves() {
    let mut reg = Registry::new();
    reg.upsert(42, 100, 7);
    reg.upsert(42, 100, 9);
    let cfg = reg.get(42).expect("tenant 42 must have a subscription");
    assert_eq!(cfg.follow_ids, vec![100]);
    assert_eq!(cfg.channel_id, 9);
    assert_eq!(reg.len(), 1);
}

#[test]
fn upsert_adds_distinct_criteria() {
    let mut reg = Registry::new();
    reg.upsert(42, 100, 7);
    reg.upsert(42, 200, 7);
    let cfg = reg.get(42).unwrap();
    assert_eq!(cfg.follow_ids, vec![100, 200]);
}

#[test]
fn upsert_keeps_other_tenants() {
    let mut reg = Registry::new();
    reg.upsert(1, 10, 5);
    reg.upsert(2, 20, 6);
    reg.upsert(1, 11, 5);
    assert_eq!(reg.get(2).unwrap().follow_ids, vec![20]);
    assert_eq!(reg.len(), 2);
}

#[test]
fn remove_last_criterion_deletes_subscription() {
    let mut reg = Registry::new();
    reg.upsert(42, 100, 7);
    assert!(reg.remove_criterion(42, 100));
    assert!(reg.get(42).is_none());
    // A second removal on the same tenant reports "not removed".
    assert!(!reg.remove_criterion(42, 100));
}

#[test]
fn remove_keeps_remaining_criteria() {
    let mut reg = Registry::new();
    reg.upsert(42, 100, 7);
    reg.upsert(42, 200, 7);
    assert!(reg.remove_criterion(42, 100));
    let cfg = reg.get(42).unwrap();
    assert_eq!(cfg.follow_ids, vec![200]);
    assert_eq!(cfg.channel_id, 7);
}

#[test]
fn remove_absent_criterion_reports_false() {
    let mut reg = Registry::new();
    reg.upsert(42, 100, 7);
    assert!(!reg.remove_criterion(42, 999));
    assert!(!reg.remove_criterion(77, 100));
    assert_eq!(reg.get(42).unwrap().follow_ids, vec![100]);
}

#[test]
fn snapshot_reflects_all_tenants() {
    let mut reg = Registry::new();
    reg.upsert(1, 10, 5);
    reg.upsert(2, 20, 6);
    let snap = reg.snapshot();
    assert_eq!(snap.len(), 2);
    let tenants: Vec<u64> = snap.iter().map(|e| e.0).collect();
    assert!(tenants.contains(&1));
    assert!(tenants.contains(&2));
}
