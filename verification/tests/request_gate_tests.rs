use codexmanager::request_gate::{
    client_ip_gate_key, gate_key, sat_sub_i64, RequestGateLockTable, RequestGateState,
};

#[test]
fn gate_admits_up_to_its_limit_and_release_restores() {
    let mut gate = RequestGateState::new().with_max_running(2);
    assert_eq!(gate.max_running(), 2);
    assert!(gate.try_acquire());
    assert!(gate.try_acquire());
    assert!(gate.is_full());
    assert!(!gate.try_acquire());
    assert_eq!(gate.running(), 2);
    gate.release();
    assert_eq!(gate.running(), 1);
    gate.release();
    gate.release();
    assert_eq!(gate.running(), 0);
    let single = RequestGateState::new().with_max_running(0);
    assert_eq!(single.max_running(), 1);
}

#[test]
fn gate_keys_are_trimmed_and_joined() {
    assert_eq!(gate_key(" key ", " /v1/responses ", Some(" gpt-5 ")), "key|/v1/responses|gpt-5");
    assert_eq!(gate_key("key", "/v1", None), "key|/v1|-");
    assert_eq!(gate_key("key", "/v1", Some("  ")), "key|/v1|-");
    assert_eq!(client_ip_gate_key(" 10.0.0.1 "), "client_ip|10.0.0.1");
    assert_eq!(sat_sub_i64(i64::MIN, 1), i64::MIN);
    assert_eq!(sat_sub_i64(5, 7), -2);
}

#[test]
fn table_reuses_gates_by_key_and_sweeps_idle_ones() {
    let mut table: RequestGateLockTable<u32> = RequestGateLockTable::new();
    let a = table.touch_or_insert("a".to_string(), 100, 1);
    let b = table.touch_or_insert("b".to_string(), 100, 2);
    let again = table.touch_or_insert("a".to_string(), 200, 3);
    assert_eq!((a, b, again), (0, 1, 0));
    assert_eq!(*table.lock_at(again), 1);
    assert_eq!(table.len(), 2);
    assert_eq!(table.find("b"), Some(1));
    assert_eq!(table.find("c"), None);

    // "a" was seen at 200, "b" at 100; at 1950 only "b" is past the TTL.
    table.maybe_cleanup(1950, &vec![false, false]);
    assert_eq!(table.len(), 1);
    assert_eq!(table.key_at(0), "a");

    // A sweep less than the interval after the last one does nothing.
    table.maybe_cleanup(5000, &vec![false]);
    assert_eq!(table.len(), 0);
    let _ = table.touch_or_insert("c".to_string(), 5000, 9);
    table.maybe_cleanup(9000, &vec![true]);
    assert_eq!(table.len(), 1);
    table.maybe_cleanup(9010, &vec![false]);
    assert_eq!(table.len(), 1);
    table.clear();
    assert_eq!(table.len(), 0);
}

#[test]
fn requests_of_one_scope_share_a_gate_key() {
    assert_eq!(gate_key(" k ", "/p ", None), gate_key("k", " /p", Some("-")));
    assert_eq!(gate_key("k", "/p", Some("   ")), gate_key("k", "/p", None));
    assert_ne!(gate_key("k", "/p", Some("gpt-5")), gate_key("k", "/p", None));
}
