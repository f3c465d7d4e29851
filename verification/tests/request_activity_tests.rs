use codexmanager::request_activity::{RequestActivityStart, RequestActivityTable};

fn start<'a>(trace_id: &'a str, ip: Option<&'a str>, model: Option<&'a str>) -> RequestActivityStart<'a> {
    RequestActivityStart {
        trace_id,
        client_ip: ip,
        key_id: "key-a",
        path: "/v1/responses",
        method: "POST",
        model,
    }
}

#[test]
fn snapshot_groups_running_and_queued_counts_by_client_ip() {
    let mut table = RequestActivityTable::new();
    let _a = table.begin(start("a", Some("192.168.1.20"), Some("gpt-5")), 1_000_000, 10);
    let _b = table.begin(start("b", Some("192.168.1.20"), Some("gpt-5")), 2_000_000, 11);

    table.mark_running("a", "client_ip_gate", 3_000_000, 12);

    let snapshot = table.snapshot(50, 5_000_000);
    let group = snapshot
        .ip_groups
        .iter()
        .find(|item| item.client_ip == "192.168.1.20")
        .expect("ip group");
    assert_eq!(group.running_count, 1);
    assert_eq!(group.queued_count, 1);
    assert_eq!(group.total_count, 2);
}

#[test]
fn dropping_activity_guard_removes_entry() {
    let mut table = RequestActivityTable::new();
    {
        let guard = table.begin(start("cleanup", Some("192.168.1.21"), None), 0, 0);
        assert_eq!(table.snapshot(50, 0).total_count, 1);
        table.finish(guard);
    }
    assert_eq!(table.snapshot(50, 0).total_count, 0);
}

#[test]
fn blank_trace_ids_are_not_recorded() {
    let mut table = RequestActivityTable::new();
    let guard = table.begin(start("   ", Some("1.1.1.1"), None), 0, 0);
    assert_eq!(guard.trace_id, "");
    assert_eq!(table.snapshot(10, 0).total_count, 0);
    table.finish(guard);
    assert_eq!(table.snapshot(10, 0).total_count, 0);
}

#[test]
fn items_put_running_first_then_oldest_and_respect_the_limit() {
    let mut table = RequestActivityTable::new();
    let _c = table.begin(start("c", None, None), 0, 300);
    let _b = table.begin(start("b", Some(" 10.0.0.1 "), None), 0, 200);
    let _a = table.begin(start("a", Some("10.0.0.2"), None), 0, 200);
    table.mark_running("c", "gateway", 5_000_000, 400);

    let snap = table.snapshot(50, 9_000_000);
    let order: Vec<&str> = snap.items.iter().map(|i| i.trace_id.as_str()).collect();
    assert_eq!(order, vec!["c", "a", "b"]);
    assert_eq!(snap.total_count, 3);
    assert_eq!(snap.running_count, 1);
    assert_eq!(snap.queued_count, 2);
    assert_eq!(snap.items[0].status, "running");
    assert_eq!(snap.items[0].wait_ms, 5);
    assert_eq!(snap.items[0].running_ms, 4);
    assert_eq!(snap.items[1].wait_ms, 9);
    assert_eq!(snap.items[1].running_ms, 0);

    let snap = table.snapshot(0, 9_000_000);
    assert_eq!(snap.items.len(), 1);
    assert_eq!(snap.items[0].trace_id, "c");

    // groups: one request each, both queued, ordered by IP
    let ips: Vec<&str> = snap.ip_groups.iter().map(|g| g.client_ip.as_str()).collect();
    assert_eq!(ips, vec!["10.0.0.1", "10.0.0.2"]);
}

#[test]
fn groups_are_ordered_by_size_and_track_the_longest_wait() {
    let mut table = RequestActivityTable::new();
    let _x1 = table.begin(start("x1", Some("2.2.2.2"), None), 1_000_000, 1);
    let _x2 = table.begin(start("x2", Some("2.2.2.2"), None), 3_000_000, 2);
    let _y = table.begin(start("y", Some("1.1.1.1"), None), 0, 3);
    let snap = table.snapshot(10, 10_000_000);
    assert_eq!(snap.ip_groups[0].client_ip, "2.2.2.2");
    assert_eq!(snap.ip_groups[0].total_count, 2);
    assert_eq!(snap.ip_groups[0].max_wait_ms, 9);
    assert_eq!(snap.ip_groups[1].client_ip, "1.1.1.1");
    assert_eq!(snap.ip_groups[1].max_wait_ms, 10);
}

#[test]
fn marking_and_sources_update_the_entry() {
    let mut table = RequestActivityTable::new();
    let _g = table.begin(start("t", None, Some(" gpt-5 ")), 0, 7);
    table.update_source("t", " account ", "  ");
    table.mark_running("t", " gate ", 2_000_000, 9);
    table.mark_queued("t", "retry", 4_000_000, 11);
    let snap = table.snapshot(5, 6_000_000);
    let item = &snap.items[0];
    assert_eq!(item.status, "queued");
    assert_eq!(item.route_kind, "retry");
    assert_eq!(item.model.as_deref(), Some("gpt-5"));
    assert_eq!(item.source_kind.as_deref(), Some("account"));
    assert_eq!(item.source_id, None);
    assert_eq!(item.queued_at_ms, Some(11));
    assert_eq!(item.running_at_ms, None);
    assert_eq!(item.wait_ms, 2);
    // unknown trace ids change nothing
    table.mark_running("missing", "x", 0, 0);
    assert_eq!(table.snapshot(5, 0).total_count, 1);
}
