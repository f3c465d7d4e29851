use codexmanager::json::{json_eq, JsonMember, JsonValue};
use codexmanager::requestlog::{
    clamp_client_ip_usage_counts, client_ip_usage_window, invalid_params_message,
    normalize_limit, normalize_usage_bounds, requestlog_rpc_method, requestlog_scope,
    service_requestlog_client_ip_usage_params, service_requestlog_list_params, truncate_rows,
    ClientIpUsageCounts, RequestLogRpcMethod, RequestLogScope,
};

fn member(key: &str, value: JsonValue) -> JsonMember {
    JsonMember { key: key.to_string(), value }
}

#[test]
fn usage_limit_defaults_and_clamps() {
    assert_eq!(normalize_limit(None), 100);
    assert_eq!(normalize_limit(Some(0)), 1);
    assert_eq!(normalize_limit(Some(-5)), 1);
    assert_eq!(normalize_limit(Some(42)), 42);
    assert_eq!(normalize_limit(Some(10_000)), 500);
}

#[test]
fn usage_window_defaults_to_thirty_days_before_end() {
    assert_eq!(normalize_usage_bounds(None, None, 3_000_000), (3_000_000 - 2_592_000, 3_000_000));
    assert_eq!(normalize_usage_bounds(Some(5), Some(9), 100), (5, 9));
    assert_eq!(normalize_usage_bounds(None, None, i64::MIN), (i64::MIN, i64::MIN));
    assert_eq!(client_ip_usage_window(None, Some(10), Some(20), 0), Some((10, 20)));
    assert_eq!(client_ip_usage_window(None, Some(20), Some(20), 0), None);
    let empty: Vec<String> = Vec::new();
    assert_eq!(client_ip_usage_window(Some(&empty), Some(10), Some(20), 0), None);
    let keys = vec!["k1".to_string()];
    assert_eq!(client_ip_usage_window(Some(&keys), Some(10), Some(20), 0), Some((10, 20)));
}

#[test]
fn usage_counts_report_negative_values_as_zero() {
    let c = ClientIpUsageCounts {
        request_count: -1,
        success_count: 2,
        error_count: -3,
        input_tokens: 4,
        cached_input_tokens: -5,
        output_tokens: 6,
        reasoning_output_tokens: -7,
        total_tokens: 8,
        last_seen_at: -9,
    };
    let r = clamp_client_ip_usage_counts(c);
    assert_eq!(
        (r.request_count, r.success_count, r.error_count, r.input_tokens, r.cached_input_tokens),
        (0, 2, 0, 4, 0)
    );
    assert_eq!((r.output_tokens, r.reasoning_output_tokens, r.total_tokens, r.last_seen_at), (6, 0, 8, 0));
    assert_eq!(truncate_rows(vec![1, 2, 3], 2), vec![1, 2]);
    assert_eq!(truncate_rows(vec![1, 2, 3], 5), vec![1, 2, 3]);
}

#[test]
fn requestlog_methods_and_scopes() {
    assert_eq!(requestlog_rpc_method("requestlog/list"), Some(RequestLogRpcMethod::List));
    assert_eq!(
        requestlog_rpc_method("requestlog/client_ip_usage"),
        Some(RequestLogRpcMethod::ClientIpUsage)
    );
    assert_eq!(requestlog_rpc_method("requestlog/other"), None);
    assert!(matches!(requestlog_scope(true, None), Ok(RequestLogScope::All)));
    assert!(matches!(requestlog_scope(false, Some("u1")), Ok(RequestLogScope::UserKeys(u)) if u == "u1"));
    assert_eq!(
        requestlog_scope(false, None).err().as_deref(),
        Some("permission_denied: requestlog requires user session")
    );
    assert_eq!(
        invalid_params_message("requestlog/list", "bad"),
        "invalid requestlog/list params: bad"
    );
}

#[test]
fn requestlog_params_keep_absent_values_as_null() {
    let params = service_requestlog_list_params(Some("q"), None, Some(2), Some(-20), None, Some(7));
    assert!(json_eq(
        &params,
        &JsonValue::Object(vec![
            member("query", JsonValue::Str("q".to_string())),
            member("statusFilter", JsonValue::Null),
            member("page", JsonValue::Number("2".to_string())),
            member("pageSize", JsonValue::Number("-20".to_string())),
            member("startTs", JsonValue::Null),
            member("endTs", JsonValue::Number("7".to_string())),
        ])
    ));
    assert!(json_eq(
        &service_requestlog_client_ip_usage_params(None, None, Some(100)),
        &JsonValue::Object(vec![
            member("startTs", JsonValue::Null),
            member("endTs", JsonValue::Null),
            member("limit", JsonValue::Number("100".to_string())),
        ])
    ));
}
