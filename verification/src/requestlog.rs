//! Request-log RPC: method dispatch, caller scope and the client-IP usage query.
use vstd::prelude::*;
use crate::request_gate::{sat_sub_i64, spec_sat_sub};
use crate::text::{concat, str_eq, to_owned_string};

use crate::json::{JsonMember, JsonValue, JsonView, lemma_object_view, member_views};
use crate::text::{dec_signed, decimal_i64};

verus! {

/// Default look-back of a client-IP usage query: 30 days, in seconds.
pub const DEFAULT_CLIENT_IP_USAGE_LOOKBACK_SECS: i64 = 2_592_000;

pub const DEFAULT_CLIENT_IP_USAGE_LIMIT: i64 = 100;

pub const MAX_CLIENT_IP_USAGE_LIMIT: i64 = 500;

pub open spec fn spec_normalize_limit(limit: Option<i64>) -> int {
    let l = match limit {
        Some(v) => v as int,
        None => 100,
    };
    if l < 1 {
        1
    } else if l > 500 {
        500
    } else {
        l
    }
}

/// The row limit: 100 by default, clamped to 1..=500.
pub fn normalize_limit(limit: Option<i64>) -> (r: usize)
    ensures
        r as int == spec_normalize_limit(limit),
{
    let l = match limit {
        Some(v) => v,
        None => DEFAULT_CLIENT_IP_USAGE_LIMIT,
    };
    if l < 1 {
        1
    } else if l > MAX_CLIENT_IP_USAGE_LIMIT {
        500
    } else {
        l as usize
    }
}

/// The query window: it ends at `end_ts` (now by default) and starts at
/// `start_ts` (30 days before the end by default, saturating). The bounds are
/// those of the request after the request log's time-range normalization.
pub fn normalize_usage_bounds(start_ts: Option<i64>, end_ts: Option<i64>, now: i64) -> (r: (
    i64,
    i64,
))
    ensures
        r.1 == match end_ts {
            Some(e) => e,
            None => now,
        },
        r.0 == match start_ts {
            Some(s) => s,
            None => spec_sat_sub(r.1, DEFAULT_CLIENT_IP_USAGE_LOOKBACK_SECS),
        },
{
    let end = match end_ts {
        Some(e) => e,
        None => now,
    };
    let start = match start_ts {
        Some(s) => s,
        None => sat_sub_i64(end, DEFAULT_CLIENT_IP_USAGE_LOOKBACK_SECS),
    };
    (start, end)
}

/// The window to summarize, or `None` when the result is empty without any
/// query: a caller scoped to no keys, or a window that ends before it starts.
/// The bounds are those of the request after the request log's time-range
/// normalization.
pub fn client_ip_usage_window(
    key_scope: Option<&Vec<String>>,
    start_ts: Option<i64>,
    end_ts: Option<i64>,
    now: i64,
) -> (r: Option<(i64, i64)>)
    ensures
        ({
            let end = match end_ts {
                Some(e) => e,
                None => now,
            };
            let start = match start_ts {
                Some(s) => s,
                None => spec_sat_sub(end, DEFAULT_CLIENT_IP_USAGE_LOOKBACK_SECS),
            };
            if key_scope matches Some(k) && k@.len() == 0 {
                r is None
            } else if end <= start {
                r is None
            } else {
                r == Some((start, end))
            }
        }),
{
    if let Some(k) = key_scope {
        if k.len() == 0 {
            return None;
        }
    }
    let (start, end) = normalize_usage_bounds(start_ts, end_ts, now);
    if end <= start {
        return None;
    }
    Some((start, end))
}

/// Usage counters of one client IP.
#[derive(Clone, Copy, Debug, PartialEq, Eq, Structural)]
pub struct ClientIpUsageCounts {
    pub request_count: i64,
    pub success_count: i64,
    pub error_count: i64,
    pub input_tokens: i64,
    pub cached_input_tokens: i64,
    pub output_tokens: i64,
    pub reasoning_output_tokens: i64,
    pub total_tokens: i64,
    pub last_seen_at: i64,
}

pub open spec fn nonneg(v: i64) -> i64 {
    if v < 0 {
        0
    } else {
        v
    }
}

fn clamp0(v: i64) -> (r: i64)
    ensures
        r == nonneg(v),
{
    if v < 0 {
        0
    } else {
        v
    }
}

/// Counters as reported: negative values are reported as 0.
pub fn clamp_client_ip_usage_counts(c: ClientIpUsageCounts) -> (r: ClientIpUsageCounts)
    ensures
        r == (ClientIpUsageCounts {
            request_count: nonneg(c.request_count),
            success_count: nonneg(c.success_count),
            error_count: nonneg(c.error_count),
            input_tokens: nonneg(c.input_tokens),
            cached_input_tokens: nonneg(c.cached_input_tokens),
            output_tokens: nonneg(c.output_tokens),
            reasoning_output_tokens: nonneg(c.reasoning_output_tokens),
            total_tokens: nonneg(c.total_tokens),
            last_seen_at: nonneg(c.last_seen_at),
        }),
{
    ClientIpUsageCounts {
        request_count: clamp0(c.request_count),
        success_count: clamp0(c.success_count),
        error_count: clamp0(c.error_count),
        input_tokens: clamp0(c.input_tokens),
        cached_input_tokens: clamp0(c.cached_input_tokens),
        output_tokens: clamp0(c.output_tokens),
        reasoning_output_tokens: clamp0(c.reasoning_output_tokens),
        total_tokens: clamp0(c.total_tokens),
        last_seen_at: clamp0(c.last_seen_at),
    }
}

/// The first `limit` rows.
pub fn truncate_rows<T>(rows: Vec<T>, limit: usize) -> (r: Vec<T>)
    ensures
        r@ == if rows@.len() <= limit {
            rows@
        } else {
            rows@.subrange(0, limit as int)
        },
{
    let mut rows = rows;
    if rows.len() > limit {
        let _rest = rows.split_off(limit);
    }
    rows
}

/// The request-log RPC methods.
#[derive(Clone, Copy, Debug, PartialEq, Eq, Structural)]
pub enum RequestLogRpcMethod {
    ListWithSummary,
    List,
    Summary,
    Clear,
    TodaySummary,
    ClientIpUsage,
}

pub open spec fn spec_requestlog_rpc_method(m: Seq<char>) -> Option<RequestLogRpcMethod> {
    if m == "requestlog/list_with_summary"@ {
        Some(RequestLogRpcMethod::ListWithSummary)
    } else if m == "requestlog/list"@ {
        Some(RequestLogRpcMethod::List)
    } else if m == "requestlog/summary"@ {
        Some(RequestLogRpcMethod::Summary)
    } else if m == "requestlog/clear"@ {
        Some(RequestLogRpcMethod::Clear)
    } else if m == "requestlog/today_summary"@ {
        Some(RequestLogRpcMethod::TodaySummary)
    } else if m == "requestlog/client_ip_usage"@ {
        Some(RequestLogRpcMethod::ClientIpUsage)
    } else {
        None
    }
}

/// The RPC name of each request-log method.
pub open spec fn requestlog_method_name(v: RequestLogRpcMethod) -> Seq<char> {
    match v {
        RequestLogRpcMethod::ListWithSummary => "requestlog/list_with_summary"@,
        RequestLogRpcMethod::List => "requestlog/list"@,
        RequestLogRpcMethod::Summary => "requestlog/summary"@,
        RequestLogRpcMethod::Clear => "requestlog/clear"@,
        RequestLogRpcMethod::TodaySummary => "requestlog/today_summary"@,
        RequestLogRpcMethod::ClientIpUsage => "requestlog/client_ip_usage"@,
    }
}

/// A method name is served as exactly the method of that name, and every
/// other name is left to other handlers: each of the six names has its own
/// method.
pub proof fn lemma_requestlog_method_by_name(m: Seq<char>, v: RequestLogRpcMethod)
    ensures
        spec_requestlog_rpc_method(m) == Some(v) <==> m == requestlog_method_name(v),
        spec_requestlog_rpc_method(m) is None <==> (forall|w: RequestLogRpcMethod|
            m != #[trigger] requestlog_method_name(w)),
{
    reveal_strlit("requestlog/list_with_summary");
    reveal_strlit("requestlog/list");
    reveal_strlit("requestlog/summary");
    reveal_strlit("requestlog/clear");
    reveal_strlit("requestlog/today_summary");
    reveal_strlit("requestlog/client_ip_usage");
    if spec_requestlog_rpc_method(m) is None {
        assert forall|w: RequestLogRpcMethod| m != #[trigger] requestlog_method_name(w) by {
            match w {
                RequestLogRpcMethod::ListWithSummary => {},
                RequestLogRpcMethod::List => {},
                RequestLogRpcMethod::Summary => {},
                RequestLogRpcMethod::Clear => {},
                RequestLogRpcMethod::TodaySummary => {},
                RequestLogRpcMethod::ClientIpUsage => {},
            }
        }
    } else {
        let w = spec_requestlog_rpc_method(m)->0;
        assert(m == requestlog_method_name(w));
    }
}

/// The request-log method an RPC names; `None` leaves the request to other
/// handlers.
pub fn requestlog_rpc_method(method: &str) -> (r: Option<RequestLogRpcMethod>)
    ensures
        r == spec_requestlog_rpc_method(method@),
{
    if str_eq(method, "requestlog/list_with_summary") {
        Some(RequestLogRpcMethod::ListWithSummary)
    } else if str_eq(method, "requestlog/list") {
        Some(RequestLogRpcMethod::List)
    } else if str_eq(method, "requestlog/summary") {
        Some(RequestLogRpcMethod::Summary)
    } else if str_eq(method, "requestlog/clear") {
        Some(RequestLogRpcMethod::Clear)
    } else if str_eq(method, "requestlog/today_summary") {
        Some(RequestLogRpcMethod::TodaySummary)
    } else if str_eq(method, "requestlog/client_ip_usage") {
        Some(RequestLogRpcMethod::ClientIpUsage)
    } else {
        None
    }
}

/// Whose request logs a caller sees.
pub enum RequestLogScope {
    /// Every key (administrators).
    All,
    /// The keys of this user.
    UserKeys(String),
}

/// Administrators see every log; other callers need a user session and see
/// the logs of their own keys.
pub fn requestlog_scope(is_admin: bool, user_id: Option<&str>) -> (r: Result<
    RequestLogScope,
    String,
>)
    ensures
        is_admin ==> r matches Ok(RequestLogScope::All),
        !is_admin ==> match user_id {
            Some(u) => r matches Ok(RequestLogScope::UserKeys(x)) && x@ == u@,
            None => r matches Err(e) && e@
                == "permission_denied: requestlog requires user session"@,
        },
{
    if is_admin {
        return Ok(RequestLogScope::All);
    }
    match user_id {
        Some(u) => Ok(RequestLogScope::UserKeys(to_owned_string(u))),
        None => Err(to_owned_string("permission_denied: requestlog requires user session")),
    }
}

/// The error text of parameters that do not parse.
pub fn invalid_params_message(method: &str, err: &str) -> (r: String)
    ensures
        r@ == "invalid "@ + method@ + " params: "@ + err@,
{
    let mut r = concat("invalid ", method);
    r.append(" params: ");
    r.append(err);
    r
}


/// An optional text parameter: the text, or `null`.
pub open spec fn opt_text_json(o: Option<Seq<char>>) -> JsonView {
    match o {
        Some(s) => JsonView::Str(s),
        None => JsonView::Null,
    }
}

/// An optional number parameter: the number, or `null`.
pub open spec fn opt_int_json(o: Option<i64>) -> JsonView {
    match o {
        Some(n) => JsonView::Number(dec_signed(n as int)),
        None => JsonView::Null,
    }
}

pub open spec fn oref(o: Option<&str>) -> Option<Seq<char>> {
    match o {
        Some(s) => Some(s@),
        None => None,
    }
}

fn opt_text_value(o: Option<&str>) -> (r: JsonValue)
    ensures
        r@ == opt_text_json(oref(o)),
{
    match o {
        Some(s) => JsonValue::Str(to_owned_string(s)),
        None => JsonValue::Null,
    }
}

fn opt_int_value(o: Option<i64>) -> (r: JsonValue)
    ensures
        r@ == opt_int_json(o),
{
    match o {
        Some(n) => JsonValue::Number(decimal_i64(n)),
        None => JsonValue::Null,
    }
}

fn member(key: &str, value: JsonValue) -> (r: JsonMember)
    ensures
        r.key@ == key@,
        r.value@ == value@,
{
    JsonMember { key: to_owned_string(key), value }
}

/// The parameters of `requestlog/list` and `requestlog/list_with_summary`.
pub fn service_requestlog_list_params(
    query: Option<&str>,
    status_filter: Option<&str>,
    page: Option<i64>,
    page_size: Option<i64>,
    start_ts: Option<i64>,
    end_ts: Option<i64>,
) -> (r: JsonValue)
    ensures
        r@ == JsonView::Object(
            seq![
                ("query"@, opt_text_json(oref(query))),
                ("statusFilter"@, opt_text_json(oref(status_filter))),
                ("page"@, opt_int_json(page)),
                ("pageSize"@, opt_int_json(page_size)),
                ("startTs"@, opt_int_json(start_ts)),
                ("endTs"@, opt_int_json(end_ts)),
            ],
        ),
{
    let mut m: Vec<JsonMember> = Vec::new();
    m.push(member("query", opt_text_value(query)));
    m.push(member("statusFilter", opt_text_value(status_filter)));
    m.push(member("page", opt_int_value(page)));
    m.push(member("pageSize", opt_int_value(page_size)));
    m.push(member("startTs", opt_int_value(start_ts)));
    m.push(member("endTs", opt_int_value(end_ts)));
    proof {
        lemma_object_view(m);
        assert(member_views(m@) =~= seq![
            ("query"@, opt_text_json(oref(query))),
            ("statusFilter"@, opt_text_json(oref(status_filter))),
            ("page"@, opt_int_json(page)),
            ("pageSize"@, opt_int_json(page_size)),
            ("startTs"@, opt_int_json(start_ts)),
            ("endTs"@, opt_int_json(end_ts)),
        ]);
    }
    JsonValue::Object(m)
}

/// The parameters of `requestlog/summary`.
pub fn service_requestlog_summary_params(
    query: Option<&str>,
    status_filter: Option<&str>,
    start_ts: Option<i64>,
    end_ts: Option<i64>,
) -> (r: JsonValue)
    ensures
        r@ == JsonView::Object(
            seq![
                ("query"@, opt_text_json(oref(query))),
                ("statusFilter"@, opt_text_json(oref(status_filter))),
                ("startTs"@, opt_int_json(start_ts)),
                ("endTs"@, opt_int_json(end_ts)),
            ],
        ),
{
    let mut m: Vec<JsonMember> = Vec::new();
    m.push(member("query", opt_text_value(query)));
    m.push(member("statusFilter", opt_text_value(status_filter)));
    m.push(member("startTs", opt_int_value(start_ts)));
    m.push(member("endTs", opt_int_value(end_ts)));
    proof {
        lemma_object_view(m);
        assert(member_views(m@) =~= seq![
            ("query"@, opt_text_json(oref(query))),
            ("statusFilter"@, opt_text_json(oref(status_filter))),
            ("startTs"@, opt_int_json(start_ts)),
            ("endTs"@, opt_int_json(end_ts)),
        ]);
    }
    JsonValue::Object(m)
}

/// The parameters of `requestlog/client_ip_usage`.
pub fn service_requestlog_client_ip_usage_params(
    start_ts: Option<i64>,
    end_ts: Option<i64>,
    limit: Option<i64>,
) -> (r: JsonValue)
    ensures
        r@ == JsonView::Object(
            seq![
                ("startTs"@, opt_int_json(start_ts)),
                ("endTs"@, opt_int_json(end_ts)),
                ("limit"@, opt_int_json(limit)),
            ],
        ),
{
    let mut m: Vec<JsonMember> = Vec::new();
    m.push(member("startTs", opt_int_value(start_ts)));
    m.push(member("endTs", opt_int_value(end_ts)));
    m.push(member("limit", opt_int_value(limit)));
    proof {
        lemma_object_view(m);
        assert(member_views(m@) =~= seq![
            ("startTs"@, opt_int_json(start_ts)),
            ("endTs"@, opt_int_json(end_ts)),
            ("limit"@, opt_int_json(limit)),
        ]);
    }
    JsonValue::Object(m)
}

} // verus!
