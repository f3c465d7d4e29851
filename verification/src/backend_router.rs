//! Dispatch of backend HTTP requests to their handlers.
use vstd::prelude::*;
use crate::text::{is_prefix, starts_with, str_eq};

verus! {

/// The handler a backend request goes to.
#[derive(Clone, Copy, Debug, PartialEq, Eq, Structural)]
pub enum BackendRoute {
    Rpc,
    AuthCallback,
    UsageRefreshEvents,
    AccountTestEvents,
    Metrics,
    Gateway,
}

pub open spec fn spec_backend_route(method: Seq<char>, path: Seq<char>) -> BackendRoute {
    if method == "POST"@ && path == "/rpc"@ {
        BackendRoute::Rpc
    } else if method == "GET"@ && is_prefix("/auth/callback"@, path) {
        BackendRoute::AuthCallback
    } else if method == "GET"@ && path == "/events/usage-refresh"@ {
        BackendRoute::UsageRefreshEvents
    } else if method == "GET"@ && path == "/events/account-test"@ {
        BackendRoute::AccountTestEvents
    } else if method == "GET"@ && path == "/metrics"@ {
        BackendRoute::Metrics
    } else {
        BackendRoute::Gateway
    }
}

/// `POST /rpc`, `GET /auth/callback…`, `GET /events/usage-refresh`,
/// `GET /events/account-test` and `GET /metrics` have handlers of their own;
/// everything else goes to the gateway.
pub fn resolve_backend_route(method: &str, path: &str) -> (r: BackendRoute)
    ensures
        r == spec_backend_route(method@, path@),
{
    if str_eq(method, "POST") && str_eq(path, "/rpc") {
        return BackendRoute::Rpc;
    }
    if str_eq(method, "GET") && starts_with(path, "/auth/callback") {
        return BackendRoute::AuthCallback;
    }
    if str_eq(method, "GET") && str_eq(path, "/events/usage-refresh") {
        return BackendRoute::UsageRefreshEvents;
    }
    if str_eq(method, "GET") && str_eq(path, "/events/account-test") {
        return BackendRoute::AccountTestEvents;
    }
    if str_eq(method, "GET") && str_eq(path, "/metrics") {
        return BackendRoute::Metrics;
    }
    BackendRoute::Gateway
}

} // verus!
