use codexmanager::backend_router::{resolve_backend_route, BackendRoute};

#[test]
fn backend_routes_by_method_and_path() {
    assert_eq!(resolve_backend_route("POST", "/rpc"), BackendRoute::Rpc);
    assert_eq!(resolve_backend_route("GET", "/rpc"), BackendRoute::Gateway);
    assert_eq!(resolve_backend_route("GET", "/auth/callback?code=1"), BackendRoute::AuthCallback);
    assert_eq!(resolve_backend_route("GET", "/events/usage-refresh"), BackendRoute::UsageRefreshEvents);
    assert_eq!(resolve_backend_route("GET", "/events/account-test"), BackendRoute::AccountTestEvents);
    assert_eq!(resolve_backend_route("POST", "/events/account-test"), BackendRoute::Gateway);
    assert_eq!(resolve_backend_route("GET", "/metrics"), BackendRoute::Metrics);
    assert_eq!(resolve_backend_route("POST", "/v1/responses"), BackendRoute::Gateway);
}
