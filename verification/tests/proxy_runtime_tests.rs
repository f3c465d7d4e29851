use codexmanager::proxy_runtime::{
    build_backend_base_url, build_local_backend_client, proxy_bind_plan, zstd_body_limit,
    ProxyBindPlan,
};

#[test]
fn backend_base_url_uses_http_scheme() {
    assert_eq!(
        build_backend_base_url("127.0.0.1:18080"),
        "http://127.0.0.1:18080"
    );
}

#[test]
fn local_backend_client_builds_without_system_proxy() {
    build_local_backend_client().expect("local backend client");
}

#[test]
fn zstd_body_limit_combines_generic_and_decompression_limits() {
    assert_eq!(zstd_body_limit(0, 256), 256);
    assert_eq!(zstd_body_limit(128, 256), 128);
    assert_eq!(zstd_body_limit(512, 256), 256);
    assert_eq!(zstd_body_limit(0, 0), 1);
}

#[test]
fn localhost_listens_on_both_loopback_stacks() {
    match proxy_bind_plan(" LocalHost:48760 ") {
        ProxyBindPlan::DualStack { v4, v6 } => {
            assert_eq!(v4, "127.0.0.1:48760");
            assert_eq!(v6, "[::1]:48760");
        }
        ProxyBindPlan::Single(_) => panic!("expected dual stack"),
    }
    match proxy_bind_plan(" 0.0.0.0:48760 ") {
        ProxyBindPlan::Single(addr) => assert_eq!(addr, "0.0.0.0:48760"),
        ProxyBindPlan::DualStack { .. } => panic!("expected one listener"),
    }
    match proxy_bind_plan("localhost:") {
        ProxyBindPlan::Single(addr) => assert_eq!(addr, "localhost:"),
        ProxyBindPlan::DualStack { .. } => panic!("a bare prefix has no port"),
    }
}
