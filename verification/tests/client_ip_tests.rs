use codexmanager::client_ip::{choose_client_ip, forwarded_client_ip_candidate, FORWARDED_CLIENT_IP_HEADER};

#[test]
fn loopback_remote_trusts_forwarded_client_ip() {
    assert_eq!(
        choose_client_ip(Some("127.0.0.1".to_string()), true, Some("192.168.1.20".to_string())),
        Some("192.168.1.20".to_string()),
    );
}

#[test]
fn non_loopback_remote_ignores_forwarded_client_ip() {
    assert_eq!(
        choose_client_ip(Some("10.0.0.10".to_string()), false, Some("192.168.1.20".to_string())),
        Some("10.0.0.10".to_string()),
    );
}

#[test]
fn loopback_remote_without_forwarded_ip_keeps_its_own() {
    assert_eq!(
        choose_client_ip(Some("127.0.0.1".to_string()), true, None),
        Some("127.0.0.1".to_string()),
    );
    assert_eq!(choose_client_ip(None, true, Some("192.168.1.20".to_string())), None);
}

#[test]
fn forwarded_header_candidate_is_first_trimmed_entry() {
    assert_eq!(FORWARDED_CLIENT_IP_HEADER, "x-codexmanager-client-ip");
    assert_eq!(
        forwarded_client_ip_candidate(" 203.0.113.9 , 10.0.0.1"),
        Some("203.0.113.9".to_string())
    );
    assert_eq!(forwarded_client_ip_candidate("  , 10.0.0.1"), None);
    assert_eq!(forwarded_client_ip_candidate(""), None);
}
