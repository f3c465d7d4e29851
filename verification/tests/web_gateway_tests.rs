use codexmanager::web_gateway::account_test_events_role_allowed;

#[test]
fn account_test_events_require_admin_in_accounts_mode() {
    assert!(account_test_events_role_allowed("none", None));
    assert!(account_test_events_role_allowed("password", None));
    assert!(account_test_events_role_allowed("accounts", Some("admin")));
    assert!(account_test_events_role_allowed(
        "accounts",
        Some("system_admin")
    ));
    assert!(!account_test_events_role_allowed(
        "accounts",
        Some("member")
    ));
    assert!(!account_test_events_role_allowed("accounts", None));
}
