use codexmanager::aggregate_api::{
    current_aggregate_api_probe_user_agent, current_aggregate_api_probe_user_agent_mode,
    normalize_probe_user_agent, normalize_probe_user_agent_mode, persisted_user_agent_value,
    set_aggregate_api_probe_user_agent_settings, AGGREGATE_API_PROBE_USER_AGENT_MODE_CODEX,
    AGGREGATE_API_PROBE_USER_AGENT_MODE_CUSTOM,
};

#[test]
fn aggregate_api_probe_settings_default_to_codex_profile() {
    assert_eq!(
        current_aggregate_api_probe_user_agent_mode(None),
        AGGREGATE_API_PROBE_USER_AGENT_MODE_CODEX
    );
    assert_eq!(current_aggregate_api_probe_user_agent(None), "");
}

#[test]
fn aggregate_api_probe_settings_validate_and_persist_custom_user_agent() {
    let missing = set_aggregate_api_probe_user_agent_settings(
        Some(AGGREGATE_API_PROBE_USER_AGENT_MODE_CUSTOM),
        Some("  "),
        None,
        None,
    )
    .expect_err("custom mode requires user agent");
    assert!(missing.contains("custom user agent is required"));

    let result = set_aggregate_api_probe_user_agent_settings(
        Some(AGGREGATE_API_PROBE_USER_AGENT_MODE_CUSTOM),
        Some("Codex-Probe-Test/1.0"),
        None,
        None,
    )
    .expect("persist custom probe settings");
    assert_eq!(
        result,
        (
            AGGREGATE_API_PROBE_USER_AGENT_MODE_CUSTOM.to_string(),
            "Codex-Probe-Test/1.0".to_string()
        )
    );
    assert_eq!(
        persisted_user_agent_value(&result.1),
        Some("Codex-Probe-Test/1.0".to_string())
    );
    assert_eq!(persisted_user_agent_value(""), None);
}

#[test]
fn probe_settings_fall_back_to_stored_values() {
    assert_eq!(
        set_aggregate_api_probe_user_agent_settings(None, None, Some(" CUSTOM "), Some(" ua/2 ")),
        Ok(("custom".to_string(), "ua/2".to_string()))
    );
    assert_eq!(current_aggregate_api_probe_user_agent_mode(Some("bogus")), "codex");
    assert_eq!(
        normalize_probe_user_agent_mode("other"),
        Err("aggregate api probe user agent mode must be codex or custom".to_string())
    );
}

#[test]
fn probe_user_agent_is_bounded_and_printable() {
    assert_eq!(normalize_probe_user_agent("  ok  "), Ok("ok".to_string()));
    assert!(normalize_probe_user_agent(&"a".repeat(512)).is_ok());
    assert_eq!(
        normalize_probe_user_agent(&"a".repeat(513)),
        Err("aggregate api probe user agent must not exceed 512 bytes".to_string())
    );
    assert_eq!(
        normalize_probe_user_agent("bad\u{7}agent"),
        Err("aggregate api probe user agent contains control characters".to_string())
    );
}
