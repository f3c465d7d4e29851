use codexmanager::startup::{
    readiness_after_probe, readiness_deadline, readiness_probe_allowed, startup_main_window_action,
    ReadinessStep, StartupMainWindowAction, DEV_SERVER_READY_TIMEOUT_MS,
};

#[test]
fn startup_window_respects_setting_when_tray_is_available() {
    assert_eq!(
        startup_main_window_action(true, true),
        StartupMainWindowAction::Show
    );
    assert_eq!(
        startup_main_window_action(false, true),
        StartupMainWindowAction::InitializeHidden
    );
}

#[test]
fn startup_window_is_shown_when_tray_is_unavailable() {
    assert_eq!(
        startup_main_window_action(false, false),
        StartupMainWindowAction::Show
    );
}

#[test]
fn readiness_wait_lasts_one_minute() {
    assert_eq!(readiness_deadline(1_000), 1_000 + DEV_SERVER_READY_TIMEOUT_MS);
    assert!(readiness_probe_allowed(1_000, 61_000));
    assert!(readiness_probe_allowed(61_000, 61_000));
    assert!(!readiness_probe_allowed(61_001, 61_000));
}

#[test]
fn readiness_waits_for_a_success_status() {
    assert_eq!(readiness_after_probe(Some(200)), ReadinessStep::Ready);
    assert_eq!(readiness_after_probe(Some(204)), ReadinessStep::Ready);
    assert_eq!(readiness_after_probe(Some(503)), ReadinessStep::RetryAfterSleep);
    assert_eq!(readiness_after_probe(None), ReadinessStep::RetryAfterSleep);
}
