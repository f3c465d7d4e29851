use codexmanager::updater::{
    pending_target_version, pending_update_is_applied, release_dir_from_pending,
    script_dir_from_pending, should_remove_update_entry, UpdaterState,
};

#[test]
fn pending_update_applies_once_running_version_reaches_target() {
    assert_eq!(pending_target_version("  vV1.2.3 "), "1.2.3");
    assert!(pending_update_is_applied("0.5.6", "v0.5.6"));
    assert!(pending_update_is_applied("0.10.0", "0.9.9"));
    assert!(!pending_update_is_applied("0.5.5", "v0.5.6"));
    assert!(!pending_update_is_applied("1.0.0", "1.0.1-beta.1"));
    assert!(pending_update_is_applied("1.0.1", "1.0.1-beta.1"));
    assert!(!pending_update_is_applied("1.0.0", "not-a-version"));
    assert!(!pending_update_is_applied("dev", "0.0.1"));
}

#[test]
fn release_dir_is_kept_only_directly_under_updates_root() {
    assert_eq!(
        release_dir_from_pending("/data/updates", "/data/updates/v0.5.6/app.zip"),
        Some("/data/updates/v0.5.6".to_string())
    );
    assert_eq!(release_dir_from_pending("/data/updates", "/data/updates/app.zip"), None);
    assert_eq!(release_dir_from_pending("/data/updates", "/elsewhere/v0.5.6/app.zip"), None);
    assert_eq!(release_dir_from_pending("/data/updates", "app.zip"), None);
    assert_eq!(
        script_dir_from_pending("/data/updates/v0.5.6/app.zip", "/data/updates"),
        "/data/updates/v0.5.6"
    );
    assert_eq!(script_dir_from_pending("/", "/data/updates"), "/data/updates");
}

#[test]
fn cleanup_keeps_logs_and_pending_release_directories() {
    assert!(should_remove_update_entry(Some("v0.5.5"), true, false));
    assert!(!should_remove_update_entry(Some("LOGS"), true, false));
    assert!(!should_remove_update_entry(Some("v0.5.6"), true, true));
    assert!(!should_remove_update_entry(Some("pending-update.json"), false, false));
    assert!(should_remove_update_entry(None, true, false));
}

#[test]
fn updater_state_records_checks_and_errors() {
    let mut state: UpdaterState<u32> = UpdaterState::new();
    state.set_last_error("offline".to_string());
    assert_eq!(state.snapshot(), (None, Some("offline".to_string())));
    state.set_last_check(7);
    assert_eq!(state.snapshot(), (Some(&7), None));
    state.set_last_error("again".to_string());
    state.clear_last_error();
    assert_eq!(state.snapshot(), (Some(&7), None));
}
