//! What the desktop shell does with its main window at startup.
use vstd::prelude::*;

verus! {

/// The main window is shown, or initialized hidden in the tray.
#[derive(Clone, Copy, Debug, PartialEq, Eq, Structural)]
pub enum StartupMainWindowAction {
    InitializeHidden,
    Show,
}

/// The window stays hidden only when the setting asks for it and a tray icon
/// exists to bring it back.
pub fn startup_main_window_action(configured: bool, tray_available: bool) -> (r:
    StartupMainWindowAction)
    ensures
        r == (if configured || !tray_available {
            StartupMainWindowAction::Show
        } else {
            StartupMainWindowAction::InitializeHidden
        }),
{
    if configured || !tray_available {
        StartupMainWindowAction::Show
    } else {
        StartupMainWindowAction::InitializeHidden
    }
}

/// Interval between readiness probes of the development server, in ms.
pub const DEV_SERVER_READY_INTERVAL_MS: u64 = 500;

/// How long the readiness wait lasts, in ms.
pub const DEV_SERVER_READY_TIMEOUT_MS: u64 = 60_000;

/// One step of the wait for the development server before the main window
/// is created.
#[derive(Clone, Copy, Debug, PartialEq, Eq, Structural)]
pub enum ReadinessStep {
    /// The page answered with a success status.
    Ready,
    /// Sleep for the interval, then probe again.
    RetryAfterSleep,
    /// The deadline has passed: create the window anyway.
    TimedOut,
}

/// The deadline of a wait that starts at `start_ms` (saturating).
pub fn readiness_deadline(start_ms: u64) -> (r: u64)
    ensures
        r == (if start_ms + DEV_SERVER_READY_TIMEOUT_MS > u64::MAX {
            u64::MAX
        } else {
            (start_ms + DEV_SERVER_READY_TIMEOUT_MS) as u64
        }),
{
    start_ms.saturating_add(DEV_SERVER_READY_TIMEOUT_MS)
}

/// Whether another probe is made at `now_ms`.
pub fn readiness_probe_allowed(now_ms: u64, deadline_ms: u64) -> (r: bool)
    ensures
        r == (now_ms <= deadline_ms),
{
    now_ms <= deadline_ms
}

/// The step after a probe answered with `status` (`None`: no answer).
pub fn readiness_after_probe(status: Option<u16>) -> (r: ReadinessStep)
    ensures
        r == (if status matches Some(s) && 200 <= s < 300 {
            ReadinessStep::Ready
        } else {
            ReadinessStep::RetryAfterSleep
        }),
{
    match status {
        Some(s) if 200 <= s && s < 300 => ReadinessStep::Ready,
        _ => ReadinessStep::RetryAfterSleep,
    }
}

} // verus!
