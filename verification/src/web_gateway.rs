//! Access rules of the web gateway.
use vstd::prelude::*;
use crate::text::str_eq;

verus! {

/// Account-test events are open in the `none` and `password` modes; in the
/// `accounts` mode only `admin` and `system_admin` may subscribe.
pub fn account_test_events_role_allowed(auth_mode: &str, role: Option<&str>) -> (r: bool)
    ensures
        r == (auth_mode@ != "accounts"@ || (role matches Some(x) && (x@ == "admin"@ || x@
            == "system_admin"@))),
{
    if !str_eq(auth_mode, "accounts") {
        return true;
    }
    match role {
        Some(x) => str_eq(x, "admin") || str_eq(x, "system_admin"),
        None => false,
    }
}

} // verus!
