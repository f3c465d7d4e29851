//! Updater bookkeeping: the last check and error, and which downloaded
//! update directories are kept.
use vstd::prelude::*;
use crate::text::{chars_of, eq_ignore_ascii_case, lower, string_from_chars, trim, trim_str};

verus! {

/// File that records the update waiting to be installed.
pub const PENDING_UPDATE_FILE: &'static str = "pending-update.json";

/// The last update check and the last error.
pub struct UpdaterState<T> {
    pub last_check: Option<T>,
    pub last_error: Option<String>,
}

impl<T> UpdaterState<T> {
    pub fn new() -> (r: Self)
        ensures
            r.last_check is None,
            r.last_error is None,
    {
        UpdaterState { last_check: None, last_error: None }
    }

    /// A successful check replaces the last one and clears the error.
    pub fn set_last_check(&mut self, check: T)
        ensures
            final(self).last_check == Some(check),
            final(self).last_error is None,
    {
        self.last_check = Some(check);
        self.last_error = None;
    }

    /// Records an error; the last check stays.
    pub fn set_last_error(&mut self, message: String)
        ensures
            final(self).last_check == old(self).last_check,
            final(self).last_error == Some(message),
    {
        self.last_error = Some(message);
    }

    pub fn clear_last_error(&mut self)
        ensures
            final(self).last_check == old(self).last_check,
            final(self).last_error is None,
    {
        self.last_error = None;
    }

    /// The last check and a copy of the last error.
    pub fn snapshot(&self) -> (r: (Option<&T>, Option<String>))
        ensures
            r.0 == match self.last_check {
                Some(c) => Some(&c),
                None => None,
            },
            r.1 == self.last_error,
    {
        let check = match &self.last_check {
            Some(c) => Some(c),
            None => None,
        };
        let err = match &self.last_error {
            Some(e) => Some(e.clone()),
            None => None,
        };
        (check, err)
    }
}

/// Whether the text is a valid semantic version.
pub uninterp spec fn semver_valid(text: Seq<char>) -> bool;

/// Whether version `a` is not older than `b` in semantic-version
/// precedence (`>=` on `semver::Version`), for two valid versions.
pub uninterp spec fn semver_at_least(a: Seq<char>, b: Seq<char>) -> bool;

/// `semver::Version::parse(text).is_ok()`.
#[verifier::external_body]
fn is_semver(text: &str) -> (r: bool)
    ensures
        r == semver_valid(text@),
{
    semver::Version::parse(text).is_ok()
}

/// `>=` on `semver::Version` between two texts that parse; the result is
/// named, not described.
#[verifier::external_body]
fn semver_text_at_least(a: &str, b: &str) -> (r: bool)
    requires
        semver_valid(a@),
        semver_valid(b@),
    ensures
        r == semver_at_least(a@, b@),
{
    match (semver::Version::parse(a), semver::Version::parse(b)) {
        (Ok(x), Ok(y)) => x >= y,
        _ => false,
    }
}

/// The text with every leading `v` or `V` removed.
pub open spec fn strip_v_prefix(s: Seq<char>) -> Seq<char>
    decreases s.len(),
{
    if s.len() > 0 && (s[0] == 'v' || s[0] == 'V') {
        strip_v_prefix(s.drop_first())
    } else {
        s
    }
}

proof fn lemma_strip_v(s: Seq<char>, i: int)
    requires
        0 <= i <= s.len(),
        forall|k: int| 0 <= k < i ==> s[k] == 'v' || s[k] == 'V',
        i == s.len() || !(s[i] == 'v' || s[i] == 'V'),
    ensures
        strip_v_prefix(s) == s.subrange(i, s.len() as int),
    decreases i,
{
    if i == 0 {
        assert(s.subrange(0, s.len() as int) =~= s);
    } else {
        let t = s.drop_first();
        assert forall|k: int| 0 <= k < i - 1 implies t[k] == 'v' || t[k] == 'V' by {
            assert(t[k] == s[k + 1]);
        }
        lemma_strip_v(t, i - 1);
        assert(t.subrange(i - 1, t.len() as int) =~= s.subrange(i, s.len() as int));
    }
}

/// The target version of a pending update: trimmed, without leading `v`/`V`.
pub fn pending_target_version(latest_version: &str) -> (r: String)
    ensures
        r@ == strip_v_prefix(trim(latest_version@)),
{
    let t = trim_str(latest_version);
    let cs = chars_of(t.as_str());
    let mut i: usize = 0;
    while i < cs.len() && (cs[i] == 'v' || cs[i] == 'V')
        invariant
            i <= cs@.len(),
            forall|k: int| 0 <= k < i ==> cs@[k] == 'v' || cs@[k] == 'V',
        decreases cs.len() - i,
    {
        i = i + 1;
    }
    proof {
        lemma_strip_v(cs@, i as int);
    }
    string_from_chars(&cs.as_slice()[i..cs.len()])
}

/// An update counts as applied when both the running version and the target
/// are valid semantic versions and the running one is not older; it is never
/// applied when either does not parse.
pub fn pending_update_is_applied(current_version: &str, latest_version: &str) -> (r: bool)
    ensures
        ({
            let target = strip_v_prefix(trim(latest_version@));
            r == (semver_valid(current_version@) && semver_valid(target) && semver_at_least(
                current_version@,
                target,
            ))
        }),
{
    let target_text = pending_target_version(latest_version);
    if is_semver(current_version) && is_semver(target_text.as_str()) {
        semver_text_at_least(current_version, target_text.as_str())
    } else {
        false
    }
}

/// A directory entry of the updates root is removed when it is a directory,
/// is not the `logs` directory (any case) and is not the release directory of
/// the pending update.
pub fn should_remove_update_entry(
    file_name: Option<&str>,
    is_dir: bool,
    is_pending_release_dir: bool,
) -> (r: bool)
    ensures
        r == (is_dir && !(file_name matches Some(n) && lower(n@) == "logs"@)
            && !is_pending_release_dir),
{
    let is_logs = match file_name {
        Some(n) => eq_ignore_ascii_case(n, "logs"),
        None => false,
    };
    proof {
        reveal_strlit("logs");
        assert(lower("logs"@) =~= "logs"@);
    }
    is_dir && !is_logs && !is_pending_release_dir
}

/// The parent directory of a path, as `std::path::Path::parent` gives it.
pub uninterp spec fn path_parent_of(path: Seq<char>) -> Option<Seq<char>>;

/// Whether two paths are equal component by component, as `Path` compares.
pub uninterp spec fn paths_equal(a: Seq<char>, b: Seq<char>) -> bool;

/// `std::path::Path::parent`.
#[verifier::external_body]
fn path_parent(path: &str) -> (r: Option<String>)
    ensures
        match r {
            Some(p) => path_parent_of(path@) == Some(p@),
            None => path_parent_of(path@) is None,
        },
{
    std::path::Path::new(path).parent().map(|p| p.to_string_lossy().into_owned())
}

/// `==` on `std::path::Path`.
#[verifier::external_body]
fn same_path(a: &str, b: &str) -> (r: bool)
    ensures
        r == paths_equal(a@, b@),
{
    std::path::Path::new(a) == std::path::Path::new(b)
}

/// The release directory of a pending update: the directory of its asset,
/// when that directory sits directly in the updates root.
pub fn release_dir_from_pending(root: &str, asset_path: &str) -> (r: Option<String>)
    ensures
        match path_parent_of(asset_path@) {
            Some(d) => match path_parent_of(d) {
                Some(dp) => if paths_equal(dp, root@) {
                    r matches Some(x) && x@ == d
                } else {
                    r is None
                },
                None => r is None,
            },
            None => r is None,
        },
{
    let release_dir = match path_parent(asset_path) {
        Some(d) => d,
        None => return None,
    };
    match path_parent(release_dir.as_str()) {
        Some(dp) => {
            if same_path(dp.as_str(), root) {
                Some(release_dir)
            } else {
                None
            }
        },
        None => None,
    }
}

/// Where the install script of a pending update lives: the asset's directory,
/// or the updates root when the asset path has no parent.
pub fn script_dir_from_pending(asset_path: &str, updates_root: &str) -> (r: String)
    ensures
        r@ == match path_parent_of(asset_path@) {
            Some(d) => d,
            None => updates_root@,
        },
{
    match path_parent(asset_path) {
        Some(d) => d,
        None => crate::text::to_owned_string(updates_root),
    }
}

} // verus!
