//! Settings of the user agent that aggregate-API probes send.
use vstd::prelude::*;
use crate::text::{ascii_lowercase, chars_of, lower, str_eq, to_owned_string, trim, trim_str};

verus! {

pub const AGGREGATE_API_PROBE_USER_AGENT_MODE_CODEX: &'static str = "codex";

pub const AGGREGATE_API_PROBE_USER_AGENT_MODE_CUSTOM: &'static str = "custom";

pub const MAX_AGGREGATE_API_PROBE_USER_AGENT_BYTES: usize = 512;

pub open spec fn spec_normalize_mode(raw: Seq<char>) -> Result<Seq<char>, Seq<char>> {
    let n = lower(trim(raw));
    if n == "codex"@ || n == "custom"@ {
        Ok(n)
    } else {
        Err("aggregate api probe user agent mode must be codex or custom"@)
    }
}

/// The mode, trimmed and lower-cased, when it is `codex` or `custom`.
pub fn normalize_probe_user_agent_mode(raw: &str) -> (r: Result<String, String>)
    ensures
        match r {
            Ok(v) => spec_normalize_mode(raw@) == Ok::<Seq<char>, Seq<char>>(v@),
            Err(e) => spec_normalize_mode(raw@) == Err::<Seq<char>, Seq<char>>(e@),
        },
{
    let t = trim_str(raw);
    let normalized = ascii_lowercase(t.as_str());
    if str_eq(normalized.as_str(), AGGREGATE_API_PROBE_USER_AGENT_MODE_CODEX) || str_eq(
        normalized.as_str(),
        AGGREGATE_API_PROBE_USER_AGENT_MODE_CUSTOM,
    ) {
        Ok(normalized)
    } else {
        Err(to_owned_string("aggregate api probe user agent mode must be codex or custom"))
    }
}

pub open spec fn is_ascii_control(c: char) -> bool {
    c <= '\u{1f}' || c == '\u{7f}'
}

pub open spec fn spec_normalize_user_agent(raw: Seq<char>) -> Result<Seq<char>, Seq<char>> {
    let n = trim(raw);
    if vstd::utf8::encode_utf8(n).len() > 512 {
        Err("aggregate api probe user agent must not exceed 512 bytes"@)
    } else if exists|i: int| 0 <= i < n.len() && is_ascii_control(#[trigger] n[i]) {
        Err("aggregate api probe user agent contains control characters"@)
    } else {
        Ok(n)
    }
}

/// The user agent, trimmed, when it is at most 512 bytes long and holds no
/// ASCII control character.
pub fn normalize_probe_user_agent(raw: &str) -> (r: Result<String, String>)
    ensures
        match r {
            Ok(v) => spec_normalize_user_agent(raw@) == Ok::<Seq<char>, Seq<char>>(v@),
            Err(e) => spec_normalize_user_agent(raw@) == Err::<Seq<char>, Seq<char>>(e@),
        },
{
    let normalized = trim_str(raw);
    if normalized.as_str().as_bytes().len() > MAX_AGGREGATE_API_PROBE_USER_AGENT_BYTES {
        return Err(to_owned_string("aggregate api probe user agent must not exceed 512 bytes"));
    }
    let cs = chars_of(normalized.as_str());
    let mut i: usize = 0;
    while i < cs.len()
        invariant
            i <= cs@.len(),
            cs@ == trim(raw@),
            vstd::utf8::encode_utf8(trim(raw@)).len() <= 512,
            forall|k: int| 0 <= k < i ==> !is_ascii_control(#[trigger] cs@[k]),
        decreases cs.len() - i,
    {
        let c = cs[i];
        if c <= '\u{1f}' || c == '\u{7f}' {
            assert(is_ascii_control(cs@[i as int]));
            return Err(to_owned_string("aggregate api probe user agent contains control characters"));
        }
        i = i + 1;
    }
    Ok(normalized)
}

/// The persisted mode when it is valid, `codex` otherwise.
pub fn current_aggregate_api_probe_user_agent_mode(persisted: Option<&str>) -> (r: String)
    ensures
        r@ == match persisted {
            Some(v) => match spec_normalize_mode(v@) {
                Ok(m) => m,
                Err(_) => "codex"@,
            },
            None => "codex"@,
        },
{
    match persisted {
        Some(v) => match normalize_probe_user_agent_mode(v) {
            Ok(m) => m,
            Err(_) => to_owned_string(AGGREGATE_API_PROBE_USER_AGENT_MODE_CODEX),
        },
        None => to_owned_string(AGGREGATE_API_PROBE_USER_AGENT_MODE_CODEX),
    }
}

/// The persisted user agent when it is valid, empty otherwise.
pub fn current_aggregate_api_probe_user_agent(persisted: Option<&str>) -> (r: String)
    ensures
        r@ == match persisted {
            Some(v) => match spec_normalize_user_agent(v@) {
                Ok(u) => u,
                Err(_) => Seq::<char>::empty(),
            },
            None => Seq::<char>::empty(),
        },
{
    match persisted {
        Some(v) => match normalize_probe_user_agent(v) {
            Ok(u) => u,
            Err(_) => String::new(),
        },
        None => String::new(),
    }
}

pub open spec fn spec_settings(
    mode: Option<Seq<char>>,
    user_agent: Option<Seq<char>>,
    persisted_mode: Option<Seq<char>>,
    persisted_user_agent: Option<Seq<char>>,
) -> Result<(Seq<char>, Seq<char>), Seq<char>> {
    let next_mode = match mode {
        Some(v) => spec_normalize_mode(v),
        None => Ok(
            match persisted_mode {
                Some(v) => match spec_normalize_mode(v) {
                    Ok(m) => m,
                    Err(_) => "codex"@,
                },
                None => "codex"@,
            },
        ),
    };
    let next_ua = match user_agent {
        Some(v) => spec_normalize_user_agent(v),
        None => Ok(
            match persisted_user_agent {
                Some(v) => match spec_normalize_user_agent(v) {
                    Ok(u) => u,
                    Err(_) => Seq::<char>::empty(),
                },
                None => Seq::<char>::empty(),
            },
        ),
    };
    match next_mode {
        Err(e) => Err(e),
        Ok(m) => match next_ua {
            Err(e) => Err(e),
            Ok(u) => if m == "custom"@ && u.len() == 0 {
                Err("aggregate api probe custom user agent is required"@)
            } else {
                Ok((m, u))
            },
        },
    }
}

pub open spec fn opt_view(s: Option<&str>) -> Option<Seq<char>> {
    match s {
        Some(v) => Some(v@),
        None => None,
    }
}

/// The probe settings to store: the given mode and user agent (normalized),
/// each falling back to the persisted value when not given; `custom` mode
/// needs a user agent.
pub fn set_aggregate_api_probe_user_agent_settings(
    mode: Option<&str>,
    user_agent: Option<&str>,
    persisted_mode: Option<&str>,
    persisted_user_agent: Option<&str>,
) -> (r: Result<(String, String), String>)
    ensures
        match r {
            Ok((m, u)) => spec_settings(
                opt_view(mode),
                opt_view(user_agent),
                opt_view(persisted_mode),
                opt_view(persisted_user_agent),
            ) == Ok::<(Seq<char>, Seq<char>), Seq<char>>((m@, u@)),
            Err(e) => spec_settings(
                opt_view(mode),
                opt_view(user_agent),
                opt_view(persisted_mode),
                opt_view(persisted_user_agent),
            ) == Err::<(Seq<char>, Seq<char>), Seq<char>>(e@),
        },
{
    let next_mode = match mode {
        Some(v) => match normalize_probe_user_agent_mode(v) {
            Ok(m) => m,
            Err(e) => return Err(e),
        },
        None => current_aggregate_api_probe_user_agent_mode(persisted_mode),
    };
    let next_user_agent = match user_agent {
        Some(v) => match normalize_probe_user_agent(v) {
            Ok(u) => u,
            Err(e) => return Err(e),
        },
        None => current_aggregate_api_probe_user_agent(persisted_user_agent),
    };
    if str_eq(next_mode.as_str(), AGGREGATE_API_PROBE_USER_AGENT_MODE_CUSTOM)
        && next_user_agent.as_str().is_empty() {
        return Err(to_owned_string("aggregate api probe custom user agent is required"));
    }
    Ok((next_mode, next_user_agent))
}

/// The stored form of a user agent: absent when empty.
pub fn persisted_user_agent_value(user_agent: &str) -> (r: Option<String>)
    ensures
        match r {
            Some(v) => user_agent@.len() > 0 && v@ == user_agent@,
            None => user_agent@.len() == 0,
        },
{
    if user_agent.is_empty() {
        None
    } else {
        Some(to_owned_string(user_agent))
    }
}

} // verus!
