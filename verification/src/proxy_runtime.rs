//! Front proxy settings: the backend address and the body limits.
use vstd::prelude::*;
use crate::text::{chars_of, concat, eq_ignore_ascii_case, lower, string_from_chars, trim, trim_str};

verus! {

/// `http://` followed by the backend address.
pub fn build_backend_base_url(addr: &str) -> (r: String)
    ensures
        r@ == "http://"@ + addr@,
{
    concat("http://", addr)
}

/// The limit applied to a zstd body after decompression: the decompression
/// safety limit, lowered to the generic body limit when one is set (non-zero),
/// and never below one byte.
pub fn zstd_body_limit(max_body_bytes: usize, zstd_max_body_bytes: usize) -> (r: usize)
    ensures
        ({
            let base = if max_body_bytes == 0 {
                zstd_max_body_bytes
            } else if max_body_bytes < zstd_max_body_bytes {
                max_body_bytes
            } else {
                zstd_max_body_bytes
            };
            r == if base == 0 {
                1
            } else {
                base
            }
        }),
{
    let base = if max_body_bytes == 0 {
        zstd_max_body_bytes
    } else if max_body_bytes < zstd_max_body_bytes {
        max_body_bytes
    } else {
        zstd_max_body_bytes
    };
    if base == 0 {
        1
    } else {
        base
    }
}

/// Where the front proxy listens.
pub enum ProxyBindPlan {
    /// `localhost:<port>`: both `127.0.0.1:<port>` and `[::1]:<port>`, so that
    /// clients reach it whichever stack `localhost` resolves to.
    DualStack { v4: String, v6: String },
    /// Any other address, trimmed.
    Single(String),
}

/// `localhost:` (in any case) followed by a port.
pub open spec fn is_localhost_addr(t: Seq<char>) -> bool {
    t.len() > 10 && lower(t.subrange(0, 10)) == "localhost:"@
}

/// The listening plan of an address.
pub fn proxy_bind_plan(addr: &str) -> (r: ProxyBindPlan)
    ensures
        ({
            let t = trim(addr@);
            if is_localhost_addr(t) {
                let port = t.subrange(10, t.len() as int);
                r matches ProxyBindPlan::DualStack { v4, v6 } && v4@ == "127.0.0.1:"@ + port && v6@
                    == "[::1]:"@ + port
            } else {
                r matches ProxyBindPlan::Single(a) && a@ == t
            }
        }),
{
    let t = trim_str(addr);
    let cs = chars_of(t.as_str());
    if cs.len() > 10 {
        let head = string_from_chars(&cs.as_slice()[0..10]);
        if eq_ignore_ascii_case(head.as_str(), "localhost:") {
            proof {
                reveal_strlit("localhost:");
                assert(lower("localhost:"@) =~= "localhost:"@);
            }
            let port = string_from_chars(&cs.as_slice()[10..cs.len()]);
            return ProxyBindPlan::DualStack {
                v4: concat("127.0.0.1:", port.as_str()),
                v6: concat("[::1]:", port.as_str()),
            };
        }
        proof {
            reveal_strlit("localhost:");
            assert(lower("localhost:"@) =~= "localhost:"@);
        }
    }
    ProxyBindPlan::Single(t)
}

#[verifier::external_type_specification]
#[verifier::external_body]
pub struct ExReqwestClient(reqwest::Client);

/// `reqwest::Client::builder().no_proxy().build()`: an HTTP client for the
/// local backend that ignores the system proxy settings. The contract claims
/// nothing of the result: whether the build succeeds depends on the machine.
#[verifier::external_body]
pub fn build_local_backend_client() -> (r: Result<reqwest::Client, String>) {
    reqwest::Client::builder().no_proxy().build().map_err(|err| err.to_string())
}

} // verus!
