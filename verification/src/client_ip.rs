//! Which client IP a gateway request is attributed to.
use vstd::prelude::*;
use crate::text::{chars_of, non_blank, non_blank_str, string_from_chars};

verus! {

/// Internal header through which the front proxy passes the peer IP.
pub const FORWARDED_CLIENT_IP_HEADER: &'static str = "x-codexmanager-client-ip";

/// The text before the first comma (all of it when there is none).
pub open spec fn first_segment(s: Seq<char>) -> Seq<char>
    decreases s.len(),
{
    if s.len() == 0 {
        s
    } else if s[0] == ',' {
        Seq::empty()
    } else {
        seq![s[0]] + first_segment(s.drop_first())
    }
}

/// The first entry of a forwarded-IP header value, trimmed, when not empty;
/// it is then to be parsed as an IP address.
pub fn forwarded_client_ip_candidate(value: &str) -> (r: Option<String>)
    ensures
        match r {
            Some(t) => non_blank(first_segment(value@)) == Some(t@),
            None => non_blank(first_segment(value@)) is None,
        },
{
    let cs = chars_of(value);
    let mut i: usize = 0;
    while i < cs.len() && cs[i] != ','
        invariant
            i <= cs@.len(),
            cs@ == value@,
            forall|k: int| 0 <= k < i ==> cs@[k] != ',',
        decreases cs.len() - i,
    {
        i = i + 1;
    }
    proof {
        lemma_first_segment(cs@, i as int);
    }
    let seg = string_from_chars(&cs.as_slice()[0..i]);
    non_blank_str(seg.as_str())
}

proof fn lemma_first_segment(s: Seq<char>, i: int)
    requires
        0 <= i <= s.len(),
        forall|k: int| 0 <= k < i ==> s[k] != ',',
        i == s.len() || s[i] == ',',
    ensures
        first_segment(s) == s.subrange(0, i),
    decreases i,
{
    if i == 0 {
        if s.len() > 0 {
            assert(s[0] == ',');
        }
        assert(s.subrange(0, 0) =~= Seq::<char>::empty());
    } else {
        let t = s.drop_first();
        assert forall|k: int| 0 <= k < i - 1 implies t[k] != ',' by {
            assert(t[k] == s[k + 1]);
        }
        lemma_first_segment(t, i - 1);
        assert(s.subrange(0, i) =~= seq![s[0]] + t.subrange(0, i - 1));
    }
}

/// The client IP of a request: none without a peer address; the forwarded IP
/// when the peer is the loopback front proxy and forwarded a valid IP; the
/// peer's own IP otherwise.
pub fn choose_client_ip(
    remote_ip: Option<String>,
    remote_is_loopback: bool,
    forwarded_ip: Option<String>,
) -> (r: Option<String>)
    ensures
        match remote_ip {
            None => r is None,
            Some(ip) => if remote_is_loopback && forwarded_ip is Some {
                r == forwarded_ip
            } else {
                r == Some(ip)
            },
        },
{
    match remote_ip {
        None => None,
        Some(ip) => {
            if remote_is_loopback {
                if let Some(f) = forwarded_ip {
                    return Some(f);
                }
            }
            Some(ip)
        },
    }
}

} // verus!
