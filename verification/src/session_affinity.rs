//! Session-affinity headers forwarded upstream for a request.
use vstd::prelude::*;

verus! {

/// The session-affinity values sent upstream.
pub struct OutgoingSessionAffinity<'a> {
    pub incoming_session_id: Option<&'a str>,
    pub incoming_client_request_id: Option<&'a str>,
    pub incoming_turn_state: Option<&'a str>,
    pub fallback_session_id: Option<&'a str>,
}

/// The conversation anchor, when present, is the client request id and the
/// fallback session id; the explicit session id passes through unchanged; a
/// turn state is only kept together with a conversation anchor (an orphan turn
/// state is dropped).
pub fn derive_outgoing_session_affinity<'a>(
    session_id: Option<&'a str>,
    client_request_id: Option<&'a str>,
    turn_state: Option<&'a str>,
    conversation_anchor: Option<&'a str>,
) -> (r: OutgoingSessionAffinity<'a>)
    ensures
        r.incoming_session_id == session_id,
        r.incoming_client_request_id == (if conversation_anchor is Some {
            conversation_anchor
        } else {
            client_request_id
        }),
        r.incoming_turn_state == (if conversation_anchor is Some {
            turn_state
        } else {
            None
        }),
        r.fallback_session_id == conversation_anchor,
{
    let incoming_client_request_id = match conversation_anchor {
        Some(anchor) => Some(anchor),
        None => client_request_id,
    };
    let incoming_turn_state = match conversation_anchor {
        Some(_) => turn_state,
        None => None,
    };
    OutgoingSessionAffinity {
        incoming_session_id: session_id,
        incoming_client_request_id,
        incoming_turn_state,
        fallback_session_id: conversation_anchor,
    }
}

} // verus!
