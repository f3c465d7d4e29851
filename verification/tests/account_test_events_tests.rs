use codexmanager::account_test_events::{
    account_test_events_decision, account_test_events_http_decision, account_test_id_from_query,
    account_test_sse_frame, next_chunk, request_header_value, AccountTestEventStream,
    EventsRequestDecision, NextEvent,
};

#[test]
fn account_test_event_query_requires_one_valid_test_id() {
    assert_eq!(
        account_test_id_from_query(Some(
            "other=value&testId=550e8400-e29b-41d4-a716-446655440000"
        ))
        .as_deref(),
        Some("550e8400-e29b-41d4-a716-446655440000")
    );
    assert!(account_test_id_from_query(None).is_none());
    assert!(account_test_id_from_query(Some("other=value")).is_none());
    assert!(account_test_id_from_query(Some("testId=%20%20")).is_none());
    assert!(account_test_id_from_query(Some("testId=bad%2Fid")).is_none());
    assert!(account_test_id_from_query(Some("testId=one&testId=two")).is_none());
}

#[test]
fn sse_frames_and_comments() {
    assert_eq!(
        account_test_sse_frame("{\"a\":1}"),
        "event: account-test-event\ndata: {\"a\":1}\n\n"
    );
    assert_eq!(next_chunk(&NextEvent::Timeout).as_deref(), Some(": keep-alive\n\n"));
    assert!(next_chunk(&NextEvent::Disconnected).is_none());
}

#[test]
fn event_stream_hands_out_bytes_in_order() {
    let mut stream = AccountTestEventStream::new();
    assert!(stream.needs_refill());
    assert!(!stream.is_opened());
    stream.open();
    assert!(stream.is_opened());
    let first = stream.take(5);
    assert_eq!(first, b": con".to_vec());
    let rest = stream.take(100);
    assert_eq!(rest, b"nected\n\n".to_vec());
    assert!(stream.needs_refill());
    assert!(stream.load(&NextEvent::Event("{}".to_string())));
    assert_eq!(stream.take(1000), b"event: account-test-event\ndata: {}\n\n".to_vec());
    assert!(!stream.load(&NextEvent::Disconnected));
    assert!(stream.take(10).is_empty());
}

#[test]
fn endpoint_checks_method_token_and_test_id() {
    assert!(matches!(
        account_test_events_decision("POST", true, Some("t".to_string())),
        EventsRequestDecision::Reject(405)
    ));
    assert!(matches!(
        account_test_events_decision("GET", false, Some("t".to_string())),
        EventsRequestDecision::Reject(401)
    ));
    assert!(matches!(
        account_test_events_decision("GET", true, None),
        EventsRequestDecision::Reject(400)
    ));
    match account_test_events_http_decision(true, Some("t".to_string())) {
        EventsRequestDecision::Stream(id) => assert_eq!(id, "t"),
        _ => panic!("expected a stream"),
    }
}

#[test]
fn header_lookup_ignores_case_and_blank_values() {
    let headers = vec![
        ("x-codexmanager-rpc-token".to_string(), "  tok  ".to_string()),
        ("Other".to_string(), "v".to_string()),
    ];
    assert_eq!(
        request_header_value(&headers, "X-CodexManager-Rpc-Token").as_deref(),
        Some("tok")
    );
    assert!(request_header_value(&headers, "missing").is_none());
    let blank = vec![("Token".to_string(), "   ".to_string())];
    assert!(request_header_value(&blank, "token").is_none());
}
