use codexmanager::account_test::{
    account_status_action, classify_http_outcome, emit_image_item, extract_stream_error_message,
    finish_image_test, finish_text_test, format_account_test_id, generate_account_test_id,
    image_item_to_data_uri, image_mime_type, normalize_account_test_id, process_image_sse_event,
    process_text_sse_event, redact, resolve_model_slug, resolve_prompt, resolve_test_kind,
    set_account_test_event_handler, text_test_body, AccountStatusAction, AccountTestEvent,
    AccountTestEventHandlerSlot, AccountTestOutcome, ActiveTestRegistry, ModelCapabilities,
    SseEventBuffer, SubscriberRegistry, TestKind,
};
use codexmanager::json::{JsonMember, JsonValue};

fn s(v: &str) -> JsonValue {
    JsonValue::Str(v.to_string())
}

fn obj(members: Vec<(&str, JsonValue)>) -> JsonValue {
    JsonValue::Object(
        members
            .into_iter()
            .map(|(k, v)| JsonMember { key: k.to_string(), value: v })
            .collect(),
    )
}

#[test]
fn test_kind_parse() {
    assert_eq!(TestKind::parse(Some("image")), TestKind::Image);
    assert_eq!(TestKind::parse(Some("IMAGE")), TestKind::Image);
    assert_eq!(TestKind::parse(Some("text")), TestKind::Text);
    assert_eq!(TestKind::parse(Some("")), TestKind::Text);
    assert_eq!(TestKind::parse(None), TestKind::Text);
}

#[test]
fn resolve_test_kind_auto_switches_image_only_model() {
    let image_only = Some(ModelCapabilities {
        supports_image_generation: true,
        supports_text_generation: false,
    });
    assert_eq!(
        resolve_test_kind(Some("custom-image-model"), TestKind::Text, image_only),
        TestKind::Image
    );
    assert_eq!(
        resolve_test_kind(Some("custom-image-model"), TestKind::Image, image_only),
        TestKind::Image
    );
    assert_eq!(
        resolve_test_kind(Some("external-model"), TestKind::Text, None),
        TestKind::Text
    );
    assert_eq!(resolve_test_kind(None, TestKind::Text, image_only), TestKind::Text);
    let both = Some(ModelCapabilities {
        supports_image_generation: true,
        supports_text_generation: true,
    });
    assert_eq!(resolve_test_kind(Some("m"), TestKind::Image, both), TestKind::Image);
}

#[test]
fn model_and_prompt_fall_back_to_defaults() {
    assert_eq!(resolve_model_slug(Some("  gpt-x  "), TestKind::Text, Some("cat")), "gpt-x");
    assert_eq!(resolve_model_slug(None, TestKind::Text, Some("cat-model")), "cat-model");
    assert_eq!(resolve_model_slug(Some(" "), TestKind::Text, Some("  ")), "gpt-5.3-codex");
    assert_eq!(resolve_model_slug(None, TestKind::Image, None), "gpt-image-2");
    assert_eq!(resolve_prompt(Some(" hello "), TestKind::Image), "hello");
    assert_eq!(resolve_prompt(None, TestKind::Text), "hi");
    assert_eq!(
        resolve_prompt(Some(""), TestKind::Image),
        "Generate a cute orange cat astronaut sticker on a clean pastel background."
    );
}

#[test]
fn image_mime_type_mapping() {
    assert_eq!(image_mime_type("png"), "image/png");
    assert_eq!(image_mime_type("webp"), "image/webp");
    assert_eq!(image_mime_type("jpeg"), "image/jpeg");
    assert_eq!(image_mime_type("gif"), "image/gif");
    assert_eq!(image_mime_type("unknown"), "image/png");
}

#[test]
fn redaction_masks_secrets() {
    let message = "auth error token=secret-token-value here";
    let redacted = redact(message, &vec!["secret-token-value".to_string()]);
    assert!(!redacted.contains("secret-token-value"));
    assert!(redacted.contains("***"));
}

#[test]
fn redaction_skips_short_secrets_and_trims_them() {
    let secrets = vec!["abc".to_string(), "  token123  ".to_string()];
    assert_eq!(redact("abc token123 token123x", &secrets), "abc *** ***x");
    assert_eq!(redact("nothing here", &Vec::new()), "nothing here");
}

#[test]
fn image_item_data_uri_extraction() {
    let image = obj(vec![
        ("type", s("image_generation_call")),
        ("id", s("ig_1")),
        ("result", s("aGVsbG8=")),
        ("output_format", s("png")),
    ]);
    let (url, mime) = image_item_to_data_uri(&image).expect("extract image");
    assert_eq!(url, "data:image/png;base64,aGVsbG8=");
    assert_eq!(mime, "image/png");

    let text = obj(vec![("type", s("message")), ("role", s("assistant"))]);
    assert!(image_item_to_data_uri(&text).is_none());

    let empty = obj(vec![("type", s("image_generation_call")), ("result", s(""))]);
    assert!(image_item_to_data_uri(&empty).is_none());

    let webp = obj(vec![
        ("type", s("image_generation_call")),
        ("result", s("aGVsbG8=")),
        ("output_format", s("webp")),
    ]);
    assert_eq!(image_item_to_data_uri(&webp).unwrap().1, "image/webp");
}

#[test]
fn account_test_id_validation_accepts_opaque_ascii_ids_only() {
    assert_eq!(
        normalize_account_test_id(" 550e8400-e29b-41d4-a716-446655440000 ").as_deref(),
        Some("550e8400-e29b-41d4-a716-446655440000")
    );
    assert!(normalize_account_test_id("").is_none());
    assert!(normalize_account_test_id("bad/id").is_none());
    assert!(normalize_account_test_id(&"a".repeat(129)).is_none());
    assert!(normalize_account_test_id(&"a".repeat(128)).is_some());
}

#[test]
fn server_generated_account_test_ids_are_opaque_and_unique() {
    let first = generate_account_test_id().expect("random source");
    let second = generate_account_test_id().expect("random source");
    assert_eq!(first.len(), 53);
    assert!(first.starts_with("test-"));
    assert!(normalize_account_test_id(&first).is_some());
    assert_ne!(first, second);
}

#[test]
fn test_ids_render_bytes_in_lower_hex() {
    let id = format_account_test_id(&vec![0x00, 0xab, 0x7f]);
    assert_eq!(id, "test-00ab7f");
}

#[test]
fn account_test_subscriptions_are_filtered_by_exact_test_id() {
    let first_id = "subscription-filter-first";
    let second_id = "subscription-filter-second";
    let mut registry = SubscriberRegistry::new();
    let first = registry.subscribe(first_id);
    let second = registry.subscribe(second_id);

    assert_eq!(registry.recipients(first_id), vec![first]);
    assert_eq!(registry.recipients(second_id), vec![second]);
    assert!(registry.recipients("subscription-filter").is_empty());

    registry.remove(first_id, &vec![first]);
    assert!(registry.recipients(first_id).is_empty());
    assert_eq!(registry.recipients(second_id), vec![second]);
}

#[test]
fn cancel_account_test_requires_matching_test_id() {
    let account_id = "cancel-owner-account";
    let test_id = "cancel-owner-test";
    let mut registry = ActiveTestRegistry::new();
    registry
        .register(account_id, test_id)
        .expect("register active test");

    assert!(!registry.cancel(account_id, "stale-test").expect("stale cancel result"));
    assert!(!registry.is_cancel_requested(account_id, test_id));
    assert!(registry.cancel(account_id, test_id).expect("matching cancel result"));
    assert!(registry.is_cancel_requested(account_id, test_id));

    registry.remove(account_id, test_id);
    assert!(!registry.is_cancel_requested(account_id, test_id));
}

#[test]
fn one_test_per_account_and_cancel_checks_its_arguments() {
    let mut registry = ActiveTestRegistry::new();
    registry.register("acc", "t1").expect("first test");
    assert_eq!(
        registry.register("acc", "t2").unwrap_err(),
        "该账号已有进行中的测试"
    );
    assert_eq!(registry.cancel("  ", "t1").unwrap_err(), "缺少账号 ID");
    assert_eq!(registry.cancel("acc", "bad/id").unwrap_err(), "无效测试 ID");
    assert!(registry.cancel(" acc ", " t1 ").unwrap());
}

#[test]
fn http_status_decides_outcome_and_account_status() {
    assert!(matches!(classify_http_outcome(401, "x"), AccountTestOutcome::AuthError(401)));
    assert!(matches!(classify_http_outcome(403, "x"), AccountTestOutcome::AuthError(403)));
    assert!(matches!(classify_http_outcome(429, "x"), AccountTestOutcome::RateLimited));
    match classify_http_outcome(500, "boom") {
        AccountTestOutcome::Failed(m) => assert_eq!(m, "boom"),
        _ => panic!("expected failure"),
    }
    assert_eq!(
        account_status_action(&AccountTestOutcome::AuthError(401)),
        AccountStatusAction::MarkUnavailable(401)
    );
    assert_eq!(
        account_status_action(&AccountTestOutcome::Success),
        AccountStatusAction::RestoreActive
    );
    assert_eq!(
        account_status_action(&AccountTestOutcome::RateLimited),
        AccountStatusAction::MarkLimited
    );
    assert_eq!(
        account_status_action(&AccountTestOutcome::Canceled),
        AccountStatusAction::Keep
    );
}

#[test]
fn stream_error_messages_come_from_error_then_response_then_message() {
    let v = obj(vec![("error", obj(vec![("message", s("  bad thing "))]))]);
    assert_eq!(extract_stream_error_message(&v), "bad thing");
    let v = obj(vec![("error", s("plain"))]);
    assert_eq!(extract_stream_error_message(&v), "plain");
    let v = obj(vec![(
        "response",
        obj(vec![("error", obj(vec![("message", s("nested"))]))]),
    )]);
    assert_eq!(extract_stream_error_message(&v), "nested");
    let v = obj(vec![("message", s("top"))]);
    assert_eq!(extract_stream_error_message(&v), "top");
    let v = obj(vec![("error", obj(vec![("message", s("   "))]))]);
    assert_eq!(extract_stream_error_message(&v), "unknown stream error");
}

#[test]
fn sse_buffer_reads_names_and_data_lines() {
    let mut buffer = SseEventBuffer::new();
    assert!(!buffer.push_line("event: response.output_text.delta\r\n"));
    assert!(!buffer.push_line("data: {\"a\":1}\n"));
    assert!(!buffer.push_line(": comment\n"));
    assert!(!buffer.push_line("data:  second \n"));
    assert!(buffer.push_line("\r\n"));
    assert_eq!(buffer.event_name.as_deref(), Some("response.output_text.delta"));
    assert_eq!(buffer.data_lines, vec!["{\"a\":1}".to_string(), "second".to_string()]);
    assert_eq!(buffer.data_text(), "{\"a\":1}\nsecond");
    buffer.reset();
    assert!(buffer.event_name.is_none());
    assert!(buffer.data_lines.is_empty());
}

#[test]
fn text_events_stream_deltas_and_finish() {
    let delta = obj(vec![
        ("type", s("response.output_text.delta")),
        ("delta", s("Hel")),
    ]);
    let (outcome, events) =
        process_text_sse_event("t1", None, &vec!["{...}".to_string()], Some(&delta));
    assert!(outcome.is_none());
    assert_eq!(events.len(), 1);
    assert_eq!(events[0].event_type, "content");
    assert_eq!(events[0].text.as_deref(), Some("Hel"));

    let (outcome, events) =
        process_text_sse_event("t1", Some(" response.completed "), &Vec::new(), None);
    assert!(matches!(outcome, Some(AccountTestOutcome::Success)));
    assert!(events.is_empty());

    let (outcome, _) =
        process_text_sse_event("t1", Some("response.failed"), &Vec::new(), None);
    match outcome {
        Some(AccountTestOutcome::Failed(m)) => assert_eq!(m, "测试失败: response.failed"),
        _ => panic!("expected failure"),
    }

    let (outcome, _) =
        process_text_sse_event("t1", None, &vec![" [DONE] ".to_string()], None);
    assert!(matches!(outcome, Some(AccountTestOutcome::Success)));

    let failed = obj(vec![
        ("type", s("error")),
        ("error", obj(vec![("message", s("quota"))])),
    ]);
    let (outcome, _) = process_text_sse_event("t1", None, &vec!["x".to_string()], Some(&failed));
    match outcome {
        Some(AccountTestOutcome::Failed(m)) => assert_eq!(m, "quota"),
        _ => panic!("expected failure"),
    }

    let (outcome, events) = finish_text_test(
        "t1",
        AccountTestOutcome::Failed("token abcd1234 rejected".to_string()),
        &vec!["abcd1234".to_string()],
    );
    assert!(matches!(outcome, AccountTestOutcome::Failed(_)));
    assert_eq!(events[0].error.as_deref(), Some("token *** rejected"));
}

#[test]
fn image_events_are_shown_once_and_success_needs_an_image() {
    let item = obj(vec![
        ("type", s("image_generation_call")),
        ("id", s("ig_1")),
        ("result", s("aGVsbG8=")),
    ]);
    let mut seen = Vec::new();
    let first = emit_image_item("t2", &item, &mut seen);
    assert_eq!(first.expect("image event").image_url.as_deref(), Some("data:image/png;base64,aGVsbG8="));
    assert!(emit_image_item("t2", &item, &mut seen).is_none());

    let done = obj(vec![
        ("type", s("response.completed")),
        ("response", obj(vec![("output", JsonValue::Array(vec![item]))])),
    ]);
    let mut fresh = Vec::new();
    let (outcome, events) = process_image_sse_event(
        "t2",
        None,
        &vec!["{}".to_string()],
        Some(&done),
        &mut fresh,
    );
    assert!(matches!(outcome, Some(AccountTestOutcome::Success)));
    assert_eq!(events.len(), 1);
    assert_eq!(fresh, vec!["ig_1".to_string()]);

    let (outcome, events) = finish_image_test("t2", AccountTestOutcome::Success, &Vec::new(), &Vec::new());
    match outcome {
        AccountTestOutcome::Failed(m) => assert_eq!(m, "未收到图片结果"),
        _ => panic!("expected failure"),
    }
    assert_eq!(events[0].event_type, "error");
    let (outcome, events) = finish_image_test("t2", AccountTestOutcome::Success, &fresh, &Vec::new());
    assert!(matches!(outcome, AccountTestOutcome::Success));
    assert_eq!(events[0].success, Some(true));
}

#[test]
fn text_test_body_carries_model_and_prompt() {
    let body = text_test_body("gpt-x", "hi");
    match body {
        JsonValue::Object(members) => {
            assert_eq!(members.len(), 5);
            assert_eq!(members[0].key, "model");
            assert!(matches!(&members[0].value, JsonValue::Str(m) if m == "gpt-x"));
            assert!(matches!(&members[3].value, JsonValue::Bool(true)));
            assert!(matches!(&members[4].value, JsonValue::Bool(false)));
        }
        _ => panic!("expected an object"),
    }
}

#[test]
fn event_builders_set_their_fields() {
    let ev = AccountTestEvent::new("t3", "status").with_status("ok").with_model("m");
    assert_eq!(ev.test_id, "t3");
    assert_eq!(ev.event_type, "status");
    assert_eq!(ev.status.as_deref(), Some("ok"));
    assert_eq!(ev.model.as_deref(), Some("m"));
    assert!(ev.text.is_none() && ev.error.is_none() && ev.success.is_none());
}

#[test]
fn handler_slot_keeps_the_last_handler() {
    let mut slot = AccountTestEventHandlerSlot::new();
    assert!(slot.handler().is_none());
    set_account_test_event_handler(&mut slot, 1u8);
    set_account_test_event_handler(&mut slot, 2u8);
    assert_eq!(slot.handler(), Some(&2u8));
}
