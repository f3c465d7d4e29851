use codexmanager::json::{JsonMember, JsonValue};
use codexmanager::ws_rebase::{
    completed_response_parts, expand_response_create_previous_response,
    normalize_ws_response_input, normalize_ws_tool_call_item, rebase_input_items,
    rebase_response_create_for_account_change, rebase_response_create_for_missing_tool_call,
    remove_ws_account_affinity_fields, strip_cross_account_encrypted_content, ws_tool_output_key,
    CompletedWsResponseCache, CompletedWsToolCallCache, WsToolCallKey, WsToolCallKind,
    MAX_CACHED_WS_RESPONSES, MAX_CACHED_WS_TOOL_CALLS,
};

fn s(v: &str) -> JsonValue {
    JsonValue::Str(v.to_string())
}

fn obj(members: Vec<(&str, JsonValue)>) -> JsonValue {
    JsonValue::Object(
        members
            .into_iter()
            .map(|(k, v)| JsonMember { key: k.to_string(), value: v })
            .collect(),
    )
}

fn get<'a>(v: &'a JsonValue, key: &str) -> Option<&'a JsonValue> {
    match v {
        JsonValue::Object(m) => m.iter().find(|x| x.key == key).map(|x| &x.value),
        _ => None,
    }
}

fn get_str<'a>(v: &'a JsonValue, key: &str) -> Option<&'a str> {
    match get(v, key) {
        Some(JsonValue::Str(t)) => Some(t.as_str()),
        _ => None,
    }
}

fn items(v: &JsonValue) -> &Vec<JsonValue> {
    match get(v, "input") {
        Some(JsonValue::Array(a)) => a,
        _ => panic!("input array expected"),
    }
}

fn tool_call(call_id: &str) -> JsonValue {
    obj(vec![
        ("type", s("custom_tool_call")),
        ("call_id", s(call_id)),
        ("name", s("apply_patch")),
    ])
}

fn tool_output(call_id: &str) -> JsonValue {
    obj(vec![
        ("type", s("custom_tool_call_output")),
        ("call_id", s(call_id)),
        ("output", s("patch applied")),
    ])
}

fn store_seed(cache: &mut CompletedWsResponseCache) {
    let event = obj(vec![
        ("type", s("response.completed")),
        (
            "response",
            obj(vec![
                ("id", s("resp_ws_tool_seed")),
                ("output", JsonValue::Array(vec![tool_call("call_ws_tool_rebase")])),
            ]),
        ),
    ]);
    let (id, output) = completed_response_parts(&event)
        .expect("parts")
        .expect("completed event");
    let input = normalize_ws_response_input(&s("make a patch"));
    cache
        .store(id, None, input, output, 100, 100)
        .expect("store seed");
}

#[test]
fn history_recovery_expands_previous_response() {
    let mut cache = CompletedWsResponseCache::new();
    store_seed(&mut cache);
    assert!(cache.contains("resp_ws_tool_seed"));

    let request = obj(vec![
        ("type", s("response.create")),
        ("model", s("gpt-4.1")),
        ("previous_response_id", s(" resp_ws_tool_seed ")),
        ("input", JsonValue::Array(vec![tool_output("call_ws_tool_rebase")])),
    ]);
    let expanded = expand_response_create_previous_response(&request, &cache)
        .expect("expand")
        .expect("history applies");
    assert!(get(&expanded, "previous_response_id").is_none());
    let input = items(&expanded);
    assert_eq!(input.len(), 3);
    assert_eq!(get_str(&input[0], "type"), Some("message"));
    assert_eq!(get_str(&input[0], "role"), Some("user"));
    assert_eq!(get_str(&input[1], "type"), Some("custom_tool_call"));
    assert_eq!(get_str(&input[2], "type"), Some("custom_tool_call_output"));

    let no_previous = obj(vec![("type", s("response.create")), ("input", s("x"))]);
    assert!(expand_response_create_previous_response(&no_previous, &cache)
        .expect("no error")
        .is_none());

    let missing = obj(vec![
        ("type", s("response.create")),
        ("previous_response_id", s("resp_unknown")),
    ]);
    assert_eq!(
        expand_response_create_previous_response(&missing, &cache).unwrap_err(),
        "previous_response_id resp_unknown is not available in this websocket session recovery cache"
    );
    assert_eq!(
        expand_response_create_previous_response(&s("x"), &cache).unwrap_err(),
        "response.create for history recovery must be a JSON object"
    );
    assert_eq!(
        expand_response_create_previous_response(&obj(vec![("type", s("other"))]), &cache)
            .unwrap_err(),
        "history recovery only supports type=response.create"
    );
}

#[test]
fn history_chain_cycles_are_reported() {
    let mut cache = CompletedWsResponseCache::new();
    cache
        .store("a".to_string(), Some("b"), Vec::new(), Vec::new(), 1, 1)
        .unwrap();
    cache
        .store("b".to_string(), Some("a"), Vec::new(), Vec::new(), 1, 1)
        .unwrap();
    assert_eq!(
        cache.collect_history_items("a").unwrap_err(),
        "cached websocket response history contains a cycle at a"
    );
}

#[test]
fn oversized_responses_are_refused_and_old_ones_evicted() {
    let mut cache = CompletedWsResponseCache::new();
    let err = cache
        .store("big".to_string(), None, Vec::new(), Vec::new(), 67_108_864, 0)
        .unwrap_err();
    assert_eq!(
        err,
        "completed websocket response big requires 67108867 bytes, exceeding the 67108864 byte recovery cache limit"
    );
    for i in 0..(MAX_CACHED_WS_RESPONSES + 1) {
        cache
            .store(format!("r{i}"), None, Vec::new(), Vec::new(), 1, 1)
            .unwrap();
    }
    assert!(!cache.contains("r0"));
    assert!(cache.contains("r1"));
    assert!(cache.contains(&format!("r{MAX_CACHED_WS_RESPONSES}")));
}

#[test]
fn account_rebase_inserts_missing_calls_and_strips_affinity() {
    let mut tool_calls = CompletedWsToolCallCache::new();
    tool_calls.observe_upstream_event(&obj(vec![
        ("type", s(" Response.Output_Item.Done ")),
        (
            "item",
            obj(vec![("type", s("custom_tool_call")), ("id", s("call_1"))]),
        ),
    ]));
    let request = obj(vec![
        ("type", s("response.create")),
        ("previous_response_id", s("resp_1")),
        ("session_id", s("sess")),
        ("X-Codex-Turn-State", s("turn")),
        (
            "client_metadata",
            obj(vec![
                ("x-codex-window-id", s("w")),
                ("x-openai-subagent", s("review")),
            ]),
        ),
        (
            "input",
            JsonValue::Array(vec![
                obj(vec![
                    ("type", s("reasoning")),
                    ("encrypted_content", s("secret")),
                ]),
                tool_output("call_1"),
            ]),
        ),
    ]);
    let rebased =
        rebase_response_create_for_account_change(&request, &tool_calls).expect("rebase");
    assert!(get(&rebased, "previous_response_id").is_none());
    assert!(get(&rebased, "session_id").is_none());
    assert!(get(&rebased, "X-Codex-Turn-State").is_none());
    let metadata = get(&rebased, "client_metadata").expect("metadata kept");
    assert!(get(metadata, "x-codex-window-id").is_none());
    assert_eq!(get_str(metadata, "x-openai-subagent"), Some("review"));
    let input = items(&rebased);
    assert_eq!(input.len(), 2);
    assert_eq!(get_str(&input[0], "type"), Some("custom_tool_call"));
    assert_eq!(get_str(&input[0], "call_id"), Some("call_1"));
    assert_eq!(get_str(&input[1], "type"), Some("custom_tool_call_output"));
}

#[test]
fn account_rebase_requires_a_known_call() {
    let tool_calls = CompletedWsToolCallCache::new();
    let request = obj(vec![
        ("type", s("response.create")),
        ("input", JsonValue::Array(vec![tool_output("call_9")])),
    ]);
    assert_eq!(
        rebase_response_create_for_account_change(&request, &tool_calls).unwrap_err(),
        "cannot rebase custom_tool_call_output with call_id 'call_9': matching custom_tool_call was not observed in the current input or completed upstream output"
    );
    let blank = obj(vec![
        ("type", s("response.create")),
        (
            "input",
            JsonValue::Array(vec![obj(vec![("type", s("function_call_output"))])]),
        ),
    ]);
    assert_eq!(
        rebase_response_create_for_account_change(&blank, &tool_calls).unwrap_err(),
        "function_call_output is missing a non-empty call_id"
    );
}

#[test]
fn duplicate_calls_are_dropped_and_empty_metadata_goes() {
    let tool_calls = CompletedWsToolCallCache::new();
    let request = obj(vec![
        ("type", s("response.create")),
        ("client_metadata", obj(vec![("turn_state", s("t"))])),
        (
            "input",
            JsonValue::Array(vec![tool_call("c1"), tool_call("c1"), tool_output("c1")]),
        ),
    ]);
    let (out, changed) = rebase_input_items(
        match get(&request, "input") {
            Some(JsonValue::Array(a)) => a,
            _ => unreachable!(),
        },
        &tool_calls,
    )
    .expect("rewrite");
    assert!(changed);
    assert_eq!(out.len(), 2);
    let rebased =
        rebase_response_create_for_account_change(&request, &tool_calls).expect("rebase");
    assert!(get(&rebased, "client_metadata").is_none());
    assert_eq!(items(&rebased).len(), 2);
}

#[test]
fn missing_tool_call_recovery_only_when_it_helps() {
    let mut tool_calls = CompletedWsToolCallCache::new();
    tool_calls.insert(&tool_call("call_x"));
    let request = obj(vec![
        ("type", s("response.create")),
        ("input", JsonValue::Array(vec![tool_output("call_x")])),
    ]);
    let recovered = rebase_response_create_for_missing_tool_call(
        &request,
        &tool_calls,
        WsToolCallKind::Custom,
        "call_x",
    )
    .expect("recover")
    .expect("changed");
    assert_eq!(items(&recovered).len(), 2);

    assert!(rebase_response_create_for_missing_tool_call(
        &request,
        &tool_calls,
        WsToolCallKind::Function,
        "call_x",
    )
    .expect("no error")
    .is_none());

    let already = obj(vec![
        ("type", s("response.create")),
        ("input", JsonValue::Array(vec![tool_call("call_x"), tool_output("call_x")])),
    ]);
    assert!(rebase_response_create_for_missing_tool_call(
        &already,
        &tool_calls,
        WsToolCallKind::Custom,
        "call_x",
    )
    .expect("no error")
    .is_none());
}

#[test]
fn tool_call_items_are_normalized_by_key() {
    let item = obj(vec![("type", s(" FUNCTION_CALL ")), ("id", s(" fc_1 "))]);
    let (key, normalized) = normalize_ws_tool_call_item(&item).expect("a call");
    assert_eq!(key.kind, WsToolCallKind::Function);
    assert_eq!(key.call_id, "fc_1");
    assert_eq!(get_str(&normalized, "call_id"), Some("fc_1"));
    assert!(normalize_ws_tool_call_item(&obj(vec![("type", s("message"))])).is_none());
    let key = ws_tool_output_key(&tool_output(" c2 ")).unwrap().unwrap();
    assert_eq!(key.call_id, "c2");
    assert!(ws_tool_output_key(&s("text")).unwrap().is_none());
}

#[test]
fn tool_call_cache_is_bounded() {
    let mut cache = CompletedWsToolCallCache::new();
    for i in 0..(MAX_CACHED_WS_TOOL_CALLS + 1) {
        cache.insert(&tool_call(&format!("c{i}")));
    }
    let first = WsToolCallKey { kind: WsToolCallKind::Custom, call_id: "c0".to_string() };
    let last = WsToolCallKey {
        kind: WsToolCallKind::Custom,
        call_id: format!("c{MAX_CACHED_WS_TOOL_CALLS}"),
    };
    assert!(cache.get(&first).is_none());
    assert!(cache.get(&last).is_some());
}

#[test]
fn affinity_fields_are_removed_ignoring_case() {
    let mut members = vec![
        JsonMember { key: "Session-Id".to_string(), value: s("x") },
        JsonMember { key: "model".to_string(), value: s("m") },
        JsonMember { key: "x-codex-parent-thread-id".to_string(), value: s("p") },
    ];
    remove_ws_account_affinity_fields(&mut members);
    assert_eq!(members.len(), 1);
    assert_eq!(members[0].key, "model");
}

#[test]
fn encrypted_items_are_stripped() {
    let mut value = obj(vec![(
        "input",
        JsonValue::Array(vec![
            obj(vec![("type", s("reasoning")), ("encrypted_content", s("e"))]),
            obj(vec![("type", s("message"))]),
        ]),
    )]);
    strip_cross_account_encrypted_content(&mut value);
    assert_eq!(items(&value).len(), 1);
}
