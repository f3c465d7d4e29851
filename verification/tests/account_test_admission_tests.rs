use codexmanager::account_test::{
    account_secrets, AccountTestStreamRun, AccountTokens, StreamInput, TestKind,
    admit_account_test, notify_steps, ActiveTestRegistry, DeliveryOutcome, NotifyStep,
    SubscriberRegistry,
};

#[test]
fn handler_is_called_once_before_the_subscribers() {
    assert_eq!(
        notify_steps(true, &vec![3, 5]),
        vec![NotifyStep::CallHandler, NotifyStep::Deliver(3), NotifyStep::Deliver(5)]
    );
    assert_eq!(notify_steps(false, &vec![3]), vec![NotifyStep::Deliver(3)]);
    assert_eq!(notify_steps(true, &Vec::new()), vec![NotifyStep::CallHandler]);
}

#[test]
fn full_subscribers_stay_and_gone_ones_are_dropped() {
    let mut registry = SubscriberRegistry::new();
    let a = registry.subscribe("t1");
    let b = registry.subscribe("t1");
    let c = registry.subscribe("t1");
    let d = registry.subscribe("t1");
    let other = registry.subscribe("t2");
    let recipients = registry.recipients("t1");
    assert_eq!(recipients, vec![a, b, c, d]);
    let gone = registry.drop_unreachable(
        "t1",
        &vec![
            DeliveryOutcome::Delivered,
            DeliveryOutcome::Full,
            DeliveryOutcome::Disconnected,
            DeliveryOutcome::NoChannel,
        ],
    );
    assert_eq!(gone, vec![c, d]);
    assert_eq!(registry.recipients("t1"), vec![a, b]);
    assert_eq!(registry.recipients("t2"), vec![other]);
}

#[test]
fn admission_checks_in_order_and_registers_only_on_success() {
    let mut registry = ActiveTestRegistry::new();
    assert_eq!(
        admit_account_test(&mut registry, "  ", Err("storage unavailable".to_string()), Some("bad/id")),
        Err("缺少账号 ID".to_string())
    );
    assert_eq!(
        admit_account_test(&mut registry, " acc ", Err("账号不存在".to_string()), Some("bad/id")),
        Err("账号不存在".to_string())
    );
    assert_eq!(
        admit_account_test(&mut registry, " acc ", Ok(()), Some("bad/id")),
        Err("无效测试 ID".to_string())
    );
    assert_eq!(
        admit_account_test(&mut registry, " acc ", Ok(()), Some(" test-1 ")),
        Ok(Some(("acc".to_string(), "test-1".to_string())))
    );
    assert_eq!(
        admit_account_test(&mut registry, "acc", Ok(()), Some("test-2")),
        Err("该账号已有进行中的测试".to_string())
    );
    assert_eq!(registry.cancel("acc", "test-1"), Ok(true));
    match admit_account_test(&mut registry, "other", Ok(()), None) {
        Ok(Some((account, test_id))) => {
            assert_eq!(account, "other");
            assert_eq!(test_id.len(), 53);
            assert!(test_id.starts_with("test-"));
        }
        other => panic!("unexpected admission: {:?}", other),
    }
}

#[test]
fn a_run_masks_the_account_tokens() {
    let tokens = AccountTokens {
        access_token: "access-secret".to_string(),
        refresh_token: "refresh-secret".to_string(),
        id_token: "id-token-secret".to_string(),
    };
    assert_eq!(
        account_secrets(&tokens),
        vec!["access-secret".to_string(), "refresh-secret".to_string(), "id-token-secret".to_string()]
    );
    let mut run = AccountTestStreamRun::for_account(TestKind::Text, "t1", &tokens);
    let (_, events) = run.on_input(StreamInput::ReadFailed("bad access-secret here".to_string()));
    assert_eq!(events.len(), 1);
    let error = events[0].error.clone().expect("error event");
    assert!(!error.contains("access-secret"));
}
