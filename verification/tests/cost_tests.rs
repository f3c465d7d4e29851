use codexmanager::cost::estimate_cost_nano_usd;

fn estimate_cost_usd(
    model: Option<&str>,
    input_tokens: Option<i64>,
    cached_input_tokens: Option<i64>,
    output_tokens: Option<i64>,
) -> f64 {
    estimate_cost_nano_usd(model, input_tokens, cached_input_tokens, output_tokens) as f64 / 1e9
}

fn assert_close(actual: f64, expected: f64) {
    assert!(
        (actual - expected).abs() < 1e-12,
        "actual={actual}, expected={expected}"
    );
}

#[test]
fn estimate_cost_matches_openai_gpt5_family_prices() {
    let expected = 0.006025_f64;
    let models = [
        "gpt-5",
        "gpt-5-codex",
        "gpt-5.1",
        "gpt-5.1-codex",
        "gpt-5.1-codex-max",
    ];
    for model in models {
        let actual = estimate_cost_usd(Some(model), Some(1000), Some(200), Some(500));
        assert_close(actual, expected);
    }
}

#[test]
fn estimate_cost_matches_openai_gpt54_and_mini_prices() {
    let actual = estimate_cost_usd(Some("gpt-5.4-mini"), Some(1000), Some(200), Some(500));
    assert_close(actual, 0.002865);

    let actual = estimate_cost_usd(Some("gpt-5.4-nano"), Some(1000), Some(200), Some(500));
    assert_close(actual, 0.000789);

    let actual = estimate_cost_usd(Some("gpt-5.4"), Some(1000), Some(200), Some(500));
    assert_close(actual, 0.00955);
}

#[test]
fn estimate_cost_matches_openai_gpt55_prices() {
    let actual = estimate_cost_usd(Some("gpt-5.5"), Some(1000), Some(200), Some(500));
    assert_close(actual, 0.0191);

    let actual = estimate_cost_usd(Some("gpt-5.5-pro"), Some(1000), Some(200), Some(500));
    assert_close(actual, 0.12);
}

#[test]
fn estimate_cost_matches_openai_gpt54_large_context_prices() {
    let actual = estimate_cost_usd(Some("gpt-5.4"), Some(300_000), Some(50_000), Some(100_000));
    assert_close(actual, 3.525);
}

#[test]
fn estimate_cost_matches_openai_gpt55_large_context_prices() {
    let actual = estimate_cost_usd(Some("gpt-5.5"), Some(300_000), Some(50_000), Some(100_000));
    assert_close(actual, 7.05);

    let actual = estimate_cost_usd(
        Some("gpt-5.5-pro"),
        Some(300_000),
        Some(50_000),
        Some(100_000),
    );
    assert_close(actual, 45.0);
}

#[test]
fn estimate_cost_matches_openai_gpt54_pro_prices() {
    let actual = estimate_cost_usd(Some("gpt-5.4-pro"), Some(1000), Some(200), Some(500));
    assert_close(actual, 0.12);
}

#[test]
fn estimate_cost_matches_openai_gpt54_pro_large_context_prices() {
    let actual = estimate_cost_usd(
        Some("gpt-5.4-pro"),
        Some(300_000),
        Some(50_000),
        Some(100_000),
    );
    assert_close(actual, 45.0);
}

#[test]
fn estimate_cost_matches_openai_gpt5_mini_and_52_prices() {
    let mini_models = ["gpt-5.1-codex-mini", "gpt-5-codex-mini", "gpt-5-mini"];
    for model in mini_models {
        let mini_cost = estimate_cost_usd(Some(model), Some(1000), Some(200), Some(500));
        assert_close(mini_cost, 0.001205);
    }

    let v52_models = ["gpt-5.2", "gpt-5.2-codex", "gpt-5.2-chat-latest"];
    for model in v52_models {
        let actual = estimate_cost_usd(Some(model), Some(1000), Some(200), Some(500));
        assert_close(actual, 0.008435);
    }
}

#[test]
fn estimate_cost_uses_cached_input_rate_for_gpt_5_1_codex() {
    let actual = estimate_cost_usd(
        Some("gpt-5.1-codex"),
        Some(1_000_000),
        Some(200_000),
        Some(500_000),
    );
    assert_close(actual, 6.025);
}

#[test]
fn estimate_cost_matches_current_codex_price_for_gpt_5_3_codex() {
    let actual = estimate_cost_usd(
        Some("gpt-5.3-codex"),
        Some(1_000_000),
        Some(0),
        Some(1_000_000),
    );
    assert_close(actual, 15.75);
}

#[test]
fn estimate_cost_matches_openai_image_generation_prices() {
    let cases = [
        ("gpt-image-2", 0.0218_f64),
        ("gpt-image-1.5", 0.0228_f64),
        ("gpt-image-1-mini", 0.00605_f64),
    ];
    for (model, expected) in cases {
        let actual = estimate_cost_usd(Some(model), Some(1000), Some(200), Some(500));
        assert_close(actual, expected);
    }
}

#[test]
fn estimate_cost_matches_openai_gpt4o_and_o3_prices() {
    let gpt41_models = ["gpt-4.1", "gpt-4.1-mini", "gpt-4.1-nano"];
    let gpt41_expected = [0.0057_f64, 0.00114_f64, 0.000285_f64];
    for (model, expected) in gpt41_models.into_iter().zip(gpt41_expected) {
        let actual = estimate_cost_usd(Some(model), Some(1000), Some(200), Some(500));
        assert_close(actual, expected);
    }

    let gpt4o_models = ["gpt-4o", "gpt-4o-mini", "gpt-4o-2024-05-13"];
    let gpt4o_expected = [0.00725_f64, 0.000435_f64, 0.0125_f64];
    for (model, expected) in gpt4o_models.into_iter().zip(gpt4o_expected) {
        let actual = estimate_cost_usd(Some(model), Some(1000), Some(200), Some(500));
        assert_close(actual, expected);
    }

    let reasoning_models = [
        "o1",
        "o1-mini",
        "o1-pro",
        "o3",
        "o3-mini",
        "o3-deep-research",
        "o3-pro",
        "o4-mini",
        "o4-mini-deep-research",
    ];
    let reasoning_expected = [
        0.0435_f64,
        0.00319_f64,
        0.45_f64,
        0.0057_f64,
        0.00319_f64,
        0.0285_f64,
        0.06_f64,
        0.003135_f64,
        0.0057_f64,
    ];
    for (model, expected) in reasoning_models.into_iter().zip(reasoning_expected) {
        let actual = estimate_cost_usd(Some(model), Some(1000), Some(200), Some(500));
        assert_close(actual, expected);
    }
}

#[test]
fn estimate_cost_switches_to_long_context_rates_at_270k_boundary() {
    let gpt55_actual =
        estimate_cost_usd(Some("gpt-5.5"), Some(270_000), Some(20_000), Some(10_000));
    assert_close(gpt55_actual, 2.97);

    let gpt55_pro_actual = estimate_cost_usd(
        Some("gpt-5.5-pro"),
        Some(270_000),
        Some(20_000),
        Some(10_000),
    );
    assert_close(gpt55_pro_actual, 18.9);

    let gpt54_actual =
        estimate_cost_usd(Some("gpt-5.4"), Some(270_000), Some(20_000), Some(10_000));
    assert_close(gpt54_actual, 1.485);

    let gpt54_pro_actual = estimate_cost_usd(
        Some("gpt-5.4-pro"),
        Some(270_000),
        Some(20_000),
        Some(10_000),
    );
    assert_close(gpt54_pro_actual, 18.9);
}

#[test]
fn estimate_cost_is_zero_for_unknown_models_and_missing_tokens() {
    assert_eq!(estimate_cost_nano_usd(Some("unknown-model"), Some(1000), Some(0), Some(500)), 0);
    assert_eq!(estimate_cost_nano_usd(None, Some(1000), Some(0), Some(500)), 0);
    assert_eq!(estimate_cost_nano_usd(Some("gpt-5"), None, None, None), 0);
}

#[test]
fn estimate_cost_caps_cached_tokens_at_input_and_ignores_negatives() {
    // all input cached at the cached rate: 1000 * 0.125 / 1e6 USD
    assert_eq!(
        estimate_cost_nano_usd(Some("gpt-5"), Some(1000), Some(5000), Some(0)),
        estimate_cost_nano_usd(Some("gpt-5"), Some(1000), Some(1000), Some(0))
    );
    assert_eq!(
        estimate_cost_nano_usd(Some(" GPT-5 "), Some(-10), Some(-1), Some(-5)),
        0
    );
}
