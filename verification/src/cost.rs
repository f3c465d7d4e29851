//! Estimated request cost from token usage and the published per-model prices.
use vstd::prelude::*;
use crate::text::{ascii_lowercase, str_eq, trim_str};

verus! {

/// Prices of a model in thousandths of a US dollar per million tokens; `cached`
/// is `None` where the model has no cached-input discount (cached tokens are
/// billed at the input price).
#[derive(Clone, Copy, Debug, PartialEq, Eq, Structural)]
pub struct TokenPrices {
    pub input: u64,
    pub cached: Option<u64>,
    pub output: u64,
}

/// The prices of a model: standard, and the long-context prices that apply
/// from `LONG_CONTEXT_INPUT_TOKENS` input tokens on, where the model has them.
#[derive(Clone, Copy, Debug, PartialEq, Eq, Structural)]
pub struct ModelPricing {
    pub standard: TokenPrices,
    pub long_context: Option<TokenPrices>,
}

/// Input tokens from which long-context prices apply.
pub const LONG_CONTEXT_INPUT_TOKENS: u64 = 270_000;

pub open spec fn tp(input: u64, cached: Option<u64>, output: u64) -> TokenPrices {
    TokenPrices { input, cached, output }
}

pub open spec fn flat(p: TokenPrices) -> Option<ModelPricing> {
    Some(ModelPricing { standard: p, long_context: None })
}

/// The price table, keyed by the lower-cased model name.
pub open spec fn spec_model_pricing(m: Seq<char>) -> Option<ModelPricing> {
    if m == "gpt-5"@ || m == "gpt-5-codex"@ || m == "gpt-5.1"@ || m == "gpt-5.1-codex"@ || m
        == "gpt-5.1-codex-max"@ {
        flat(tp(1250, Some(125), 10000))
    } else if m == "gpt-5-mini"@ || m == "gpt-5-codex-mini"@ || m == "gpt-5.1-codex-mini"@ {
        flat(tp(250, Some(25), 2000))
    } else if m == "gpt-5.2"@ || m == "gpt-5.2-codex"@ || m == "gpt-5.2-chat-latest"@ || m
        == "gpt-5.3-codex"@ {
        flat(tp(1750, Some(175), 14000))
    } else if m == "gpt-5.4"@ {
        Some(
            ModelPricing {
                standard: tp(2500, Some(250), 15000),
                long_context: Some(tp(5000, Some(500), 22500)),
            },
        )
    } else if m == "gpt-5.4-mini"@ {
        flat(tp(750, Some(75), 4500))
    } else if m == "gpt-5.4-nano"@ {
        flat(tp(200, Some(20), 1250))
    } else if m == "gpt-5.4-pro"@ || m == "gpt-5.5-pro"@ {
        Some(
            ModelPricing {
                standard: tp(30000, None, 180000),
                long_context: Some(tp(60000, None, 270000)),
            },
        )
    } else if m == "gpt-5.5"@ {
        Some(
            ModelPricing {
                standard: tp(5000, Some(500), 30000),
                long_context: Some(tp(10000, Some(1000), 45000)),
            },
        )
    } else if m == "gpt-image-2"@ {
        flat(tp(8000, Some(2000), 30000))
    } else if m == "gpt-image-1.5"@ {
        flat(tp(8000, Some(2000), 32000))
    } else if m == "gpt-image-1-mini"@ {
        flat(tp(2500, Some(250), 8000))
    } else if m == "gpt-4.1"@ || m == "o3"@ || m == "o4-mini-deep-research"@ {
        flat(tp(2000, Some(500), 8000))
    } else if m == "gpt-4.1-mini"@ {
        flat(tp(400, Some(100), 1600))
    } else if m == "gpt-4.1-nano"@ {
        flat(tp(100, Some(25), 400))
    } else if m == "gpt-4o"@ {
        flat(tp(2500, Some(1250), 10000))
    } else if m == "gpt-4o-mini"@ {
        flat(tp(150, Some(75), 600))
    } else if m == "gpt-4o-2024-05-13"@ {
        flat(tp(5000, None, 15000))
    } else if m == "o1"@ {
        flat(tp(15000, Some(7500), 60000))
    } else if m == "o1-mini"@ || m == "o3-mini"@ {
        flat(tp(1100, Some(550), 4400))
    } else if m == "o1-pro"@ {
        flat(tp(150000, None, 600000))
    } else if m == "o3-deep-research"@ {
        flat(tp(10000, Some(2500), 40000))
    } else if m == "o3-pro"@ {
        flat(tp(20000, None, 80000))
    } else if m == "o4-mini"@ {
        flat(tp(1100, Some(275), 4400))
    } else {
        None
    }
}

fn pricing_entry(m: &str) -> (r: Option<ModelPricing>)
    ensures
        r == spec_model_pricing(m@),
{
    let f = |p: TokenPrices| -> (r: Option<ModelPricing>)
        ensures
            r == flat(p),
        { Some(ModelPricing { standard: p, long_context: None }) };
    if str_eq(m, "gpt-5") || str_eq(m, "gpt-5-codex") || str_eq(m, "gpt-5.1") || str_eq(m, "gpt-5.1-codex") || str_eq(m, "gpt-5.1-codex-max") {
        f(TokenPrices { input: 1250, cached: Some(125), output: 10000 })
    } else if str_eq(m, "gpt-5-mini") || str_eq(m, "gpt-5-codex-mini") || str_eq(m, "gpt-5.1-codex-mini") {
        f(TokenPrices { input: 250, cached: Some(25), output: 2000 })
    } else if str_eq(m, "gpt-5.2") || str_eq(m, "gpt-5.2-codex") || str_eq(m, "gpt-5.2-chat-latest") || str_eq(m, "gpt-5.3-codex") {
        f(TokenPrices { input: 1750, cached: Some(175), output: 14000 })
    } else if str_eq(m, "gpt-5.4") {
        Some(ModelPricing {
            standard: TokenPrices { input: 2500, cached: Some(250), output: 15000 },
            long_context: Some(TokenPrices { input: 5000, cached: Some(500), output: 22500 }),
        })
    } else if str_eq(m, "gpt-5.4-mini") {
        f(TokenPrices { input: 750, cached: Some(75), output: 4500 })
    } else if str_eq(m, "gpt-5.4-nano") {
        f(TokenPrices { input: 200, cached: Some(20), output: 1250 })
    } else if str_eq(m, "gpt-5.4-pro") || str_eq(m, "gpt-5.5-pro") {
        Some(ModelPricing {
            standard: TokenPrices { input: 30000, cached: None, output: 180000 },
            long_context: Some(TokenPrices { input: 60000, cached: None, output: 270000 }),
        })
    } else if str_eq(m, "gpt-5.5") {
        Some(ModelPricing {
            standard: TokenPrices { input: 5000, cached: Some(500), output: 30000 },
            long_context: Some(TokenPrices { input: 10000, cached: Some(1000), output: 45000 }),
        })
    } else if str_eq(m, "gpt-image-2") {
        f(TokenPrices { input: 8000, cached: Some(2000), output: 30000 })
    } else if str_eq(m, "gpt-image-1.5") {
        f(TokenPrices { input: 8000, cached: Some(2000), output: 32000 })
    } else if str_eq(m, "gpt-image-1-mini") {
        f(TokenPrices { input: 2500, cached: Some(250), output: 8000 })
    } else if str_eq(m, "gpt-4.1") || str_eq(m, "o3") || str_eq(m, "o4-mini-deep-research") {
        f(TokenPrices { input: 2000, cached: Some(500), output: 8000 })
    } else if str_eq(m, "gpt-4.1-mini") {
        f(TokenPrices { input: 400, cached: Some(100), output: 1600 })
    } else if str_eq(m, "gpt-4.1-nano") {
        f(TokenPrices { input: 100, cached: Some(25), output: 400 })
    } else if str_eq(m, "gpt-4o") {
        f(TokenPrices { input: 2500, cached: Some(1250), output: 10000 })
    } else if str_eq(m, "gpt-4o-mini") {
        f(TokenPrices { input: 150, cached: Some(75), output: 600 })
    } else if str_eq(m, "gpt-4o-2024-05-13") {
        f(TokenPrices { input: 5000, cached: None, output: 15000 })
    } else if str_eq(m, "o1") {
        f(TokenPrices { input: 15000, cached: Some(7500), output: 60000 })
    } else if str_eq(m, "o1-mini") || str_eq(m, "o3-mini") {
        f(TokenPrices { input: 1100, cached: Some(550), output: 4400 })
    } else if str_eq(m, "o1-pro") {
        f(TokenPrices { input: 150000, cached: None, output: 600000 })
    } else if str_eq(m, "o3-deep-research") {
        f(TokenPrices { input: 10000, cached: Some(2500), output: 40000 })
    } else if str_eq(m, "o3-pro") {
        f(TokenPrices { input: 20000, cached: None, output: 80000 })
    } else if str_eq(m, "o4-mini") {
        f(TokenPrices { input: 1100, cached: Some(275), output: 4400 })
    } else {
        None
    }
}

/// The pricing of a model name (trimmed, case-insensitive).
pub fn model_pricing(model: &str) -> (r: Option<ModelPricing>)
    ensures
        r == spec_model_pricing(crate::text::lower(crate::text::trim(model@))),
{
    let t = trim_str(model);
    let l = ascii_lowercase(t.as_str());
    pricing_entry(l.as_str())
}

pub open spec fn tokens_of(v: Option<i64>) -> nat {
    match v {
        Some(n) => if n > 0 {
            n as nat
        } else {
            0
        },
        None => 0,
    }
}

/// Cost in billionths of a US dollar of `input` tokens (of which `cached` were
/// cached, at most all of them) and `output` tokens at the given prices.
pub open spec fn spec_cost_nano_usd(p: TokenPrices, input: nat, cached: nat, output: nat) -> nat {
    let c = if cached <= input {
        cached
    } else {
        input
    };
    let cached_price = match p.cached {
        Some(x) => x as nat,
        None => p.input as nat,
    };
    ((input - c) as nat) * (p.input as nat) + c * cached_price + output * (p.output as nat)
}

/// The estimated cost of a request in billionths of a US dollar: non-cached
/// input, cached input and output tokens at the model's prices (long-context
/// prices once the input reaches 270K tokens); 0 for a missing or unknown
/// model. Missing or negative token counts count as 0.
pub open spec fn spec_estimate_cost_nano_usd(
    model: Option<Seq<char>>,
    input: Option<i64>,
    cached: Option<i64>,
    output: Option<i64>,
) -> nat {
    match model {
        None => 0,
        Some(m) => match spec_model_pricing(crate::text::lower(crate::text::trim(m))) {
            None => 0,
            Some(p) => {
                let i = tokens_of(input);
                let prices = match p.long_context {
                    Some(l) => if i >= LONG_CONTEXT_INPUT_TOKENS {
                        l
                    } else {
                        p.standard
                    },
                    None => p.standard,
                };
                spec_cost_nano_usd(prices, i, tokens_of(cached), tokens_of(output))
            },
        },
    }
}

pub open spec fn prices_bounded(p: TokenPrices) -> bool {
    p.input <= 1_000_000 && p.output <= 1_000_000 && match p.cached {
        Some(c) => c <= 1_000_000,
        None => true,
    }
}

proof fn lemma_prices_bounded(m: Seq<char>)
    ensures
        spec_model_pricing(m) matches Some(p) ==> prices_bounded(p.standard) && match p.long_context {
            Some(l) => prices_bounded(l),
            None => true,
        },
{
}

proof fn lemma_product_bound(x: nat, y: nat)
    requires
        x <= 0x8000_0000_0000_0000,
        y <= 1_000_000,
    ensures
        x * y <= 0x8000_0000_0000_0000 * 1_000_000,
{
    assert(x * y <= 0x8000_0000_0000_0000 * 1_000_000) by (nonlinear_arith)
        requires
            x <= 0x8000_0000_0000_0000,
            y <= 1_000_000,
    ;
}

fn nonneg(v: Option<i64>) -> (r: u64)
    ensures
        r as nat == tokens_of(v),
        r <= 0x8000_0000_0000_0000,
{
    match v {
        Some(n) => if n > 0 {
            n as u64
        } else {
            0
        },
        None => 0,
    }
}

/// Cost estimate of a request, in billionths of a US dollar.
pub fn estimate_cost_nano_usd(
    model: Option<&str>,
    input_tokens: Option<i64>,
    cached_input_tokens: Option<i64>,
    output_tokens: Option<i64>,
) -> (r: u128)
    ensures
        r as nat == spec_estimate_cost_nano_usd(
            match model {
                Some(m) => Some(m@),
                None => None,
            },
            input_tokens,
            cached_input_tokens,
            output_tokens,
        ),
{
    let m = match model {
        Some(m) => m,
        None => return 0,
    };
    let p = match model_pricing(m) {
        Some(p) => p,
        None => return 0,
    };
    let input = nonneg(input_tokens);
    let cached_raw = nonneg(cached_input_tokens);
    let output = nonneg(output_tokens);
    let prices = match p.long_context {
        Some(l) => if input >= LONG_CONTEXT_INPUT_TOKENS {
            l
        } else {
            p.standard
        },
        None => p.standard,
    };
    let cached = if cached_raw <= input {
        cached_raw
    } else {
        input
    };
    let cached_price: u64 = match prices.cached {
        Some(x) => x,
        None => prices.input,
    };
    proof {
        lemma_prices_bounded(crate::text::lower(crate::text::trim(m@)));
        lemma_product_bound((input - cached) as nat, prices.input as nat);
        lemma_product_bound(cached as nat, cached_price as nat);
        lemma_product_bound(output as nat, prices.output as nat);
    }
    let a = ((input - cached) as u128) * (prices.input as u128);
    let b = (cached as u128) * (cached_price as u128);
    let c = (output as u128) * (prices.output as u128);
    a + b + c
}

} // verus!
