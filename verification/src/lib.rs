//! Routing, bookkeeping and protocol logic of the CodexManager gateway service,
//! with contracts checked by Verus.
pub mod text;
pub mod conversation_binding;
pub mod backend_router;
pub mod session_affinity;
pub mod startup;
pub mod proxy_runtime;
pub mod web_gateway;
pub mod cost;
pub mod aggregate_api;
pub mod request_gate;
pub mod requestlog;
pub mod client_ip;
pub mod updater;
pub mod json;
pub mod ws_rebase;
pub mod request_activity;
pub mod account_test_events;
