//! The decisions of the local router: routing, conversion between protocols, and what is kept of
//! a conversation.
pub mod adapt;
pub mod bindings;
pub mod chat_request;
pub mod compaction;
pub mod errors;
pub mod exchange;
pub mod history;
pub mod output_limit;
pub mod request_catalog;
pub mod request_log_tap;
pub mod request_meta;
pub mod resource_budget;
pub mod responses;
pub mod routing;
pub mod sse;
pub mod sse_anthropic;
pub mod sse_chat;
pub mod streaming;
pub mod usage_text;
pub mod websocket_context;
