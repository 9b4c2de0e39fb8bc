//! A streaming client core for chat-completion style LLM HTTP APIs.
//!
//! The library turns a block of text with embedded role tags into an ordered
//! conversation, resolves a `provider/model` identifier to connection
//! parameters, incrementally decodes the provider's streaming response into
//! typed events, and renders those events with well-formed reasoning
//! delimiters. Transport, credential lookup and terminal output live outside
//! the library; everything here is pure logic with verified contracts.

pub mod compile;
pub mod decode;
pub mod escaping;
pub mod msg;
pub mod provider;
pub mod render;
