//! A chat-relay bridge: inbound chat messages are reshaped into structured
//! completion-API requests, and the API's replies are extracted for delivery
//! back to the chat.
//!
//! The library holds the pure core: prompt construction (mention stripping,
//! placeholder substitution), the request/response data shapes, their JSON
//! encoding and decoding, and reply extraction. Network and file I/O stay
//! outside.

pub mod configuration;
pub mod inference;
pub mod json;
pub mod models;
pub mod template;
pub mod numerals;
pub mod parser;
pub mod utils;
