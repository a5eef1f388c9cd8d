//! Core of a small DNS server: the wire codec for headers, names, questions
//! and answer records, the rules for assembling a response, and the
//! per-question protocol for forwarding a request to an upstream resolver.
//!
//! Nothing here touches a socket. The caller hands in the bytes of a datagram
//! and gets back values or bytes to send.

pub mod answer;
pub mod args;
pub mod buffer;
pub mod error;
pub mod header;
pub mod message;
pub mod name;
pub mod question;
pub mod resolver;
pub mod wire;
