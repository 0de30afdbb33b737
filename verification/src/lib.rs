//! Receiver side of a one-way ("data diode") transfer service.
//!
//! Erasure-coded UDP packets are regrouped into blocks, the blocks are decoded
//! and handed on in production order, and the decoded byte stream is fanned out
//! to one forwarding session per client.
pub mod config;
pub mod cyclic;
pub mod message;
pub mod packet;
pub mod protocol;
pub mod receive;
mod sequence;

pub use message::{ClientId, ClientMessage, Message};
