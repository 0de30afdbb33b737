//! The stages of the receiver.
//!
//! Packets are regrouped into blocks ([`reblock`]), blocks are decoded and put
//! back in order ([`decoding`]), the decoded stream is handed out to the
//! sessions of its clients ([`dispatch`]), and each session forwards its data
//! ([`session`]).
pub mod decoding;
pub mod dispatch;
pub mod reblock;
pub mod session;
