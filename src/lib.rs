//! A DNS message codec and a single-exchange responder.
pub mod protocol;
