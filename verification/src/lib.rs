//! Codec for the KATCP line-based text protocol.
//!
//! The crate offers two services: an incremental [`parse::Parser`] that turns
//! arbitrary byte chunks into whole messages, and a formatter
//! ([`format::Message`]) that computes the exact encoded size of a message and
//! writes its wire representation.

pub mod format;
pub mod fsm;
pub mod laws;
pub mod model;
pub mod parse;

pub use fsm::MessageType;
pub use parse::{ParseError, Parser};
