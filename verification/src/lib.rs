//! A typed remote-procedure codec and block-capture sequencer.
//!
//! The crate interprets 16-bit endpoint metadata words, converts values
//! between decimal text and their fixed-width little-endian wire bytes, and
//! drives the trigger / size / block-fetch protocol that assembles a sampled
//! capture buffer. The transport that carries the calls is an outside
//! collaborator: callers perform the calls and feed the replies back in.

pub mod capture;
pub mod codec;
pub mod invoke;
pub mod kind;
pub mod listparse;
pub mod meta;
pub mod numtext;
pub mod sizing;
pub mod wire;
