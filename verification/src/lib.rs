//! Time-evolving tokens derived from a seed, a shared secret and an interval.
//!
//! Two parties that hold the same seed, secret, interval and start time derive
//! the same token for the same interval, without talking to each other.

pub mod chain;
pub mod digest;
pub mod error;
pub mod hex;
pub mod payload;
pub mod reader;
pub mod text;
pub mod time;
pub mod transport;
pub mod generator;

pub use error::TokenError;
pub use generator::EvolvingString;
pub use time::Timestamp;
