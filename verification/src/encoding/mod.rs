//! Payload encodings.

pub mod cdr;

pub use cdr::{CdrDecoder, CdrEncoder};
