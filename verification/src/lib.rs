//! Reading and writing of a container file format for time-indexed, typed
//! message streams, and decoding of the aligned binary payloads inside it.

pub mod encoding;
pub mod endian;
pub mod error;
pub mod io;
pub mod mcap;
pub mod schema;
pub mod text;
