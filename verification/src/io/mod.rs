//! Byte readers and writers: owning, positional ones and a borrowed cursor.

pub mod reader;
pub mod writer;

pub use reader::{BytesReader, FileReader, Reader, SliceReader, SliceView};
pub use writer::{BytesWriter, DrainWriter, Writer};
