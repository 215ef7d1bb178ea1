//! Message definitions: the field tree of a message type, the parser that
//! builds it from the text of a definition, and the decoder that reads a
//! payload along it.

pub mod decode;
pub mod ros2msg;
pub mod scan;
pub mod types;

pub use ros2msg::Ros2MsgParser;
pub use types::{
    FieldType, FieldValue, PrimitiveType, Schema, SchemaConstant, SchemaField, StringType,
};
