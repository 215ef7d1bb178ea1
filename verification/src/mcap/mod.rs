//! The container format: records, their encoding, and files made of them.

pub mod attached;
pub mod chunk;
pub mod codec;
pub mod crc;
pub mod inplace;
pub mod order;
pub mod parser;
pub mod reader;
pub mod records;
pub mod roundtrip;
pub mod wire;
pub mod writer;
pub mod zerocopy;

pub use chunk::{compress_chunk, decompress_chunk};
pub use crc::{compute_crc, Crc32Hasher};
pub use parser::McapRecordParser;
pub use reader::{McapReader, McapSummary};
pub use records::{
    AttachmentIndexRecord, AttachmentRecord, ChannelRecord, ChunkIndexRecord, ChunkRecord,
    DataEndRecord, FooterRecord, HeaderRecord, MessageIndexEntry, MessageIndexRecord,
    MessageRecord, MetadataIndexRecord, MetadataRecord, Record, RecordType, SchemaRecord,
    StatisticsRecord, SummaryOffsetRecord,
};
pub use writer::McapWriter;
pub use zerocopy::{
    count_messages_fast, ChunkMeta, DirectMessageIterator, FastMcapReader, MessageRef,
};
