//! The records of the container and what each holds.

use crate::mcap::wire::{
    bytes32, bytes64, num_map_bytes, pair_array_bytes, pairs_view, str_bytes, str_entries_fit,
    str_map_bytes, take_bytes32, take_bytes64, take_num_map, take_pair_array, take_str,
    take_str_map, take_u16, take_u32, take_u64, take_u8,
};
use crate::endian::{u16_le, u32_le, u64_le};
use crate::error::ErrorKind;
use std::collections::HashMap;
use vstd::prelude::*;
use vstd::utf8::encode_utf8;

verus! {

broadcast use vstd::std_specs::hash::group_hash_axioms;

/// The kinds of record, each with its one-byte opcode.
#[derive(Debug, Clone, Copy, PartialEq, Eq, Structural)]
pub enum RecordType {
    Header,
    Footer,
    Schema,
    Channel,
    Message,
    Chunk,
    MessageIndex,
    ChunkIndex,
    Attachment,
    AttachmentIndex,
    Statistics,
    Metadata,
    MetadataIndex,
    SummaryOffset,
    DataEnd,
}

impl RecordType {
    /// The opcode of the kind.
    pub open spec fn code(self) -> u8 {
        match self {
            RecordType::Header => 0x01,
            RecordType::Footer => 0x02,
            RecordType::Schema => 0x03,
            RecordType::Channel => 0x04,
            RecordType::Message => 0x05,
            RecordType::Chunk => 0x06,
            RecordType::MessageIndex => 0x07,
            RecordType::ChunkIndex => 0x08,
            RecordType::Attachment => 0x09,
            RecordType::AttachmentIndex => 0x0A,
            RecordType::Statistics => 0x0B,
            RecordType::Metadata => 0x0C,
            RecordType::MetadataIndex => 0x0D,
            RecordType::SummaryOffset => 0x0E,
            RecordType::DataEnd => 0x0F,
        }
    }

    /// The opcode of the kind.
    pub fn opcode(self) -> (r: u8)
        ensures
            r == self.code(),
            1 <= r <= 15,
    {
        match self {
            RecordType::Header => 0x01,
            RecordType::Footer => 0x02,
            RecordType::Schema => 0x03,
            RecordType::Channel => 0x04,
            RecordType::Message => 0x05,
            RecordType::Chunk => 0x06,
            RecordType::MessageIndex => 0x07,
            RecordType::ChunkIndex => 0x08,
            RecordType::Attachment => 0x09,
            RecordType::AttachmentIndex => 0x0A,
            RecordType::Statistics => 0x0B,
            RecordType::Metadata => 0x0C,
            RecordType::MetadataIndex => 0x0D,
            RecordType::SummaryOffset => 0x0E,
            RecordType::DataEnd => 0x0F,
        }
    }

    /// The kind with the opcode `value`, or `value` back if no kind has it.
    pub fn try_from(value: u8) -> (r: Result<RecordType, u8>)
        ensures
            match r {
                Ok(kind) => kind.code() == value,
                Err(v) => v == value && !(1 <= value <= 15),
            },
    {
        match value {
            0x01 => Ok(RecordType::Header),
            0x02 => Ok(RecordType::Footer),
            0x03 => Ok(RecordType::Schema),
            0x04 => Ok(RecordType::Channel),
            0x05 => Ok(RecordType::Message),
            0x06 => Ok(RecordType::Chunk),
            0x07 => Ok(RecordType::MessageIndex),
            0x08 => Ok(RecordType::ChunkIndex),
            0x09 => Ok(RecordType::Attachment),
            0x0A => Ok(RecordType::AttachmentIndex),
            0x0B => Ok(RecordType::Statistics),
            0x0C => Ok(RecordType::Metadata),
            0x0D => Ok(RecordType::MetadataIndex),
            0x0E => Ok(RecordType::SummaryOffset),
            0x0F => Ok(RecordType::DataEnd),
            _ => Err(value),
        }
    }
}

/// One entry of a message index.
#[derive(Debug, Clone, Copy, PartialEq, Eq)]
pub struct MessageIndexEntry {
    /// When the message was recorded.
    pub log_time: u64,
    /// Where the message lies in the uncompressed chunk.
    pub offset: u64,
}

/// The entries as pairs of log time and offset.
pub open spec fn index_pairs(entries: Seq<MessageIndexEntry>) -> Seq<(u64, u64)> {
    Seq::new(entries.len(), |i: int| (entries[i].log_time, entries[i].offset))
}

/// All of `s`, with nothing left behind it.
pub open spec fn take_all(s: Seq<u8>) -> Result<(Seq<u8>, Seq<u8>), ErrorKind> {
    Ok((s, Seq::empty()))
}

/// A record as bytes: the opcode, the length of the body as a 64-bit
/// number, the body.
pub open spec fn record_bytes(opcode: u8, body: Seq<u8>) -> Seq<u8> {
    seq![opcode] + (u64_le(body.len() as u64) + body)
}

/// A copy of the pairs.
pub fn clone_pairs(pairs: &Vec<(String, String)>) -> (r: Vec<(String, String)>)
    ensures
        pairs_view(r@) == pairs_view(pairs@),
{
    let mut out: Vec<(String, String)> = Vec::new();
    let mut i: usize = 0;
    while i < pairs.len()
        invariant
            i <= pairs.len(),
            out@.len() == i,
            forall|j: int| 0 <= j < i ==> out@[j].0@ == pairs@[j].0@ && out@[j].1@ == pairs@[j].1@,
        decreases pairs.len() - i,
    {
        out.push((pairs[i].0.clone(), pairs[i].1.clone()));
        i += 1;
    }
    assert(pairs_view(out@) =~= pairs_view(pairs@));
    out
}

/// A copy of the entries.
pub fn clone_entries(entries: &Vec<MessageIndexEntry>) -> (r: Vec<MessageIndexEntry>)
    ensures
        r@ == entries@,
{
    let mut out: Vec<MessageIndexEntry> = Vec::new();
    let mut i: usize = 0;
    while i < entries.len()
        invariant
            i <= entries.len(),
            out@ == entries@.take(i as int),
        decreases entries.len() - i,
    {
        out.push(entries[i]);
        assert(out@ =~= entries@.take(i + 1));
        i += 1;
    }
    assert(entries@.take(entries.len() as int) =~= entries@);
    out
}

/// The first record of a file.
#[derive(Debug, PartialEq)]
pub struct HeaderRecord {
    /// The profile that the file follows.
    pub profile: String,
    /// The library that wrote the file.
    pub library: String,
}

/// What a `HeaderRecord` holds, as mathematical values.
pub struct HeaderView {
    pub profile: Seq<char>,
    pub library: Seq<char>,
}

impl View for HeaderRecord {
    type V = HeaderView;

    open spec fn view(&self) -> HeaderView {
        HeaderView {
            profile: self.profile@,
            library: self.library@,
        }
    }
}

impl Clone for HeaderRecord {
    fn clone(&self) -> (r: Self)
        ensures
            r@ == self@,
    {
        HeaderRecord {
            profile: self.profile.clone(),
            library: self.library.clone(),
        }
    }
}

/// Whether the lengths in `v` fit the fields that hold them in the encoding.
pub open spec fn header_fits(v: HeaderView) -> bool {
    &&& encode_utf8(v.profile).len() <= u32::MAX
    &&& encode_utf8(v.library).len() <= u32::MAX
}

/// The body of the record that holds `v`.
pub open spec fn header_body_bytes(v: HeaderView) -> Seq<u8> {
    str_bytes(v.profile) + (str_bytes(v.library))
}

/// The record that holds `v`, as bytes.
pub open spec fn header_bytes(v: HeaderView) -> Seq<u8> {
    record_bytes(0x01, header_body_bytes(v))
}

/// What the body `b` of a record of this kind holds. Bytes behind the last field are not looked at.
pub open spec fn header_body(b: Seq<u8>) -> Result<HeaderView, ErrorKind> {
    match take_str(b) {
        Err(e) => Err(e),
        Ok((profile, b1)) => match take_str(b1) {
            Err(e) => Err(e),
            Ok((library, b2)) => Ok(HeaderView { profile, library }),
        },
    }
}

/// The last record of a file.
#[derive(Debug, Clone, Copy, PartialEq, Eq)]
pub struct FooterRecord {
    /// Where the summary section starts; 0 if there is none.
    pub summary_start: u64,
    /// Where the summary offset records start; 0 if there are none.
    pub summary_offset_start: u64,
    /// The checksum of the summary section; 0 if it was not computed.
    pub summary_crc: u32,
}

impl View for FooterRecord {
    type V = FooterRecord;

    open spec fn view(&self) -> FooterRecord {
        *self
    }
}

/// Whether the lengths in `v` fit the fields that hold them in the encoding.
pub open spec fn footer_fits(v: FooterRecord) -> bool {
    true
}

/// The body of the record that holds `v`.
pub open spec fn footer_body_bytes(v: FooterRecord) -> Seq<u8> {
    u64_le(v.summary_start) + (u64_le(v.summary_offset_start) + (u32_le(v.summary_crc)))
}

/// The record that holds `v`, as bytes.
pub open spec fn footer_bytes(v: FooterRecord) -> Seq<u8> {
    record_bytes(0x02, footer_body_bytes(v))
}

/// What the body `b` of a record of this kind holds. Bytes behind the last field are not looked at.
pub open spec fn footer_body(b: Seq<u8>) -> Result<FooterRecord, ErrorKind> {
    match take_u64(b) {
        Err(e) => Err(e),
        Ok((summary_start, b1)) => match take_u64(b1) {
            Err(e) => Err(e),
            Ok((summary_offset_start, b2)) => match take_u32(b2) {
                Err(e) => Err(e),
                Ok((summary_crc, b3)) => Ok(FooterRecord { summary_start, summary_offset_start, summary_crc }),
            },
        },
    }
}

/// The definition of a message type.
#[derive(Debug, PartialEq)]
pub struct SchemaRecord {
    /// The id, never 0.
    pub id: u16,
    /// The name of the message type.
    pub name: String,
    /// The language the definition is written in.
    pub encoding: String,
    /// The definition.
    pub data: Vec<u8>,
}

/// What a `SchemaRecord` holds, as mathematical values.
pub struct SchemaView {
    pub id: u16,
    pub name: Seq<char>,
    pub encoding: Seq<char>,
    pub data: Seq<u8>,
}

impl View for SchemaRecord {
    type V = SchemaView;

    open spec fn view(&self) -> SchemaView {
        SchemaView {
            id: self.id,
            name: self.name@,
            encoding: self.encoding@,
            data: self.data@,
        }
    }
}

impl Clone for SchemaRecord {
    fn clone(&self) -> (r: Self)
        ensures
            r@ == self@,
    {
        SchemaRecord {
            id: self.id,
            name: self.name.clone(),
            encoding: self.encoding.clone(),
            data: self.data.clone(),
        }
    }
}

/// Whether the lengths in `v` fit the fields that hold them in the encoding.
pub open spec fn schema_fits(v: SchemaView) -> bool {
    &&& encode_utf8(v.name).len() <= u32::MAX
    &&& encode_utf8(v.encoding).len() <= u32::MAX
    &&& v.data.len() <= u32::MAX
}

/// The body of the record that holds `v`.
pub open spec fn schema_body_bytes(v: SchemaView) -> Seq<u8> {
    u16_le(v.id) + (str_bytes(v.name) + (str_bytes(v.encoding) + (bytes32(v.data))))
}

/// The record that holds `v`, as bytes.
pub open spec fn schema_bytes(v: SchemaView) -> Seq<u8> {
    record_bytes(0x03, schema_body_bytes(v))
}

/// What the body `b` of a schema record holds: nothing if the id is 0, which is reserved.
pub open spec fn schema_body(b: Seq<u8>) -> Result<Option<SchemaView>, ErrorKind> {
    match take_u16(b) {
        Err(e) => Err(e),
        Ok((id, b1)) => if id == 0 {
            Ok(None)
        } else {
            match take_str(b1) {
                Err(e) => Err(e),
                Ok((name, b2)) => match take_str(b2) {
                    Err(e) => Err(e),
                    Ok((encoding, b3)) => match take_bytes32(b3) {
                        Err(e) => Err(e),
                        Ok((data, b4)) => Ok(Some(SchemaView { id, name, encoding, data })),
                    },
                },
            }
        },
    }
}

/// A stream of messages on one topic.
#[derive(Debug, PartialEq)]
pub struct ChannelRecord {
    /// The id.
    pub id: u16,
    /// The schema of the messages; 0 if they have none.
    pub schema_id: u16,
    /// The topic.
    pub topic: String,
    /// How the messages are encoded.
    pub message_encoding: String,
    /// A map as a list of keys with their values. No key occurs twice in a
    /// record that was read; one in which a key occurs twice is not written.
    pub metadata: Vec<(String, String)>,
}

/// What a `ChannelRecord` holds, as mathematical values.
pub struct ChannelView {
    pub id: u16,
    pub schema_id: u16,
    pub topic: Seq<char>,
    pub message_encoding: Seq<char>,
    pub metadata: Seq<(Seq<char>, Seq<char>)>,
}

impl View for ChannelRecord {
    type V = ChannelView;

    open spec fn view(&self) -> ChannelView {
        ChannelView {
            id: self.id,
            schema_id: self.schema_id,
            topic: self.topic@,
            message_encoding: self.message_encoding@,
            metadata: pairs_view(self.metadata@),
        }
    }
}

impl Clone for ChannelRecord {
    fn clone(&self) -> (r: Self)
        ensures
            r@ == self@,
    {
        ChannelRecord {
            id: self.id,
            schema_id: self.schema_id,
            topic: self.topic.clone(),
            message_encoding: self.message_encoding.clone(),
            metadata: clone_pairs(&self.metadata),
        }
    }
}

/// Whether the lengths in `v` fit the fields that hold them in the encoding.
pub open spec fn channel_fits(v: ChannelView) -> bool {
    &&& encode_utf8(v.topic).len() <= u32::MAX
    &&& encode_utf8(v.message_encoding).len() <= u32::MAX
    &&& str_entries_fit(v.metadata)
}

/// The body of the record that holds `v`.
pub open spec fn channel_body_bytes(v: ChannelView) -> Seq<u8> {
    u16_le(v.id) + (u16_le(v.schema_id) + (str_bytes(v.topic) + (str_bytes(v.message_encoding) + (str_map_bytes(v.metadata)))))
}

/// The record that holds `v`, as bytes.
pub open spec fn channel_bytes(v: ChannelView) -> Seq<u8> {
    record_bytes(0x04, channel_body_bytes(v))
}

/// What the body `b` of a record of this kind holds. Bytes behind the last field are not looked at.
pub open spec fn channel_body(b: Seq<u8>) -> Result<ChannelView, ErrorKind> {
    match take_u16(b) {
        Err(e) => Err(e),
        Ok((id, b1)) => match take_u16(b1) {
            Err(e) => Err(e),
            Ok((schema_id, b2)) => match take_str(b2) {
                Err(e) => Err(e),
                Ok((topic, b3)) => match take_str(b3) {
                    Err(e) => Err(e),
                    Ok((message_encoding, b4)) => match take_str_map(b4) {
                        Err(e) => Err(e),
                        Ok((metadata, b5)) => Ok(ChannelView { id, schema_id, topic, message_encoding, metadata }),
                    },
                },
            },
        },
    }
}

/// One message.
#[derive(Debug, PartialEq)]
pub struct MessageRecord {
    /// The channel the message belongs to.
    pub channel_id: u16,
    /// The sequence number.
    pub sequence: u32,
    /// When the message was recorded.
    pub log_time: u64,
    /// When the message was published.
    pub publish_time: u64,
    /// The payload.
    pub data: Vec<u8>,
}

/// What a `MessageRecord` holds, as mathematical values.
pub struct MessageView {
    pub channel_id: u16,
    pub sequence: u32,
    pub log_time: u64,
    pub publish_time: u64,
    pub data: Seq<u8>,
}

impl View for MessageRecord {
    type V = MessageView;

    open spec fn view(&self) -> MessageView {
        MessageView {
            channel_id: self.channel_id,
            sequence: self.sequence,
            log_time: self.log_time,
            publish_time: self.publish_time,
            data: self.data@,
        }
    }
}

impl Clone for MessageRecord {
    fn clone(&self) -> (r: Self)
        ensures
            r@ == self@,
    {
        MessageRecord {
            channel_id: self.channel_id,
            sequence: self.sequence,
            log_time: self.log_time,
            publish_time: self.publish_time,
            data: self.data.clone(),
        }
    }
}

/// Whether the lengths in `v` fit the fields that hold them in the encoding.
pub open spec fn message_fits(v: MessageView) -> bool {
    true
}

/// The body of the record that holds `v`.
pub open spec fn message_body_bytes(v: MessageView) -> Seq<u8> {
    u16_le(v.channel_id) + (u32_le(v.sequence) + (u64_le(v.log_time) + (u64_le(v.publish_time) + (v.data))))
}

/// The record that holds `v`, as bytes.
pub open spec fn message_bytes(v: MessageView) -> Seq<u8> {
    record_bytes(0x05, message_body_bytes(v))
}

/// What the body `b` of a record of this kind holds. Bytes behind the last field are not looked at.
pub open spec fn message_body(b: Seq<u8>) -> Result<MessageView, ErrorKind> {
    match take_u16(b) {
        Err(e) => Err(e),
        Ok((channel_id, b1)) => match take_u32(b1) {
            Err(e) => Err(e),
            Ok((sequence, b2)) => match take_u64(b2) {
                Err(e) => Err(e),
                Ok((log_time, b3)) => match take_u64(b3) {
                    Err(e) => Err(e),
                    Ok((publish_time, b4)) => match take_all(b4) {
                        Err(e) => Err(e),
                        Ok((data, b5)) => Ok(MessageView { channel_id, sequence, log_time, publish_time, data }),
                    },
                },
            },
        },
    }
}

/// A run of records, possibly compressed.
#[derive(Debug, PartialEq)]
pub struct ChunkRecord {
    /// The earliest log time in the chunk.
    pub message_start_time: u64,
    /// The latest log time in the chunk.
    pub message_end_time: u64,
    /// The length of the records before compression.
    pub uncompressed_size: u64,
    /// The checksum of the records before compression; 0 if absent.
    pub uncompressed_crc: u32,
    /// The name of the compression; empty for none.
    pub compression: String,
    /// The records, compressed as `compression` says.
    pub records: Vec<u8>,
}

/// What a `ChunkRecord` holds, as mathematical values.
pub struct ChunkView {
    pub message_start_time: u64,
    pub message_end_time: u64,
    pub uncompressed_size: u64,
    pub uncompressed_crc: u32,
    pub compression: Seq<char>,
    pub records: Seq<u8>,
}

impl View for ChunkRecord {
    type V = ChunkView;

    open spec fn view(&self) -> ChunkView {
        ChunkView {
            message_start_time: self.message_start_time,
            message_end_time: self.message_end_time,
            uncompressed_size: self.uncompressed_size,
            uncompressed_crc: self.uncompressed_crc,
            compression: self.compression@,
            records: self.records@,
        }
    }
}

impl Clone for ChunkRecord {
    fn clone(&self) -> (r: Self)
        ensures
            r@ == self@,
    {
        ChunkRecord {
            message_start_time: self.message_start_time,
            message_end_time: self.message_end_time,
            uncompressed_size: self.uncompressed_size,
            uncompressed_crc: self.uncompressed_crc,
            compression: self.compression.clone(),
            records: self.records.clone(),
        }
    }
}

/// Whether the lengths in `v` fit the fields that hold them in the encoding.
pub open spec fn chunk_fits(v: ChunkView) -> bool {
    &&& encode_utf8(v.compression).len() <= u32::MAX
    &&& v.records.len() <= u64::MAX
}

/// The body of the record that holds `v`.
pub open spec fn chunk_body_bytes(v: ChunkView) -> Seq<u8> {
    u64_le(v.message_start_time) + (u64_le(v.message_end_time) + (u64_le(v.uncompressed_size) + (u32_le(v.uncompressed_crc) + (str_bytes(v.compression) + (bytes64(v.records))))))
}

/// The record that holds `v`, as bytes.
pub open spec fn chunk_bytes(v: ChunkView) -> Seq<u8> {
    record_bytes(0x06, chunk_body_bytes(v))
}

/// What the body `b` of a record of this kind holds. Bytes behind the last field are not looked at.
pub open spec fn chunk_body(b: Seq<u8>) -> Result<ChunkView, ErrorKind> {
    match take_u64(b) {
        Err(e) => Err(e),
        Ok((message_start_time, b1)) => match take_u64(b1) {
            Err(e) => Err(e),
            Ok((message_end_time, b2)) => match take_u64(b2) {
                Err(e) => Err(e),
                Ok((uncompressed_size, b3)) => match take_u32(b3) {
                    Err(e) => Err(e),
                    Ok((uncompressed_crc, b4)) => match take_str(b4) {
                        Err(e) => Err(e),
                        Ok((compression, b5)) => match take_bytes64(b5) {
                            Err(e) => Err(e),
                            Ok((records, b6)) => Ok(ChunkView { message_start_time, message_end_time, uncompressed_size, uncompressed_crc, compression, records }),
                        },
                    },
                },
            },
        },
    }
}

/// Where the messages of one channel lie in a chunk.
#[derive(Debug, PartialEq)]
pub struct MessageIndexRecord {
    /// The channel.
    pub channel_id: u16,
    /// Log time and offset of each message.
    pub records: Vec<MessageIndexEntry>,
}

/// What a `MessageIndexRecord` holds, as mathematical values.
pub struct MessageIndexView {
    pub channel_id: u16,
    pub records: Seq<(u64, u64)>,
}

impl View for MessageIndexRecord {
    type V = MessageIndexView;

    open spec fn view(&self) -> MessageIndexView {
        MessageIndexView {
            channel_id: self.channel_id,
            records: index_pairs(self.records@),
        }
    }
}

impl Clone for MessageIndexRecord {
    fn clone(&self) -> (r: Self)
        ensures
            r@ == self@,
    {
        MessageIndexRecord {
            channel_id: self.channel_id,
            records: clone_entries(&self.records),
        }
    }
}

/// Whether the lengths in `v` fit the fields that hold them in the encoding.
pub open spec fn message_index_fits(v: MessageIndexView) -> bool {
    &&& 16 * v.records.len() <= u32::MAX
}

/// The body of the record that holds `v`.
pub open spec fn message_index_body_bytes(v: MessageIndexView) -> Seq<u8> {
    u16_le(v.channel_id) + (pair_array_bytes(v.records))
}

/// The record that holds `v`, as bytes.
pub open spec fn message_index_bytes(v: MessageIndexView) -> Seq<u8> {
    record_bytes(0x07, message_index_body_bytes(v))
}

/// What the body `b` of a record of this kind holds. Bytes behind the last field are not looked at.
pub open spec fn message_index_body(b: Seq<u8>) -> Result<MessageIndexView, ErrorKind> {
    match take_u16(b) {
        Err(e) => Err(e),
        Ok((channel_id, b1)) => match take_pair_array(b1) {
            Err(e) => Err(e),
            Ok((records, b2)) => Ok(MessageIndexView { channel_id, records }),
        },
    }
}

/// Where a chunk lies in the file.
#[derive(Debug, PartialEq)]
pub struct ChunkIndexRecord {
    /// The earliest log time in the chunk.
    pub message_start_time: u64,
    /// The latest log time in the chunk.
    pub message_end_time: u64,
    /// The offset of the chunk record in the file.
    pub chunk_start_offset: u64,
    /// The length of the chunk record.
    pub chunk_length: u64,
    /// For each channel, the offset of its message index.
    pub message_index_offsets: HashMap<u16, u64>,
    /// The length of the message index records.
    pub message_index_length: u64,
    /// The name of the compression.
    pub compression: String,
    /// The length of the records as stored.
    pub compressed_size: u64,
    /// The length of the records before compression.
    pub uncompressed_size: u64,
}

/// What a `ChunkIndexRecord` holds, as mathematical values.
pub struct ChunkIndexView {
    pub message_start_time: u64,
    pub message_end_time: u64,
    pub chunk_start_offset: u64,
    pub chunk_length: u64,
    pub message_index_offsets: Map<u16, u64>,
    pub message_index_length: u64,
    pub compression: Seq<char>,
    pub compressed_size: u64,
    pub uncompressed_size: u64,
}

impl View for ChunkIndexRecord {
    type V = ChunkIndexView;

    open spec fn view(&self) -> ChunkIndexView {
        ChunkIndexView {
            message_start_time: self.message_start_time,
            message_end_time: self.message_end_time,
            chunk_start_offset: self.chunk_start_offset,
            chunk_length: self.chunk_length,
            message_index_offsets: self.message_index_offsets@,
            message_index_length: self.message_index_length,
            compression: self.compression@,
            compressed_size: self.compressed_size,
            uncompressed_size: self.uncompressed_size,
        }
    }
}

impl Clone for ChunkIndexRecord {
    fn clone(&self) -> (r: Self)
        ensures
            r@ == self@,
    {
        ChunkIndexRecord {
            message_start_time: self.message_start_time,
            message_end_time: self.message_end_time,
            chunk_start_offset: self.chunk_start_offset,
            chunk_length: self.chunk_length,
            message_index_offsets: self.message_index_offsets.clone(),
            message_index_length: self.message_index_length,
            compression: self.compression.clone(),
            compressed_size: self.compressed_size,
            uncompressed_size: self.uncompressed_size,
        }
    }
}

/// Whether the lengths in `v` fit the fields that hold them in the encoding.
pub open spec fn chunk_index_fits(v: ChunkIndexView) -> bool {
    &&& encode_utf8(v.compression).len() <= u32::MAX
}

/// The body of the record that holds `v`.
pub open spec fn chunk_index_body_bytes(v: ChunkIndexView) -> Seq<u8> {
    u64_le(v.message_start_time) + (u64_le(v.message_end_time) + (u64_le(v.chunk_start_offset) + (u64_le(v.chunk_length) + (num_map_bytes(v.message_index_offsets) + (u64_le(v.message_index_length) + (str_bytes(v.compression) + (u64_le(v.compressed_size) + (u64_le(v.uncompressed_size)))))))))
}

/// The record that holds `v`, as bytes.
pub open spec fn chunk_index_bytes(v: ChunkIndexView) -> Seq<u8> {
    record_bytes(0x08, chunk_index_body_bytes(v))
}

/// What the body `b` of a record of this kind holds. Bytes behind the last field are not looked at.
pub open spec fn chunk_index_body(b: Seq<u8>) -> Result<ChunkIndexView, ErrorKind> {
    match take_u64(b) {
        Err(e) => Err(e),
        Ok((message_start_time, b1)) => match take_u64(b1) {
            Err(e) => Err(e),
            Ok((message_end_time, b2)) => match take_u64(b2) {
                Err(e) => Err(e),
                Ok((chunk_start_offset, b3)) => match take_u64(b3) {
                    Err(e) => Err(e),
                    Ok((chunk_length, b4)) => match take_num_map(b4) {
                        Err(e) => Err(e),
                        Ok((message_index_offsets, b5)) => match take_u64(b5) {
                            Err(e) => Err(e),
                            Ok((message_index_length, b6)) => match take_str(b6) {
                                Err(e) => Err(e),
                                Ok((compression, b7)) => match take_u64(b7) {
                                    Err(e) => Err(e),
                                    Ok((compressed_size, b8)) => match take_u64(b8) {
                                        Err(e) => Err(e),
                                        Ok((uncompressed_size, b9)) => Ok(ChunkIndexView { message_start_time, message_end_time, chunk_start_offset, chunk_length, message_index_offsets, message_index_length, compression, compressed_size, uncompressed_size }),
                                    },
                                },
                            },
                        },
                    },
                },
            },
        },
    }
}

/// A file carried along.
#[derive(Debug, PartialEq)]
pub struct AttachmentRecord {
    /// When the attachment was recorded.
    pub log_time: u64,
    /// When the attachment was made.
    pub create_time: u64,
    /// The name.
    pub name: String,
    /// The media type.
    pub media_type: String,
    /// The content.
    pub data: Vec<u8>,
    /// The checksum of the fields before; 0 if absent.
    pub crc: u32,
}

/// What a `AttachmentRecord` holds, as mathematical values.
pub struct AttachmentView {
    pub log_time: u64,
    pub create_time: u64,
    pub name: Seq<char>,
    pub media_type: Seq<char>,
    pub data: Seq<u8>,
    pub crc: u32,
}

impl View for AttachmentRecord {
    type V = AttachmentView;

    open spec fn view(&self) -> AttachmentView {
        AttachmentView {
            log_time: self.log_time,
            create_time: self.create_time,
            name: self.name@,
            media_type: self.media_type@,
            data: self.data@,
            crc: self.crc,
        }
    }
}

impl Clone for AttachmentRecord {
    fn clone(&self) -> (r: Self)
        ensures
            r@ == self@,
    {
        AttachmentRecord {
            log_time: self.log_time,
            create_time: self.create_time,
            name: self.name.clone(),
            media_type: self.media_type.clone(),
            data: self.data.clone(),
            crc: self.crc,
        }
    }
}

/// Whether the lengths in `v` fit the fields that hold them in the encoding.
pub open spec fn attachment_fits(v: AttachmentView) -> bool {
    &&& encode_utf8(v.name).len() <= u32::MAX
    &&& encode_utf8(v.media_type).len() <= u32::MAX
    &&& v.data.len() <= u64::MAX
}

/// The body of the record that holds `v`.
pub open spec fn attachment_body_bytes(v: AttachmentView) -> Seq<u8> {
    u64_le(v.log_time) + (u64_le(v.create_time) + (str_bytes(v.name) + (str_bytes(v.media_type) + (bytes64(v.data) + (u32_le(v.crc))))))
}

/// The record that holds `v`, as bytes.
pub open spec fn attachment_bytes(v: AttachmentView) -> Seq<u8> {
    record_bytes(0x09, attachment_body_bytes(v))
}

/// What the body `b` of a record of this kind holds. Bytes behind the last field are not looked at.
pub open spec fn attachment_body(b: Seq<u8>) -> Result<AttachmentView, ErrorKind> {
    match take_u64(b) {
        Err(e) => Err(e),
        Ok((log_time, b1)) => match take_u64(b1) {
            Err(e) => Err(e),
            Ok((create_time, b2)) => match take_str(b2) {
                Err(e) => Err(e),
                Ok((name, b3)) => match take_str(b3) {
                    Err(e) => Err(e),
                    Ok((media_type, b4)) => match take_bytes64(b4) {
                        Err(e) => Err(e),
                        Ok((data, b5)) => match take_u32(b5) {
                            Err(e) => Err(e),
                            Ok((crc, b6)) => Ok(AttachmentView { log_time, create_time, name, media_type, data, crc }),
                        },
                    },
                },
            },
        },
    }
}

/// Where an attachment lies in the file.
#[derive(Debug, PartialEq)]
pub struct AttachmentIndexRecord {
    /// The offset of the attachment record.
    pub offset: u64,
    /// The length of the attachment record.
    pub length: u64,
    /// When the attachment was recorded.
    pub log_time: u64,
    /// When the attachment was made.
    pub create_time: u64,
    /// The length of the content.
    pub data_size: u64,
    /// The name.
    pub name: String,
    /// The media type.
    pub media_type: String,
}

/// What a `AttachmentIndexRecord` holds, as mathematical values.
pub struct AttachmentIndexView {
    pub offset: u64,
    pub length: u64,
    pub log_time: u64,
    pub create_time: u64,
    pub data_size: u64,
    pub name: Seq<char>,
    pub media_type: Seq<char>,
}

impl View for AttachmentIndexRecord {
    type V = AttachmentIndexView;

    open spec fn view(&self) -> AttachmentIndexView {
        AttachmentIndexView {
            offset: self.offset,
            length: self.length,
            log_time: self.log_time,
            create_time: self.create_time,
            data_size: self.data_size,
            name: self.name@,
            media_type: self.media_type@,
        }
    }
}

impl Clone for AttachmentIndexRecord {
    fn clone(&self) -> (r: Self)
        ensures
            r@ == self@,
    {
        AttachmentIndexRecord {
            offset: self.offset,
            length: self.length,
            log_time: self.log_time,
            create_time: self.create_time,
            data_size: self.data_size,
            name: self.name.clone(),
            media_type: self.media_type.clone(),
        }
    }
}

/// Whether the lengths in `v` fit the fields that hold them in the encoding.
pub open spec fn attachment_index_fits(v: AttachmentIndexView) -> bool {
    &&& encode_utf8(v.name).len() <= u32::MAX
    &&& encode_utf8(v.media_type).len() <= u32::MAX
}

/// The body of the record that holds `v`.
pub open spec fn attachment_index_body_bytes(v: AttachmentIndexView) -> Seq<u8> {
    u64_le(v.offset) + (u64_le(v.length) + (u64_le(v.log_time) + (u64_le(v.create_time) + (u64_le(v.data_size) + (str_bytes(v.name) + (str_bytes(v.media_type)))))))
}

/// The record that holds `v`, as bytes.
pub open spec fn attachment_index_bytes(v: AttachmentIndexView) -> Seq<u8> {
    record_bytes(0x0A, attachment_index_body_bytes(v))
}

/// What the body `b` of a record of this kind holds. Bytes behind the last field are not looked at.
pub open spec fn attachment_index_body(b: Seq<u8>) -> Result<AttachmentIndexView, ErrorKind> {
    match take_u64(b) {
        Err(e) => Err(e),
        Ok((offset, b1)) => match take_u64(b1) {
            Err(e) => Err(e),
            Ok((length, b2)) => match take_u64(b2) {
                Err(e) => Err(e),
                Ok((log_time, b3)) => match take_u64(b3) {
                    Err(e) => Err(e),
                    Ok((create_time, b4)) => match take_u64(b4) {
                        Err(e) => Err(e),
                        Ok((data_size, b5)) => match take_str(b5) {
                            Err(e) => Err(e),
                            Ok((name, b6)) => match take_str(b6) {
                                Err(e) => Err(e),
                                Ok((media_type, b7)) => Ok(AttachmentIndexView { offset, length, log_time, create_time, data_size, name, media_type }),
                            },
                        },
                    },
                },
            },
        },
    }
}

/// Counts over the whole file.
#[derive(Debug, PartialEq)]
pub struct StatisticsRecord {
    /// The number of messages.
    pub message_count: u64,
    /// The number of schemas.
    pub schema_count: u16,
    /// The number of channels.
    pub channel_count: u32,
    /// The number of attachments.
    pub attachment_count: u32,
    /// The number of metadata records.
    pub metadata_count: u32,
    /// The number of chunks.
    pub chunk_count: u32,
    /// The earliest log time.
    pub message_start_time: u64,
    /// The latest log time.
    pub message_end_time: u64,
    /// The number of messages of each channel.
    pub channel_message_counts: HashMap<u16, u64>,
}

/// What a `StatisticsRecord` holds, as mathematical values.
pub struct StatisticsView {
    pub message_count: u64,
    pub schema_count: u16,
    pub channel_count: u32,
    pub attachment_count: u32,
    pub metadata_count: u32,
    pub chunk_count: u32,
    pub message_start_time: u64,
    pub message_end_time: u64,
    pub channel_message_counts: Map<u16, u64>,
}

impl View for StatisticsRecord {
    type V = StatisticsView;

    open spec fn view(&self) -> StatisticsView {
        StatisticsView {
            message_count: self.message_count,
            schema_count: self.schema_count,
            channel_count: self.channel_count,
            attachment_count: self.attachment_count,
            metadata_count: self.metadata_count,
            chunk_count: self.chunk_count,
            message_start_time: self.message_start_time,
            message_end_time: self.message_end_time,
            channel_message_counts: self.channel_message_counts@,
        }
    }
}

impl Clone for StatisticsRecord {
    fn clone(&self) -> (r: Self)
        ensures
            r@ == self@,
    {
        StatisticsRecord {
            message_count: self.message_count,
            schema_count: self.schema_count,
            channel_count: self.channel_count,
            attachment_count: self.attachment_count,
            metadata_count: self.metadata_count,
            chunk_count: self.chunk_count,
            message_start_time: self.message_start_time,
            message_end_time: self.message_end_time,
            channel_message_counts: self.channel_message_counts.clone(),
        }
    }
}

/// Whether the lengths in `v` fit the fields that hold them in the encoding.
pub open spec fn statistics_fits(v: StatisticsView) -> bool {
    true
}

/// The body of the record that holds `v`.
pub open spec fn statistics_body_bytes(v: StatisticsView) -> Seq<u8> {
    u64_le(v.message_count) + (u16_le(v.schema_count) + (u32_le(v.channel_count) + (u32_le(v.attachment_count) + (u32_le(v.metadata_count) + (u32_le(v.chunk_count) + (u64_le(v.message_start_time) + (u64_le(v.message_end_time) + (num_map_bytes(v.channel_message_counts)))))))))
}

/// The record that holds `v`, as bytes.
pub open spec fn statistics_bytes(v: StatisticsView) -> Seq<u8> {
    record_bytes(0x0B, statistics_body_bytes(v))
}

/// What the body `b` of a record of this kind holds. Bytes behind the last field are not looked at.
pub open spec fn statistics_body(b: Seq<u8>) -> Result<StatisticsView, ErrorKind> {
    match take_u64(b) {
        Err(e) => Err(e),
        Ok((message_count, b1)) => match take_u16(b1) {
            Err(e) => Err(e),
            Ok((schema_count, b2)) => match take_u32(b2) {
                Err(e) => Err(e),
                Ok((channel_count, b3)) => match take_u32(b3) {
                    Err(e) => Err(e),
                    Ok((attachment_count, b4)) => match take_u32(b4) {
                        Err(e) => Err(e),
                        Ok((metadata_count, b5)) => match take_u32(b5) {
                            Err(e) => Err(e),
                            Ok((chunk_count, b6)) => match take_u64(b6) {
                                Err(e) => Err(e),
                                Ok((message_start_time, b7)) => match take_u64(b7) {
                                    Err(e) => Err(e),
                                    Ok((message_end_time, b8)) => match take_num_map(b8) {
                                        Err(e) => Err(e),
                                        Ok((channel_message_counts, b9)) => Ok(StatisticsView { message_count, schema_count, channel_count, attachment_count, metadata_count, chunk_count, message_start_time, message_end_time, channel_message_counts }),
                                    },
                                },
                            },
                        },
                    },
                },
            },
        },
    }
}

/// Named keys and values.
#[derive(Debug, PartialEq)]
pub struct MetadataRecord {
    /// The name.
    pub name: String,
    /// A map as a list of keys with their values. No key occurs twice in a
    /// record that was read; one in which a key occurs twice is not written.
    pub metadata: Vec<(String, String)>,
}

/// What a `MetadataRecord` holds, as mathematical values.
pub struct MetadataView {
    pub name: Seq<char>,
    pub metadata: Seq<(Seq<char>, Seq<char>)>,
}

impl View for MetadataRecord {
    type V = MetadataView;

    open spec fn view(&self) -> MetadataView {
        MetadataView {
            name: self.name@,
            metadata: pairs_view(self.metadata@),
        }
    }
}

impl Clone for MetadataRecord {
    fn clone(&self) -> (r: Self)
        ensures
            r@ == self@,
    {
        MetadataRecord {
            name: self.name.clone(),
            metadata: clone_pairs(&self.metadata),
        }
    }
}

/// Whether the lengths in `v` fit the fields that hold them in the encoding.
pub open spec fn metadata_fits(v: MetadataView) -> bool {
    &&& encode_utf8(v.name).len() <= u32::MAX
    &&& str_entries_fit(v.metadata)
}

/// The body of the record that holds `v`.
pub open spec fn metadata_body_bytes(v: MetadataView) -> Seq<u8> {
    str_bytes(v.name) + (str_map_bytes(v.metadata))
}

/// The record that holds `v`, as bytes.
pub open spec fn metadata_bytes(v: MetadataView) -> Seq<u8> {
    record_bytes(0x0C, metadata_body_bytes(v))
}

/// What the body `b` of a record of this kind holds. Bytes behind the last field are not looked at.
pub open spec fn metadata_body(b: Seq<u8>) -> Result<MetadataView, ErrorKind> {
    match take_str(b) {
        Err(e) => Err(e),
        Ok((name, b1)) => match take_str_map(b1) {
            Err(e) => Err(e),
            Ok((metadata, b2)) => Ok(MetadataView { name, metadata }),
        },
    }
}

/// Where a metadata record lies in the file.
#[derive(Debug, PartialEq)]
pub struct MetadataIndexRecord {
    /// The offset of the metadata record.
    pub offset: u64,
    /// The length of the metadata record.
    pub length: u64,
    /// The name.
    pub name: String,
}

/// What a `MetadataIndexRecord` holds, as mathematical values.
pub struct MetadataIndexView {
    pub offset: u64,
    pub length: u64,
    pub name: Seq<char>,
}

impl View for MetadataIndexRecord {
    type V = MetadataIndexView;

    open spec fn view(&self) -> MetadataIndexView {
        MetadataIndexView {
            offset: self.offset,
            length: self.length,
            name: self.name@,
        }
    }
}

impl Clone for MetadataIndexRecord {
    fn clone(&self) -> (r: Self)
        ensures
            r@ == self@,
    {
        MetadataIndexRecord {
            offset: self.offset,
            length: self.length,
            name: self.name.clone(),
        }
    }
}

/// Whether the lengths in `v` fit the fields that hold them in the encoding.
pub open spec fn metadata_index_fits(v: MetadataIndexView) -> bool {
    &&& encode_utf8(v.name).len() <= u32::MAX
}

/// The body of the record that holds `v`.
pub open spec fn metadata_index_body_bytes(v: MetadataIndexView) -> Seq<u8> {
    u64_le(v.offset) + (u64_le(v.length) + (str_bytes(v.name)))
}

/// The record that holds `v`, as bytes.
pub open spec fn metadata_index_bytes(v: MetadataIndexView) -> Seq<u8> {
    record_bytes(0x0D, metadata_index_body_bytes(v))
}

/// What the body `b` of a record of this kind holds. Bytes behind the last field are not looked at.
pub open spec fn metadata_index_body(b: Seq<u8>) -> Result<MetadataIndexView, ErrorKind> {
    match take_u64(b) {
        Err(e) => Err(e),
        Ok((offset, b1)) => match take_u64(b1) {
            Err(e) => Err(e),
            Ok((length, b2)) => match take_str(b2) {
                Err(e) => Err(e),
                Ok((name, b3)) => Ok(MetadataIndexView { offset, length, name }),
            },
        },
    }
}

/// Where the summary records of one kind lie.
#[derive(Debug, Clone, Copy, PartialEq, Eq)]
pub struct SummaryOffsetRecord {
    /// The opcode of the records.
    pub group_opcode: u8,
    /// Where they start.
    pub group_start: u64,
    /// How many bytes they take.
    pub group_length: u64,
}

impl View for SummaryOffsetRecord {
    type V = SummaryOffsetRecord;

    open spec fn view(&self) -> SummaryOffsetRecord {
        *self
    }
}

/// Whether the lengths in `v` fit the fields that hold them in the encoding.
pub open spec fn summary_offset_fits(v: SummaryOffsetRecord) -> bool {
    true
}

/// The body of the record that holds `v`.
pub open spec fn summary_offset_body_bytes(v: SummaryOffsetRecord) -> Seq<u8> {
    seq![v.group_opcode] + (u64_le(v.group_start) + (u64_le(v.group_length)))
}

/// The record that holds `v`, as bytes.
pub open spec fn summary_offset_bytes(v: SummaryOffsetRecord) -> Seq<u8> {
    record_bytes(0x0E, summary_offset_body_bytes(v))
}

/// What the body `b` of a record of this kind holds. Bytes behind the last field are not looked at.
pub open spec fn summary_offset_body(b: Seq<u8>) -> Result<SummaryOffsetRecord, ErrorKind> {
    match take_u8(b) {
        Err(e) => Err(e),
        Ok((group_opcode, b1)) => match take_u64(b1) {
            Err(e) => Err(e),
            Ok((group_start, b2)) => match take_u64(b2) {
                Err(e) => Err(e),
                Ok((group_length, b3)) => Ok(SummaryOffsetRecord { group_opcode, group_start, group_length }),
            },
        },
    }
}

/// The end of the data section.
#[derive(Debug, Clone, Copy, PartialEq, Eq)]
pub struct DataEndRecord {
    /// The checksum of the data section; 0 if it was not computed.
    pub data_section_crc: u32,
}

impl View for DataEndRecord {
    type V = DataEndRecord;

    open spec fn view(&self) -> DataEndRecord {
        *self
    }
}

/// Whether the lengths in `v` fit the fields that hold them in the encoding.
pub open spec fn data_end_fits(v: DataEndRecord) -> bool {
    true
}

/// The body of the record that holds `v`.
pub open spec fn data_end_body_bytes(v: DataEndRecord) -> Seq<u8> {
    u32_le(v.data_section_crc)
}

/// The record that holds `v`, as bytes.
pub open spec fn data_end_bytes(v: DataEndRecord) -> Seq<u8> {
    record_bytes(0x0F, data_end_body_bytes(v))
}

/// What the body `b` of a record of this kind holds. Bytes behind the last field are not looked at.
pub open spec fn data_end_body(b: Seq<u8>) -> Result<DataEndRecord, ErrorKind> {
    match take_u32(b) {
        Err(e) => Err(e),
        Ok((data_section_crc, b1)) => Ok(DataEndRecord { data_section_crc }),
    }
}

/// Any record.
#[derive(Debug)]
pub enum Record {
    Header(HeaderRecord),
    Footer(FooterRecord),
    Schema(SchemaRecord),
    Channel(ChannelRecord),
    Message(MessageRecord),
    Chunk(ChunkRecord),
    MessageIndex(MessageIndexRecord),
    ChunkIndex(ChunkIndexRecord),
    Attachment(AttachmentRecord),
    AttachmentIndex(AttachmentIndexRecord),
    Statistics(StatisticsRecord),
    Metadata(MetadataRecord),
    MetadataIndex(MetadataIndexRecord),
    SummaryOffset(SummaryOffsetRecord),
    DataEnd(DataEndRecord),
}

} // verus!
