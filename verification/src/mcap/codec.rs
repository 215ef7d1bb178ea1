//! Records to bytes and bytes to records, field by field.

use crate::endian::{put_u16_le, put_u32_le, put_u64_le, u16_le, u32_le, u64_le};
use crate::error::{ErrorKind, PybagError};
use crate::mcap::records::{
    AttachmentIndexRecord, AttachmentIndexView, AttachmentRecord, AttachmentView,
    ChannelRecord, ChannelView, ChunkIndexRecord, ChunkIndexView, ChunkRecord, ChunkView,
    DataEndRecord, FooterRecord, HeaderRecord, HeaderView, MessageIndexEntry,
    MessageIndexRecord, MessageIndexView, MessageRecord, MessageView, MetadataIndexRecord,
    MetadataIndexView, MetadataRecord, MetadataView, SchemaRecord, SchemaView,
    StatisticsRecord, StatisticsView, SummaryOffsetRecord, attachment_body,
    attachment_body_bytes, attachment_bytes, attachment_fits, attachment_index_body,
    attachment_index_body_bytes, attachment_index_bytes, attachment_index_fits, channel_body,
    channel_body_bytes, channel_bytes, channel_fits, chunk_body, chunk_body_bytes, chunk_bytes,
    chunk_fits, chunk_index_body, chunk_index_body_bytes, chunk_index_bytes, chunk_index_fits,
    data_end_body, data_end_body_bytes, data_end_bytes, data_end_fits, footer_body,
    footer_body_bytes, footer_bytes, footer_fits, header_body, header_body_bytes, header_bytes,
    header_fits, index_pairs, message_body, message_body_bytes, message_bytes, message_fits,
    message_index_body, message_index_body_bytes, message_index_bytes, message_index_fits,
    metadata_body, metadata_body_bytes, metadata_bytes, metadata_fits, metadata_index_body,
    metadata_index_body_bytes, metadata_index_bytes, metadata_index_fits, record_bytes,
    schema_body, schema_body_bytes, schema_bytes, schema_fits, statistics_body,
    statistics_body_bytes, statistics_bytes, statistics_fits, summary_offset_body,
    summary_offset_body_bytes, summary_offset_bytes, summary_offset_fits, take_all,
};
use crate::mcap::wire::{
    bytes32, bytes64, lemma_take_bytes32, lemma_take_bytes64, lemma_take_num_map,
    lemma_take_pair_array, lemma_take_str, lemma_take_str_map, lemma_take_u16, lemma_take_u32,
    lemma_taken_keys_distinct, keys_distinct, take_str, take_u16,
    lemma_take_u64, lemma_take_u8, num_map_bytes, pair_array_bytes, put_bytes32, put_bytes64,
    put_num_map, put_pair_array, put_str, put_str_map, str_bytes, str_map_bytes, str_map_fits,
    BodyCursor,
};
use vstd::prelude::*;

verus! {

broadcast use {vstd::std_specs::hash::group_hash_axioms, crate::endian::group_widths};

/// `r` holds what `expected` says: the value by its view, or the error by
/// its kind.
pub open spec fn parsed_as<T: View>(r: Result<T, PybagError>, expected: Result<T::V, ErrorKind>) -> bool {
    match expected {
        Ok(v) => r is Ok && r->Ok_0@ == v,
        Err(e) => r is Err && r->Err_0@ == e,
    }
}

/// The pairs as index entries.
pub fn entries_from_pairs(pairs: Vec<(u64, u64)>) -> (r: Vec<MessageIndexEntry>)
    ensures
        index_pairs(r@) == pairs@,
{
    let mut out: Vec<MessageIndexEntry> = Vec::new();
    let mut i: usize = 0;
    while i < pairs.len()
        invariant
            i <= pairs.len(),
            out@.len() == i,
            forall|j: int|
                0 <= j < i ==> (#[trigger] out@[j]).log_time == pairs@[j].0 && out@[j].offset
                    == pairs@[j].1,
        decreases pairs.len() - i,
    {
        out.push(MessageIndexEntry { log_time: pairs[i].0, offset: pairs[i].1 });
        i += 1;
    }
    assert(index_pairs(out@) =~= pairs@);
    out
}

/// The index entries as pairs.
pub fn pairs_from_entries(entries: &Vec<MessageIndexEntry>) -> (r: Vec<(u64, u64)>)
    ensures
        r@ == index_pairs(entries@),
{
    let mut out: Vec<(u64, u64)> = Vec::new();
    let mut i: usize = 0;
    while i < entries.len()
        invariant
            i <= entries.len(),
            out@.len() == i,
            forall|j: int|
                0 <= j < i ==> (#[trigger] out@[j]).0 == entries@[j].log_time && out@[j].1
                    == entries@[j].offset,
        decreases entries.len() - i,
    {
        out.push((entries[i].log_time, entries[i].offset));
        i += 1;
    }
    assert(out@ =~= index_pairs(entries@));
    out
}

/// Appends a record: the opcode, the length of `body`, `body`.
pub fn put_record(buf: &mut Vec<u8>, opcode: u8, body: &Vec<u8>)
    ensures
        final(buf)@ == old(buf)@ + record_bytes(opcode, body@),
{
    buf.push(opcode);
    put_u64_le(buf, body.len() as u64);
    buf.extend_from_slice(body.as_slice());
    assert(buf@ =~= old(buf)@ + record_bytes(opcode, body@));
}

/// Reads the body of a record of this kind.
pub fn parse_header_body(body: &[u8]) -> (r: Result<HeaderRecord, PybagError>)
    ensures
        parsed_as(r, header_body(body@)),
{
    let mut c = BodyCursor::new(body);
    let profile = c.take_str()?;
    let library = c.take_str()?;
    Ok(HeaderRecord { profile, library })
}

/// Whether the record can be encoded: whether its lengths fit their fields.
pub fn header_encodable(r: &HeaderRecord) -> (ok: bool)
    ensures
        ok == header_fits(r@),
{
    r.profile.as_str().as_bytes().len() <= 0xffff_ffff
        && r.library.as_str().as_bytes().len() <= 0xffff_ffff
}

/// Appends the record to `buf`.
pub fn encode_header(buf: &mut Vec<u8>, r: &HeaderRecord)
    requires
        header_fits(r@),
    ensures
        final(buf)@ == old(buf)@ + header_bytes(r@),
{
    let mut content: Vec<u8> = Vec::new();
    put_str(&mut content, r.profile.as_str());
    put_str(&mut content, r.library.as_str());
    assert(content@ =~= header_body_bytes(r@));
    put_record(buf, 0x01, &content);
}

/// A body that was encoded from `v` is read as `v`, whatever follows it.
#[verifier::rlimit(50)]
#[verifier::spinoff_prover]
pub proof fn lemma_header_round_trip(v: HeaderView, tail: Seq<u8>)
    requires
        header_fits(v),
    ensures
        header_body(header_body_bytes(v) + tail) == Ok::<HeaderView, ErrorKind>(v),
{
    let r1 = tail;
    let r0 = str_bytes(v.library) + r1;
    assert(header_body_bytes(v) + tail =~= str_bytes(v.profile) + r0);
    lemma_take_str(v.profile, r0);
    lemma_take_str(v.library, r1);
}

/// Reads the body of a record of this kind.
pub fn parse_footer_body(body: &[u8]) -> (r: Result<FooterRecord, PybagError>)
    ensures
        parsed_as(r, footer_body(body@)),
{
    let mut c = BodyCursor::new(body);
    let summary_start = c.take_u64()?;
    let summary_offset_start = c.take_u64()?;
    let summary_crc = c.take_u32()?;
    Ok(FooterRecord { summary_start, summary_offset_start, summary_crc })
}

/// Whether the record can be encoded: whether its lengths fit their fields.
pub fn footer_encodable(r: &FooterRecord) -> (ok: bool)
    ensures
        ok == footer_fits(r@),
{
    true
}

/// Appends the record to `buf`.
pub fn encode_footer(buf: &mut Vec<u8>, r: &FooterRecord)
    requires
        footer_fits(r@),
    ensures
        final(buf)@ == old(buf)@ + footer_bytes(r@),
{
    let mut content: Vec<u8> = Vec::new();
    put_u64_le(&mut content, r.summary_start);
    put_u64_le(&mut content, r.summary_offset_start);
    put_u32_le(&mut content, r.summary_crc);
    assert(content@ =~= footer_body_bytes(r@));
    put_record(buf, 0x02, &content);
}

/// A body that was encoded from `v` is read as `v`, whatever follows it.
#[verifier::rlimit(50)]
#[verifier::spinoff_prover]
pub proof fn lemma_footer_round_trip(v: FooterRecord, tail: Seq<u8>)
    requires
        footer_fits(v),
    ensures
        footer_body(footer_body_bytes(v) + tail) == Ok::<FooterRecord, ErrorKind>(v),
{
    let r2 = tail;
    let r1 = u32_le(v.summary_crc) + r2;
    let r0 = u64_le(v.summary_offset_start) + r1;
    assert(footer_body_bytes(v) + tail =~= u64_le(v.summary_start) + r0);
    lemma_take_u64(v.summary_start, r0);
    lemma_take_u64(v.summary_offset_start, r1);
    lemma_take_u32(v.summary_crc, r2);
}

/// Reads the body of a schema record. A body whose id is 0 holds no schema.
pub fn parse_schema_body(body: &[u8]) -> (r: Result<Option<SchemaRecord>, PybagError>)
    ensures
        match schema_body(body@) {
            Ok(Some(v)) => r is Ok && r->Ok_0 is Some && r->Ok_0->0@ == v,
            Ok(None) => r is Ok && r->Ok_0 is None,
            Err(e) => r is Err && r->Err_0@ == e,
        },
{
    let mut c = BodyCursor::new(body);
    let id = c.take_u16()?;
    if id == 0 {
        return Ok(None);
    }
    let name = c.take_str()?;
    let encoding = c.take_str()?;
    let data = c.take_bytes32()?;
    Ok(Some(SchemaRecord { id, name, encoding, data }))
}

/// Whether the record can be encoded: whether its lengths fit their fields.
pub fn schema_encodable(r: &SchemaRecord) -> (ok: bool)
    ensures
        ok == schema_fits(r@),
{
    r.name.as_str().as_bytes().len() <= 0xffff_ffff
        && r.encoding.as_str().as_bytes().len() <= 0xffff_ffff
        && r.data.len() <= 0xffff_ffff
}

/// Appends the record to `buf`.
pub fn encode_schema(buf: &mut Vec<u8>, r: &SchemaRecord)
    requires
        schema_fits(r@),
    ensures
        final(buf)@ == old(buf)@ + schema_bytes(r@),
{
    let mut content: Vec<u8> = Vec::new();
    put_u16_le(&mut content, r.id);
    put_str(&mut content, r.name.as_str());
    put_str(&mut content, r.encoding.as_str());
    put_bytes32(&mut content, r.data.as_slice());
    assert(content@ =~= schema_body_bytes(r@));
    put_record(buf, 0x03, &content);
}

/// A body that was encoded from `v` is read as `v`, whatever follows it.
#[verifier::rlimit(50)]
#[verifier::spinoff_prover]
pub proof fn lemma_schema_round_trip(v: SchemaView, tail: Seq<u8>)
    requires
        schema_fits(v),
        v.id != 0,
    ensures
        schema_body(schema_body_bytes(v) + tail) == Ok::<Option<SchemaView>, ErrorKind>(Some(v)),
{
    let r3 = tail;
    let r2 = bytes32(v.data) + r3;
    let r1 = str_bytes(v.encoding) + r2;
    let r0 = str_bytes(v.name) + r1;
    assert(schema_body_bytes(v) + tail =~= u16_le(v.id) + r0);
    lemma_take_u16(v.id, r0);
    lemma_take_str(v.name, r1);
    lemma_take_str(v.encoding, r2);
    lemma_take_bytes32(v.data, r3);
}

/// Reads the body of a record of this kind.
pub fn parse_channel_body(body: &[u8]) -> (r: Result<ChannelRecord, PybagError>)
    ensures
        parsed_as(r, channel_body(body@)),
{
    let mut c = BodyCursor::new(body);
    let id = c.take_u16()?;
    let schema_id = c.take_u16()?;
    let topic = c.take_str()?;
    let message_encoding = c.take_str()?;
    let metadata = c.take_str_map()?;
    Ok(ChannelRecord { id, schema_id, topic, message_encoding, metadata })
}

/// Whether the record can be encoded: whether its lengths fit their fields.
pub fn channel_encodable(r: &ChannelRecord) -> (ok: bool)
    ensures
        ok == channel_fits(r@),
{
    r.topic.as_str().as_bytes().len() <= 0xffff_ffff
        && r.message_encoding.as_str().as_bytes().len() <= 0xffff_ffff
        && str_map_fits(&r.metadata)
}

/// Appends the record to `buf`.
pub fn encode_channel(buf: &mut Vec<u8>, r: &ChannelRecord)
    requires
        channel_fits(r@),
    ensures
        final(buf)@ == old(buf)@ + channel_bytes(r@),
{
    let mut content: Vec<u8> = Vec::new();
    put_u16_le(&mut content, r.id);
    put_u16_le(&mut content, r.schema_id);
    put_str(&mut content, r.topic.as_str());
    put_str(&mut content, r.message_encoding.as_str());
    put_str_map(&mut content, &r.metadata);
    assert(content@ =~= channel_body_bytes(r@));
    put_record(buf, 0x04, &content);
}

/// A body that was encoded from `v` is read as `v`, whatever follows it.
#[verifier::rlimit(50)]
#[verifier::spinoff_prover]
pub proof fn lemma_channel_round_trip(v: ChannelView, tail: Seq<u8>)
    requires
        channel_fits(v),
    ensures
        channel_body(channel_body_bytes(v) + tail) == Ok::<ChannelView, ErrorKind>(v),
{
    let r4 = tail;
    let r3 = str_map_bytes(v.metadata) + r4;
    let r2 = str_bytes(v.message_encoding) + r3;
    let r1 = str_bytes(v.topic) + r2;
    let r0 = u16_le(v.schema_id) + r1;
    assert(channel_body_bytes(v) + tail =~= u16_le(v.id) + r0);
    lemma_take_u16(v.id, r0);
    lemma_take_u16(v.schema_id, r1);
    lemma_take_str(v.topic, r2);
    lemma_take_str(v.message_encoding, r3);
    lemma_take_str_map(v.metadata, r4);
}

/// No key occurs twice in the metadata of a channel that was read.
pub proof fn lemma_channel_keys_distinct(body: Seq<u8>)
    ensures
        match channel_body(body) {
            Ok(v) => keys_distinct(v.metadata),
            Err(_) => true,
        },
{
    match take_u16(body) {
        Err(_) => {},
        Ok((_, b1)) => match take_u16(b1) {
            Err(_) => {},
            Ok((_, b2)) => match take_str(b2) {
                Err(_) => {},
                Ok((_, b3)) => match take_str(b3) {
                    Err(_) => {},
                    Ok((_, b4)) => {
                        lemma_taken_keys_distinct(b4);
                    },
                },
            },
        },
    }
}

/// Reads the body of a record of this kind.
pub fn parse_message_body(body: &[u8]) -> (r: Result<MessageRecord, PybagError>)
    ensures
        parsed_as(r, message_body(body@)),
{
    let mut c = BodyCursor::new(body);
    let channel_id = c.take_u16()?;
    let sequence = c.take_u32()?;
    let log_time = c.take_u64()?;
    let publish_time = c.take_u64()?;
    let data = c.take_rest();
    Ok(MessageRecord { channel_id, sequence, log_time, publish_time, data })
}

/// Whether the record can be encoded: whether its lengths fit their fields.
pub fn message_encodable(r: &MessageRecord) -> (ok: bool)
    ensures
        ok == message_fits(r@),
{
    true
}

/// Appends the record to `buf`.
pub fn encode_message(buf: &mut Vec<u8>, r: &MessageRecord)
    requires
        message_fits(r@),
    ensures
        final(buf)@ == old(buf)@ + message_bytes(r@),
{
    let mut content: Vec<u8> = Vec::new();
    put_u16_le(&mut content, r.channel_id);
    put_u32_le(&mut content, r.sequence);
    put_u64_le(&mut content, r.log_time);
    put_u64_le(&mut content, r.publish_time);
    content.extend_from_slice(r.data.as_slice());
    assert(content@ =~= message_body_bytes(r@));
    put_record(buf, 0x05, &content);
}

/// A body that was encoded from `v` is read as `v`.
#[verifier::rlimit(50)]
#[verifier::spinoff_prover]
pub proof fn lemma_message_round_trip(v: MessageView)
    requires
        message_fits(v),
    ensures
        message_body(message_body_bytes(v)) == Ok::<MessageView, ErrorKind>(v),
{
    let tail = Seq::<u8>::empty();
    assert(v.data + tail =~= v.data);
    assert(message_body_bytes(v) + tail =~= message_body_bytes(v));
    let r4 = tail;
    let r3 = v.data + r4;
    let r2 = u64_le(v.publish_time) + r3;
    let r1 = u64_le(v.log_time) + r2;
    let r0 = u32_le(v.sequence) + r1;
    assert(message_body_bytes(v) + tail =~= u16_le(v.channel_id) + r0);
    lemma_take_u16(v.channel_id, r0);
    lemma_take_u32(v.sequence, r1);
    lemma_take_u64(v.log_time, r2);
    lemma_take_u64(v.publish_time, r3);
}

/// Reads the body of a record of this kind.
pub fn parse_chunk_body(body: &[u8]) -> (r: Result<ChunkRecord, PybagError>)
    ensures
        parsed_as(r, chunk_body(body@)),
{
    let mut c = BodyCursor::new(body);
    let message_start_time = c.take_u64()?;
    let message_end_time = c.take_u64()?;
    let uncompressed_size = c.take_u64()?;
    let uncompressed_crc = c.take_u32()?;
    let compression = c.take_str()?;
    let records = c.take_bytes64()?;
    Ok(ChunkRecord { message_start_time, message_end_time, uncompressed_size, uncompressed_crc, compression, records })
}

/// Whether the record can be encoded: whether its lengths fit their fields.
pub fn chunk_encodable(r: &ChunkRecord) -> (ok: bool)
    ensures
        ok == chunk_fits(r@),
{
    proof {
        vstd::std_specs::vec::axiom_spec_len(&r.records);
    }
    r.compression.as_str().as_bytes().len() <= 0xffff_ffff
}

/// Appends the record to `buf`.
pub fn encode_chunk(buf: &mut Vec<u8>, r: &ChunkRecord)
    requires
        chunk_fits(r@),
    ensures
        final(buf)@ == old(buf)@ + chunk_bytes(r@),
{
    let mut content: Vec<u8> = Vec::new();
    put_u64_le(&mut content, r.message_start_time);
    put_u64_le(&mut content, r.message_end_time);
    put_u64_le(&mut content, r.uncompressed_size);
    put_u32_le(&mut content, r.uncompressed_crc);
    put_str(&mut content, r.compression.as_str());
    put_bytes64(&mut content, r.records.as_slice());
    assert(content@ =~= chunk_body_bytes(r@));
    put_record(buf, 0x06, &content);
}

/// A body that was encoded from `v` is read as `v`, whatever follows it.
#[verifier::rlimit(50)]
#[verifier::spinoff_prover]
pub proof fn lemma_chunk_round_trip(v: ChunkView, tail: Seq<u8>)
    requires
        chunk_fits(v),
    ensures
        chunk_body(chunk_body_bytes(v) + tail) == Ok::<ChunkView, ErrorKind>(v),
{
    let r5 = tail;
    let r4 = bytes64(v.records) + r5;
    let r3 = str_bytes(v.compression) + r4;
    let r2 = u32_le(v.uncompressed_crc) + r3;
    let r1 = u64_le(v.uncompressed_size) + r2;
    let r0 = u64_le(v.message_end_time) + r1;
    assert(chunk_body_bytes(v) + tail =~= u64_le(v.message_start_time) + r0);
    lemma_take_u64(v.message_start_time, r0);
    lemma_take_u64(v.message_end_time, r1);
    lemma_take_u64(v.uncompressed_size, r2);
    lemma_take_u32(v.uncompressed_crc, r3);
    lemma_take_str(v.compression, r4);
    lemma_take_bytes64(v.records, r5);
}

/// Reads the body of a record of this kind.
pub fn parse_message_index_body(body: &[u8]) -> (r: Result<MessageIndexRecord, PybagError>)
    ensures
        parsed_as(r, message_index_body(body@)),
{
    let mut c = BodyCursor::new(body);
    let channel_id = c.take_u16()?;
    let records = entries_from_pairs(c.take_pair_array()?);
    Ok(MessageIndexRecord { channel_id, records })
}

/// Whether the record can be encoded: whether its lengths fit their fields.
pub fn message_index_encodable(r: &MessageIndexRecord) -> (ok: bool)
    ensures
        ok == message_index_fits(r@),
{
    r.records.len() <= 0x0fff_ffff
}

/// Appends the record to `buf`.
pub fn encode_message_index(buf: &mut Vec<u8>, r: &MessageIndexRecord)
    requires
        message_index_fits(r@),
    ensures
        final(buf)@ == old(buf)@ + message_index_bytes(r@),
{
    let mut content: Vec<u8> = Vec::new();
    put_u16_le(&mut content, r.channel_id);
    put_pair_array(&mut content, &pairs_from_entries(&r.records));
    assert(content@ =~= message_index_body_bytes(r@));
    put_record(buf, 0x07, &content);
}

/// A body that was encoded from `v` is read as `v`, whatever follows it.
#[verifier::rlimit(50)]
#[verifier::spinoff_prover]
pub proof fn lemma_message_index_round_trip(v: MessageIndexView, tail: Seq<u8>)
    requires
        message_index_fits(v),
    ensures
        message_index_body(message_index_body_bytes(v) + tail) == Ok::<MessageIndexView, ErrorKind>(v),
{
    let r1 = tail;
    let r0 = pair_array_bytes(v.records) + r1;
    assert(message_index_body_bytes(v) + tail =~= u16_le(v.channel_id) + r0);
    lemma_take_u16(v.channel_id, r0);
    lemma_take_pair_array(v.records, r1);
}

/// Reads the body of a record of this kind.
pub fn parse_chunk_index_body(body: &[u8]) -> (r: Result<ChunkIndexRecord, PybagError>)
    ensures
        parsed_as(r, chunk_index_body(body@)),
{
    let mut c = BodyCursor::new(body);
    let message_start_time = c.take_u64()?;
    let message_end_time = c.take_u64()?;
    let chunk_start_offset = c.take_u64()?;
    let chunk_length = c.take_u64()?;
    let message_index_offsets = c.take_num_map()?;
    let message_index_length = c.take_u64()?;
    let compression = c.take_str()?;
    let compressed_size = c.take_u64()?;
    let uncompressed_size = c.take_u64()?;
    Ok(ChunkIndexRecord { message_start_time, message_end_time, chunk_start_offset, chunk_length, message_index_offsets, message_index_length, compression, compressed_size, uncompressed_size })
}

/// Whether the record can be encoded: whether its lengths fit their fields.
pub fn chunk_index_encodable(r: &ChunkIndexRecord) -> (ok: bool)
    ensures
        ok == chunk_index_fits(r@),
{
    r.compression.as_str().as_bytes().len() <= 0xffff_ffff
}

/// Appends the record to `buf`.
pub fn encode_chunk_index(buf: &mut Vec<u8>, r: &ChunkIndexRecord)
    requires
        chunk_index_fits(r@),
    ensures
        final(buf)@ == old(buf)@ + chunk_index_bytes(r@),
{
    let mut content: Vec<u8> = Vec::new();
    put_u64_le(&mut content, r.message_start_time);
    put_u64_le(&mut content, r.message_end_time);
    put_u64_le(&mut content, r.chunk_start_offset);
    put_u64_le(&mut content, r.chunk_length);
    put_num_map(&mut content, &r.message_index_offsets);
    put_u64_le(&mut content, r.message_index_length);
    put_str(&mut content, r.compression.as_str());
    put_u64_le(&mut content, r.compressed_size);
    put_u64_le(&mut content, r.uncompressed_size);
    assert(content@ =~= chunk_index_body_bytes(r@));
    put_record(buf, 0x08, &content);
}

/// A body that was encoded from `v` is read as `v`, whatever follows it.
#[verifier::rlimit(50)]
#[verifier::spinoff_prover]
pub proof fn lemma_chunk_index_round_trip(v: ChunkIndexView, tail: Seq<u8>)
    requires
        chunk_index_fits(v),
    ensures
        chunk_index_body(chunk_index_body_bytes(v) + tail) == Ok::<ChunkIndexView, ErrorKind>(v),
{
    let r8 = tail;
    let r7 = u64_le(v.uncompressed_size) + r8;
    let r6 = u64_le(v.compressed_size) + r7;
    let r5 = str_bytes(v.compression) + r6;
    let r4 = u64_le(v.message_index_length) + r5;
    let r3 = num_map_bytes(v.message_index_offsets) + r4;
    let r2 = u64_le(v.chunk_length) + r3;
    let r1 = u64_le(v.chunk_start_offset) + r2;
    let r0 = u64_le(v.message_end_time) + r1;
    assert(chunk_index_body_bytes(v) + tail =~= u64_le(v.message_start_time) + r0);
    lemma_take_u64(v.message_start_time, r0);
    lemma_take_u64(v.message_end_time, r1);
    lemma_take_u64(v.chunk_start_offset, r2);
    lemma_take_u64(v.chunk_length, r3);
    lemma_take_num_map(v.message_index_offsets, r4);
    lemma_take_u64(v.message_index_length, r5);
    lemma_take_str(v.compression, r6);
    lemma_take_u64(v.compressed_size, r7);
    lemma_take_u64(v.uncompressed_size, r8);
}

/// Reads the body of a record of this kind.
pub fn parse_attachment_body(body: &[u8]) -> (r: Result<AttachmentRecord, PybagError>)
    ensures
        parsed_as(r, attachment_body(body@)),
{
    let mut c = BodyCursor::new(body);
    let log_time = c.take_u64()?;
    let create_time = c.take_u64()?;
    let name = c.take_str()?;
    let media_type = c.take_str()?;
    let data = c.take_bytes64()?;
    let crc = c.take_u32()?;
    Ok(AttachmentRecord { log_time, create_time, name, media_type, data, crc })
}

/// Whether the record can be encoded: whether its lengths fit their fields.
pub fn attachment_encodable(r: &AttachmentRecord) -> (ok: bool)
    ensures
        ok == attachment_fits(r@),
{
    proof {
        vstd::std_specs::vec::axiom_spec_len(&r.data);
    }
    r.name.as_str().as_bytes().len() <= 0xffff_ffff
        && r.media_type.as_str().as_bytes().len() <= 0xffff_ffff
}

/// Appends the record to `buf`.
pub fn encode_attachment(buf: &mut Vec<u8>, r: &AttachmentRecord)
    requires
        attachment_fits(r@),
    ensures
        final(buf)@ == old(buf)@ + attachment_bytes(r@),
{
    let mut content: Vec<u8> = Vec::new();
    put_u64_le(&mut content, r.log_time);
    put_u64_le(&mut content, r.create_time);
    put_str(&mut content, r.name.as_str());
    put_str(&mut content, r.media_type.as_str());
    put_bytes64(&mut content, r.data.as_slice());
    put_u32_le(&mut content, r.crc);
    assert(content@ =~= attachment_body_bytes(r@));
    put_record(buf, 0x09, &content);
}

/// A body that was encoded from `v` is read as `v`, whatever follows it.
#[verifier::rlimit(50)]
#[verifier::spinoff_prover]
pub proof fn lemma_attachment_round_trip(v: AttachmentView, tail: Seq<u8>)
    requires
        attachment_fits(v),
    ensures
        attachment_body(attachment_body_bytes(v) + tail) == Ok::<AttachmentView, ErrorKind>(v),
{
    let r5 = tail;
    let r4 = u32_le(v.crc) + r5;
    let r3 = bytes64(v.data) + r4;
    let r2 = str_bytes(v.media_type) + r3;
    let r1 = str_bytes(v.name) + r2;
    let r0 = u64_le(v.create_time) + r1;
    assert(attachment_body_bytes(v) + tail =~= u64_le(v.log_time) + r0);
    lemma_take_u64(v.log_time, r0);
    lemma_take_u64(v.create_time, r1);
    lemma_take_str(v.name, r2);
    lemma_take_str(v.media_type, r3);
    lemma_take_bytes64(v.data, r4);
    lemma_take_u32(v.crc, r5);
}

/// Reads the body of a record of this kind.
pub fn parse_attachment_index_body(body: &[u8]) -> (r: Result<AttachmentIndexRecord, PybagError>)
    ensures
        parsed_as(r, attachment_index_body(body@)),
{
    let mut c = BodyCursor::new(body);
    let offset = c.take_u64()?;
    let length = c.take_u64()?;
    let log_time = c.take_u64()?;
    let create_time = c.take_u64()?;
    let data_size = c.take_u64()?;
    let name = c.take_str()?;
    let media_type = c.take_str()?;
    Ok(AttachmentIndexRecord { offset, length, log_time, create_time, data_size, name, media_type })
}

/// Whether the record can be encoded: whether its lengths fit their fields.
pub fn attachment_index_encodable(r: &AttachmentIndexRecord) -> (ok: bool)
    ensures
        ok == attachment_index_fits(r@),
{
    r.name.as_str().as_bytes().len() <= 0xffff_ffff
        && r.media_type.as_str().as_bytes().len() <= 0xffff_ffff
}

/// Appends the record to `buf`.
pub fn encode_attachment_index(buf: &mut Vec<u8>, r: &AttachmentIndexRecord)
    requires
        attachment_index_fits(r@),
    ensures
        final(buf)@ == old(buf)@ + attachment_index_bytes(r@),
{
    let mut content: Vec<u8> = Vec::new();
    put_u64_le(&mut content, r.offset);
    put_u64_le(&mut content, r.length);
    put_u64_le(&mut content, r.log_time);
    put_u64_le(&mut content, r.create_time);
    put_u64_le(&mut content, r.data_size);
    put_str(&mut content, r.name.as_str());
    put_str(&mut content, r.media_type.as_str());
    assert(content@ =~= attachment_index_body_bytes(r@));
    put_record(buf, 0x0A, &content);
}

/// A body that was encoded from `v` is read as `v`, whatever follows it.
#[verifier::rlimit(50)]
#[verifier::spinoff_prover]
pub proof fn lemma_attachment_index_round_trip(v: AttachmentIndexView, tail: Seq<u8>)
    requires
        attachment_index_fits(v),
    ensures
        attachment_index_body(attachment_index_body_bytes(v) + tail) == Ok::<AttachmentIndexView, ErrorKind>(v),
{
    let r6 = tail;
    let r5 = str_bytes(v.media_type) + r6;
    let r4 = str_bytes(v.name) + r5;
    let r3 = u64_le(v.data_size) + r4;
    let r2 = u64_le(v.create_time) + r3;
    let r1 = u64_le(v.log_time) + r2;
    let r0 = u64_le(v.length) + r1;
    assert(attachment_index_body_bytes(v) + tail =~= u64_le(v.offset) + r0);
    lemma_take_u64(v.offset, r0);
    lemma_take_u64(v.length, r1);
    lemma_take_u64(v.log_time, r2);
    lemma_take_u64(v.create_time, r3);
    lemma_take_u64(v.data_size, r4);
    lemma_take_str(v.name, r5);
    lemma_take_str(v.media_type, r6);
}

/// Reads the body of a record of this kind.
pub fn parse_statistics_body(body: &[u8]) -> (r: Result<StatisticsRecord, PybagError>)
    ensures
        parsed_as(r, statistics_body(body@)),
{
    let mut c = BodyCursor::new(body);
    let message_count = c.take_u64()?;
    let schema_count = c.take_u16()?;
    let channel_count = c.take_u32()?;
    let attachment_count = c.take_u32()?;
    let metadata_count = c.take_u32()?;
    let chunk_count = c.take_u32()?;
    let message_start_time = c.take_u64()?;
    let message_end_time = c.take_u64()?;
    let channel_message_counts = c.take_num_map()?;
    Ok(StatisticsRecord { message_count, schema_count, channel_count, attachment_count, metadata_count, chunk_count, message_start_time, message_end_time, channel_message_counts })
}

/// Whether the record can be encoded: whether its lengths fit their fields.
pub fn statistics_encodable(r: &StatisticsRecord) -> (ok: bool)
    ensures
        ok == statistics_fits(r@),
{
    true
}

/// Appends the record to `buf`.
pub fn encode_statistics(buf: &mut Vec<u8>, r: &StatisticsRecord)
    requires
        statistics_fits(r@),
    ensures
        final(buf)@ == old(buf)@ + statistics_bytes(r@),
{
    let mut content: Vec<u8> = Vec::new();
    put_u64_le(&mut content, r.message_count);
    put_u16_le(&mut content, r.schema_count);
    put_u32_le(&mut content, r.channel_count);
    put_u32_le(&mut content, r.attachment_count);
    put_u32_le(&mut content, r.metadata_count);
    put_u32_le(&mut content, r.chunk_count);
    put_u64_le(&mut content, r.message_start_time);
    put_u64_le(&mut content, r.message_end_time);
    put_num_map(&mut content, &r.channel_message_counts);
    assert(content@ =~= statistics_body_bytes(r@));
    put_record(buf, 0x0B, &content);
}

/// A body that was encoded from `v` is read as `v`, whatever follows it.
#[verifier::rlimit(50)]
#[verifier::spinoff_prover]
pub proof fn lemma_statistics_round_trip(v: StatisticsView, tail: Seq<u8>)
    requires
        statistics_fits(v),
    ensures
        statistics_body(statistics_body_bytes(v) + tail) == Ok::<StatisticsView, ErrorKind>(v),
{
    let r8 = tail;
    let r7 = num_map_bytes(v.channel_message_counts) + r8;
    let r6 = u64_le(v.message_end_time) + r7;
    let r5 = u64_le(v.message_start_time) + r6;
    let r4 = u32_le(v.chunk_count) + r5;
    let r3 = u32_le(v.metadata_count) + r4;
    let r2 = u32_le(v.attachment_count) + r3;
    let r1 = u32_le(v.channel_count) + r2;
    let r0 = u16_le(v.schema_count) + r1;
    assert(statistics_body_bytes(v) + tail =~= u64_le(v.message_count) + r0);
    lemma_take_u64(v.message_count, r0);
    lemma_take_u16(v.schema_count, r1);
    lemma_take_u32(v.channel_count, r2);
    lemma_take_u32(v.attachment_count, r3);
    lemma_take_u32(v.metadata_count, r4);
    lemma_take_u32(v.chunk_count, r5);
    lemma_take_u64(v.message_start_time, r6);
    lemma_take_u64(v.message_end_time, r7);
    lemma_take_num_map(v.channel_message_counts, r8);
}

/// Reads the body of a record of this kind.
pub fn parse_metadata_body(body: &[u8]) -> (r: Result<MetadataRecord, PybagError>)
    ensures
        parsed_as(r, metadata_body(body@)),
{
    let mut c = BodyCursor::new(body);
    let name = c.take_str()?;
    let metadata = c.take_str_map()?;
    Ok(MetadataRecord { name, metadata })
}

/// Whether the record can be encoded: whether its lengths fit their fields.
pub fn metadata_encodable(r: &MetadataRecord) -> (ok: bool)
    ensures
        ok == metadata_fits(r@),
{
    r.name.as_str().as_bytes().len() <= 0xffff_ffff
        && str_map_fits(&r.metadata)
}

/// Appends the record to `buf`.
pub fn encode_metadata(buf: &mut Vec<u8>, r: &MetadataRecord)
    requires
        metadata_fits(r@),
    ensures
        final(buf)@ == old(buf)@ + metadata_bytes(r@),
{
    let mut content: Vec<u8> = Vec::new();
    put_str(&mut content, r.name.as_str());
    put_str_map(&mut content, &r.metadata);
    assert(content@ =~= metadata_body_bytes(r@));
    put_record(buf, 0x0C, &content);
}

/// A body that was encoded from `v` is read as `v`, whatever follows it.
#[verifier::rlimit(50)]
#[verifier::spinoff_prover]
pub proof fn lemma_metadata_round_trip(v: MetadataView, tail: Seq<u8>)
    requires
        metadata_fits(v),
    ensures
        metadata_body(metadata_body_bytes(v) + tail) == Ok::<MetadataView, ErrorKind>(v),
{
    let r1 = tail;
    let r0 = str_map_bytes(v.metadata) + r1;
    assert(metadata_body_bytes(v) + tail =~= str_bytes(v.name) + r0);
    lemma_take_str(v.name, r0);
    lemma_take_str_map(v.metadata, r1);
}

/// No key occurs twice in the metadata of a metadata record that was read.
pub proof fn lemma_metadata_keys_distinct(body: Seq<u8>)
    ensures
        match metadata_body(body) {
            Ok(v) => keys_distinct(v.metadata),
            Err(_) => true,
        },
{
    match take_str(body) {
        Err(_) => {},
        Ok((_, b1)) => {
            lemma_taken_keys_distinct(b1);
        },
    }
}

/// Reads the body of a record of this kind.
pub fn parse_metadata_index_body(body: &[u8]) -> (r: Result<MetadataIndexRecord, PybagError>)
    ensures
        parsed_as(r, metadata_index_body(body@)),
{
    let mut c = BodyCursor::new(body);
    let offset = c.take_u64()?;
    let length = c.take_u64()?;
    let name = c.take_str()?;
    Ok(MetadataIndexRecord { offset, length, name })
}

/// Whether the record can be encoded: whether its lengths fit their fields.
pub fn metadata_index_encodable(r: &MetadataIndexRecord) -> (ok: bool)
    ensures
        ok == metadata_index_fits(r@),
{
    r.name.as_str().as_bytes().len() <= 0xffff_ffff
}

/// Appends the record to `buf`.
pub fn encode_metadata_index(buf: &mut Vec<u8>, r: &MetadataIndexRecord)
    requires
        metadata_index_fits(r@),
    ensures
        final(buf)@ == old(buf)@ + metadata_index_bytes(r@),
{
    let mut content: Vec<u8> = Vec::new();
    put_u64_le(&mut content, r.offset);
    put_u64_le(&mut content, r.length);
    put_str(&mut content, r.name.as_str());
    assert(content@ =~= metadata_index_body_bytes(r@));
    put_record(buf, 0x0D, &content);
}

/// A body that was encoded from `v` is read as `v`, whatever follows it.
#[verifier::rlimit(50)]
#[verifier::spinoff_prover]
pub proof fn lemma_metadata_index_round_trip(v: MetadataIndexView, tail: Seq<u8>)
    requires
        metadata_index_fits(v),
    ensures
        metadata_index_body(metadata_index_body_bytes(v) + tail) == Ok::<MetadataIndexView, ErrorKind>(v),
{
    let r2 = tail;
    let r1 = str_bytes(v.name) + r2;
    let r0 = u64_le(v.length) + r1;
    assert(metadata_index_body_bytes(v) + tail =~= u64_le(v.offset) + r0);
    lemma_take_u64(v.offset, r0);
    lemma_take_u64(v.length, r1);
    lemma_take_str(v.name, r2);
}

/// Reads the body of a record of this kind.
pub fn parse_summary_offset_body(body: &[u8]) -> (r: Result<SummaryOffsetRecord, PybagError>)
    ensures
        parsed_as(r, summary_offset_body(body@)),
{
    let mut c = BodyCursor::new(body);
    let group_opcode = c.take_u8()?;
    let group_start = c.take_u64()?;
    let group_length = c.take_u64()?;
    Ok(SummaryOffsetRecord { group_opcode, group_start, group_length })
}

/// Whether the record can be encoded: whether its lengths fit their fields.
pub fn summary_offset_encodable(r: &SummaryOffsetRecord) -> (ok: bool)
    ensures
        ok == summary_offset_fits(r@),
{
    true
}

/// Appends the record to `buf`.
pub fn encode_summary_offset(buf: &mut Vec<u8>, r: &SummaryOffsetRecord)
    requires
        summary_offset_fits(r@),
    ensures
        final(buf)@ == old(buf)@ + summary_offset_bytes(r@),
{
    let mut content: Vec<u8> = Vec::new();
    content.push(r.group_opcode);
    put_u64_le(&mut content, r.group_start);
    put_u64_le(&mut content, r.group_length);
    assert(content@ =~= summary_offset_body_bytes(r@));
    put_record(buf, 0x0E, &content);
}

/// A body that was encoded from `v` is read as `v`, whatever follows it.
#[verifier::rlimit(50)]
#[verifier::spinoff_prover]
pub proof fn lemma_summary_offset_round_trip(v: SummaryOffsetRecord, tail: Seq<u8>)
    requires
        summary_offset_fits(v),
    ensures
        summary_offset_body(summary_offset_body_bytes(v) + tail) == Ok::<SummaryOffsetRecord, ErrorKind>(v),
{
    let r2 = tail;
    let r1 = u64_le(v.group_length) + r2;
    let r0 = u64_le(v.group_start) + r1;
    assert(summary_offset_body_bytes(v) + tail =~= seq![v.group_opcode] + r0);
    lemma_take_u8(v.group_opcode, r0);
    lemma_take_u64(v.group_start, r1);
    lemma_take_u64(v.group_length, r2);
}

/// Reads the body of a record of this kind.
pub fn parse_data_end_body(body: &[u8]) -> (r: Result<DataEndRecord, PybagError>)
    ensures
        parsed_as(r, data_end_body(body@)),
{
    let mut c = BodyCursor::new(body);
    let data_section_crc = c.take_u32()?;
    Ok(DataEndRecord { data_section_crc })
}

/// Whether the record can be encoded: whether its lengths fit their fields.
pub fn data_end_encodable(r: &DataEndRecord) -> (ok: bool)
    ensures
        ok == data_end_fits(r@),
{
    true
}

/// Appends the record to `buf`.
pub fn encode_data_end(buf: &mut Vec<u8>, r: &DataEndRecord)
    requires
        data_end_fits(r@),
    ensures
        final(buf)@ == old(buf)@ + data_end_bytes(r@),
{
    let mut content: Vec<u8> = Vec::new();
    put_u32_le(&mut content, r.data_section_crc);
    assert(content@ =~= data_end_body_bytes(r@));
    put_record(buf, 0x0F, &content);
}

/// A body that was encoded from `v` is read as `v`, whatever follows it.
#[verifier::rlimit(50)]
#[verifier::spinoff_prover]
pub proof fn lemma_data_end_round_trip(v: DataEndRecord, tail: Seq<u8>)
    requires
        data_end_fits(v),
    ensures
        data_end_body(data_end_body_bytes(v) + tail) == Ok::<DataEndRecord, ErrorKind>(v),
{
    let r0 = tail;
    assert(data_end_body_bytes(v) + tail =~= u32_le(v.data_section_crc) + r0);
    lemma_take_u32(v.data_section_crc, r0);
}

} // verus!
