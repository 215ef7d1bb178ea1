//! Records read from a reader: the frame of opcode and length, then the
//! body.

use crate::endian::{le_u64, lemma_le_round_trip_u64, read_u64_le, u64_le};
use crate::error::{ErrorKind, PybagError};
use crate::io::reader::{clamp_cursor, Reader};
use crate::mcap::codec::{
    parsed_as,
    lemma_attachment_index_round_trip, lemma_attachment_round_trip, lemma_channel_round_trip,
    lemma_chunk_index_round_trip, lemma_chunk_round_trip, lemma_data_end_round_trip,
    lemma_footer_round_trip, lemma_header_round_trip, lemma_message_index_round_trip,
    lemma_message_round_trip, lemma_metadata_index_round_trip, lemma_metadata_round_trip,
    lemma_schema_round_trip, lemma_statistics_round_trip, lemma_summary_offset_round_trip,
    parse_attachment_body, parse_attachment_index_body, parse_channel_body, parse_chunk_body,
    parse_chunk_index_body, parse_data_end_body, parse_footer_body, parse_header_body,
    parse_message_body, parse_message_index_body, parse_metadata_body,
    parse_metadata_index_body, parse_schema_body, parse_statistics_body,
    parse_summary_offset_body,
};
use crate::mcap::records::{
    AttachmentIndexRecord, AttachmentIndexView, AttachmentRecord, AttachmentView,
    ChannelRecord, ChannelView, ChunkIndexRecord, ChunkIndexView, ChunkRecord, ChunkView,
    DataEndRecord, FooterRecord, HeaderRecord, HeaderView, MessageIndexRecord,
    MessageIndexView, MessageRecord, MessageView, MetadataIndexRecord, MetadataIndexView,
    MetadataRecord, MetadataView, SchemaRecord, SchemaView, StatisticsRecord, StatisticsView,
    SummaryOffsetRecord, attachment_body, attachment_body_bytes, attachment_bytes,
    attachment_fits, attachment_index_body, attachment_index_body_bytes,
    attachment_index_bytes, attachment_index_fits, channel_body, channel_body_bytes,
    channel_bytes, channel_fits, chunk_body, chunk_body_bytes, chunk_bytes, chunk_fits,
    chunk_index_body, chunk_index_body_bytes, chunk_index_bytes, chunk_index_fits,
    data_end_body, data_end_body_bytes, data_end_bytes, data_end_fits, footer_body,
    footer_body_bytes, footer_bytes, footer_fits, header_body, header_body_bytes, header_bytes,
    header_fits, message_body, message_body_bytes, message_bytes, message_fits,
    message_index_body, message_index_body_bytes, message_index_bytes, message_index_fits,
    metadata_body, metadata_body_bytes, metadata_bytes, metadata_fits, metadata_index_body,
    metadata_index_body_bytes, metadata_index_bytes, metadata_index_fits, record_bytes,
    schema_body, schema_body_bytes, schema_bytes, schema_fits, statistics_body,
    statistics_body_bytes, statistics_bytes, statistics_fits, summary_offset_body,
    summary_offset_body_bytes, summary_offset_bytes, summary_offset_fits,
};
use vstd::prelude::*;

verus! {

broadcast use crate::endian::group_widths;

/// The 8 bytes that a file starts and ends with. The sixth is the version.
pub open spec fn magic() -> Seq<u8> {
    seq![0x89u8, 0x4Du8, 0x43u8, 0x41u8, 0x50u8, 0x30u8, 0x0Du8, 0x0Au8]
}

/// Whether the 8 bytes at `pos` are a magic of any version.
pub open spec fn is_magic_at(data: Seq<u8>, pos: int) -> bool {
    &&& 0 <= pos
    &&& pos + 8 <= data.len()
    &&& data[pos] == 0x89
    &&& data[pos + 1] == 0x4D
    &&& data[pos + 2] == 0x43
    &&& data[pos + 3] == 0x41
    &&& data[pos + 4] == 0x50
    &&& data[pos + 6] == 0x0D
    &&& data[pos + 7] == 0x0A
}

/// What reading a magic at `pos` yields: the version character, or the
/// error of a magic that is missing or wrong.
pub open spec fn magic_at(data: Seq<u8>, pos: int) -> Result<char, ErrorKind> {
    if pos + 8 > data.len() {
        Err(ErrorKind::InvalidMagicBytes)
    } else if !is_magic_at(data, pos) {
        Err(ErrorKind::InvalidMagicBytes)
    } else {
        Ok(data[pos + 5] as char)
    }
}

/// The magic of this version.
pub fn magic_bytes() -> (r: Vec<u8>)
    ensures
        r@ == magic(),
{
    let mut out: Vec<u8> = Vec::new();
    out.push(0x89);
    out.push(0x4D);
    out.push(0x43);
    out.push(0x41);
    out.push(0x50);
    out.push(0x30);
    out.push(0x0D);
    out.push(0x0A);
    assert(out@ =~= magic());
    out
}

/// The body of the record at `pos`, which must have the opcode `expected`.
pub open spec fn frame_at(data: Seq<u8>, pos: int, expected: u8) -> Result<Seq<u8>, ErrorKind> {
    if pos + 1 > data.len() {
        Err(ErrorKind::BufferTooSmall { needed: 1, available: (data.len() - pos) as usize })
    } else if data[pos] != expected {
        Err(ErrorKind::UnexpectedRecordType { expected, got: data[pos] })
    } else if pos + 9 > data.len() {
        Err(ErrorKind::BufferTooSmall { needed: 8, available: (data.len() - pos - 1) as usize })
    } else {
        let n = le_u64(data.subrange(pos + 1, pos + 9));
        if pos + 9 + n > data.len() {
            Err(ErrorKind::InvalidMcap)
        } else {
            Ok(data.subrange(pos + 9, pos + 9 + n))
        }
    }
}

/// Where the cursor stands when the record at `pos` has been read, or as
/// much of it as there is: behind the last part that could be read.
pub open spec fn frame_cursor(data: Seq<u8>, pos: int, expected: u8) -> int {
    if pos + 1 > data.len() {
        pos
    } else if data[pos] != expected || pos + 9 > data.len() {
        pos + 1
    } else {
        let n = le_u64(data.subrange(pos + 1, pos + 9));
        if pos + 9 + n > data.len() {
            pos + 9
        } else {
            pos + 9 + n
        }
    }
}

/// The opcode of the record at `pos`, if any byte is left there.
pub open spec fn opcode_at(data: Seq<u8>, pos: int) -> Option<u8> {
    if pos < data.len() {
        Some(data[pos])
    } else {
        None
    }
}

/// Where the cursor stands when the record at `pos` has been skipped: at
/// its end as its length field gives it. Where the record is cut short or
/// runs over the end of the data, the cursor stays behind what could be
/// read of its opcode and length.
pub open spec fn skip_cursor(data: Seq<u8>, pos: int) -> int {
    if pos + 1 > data.len() {
        pos
    } else if pos + 9 > data.len() {
        pos + 1
    } else {
        let n = le_u64(data.subrange(pos + 1, pos + 9));
        if pos + 9 + n > data.len() {
            pos + 9
        } else {
            pos + 9 + n
        }
    }
}

/// What skipping the record at `pos` yields: nothing where the whole
/// record lies within the data; the error of the read that was cut short
/// where its opcode or length does; a format error where its length runs
/// over the end of the data.
pub open spec fn skip_at(data: Seq<u8>, pos: int) -> Result<(), ErrorKind> {
    if pos + 1 > data.len() {
        Err(ErrorKind::BufferTooSmall { needed: 1, available: (data.len() - pos) as usize })
    } else if pos + 9 > data.len() {
        Err(ErrorKind::BufferTooSmall { needed: 8, available: (data.len() - pos - 1) as usize })
    } else if pos + 9 + le_u64(data.subrange(pos + 1, pos + 9)) > data.len() {
        Err(ErrorKind::InvalidMcap)
    } else {
        Ok(())
    }
}

/// The footer at `pos`: a record with opcode 2 and a body of exactly 20
/// bytes.
pub open spec fn footer_at(data: Seq<u8>, pos: int) -> Result<FooterRecord, ErrorKind> {
    if pos + 1 > data.len() {
        Err(ErrorKind::BufferTooSmall { needed: 1, available: (data.len() - pos) as usize })
    } else if data[pos] != 0x02 {
        Err(ErrorKind::UnexpectedRecordType { expected: 0x02, got: data[pos] })
    } else if pos + 9 > data.len() {
        Err(ErrorKind::BufferTooSmall { needed: 8, available: (data.len() - pos - 1) as usize })
    } else if le_u64(data.subrange(pos + 1, pos + 9)) != 20 {
        Err(ErrorKind::InvalidMcap)
    } else if pos + 29 > data.len() {
        Err(ErrorKind::InvalidMcap)
    } else {
        footer_body(data.subrange(pos + 9, pos + 29))
    }
}

/// Where the cursor stands when the footer at `pos` has been read, or as
/// much of it as there is.
pub open spec fn footer_cursor(data: Seq<u8>, pos: int) -> int {
    if pos + 1 > data.len() {
        pos
    } else if data[pos] != 0x02 || pos + 9 > data.len() {
        pos + 1
    } else if le_u64(data.subrange(pos + 1, pos + 9)) != 20 || pos + 29 > data.len() {
        pos + 9
    } else {
        pos + 29
    }
}

/// What the record at `pos` holds, which must be of this kind.
pub open spec fn header_at(data: Seq<u8>, pos: int) -> Result<HeaderView, ErrorKind> {
    match frame_at(data, pos, 0x01) {
        Err(e) => Err(e),
        Ok(body) => header_body(body),
    }
}

/// What the record at `pos` holds, which must be of this kind.
pub open spec fn schema_at(data: Seq<u8>, pos: int) -> Result<Option<SchemaView>, ErrorKind> {
    match frame_at(data, pos, 0x03) {
        Err(e) => Err(e),
        Ok(body) => schema_body(body),
    }
}

/// What the record at `pos` holds, which must be of this kind.
pub open spec fn channel_at(data: Seq<u8>, pos: int) -> Result<ChannelView, ErrorKind> {
    match frame_at(data, pos, 0x04) {
        Err(e) => Err(e),
        Ok(body) => channel_body(body),
    }
}

/// What the record at `pos` holds, which must be of this kind.
pub open spec fn message_at(data: Seq<u8>, pos: int) -> Result<MessageView, ErrorKind> {
    match frame_at(data, pos, 0x05) {
        Err(e) => Err(e),
        Ok(body) => message_body(body),
    }
}

/// What the record at `pos` holds, which must be of this kind.
pub open spec fn chunk_at(data: Seq<u8>, pos: int) -> Result<ChunkView, ErrorKind> {
    match frame_at(data, pos, 0x06) {
        Err(e) => Err(e),
        Ok(body) => chunk_body(body),
    }
}

/// What the record at `pos` holds, which must be of this kind.
pub open spec fn message_index_at(data: Seq<u8>, pos: int) -> Result<MessageIndexView, ErrorKind> {
    match frame_at(data, pos, 0x07) {
        Err(e) => Err(e),
        Ok(body) => message_index_body(body),
    }
}

/// What the record at `pos` holds, which must be of this kind.
pub open spec fn chunk_index_at(data: Seq<u8>, pos: int) -> Result<ChunkIndexView, ErrorKind> {
    match frame_at(data, pos, 0x08) {
        Err(e) => Err(e),
        Ok(body) => chunk_index_body(body),
    }
}

/// What the record at `pos` holds, which must be of this kind.
pub open spec fn attachment_at(data: Seq<u8>, pos: int) -> Result<AttachmentView, ErrorKind> {
    match frame_at(data, pos, 0x09) {
        Err(e) => Err(e),
        Ok(body) => attachment_body(body),
    }
}

/// What the record at `pos` holds, which must be of this kind.
pub open spec fn attachment_index_at(data: Seq<u8>, pos: int) -> Result<AttachmentIndexView, ErrorKind> {
    match frame_at(data, pos, 0x0A) {
        Err(e) => Err(e),
        Ok(body) => attachment_index_body(body),
    }
}

/// What the record at `pos` holds, which must be of this kind.
pub open spec fn statistics_at(data: Seq<u8>, pos: int) -> Result<StatisticsView, ErrorKind> {
    match frame_at(data, pos, 0x0B) {
        Err(e) => Err(e),
        Ok(body) => statistics_body(body),
    }
}

/// What the record at `pos` holds, which must be of this kind.
pub open spec fn metadata_at(data: Seq<u8>, pos: int) -> Result<MetadataView, ErrorKind> {
    match frame_at(data, pos, 0x0C) {
        Err(e) => Err(e),
        Ok(body) => metadata_body(body),
    }
}

/// What the record at `pos` holds, which must be of this kind.
pub open spec fn metadata_index_at(data: Seq<u8>, pos: int) -> Result<MetadataIndexView, ErrorKind> {
    match frame_at(data, pos, 0x0D) {
        Err(e) => Err(e),
        Ok(body) => metadata_index_body(body),
    }
}

/// What the record at `pos` holds, which must be of this kind.
pub open spec fn summary_offset_at(data: Seq<u8>, pos: int) -> Result<SummaryOffsetRecord, ErrorKind> {
    match frame_at(data, pos, 0x0E) {
        Err(e) => Err(e),
        Ok(body) => summary_offset_body(body),
    }
}

/// What the record at `pos` holds, which must be of this kind.
pub open spec fn data_end_at(data: Seq<u8>, pos: int) -> Result<DataEndRecord, ErrorKind> {
    match frame_at(data, pos, 0x0F) {
        Err(e) => Err(e),
        Ok(body) => data_end_body(body),
    }
}

/// A record that is written to bytes is found there again, whatever stands
/// before and behind it.
#[verifier::rlimit(50)]
#[verifier::spinoff_prover]
pub proof fn lemma_frame_round_trip(opcode: u8, body: Seq<u8>, before: Seq<u8>, after: Seq<u8>)
    requires
        body.len() <= usize::MAX,
    ensures
        frame_at(before + record_bytes(opcode, body) + after, before.len() as int, opcode) == Ok::<
            Seq<u8>,
            ErrorKind,
        >(body),
        frame_cursor(before + record_bytes(opcode, body) + after, before.len() as int, opcode)
            == before.len() + record_bytes(opcode, body).len(),
        record_bytes(opcode, body).len() == 9 + body.len(),
        opcode_at(before + record_bytes(opcode, body) + after, before.len() as int) == Some(opcode),
{
    let data = before + record_bytes(opcode, body) + after;
    let pos = before.len() as int;
    lemma_le_round_trip_u64(body.len() as u64);
    assert(data.subrange(pos + 1, pos + 9) =~= u64_le(body.len() as u64));
    assert(data.subrange(pos + 9, pos + 9 + body.len()) =~= body);
}

/// Reads of records from a reader.
pub struct McapRecordParser;

impl McapRecordParser {
    /// The opcode of the next record, if any byte is left; the cursor stays.
    pub fn peek_record<R: Reader>(reader: &mut R) -> (r: Result<Option<u8>, PybagError>)
        requires
            old(reader).wf(),
        ensures
            final(reader).wf(),
            final(reader).contents() == old(reader).contents(),
            final(reader).cursor() == old(reader).cursor(),
            r is Ok,
            r->Ok_0 == opcode_at(old(reader).contents(), old(reader).cursor()),
    {
        proof {
            reader.lemma_wf();
        }
        let peeked = reader.peek(1)?;
        if peeked.len() == 0 {
            Ok(None)
        } else {
            Ok(Some(peeked[0]))
        }
    }

    /// Moves the cursor over the next record, going by its opcode and
    /// length alone. A record whose length runs over the end of the data
    /// is refused, and the cursor then stays behind its length.
    pub fn skip_record<R: Reader>(reader: &mut R) -> (r: Result<(), PybagError>)
        requires
            old(reader).wf(),
        ensures
            final(reader).wf(),
            final(reader).contents() == old(reader).contents(),
            final(reader).cursor() == skip_cursor(old(reader).contents(), old(reader).cursor()),
            match skip_at(old(reader).contents(), old(reader).cursor()) {
                Ok(_) => r is Ok,
                Err(e) => r is Err && r->Err_0@ == e,
            },
    {
        proof {
            reader.lemma_wf();
        }
        let _ = reader.read(1)?;
        let len = Self::read_u64(reader)?;
        let here = reader.position();
        let end = reader.len();
        if len > end - here {
            return Err(PybagError::InvalidMcap("Record runs over the end of the data".to_string()));
        }
        let _ = reader.seek(here + len)?;
        Ok(())
    }

    /// Reads the 8 bytes of a magic and returns the version character.
    pub fn parse_magic_bytes<R: Reader>(reader: &mut R) -> (r: Result<char, PybagError>)
        requires
            old(reader).wf(),
        ensures
            final(reader).wf(),
            final(reader).contents() == old(reader).contents(),
            final(reader).cursor() == if old(reader).cursor() + 8 <= old(reader).contents().len() {
                old(reader).cursor() + 8
            } else {
                old(reader).cursor()
            },
            match magic_at(old(reader).contents(), old(reader).cursor()) {
                Ok(version) => r is Ok && r->Ok_0 == version,
                Err(e) => r is Err && r->Err_0@ == e,
            },
    {
        proof {
            reader.lemma_wf();
        }
        if reader.len() - reader.position() < 8 {
            return Err(PybagError::InvalidMagicBytes);
        }
        let magic = reader.read(8)?;
        if magic[0] != 0x89 || magic[1] != 0x4D || magic[2] != 0x43 || magic[3] != 0x41 || magic[4]
            != 0x50 || magic[6] != 0x0D || magic[7] != 0x0A {
            return Err(PybagError::InvalidMagicBytes);
        }
        Ok(magic[5] as char)
    }

    /// Reads the frame of a record with the opcode `expected` and returns
    /// its body.
    pub fn read_frame<R: Reader>(reader: &mut R, expected: u8) -> (r: Result<Vec<u8>, PybagError>)
        requires
            old(reader).wf(),
        ensures
            final(reader).wf(),
            final(reader).contents() == old(reader).contents(),
            final(reader).cursor() == frame_cursor(
                old(reader).contents(),
                old(reader).cursor(),
                expected,
            ),
            parsed_as(r, frame_at(old(reader).contents(), old(reader).cursor(), expected)),
    {
        proof {
            reader.lemma_wf();
        }
        let record_type = Self::read_u8(reader)?;
        if record_type != expected {
            return Err(PybagError::UnexpectedRecordType { expected, got: record_type });
        }
        let record_len = Self::read_u64(reader)?;
        if record_len > reader.len() - reader.position() {
            return Err(PybagError::InvalidMcap("Record runs over the end of the data".to_string()));
        }
        reader.read(record_len as usize)
    }

    /// Reads a footer record.
    pub fn parse_footer<R: Reader>(reader: &mut R) -> (r: Result<FooterRecord, PybagError>)
        requires
            old(reader).wf(),
        ensures
            final(reader).wf(),
            final(reader).contents() == old(reader).contents(),
            final(reader).cursor() == footer_cursor(old(reader).contents(), old(reader).cursor()),
            parsed_as(r, footer_at(old(reader).contents(), old(reader).cursor())),
    {
        proof {
            reader.lemma_wf();
        }
        let record_type = Self::read_u8(reader)?;
        if record_type != 0x02 {
            return Err(PybagError::UnexpectedRecordType { expected: 0x02, got: record_type });
        }
        let record_len = Self::read_u64(reader)?;
        if record_len != 20 {
            return Err(PybagError::InvalidMcap("Unexpected footer record length".to_string()));
        }
        if reader.len() - reader.position() < 20 {
            return Err(PybagError::InvalidMcap("Footer runs over the end of the data".to_string()));
        }
        let body = reader.read(20)?;
        parse_footer_body(body.as_slice())
    }

    /// Reads a header record.
    pub fn parse_header<R: Reader>(reader: &mut R) -> (r: Result<HeaderRecord, PybagError>)
        requires
            old(reader).wf(),
        ensures
            final(reader).wf(),
            final(reader).contents() == old(reader).contents(),
            final(reader).cursor() == frame_cursor(old(reader).contents(), old(reader).cursor(), 0x01),
            parsed_as(r, header_at(old(reader).contents(), old(reader).cursor())),
    {
        let body = Self::read_frame(reader, 0x01)?;
        parse_header_body(body.as_slice())
    }

    /// Reads a schema record. A record whose id is 0 holds no schema.
    pub fn parse_schema<R: Reader>(reader: &mut R) -> (r: Result<Option<SchemaRecord>, PybagError>)
        requires
            old(reader).wf(),
        ensures
            final(reader).wf(),
            final(reader).contents() == old(reader).contents(),
            final(reader).cursor() == frame_cursor(old(reader).contents(), old(reader).cursor(), 0x03),
            match schema_at(old(reader).contents(), old(reader).cursor()) {
                Ok(Some(v)) => r is Ok && r->Ok_0 is Some && r->Ok_0->0@ == v,
                Ok(None) => r is Ok && r->Ok_0 is None,
                Err(e) => r is Err && r->Err_0@ == e,
            },
    {
        let body = Self::read_frame(reader, 0x03)?;
        parse_schema_body(body.as_slice())
    }

    /// Reads a channel record.
    pub fn parse_channel<R: Reader>(reader: &mut R) -> (r: Result<ChannelRecord, PybagError>)
        requires
            old(reader).wf(),
        ensures
            final(reader).wf(),
            final(reader).contents() == old(reader).contents(),
            final(reader).cursor() == frame_cursor(old(reader).contents(), old(reader).cursor(), 0x04),
            parsed_as(r, channel_at(old(reader).contents(), old(reader).cursor())),
    {
        let body = Self::read_frame(reader, 0x04)?;
        parse_channel_body(body.as_slice())
    }

    /// Reads a message record.
    pub fn parse_message<R: Reader>(reader: &mut R) -> (r: Result<MessageRecord, PybagError>)
        requires
            old(reader).wf(),
        ensures
            final(reader).wf(),
            final(reader).contents() == old(reader).contents(),
            final(reader).cursor() == frame_cursor(old(reader).contents(), old(reader).cursor(), 0x05),
            parsed_as(r, message_at(old(reader).contents(), old(reader).cursor())),
    {
        let body = Self::read_frame(reader, 0x05)?;
        parse_message_body(body.as_slice())
    }

    /// Reads a chunk record.
    pub fn parse_chunk<R: Reader>(reader: &mut R) -> (r: Result<ChunkRecord, PybagError>)
        requires
            old(reader).wf(),
        ensures
            final(reader).wf(),
            final(reader).contents() == old(reader).contents(),
            final(reader).cursor() == frame_cursor(old(reader).contents(), old(reader).cursor(), 0x06),
            parsed_as(r, chunk_at(old(reader).contents(), old(reader).cursor())),
    {
        let body = Self::read_frame(reader, 0x06)?;
        parse_chunk_body(body.as_slice())
    }

    /// Reads a message index record.
    pub fn parse_message_index<R: Reader>(reader: &mut R) -> (r: Result<MessageIndexRecord, PybagError>)
        requires
            old(reader).wf(),
        ensures
            final(reader).wf(),
            final(reader).contents() == old(reader).contents(),
            final(reader).cursor() == frame_cursor(old(reader).contents(), old(reader).cursor(), 0x07),
            parsed_as(r, message_index_at(old(reader).contents(), old(reader).cursor())),
    {
        let body = Self::read_frame(reader, 0x07)?;
        parse_message_index_body(body.as_slice())
    }

    /// Reads a chunk index record.
    pub fn parse_chunk_index<R: Reader>(reader: &mut R) -> (r: Result<ChunkIndexRecord, PybagError>)
        requires
            old(reader).wf(),
        ensures
            final(reader).wf(),
            final(reader).contents() == old(reader).contents(),
            final(reader).cursor() == frame_cursor(old(reader).contents(), old(reader).cursor(), 0x08),
            parsed_as(r, chunk_index_at(old(reader).contents(), old(reader).cursor())),
    {
        let body = Self::read_frame(reader, 0x08)?;
        parse_chunk_index_body(body.as_slice())
    }

    /// Reads an attachment record.
    pub fn parse_attachment<R: Reader>(reader: &mut R) -> (r: Result<AttachmentRecord, PybagError>)
        requires
            old(reader).wf(),
        ensures
            final(reader).wf(),
            final(reader).contents() == old(reader).contents(),
            final(reader).cursor() == frame_cursor(old(reader).contents(), old(reader).cursor(), 0x09),
            parsed_as(r, attachment_at(old(reader).contents(), old(reader).cursor())),
    {
        let body = Self::read_frame(reader, 0x09)?;
        parse_attachment_body(body.as_slice())
    }

    /// Reads an attachment index record.
    pub fn parse_attachment_index<R: Reader>(reader: &mut R) -> (r: Result<AttachmentIndexRecord, PybagError>)
        requires
            old(reader).wf(),
        ensures
            final(reader).wf(),
            final(reader).contents() == old(reader).contents(),
            final(reader).cursor() == frame_cursor(old(reader).contents(), old(reader).cursor(), 0x0A),
            parsed_as(r, attachment_index_at(old(reader).contents(), old(reader).cursor())),
    {
        let body = Self::read_frame(reader, 0x0A)?;
        parse_attachment_index_body(body.as_slice())
    }

    /// Reads a statistics record.
    pub fn parse_statistics<R: Reader>(reader: &mut R) -> (r: Result<StatisticsRecord, PybagError>)
        requires
            old(reader).wf(),
        ensures
            final(reader).wf(),
            final(reader).contents() == old(reader).contents(),
            final(reader).cursor() == frame_cursor(old(reader).contents(), old(reader).cursor(), 0x0B),
            parsed_as(r, statistics_at(old(reader).contents(), old(reader).cursor())),
    {
        let body = Self::read_frame(reader, 0x0B)?;
        parse_statistics_body(body.as_slice())
    }

    /// Reads a metadata record.
    pub fn parse_metadata<R: Reader>(reader: &mut R) -> (r: Result<MetadataRecord, PybagError>)
        requires
            old(reader).wf(),
        ensures
            final(reader).wf(),
            final(reader).contents() == old(reader).contents(),
            final(reader).cursor() == frame_cursor(old(reader).contents(), old(reader).cursor(), 0x0C),
            parsed_as(r, metadata_at(old(reader).contents(), old(reader).cursor())),
    {
        let body = Self::read_frame(reader, 0x0C)?;
        parse_metadata_body(body.as_slice())
    }

    /// Reads a metadata index record.
    pub fn parse_metadata_index<R: Reader>(reader: &mut R) -> (r: Result<MetadataIndexRecord, PybagError>)
        requires
            old(reader).wf(),
        ensures
            final(reader).wf(),
            final(reader).contents() == old(reader).contents(),
            final(reader).cursor() == frame_cursor(old(reader).contents(), old(reader).cursor(), 0x0D),
            parsed_as(r, metadata_index_at(old(reader).contents(), old(reader).cursor())),
    {
        let body = Self::read_frame(reader, 0x0D)?;
        parse_metadata_index_body(body.as_slice())
    }

    /// Reads a summary offset record.
    pub fn parse_summary_offset<R: Reader>(reader: &mut R) -> (r: Result<SummaryOffsetRecord, PybagError>)
        requires
            old(reader).wf(),
        ensures
            final(reader).wf(),
            final(reader).contents() == old(reader).contents(),
            final(reader).cursor() == frame_cursor(old(reader).contents(), old(reader).cursor(), 0x0E),
            parsed_as(r, summary_offset_at(old(reader).contents(), old(reader).cursor())),
    {
        let body = Self::read_frame(reader, 0x0E)?;
        parse_summary_offset_body(body.as_slice())
    }

    /// Reads a data end record.
    pub fn parse_data_end<R: Reader>(reader: &mut R) -> (r: Result<DataEndRecord, PybagError>)
        requires
            old(reader).wf(),
        ensures
            final(reader).wf(),
            final(reader).contents() == old(reader).contents(),
            final(reader).cursor() == frame_cursor(old(reader).contents(), old(reader).cursor(), 0x0F),
            parsed_as(r, data_end_at(old(reader).contents(), old(reader).cursor())),
    {
        let body = Self::read_frame(reader, 0x0F)?;
        parse_data_end_body(body.as_slice())
    }

    /// Reads one byte.
    pub fn read_u8<R: Reader>(reader: &mut R) -> (r: Result<u8, PybagError>)
        requires
            old(reader).wf(),
        ensures
            final(reader).wf(),
            final(reader).contents() == old(reader).contents(),
            final(reader).cursor() == if old(reader).cursor() + 1 <= old(reader).contents().len() {
                old(reader).cursor() + 1
            } else {
                old(reader).cursor()
            },
            if old(reader).cursor() + 1 <= old(reader).contents().len() {
                r is Ok && r->Ok_0 == old(reader).contents()[old(reader).cursor()]
            } else {
                r is Err && r->Err_0@ == (ErrorKind::BufferTooSmall {
                    needed: 1,
                    available: (old(reader).contents().len() - old(reader).cursor()) as usize,
                })
            },
    {
        proof {
            reader.lemma_wf();
        }
        let data = reader.read(1)?;
        Ok(data[0])
    }

    /// Reads a 64-bit number, least significant byte first.
    pub fn read_u64<R: Reader>(reader: &mut R) -> (r: Result<u64, PybagError>)
        requires
            old(reader).wf(),
        ensures
            final(reader).wf(),
            final(reader).contents() == old(reader).contents(),
            final(reader).cursor() == if old(reader).cursor() + 8 <= old(reader).contents().len() {
                old(reader).cursor() + 8
            } else {
                old(reader).cursor()
            },
            if old(reader).cursor() + 8 <= old(reader).contents().len() {
                r is Ok && r->Ok_0 == le_u64(
                    old(reader).contents().subrange(old(reader).cursor(), old(reader).cursor() + 8),
                )
            } else {
                r is Err && r->Err_0@ == (ErrorKind::BufferTooSmall {
                    needed: 8,
                    available: (old(reader).contents().len() - old(reader).cursor()) as usize,
                })
            },
    {
        proof {
            reader.lemma_wf();
        }
        let data = reader.read(8)?;
        Ok(read_u64_le(data.as_slice()))
    }
}

/// A record of this kind that is written and then read is the record that
/// was written, whatever stands before and behind it in the bytes.
#[verifier::rlimit(50)]
#[verifier::spinoff_prover]
pub proof fn lemma_header_record_round_trip(v: HeaderView, before: Seq<u8>, after: Seq<u8>)
    requires
        header_fits(v),
        header_body_bytes(v).len() <= usize::MAX,
    ensures
        header_at(before + header_bytes(v) + after, before.len() as int) == Ok::<HeaderView, ErrorKind>(v),
        frame_cursor(before + header_bytes(v) + after, before.len() as int, 0x01) == before.len() + header_bytes(v).len(),
{
    lemma_frame_round_trip(0x01, header_body_bytes(v), before, after);
    lemma_header_round_trip(v, Seq::empty());
    assert(header_body_bytes(v) + Seq::<u8>::empty() =~= header_body_bytes(v));
}

/// A record of this kind that is written and then read is the record that
/// was written, whatever stands before and behind it in the bytes.
#[verifier::rlimit(50)]
#[verifier::spinoff_prover]
pub proof fn lemma_footer_record_round_trip(v: FooterRecord, before: Seq<u8>, after: Seq<u8>)
    requires
        footer_fits(v),
        footer_body_bytes(v).len() <= usize::MAX,
    ensures
        footer_at(before + footer_bytes(v) + after, before.len() as int) == Ok::<FooterRecord, ErrorKind>(v),
        footer_cursor(before + footer_bytes(v) + after, before.len() as int) == before.len() + footer_bytes(v).len(),
{
    crate::mcap::wire::lemma_take_u64(v.summary_start, crate::endian::u64_le(v.summary_offset_start) + crate::endian::u32_le(v.summary_crc));
    assert(footer_body_bytes(v).len() == 20);
    lemma_frame_round_trip(0x02, footer_body_bytes(v), before, after);
    lemma_footer_round_trip(v, Seq::empty());
    assert(footer_body_bytes(v) + Seq::<u8>::empty() =~= footer_body_bytes(v));
}

/// A record of this kind that is written and then read is the record that
/// was written, whatever stands before and behind it in the bytes.
#[verifier::rlimit(50)]
#[verifier::spinoff_prover]
pub proof fn lemma_schema_record_round_trip(v: SchemaView, before: Seq<u8>, after: Seq<u8>)
    requires
        schema_fits(v),
        schema_body_bytes(v).len() <= usize::MAX,
        v.id != 0,
    ensures
        schema_at(before + schema_bytes(v) + after, before.len() as int) == Ok::<Option<SchemaView>, ErrorKind>(Some(v)),
        frame_cursor(before + schema_bytes(v) + after, before.len() as int, 0x03) == before.len() + schema_bytes(v).len(),
{
    lemma_frame_round_trip(0x03, schema_body_bytes(v), before, after);
    lemma_schema_round_trip(v, Seq::empty());
    assert(schema_body_bytes(v) + Seq::<u8>::empty() =~= schema_body_bytes(v));
}

/// A record of this kind that is written and then read is the record that
/// was written, whatever stands before and behind it in the bytes.
#[verifier::rlimit(50)]
#[verifier::spinoff_prover]
pub proof fn lemma_channel_record_round_trip(v: ChannelView, before: Seq<u8>, after: Seq<u8>)
    requires
        channel_fits(v),
        channel_body_bytes(v).len() <= usize::MAX,
    ensures
        channel_at(before + channel_bytes(v) + after, before.len() as int) == Ok::<ChannelView, ErrorKind>(v),
        frame_cursor(before + channel_bytes(v) + after, before.len() as int, 0x04) == before.len() + channel_bytes(v).len(),
{
    lemma_frame_round_trip(0x04, channel_body_bytes(v), before, after);
    lemma_channel_round_trip(v, Seq::empty());
    assert(channel_body_bytes(v) + Seq::<u8>::empty() =~= channel_body_bytes(v));
}

/// A record of this kind that is written and then read is the record that
/// was written, whatever stands before and behind it in the bytes.
#[verifier::rlimit(50)]
#[verifier::spinoff_prover]
pub proof fn lemma_message_record_round_trip(v: MessageView, before: Seq<u8>, after: Seq<u8>)
    requires
        message_fits(v),
        message_body_bytes(v).len() <= usize::MAX,
    ensures
        message_at(before + message_bytes(v) + after, before.len() as int) == Ok::<MessageView, ErrorKind>(v),
        frame_cursor(before + message_bytes(v) + after, before.len() as int, 0x05) == before.len() + message_bytes(v).len(),
{
    lemma_frame_round_trip(0x05, message_body_bytes(v), before, after);
    lemma_message_round_trip(v);
}

/// A record of this kind that is written and then read is the record that
/// was written, whatever stands before and behind it in the bytes.
#[verifier::rlimit(50)]
#[verifier::spinoff_prover]
pub proof fn lemma_chunk_record_round_trip(v: ChunkView, before: Seq<u8>, after: Seq<u8>)
    requires
        chunk_fits(v),
        chunk_body_bytes(v).len() <= usize::MAX,
    ensures
        chunk_at(before + chunk_bytes(v) + after, before.len() as int) == Ok::<ChunkView, ErrorKind>(v),
        frame_cursor(before + chunk_bytes(v) + after, before.len() as int, 0x06) == before.len() + chunk_bytes(v).len(),
{
    lemma_frame_round_trip(0x06, chunk_body_bytes(v), before, after);
    lemma_chunk_round_trip(v, Seq::empty());
    assert(chunk_body_bytes(v) + Seq::<u8>::empty() =~= chunk_body_bytes(v));
}

/// A record of this kind that is written and then read is the record that
/// was written, whatever stands before and behind it in the bytes.
#[verifier::rlimit(50)]
#[verifier::spinoff_prover]
pub proof fn lemma_message_index_record_round_trip(v: MessageIndexView, before: Seq<u8>, after: Seq<u8>)
    requires
        message_index_fits(v),
        message_index_body_bytes(v).len() <= usize::MAX,
    ensures
        message_index_at(before + message_index_bytes(v) + after, before.len() as int) == Ok::<MessageIndexView, ErrorKind>(v),
        frame_cursor(before + message_index_bytes(v) + after, before.len() as int, 0x07) == before.len() + message_index_bytes(v).len(),
{
    lemma_frame_round_trip(0x07, message_index_body_bytes(v), before, after);
    lemma_message_index_round_trip(v, Seq::empty());
    assert(message_index_body_bytes(v) + Seq::<u8>::empty() =~= message_index_body_bytes(v));
}

/// A record of this kind that is written and then read is the record that
/// was written, whatever stands before and behind it in the bytes.
#[verifier::rlimit(50)]
#[verifier::spinoff_prover]
pub proof fn lemma_chunk_index_record_round_trip(v: ChunkIndexView, before: Seq<u8>, after: Seq<u8>)
    requires
        chunk_index_fits(v),
        chunk_index_body_bytes(v).len() <= usize::MAX,
    ensures
        chunk_index_at(before + chunk_index_bytes(v) + after, before.len() as int) == Ok::<ChunkIndexView, ErrorKind>(v),
        frame_cursor(before + chunk_index_bytes(v) + after, before.len() as int, 0x08) == before.len() + chunk_index_bytes(v).len(),
{
    lemma_frame_round_trip(0x08, chunk_index_body_bytes(v), before, after);
    lemma_chunk_index_round_trip(v, Seq::empty());
    assert(chunk_index_body_bytes(v) + Seq::<u8>::empty() =~= chunk_index_body_bytes(v));
}

/// A record of this kind that is written and then read is the record that
/// was written, whatever stands before and behind it in the bytes.
#[verifier::rlimit(50)]
#[verifier::spinoff_prover]
pub proof fn lemma_attachment_record_round_trip(v: AttachmentView, before: Seq<u8>, after: Seq<u8>)
    requires
        attachment_fits(v),
        attachment_body_bytes(v).len() <= usize::MAX,
    ensures
        attachment_at(before + attachment_bytes(v) + after, before.len() as int) == Ok::<AttachmentView, ErrorKind>(v),
        frame_cursor(before + attachment_bytes(v) + after, before.len() as int, 0x09) == before.len() + attachment_bytes(v).len(),
{
    lemma_frame_round_trip(0x09, attachment_body_bytes(v), before, after);
    lemma_attachment_round_trip(v, Seq::empty());
    assert(attachment_body_bytes(v) + Seq::<u8>::empty() =~= attachment_body_bytes(v));
}

/// A record of this kind that is written and then read is the record that
/// was written, whatever stands before and behind it in the bytes.
#[verifier::rlimit(50)]
#[verifier::spinoff_prover]
pub proof fn lemma_attachment_index_record_round_trip(v: AttachmentIndexView, before: Seq<u8>, after: Seq<u8>)
    requires
        attachment_index_fits(v),
        attachment_index_body_bytes(v).len() <= usize::MAX,
    ensures
        attachment_index_at(before + attachment_index_bytes(v) + after, before.len() as int) == Ok::<AttachmentIndexView, ErrorKind>(v),
        frame_cursor(before + attachment_index_bytes(v) + after, before.len() as int, 0x0A) == before.len() + attachment_index_bytes(v).len(),
{
    lemma_frame_round_trip(0x0A, attachment_index_body_bytes(v), before, after);
    lemma_attachment_index_round_trip(v, Seq::empty());
    assert(attachment_index_body_bytes(v) + Seq::<u8>::empty() =~= attachment_index_body_bytes(v));
}

/// A record of this kind that is written and then read is the record that
/// was written, whatever stands before and behind it in the bytes.
#[verifier::rlimit(50)]
#[verifier::spinoff_prover]
pub proof fn lemma_statistics_record_round_trip(v: StatisticsView, before: Seq<u8>, after: Seq<u8>)
    requires
        statistics_fits(v),
        statistics_body_bytes(v).len() <= usize::MAX,
    ensures
        statistics_at(before + statistics_bytes(v) + after, before.len() as int) == Ok::<StatisticsView, ErrorKind>(v),
        frame_cursor(before + statistics_bytes(v) + after, before.len() as int, 0x0B) == before.len() + statistics_bytes(v).len(),
{
    lemma_frame_round_trip(0x0B, statistics_body_bytes(v), before, after);
    lemma_statistics_round_trip(v, Seq::empty());
    assert(statistics_body_bytes(v) + Seq::<u8>::empty() =~= statistics_body_bytes(v));
}

/// A record of this kind that is written and then read is the record that
/// was written, whatever stands before and behind it in the bytes.
#[verifier::rlimit(50)]
#[verifier::spinoff_prover]
pub proof fn lemma_metadata_record_round_trip(v: MetadataView, before: Seq<u8>, after: Seq<u8>)
    requires
        metadata_fits(v),
        metadata_body_bytes(v).len() <= usize::MAX,
    ensures
        metadata_at(before + metadata_bytes(v) + after, before.len() as int) == Ok::<MetadataView, ErrorKind>(v),
        frame_cursor(before + metadata_bytes(v) + after, before.len() as int, 0x0C) == before.len() + metadata_bytes(v).len(),
{
    lemma_frame_round_trip(0x0C, metadata_body_bytes(v), before, after);
    lemma_metadata_round_trip(v, Seq::empty());
    assert(metadata_body_bytes(v) + Seq::<u8>::empty() =~= metadata_body_bytes(v));
}

/// A record of this kind that is written and then read is the record that
/// was written, whatever stands before and behind it in the bytes.
#[verifier::rlimit(50)]
#[verifier::spinoff_prover]
pub proof fn lemma_metadata_index_record_round_trip(v: MetadataIndexView, before: Seq<u8>, after: Seq<u8>)
    requires
        metadata_index_fits(v),
        metadata_index_body_bytes(v).len() <= usize::MAX,
    ensures
        metadata_index_at(before + metadata_index_bytes(v) + after, before.len() as int) == Ok::<MetadataIndexView, ErrorKind>(v),
        frame_cursor(before + metadata_index_bytes(v) + after, before.len() as int, 0x0D) == before.len() + metadata_index_bytes(v).len(),
{
    lemma_frame_round_trip(0x0D, metadata_index_body_bytes(v), before, after);
    lemma_metadata_index_round_trip(v, Seq::empty());
    assert(metadata_index_body_bytes(v) + Seq::<u8>::empty() =~= metadata_index_body_bytes(v));
}

/// A record of this kind that is written and then read is the record that
/// was written, whatever stands before and behind it in the bytes.
#[verifier::rlimit(50)]
#[verifier::spinoff_prover]
pub proof fn lemma_summary_offset_record_round_trip(v: SummaryOffsetRecord, before: Seq<u8>, after: Seq<u8>)
    requires
        summary_offset_fits(v),
        summary_offset_body_bytes(v).len() <= usize::MAX,
    ensures
        summary_offset_at(before + summary_offset_bytes(v) + after, before.len() as int) == Ok::<SummaryOffsetRecord, ErrorKind>(v),
        frame_cursor(before + summary_offset_bytes(v) + after, before.len() as int, 0x0E) == before.len() + summary_offset_bytes(v).len(),
{
    lemma_frame_round_trip(0x0E, summary_offset_body_bytes(v), before, after);
    lemma_summary_offset_round_trip(v, Seq::empty());
    assert(summary_offset_body_bytes(v) + Seq::<u8>::empty() =~= summary_offset_body_bytes(v));
}

/// A record of this kind that is written and then read is the record that
/// was written, whatever stands before and behind it in the bytes.
#[verifier::rlimit(50)]
#[verifier::spinoff_prover]
pub proof fn lemma_data_end_record_round_trip(v: DataEndRecord, before: Seq<u8>, after: Seq<u8>)
    requires
        data_end_fits(v),
        data_end_body_bytes(v).len() <= usize::MAX,
    ensures
        data_end_at(before + data_end_bytes(v) + after, before.len() as int) == Ok::<DataEndRecord, ErrorKind>(v),
        frame_cursor(before + data_end_bytes(v) + after, before.len() as int, 0x0F) == before.len() + data_end_bytes(v).len(),
{
    lemma_frame_round_trip(0x0F, data_end_body_bytes(v), before, after);
    lemma_data_end_round_trip(v, Seq::empty());
    assert(data_end_body_bytes(v) + Seq::<u8>::empty() =~= data_end_body_bytes(v));
}

} // verus!
