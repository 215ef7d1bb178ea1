//! Writing a file: records in call order, optionally gathered into chunks,
//! and on closing the summary that describes them.

use crate::endian::group_widths;
use crate::error::{ErrorKind, PybagError};
use crate::io::writer::{BytesWriter, DrainWriter, Writer};
use crate::mcap::chunk::{compress_chunk, compressed};
use crate::mcap::codec::{
    attachment_encodable, channel_encodable, encode_attachment, encode_attachment_index,
    encode_channel, encode_chunk, encode_chunk_index, encode_data_end, encode_footer,
    encode_header, encode_message, encode_metadata, encode_metadata_index, encode_schema,
    encode_statistics, header_encodable, message_encodable, metadata_encodable, schema_encodable,
};
use crate::mcap::crc::{compute_crc, crc32};
use crate::mcap::parser::{magic, magic_bytes};
use crate::mcap::records::{
    attachment_bytes, attachment_fits, attachment_index_bytes, attachment_index_fits,
    channel_bytes, channel_fits, chunk_bytes, chunk_fits, chunk_index_bytes, chunk_index_fits,
    data_end_bytes, footer_bytes, header_bytes, header_fits, message_bytes, message_fits,
    metadata_bytes, metadata_fits, metadata_index_bytes, metadata_index_fits, schema_bytes,
    schema_fits, statistics_bytes, AttachmentIndexRecord, AttachmentIndexView, AttachmentRecord,
    AttachmentView, ChannelRecord, ChannelView, ChunkIndexRecord, ChunkIndexView, ChunkRecord,
    ChunkView, DataEndRecord, FooterRecord, HeaderRecord, HeaderView, MessageRecord, MessageView,
    MetadataIndexRecord, MetadataIndexView, MetadataRecord, MetadataView, SchemaRecord,
    SchemaView, StatisticsRecord, StatisticsView,
};
use std::collections::HashMap;
use vstd::prelude::*;
use vstd::string::StringExecFns;
use vstd::utf8::encode_utf8;

verus! {

broadcast use {vstd::std_specs::hash::group_hash_axioms, group_widths};

/// What a writer has done and remembers, as mathematical values.
pub struct WriterView {
    /// All the bytes handed to the sink so far.
    pub output: Seq<u8>,
    /// The records gathered for the next chunk.
    pub pending: Seq<u8>,
    /// The size at which a chunk is written out; none if records go to the
    /// sink directly.
    pub chunk_size: Option<usize>,
    /// The name of the compression of chunks.
    pub compression: Seq<char>,
    /// The schemas written, by id.
    pub schemas: Map<u16, SchemaView>,
    /// The channels written, by id.
    pub channels: Map<u16, ChannelView>,
    /// An index entry for each chunk written, in order.
    pub chunk_indices: Seq<ChunkIndexView>,
    /// An index entry for each attachment written, in order.
    pub attachment_indices: Seq<AttachmentIndexView>,
    /// An index entry for each metadata record written, in order.
    pub metadata_indices: Seq<MetadataIndexView>,
    /// The earliest and latest log time among the pending messages.
    pub chunk_times: Option<(u64, u64)>,
    /// The number of messages written.
    pub message_count: u64,
    /// The earliest and latest log time among all messages.
    pub times: Option<(u64, u64)>,
    /// The number of messages written on each channel.
    pub channel_counts: Map<u16, u64>,
}

/// `n` and one more, unless that does not fit 64 bits.
pub open spec fn bump(n: u64) -> u64 {
    if n < u64::MAX {
        (n + 1) as u64
    } else {
        n
    }
}

/// The time range `times` widened to hold `t`.
pub open spec fn widened(times: Option<(u64, u64)>, t: u64) -> Option<(u64, u64)> {
    match times {
        None => Some((t, t)),
        Some((low, high)) => Some((if t < low { t } else { low }, if t > high { t } else { high })),
    }
}

/// The lower end of a time range, 0 if there is none.
pub open spec fn low_of(times: Option<(u64, u64)>) -> u64 {
    match times {
        None => 0,
        Some((low, _)) => low,
    }
}

/// The upper end of a time range, 0 if there is none.
pub open spec fn high_of(times: Option<(u64, u64)>) -> u64 {
    match times {
        None => 0,
        Some((_, high)) => high,
    }
}

/// The name of the library that the header of each file carries.
pub open spec fn library_name() -> Seq<char> {
    seq!['p', 'y', 'b', 'a', 'g', '_', 'r', 's']
}

/// The state of a writer that has just been opened on a sink that had
/// taken `sink` before: the magic and the header are written.
pub open spec fn opened(
    sink: Seq<u8>,
    profile: Seq<char>,
    chunk_size: Option<usize>,
    compression: Seq<char>,
) -> WriterView {
    WriterView {
        output: sink + magic() + header_bytes(HeaderView { profile, library: library_name() }),
        pending: Seq::empty(),
        chunk_size,
        compression,
        schemas: Map::empty(),
        channels: Map::empty(),
        chunk_indices: Seq::empty(),
        attachment_indices: Seq::empty(),
        metadata_indices: Seq::empty(),
        chunk_times: None,
        message_count: 0,
        times: None,
        channel_counts: Map::empty(),
    }
}

/// The state after the bytes of one record went to the pending chunk, or
/// to the sink if there are no chunks.
pub open spec fn with_record(s: WriterView, bytes: Seq<u8>) -> WriterView {
    if s.chunk_size is Some {
        WriterView { pending: s.pending + bytes, ..s }
    } else {
        WriterView { output: s.output + bytes, ..s }
    }
}

/// The state after a schema was written.
pub open spec fn after_schema(s: WriterView, v: SchemaView) -> WriterView {
    with_record(WriterView { schemas: s.schemas.insert(v.id, v), ..s }, schema_bytes(v))
}

/// The state after a channel was written.
pub open spec fn after_channel(s: WriterView, v: ChannelView) -> WriterView {
    with_record(WriterView { channels: s.channels.insert(v.id, v), ..s }, channel_bytes(v))
}

/// The count of `key` in `counts`, 0 if it has none.
pub open spec fn count_of(counts: Map<u16, u64>, key: u16) -> u64 {
    if counts.contains_key(key) {
        counts[key]
    } else {
        0
    }
}

/// The chunk that holds the pending records of `s`, compressed to
/// `records`, with `crc` as the checksum of the pending records.
pub open spec fn chunk_of(s: WriterView, records: Seq<u8>, crc: u32) -> ChunkView {
    ChunkView {
        message_start_time: low_of(s.chunk_times),
        message_end_time: high_of(s.chunk_times),
        uncompressed_size: s.pending.len() as u64,
        uncompressed_crc: crc,
        compression: s.compression,
        records,
    }
}

/// The index entry of the chunk that holds the pending records of `s`,
/// compressed to `records` and written behind the output so far.
pub open spec fn chunk_index_of(s: WriterView, records: Seq<u8>, crc: u32) -> ChunkIndexView {
    ChunkIndexView {
        message_start_time: low_of(s.chunk_times),
        message_end_time: high_of(s.chunk_times),
        chunk_start_offset: s.output.len() as u64,
        chunk_length: chunk_bytes(chunk_of(s, records, crc)).len() as u64,
        message_index_offsets: Map::empty(),
        message_index_length: 0,
        compression: s.compression,
        compressed_size: records.len() as u64,
        uncompressed_size: s.pending.len() as u64,
    }
}

/// The state after the pending records of `s` were written out as a chunk
/// that stores them as `records` with the checksum `crc`.
pub open spec fn with_chunk(s: WriterView, records: Seq<u8>, crc: u32) -> WriterView {
    WriterView {
        output: s.output + chunk_bytes(chunk_of(s, records, crc)),
        pending: Seq::empty(),
        chunk_indices: s.chunk_indices.push(chunk_index_of(s, records, crc)),
        chunk_times: None,
        ..s
    }
}

/// The chunk that holds the pending records of `s`, compressed to
/// `records`, with their checksum.
pub open spec fn pending_chunk(s: WriterView, records: Seq<u8>) -> ChunkView {
    chunk_of(s, records, crc32(s.pending))
}

/// The index entry of the chunk that holds the pending records of `s`,
/// compressed to `records` and written behind the output so far.
pub open spec fn pending_chunk_index(s: WriterView, records: Seq<u8>) -> ChunkIndexView {
    chunk_index_of(s, records, crc32(s.pending))
}

/// The state after the pending records, if any, were compressed and
/// written out as a chunk with their checksum; or the error of the
/// compression.
pub open spec fn flushed(s: WriterView) -> Result<WriterView, ErrorKind> {
    if s.pending.len() == 0 {
        Ok(s)
    } else {
        match compressed(s.compression, s.pending) {
            Err(e) => Err(e),
            Ok(records) => Ok(with_chunk(s, records, crc32(s.pending))),
        }
    }
}

/// The state after a message was written: it is counted, put with the
/// pending records or written to the sink, and the pending records are
/// written out as a chunk once they have reached the chunk size.
pub open spec fn after_message(s: WriterView, v: MessageView) -> Result<WriterView, ErrorKind> {
    let counted = WriterView {
        message_count: bump(s.message_count),
        channel_counts: s.channel_counts.insert(
            v.channel_id,
            bump(count_of(s.channel_counts, v.channel_id)),
        ),
        times: widened(s.times, v.log_time),
        ..s
    };
    match s.chunk_size {
        None => Ok(WriterView { output: s.output + message_bytes(v), ..counted }),
        Some(size) => {
            let gathered = WriterView {
                pending: s.pending + message_bytes(v),
                chunk_times: widened(s.chunk_times, v.log_time),
                ..counted
            };
            if gathered.pending.len() >= size {
                flushed(gathered)
            } else {
                Ok(gathered)
            }
        },
    }
}

/// The index entry of an attachment written behind `output`.
pub open spec fn attachment_index_of(output: Seq<u8>, v: AttachmentView) -> AttachmentIndexView {
    AttachmentIndexView {
        offset: output.len() as u64,
        length: attachment_bytes(v).len() as u64,
        log_time: v.log_time,
        create_time: v.create_time,
        data_size: v.data.len() as u64,
        name: v.name,
        media_type: v.media_type,
    }
}

/// The state after an attachment was written: pending records are written
/// out first, since attachments stand outside chunks.
pub open spec fn after_attachment(s: WriterView, v: AttachmentView) -> Result<WriterView, ErrorKind> {
    match flushed(s) {
        Err(e) => Err(e),
        Ok(f) => Ok(
            WriterView {
                output: f.output + attachment_bytes(v),
                attachment_indices: f.attachment_indices.push(attachment_index_of(f.output, v)),
                ..f
            },
        ),
    }
}

/// The index entry of a metadata record written behind `output`.
pub open spec fn metadata_index_of(output: Seq<u8>, v: MetadataView) -> MetadataIndexView {
    MetadataIndexView {
        offset: output.len() as u64,
        length: metadata_bytes(v).len() as u64,
        name: v.name,
    }
}

/// The state after a metadata record was written: pending records are
/// written out first.
pub open spec fn after_metadata(s: WriterView, v: MetadataView) -> Result<WriterView, ErrorKind> {
    match flushed(s) {
        Err(e) => Err(e),
        Ok(f) => Ok(
            WriterView {
                output: f.output + metadata_bytes(v),
                metadata_indices: f.metadata_indices.push(metadata_index_of(f.output, v)),
                ..f
            },
        ),
    }
}

/// The schema records of `m` with an id below `upto`, by ascending id.
pub open spec fn schemas_bytes(m: Map<u16, SchemaView>, upto: int) -> Seq<u8>
    decreases upto,
{
    if upto <= 0 {
        Seq::empty()
    } else if m.contains_key((upto - 1) as u16) {
        schemas_bytes(m, upto - 1) + schema_bytes(m[(upto - 1) as u16])
    } else {
        schemas_bytes(m, upto - 1)
    }
}

/// The channel records of `m` with an id below `upto`, by ascending id.
pub open spec fn channels_bytes(m: Map<u16, ChannelView>, upto: int) -> Seq<u8>
    decreases upto,
{
    if upto <= 0 {
        Seq::empty()
    } else if m.contains_key((upto - 1) as u16) {
        channels_bytes(m, upto - 1) + channel_bytes(m[(upto - 1) as u16])
    } else {
        channels_bytes(m, upto - 1)
    }
}

/// The chunk index records of `s`, in order.
pub open spec fn chunk_indices_bytes(s: Seq<ChunkIndexView>) -> Seq<u8>
    decreases s.len(),
{
    if s.len() == 0 {
        Seq::empty()
    } else {
        chunk_indices_bytes(s.drop_last()) + chunk_index_bytes(s.last())
    }
}

/// The attachment index records of `s`, in order.
pub open spec fn attachment_indices_bytes(s: Seq<AttachmentIndexView>) -> Seq<u8>
    decreases s.len(),
{
    if s.len() == 0 {
        Seq::empty()
    } else {
        attachment_indices_bytes(s.drop_last()) + attachment_index_bytes(s.last())
    }
}

/// The metadata index records of `s`, in order.
pub open spec fn metadata_indices_bytes(s: Seq<MetadataIndexView>) -> Seq<u8>
    decreases s.len(),
{
    if s.len() == 0 {
        Seq::empty()
    } else {
        metadata_indices_bytes(s.drop_last()) + metadata_index_bytes(s.last())
    }
}

/// `n` as a 16-bit count, the greatest if it does not fit.
pub open spec fn capped16(n: nat) -> u16 {
    if n > u16::MAX {
        u16::MAX
    } else {
        n as u16
    }
}

/// `n` as a 32-bit count, the greatest if it does not fit.
pub open spec fn capped32(n: nat) -> u32 {
    if n > u32::MAX {
        u32::MAX
    } else {
        n as u32
    }
}

/// The statistics of what was written.
pub open spec fn statistics_of(s: WriterView) -> StatisticsView {
    StatisticsView {
        message_count: s.message_count,
        schema_count: capped16(s.schemas.dom().len()),
        channel_count: capped32(s.channels.dom().len()),
        attachment_count: capped32(s.attachment_indices.len()),
        metadata_count: capped32(s.metadata_indices.len()),
        chunk_count: capped32(s.chunk_indices.len()),
        message_start_time: low_of(s.times),
        message_end_time: high_of(s.times),
        channel_message_counts: s.channel_counts,
    }
}

/// The summary section: schemas, channels, chunk indices, attachment
/// indices, metadata indices, statistics.
pub open spec fn summary_bytes(s: WriterView) -> Seq<u8> {
    schemas_bytes(s.schemas, 0x1_0000) + channels_bytes(s.channels, 0x1_0000)
        + chunk_indices_bytes(s.chunk_indices) + attachment_indices_bytes(s.attachment_indices)
        + metadata_indices_bytes(s.metadata_indices) + statistics_bytes(statistics_of(s))
}

/// The data section, closed: the output with the pending records written
/// out and the data end record behind it.
pub open spec fn data_section(flushed: WriterView) -> Seq<u8> {
    flushed.output + data_end_bytes(DataEndRecord { data_section_crc: 0 })
}

/// All the bytes of the file when the writer is closed in the state `s`:
/// pending records written out, the data end record, the summary section,
/// the footer that says where the summary starts, the magic. Closing fails
/// if the place where the summary starts does not fit 64 bits.
pub open spec fn closed(s: WriterView) -> Result<Seq<u8>, ErrorKind> {
    match flushed(s) {
        Err(e) => Err(e),
        Ok(f) => if data_section(f).len() > u64::MAX {
            Err(ErrorKind::InvalidMcap)
        } else {
            Ok(
            data_section(f) + summary_bytes(f) + footer_bytes(
                FooterRecord {
                    summary_start: data_section(f).len() as u64,
                    summary_offset_start: 0,
                    summary_crc: 0,
                },
            ) + magic(),
            )
        },
    }
}

/// The schemas of `m` by their views.
pub open spec fn schema_views(m: Map<u16, SchemaRecord>) -> Map<u16, SchemaView> {
    Map::new(|k: u16| m.contains_key(k), |k: u16| m[k]@)
}

/// The channels of `m` by their views.
pub open spec fn channel_views(m: Map<u16, ChannelRecord>) -> Map<u16, ChannelView> {
    Map::new(|k: u16| m.contains_key(k), |k: u16| m[k]@)
}

/// The chunk index entries by their views.
pub open spec fn chunk_index_views(v: Seq<ChunkIndexRecord>) -> Seq<ChunkIndexView> {
    Seq::new(v.len(), |i: int| v[i]@)
}

/// The attachment index entries by their views.
pub open spec fn attachment_index_views(v: Seq<AttachmentIndexRecord>) -> Seq<AttachmentIndexView> {
    Seq::new(v.len(), |i: int| v[i]@)
}

/// The metadata index entries by their views.
pub open spec fn metadata_index_views(v: Seq<MetadataIndexRecord>) -> Seq<MetadataIndexView> {
    Seq::new(v.len(), |i: int| v[i]@)
}

/// The name in `name`, the empty name if there is none.
pub open spec fn name_or_empty(name: Option<String>) -> Seq<char> {
    match name {
        Some(s) => s@,
        None => Seq::empty(),
    }
}

/// The two ends of a time range as one value.
pub open spec fn range_of(low: Option<u64>, high: Option<u64>) -> Option<(u64, u64)> {
    match (low, high) {
        (Some(l), Some(h)) => Some((l, h)),
        _ => None,
    }
}

/// All that `s` remembers can be encoded, and schemas and channels are
/// remembered by their ids.
pub open spec fn all_fit(s: WriterView) -> bool {
    &&& encode_utf8(s.compression).len() <= u32::MAX
    &&& forall|k: u16|
        #[trigger] s.schemas.contains_key(k) ==> schema_fits(s.schemas[k]) && s.schemas[k].id == k
    &&& forall|k: u16|
        #[trigger] s.channels.contains_key(k) ==> channel_fits(s.channels[k]) && s.channels[k].id
            == k
    &&& forall|i: int|
        0 <= i < s.chunk_indices.len() ==> chunk_index_fits(#[trigger] s.chunk_indices[i])
    &&& forall|i: int|
        0 <= i < s.attachment_indices.len() ==> attachment_index_fits(
            #[trigger] s.attachment_indices[i],
        )
    &&& forall|i: int|
        0 <= i < s.metadata_indices.len() ==> metadata_index_fits(#[trigger] s.metadata_indices[i])
}

/// `n` as a 16-bit count, the greatest if it does not fit.
fn cap16(n: usize) -> (r: u16)
    ensures
        r == capped16(n as nat),
{
    if n > 0xffff {
        0xffff
    } else {
        n as u16
    }
}

/// `n` as a 32-bit count, the greatest if it does not fit.
fn cap32(n: usize) -> (r: u32)
    ensures
        r == capped32(n as nat),
{
    if n > 0xffff_ffff {
        0xffff_ffff
    } else {
        n as u32
    }
}

/// A writer of one file into the sink `W`.
pub struct McapWriter<W: Writer> {
    writer: W,
    profile: String,
    library: String,
    chunk_size: Option<usize>,
    chunk_compression: Option<String>,
    schemas: HashMap<u16, SchemaRecord>,
    channels: HashMap<u16, ChannelRecord>,
    chunk_indices: Vec<ChunkIndexRecord>,
    attachment_indices: Vec<AttachmentIndexRecord>,
    metadata_indices: Vec<MetadataIndexRecord>,
    chunk_buffer: Vec<u8>,
    chunk_message_start_time: Option<u64>,
    chunk_message_end_time: Option<u64>,
    message_count: u64,
    message_start_time: Option<u64>,
    message_end_time: Option<u64>,
    channel_message_counts: HashMap<u16, u64>,
}

impl<W: Writer> View for McapWriter<W> {
    type V = WriterView;

    closed spec fn view(&self) -> WriterView {
        WriterView {
            output: self.writer.written(),
            pending: self.chunk_buffer@,
            chunk_size: self.chunk_size,
            compression: name_or_empty(self.chunk_compression),
            schemas: schema_views(self.schemas@),
            channels: channel_views(self.channels@),
            chunk_indices: chunk_index_views(self.chunk_indices@),
            attachment_indices: attachment_index_views(self.attachment_indices@),
            metadata_indices: metadata_index_views(self.metadata_indices@),
            chunk_times: range_of(self.chunk_message_start_time, self.chunk_message_end_time),
            message_count: self.message_count,
            times: range_of(self.message_start_time, self.message_end_time),
            channel_counts: self.channel_message_counts@,
        }
    }
}

impl McapWriter<BytesWriter> {
    /// A writer into memory.
    pub fn to_bytes(profile: &str, chunk_size: Option<usize>, chunk_compression: Option<&str>) -> (r:
        Result<Self, PybagError>)
        ensures
            r is Ok <==> opening_fits(
                profile@,
                match chunk_compression {
                    Some(name) => name@,
                    None => Seq::empty(),
                },
            ),
            r is Err ==> r->Err_0@ == ErrorKind::InvalidMcap,
            r is Ok ==> r->Ok_0.wf() && r->Ok_0.infallible() && r->Ok_0@ == opened(
                Seq::empty(),
                profile@,
                chunk_size,
                match chunk_compression {
                    Some(name) => name@,
                    None => Seq::empty(),
                },
            ),
    {
        let writer = BytesWriter::new();
        let name = match chunk_compression {
            Some(name) => Some(String::from_str(name)),
            None => None,
        };
        Self::new(writer, profile, chunk_size, name)
    }
}

impl McapWriter<DrainWriter> {
    /// Takes out the bytes written since they were last taken out, so
    /// that they can be handed on while writing goes on. The state of the
    /// writer stays the same.
    pub fn drain(&mut self) -> (r: Vec<u8>)
        requires
            old(self).wf(),
        ensures
            final(self).wf(),
            final(self)@ == old(self)@,
            final(self).infallible() == old(self).infallible(),
            final(self).room() == old(self).room(),
            r@ == old(self).undrained(),
            final(self).undrained() == Seq::<u8>::empty(),
            final(self).drained() == old(self).drained() + r@,
    {
        self.writer.drain()
    }

    /// The bytes written and not yet taken out.
    pub closed spec fn undrained(&self) -> Seq<u8> {
        self.writer.kept()
    }

    /// The bytes taken out so far.
    pub closed spec fn drained(&self) -> Seq<u8> {
        self.writer.taken_out()
    }

    /// All that was written is what was taken out and what is still to be
    /// taken out.
    pub proof fn lemma_output(&self)
        ensures
            self@.output == self.drained() + self.undrained(),
    {
        self.writer.lemma_written();
    }
}

/// Whether a writer can be opened with this profile and this name of the
/// compression: both must fit the fields that hold them.
pub open spec fn opening_fits(profile: Seq<char>, compression: Seq<char>) -> bool {
    encode_utf8(profile).len() <= u32::MAX && encode_utf8(compression).len() <= u32::MAX
}

impl<W: Writer> McapWriter<W> {
    /// Whether writing through the sink cannot fail.
    pub closed spec fn infallible(&self) -> bool {
        self.writer.infallible()
    }

    /// A number of bytes that the sink is sure to take from here on, also
    /// where it is a sink that can fail.
    pub closed spec fn room(&self) -> int {
        self.writer.room()
    }

    /// Whether the sink is sure to take `n` more bytes: it cannot fail, or
    /// it has room for them.
    pub open spec fn takes(&self, n: int) -> bool {
        self.infallible() || n <= self.room()
    }

    /// The sink is in order, the time ranges are whole, and what the writer
    /// remembers can be encoded.
    pub closed spec fn wf(&self) -> bool {
        &&& self.writer.wf()
        &&& all_fit(self@)
        &&& (self.message_start_time is Some <==> self.message_end_time is Some)
        &&& (self.chunk_message_start_time is Some <==> self.chunk_message_end_time is Some)
    }

    /// Opens a writer on `writer`: writes the magic and the header.
    #[verifier::rlimit(50)]
    pub fn new(
        mut writer: W,
        profile: &str,
        chunk_size: Option<usize>,
        chunk_compression: Option<String>,
    ) -> (r: Result<Self, PybagError>)
        requires
            writer.wf(),
        ensures
            !opening_fits(profile@, name_or_empty(chunk_compression)) ==> r is Err && r->Err_0@
                == ErrorKind::InvalidMcap,
            opening_fits(profile@, name_or_empty(chunk_compression)) && (writer.infallible() || opened(
                writer.written(),
                profile@,
                chunk_size,
                name_or_empty(chunk_compression),
            ).output.len() - writer.written().len() <= writer.room()) ==> r is Ok,
            r is Ok ==> r->Ok_0.wf() && r->Ok_0.infallible() == writer.infallible() && r->Ok_0@
                == opened(writer.written(), profile@, chunk_size, name_or_empty(chunk_compression)),
            r is Ok ==> r->Ok_0.room() + r->Ok_0@.output.len() >= writer.room() + writer.written().len(),
    {
        let ghost before = writer.written();
        let library = String::from_str("pybag_rs");
        proof {
            reveal_strlit("pybag_rs");
            assert(library@ =~= library_name());
        }
        let header = HeaderRecord { profile: String::from_str(profile), library: library.clone() };
        let name_fits = match &chunk_compression {
            Some(name) => name.as_str().as_bytes().len() <= 0xffff_ffff,
            None => true,
        };
        proof {
            assert(encode_utf8(library_name()).len() <= u32::MAX) by {
                lemma_library_name_fits();
            }
            assert(encode_utf8(Seq::<char>::empty()).len() == 0) by {
                lemma_empty_name_fits();
            }
        }
        if !header_encodable(&header) || !name_fits {
            return Err(PybagError::InvalidMcap("Profile or compression name too long".to_string()));
        }
        let mut buf = magic_bytes();
        encode_header(&mut buf, &header);
        match writer.write(buf.as_slice()) {
            Ok(_) => {},
            Err(e) => {
                return Err(e);
            },
        }
        let out = Self {
            writer,
            profile: String::from_str(profile),
            library,
            chunk_size,
            chunk_compression,
            schemas: HashMap::new(),
            channels: HashMap::new(),
            chunk_indices: Vec::new(),
            attachment_indices: Vec::new(),
            metadata_indices: Vec::new(),
            chunk_buffer: Vec::new(),
            chunk_message_start_time: None,
            chunk_message_end_time: None,
            message_count: 0,
            message_start_time: None,
            message_end_time: None,
            channel_message_counts: HashMap::new(),
        };
        proof {
            let expected = opened(
                before,
                profile@,
                chunk_size,
                name_or_empty(chunk_compression),
            );
            assert(out@.schemas =~= expected.schemas);
            assert(out@.channels =~= expected.channels);
            assert(out@.chunk_indices =~= expected.chunk_indices);
            assert(out@.attachment_indices =~= expected.attachment_indices);
            assert(out@.metadata_indices =~= expected.metadata_indices);
            assert(out@.channel_counts =~= expected.channel_counts);
            assert(out@.output =~= expected.output);
            assert(out@.pending =~= expected.pending);
        }
        Ok(out)
    }

    /// Puts the bytes of one record with the pending records, or hands them
    /// to the sink if there are no chunks.
    fn emit(&mut self, bytes: &Vec<u8>) -> (r: Result<(), PybagError>)
        requires
            old(self).wf(),
        ensures
            final(self).wf(),
            final(self).infallible() == old(self).infallible(),
            r is Ok ==> final(self).room() + final(self)@.output.len() >= old(self).room() + old(
                self,
            )@.output.len(),
            old(self).takes(with_record(old(self)@, bytes@).output.len() - old(self)@.output.len())
                ==> r is Ok,
            r is Ok ==> final(self)@ == with_record(old(self)@, bytes@),
    {
        if self.chunk_size.is_some() {
            self.chunk_buffer.extend_from_slice(bytes.as_slice());
            proof {
                lemma_same_view(self@, with_record(old(self)@, bytes@));
            }
            Ok(())
        } else {
            match self.writer.write(bytes.as_slice()) {
                Ok(_) => {
                    proof {
                        lemma_same_view(self@, with_record(old(self)@, bytes@));
                    }
                    Ok(())
                },
                Err(e) => Err(e),
            }
        }
    }

    /// Writes a schema record and remembers the schema for the summary.
    /// Fails, and changes nothing, if a length in the schema does not fit
    /// its field.
    pub fn write_schema(&mut self, schema: &SchemaRecord) -> (r: Result<(), PybagError>)
        requires
            old(self).wf(),
        ensures
            final(self).wf(),
            final(self).infallible() == old(self).infallible(),
            r is Ok ==> final(self).room() + final(self)@.output.len() >= old(self).room() + old(
                self,
            )@.output.len(),
            !schema_fits(schema@) ==> r is Err && r->Err_0@ == ErrorKind::InvalidMcap && final(self)@
                == old(self)@,
            schema_fits(schema@) && old(self).takes(
                after_schema(old(self)@, schema@).output.len() - old(self)@.output.len(),
            ) ==> r is Ok,
            r is Ok ==> final(self)@ == after_schema(old(self)@, schema@),
    {
        if !schema_encodable(schema) {
            return Err(PybagError::InvalidMcap("Schema too long".to_string()));
        }
        self.schemas.insert(schema.id, schema.clone());
        proof {
            assert(schema_views(self.schemas@) =~= schema_views(old(self).schemas@).insert(
                schema.id,
                schema@,
            ));
        }
        let mut buf: Vec<u8> = Vec::new();
        encode_schema(&mut buf, schema);
        assert(buf@ =~= schema_bytes(schema@));
        self.emit(&buf)
    }

    /// Writes a channel record and remembers the channel for the summary.
    /// Fails, and changes nothing, if a length in the channel does not fit
    /// its field.
    pub fn write_channel(&mut self, channel: &ChannelRecord) -> (r: Result<(), PybagError>)
        requires
            old(self).wf(),
        ensures
            final(self).wf(),
            final(self).infallible() == old(self).infallible(),
            r is Ok ==> final(self).room() + final(self)@.output.len() >= old(self).room() + old(
                self,
            )@.output.len(),
            !channel_fits(channel@) ==> r is Err && r->Err_0@ == ErrorKind::InvalidMcap && final(self)@ == old(self)@,
            channel_fits(channel@) && old(self).takes(
                after_channel(old(self)@, channel@).output.len() - old(self)@.output.len(),
            ) ==> r is Ok,
            r is Ok ==> final(self)@ == after_channel(old(self)@, channel@),
    {
        if !channel_encodable(channel) {
            return Err(PybagError::InvalidMcap("Channel too long".to_string()));
        }
        self.channels.insert(channel.id, channel.clone());
        proof {
            assert(channel_views(self.channels@) =~= channel_views(old(self).channels@).insert(
                channel.id,
                channel@,
            ));
        }
        let mut buf: Vec<u8> = Vec::new();
        encode_channel(&mut buf, channel);
        assert(buf@ =~= channel_bytes(channel@));
        self.emit(&buf)
    }

    /// Counts a message: one more in all, one more on its channel, and its
    /// log time within the range of the file.
    #[verifier::rlimit(50)]
    fn count_message(&mut self, message: &MessageRecord)
        requires
            old(self).wf(),
        ensures
            final(self).wf(),
            final(self).infallible() == old(self).infallible(),
            final(self).room() == old(self).room(),
            final(self)@ == (WriterView {
                message_count: bump(old(self)@.message_count),
                channel_counts: old(self)@.channel_counts.insert(
                    message.channel_id,
                    bump(count_of(old(self)@.channel_counts, message.channel_id)),
                ),
                times: widened(old(self)@.times, message.log_time),
                ..old(self)@
            }),
    {
        if self.message_count < u64::MAX {
            self.message_count = self.message_count + 1;
        }
        let prior: u64 = match self.channel_message_counts.get(&message.channel_id) {
            Some(c) => *c,
            None => 0,
        };
        let next: u64 = if prior < u64::MAX {
            prior + 1
        } else {
            prior
        };
        self.channel_message_counts.insert(message.channel_id, next);
        let t = message.log_time;
        match self.message_start_time {
            Some(low) => {
                if t < low {
                    self.message_start_time = Some(t);
                }
            },
            None => {
                self.message_start_time = Some(t);
            },
        }
        match self.message_end_time {
            Some(high) => {
                if t > high {
                    self.message_end_time = Some(t);
                }
            },
            None => {
                self.message_end_time = Some(t);
            },
        }
        proof {
            lemma_same_view(
                self@,
                WriterView {
                    message_count: bump(old(self)@.message_count),
                    channel_counts: old(self)@.channel_counts.insert(
                        message.channel_id,
                        bump(count_of(old(self)@.channel_counts, message.channel_id)),
                    ),
                    times: widened(old(self)@.times, message.log_time),
                    ..old(self)@
                },
            );
        }
    }

    /// Writes a message record. With chunks, the message joins the pending
    /// records, and they are written out as a chunk once they have reached
    /// the chunk size. Fails, and changes nothing, if the message is too
    /// long to be encoded.
    #[verifier::rlimit(50)]
    pub fn write_message(&mut self, message: &MessageRecord) -> (r: Result<(), PybagError>)
        requires
            old(self).wf(),
        ensures
            final(self).wf(),
            final(self).infallible() == old(self).infallible(),
            r is Ok ==> final(self).room() + final(self)@.output.len() >= old(self).room() + old(
                self,
            )@.output.len(),
            !message_fits(message@) ==> r is Err && r->Err_0@ == ErrorKind::InvalidMcap && final(self)@ == old(self)@,
            message_fits(message@) ==> match after_message(old(self)@, message@) {
                Ok(next) => (old(self).takes(next.output.len() - old(self)@.output.len()) ==> r is Ok)
                    && (r is Ok ==> final(self)@ == next),
                Err(e) => r is Err && r->Err_0@ == e,
            },
    {
        if !message_encodable(message) {
            return Err(PybagError::InvalidMcap("Message too long".to_string()));
        }
        self.count_message(message);
        let ghost counted = self@;
        match self.chunk_size {
            Some(size) => {
                let t = message.log_time;
                match self.chunk_message_start_time {
                    Some(low) => {
                        if t < low {
                            self.chunk_message_start_time = Some(t);
                        }
                    },
                    None => {
                        self.chunk_message_start_time = Some(t);
                    },
                }
                match self.chunk_message_end_time {
                    Some(high) => {
                        if t > high {
                            self.chunk_message_end_time = Some(t);
                        }
                    },
                    None => {
                        self.chunk_message_end_time = Some(t);
                    },
                }
                encode_message(&mut self.chunk_buffer, message);
                proof {
                    lemma_same_view(
                        self@,
                        WriterView {
                            pending: counted.pending + message_bytes(message@),
                            chunk_times: widened(counted.chunk_times, message.log_time),
                            ..counted
                        },
                    );
                }
                if self.chunk_buffer.len() >= size {
                    self.flush_chunk()
                } else {
                    Ok(())
                }
            },
            None => {
                let mut buf: Vec<u8> = Vec::new();
                encode_message(&mut buf, message);
                assert(buf@ =~= message_bytes(message@));
                match self.writer.write(buf.as_slice()) {
                    Ok(_) => {
                        proof {
                            lemma_same_view(
                                self@,
                                WriterView {
                                    output: counted.output + message_bytes(message@),
                                    ..counted
                                },
                            );
                        }
                        Ok(())
                    },
                    Err(e) => Err(e),
                }
            },
        }
    }

    /// Writes the pending records out as a chunk, if there are any, and
    /// remembers where the chunk lies. Changes nothing if the compression
    /// fails.
    #[verifier::rlimit(50)]
    fn flush_chunk(&mut self) -> (r: Result<(), PybagError>)
        requires
            old(self).wf(),
        ensures
            final(self).wf(),
            final(self).infallible() == old(self).infallible(),
            r is Ok ==> final(self).room() + final(self)@.output.len() >= old(self).room() + old(
                self,
            )@.output.len(),
            match flushed(old(self)@) {
                Ok(next) => (old(self).takes(next.output.len() - old(self)@.output.len()) ==> r is Ok)
                    && (r is Ok ==> final(self)@ == next),
                Err(e) => r is Err && r->Err_0@ == e && final(self)@ == old(self)@,
            },
    {
        if self.chunk_buffer.len() == 0 {
            return Ok(());
        }
        proof {
            self.writer.lemma_wf();
            lemma_empty_name_fits();
        }
        let compression: String = match &self.chunk_compression {
            Some(name) => name.clone(),
            None => String::new(),
        };
        let records = match compress_chunk(compression.as_str(), self.chunk_buffer.as_slice()) {
            Ok(records) => records,
            Err(e) => {
                return Err(e);
            },
        };
        let uncompressed_crc = compute_crc(self.chunk_buffer.as_slice());
        self.write_chunk(records, uncompressed_crc)
    }

    /// Writes the pending records out as a chunk that stores them as
    /// `records`, with `uncompressed_crc` as their checksum, and remembers
    /// where the chunk lies.
    #[verifier::rlimit(50)]
    pub fn write_chunk(&mut self, records: Vec<u8>, uncompressed_crc: u32) -> (r: Result<
        (),
        PybagError,
    >)
        requires
            old(self).wf(),
        ensures
            final(self).wf(),
            final(self).infallible() == old(self).infallible(),
            r is Ok ==> final(self).room() + final(self)@.output.len() >= old(self).room() + old(
                self,
            )@.output.len(),
            old(self).takes(
                with_chunk(old(self)@, records@, uncompressed_crc).output.len() - old(
                    self,
                )@.output.len(),
            ) ==> r is Ok,
            r is Ok ==> final(self)@ == with_chunk(old(self)@, records@, uncompressed_crc),
    {
        proof {
            self.writer.lemma_wf();
            lemma_empty_name_fits();
        }
        let compression: String = match &self.chunk_compression {
            Some(name) => name.clone(),
            None => String::new(),
        };
        let uncompressed_size = self.chunk_buffer.len() as u64;
        let compressed_size = records.len() as u64;
        let start = match self.chunk_message_start_time {
            Some(t) => t,
            None => 0,
        };
        let end = match self.chunk_message_end_time {
            Some(t) => t,
            None => 0,
        };
        let chunk = ChunkRecord {
            message_start_time: start,
            message_end_time: end,
            uncompressed_size,
            uncompressed_crc,
            compression: compression.clone(),
            records,
        };
        let ghost expected_chunk = chunk_of(old(self)@, chunk.records@, uncompressed_crc);
        assert(chunk@ == expected_chunk);
        let chunk_start_offset = self.writer.position();
        let mut buf: Vec<u8> = Vec::new();
        encode_chunk(&mut buf, &chunk);
        assert(buf@ =~= chunk_bytes(chunk@));
        match self.writer.write(buf.as_slice()) {
            Ok(_) => {},
            Err(e) => {
                return Err(e);
            },
        }
        let index = ChunkIndexRecord {
            message_start_time: start,
            message_end_time: end,
            chunk_start_offset,
            chunk_length: buf.len() as u64,
            message_index_offsets: HashMap::new(),
            message_index_length: 0,
            compression,
            compressed_size,
            uncompressed_size,
        };
        proof {
            assert(index@.message_index_offsets =~= Map::<u16, u64>::empty());
            assert(index@ == chunk_index_of(old(self)@, chunk.records@, uncompressed_crc));
            assert(chunk_index_fits(index@));
        }
        self.chunk_indices.push(index);
        self.chunk_buffer = Vec::new();
        self.chunk_message_start_time = None;
        self.chunk_message_end_time = None;
        proof {
            let next = with_chunk(old(self)@, chunk.records@, uncompressed_crc);
            assert(chunk_index_views(self.chunk_indices@) =~= chunk_index_views(
                old(self).chunk_indices@,
            ).push(index@));
            lemma_same_view(self@, next);
        }
        Ok(())
    }

    /// Writes an attachment record behind all that was written before,
    /// outside any chunk, and remembers where it lies. Fails, and changes
    /// nothing, if a length in the attachment does not fit its field.
    #[verifier::rlimit(50)]
    pub fn write_attachment(&mut self, attachment: &AttachmentRecord) -> (r: Result<(), PybagError>)
        requires
            old(self).wf(),
        ensures
            final(self).wf(),
            final(self).infallible() == old(self).infallible(),
            r is Ok ==> final(self).room() + final(self)@.output.len() >= old(self).room() + old(
                self,
            )@.output.len(),
            !attachment_fits(attachment@) ==> r is Err && r->Err_0@ == ErrorKind::InvalidMcap
                && final(self)@ == old(self)@,
            attachment_fits(attachment@) ==> match after_attachment(old(self)@, attachment@) {
                Ok(next) => (old(self).takes(next.output.len() - old(self)@.output.len()) ==> r is Ok)
                    && (r is Ok ==> final(self)@ == next),
                Err(e) => r is Err && r->Err_0@ == e && final(self)@ == old(self)@,
            },
    {
        if !attachment_encodable(attachment) {
            return Err(PybagError::InvalidMcap("Attachment too long".to_string()));
        }
        match self.flush_chunk() {
            Ok(_) => {},
            Err(e) => {
                return Err(e);
            },
        }
        let ghost flushed_view = self@;
        proof {
            self.writer.lemma_wf();
        }
        let offset = self.writer.position();
        let mut buf: Vec<u8> = Vec::new();
        encode_attachment(&mut buf, attachment);
        assert(buf@ =~= attachment_bytes(attachment@));
        match self.writer.write(buf.as_slice()) {
            Ok(_) => {},
            Err(e) => {
                return Err(e);
            },
        }
        let index = AttachmentIndexRecord {
            offset,
            length: buf.len() as u64,
            log_time: attachment.log_time,
            create_time: attachment.create_time,
            data_size: attachment.data.len() as u64,
            name: attachment.name.clone(),
            media_type: attachment.media_type.clone(),
        };
        assert(index@ == attachment_index_of(flushed_view.output, attachment@));
        self.attachment_indices.push(index);
        proof {
            assert(attachment_index_views(self.attachment_indices@) =~= attachment_index_views(
                old(self).attachment_indices@,
            ).push(index@));
            lemma_same_view(self@, after_attachment(old(self)@, attachment@)->Ok_0);
        }
        Ok(())
    }

    /// Writes a metadata record behind all that was written before, outside
    /// any chunk, and remembers where it lies. Fails, and changes nothing,
    /// if a length in the record does not fit its field.
    #[verifier::rlimit(50)]
    pub fn write_metadata(&mut self, metadata: &MetadataRecord) -> (r: Result<(), PybagError>)
        requires
            old(self).wf(),
        ensures
            final(self).wf(),
            final(self).infallible() == old(self).infallible(),
            r is Ok ==> final(self).room() + final(self)@.output.len() >= old(self).room() + old(
                self,
            )@.output.len(),
            !metadata_fits(metadata@) ==> r is Err && r->Err_0@ == ErrorKind::InvalidMcap && final(self)@ == old(self)@,
            metadata_fits(metadata@) ==> match after_metadata(old(self)@, metadata@) {
                Ok(next) => (old(self).takes(next.output.len() - old(self)@.output.len()) ==> r is Ok)
                    && (r is Ok ==> final(self)@ == next),
                Err(e) => r is Err && r->Err_0@ == e && final(self)@ == old(self)@,
            },
    {
        if !metadata_encodable(metadata) {
            return Err(PybagError::InvalidMcap("Metadata too long".to_string()));
        }
        match self.flush_chunk() {
            Ok(_) => {},
            Err(e) => {
                return Err(e);
            },
        }
        let ghost flushed_view = self@;
        proof {
            self.writer.lemma_wf();
        }
        let offset = self.writer.position();
        let mut buf: Vec<u8> = Vec::new();
        encode_metadata(&mut buf, metadata);
        assert(buf@ =~= metadata_bytes(metadata@));
        match self.writer.write(buf.as_slice()) {
            Ok(_) => {},
            Err(e) => {
                return Err(e);
            },
        }
        let index = MetadataIndexRecord {
            offset,
            length: buf.len() as u64,
            name: metadata.name.clone(),
        };
        assert(index@ == metadata_index_of(flushed_view.output, metadata@));
        self.metadata_indices.push(index);
        proof {
            assert(metadata_index_views(self.metadata_indices@) =~= metadata_index_views(
                old(self).metadata_indices@,
            ).push(index@));
            lemma_same_view(self@, after_metadata(old(self)@, metadata@)->Ok_0);
        }
        Ok(())
    }

    /// Appends the schema records by ascending id.
    fn put_schemas(&self, tail: &mut Vec<u8>)
        requires
            self.wf(),
        ensures
            final(tail)@ == old(tail)@ + schemas_bytes(self@.schemas, 0x1_0000),
    {
        let ghost base = tail@;
        let ghost f = self@;
        let mut id: u32 = 0;
        assert(tail@ =~= base + schemas_bytes(f.schemas, 0));
        while id < 0x1_0000
            invariant
                id <= 0x1_0000,
                self.wf(),
                self@ == f,
                tail@ == base + schemas_bytes(f.schemas, id as int),
            decreases 0x1_0000 - id,
        {
            let key = id as u16;
            match self.schemas.get(&key) {
                Some(schema) => {
                    assert(f.schemas.contains_key(key));
                    assert(f.schemas[key] == schema@);
                    encode_schema(tail, schema);
                    assert(tail@ =~= base + schemas_bytes(f.schemas, id + 1));
                },
                None => {
                    assert(!f.schemas.contains_key(key));
                },
            }
            id += 1;
        }
    }

    /// Appends the channel records by ascending id.
    fn put_channels(&self, tail: &mut Vec<u8>)
        requires
            self.wf(),
        ensures
            final(tail)@ == old(tail)@ + channels_bytes(self@.channels, 0x1_0000),
    {
        let ghost base = tail@;
        let ghost f = self@;
        let mut id: u32 = 0;
        assert(tail@ =~= base + channels_bytes(f.channels, 0));
        while id < 0x1_0000
            invariant
                id <= 0x1_0000,
                self.wf(),
                self@ == f,
                tail@ == base + channels_bytes(f.channels, id as int),
            decreases 0x1_0000 - id,
        {
            let key = id as u16;
            match self.channels.get(&key) {
                Some(channel) => {
                    assert(f.channels.contains_key(key));
                    assert(f.channels[key] == channel@);
                    encode_channel(tail, channel);
                    assert(tail@ =~= base + channels_bytes(f.channels, id + 1));
                },
                None => {
                    assert(!f.channels.contains_key(key));
                },
            }
            id += 1;
        }
    }

    /// Appends the chunk index records in order.
    fn put_chunk_indices(&self, tail: &mut Vec<u8>)
        requires
            self.wf(),
        ensures
            final(tail)@ == old(tail)@ + chunk_indices_bytes(self@.chunk_indices),
    {
        let ghost base = tail@;
        let ghost f = self@;
        let mut i: usize = 0;
        assert(f.chunk_indices.take(0) =~= Seq::empty());
        assert(tail@ =~= base + chunk_indices_bytes(f.chunk_indices.take(0)));
        while i < self.chunk_indices.len()
            invariant
                i <= self.chunk_indices.len(),
                self.wf(),
                self@ == f,
                tail@ == base + chunk_indices_bytes(f.chunk_indices.take(i as int)),
            decreases self.chunk_indices.len() - i,
        {
            proof {
                let next = f.chunk_indices.take(i + 1);
                assert(next.drop_last() =~= f.chunk_indices.take(i as int));
                assert(next.last() == f.chunk_indices[i as int]);
                assert(f.chunk_indices[i as int] == self.chunk_indices@[i as int]@);
            }
            encode_chunk_index(tail, &self.chunk_indices[i]);
            assert(tail@ =~= base + chunk_indices_bytes(f.chunk_indices.take(i + 1)));
            i += 1;
        }
        assert(f.chunk_indices.take(self.chunk_indices.len() as int) =~= f.chunk_indices);
    }

    /// Appends the attachment index records in order.
    fn put_attachment_indices(&self, tail: &mut Vec<u8>)
        requires
            self.wf(),
        ensures
            final(tail)@ == old(tail)@ + attachment_indices_bytes(self@.attachment_indices),
    {
        let ghost base = tail@;
        let ghost f = self@;
        let mut i: usize = 0;
        assert(f.attachment_indices.take(0) =~= Seq::empty());
        assert(tail@ =~= base + attachment_indices_bytes(f.attachment_indices.take(0)));
        while i < self.attachment_indices.len()
            invariant
                i <= self.attachment_indices.len(),
                self.wf(),
                self@ == f,
                tail@ == base + attachment_indices_bytes(f.attachment_indices.take(i as int)),
            decreases self.attachment_indices.len() - i,
        {
            proof {
                let next = f.attachment_indices.take(i + 1);
                assert(next.drop_last() =~= f.attachment_indices.take(i as int));
                assert(next.last() == f.attachment_indices[i as int]);
                assert(f.attachment_indices[i as int] == self.attachment_indices@[i as int]@);
            }
            encode_attachment_index(tail, &self.attachment_indices[i]);
            assert(tail@ =~= base + attachment_indices_bytes(f.attachment_indices.take(i + 1)));
            i += 1;
        }
        assert(f.attachment_indices.take(self.attachment_indices.len() as int)
            =~= f.attachment_indices);
    }

    /// Appends the metadata index records in order.
    fn put_metadata_indices(&self, tail: &mut Vec<u8>)
        requires
            self.wf(),
        ensures
            final(tail)@ == old(tail)@ + metadata_indices_bytes(self@.metadata_indices),
    {
        let ghost base = tail@;
        let ghost f = self@;
        let mut i: usize = 0;
        assert(f.metadata_indices.take(0) =~= Seq::empty());
        assert(tail@ =~= base + metadata_indices_bytes(f.metadata_indices.take(0)));
        while i < self.metadata_indices.len()
            invariant
                i <= self.metadata_indices.len(),
                self.wf(),
                self@ == f,
                tail@ == base + metadata_indices_bytes(f.metadata_indices.take(i as int)),
            decreases self.metadata_indices.len() - i,
        {
            proof {
                let next = f.metadata_indices.take(i + 1);
                assert(next.drop_last() =~= f.metadata_indices.take(i as int));
                assert(next.last() == f.metadata_indices[i as int]);
                assert(f.metadata_indices[i as int] == self.metadata_indices@[i as int]@);
            }
            encode_metadata_index(tail, &self.metadata_indices[i]);
            assert(tail@ =~= base + metadata_indices_bytes(f.metadata_indices.take(i + 1)));
            i += 1;
        }
        assert(f.metadata_indices.take(self.metadata_indices.len() as int) =~= f.metadata_indices);
    }

    /// The statistics of what was written so far.
    fn statistics(&self) -> (r: StatisticsRecord)
        requires
            self.wf(),
        ensures
            r@ == statistics_of(self@),
    {
        let statistics = StatisticsRecord {
            message_count: self.message_count,
            schema_count: cap16(self.schemas.len()),
            channel_count: cap32(self.channels.len()),
            attachment_count: cap32(self.attachment_indices.len()),
            metadata_count: cap32(self.metadata_indices.len()),
            chunk_count: cap32(self.chunk_indices.len()),
            message_start_time: match self.message_start_time {
                Some(t) => t,
                None => 0,
            },
            message_end_time: match self.message_end_time {
                Some(t) => t,
                None => 0,
            },
            channel_message_counts: self.channel_message_counts.clone(),
        };
        proof {
            assert(self@.schemas.dom() =~= self.schemas@.dom());
            assert(self@.channels.dom() =~= self.channels@.dom());
        }
        statistics
    }

    /// Appends the summary section.
    fn put_summary(&self, tail: &mut Vec<u8>)
        requires
            self.wf(),
        ensures
            final(tail)@ == old(tail)@ + summary_bytes(self@),
    {
        self.put_schemas(tail);
        self.put_channels(tail);
        self.put_chunk_indices(tail);
        self.put_attachment_indices(tail);
        self.put_metadata_indices(tail);
        let statistics = self.statistics();
        encode_statistics(tail, &statistics);
        assert(tail@ =~= old(tail)@ + summary_bytes(self@));
    }

    /// Closes the file and hands back the sink: writes out the pending
    /// records, then the data end record, the summary section, the footer
    /// and the magic.
    #[verifier::rlimit(50)]
    #[verifier::spinoff_prover]
    pub fn finish(self) -> (r: Result<W, PybagError>)
        requires
            self.wf(),
        ensures
            match closed(self@) {
                Ok(bytes) => (self.takes(bytes.len() - self@.output.len()) ==> r is Ok) && (r is Ok
                    ==> r->Ok_0.wf() && r->Ok_0.written() == bytes),
                Err(e) => r is Err && (r->Err_0@ == e || !self.infallible()),
            },
    {
        let ghost before = self@;
        let mut this = self;
        match this.flush_chunk() {
            Ok(_) => {},
            Err(e) => {
                return Err(e);
            },
        }
        let ghost f = this@;
        proof {
            this.writer.lemma_wf();
        }
        let mut tail: Vec<u8> = Vec::new();
        encode_data_end(&mut tail, &DataEndRecord { data_section_crc: 0 });
        let position = this.writer.position();
        if tail.len() as u64 > u64::MAX - position {
            return Err(PybagError::InvalidMcap("File too long".to_string()));
        }
        let summary_start = position + tail.len() as u64;
        assert(f.output + tail@ =~= data_section(f));
        this.put_summary(&mut tail);
        let footer = FooterRecord { summary_start, summary_offset_start: 0, summary_crc: 0 };
        encode_footer(&mut tail, &footer);
        let mut end = magic_bytes();
        tail.append(&mut end);
        assert(f.output + tail@ =~= closed(before)->Ok_0);
        match this.writer.write(tail.as_slice()) {
            Ok(_) => {},
            Err(e) => {
                return Err(e);
            },
        }
        match this.writer.flush() {
            Ok(_) => {},
            Err(e) => {
                return Err(e);
            },
        }
        Ok(this.writer)
    }

    /// Closes the file: writes out the pending records, then the data end
    /// record, the summary section, the footer and the magic, and lets go
    /// of the sink.
    pub fn close(self) -> (r: Result<(), PybagError>)
        requires
            self.wf(),
        ensures
            match closed(self@) {
                Ok(bytes) => self.takes(bytes.len() - self@.output.len()) ==> r is Ok,
                Err(e) => r is Err && (r->Err_0@ == e || !self.infallible()),
            },
    {
        match self.finish() {
            Ok(_) => Ok(()),
            Err(e) => Err(e),
        }
    }
}

/// The name of the library fits the field that holds it.
pub proof fn lemma_library_name_fits()
    ensures
        encode_utf8(library_name()).len() <= u32::MAX,
{
    vstd::utf8::is_ascii_chars_encode_utf8(library_name());
}

/// The empty name is encoded as no bytes.
pub proof fn lemma_empty_name_fits()
    ensures
        encode_utf8(Seq::<char>::empty()).len() == 0,
{
    vstd::utf8::is_ascii_chars_encode_utf8(Seq::<char>::empty());
}

/// Two states whose parts hold the same are the same.
pub proof fn lemma_same_view(a: WriterView, b: WriterView)
    requires
        a.output =~= b.output,
        a.pending =~= b.pending,
        a.chunk_size == b.chunk_size,
        a.compression =~= b.compression,
        a.schemas =~= b.schemas,
        a.channels =~= b.channels,
        a.chunk_indices =~= b.chunk_indices,
        a.attachment_indices =~= b.attachment_indices,
        a.metadata_indices =~= b.metadata_indices,
        a.chunk_times == b.chunk_times,
        a.message_count == b.message_count,
        a.times == b.times,
        a.channel_counts =~= b.channel_counts,
    ensures
        a == b,
{
}

} // verus!
