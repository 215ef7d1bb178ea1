//! Reading messages in place: the payload of a message is a part of the
//! bytes of the file, or of a chunk's decompressed records, not a copy.

use crate::encoding::cdr::string_from_utf8;
use crate::endian::{group_widths, le_u16, le_u32, le_u64, read_u64_le};
use crate::error::{ErrorKind, PybagError};
use crate::io::reader::{read_at, SliceReader, SliceView};
use crate::mcap::chunk::{decompress_chunk, decompressed};
use crate::mcap::parser::is_magic_at;
use crate::mcap::records::{message_body, MessageView};
use crate::mcap::wire::BodyCursor;
use vstd::prelude::*;
use vstd::slice::slice_subrange;
use vstd::slice::slice_to_vec;
use vstd::utf8::{decode_utf8, valid_utf8};

verus! {

broadcast use group_widths;

/// A message whose payload is borrowed.
#[derive(Debug, Clone, Copy)]
pub struct MessageRef<'a> {
    pub channel_id: u16,
    pub sequence: u32,
    pub log_time: u64,
    pub publish_time: u64,
    pub data: &'a [u8],
}

impl<'a> View for MessageRef<'a> {
    type V = MessageView;

    open spec fn view(&self) -> MessageView {
        MessageView {
            channel_id: self.channel_id,
            sequence: self.sequence,
            log_time: self.log_time,
            publish_time: self.publish_time,
            data: self.data@,
        }
    }
}

/// Where a chunk lies and what it holds, as far as reading needs it.
#[derive(Debug)]
pub struct ChunkMeta {
    pub offset: u64,
    pub message_start_time: u64,
    pub message_end_time: u64,
    pub compression: String,
    pub compressed_size: u64,
    pub uncompressed_size: u64,
}

/// What a `ChunkMeta` holds, as mathematical values.
pub struct ChunkMetaView {
    pub offset: u64,
    pub message_start_time: u64,
    pub message_end_time: u64,
    pub compression: Seq<char>,
    pub compressed_size: u64,
    pub uncompressed_size: u64,
}

impl View for ChunkMeta {
    type V = ChunkMetaView;

    open spec fn view(&self) -> ChunkMetaView {
        ChunkMetaView {
            offset: self.offset,
            message_start_time: self.message_start_time,
            message_end_time: self.message_end_time,
            compression: self.compression@,
            compressed_size: self.compressed_size,
            uncompressed_size: self.uncompressed_size,
        }
    }
}

impl Clone for ChunkMeta {
    fn clone(&self) -> (r: Self)
        ensures
            r@ == self@,
    {
        ChunkMeta {
            offset: self.offset,
            message_start_time: self.message_start_time,
            message_end_time: self.message_end_time,
            compression: self.compression.clone(),
            compressed_size: self.compressed_size,
            uncompressed_size: self.uncompressed_size,
        }
    }
}

/// The chunk metadata by their views.
pub open spec fn meta_views(v: Seq<ChunkMeta>) -> Seq<ChunkMetaView> {
    Seq::new(v.len(), |i: int| v[i]@)
}

/// What a search for the next message in `data` from `pos` on and before
/// `end` yields: the message with the position behind it, or nothing, or
/// a format error. Records of other kinds are skipped by their length.
/// The search ends with nothing where fewer than 10 bytes are left before
/// `end`, and, if `stops` is set, at a data end record or a footer. It
/// fails at a record whose length runs over `end`, and at a message
/// record that is shorter than the fixed fields of a message.
pub open spec fn message_step(data: Seq<u8>, pos: int, end: int, stops: bool) -> Result<
    Option<(MessageView, int)>,
    ErrorKind,
>
    decreases end - pos,
{
    if pos < 0 || end > data.len() || pos + 9 >= end {
        Ok(None)
    } else {
        let n = le_u64(data.subrange(pos + 1, pos + 9)) as int;
        if pos + 9 + n > end {
            Err(ErrorKind::InvalidMcap)
        } else if data[pos] == 0x05 && n < 22 {
            Err(ErrorKind::InvalidMcap)
        } else if data[pos] == 0x05 {
            match message_body(data.subrange(pos + 9, pos + 9 + n)) {
                Ok(m) => Ok(Some((m, pos + 9 + n))),
                Err(e) => Err(e),
            }
        } else if stops && (data[pos] == 0x0F || data[pos] == 0x02) {
            Ok(None)
        } else {
            message_step(data, pos + 9 + n, end, stops)
        }
    }
}

/// The messages in `data` from `pos` on and before `end`, in order, behind
/// `acc`; a format error if a record among them runs over `end`.
pub open spec fn messages_within(
    data: Seq<u8>,
    pos: int,
    end: int,
    stops: bool,
    acc: Seq<MessageView>,
) -> Result<Seq<MessageView>, ErrorKind>
    decreases end - pos,
{
    match message_step(data, pos, end, stops) {
        Err(e) => Err(e),
        Ok(None) => Ok(acc),
        Ok(Some((m, next))) => if pos < next <= end {
            messages_within(data, next, end, stops, acc.push(m))
        } else {
            Ok(acc.push(m))
        },
    }
}

/// The next message in `data` from `pos` on and before `end`, with the
/// position behind it, for an iteration that cannot fail: it ends where
/// the search yields nothing and where it fails.
pub open spec fn next_message_at(data: Seq<u8>, pos: int, end: int, stops: bool) -> Option<
    (MessageView, int),
> {
    match message_step(data, pos, end, stops) {
        Ok(found) => found,
        Err(_) => None,
    }
}

/// All the messages that an iteration that cannot fail hands out, from
/// `pos` on and before `end`, in order.
pub open spec fn messages_between(data: Seq<u8>, pos: int, end: int, stops: bool) -> Seq<MessageView>
    decreases end - pos,
{
    match next_message_at(data, pos, end, stops) {
        None => Seq::empty(),
        Some((m, next)) => if pos < next <= end {
            seq![m] + messages_between(data, next, end, stops)
        } else {
            seq![m]
        },
    }
}

/// Where a message is found lies behind where the search began, and not
/// behind the end.
pub proof fn lemma_next_message_advances(data: Seq<u8>, pos: int, end: int, stops: bool)
    ensures
        match message_step(data, pos, end, stops) {
            Ok(Some((_, next))) => pos + 31 <= next <= end,
            _ => true,
        },
    decreases end - pos,
{
    if !(pos < 0 || end > data.len() || pos + 9 >= end) {
        let n = le_u64(data.subrange(pos + 1, pos + 9)) as int;
        if pos + 9 + n > end {
        } else if data[pos] == 0x05 {
        } else if stops && (data[pos] == 0x0F || data[pos] == 0x02) {
        } else {
            lemma_next_message_advances(data, pos + 9 + n, end, stops);
        }
    }
}

/// Where no record runs over the end, an iteration that cannot fail hands
/// out all the messages.
pub proof fn lemma_messages_between(data: Seq<u8>, pos: int, end: int, stops: bool, acc: Seq<MessageView>)
    requires
        messages_within(data, pos, end, stops, acc) is Ok,
    ensures
        messages_within(data, pos, end, stops, acc) == Ok::<Seq<MessageView>, ErrorKind>(
            acc + messages_between(data, pos, end, stops),
        ),
    decreases end - pos,
{
    match message_step(data, pos, end, stops) {
        Err(_) => {},
        Ok(None) => {
            assert(acc + Seq::<MessageView>::empty() =~= acc);
        },
        Ok(Some((m, next))) => {
            if pos < next <= end {
                lemma_messages_between(data, next, end, stops, acc.push(m));
                let rest = messages_between(data, next, end, stops);
                assert(acc.push(m) + rest =~= acc + (seq![m] + rest));
            } else {
                assert(acc.push(m) =~= acc + seq![m]);
            }
        },
    }
}

/// Searches for the next message in `data` from `pos` on and before
/// `end`.
#[verifier::rlimit(50)]
pub fn find_message<'a>(data: &'a [u8], pos: usize, end: usize, stops: bool) -> (r: Result<
    Option<(MessageRef<'a>, usize)>,
    PybagError,
>)
    requires
        end <= data@.len(),
    ensures
        match (message_step(data@, pos as int, end as int, stops), r) {
            (Ok(Some((m, next))), Ok(Some((found, behind)))) => found@ == m && behind == next,
            (Ok(None), Ok(None)) => true,
            (Err(e), Err(got)) => got@ == e,
            _ => false,
        },
{
    let mut at = pos;
    loop
        invariant
            end <= data@.len(),
            message_step(data@, pos as int, end as int, stops) == message_step(
                data@,
                at as int,
                end as int,
                stops,
            ),
        decreases end - at,
    {
        if at >= end || end - at <= 9 {
            return Ok(None);
        }
        let opcode = data[at];
        let len_bytes = slice_subrange(data, at + 1, at + 9);
        let record_len = read_u64_le(len_bytes);
        let left = end - at - 9;
        if record_len > left as u64 {
            return Err(PybagError::InvalidMcap("Record runs over the end of the data".to_string()));
        }
        let n = record_len as usize;
        let body_start = at + 9;
        let body_end = body_start + n;
        if opcode == 0x05 && n < 22 {
            return Err(PybagError::InvalidMcap("Message record is too short".to_string()));
        }
        if opcode == 0x05 {
            let body: &'a [u8] = slice_subrange(data, body_start, body_end);
            let mut c = BodyCursor::new(body);
            let channel_id = c.take_u16()?;
            let sequence = c.take_u32()?;
            let log_time = c.take_u64()?;
            let publish_time = c.take_u64()?;
            let payload = c.rest_slice();
            return Ok(
                Some(
                    (
                        MessageRef { channel_id, sequence, log_time, publish_time, data: payload },
                        body_end,
                    ),
                ),
            );
        } else if stops && (opcode == 0x0F || opcode == 0x02) {
            return Ok(None);
        } else {
            at = body_end;
        }
    }
}

/// Finds the next message in `data` from `pos` on and before `end`, for
/// an iteration that cannot fail.
pub fn next_message<'a>(data: &'a [u8], pos: usize, end: usize, stops: bool) -> (r: Option<
    (MessageRef<'a>, usize),
>)
    requires
        end <= data@.len(),
    ensures
        match (next_message_at(data@, pos as int, end as int, stops), r) {
            (Some((m, next)), Some((found, behind))) => found@ == m && behind == next,
            (None, None) => true,
            _ => false,
        },
{
    match find_message(data, pos, end, stops) {
        Ok(found) => found,
        Err(_) => None,
    }
}

/// An iteration over the messages of a file without chunks. It ends at
/// the end of the data section, at a data end record or a footer, and at
/// a record that violates the format, which an iteration has no way to
/// report: `FastMcapReader::for_each_message` fails there.
pub struct DirectMessageIterator<'a> {
    data: &'a [u8],
    position: usize,
    end: usize,
}

impl<'a> DirectMessageIterator<'a> {
    /// The bytes of the file.
    pub closed spec fn bytes(&self) -> Seq<u8> {
        self.data@
    }

    /// Where the search for the next message begins.
    pub closed spec fn cursor(&self) -> int {
        self.position as int
    }

    /// Where the data section ends.
    pub closed spec fn limit(&self) -> int {
        self.end as int
    }

    /// The end of the data section lies within the bytes.
    pub closed spec fn wf(&self) -> bool {
        self.end <= self.data@.len()
    }

    /// The messages that are still to come.
    pub open spec fn remaining(&self) -> Seq<MessageView> {
        messages_between(self.bytes(), self.cursor(), self.limit(), true)
    }

    /// An iteration over the messages of `data` from `start` on and before
    /// `end`, or before the end of `data` if that comes first.
    pub fn new(data: &'a [u8], start: usize, end: usize) -> (r: Self)
        ensures
            r.wf(),
            r.bytes() == data@,
            r.cursor() == start,
            r.limit() == if end <= data@.len() {
                end as int
            } else {
                data@.len() as int
            },
    {
        let end = if end <= data.len() {
            end
        } else {
            data.len()
        };
        Self { data, position: start, end }
    }

    /// The next message, if there is one. Once there is none, there is
    /// none ever after.
    pub fn next(&mut self) -> (r: Option<MessageRef<'a>>)
        requires
            old(self).wf(),
        ensures
            final(self).wf(),
            final(self).bytes() == old(self).bytes(),
            final(self).limit() == old(self).limit(),
            match next_message_at(old(self).bytes(), old(self).cursor(), old(self).limit(), true) {
                Some((m, next)) => r is Some && r->0@ == m && final(self).cursor() == next
                    && old(self).remaining() == seq![m] + final(self).remaining(),
                None => r is None && final(self).cursor() == old(self).limit() && old(
                    self,
                ).remaining() == Seq::<MessageView>::empty() && final(self).remaining()
                    == Seq::<MessageView>::empty(),
            },
    {
        proof {
            lemma_next_message_advances(self.data@, self.position as int, self.end as int, true);
        }
        let data: &'a [u8] = self.data;
        match next_message(data, self.position, self.end, true) {
            Some((m, next)) => {
                self.position = next;
                Some(m)
            },
            None => {
                self.position = self.end;
                None
            },
        }
    }
}

/// A number of `width` bytes at `pos`, or the error of a read that is cut
/// short, and the position behind it.
pub open spec fn get_bytes(data: Seq<u8>, pos: int, width: int) -> Result<(Seq<u8>, int), ErrorKind> {
    match read_at(data, pos, width) {
        Ok(b) => Ok((b, pos + width)),
        Err(e) => Err(e@),
    }
}

/// What the fields of a chunk index record that start at `pos` in `data`
/// tell of its chunk, and the position behind the last field.
pub open spec fn chunk_meta_at(data: Seq<u8>, pos: int) -> Result<(ChunkMetaView, int), ErrorKind> {
    match get_bytes(data, pos, 8) {
        Err(e) => Err(e),
        Ok((start, p1)) => match get_bytes(data, p1, 8) {
            Err(e) => Err(e),
            Ok((end, p2)) => match get_bytes(data, p2, 8) {
                Err(e) => Err(e),
                Ok((offset, p3)) => match get_bytes(data, p3, 8) {
                    Err(e) => Err(e),
                    Ok((_, p4)) => match get_bytes(data, p4, 4) {
                        Err(e) => Err(e),
                        Ok((map_len, p5)) => match get_bytes(data, p5, le_u32(map_len) as int) {
                            Err(e) => Err(e),
                            Ok((_, p6)) => match get_bytes(data, p6, 8) {
                                Err(e) => Err(e),
                                Ok((_, p7)) => match get_bytes(data, p7, 4) {
                                    Err(e) => Err(e),
                                    Ok((name_len, p8)) => match get_bytes(
                                        data,
                                        p8,
                                        le_u32(name_len) as int,
                                    ) {
                                        Err(e) => Err(e),
                                        Ok((name, p9)) => match get_bytes(data, p9, 8) {
                                            Err(e) => Err(e),
                                            Ok((compressed, p10)) => match get_bytes(data, p10, 8) {
                                                Err(e) => Err(e),
                                                Ok((uncompressed, p11)) => Ok(
                                                    (
                                                        ChunkMetaView {
                                                            offset: le_u64(offset),
                                                            message_start_time: le_u64(start),
                                                            message_end_time: le_u64(end),
                                                            compression: text_or_empty(name),
                                                            compressed_size: le_u64(compressed),
                                                            uncompressed_size: le_u64(uncompressed),
                                                        },
                                                        p11,
                                                    ),
                                                ),
                                            },
                                        },
                                    },
                                },
                            },
                        },
                    },
                },
            },
        },
    }
}

/// The text that the bytes encode, the empty text if they are not UTF-8.
pub open spec fn text_or_empty(bytes: Seq<u8>) -> Seq<char> {
    if valid_utf8(bytes) {
        decode_utf8(bytes)
    } else {
        Seq::empty()
    }
}

/// What the records of the summary section from `pos` on add to `acc`: the
/// metadata of each chunk index record, read from the body of the record
/// alone. The section ends where fewer than 10 bytes are left and at a
/// footer; records of other kinds are skipped by their length. A record
/// whose length runs over the end of the file is a format error.
pub open spec fn chunk_metas_from(data: Seq<u8>, pos: int, acc: Seq<ChunkMetaView>) -> Result<
    Seq<ChunkMetaView>,
    ErrorKind,
>
    decreases data.len() - pos,
{
    if pos < 0 || pos + 9 >= data.len() {
        Ok(acc)
    } else {
        let n = le_u64(data.subrange(pos + 1, pos + 9)) as int;
        if pos + 9 + n > data.len() {
            Err(ErrorKind::InvalidMcap)
        } else if data[pos] == 0x08 {
            match chunk_meta_at(data.subrange(pos + 9, pos + 9 + n), 0) {
                Err(e) => Err(e),
                Ok((meta, _)) => chunk_metas_from(data, pos + 9 + n, acc.push(meta)),
            }
        } else if data[pos] == 0x02 {
            Ok(acc)
        } else {
            chunk_metas_from(data, pos + 9 + n, acc)
        }
    }
}

/// What the structure of a file tells a reader that reads in place.
pub struct StructureView {
    /// Where the chunks lie.
    pub chunks: Seq<ChunkMetaView>,
    /// Where the data section starts: behind the header record.
    pub data_start: u64,
    /// Where the data section ends: where the summary starts, or at the
    /// footer if there is no summary.
    pub data_end: u64,
}

/// What the structure of the file with the bytes `data` tells: the start
/// magic, the footer 37 bytes before the end, the header behind the
/// magic, and the chunk index records of the summary section, if the
/// footer names one within the file.
pub open spec fn structure_of(data: Seq<u8>) -> Result<StructureView, ErrorKind> {
    if data.len() < 8 || !is_magic_at(data, 0) {
        Err(ErrorKind::InvalidMagicBytes)
    } else if data.len() < 45 {
        Err(ErrorKind::InvalidMcap)
    } else {
        let footer = data.len() - 37;
        if data[footer] != 0x02 || le_u64(data.subrange(footer + 1, footer + 9)) != 20 {
            Err(ErrorKind::InvalidMcap)
        } else if data[8] != 0x01 {
            Err(ErrorKind::InvalidMcap)
        } else {
            let summary_start = le_u64(data.subrange(footer + 9, footer + 17));
            let header_len = le_u64(data.subrange(9, 17));
            if header_len > data.len() - 17 {
                Err(
                    ErrorKind::BufferTooSmall {
                        needed: word(header_len),
                        available: (data.len() - 17) as usize,
                    },
                )
            } else {
                let data_start = (17 + header_len) as u64;
                let data_end = if summary_start > 0 {
                    summary_start
                } else {
                    footer as u64
                };
                if summary_start > 0 && summary_start < data.len() {
                    match chunk_metas_from(data, summary_start as int, Seq::empty()) {
                        Err(e) => Err(e),
                        Ok(chunks) => Ok(StructureView { chunks, data_start, data_end }),
                    }
                } else {
                    Ok(StructureView { chunks: Seq::empty(), data_start, data_end })
                }
            }
        }
    }
}

/// The end of the data section within `len` bytes: `data_end`, or `len`
/// if that comes first.
pub open spec fn section_end(data_end: u64, len: int) -> int {
    if data_end <= len {
        data_end as int
    } else {
        len
    }
}

/// `n` as a machine word, the greatest if it does not fit.
pub open spec fn word(n: u64) -> usize {
    if n > usize::MAX {
        usize::MAX
    } else {
        n as usize
    }
}

/// The uncompressed records of a chunk with the body `body`, for which
/// the summary records `size` bytes of them: the name of the compression
/// behind the 28 bytes of times, size and checksum, then the records,
/// decompressed.
pub open spec fn chunk_body_records(body: Seq<u8>, size: u64) -> Result<Seq<u8>, ErrorKind> {
    match get_bytes(body, 0, 28) {
        Err(e) => Err(e),
        Ok((_, p1)) => match get_bytes(body, p1, 4) {
            Err(e) => Err(e),
            Ok((name_len, p2)) => match get_bytes(body, p2, le_u32(name_len) as int) {
                Err(e) => Err(e),
                Ok((name, p3)) => match get_bytes(body, p3, 8) {
                    Err(e) => Err(e),
                    Ok((records_len, p4)) => match get_bytes(body, p4, word(le_u64(records_len)) as int) {
                        Err(e) => Err(e),
                        Ok((records, _)) => decompressed(text_or_empty(name), records, word(size) as int),
                    },
                },
            },
        },
    }
}

/// The uncompressed records of the chunk that `meta` points to, read from
/// the body of the chunk record alone. It is a format error if the chunk
/// record does not lie whole within the file, and an unexpected record if
/// a record of another kind lies at the offset.
pub open spec fn chunk_records_at(data: Seq<u8>, meta: ChunkMetaView) -> Result<Seq<u8>, ErrorKind> {
    let offset = meta.offset as int;
    if offset + 9 > data.len() {
        Err(ErrorKind::InvalidMcap)
    } else if data[offset] != 0x06 {
        Err(ErrorKind::UnexpectedRecordType { expected: 0x06, got: data[offset] })
    } else {
        let n = le_u64(data.subrange(offset + 1, offset + 9));
        if offset + 9 + n > data.len() {
            Err(ErrorKind::InvalidMcap)
        } else {
            chunk_body_records(data.subrange(offset + 9, offset + 9 + n), meta.uncompressed_size)
        }
    }
}

/// The messages of the chunks from the `k`-th on, chunk by chunk, behind
/// `acc`; the error of the first chunk that cannot be read.
pub open spec fn chunked_from(data: Seq<u8>, chunks: Seq<ChunkMetaView>, k: int, acc: Seq<MessageView>) -> Result<
    Seq<MessageView>,
    ErrorKind,
>
    decreases chunks.len() - k,
{
    if k < 0 || k >= chunks.len() {
        Ok(acc)
    } else {
        match chunk_records_at(data, chunks[k]) {
            Err(e) => Err(e),
            Ok(bytes) => match messages_within(bytes, 0, bytes.len() as int, false, acc) {
                Err(e) => Err(e),
                Ok(all) => chunked_from(data, chunks, k + 1, all),
            },
        }
    }
}

/// Whether `f` was called with a message that holds what `v` holds, and
/// came back.
pub open spec fn handed<F: FnMut(MessageRef<'_>)>(f: F, v: MessageView) -> bool {
    exists|m: MessageRef| m@ == v && #[trigger] call_ensures(f, (m,), ())
}

/// All the messages that reading in place finds: those of the chunks, if
/// the file has any, else those of the data section.
pub open spec fn fast_messages(data: Seq<u8>, s: StructureView) -> Result<Seq<MessageView>, ErrorKind> {
    if s.chunks.len() == 0 {
        messages_within(
            data,
            word(s.data_start) as int,
            section_end(s.data_end, data.len() as int),
            true,
            Seq::empty(),
        )
    } else {
        chunked_from(data, s.chunks, 0, Seq::empty())
    }
}

/// `n` as a count in a machine word, the greatest if it does not fit.
pub open spec fn capped_count(n: nat) -> usize {
    if n > usize::MAX {
        usize::MAX
    } else {
        n as usize
    }
}

/// `n` as a machine word, the greatest if it does not fit.
pub fn to_word(n: u64) -> (r: usize)
    ensures
        r == word(n),
{
    if n > usize::MAX as u64 {
        usize::MAX
    } else {
        n as usize
    }
}

/// The text that the bytes encode, the empty text if they are not UTF-8.
fn text_of(bytes: &[u8]) -> (r: String)
    ensures
        r@ == text_or_empty(bytes@),
{
    match string_from_utf8(slice_to_vec(bytes)) {
        Some(s) => s,
        None => String::new(),
    }
}

/// Reads the fields of a chunk index record that tell where its chunk
/// lies, with the cursor at the first byte of the body.
fn read_chunk_meta(view: &mut SliceView) -> (r: Result<ChunkMeta, PybagError>)
    requires
        old(view).in_bounds(),
    ensures
        final(view).in_bounds(),
        final(view).bytes() == old(view).bytes(),
        match chunk_meta_at(old(view).bytes(), old(view).offset()) {
            Ok((meta, next)) => r is Ok && r->Ok_0@ == meta && final(view).offset() == next,
            Err(e) => r is Err && r->Err_0@ == e,
        },
{
    proof {
        view.lemma_in_bounds();
    }
    let message_start_time = view.read_u64_le()?;
    let message_end_time = view.read_u64_le()?;
    let offset = view.read_u64_le()?;
    let _ = view.read_u64_le()?;
    let map_len = view.read_u32_le()?;
    view.skip(map_len as usize)?;
    let _ = view.read_u64_le()?;
    let name_len = view.read_u32_le()?;
    let compression = text_of(view.slice(name_len as usize)?);
    let compressed_size = view.read_u64_le()?;
    let uncompressed_size = view.read_u64_le()?;
    Ok(
        ChunkMeta {
            offset,
            message_start_time,
            message_end_time,
            compression,
            compressed_size,
            uncompressed_size,
        },
    )
}

/// Gathers the metadata of the chunks from the summary section that
/// starts at `start`.
#[verifier::rlimit(50)]
fn read_chunk_metas(data: &[u8], start: usize) -> (r: Result<Vec<ChunkMeta>, PybagError>)
    requires
        start <= data@.len(),
    ensures
        match chunk_metas_from(data@, start as int, Seq::empty()) {
            Ok(all) => r is Ok && meta_views(r->Ok_0@) == all,
            Err(e) => r is Err && r->Err_0@ == e,
        },
{
    let len = data.len();
    let mut at = start;
    let mut chunks: Vec<ChunkMeta> = Vec::new();
    assert(meta_views(chunks@) =~= Seq::empty());
    loop
        invariant
            len == data@.len(),
            at <= len,
            chunk_metas_from(data@, start as int, Seq::empty()) == chunk_metas_from(
                data@,
                at as int,
                meta_views(chunks@),
            ),
        decreases len - at,
    {
        let ghost acc = meta_views(chunks@);
        if len - at <= 9 {
            return Ok(chunks);
        }
        let opcode = data[at];
        let record_len = read_u64_le(slice_subrange(data, at + 1, at + 9));
        if record_len > (len - at - 9) as u64 {
            return Err(PybagError::InvalidMcap("Record runs over the end of the file".to_string()));
        }
        let body_start = at + 9;
        let body_end = body_start + record_len as usize;
        if opcode == 0x08 {
            let mut view = SliceView::new(slice_subrange(data, body_start, body_end));
            let meta = read_chunk_meta(&mut view)?;
            let ghost v = meta@;
            chunks.push(meta);
            assert(meta_views(chunks@) =~= acc.push(v));
        } else if opcode == 0x02 {
            return Ok(chunks);
        }
        at = body_end;
    }
}

/// A reader that hands out messages in place.
pub struct FastMcapReader<'a> {
    mmap: &'a [u8],
    chunks: Vec<ChunkMeta>,
    data_start: u64,
    data_end: u64,
}

impl<'a> FastMcapReader<'a> {
    /// The bytes of the file.
    pub closed spec fn bytes(&self) -> Seq<u8> {
        self.mmap@
    }

    /// What the structure of the file told.
    pub closed spec fn structure(&self) -> StructureView {
        StructureView {
            chunks: meta_views(self.chunks@),
            data_start: self.data_start,
            data_end: self.data_end,
        }
    }

    /// A reader over the bytes of a file, which the caller has mapped into
    /// memory.
    #[verifier::rlimit(50)]
    pub fn new(mmap: &'a [u8]) -> (r: Result<Self, PybagError>)
        ensures
            match structure_of(mmap@) {
                Ok(s) => r is Ok && r->Ok_0.bytes() == mmap@ && r->Ok_0.structure() == s,
                Err(e) => r is Err && r->Err_0@ == e,
            },
    {
        let len = mmap.len();
        if len < 8 || mmap[0] != 0x89 || mmap[1] != 0x4D || mmap[2] != 0x43 || mmap[3] != 0x41
            || mmap[4] != 0x50 || mmap[6] != 0x0D || mmap[7] != 0x0A {
            return Err(PybagError::InvalidMagicBytes);
        }
        if len < 45 {
            return Err(PybagError::InvalidMcap("File too small".to_string()));
        }
        let footer_start = len - 37;
        if mmap[footer_start] != 0x02 {
            return Err(PybagError::InvalidMcap("Invalid footer".to_string()));
        }
        let footer_len = read_u64_le(slice_subrange(mmap, footer_start + 1, footer_start + 9));
        if footer_len != 20 {
            return Err(PybagError::InvalidMcap("Invalid footer length".to_string()));
        }
        let summary_start = read_u64_le(slice_subrange(mmap, footer_start + 9, footer_start + 17));
        if mmap[8] != 0x01 {
            return Err(PybagError::InvalidMcap("Invalid header".to_string()));
        }
        let header_len = read_u64_le(slice_subrange(mmap, 9, 17));
        if header_len > (len - 17) as u64 {
            return Err(
                PybagError::BufferTooSmall { needed: to_word(header_len), available: len - 17 },
            );
        }
        let data_start = 17 + header_len;
        let data_end = if summary_start > 0 {
            summary_start
        } else {
            footer_start as u64
        };
        let chunks = if summary_start > 0 && summary_start < len as u64 {
            read_chunk_metas(mmap, summary_start as usize)?
        } else {
            let none: Vec<ChunkMeta> = Vec::new();
            assert(meta_views(none@) =~= Seq::empty());
            none
        };
        Ok(Self { mmap, chunks, data_start, data_end })
    }

    /// The bytes of the file.
    pub fn data(&self) -> (r: &'a [u8])
        ensures
            r@ == self.bytes(),
    {
        self.mmap
    }

    /// The number of chunks that the summary lists.
    pub fn chunk_count(&self) -> (r: usize)
        ensures
            r == self.structure().chunks.len(),
    {
        self.chunks.len()
    }

    /// The uncompressed records of the `k`-th chunk that the summary
    /// lists.
    pub fn chunk_records(&self, k: usize) -> (r: Result<Vec<u8>, PybagError>)
        requires
            k < self.structure().chunks.len(),
        ensures
            match chunk_records_at(self.bytes(), self.structure().chunks[k as int]) {
                Ok(bytes) => r is Ok && r->Ok_0@ == bytes,
                Err(e) => r is Err && r->Err_0@ == e,
            },
    {
        let data: &'a [u8] = self.mmap;
        let meta = &self.chunks[k];
        let len = data.len();
        if meta.offset > len as u64 || len - (meta.offset as usize) < 9 {
            return Err(PybagError::InvalidMcap("Chunk lies outside the file".to_string()));
        }
        let offset = meta.offset as usize;
        let opcode = data[offset];
        if opcode != 0x06 {
            return Err(PybagError::UnexpectedRecordType { expected: 0x06, got: opcode });
        }
        let record_len = read_u64_le(slice_subrange(data, offset + 1, offset + 9));
        if record_len > (len - offset - 9) as u64 {
            return Err(PybagError::InvalidMcap("Chunk runs over the end of the file".to_string()));
        }
        let body_start = offset + 9;
        let mut view = SliceView::new(slice_subrange(data, body_start, body_start + record_len as usize));
        proof {
            view.lemma_in_bounds();
        }
        view.skip(28)?;
        let name_len = view.read_u32_le()?;
        let compression = text_of(view.slice(name_len as usize)?);
        let records_len = view.read_u64_le()?;
        let records = view.slice(to_word(records_len))?;
        decompress_chunk(compression.as_str(), records, to_word(meta.uncompressed_size))
    }

    /// Calls `f` with each message of the file and returns how many there
    /// were. `f` is called once for each message and for nothing else, not
    /// for a schema or a channel record: chunk by chunk in the order of the
    /// chunk indices if the file has any, else along the data section, and
    /// within either in the order of the bytes. Each call gets the channel,
    /// the sequence number, the two times and the payload of its message.
    /// The payload of a message from a chunk lives only as long as the
    /// call. Where the file cannot be read on, `f` has been called with
    /// the messages before that place.
    #[verifier::rlimit(50)]
    pub fn for_each_message<F: FnMut(MessageRef<'_>)>(&self, f: F) -> (r: Result<
        usize,
        PybagError,
    >)
        requires
            forall|m: MessageRef| call_requires(f, (m,)),
        ensures
            match fast_messages(self.bytes(), self.structure()) {
                Ok(all) => r is Ok && r->Ok_0 == capped_count(all.len()) && forall|i: int|
                    0 <= i < all.len() ==> handed(f, #[trigger] all[i]),
                Err(e) => r is Err && r->Err_0@ == e,
            },
    {
        let mut call = f;
        let data: &'a [u8] = self.mmap;
        let len = data.len();
        let mut count: usize = 0;
        let ghost mut seen: Seq<MessageView> = Seq::empty();
        if self.chunks.len() == 0 {
            let end = if self.data_end <= len as u64 {
                self.data_end as usize
            } else {
                len
            };
            let start = to_word(self.data_start);
            let mut pos = start;
            loop
                invariant
                    end <= data@.len(),
                    self.chunks@.len() == 0,
                    data@ == self.bytes(),
                    start == word(self.structure().data_start),
                    end == section_end(self.structure().data_end, data@.len() as int),
                    forall|m: MessageRef| call_requires(call, (m,)),
                    call == f,
                    forall|i: int| 0 <= i < seen.len() ==> handed(call, #[trigger] seen[i]),
                    count == seen.len(),
                    count <= pos,
                    messages_within(data@, start as int, end as int, true, Seq::empty())
                        == messages_within(data@, pos as int, end as int, true, seen),
                decreases end - pos,
            {
                proof {
                    lemma_next_message_advances(data@, pos as int, end as int, true);
                }
                match find_message(data, pos, end, true)? {
                    Some((m, next)) => {
                        let ghost v = m@;
                        let ghost before = seen;
                        call(m);
                        proof {
                            assert(handed(call, v));
                            seen = before.push(v);
                            assert forall|i: int| 0 <= i < seen.len() implies handed(
                                call,
                                #[trigger] seen[i],
                            ) by {
                                if i < before.len() {
                                    assert(seen[i] == before[i]);
                                }
                            }
                        }
                        count = count + 1;
                        pos = next;
                    },
                    None => {
                        return Ok(count);
                    },
                }
            }
        } else {
            let ghost chunks = meta_views(self.chunks@);
            let mut k: usize = 0;
            while k < self.chunks.len()
                invariant
                    k <= self.chunks.len(),
                    data@ == self.bytes(),
                    chunks == self.structure().chunks,
                    forall|m: MessageRef| call_requires(call, (m,)),
                    call == f,
                    forall|i: int| 0 <= i < seen.len() ==> handed(call, #[trigger] seen[i]),
                    count == capped_count(seen.len()),
                    chunked_from(data@, chunks, 0, Seq::empty()) == chunked_from(
                        data@,
                        chunks,
                        k as int,
                        seen,
                    ),
                decreases self.chunks.len() - k,
            {
                let bytes = self.chunk_records(k)?;
                let scratch = bytes.as_slice();
                let end = scratch.len();
                let ghost before = seen;
                let mut pos: usize = 0;
                loop
                    invariant
                        end == scratch@.len(),
                        scratch@ == bytes@,
                        forall|m: MessageRef| call_requires(call, (m,)),
                        call == f,
                        forall|i: int| 0 <= i < seen.len() ==> handed(call, #[trigger] seen[i]),
                        count == capped_count(seen.len()),
                        messages_within(scratch@, 0, end as int, false, before)
                            == messages_within(scratch@, pos as int, end as int, false, seen),
                        chunked_from(data@, chunks, 0, Seq::empty()) == chunked_from(
                            data@,
                            chunks,
                            k as int,
                            before,
                        ),
                        k < chunks.len(),
                        data@ == self.bytes(),
                        chunks == self.structure().chunks,
                        chunk_records_at(data@, chunks[k as int]) == Ok::<
                            Seq<u8>,
                            ErrorKind,
                        >(bytes@),
                    ensures
                        messages_within(scratch@, 0, end as int, false, before) == Ok::<
                            Seq<MessageView>,
                            ErrorKind,
                        >(seen),
                    decreases end - pos,
                {
                    proof {
                        lemma_next_message_advances(scratch@, pos as int, end as int, false);
                    }
                    match find_message(scratch, pos, end, false)? {
                        Some((m, next)) => {
                            let ghost v = m@;
                            let ghost so_far = seen;
                            call(m);
                            proof {
                                assert(handed(call, v));
                                seen = so_far.push(v);
                                assert forall|i: int| 0 <= i < seen.len() implies handed(
                                    call,
                                    #[trigger] seen[i],
                                ) by {
                                    if i < so_far.len() {
                                        assert(seen[i] == so_far[i]);
                                    }
                                }
                            }
                            if count < usize::MAX {
                                count = count + 1;
                            }
                            pos = next;
                        },
                        None => {
                            break ;
                        },
                    }
                }
                k += 1;
            }
            Ok(count)
        }
    }

    /// An iteration over the messages of the data section, for files
    /// without chunks.
    pub fn iter_messages(&self) -> (r: DirectMessageIterator<'a>)
        ensures
            r.wf(),
            r.bytes() == self.bytes(),
            r.remaining() == messages_between(
                self.bytes(),
                word(self.structure().data_start) as int,
                section_end(self.structure().data_end, self.bytes().len() as int),
                true,
            ),
    {
        let len = self.mmap.len();
        let end = if self.data_end <= len as u64 {
            self.data_end as usize
        } else {
            len
        };
        DirectMessageIterator::new(self.mmap, to_word(self.data_start), end)
    }
}

/// The number of messages in the file with the bytes `data`.
pub fn count_messages_fast(data: &[u8]) -> (r: Result<usize, PybagError>)
    ensures
        match structure_of(data@) {
            Err(e) => r is Err && r->Err_0@ == e,
            Ok(s) => match fast_messages(data@, s) {
                Ok(all) => r is Ok && r->Ok_0 == capped_count(all.len()),
                Err(e) => r is Err && r->Err_0@ == e,
            },
        },
{
    let reader = FastMcapReader::new(data)?;
    reader.for_each_message(|m: MessageRef| {})
}

} // verus!
