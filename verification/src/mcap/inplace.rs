//! Reading in place finds the messages that the writer wrote: record by
//! record along the data section of a file without chunks, and along the
//! records of a chunk.

use crate::endian::{
    le_u64, lemma_le_round_trip_u32, lemma_le_round_trip_u64, u32_le, u64_le,
};
use crate::mcap::chunk::{compression_named, Compression};
use vstd::utf8::encode_utf8;
use crate::error::ErrorKind;
use crate::mcap::codec::lemma_message_round_trip;
use crate::mcap::parser::{is_magic_at, magic, message_at};
use crate::mcap::reader::{chunk_scan, every_message, passes};
use crate::mcap::records::{
    attachment_body_bytes, attachment_index_body_bytes, channel_body_bytes, data_end_bytes,
    footer_body_bytes, footer_bytes, header_body_bytes, header_bytes, message_body_bytes,
    message_body, message_bytes, message_fits, metadata_body_bytes, metadata_index_body_bytes, record_bytes,
    schema_body_bytes, statistics_body_bytes, statistics_bytes, AttachmentIndexView,
    AttachmentView, ChannelView, DataEndRecord, FooterRecord, HeaderView, MessageView,
    MetadataIndexView, MetadataView, SchemaView,
};
use crate::mcap::records::{
    chunk_body_bytes, chunk_bytes, chunk_fits, chunk_index_body_bytes, chunk_index_bytes,
    chunk_index_fits, ChunkIndexView, ChunkView,
};
use crate::mcap::crc::crc32;
use crate::mcap::roundtrip::{
    chunk_readable, chunks_hold, flattened, lemma_chunk_scan_behind, lemma_holds_within,
    lemma_output_grows_traced, traced,
};
use crate::mcap::wire::{lemma_num_entries_len, num_entries_bytes, sorted_entries};
use crate::mcap::roundtrip::holds_at;
use crate::mcap::writer::{
    after_attachment, after_channel, after_message, after_metadata, after_schema,
    attachment_indices_bytes, channels_bytes, chunk_indices_bytes, closed, data_section, flushed,
    metadata_indices_bytes, schemas_bytes, statistics_of, summary_bytes, WriterView,
};
use crate::mcap::zerocopy::{
    chunk_metas_from, fast_messages, lemma_messages_between, lemma_next_message_advances,
    message_step, messages_between, messages_within, structure_of, ChunkMetaView, StructureView,
};
use crate::mcap::zerocopy::{
    chunk_body_records, chunk_meta_at, chunk_records_at, chunked_from, get_bytes, text_or_empty,
    word,
};
use vstd::prelude::*;

verus! {

broadcast use crate::endian::group_widths;

/// The parts of a record that lies at `pos`: its opcode, its length and
/// its body.
pub proof fn lemma_record_parts(data: Seq<u8>, pos: int, opcode: u8, body: Seq<u8>)
    requires
        data.len() <= usize::MAX,
        holds_at(data, pos, record_bytes(opcode, body)),
    ensures
        record_bytes(opcode, body).len() == 9 + body.len(),
        data[pos] == opcode,
        le_u64(data.subrange(pos + 1, pos + 9)) == body.len(),
        data.subrange(pos + 9, pos + 9 + body.len()) == body,
{
    let record = record_bytes(opcode, body);
    let part = data.subrange(pos, pos + record.len());
    assert(part == record);
    assert(data[pos] == part[0]);
    lemma_le_round_trip_u64(body.len() as u64);
    assert(data.subrange(pos + 1, pos + 9) =~= part.subrange(1, 9));
    assert(part.subrange(1, 9) =~= u64_le(body.len() as u64));
    assert(data.subrange(pos + 9, pos + 9 + body.len()) =~= part.subrange(
        9,
        9 + body.len() as int,
    ));
    assert(part.subrange(9, 9 + body.len() as int) =~= body);
}

/// A message record that lies before the end is found in place, and the
/// messages behind it come behind it.
pub proof fn lemma_message_in_place(
    data: Seq<u8>,
    pos: int,
    end: int,
    stops: bool,
    m: MessageView,
    acc: Seq<MessageView>,
)
    requires
        data.len() <= usize::MAX,
        holds_at(data, pos, message_bytes(m)),
        pos + message_bytes(m).len() <= end <= data.len(),
        message_fits(m),
    ensures
        message_step(data, pos, end, stops) == Ok::<Option<(MessageView, int)>, ErrorKind>(
            Some((m, pos + message_bytes(m).len())),
        ),
        messages_within(data, pos, end, stops, acc) == messages_within(
            data,
            pos + message_bytes(m).len(),
            end,
            stops,
            acc.push(m),
        ),
{
    lemma_record_parts(data, pos, 0x05, message_body_bytes(m));
    lemma_message_round_trip(m);
    assert(message_body_bytes(m).len() >= 22);
}

/// A record of another kind than message, data end and footer that lies
/// before the end is passed over in place.
pub proof fn lemma_record_in_place(
    data: Seq<u8>,
    pos: int,
    end: int,
    stops: bool,
    opcode: u8,
    body: Seq<u8>,
    acc: Seq<MessageView>,
)
    requires
        data.len() <= usize::MAX,
        holds_at(data, pos, record_bytes(opcode, body)),
        pos + record_bytes(opcode, body).len() <= end <= data.len(),
        opcode != 0x05,
        stops ==> opcode != 0x0F && opcode != 0x02,
    ensures
        messages_within(data, pos, end, stops, acc) == messages_within(
            data,
            pos + record_bytes(opcode, body).len(),
            end,
            stops,
            acc,
        ),
{
    lemma_record_parts(data, pos, opcode, body);
    let next = pos + 9 + body.len();
    lemma_next_message_advances(data, next, end, stops);
    if pos + 9 >= end {
        assert(next == end);
        assert(message_step(data, next, end, stops) == Ok::<Option<(MessageView, int)>, ErrorKind>(None));
    } else {
        assert(message_step(data, pos, end, stops) == message_step(data, next, end, stops));
    }
}

/// Whether the messages `written` are what reading in place finds in the
/// data section of `output`: whatever is put behind `output`, and wherever
/// behind `output` the data section ends, reading from `data_start` on
/// comes to the end of `output` with just these messages.
pub open spec fn tracks_in_place(output: Seq<u8>, data_start: int, written: Seq<MessageView>) -> bool {
    &&& 0 <= data_start <= output.len()
    &&& forall|more: Seq<u8>, end: int|
        output.len() + more.len() <= usize::MAX && output.len() <= end <= output.len() + more.len()
            ==> #[trigger] messages_within(output + more, data_start, end, true, Seq::empty())
            == messages_within(output + more, output.len() as int, end, true, written)
}

/// Behind the header no message has been written.
pub proof fn lemma_start_tracks_in_place(output: Seq<u8>)
    ensures
        tracks_in_place(output, output.len() as int, Seq::empty()),
{
}

/// A message that is written behind the output is found in place as the
/// last.
pub proof fn lemma_message_tracked_in_place(
    output: Seq<u8>,
    data_start: int,
    written: Seq<MessageView>,
    m: MessageView,
)
    requires
        tracks_in_place(output, data_start, written),
        message_fits(m),
    ensures
        tracks_in_place(output + message_bytes(m), data_start, written.push(m)),
{
    let record = message_bytes(m);
    let next = output + record;
    assert forall|more: Seq<u8>, end: int|
        next.len() + more.len() <= usize::MAX && next.len() <= end <= next.len()
            + more.len() implies #[trigger] messages_within(
        next + more,
        data_start,
        end,
        true,
        Seq::empty(),
    ) == messages_within(next + more, next.len() as int, end, true, written.push(m)) by {
        let data = next + more;
        assert(data =~= output + (record + more));
        assert(messages_within(output + (record + more), data_start, end, true, Seq::empty())
            == messages_within(output + (record + more), output.len() as int, end, true, written));
        assert(data.subrange(output.len() as int, (output.len() + record.len()) as int) =~= record);
        lemma_message_in_place(data, output.len() as int, end, true, m, written);
    }
}

/// A record that is no message, written behind the output, adds nothing
/// to what is found in place.
pub proof fn lemma_record_tracked_in_place(
    output: Seq<u8>,
    data_start: int,
    written: Seq<MessageView>,
    opcode: u8,
    body: Seq<u8>,
)
    requires
        tracks_in_place(output, data_start, written),
        opcode != 0x05 && opcode != 0x0F && opcode != 0x02,
    ensures
        tracks_in_place(output + record_bytes(opcode, body), data_start, written),
{
    let record = record_bytes(opcode, body);
    let next = output + record;
    assert forall|more: Seq<u8>, end: int|
        next.len() + more.len() <= usize::MAX && next.len() <= end <= next.len()
            + more.len() implies #[trigger] messages_within(
        next + more,
        data_start,
        end,
        true,
        Seq::empty(),
    ) == messages_within(next + more, next.len() as int, end, true, written) by {
        let data = next + more;
        assert(data =~= output + (record + more));
        assert(messages_within(output + (record + more), data_start, end, true, Seq::empty())
            == messages_within(output + (record + more), output.len() as int, end, true, written));
        assert(data.subrange(output.len() as int, (output.len() + record.len()) as int) =~= record);
        lemma_record_in_place(data, output.len() as int, end, true, opcode, body, written);
    }
}

/// Writing without chunks keeps track of the messages for reading in
/// place: a schema, a channel, an attachment or a metadata record adds
/// none, and a message adds itself.
#[verifier::rlimit(50)]
pub proof fn lemma_writes_are_tracked_in_place(
    s: WriterView,
    data_start: int,
    written: Seq<MessageView>,
    schema: SchemaView,
    channel: ChannelView,
    message: MessageView,
    attachment: AttachmentView,
    metadata: MetadataView,
)
    requires
        s.chunk_size is None,
        s.pending.len() == 0,
        tracks_in_place(s.output, data_start, written),
        message_fits(message),
    ensures
        tracks_in_place(after_schema(s, schema).output, data_start, written),
        tracks_in_place(after_channel(s, channel).output, data_start, written),
        after_message(s, message) is Ok,
        tracks_in_place(after_message(s, message)->Ok_0.output, data_start, written.push(message)),
        after_attachment(s, attachment) is Ok,
        tracks_in_place(after_attachment(s, attachment)->Ok_0.output, data_start, written),
        after_metadata(s, metadata) is Ok,
        tracks_in_place(after_metadata(s, metadata)->Ok_0.output, data_start, written),
{
    lemma_record_tracked_in_place(s.output, data_start, written, 0x03, schema_body_bytes(schema));
    lemma_record_tracked_in_place(s.output, data_start, written, 0x04, channel_body_bytes(channel));
    lemma_message_tracked_in_place(s.output, data_start, written, message);
    lemma_record_tracked_in_place(
        s.output,
        data_start,
        written,
        0x09,
        attachment_body_bytes(attachment),
    );
    lemma_record_tracked_in_place(s.output, data_start, written, 0x0C, metadata_body_bytes(metadata));
}

/// The messages of a file written without chunks are found in place as
/// they were written: where the writer has kept track of the messages
/// `written` and is closed, reading in place from behind the header up to
/// where the summary starts finds just these messages in their order,
/// with or without a way to report errors. The file must fit the memory
/// of the machine.
#[verifier::rlimit(50)]
pub proof fn lemma_closed_file_in_place(s: WriterView, data_start: int, written: Seq<MessageView>)
    requires
        s.chunk_size is None,
        s.pending.len() == 0,
        tracks_in_place(s.output, data_start, written),
        closed(s) is Ok,
        closed(s)->Ok_0.len() <= usize::MAX,
    ensures
        messages_within(
            closed(s)->Ok_0,
            data_start,
            data_section(s).len() as int,
            true,
            Seq::empty(),
        ) == Ok::<Seq<MessageView>, ErrorKind>(written),
        messages_between(closed(s)->Ok_0, data_start, data_section(s).len() as int, true)
            == written,
{
    let bytes = closed(s)->Ok_0;
    assert(flushed(s) == Ok::<WriterView, ErrorKind>(s));
    let end_record = data_end_bytes(DataEndRecord { data_section_crc: 0 });
    let d = data_section(s);
    let more = bytes.skip(s.output.len() as int);
    assert(bytes =~= s.output + more);
    let end = d.len() as int;
    assert(end_record.len() == 13);
    assert(messages_within(s.output + more, data_start, end, true, Seq::empty())
        == messages_within(s.output + more, s.output.len() as int, end, true, written));
    let pos = s.output.len() as int;
    assert(bytes.subrange(pos, pos + 13) =~= end_record);
    assert(holds_at(bytes, pos, end_record));
    assert(end_record == record_bytes(0x0F, end_record.skip(9)));
    lemma_record_parts(bytes, pos, 0x0F, end_record.skip(9));
    assert(message_step(bytes, pos, end, true) == Ok::<Option<(MessageView, int)>, ErrorKind>(None));
    lemma_messages_between(bytes, data_start, end, true, Seq::empty());
    assert(Seq::<MessageView>::empty() + messages_between(bytes, data_start, end, true)
        =~= messages_between(bytes, data_start, end, true));
}

/// Whether the messages `written` are what reading in place finds in
/// the records `pending` of a chunk: whatever is put behind them, reading
/// them comes to their end with just these messages.
pub open spec fn chunk_tracks_in_place(pending: Seq<u8>, written: Seq<MessageView>) -> bool {
    forall|more: Seq<u8>, end: int|
        pending.len() + more.len() <= usize::MAX && pending.len() <= end <= pending.len()
            + more.len() ==> #[trigger] messages_within(pending + more, 0, end, false, Seq::empty())
            == messages_within(pending + more, pending.len() as int, end, false, written)
}

/// A record that is no message, put with the records of a chunk, adds no
/// message to what is found in place.
pub proof fn lemma_chunk_record_tracked_in_place(
    pending: Seq<u8>,
    written: Seq<MessageView>,
    opcode: u8,
    body: Seq<u8>,
)
    requires
        chunk_tracks_in_place(pending, written),
        opcode != 0x05,
    ensures
        chunk_tracks_in_place(pending + record_bytes(opcode, body), written),
{
    let record = record_bytes(opcode, body);
    let next = pending + record;
    assert forall|more: Seq<u8>, end: int|
        next.len() + more.len() <= usize::MAX && next.len() <= end <= next.len()
            + more.len() implies #[trigger] messages_within(
        next + more,
        0,
        end,
        false,
        Seq::empty(),
    ) == messages_within(next + more, next.len() as int, end, false, written) by {
        let data = next + more;
        assert(data =~= pending + (record + more));
        assert(messages_within(pending + (record + more), 0, end, false, Seq::empty())
            == messages_within(pending + (record + more), pending.len() as int, end, false, written));
        assert(data.subrange(pending.len() as int, (pending.len() + record.len()) as int)
            =~= record);
        lemma_record_in_place(data, pending.len() as int, end, false, opcode, body, written);
    }
}

/// A message that is put with the records of a chunk is found in place as
/// the last of its messages.
pub proof fn lemma_chunk_message_tracked_in_place(
    pending: Seq<u8>,
    written: Seq<MessageView>,
    m: MessageView,
)
    requires
        chunk_tracks_in_place(pending, written),
        message_fits(m),
    ensures
        chunk_tracks_in_place(pending + message_bytes(m), written.push(m)),
{
    let record = message_bytes(m);
    let next = pending + record;
    assert forall|more: Seq<u8>, end: int|
        next.len() + more.len() <= usize::MAX && next.len() <= end <= next.len()
            + more.len() implies #[trigger] messages_within(
        next + more,
        0,
        end,
        false,
        Seq::empty(),
    ) == messages_within(next + more, next.len() as int, end, false, written.push(m)) by {
        let data = next + more;
        assert(data =~= pending + (record + more));
        assert(messages_within(pending + (record + more), 0, end, false, Seq::empty())
            == messages_within(pending + (record + more), pending.len() as int, end, false, written));
        assert(data.subrange(pending.len() as int, (pending.len() + record.len()) as int)
            =~= record);
        lemma_message_in_place(data, pending.len() as int, end, false, m, written);
    }
}

/// The records of a chunk that hold certain messages yield just them, in
/// their order, when they are read in place.
pub proof fn lemma_chunk_is_read_in_place(pending: Seq<u8>, written: Seq<MessageView>)
    requires
        chunk_tracks_in_place(pending, written),
        pending.len() <= usize::MAX,
    ensures
        messages_within(pending, 0, pending.len() as int, false, Seq::empty()) == Ok::<
            Seq<MessageView>,
            ErrorKind,
        >(written),
{
    let more = Seq::<u8>::empty();
    assert(pending + more =~= pending);
    assert(messages_within(pending + more, 0, pending.len() as int, false, Seq::empty())
        == messages_within(pending + more, pending.len() as int, pending.len() as int, false, written));
}

/// Whether `block` is a run of whole records, none of them a chunk index
/// or a footer.
pub open spec fn plain_run(block: Seq<u8>) -> bool
    decreases block.len(),
{
    block.len() == 0 || {
        &&& block.len() >= 9
        &&& block[0] != 0x08 && block[0] != 0x02
        &&& 9 + le_u64(block.subrange(1, 9)) <= block.len()
        &&& plain_run(block.skip(9 + le_u64(block.subrange(1, 9)) as int))
    }
}

/// Two runs, one behind the other, are a run.
pub proof fn lemma_runs_join(a: Seq<u8>, b: Seq<u8>)
    requires
        plain_run(a),
        plain_run(b),
    ensures
        plain_run(a + b),
    decreases a.len(),
{
    if a.len() == 0 {
        assert(a + b =~= b);
    } else {
        let n = le_u64(a.subrange(1, 9)) as int;
        assert((a + b).subrange(1, 9) =~= a.subrange(1, 9));
        assert((a + b).skip(9 + n) =~= a.skip(9 + n) + b);
        lemma_runs_join(a.skip(9 + n), b);
    }
}

/// A record that is no chunk index and no footer is a run, and a run with
/// such a record behind it is a run.
pub proof fn lemma_record_is_run(run: Seq<u8>, opcode: u8, body: Seq<u8>)
    requires
        plain_run(run),
        opcode != 0x08 && opcode != 0x02,
        body.len() <= u64::MAX,
    ensures
        plain_run(record_bytes(opcode, body)),
        plain_run(run + record_bytes(opcode, body)),
{
    let record = record_bytes(opcode, body);
    lemma_le_round_trip_u64(body.len() as u64);
    assert(record.subrange(1, 9) =~= u64_le(body.len() as u64));
    assert(record.skip(9 + body.len() as int) =~= Seq::<u8>::empty());
    assert(plain_run(record.skip(9 + body.len() as int)));
    lemma_runs_join(run, record);
}

/// The schema records of a summary are a run.
pub proof fn lemma_schemas_are_run(m: Map<u16, SchemaView>, upto: int)
    requires
        schemas_bytes(m, upto).len() <= usize::MAX,
    ensures
        plain_run(schemas_bytes(m, upto)),
    decreases upto,
{
    if upto > 0 {
        lemma_schemas_are_run(m, upto - 1);
        if m.contains_key((upto - 1) as u16) {
            lemma_record_is_run(
                schemas_bytes(m, upto - 1),
                0x03,
                schema_body_bytes(m[(upto - 1) as u16]),
            );
        }
    }
}

/// The channel records of a summary are a run.
pub proof fn lemma_channels_are_run(m: Map<u16, ChannelView>, upto: int)
    requires
        channels_bytes(m, upto).len() <= usize::MAX,
    ensures
        plain_run(channels_bytes(m, upto)),
    decreases upto,
{
    if upto > 0 {
        lemma_channels_are_run(m, upto - 1);
        if m.contains_key((upto - 1) as u16) {
            lemma_record_is_run(
                channels_bytes(m, upto - 1),
                0x04,
                channel_body_bytes(m[(upto - 1) as u16]),
            );
        }
    }
}

/// The attachment index records of a summary are a run.
pub proof fn lemma_attachment_indices_are_run(s: Seq<AttachmentIndexView>)
    requires
        attachment_indices_bytes(s).len() <= usize::MAX,
    ensures
        plain_run(attachment_indices_bytes(s)),
    decreases s.len(),
{
    if s.len() > 0 {
        lemma_attachment_indices_are_run(s.drop_last());
        lemma_record_is_run(
            attachment_indices_bytes(s.drop_last()),
            0x0A,
            attachment_index_body_bytes(s.last()),
        );
    }
}

/// The metadata index records of a summary are a run.
pub proof fn lemma_metadata_indices_are_run(s: Seq<MetadataIndexView>)
    requires
        metadata_indices_bytes(s).len() <= usize::MAX,
    ensures
        plain_run(metadata_indices_bytes(s)),
    decreases s.len(),
{
    if s.len() > 0 {
        lemma_metadata_indices_are_run(s.drop_last());
        lemma_record_is_run(
            metadata_indices_bytes(s.drop_last()),
            0x0D,
            metadata_index_body_bytes(s.last()),
        );
    }
}

/// A run in a summary section, with more bytes behind it than a record
/// needs for its opcode and length, is passed over when the chunks are
/// looked for.
pub proof fn lemma_run_is_passed(data: Seq<u8>, pos: int, block: Seq<u8>, acc: Seq<ChunkMetaView>)
    requires
        data.len() <= usize::MAX,
        plain_run(block),
        holds_at(data, pos, block),
        pos + block.len() + 9 < data.len(),
    ensures
        chunk_metas_from(data, pos, acc) == chunk_metas_from(data, pos + block.len(), acc),
    decreases block.len(),
{
    if block.len() > 0 {
        let n = le_u64(block.subrange(1, 9)) as int;
        let part = data.subrange(pos, pos + block.len());
        assert(part == block);
        assert(data[pos] == part[0]);
        assert(data.subrange(pos + 1, pos + 9) =~= part.subrange(1, 9));
        let rest = block.skip(9 + n);
        assert(data.subrange(pos + 9 + n, pos + 9 + n + rest.len()) =~= rest);
        lemma_run_is_passed(data, pos + 9 + n, rest, acc);
    }
}

/// Where reading the records of a chunk one by one succeeds, reading them
/// in place finds the same messages.
pub proof fn lemma_chunk_scan_agrees(bytes: Seq<u8>, pos: int, acc: Seq<MessageView>)
    requires
        bytes.len() <= usize::MAX,
        0 <= pos,
        chunk_scan(bytes, pos, every_message(), acc) is Ok,
    ensures
        messages_within(bytes, pos, bytes.len() as int, false, acc) == chunk_scan(
            bytes,
            pos,
            every_message(),
            acc,
        ),
    decreases bytes.len() - pos,
{
    let end = bytes.len() as int;
    if pos < bytes.len() {
        if bytes[pos] == 0x05 {
            let m = message_at(bytes, pos)->Ok_0;
            let n = le_u64(bytes.subrange(pos + 1, pos + 9)) as int;
            let body = bytes.subrange(pos + 9, pos + 9 + n);
            assert(message_body(body) == Ok::<MessageView, ErrorKind>(m));
            assert(n >= 22);
            assert(passes(m, every_message()));
            lemma_chunk_scan_agrees(bytes, pos + 9 + n, acc.push(m));
        } else {
            let n = le_u64(bytes.subrange(pos + 1, pos + 9)) as int;
            let next = pos + 9 + n;
            lemma_next_message_advances(bytes, next, end, false);
            lemma_chunk_scan_agrees(bytes, next, acc);
            if pos + 9 >= end {
                assert(next == end);
            }
        }
    }
}

/// The records of a chunk that lies in `data` and stores them as they are
/// are what reading the chunk in place yields, whatever size the summary
/// records for them.
#[verifier::rlimit(50)]
#[verifier::spinoff_prover]
pub proof fn lemma_chunk_records_in_place(data: Seq<u8>, meta: ChunkMetaView, chunk: ChunkView)
    requires
        data.len() <= usize::MAX,
        holds_at(data, meta.offset as int, chunk_bytes(chunk)),
        chunk_fits(chunk),
        compression_named(encode_utf8(chunk.compression)) is Stored,
    ensures
        chunk_records_at(data, meta) == Ok::<Seq<u8>, ErrorKind>(chunk.records),
{
    let at = meta.offset as int;
    let body = chunk_body_bytes(chunk);
    lemma_record_parts(data, at, 0x06, body);
    let name = encode_utf8(chunk.compression);
    let n = name.len() as int;
    let r = chunk.records.len() as int;
    assert(body.len() == 28 + 4 + n + 8 + r);
    lemma_le_round_trip_u32(n as u32);
    lemma_le_round_trip_u64(r as u64);
    assert(body.subrange(28, 32) =~= u32_le(n as u32));
    assert(body.subrange(32, 32 + n) =~= name);
    assert(body.subrange(32 + n, 40 + n) =~= u64_le(r as u64));
    assert(body.subrange(40 + n, 40 + n + r) =~= chunk.records);
    vstd::utf8::encode_utf8_valid_utf8(chunk.compression);
    vstd::utf8::encode_utf8_decode_utf8(chunk.compression);
    assert(text_or_empty(name) == chunk.compression);
    assert(get_bytes(body, 0, 28) is Ok);
    assert(get_bytes(body, 28, 4) == Ok::<(Seq<u8>, int), ErrorKind>((u32_le(n as u32), 32)));
    assert(get_bytes(body, 32, n) == Ok::<(Seq<u8>, int), ErrorKind>((name, 32 + n)));
    assert(get_bytes(body, 32 + n, 8) == Ok::<(Seq<u8>, int), ErrorKind>(
        (u64_le(r as u64), 40 + n),
    ));
    assert(word(r as u64) == r);
    assert(get_bytes(body, 40 + n, r) == Ok::<(Seq<u8>, int), ErrorKind>(
        (chunk.records, 40 + n + r),
    ));
    assert(chunk_body_records(body, meta.uncompressed_size) == Ok::<Seq<u8>, ErrorKind>(
        chunk.records,
    ));
}

/// What reading in place keeps of a chunk index.
pub open spec fn meta_of(v: ChunkIndexView) -> ChunkMetaView {
    ChunkMetaView {
        offset: v.chunk_start_offset,
        message_start_time: v.message_start_time,
        message_end_time: v.message_end_time,
        compression: v.compression,
        compressed_size: v.compressed_size,
        uncompressed_size: v.uncompressed_size,
    }
}

/// What reading in place keeps of chunk indices, one by one.
pub open spec fn metas_of(s: Seq<ChunkIndexView>) -> Seq<ChunkMetaView> {
    Seq::new(s.len(), |i: int| meta_of(s[i]))
}

/// A map has no more entries below a key than there are keys below it.
pub proof fn lemma_sorted_entries_len(m: Map<u16, u64>, upto: int)
    requires
        0 <= upto,
    ensures
        sorted_entries(m, upto).len() <= upto,
    decreases upto,
{
    if upto > 0 {
        lemma_sorted_entries_len(m, upto - 1);
    }
}

/// The body of a chunk index record is read in place as what the index
/// says of its chunk.
#[verifier::rlimit(50)]
#[verifier::spinoff_prover]
pub proof fn lemma_meta_in_place(v: ChunkIndexView)
    requires
        chunk_index_fits(v),
    ensures
        chunk_meta_at(chunk_index_body_bytes(v), 0) is Ok,
        chunk_meta_at(chunk_index_body_bytes(v), 0)->Ok_0.0 == meta_of(v),
{
    let body = chunk_index_body_bytes(v);
    let entries = num_entries_bytes(sorted_entries(v.message_index_offsets, 0x1_0000));
    lemma_sorted_entries_len(v.message_index_offsets, 0x1_0000);
    lemma_num_entries_len(sorted_entries(v.message_index_offsets, 0x1_0000));
    let ml = entries.len() as int;
    assert(ml <= 655360);
    let name = encode_utf8(v.compression);
    let n = name.len() as int;
    assert(body.len() == 64 + ml + n);
    lemma_le_round_trip_u64(v.message_start_time);
    lemma_le_round_trip_u64(v.message_end_time);
    lemma_le_round_trip_u64(v.chunk_start_offset);
    lemma_le_round_trip_u64(v.compressed_size);
    lemma_le_round_trip_u64(v.uncompressed_size);
    lemma_le_round_trip_u32(ml as u32);
    lemma_le_round_trip_u32(n as u32);
    assert(body.subrange(0, 8) =~= u64_le(v.message_start_time));
    assert(body.subrange(8, 16) =~= u64_le(v.message_end_time));
    assert(body.subrange(16, 24) =~= u64_le(v.chunk_start_offset));
    assert(body.subrange(32, 36) =~= u32_le(ml as u32));
    assert(body.subrange(44 + ml, 48 + ml) =~= u32_le(n as u32));
    assert(body.subrange(48 + ml, 48 + ml + n) =~= name);
    assert(body.subrange(48 + ml + n, 56 + ml + n) =~= u64_le(v.compressed_size));
    assert(body.subrange(56 + ml + n, 64 + ml + n) =~= u64_le(v.uncompressed_size));
    vstd::utf8::encode_utf8_valid_utf8(v.compression);
    vstd::utf8::encode_utf8_decode_utf8(v.compression);
    assert(text_or_empty(name) == v.compression);
    assert(get_bytes(body, 0, 8) == Ok::<(Seq<u8>, int), ErrorKind>(
        (u64_le(v.message_start_time), 8),
    ));
    assert(get_bytes(body, 8, 8) == Ok::<(Seq<u8>, int), ErrorKind>(
        (u64_le(v.message_end_time), 16),
    ));
    assert(get_bytes(body, 16, 8) == Ok::<(Seq<u8>, int), ErrorKind>(
        (u64_le(v.chunk_start_offset), 24),
    ));
    assert(get_bytes(body, 24, 8) is Ok && get_bytes(body, 24, 8)->Ok_0.1 == 32);
    assert(get_bytes(body, 32, 4) == Ok::<(Seq<u8>, int), ErrorKind>((u32_le(ml as u32), 36)));
    assert(get_bytes(body, 36, ml) is Ok && get_bytes(body, 36, ml)->Ok_0.1 == 36 + ml);
    assert(get_bytes(body, 36 + ml, 8) is Ok && get_bytes(body, 36 + ml, 8)->Ok_0.1 == 44 + ml);
    assert(get_bytes(body, 44 + ml, 4) == Ok::<(Seq<u8>, int), ErrorKind>(
        (u32_le(n as u32), 48 + ml),
    ));
    assert(get_bytes(body, 48 + ml, n) == Ok::<(Seq<u8>, int), ErrorKind>((name, 48 + ml + n)));
    assert(get_bytes(body, 48 + ml + n, 8) == Ok::<(Seq<u8>, int), ErrorKind>(
        (u64_le(v.compressed_size), 56 + ml + n),
    ));
    assert(get_bytes(body, 56 + ml + n, 8) == Ok::<(Seq<u8>, int), ErrorKind>(
        (u64_le(v.uncompressed_size), 64 + ml + n),
    ));
}

/// The chunk index records of a summary section, with more bytes behind
/// them than a record needs for its opcode and length, are taken one by
/// one when the chunks are looked for.
#[verifier::rlimit(50)]
pub proof fn lemma_indices_are_taken(
    data: Seq<u8>,
    pos: int,
    s: Seq<ChunkIndexView>,
    acc: Seq<ChunkMetaView>,
)
    requires
        data.len() <= usize::MAX,
        holds_at(data, pos, chunk_indices_bytes(s)),
        pos + chunk_indices_bytes(s).len() + 9 < data.len(),
        forall|i: int| 0 <= i < s.len() ==> chunk_index_fits(#[trigger] s[i]),
    ensures
        chunk_metas_from(data, pos, acc) == chunk_metas_from(
            data,
            pos + chunk_indices_bytes(s).len(),
            acc + metas_of(s),
        ),
    decreases s.len(),
{
    if s.len() == 0 {
        assert(acc + metas_of(s) =~= acc);
    } else {
        let head = s.drop_last();
        let v = s.last();
        let front = chunk_indices_bytes(head);
        let record = chunk_index_bytes(v);
        lemma_holds_within(data, pos, front, record);
        assert forall|i: int| 0 <= i < head.len() implies chunk_index_fits(#[trigger] head[i]) by {
            assert(head[i] == s[i]);
        }
        lemma_indices_are_taken(data, pos, head, acc);
        let at = pos + front.len();
        let body = chunk_index_body_bytes(v);
        lemma_record_parts(data, at, 0x08, body);
        assert(chunk_index_fits(s[s.len() - 1]));
        lemma_meta_in_place(v);
        assert((acc + metas_of(head)).push(meta_of(v)) =~= acc + metas_of(s));
    }
}

/// What reading in place makes of the structure of a file that the writer
/// closed with no records pending: the data section lies between the
/// header and the data end record, and the chunks are those of the chunk
/// indices, in their order. The file must fit the memory of the machine.
#[verifier::rlimit(50)]
#[verifier::spinoff_prover]
pub proof fn lemma_closed_file_structure(s: WriterView, h: HeaderView, rest: Seq<u8>)
    requires
        s.pending.len() == 0,
        s.output == magic() + header_bytes(h) + rest,
        forall|i: int| 0 <= i < s.chunk_indices.len() ==> chunk_index_fits(#[trigger] s.chunk_indices[i]),
        closed(s) is Ok,
        closed(s)->Ok_0.len() <= usize::MAX,
    ensures
        structure_of(closed(s)->Ok_0) == Ok::<StructureView, ErrorKind>(
            StructureView {
                chunks: metas_of(s.chunk_indices),
                data_start: (magic() + header_bytes(h)).len() as u64,
                data_end: data_section(s).len() as u64,
            },
        ),
        (magic() + header_bytes(h)).len() <= s.output.len(),
        data_section(s).len() <= closed(s)->Ok_0.len(),
{
    let bytes = closed(s)->Ok_0;
    assert(flushed(s) == Ok::<WriterView, ErrorKind>(s));
    let d = data_section(s);
    let sum = summary_bytes(s);
    let footer = FooterRecord {
        summary_start: d.len() as u64,
        summary_offset_start: 0,
        summary_crc: 0,
    };
    let fb = footer_bytes(footer);
    let head = magic() + header_bytes(h);
    assert(bytes == d + sum + fb + magic());
    assert(fb.len() == 29);
    assert(magic().len() == 8);
    let len = bytes.len() as int;
    let at = len - 37;
    assert(at == d.len() + sum.len());
    // the start of the file
    assert forall|i: int| 0 <= i < head.len() implies bytes[i] == head[i] by {
        assert(bytes[i] == s.output[i]);
    }
    assert(is_magic_at(bytes, 0)) by {
        assert(bytes.subrange(0, 5) =~= magic().subrange(0, 5));
        assert(bytes[5] == magic()[5]);
        assert(bytes[6] == magic()[6]);
        assert(bytes[7] == magic()[7]);
    }
    assert(holds_at(bytes, 8, header_bytes(h))) by {
        assert(bytes.subrange(8, 8 + header_bytes(h).len() as int) =~= header_bytes(h));
    }
    lemma_record_parts(bytes, 8, 0x01, header_body_bytes(h));
    // the footer
    assert(holds_at(bytes, at, fb)) by {
        assert(bytes.subrange(at, at + 29) =~= fb);
    }
    lemma_record_parts(bytes, at, 0x02, footer_body_bytes(footer));
    lemma_le_round_trip_u64(footer.summary_start);
    assert(bytes.subrange(at + 9, at + 17) =~= u64_le(footer.summary_start)) by {
        assert(bytes.subrange(at + 9, at + 29) == footer_body_bytes(footer));
        assert(bytes.subrange(at + 9, at + 17) =~= bytes.subrange(at + 9, at + 29).subrange(0, 8));
        assert(footer_body_bytes(footer).subrange(0, 8) =~= u64_le(footer.summary_start));
    }
    // the summary section
    let a = schemas_bytes(s.schemas, 0x1_0000);
    let b = channels_bytes(s.channels, 0x1_0000);
    let ci = chunk_indices_bytes(s.chunk_indices);
    let c = attachment_indices_bytes(s.attachment_indices);
    let e = metadata_indices_bytes(s.metadata_indices);
    let st = statistics_bytes(statistics_of(s));
    assert(sum =~= (a + b) + ci + (c + e + st));
    lemma_schemas_are_run(s.schemas, 0x1_0000);
    lemma_channels_are_run(s.channels, 0x1_0000);
    lemma_attachment_indices_are_run(s.attachment_indices);
    lemma_metadata_indices_are_run(s.metadata_indices);
    lemma_runs_join(a, b);
    lemma_runs_join(c, e);
    lemma_record_is_run(c + e, 0x0B, statistics_body_bytes(statistics_of(s)));
    let p0 = d.len() as int;
    let p1 = p0 + (a + b).len();
    let p2 = p1 + ci.len();
    assert(holds_at(bytes, p0, a + b)) by {
        assert(bytes.subrange(p0, p0 + (a + b).len() as int) =~= a + b);
    }
    assert(holds_at(bytes, p1, ci)) by {
        assert(bytes.subrange(p1, p1 + ci.len() as int) =~= ci);
    }
    assert(holds_at(bytes, p2, c + e + st)) by {
        assert(bytes.subrange(p2, p2 + (c + e + st).len() as int) =~= c + e + st);
    }
    lemma_run_is_passed(bytes, p0, a + b, Seq::empty());
    lemma_indices_are_taken(bytes, p1, s.chunk_indices, Seq::empty());
    assert(Seq::<ChunkMetaView>::empty() + metas_of(s.chunk_indices) =~= metas_of(s.chunk_indices));
    lemma_run_is_passed(bytes, p2, c + e + st, metas_of(s.chunk_indices));
    assert(chunk_metas_from(bytes, at, metas_of(s.chunk_indices)) == Ok::<
        Seq<ChunkMetaView>,
        ErrorKind,
    >(metas_of(s.chunk_indices)));
    assert(d.len() > 0 && d.len() < len);
}

/// What reading in place makes of a file written without chunks: all the
/// messages that were written are found, in their order. The file must
/// fit the memory of the machine.
pub proof fn lemma_closed_file_is_read_in_place(
    s: WriterView,
    h: HeaderView,
    rest: Seq<u8>,
    written: Seq<MessageView>,
)
    requires
        s.chunk_size is None,
        s.pending.len() == 0,
        s.chunk_indices.len() == 0,
        s.output == magic() + header_bytes(h) + rest,
        tracks_in_place(s.output, (magic() + header_bytes(h)).len() as int, written),
        closed(s) is Ok,
        closed(s)->Ok_0.len() <= usize::MAX,
    ensures
        structure_of(closed(s)->Ok_0) is Ok,
        fast_messages(closed(s)->Ok_0, structure_of(closed(s)->Ok_0)->Ok_0) == Ok::<
            Seq<MessageView>,
            ErrorKind,
        >(written),
{
    lemma_closed_file_structure(s, h, rest);
    lemma_closed_file_in_place(s, (magic() + header_bytes(h)).len() as int, written);
    assert(metas_of(s.chunk_indices) =~= Seq::<ChunkMetaView>::empty());
}

/// The chunks that lie readable in `data` are read in place one by one,
/// in the order of their indices, and yield their messages.
#[verifier::rlimit(50)]
pub proof fn lemma_chunks_are_read_in_place(
    data: Seq<u8>,
    indices: Seq<ChunkIndexView>,
    traces: Seq<Seq<MessageView>>,
    k: int,
)
    requires
        data.len() <= usize::MAX,
        chunks_hold(data, indices, traces),
        0 <= k <= indices.len(),
    ensures
        chunked_from(data, metas_of(indices), k, flattened(traces.take(k))) == Ok::<
            Seq<MessageView>,
            ErrorKind,
        >(flattened(traces)),
    decreases indices.len() - k,
{
    if k == indices.len() {
        assert(traces.take(k) =~= traces);
    } else {
        let acc = flattened(traces.take(k));
        let index = indices[k];
        assert(chunk_readable(data, index, traces[k]));
        let chunk = choose|chunk: ChunkView|
            {
                &&& #[trigger] holds_at(data, index.chunk_start_offset as int, chunk_bytes(chunk))
                &&& chunk_fits(chunk)
                &&& compression_named(encode_utf8(chunk.compression)) is Stored
                &&& chunk.uncompressed_crc == crc32(chunk.records)
                &&& chunk_scan(chunk.records, 0, every_message(), Seq::empty()) == Ok::<
                    Seq<MessageView>,
                    ErrorKind,
                >(traces[k])
            };
        assert(metas_of(indices)[k] == meta_of(index));
        lemma_chunk_records_in_place(data, meta_of(index), chunk);
        lemma_record_parts(data, index.chunk_start_offset as int, 0x06, chunk_body_bytes(chunk));
        assert(chunk.records.len() <= usize::MAX);
        lemma_chunk_scan_behind(chunk.records, 0, every_message(), acc, Seq::empty());
        assert(acc + Seq::<MessageView>::empty() =~= acc);
        lemma_chunk_scan_agrees(chunk.records, 0, acc);
        assert(traces.take(k + 1).drop_last() =~= traces.take(k));
        assert(traces.take(k + 1).last() == traces[k]);
        lemma_chunks_are_read_in_place(data, indices, traces, k + 1);
    }
}

/// The messages of a file written with chunks that are stored as they are
/// are found in place as they were written: where the writer has kept
/// track of the messages of its chunks and is closed, and where it has
/// written at least one chunk, reading in place yields the messages chunk
/// by chunk, in the order in which they were written. The file must fit
/// the memory of the machine.
#[verifier::rlimit(50)]
pub proof fn lemma_closed_chunked_file_is_read_in_place(
    s: WriterView,
    h: HeaderView,
    rest: Seq<u8>,
    traces: Seq<Seq<MessageView>>,
)
    requires
        traced(s, traces, Seq::empty()),
        s.pending.len() == 0,
        s.chunk_indices.len() > 0,
        s.output == magic() + header_bytes(h) + rest,
        forall|i: int| 0 <= i < s.chunk_indices.len() ==> chunk_index_fits(#[trigger] s.chunk_indices[i]),
        closed(s) is Ok,
        closed(s)->Ok_0.len() <= usize::MAX,
    ensures
        structure_of(closed(s)->Ok_0) is Ok,
        fast_messages(closed(s)->Ok_0, structure_of(closed(s)->Ok_0)->Ok_0) == Ok::<
            Seq<MessageView>,
            ErrorKind,
        >(flattened(traces)),
{
    let bytes = closed(s)->Ok_0;
    lemma_closed_file_structure(s, h, rest);
    assert(flushed(s) == Ok::<WriterView, ErrorKind>(s));
    let tail = bytes.skip(s.output.len() as int);
    assert(bytes =~= s.output + tail);
    lemma_output_grows_traced(s.output, tail, s.chunk_indices, traces);
    assert(traces.take(0) =~= Seq::<Seq<MessageView>>::empty());
    lemma_chunks_are_read_in_place(bytes, s.chunk_indices, traces, 0);
    assert(metas_of(s.chunk_indices).len() > 0);
}

} // verus!
