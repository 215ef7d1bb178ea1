//! What writing and reading have to do with each other: a file that the
//! writer closes is a file that the reader opens, and the summary that is
//! read is the summary that was written.

use crate::endian::group_widths;
use crate::error::ErrorKind;
use crate::io::reader::clamp_cursor;
use crate::mcap::parser::{
    attachment_index_at, channel_at, chunk_index_at, footer_at, footer_cursor, frame_cursor,
    header_at, is_magic_at, lemma_attachment_index_record_round_trip,
    lemma_channel_record_round_trip, lemma_chunk_index_record_round_trip,
    lemma_footer_record_round_trip, lemma_frame_round_trip, lemma_header_record_round_trip,
    lemma_metadata_index_record_round_trip, lemma_schema_record_round_trip,
    lemma_statistics_record_round_trip, magic, magic_at, metadata_index_at, opcode_at, schema_at,
    statistics_at,
};
use crate::mcap::parser::{
    lemma_message_record_round_trip, message_at, skip_at, skip_cursor,
};
use crate::mcap::reader::{
    data_scan, empty_summary, every_message, kept, linear_messages, messages_of, opened_file,
    parsed_summary, summary_from, with_schema, MessageFilter, OpenedView, SummaryView,
};
use crate::mcap::records::{
    attachment_body_bytes, attachment_bytes, attachment_fits, message_body_bytes, message_bytes,
    message_fits, metadata_body_bytes, metadata_bytes, metadata_fits, AttachmentView,
    MessageView, MetadataView,
};
use crate::mcap::chunk::{compressed, compression_named, decompressed, Compression};
use crate::mcap::crc::{crc32, crc_checked};
use crate::mcap::order::{in_order, inserted, stable_sorted};
use crate::mcap::parser::{chunk_at, lemma_chunk_record_round_trip};
use crate::mcap::reader::{
    chunk_messages, chunk_scan, chunked_messages, chunks_scan, overlapping, overlaps,
    recorded_size, relevant,
};
use crate::mcap::records::{chunk_body_bytes, chunk_bytes, chunk_fits, ChunkView};
use crate::mcap::writer::{
    after_attachment, after_channel, after_message, after_metadata, after_schema, opened,
    pending_chunk, pending_chunk_index,
};
use vstd::utf8::encode_utf8;
use crate::mcap::records::{
    attachment_index_body_bytes, attachment_index_bytes, attachment_index_fits,
    channel_body_bytes, channel_bytes, channel_fits, chunk_index_body_bytes, chunk_index_bytes,
    chunk_index_fits, footer_bytes, header_body_bytes, header_bytes, header_fits,
    metadata_index_body_bytes, metadata_index_bytes, metadata_index_fits, record_bytes,
    schema_body_bytes, schema_bytes, schema_fits, statistics_body_bytes, statistics_bytes,
    statistics_fits, AttachmentIndexView, ChannelView, ChunkIndexView, FooterRecord, HeaderView,
    MetadataIndexView, SchemaView, StatisticsView,
};
use crate::mcap::writer::{
    all_fit, attachment_indices_bytes, channels_bytes, chunk_indices_bytes, closed, data_section,
    flushed, metadata_indices_bytes, schemas_bytes, statistics_of, summary_bytes, WriterView,
};
use vstd::prelude::*;

verus! {

broadcast use group_widths;

/// The part of `data` at `pos` is `part`.
pub open spec fn holds_at(data: Seq<u8>, pos: int, part: Seq<u8>) -> bool {
    0 <= pos && pos + part.len() <= data.len() && data.subrange(pos, pos + part.len()) == part
}

/// A part of a part is a part of the whole.
pub proof fn lemma_holds_within(data: Seq<u8>, pos: int, first: Seq<u8>, second: Seq<u8>)
    requires
        holds_at(data, pos, first + second),
    ensures
        holds_at(data, pos, first),
        holds_at(data, pos + first.len(), second),
{
    let whole = first + second;
    assert(data.subrange(pos, pos + first.len()) =~= whole.subrange(0, first.len() as int));
    assert(whole.subrange(0, first.len() as int) =~= first);
    assert(data.subrange(pos + first.len(), pos + first.len() + second.len()) =~= whole.subrange(
        first.len() as int,
        whole.len() as int,
    ));
    assert(whole.subrange(first.len() as int, whole.len() as int) =~= second);
}

/// What stands at `pos` stands between what is before and what is behind
/// it.
pub proof fn lemma_split_at(data: Seq<u8>, pos: int, part: Seq<u8>)
    requires
        holds_at(data, pos, part),
    ensures
        data == data.take(pos) + part + data.skip(pos + part.len()),
        data.take(pos).len() == pos,
{
    assert(data =~= data.take(pos) + part + data.skip(pos + part.len()));
}

/// What the records from `pos` on add to the summary `acc`.
#[verifier::opaque]
pub open spec fn read_on(data: Seq<u8>, pos: int, acc: SummaryView) -> Result<SummaryView, ErrorKind> {
    summary_from(data, pos, acc)
}

/// A schema record in the summary section is taken in.
#[verifier::rlimit(50)]
#[verifier::spinoff_prover]
pub proof fn lemma_summary_takes_schema(data: Seq<u8>, pos: int, v: SchemaView, acc: SummaryView)
    requires
        data.len() <= usize::MAX,
        holds_at(data, pos, schema_bytes(v)),
        schema_fits(v),
        v.id != 0,
    ensures
        read_on(data, pos, acc) == read_on(
            data,
            pos + schema_bytes(v).len(),
            with_schema(acc, Some(v)),
        ),
{
    reveal(read_on);
    lemma_split_at(data, pos, schema_bytes(v));
    let before = data.take(pos);
    let after = data.skip(pos + schema_bytes(v).len());
    lemma_frame_round_trip(0x03, schema_body_bytes(v), before, after);
    lemma_schema_record_round_trip(v, before, after);
}

/// A channel record in the summary section is taken in.
#[verifier::rlimit(50)]
#[verifier::spinoff_prover]
pub proof fn lemma_summary_takes_channel(data: Seq<u8>, pos: int, v: ChannelView, acc: SummaryView)
    requires
        data.len() <= usize::MAX,
        holds_at(data, pos, channel_bytes(v)),
        channel_fits(v),
    ensures
        read_on(data, pos, acc) == read_on(
            data,
            pos + channel_bytes(v).len(),
            SummaryView { channels: acc.channels.insert(v.id, v), ..acc },
        ),
{
    reveal(read_on);
    lemma_split_at(data, pos, channel_bytes(v));
    let before = data.take(pos);
    let after = data.skip(pos + channel_bytes(v).len());
    lemma_frame_round_trip(0x04, channel_body_bytes(v), before, after);
    lemma_channel_record_round_trip(v, before, after);
}

/// A statistics record in the summary section is taken in.
#[verifier::rlimit(50)]
#[verifier::spinoff_prover]
pub proof fn lemma_summary_takes_statistics(
    data: Seq<u8>,
    pos: int,
    v: StatisticsView,
    acc: SummaryView,
)
    requires
        data.len() <= usize::MAX,
        holds_at(data, pos, statistics_bytes(v)),
    ensures
        read_on(data, pos, acc) == read_on(
            data,
            pos + statistics_bytes(v).len(),
            SummaryView { statistics: Some(v), ..acc },
        ),
{
    reveal(read_on);
    lemma_split_at(data, pos, statistics_bytes(v));
    let before = data.take(pos);
    let after = data.skip(pos + statistics_bytes(v).len());
    lemma_frame_round_trip(0x0B, statistics_body_bytes(v), before, after);
    lemma_statistics_record_round_trip(v, before, after);
}

/// A chunk index record in the summary section is taken in.
#[verifier::rlimit(50)]
#[verifier::spinoff_prover]
pub proof fn lemma_summary_takes_chunk_index(
    data: Seq<u8>,
    pos: int,
    v: ChunkIndexView,
    acc: SummaryView,
)
    requires
        data.len() <= usize::MAX,
        holds_at(data, pos, chunk_index_bytes(v)),
        chunk_index_fits(v),
    ensures
        read_on(data, pos, acc) == read_on(
            data,
            pos + chunk_index_bytes(v).len(),
            SummaryView { chunk_indices: acc.chunk_indices.push(v), ..acc },
        ),
{
    reveal(read_on);
    lemma_split_at(data, pos, chunk_index_bytes(v));
    let before = data.take(pos);
    let after = data.skip(pos + chunk_index_bytes(v).len());
    lemma_frame_round_trip(0x08, chunk_index_body_bytes(v), before, after);
    lemma_chunk_index_record_round_trip(v, before, after);
}

/// An attachment index record in the summary section is taken in.
#[verifier::rlimit(50)]
#[verifier::spinoff_prover]
pub proof fn lemma_summary_takes_attachment_index(
    data: Seq<u8>,
    pos: int,
    v: AttachmentIndexView,
    acc: SummaryView,
)
    requires
        data.len() <= usize::MAX,
        holds_at(data, pos, attachment_index_bytes(v)),
        attachment_index_fits(v),
    ensures
        read_on(data, pos, acc) == read_on(
            data,
            pos + attachment_index_bytes(v).len(),
            SummaryView { attachment_indices: acc.attachment_indices.push(v), ..acc },
        ),
{
    reveal(read_on);
    lemma_split_at(data, pos, attachment_index_bytes(v));
    let before = data.take(pos);
    let after = data.skip(pos + attachment_index_bytes(v).len());
    lemma_frame_round_trip(0x0A, attachment_index_body_bytes(v), before, after);
    lemma_attachment_index_record_round_trip(v, before, after);
}

/// A metadata index record in the summary section is taken in.
#[verifier::rlimit(50)]
#[verifier::spinoff_prover]
pub proof fn lemma_summary_takes_metadata_index(
    data: Seq<u8>,
    pos: int,
    v: MetadataIndexView,
    acc: SummaryView,
)
    requires
        data.len() <= usize::MAX,
        holds_at(data, pos, metadata_index_bytes(v)),
        metadata_index_fits(v),
    ensures
        read_on(data, pos, acc) == read_on(
            data,
            pos + metadata_index_bytes(v).len(),
            SummaryView { metadata_indices: acc.metadata_indices.push(v), ..acc },
        ),
{
    reveal(read_on);
    lemma_split_at(data, pos, metadata_index_bytes(v));
    let before = data.take(pos);
    let after = data.skip(pos + metadata_index_bytes(v).len());
    lemma_frame_round_trip(0x0D, metadata_index_body_bytes(v), before, after);
    lemma_metadata_index_record_round_trip(v, before, after);
}

/// `base` with the entries of `m` whose keys are below `upto` put over it.
pub open spec fn overlaid<V>(base: Map<u16, V>, m: Map<u16, V>, upto: int) -> Map<u16, V> {
    Map::new(
        |k: u16| base.contains_key(k) || (m.contains_key(k) && k < upto),
        |k: u16|
            if m.contains_key(k) && k < upto {
                m[k]
            } else {
                base[k]
            },
    )
}

/// The schema records of the summary section are taken in, each under
/// its id.
#[verifier::rlimit(50)]
#[verifier::spinoff_prover]
pub proof fn lemma_summary_takes_schemas(
    data: Seq<u8>,
    pos: int,
    m: Map<u16, SchemaView>,
    upto: int,
    acc: SummaryView,
)
    requires
        data.len() <= usize::MAX,
        0 <= upto <= 0x1_0000,
        holds_at(data, pos, schemas_bytes(m, upto)),
        !m.contains_key(0),
        forall|k: u16| #[trigger] m.contains_key(k) ==> schema_fits(m[k]) && m[k].id == k,
    ensures
        read_on(data, pos, acc) == read_on(
            data,
            pos + schemas_bytes(m, upto).len(),
            SummaryView { schemas: overlaid(acc.schemas, m, upto), ..acc },
        ),
    decreases upto,
{
    if upto <= 0 {
        assert(overlaid(acc.schemas, m, upto) =~= acc.schemas);
    } else {
        let key = (upto - 1) as u16;
        let before = schemas_bytes(m, upto - 1);
        if m.contains_key(key) {
            lemma_holds_within(data, pos, before, schema_bytes(m[key]));
            lemma_summary_takes_schemas(data, pos, m, upto - 1, acc);
            let mid = SummaryView { schemas: overlaid(acc.schemas, m, upto - 1), ..acc };
            lemma_summary_takes_schema(data, pos + before.len(), m[key], mid);
            assert(overlaid(acc.schemas, m, upto - 1).insert(key, m[key]) =~= overlaid(
                acc.schemas,
                m,
                upto,
            ));
        } else {
            lemma_summary_takes_schemas(data, pos, m, upto - 1, acc);
            assert(overlaid(acc.schemas, m, upto - 1) =~= overlaid(acc.schemas, m, upto));
        }
    }
}

/// The channel records of the summary section are taken in, each under
/// its id.
#[verifier::rlimit(50)]
#[verifier::spinoff_prover]
pub proof fn lemma_summary_takes_channels(
    data: Seq<u8>,
    pos: int,
    m: Map<u16, ChannelView>,
    upto: int,
    acc: SummaryView,
)
    requires
        data.len() <= usize::MAX,
        0 <= upto <= 0x1_0000,
        holds_at(data, pos, channels_bytes(m, upto)),
        forall|k: u16| #[trigger] m.contains_key(k) ==> channel_fits(m[k]) && m[k].id == k,
    ensures
        read_on(data, pos, acc) == read_on(
            data,
            pos + channels_bytes(m, upto).len(),
            SummaryView { channels: overlaid(acc.channels, m, upto), ..acc },
        ),
    decreases upto,
{
    if upto <= 0 {
        assert(overlaid(acc.channels, m, upto) =~= acc.channels);
    } else {
        let key = (upto - 1) as u16;
        let before = channels_bytes(m, upto - 1);
        if m.contains_key(key) {
            lemma_holds_within(data, pos, before, channel_bytes(m[key]));
            lemma_summary_takes_channels(data, pos, m, upto - 1, acc);
            let mid = SummaryView { channels: overlaid(acc.channels, m, upto - 1), ..acc };
            lemma_summary_takes_channel(data, pos + before.len(), m[key], mid);
            assert(overlaid(acc.channels, m, upto - 1).insert(key, m[key]) =~= overlaid(
                acc.channels,
                m,
                upto,
            ));
        } else {
            lemma_summary_takes_channels(data, pos, m, upto - 1, acc);
            assert(overlaid(acc.channels, m, upto - 1) =~= overlaid(acc.channels, m, upto));
        }
    }
}

/// The chunk index records of the summary section are taken in, in order.
#[verifier::rlimit(50)]
#[verifier::spinoff_prover]
pub proof fn lemma_summary_takes_chunk_indices(
    data: Seq<u8>,
    pos: int,
    s: Seq<ChunkIndexView>,
    acc: SummaryView,
)
    requires
        data.len() <= usize::MAX,
        holds_at(data, pos, chunk_indices_bytes(s)),
        forall|i: int| 0 <= i < s.len() ==> chunk_index_fits(#[trigger] s[i]),
    ensures
        read_on(data, pos, acc) == read_on(
            data,
            pos + chunk_indices_bytes(s).len(),
            SummaryView { chunk_indices: acc.chunk_indices + s, ..acc },
        ),
    decreases s.len(),
{
    if s.len() == 0 {
        assert(acc.chunk_indices + s =~= acc.chunk_indices);
    } else {
        let head = s.drop_last();
        let before = chunk_indices_bytes(head);
        lemma_holds_within(data, pos, before, chunk_index_bytes(s.last()));
        assert forall|i: int| 0 <= i < head.len() implies chunk_index_fits(#[trigger] head[i]) by {
            assert(head[i] == s[i]);
        }
        lemma_summary_takes_chunk_indices(data, pos, head, acc);
        let mid = SummaryView { chunk_indices: acc.chunk_indices + head, ..acc };
        lemma_summary_takes_chunk_index(data, pos + before.len(), s.last(), mid);
        assert((acc.chunk_indices + head).push(s.last()) =~= acc.chunk_indices + s);
    }
}

/// The attachment index records of the summary section are taken in, in
/// order.
#[verifier::rlimit(50)]
#[verifier::spinoff_prover]
pub proof fn lemma_summary_takes_attachment_indices(
    data: Seq<u8>,
    pos: int,
    s: Seq<AttachmentIndexView>,
    acc: SummaryView,
)
    requires
        data.len() <= usize::MAX,
        holds_at(data, pos, attachment_indices_bytes(s)),
        forall|i: int| 0 <= i < s.len() ==> attachment_index_fits(#[trigger] s[i]),
    ensures
        read_on(data, pos, acc) == read_on(
            data,
            pos + attachment_indices_bytes(s).len(),
            SummaryView { attachment_indices: acc.attachment_indices + s, ..acc },
        ),
    decreases s.len(),
{
    if s.len() == 0 {
        assert(acc.attachment_indices + s =~= acc.attachment_indices);
    } else {
        let head = s.drop_last();
        let before = attachment_indices_bytes(head);
        lemma_holds_within(data, pos, before, attachment_index_bytes(s.last()));
        assert forall|i: int| 0 <= i < head.len() implies attachment_index_fits(
            #[trigger] head[i],
        ) by {
            assert(head[i] == s[i]);
        }
        lemma_summary_takes_attachment_indices(data, pos, head, acc);
        let mid = SummaryView { attachment_indices: acc.attachment_indices + head, ..acc };
        lemma_summary_takes_attachment_index(data, pos + before.len(), s.last(), mid);
        assert((acc.attachment_indices + head).push(s.last()) =~= acc.attachment_indices + s);
    }
}

/// The metadata index records of the summary section are taken in, in
/// order.
#[verifier::rlimit(50)]
#[verifier::spinoff_prover]
pub proof fn lemma_summary_takes_metadata_indices(
    data: Seq<u8>,
    pos: int,
    s: Seq<MetadataIndexView>,
    acc: SummaryView,
)
    requires
        data.len() <= usize::MAX,
        holds_at(data, pos, metadata_indices_bytes(s)),
        forall|i: int| 0 <= i < s.len() ==> metadata_index_fits(#[trigger] s[i]),
    ensures
        read_on(data, pos, acc) == read_on(
            data,
            pos + metadata_indices_bytes(s).len(),
            SummaryView { metadata_indices: acc.metadata_indices + s, ..acc },
        ),
    decreases s.len(),
{
    if s.len() == 0 {
        assert(acc.metadata_indices + s =~= acc.metadata_indices);
    } else {
        let head = s.drop_last();
        let before = metadata_indices_bytes(head);
        lemma_holds_within(data, pos, before, metadata_index_bytes(s.last()));
        assert forall|i: int| 0 <= i < head.len() implies metadata_index_fits(
            #[trigger] head[i],
        ) by {
            assert(head[i] == s[i]);
        }
        lemma_summary_takes_metadata_indices(data, pos, head, acc);
        let mid = SummaryView { metadata_indices: acc.metadata_indices + head, ..acc };
        lemma_summary_takes_metadata_index(data, pos + before.len(), s.last(), mid);
        assert((acc.metadata_indices + head).push(s.last()) =~= acc.metadata_indices + s);
    }
}

/// The summary of what a writer in the state `s` has written.
pub open spec fn summary_of(s: WriterView) -> SummaryView {
    SummaryView {
        schemas: s.schemas,
        channels: s.channels,
        statistics: Some(statistics_of(s)),
        chunk_indices: s.chunk_indices,
        attachment_indices: s.attachment_indices,
        metadata_indices: s.metadata_indices,
    }
}

/// The summary section that a writer writes is read as the summary of
/// what it has written, when a footer follows the section.
#[verifier::rlimit(50)]
#[verifier::spinoff_prover]
pub proof fn lemma_summary_section_round_trip(data: Seq<u8>, pos: int, s: WriterView)
    requires
        data.len() <= usize::MAX,
        all_fit(s),
        !s.schemas.contains_key(0),
        holds_at(data, pos, summary_bytes(s)),
        pos + summary_bytes(s).len() < data.len(),
        data[pos + summary_bytes(s).len()] == 0x02,
    ensures
        summary_from(data, pos, empty_summary()) == Ok::<SummaryView, ErrorKind>(summary_of(s)),
{
    let b1 = schemas_bytes(s.schemas, 0x1_0000);
    let b2 = channels_bytes(s.channels, 0x1_0000);
    let b3 = chunk_indices_bytes(s.chunk_indices);
    let b4 = attachment_indices_bytes(s.attachment_indices);
    let b5 = metadata_indices_bytes(s.metadata_indices);
    let b6 = statistics_bytes(statistics_of(s));
    assert(summary_bytes(s) =~= b1 + (b2 + (b3 + (b4 + (b5 + b6)))));
    lemma_holds_within(data, pos, b1, b2 + (b3 + (b4 + (b5 + b6))));
    let p2 = pos + b1.len();
    lemma_holds_within(data, p2, b2, b3 + (b4 + (b5 + b6)));
    let p3 = p2 + b2.len();
    lemma_holds_within(data, p3, b3, b4 + (b5 + b6));
    let p4 = p3 + b3.len();
    lemma_holds_within(data, p4, b4, b5 + b6);
    let p5 = p4 + b4.len();
    lemma_holds_within(data, p5, b5, b6);
    let p6 = p5 + b5.len();
    let a0 = empty_summary();
    assert(summary_from(data, pos, a0) == read_on(data, pos, a0)) by {
        reveal(read_on);
    }
    lemma_summary_takes_schemas(data, pos, s.schemas, 0x1_0000, a0);
    let a1 = SummaryView { schemas: overlaid(a0.schemas, s.schemas, 0x1_0000), ..a0 };
    assert(a1.schemas =~= s.schemas);
    lemma_summary_takes_channels(data, p2, s.channels, 0x1_0000, a1);
    let a2 = SummaryView { channels: overlaid(a1.channels, s.channels, 0x1_0000), ..a1 };
    assert(a2.channels =~= s.channels);
    lemma_summary_takes_chunk_indices(data, p3, s.chunk_indices, a2);
    let a3 = SummaryView { chunk_indices: a2.chunk_indices + s.chunk_indices, ..a2 };
    assert(a3.chunk_indices =~= s.chunk_indices);
    lemma_summary_takes_attachment_indices(data, p4, s.attachment_indices, a3);
    let a4 = SummaryView { attachment_indices: a3.attachment_indices + s.attachment_indices, ..a3 };
    assert(a4.attachment_indices =~= s.attachment_indices);
    lemma_summary_takes_metadata_indices(data, p5, s.metadata_indices, a4);
    let a5 = SummaryView { metadata_indices: a4.metadata_indices + s.metadata_indices, ..a4 };
    assert(a5.metadata_indices =~= s.metadata_indices);
    lemma_summary_takes_statistics(data, p6, statistics_of(s), a5);
    let a6 = SummaryView { statistics: Some(statistics_of(s)), ..a5 };
    assert(a6 == summary_of(s));
    assert(p6 + b6.len() == pos + summary_bytes(s).len());
    assert(read_on(data, p6 + b6.len(), a6) == Ok::<SummaryView, ErrorKind>(a6)) by {
        reveal(read_on);
    }
}

/// Writing out the pending records leaves a state in which all still
/// fits, with the same schemas and channels, and an output that begins as
/// before.
#[verifier::rlimit(50)]
#[verifier::spinoff_prover]
pub proof fn lemma_flushed_keeps(s: WriterView)
    requires
        all_fit(s),
        flushed(s) is Ok,
    ensures
        all_fit(flushed(s)->Ok_0),
        flushed(s)->Ok_0.schemas == s.schemas,
        flushed(s)->Ok_0.channels == s.channels,
        flushed(s)->Ok_0.output.len() >= s.output.len(),
        flushed(s)->Ok_0.output.take(s.output.len() as int) == s.output,
{
    let f = flushed(s)->Ok_0;
    assert(f.output.take(s.output.len() as int) =~= s.output);
    if s.pending.len() > 0 {
        assert forall|i: int| 0 <= i < f.chunk_indices.len() implies chunk_index_fits(
            #[trigger] f.chunk_indices[i],
        ) by {
            if i < s.chunk_indices.len() {
                assert(f.chunk_indices[i] == s.chunk_indices[i]);
            }
        }
    }
}

/// The footer that a writer writes when it is closed in the state `s`.
pub open spec fn footer_of(s: WriterView) -> FooterRecord {
    FooterRecord {
        summary_start: data_section(flushed(s)->Ok_0).len() as u64,
        summary_offset_start: 0,
        summary_crc: 0,
    }
}

/// A file that begins with a magic and a header record yields them.
#[verifier::rlimit(50)]
#[verifier::spinoff_prover]
pub proof fn lemma_file_start(bytes: Seq<u8>, h: HeaderView)
    requires
        bytes.len() <= usize::MAX,
        header_fits(h),
        holds_at(bytes, 0, magic() + header_bytes(h)),
    ensures
        magic_at(bytes, 0) is Ok,
        header_at(bytes, 8) == Ok::<HeaderView, ErrorKind>(h),
{
    let head = magic() + header_bytes(h);
    lemma_holds_within(bytes, 0, magic(), header_bytes(h));
    assert(magic().len() == 8);
    assert forall|i: int| 0 <= i < 8 implies bytes[i] == magic()[i] by {
        assert(bytes.subrange(0, 8)[i] == bytes[i]);
    }
    lemma_split_at(bytes, 8, header_bytes(h));
    assert(bytes.take(8) =~= magic());
    let after = bytes.skip((8 + header_bytes(h).len()) as int);
    lemma_frame_round_trip(0x01, header_body_bytes(h), magic(), after);
    lemma_header_record_round_trip(h, magic(), after);
}

/// A file that ends with a footer record and a magic yields them.
#[verifier::rlimit(50)]
#[verifier::spinoff_prover]
pub proof fn lemma_file_end(bytes: Seq<u8>, front: Seq<u8>, footer: FooterRecord)
    requires
        bytes.len() <= usize::MAX,
        bytes == front + footer_bytes(footer) + magic(),
    ensures
        bytes.len() == front.len() + 37,
        footer_at(bytes, clamp_cursor(bytes, bytes.len() - 37)) == Ok::<FooterRecord, ErrorKind>(
            footer,
        ),
        magic_at(bytes, footer_cursor(bytes, clamp_cursor(bytes, bytes.len() - 37))) is Ok,
        bytes[front.len() as int] == 0x02,
{
    let fb = footer_bytes(footer);
    let m = magic();
    lemma_frame_round_trip(0x02, crate::mcap::records::footer_body_bytes(footer), front, m);
    assert(fb.len() == 29);
    assert(m.len() == 8);
    let len = bytes.len() as int;
    lemma_footer_record_round_trip(footer, front, m);
    assert(clamp_cursor(bytes, len - 37) == len - 37);
    assert(footer_cursor(bytes, len - 37) == len - 8);
    assert forall|i: int| 0 <= i < 8 implies bytes[len - 8 + i] == m[i] by {}
    assert(bytes[front.len() as int] == fb[0]);
}

/// A file with a magic and a header at its start, a footer and a magic at
/// its end, and a summary section where the footer says, is opened with
/// that header, that footer and that summary.
#[verifier::rlimit(50)]
#[verifier::spinoff_prover]
pub proof fn lemma_opens(
    bytes: Seq<u8>,
    h: HeaderView,
    front: Seq<u8>,
    footer: FooterRecord,
    summary: SummaryView,
)
    requires
        bytes.len() <= usize::MAX,
        header_fits(h),
        holds_at(bytes, 0, magic() + header_bytes(h)),
        bytes == front + footer_bytes(footer) + magic(),
        footer.summary_start > 0,
        parsed_summary(bytes, footer.summary_start) == Ok::<SummaryView, ErrorKind>(summary),
    ensures
        opened_file(bytes) == Ok::<OpenedView, ErrorKind>(OpenedView { header: h, footer, summary }),
{
    lemma_file_start(bytes, h);
    lemma_file_end(bytes, front, footer);
}

/// A file that the writer closes is a file that the reader opens: a writer
/// that was opened on an empty sink with the header `h`, has no schema
/// with the reserved id 0, and is closed in the state `s` leaves a file
/// from which the reader has the header `h`, the footer that names the
/// summary section, and as its summary the schemas, the channels, the
/// index entries and the statistics of the writer. The file must fit the
/// memory of the machine.
#[verifier::rlimit(50)]
#[verifier::spinoff_prover]
pub proof fn lemma_closed_file_opens(s: WriterView, h: HeaderView, rest: Seq<u8>)
    requires
        all_fit(s),
        !s.schemas.contains_key(0),
        header_fits(h),
        s.output == magic() + header_bytes(h) + rest,
        closed(s) is Ok,
        closed(s)->Ok_0.len() <= usize::MAX,
    ensures
        opened_file(closed(s)->Ok_0) == Ok::<OpenedView, ErrorKind>(
            OpenedView {
                header: h,
                footer: footer_of(s),
                summary: summary_of(flushed(s)->Ok_0),
            },
        ),
{
    let f = flushed(s)->Ok_0;
    lemma_flushed_keeps(s);
    let bytes = closed(s)->Ok_0;
    let d = data_section(f);
    let sum = summary_bytes(f);
    let footer = footer_of(s);
    let front = d + sum;
    assert(bytes == front + footer_bytes(footer) + magic());
    lemma_file_end(bytes, front, footer);
    let head = magic() + header_bytes(h);
    assert(holds_at(bytes, 0, head)) by {
        assert(s.output.len() >= head.len());
        assert(f.output.take(s.output.len() as int) == s.output);
        assert forall|i: int| 0 <= i < head.len() implies bytes[i] == head[i] by {
            assert(bytes[i] == f.output[i]);
            assert(f.output.take(s.output.len() as int)[i] == f.output[i]);
            assert(s.output[i] == head[i]);
        }
        assert(bytes.subrange(0, head.len() as int) =~= head);
    }
    assert(d.len() >= 8) by {
        assert(head.len() >= 8);
    }
    assert(holds_at(bytes, d.len() as int, sum)) by {
        assert(bytes.subrange(d.len() as int, (d.len() + sum.len()) as int) =~= sum);
    }
    lemma_summary_section_round_trip(bytes, d.len() as int, f);
    assert(footer.summary_start == d.len());
    assert(clamp_cursor(bytes, footer.summary_start as int) == d.len());
    lemma_opens(bytes, h, front, footer, summary_of(f));
}

/// A message record in the data section is read, and kept if the query
/// asks for it.
#[verifier::rlimit(50)]
#[verifier::spinoff_prover]
pub proof fn lemma_scan_takes_message(
    data: Seq<u8>,
    pos: int,
    m: MessageView,
    f: MessageFilter,
    acc: Seq<MessageView>,
)
    requires
        data.len() <= usize::MAX,
        holds_at(data, pos, message_bytes(m)),
        message_fits(m),
    ensures
        data_scan(data, pos, f, acc) == data_scan(
            data,
            pos + message_bytes(m).len(),
            f,
            kept(acc, m, f),
        ),
{
    lemma_split_at(data, pos, message_bytes(m));
    let before = data.take(pos);
    let after = data.skip(pos + message_bytes(m).len());
    lemma_frame_round_trip(0x05, message_body_bytes(m), before, after);
    lemma_message_record_round_trip(m, before, after);
}

/// A record of another kind than message, data end and footer is passed
/// over when the data section is read.
#[verifier::rlimit(50)]
#[verifier::spinoff_prover]
pub proof fn lemma_scan_skips(
    data: Seq<u8>,
    pos: int,
    opcode: u8,
    body: Seq<u8>,
    f: MessageFilter,
    acc: Seq<MessageView>,
)
    requires
        data.len() <= usize::MAX,
        holds_at(data, pos, record_bytes(opcode, body)),
        opcode != 0x05 && opcode != 0x0F && opcode != 0x02,
    ensures
        data_scan(data, pos, f, acc) == data_scan(
            data,
            pos + record_bytes(opcode, body).len(),
            f,
            acc,
        ),
{
    lemma_split_at(data, pos, record_bytes(opcode, body));
    let before = data.take(pos);
    let after = data.skip(pos + record_bytes(opcode, body).len());
    lemma_frame_round_trip(opcode, body, before, after);
    crate::endian::lemma_le_round_trip_u64(body.len() as u64);
    assert(data.subrange(pos + 1, pos + 9) =~= crate::endian::u64_le(body.len() as u64));
}

/// Whether the messages `written` are what the data section of `output`
/// holds: whatever is put behind `output`, reading the data section from
/// behind the header on comes to the end of `output` with just these
/// messages.
pub open spec fn tracks(output: Seq<u8>, data_start: int, written: Seq<MessageView>) -> bool {
    &&& data_start <= output.len()
    &&& forall|more: Seq<u8>|
        output.len() + more.len() <= usize::MAX ==> data_scan(
            #[trigger] (output + more),
            data_start,
            every_message(),
            Seq::empty(),
        ) == data_scan(output + more, output.len() as int, every_message(), written)
}

/// A writer that has just been opened has written no messages.
pub proof fn lemma_opened_tracks(profile: Seq<char>, chunk_size: Option<usize>, compression: Seq<char>)
    ensures
        tracks(
            opened(Seq::empty(), profile, chunk_size, compression).output,
            opened(Seq::empty(), profile, chunk_size, compression).output.len() as int,
            Seq::empty(),
        ),
{
}

/// What is written behind the output as a record that is no message comes
/// to the messages written as nothing.
#[verifier::rlimit(50)]
#[verifier::spinoff_prover]
pub proof fn lemma_record_tracked(
    output: Seq<u8>,
    data_start: int,
    written: Seq<MessageView>,
    opcode: u8,
    body: Seq<u8>,
)
    requires
        tracks(output, data_start, written),
        opcode != 0x05 && opcode != 0x0F && opcode != 0x02,
    ensures
        tracks(output + record_bytes(opcode, body), data_start, written),
{
    let record = record_bytes(opcode, body);
    let next = output + record;
    assert forall|more: Seq<u8>| next.len() + more.len() <= usize::MAX implies data_scan(
        #[trigger] (next + more),
        data_start,
        every_message(),
        Seq::empty(),
    ) == data_scan(next + more, next.len() as int, every_message(), written) by {
        let data = next + more;
        assert(data =~= output + (record + more));
        assert(data.subrange(output.len() as int, (output.len() + record.len()) as int) =~= record);
        lemma_scan_skips(data, output.len() as int, opcode, body, every_message(), written);
    }
}

/// A message that is written behind the output comes to the messages
/// written as the last.
#[verifier::rlimit(50)]
#[verifier::spinoff_prover]
pub proof fn lemma_message_tracked(
    output: Seq<u8>,
    data_start: int,
    written: Seq<MessageView>,
    m: MessageView,
)
    requires
        tracks(output, data_start, written),
        message_fits(m),
    ensures
        tracks(output + message_bytes(m), data_start, written.push(m)),
{
    let record = message_bytes(m);
    let next = output + record;
    assert forall|more: Seq<u8>| next.len() + more.len() <= usize::MAX implies data_scan(
        #[trigger] (next + more),
        data_start,
        every_message(),
        Seq::empty(),
    ) == data_scan(next + more, next.len() as int, every_message(), written.push(m)) by {
        let data = next + more;
        assert(data =~= output + (record + more));
        assert(data.subrange(output.len() as int, (output.len() + record.len()) as int) =~= record);
        lemma_scan_takes_message(data, output.len() as int, m, every_message(), written);
    }
}

/// Writing without chunks keeps track of the messages: a schema, a
/// channel, an attachment or a metadata record adds none, and a message
/// adds itself.
#[verifier::rlimit(50)]
#[verifier::spinoff_prover]
pub proof fn lemma_writes_are_tracked(
    s: WriterView,
    data_start: int,
    written: Seq<MessageView>,
    schema: crate::mcap::records::SchemaView,
    channel: ChannelView,
    message: MessageView,
    attachment: AttachmentView,
    metadata: MetadataView,
)
    requires
        s.chunk_size is None,
        s.pending.len() == 0,
        tracks(s.output, data_start, written),
        message_fits(message),
    ensures
        tracks(after_schema(s, schema).output, data_start, written),
        tracks(after_channel(s, channel).output, data_start, written),
        after_message(s, message) is Ok,
        tracks(after_message(s, message)->Ok_0.output, data_start, written.push(message)),
        after_attachment(s, attachment) is Ok,
        tracks(after_attachment(s, attachment)->Ok_0.output, data_start, written),
        after_metadata(s, metadata) is Ok,
        tracks(after_metadata(s, metadata)->Ok_0.output, data_start, written),
        after_schema(s, schema).pending.len() == 0 && after_schema(s, schema).chunk_size is None,
        after_channel(s, channel).pending.len() == 0 && after_channel(s, channel).chunk_size is None,
        after_message(s, message)->Ok_0.pending.len() == 0 && after_message(
            s,
            message,
        )->Ok_0.chunk_size is None,
        after_attachment(s, attachment)->Ok_0.pending.len() == 0 && after_attachment(
            s,
            attachment,
        )->Ok_0.chunk_size is None,
        after_metadata(s, metadata)->Ok_0.pending.len() == 0 && after_metadata(
            s,
            metadata,
        )->Ok_0.chunk_size is None,
{
    lemma_record_tracked(
        s.output,
        data_start,
        written,
        0x03,
        crate::mcap::records::schema_body_bytes(schema),
    );
    lemma_record_tracked(
        s.output,
        data_start,
        written,
        0x04,
        crate::mcap::records::channel_body_bytes(channel),
    );
    lemma_message_tracked(s.output, data_start, written, message);
    lemma_record_tracked(s.output, data_start, written, 0x09, attachment_body_bytes(attachment));
    lemma_record_tracked(s.output, data_start, written, 0x0C, metadata_body_bytes(metadata));
}

/// The messages of a file written without chunks are read back as they
/// were written: where the writer has kept track of the messages
/// `written` and is closed, reading the file without a query yields just
/// these messages in their order. The file must fit the memory of the
/// machine.
#[verifier::rlimit(50)]
#[verifier::spinoff_prover]
pub proof fn lemma_closed_file_messages(
    s: WriterView,
    h: HeaderView,
    rest: Seq<u8>,
    written: Seq<MessageView>,
    check: bool,
    reverse: bool,
)
    requires
        all_fit(s),
        header_fits(h),
        s.chunk_size is None,
        s.pending.len() == 0,
        s.chunk_indices.len() == 0,
        s.output == magic() + header_bytes(h) + rest,
        tracks(s.output, (magic() + header_bytes(h)).len() as int, written),
        closed(s) is Ok,
        closed(s)->Ok_0.len() <= usize::MAX,
    ensures
        linear_messages(closed(s)->Ok_0, every_message()) == Ok::<Seq<MessageView>, ErrorKind>(
            written,
        ),
        messages_of(closed(s)->Ok_0, s.chunk_indices, check, every_message(), false, reverse)
            == Ok::<Seq<MessageView>, ErrorKind>(written),
{
    let bytes = closed(s)->Ok_0;
    let head = magic() + header_bytes(h);
    let tail = bytes.skip(s.output.len() as int);
    assert(flushed(s) == Ok::<WriterView, ErrorKind>(s));
    assert(bytes =~= s.output + tail);
    assert(tail.len() > 0 && tail[0] == 0x0F) by {
        let end = crate::mcap::records::data_end_bytes(
            crate::mcap::records::DataEndRecord { data_section_crc: 0 },
        );
        assert(end[0] == 0x0F);
        assert(bytes[s.output.len() as int] == end[0]);
    }
    assert(data_scan(bytes, head.len() as int, every_message(), Seq::empty()) == data_scan(
        bytes,
        s.output.len() as int,
        every_message(),
        written,
    ));
    assert(holds_at(bytes, 8, header_bytes(h))) by {
        assert(bytes.subrange(8, (8 + header_bytes(h).len()) as int) =~= header_bytes(h));
    }
    lemma_split_at(bytes, 8, header_bytes(h));
    lemma_frame_round_trip(
        0x01,
        header_body_bytes(h),
        bytes.take(8),
        bytes.skip((8 + header_bytes(h).len()) as int),
    );
    crate::endian::lemma_le_round_trip_u64(header_body_bytes(h).len() as u64);
    assert(bytes.subrange(9, 17) =~= crate::endian::u64_le(header_body_bytes(h).len() as u64));
    assert(clamp_cursor(bytes, 8) == 8);
    assert(skip_at(bytes, 8) is Ok);
    assert(skip_cursor(bytes, 8) == head.len());
}

/// A message record among the records of a chunk is read, and kept if the
/// query asks for it.
#[verifier::rlimit(50)]
#[verifier::spinoff_prover]
pub proof fn lemma_chunk_scan_takes_message(
    data: Seq<u8>,
    pos: int,
    m: MessageView,
    f: MessageFilter,
    acc: Seq<MessageView>,
)
    requires
        data.len() <= usize::MAX,
        holds_at(data, pos, message_bytes(m)),
        message_fits(m),
    ensures
        chunk_scan(data, pos, f, acc) == chunk_scan(
            data,
            pos + message_bytes(m).len(),
            f,
            kept(acc, m, f),
        ),
{
    lemma_split_at(data, pos, message_bytes(m));
    let before = data.take(pos);
    let after = data.skip(pos + message_bytes(m).len());
    lemma_frame_round_trip(0x05, message_body_bytes(m), before, after);
    lemma_message_record_round_trip(m, before, after);
}

/// A record of another kind than message among the records of a chunk is
/// passed over.
#[verifier::rlimit(50)]
#[verifier::spinoff_prover]
pub proof fn lemma_chunk_scan_skips(
    data: Seq<u8>,
    pos: int,
    opcode: u8,
    body: Seq<u8>,
    f: MessageFilter,
    acc: Seq<MessageView>,
)
    requires
        data.len() <= usize::MAX,
        holds_at(data, pos, record_bytes(opcode, body)),
        opcode != 0x05,
    ensures
        chunk_scan(data, pos, f, acc) == chunk_scan(
            data,
            pos + record_bytes(opcode, body).len(),
            f,
            acc,
        ),
{
    lemma_split_at(data, pos, record_bytes(opcode, body));
    let before = data.take(pos);
    let after = data.skip(pos + record_bytes(opcode, body).len());
    lemma_frame_round_trip(opcode, body, before, after);
    crate::endian::lemma_le_round_trip_u64(body.len() as u64);
    assert(data.subrange(pos + 1, pos + 9) =~= crate::endian::u64_le(body.len() as u64));
}

/// What reading the records of a chunk yields behind some messages is
/// what it yields behind none, with those messages before it.
pub proof fn lemma_chunk_scan_behind(
    data: Seq<u8>,
    pos: int,
    f: MessageFilter,
    before: Seq<MessageView>,
    acc: Seq<MessageView>,
)
    ensures
        match chunk_scan(data, pos, f, acc) {
            Ok(all) => chunk_scan(data, pos, f, before + acc) == Ok::<Seq<MessageView>, ErrorKind>(
                before + all,
            ),
            Err(e) => chunk_scan(data, pos, f, before + acc) == Err::<Seq<MessageView>, ErrorKind>(
                e,
            ),
        },
    decreases data.len() - pos,
{
    if pos < 0 || pos >= data.len() {
    } else if data[pos] == 0x05 {
        match message_at(data, pos) {
            Err(e) => {},
            Ok(m) => {
                assert(kept(before + acc, m, f) =~= before + kept(acc, m, f));
                lemma_chunk_scan_behind(data, frame_cursor(data, pos, 0x05), f, before, kept(acc, m, f));
            },
        }
    } else {
        match skip_at(data, pos) {
            Err(e) => {},
            Ok(_) => {
                lemma_chunk_scan_behind(data, skip_cursor(data, pos), f, before, acc);
            },
        }
    }
}

/// Whether the messages `written` are what the pending records hold:
/// whatever is put behind them, reading them comes to their end with just
/// these messages.
pub open spec fn pending_tracks(pending: Seq<u8>, written: Seq<MessageView>) -> bool {
    forall|more: Seq<u8>|
        pending.len() + more.len() <= usize::MAX ==> chunk_scan(
            #[trigger] (pending + more),
            0,
            every_message(),
            Seq::empty(),
        ) == chunk_scan(pending + more, pending.len() as int, every_message(), written)
}

/// A record that is no message, put with the pending records, adds no
/// message to them.
#[verifier::rlimit(50)]
#[verifier::spinoff_prover]
pub proof fn lemma_pending_record_tracked(
    pending: Seq<u8>,
    written: Seq<MessageView>,
    opcode: u8,
    body: Seq<u8>,
)
    requires
        pending_tracks(pending, written),
        opcode != 0x05,
    ensures
        pending_tracks(pending + record_bytes(opcode, body), written),
{
    let record = record_bytes(opcode, body);
    let next = pending + record;
    assert forall|more: Seq<u8>| next.len() + more.len() <= usize::MAX implies chunk_scan(
        #[trigger] (next + more),
        0,
        every_message(),
        Seq::empty(),
    ) == chunk_scan(next + more, next.len() as int, every_message(), written) by {
        let data = next + more;
        assert(data =~= pending + (record + more));
        assert(data.subrange(pending.len() as int, (pending.len() + record.len()) as int)
            =~= record);
        lemma_chunk_scan_skips(data, pending.len() as int, opcode, body, every_message(), written);
    }
}

/// A message that is put with the pending records is the last of their
/// messages.
#[verifier::rlimit(50)]
#[verifier::spinoff_prover]
pub proof fn lemma_pending_message_tracked(
    pending: Seq<u8>,
    written: Seq<MessageView>,
    m: MessageView,
)
    requires
        pending_tracks(pending, written),
        message_fits(m),
    ensures
        pending_tracks(pending + message_bytes(m), written.push(m)),
{
    let record = message_bytes(m);
    let next = pending + record;
    assert forall|more: Seq<u8>| next.len() + more.len() <= usize::MAX implies chunk_scan(
        #[trigger] (next + more),
        0,
        every_message(),
        Seq::empty(),
    ) == chunk_scan(next + more, next.len() as int, every_message(), written.push(m)) by {
        let data = next + more;
        assert(data =~= pending + (record + more));
        assert(data.subrange(pending.len() as int, (pending.len() + record.len()) as int)
            =~= record);
        lemma_chunk_scan_takes_message(data, pending.len() as int, m, every_message(), written);
    }
}

/// Pending records that hold certain messages yield just them when they
/// are read as the records of a chunk.
pub proof fn lemma_pending_is_read(pending: Seq<u8>, written: Seq<MessageView>)
    requires
        pending_tracks(pending, written),
        pending.len() <= usize::MAX,
    ensures
        chunk_scan(pending, 0, every_message(), Seq::empty()) == Ok::<Seq<MessageView>, ErrorKind>(
            written,
        ),
{
    let more = Seq::<u8>::empty();
    assert(pending + more =~= pending);
}

/// Whether the chunk that `index` points to lies in `data` as a chunk
/// whose records are stored as they are, carry their checksum, and hold
/// the messages `messages`.
pub open spec fn chunk_readable(data: Seq<u8>, index: ChunkIndexView, messages: Seq<MessageView>) -> bool {
    exists|chunk: ChunkView|
        {
            &&& #[trigger] holds_at(data, index.chunk_start_offset as int, chunk_bytes(chunk))
            &&& chunk_fits(chunk)
            &&& compression_named(encode_utf8(chunk.compression)) is Stored
            &&& chunk.uncompressed_crc == crc32(chunk.records)
            &&& chunk_scan(chunk.records, 0, every_message(), Seq::empty()) == Ok::<
                Seq<MessageView>,
                ErrorKind,
            >(messages)
        }
}

/// A chunk that lies readable in a file adds its messages when it is
/// read without a query, whether or not checksums are checked.
#[verifier::rlimit(50)]
#[verifier::spinoff_prover]
pub proof fn lemma_chunk_is_read(
    data: Seq<u8>,
    index: ChunkIndexView,
    messages: Seq<MessageView>,
    check: bool,
    acc: Seq<MessageView>,
)
    requires
        data.len() <= usize::MAX,
        chunk_readable(data, index, messages),
    ensures
        chunk_messages(data, index, check, every_message(), acc) == Ok::<
            Seq<MessageView>,
            ErrorKind,
        >(acc + messages),
{
    let chunk = choose|chunk: ChunkView|
        {
            &&& #[trigger] holds_at(data, index.chunk_start_offset as int, chunk_bytes(chunk))
            &&& chunk_fits(chunk)
            &&& compression_named(encode_utf8(chunk.compression)) is Stored
            &&& chunk.uncompressed_crc == crc32(chunk.records)
            &&& chunk_scan(chunk.records, 0, every_message(), Seq::empty()) == Ok::<
                Seq<MessageView>,
                ErrorKind,
            >(messages)
        };
    let pos = index.chunk_start_offset as int;
    lemma_split_at(data, pos, chunk_bytes(chunk));
    let before = data.take(pos);
    let after = data.skip(pos + chunk_bytes(chunk).len());
    lemma_frame_round_trip(0x06, chunk_body_bytes(chunk), before, after);
    lemma_chunk_record_round_trip(chunk, before, after);
    assert(clamp_cursor(data, pos) == pos);
    assert(chunk_at(data, pos) == Ok::<ChunkView, ErrorKind>(chunk));
    assert(decompressed(chunk.compression, chunk.records, recorded_size(chunk)) == Ok::<
        Seq<u8>,
        ErrorKind,
    >(chunk.records));
    assert(crc_checked(check, chunk.uncompressed_crc, chunk.records) is Ok);
    lemma_chunk_scan_behind(chunk.records, 0, every_message(), acc, Seq::empty());
    assert(acc + Seq::<MessageView>::empty() =~= acc);
}

/// A chunk that lies readable in some bytes lies readable in them when
/// more follows.
pub proof fn lemma_chunk_stays_readable(
    data: Seq<u8>,
    more: Seq<u8>,
    index: ChunkIndexView,
    messages: Seq<MessageView>,
)
    requires
        chunk_readable(data, index, messages),
    ensures
        chunk_readable(data + more, index, messages),
{
    let chunk = choose|chunk: ChunkView|
        {
            &&& #[trigger] holds_at(data, index.chunk_start_offset as int, chunk_bytes(chunk))
            &&& chunk_fits(chunk)
            &&& compression_named(encode_utf8(chunk.compression)) is Stored
            &&& chunk.uncompressed_crc == crc32(chunk.records)
            &&& chunk_scan(chunk.records, 0, every_message(), Seq::empty()) == Ok::<
                Seq<MessageView>,
                ErrorKind,
            >(messages)
        };
    let pos = index.chunk_start_offset as int;
    assert((data + more).subrange(pos, pos + chunk_bytes(chunk).len()) =~= data.subrange(
        pos,
        pos + chunk_bytes(chunk).len(),
    ));
    assert(holds_at(data + more, pos, chunk_bytes(chunk)));
}

/// The messages of the chunks, chunk by chunk.
pub open spec fn flattened(traces: Seq<Seq<MessageView>>) -> Seq<MessageView>
    decreases traces.len(),
{
    if traces.len() == 0 {
        Seq::empty()
    } else {
        flattened(traces.drop_last()) + traces.last()
    }
}

/// Whether each chunk index of `indices` points to a chunk that lies
/// readable in `data` and holds the messages that `traces` names for it.
pub open spec fn chunks_hold(
    data: Seq<u8>,
    indices: Seq<ChunkIndexView>,
    traces: Seq<Seq<MessageView>>,
) -> bool {
    &&& traces.len() == indices.len()
    &&& forall|k: int|
        0 <= k < indices.len() ==> chunk_readable(data, #[trigger] indices[k], traces[k])
}

/// Whether a writer with chunks that are stored as they are has kept
/// track of its messages: those of each chunk written in `traces`, and
/// those of the pending records in `pending`.
pub open spec fn traced(
    s: WriterView,
    traces: Seq<Seq<MessageView>>,
    pending: Seq<MessageView>,
) -> bool {
    &&& s.chunk_size is Some
    &&& compression_named(encode_utf8(s.compression)) is Stored
    &&& encode_utf8(s.compression).len() <= u32::MAX
    &&& chunks_hold(s.output, s.chunk_indices, traces)
    &&& pending_tracks(s.pending, pending)
}

/// Writing out the pending records of a writer that has kept track of its
/// messages makes a chunk of them that holds just the pending messages.
#[verifier::rlimit(50)]
#[verifier::spinoff_prover]
pub proof fn lemma_flush_is_traced(
    s: WriterView,
    traces: Seq<Seq<MessageView>>,
    pending: Seq<MessageView>,
)
    requires
        traced(s, traces, pending),
        s.pending.len() > 0,
        s.pending.len() <= usize::MAX,
        s.output.len() <= u64::MAX,
    ensures
        flushed(s) is Ok,
        traced(flushed(s)->Ok_0, traces.push(pending), Seq::empty()),
{
    let f = flushed(s)->Ok_0;
    let chunk = pending_chunk(s, s.pending);
    let index = pending_chunk_index(s, s.pending);
    assert(compressed(s.compression, s.pending) == Ok::<Seq<u8>, ErrorKind>(s.pending));
    assert(f.output == s.output + chunk_bytes(chunk));
    lemma_pending_is_read(s.pending, pending);
    assert(holds_at(f.output, s.output.len() as int, chunk_bytes(chunk))) by {
        assert(f.output.subrange(
            s.output.len() as int,
            (s.output.len() + chunk_bytes(chunk).len()) as int,
        ) =~= chunk_bytes(chunk));
    }
    assert(index.chunk_start_offset as int == s.output.len());
    assert(holds_at(f.output, index.chunk_start_offset as int, chunk_bytes(chunk)));
    assert(chunk_fits(chunk));
    assert(chunk.uncompressed_crc == crc32(chunk.records));
    assert(chunk_scan(chunk.records, 0, every_message(), Seq::empty()) == Ok::<
        Seq<MessageView>,
        ErrorKind,
    >(pending));
    assert(chunk_readable(f.output, index, pending));
    let next = traces.push(pending);
    assert forall|k: int| 0 <= k < f.chunk_indices.len() implies chunk_readable(
        f.output,
        #[trigger] f.chunk_indices[k],
        next[k],
    ) by {
        if k < s.chunk_indices.len() {
            assert(f.chunk_indices[k] == s.chunk_indices[k]);
            lemma_chunk_stays_readable(s.output, chunk_bytes(chunk), s.chunk_indices[k], traces[k]);
        }
    }
    assert(f.pending =~= Seq::<u8>::empty());
}

/// Whatever goes to the sink behind the chunks leaves them readable.
pub proof fn lemma_output_grows_traced(
    output: Seq<u8>,
    more: Seq<u8>,
    indices: Seq<ChunkIndexView>,
    traces: Seq<Seq<MessageView>>,
)
    requires
        chunks_hold(output, indices, traces),
    ensures
        chunks_hold(output + more, indices, traces),
{
    assert forall|k: int| 0 <= k < indices.len() implies chunk_readable(
        output + more,
        #[trigger] indices[k],
        traces[k],
    ) by {
        lemma_chunk_stays_readable(output, more, indices[k], traces[k]);
    }
}

/// A writer with chunks that are stored as they are has written no
/// messages when it has just been opened.
pub proof fn lemma_opened_is_traced(
    sink: Seq<u8>,
    profile: Seq<char>,
    size: usize,
    compression: Seq<char>,
)
    requires
        compression_named(encode_utf8(compression)) is Stored,
        encode_utf8(compression).len() <= u32::MAX,
    ensures
        traced(opened(sink, profile, Some(size), compression), Seq::empty(), Seq::empty()),
{
    let s = opened(sink, profile, Some(size), compression);
    assert forall|more: Seq<u8>| s.pending.len() + more.len() <= usize::MAX implies chunk_scan(
        #[trigger] (s.pending + more),
        0,
        every_message(),
        Seq::empty(),
    ) == chunk_scan(s.pending + more, s.pending.len() as int, every_message(), Seq::empty()) by {}
}

/// The traces of a writer after its pending records, if there are any,
/// were written out as a chunk.
pub open spec fn flushed_traces(
    s: WriterView,
    traces: Seq<Seq<MessageView>>,
    pending: Seq<MessageView>,
) -> Seq<Seq<MessageView>> {
    if s.pending.len() == 0 {
        traces
    } else {
        traces.push(pending)
    }
}

/// Writing out the pending records, if there are any, keeps track of the
/// messages.
#[verifier::rlimit(50)]
#[verifier::spinoff_prover]
pub proof fn lemma_flushed_is_traced(
    s: WriterView,
    traces: Seq<Seq<MessageView>>,
    pending: Seq<MessageView>,
)
    requires
        traced(s, traces, pending),
        s.pending.len() <= usize::MAX,
        s.output.len() <= u64::MAX,
    ensures
        flushed(s) is Ok,
        traced(flushed(s)->Ok_0, flushed_traces(s, traces, pending), Seq::empty()),
{
    if s.pending.len() > 0 {
        lemma_flush_is_traced(s, traces, pending);
    } else {
        let f = flushed(s)->Ok_0;
        assert forall|more: Seq<u8>| f.pending.len() + more.len() <= usize::MAX implies chunk_scan(
            #[trigger] (f.pending + more),
            0,
            every_message(),
            Seq::empty(),
        ) == chunk_scan(f.pending + more, f.pending.len() as int, every_message(), Seq::empty()) by {}
    }
}

/// Writing with chunks that are stored as they are keeps track of the
/// messages: a schema or a channel adds none to the pending records; a
/// message adds itself to them, and they become a chunk when they have
/// reached the chunk size; an attachment or a metadata record makes a
/// chunk of the pending records. The pending records must fit the memory
/// of the machine and the output 64 bits.
#[verifier::rlimit(80)]
#[verifier::spinoff_prover]
pub proof fn lemma_chunked_writes_are_traced(
    s: WriterView,
    traces: Seq<Seq<MessageView>>,
    pending: Seq<MessageView>,
    schema: crate::mcap::records::SchemaView,
    channel: ChannelView,
    message: MessageView,
    attachment: AttachmentView,
    metadata: MetadataView,
)
    requires
        traced(s, traces, pending),
        message_fits(message),
        s.pending.len() + message_bytes(message).len() <= usize::MAX,
        s.output.len() + s.pending.len() + message_bytes(message).len() + 1024 <= u64::MAX,
    ensures
        traced(after_schema(s, schema), traces, pending),
        traced(after_channel(s, channel), traces, pending),
        after_message(s, message) is Ok,
        s.pending.len() + message_bytes(message).len() >= s.chunk_size->0 ==> traced(
            after_message(s, message)->Ok_0,
            traces.push(pending.push(message)),
            Seq::empty(),
        ),
        s.pending.len() + message_bytes(message).len() < s.chunk_size->0 ==> traced(
            after_message(s, message)->Ok_0,
            traces,
            pending.push(message),
        ),
        after_attachment(s, attachment) is Ok,
        traced(
            after_attachment(s, attachment)->Ok_0,
            flushed_traces(s, traces, pending),
            Seq::empty(),
        ),
        after_metadata(s, metadata) is Ok,
        traced(after_metadata(s, metadata)->Ok_0, flushed_traces(s, traces, pending), Seq::empty()),
{
    lemma_pending_record_tracked(
        s.pending,
        pending,
        0x03,
        crate::mcap::records::schema_body_bytes(schema),
    );
    lemma_pending_record_tracked(
        s.pending,
        pending,
        0x04,
        crate::mcap::records::channel_body_bytes(channel),
    );
    lemma_pending_message_tracked(s.pending, pending, message);
    // the message
    let size = s.chunk_size->0;
    let counted = WriterView {
        message_count: crate::mcap::writer::bump(s.message_count),
        channel_counts: s.channel_counts.insert(
            message.channel_id,
            crate::mcap::writer::bump(
                crate::mcap::writer::count_of(s.channel_counts, message.channel_id),
            ),
        ),
        times: crate::mcap::writer::widened(s.times, message.log_time),
        ..s
    };
    let gathered = WriterView {
        pending: s.pending + message_bytes(message),
        chunk_times: crate::mcap::writer::widened(s.chunk_times, message.log_time),
        ..counted
    };
    assert(traced(gathered, traces, pending.push(message)));
    if gathered.pending.len() >= size {
        assert(gathered.pending.len() > 0) by {
            lemma_frame_round_trip(
                0x05,
                message_body_bytes(message),
                Seq::empty(),
                Seq::empty(),
            );
        }
        lemma_flush_is_traced(gathered, traces, pending.push(message));
    }
    // the attachment and the metadata record
    lemma_flushed_is_traced(s, traces, pending);
    let f = flushed(s)->Ok_0;
    lemma_output_grows_traced(
        f.output,
        attachment_bytes(attachment),
        f.chunk_indices,
        flushed_traces(s, traces, pending),
    );
    lemma_output_grows_traced(
        f.output,
        metadata_bytes(metadata),
        f.chunk_indices,
        flushed_traces(s, traces, pending),
    );
}

/// Chunks whose start times do not go down are read in the order of the
/// file.
pub open spec fn starts_ascend(indices: Seq<ChunkIndexView>) -> bool {
    forall|i: int, j: int|
        0 <= i < j < indices.len() ==> indices[i].message_start_time <= indices[j].message_start_time
}

/// Without a query all chunks are selected, each with its start time and
/// its place.
pub proof fn lemma_all_chunks_overlap(indices: Seq<ChunkIndexView>, upto: int)
    requires
        0 <= upto <= indices.len() <= usize::MAX,
    ensures
        overlapping(indices, every_message(), upto).len() == upto,
        forall|k: int|
            0 <= k < upto ==> (#[trigger] overlapping(indices, every_message(), upto)[k]) == (
                indices[k].message_start_time,
                k as usize,
            ),
    decreases upto,
{
    if upto > 0 {
        lemma_all_chunks_overlap(indices, upto - 1);
    }
}

/// Entries whose keys do not go down stay as they are when they are
/// ordered by ascending key.
pub proof fn lemma_sorted_stays(s: Seq<(u64, usize)>)
    requires
        forall|i: int, j: int| 0 <= i < j < s.len() ==> s[i].0 <= s[j].0,
    ensures
        stable_sorted(s, false) == s,
    decreases s.len(),
{
    if s.len() > 0 {
        let head = s.drop_last();
        assert forall|i: int, j: int| 0 <= i < j < head.len() implies head[i].0 <= head[j].0 by {
            assert(head[i] == s[i]);
            assert(head[j] == s[j]);
        }
        lemma_sorted_stays(head);
        if head.len() > 0 {
            assert(head.last() == s[s.len() - 2]);
            assert(in_order(head.last().0, s.last().0, false));
        }
        assert(inserted(head, s.last(), false) =~= head.push(s.last()));
        assert(head.push(s.last()) =~= s);
    }
}

/// Readable chunks that are read in the order of the file add their
/// messages chunk by chunk.
#[verifier::rlimit(50)]
#[verifier::spinoff_prover]
pub proof fn lemma_chunks_are_read(
    data: Seq<u8>,
    indices: Seq<ChunkIndexView>,
    traces: Seq<Seq<MessageView>>,
    order: Seq<(u64, usize)>,
    k: int,
    check: bool,
    acc: Seq<MessageView>,
)
    requires
        data.len() <= usize::MAX,
        indices.len() <= usize::MAX,
        chunks_hold(data, indices, traces),
        order.len() == indices.len(),
        forall|i: int| 0 <= i < order.len() ==> (#[trigger] order[i]).1 == i,
        0 <= k <= indices.len(),
        acc == flattened(traces.take(k)),
    ensures
        chunks_scan(data, indices, order, k, check, every_message(), acc) == Ok::<
            Seq<MessageView>,
            ErrorKind,
        >(flattened(traces)),
    decreases indices.len() - k,
{
    if k >= order.len() {
        assert(traces.take(k) =~= traces);
    } else {
        assert(order[k].1 == k);
        assert(relevant(indices[k], every_message()));
        lemma_chunk_is_read(data, indices[k], traces[k], check, acc);
        assert(traces.take(k + 1).drop_last() =~= traces.take(k));
        assert(traces.take(k + 1).last() == traces[k]);
        lemma_chunks_are_read(data, indices, traces, order, k + 1, check, acc + traces[k]);
    }
}

/// The messages of a file written with chunks that are stored as they are
/// are read back as they were written: where the writer has kept track
/// of the messages of its chunks and is closed, where it has written at
/// least one chunk, and where the start times of its chunks do not go
/// down, reading the file without a query yields the messages chunk by
/// chunk, in the order in which they were written. The file must fit the
/// memory of the machine.
#[verifier::rlimit(50)]
#[verifier::spinoff_prover]
pub proof fn lemma_closed_chunked_file_messages(
    s: WriterView,
    traces: Seq<Seq<MessageView>>,
    check: bool,
)
    requires
        traced(s, traces, Seq::empty()),
        s.pending.len() == 0,
        0 < s.chunk_indices.len() <= usize::MAX,
        starts_ascend(s.chunk_indices),
        closed(s) is Ok,
        closed(s)->Ok_0.len() <= usize::MAX,
    ensures
        messages_of(closed(s)->Ok_0, s.chunk_indices, check, every_message(), false, false)
            == Ok::<Seq<MessageView>, ErrorKind>(flattened(traces)),
{
    let bytes = closed(s)->Ok_0;
    assert(flushed(s) == Ok::<WriterView, ErrorKind>(s));
    let tail = bytes.skip(s.output.len() as int);
    assert(bytes =~= s.output + tail);
    lemma_output_grows_traced(s.output, tail, s.chunk_indices, traces);
    let n = s.chunk_indices.len() as int;
    lemma_all_chunks_overlap(s.chunk_indices, n);
    let keys = overlapping(s.chunk_indices, every_message(), n);
    assert forall|i: int, j: int| 0 <= i < j < keys.len() implies keys[i].0 <= keys[j].0 by {
        assert(keys[i] == (s.chunk_indices[i].message_start_time, i as usize));
        assert(keys[j] == (s.chunk_indices[j].message_start_time, j as usize));
    }
    lemma_sorted_stays(keys);
    assert(traces.take(0) =~= Seq::<Seq<MessageView>>::empty());
    lemma_chunks_are_read(bytes, s.chunk_indices, traces, keys, 0, check, Seq::empty());
}

} // verus!
