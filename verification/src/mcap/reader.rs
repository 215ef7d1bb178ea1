//! Reading a file: the header and the footer, the summary that describes
//! the file, and the messages with filters and ordering.

use crate::endian::group_widths;
use crate::error::{ErrorKind, PybagError};
use crate::io::reader::{clamp_cursor, BytesReader, Reader};
use crate::mcap::chunk::{decompress_chunk, decompressed};
use crate::mcap::codec::parsed_as;
use crate::mcap::crc::{check_crc, crc_checked};
use crate::mcap::parser::{
    attachment_at, attachment_index_at, channel_at, chunk_at, chunk_index_at, footer_at,
    footer_cursor, frame_at, frame_cursor, header_at, is_magic_at, magic_at, message_at,
    metadata_at,
    metadata_index_at, opcode_at, schema_at, skip_at, skip_cursor, statistics_at,
    McapRecordParser,
};
use crate::mcap::records::{
    AttachmentIndexRecord, AttachmentIndexView, AttachmentRecord, AttachmentView, ChannelRecord,
    ChannelView, ChunkIndexRecord, ChunkIndexView, ChunkView, FooterRecord, HeaderRecord,
    HeaderView, MessageRecord, MessageView, MetadataIndexRecord, MetadataIndexView,
    MetadataRecord, MetadataView, SchemaRecord, SchemaView, StatisticsRecord, StatisticsView,
};
use crate::mcap::order::{
    comes_before, in_order, lemma_stable_sorted, ordered, sort_entries, stable_sorted,
};
use crate::mcap::writer::{
    attachment_index_views, channel_views, chunk_index_views, metadata_index_views, schema_views,
};
use crate::text::same_text;
use std::collections::HashMap;
use vstd::prelude::*;

verus! {

broadcast use {vstd::std_specs::hash::group_hash_axioms, group_widths};

/// What the summary of a file holds.
pub struct McapSummary {
    /// The schemas, by id.
    pub schemas: HashMap<u16, SchemaRecord>,
    /// The channels, by id.
    pub channels: HashMap<u16, ChannelRecord>,
    /// The statistics, if the file has any.
    pub statistics: Option<StatisticsRecord>,
    /// Where the chunks lie, in the order of the summary.
    pub chunk_indices: Vec<ChunkIndexRecord>,
    /// Where the attachments lie, in the order of the summary.
    pub attachment_indices: Vec<AttachmentIndexRecord>,
    /// Where the metadata records lie, in the order of the summary.
    pub metadata_indices: Vec<MetadataIndexRecord>,
}

/// What a `McapSummary` holds, as mathematical values.
pub struct SummaryView {
    pub schemas: Map<u16, SchemaView>,
    pub channels: Map<u16, ChannelView>,
    pub statistics: Option<StatisticsView>,
    pub chunk_indices: Seq<ChunkIndexView>,
    pub attachment_indices: Seq<AttachmentIndexView>,
    pub metadata_indices: Seq<MetadataIndexView>,
}

impl View for McapSummary {
    type V = SummaryView;

    open spec fn view(&self) -> SummaryView {
        SummaryView {
            schemas: schema_views(self.schemas@),
            channels: channel_views(self.channels@),
            statistics: match self.statistics {
                Some(s) => Some(s@),
                None => None,
            },
            chunk_indices: chunk_index_views(self.chunk_indices@),
            attachment_indices: attachment_index_views(self.attachment_indices@),
            metadata_indices: metadata_index_views(self.metadata_indices@),
        }
    }
}

/// The summary that holds nothing.
pub open spec fn empty_summary() -> SummaryView {
    SummaryView {
        schemas: Map::empty(),
        channels: Map::empty(),
        statistics: None,
        chunk_indices: Seq::empty(),
        attachment_indices: Seq::empty(),
        metadata_indices: Seq::empty(),
    }
}

impl Default for McapSummary {
    fn default() -> (r: Self)
        ensures
            r@ == empty_summary(),
    {
        let out = McapSummary {
            schemas: HashMap::new(),
            channels: HashMap::new(),
            statistics: None,
            chunk_indices: Vec::new(),
            attachment_indices: Vec::new(),
            metadata_indices: Vec::new(),
        };
        proof {
            lemma_same_summary(out@, empty_summary());
        }
        out
    }
}

/// Two summaries whose parts hold the same are the same.
pub proof fn lemma_same_summary(a: SummaryView, b: SummaryView)
    requires
        a.schemas =~= b.schemas,
        a.channels =~= b.channels,
        a.statistics == b.statistics,
        a.chunk_indices =~= b.chunk_indices,
        a.attachment_indices =~= b.attachment_indices,
        a.metadata_indices =~= b.metadata_indices,
    ensures
        a == b,
{
}

/// `acc` with the schema `found` in it, if there is one.
pub open spec fn with_schema(acc: SummaryView, found: Option<SchemaView>) -> SummaryView {
    match found {
        Some(v) => SummaryView { schemas: acc.schemas.insert(v.id, v), ..acc },
        None => acc,
    }
}

/// What the records from `pos` on add to the summary `acc`: schemas,
/// channels, statistics and the three kinds of index are taken in; a
/// footer ends the section; every other record is skipped by its length.
pub open spec fn summary_from(data: Seq<u8>, pos: int, acc: SummaryView) -> Result<
    SummaryView,
    ErrorKind,
>
    decreases data.len() - pos,
{
    if pos < 0 || pos >= data.len() {
        Ok(acc)
    } else if data[pos] == 0x02 {
        Ok(acc)
    } else if data[pos] == 0x03 {
        match schema_at(data, pos) {
            Err(e) => Err(e),
            Ok(found) => summary_from(data, frame_cursor(data, pos, 0x03), with_schema(acc, found)),
        }
    } else if data[pos] == 0x04 {
        match channel_at(data, pos) {
            Err(e) => Err(e),
            Ok(v) => summary_from(
                data,
                frame_cursor(data, pos, 0x04),
                SummaryView { channels: acc.channels.insert(v.id, v), ..acc },
            ),
        }
    } else if data[pos] == 0x0B {
        match statistics_at(data, pos) {
            Err(e) => Err(e),
            Ok(v) => summary_from(
                data,
                frame_cursor(data, pos, 0x0B),
                SummaryView { statistics: Some(v), ..acc },
            ),
        }
    } else if data[pos] == 0x08 {
        match chunk_index_at(data, pos) {
            Err(e) => Err(e),
            Ok(v) => summary_from(
                data,
                frame_cursor(data, pos, 0x08),
                SummaryView { chunk_indices: acc.chunk_indices.push(v), ..acc },
            ),
        }
    } else if data[pos] == 0x0A {
        match attachment_index_at(data, pos) {
            Err(e) => Err(e),
            Ok(v) => summary_from(
                data,
                frame_cursor(data, pos, 0x0A),
                SummaryView { attachment_indices: acc.attachment_indices.push(v), ..acc },
            ),
        }
    } else if data[pos] == 0x0D {
        match metadata_index_at(data, pos) {
            Err(e) => Err(e),
            Ok(v) => summary_from(
                data,
                frame_cursor(data, pos, 0x0D),
                SummaryView { metadata_indices: acc.metadata_indices.push(v), ..acc },
            ),
        }
    } else {
        match skip_at(data, pos) {
            Err(e) => Err(e),
            Ok(_) => summary_from(data, skip_cursor(data, pos), acc),
        }
    }
}

/// What the records of the data section from `pos` on add to the summary
/// `acc` when the file has no summary section: schemas and channels are
/// taken in; a data end record or a footer ends the section; every other
/// record is skipped by its length.
pub open spec fn scan_from(data: Seq<u8>, pos: int, acc: SummaryView) -> Result<
    SummaryView,
    ErrorKind,
>
    decreases data.len() - pos,
{
    if pos < 0 || pos >= data.len() {
        Ok(acc)
    } else if data[pos] == 0x0F || data[pos] == 0x02 {
        Ok(acc)
    } else if data[pos] == 0x03 {
        match schema_at(data, pos) {
            Err(e) => Err(e),
            Ok(found) => scan_from(data, frame_cursor(data, pos, 0x03), with_schema(acc, found)),
        }
    } else if data[pos] == 0x04 {
        match channel_at(data, pos) {
            Err(e) => Err(e),
            Ok(v) => scan_from(
                data,
                frame_cursor(data, pos, 0x04),
                SummaryView { channels: acc.channels.insert(v.id, v), ..acc },
            ),
        }
    } else {
        match skip_at(data, pos) {
            Err(e) => Err(e),
            Ok(_) => scan_from(data, skip_cursor(data, pos), acc),
        }
    }
}

/// The summary of a file without a summary section: what the data section
/// behind the magic and the header record yields.
pub open spec fn scanned_summary(data: Seq<u8>) -> Result<SummaryView, ErrorKind> {
    let start = clamp_cursor(data, 8);
    match skip_at(data, start) {
        Err(e) => Err(e),
        Ok(_) => scan_from(data, skip_cursor(data, start), empty_summary()),
    }
}

/// The summary of a file whose footer says that the summary section
/// starts at `summary_start`.
pub open spec fn parsed_summary(data: Seq<u8>, summary_start: u64) -> Result<SummaryView, ErrorKind> {
    summary_from(data, clamp_cursor(data, summary_start as int), empty_summary())
}

/// The topics of the channels of `m` with an id below `upto`, each once,
/// with the id of its channel, by ascending id. Should several channels
/// have one topic, the topic stands with the least of their ids.
pub open spec fn topics_below(m: Map<u16, ChannelView>, upto: int) -> Seq<(Seq<char>, u16)>
    decreases upto,
{
    if upto <= 0 {
        Seq::empty()
    } else {
        let before = topics_below(m, upto - 1);
        let id = (upto - 1) as u16;
        if m.contains_key(id) && first_with_topic(before, m[id].topic, 0) is None {
            before.push((m[id].topic, id))
        } else {
            before
        }
    }
}

/// Whether no topic occurs twice among the entries.
pub open spec fn topics_distinct(topics: Seq<(Seq<char>, u16)>) -> bool {
    forall|i: int, j: int|
        0 <= i < j < topics.len() ==> (#[trigger] topics[i]).0 != (#[trigger] topics[j]).0
}

/// Where no entry is found for a topic, no entry has it.
pub proof fn lemma_topic_absent(topics: Seq<(Seq<char>, u16)>, topic: Seq<char>, from: int)
    requires
        0 <= from,
        first_with_topic(topics, topic, from) is None,
    ensures
        forall|k: int| from <= k < topics.len() ==> (#[trigger] topics[k]).0 != topic,
    decreases topics.len() - from,
{
    if from < topics.len() {
        lemma_topic_absent(topics, topic, from + 1);
    }
}

/// No topic occurs twice in the table of topics.
pub proof fn lemma_topics_distinct(m: Map<u16, ChannelView>, upto: int)
    ensures
        topics_distinct(topics_below(m, upto)),
    decreases upto,
{
    if upto > 0 {
        lemma_topics_distinct(m, upto - 1);
        let before = topics_below(m, upto - 1);
        let id = (upto - 1) as u16;
        let out = topics_below(m, upto);
        if m.contains_key(id) && first_with_topic(before, m[id].topic, 0) is None {
            lemma_topic_absent(before, m[id].topic, 0);
            assert forall|i: int, j: int| 0 <= i < j < out.len() implies (#[trigger] out[i]).0 != (
            #[trigger] out[j]).0 by {
                assert(out[i] == before[i]);
                if j < before.len() {
                    assert(out[j] == before[j]);
                }
            }
        }
    }
}

/// The id of the first entry of `topics` that has the topic `topic`.
pub fn find_topic(topics: &Vec<(String, u16)>, topic: &str) -> (r: Option<u16>)
    ensures
        r == first_with_topic(topic_views(topics@), topic@, 0),
{
    let ghost views = topic_views(topics@);
    let mut i: usize = 0;
    while i < topics.len()
        invariant
            i <= topics.len(),
            views == topic_views(topics@),
            first_with_topic(views, topic@, 0) == first_with_topic(views, topic@, i as int),
        decreases topics.len() - i,
    {
        assert(views[i as int] == (topics@[i as int].0@, topics@[i as int].1));
        if same_text(topics[i].0.as_str(), topic) {
            return Some(topics[i].1);
        }
        i += 1;
    }
    None
}

/// The topics with their ids as sequences of characters.
pub open spec fn topic_views(v: Seq<(String, u16)>) -> Seq<(Seq<char>, u16)> {
    Seq::new(v.len(), |i: int| (v[i].0@, v[i].1))
}

/// The id of the first entry of `topics` from `from` on that has the topic
/// `topic`.
pub open spec fn first_with_topic(topics: Seq<(Seq<char>, u16)>, topic: Seq<char>, from: int) -> Option<
    u16,
>
    decreases topics.len() - from,
{
    if from < 0 || from >= topics.len() {
        None
    } else if topics[from].0 == topic {
        Some(topics[from].1)
    } else {
        first_with_topic(topics, topic, from + 1)
    }
}

/// What opening a file yields.
pub struct OpenedView {
    pub header: HeaderView,
    pub footer: FooterRecord,
    pub summary: SummaryView,
}

/// What opening the file with the bytes `data` yields: the start magic,
/// the header, the footer 37 bytes before the end, the end magic, then
/// the summary section if the footer names one, else what the data section
/// yields. A file without a footer where it is due violates the format,
/// whatever lies there.
pub open spec fn opened_file(data: Seq<u8>) -> Result<OpenedView, ErrorKind> {
    match magic_at(data, 0) {
        Err(e) => Err(e),
        Ok(_) => match header_at(data, 8) {
            Err(e) => Err(e),
            Ok(header) => {
                let footer_pos = clamp_cursor(data, data.len() - 37);
                match footer_at(data, footer_pos) {
                    Err(_) => Err(ErrorKind::InvalidMcap),
                    Ok(footer) => match magic_at(data, footer_cursor(data, footer_pos)) {
                        Err(e) => Err(e),
                        Ok(_) => {
                            let summary = if footer.summary_start > 0 {
                                parsed_summary(data, footer.summary_start)
                            } else {
                                scanned_summary(data)
                            };
                            match summary {
                                Err(e) => Err(e),
                                Ok(summary) => Ok(OpenedView { header, footer, summary }),
                            }
                        },
                    },
                }
            },
        },
    }
}

/// Which messages a query asks for.
pub struct MessageFilter {
    /// The channels asked for; all if none are named.
    pub ids: Option<Seq<u16>>,
    /// The earliest log time asked for, if any.
    pub start: Option<u64>,
    /// The latest log time asked for, if any.
    pub end: Option<u64>,
}

/// Whether the query asks for the message.
pub open spec fn passes(m: MessageView, f: MessageFilter) -> bool {
    &&& f.ids is Some ==> f.ids->0.contains(m.channel_id)
    &&& f.start is Some ==> m.log_time >= f.start->0
    &&& f.end is Some ==> m.log_time <= f.end->0
}

/// Whether the time range of the chunk meets that of the query.
pub open spec fn overlaps(c: ChunkIndexView, f: MessageFilter) -> bool {
    &&& f.start is Some ==> c.message_end_time >= f.start->0
    &&& f.end is Some ==> c.message_start_time <= f.end->0
}

/// Whether the chunk lists a message index for one of the first `upto`
/// channels that the query names.
pub open spec fn lists_one_of(c: ChunkIndexView, ids: Seq<u16>, upto: int) -> bool
    decreases upto,
{
    if upto <= 0 {
        false
    } else {
        lists_one_of(c, ids, upto - 1) || (upto <= ids.len() && c.message_index_offsets.contains_key(
            ids[upto - 1],
        ))
    }
}

/// Whether the chunk is read for the query: always if no channels are
/// named, else only if its index lists one of them.
pub open spec fn relevant(c: ChunkIndexView, f: MessageFilter) -> bool {
    match f.ids {
        None => true,
        Some(ids) => lists_one_of(c, ids, ids.len() as int),
    }
}

/// `acc` with `m` behind it, if the query asks for `m`.
pub open spec fn kept(acc: Seq<MessageView>, m: MessageView, f: MessageFilter) -> Seq<MessageView> {
    if passes(m, f) {
        acc.push(m)
    } else {
        acc
    }
}

/// What the records of an uncompressed chunk from `pos` on add to `acc`:
/// the messages that the query asks for; other records are skipped.
pub open spec fn chunk_scan(bytes: Seq<u8>, pos: int, f: MessageFilter, acc: Seq<MessageView>) -> Result<
    Seq<MessageView>,
    ErrorKind,
>
    decreases bytes.len() - pos,
{
    if pos < 0 || pos >= bytes.len() {
        Ok(acc)
    } else if bytes[pos] == 0x05 {
        match message_at(bytes, pos) {
            Err(e) => Err(e),
            Ok(m) => chunk_scan(bytes, frame_cursor(bytes, pos, 0x05), f, kept(acc, m, f)),
        }
    } else {
        match skip_at(bytes, pos) {
            Err(e) => Err(e),
            Ok(_) => chunk_scan(bytes, skip_cursor(bytes, pos), f, acc),
        }
    }
}

/// What the records of the data section from `pos` on add to `acc`: the
/// messages that the query asks for; a data end record or a footer ends
/// the section; other records are skipped.
pub open spec fn data_scan(data: Seq<u8>, pos: int, f: MessageFilter, acc: Seq<MessageView>) -> Result<
    Seq<MessageView>,
    ErrorKind,
>
    decreases data.len() - pos,
{
    if pos < 0 || pos >= data.len() {
        Ok(acc)
    } else if data[pos] == 0x05 {
        match message_at(data, pos) {
            Err(e) => Err(e),
            Ok(m) => data_scan(data, frame_cursor(data, pos, 0x05), f, kept(acc, m, f)),
        }
    } else if data[pos] == 0x0F || data[pos] == 0x02 {
        Ok(acc)
    } else {
        match skip_at(data, pos) {
            Err(e) => Err(e),
            Ok(_) => data_scan(data, skip_cursor(data, pos), f, acc),
        }
    }
}

/// The messages of a file without chunk indices: what the data section
/// behind the magic and the header record yields.
pub open spec fn linear_messages(data: Seq<u8>, f: MessageFilter) -> Result<
    Seq<MessageView>,
    ErrorKind,
> {
    let start = clamp_cursor(data, 8);
    match skip_at(data, start) {
        Err(e) => Err(e),
        Ok(_) => data_scan(data, skip_cursor(data, start), f, Seq::empty()),
    }
}

/// The size that a chunk records for its records, as far as a machine
/// word holds it.
pub open spec fn recorded_size(chunk: ChunkView) -> int {
    if chunk.uncompressed_size > usize::MAX {
        usize::MAX as int
    } else {
        chunk.uncompressed_size as int
    }
}

/// What the chunk that `c` points to adds to `acc`: the chunk record is
/// read at the offset, its records are decompressed and checked against
/// their checksum, and the messages among them that the query asks for
/// are taken.
pub open spec fn chunk_messages(
    data: Seq<u8>,
    c: ChunkIndexView,
    check: bool,
    f: MessageFilter,
    acc: Seq<MessageView>,
) -> Result<Seq<MessageView>, ErrorKind> {
    match chunk_at(data, clamp_cursor(data, c.chunk_start_offset as int)) {
        Err(e) => Err(e),
        Ok(chunk) => match decompressed(chunk.compression, chunk.records, recorded_size(chunk)) {
            Err(e) => Err(e),
            Ok(bytes) => match crc_checked(check, chunk.uncompressed_crc, bytes) {
                Err(e) => Err(e),
                Ok(_) => chunk_scan(bytes, 0, f, acc),
            },
        },
    }
}

/// The chunks among the first `upto` whose time range meets that of the
/// query, each as its start time and its place in `chunks`.
pub open spec fn overlapping(chunks: Seq<ChunkIndexView>, f: MessageFilter, upto: int) -> Seq<
    (u64, usize),
>
    decreases upto,
{
    if upto <= 0 || upto > chunks.len() {
        Seq::empty()
    } else if overlaps(chunks[upto - 1], f) {
        overlapping(chunks, f, upto - 1).push((chunks[upto - 1].message_start_time, (upto - 1) as usize))
    } else {
        overlapping(chunks, f, upto - 1)
    }
}

/// What the chunks named by `order` from the `k`-th on add to `acc`, each
/// read in turn if it is relevant to the query.
pub open spec fn chunks_scan(
    data: Seq<u8>,
    chunks: Seq<ChunkIndexView>,
    order: Seq<(u64, usize)>,
    k: int,
    check: bool,
    f: MessageFilter,
    acc: Seq<MessageView>,
) -> Result<Seq<MessageView>, ErrorKind>
    decreases order.len() - k,
{
    if k < 0 || k >= order.len() {
        Ok(acc)
    } else if order[k].1 >= chunks.len() || !relevant(chunks[order[k].1 as int], f) {
        chunks_scan(data, chunks, order, k + 1, check, f, acc)
    } else {
        match chunk_messages(data, chunks[order[k].1 as int], check, f, acc) {
            Err(e) => Err(e),
            Ok(more) => chunks_scan(data, chunks, order, k + 1, check, f, more),
        }
    }
}

/// The messages of a file with chunk indices: the chunks whose time range
/// meets that of the query are taken by start time, ascending or
/// descending, and read in that order.
pub open spec fn chunked_messages(
    data: Seq<u8>,
    chunks: Seq<ChunkIndexView>,
    check: bool,
    f: MessageFilter,
    reverse: bool,
) -> Result<Seq<MessageView>, ErrorKind> {
    chunks_scan(
        data,
        chunks,
        stable_sorted(overlapping(chunks, f, chunks.len() as int), reverse),
        0,
        check,
        f,
        Seq::empty(),
    )
}

/// The log times of the first `upto` messages, each with the place of its
/// message.
pub open spec fn time_keys(messages: Seq<MessageView>, upto: int) -> Seq<(u64, usize)>
    decreases upto,
{
    if upto <= 0 || upto > messages.len() {
        Seq::empty()
    } else {
        time_keys(messages, upto - 1).push((messages[upto - 1].log_time, (upto - 1) as usize))
    }
}

/// The messages that the first `upto` entries of `order` name, in the
/// order of the entries.
pub open spec fn picked(messages: Seq<MessageView>, order: Seq<(u64, usize)>, upto: int) -> Seq<
    MessageView,
>
    decreases upto,
{
    if upto <= 0 || upto > order.len() {
        Seq::empty()
    } else if order[upto - 1].1 < messages.len() {
        picked(messages, order, upto - 1).push(messages[order[upto - 1].1 as int])
    } else {
        picked(messages, order, upto - 1)
    }
}

/// The messages ordered by log time, ascending or descending; messages
/// with equal log times keep their order.
pub open spec fn by_log_time(messages: Seq<MessageView>, reverse: bool) -> Seq<MessageView> {
    let order = stable_sorted(time_keys(messages, messages.len() as int), reverse);
    picked(messages, order, order.len() as int)
}

/// The messages that a query yields: those of the chunks if the summary
/// has chunk indices, else those of the data section; ordered by log time
/// if that is asked for.
pub open spec fn messages_of(
    data: Seq<u8>,
    chunks: Seq<ChunkIndexView>,
    check: bool,
    f: MessageFilter,
    ordered: bool,
    reverse: bool,
) -> Result<Seq<MessageView>, ErrorKind> {
    let found = if chunks.len() > 0 {
        chunked_messages(data, chunks, check, f, reverse)
    } else {
        linear_messages(data, f)
    };
    match found {
        Err(e) => Err(e),
        Ok(messages) => if ordered {
            Ok(by_log_time(messages, reverse))
        } else {
            Ok(messages)
        },
    }
}

/// The messages by their views.
pub open spec fn message_views(v: Seq<MessageRecord>) -> Seq<MessageView> {
    Seq::new(v.len(), |i: int| v[i]@)
}

/// The filter of a query as the reader holds it while it reads.
pub struct Filter<'a> {
    pub ids: Option<&'a [u16]>,
    pub start: Option<u64>,
    pub end: Option<u64>,
}

impl<'a> View for Filter<'a> {
    type V = MessageFilter;

    open spec fn view(&self) -> MessageFilter {
        MessageFilter {
            ids: match self.ids {
                Some(ids) => Some(ids@),
                None => None,
            },
            start: self.start,
            end: self.end,
        }
    }
}

impl<'a> Filter<'a> {
    /// Whether the query asks for the message.
    #[verifier::rlimit(50)]
    pub fn passes(&self, m: &MessageRecord) -> (r: bool)
        ensures
            r == passes(m@, self@),
    {
        let channel_ok = match self.ids {
            Some(ids) => {
                let mut found = false;
                let mut i: usize = 0;
                while i < ids.len()
                    invariant
                        i <= ids.len(),
                        found == ids@.take(i as int).contains(m.channel_id),
                    decreases ids.len() - i,
                {
                    if ids[i] == m.channel_id {
                        found = true;
                    }
                    proof {
                        let before = ids@.take(i as int);
                        let after = ids@.take(i + 1);
                        assert(after =~= before.push(ids@[i as int]));
                        if before.contains(m.channel_id) {
                            let j = choose|j: int| 0 <= j < before.len() && before[j] == m.channel_id;
                            assert(after[j] == m.channel_id);
                        }
                        if ids@[i as int] == m.channel_id {
                            assert(after[i as int] == m.channel_id);
                        }
                        if after.contains(m.channel_id) {
                            let j = choose|j: int| 0 <= j < after.len() && after[j] == m.channel_id;
                            if j < i {
                                assert(before[j] == m.channel_id);
                            }
                        }
                    }
                    i += 1;
                }
                assert(ids@.take(ids.len() as int) =~= ids@);
                found
            },
            None => true,
        };
        let start_ok = match self.start {
            Some(t) => m.log_time >= t,
            None => true,
        };
        let end_ok = match self.end {
            Some(t) => m.log_time <= t,
            None => true,
        };
        channel_ok && start_ok && end_ok
    }

    /// Whether the time range of the chunk meets that of the query.
    pub fn overlaps(&self, c: &ChunkIndexRecord) -> (r: bool)
        ensures
            r == overlaps(c@, self@),
    {
        let start_ok = match self.start {
            Some(t) => c.message_end_time >= t,
            None => true,
        };
        let end_ok = match self.end {
            Some(t) => c.message_start_time <= t,
            None => true,
        };
        start_ok && end_ok
    }

    /// Whether the chunk is read for the query.
    pub fn relevant(&self, c: &ChunkIndexRecord) -> (r: bool)
        ensures
            r == relevant(c@, self@),
    {
        match self.ids {
            Some(ids) => {
                let mut found = false;
                let mut i: usize = 0;
                while i < ids.len()
                    invariant
                        i <= ids.len(),
                        found == lists_one_of(c@, ids@, i as int),
                    decreases ids.len() - i,
                {
                    if c.message_index_offsets.contains_key(&ids[i]) {
                        found = true;
                    }
                    i += 1;
                }
                found
            },
            None => true,
        }
    }
}

/// Whether an entry with the name `name` is asked for.
pub open spec fn name_matches(name: Seq<char>, asked: Option<Seq<char>>) -> bool {
    match asked {
        Some(n) => name == n,
        None => true,
    }
}

/// What the attachments that `indices` point to from the `k`-th on add to
/// `acc`: each whose name is asked for is read at its offset.
pub open spec fn attachments_from(
    data: Seq<u8>,
    indices: Seq<AttachmentIndexView>,
    k: int,
    asked: Option<Seq<char>>,
    acc: Seq<AttachmentView>,
) -> Result<Seq<AttachmentView>, ErrorKind>
    decreases indices.len() - k,
{
    if k < 0 || k >= indices.len() {
        Ok(acc)
    } else if !name_matches(indices[k].name, asked) {
        attachments_from(data, indices, k + 1, asked, acc)
    } else {
        match attachment_at(data, clamp_cursor(data, indices[k].offset as int)) {
            Err(e) => Err(e),
            Ok(v) => attachments_from(data, indices, k + 1, asked, acc.push(v)),
        }
    }
}

/// What the metadata records that `indices` point to from the `k`-th on
/// add to `acc`: each whose name is asked for is read at its offset.
pub open spec fn metadata_from(
    data: Seq<u8>,
    indices: Seq<MetadataIndexView>,
    k: int,
    asked: Option<Seq<char>>,
    acc: Seq<MetadataView>,
) -> Result<Seq<MetadataView>, ErrorKind>
    decreases indices.len() - k,
{
    if k < 0 || k >= indices.len() {
        Ok(acc)
    } else if !name_matches(indices[k].name, asked) {
        metadata_from(data, indices, k + 1, asked, acc)
    } else {
        match metadata_at(data, clamp_cursor(data, indices[k].offset as int)) {
            Err(e) => Err(e),
            Ok(v) => metadata_from(data, indices, k + 1, asked, acc.push(v)),
        }
    }
}

/// The attachments by their views.
pub open spec fn attachment_views(v: Seq<AttachmentRecord>) -> Seq<AttachmentView> {
    Seq::new(v.len(), |i: int| v[i]@)
}

/// The metadata records by their views.
pub open spec fn metadata_views(v: Seq<MetadataRecord>) -> Seq<MetadataView> {
    Seq::new(v.len(), |i: int| v[i]@)
}

/// The name asked for, as characters.
pub open spec fn asked_name(name: Option<&str>) -> Option<Seq<char>> {
    match name {
        Some(n) => Some(n@),
        None => None,
    }
}

/// The topics of `topics`, without the ids.
pub open spec fn topic_names(topics: Seq<(Seq<char>, u16)>) -> Seq<Seq<char>> {
    Seq::new(topics.len(), |i: int| topics[i].0)
}

/// The texts as sequences of characters.
pub open spec fn text_views(v: Seq<&str>) -> Seq<Seq<char>> {
    Seq::new(v.len(), |i: int| v[i]@)
}

/// Reads the messages of an uncompressed chunk that the query asks for
/// and puts them behind `out`.
#[verifier::rlimit(50)]
pub fn scan_chunk(bytes: Vec<u8>, filter: &Filter, out: &mut Vec<MessageRecord>) -> (r: Result<
    (),
    PybagError,
>)
    ensures
        match chunk_scan(bytes@, 0, filter@, message_views(old(out)@)) {
            Ok(all) => r is Ok && message_views(final(out)@) == all,
            Err(e) => r is Err && r->Err_0@ == e,
        },
{
    let mut reader = BytesReader::new(bytes);
    let ghost data = reader.contents();
    loop
        invariant
            reader.wf(),
            reader.contents() == data,
            data == bytes@,
            chunk_scan(data, 0, filter@, message_views(old(out)@)) == chunk_scan(
                data,
                reader.cursor(),
                filter@,
                message_views(out@),
            ),
        decreases data.len() - reader.cursor(),
    {
        proof {
            reader.lemma_wf();
        }
        let ghost acc = message_views(out@);
        let opcode = match McapRecordParser::peek_record(&mut reader)? {
            Some(opcode) => opcode,
            None => {
                return Ok(());
            },
        };
        if opcode == 0x05 {
            let message = McapRecordParser::parse_message(&mut reader)?;
            if filter.passes(&message) {
                let ghost v = message@;
                out.push(message);
                assert(message_views(out@) =~= acc.push(v));
            }
        } else {
            McapRecordParser::skip_record(&mut reader)?;
        }
    }
}

/// The messages ordered by log time, ascending or descending; messages
/// with equal log times keep their order.
pub fn in_time_order(messages: Vec<MessageRecord>, reverse: bool) -> (r: Vec<MessageRecord>)
    ensures
        message_views(r@) == by_log_time(message_views(messages@), reverse),
{
    let ghost views = message_views(messages@);
    let mut keys: Vec<(u64, usize)> = Vec::new();
    let mut i: usize = 0;
    while i < messages.len()
        invariant
            i <= messages.len(),
            views == message_views(messages@),
            keys@ == time_keys(views, i as int),
        decreases messages.len() - i,
    {
        keys.push((messages[i].log_time, i));
        i += 1;
    }
    sort_entries(&mut keys, reverse);
    let mut out: Vec<MessageRecord> = Vec::new();
    let mut k: usize = 0;
    assert(message_views(out@) =~= picked(views, keys@, 0));
    while k < keys.len()
        invariant
            k <= keys.len(),
            views == message_views(messages@),
            keys@ == stable_sorted(time_keys(views, views.len() as int), reverse),
            message_views(out@) == picked(views, keys@, k as int),
        decreases keys.len() - k,
    {
        let at = keys[k].1;
        let ghost before = message_views(out@);
        if at < messages.len() {
            out.push(messages[at].clone());
            assert(message_views(out@) =~= before.push(views[at as int]));
        }
        k += 1;
    }
    out
}

/// The query that asks for every message.
pub open spec fn every_message() -> MessageFilter {
    MessageFilter { ids: None, start: None, end: None }
}

/// The messages of `all` that the query asks for, in their order.
pub open spec fn kept_of(all: Seq<MessageView>, f: MessageFilter) -> Seq<MessageView>
    decreases all.len(),
{
    if all.len() == 0 {
        Seq::empty()
    } else {
        kept(kept_of(all.drop_last(), f), all.last(), f)
    }
}

/// Reading the data section with a query yields what the query keeps of
/// the messages that reading it without one yields, and fails where that
/// fails.
#[verifier::rlimit(50)]
#[verifier::spinoff_prover]
pub proof fn lemma_data_scan_filters(
    data: Seq<u8>,
    pos: int,
    f: MessageFilter,
    seen: Seq<MessageView>,
)
    ensures
        match data_scan(data, pos, every_message(), seen) {
            Ok(all) => data_scan(data, pos, f, kept_of(seen, f)) == Ok::<
                Seq<MessageView>,
                ErrorKind,
            >(kept_of(all, f)),
            Err(e) => data_scan(data, pos, f, kept_of(seen, f)) == Err::<
                Seq<MessageView>,
                ErrorKind,
            >(e),
        },
    decreases data.len() - pos,
{
    if pos < 0 || pos >= data.len() {
    } else if data[pos] == 0x05 {
        match message_at(data, pos) {
            Err(e) => {},
            Ok(m) => {
                let next = seen.push(m);
                assert(next.drop_last() =~= seen);
                assert(kept(seen, m, every_message()) == next);
                lemma_data_scan_filters(data, frame_cursor(data, pos, 0x05), f, next);
            },
        }
    } else if data[pos] == 0x0F || data[pos] == 0x02 {
    } else {
        match skip_at(data, pos) {
            Err(e) => {},
            Ok(_) => {
                lemma_data_scan_filters(data, skip_cursor(data, pos), f, seen);
            },
        }
    }
}

/// All that a query keeps is asked for by the query.
pub proof fn lemma_kept_passes(all: Seq<MessageView>, f: MessageFilter)
    ensures
        forall|i: int| 0 <= i < kept_of(all, f).len() ==> passes(#[trigger] kept_of(all, f)[i], f),
        kept_of(all, every_message()) == all,
    decreases all.len(),
{
    if all.len() > 0 {
        lemma_kept_passes(all.drop_last(), f);
        assert(all.drop_last().push(all.last()) =~= all);
        let before = kept_of(all.drop_last(), f);
        let now = kept_of(all, f);
        assert forall|i: int| 0 <= i < now.len() implies passes(#[trigger] now[i], f) by {
            if i < before.len() {
                assert(now[i] == before[i]);
            } else {
                assert(now[i] == all.last());
            }
        }
    }
}

/// The log times of messages, each with the place of its message, name
/// the places in ascending order.
pub proof fn lemma_time_keys(messages: Seq<MessageView>, upto: int)
    requires
        0 <= upto <= messages.len(),
    ensures
        time_keys(messages, upto).len() == upto,
        forall|i: int|
            0 <= i < upto ==> (#[trigger] time_keys(messages, upto)[i]) == (
                messages[i].log_time,
                i as usize,
            ),
    decreases upto,
{
    if upto > 0 {
        lemma_time_keys(messages, upto - 1);
    }
}

/// Where all entries of `order` name places among `messages`, the messages
/// picked are those that the entries name, one for each entry.
pub proof fn lemma_picked(messages: Seq<MessageView>, order: Seq<(u64, usize)>, upto: int)
    requires
        0 <= upto <= order.len(),
        forall|i: int| 0 <= i < order.len() ==> (#[trigger] order[i]).1 < messages.len(),
    ensures
        picked(messages, order, upto).len() == upto,
        forall|i: int|
            0 <= i < upto ==> (#[trigger] picked(messages, order, upto)[i]) == messages[order[i].1 as int],
    decreases upto,
{
    if upto > 0 {
        lemma_picked(messages, order, upto - 1);
    }
}

/// Messages ordered by log time are the same messages in another order:
/// there is an arrangement of their places, with the same log times and
/// places as in the given order, by which each message of the outcome
/// is the message at the place that its entry names. The outcome is in
/// order of log time, ascending or descending, and messages of equal log
/// time keep the order they had.
#[verifier::rlimit(50)]
#[verifier::spinoff_prover]
pub proof fn lemma_by_log_time(messages: Seq<MessageView>, reverse: bool)
    requires
        messages.len() <= usize::MAX,
    ensures
        by_log_time(messages, reverse).len() == messages.len(),
        ({
            let keys = time_keys(messages, messages.len() as int);
            let order = stable_sorted(keys, reverse);
            &&& order.to_multiset() == keys.to_multiset()
            &&& ordered(order, reverse)
            &&& forall|k: int|
                0 <= k < messages.len() ==> (#[trigger] order[k]).1 < messages.len()
                    && by_log_time(messages, reverse)[k] == messages[order[k].1 as int]
                    && order[k].0 == messages[order[k].1 as int].log_time
        }),
        forall|i: int, j: int|
            0 <= i < j < messages.len() ==> in_order(
                (#[trigger] by_log_time(messages, reverse)[i]).log_time,
                (#[trigger] by_log_time(messages, reverse)[j]).log_time,
                reverse,
            ),
{
    let n = messages.len() as int;
    let keys = time_keys(messages, n);
    lemma_time_keys(messages, n);
    let holds = |e: (u64, usize)| e.1 < messages.len() && e.0 == messages[e.1 as int].log_time;
    lemma_stable_sorted(keys, reverse, holds);
    let order = stable_sorted(keys, reverse);
    lemma_picked(messages, order, order.len() as int);
    let out = by_log_time(messages, reverse);
    assert forall|i: int, j: int| 0 <= i < j < messages.len() implies in_order(
        (#[trigger] out[i]).log_time,
        (#[trigger] out[j]).log_time,
        reverse,
    ) by {
        assert(holds(order[i]));
        assert(holds(order[j]));
        assert(comes_before(order[i], order[j], reverse));
    }
    assert forall|k: int| 0 <= k < messages.len() implies (#[trigger] order[k]).1 < messages.len()
        && out[k] == messages[order[k].1 as int] && order[k].0 == messages[order[k].1 as int].log_time by {
        assert(holds(order[k]));
    }
}

/// For a file without chunk indices, a query that asks for order by log
/// time yields exactly the messages of the data section that it asks for,
/// ordered by log time; and it fails where reading the data section
/// fails.
pub proof fn lemma_query_yields_what_is_asked(
    data: Seq<u8>,
    check: bool,
    f: MessageFilter,
    reverse: bool,
)
    ensures
        match linear_messages(data, every_message()) {
            Ok(all) => messages_of(data, Seq::empty(), check, f, true, reverse) == Ok::<
                Seq<MessageView>,
                ErrorKind,
            >(by_log_time(kept_of(all, f), reverse)) && messages_of(
                data,
                Seq::empty(),
                check,
                f,
                false,
                reverse,
            ) == Ok::<Seq<MessageView>, ErrorKind>(kept_of(all, f)),
            Err(e) => messages_of(data, Seq::empty(), check, f, true, reverse) == Err::<
                Seq<MessageView>,
                ErrorKind,
            >(e),
        },
{
    let start = clamp_cursor(data, 8);
    if skip_at(data, start) is Ok {
        assert(kept_of(Seq::<MessageView>::empty(), f) =~= Seq::<MessageView>::empty());
        lemma_data_scan_filters(data, skip_cursor(data, start), f, Seq::empty());
    }
}

/// A file whose first 8 bytes are no magic is refused as such, whatever
/// follows. The sixth byte, the version, is not looked at.
pub proof fn lemma_start_magic_is_checked(data: Seq<u8>)
    requires
        data.len() >= 8,
        !is_magic_at(data, 0),
    ensures
        opened_file(data) == Err::<OpenedView, ErrorKind>(ErrorKind::InvalidMagicBytes),
{
}

/// A file with a start magic, a header and a footer whose last 8 bytes are
/// no magic is refused as such.
pub proof fn lemma_end_magic_is_checked(data: Seq<u8>)
    requires
        data.len() >= 37,
        magic_at(data, 0) is Ok,
        header_at(data, 8) is Ok,
        footer_at(data, data.len() - 37) is Ok,
        !is_magic_at(data, data.len() - 8),
    ensures
        opened_file(data) == Err::<OpenedView, ErrorKind>(ErrorKind::InvalidMagicBytes),
{
}

/// A reader of one file.
pub struct McapReader<R: Reader> {
    reader: R,
    header: HeaderRecord,
    footer: FooterRecord,
    summary: McapSummary,
    enable_crc_check: bool,
    topic_to_channel: Vec<(String, u16)>,
}

impl McapReader<BytesReader> {
    /// Opens the file whose bytes are `data`.
    pub fn from_bytes(data: Vec<u8>, enable_crc_check: bool) -> (r: Result<Self, PybagError>)
        ensures
            match opened_file(data@) {
                Ok(v) => r is Ok && r->Ok_0.wf() && r->Ok_0.data() == data@ && r->Ok_0.opened() == v
                    && r->Ok_0.checks_crc() == enable_crc_check,
                Err(e) => r is Err && r->Err_0@ == e,
            },
    {
        let reader = BytesReader::new(data);
        Self::new(reader, enable_crc_check)
    }
}

impl<R: Reader> McapReader<R> {
    /// All the bytes of the file.
    pub closed spec fn data(&self) -> Seq<u8> {
        self.reader.contents()
    }

    /// What opening the file yielded.
    pub closed spec fn opened(&self) -> OpenedView {
        OpenedView { header: self.header@, footer: self.footer, summary: self.summary@ }
    }

    /// Whether checksums of chunks are checked.
    pub closed spec fn checks_crc(&self) -> bool {
        self.enable_crc_check
    }

    /// The reader is in order and the topics are those of the channels.
    pub closed spec fn wf(&self) -> bool {
        &&& self.reader.wf()
        &&& topic_views(self.topic_to_channel@) == topics_below(self.summary@.channels, 0x1_0000)
    }

    /// Opens the file that `reader` ranges over.
    pub fn new(reader: R, enable_crc_check: bool) -> (r: Result<Self, PybagError>)
        requires
            reader.wf(),
        ensures
            match opened_file(reader.contents()) {
                Ok(v) => r is Ok && r->Ok_0.wf() && r->Ok_0.data() == reader.contents()
                    && r->Ok_0.opened() == v && r->Ok_0.checks_crc() == enable_crc_check,
                Err(e) => r is Err && r->Err_0@ == e,
            },
    {
        let mut reader = reader;
        let ghost data = reader.contents();
        proof {
            reader.lemma_wf();
        }
        let _ = reader.seek(0)?;
        let _ = McapRecordParser::parse_magic_bytes(&mut reader)?;
        let header = McapRecordParser::parse_header(&mut reader)?;
        let _ = reader.seek_from_end(-37)?;
        let footer = match McapRecordParser::parse_footer(&mut reader) {
            Ok(footer) => footer,
            Err(_) => {
                return Err(PybagError::InvalidMcap("No footer before the end magic".to_string()));
            },
        };
        let _ = McapRecordParser::parse_magic_bytes(&mut reader)?;
        let summary = if footer.summary_start > 0 {
            Self::parse_summary(&mut reader, &footer, enable_crc_check)?
        } else {
            Self::scan_data_section(&mut reader)?
        };
        let topic_to_channel = Self::topics_of(&summary.channels);
        Ok(Self { reader, header, footer, summary, enable_crc_check, topic_to_channel })
    }

    /// The profile that the header names.
    pub fn profile(&self) -> (r: &str)
        ensures
            r@ == self.opened().header.profile,
    {
        self.header.profile.as_str()
    }

    /// The header record.
    pub fn header(&self) -> (r: &HeaderRecord)
        ensures
            r@ == self.opened().header,
    {
        &self.header
    }

    /// The footer record.
    pub fn footer(&self) -> (r: &FooterRecord)
        ensures
            *r == self.opened().footer,
    {
        &self.footer
    }

    /// All the schemas, by id.
    pub fn schemas(&self) -> (r: &HashMap<u16, SchemaRecord>)
        ensures
            schema_views(r@) == self.opened().summary.schemas,
    {
        &self.summary.schemas
    }

    /// The schema with the id `id`, if there is one.
    pub fn schema(&self, id: u16) -> (r: Option<&SchemaRecord>)
        ensures
            r is Some <==> self.opened().summary.schemas.contains_key(id),
            r is Some ==> r->0@ == self.opened().summary.schemas[id],
    {
        self.summary.schemas.get(&id)
    }

    /// All the channels, by id.
    pub fn channels(&self) -> (r: &HashMap<u16, ChannelRecord>)
        ensures
            channel_views(r@) == self.opened().summary.channels,
    {
        &self.summary.channels
    }

    /// The channel with the id `id`, if there is one.
    pub fn channel(&self, id: u16) -> (r: Option<&ChannelRecord>)
        ensures
            r is Some <==> self.opened().summary.channels.contains_key(id),
            r is Some ==> r->0@ == self.opened().summary.channels[id],
    {
        self.summary.channels.get(&id)
    }

    /// The id of the channel with the topic `topic`: the least, should
    /// several channels have it.
    pub fn channel_id_by_topic(&self, topic: &str) -> (r: Option<u16>)
        requires
            self.wf(),
        ensures
            r == first_with_topic(topics_below(self.opened().summary.channels, 0x1_0000), topic@, 0),
    {
        find_topic(&self.topic_to_channel, topic)
    }

    /// The schema of the channel with the id `channel_id`, if there is
    /// such a channel and its schema is known.
    pub fn channel_schema(&self, channel_id: u16) -> (r: Option<&SchemaRecord>)
        ensures
            r is Some <==> self.opened().summary.channels.contains_key(channel_id)
                && self.opened().summary.schemas.contains_key(
                self.opened().summary.channels[channel_id].schema_id,
            ),
            r is Some ==> r->0@ == self.opened().summary.schemas[self.opened().summary.channels[channel_id].schema_id],
    {
        match self.summary.channels.get(&channel_id) {
            Some(channel) => self.summary.schemas.get(&channel.schema_id),
            None => None,
        }
    }

    /// The topics of the channels, each once, by ascending id of the
    /// first channel that has it.
    pub fn topics(&self) -> (r: Vec<&str>)
        requires
            self.wf(),
        ensures
            text_views(r@) == topic_names(topics_below(self.opened().summary.channels, 0x1_0000)),
    {
        let mut out: Vec<&str> = Vec::new();
        let mut i: usize = 0;
        while i < self.topic_to_channel.len()
            invariant
                i <= self.topic_to_channel.len(),
                out@.len() == i,
                forall|j: int| 0 <= j < i ==> (#[trigger] out@[j])@ == self.topic_to_channel@[j].0@,
            decreases self.topic_to_channel.len() - i,
        {
            out.push(self.topic_to_channel[i].0.as_str());
            i += 1;
        }
        assert(text_views(out@) =~= topic_names(topic_views(self.topic_to_channel@)));
        out
    }

    /// The statistics, if the file has any.
    pub fn statistics(&self) -> (r: Option<&StatisticsRecord>)
        ensures
            r is Some <==> self.opened().summary.statistics is Some,
            r is Some ==> r->0@ == self.opened().summary.statistics->0,
    {
        self.summary.statistics.as_ref()
    }

    /// The number of messages on the topic `topic` that the statistics
    /// give, if there is such a topic and the statistics count it.
    pub fn message_count(&self, topic: &str) -> (r: Option<u64>)
        requires
            self.wf(),
        ensures
            r == match first_with_topic(
                topics_below(self.opened().summary.channels, 0x1_0000),
                topic@,
                0,
            ) {
                None => None,
                Some(id) => match self.opened().summary.statistics {
                    None => None,
                    Some(s) => if s.channel_message_counts.contains_key(id) {
                        Some(s.channel_message_counts[id])
                    } else {
                        None
                    },
                },
            },
    {
        let id = match self.channel_id_by_topic(topic) {
            Some(id) => id,
            None => {
                return None;
            },
        };
        match &self.summary.statistics {
            Some(s) => match s.channel_message_counts.get(&id) {
                Some(count) => Some(*count),
                None => None,
            },
            None => None,
        }
    }

    /// The earliest log time that the statistics give.
    pub fn start_time(&self) -> (r: Option<u64>)
        ensures
            r == match self.opened().summary.statistics {
                Some(s) => Some(s.message_start_time),
                None => None,
            },
    {
        match &self.summary.statistics {
            Some(s) => Some(s.message_start_time),
            None => None,
        }
    }

    /// The latest log time that the statistics give.
    pub fn end_time(&self) -> (r: Option<u64>)
        ensures
            r == match self.opened().summary.statistics {
                Some(s) => Some(s.message_end_time),
                None => None,
            },
    {
        match &self.summary.statistics {
            Some(s) => Some(s.message_end_time),
            None => None,
        }
    }

    /// The chunks whose time range meets that of the query, each as its
    /// start time and its place in the summary.
    fn select_chunks(&self, filter: &Filter) -> (r: Vec<(u64, usize)>)
        ensures
            r@ == overlapping(
                self.opened().summary.chunk_indices,
                filter@,
                self.opened().summary.chunk_indices.len() as int,
            ),
    {
        let ghost chunks = self.opened().summary.chunk_indices;
        let mut out: Vec<(u64, usize)> = Vec::new();
        let mut i: usize = 0;
        while i < self.summary.chunk_indices.len()
            invariant
                i <= self.summary.chunk_indices.len(),
                chunks == chunk_index_views(self.summary.chunk_indices@),
                out@ == overlapping(chunks, filter@, i as int),
            decreases self.summary.chunk_indices.len() - i,
        {
            if filter.overlaps(&self.summary.chunk_indices[i]) {
                out.push((self.summary.chunk_indices[i].message_start_time, i));
            }
            i += 1;
        }
        out
    }

    /// Reads the chunk at the `at`-th place of the summary and puts the
    /// messages that the query asks for behind `out`.
    fn read_chunk(&mut self, at: usize, filter: &Filter, out: &mut Vec<MessageRecord>) -> (r: Result<
        (),
        PybagError,
    >)
        requires
            old(self).wf(),
            at < old(self).opened().summary.chunk_indices.len(),
        ensures
            final(self).wf(),
            final(self).data() == old(self).data(),
            final(self).opened() == old(self).opened(),
            final(self).checks_crc() == old(self).checks_crc(),
            match chunk_messages(
                old(self).data(),
                old(self).opened().summary.chunk_indices[at as int],
                old(self).checks_crc(),
                filter@,
                message_views(old(out)@),
            ) {
                Ok(all) => r is Ok && message_views(final(out)@) == all,
                Err(e) => r is Err && r->Err_0@ == e,
            },
    {
        let offset = self.summary.chunk_indices[at].chunk_start_offset;
        let _ = self.reader.seek(offset)?;
        let chunk = McapRecordParser::parse_chunk(&mut self.reader)?;
        let size: usize = if chunk.uncompressed_size > usize::MAX as u64 {
            usize::MAX
        } else {
            chunk.uncompressed_size as usize
        };
        let bytes = decompress_chunk(chunk.compression.as_str(), chunk.records.as_slice(), size)?;
        check_crc(self.enable_crc_check, chunk.uncompressed_crc, bytes.as_slice())?;
        scan_chunk(bytes, filter, out)
    }

    /// Reads the chunks in the order given and gathers the messages that
    /// the query asks for.
    #[verifier::rlimit(50)]
    fn read_chunks(&mut self, order: &Vec<(u64, usize)>, filter: &Filter) -> (r: Result<
        Vec<MessageRecord>,
        PybagError,
    >)
        requires
            old(self).wf(),
        ensures
            final(self).wf(),
            final(self).data() == old(self).data(),
            final(self).opened() == old(self).opened(),
            final(self).checks_crc() == old(self).checks_crc(),
            match chunks_scan(
                old(self).data(),
                old(self).opened().summary.chunk_indices,
                order@,
                0,
                old(self).checks_crc(),
                filter@,
                Seq::empty(),
            ) {
                Ok(all) => r is Ok && message_views(r->Ok_0@) == all,
                Err(e) => r is Err && r->Err_0@ == e,
            },
    {
        let mut out: Vec<MessageRecord> = Vec::new();
        let ghost chunks = self.opened().summary.chunk_indices;
        let ghost data = self.data();
        let ghost check = self.checks_crc();
        assert(message_views(out@) =~= Seq::empty());
        let mut k: usize = 0;
        while k < order.len()
            invariant
                k <= order.len(),
                self.wf(),
                self.data() == data,
                self.opened() == old(self).opened(),
                self.checks_crc() == check,
                data == old(self).data(),
                check == old(self).checks_crc(),
                chunks == self.opened().summary.chunk_indices,
                chunks_scan(data, chunks, order@, 0, check, filter@, Seq::empty()) == chunks_scan(
                    data,
                    chunks,
                    order@,
                    k as int,
                    check,
                    filter@,
                    message_views(out@),
                ),
            decreases order.len() - k,
        {
            let at = order[k].1;
            if at < self.summary.chunk_indices.len() && filter.relevant(
                &self.summary.chunk_indices[at],
            ) {
                self.read_chunk(at, filter, &mut out)?;
            }
            k += 1;
        }
        Ok(out)
    }

    /// Reads the data section record by record and gathers the messages
    /// that the query asks for.
    #[verifier::rlimit(50)]
    fn read_linear(&mut self, filter: &Filter) -> (r: Result<Vec<MessageRecord>, PybagError>)
        requires
            old(self).wf(),
        ensures
            final(self).wf(),
            final(self).data() == old(self).data(),
            final(self).opened() == old(self).opened(),
            final(self).checks_crc() == old(self).checks_crc(),
            match linear_messages(old(self).data(), filter@) {
                Ok(all) => r is Ok && message_views(r->Ok_0@) == all,
                Err(e) => r is Err && r->Err_0@ == e,
            },
    {
        let mut out: Vec<MessageRecord> = Vec::new();
        let ghost data = self.data();
        assert(message_views(out@) =~= Seq::empty());
        let _ = self.reader.seek(8)?;
        McapRecordParser::skip_record(&mut self.reader)?;
        let ghost start = self.reader.cursor();
        loop
            invariant
                self.wf(),
                self.data() == data,
                data == old(self).data(),
                self.opened() == old(self).opened(),
                self.checks_crc() == old(self).checks_crc(),
                skip_at(data, clamp_cursor(data, 8)) is Ok,
                start == skip_cursor(data, clamp_cursor(data, 8)),
                data_scan(data, start, filter@, Seq::empty()) == data_scan(
                    data,
                    self.reader.cursor(),
                    filter@,
                    message_views(out@),
                ),
            decreases data.len() - self.reader.cursor(),
        {
            proof {
                self.reader.lemma_wf();
            }
            let ghost acc = message_views(out@);
            let opcode = match McapRecordParser::peek_record(&mut self.reader)? {
                Some(opcode) => opcode,
                None => {
                    return Ok(out);
                },
            };
            if opcode == 0x05 {
                let message = McapRecordParser::parse_message(&mut self.reader)?;
                if filter.passes(&message) {
                    let ghost v = message@;
                    out.push(message);
                    assert(message_views(out@) =~= acc.push(v));
                }
            } else if opcode == 0x0F || opcode == 0x02 {
                return Ok(out);
            } else {
                McapRecordParser::skip_record(&mut self.reader)?;
            }
        }
    }

    /// The messages of the file that are on one of the channels
    /// `channel_ids`, if any are named, and whose log time lies between
    /// `start_time` and `end_time`, both included, as far as they are
    /// given; in the order of the file, chunk by chunk, or by log time if
    /// `in_log_time_order` is set; descending if `in_reverse` is set.
    pub fn messages(
        &mut self,
        channel_ids: Option<&[u16]>,
        start_time: Option<u64>,
        end_time: Option<u64>,
        in_log_time_order: bool,
        in_reverse: bool,
    ) -> (r: Result<Vec<MessageRecord>, PybagError>)
        requires
            old(self).wf(),
        ensures
            final(self).wf(),
            final(self).data() == old(self).data(),
            final(self).opened() == old(self).opened(),
            final(self).checks_crc() == old(self).checks_crc(),
            match messages_of(
                old(self).data(),
                old(self).opened().summary.chunk_indices,
                old(self).checks_crc(),
                (Filter { ids: channel_ids, start: start_time, end: end_time })@,
                in_log_time_order,
                in_reverse,
            ) {
                Ok(all) => r is Ok && message_views(r->Ok_0@) == all,
                Err(e) => r is Err && r->Err_0@ == e,
            },
    {
        let filter = Filter { ids: channel_ids, start: start_time, end: end_time };
        let messages = if self.summary.chunk_indices.len() > 0 {
            let mut order = self.select_chunks(&filter);
            sort_entries(&mut order, in_reverse);
            self.read_chunks(&order, &filter)?
        } else {
            self.read_linear(&filter)?
        };
        if in_log_time_order {
            Ok(in_time_order(messages, in_reverse))
        } else {
            Ok(messages)
        }
    }

    /// The attachments of the file, or those with the name `name_filter`,
    /// in the order of the summary.
    #[verifier::rlimit(50)]
    pub fn attachments(&mut self, name_filter: Option<&str>) -> (r: Result<
        Vec<AttachmentRecord>,
        PybagError,
    >)
        requires
            old(self).wf(),
        ensures
            final(self).wf(),
            final(self).data() == old(self).data(),
            final(self).opened() == old(self).opened(),
            final(self).checks_crc() == old(self).checks_crc(),
            match attachments_from(
                old(self).data(),
                old(self).opened().summary.attachment_indices,
                0,
                asked_name(name_filter),
                Seq::empty(),
            ) {
                Ok(all) => r is Ok && attachment_views(r->Ok_0@) == all,
                Err(e) => r is Err && r->Err_0@ == e,
            },
    {
        let mut out: Vec<AttachmentRecord> = Vec::new();
        let ghost data = self.data();
        let ghost indices = self.opened().summary.attachment_indices;
        assert(attachment_views(out@) =~= Seq::empty());
        let mut k: usize = 0;
        while k < self.summary.attachment_indices.len()
            invariant
                k <= self.summary.attachment_indices.len(),
                self.wf(),
                self.data() == data,
                data == old(self).data(),
                self.opened() == old(self).opened(),
                self.checks_crc() == old(self).checks_crc(),
                indices == self.opened().summary.attachment_indices,
                attachments_from(data, indices, 0, asked_name(name_filter), Seq::empty())
                    == attachments_from(
                    data,
                    indices,
                    k as int,
                    asked_name(name_filter),
                    attachment_views(out@),
                ),
            decreases self.summary.attachment_indices.len() - k,
        {
            let wanted = match name_filter {
                Some(n) => same_text(self.summary.attachment_indices[k].name.as_str(), n),
                None => true,
            };
            if wanted {
                let ghost acc = attachment_views(out@);
                let offset = self.summary.attachment_indices[k].offset;
                let _ = self.reader.seek(offset)?;
                let attachment = McapRecordParser::parse_attachment(&mut self.reader)?;
                let ghost v = attachment@;
                out.push(attachment);
                assert(attachment_views(out@) =~= acc.push(v));
            }
            k += 1;
        }
        Ok(out)
    }

    /// The metadata records of the file, or those with the name
    /// `name_filter`, in the order of the summary.
    #[verifier::rlimit(50)]
    pub fn metadata(&mut self, name_filter: Option<&str>) -> (r: Result<
        Vec<MetadataRecord>,
        PybagError,
    >)
        requires
            old(self).wf(),
        ensures
            final(self).wf(),
            final(self).data() == old(self).data(),
            final(self).opened() == old(self).opened(),
            final(self).checks_crc() == old(self).checks_crc(),
            match metadata_from(
                old(self).data(),
                old(self).opened().summary.metadata_indices,
                0,
                asked_name(name_filter),
                Seq::empty(),
            ) {
                Ok(all) => r is Ok && metadata_views(r->Ok_0@) == all,
                Err(e) => r is Err && r->Err_0@ == e,
            },
    {
        let mut out: Vec<MetadataRecord> = Vec::new();
        let ghost data = self.data();
        let ghost indices = self.opened().summary.metadata_indices;
        assert(metadata_views(out@) =~= Seq::empty());
        let mut k: usize = 0;
        while k < self.summary.metadata_indices.len()
            invariant
                k <= self.summary.metadata_indices.len(),
                self.wf(),
                self.data() == data,
                data == old(self).data(),
                self.opened() == old(self).opened(),
                self.checks_crc() == old(self).checks_crc(),
                indices == self.opened().summary.metadata_indices,
                metadata_from(data, indices, 0, asked_name(name_filter), Seq::empty())
                    == metadata_from(
                    data,
                    indices,
                    k as int,
                    asked_name(name_filter),
                    metadata_views(out@),
                ),
            decreases self.summary.metadata_indices.len() - k,
        {
            let wanted = match name_filter {
                Some(n) => same_text(self.summary.metadata_indices[k].name.as_str(), n),
                None => true,
            };
            if wanted {
                let ghost acc = metadata_views(out@);
                let offset = self.summary.metadata_indices[k].offset;
                let _ = self.reader.seek(offset)?;
                let record = McapRecordParser::parse_metadata(&mut self.reader)?;
                let ghost v = record@;
                out.push(record);
                assert(metadata_views(out@) =~= acc.push(v));
            }
            k += 1;
        }
        Ok(out)
    }

    /// The topics of the channels, each once, with the least id among
    /// its channels, by ascending id.
    fn topics_of(channels: &HashMap<u16, ChannelRecord>) -> (r: Vec<(String, u16)>)
        ensures
            topic_views(r@) == topics_below(channel_views(channels@), 0x1_0000),
    {
        let mut out: Vec<(String, u16)> = Vec::new();
        let mut id: u32 = 0;
        assert(topic_views(out@) =~= topics_below(channel_views(channels@), 0));
        while id < 0x1_0000
            invariant
                id <= 0x1_0000,
                topic_views(out@) == topics_below(channel_views(channels@), id as int),
            decreases 0x1_0000 - id,
        {
            let key = id as u16;
            let ghost before = topic_views(out@);
            match channels.get(&key) {
                Some(channel) => {
                    if find_topic(&out, channel.topic.as_str()).is_none() {
                        out.push((channel.topic.clone(), key));
                        assert(topic_views(out@) =~= before.push((channel@.topic, key)));
                    }
                },
                None => {},
            }
            id += 1;
        }
        out
    }

    /// Reads the summary section that the footer names.
    #[verifier::rlimit(50)]
    fn parse_summary(reader: &mut R, footer: &FooterRecord, enable_crc_check: bool) -> (r: Result<
        McapSummary,
        PybagError,
    >)
        requires
            old(reader).wf(),
        ensures
            final(reader).wf(),
            final(reader).contents() == old(reader).contents(),
            parsed_as(r, parsed_summary(old(reader).contents(), footer.summary_start)),
    {
        let mut summary = McapSummary::default();
        let _ = reader.seek(footer.summary_start)?;
        let ghost data = reader.contents();
        let ghost start = reader.cursor();
        loop
            invariant
                reader.wf(),
                reader.contents() == data,
                data == old(reader).contents(),
                start == clamp_cursor(data, footer.summary_start as int),
                summary_from(data, start, empty_summary()) == summary_from(
                    data,
                    reader.cursor(),
                    summary@,
                ),
            decreases data.len() - reader.cursor(),
        {
            proof {
                reader.lemma_wf();
            }
            let ghost acc = summary@;
            let ghost pos = reader.cursor();
            let opcode = match McapRecordParser::peek_record(reader)? {
                Some(opcode) => opcode,
                None => {
                    return Ok(summary);
                },
            };
            if opcode == 0x02 {
                return Ok(summary);
            } else if opcode == 0x03 {
                match McapRecordParser::parse_schema(reader)? {
                    Some(schema) => {
                        let ghost v = schema@;
                        summary.schemas.insert(schema.id, schema);
                        proof {
                            assert(schema_views(summary.schemas@) =~= acc.schemas.insert(v.id, v));
                            lemma_same_summary(summary@, with_schema(acc, Some(v)));
                        }
                    },
                    None => {},
                }
            } else if opcode == 0x04 {
                let channel = McapRecordParser::parse_channel(reader)?;
                let ghost v = channel@;
                summary.channels.insert(channel.id, channel);
                proof {
                    assert(channel_views(summary.channels@) =~= acc.channels.insert(v.id, v));
                    lemma_same_summary(
                        summary@,
                        SummaryView { channels: acc.channels.insert(v.id, v), ..acc },
                    );
                }
            } else if opcode == 0x0B {
                let statistics = McapRecordParser::parse_statistics(reader)?;
                let ghost v = statistics@;
                summary.statistics = Some(statistics);
                proof {
                    lemma_same_summary(summary@, SummaryView { statistics: Some(v), ..acc });
                }
            } else if opcode == 0x08 {
                let index = McapRecordParser::parse_chunk_index(reader)?;
                let ghost v = index@;
                summary.chunk_indices.push(index);
                proof {
                    assert(chunk_index_views(summary.chunk_indices@) =~= acc.chunk_indices.push(v));
                    lemma_same_summary(
                        summary@,
                        SummaryView { chunk_indices: acc.chunk_indices.push(v), ..acc },
                    );
                }
            } else if opcode == 0x0A {
                let index = McapRecordParser::parse_attachment_index(reader)?;
                let ghost v = index@;
                summary.attachment_indices.push(index);
                proof {
                    assert(attachment_index_views(summary.attachment_indices@)
                        =~= acc.attachment_indices.push(v));
                    lemma_same_summary(
                        summary@,
                        SummaryView { attachment_indices: acc.attachment_indices.push(v), ..acc },
                    );
                }
            } else if opcode == 0x0D {
                let index = McapRecordParser::parse_metadata_index(reader)?;
                let ghost v = index@;
                summary.metadata_indices.push(index);
                proof {
                    assert(metadata_index_views(summary.metadata_indices@)
                        =~= acc.metadata_indices.push(v));
                    lemma_same_summary(
                        summary@,
                        SummaryView { metadata_indices: acc.metadata_indices.push(v), ..acc },
                    );
                }
            } else {
                McapRecordParser::skip_record(reader)?;
            }
        }
    }

    /// Gathers schemas and channels from the data section of a file
    /// without a summary section.
    #[verifier::rlimit(50)]
    fn scan_data_section(reader: &mut R) -> (r: Result<McapSummary, PybagError>)
        requires
            old(reader).wf(),
        ensures
            final(reader).wf(),
            final(reader).contents() == old(reader).contents(),
            parsed_as(r, scanned_summary(old(reader).contents())),
    {
        let mut summary = McapSummary::default();
        let _ = reader.seek(8)?;
        McapRecordParser::skip_record(reader)?;
        let ghost data = reader.contents();
        let ghost start = reader.cursor();
        loop
            invariant
                reader.wf(),
                reader.contents() == data,
                data == old(reader).contents(),
                skip_at(data, clamp_cursor(data, 8)) is Ok,
                start == skip_cursor(data, clamp_cursor(data, 8)),
                scan_from(data, start, empty_summary()) == scan_from(data, reader.cursor(), summary@),
            decreases data.len() - reader.cursor(),
        {
            proof {
                reader.lemma_wf();
            }
            let ghost acc = summary@;
            let opcode = match McapRecordParser::peek_record(reader)? {
                Some(opcode) => opcode,
                None => {
                    return Ok(summary);
                },
            };
            if opcode == 0x0F || opcode == 0x02 {
                return Ok(summary);
            } else if opcode == 0x03 {
                match McapRecordParser::parse_schema(reader)? {
                    Some(schema) => {
                        let ghost v = schema@;
                        summary.schemas.insert(schema.id, schema);
                        proof {
                            assert(schema_views(summary.schemas@) =~= acc.schemas.insert(v.id, v));
                            lemma_same_summary(summary@, with_schema(acc, Some(v)));
                        }
                    },
                    None => {},
                }
            } else if opcode == 0x04 {
                let channel = McapRecordParser::parse_channel(reader)?;
                let ghost v = channel@;
                summary.channels.insert(channel.id, channel);
                proof {
                    assert(channel_views(summary.channels@) =~= acc.channels.insert(v.id, v));
                    lemma_same_summary(
                        summary@,
                        SummaryView { channels: acc.channels.insert(v.id, v), ..acc },
                    );
                }
            } else {
                McapRecordParser::skip_record(reader)?;
            }
        }
    }
}

} // verus!
