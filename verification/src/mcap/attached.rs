//! Attachments and metadata records that were written are read back: the
//! writer remembers for each where it lies, and the reader finds it there.

use crate::error::ErrorKind;
use crate::io::reader::clamp_cursor;
use crate::mcap::parser::{
    attachment_at, lemma_attachment_record_round_trip, lemma_metadata_record_round_trip,
    metadata_at,
};
use crate::mcap::reader::{attachments_from, metadata_from, name_matches};
use crate::mcap::records::{
    attachment_body_bytes, attachment_bytes, attachment_fits, metadata_body_bytes, metadata_bytes,
    metadata_fits, AttachmentIndexView, AttachmentView, ChannelView, MessageView,
    MetadataIndexView, MetadataView, SchemaView,
};
use crate::mcap::roundtrip::{holds_at, lemma_split_at};
use crate::mcap::writer::{
    after_attachment, after_channel, after_message, after_metadata, after_schema,
    attachment_index_of, closed, flushed, metadata_index_of, WriterView,
};
use vstd::prelude::*;

verus! {

broadcast use crate::endian::group_widths;

/// Whether the attachments `written` lie in `output` where `indices` say:
/// the entries stand for the attachments one by one, in their order, each
/// with the name of its attachment and the place where its record lies.
pub open spec fn attachments_lie(
    output: Seq<u8>,
    indices: Seq<AttachmentIndexView>,
    written: Seq<AttachmentView>,
) -> bool {
    &&& indices.len() == written.len()
    &&& forall|k: int|
        0 <= k < indices.len() ==> {
            &&& attachment_fits(#[trigger] written[k])
            &&& indices[k].name == written[k].name
            &&& holds_at(output, indices[k].offset as int, attachment_bytes(written[k]))
        }
}

/// Whether the metadata records `written` lie in `output` where `indices`
/// say.
pub open spec fn metadata_lie(
    output: Seq<u8>,
    indices: Seq<MetadataIndexView>,
    written: Seq<MetadataView>,
) -> bool {
    &&& indices.len() == written.len()
    &&& forall|k: int|
        0 <= k < indices.len() ==> {
            &&& metadata_fits(#[trigger] written[k])
            &&& indices[k].name == written[k].name
            &&& holds_at(output, indices[k].offset as int, metadata_bytes(written[k]))
        }
}

/// Those of the attachments from the `k`-th on whose name is asked for, in
/// their order, behind `acc`.
pub open spec fn asked_attachments(
    written: Seq<AttachmentView>,
    asked: Option<Seq<char>>,
    k: int,
    acc: Seq<AttachmentView>,
) -> Seq<AttachmentView>
    decreases written.len() - k,
{
    if k < 0 || k >= written.len() {
        acc
    } else if name_matches(written[k].name, asked) {
        asked_attachments(written, asked, k + 1, acc.push(written[k]))
    } else {
        asked_attachments(written, asked, k + 1, acc)
    }
}

/// Those of the metadata records from the `k`-th on whose name is asked
/// for, in their order, behind `acc`.
pub open spec fn asked_metadata(
    written: Seq<MetadataView>,
    asked: Option<Seq<char>>,
    k: int,
    acc: Seq<MetadataView>,
) -> Seq<MetadataView>
    decreases written.len() - k,
{
    if k < 0 || k >= written.len() {
        acc
    } else if name_matches(written[k].name, asked) {
        asked_metadata(written, asked, k + 1, acc.push(written[k]))
    } else {
        asked_metadata(written, asked, k + 1, acc)
    }
}

/// Where nothing is asked for by name, all are asked for.
pub proof fn lemma_all_asked(written: Seq<AttachmentView>, records: Seq<MetadataView>, k: int)
    requires
        0 <= k,
    ensures
        k <= written.len() ==> asked_attachments(written, None, k, written.take(k)) == written,
        k <= records.len() ==> asked_metadata(records, None, k, records.take(k)) == records,
    decreases written.len() + records.len() - k,
{
    if k < written.len() {
        assert(written.take(k).push(written[k]) =~= written.take(k + 1));
    } else if k == written.len() {
        assert(written.take(k) =~= written);
    }
    if k < records.len() {
        assert(records.take(k).push(records[k]) =~= records.take(k + 1));
    } else if k == records.len() {
        assert(records.take(k) =~= records);
    }
    if k < written.len() || k < records.len() {
        lemma_all_asked(written, records, k + 1);
    }
}

/// What lies in the output lies in every output that begins with it.
pub proof fn lemma_lie_on(
    output: Seq<u8>,
    longer: Seq<u8>,
    indices: Seq<AttachmentIndexView>,
    written: Seq<AttachmentView>,
    entries: Seq<MetadataIndexView>,
    records: Seq<MetadataView>,
)
    requires
        longer.len() >= output.len(),
        longer.take(output.len() as int) == output,
    ensures
        attachments_lie(output, indices, written) ==> attachments_lie(longer, indices, written),
        metadata_lie(output, entries, records) ==> metadata_lie(longer, entries, records),
{
    if attachments_lie(output, indices, written) {
        assert forall|k: int| 0 <= k < indices.len() implies holds_at(
            longer,
            indices[k].offset as int,
            attachment_bytes(#[trigger] written[k]),
        ) by {
            let at = indices[k].offset as int;
            let part = attachment_bytes(written[k]);
            assert(holds_at(output, at, part));
            assert(longer.subrange(at, at + part.len()) =~= longer.take(
                output.len() as int,
            ).subrange(at, at + part.len()));
        }
    }
    if metadata_lie(output, entries, records) {
        assert forall|k: int| 0 <= k < entries.len() implies holds_at(
            longer,
            entries[k].offset as int,
            metadata_bytes(#[trigger] records[k]),
        ) by {
            let at = entries[k].offset as int;
            let part = metadata_bytes(records[k]);
            assert(holds_at(output, at, part));
            assert(longer.subrange(at, at + part.len()) =~= longer.take(
                output.len() as int,
            ).subrange(at, at + part.len()));
        }
    }
}

/// An attachment that is written behind the output lies where its index
/// entry says.
pub proof fn lemma_attachment_lies(
    output: Seq<u8>,
    indices: Seq<AttachmentIndexView>,
    written: Seq<AttachmentView>,
    v: AttachmentView,
)
    requires
        attachments_lie(output, indices, written),
        attachment_fits(v),
        output.len() <= u64::MAX,
    ensures
        attachments_lie(
            output + attachment_bytes(v),
            indices.push(attachment_index_of(output, v)),
            written.push(v),
        ),
{
    let longer = output + attachment_bytes(v);
    assert(longer.take(output.len() as int) =~= output);
    lemma_lie_on(output, longer, indices, written, Seq::empty(), Seq::empty());
    let all = indices.push(attachment_index_of(output, v));
    let items = written.push(v);
    assert forall|k: int| 0 <= k < all.len() implies {
        &&& attachment_fits(#[trigger] items[k])
        &&& all[k].name == items[k].name
        &&& holds_at(longer, all[k].offset as int, attachment_bytes(items[k]))
    } by {
        if k < indices.len() {
            assert(items[k] == written[k]);
            assert(all[k] == indices[k]);
        } else {
            assert(longer.subrange(output.len() as int, longer.len() as int) =~= attachment_bytes(
                v,
            ));
        }
    }
}

/// A metadata record that is written behind the output lies where its
/// index entry says.
pub proof fn lemma_metadata_lies(
    output: Seq<u8>,
    entries: Seq<MetadataIndexView>,
    records: Seq<MetadataView>,
    v: MetadataView,
)
    requires
        metadata_lie(output, entries, records),
        metadata_fits(v),
        output.len() <= u64::MAX,
    ensures
        metadata_lie(
            output + metadata_bytes(v),
            entries.push(metadata_index_of(output, v)),
            records.push(v),
        ),
{
    let longer = output + metadata_bytes(v);
    assert(longer.take(output.len() as int) =~= output);
    lemma_lie_on(output, longer, Seq::empty(), Seq::empty(), entries, records);
    let all = entries.push(metadata_index_of(output, v));
    let items = records.push(v);
    assert forall|k: int| 0 <= k < all.len() implies {
        &&& metadata_fits(#[trigger] items[k])
        &&& all[k].name == items[k].name
        &&& holds_at(longer, all[k].offset as int, metadata_bytes(items[k]))
    } by {
        if k < entries.len() {
            assert(items[k] == records[k]);
            assert(all[k] == entries[k]);
        } else {
            assert(longer.subrange(output.len() as int, longer.len() as int) =~= metadata_bytes(v));
        }
    }
}

/// The attachments that lie in `data` where the index entries say are
/// read from there: those whose name is asked for, in their order.
pub proof fn lemma_attachments_are_read(
    data: Seq<u8>,
    indices: Seq<AttachmentIndexView>,
    written: Seq<AttachmentView>,
    asked: Option<Seq<char>>,
    k: int,
    acc: Seq<AttachmentView>,
)
    requires
        attachments_lie(data, indices, written),
        data.len() <= usize::MAX,
        0 <= k,
    ensures
        attachments_from(data, indices, k, asked, acc) == Ok::<Seq<AttachmentView>, ErrorKind>(
            asked_attachments(written, asked, k, acc),
        ),
    decreases indices.len() - k,
{
    if k < indices.len() {
        let v = written[k];
        let at = indices[k].offset as int;
        assert(holds_at(data, at, attachment_bytes(v)));
        if name_matches(indices[k].name, asked) {
            lemma_split_at(data, at, attachment_bytes(v));
            assert(attachment_bytes(v).len() == 9 + attachment_body_bytes(v).len());
            lemma_attachment_record_round_trip(
                v,
                data.take(at),
                data.skip(at + attachment_bytes(v).len()),
            );
            assert(clamp_cursor(data, at) == at);
            lemma_attachments_are_read(data, indices, written, asked, k + 1, acc.push(v));
        } else {
            lemma_attachments_are_read(data, indices, written, asked, k + 1, acc);
        }
    }
}

/// The metadata records that lie in `data` where the index entries say
/// are read from there: those whose name is asked for, in their order.
pub proof fn lemma_metadata_are_read(
    data: Seq<u8>,
    entries: Seq<MetadataIndexView>,
    records: Seq<MetadataView>,
    asked: Option<Seq<char>>,
    k: int,
    acc: Seq<MetadataView>,
)
    requires
        metadata_lie(data, entries, records),
        data.len() <= usize::MAX,
        0 <= k,
    ensures
        metadata_from(data, entries, k, asked, acc) == Ok::<Seq<MetadataView>, ErrorKind>(
            asked_metadata(records, asked, k, acc),
        ),
    decreases entries.len() - k,
{
    if k < entries.len() {
        let v = records[k];
        let at = entries[k].offset as int;
        assert(holds_at(data, at, metadata_bytes(v)));
        if name_matches(entries[k].name, asked) {
            lemma_split_at(data, at, metadata_bytes(v));
            assert(metadata_bytes(v).len() == 9 + metadata_body_bytes(v).len());
            lemma_metadata_record_round_trip(
                v,
                data.take(at),
                data.skip(at + metadata_bytes(v).len()),
            );
            assert(clamp_cursor(data, at) == at);
            lemma_metadata_are_read(data, entries, records, asked, k + 1, acc.push(v));
        } else {
            lemma_metadata_are_read(data, entries, records, asked, k + 1, acc);
        }
    }
}

/// Whether the attachments `written` and the metadata records `records`
/// lie in the output of `s` where its index entries say.
pub open spec fn lie_in(s: WriterView, written: Seq<AttachmentView>, records: Seq<MetadataView>) -> bool {
    attachments_lie(s.output, s.attachment_indices, written) && metadata_lie(
        s.output,
        s.metadata_indices,
        records,
    )
}

/// A writer that has just been opened has written no attachment and no
/// metadata record.
pub proof fn lemma_opened_holds_none(s: WriterView)
    requires
        s.attachment_indices.len() == 0,
        s.metadata_indices.len() == 0,
    ensures
        lie_in(s, Seq::empty(), Seq::empty()),
{
}

/// Writing out the pending records leaves the attachments and the
/// metadata records where they lie.
pub proof fn lemma_flushed_keeps_lying(
    s: WriterView,
    written: Seq<AttachmentView>,
    records: Seq<MetadataView>,
)
    requires
        lie_in(s, written, records),
        flushed(s) is Ok,
    ensures
        lie_in(flushed(s)->Ok_0, written, records),
{
    let f = flushed(s)->Ok_0;
    assert(f.output.take(s.output.len() as int) =~= s.output);
    lemma_lie_on(s.output, f.output, s.attachment_indices, written, s.metadata_indices, records);
}

/// Writing keeps track of the attachments and the metadata records: a
/// schema, a channel or a message leaves them where they lie, and an
/// attachment or a metadata record joins them, if the place where it is
/// written fits 64 bits.
#[verifier::rlimit(50)]
pub proof fn lemma_writes_keep_lying(
    s: WriterView,
    written: Seq<AttachmentView>,
    records: Seq<MetadataView>,
    schema: SchemaView,
    channel: ChannelView,
    message: MessageView,
    attachment: AttachmentView,
    metadata: MetadataView,
)
    requires
        lie_in(s, written, records),
        attachment_fits(attachment),
        metadata_fits(metadata),
    ensures
        lie_in(after_schema(s, schema), written, records),
        lie_in(after_channel(s, channel), written, records),
        after_message(s, message) is Ok ==> lie_in(after_message(s, message)->Ok_0, written, records),
        after_attachment(s, attachment) is Ok && flushed(s)->Ok_0.output.len() <= u64::MAX
            ==> lie_in(after_attachment(s, attachment)->Ok_0, written.push(attachment), records),
        after_metadata(s, metadata) is Ok && flushed(s)->Ok_0.output.len() <= u64::MAX ==> lie_in(
            after_metadata(s, metadata)->Ok_0,
            written,
            records.push(metadata),
        ),
{
    let a = after_schema(s, schema);
    assert(a.output.take(s.output.len() as int) =~= s.output);
    lemma_lie_on(s.output, a.output, s.attachment_indices, written, s.metadata_indices, records);
    let b = after_channel(s, channel);
    assert(b.output.take(s.output.len() as int) =~= s.output);
    lemma_lie_on(s.output, b.output, s.attachment_indices, written, s.metadata_indices, records);
    if after_message(s, message) is Ok {
        let c = after_message(s, message)->Ok_0;
        assert(c.output.take(s.output.len() as int) =~= s.output);
        lemma_lie_on(s.output, c.output, s.attachment_indices, written, s.metadata_indices, records);
    }
    if flushed(s) is Ok && flushed(s)->Ok_0.output.len() <= u64::MAX {
        let f = flushed(s)->Ok_0;
        lemma_flushed_keeps_lying(s, written, records);
        lemma_attachment_lies(f.output, f.attachment_indices, written, attachment);
        let with_a = f.output + attachment_bytes(attachment);
        assert(with_a.take(f.output.len() as int) =~= f.output);
        lemma_lie_on(f.output, with_a, Seq::empty(), Seq::empty(), f.metadata_indices, records);
        lemma_metadata_lies(f.output, f.metadata_indices, records, metadata);
        let with_m = f.output + metadata_bytes(metadata);
        assert(with_m.take(f.output.len() as int) =~= f.output);
        lemma_lie_on(f.output, with_m, f.attachment_indices, written, Seq::empty(), Seq::empty());
    }
}

/// The attachments and the metadata records of a file are read back as
/// they were written: where the writer has kept track of them and is
/// closed, the reader finds, at the places that the index entries of the
/// summary name, those whose name is asked for, or all if none is asked
/// for, in the order in which they were written. The file must fit the
/// memory of the machine.
pub proof fn lemma_closed_file_holds(
    s: WriterView,
    written: Seq<AttachmentView>,
    records: Seq<MetadataView>,
    asked: Option<Seq<char>>,
)
    requires
        lie_in(s, written, records),
        closed(s) is Ok,
        closed(s)->Ok_0.len() <= usize::MAX,
    ensures
        flushed(s)->Ok_0.attachment_indices == s.attachment_indices,
        flushed(s)->Ok_0.metadata_indices == s.metadata_indices,
        attachments_from(closed(s)->Ok_0, s.attachment_indices, 0, asked, Seq::empty()) == Ok::<
            Seq<AttachmentView>,
            ErrorKind,
        >(asked_attachments(written, asked, 0, Seq::empty())),
        metadata_from(closed(s)->Ok_0, s.metadata_indices, 0, asked, Seq::empty()) == Ok::<
            Seq<MetadataView>,
            ErrorKind,
        >(asked_metadata(records, asked, 0, Seq::empty())),
        asked_attachments(written, None, 0, Seq::empty()) == written,
        asked_metadata(records, None, 0, Seq::empty()) == records,
{
    let f = flushed(s)->Ok_0;
    let bytes = closed(s)->Ok_0;
    lemma_flushed_keeps_lying(s, written, records);
    assert(bytes.take(f.output.len() as int) =~= f.output);
    lemma_lie_on(f.output, bytes, f.attachment_indices, written, f.metadata_indices, records);
    lemma_attachments_are_read(bytes, s.attachment_indices, written, asked, 0, Seq::empty());
    lemma_metadata_are_read(bytes, s.metadata_indices, records, asked, 0, Seq::empty());
    lemma_all_asked(written, records, 0);
    assert(written.take(0) =~= Seq::empty());
    assert(records.take(0) =~= Seq::empty());
}

} // verus!
