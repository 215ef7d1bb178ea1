use pybag_rs::error::PybagError;
use pybag_rs::io::reader::{BytesReader, Reader};
use pybag_rs::io::writer::{BytesWriter, DrainWriter, Writer};
use pybag_rs::mcap::reader::McapReader;
use pybag_rs::mcap::records::{
    AttachmentRecord, ChannelRecord, MessageRecord, MetadataRecord, SchemaRecord,
};
use pybag_rs::mcap::writer::McapWriter;
use pybag_rs::mcap::zerocopy::{count_messages_fast, FastMcapReader};
use pybag_rs::schema::decode::{decode_message, Value};
use pybag_rs::schema::ros2msg::Ros2MsgParser;

fn point_schema() -> SchemaRecord {
    SchemaRecord {
        id: 1,
        name: "geometry_msgs/msg/Point".to_string(),
        encoding: "ros2msg".to_string(),
        data: b"float64 x\nfloat64 y\nfloat64 z\n".to_vec(),
    }
}

fn channel(id: u16, topic: &str) -> ChannelRecord {
    ChannelRecord {
        id,
        schema_id: 1,
        topic: topic.to_string(),
        message_encoding: "cdr".to_string(),
        metadata: vec![("k".to_string(), "v".to_string())],
    }
}

fn message(channel_id: u16, i: u64) -> MessageRecord {
    MessageRecord {
        channel_id,
        sequence: i as u32,
        log_time: i * 1_000_000,
        publish_time: i * 1_000_000,
        data: vec![(i % 251) as u8; 40],
    }
}

fn sample_file(chunk_size: Option<usize>, compression: Option<&str>, count: u64) -> Vec<u8> {
    let mut writer = McapWriter::to_bytes("ros2", chunk_size, compression).unwrap();
    writer.write_schema(&point_schema()).unwrap();
    writer.write_channel(&channel(1, "/a")).unwrap();
    writer.write_channel(&channel(2, "/b")).unwrap();
    for i in 0..count {
        writer.write_message(&message(1 + (i % 2) as u16, i)).unwrap();
    }
    writer
        .write_attachment(&AttachmentRecord {
            log_time: 5,
            create_time: 6,
            name: "notes".to_string(),
            media_type: "text/plain".to_string(),
            data: b"attached".to_vec(),
            crc: 0,
        })
        .unwrap();
    writer
        .write_metadata(&MetadataRecord {
            name: "about".to_string(),
            metadata: vec![("a".to_string(), "1".to_string()), ("b".to_string(), "2".to_string())],
        })
        .unwrap();
    writer.finish().unwrap().into_bytes()
}

#[test]
fn empty_file_has_no_messages() {
    let writer = McapWriter::to_bytes("ros2", None, None).unwrap();
    let bytes = writer.finish().unwrap().into_bytes();
    assert_eq!(&bytes[..8], b"\x89MCAP0\r\n");
    assert_eq!(&bytes[bytes.len() - 8..], b"\x89MCAP0\r\n");
    let mut reader = McapReader::from_bytes(bytes, true).unwrap();
    assert_eq!(reader.profile(), "ros2");
    assert_eq!(reader.header().library, "pybag_rs");
    assert_eq!(reader.schemas().len(), 0);
    assert_eq!(reader.channels().len(), 0);
    assert_eq!(reader.statistics().unwrap().message_count, 0);
    assert_eq!(reader.messages(None, None, None, true, false).unwrap().len(), 0);
    assert!(reader.footer().summary_start > 0);
    assert_eq!(reader.footer().summary_offset_start, 0);
    assert_eq!(reader.footer().summary_crc, 0);
}

#[test]
fn single_message_is_read_back_and_decoded() {
    let mut writer = McapWriter::to_bytes("ros2", None, None).unwrap();
    writer.write_schema(&point_schema()).unwrap();
    let mut ch = channel(1, "/p");
    ch.metadata = Vec::new();
    writer.write_channel(&ch).unwrap();
    let mut data = vec![0u8, 1, 0, 0];
    data.extend_from_slice(&1.0f64.to_le_bytes());
    data.extend_from_slice(&2.0f64.to_le_bytes());
    data.extend_from_slice(&3.0f64.to_le_bytes());
    writer
        .write_message(&MessageRecord {
            channel_id: 1,
            sequence: 0,
            log_time: 1_000_000,
            publish_time: 1_000_000,
            data: data.clone(),
        })
        .unwrap();
    let bytes = writer.finish().unwrap().into_bytes();
    let mut reader = McapReader::from_bytes(bytes, true).unwrap();
    let messages = reader.messages(None, None, None, true, false).unwrap();
    assert_eq!(messages.len(), 1);
    assert_eq!(messages[0].data, data);
    assert_eq!(messages[0].log_time, 1_000_000);
    assert_eq!(reader.channel_id_by_topic("/p"), Some(1));
    assert_eq!(reader.channel_id_by_topic("/q"), None);
    assert_eq!(reader.message_count("/p"), Some(1));
    assert_eq!(reader.start_time(), Some(1_000_000));
    assert_eq!(reader.end_time(), Some(1_000_000));
    assert_eq!(reader.topics(), vec!["/p"]);
    let schema = reader.channel_schema(1).unwrap();
    let (tree, subs) = Ros2MsgParser::new().parse(&schema.name, &schema.data).unwrap();
    let value = decode_message(&messages[0].data, &tree, &subs).unwrap();
    assert_eq!(
        value,
        Value::Message(vec![
            ("x".to_string(), Value::Float64(1.0f64.to_bits())),
            ("y".to_string(), Value::Float64(2.0f64.to_bits())),
            ("z".to_string(), Value::Float64(3.0f64.to_bits())),
        ])
    );
}

fn check_round_trip(chunk_size: Option<usize>, compression: Option<&str>) {
    let bytes = sample_file(chunk_size, compression, 100);
    let mut reader = McapReader::from_bytes(bytes, true).unwrap();
    assert_eq!(reader.schemas().len(), 1);
    assert_eq!(reader.schema(1).unwrap(), &point_schema());
    assert_eq!(reader.channels().len(), 2);
    assert_eq!(reader.channel(1).unwrap(), &channel(1, "/a"));
    assert_eq!(reader.channel(2).unwrap(), &channel(2, "/b"));
    let messages = reader.messages(None, None, None, false, false).unwrap();
    assert_eq!(messages.len(), 100);
    for (i, m) in messages.iter().enumerate() {
        assert_eq!(m, &message(1 + (i as u64 % 2) as u16, i as u64));
    }
    let stats = reader.statistics().unwrap();
    assert_eq!(stats.message_count, 100);
    assert_eq!(stats.schema_count, 1);
    assert_eq!(stats.channel_count, 2);
    assert_eq!(stats.attachment_count, 1);
    assert_eq!(stats.metadata_count, 1);
    assert_eq!(stats.message_start_time, 0);
    assert_eq!(stats.message_end_time, 99_000_000);
    assert_eq!(stats.channel_message_counts.get(&1), Some(&50));
    assert_eq!(stats.channel_message_counts.get(&2), Some(&50));
    if chunk_size.is_some() {
        assert!(stats.chunk_count >= 1);
    } else {
        assert_eq!(stats.chunk_count, 0);
    }
    let attachments = reader.attachments(None).unwrap();
    assert_eq!(attachments.len(), 1);
    assert_eq!(attachments[0].name, "notes");
    assert_eq!(attachments[0].data, b"attached".to_vec());
    assert_eq!(reader.attachments(Some("other")).unwrap().len(), 0);
    assert_eq!(reader.attachments(Some("notes")).unwrap().len(), 1);
    let metadata = reader.metadata(None).unwrap();
    assert_eq!(metadata.len(), 1);
    assert_eq!(metadata[0].name, "about");
    assert_eq!(
        metadata[0].metadata,
        vec![("a".to_string(), "1".to_string()), ("b".to_string(), "2".to_string())]
    );
    assert_eq!(reader.metadata(Some("nothing")).unwrap().len(), 0);
}

#[test]
fn file_round_trip_without_chunks() {
    check_round_trip(None, None);
}

#[test]
fn file_round_trip_with_plain_chunks() {
    check_round_trip(Some(1024), None);
    check_round_trip(Some(65536), Some("none"));
}

#[test]
fn file_round_trip_with_lz4_chunks() {
    check_round_trip(Some(1024), Some("lz4"));
    check_round_trip(Some(65536), Some("lz4"));
}

#[test]
fn file_round_trip_with_zstd_chunks() {
    check_round_trip(Some(1024), Some("zstd"));
    check_round_trip(Some(65536), Some("zstd"));
}

#[test]
fn lz4_file_with_many_messages_is_smaller() {
    let mut plain = McapWriter::to_bytes("ros2", None, None).unwrap();
    let mut packed = McapWriter::to_bytes("ros2", Some(1 << 20), Some("lz4")).unwrap();
    plain.write_channel(&channel(1, "/a")).unwrap();
    packed.write_channel(&channel(1, "/a")).unwrap();
    for i in 0..10_000u64 {
        plain.write_message(&message(1, i)).unwrap();
        packed.write_message(&message(1, i)).unwrap();
    }
    let plain = plain.finish().unwrap().into_bytes();
    let packed = packed.finish().unwrap().into_bytes();
    assert!(packed.len() < plain.len());
    let mut reader = McapReader::from_bytes(packed, true).unwrap();
    assert_eq!(reader.messages(None, None, None, false, false).unwrap().len(), 10_000);
}

#[test]
fn time_filter_keeps_the_range_with_both_ends() {
    for chunk_size in [None, Some(4096usize)] {
        let mut writer = McapWriter::to_bytes("ros2", chunk_size, None).unwrap();
        writer.write_channel(&channel(1, "/a")).unwrap();
        for i in 0..1000u64 {
            writer.write_message(&message(1, i)).unwrap();
        }
        let bytes = writer.finish().unwrap().into_bytes();
        let mut reader = McapReader::from_bytes(bytes, false).unwrap();
        let found = reader
            .messages(None, Some(300_000_000), Some(700_000_000), true, false)
            .unwrap();
        assert_eq!(found.len(), 401);
        for (k, m) in found.iter().enumerate() {
            assert_eq!(m.log_time, (300 + k as u64) * 1_000_000);
        }
        let back = reader
            .messages(None, Some(300_000_000), Some(700_000_000), true, true)
            .unwrap();
        assert_eq!(back.len(), 401);
        for (k, m) in back.iter().enumerate() {
            assert_eq!(m.log_time, (700 - k as u64) * 1_000_000);
        }
    }
}

#[test]
fn channel_filter_and_time_order() {
    let mut writer = McapWriter::to_bytes("ros2", None, None).unwrap();
    writer.write_channel(&channel(1, "/a")).unwrap();
    writer.write_channel(&channel(2, "/b")).unwrap();
    let times = [5u64, 3, 9, 3, 1, 7];
    for (i, t) in times.iter().enumerate() {
        writer
            .write_message(&MessageRecord {
                channel_id: 1 + (i % 2) as u16,
                sequence: i as u32,
                log_time: *t,
                publish_time: 0,
                data: vec![i as u8],
            })
            .unwrap();
    }
    let bytes = writer.finish().unwrap().into_bytes();
    let mut reader = McapReader::from_bytes(bytes, true).unwrap();
    let ids = [1u16];
    let found = reader.messages(Some(&ids), Some(2), Some(9), true, false).unwrap();
    let got: Vec<(u64, u32)> = found.iter().map(|m| (m.log_time, m.sequence)).collect();
    assert_eq!(got, vec![(5, 0), (9, 2)]);
    let all = reader.messages(None, None, None, true, false).unwrap();
    let got: Vec<(u64, u32)> = all.iter().map(|m| (m.log_time, m.sequence)).collect();
    assert_eq!(got, vec![(1, 4), (3, 1), (3, 3), (5, 0), (7, 5), (9, 2)]);
    let back = reader.messages(None, None, None, true, true).unwrap();
    let got: Vec<(u64, u32)> = back.iter().map(|m| (m.log_time, m.sequence)).collect();
    assert_eq!(got, vec![(9, 2), (7, 5), (5, 0), (3, 1), (3, 3), (1, 4)]);
    let unordered = reader.messages(None, None, None, false, false).unwrap();
    let got: Vec<u64> = unordered.iter().map(|m| m.log_time).collect();
    assert_eq!(got, times.to_vec());
}

#[test]
fn tampered_magic_is_refused() {
    let bytes = sample_file(None, None, 3);
    for at in [0usize, 1, 2, 3, 4, 6, 7] {
        let mut bad = bytes.clone();
        bad[at] ^= 0x55;
        assert!(matches!(McapReader::from_bytes(bad, true), Err(PybagError::InvalidMagicBytes)));
        let mut bad = bytes.clone();
        let n = bad.len();
        bad[n - 8 + at] ^= 0x55;
        assert!(matches!(McapReader::from_bytes(bad, true), Err(PybagError::InvalidMagicBytes)));
    }
    let mut other_version = bytes.clone();
    other_version[5] = b'1';
    assert!(McapReader::from_bytes(other_version, true).is_ok());
}

#[test]
fn corrupted_footer_is_refused() {
    let bytes = sample_file(None, None, 3);
    let n = bytes.len();
    let mut bad = bytes.clone();
    for b in &mut bad[n - 8..] {
        *b = 0;
    }
    assert!(matches!(McapReader::from_bytes(bad, true), Err(PybagError::InvalidMagicBytes)));
    let mut short = bytes.clone();
    short[n - 36] = 19;
    assert!(matches!(McapReader::from_bytes(short, true), Err(PybagError::InvalidMcap(_))));
    let mut cut = bytes.clone();
    cut.remove(n - 9);
    assert!(matches!(McapReader::from_bytes(cut, true), Err(PybagError::InvalidMcap(_))));
    let mut wrong_kind = bytes.clone();
    wrong_kind[n - 37] = 0x0F;
    assert!(matches!(McapReader::from_bytes(wrong_kind, true), Err(PybagError::InvalidMcap(_))));
    let start_only = bytes[..20].to_vec();
    assert!(matches!(McapReader::from_bytes(start_only, true), Err(PybagError::InvalidMcap(_))));
}

#[test]
fn flipped_chunk_bytes_fail_the_checksum() {
    let mut writer = McapWriter::to_bytes("ros2", Some(1 << 20), None).unwrap();
    writer.write_channel(&channel(1, "/a")).unwrap();
    for i in 0..10u64 {
        writer.write_message(&message(1, i)).unwrap();
    }
    let bytes = writer.finish().unwrap().into_bytes();
    let mut good = McapReader::from_bytes(bytes.clone(), true).unwrap();
    assert_eq!(good.messages(None, None, None, false, false).unwrap().len(), 10);
    let at = bytes.windows(40).position(|w| w == &[3u8; 40][..]).unwrap();
    let mut bad = bytes.clone();
    bad[at + 5] ^= 0x01;
    let mut checked = McapReader::from_bytes(bad.clone(), true).unwrap();
    assert!(matches!(
        checked.messages(None, None, None, false, false),
        Err(PybagError::CrcMismatch { .. })
    ));
    let mut unchecked = McapReader::from_bytes(bad, false).unwrap();
    assert_eq!(unchecked.messages(None, None, None, false, false).unwrap().len(), 10);
}

#[test]
fn unknown_compression_fails_when_the_chunk_is_written() {
    let mut writer = McapWriter::to_bytes("ros2", Some(10), Some("gzip")).unwrap();
    writer.write_channel(&channel(1, "/a")).unwrap();
    match writer.write_message(&message(1, 0)) {
        Err(PybagError::UnknownCompression(name)) => assert_eq!(name, "gzip"),
        other => panic!("expected an unknown compression, got {:?}", other),
    }
}

#[test]
fn file_without_summary_is_scanned() {
    let bytes = sample_file(None, None, 5);
    let n = bytes.len();
    let mut no_summary = bytes.clone();
    for b in &mut no_summary[n - 28..n - 20] {
        *b = 0;
    }
    let mut reader = McapReader::from_bytes(no_summary, true).unwrap();
    assert_eq!(reader.footer().summary_start, 0);
    assert_eq!(reader.schemas().len(), 1);
    assert_eq!(reader.channels().len(), 2);
    assert!(reader.statistics().is_none());
    assert_eq!(reader.start_time(), None);
    assert_eq!(reader.message_count("/a"), None);
    assert_eq!(reader.messages(None, None, None, false, false).unwrap().len(), 5);
}

#[test]
fn messages_are_read_in_place() {
    let bytes = sample_file(None, None, 10_000);
    let reader = FastMcapReader::new(&bytes).unwrap();
    assert_eq!(reader.chunk_count(), 0);
    let mut it = reader.iter_messages();
    let mut count = 0u64;
    let start = bytes.as_ptr() as usize;
    let end = start + bytes.len();
    while let Some(m) = it.next() {
        assert_eq!(m.log_time, count * 1_000_000);
        assert_eq!(m.data.len(), 40);
        let at = m.data.as_ptr() as usize;
        assert!(start <= at && at + m.data.len() <= end);
        count += 1;
    }
    assert_eq!(count, 10_000);
    assert!(it.next().is_none());
    assert_eq!(count_messages_fast(&bytes).unwrap(), 10_000);
    let mut seen = Vec::new();
    let n = reader.for_each_message(|m| seen.push(m.sequence)).unwrap();
    assert_eq!(n, 10_000);
    assert_eq!(seen.len(), 10_000);
    assert_eq!(seen[9_999], 9_999);
}

#[test]
fn messages_of_chunks_are_walked() {
    for compression in [None, Some("lz4"), Some("zstd")] {
        let bytes = sample_file(Some(2048), compression, 500);
        let reader = FastMcapReader::new(&bytes).unwrap();
        assert!(reader.chunk_count() > 1);
        let mut times = Vec::new();
        let n = reader.for_each_message(|m| times.push(m.log_time)).unwrap();
        assert_eq!(n, 500);
        let expected: Vec<u64> = (0..500u64).map(|i| i * 1_000_000).collect();
        assert_eq!(times, expected);
        assert!(!reader.chunk_records(0).unwrap().is_empty());
    }
}

#[test]
fn short_files_are_refused_by_the_in_place_reader() {
    assert!(matches!(FastMcapReader::new(b"\x89MCA"), Err(PybagError::InvalidMagicBytes)));
    assert!(matches!(
        FastMcapReader::new(b"\x89MCAP0\r\n0123456789"),
        Err(PybagError::InvalidMcap(_))
    ));
}

#[test]
fn writer_works_on_any_sink() {
    let sink = BytesWriter::with_capacity(64);
    let mut writer = McapWriter::new(sink, "p", None, None).unwrap();
    writer.write_channel(&channel(7, "/t")).unwrap();
    writer.close().unwrap();
    let mut reader = BytesReader::from_slice(b"abc");
    assert_eq!(reader.len(), 3);
    assert!(!reader.is_empty());
}

#[test]
fn chunks_without_channel_lists_are_passed_over_by_channel_queries() {
    let bytes = sample_file(Some(1024), None, 20);
    let mut reader = McapReader::from_bytes(bytes, true).unwrap();
    let ids = [1u16];
    assert_eq!(reader.messages(Some(&ids), None, None, false, false).unwrap().len(), 0);
    assert_eq!(reader.messages(None, None, None, false, false).unwrap().len(), 20);
    let bytes = sample_file(None, None, 20);
    let mut reader = McapReader::from_bytes(bytes, true).unwrap();
    assert_eq!(reader.messages(Some(&ids), None, None, false, false).unwrap().len(), 10);
}

#[test]
fn drained_pieces_make_the_file() {
    let mut whole = McapWriter::to_bytes("ros2", Some(256), Some("zstd")).unwrap();
    let mut pieces =
        McapWriter::new(DrainWriter::new(), "ros2", Some(256), Some("zstd".to_string())).unwrap();
    let mut gathered = pieces.drain();
    assert_eq!(&gathered[..8], b"\x89MCAP0\r\n");
    assert!(pieces.drain().is_empty());
    whole.write_channel(&channel(1, "/a")).unwrap();
    pieces.write_channel(&channel(1, "/a")).unwrap();
    for i in 0..50u64 {
        whole.write_message(&message(1, i)).unwrap();
        pieces.write_message(&message(1, i)).unwrap();
        gathered.extend(pieces.drain());
    }
    let mut sink = pieces.finish().unwrap();
    let total = sink.position();
    gathered.extend(sink.drain());
    assert_eq!(sink.position(), total);
    assert_eq!(gathered.len() as u64, total);
    assert_eq!(gathered, whole.finish().unwrap().into_bytes());
}

/// Where the first record with the opcode lies, walking from the header on.
fn first_record(bytes: &[u8], opcode: u8) -> usize {
    let mut at = 8;
    loop {
        if bytes[at] == opcode {
            return at;
        }
        let mut len = [0u8; 8];
        len.copy_from_slice(&bytes[at + 1..at + 9]);
        at += 9 + u64::from_le_bytes(len) as usize;
    }
}

#[test]
fn a_record_that_runs_over_the_file_fails_the_scan() {
    let mut bytes = sample_file(None, None, 5);
    let at = first_record(&bytes, 0x04);
    let total = bytes.len() as u64;
    bytes[at + 1..at + 9].copy_from_slice(&total.to_le_bytes());
    let mut reader = McapReader::from_bytes(bytes.clone(), true).unwrap();
    assert!(matches!(
        reader.messages(None, None, None, false, false),
        Err(PybagError::InvalidMcap(_))
    ));
    let fast = FastMcapReader::new(&bytes).unwrap();
    let mut calls = 0;
    assert!(matches!(fast.for_each_message(|_| calls += 1), Err(PybagError::InvalidMcap(_))));
    assert_eq!(calls, 0);
    assert!(matches!(count_messages_fast(&bytes), Err(PybagError::InvalidMcap(_))));
    assert!(fast.iter_messages().next().is_none());
}

#[test]
fn a_message_that_runs_over_the_file_fails_the_read() {
    let mut bytes = sample_file(None, None, 5);
    let at = first_record(&bytes, 0x05);
    let total = bytes.len() as u64;
    bytes[at + 1..at + 9].copy_from_slice(&total.to_le_bytes());
    let mut reader = McapReader::from_bytes(bytes.clone(), true).unwrap();
    assert!(reader.messages(None, None, None, false, false).is_err());
    let fast = FastMcapReader::new(&bytes).unwrap();
    assert!(matches!(fast.for_each_message(|_| {}), Err(PybagError::InvalidMcap(_))));
}

#[test]
fn a_later_record_that_runs_over_the_file_fails_after_the_messages_before_it() {
    let mut bytes = sample_file(None, None, 5);
    let at = first_record(&bytes, 0x09);
    bytes[at + 1..at + 9].copy_from_slice(&u64::MAX.to_le_bytes());
    let mut reader = McapReader::from_bytes(bytes.clone(), true).unwrap();
    assert!(matches!(
        reader.messages(None, None, None, false, false),
        Err(PybagError::InvalidMcap(_))
    ));
    let fast = FastMcapReader::new(&bytes).unwrap();
    let mut calls = 0;
    assert!(matches!(fast.for_each_message(|_| calls += 1), Err(PybagError::InvalidMcap(_))));
    assert_eq!(calls, 5);
    let mut it = fast.iter_messages();
    let mut handed = 0;
    while it.next().is_some() {
        handed += 1;
    }
    assert_eq!(handed, 5);
}

#[test]
fn a_scan_without_summary_fails_on_a_record_that_runs_over_the_file() {
    let mut bytes = sample_file(None, None, 5);
    let n = bytes.len();
    for b in &mut bytes[n - 28..n - 20] {
        *b = 0;
    }
    let at = first_record(&bytes, 0x05);
    bytes[at + 1..at + 9].copy_from_slice(&(n as u64).to_le_bytes());
    assert!(matches!(McapReader::from_bytes(bytes, true), Err(PybagError::InvalidMcap(_))));
}

#[test]
fn a_summary_record_that_runs_over_the_file_is_refused_in_place() {
    let mut bytes = sample_file(Some(2048), None, 50);
    let n = bytes.len();
    let mut start = [0u8; 8];
    start.copy_from_slice(&bytes[n - 28..n - 20]);
    let at = u64::from_le_bytes(start) as usize;
    bytes[at + 1..at + 9].copy_from_slice(&(n as u64).to_le_bytes());
    assert!(matches!(FastMcapReader::new(&bytes), Err(PybagError::InvalidMcap(_))));
}

#[test]
fn a_chunk_that_runs_over_the_file_is_refused_in_place() {
    let mut bytes = sample_file(Some(2048), None, 50);
    let at = first_record(&bytes, 0x06);
    let n = bytes.len() as u64;
    bytes[at + 1..at + 9].copy_from_slice(&n.to_le_bytes());
    let fast = FastMcapReader::new(&bytes).unwrap();
    assert!(matches!(fast.chunk_records(0), Err(PybagError::InvalidMcap(_))));
    assert!(matches!(fast.for_each_message(|_| {}), Err(PybagError::InvalidMcap(_))));
}

#[test]
fn a_channel_with_a_key_twice_is_refused_by_the_writer() {
    let mut writer = McapWriter::to_bytes("ros2", None, None).unwrap();
    let mut twice = channel(1, "/a");
    twice.metadata.push(("k".to_string(), "other".to_string()));
    assert!(matches!(writer.write_channel(&twice), Err(PybagError::InvalidMcap(_))));
    let metadata = MetadataRecord {
        name: "about".to_string(),
        metadata: vec![("a".to_string(), "1".to_string()), ("a".to_string(), "2".to_string())],
    };
    assert!(matches!(writer.write_metadata(&metadata), Err(PybagError::InvalidMcap(_))));
    writer.write_channel(&channel(1, "/a")).unwrap();
    let bytes = writer.finish().unwrap().into_bytes();
    let reader = McapReader::from_bytes(bytes, true).unwrap();
    assert_eq!(reader.channels().len(), 1);
}

#[test]
fn a_topic_of_several_channels_stands_once_with_the_least_id() {
    let mut writer = McapWriter::to_bytes("ros2", None, None).unwrap();
    writer.write_channel(&channel(7, "/same")).unwrap();
    writer.write_channel(&channel(3, "/same")).unwrap();
    writer.write_channel(&channel(5, "/other")).unwrap();
    let bytes = writer.finish().unwrap().into_bytes();
    let reader = McapReader::from_bytes(bytes, true).unwrap();
    assert_eq!(reader.channels().len(), 3);
    assert_eq!(reader.topics(), vec!["/same", "/other"]);
    assert_eq!(reader.channel_id_by_topic("/same"), Some(3));
    assert_eq!(reader.channel_id_by_topic("/other"), Some(5));
    assert_eq!(reader.channel_id_by_topic("/none"), None);
}

#[test]
fn a_chunk_index_that_points_at_no_chunk_is_refused_in_place() {
    let bytes = sample_file(Some(2048), None, 50);
    let at = first_record(&bytes, 0x06);
    let mut other = bytes.clone();
    other[at] = 0x7F;
    let fast = FastMcapReader::new(&other).unwrap();
    assert!(matches!(
        fast.chunk_records(0),
        Err(PybagError::UnexpectedRecordType { expected: 6, got: 0x7F })
    ));
    assert!(matches!(
        fast.for_each_message(|_| {}),
        Err(PybagError::UnexpectedRecordType { expected: 6, got: 0x7F })
    ));
}

#[test]
fn a_message_record_that_is_too_short_is_refused_in_place() {
    let mut bytes = Vec::new();
    bytes.extend_from_slice(&[0x05, 21, 0, 0, 0, 0, 0, 0, 0]);
    bytes.extend_from_slice(&[0u8; 21]);
    bytes.extend_from_slice(&[0x0F, 4, 0, 0, 0, 0, 0, 0, 0, 0, 0, 0, 0]);
    let end = bytes.len();
    assert!(matches!(
        pybag_rs::mcap::zerocopy::find_message(&bytes, 0, end, true),
        Err(PybagError::InvalidMcap(_))
    ));
    assert!(pybag_rs::mcap::zerocopy::next_message(&bytes, 0, end, true).is_none());
    // a message of the fixed fields alone is found
    bytes[1] = 22;
    bytes.insert(9, 0);
    let end = bytes.len();
    let (m, next) = pybag_rs::mcap::zerocopy::find_message(&bytes, 0, end, true).unwrap().unwrap();
    assert_eq!(next, 31);
    assert!(m.data.is_empty());
    assert!(pybag_rs::mcap::zerocopy::find_message(&bytes, 31, end, true).unwrap().is_none());
}
