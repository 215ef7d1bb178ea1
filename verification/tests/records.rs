use pybag_rs::error::PybagError;
use pybag_rs::io::reader::{BytesReader, Reader};
use pybag_rs::mcap::codec::{
    encode_attachment, encode_attachment_index, encode_channel, encode_chunk, encode_chunk_index,
    encode_data_end, encode_footer, encode_header, encode_message, encode_message_index,
    encode_metadata, encode_metadata_index, encode_schema, encode_statistics,
    encode_summary_offset, header_encodable, parse_header_body, parse_message_body,
};
use pybag_rs::mcap::parser::{magic_bytes, McapRecordParser};
use pybag_rs::mcap::records::{
    AttachmentIndexRecord, AttachmentRecord, ChannelRecord, ChunkIndexRecord, ChunkRecord,
    DataEndRecord, FooterRecord, HeaderRecord, MessageIndexEntry, MessageIndexRecord,
    MessageRecord, MetadataIndexRecord, MetadataRecord, RecordType, SchemaRecord,
    StatisticsRecord, SummaryOffsetRecord,
};
use std::collections::HashMap;

#[test]
fn footer_bytes_are_exact() {
    let mut buf = Vec::new();
    encode_footer(
        &mut buf,
        &FooterRecord {
            summary_start: 0x0102030405060708,
            summary_offset_start: 0x1112131415161718,
            summary_crc: 0xA1B2C3D4,
        },
    );
    let expected: Vec<u8> = vec![
        0x02, 20, 0, 0, 0, 0, 0, 0, 0, 0x08, 0x07, 0x06, 0x05, 0x04, 0x03, 0x02, 0x01, 0x18, 0x17,
        0x16, 0x15, 0x14, 0x13, 0x12, 0x11, 0xD4, 0xC3, 0xB2, 0xA1,
    ];
    assert_eq!(buf, expected);
    let mut reader = BytesReader::new(expected);
    let footer = McapRecordParser::parse_footer(&mut reader).unwrap();
    assert_eq!(footer.summary_start, 0x0102030405060708);
    assert_eq!(footer.summary_offset_start, 0x1112131415161718);
    assert_eq!(footer.summary_crc, 0xA1B2C3D4);
    assert_eq!(reader.position(), 29);
}

#[test]
fn channel_bytes_are_exact() {
    let mut buf = Vec::new();
    encode_channel(
        &mut buf,
        &ChannelRecord {
            id: 0x0102,
            schema_id: 3,
            topic: "/t".to_string(),
            message_encoding: "cdr".to_string(),
            metadata: vec![("k".to_string(), "vw".to_string())],
        },
    );
    let expected: Vec<u8> = vec![
        0x04, 32, 0, 0, 0, 0, 0, 0, 0, // opcode, length
        0x02, 0x01, 3, 0, // ids
        2, 0, 0, 0, b'/', b't', // topic
        3, 0, 0, 0, b'c', b'd', b'r', // encoding
        11, 0, 0, 0, // the map takes 11 bytes
        1, 0, 0, 0, b'k', 2, 0, 0, 0, b'v', b'w',
    ];
    assert_eq!(buf, expected);
}

#[test]
fn statistics_map_is_written_by_ascending_key() {
    let mut counts = HashMap::new();
    counts.insert(0x0300u16, 7u64);
    counts.insert(2u16, 9u64);
    let stats = StatisticsRecord {
        message_count: 16,
        schema_count: 1,
        channel_count: 2,
        attachment_count: 3,
        metadata_count: 4,
        chunk_count: 5,
        message_start_time: 6,
        message_end_time: 7,
        channel_message_counts: counts,
    };
    let mut buf = Vec::new();
    encode_statistics(&mut buf, &stats);
    let map = &buf[buf.len() - 24..];
    let expected: Vec<u8> =
        vec![20, 0, 0, 0, 2, 0, 9, 0, 0, 0, 0, 0, 0, 0, 0, 3, 7, 0, 0, 0, 0, 0, 0, 0];
    assert_eq!(map, &expected[..]);
    let mut reader = BytesReader::new(buf);
    assert_eq!(McapRecordParser::parse_statistics(&mut reader).unwrap(), stats);
}

#[test]
fn every_record_kind_round_trips() {
    let mut offsets = HashMap::new();
    offsets.insert(1u16, 100u64);
    offsets.insert(9u16, 200u64);
    let header = HeaderRecord { profile: "ros2".to_string(), library: "lib \u{e9}".to_string() };
    let footer = FooterRecord { summary_start: 1, summary_offset_start: 2, summary_crc: 3 };
    let schema = SchemaRecord {
        id: 5,
        name: "a/B".to_string(),
        encoding: "ros2msg".to_string(),
        data: vec![1, 2, 3, 0, 255],
    };
    let channel = ChannelRecord {
        id: 6,
        schema_id: 5,
        topic: "/topic".to_string(),
        message_encoding: "cdr".to_string(),
        metadata: vec![
            ("b".to_string(), "2".to_string()),
            ("a".to_string(), "".to_string()),
            ("c".to_string(), "3".to_string()),
        ],
    };
    let message = MessageRecord {
        channel_id: 6,
        sequence: 77,
        log_time: u64::MAX,
        publish_time: 1,
        data: vec![9; 100],
    };
    let empty_message =
        MessageRecord { channel_id: 0, sequence: 0, log_time: 0, publish_time: 0, data: vec![] };
    let chunk = ChunkRecord {
        message_start_time: 1,
        message_end_time: 2,
        uncompressed_size: 3,
        uncompressed_crc: 4,
        compression: "zstd".to_string(),
        records: vec![5, 6, 7],
    };
    let message_index = MessageIndexRecord {
        channel_id: 6,
        records: vec![
            MessageIndexEntry { log_time: 1, offset: 2 },
            MessageIndexEntry { log_time: 3, offset: 4 },
        ],
    };
    let chunk_index = ChunkIndexRecord {
        message_start_time: 1,
        message_end_time: 2,
        chunk_start_offset: 3,
        chunk_length: 4,
        message_index_offsets: offsets.clone(),
        message_index_length: 5,
        compression: "".to_string(),
        compressed_size: 6,
        uncompressed_size: 7,
    };
    let attachment = AttachmentRecord {
        log_time: 1,
        create_time: 2,
        name: "n".to_string(),
        media_type: "m".to_string(),
        data: vec![1; 10],
        crc: 0xDEADBEEF,
    };
    let attachment_index = AttachmentIndexRecord {
        offset: 1,
        length: 2,
        log_time: 3,
        create_time: 4,
        data_size: 5,
        name: "n".to_string(),
        media_type: "m".to_string(),
    };
    let statistics = StatisticsRecord {
        message_count: 1,
        schema_count: 2,
        channel_count: 3,
        attachment_count: 4,
        metadata_count: 5,
        chunk_count: 6,
        message_start_time: 7,
        message_end_time: 8,
        channel_message_counts: offsets,
    };
    let metadata = MetadataRecord { name: "meta".to_string(), metadata: vec![] };
    let metadata_index = MetadataIndexRecord { offset: 1, length: 2, name: "meta".to_string() };
    let summary_offset = SummaryOffsetRecord { group_opcode: 3, group_start: 1, group_length: 2 };
    let data_end = DataEndRecord { data_section_crc: 0x01020304 };

    let mut buf = vec![0xEE, 0xEE];
    encode_header(&mut buf, &header);
    encode_footer(&mut buf, &footer);
    encode_schema(&mut buf, &schema);
    encode_channel(&mut buf, &channel);
    encode_message(&mut buf, &message);
    encode_message(&mut buf, &empty_message);
    encode_chunk(&mut buf, &chunk);
    encode_message_index(&mut buf, &message_index);
    encode_chunk_index(&mut buf, &chunk_index);
    encode_attachment(&mut buf, &attachment);
    encode_attachment_index(&mut buf, &attachment_index);
    encode_statistics(&mut buf, &statistics);
    encode_metadata(&mut buf, &metadata);
    encode_metadata_index(&mut buf, &metadata_index);
    encode_summary_offset(&mut buf, &summary_offset);
    encode_data_end(&mut buf, &data_end);
    buf.extend_from_slice(&[0xEE; 3]);
    let total = buf.len() as u64;

    let mut r = BytesReader::new(buf);
    r.seek(2).unwrap();
    assert_eq!(McapRecordParser::peek_record(&mut r).unwrap(), Some(1));
    assert_eq!(McapRecordParser::parse_header(&mut r).unwrap(), header);
    assert_eq!(McapRecordParser::parse_footer(&mut r).unwrap(), footer);
    assert_eq!(McapRecordParser::parse_schema(&mut r).unwrap(), Some(schema));
    assert_eq!(McapRecordParser::parse_channel(&mut r).unwrap(), channel);
    assert_eq!(McapRecordParser::parse_message(&mut r).unwrap(), message);
    assert_eq!(McapRecordParser::parse_message(&mut r).unwrap(), empty_message);
    assert_eq!(McapRecordParser::parse_chunk(&mut r).unwrap(), chunk);
    assert_eq!(McapRecordParser::parse_message_index(&mut r).unwrap(), message_index);
    assert_eq!(McapRecordParser::parse_chunk_index(&mut r).unwrap(), chunk_index);
    let before_skip = r.position();
    McapRecordParser::skip_record(&mut r).unwrap();
    assert!(r.position() > before_skip);
    r.seek(before_skip).unwrap();
    assert_eq!(McapRecordParser::parse_attachment(&mut r).unwrap(), attachment);
    assert_eq!(McapRecordParser::parse_attachment_index(&mut r).unwrap(), attachment_index);
    assert_eq!(McapRecordParser::parse_statistics(&mut r).unwrap(), statistics);
    assert_eq!(McapRecordParser::parse_metadata(&mut r).unwrap(), metadata);
    assert_eq!(McapRecordParser::parse_metadata_index(&mut r).unwrap(), metadata_index);
    assert_eq!(McapRecordParser::parse_summary_offset(&mut r).unwrap(), summary_offset);
    assert_eq!(McapRecordParser::parse_data_end(&mut r).unwrap(), data_end);
    assert_eq!(r.position(), total - 3);
}

#[test]
fn schema_with_id_zero_is_ignored() {
    let mut buf = Vec::new();
    encode_schema(
        &mut buf,
        &SchemaRecord { id: 0, name: "x".to_string(), encoding: "".to_string(), data: vec![] },
    );
    let mut r = BytesReader::new(buf);
    assert_eq!(McapRecordParser::parse_schema(&mut r).unwrap(), None);
}

#[test]
fn wrong_kind_and_short_records_fail() {
    let mut buf = Vec::new();
    encode_data_end(&mut buf, &DataEndRecord { data_section_crc: 1 });
    let mut r = BytesReader::new(buf.clone());
    assert!(matches!(
        McapRecordParser::parse_header(&mut r),
        Err(PybagError::UnexpectedRecordType { expected: 1, got: 15 })
    ));
    assert_eq!(r.position(), 1);
    let mut r = BytesReader::new(buf[..12].to_vec());
    assert!(matches!(McapRecordParser::parse_data_end(&mut r), Err(PybagError::InvalidMcap(_))));
    assert_eq!(r.position(), 9);
    let mut r = BytesReader::new(buf[..5].to_vec());
    assert!(matches!(
        McapRecordParser::parse_data_end(&mut r),
        Err(PybagError::BufferTooSmall { needed: 8, available: 4 })
    ));
    let mut r = BytesReader::new(Vec::new());
    assert!(matches!(
        McapRecordParser::parse_data_end(&mut r),
        Err(PybagError::BufferTooSmall { needed: 1, available: 0 })
    ));
    assert_eq!(McapRecordParser::peek_record(&mut r).unwrap(), None);
    // a body that ends within a field
    assert!(matches!(parse_header_body(&[3, 0, 0, 0, b'a']), Err(PybagError::UnexpectedEof)));
    assert!(matches!(parse_header_body(&[3, 0]), Err(PybagError::UnexpectedEof)));
    assert!(matches!(parse_message_body(&[0u8; 21]), Err(PybagError::UnexpectedEof)));
    assert_eq!(parse_message_body(&[0u8; 22]).unwrap().data.len(), 0);
    // a string that is no text
    assert!(matches!(
        parse_header_body(&[1, 0, 0, 0, 0xFF, 0, 0, 0, 0]),
        Err(PybagError::InvalidMcap(_))
    ));
    let ok = parse_header_body(&[1, 0, 0, 0, b'p', 2, 0, 0, 0, b'l', b'i', 1, 2, 3]).unwrap();
    assert_eq!(ok, HeaderRecord { profile: "p".to_string(), library: "li".to_string() });
    assert!(header_encodable(&ok));
}

#[test]
fn magic_is_told_from_other_bytes() {
    assert_eq!(magic_bytes(), b"\x89MCAP0\r\n".to_vec());
    let mut r = BytesReader::new(b"\x89MCAP7\r\nrest".to_vec());
    assert_eq!(McapRecordParser::parse_magic_bytes(&mut r).unwrap(), '7');
    assert_eq!(r.position(), 8);
    let mut r = BytesReader::new(b"\x89MCAP0\n\r".to_vec());
    assert!(matches!(
        McapRecordParser::parse_magic_bytes(&mut r),
        Err(PybagError::InvalidMagicBytes)
    ));
    let mut r = BytesReader::new(b"\x89MCAP".to_vec());
    assert!(matches!(
        McapRecordParser::parse_magic_bytes(&mut r),
        Err(PybagError::InvalidMagicBytes)
    ));
}

#[test]
fn opcodes() {
    assert_eq!(RecordType::Header.opcode(), 0x01);
    assert_eq!(RecordType::DataEnd.opcode(), 0x0F);
    assert_eq!(RecordType::try_from(0x05), Ok(RecordType::Message));
    assert_eq!(RecordType::try_from(0x0A), Ok(RecordType::AttachmentIndex));
    assert_eq!(RecordType::try_from(0), Err(0));
    assert_eq!(RecordType::try_from(0x10), Err(0x10));
    for code in 1u8..=15 {
        assert_eq!(RecordType::try_from(code).unwrap().opcode(), code);
    }
}

#[test]
fn message_fields_are_read_least_significant_byte_first() {
    let body: Vec<u8> = vec![
        0x34, 0x12, // channel
        0x04, 0x03, 0x02, 0x01, // sequence
        0x08, 0x07, 0x06, 0x05, 0x04, 0x03, 0x02, 0x01, // log time
        0x01, 0, 0, 0, 0, 0, 0, 0x80, // publish time
        0xAB, 0xCD,
    ];
    let m = parse_message_body(&body).unwrap();
    assert_eq!(m.channel_id, 0x1234);
    assert_eq!(m.sequence, 0x01020304);
    assert_eq!(m.log_time, 0x0102030405060708);
    assert_eq!(m.publish_time, 0x8000000000000001);
    assert_eq!(m.data, vec![0xAB, 0xCD]);
    let mut buf = Vec::new();
    encode_message(&mut buf, &m);
    assert_eq!(&buf[..9], &[0x05, 24, 0, 0, 0, 0, 0, 0, 0]);
    assert_eq!(&buf[9..], &body[..]);
}

#[test]
fn skipping_goes_by_opcode_and_length_alone() {
    // an opcode that names no record, a length of 3, the body, one byte more
    let bytes = vec![0x7F, 3, 0, 0, 0, 0, 0, 0, 0, 0xA1, 0xA2, 0xA3, 0xEE];
    let mut r = BytesReader::new(bytes);
    McapRecordParser::skip_record(&mut r).unwrap();
    assert_eq!(r.position(), 12);
    // the record that ends with the data
    let mut r = BytesReader::new(vec![0x05, 2, 0, 0, 0, 0, 0, 0, 0, 1, 2]);
    McapRecordParser::skip_record(&mut r).unwrap();
    assert_eq!(r.position(), 11);
    // an empty body
    let mut r = BytesReader::new(vec![0x0F, 0, 0, 0, 0, 0, 0, 0, 0]);
    McapRecordParser::skip_record(&mut r).unwrap();
    assert_eq!(r.position(), 9);
}

#[test]
fn skipping_a_record_that_runs_over_the_data_is_refused() {
    let mut r = BytesReader::new(vec![0x7F, 4, 0, 0, 0, 0, 0, 0, 0, 0xA1, 0xA2, 0xA3]);
    assert!(matches!(McapRecordParser::skip_record(&mut r), Err(PybagError::InvalidMcap(_))));
    assert_eq!(r.position(), 9);
    let mut r = BytesReader::new(vec![0x05, 0xFF, 0xFF, 0xFF, 0xFF, 0xFF, 0xFF, 0xFF, 0xFF, 1]);
    assert!(matches!(McapRecordParser::skip_record(&mut r), Err(PybagError::InvalidMcap(_))));
    assert_eq!(r.position(), 9);
}

#[test]
fn skipping_a_record_that_is_cut_short_is_refused() {
    let mut r = BytesReader::new(Vec::new());
    assert!(matches!(
        McapRecordParser::skip_record(&mut r),
        Err(PybagError::BufferTooSmall { needed: 1, available: 0 })
    ));
    assert_eq!(r.position(), 0);
    let mut r = BytesReader::new(vec![0x05, 1, 0, 0]);
    assert!(matches!(
        McapRecordParser::skip_record(&mut r),
        Err(PybagError::BufferTooSmall { needed: 8, available: 3 })
    ));
    assert_eq!(r.position(), 1);
}

fn pair(k: &str, v: &str) -> (String, String) {
    (k.to_string(), v.to_string())
}

fn put_text(buf: &mut Vec<u8>, s: &str) {
    buf.extend_from_slice(&(s.len() as u32).to_le_bytes());
    buf.extend_from_slice(s.as_bytes());
}

#[test]
fn a_key_that_is_repeated_in_the_bytes_counts_once_with_its_last_value() {
    let mut entries = Vec::new();
    for (k, v) in [("a", "1"), ("b", "2"), ("a", "3"), ("c", "4"), ("b", "5")] {
        put_text(&mut entries, k);
        put_text(&mut entries, v);
    }
    let mut body = Vec::new();
    body.extend_from_slice(&7u16.to_le_bytes());
    body.extend_from_slice(&1u16.to_le_bytes());
    put_text(&mut body, "/t");
    put_text(&mut body, "cdr");
    body.extend_from_slice(&(entries.len() as u32).to_le_bytes());
    body.extend_from_slice(&entries);
    let channel = pybag_rs::mcap::codec::parse_channel_body(&body).unwrap();
    assert_eq!(channel.metadata, vec![pair("a", "3"), pair("b", "5"), pair("c", "4")]);

    let mut body = Vec::new();
    put_text(&mut body, "about");
    body.extend_from_slice(&(entries.len() as u32).to_le_bytes());
    body.extend_from_slice(&entries);
    let metadata = pybag_rs::mcap::codec::parse_metadata_body(&body).unwrap();
    assert_eq!(metadata.metadata, vec![pair("a", "3"), pair("b", "5"), pair("c", "4")]);
}

#[test]
fn a_map_with_a_key_twice_cannot_be_encoded() {
    let twice = ChannelRecord {
        id: 1,
        schema_id: 0,
        topic: "/t".to_string(),
        message_encoding: "cdr".to_string(),
        metadata: vec![pair("a", "1"), pair("b", "2"), pair("a", "3")],
    };
    assert!(!pybag_rs::mcap::codec::channel_encodable(&twice));
    let once = ChannelRecord { metadata: vec![pair("a", "1"), pair("b", "2")], ..twice };
    assert!(pybag_rs::mcap::codec::channel_encodable(&once));
    let twice = MetadataRecord {
        name: "m".to_string(),
        metadata: vec![pair("x", "1"), pair("x", "1")],
    };
    assert!(!pybag_rs::mcap::codec::metadata_encodable(&twice));
    assert!(pybag_rs::mcap::wire::keys_differ(&vec![pair("", "1"), pair("a", "1")]));
    assert!(!pybag_rs::mcap::wire::keys_differ(&vec![pair("", "1"), pair("a", "1"), pair("", "2")]));
    assert_eq!(
        pybag_rs::mcap::wire::merge_entries(&vec![pair("k", "1"), pair("k", "2"), pair("k", "3")]),
        vec![pair("k", "3")]
    );
}

#[test]
fn a_record_that_runs_over_the_data_is_a_format_error_when_it_is_parsed() {
    let mut buf = Vec::new();
    encode_header(
        &mut buf,
        &HeaderRecord { profile: "ros2".to_string(), library: "lib".to_string() },
    );
    let whole = buf.len();
    buf.truncate(whole - 1);
    let mut r = BytesReader::new(buf.clone());
    assert!(matches!(McapRecordParser::parse_header(&mut r), Err(PybagError::InvalidMcap(_))));
    assert_eq!(r.position(), 9);
    // the length itself is cut short
    let mut r = BytesReader::new(buf[..5].to_vec());
    assert!(matches!(
        McapRecordParser::parse_header(&mut r),
        Err(PybagError::BufferTooSmall { needed: 8, available: 4 })
    ));
    // a footer without its last byte
    let mut buf = Vec::new();
    encode_footer(
        &mut buf,
        &FooterRecord { summary_start: 1, summary_offset_start: 2, summary_crc: 3 },
    );
    buf.truncate(28);
    let mut r = BytesReader::new(buf);
    assert!(matches!(McapRecordParser::parse_footer(&mut r), Err(PybagError::InvalidMcap(_))));
}

#[test]
fn a_magic_that_is_cut_short_is_an_invalid_magic() {
    let mut r = BytesReader::new(b"\x89MCAP0\r".to_vec());
    assert!(matches!(
        McapRecordParser::parse_magic_bytes(&mut r),
        Err(PybagError::InvalidMagicBytes)
    ));
    assert_eq!(r.position(), 0);
    let mut r = BytesReader::new(b"\x89MCAP0\r\n".to_vec());
    assert_eq!(McapRecordParser::parse_magic_bytes(&mut r).unwrap(), '0');
    assert_eq!(r.position(), 8);
}
