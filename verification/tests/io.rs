use pybag_rs::encoding::cdr::{CdrDecoder, CdrEncoder};
use pybag_rs::error::PybagError;
use pybag_rs::io::reader::{BytesReader, FileReader, Reader, SliceReader, SliceView};
use pybag_rs::io::writer::{BytesWriter, Writer};
use pybag_rs::mcap::chunk::{decompress_lz4, decompress_zstd};

#[test]
fn bytes_reader_reads_peeks_and_seeks() {
    let mut r = BytesReader::new((0u8..10).collect());
    assert_eq!(r.read(3).unwrap(), vec![0, 1, 2]);
    assert_eq!(r.peek(2).unwrap(), vec![3, 4]);
    assert_eq!(r.position(), 3);
    assert_eq!(r.remaining(), &[3, 4, 5, 6, 7, 8, 9]);
    assert_eq!(r.data().len(), 10);
    assert_eq!(r.peek(100).unwrap().len(), 7);
    assert!(matches!(r.read(8), Err(PybagError::BufferTooSmall { needed: 8, available: 7 })));
    assert_eq!(r.position(), 3);
    assert_eq!(r.seek(100).unwrap(), 10);
    assert_eq!(r.seek_from_current(-4).unwrap(), 6);
    assert_eq!(r.seek_from_current(-40).unwrap(), 0);
    assert_eq!(r.seek_from_current(i64::MIN).unwrap(), 0);
    assert_eq!(r.seek_from_current(i64::MAX).unwrap(), 10);
    assert_eq!(r.seek_from_end(-3).unwrap(), 7);
    assert_eq!(r.seek_from_end(5).unwrap(), 10);
    assert_eq!(r.seek_from_end(-30).unwrap(), 0);
    r.seek(5).unwrap();
    r.align(4);
    assert_eq!(r.position(), 8);
    r.align(4);
    assert_eq!(r.position(), 8);
    r.align(16);
    assert_eq!(r.position(), 10);
    r.seek(2).unwrap();
    let mut buf = vec![0u8; 3];
    r.read_exact(&mut buf).unwrap();
    assert_eq!(buf, vec![2, 3, 4]);
    let mut big = vec![7u8; 30];
    assert!(r.read_exact(&mut big).is_err());
    assert_eq!(big, vec![7u8; 30]);
    assert_eq!(r.read_to_end().unwrap(), vec![5, 6, 7, 8, 9]);
    assert_eq!(r.len(), 10);
}

#[test]
fn file_reader_reads_borrowed_bytes() {
    let bytes: Vec<u8> = (0u8..20).collect();
    let mut r = FileReader::new(&bytes);
    assert_eq!(r.get_slice(18, 2), Some(&[18u8, 19][..]));
    assert_eq!(r.get_slice(18, 3), None);
    assert_eq!(r.get_slice(usize::MAX, 2), None);
    assert_eq!(r.mmap().len(), 20);
    assert_eq!(Reader::read(&mut r, 2).unwrap(), vec![0, 1]);
    assert_eq!(r.slice(2).unwrap(), &[2, 3]);
    assert_eq!(r.peek_slice(1).unwrap(), &[4]);
    assert_eq!(r.read_u16_le().unwrap(), 0x0504);
    assert_eq!(r.read_u32_le().unwrap(), 0x09080706);
    assert_eq!(r.read_u64_le().unwrap(), 0x11100F0E0D0C0B0A);
    assert_eq!(Reader::position(&r), 18);
    assert!(matches!(r.skip(3), Err(PybagError::BufferTooSmall { needed: 3, available: 2 })));
    r.skip(2).unwrap();
    assert!(matches!(r.read_u8(), Err(PybagError::BufferTooSmall { needed: 1, available: 0 })));
}

#[test]
fn slice_view_walks_a_slice() {
    let bytes = [1u8, 2, 3, 4, 5];
    let mut v = SliceView::new(&bytes);
    assert_eq!(v.remaining(), 5);
    assert!(!v.is_empty());
    assert_eq!(v.read_u8().unwrap(), 1);
    assert_eq!(v.take(2).unwrap(), &[2, 3]);
    assert_eq!(v.position(), 3);
    assert!(v.peek_slice(3).is_err());
    v.set_position(99);
    assert!(v.is_empty());
    assert_eq!(v.position(), 5);
    v.set_position(1);
    assert_eq!(v.data(), &bytes);
    let copy = v;
    assert_eq!(copy.position(), 1);
}

#[test]
fn bytes_writer_counts_and_pads() {
    let mut w = BytesWriter::new();
    w.write(&[1, 2, 3]).unwrap();
    assert_eq!(w.position(), 3);
    w.align(4);
    assert_eq!(w.as_bytes(), &[1, 2, 3, 0]);
    w.align(4);
    assert_eq!(w.position(), 4);
    w.write(&[9]).unwrap();
    w.align(8);
    w.flush().unwrap();
    assert_eq!(w.into_bytes(), vec![1, 2, 3, 0, 9, 0, 0, 0]);
    assert_eq!(BytesWriter::default().position(), 0);
}

#[test]
fn primitives_are_aligned_from_the_end_of_the_header() {
    for little in [true, false] {
        let mut e = CdrEncoder::new(little);
        e.write_u8(0xAA);
        e.write_u16(0x0102);
        assert_eq!(e.as_bytes().len(), 8);
        let two = if little { [0x02, 0x01] } else { [0x01, 0x02] };
        assert_eq!(&e.as_bytes()[4..], &[0xAA, 0, two[0], two[1]]);

        let mut e = CdrEncoder::new(little);
        e.write_u8(0xAA);
        e.write_u32(0x01020304);
        assert_eq!(e.as_bytes().len(), 12);
        assert_eq!(&e.as_bytes()[5..8], &[0, 0, 0]);

        let mut e = CdrEncoder::new(little);
        e.write_u8(0xAA);
        e.write_i64(-2);
        assert_eq!(e.as_bytes().len(), 20);
        assert_eq!(&e.as_bytes()[5..12], &[0u8; 7]);
        let expected = if little {
            [0xFE, 0xFF, 0xFF, 0xFF, 0xFF, 0xFF, 0xFF, 0xFF]
        } else {
            [0xFF, 0xFF, 0xFF, 0xFF, 0xFF, 0xFF, 0xFF, 0xFE]
        };
        assert_eq!(&e.as_bytes()[12..], &expected);
        assert_eq!(e.as_bytes()[1], little as u8);

        let bytes = e.into_bytes();
        let mut d = CdrDecoder::new(&bytes).unwrap();
        assert_eq!(d.position(), 4);
        assert_eq!(d.read_u8().unwrap(), 0xAA);
        assert_eq!(d.read_i64().unwrap(), -2);
        assert_eq!(d.position(), 20);
        assert!(matches!(
            d.read_u16(),
            Err(PybagError::BufferTooSmall { needed: 2, available: 0 })
        ));
    }
    assert_eq!(CdrEncoder::default().into_bytes(), vec![0, 1, 0, 0]);
}

#[test]
fn strings_round_trip_with_five_bytes_more() {
    for s in ["", "a", "hello world", "gr\u{fc}\u{df}e \u{1F600}"] {
        let mut e = CdrEncoder::new(true);
        e.write_string(s);
        let bytes = e.into_bytes();
        assert_eq!(bytes.len(), 4 + s.len() + 5);
        let mut d = CdrDecoder::new(&bytes).unwrap();
        assert_eq!(d.read_string().unwrap(), s);
        assert_eq!(d.position(), bytes.len());

        let mut e = CdrEncoder::new(false);
        e.write_bool(true);
        e.write_wstring(s);
        e.write_char('z');
        let bytes = e.into_bytes();
        let mut d = CdrDecoder::new(&bytes).unwrap();
        assert!(d.read_bool().unwrap());
        assert_eq!(d.read_wstring().unwrap(), s);
        assert_eq!(d.read_char().unwrap(), 'z');
    }
    // a length of zero stands for the empty string with nothing behind it
    let mut d = CdrDecoder::new(&[0, 1, 0, 0, 0, 0, 0, 0, 7]).unwrap();
    assert_eq!(d.read_string().unwrap(), "");
    assert_eq!(d.read_byte().unwrap(), 7);
    // a string that is no text
    let mut d = CdrDecoder::new(&[0, 1, 0, 0, 2, 0, 0, 0, 0xFF, 0]).unwrap();
    assert!(matches!(d.read_string(), Err(PybagError::CdrDecodeError(_))));
    assert_eq!(d.position(), 10);
    // a string longer than the payload
    let mut d = CdrDecoder::new(&[0, 1, 0, 0, 9, 0, 0, 0, b'a']).unwrap();
    assert!(matches!(
        d.read_string(),
        Err(PybagError::BufferTooSmall { needed: 9, available: 1 })
    ));
    // numbers that are no code points are dropped from wide strings
    let mut e = CdrEncoder::new(true);
    e.write_u32(3);
    e.write_u32(0xD800);
    e.write_u32('k' as u32);
    e.write_u32(0);
    let bytes = e.into_bytes();
    let mut d = CdrDecoder::new(&bytes).unwrap();
    assert_eq!(d.read_wstring().unwrap(), "k");
    assert!(CdrDecoder::new(&[0, 1, 0]).is_err());
}

#[test]
fn arrays_and_sequences_are_read_element_by_element() {
    let mut e = CdrEncoder::new(true);
    e.write_sequence_length(3);
    e.write_i16(-1);
    e.write_i16(2);
    e.write_i16(-3);
    e.write_bytes(&[8, 9]);
    e.write_i32(-7);
    e.write_i32(7);
    let bytes = e.into_bytes();
    let mut d = CdrDecoder::new(&bytes).unwrap();
    assert_eq!(d.read_sequence(|d| d.read_i16()).unwrap(), vec![-1, 2, -3]);
    assert_eq!(d.read_bytes(2).unwrap(), vec![8, 9]);
    assert_eq!(d.read_array(2, |d| d.read_i32()).unwrap(), vec![-7, 7]);
    assert!(d.read_array(1, |d| d.read_u8()).is_err());
    assert_eq!(d.read_array(0, |d| d.read_u8()).unwrap(), Vec::<u8>::new());
    assert_eq!(d.position(), 24);
    d.align(8);
    assert_eq!(d.position(), 28);
}

#[test]
fn broken_compressed_data_fails_to_decompress() {
    assert!(matches!(
        decompress_lz4(&[0xFF, 0xFF, 0xFF, 0xFF, 0xFF], 100),
        Err(PybagError::DecompressionError(_))
    ));
    assert!(matches!(decompress_zstd(&[1, 2, 3, 4]), Err(PybagError::DecompressionError(_))));
    assert!(matches!(
        decompress_lz4(&[0], usize::MAX),
        Err(PybagError::DecompressionError(_))
    ));
}

#[test]
fn elements_are_read_one_behind_the_other() {
    let bytes = [0u8, 1, 0, 0, 3, 0, 0, 0, 1, 2, 3, 0xAA, 5, 0, 6, 0];
    let mut d = CdrDecoder::new(&bytes).unwrap();
    assert_eq!(d.read_sequence(|d| d.read_u8()).unwrap(), vec![1, 2, 3]);
    assert_eq!(d.position(), 11);
    // the first 16-bit element is aligned, the second follows it
    assert_eq!(d.read_array(2, |d| d.read_u16()).unwrap(), vec![5, 6]);
    assert_eq!(d.position(), 16);
    // the third element is missing: the two before it were read
    let mut d = CdrDecoder::new(&bytes).unwrap();
    assert!(d.read_array(7, |d| d.read_u16()).is_err());
    assert_eq!(d.position(), 16);
}
