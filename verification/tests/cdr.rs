use pybag_rs::encoding::cdr::{CdrDecoder, CdrEncoder};

#[test]
fn test_encode_decode_primitives() {
    let mut encoder = CdrEncoder::new(true);
    encoder.write_bool(true);
    encoder.write_i8(-42);
    encoder.write_u8(42);
    encoder.write_i16(-1000);
    encoder.write_u16(1000);
    encoder.write_i32(-100000);
    encoder.write_u32(100000);
    encoder.write_i64(-10000000000);
    encoder.write_u64(10000000000);
    encoder.write_f32_bits(3.14f32.to_bits());
    encoder.write_f64_bits(3.14159265359f64.to_bits());

    let data = encoder.into_bytes();
    let mut decoder = CdrDecoder::new(&data).unwrap();

    assert_eq!(decoder.read_bool().unwrap(), true);
    assert_eq!(decoder.read_i8().unwrap(), -42);
    assert_eq!(decoder.read_u8().unwrap(), 42);
    assert_eq!(decoder.read_i16().unwrap(), -1000);
    assert_eq!(decoder.read_u16().unwrap(), 1000);
    assert_eq!(decoder.read_i32().unwrap(), -100000);
    assert_eq!(decoder.read_u32().unwrap(), 100000);
    assert_eq!(decoder.read_i64().unwrap(), -10000000000);
    assert_eq!(decoder.read_u64().unwrap(), 10000000000);
    assert!((f32::from_bits(decoder.read_f32_bits().unwrap()) - 3.14).abs() < 0.001);
    assert!((f64::from_bits(decoder.read_f64_bits().unwrap()) - 3.14159265359).abs() < 0.000001);
}

#[test]
fn test_encode_decode_string() {
    let mut encoder = CdrEncoder::new(true);
    encoder.write_string("hello world");

    let data = encoder.into_bytes();
    let mut decoder = CdrDecoder::new(&data).unwrap();

    assert_eq!(decoder.read_string().unwrap(), "hello world");
}
