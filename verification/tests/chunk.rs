use pybag_rs::mcap::chunk::{
    compress_chunk, compress_lz4, compress_zstd, decompress_chunk, decompress_lz4, decompress_zstd,
};
use pybag_rs::error::PybagError;
use pybag_rs::mcap::crc::{check_crc, compute_crc, crc_verdict, Crc32Hasher};

#[test]
fn test_lz4_roundtrip() {
    let data = b"hello world hello world hello world";
    let compressed = compress_lz4(data).unwrap();
    let decompressed = decompress_lz4(&compressed, data.len()).unwrap();
    assert_eq!(data.as_slice(), decompressed.as_slice());
}

#[test]
fn test_zstd_roundtrip() {
    let data = b"hello world hello world hello world";
    let compressed = compress_zstd(data).unwrap();
    let decompressed = decompress_zstd(&compressed).unwrap();
    assert_eq!(data.as_slice(), decompressed.as_slice());
}

#[test]
fn test_no_compression() {
    let data = b"hello world";
    let result = decompress_chunk("", data, data.len()).unwrap();
    assert_eq!(data.as_slice(), result.as_slice());
}

#[test]
fn test_compute_crc() {
    let data = b"hello world";
    let crc = compute_crc(data);
    assert_eq!(crc, 0x0d4a1185);
}

#[test]
fn test_incremental_crc() {
    let data = b"hello world";
    let mut hasher = Crc32Hasher::new();
    hasher.update(b"hello ");
    hasher.update(b"world");
    assert_eq!(hasher.finalize(), compute_crc(data));
}

#[test]
fn a_hasher_starts_over_when_it_is_reset() {
    let mut hasher = Crc32Hasher::default();
    hasher.update(b"something else");
    hasher.reset();
    hasher.update(b"hello world");
    assert_eq!(hasher.finalize(), 0x0d4a1185);
    assert_eq!(Crc32Hasher::new().finalize(), 0);
}

#[test]
fn compression_names_are_told_apart() {
    let data = b"some bytes some bytes some bytes some bytes";
    assert_eq!(compress_chunk("none", data).unwrap(), data.to_vec());
    assert_eq!(compress_chunk("", data).unwrap(), data.to_vec());
    let lz4 = compress_chunk("lz4", data).unwrap();
    assert_ne!(lz4, data.to_vec());
    assert_eq!(decompress_chunk("lz4", &lz4, data.len()).unwrap(), data.to_vec());
    let zstd = compress_chunk("zstd", data).unwrap();
    assert_ne!(zstd, data.to_vec());
    assert_eq!(decompress_chunk("zstd", &zstd, 0).unwrap(), data.to_vec());
    assert!(compress_chunk("gzip", data).is_err());
    assert!(decompress_chunk("gzip", data, 1).is_err());
}

#[test]
fn checksums_are_compared_only_when_recorded_and_asked_for() {
    assert!(crc_verdict(true, 5, 5).is_ok());
    assert!(crc_verdict(true, 0, 5).is_ok());
    assert!(crc_verdict(false, 4, 5).is_ok());
    assert!(matches!(
        crc_verdict(true, 4, 5),
        Err(PybagError::CrcMismatch { expected: 4, computed: 5 })
    ));
    assert!(check_crc(true, 0x0d4a1185, b"hello world").is_ok());
    assert!(matches!(
        check_crc(true, 1, b"hello world"),
        Err(PybagError::CrcMismatch { expected: 1, computed: 0x0d4a1185 })
    ));
    assert!(check_crc(false, 1, b"hello world").is_ok());
    assert_ne!(compute_crc(b"hello world"), compute_crc(b"hello worle"));
}

#[test]
fn an_unknown_compression_error_carries_the_name_given() {
    for name in ["gzip", "LZ4", "Zstd", " none", "bz2"] {
        match compress_chunk(name, b"abc") {
            Err(PybagError::UnknownCompression(got)) => assert_eq!(got, name),
            other => panic!("expected an unknown compression, got {:?}", other),
        }
        match decompress_chunk(name, b"abc", 3) {
            Err(PybagError::UnknownCompression(got)) => assert_eq!(got, name),
            other => panic!("expected an unknown compression, got {:?}", other),
        }
    }
}

#[test]
fn checksums_are_those_of_crc_32() {
    assert_eq!(compute_crc(b""), 0);
    assert_eq!(compute_crc(b"123456789"), 0xCBF4_3926);
    assert_eq!(compute_crc(b"a"), 0xE8B7_BE43);
    assert_eq!(compute_crc(&[0u8; 32]), 0x190A_55AD);
}

#[test]
fn a_checksum_in_pieces_is_that_of_the_whole() {
    let data: Vec<u8> = (0..300u32).map(|i| (i * 7 + 3) as u8).collect();
    for cut in [0, 1, 15, 16, 17, 64, 150, 299, 300] {
        let mut hasher = Crc32Hasher::new();
        hasher.update(&data[..cut]);
        hasher.update(&data[cut..]);
        assert_eq!(hasher.finalize(), compute_crc(&data));
    }
    let mut hasher = Crc32Hasher::new();
    hasher.update(b"abc");
    hasher.update(b"");
    assert_eq!(hasher.finalize(), compute_crc(b"abc"));
}

#[test]
fn a_flipped_bit_changes_the_checksum() {
    let data: Vec<u8> = (0..40u32).map(|i| (i * 37 + 11) as u8).collect();
    let sum = compute_crc(&data);
    assert_ne!(sum, 0);
    for at in 0..data.len() {
        for bit in 0..8 {
            let mut changed = data.clone();
            changed[at] ^= 1 << bit;
            let other = compute_crc(&changed);
            assert_ne!(other, sum);
            match check_crc(true, sum, &changed) {
                Err(PybagError::CrcMismatch { expected, computed }) => {
                    assert_eq!(expected, sum);
                    assert_eq!(computed, other);
                },
                other => panic!("expected a mismatch, got {:?}", other),
            }
            assert!(check_crc(false, sum, &changed).is_ok());
            assert!(check_crc(true, 0, &changed).is_ok());
        }
    }
    assert!(check_crc(true, sum, &data).is_ok());
}
