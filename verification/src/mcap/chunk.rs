//! Compression of the records inside a chunk.

use crate::error::{ErrorKind, PybagError};
use crate::io::writer::zeros;
use vstd::prelude::*;
use vstd::slice::slice_to_vec;
use vstd::utf8::encode_utf8;

verus! {

/// What `lz4::block::compress` makes of `data` in its default mode and
/// without a size before the output; nothing if it fails.
pub uninterp spec fn lz4_compressed(data: Seq<u8>) -> Option<Seq<u8>>;

/// What `lz4::block::decompress_to_buffer` leaves in a buffer of `size`
/// zero bytes when it is told that `data` decompresses to `size` bytes;
/// nothing if it fails.
pub uninterp spec fn lz4_decompressed(data: Seq<u8>, size: int) -> Option<Seq<u8>>;

/// What `zstd::encode_all` makes of `data` at the level `level`; nothing
/// if it fails.
pub uninterp spec fn zstd_compressed(data: Seq<u8>, level: int) -> Option<Seq<u8>>;

/// What `zstd::decode_all` makes of `data`; nothing if it fails.
pub uninterp spec fn zstd_decompressed(data: Seq<u8>) -> Option<Seq<u8>>;

/// `lz4::block::compress` with no mode and no size prefix: the compressed
/// block, or the text of the outside error. The outside function refuses
/// inputs that are too long for the format instead of panicking.
#[verifier::external_body]
fn lz4_compress(data: &[u8]) -> (r: Result<Vec<u8>, String>)
    ensures
        match r {
            Ok(out) => lz4_compressed(data@) == Some(out@),
            Err(_) => lz4_compressed(data@) is None,
        },
{
    lz4::block::compress(data, None, false).map_err(|e| e.to_string())
}

/// `lz4::block::decompress_to_buffer` with the size given and a buffer of
/// that many zero bytes: on success the buffer holds the outcome, on
/// failure the text of the outside error comes back. The buffer keeps its
/// length. The outside function checks the size against the buffer and
/// refuses a negative one, so no input makes it panic.
#[verifier::external_body]
fn lz4_decompress_into(data: &[u8], size: i32, out: &mut Vec<u8>) -> (r: Result<(), String>)
    requires
        size >= 0,
        old(out)@ == zeros(size as int),
    ensures
        final(out)@.len() == old(out)@.len(),
        match r {
            Ok(_) => lz4_decompressed(data@, size as int) == Some(final(out)@),
            Err(_) => lz4_decompressed(data@, size as int) is None,
        },
{
    lz4::block::decompress_to_buffer(data, Some(size), out.as_mut_slice()).map(|_| ()).map_err(
        |e| e.to_string(),
    )
}

/// `zstd::encode_all` on a byte slice: the compressed frame, or the text
/// of the outside error.
#[verifier::external_body]
fn zstd_compress(data: &[u8], level: i32) -> (r: Result<Vec<u8>, String>)
    ensures
        match r {
            Ok(out) => zstd_compressed(data@, level as int) == Some(out@),
            Err(_) => zstd_compressed(data@, level as int) is None,
        },
{
    zstd::encode_all(data, level).map_err(|e| e.to_string())
}

/// `zstd::decode_all` on a byte slice: the decompressed bytes, or the text
/// of the outside error.
#[verifier::external_body]
fn zstd_decompress(data: &[u8]) -> (r: Result<Vec<u8>, String>)
    ensures
        match r {
            Ok(out) => zstd_decompressed(data@) == Some(out@),
            Err(_) => zstd_decompressed(data@) is None,
        },
{
    zstd::decode_all(data).map_err(|e| e.to_string())
}

/// The compression level used for zstd.
pub const ZSTD_LEVEL: i32 = 3;

/// The kinds of compression, told apart by the UTF-8 bytes of their name.
pub enum Compression {
    /// The empty name or "none": the bytes stay as they are.
    Stored,
    /// "lz4": one LZ4 block.
    Lz4,
    /// "zstd": a zstd frame.
    Zstd,
    /// Any other name.
    Unknown,
}

/// The kind of compression that the name with the UTF-8 bytes `name` stands
/// for.
pub open spec fn compression_named(name: Seq<u8>) -> Compression {
    if name == Seq::<u8>::empty() || name == seq![0x6Eu8, 0x6Fu8, 0x6Eu8, 0x65u8] {
        Compression::Stored
    } else if name == seq![0x6Cu8, 0x7Au8, 0x34u8] {
        Compression::Lz4
    } else if name == seq![0x7Au8, 0x73u8, 0x74u8, 0x64u8] {
        Compression::Zstd
    } else {
        Compression::Unknown
    }
}

/// What decompressing `data` under the compression called `name` yields.
/// LZ4 needs the size of the outcome, which must fit 31 bits. The error
/// for a name that stands for no compression carries the name.
pub open spec fn decompressed(name: Seq<char>, data: Seq<u8>, size: int) -> Result<
    Seq<u8>,
    ErrorKind,
> {
    match compression_named(encode_utf8(name)) {
        Compression::Stored => Ok(data),
        Compression::Lz4 => if size > i32::MAX {
            Err(ErrorKind::DecompressionError)
        } else {
            match lz4_decompressed(data, size) {
                Some(out) => Ok(out),
                None => Err(ErrorKind::DecompressionError),
            }
        },
        Compression::Zstd => match zstd_decompressed(data) {
            Some(out) => Ok(out),
            None => Err(ErrorKind::DecompressionError),
        },
        Compression::Unknown => Err(ErrorKind::UnknownCompression(name)),
    }
}

/// What compressing `data` under the compression called `name` yields.
/// The error for a name that stands for no compression carries the name.
pub open spec fn compressed(name: Seq<char>, data: Seq<u8>) -> Result<Seq<u8>, ErrorKind> {
    match compression_named(encode_utf8(name)) {
        Compression::Stored => Ok(data),
        Compression::Lz4 => match lz4_compressed(data) {
            Some(out) => Ok(out),
            None => Err(ErrorKind::CompressionError),
        },
        Compression::Zstd => match zstd_compressed(data, 3) {
            Some(out) => Ok(out),
            None => Err(ErrorKind::CompressionError),
        },
        Compression::Unknown => Err(ErrorKind::UnknownCompression(name)),
    }
}

/// Records that are stored as they are come back as they were, whatever
/// size is recorded for them.
pub proof fn lemma_stored_round_trip(name: Seq<char>, data: Seq<u8>, size: int)
    requires
        compression_named(encode_utf8(name)) is Stored,
    ensures
        compressed(name, data) == Ok::<Seq<u8>, ErrorKind>(data),
        decompressed(name, data, size) == Ok::<Seq<u8>, ErrorKind>(data),
{
}

/// The kind of compression that `name` stands for.
pub fn compression_of(name: &str) -> (r: Compression)
    ensures
        r == compression_named(encode_utf8(name@)),
{
    let b = name.as_bytes();
    let n = b.len();
    if n == 0 {
        assert(b@ =~= Seq::<u8>::empty());
        Compression::Stored
    } else if n == 4 && b[0] == 0x6E && b[1] == 0x6F && b[2] == 0x6E && b[3] == 0x65 {
        assert(b@ =~= seq![0x6Eu8, 0x6Fu8, 0x6Eu8, 0x65u8]);
        Compression::Stored
    } else if n == 3 && b[0] == 0x6C && b[1] == 0x7A && b[2] == 0x34 {
        assert(b@ =~= seq![0x6Cu8, 0x7Au8, 0x34u8]);
        Compression::Lz4
    } else if n == 4 && b[0] == 0x7A && b[1] == 0x73 && b[2] == 0x74 && b[3] == 0x64 {
        assert(b@ =~= seq![0x7Au8, 0x73u8, 0x74u8, 0x64u8]);
        Compression::Zstd
    } else {
        assert(b@ != Seq::<u8>::empty());
        assert(b@ != seq![0x6Eu8, 0x6Fu8, 0x6Eu8, 0x65u8]) by {
            if b@ == seq![0x6Eu8, 0x6Fu8, 0x6Eu8, 0x65u8] {
                assert(b@.len() == 4 && b@[0] == 0x6E && b@[1] == 0x6F && b@[2] == 0x6E && b@[3] == 0x65);
            }
        }
        assert(b@ != seq![0x6Cu8, 0x7Au8, 0x34u8]) by {
            if b@ == seq![0x6Cu8, 0x7Au8, 0x34u8] {
                assert(b@.len() == 3 && b@[0] == 0x6C && b@[1] == 0x7A && b@[2] == 0x34);
            }
        }
        assert(b@ != seq![0x7Au8, 0x73u8, 0x74u8, 0x64u8]) by {
            if b@ == seq![0x7Au8, 0x73u8, 0x74u8, 0x64u8] {
                assert(b@.len() == 4 && b@[0] == 0x7A && b@[1] == 0x73 && b@[2] == 0x74 && b@[3] == 0x64);
            }
        }
        Compression::Unknown
    }
}

/// Decompresses the records of a chunk. `uncompressed_size` is the size
/// that the chunk records for them; only LZ4 needs it.
pub fn decompress_chunk(compression: &str, data: &[u8], uncompressed_size: usize) -> (r: Result<
    Vec<u8>,
    PybagError,
>)
    ensures
        match decompressed(compression@, data@, uncompressed_size as int) {
            Ok(out) => r is Ok && r->Ok_0@ == out,
            Err(e) => r is Err && r->Err_0@ == e,
        },
{
    match compression_of(compression) {
        Compression::Stored => Ok(slice_to_vec(data)),
        Compression::Lz4 => decompress_lz4(data, uncompressed_size),
        Compression::Zstd => decompress_zstd(data),
        Compression::Unknown => Err(PybagError::UnknownCompression(compression.to_string())),
    }
}

/// Compresses the records of a chunk.
pub fn compress_chunk(compression: &str, data: &[u8]) -> (r: Result<Vec<u8>, PybagError>)
    ensures
        match compressed(compression@, data@) {
            Ok(out) => r is Ok && r->Ok_0@ == out,
            Err(e) => r is Err && r->Err_0@ == e,
        },
{
    match compression_of(compression) {
        Compression::Stored => Ok(slice_to_vec(data)),
        Compression::Lz4 => compress_lz4(data),
        Compression::Zstd => compress_zstd(data),
        Compression::Unknown => Err(PybagError::UnknownCompression(compression.to_string())),
    }
}

/// Decompresses one LZ4 block that holds `uncompressed_size` bytes.
pub fn decompress_lz4(data: &[u8], uncompressed_size: usize) -> (r: Result<Vec<u8>, PybagError>)
    ensures
        uncompressed_size > i32::MAX ==> r is Err && r->Err_0@ == ErrorKind::DecompressionError,
        uncompressed_size <= i32::MAX ==> match lz4_decompressed(data@, uncompressed_size as int) {
            Some(out) => r is Ok && r->Ok_0@ == out,
            None => r is Err && r->Err_0@ == ErrorKind::DecompressionError,
        },
        r is Ok ==> r->Ok_0@.len() == uncompressed_size,
{
    if uncompressed_size > 0x7fff_ffff {
        return Err(PybagError::DecompressionError("LZ4 decompression failed: size too large".to_string()));
    }
    let mut output = vec![0u8; uncompressed_size];
    assert(output@ =~= zeros(uncompressed_size as int));
    match lz4_decompress_into(data, uncompressed_size as i32, &mut output) {
        Ok(_) => Ok(output),
        Err(msg) => Err(PybagError::DecompressionError(msg)),
    }
}

/// Compresses into one LZ4 block.
pub fn compress_lz4(data: &[u8]) -> (r: Result<Vec<u8>, PybagError>)
    ensures
        match lz4_compressed(data@) {
            Some(out) => r is Ok && r->Ok_0@ == out,
            None => r is Err && r->Err_0@ == ErrorKind::CompressionError,
        },
{
    match lz4_compress(data) {
        Ok(out) => Ok(out),
        Err(msg) => Err(PybagError::CompressionError(msg)),
    }
}

/// Decompresses a zstd frame.
pub fn decompress_zstd(data: &[u8]) -> (r: Result<Vec<u8>, PybagError>)
    ensures
        match zstd_decompressed(data@) {
            Some(out) => r is Ok && r->Ok_0@ == out,
            None => r is Err && r->Err_0@ == ErrorKind::DecompressionError,
        },
{
    match zstd_decompress(data) {
        Ok(out) => Ok(out),
        Err(msg) => Err(PybagError::DecompressionError(msg)),
    }
}

/// Compresses into a zstd frame at level 3.
pub fn compress_zstd(data: &[u8]) -> (r: Result<Vec<u8>, PybagError>)
    ensures
        match zstd_compressed(data@, 3) {
            Some(out) => r is Ok && r->Ok_0@ == out,
            None => r is Err && r->Err_0@ == ErrorKind::CompressionError,
        },
{
    match zstd_compress(data, ZSTD_LEVEL) {
        Ok(out) => Ok(out),
        Err(msg) => Err(PybagError::CompressionError(msg)),
    }
}

} // verus!
