//! The aligned binary encoding of message payloads: a 4-byte header whose
//! second byte tells the byte order, then primitives, each aligned to its
//! size as measured from the end of the header.

use crate::endian::{
    lemma_ordered_round_trip,
    decode_u16, decode_u32, decode_u64, encode_u16, encode_u32, encode_u64, ordered_u16,
    ordered_u32, ordered_u64, signed16, signed32, signed64, signed8, u16_ordered, u32_ordered,
    u64_ordered, unsigned16, unsigned32, unsigned64, unsigned8,
};
use crate::error::PybagError;
use crate::io::reader::align_up;
use crate::io::writer::zeros;
use vstd::prelude::*;
use vstd::slice::slice_subrange;
use vstd::slice::slice_to_vec;
use vstd::utf8::{decode_utf8, encode_utf8, valid_utf8};

verus! {

broadcast use crate::endian::group_widths;

/// The least position at or after `pos` whose distance from the end of the
/// header is a multiple of `k`.
pub open spec fn payload_aligned(pos: int, k: int) -> int {
    4 + align_up(pos - 4, k)
}

/// Whether `k` is the size of a primitive.
pub open spec fn is_primitive_size(k: int) -> bool {
    k == 1 || k == 2 || k == 4 || k == 8
}

/// The error for a read of `needed` bytes at `pos` that `data` cannot serve.
pub open spec fn shortfall(data: Seq<u8>, pos: int, needed: int) -> PybagError {
    PybagError::BufferTooSmall {
        needed: needed as usize,
        available: if pos <= data.len() {
            (data.len() - pos) as usize
        } else {
            0
        },
    }
}

/// A read of `n` raw bytes at `pos`: the bytes, or the error.
pub open spec fn raw_at(data: Seq<u8>, pos: int, n: int) -> Result<Seq<u8>, PybagError> {
    if pos + n <= data.len() {
        Ok(data.subrange(pos, pos + n))
    } else {
        Err(shortfall(data, pos, n))
    }
}

/// The cursor after a read of `n` raw bytes at `pos`.
pub open spec fn after_raw(data: Seq<u8>, pos: int, n: int) -> int {
    if pos + n <= data.len() {
        pos + n
    } else {
        pos
    }
}

/// A read of a primitive of `k` bytes with the cursor at `pos`: its bytes,
/// found at the aligned position, or the error.
pub open spec fn primitive_at(data: Seq<u8>, pos: int, k: int) -> Result<Seq<u8>, PybagError> {
    raw_at(data, payload_aligned(pos, k), k)
}

/// The cursor after a read of a primitive of `k` bytes with the cursor at
/// `pos`: behind the primitive, or at the aligned position when the read
/// fails.
pub open spec fn after_primitive(data: Seq<u8>, pos: int, k: int) -> int {
    after_raw(data, payload_aligned(pos, k), k)
}

/// The greatest position a cursor over `len` bytes can come to stand at.
pub open spec fn cursor_limit(len: int) -> int {
    4 + 8 * ((len + 11) / 8)
}

/// A string read with the cursor at `pos`: the length prefix, then the
/// content and its terminator. The prefix counts the terminator; a prefix of
/// zero stands for the empty string with nothing behind it.
pub open spec fn string_at(data: Seq<u8>, pos: int, little_endian: bool) -> Result<
    Seq<char>,
    StringFault,
> {
    match primitive_at(data, pos, 4) {
        Err(e) => Err(StringFault::Short(e)),
        Ok(prefix) => {
            let length = ordered_u32(prefix, little_endian) as int;
            let start = after_primitive(data, pos, 4);
            if length == 0 {
                Ok(Seq::empty())
            } else if start + length > data.len() {
                Err(StringFault::Short(shortfall(data, start, length)))
            } else if !valid_utf8(data.subrange(start, start + length - 1)) {
                Err(StringFault::NotUtf8)
            } else {
                Ok(decode_utf8(data.subrange(start, start + length - 1)))
            }
        },
    }
}

/// The cursor after a string read with the cursor at `pos`.
pub open spec fn after_string(data: Seq<u8>, pos: int, little_endian: bool) -> int {
    match primitive_at(data, pos, 4) {
        Err(e) => after_primitive(data, pos, 4),
        Ok(prefix) => {
            let length = ordered_u32(prefix, little_endian) as int;
            let start = after_primitive(data, pos, 4);
            if start + length > data.len() {
                start
            } else {
                start + length
            }
        },
    }
}

/// Why a string could not be read.
pub enum StringFault {
    /// The buffer ends too early; the error says by how much.
    Short(PybagError),
    /// The content is not UTF-8.
    NotUtf8,
}

/// `r` is the outcome `expected` of a string read.
pub open spec fn is_string_result(r: Result<String, PybagError>, expected: Result<Seq<char>, StringFault>) -> bool {
    match expected {
        Ok(s) => r is Ok && r->Ok_0@ == s,
        Err(StringFault::Short(e)) => r is Err && r->Err_0 == e,
        Err(StringFault::NotUtf8) => r is Err && r->Err_0 is CdrDecodeError,
    }
}

/// The characters of a wide string of `count` code points read with the
/// cursor at `pos`, or the error of the first code point that is cut short.
/// Numbers that are no code points are left out.
pub open spec fn wide_chars_at(data: Seq<u8>, pos: int, little_endian: bool, count: nat) -> Result<
    Seq<char>,
    PybagError,
>
    decreases count,
{
    if count == 0 {
        Ok(Seq::empty())
    } else {
        match primitive_at(data, pos, 4) {
            Err(e) => Err(e),
            Ok(b) => {
                let code = ordered_u32(b, little_endian);
                match wide_chars_at(data, after_primitive(data, pos, 4), little_endian, (count - 1) as nat) {
                    Err(e) => Err(e),
                    Ok(rest) => if is_code_point(code) {
                        Ok(seq![code as char] + rest)
                    } else {
                        Ok(rest)
                    },
                }
            },
        }
    }
}

/// The cursor after `count` code points read with the cursor at `pos`; it
/// stays at the aligned position of the first that is cut short.
pub open spec fn after_wide_chars(data: Seq<u8>, pos: int, count: nat) -> int
    decreases count,
{
    if count == 0 {
        pos
    } else if primitive_at(data, pos, 4) is Err {
        after_primitive(data, pos, 4)
    } else {
        after_wide_chars(data, after_primitive(data, pos, 4), (count - 1) as nat)
    }
}

/// Whether `code` is a Unicode scalar value.
pub open spec fn is_code_point(code: u32) -> bool {
    code < 0xD800 || (0xE000 <= code && code < 0x11_0000)
}

/// A wide string read with the cursor at `pos`: the prefix counts the code
/// points and their terminator.
pub open spec fn wstring_at(data: Seq<u8>, pos: int, little_endian: bool) -> Result<
    Seq<char>,
    PybagError,
> {
    match primitive_at(data, pos, 4) {
        Err(e) => Err(e),
        Ok(prefix) => {
            let length = ordered_u32(prefix, little_endian) as int;
            let start = after_primitive(data, pos, 4);
            if length <= 1 {
                Ok(Seq::empty())
            } else {
                wide_chars_at(data, start, little_endian, (length - 1) as nat)
            }
        },
    }
}

/// The cursor after a wide string read with the cursor at `pos`. The
/// terminator is skipped without being looked at.
pub open spec fn after_wstring(data: Seq<u8>, pos: int, little_endian: bool) -> int {
    match primitive_at(data, pos, 4) {
        Err(e) => after_primitive(data, pos, 4),
        Ok(prefix) => {
            let length = ordered_u32(prefix, little_endian) as int;
            let start = after_primitive(data, pos, 4);
            if length == 0 {
                start
            } else if length == 1 {
                start + 4
            } else if wide_chars_at(data, start, little_endian, (length - 1) as nat) is Err {
                after_wide_chars(data, start, (length - 1) as nat)
            } else {
                after_wide_chars(data, start, (length - 1) as nat) + 4
            }
        },
    }
}

/// A cursor within its limit stays within it when it is aligned.
#[verifier::rlimit(50)]
pub proof fn lemma_aligned_within(pos: int, k: int, len: int)
    requires
        4 <= pos <= cursor_limit(len),
        0 <= len,
        is_primitive_size(k),
    ensures
        pos <= payload_aligned(pos, k) <= cursor_limit(len),
        payload_aligned(pos, k) < pos + k,
        (payload_aligned(pos, k) - 4) % k == 0,
{
    let p = pos - 4;
    let limit = 8 * ((len + 11) / 8);
    assert(limit % 8 == 0);
    if k == 1 {
        assert(p % 1 == 0);
    } else if k == 2 {
        assert(limit % 2 == 0);
        if p % 2 != 0 {
            assert(p + 1 <= limit);
        }
    } else if k == 4 {
        assert(limit % 4 == 0);
        if p % 4 != 0 {
            assert(p + 4 - p % 4 <= limit);
        }
    } else {
        if p % 8 != 0 {
            assert(p + 8 - p % 8 <= limit);
        }
    }
}

/// `std::string::String::from_utf8`: the string that the bytes encode, if
/// they are UTF-8, and nothing otherwise.
#[verifier::external_body]
pub(crate) fn string_from_utf8(bytes: Vec<u8>) -> (r: Option<String>)
    ensures
        r is Some <==> valid_utf8(bytes@),
        r is Some ==> r->0@ == decode_utf8(bytes@),
{
    String::from_utf8(bytes).ok()
}

/// `char::from_u32`: the character with the code `code`, if `code` is a
/// Unicode scalar value.
#[verifier::external_body]
pub(crate) fn char_from_code(code: u32) -> (r: Option<char>)
    ensures
        r is Some <==> is_code_point(code),
        r is Some ==> r->0 == code as char,
{
    char::from_u32(code)
}

/// `std::string::String::push`: appends one character.
#[verifier::external_body]
pub(crate) fn push_char(s: &mut String, c: char)
    ensures
        final(s)@ == old(s)@.push(c),
{
    s.push(c)
}

/// A decoder for one payload.
pub struct CdrDecoder<'a> {
    data: &'a [u8],
    position: usize,
    is_little_endian: bool,
}

impl<'a> CdrDecoder<'a> {
    /// The payload with its header.
    pub closed spec fn input(&self) -> Seq<u8> {
        self.data@
    }

    /// The cursor, counted from the first byte of the header.
    pub closed spec fn cursor(&self) -> int {
        self.position as int
    }

    /// Whether numbers are read least significant byte first.
    pub closed spec fn little_endian(&self) -> bool {
        self.is_little_endian
    }

    /// The cursor is behind the header and not farther behind the end than
    /// alignment and a skipped terminator can take it.
    pub closed spec fn wf(&self) -> bool {
        &&& 4 <= self.position <= cursor_limit(self.data@.len() as int)
        &&& self.data@.len() + 16 <= usize::MAX
    }

    /// The cursor of a decoder in order lies behind the header.
    pub proof fn lemma_cursor_behind_header(&self)
        requires
            self.wf(),
        ensures
            4 <= self.cursor(),
    {
    }

    /// `other` reads the same payload in the same byte order.
    pub open spec fn same_input(&self, other: &Self) -> bool {
        &&& self.input() == other.input()
        &&& self.little_endian() == other.little_endian()
    }

    /// A decoder at the first byte behind the header. The second byte of the
    /// header tells the byte order: little-endian unless it is zero. Fails
    /// on fewer than 4 bytes, and on more than any memory can hold together
    /// with room for padding.
    #[verifier::rlimit(50)]
    pub fn new(data: &'a [u8]) -> (r: Result<Self, PybagError>)
        ensures
            r is Ok <==> 4 <= data@.len() && data@.len() + 16 <= usize::MAX,
            r is Err ==> r->Err_0 is CdrDecodeError,
            r is Ok ==> {
                &&& r->Ok_0.wf()
                &&& r->Ok_0.input() == data@
                &&& r->Ok_0.cursor() == 4
                &&& r->Ok_0.little_endian() == (data@[1] != 0)
            },
    {
        if data.len() < 4 {
            return Err(
                PybagError::CdrDecodeError("Data must be at least 4 bytes (CDR header)".to_string()),
            );
        }
        if data.len() > usize::MAX - 16 {
            return Err(PybagError::CdrDecodeError("Data too long".to_string()));
        }
        let is_little_endian = data[1] != 0;
        Ok(Self { data, position: 4, is_little_endian })
    }

    /// The cursor.
    pub fn position(&self) -> (r: usize)
        ensures
            r == self.cursor(),
    {
        self.position
    }

    /// Moves the cursor forward until its distance from the end of the
    /// header is a multiple of `alignment`.
    #[verifier::rlimit(50)]
    pub fn align(&mut self, alignment: usize)
        requires
            old(self).wf(),
            is_primitive_size(alignment as int),
        ensures
            final(self).wf(),
            final(self).same_input(old(self)),
            final(self).cursor() == payload_aligned(old(self).cursor(), alignment as int),
    {
        proof {
            lemma_aligned_within(self.position as int, alignment as int, self.data@.len() as int);
        }
        let remainder = (self.position - 4) % alignment;
        if remainder != 0 {
            self.position += alignment - remainder;
        }
    }

    /// Fails unless `needed` bytes are left from the cursor on.
    #[verifier::rlimit(50)]
    fn check_remaining(&self, needed: usize) -> (r: Result<(), PybagError>)
        requires
            self.wf(),
        ensures
            match raw_at(self.input(), self.cursor(), needed as int) {
                Ok(_) => r is Ok,
                Err(e) => r is Err && r->Err_0 == e,
            },
    {
        if self.position > self.data.len() {
            return Err(PybagError::BufferTooSmall { needed, available: 0 });
        }
        if needed > self.data.len() - self.position {
            return Err(
                PybagError::BufferTooSmall { needed, available: self.data.len() - self.position },
            );
        }
        Ok(())
    }

    /// The bytes of a primitive of size `k`, aligned; the cursor moves
    /// behind them.
    #[verifier::rlimit(50)]
    fn take_primitive(&mut self, k: usize) -> (r: Result<&'a [u8], PybagError>)
        requires
            old(self).wf(),
            is_primitive_size(k as int),
        ensures
            final(self).wf(),
            final(self).same_input(old(self)),
            final(self).cursor() == after_primitive(old(self).input(), old(self).cursor(), k as int),
            match primitive_at(old(self).input(), old(self).cursor(), k as int) {
                Ok(b) => r is Ok && r->Ok_0@ == b && b.len() == k,
                Err(e) => r is Err && r->Err_0 == e,
            },
    {
        self.align(k);
        self.check_remaining(k)?;
        let data: &'a [u8] = self.data;
        let start = self.position;
        self.position = start + k;
        Ok(slice_subrange(data, start, start + k))
    }

    /// Reads a truth value: one byte, true unless zero.
    pub fn read_bool(&mut self) -> (r: Result<bool, PybagError>)
        requires
            old(self).wf(),
        ensures
            final(self).wf(),
            final(self).same_input(old(self)),
            final(self).cursor() == after_primitive(old(self).input(), old(self).cursor(), 1),
            match primitive_at(old(self).input(), old(self).cursor(), 1) {
                Ok(b) => r is Ok && r->Ok_0 == (b[0] != 0),
                Err(e) => r is Err && r->Err_0 == e,
            },
    {
        let bytes = self.take_primitive(1)?;
        Ok(bytes[0] != 0)
    }

    /// Reads a signed 8-bit number.
    pub fn read_i8(&mut self) -> (r: Result<i8, PybagError>)
        requires
            old(self).wf(),
        ensures
            final(self).wf(),
            final(self).same_input(old(self)),
            final(self).cursor() == after_primitive(old(self).input(), old(self).cursor(), 1),
            match primitive_at(old(self).input(), old(self).cursor(), 1) {
                Ok(b) => r is Ok && r->Ok_0 == signed8(b[0]),
                Err(e) => r is Err && r->Err_0 == e,
            },
    {
        let bytes = self.take_primitive(1)?;
        Ok(to_signed8(bytes[0]))
    }

    /// Reads an unsigned 8-bit number.
    pub fn read_u8(&mut self) -> (r: Result<u8, PybagError>)
        requires
            old(self).wf(),
        ensures
            final(self).wf(),
            final(self).same_input(old(self)),
            final(self).cursor() == after_primitive(old(self).input(), old(self).cursor(), 1),
            match primitive_at(old(self).input(), old(self).cursor(), 1) {
                Ok(b) => r is Ok && r->Ok_0 == b[0],
                Err(e) => r is Err && r->Err_0 == e,
            },
    {
        let bytes = self.take_primitive(1)?;
        Ok(bytes[0])
    }

    /// Reads a byte.
    pub fn read_byte(&mut self) -> (r: Result<u8, PybagError>)
        requires
            old(self).wf(),
        ensures
            final(self).wf(),
            final(self).same_input(old(self)),
            final(self).cursor() == after_primitive(old(self).input(), old(self).cursor(), 1),
            match primitive_at(old(self).input(), old(self).cursor(), 1) {
                Ok(b) => r is Ok && r->Ok_0 == b[0],
                Err(e) => r is Err && r->Err_0 == e,
            },
    {
        self.read_u8()
    }

    /// Reads a character: one byte, taken as the code point of that number.
    pub fn read_char(&mut self) -> (r: Result<char, PybagError>)
        requires
            old(self).wf(),
        ensures
            final(self).wf(),
            final(self).same_input(old(self)),
            final(self).cursor() == after_primitive(old(self).input(), old(self).cursor(), 1),
            match primitive_at(old(self).input(), old(self).cursor(), 1) {
                Ok(b) => r is Ok && r->Ok_0 == b[0] as char,
                Err(e) => r is Err && r->Err_0 == e,
            },
    {
        let bytes = self.take_primitive(1)?;
        Ok(bytes[0] as char)
    }

    /// Reads a signed 16-bit number.
    pub fn read_i16(&mut self) -> (r: Result<i16, PybagError>)
        requires
            old(self).wf(),
        ensures
            final(self).wf(),
            final(self).same_input(old(self)),
            final(self).cursor() == after_primitive(old(self).input(), old(self).cursor(), 2),
            match primitive_at(old(self).input(), old(self).cursor(), 2) {
                Ok(b) => r is Ok && r->Ok_0 == signed16(ordered_u16(b, old(self).little_endian())),
                Err(e) => r is Err && r->Err_0 == e,
            },
    {
        let bytes = self.take_primitive(2)?;
        Ok(to_signed16(decode_u16(bytes, self.is_little_endian)))
    }

    /// Reads an unsigned 16-bit number.
    pub fn read_u16(&mut self) -> (r: Result<u16, PybagError>)
        requires
            old(self).wf(),
        ensures
            final(self).wf(),
            final(self).same_input(old(self)),
            final(self).cursor() == after_primitive(old(self).input(), old(self).cursor(), 2),
            match primitive_at(old(self).input(), old(self).cursor(), 2) {
                Ok(b) => r is Ok && r->Ok_0 == ordered_u16(b, old(self).little_endian()),
                Err(e) => r is Err && r->Err_0 == e,
            },
    {
        let bytes = self.take_primitive(2)?;
        Ok(decode_u16(bytes, self.is_little_endian))
    }

    /// Reads a signed 32-bit number.
    pub fn read_i32(&mut self) -> (r: Result<i32, PybagError>)
        requires
            old(self).wf(),
        ensures
            final(self).wf(),
            final(self).same_input(old(self)),
            final(self).cursor() == after_primitive(old(self).input(), old(self).cursor(), 4),
            match primitive_at(old(self).input(), old(self).cursor(), 4) {
                Ok(b) => r is Ok && r->Ok_0 == signed32(ordered_u32(b, old(self).little_endian())),
                Err(e) => r is Err && r->Err_0 == e,
            },
    {
        let bytes = self.take_primitive(4)?;
        Ok(to_signed32(decode_u32(bytes, self.is_little_endian)))
    }

    /// Reads an unsigned 32-bit number.
    pub fn read_u32(&mut self) -> (r: Result<u32, PybagError>)
        requires
            old(self).wf(),
        ensures
            final(self).wf(),
            final(self).same_input(old(self)),
            final(self).cursor() == after_primitive(old(self).input(), old(self).cursor(), 4),
            match primitive_at(old(self).input(), old(self).cursor(), 4) {
                Ok(b) => r is Ok && r->Ok_0 == ordered_u32(b, old(self).little_endian()),
                Err(e) => r is Err && r->Err_0 == e,
            },
    {
        let bytes = self.take_primitive(4)?;
        Ok(decode_u32(bytes, self.is_little_endian))
    }

    /// Reads a signed 64-bit number.
    pub fn read_i64(&mut self) -> (r: Result<i64, PybagError>)
        requires
            old(self).wf(),
        ensures
            final(self).wf(),
            final(self).same_input(old(self)),
            final(self).cursor() == after_primitive(old(self).input(), old(self).cursor(), 8),
            match primitive_at(old(self).input(), old(self).cursor(), 8) {
                Ok(b) => r is Ok && r->Ok_0 == signed64(ordered_u64(b, old(self).little_endian())),
                Err(e) => r is Err && r->Err_0 == e,
            },
    {
        let bytes = self.take_primitive(8)?;
        Ok(to_signed64(decode_u64(bytes, self.is_little_endian)))
    }

    /// Reads an unsigned 64-bit number.
    pub fn read_u64(&mut self) -> (r: Result<u64, PybagError>)
        requires
            old(self).wf(),
        ensures
            final(self).wf(),
            final(self).same_input(old(self)),
            final(self).cursor() == after_primitive(old(self).input(), old(self).cursor(), 8),
            match primitive_at(old(self).input(), old(self).cursor(), 8) {
                Ok(b) => r is Ok && r->Ok_0 == ordered_u64(b, old(self).little_endian()),
                Err(e) => r is Err && r->Err_0 == e,
            },
    {
        let bytes = self.take_primitive(8)?;
        Ok(decode_u64(bytes, self.is_little_endian))
    }

    /// Reads the 32 bits of a single-precision number.
    pub fn read_f32_bits(&mut self) -> (r: Result<u32, PybagError>)
        requires
            old(self).wf(),
        ensures
            final(self).wf(),
            final(self).same_input(old(self)),
            final(self).cursor() == after_primitive(old(self).input(), old(self).cursor(), 4),
            match primitive_at(old(self).input(), old(self).cursor(), 4) {
                Ok(b) => r is Ok && r->Ok_0 == ordered_u32(b, old(self).little_endian()),
                Err(e) => r is Err && r->Err_0 == e,
            },
    {
        self.read_u32()
    }

    /// Reads the 64 bits of a double-precision number.
    pub fn read_f64_bits(&mut self) -> (r: Result<u64, PybagError>)
        requires
            old(self).wf(),
        ensures
            final(self).wf(),
            final(self).same_input(old(self)),
            final(self).cursor() == after_primitive(old(self).input(), old(self).cursor(), 8),
            match primitive_at(old(self).input(), old(self).cursor(), 8) {
                Ok(b) => r is Ok && r->Ok_0 == ordered_u64(b, old(self).little_endian()),
                Err(e) => r is Err && r->Err_0 == e,
            },
    {
        self.read_u64()
    }

    /// Reads a string: a 32-bit length that counts the terminator, the
    /// UTF-8 content, the terminator. The cursor moves behind the
    /// terminator also when the content is not UTF-8.
    #[verifier::rlimit(50)]
    pub fn read_string(&mut self) -> (r: Result<String, PybagError>)
        requires
            old(self).wf(),
        ensures
            final(self).wf(),
            final(self).same_input(old(self)),
            final(self).cursor() == after_string(
                old(self).input(),
                old(self).cursor(),
                old(self).little_endian(),
            ),
            is_string_result(
                r,
                string_at(old(self).input(), old(self).cursor(), old(self).little_endian()),
            ),
    {
        let length = self.read_u32()? as usize;
        if length == 0 {
            return Ok(String::new());
        }
        self.check_remaining(length)?;
        let start = self.position;
        let content = slice_to_vec(slice_subrange(self.data, start, start + (length - 1)));
        self.position = start + length;
        match string_from_utf8(content) {
            Some(s) => Ok(s),
            None => Err(PybagError::CdrDecodeError("Invalid UTF-8 string".to_string())),
        }
    }

    /// Reads a wide string: a 32-bit count of code points that includes
    /// the terminator, the code points as aligned 32-bit numbers, the
    /// terminator. Numbers that are no code points are dropped.
    #[verifier::rlimit(50)]
    pub fn read_wstring(&mut self) -> (r: Result<String, PybagError>)
        requires
            old(self).wf(),
        ensures
            final(self).wf(),
            final(self).same_input(old(self)),
            final(self).cursor() == after_wstring(
                old(self).input(),
                old(self).cursor(),
                old(self).little_endian(),
            ),
            match wstring_at(old(self).input(), old(self).cursor(), old(self).little_endian()) {
                Ok(s) => r is Ok && r->Ok_0@ == s,
                Err(e) => r is Err && r->Err_0 == e,
            },
    {
        let length = self.read_u32()?;
        if length <= 1 {
            if length == 1 {
                self.align(4);
                self.position += 4;
            }
            return Ok(String::new());
        }
        let ghost start = self.cursor();
        let ghost total = (length - 1) as nat;
        let mut chars = String::new();
        let mut remaining: u32 = length - 1;
        while remaining > 0
            invariant
                self.wf(),
                self.same_input(old(self)),
                self.cursor() <= self.input().len(),
                (self.cursor() - 4) % 4 == 0,
                length > 1,
                total == length - 1,
                primitive_at(old(self).input(), old(self).cursor(), 4) is Ok,
                ordered_u32(
                    primitive_at(old(self).input(), old(self).cursor(), 4)->Ok_0,
                    old(self).little_endian(),
                ) == length,
                start == after_primitive(old(self).input(), old(self).cursor(), 4),
                after_wide_chars(self.input(), start, total) == after_wide_chars(
                    self.input(),
                    self.cursor(),
                    remaining as nat,
                ),
                match wide_chars_at(self.input(), self.cursor(), self.little_endian(), remaining as nat) {
                    Ok(rest) => wide_chars_at(self.input(), start, self.little_endian(), total) == Ok::<
                        Seq<char>,
                        PybagError,
                    >(chars@ + rest),
                    Err(e) => wide_chars_at(self.input(), start, self.little_endian(), total) == Err::<
                        Seq<char>,
                        PybagError,
                    >(e),
                },
            decreases remaining,
        {
            let ghost before = chars@;
            let ghost here = self.cursor();
            let code = self.read_u32()?;
            if let Some(c) = char_from_code(code) {
                push_char(&mut chars, c);
            }
            remaining -= 1;
            proof {
                match wide_chars_at(self.input(), self.cursor(), self.little_endian(), remaining as nat) {
                    Ok(rest) => {
                        if is_code_point(code) {
                            assert(before + (seq![code as char] + rest) =~= chars@ + rest);
                        }
                    },
                    Err(e) => {},
                }
            }
        }
        self.align(4);
        self.position += 4;
        proof {
            assert(chars@ + Seq::<char>::empty() =~= chars@);
        }
        Ok(chars)
    }

    /// Reads `length` elements, each by one call of `read_fn`, which must
    /// leave the decoder in order and on the same payload. Each element is
    /// read from where the one before it ended, the first from where the
    /// cursor stands, and the cursor is left behind the last. Stops at the
    /// first element that `read_fn` fails to read and hands on its error:
    /// the elements before it were read in turn, the failing call began
    /// where the last of them ended, and the cursor is where it left it.
    #[verifier::rlimit(50)]
    pub fn read_array<T, F: Fn(&mut Self) -> Result<T, PybagError>>(
        &mut self,
        length: usize,
        read_fn: F,
    ) -> (r: Result<Vec<T>, PybagError>)
        requires
            old(self).wf(),
            forall|d: &mut Self| d.wf() ==> call_requires(read_fn, (d,)),
            forall|d: &mut Self, out: Result<T, PybagError>|
                d.wf() && call_ensures(read_fn, (d,), out) ==> final(d).wf() && final(d).same_input(d),
        ensures
            final(self).wf(),
            final(self).same_input(old(self)),
            r is Ok ==> r->Ok_0@.len() == length && exists|cursors: Seq<int>|
                #![trigger cursors.len()]
                cursors.len() == length + 1 && cursors[0] == old(self).cursor()
                    && cursors[length as int] == final(self).cursor() && forall|i: int|
                    0 <= i < length ==> 4 <= #[trigger] cursors[i]
                        && exists|d: &mut Self|
                        d.wf() && d.same_input(old(self)) && d.cursor() == cursors[i]
                            && final(d).cursor() == cursors[i + 1] && call_ensures(
                            read_fn,
                            (d,),
                            Ok::<T, PybagError>(r->Ok_0@[i]),
                        ),
            r is Err ==> exists|items: Seq<T>, cursors: Seq<int>|
                #![trigger items.len(), cursors.len()]
                items.len() < length && cursors.len() == items.len() + 1 && cursors[0] == old(self).cursor()
                    && (forall|i: int|
                    0 <= i < items.len() ==> 4 <= #[trigger] cursors[i]
                        && exists|d: &mut Self|
                        d.wf() && d.same_input(old(self)) && d.cursor() == cursors[i]
                            && final(d).cursor() == cursors[i + 1] && call_ensures(
                            read_fn,
                            (d,),
                            Ok::<T, PybagError>(items[i]),
                        )) && exists|d: &mut Self|
                    d.wf() && d.same_input(old(self)) && d.cursor() == cursors[items.len() as int]
                        && final(d).cursor() == final(self).cursor() && call_ensures(
                        read_fn,
                        (d,),
                        Err::<T, PybagError>(r->Err_0),
                    ),
            length == 0 ==> r is Ok && final(self).cursor() == old(self).cursor(),
    {
        let mut result: Vec<T> = Vec::new();
        let mut i: usize = 0;
        let ghost mut cursors: Seq<int> = seq![self.cursor()];
        while i < length
            invariant
                i <= length,
                self.wf(),
                self.same_input(old(self)),
                forall|d: &mut Self| d.wf() ==> call_requires(read_fn, (d,)),
                forall|d: &mut Self, out: Result<T, PybagError>|
                    d.wf() && call_ensures(read_fn, (d,), out) ==> final(d).wf() && final(d).same_input(d),
                result@.len() == i,
                cursors.len() == i + 1,
                cursors[0] == old(self).cursor(),
                cursors[i as int] == self.cursor(),
                forall|j: int|
                    0 <= j < i ==> 4 <= #[trigger] cursors[j]
                        && exists|d: &mut Self|
                        d.wf() && d.same_input(old(self)) && d.cursor() == cursors[j]
                            && final(d).cursor() == cursors[j + 1] && call_ensures(
                            read_fn,
                            (d,),
                            Ok::<T, PybagError>(result@[j]),
                        ),
            decreases length - i,
        {
            let ghost items = result@;
            let ghost before = cursors;
            proof {
                self.lemma_cursor_behind_header();
            }
            match read_fn(self) {
                Ok(item) => {
                    result.push(item);
                    proof {
                        cursors = before.push(self.cursor());
                        assert forall|j: int| 0 <= j < i + 1 implies 4 <= #[trigger] cursors[j] && exists|d: &mut Self|
                            d.wf() && d.same_input(old(self)) && d.cursor() == cursors[j]
                                && final(d).cursor() == cursors[j + 1] && call_ensures(
                                read_fn,
                                (d,),
                                Ok::<T, PybagError>(result@[j]),
                            ) by {
                            if j < i {
                                assert(4 <= before[j]);
                                assert(result@[j] == items[j]);
                                assert(cursors[j] == before[j]);
                                assert(cursors[j + 1] == before[j + 1]);
                            }
                        }
                    }
                },
                Err(e) => {
                    assert(items.len() < length && before.len() == items.len() + 1);
                    return Err(e);
                },
            }
            i += 1;
        }
        Ok(result)
    }

    /// Reads a sequence: a 32-bit count, then that many elements, each by
    /// one call of `read_fn`, the first from behind the count on and each
    /// other from where the one before it ended. Fails where the count
    /// cannot be read, and at the first element that `read_fn` fails to
    /// read, with its error.
    #[verifier::rlimit(50)]
    pub fn read_sequence<T, F: Fn(&mut Self) -> Result<T, PybagError>>(&mut self, read_fn: F) -> (r:
        Result<Vec<T>, PybagError>)
        requires
            old(self).wf(),
            forall|d: &mut Self| d.wf() ==> call_requires(read_fn, (d,)),
            forall|d: &mut Self, out: Result<T, PybagError>|
                d.wf() && call_ensures(read_fn, (d,), out) ==> final(d).wf() && final(d).same_input(d),
        ensures
            final(self).wf(),
            final(self).same_input(old(self)),
            primitive_at(old(self).input(), old(self).cursor(), 4) is Err ==> r is Err && r->Err_0
                == primitive_at(old(self).input(), old(self).cursor(), 4)->Err_0
                && final(self).cursor() == after_primitive(old(self).input(), old(self).cursor(), 4),
            r is Ok ==> primitive_at(old(self).input(), old(self).cursor(), 4) is Ok
                && r->Ok_0@.len() == ordered_u32(
                primitive_at(old(self).input(), old(self).cursor(), 4)->Ok_0,
                old(self).little_endian(),
            ) && exists|cursors: Seq<int>|
                #![trigger cursors.len()]
                cursors.len() == r->Ok_0@.len() + 1 && cursors[0] == after_primitive(
                    old(self).input(),
                    old(self).cursor(),
                    4,
                ) && cursors[r->Ok_0@.len() as int] == final(self).cursor() && forall|i: int|
                    0 <= i < r->Ok_0@.len() ==> 4 <= #[trigger] cursors[i]
                        && exists|d: &mut Self|
                        d.wf() && d.same_input(old(self)) && d.cursor() == cursors[i]
                            && final(d).cursor() == cursors[i + 1] && call_ensures(
                            read_fn,
                            (d,),
                            Ok::<T, PybagError>(r->Ok_0@[i]),
                        ),
            r is Err && primitive_at(old(self).input(), old(self).cursor(), 4) is Ok ==> exists|
                items: Seq<T>,
                cursors: Seq<int>,
            |
                #![trigger items.len(), cursors.len()]
                items.len() < ordered_u32(
                    primitive_at(old(self).input(), old(self).cursor(), 4)->Ok_0,
                    old(self).little_endian(),
                ) && cursors.len() == items.len() + 1 && cursors[0] == after_primitive(
                    old(self).input(),
                    old(self).cursor(),
                    4,
                ) && (forall|i: int|
                    0 <= i < items.len() ==> 4 <= #[trigger] cursors[i]
                        && exists|d: &mut Self|
                        d.wf() && d.same_input(old(self)) && d.cursor() == cursors[i]
                            && final(d).cursor() == cursors[i + 1] && call_ensures(
                            read_fn,
                            (d,),
                            Ok::<T, PybagError>(items[i]),
                        )) && exists|d: &mut Self|
                    d.wf() && d.same_input(old(self)) && d.cursor() == cursors[items.len() as int]
                        && final(d).cursor() == final(self).cursor() && call_ensures(
                        read_fn,
                        (d,),
                        Err::<T, PybagError>(r->Err_0),
                    ),
    {
        let length = self.read_u32()? as usize;
        self.read_array(length, read_fn)
    }

    /// Reads `length` bytes as they are, without alignment.
    #[verifier::rlimit(50)]
    pub fn read_bytes(&mut self, length: usize) -> (r: Result<Vec<u8>, PybagError>)
        requires
            old(self).wf(),
        ensures
            final(self).wf(),
            final(self).same_input(old(self)),
            final(self).cursor() == after_raw(old(self).input(), old(self).cursor(), length as int),
            match raw_at(old(self).input(), old(self).cursor(), length as int) {
                Ok(b) => r is Ok && r->Ok_0@ == b,
                Err(e) => r is Err && r->Err_0 == e,
            },
    {
        self.check_remaining(length)?;
        let start = self.position;
        let bytes = slice_to_vec(slice_subrange(self.data, start, start + length));
        self.position = start + length;
        Ok(bytes)
    }
}

/// `out` with zero bytes added up to the next position whose distance from
/// the end of the header is a multiple of `k`.
pub open spec fn padded(out: Seq<u8>, k: int) -> Seq<u8> {
    out + zeros(payload_aligned(out.len() as int, k) - out.len())
}

/// The code points of `chars` as 32-bit numbers in the byte order given.
pub open spec fn wide_bytes(chars: Seq<char>, little_endian: bool) -> Seq<u8>
    decreases chars.len(),
{
    if chars.len() == 0 {
        Seq::empty()
    } else {
        wide_bytes(chars.drop_last(), little_endian) + u32_ordered(chars.last() as u32, little_endian)
    }
}

/// The encoding of a string: the length of content and terminator, the
/// content, the terminator.
pub open spec fn string_bytes(s: Seq<char>, little_endian: bool) -> Seq<u8> {
    u32_ordered((encode_utf8(s).len() + 1) as u32, little_endian) + encode_utf8(s) + seq![0u8]
}

/// An encoder that builds one payload.
pub struct CdrEncoder {
    data: Vec<u8>,
    is_little_endian: bool,
}

impl CdrEncoder {
    /// The header and what has been written behind it.
    pub closed spec fn output(&self) -> Seq<u8> {
        self.data@
    }

    /// Whether numbers are written least significant byte first.
    pub closed spec fn little_endian(&self) -> bool {
        self.is_little_endian
    }

    /// The output starts with a header.
    pub closed spec fn wf(&self) -> bool {
        self.data@.len() >= 4
    }

    /// An encoder that holds the header only. The second byte of the
    /// header is 1 for little-endian and 0 for big-endian.
    #[verifier::rlimit(50)]
    pub fn new(little_endian: bool) -> (r: Self)
        ensures
            r.wf(),
            r.little_endian() == little_endian,
            r.output() == seq![0u8, if little_endian { 1u8 } else { 0u8 }, 0u8, 0u8],
    {
        let endian_flag: u8 = if little_endian {
            1
        } else {
            0
        };
        let mut data: Vec<u8> = Vec::new();
        data.push(0);
        data.push(endian_flag);
        data.push(0);
        data.push(0);
        assert(data@ =~= seq![0u8, endian_flag, 0u8, 0u8]);
        Self { data, is_little_endian: little_endian }
    }

    /// The bytes written so far, header included.
    pub fn as_bytes(&self) -> (r: &[u8])
        ensures
            r@ == self.output(),
    {
        self.data.as_slice()
    }

    /// The bytes written, header included, giving up the encoder.
    pub fn into_bytes(self) -> (r: Vec<u8>)
        ensures
            r@ == self.output(),
    {
        self.data
    }

    /// Writes zero bytes until the distance from the end of the header is
    /// a multiple of `alignment`.
    #[verifier::rlimit(50)]
    pub fn align(&mut self, alignment: usize)
        requires
            old(self).wf(),
            is_primitive_size(alignment as int),
        ensures
            final(self).wf(),
            final(self).little_endian() == old(self).little_endian(),
            final(self).output() == padded(old(self).output(), alignment as int),
    {
        let remainder = (self.data.len() - 4) % alignment;
        if remainder != 0 {
            let padding = alignment - remainder;
            let mut i: usize = 0;
            while i < padding
                invariant
                    i <= padding,
                    self.is_little_endian == old(self).is_little_endian,
                    self.data@ == old(self).data@ + zeros(i as int),
                decreases padding - i,
            {
                self.data.push(0);
                i += 1;
                assert(self.data@ =~= old(self).data@ + zeros(i as int));
            }
        } else {
            assert(self.data@ =~= old(self).data@ + zeros(0));
        }
    }

    /// Writes a truth value as one byte, 1 or 0.
    pub fn write_bool(&mut self, value: bool)
        requires
            old(self).wf(),
        ensures
            final(self).wf(),
            final(self).little_endian() == old(self).little_endian(),
            final(self).output() == old(self).output().push(if value { 1u8 } else { 0u8 }),
    {
        self.data.push(if value { 1 } else { 0 });
    }

    /// Writes a signed 8-bit number.
    pub fn write_i8(&mut self, value: i8)
        requires
            old(self).wf(),
        ensures
            final(self).wf(),
            final(self).little_endian() == old(self).little_endian(),
            final(self).output() == old(self).output().push(unsigned8(value)),
    {
        self.data.push(to_unsigned8(value));
    }

    /// Writes an unsigned 8-bit number.
    pub fn write_u8(&mut self, value: u8)
        requires
            old(self).wf(),
        ensures
            final(self).wf(),
            final(self).little_endian() == old(self).little_endian(),
            final(self).output() == old(self).output().push(value),
    {
        self.data.push(value);
    }

    /// Writes a byte.
    pub fn write_byte(&mut self, value: u8)
        requires
            old(self).wf(),
        ensures
            final(self).wf(),
            final(self).little_endian() == old(self).little_endian(),
            final(self).output() == old(self).output().push(value),
    {
        self.write_u8(value);
    }

    /// Writes a character as one byte: the low 8 bits of its code point.
    pub fn write_char(&mut self, value: char)
        requires
            old(self).wf(),
        ensures
            final(self).wf(),
            final(self).little_endian() == old(self).little_endian(),
            final(self).output() == old(self).output().push(((value as u32) % 256) as u8),
    {
        self.data.push(((value as u32) % 256) as u8);
    }

    /// Writes a signed 16-bit number, aligned to 2.
    pub fn write_i16(&mut self, value: i16)
        requires
            old(self).wf(),
        ensures
            final(self).wf(),
            final(self).little_endian() == old(self).little_endian(),
            final(self).output() == padded(old(self).output(), 2) + u16_ordered(
                unsigned16(value),
                old(self).little_endian(),
            ),
    {
        self.write_u16(to_unsigned16(value));
    }

    /// Writes an unsigned 16-bit number, aligned to 2.
    pub fn write_u16(&mut self, value: u16)
        requires
            old(self).wf(),
        ensures
            final(self).wf(),
            final(self).little_endian() == old(self).little_endian(),
            final(self).output() == padded(old(self).output(), 2) + u16_ordered(
                value,
                old(self).little_endian(),
            ),
    {
        self.align(2);
        encode_u16(&mut self.data, value, self.is_little_endian);
    }

    /// Writes a signed 32-bit number, aligned to 4.
    pub fn write_i32(&mut self, value: i32)
        requires
            old(self).wf(),
        ensures
            final(self).wf(),
            final(self).little_endian() == old(self).little_endian(),
            final(self).output() == padded(old(self).output(), 4) + u32_ordered(
                unsigned32(value),
                old(self).little_endian(),
            ),
    {
        self.write_u32(to_unsigned32(value));
    }

    /// Writes an unsigned 32-bit number, aligned to 4.
    pub fn write_u32(&mut self, value: u32)
        requires
            old(self).wf(),
        ensures
            final(self).wf(),
            final(self).little_endian() == old(self).little_endian(),
            final(self).output() == padded(old(self).output(), 4) + u32_ordered(
                value,
                old(self).little_endian(),
            ),
    {
        self.align(4);
        encode_u32(&mut self.data, value, self.is_little_endian);
    }

    /// Writes a signed 64-bit number, aligned to 8.
    pub fn write_i64(&mut self, value: i64)
        requires
            old(self).wf(),
        ensures
            final(self).wf(),
            final(self).little_endian() == old(self).little_endian(),
            final(self).output() == padded(old(self).output(), 8) + u64_ordered(
                unsigned64(value),
                old(self).little_endian(),
            ),
    {
        self.write_u64(to_unsigned64(value));
    }

    /// Writes an unsigned 64-bit number, aligned to 8.
    pub fn write_u64(&mut self, value: u64)
        requires
            old(self).wf(),
        ensures
            final(self).wf(),
            final(self).little_endian() == old(self).little_endian(),
            final(self).output() == padded(old(self).output(), 8) + u64_ordered(
                value,
                old(self).little_endian(),
            ),
    {
        self.align(8);
        encode_u64(&mut self.data, value, self.is_little_endian);
    }

    /// Writes the 32 bits of a single-precision number, aligned to 4.
    pub fn write_f32_bits(&mut self, bits: u32)
        requires
            old(self).wf(),
        ensures
            final(self).wf(),
            final(self).little_endian() == old(self).little_endian(),
            final(self).output() == padded(old(self).output(), 4) + u32_ordered(
                bits,
                old(self).little_endian(),
            ),
    {
        self.write_u32(bits);
    }

    /// Writes the 64 bits of a double-precision number, aligned to 8.
    pub fn write_f64_bits(&mut self, bits: u64)
        requires
            old(self).wf(),
        ensures
            final(self).wf(),
            final(self).little_endian() == old(self).little_endian(),
            final(self).output() == padded(old(self).output(), 8) + u64_ordered(
                bits,
                old(self).little_endian(),
            ),
    {
        self.write_u64(bits);
    }

    /// Writes a string: the length of content and terminator as an aligned
    /// 32-bit number, the UTF-8 content, a zero byte.
    #[verifier::rlimit(50)]
    pub fn write_string(&mut self, value: &str)
        requires
            old(self).wf(),
            encode_utf8(value@).len() < u32::MAX,
        ensures
            final(self).wf(),
            final(self).little_endian() == old(self).little_endian(),
            final(self).output() == padded(old(self).output(), 4) + string_bytes(
                value@,
                old(self).little_endian(),
            ),
    {
        let bytes = value.as_bytes();
        self.write_u32((bytes.len() + 1) as u32);
        self.data.extend_from_slice(bytes);
        self.data.push(0);
        assert(self.data@ =~= padded(old(self).data@, 4) + string_bytes(
            value@,
            old(self).is_little_endian,
        ));
    }

    /// Writes a wide string: the count of code points and terminator as
    /// an aligned 32-bit number, each code point as a 32-bit number, a
    /// 32-bit zero.
    #[verifier::rlimit(50)]
    pub fn write_wstring(&mut self, value: &str)
        requires
            old(self).wf(),
            value@.len() < u32::MAX,
        ensures
            final(self).wf(),
            final(self).little_endian() == old(self).little_endian(),
            final(self).output() == padded(old(self).output(), 4) + u32_ordered(
                (value@.len() + 1) as u32,
                old(self).little_endian(),
            ) + wide_bytes(value@, old(self).little_endian()) + zeros(4),
    {
        let chars = crate::text::chars_of(value);
        let count = chars.len();
        self.write_u32((count + 1) as u32);
        let ghost head = self.data@;
        let mut i: usize = 0;
        while i < count
            invariant
                i <= count,
                count == value@.len(),
                chars@ == value@,
                self.is_little_endian == old(self).is_little_endian,
                self.data@ == head + wide_bytes(value@.take(i as int), self.is_little_endian),
            decreases count - i,
        {
            let c = chars[i];
            proof {
                assert(value@.take(i + 1).drop_last() =~= value@.take(i as int));
            }
            encode_u32(&mut self.data, c as u32, self.is_little_endian);
            i += 1;
        }
        assert(value@.take(count as int) =~= value@);
        encode_u32(&mut self.data, 0, self.is_little_endian);
        proof {
            reveal(crate::endian::u32_le);
            reveal(crate::endian::u32_be);
        }
        assert(u32_ordered(0, self.is_little_endian) =~= zeros(4));
    }

    /// Writes bytes as they are, without alignment.
    pub fn write_bytes(&mut self, bytes: &[u8])
        requires
            old(self).wf(),
        ensures
            final(self).wf(),
            final(self).little_endian() == old(self).little_endian(),
            final(self).output() == old(self).output() + bytes@,
    {
        self.data.extend_from_slice(bytes);
    }

    /// Writes the element count of a sequence as an aligned 32-bit number.
    pub fn write_sequence_length(&mut self, length: usize)
        requires
            old(self).wf(),
            length <= u32::MAX,
        ensures
            final(self).wf(),
            final(self).little_endian() == old(self).little_endian(),
            final(self).output() == padded(old(self).output(), 4) + u32_ordered(
                length as u32,
                old(self).little_endian(),
            ),
    {
        self.write_u32(length as u32);
    }
}

impl Default for CdrEncoder {
    /// A little-endian encoder that holds the header only.
    fn default() -> (r: Self)
        ensures
            r.wf(),
            r.little_endian(),
            r.output() == seq![0u8, 1u8, 0u8, 0u8],
    {
        Self::new(true)
    }
}

/// The unsigned number with the same 8 bits as `v`.
#[verifier::rlimit(50)]
pub fn to_unsigned8(v: i8) -> (r: u8)
    ensures
        r == unsigned8(v),
{
    if v >= 0 {
        v as u8
    } else {
        ((v - i8::MIN) as u8) + 0x80
    }
}

/// The unsigned number with the same 16 bits as `v`.
#[verifier::rlimit(50)]
pub fn to_unsigned16(v: i16) -> (r: u16)
    ensures
        r == unsigned16(v),
{
    if v >= 0 {
        v as u16
    } else {
        ((v - i16::MIN) as u16) + 0x8000
    }
}

/// The unsigned number with the same 32 bits as `v`.
#[verifier::rlimit(50)]
pub fn to_unsigned32(v: i32) -> (r: u32)
    ensures
        r == unsigned32(v),
{
    if v >= 0 {
        v as u32
    } else {
        ((v - i32::MIN) as u32) + 0x8000_0000
    }
}

/// The unsigned number with the same 64 bits as `v`.
#[verifier::rlimit(50)]
pub fn to_unsigned64(v: i64) -> (r: u64)
    ensures
        r == unsigned64(v),
{
    if v >= 0 {
        v as u64
    } else {
        ((v - i64::MIN) as u64) + 0x8000_0000_0000_0000
    }
}

/// A primitive of size `k` written behind any output begins at a distance
/// from the end of the header that is a multiple of `k`; fewer than `k`
/// bytes of padding go before it, and what was written before stays.
#[verifier::rlimit(50)]
pub proof fn lemma_primitive_is_aligned(out: Seq<u8>, k: int)
    requires
        out.len() >= 4,
        is_primitive_size(k),
    ensures
        (padded(out, k).len() - 4) % k == 0,
        out.len() <= padded(out, k).len() < out.len() + k,
        padded(out, k).len() == payload_aligned(out.len() as int, k),
        padded(out, k).subrange(0, out.len() as int) == out,
{
    assert(padded(out, k).subrange(0, out.len() as int) =~= out);
}

/// A primitive of size `k` written behind the header and one byte begins
/// at an offset that leaves the same remainder as 4 when divided by `k`.
#[verifier::rlimit(50)]
pub proof fn lemma_alignment_after_one_byte(header: Seq<u8>, first: u8, k: int)
    requires
        header.len() == 4,
        is_primitive_size(k),
    ensures
        (padded(header.push(first), k).len() as int) % k == 4int % k,
        k == 2 ==> padded(header.push(first), k).len() == 6,
        k == 4 ==> padded(header.push(first), k).len() == 8,
        k == 8 ==> padded(header.push(first), k).len() == 12,
{
}

/// What `CdrEncoder::write_string` writes, `CdrDecoder::read_string`
/// reads back: a string that is written and then read at the same cursor
/// comes back unchanged, whatever was written before and whatever
/// follows; the cursor ends behind it. Its encoding is 5 bytes longer than
/// its UTF-8 form.
#[verifier::rlimit(50)]
#[verifier::spinoff_prover]
pub proof fn lemma_string_round_trip(out: Seq<u8>, s: Seq<char>, rest: Seq<u8>, little_endian: bool)
    requires
        out.len() >= 4,
        encode_utf8(s).len() < u32::MAX,
    ensures
        string_bytes(s, little_endian).len() == encode_utf8(s).len() + 5,
        string_at(
            padded(out, 4) + string_bytes(s, little_endian) + rest,
            out.len() as int,
            little_endian,
        ) == Ok::<Seq<char>, StringFault>(s),
        after_string(
            padded(out, 4) + string_bytes(s, little_endian) + rest,
            out.len() as int,
            little_endian,
        ) == padded(out, 4).len() + string_bytes(s, little_endian).len(),
{
    let n = encode_utf8(s).len();
    let data = padded(out, 4) + string_bytes(s, little_endian) + rest;
    let p = payload_aligned(out.len() as int, 4);
    lemma_primitive_is_aligned(out, 4);
    lemma_ordered_round_trip(0, (n + 1) as u32, 0, little_endian);
    let prefix = u32_ordered((n + 1) as u32, little_endian);
    assert(data.subrange(p, p + 4) =~= prefix);
    assert(data.subrange(p + 4, p + 4 + n) =~= encode_utf8(s));
    vstd::utf8::encode_utf8_valid_utf8(s);
    vstd::utf8::encode_utf8_decode_utf8(s);
}

/// A string written first behind the header is read back from behind the
/// header, the empty string too, and the payload is as long as its UTF-8
/// form and 5 bytes more.
pub proof fn lemma_first_string_round_trip(header: Seq<u8>, s: Seq<char>, little_endian: bool)
    requires
        header.len() == 4,
        encode_utf8(s).len() < u32::MAX,
    ensures
        padded(header, 4) == header,
        string_at(header + string_bytes(s, little_endian), 4, little_endian) == Ok::<
            Seq<char>,
            StringFault,
        >(s),
        after_string(header + string_bytes(s, little_endian), 4, little_endian) == 4 + encode_utf8(
            s,
        ).len() + 5,
        (header + string_bytes(s, little_endian)).len() == 4 + encode_utf8(s).len() + 5,
{
    lemma_primitive_is_aligned(header, 4);
    assert(padded(header, 4) =~= header);
    lemma_string_round_trip(header, s, Seq::empty(), little_endian);
    assert(header + string_bytes(s, little_endian) + Seq::<u8>::empty() =~= header + string_bytes(
        s,
        little_endian,
    ));
}

/// The signed number with the same 8 bits as `v`.
#[verifier::rlimit(50)]
pub fn to_signed8(v: u8) -> (r: i8)
    ensures
        r == signed8(v),
{
    if v < 0x80 {
        v as i8
    } else {
        ((v - 0x80) as i8) + i8::MIN
    }
}

/// The signed number with the same 16 bits as `v`.
#[verifier::rlimit(50)]
pub fn to_signed16(v: u16) -> (r: i16)
    ensures
        r == signed16(v),
{
    if v < 0x8000 {
        v as i16
    } else {
        ((v - 0x8000) as i16) + i16::MIN
    }
}

/// The signed number with the same 32 bits as `v`.
#[verifier::rlimit(50)]
pub fn to_signed32(v: u32) -> (r: i32)
    ensures
        r == signed32(v),
{
    if v < 0x8000_0000 {
        v as i32
    } else {
        ((v - 0x8000_0000) as i32) + i32::MIN
    }
}

/// The signed number with the same 64 bits as `v`.
#[verifier::rlimit(50)]
pub fn to_signed64(v: u64) -> (r: i64)
    ensures
        r == signed64(v),
{
    if v < 0x8000_0000_0000_0000 {
        v as i64
    } else {
        ((v - 0x8000_0000_0000_0000) as i64) + i64::MIN
    }
}

} // verus!
