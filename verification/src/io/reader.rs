//! Positional readers over bytes held in memory.

use crate::endian::{decode_u16, decode_u32, decode_u64, le_u16, le_u32, le_u64};
use crate::error::PybagError;
use vstd::prelude::*;
use vstd::slice::slice_subrange;
use vstd::slice::slice_to_vec;

verus! {

/// What a read of `n` bytes at `pos` in `data` yields: the bytes, or the
/// error that names how many were asked for and how many were left.
pub open spec fn read_at(data: Seq<u8>, pos: int, n: int) -> Result<Seq<u8>, PybagError> {
    if pos + n <= data.len() {
        Ok(data.subrange(pos, pos + n))
    } else {
        Err(PybagError::BufferTooSmall { needed: n as usize, available: (data.len() - pos) as usize })
    }
}

/// Where the cursor stands after a read of `n` bytes at `pos`: behind the
/// bytes read, or unmoved when the read fails.
pub open spec fn cursor_after(data: Seq<u8>, pos: int, n: int) -> int {
    if pos + n <= data.len() {
        pos + n
    } else {
        pos
    }
}

/// The bytes that a peek of at most `n` bytes at `pos` shows.
pub open spec fn peek_at(data: Seq<u8>, pos: int, n: int) -> Seq<u8> {
    if pos + n <= data.len() {
        data.subrange(pos, pos + n)
    } else {
        data.subrange(pos, data.len() as int)
    }
}

/// `target` brought into the range of valid cursor positions of `data`.
pub open spec fn clamp_cursor(data: Seq<u8>, target: int) -> int {
    if target < 0 {
        0
    } else if target > data.len() {
        data.len() as int
    } else {
        target
    }
}

/// The least position at or after `pos` that is a multiple of `alignment`.
pub open spec fn align_up(pos: int, alignment: int) -> int {
    if pos % alignment == 0 {
        pos
    } else {
        pos + alignment - pos % alignment
    }
}

/// `r` is the outcome `expected`, the bytes compared by their view.
pub open spec fn is_read_result(r: Result<Vec<u8>, PybagError>, expected: Result<Seq<u8>, PybagError>) -> bool {
    match expected {
        Ok(bytes) => r is Ok && r->Ok_0@ == bytes,
        Err(e) => r is Err && r->Err_0 == e,
    }
}

/// A positional reader with seeking over a fixed run of bytes.
pub trait Reader: Sized {
    /// All the bytes the reader ranges over.
    spec fn contents(&self) -> Seq<u8>;

    /// The cursor, counted from the first byte.
    spec fn cursor(&self) -> int;

    /// The cursor lies within the bytes.
    spec fn wf(&self) -> bool;

    proof fn lemma_wf(&self)
        requires
            self.wf(),
        ensures
            0 <= self.cursor() <= self.contents().len() <= usize::MAX,
    ;

    /// Reads exactly `n` bytes and moves the cursor behind them.
    fn read(&mut self, n: usize) -> (r: Result<Vec<u8>, PybagError>)
        requires
            old(self).wf(),
        ensures
            final(self).wf(),
            final(self).contents() == old(self).contents(),
            is_read_result(r, read_at(old(self).contents(), old(self).cursor(), n as int)),
            final(self).cursor() == cursor_after(old(self).contents(), old(self).cursor(), n as int),
    ;

    /// Fills `buf` with the next bytes and moves the cursor behind them. On
    /// failure neither `buf` nor the cursor changes.
    fn read_exact(&mut self, buf: &mut [u8]) -> (r: Result<(), PybagError>)
        requires
            old(self).wf(),
        ensures
            final(self).wf(),
            final(self).contents() == old(self).contents(),
            final(self).cursor() == cursor_after(old(self).contents(), old(self).cursor(), old(buf)@.len() as int),
            match read_at(old(self).contents(), old(self).cursor(), old(buf)@.len() as int) {
                Ok(bytes) => r is Ok && final(buf)@ == bytes,
                Err(e) => r is Err && r->Err_0 == e && final(buf)@ == old(buf)@,
            },
    ;

    /// The next `n` bytes, or as many as are left, without moving the cursor.
    fn peek(&mut self, n: usize) -> (r: Result<Vec<u8>, PybagError>)
        requires
            old(self).wf(),
        ensures
            final(self).wf(),
            final(self).contents() == old(self).contents(),
            final(self).cursor() == old(self).cursor(),
            r is Ok,
            r->Ok_0@ == peek_at(old(self).contents(), old(self).cursor(), n as int),
    ;

    /// Moves the cursor to `pos`, or to the end if `pos` lies behind it.
    fn seek(&mut self, pos: u64) -> (r: Result<u64, PybagError>)
        requires
            old(self).wf(),
        ensures
            final(self).wf(),
            final(self).contents() == old(self).contents(),
            final(self).cursor() == clamp_cursor(old(self).contents(), pos as int),
            r is Ok,
            r->Ok_0 == final(self).cursor(),
    ;

    /// Moves the cursor by `offset`, stopping at either end.
    fn seek_from_current(&mut self, offset: i64) -> (r: Result<u64, PybagError>)
        requires
            old(self).wf(),
        ensures
            final(self).wf(),
            final(self).contents() == old(self).contents(),
            final(self).cursor() == clamp_cursor(old(self).contents(), old(self).cursor() + offset),
            r is Ok,
            r->Ok_0 == final(self).cursor(),
    ;

    /// Moves the cursor to `offset` from the end, stopping at either end.
    fn seek_from_end(&mut self, offset: i64) -> (r: Result<u64, PybagError>)
        requires
            old(self).wf(),
        ensures
            final(self).wf(),
            final(self).contents() == old(self).contents(),
            final(self).cursor() == clamp_cursor(old(self).contents(), old(self).contents().len() + offset),
            r is Ok,
            r->Ok_0 == final(self).cursor(),
    ;

    /// The cursor.
    fn position(&self) -> (r: u64)
        requires
            self.wf(),
        ensures
            r == self.cursor(),
    ;

    /// The number of bytes the reader ranges over.
    fn len(&self) -> (r: u64)
        requires
            self.wf(),
        ensures
            r == self.contents().len(),
    ;

    /// Whether the reader ranges over no bytes at all.
    fn is_empty(&self) -> (r: bool)
        requires
            self.wf(),
        ensures
            r == (self.contents().len() == 0),
    {
        self.len() == 0
    }

    /// Moves the cursor forward to the next multiple of `alignment`, or to
    /// the end if that lies behind it.
    #[verifier::rlimit(50)]
    fn align(&mut self, alignment: usize)
        requires
            old(self).wf(),
            alignment > 0,
        ensures
            final(self).wf(),
            final(self).contents() == old(self).contents(),
            final(self).cursor() == clamp_cursor(
                old(self).contents(),
                align_up(old(self).cursor(), alignment as int),
            ),
    {
        proof {
            self.lemma_wf();
        }
        let pos = self.position();
        let remainder = pos % (alignment as u64);
        if remainder != 0 {
            let padding = alignment as u64 - remainder;
            if padding > u64::MAX - pos {
                let end = self.len();
                let _ = self.seek(end);
            } else {
                let _ = self.seek(pos + padding);
            }
        }
    }

    /// Reads all the bytes from the cursor to the end.
    #[verifier::rlimit(50)]
    fn read_to_end(&mut self) -> (r: Result<Vec<u8>, PybagError>)
        requires
            old(self).wf(),
        ensures
            final(self).wf(),
            final(self).contents() == old(self).contents(),
            final(self).cursor() == old(self).contents().len(),
            r is Ok,
            r->Ok_0@ == old(self).contents().subrange(old(self).cursor(), old(self).contents().len() as int),
    {
        proof {
            self.lemma_wf();
        }
        let remaining = (self.len() - self.position()) as usize;
        self.read(remaining)
    }
}

/// The cursor position that `offset` from `base` denotes within `len`
/// bytes, stopping at either end.
#[verifier::rlimit(50)]
fn offset_position(base: u64, offset: i64, len: u64) -> (r: u64)
    requires
        base <= len,
    ensures
        r == if base + offset < 0 {
            0
        } else if base + offset > len {
            len as int
        } else {
            base + offset
        },
{
    if offset >= 0 {
        let forward = offset as u64;
        if forward > len - base {
            len
        } else {
            base + forward
        }
    } else {
        let back: u64 = if offset == i64::MIN {
            0x8000_0000_0000_0000
        } else {
            (-offset) as u64
        };
        if back > base {
            0
        } else {
            base - back
        }
    }
}

/// Copies the bytes of `src` into `buf`, which has the same length.
fn copy_into(buf: &mut [u8], src: &[u8])
    requires
        old(buf)@.len() == src@.len(),
    ensures
        final(buf)@ == src@,
{
    let mut i: usize = 0;
    while i < src.len()
        invariant
            i <= src.len(),
            buf@.len() == src@.len(),
            buf@.take(i as int) == src@.take(i as int),
        decreases src.len() - i,
    {
        buf[i] = src[i];
        assert(buf@.take(i + 1) =~= src@.take(i + 1));
        i += 1;
    }
    assert(buf@.take(src@.len() as int) =~= buf@);
    assert(src@.take(src@.len() as int) =~= src@);
}

/// The part of `data` from `start` on of length `n`, or as much of it as
/// there is, as a vector of its own.
#[verifier::rlimit(50)]
fn copy_range(data: &[u8], start: usize, n: usize) -> (r: Vec<u8>)
    requires
        start <= data@.len(),
    ensures
        r@ == peek_at(data@, start as int, n as int),
{
    let end = if n > data.len() - start {
        data.len()
    } else {
        start + n
    };
    slice_to_vec(slice_subrange(data, start, end))
}

/// A reader that owns its bytes.
pub struct BytesReader {
    data: Vec<u8>,
    position: u64,
}

impl BytesReader {
    /// A reader over `data`, with the cursor at the first byte.
    pub fn new(data: Vec<u8>) -> (r: Self)
        ensures
            r.wf(),
            r.contents() == data@,
            r.cursor() == 0,
    {
        Self { data, position: 0 }
    }

    /// A reader over a copy of `data`, with the cursor at the first byte.
    pub fn from_slice(data: &[u8]) -> (r: Self)
        ensures
            r.wf(),
            r.contents() == data@,
            r.cursor() == 0,
    {
        Self { data: slice_to_vec(data), position: 0 }
    }

    /// All the bytes of the reader.
    pub fn data(&self) -> (r: &[u8])
        ensures
            r@ == self.contents(),
    {
        self.data.as_slice()
    }

    /// The bytes from the cursor to the end.
    pub fn remaining(&self) -> (r: &[u8])
        requires
            self.wf(),
        ensures
            r@ == self.contents().subrange(self.cursor(), self.contents().len() as int),
    {
        slice_subrange(self.data.as_slice(), self.position as usize, self.data.len())
    }
}

impl Reader for BytesReader {
    closed spec fn contents(&self) -> Seq<u8> {
        self.data@
    }

    closed spec fn cursor(&self) -> int {
        self.position as int
    }

    closed spec fn wf(&self) -> bool {
        self.position <= self.data@.len()
    }

    proof fn lemma_wf(&self) {
        vstd::std_specs::vec::axiom_spec_len(&self.data);
    }

    fn read(&mut self, n: usize) -> (r: Result<Vec<u8>, PybagError>) {
        let start = self.position as usize;
        if n > self.data.len() - start {
            return Err(PybagError::BufferTooSmall { needed: n, available: self.data.len() - start });
        }
        let out = slice_to_vec(slice_subrange(self.data.as_slice(), start, start + n));
        self.position = (start + n) as u64;
        Ok(out)
    }

    fn read_exact(&mut self, buf: &mut [u8]) -> (r: Result<(), PybagError>) {
        let start = self.position as usize;
        let n = buf.len();
        if n > self.data.len() - start {
            return Err(PybagError::BufferTooSmall { needed: n, available: self.data.len() - start });
        }
        copy_into(buf, slice_subrange(self.data.as_slice(), start, start + n));
        self.position = (start + n) as u64;
        Ok(())
    }

    fn peek(&mut self, n: usize) -> (r: Result<Vec<u8>, PybagError>) {
        proof {
            self.lemma_wf();
        }
        Ok(copy_range(self.data.as_slice(), self.position as usize, n))
    }

    fn seek(&mut self, pos: u64) -> (r: Result<u64, PybagError>) {
        let len = self.data.len() as u64;
        self.position = if pos > len {
            len
        } else {
            pos
        };
        Ok(self.position)
    }

    fn seek_from_current(&mut self, offset: i64) -> (r: Result<u64, PybagError>) {
        self.position = offset_position(self.position, offset, self.data.len() as u64);
        Ok(self.position)
    }

    fn seek_from_end(&mut self, offset: i64) -> (r: Result<u64, PybagError>) {
        let len = self.data.len() as u64;
        self.position = offset_position(len, offset, len);
        Ok(self.position)
    }

    fn position(&self) -> (r: u64) {
        self.position
    }

    fn len(&self) -> (r: u64) {
        self.data.len() as u64
    }
}

/// A reader over the bytes of a file that is mapped into memory. Mapping the
/// file is the caller's business; the reader borrows the mapped bytes.
pub struct FileReader<'a> {
    mmap: &'a [u8],
    position: u64,
}

impl<'a> FileReader<'a> {
    /// A reader over the mapped bytes, with the cursor at the first byte.
    pub fn new(mmap: &'a [u8]) -> (r: Self)
        ensures
            r.wf(),
            r.contents() == mmap@,
            r.cursor() == 0,
            r.in_bounds(),
            r.bytes() == mmap@,
            r.offset() == 0,
    {
        Self { mmap, position: 0 }
    }

    /// The `len` bytes at `start`, if the mapped bytes reach that far.
    pub fn get_slice(&self, start: usize, len: usize) -> (r: Option<&[u8]>)
        ensures
            r is Some <==> start + len <= self.contents().len(),
            r is Some ==> r->0@ == self.contents().subrange(start as int, start + len),
    {
        if start <= self.mmap.len() && len <= self.mmap.len() - start {
            Some(slice_subrange(self.mmap, start, start + len))
        } else {
            None
        }
    }

    /// All the mapped bytes.
    pub fn mmap(&self) -> (r: &[u8])
        ensures
            r@ == self.contents(),
    {
        self.mmap
    }

    /// The two views of the reader agree.
    pub proof fn lemma_views_agree(&self)
        ensures
            self.bytes() == self.contents(),
            self.offset() == self.cursor(),
            self.in_bounds() == self.wf(),
    {
    }
}

impl<'a> Reader for FileReader<'a> {
    closed spec fn contents(&self) -> Seq<u8> {
        self.mmap@
    }

    closed spec fn cursor(&self) -> int {
        self.position as int
    }

    closed spec fn wf(&self) -> bool {
        self.position <= self.mmap@.len()
    }

    proof fn lemma_wf(&self) {
        assert(self.mmap@.len() == self.mmap.len());
    }

    fn read(&mut self, n: usize) -> (r: Result<Vec<u8>, PybagError>) {
        let start = self.position as usize;
        if n > self.mmap.len() - start {
            return Err(PybagError::BufferTooSmall { needed: n, available: self.mmap.len() - start });
        }
        let out = slice_to_vec(slice_subrange(self.mmap, start, start + n));
        self.position = (start + n) as u64;
        Ok(out)
    }

    fn read_exact(&mut self, buf: &mut [u8]) -> (r: Result<(), PybagError>) {
        let start = self.position as usize;
        let n = buf.len();
        if n > self.mmap.len() - start {
            return Err(PybagError::BufferTooSmall { needed: n, available: self.mmap.len() - start });
        }
        copy_into(buf, slice_subrange(self.mmap, start, start + n));
        self.position = (start + n) as u64;
        Ok(())
    }

    fn peek(&mut self, n: usize) -> (r: Result<Vec<u8>, PybagError>) {
        proof {
            self.lemma_wf();
        }
        Ok(copy_range(self.mmap, self.position as usize, n))
    }

    fn seek(&mut self, pos: u64) -> (r: Result<u64, PybagError>) {
        let len = self.mmap.len() as u64;
        self.position = if pos > len {
            len
        } else {
            pos
        };
        Ok(self.position)
    }

    fn seek_from_current(&mut self, offset: i64) -> (r: Result<u64, PybagError>) {
        self.position = offset_position(self.position, offset, self.mmap.len() as u64);
        Ok(self.position)
    }

    fn seek_from_end(&mut self, offset: i64) -> (r: Result<u64, PybagError>) {
        let len = self.mmap.len() as u64;
        self.position = offset_position(len, offset, len);
        Ok(self.position)
    }

    fn position(&self) -> (r: u64) {
        self.position
    }

    fn len(&self) -> (r: u64) {
        self.mmap.len() as u64
    }
}

impl<'a> SliceReader for FileReader<'a> {
    closed spec fn bytes(&self) -> Seq<u8> {
        self.mmap@
    }

    closed spec fn offset(&self) -> int {
        self.position as int
    }

    closed spec fn in_bounds(&self) -> bool {
        self.position <= self.mmap@.len()
    }

    proof fn lemma_in_bounds(&self) {
        assert(self.mmap@.len() == self.mmap.len());
    }

    fn slice(&mut self, n: usize) -> (r: Result<&[u8], PybagError>) {
        let start = self.position as usize;
        if n > self.mmap.len() - start {
            return Err(PybagError::BufferTooSmall { needed: n, available: self.mmap.len() - start });
        }
        self.position = (start + n) as u64;
        Ok(slice_subrange(self.mmap, start, start + n))
    }

    fn peek_slice(&self, n: usize) -> (r: Result<&[u8], PybagError>) {
        let start = self.position as usize;
        if n > self.mmap.len() - start {
            return Err(PybagError::BufferTooSmall { needed: n, available: self.mmap.len() - start });
        }
        Ok(slice_subrange(self.mmap, start, start + n))
    }

    fn data(&self) -> (r: &[u8]) {
        self.mmap
    }

    fn skip(&mut self, n: usize) -> (r: Result<(), PybagError>) {
        let start = self.position as usize;
        if n > self.mmap.len() - start {
            return Err(PybagError::BufferTooSmall { needed: n, available: self.mmap.len() - start });
        }
        self.position = (start + n) as u64;
        Ok(())
    }
}

/// `r` is the outcome `expected`, the bytes compared by their view.
pub open spec fn is_slice_result(r: Result<&[u8], PybagError>, expected: Result<Seq<u8>, PybagError>) -> bool {
    match expected {
        Ok(bytes) => r is Ok && r->Ok_0@ == bytes,
        Err(e) => r is Err && r->Err_0 == e,
    }
}

/// A cursor that hands out borrowed parts of its bytes instead of copies.
pub trait SliceReader: Sized {
    /// All the bytes under the cursor's range.
    spec fn bytes(&self) -> Seq<u8>;

    /// The cursor, counted from the first byte.
    spec fn offset(&self) -> int;

    /// The cursor lies within the bytes.
    spec fn in_bounds(&self) -> bool;

    proof fn lemma_in_bounds(&self)
        requires
            self.in_bounds(),
        ensures
            0 <= self.offset() <= self.bytes().len() <= usize::MAX,
    ;

    /// The next `n` bytes; the cursor moves behind them.
    fn slice(&mut self, n: usize) -> (r: Result<&[u8], PybagError>)
        requires
            old(self).in_bounds(),
        ensures
            final(self).in_bounds(),
            final(self).bytes() == old(self).bytes(),
            is_slice_result(r, read_at(old(self).bytes(), old(self).offset(), n as int)),
            final(self).offset() == cursor_after(old(self).bytes(), old(self).offset(), n as int),
    ;

    /// The next `n` bytes; the cursor stays.
    fn peek_slice(&self, n: usize) -> (r: Result<&[u8], PybagError>)
        requires
            self.in_bounds(),
        ensures
            is_slice_result(r, read_at(self.bytes(), self.offset(), n as int)),
    ;

    /// All the bytes, whatever the cursor.
    fn data(&self) -> (r: &[u8])
        ensures
            r@ == self.bytes(),
    ;

    /// Moves the cursor over the next `n` bytes. Fails, and leaves the
    /// cursor where it is, when fewer are left.
    fn skip(&mut self, n: usize) -> (r: Result<(), PybagError>)
        requires
            old(self).in_bounds(),
        ensures
            final(self).in_bounds(),
            final(self).bytes() == old(self).bytes(),
            final(self).offset() == cursor_after(old(self).bytes(), old(self).offset(), n as int),
            match read_at(old(self).bytes(), old(self).offset(), n as int) {
                Ok(_) => r is Ok,
                Err(e) => r is Err && r->Err_0 == e,
            },
    ;

    /// Reads one byte.
    fn read_u8(&mut self) -> (r: Result<u8, PybagError>)
        requires
            old(self).in_bounds(),
        ensures
            final(self).in_bounds(),
            final(self).bytes() == old(self).bytes(),
            final(self).offset() == cursor_after(old(self).bytes(), old(self).offset(), 1),
            match read_at(old(self).bytes(), old(self).offset(), 1) {
                Ok(b) => r is Ok && r->Ok_0 == b[0],
                Err(e) => r is Err && r->Err_0 == e,
            },
    {
        proof {
            self.lemma_in_bounds();
        }
        let slice = self.slice(1)?;
        Ok(slice[0])
    }

    /// Reads a 16-bit number, least significant byte first.
    fn read_u16_le(&mut self) -> (r: Result<u16, PybagError>)
        requires
            old(self).in_bounds(),
        ensures
            final(self).in_bounds(),
            final(self).bytes() == old(self).bytes(),
            final(self).offset() == cursor_after(old(self).bytes(), old(self).offset(), 2),
            match read_at(old(self).bytes(), old(self).offset(), 2) {
                Ok(b) => r is Ok && r->Ok_0 == le_u16(b),
                Err(e) => r is Err && r->Err_0 == e,
            },
    {
        proof {
            self.lemma_in_bounds();
        }
        let slice = self.slice(2)?;
        Ok(decode_u16(slice, true))
    }

    /// Reads a 32-bit number, least significant byte first.
    fn read_u32_le(&mut self) -> (r: Result<u32, PybagError>)
        requires
            old(self).in_bounds(),
        ensures
            final(self).in_bounds(),
            final(self).bytes() == old(self).bytes(),
            final(self).offset() == cursor_after(old(self).bytes(), old(self).offset(), 4),
            match read_at(old(self).bytes(), old(self).offset(), 4) {
                Ok(b) => r is Ok && r->Ok_0 == le_u32(b),
                Err(e) => r is Err && r->Err_0 == e,
            },
    {
        proof {
            self.lemma_in_bounds();
        }
        let slice = self.slice(4)?;
        Ok(decode_u32(slice, true))
    }

    /// Reads a 64-bit number, least significant byte first.
    fn read_u64_le(&mut self) -> (r: Result<u64, PybagError>)
        requires
            old(self).in_bounds(),
        ensures
            final(self).in_bounds(),
            final(self).bytes() == old(self).bytes(),
            final(self).offset() == cursor_after(old(self).bytes(), old(self).offset(), 8),
            match read_at(old(self).bytes(), old(self).offset(), 8) {
                Ok(b) => r is Ok && r->Ok_0 == le_u64(b),
                Err(e) => r is Err && r->Err_0 == e,
            },
    {
        proof {
            self.lemma_in_bounds();
        }
        let slice = self.slice(8)?;
        Ok(decode_u64(slice, true))
    }
}

/// A cursor over borrowed bytes.
#[derive(Clone, Copy)]
pub struct SliceView<'a> {
    data: &'a [u8],
    position: usize,
}

impl<'a> SliceView<'a> {
    /// A cursor at the first byte of `data`.
    pub fn new(data: &'a [u8]) -> (r: Self)
        ensures
            r.in_bounds(),
            r.bytes() == data@,
            r.offset() == 0,
    {
        Self { data, position: 0 }
    }

    /// The number of bytes from the cursor to the end.
    pub fn remaining(&self) -> (r: usize)
        requires
            self.in_bounds(),
        ensures
            r == self.bytes().len() - self.offset(),
    {
        self.data.len() - self.position
    }

    /// Whether the cursor stands at the end.
    pub fn is_empty(&self) -> (r: bool)
        requires
            self.in_bounds(),
        ensures
            r == (self.offset() == self.bytes().len()),
    {
        self.position >= self.data.len()
    }

    /// The cursor.
    pub fn position(&self) -> (r: usize)
        ensures
            r == self.offset(),
    {
        self.position
    }

    /// Moves the cursor to `pos`, or to the end if `pos` lies behind it.
    pub fn set_position(&mut self, pos: usize)
        ensures
            final(self).in_bounds(),
            final(self).bytes() == old(self).bytes(),
            final(self).offset() == clamp_cursor(old(self).bytes(), pos as int),
    {
        self.position = if pos > self.data.len() {
            self.data.len()
        } else {
            pos
        };
    }

    /// The next `n` bytes, borrowed for as long as the bytes under the
    /// cursor live; the cursor moves behind them.
    pub fn take(&mut self, n: usize) -> (r: Result<&'a [u8], PybagError>)
        requires
            old(self).in_bounds(),
        ensures
            final(self).in_bounds(),
            final(self).bytes() == old(self).bytes(),
            is_slice_result(r, read_at(old(self).bytes(), old(self).offset(), n as int)),
            final(self).offset() == cursor_after(old(self).bytes(), old(self).offset(), n as int),
    {
        let start = self.position;
        let data: &'a [u8] = self.data;
        if n > data.len() - start {
            return Err(PybagError::BufferTooSmall { needed: n, available: data.len() - start });
        }
        self.position = start + n;
        Ok(slice_subrange(data, start, start + n))
    }
}

impl<'a> SliceReader for SliceView<'a> {
    closed spec fn bytes(&self) -> Seq<u8> {
        self.data@
    }

    closed spec fn offset(&self) -> int {
        self.position as int
    }

    closed spec fn in_bounds(&self) -> bool {
        self.position <= self.data@.len()
    }

    proof fn lemma_in_bounds(&self) {
        assert(self.data@.len() == self.data.len());
    }

    fn slice(&mut self, n: usize) -> (r: Result<&[u8], PybagError>) {
        let start = self.position;
        if n > self.data.len() - start {
            return Err(PybagError::BufferTooSmall { needed: n, available: self.data.len() - start });
        }
        self.position = start + n;
        Ok(slice_subrange(self.data, start, start + n))
    }

    fn peek_slice(&self, n: usize) -> (r: Result<&[u8], PybagError>) {
        let start = self.position;
        if n > self.data.len() - start {
            return Err(PybagError::BufferTooSmall { needed: n, available: self.data.len() - start });
        }
        Ok(slice_subrange(self.data, start, start + n))
    }

    fn data(&self) -> (r: &[u8]) {
        self.data
    }

    fn skip(&mut self, n: usize) -> (r: Result<(), PybagError>) {
        if n > self.data.len() - self.position {
            return Err(
                PybagError::BufferTooSmall { needed: n, available: self.data.len() - self.position },
            );
        }
        self.position = self.position + n;
        Ok(())
    }
}

} // verus!
