//! The checksum of chunks.

use vstd::prelude::*;

verus! {

/// `crc32fast::Hasher`: a CRC-32 checksum in progress.
#[verifier::external_type_specification]
#[verifier::external_body]
pub struct ExHasher(crc32fast::Hasher);

/// The checksum that a `crc32fast::Hasher` has come to: what its
/// `finalize` returns.
pub uninterp spec fn hasher_sum(h: crc32fast::Hasher) -> u32;

/// The checksum register moved on by one bit: shifted right, and the
/// polynomial of CRC-32 (IEEE), bits reflected, taken in where the bit
/// shifted out was set.
pub open spec fn crc_bit(reg: u32) -> u32 {
    if reg & 1 == 1 {
        (reg >> 1) ^ 0xEDB8_8320
    } else {
        reg >> 1
    }
}

/// The checksum register when it has taken one byte: the byte goes into
/// the lowest bits, and the register moves on by eight bits.
pub open spec fn crc_byte(reg: u32, byte: u8) -> u32 {
    crc_bit(crc_bit(crc_bit(crc_bit(crc_bit(crc_bit(crc_bit(crc_bit(reg ^ (byte as u32)))))))))
}

/// The checksum register when it has taken the bytes of `data` in order.
pub open spec fn crc_register(reg: u32, data: Seq<u8>) -> u32
    decreases data.len(),
{
    if data.len() == 0 {
        reg
    } else {
        crc_byte(crc_register(reg, data.drop_last()), data.last())
    }
}

/// The CRC-32 checksum (IEEE) of some bytes followed by `data`, where
/// `sum` is the checksum of the bytes before: a checksum is its register
/// with every bit turned over.
pub open spec fn crc32_extended(sum: u32, data: Seq<u8>) -> u32 {
    !crc_register(!sum, data)
}

/// The CRC-32 checksum (IEEE) of `data`: the register starts with every
/// bit set, takes the bytes, and has every bit turned over at the end.
pub open spec fn crc32(data: Seq<u8>) -> u32 {
    crc32_extended(0, data)
}

/// The register that takes `a` and then `b` has taken `a + b`.
pub proof fn lemma_crc_register_in_pieces(reg: u32, a: Seq<u8>, b: Seq<u8>)
    ensures
        crc_register(crc_register(reg, a), b) == crc_register(reg, a + b),
    decreases b.len(),
{
    if b.len() == 0 {
        assert(a + b =~= a);
    } else {
        lemma_crc_register_in_pieces(reg, a, b.drop_last());
        assert((a + b).drop_last() =~= a + b.drop_last());
        assert((a + b).last() == b.last());
    }
}

/// A checksum taken piece by piece is the checksum of the pieces put
/// together, and taking no bytes leaves a checksum as it is.
pub proof fn lemma_crc_in_pieces(sum: u32, a: Seq<u8>, b: Seq<u8>)
    ensures
        crc32_extended(crc32_extended(sum, a), b) == crc32_extended(sum, a + b),
        crc32_extended(sum, Seq::empty()) == sum,
        crc32_extended(crc32(a), b) == crc32(a + b),
{
    let mid = crc_register(!sum, a);
    assert(!!mid == mid) by (bit_vector);
    assert(!!sum == sum) by (bit_vector);
    lemma_crc_register_in_pieces(!sum, a, b);
    let fresh = crc_register(!0u32, a);
    assert(!!fresh == fresh) by (bit_vector);
    lemma_crc_register_in_pieces(!0u32, a, b);
}

/// `crc32fast::Hasher::new`: a hasher whose checksum is 0.
#[verifier::external_body]
fn hasher_new() -> (r: crc32fast::Hasher)
    ensures
        hasher_sum(r) == 0,
{
    crc32fast::Hasher::new()
}

/// `crc32fast::Hasher::update`: the hasher takes the bytes, and its
/// checksum goes on from where it was: it becomes the CRC-32 (IEEE) of
/// all the bytes taken so far. That holds whichever implementation the
/// outside crate picks for the processor; all of them compute this one
/// checksum.
#[verifier::external_body]
fn hasher_update(h: &mut crc32fast::Hasher, data: &[u8])
    ensures
        hasher_sum(*final(h)) == crc32_extended(hasher_sum(*old(h)), data@),
{
    h.update(data)
}

/// `crc32fast::Hasher::finalize`: the checksum that the hasher has come
/// to.
#[verifier::external_body]
fn hasher_finalize(h: crc32fast::Hasher) -> (r: u32)
    ensures
        r == hasher_sum(h),
{
    h.finalize()
}

/// A checksum computed piece by piece.
pub struct Crc32Hasher {
    hasher: crc32fast::Hasher,
}

impl Crc32Hasher {
    /// The checksum of the bytes taken so far.
    pub closed spec fn sum(&self) -> u32 {
        hasher_sum(self.hasher)
    }

    /// A checksum over no bytes yet.
    pub fn new() -> (r: Self)
        ensures
            r.sum() == 0,
    {
        Self { hasher: hasher_new() }
    }

    /// Takes more bytes into the checksum.
    pub fn update(&mut self, data: &[u8])
        ensures
            final(self).sum() == crc32_extended(old(self).sum(), data@),
    {
        hasher_update(&mut self.hasher, data);
    }

    /// The checksum of all bytes taken.
    pub fn finalize(self) -> (r: u32)
        ensures
            r == self.sum(),
    {
        hasher_finalize(self.hasher)
    }

    /// Starts over with no bytes.
    pub fn reset(&mut self)
        ensures
            final(self).sum() == 0,
    {
        self.hasher = hasher_new();
    }
}

impl Default for Crc32Hasher {
    fn default() -> (r: Self)
        ensures
            r.sum() == 0,
    {
        Self::new()
    }
}

/// The CRC-32 checksum of `data`.
pub fn compute_crc(data: &[u8]) -> (r: u32)
    ensures
        r == crc32(data@),
{
    let mut hasher = hasher_new();
    hasher_update(&mut hasher, data);
    hasher_finalize(hasher)
}

/// What a check of `data` against a recorded checksum yields: nothing to
/// object to if the check is switched off, if no checksum was recorded
/// (`expected` is 0), or if the checksums agree; else the mismatch.
pub open spec fn crc_checked(enabled: bool, expected: u32, data: Seq<u8>) -> Result<(), crate::error::ErrorKind> {
    if enabled && expected != 0 && crc32(data) != expected {
        Err(crate::error::ErrorKind::CrcMismatch { expected, computed: crc32(data) })
    } else {
        Ok(())
    }
}

/// Bytes pass the check against their own checksum; against any other
/// checksum but 0 they fail it, if the check is switched on.
pub proof fn lemma_crc_check(data: Seq<u8>, recorded: u32)
    ensures
        crc_checked(true, crc32(data), data) is Ok,
        recorded != 0 && recorded != crc32(data) ==> crc_checked(true, recorded, data) == Err::<
            (),
            crate::error::ErrorKind,
        >(crate::error::ErrorKind::CrcMismatch { expected: recorded, computed: crc32(data) }),
        crc_checked(false, recorded, data) is Ok,
        crc_checked(true, 0, data) is Ok,
{
}

/// Registers that take a byte each and come to the same register were
/// the same up to the bytes they took.
pub proof fn lemma_crc_byte_apart(r1: u32, b1: u8, r2: u32, b2: u8)
    requires
        crc_byte(r1, b1) == crc_byte(r2, b2),
    ensures
        r1 == r2 ==> b1 == b2,
        b1 == b2 ==> r1 == r2,
{
    let x0 = r1 ^ (b1 as u32);
    let y0 = r2 ^ (b2 as u32);
    let x1 = crc_bit(x0);
    let y1 = crc_bit(y0);
    let x2 = crc_bit(x1);
    let y2 = crc_bit(y1);
    let x3 = crc_bit(x2);
    let y3 = crc_bit(y2);
    let x4 = crc_bit(x3);
    let y4 = crc_bit(y3);
    let x5 = crc_bit(x4);
    let y5 = crc_bit(y4);
    let x6 = crc_bit(x5);
    let y6 = crc_bit(y5);
    let x7 = crc_bit(x6);
    let y7 = crc_bit(y6);
    lemma_crc_bit_apart(x7, y7);
    lemma_crc_bit_apart(x6, y6);
    lemma_crc_bit_apart(x5, y5);
    lemma_crc_bit_apart(x4, y4);
    lemma_crc_bit_apart(x3, y3);
    lemma_crc_bit_apart(x2, y2);
    lemma_crc_bit_apart(x1, y1);
    lemma_crc_bit_apart(x0, y0);
    assert(x0 == y0);
    let c1 = b1 as u32;
    let c2 = b2 as u32;
    assert(r1 ^ c1 == r2 ^ c2 && r1 == r2 ==> c1 == c2) by (bit_vector);
    assert(r1 ^ c1 == r2 ^ c2 && c1 == c2 ==> r1 == r2) by (bit_vector);
}

/// Registers that move on by one bit to the same register were the same.
pub proof fn lemma_crc_bit_apart(x: u32, y: u32)
    ensures
        crc_bit(x) == crc_bit(y) ==> x == y,
{
    assert((if x & 1 == 1 {
        (x >> 1) ^ 0xEDB8_8320u32
    } else {
        x >> 1
    }) == (if y & 1 == 1 {
        (y >> 1) ^ 0xEDB8_8320u32
    } else {
        y >> 1
    }) ==> x == y) by (bit_vector);
}

/// Bytes that differ from others in one place and nowhere else bring the
/// register to another value.
pub proof fn lemma_register_tells_apart(reg: u32, a: Seq<u8>, b: Seq<u8>, at: int)
    requires
        a.len() == b.len(),
        0 <= at < a.len(),
        a[at] != b[at],
        forall|j: int| 0 <= j < a.len() && j != at ==> a[j] == b[j],
    ensures
        crc_register(reg, a) != crc_register(reg, b),
    decreases a.len(),
{
    let ra = crc_register(reg, a.drop_last());
    let rb = crc_register(reg, b.drop_last());
    if at == a.len() - 1 {
        assert(a.drop_last() =~= b.drop_last());
    } else {
        lemma_register_tells_apart(reg, a.drop_last(), b.drop_last(), at);
    }
    if crc_byte(ra, a.last()) == crc_byte(rb, b.last()) {
        lemma_crc_byte_apart(ra, a.last(), rb, b.last());
    }
}

/// A change in one byte changes the checksum: a single flipped bit is
/// such a change. So bytes that are changed in one place fail the check
/// against the checksum recorded for them, unless that checksum is 0,
/// which stands for none.
pub proof fn lemma_changed_byte_is_found(data: Seq<u8>, changed: Seq<u8>, at: int)
    requires
        data.len() == changed.len(),
        0 <= at < data.len(),
        data[at] != changed[at],
        forall|j: int| 0 <= j < data.len() && j != at ==> data[j] == changed[j],
    ensures
        crc32(data) != crc32(changed),
        crc32(data) != 0 ==> crc_checked(true, crc32(data), changed) == Err::<
            (),
            crate::error::ErrorKind,
        >(
            crate::error::ErrorKind::CrcMismatch {
                expected: crc32(data),
                computed: crc32(changed),
            },
        ),
{
    let start = !0u32;
    lemma_register_tells_apart(start, data, changed, at);
    let x = crc_register(start, data);
    let y = crc_register(start, changed);
    assert(!x == !y ==> x == y) by (bit_vector);
}

/// What a check of a computed checksum against a recorded one yields:
/// nothing to object to if the check is switched off, if no checksum was
/// recorded (`expected` is 0), or if the two agree; else the mismatch.
pub open spec fn crc_compared(enabled: bool, expected: u32, computed: u32) -> Result<
    (),
    crate::error::ErrorKind,
> {
    if enabled && expected != 0 && computed != expected {
        Err(crate::error::ErrorKind::CrcMismatch { expected, computed })
    } else {
        Ok(())
    }
}

/// Checks a computed checksum against the one recorded.
pub fn crc_verdict(enabled: bool, expected: u32, computed: u32) -> (r: Result<
    (),
    crate::error::PybagError,
>)
    ensures
        match crc_compared(enabled, expected, computed) {
            Ok(_) => r is Ok,
            Err(e) => r is Err && r->Err_0@ == e,
        },
{
    if enabled && expected != 0 && computed != expected {
        return Err(crate::error::PybagError::CrcMismatch { expected, computed });
    }
    Ok(())
}

/// Checks `data` against the checksum recorded for it.
pub fn check_crc(enabled: bool, expected: u32, data: &[u8]) -> (r: Result<(), crate::error::PybagError>)
    ensures
        match crc_checked(enabled, expected, data@) {
            Ok(_) => r is Ok,
            Err(e) => r is Err && r->Err_0@ == e,
        },
{
    if enabled && expected != 0 {
        crc_verdict(enabled, expected, compute_crc(data))
    } else {
        Ok(())
    }
}

} // verus!
