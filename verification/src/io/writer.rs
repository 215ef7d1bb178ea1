//! Writers that take bytes in order and count them.

use crate::error::PybagError;
use crate::io::reader::align_up;
use vstd::prelude::*;

verus! {

/// `n` zero bytes.
pub open spec fn zeros(n: int) -> Seq<u8> {
    Seq::new(n as nat, |i: int| 0u8)
}

/// A sink for bytes. Implementations outside the library may fail to write;
/// the contracts say what holds when they succeed, and when they are sure
/// to succeed: always, for a writer that cannot fail; for any other, as
/// long as it has room.
pub trait Writer: Sized {
    /// All the bytes taken so far, in order.
    spec fn written(&self) -> Seq<u8>;

    /// Whether writing through this writer cannot fail.
    spec fn infallible(&self) -> bool;

    /// A number of bytes that the writer is sure to take from here on, in
    /// one write or in several, also where it is a writer that can fail.
    spec fn room(&self) -> int;

    /// The count of bytes taken fits the position counter.
    spec fn wf(&self) -> bool;

    proof fn lemma_wf(&self)
        requires
            self.wf(),
        ensures
            self.written().len() <= u64::MAX,
    ;

    /// Takes all of `data`.
    fn write(&mut self, data: &[u8]) -> (r: Result<(), PybagError>)
        requires
            old(self).wf(),
        ensures
            final(self).wf(),
            final(self).infallible() == old(self).infallible(),
            r is Ok ==> final(self).written() == old(self).written() + data@,
            r is Ok ==> final(self).room() + data@.len() >= old(self).room(),
            r is Err ==> !old(self).infallible() && data@.len() > old(self).room(),
    ;

    /// The number of bytes taken so far.
    fn position(&self) -> (r: u64)
        requires
            self.wf(),
        ensures
            r == self.written().len(),
    ;

    /// Writes zero bytes up to the next multiple of `alignment`.
    #[verifier::rlimit(50)]
    fn align(&mut self, alignment: usize)
        requires
            old(self).wf(),
            alignment > 0,
        ensures
            final(self).wf(),
            final(self).infallible() == old(self).infallible(),
            old(self).infallible() || align_up(old(self).written().len() as int, alignment as int)
                - old(self).written().len() <= old(self).room() ==> final(self).written() == old(
                self,
            ).written() + zeros(
                align_up(old(self).written().len() as int, alignment as int) - old(self).written().len(),
            ),
    {
        proof {
            self.lemma_wf();
        }
        let pos = self.position();
        let remainder = (pos % (alignment as u64)) as usize;
        if remainder != 0 {
            let padding = alignment - remainder;
            let fill = vec![0u8; padding];
            assert(fill@ =~= zeros(padding as int));
            let _ = self.write(fill.as_slice());
        } else {
            assert(self.written() + zeros(0) =~= self.written());
        }
    }

    /// Hands on whatever the writer still holds back.
    fn flush(&mut self) -> (r: Result<(), PybagError>)
        requires
            old(self).wf(),
        ensures
            final(self).wf(),
            final(self).infallible() == old(self).infallible(),
            final(self).written() == old(self).written(),
            final(self).room() >= old(self).room(),
            r is Err ==> !old(self).infallible() && old(self).room() < 0,
    ;
}

/// A writer into memory.
pub struct BytesWriter {
    data: Vec<u8>,
}

impl BytesWriter {
    /// A writer that has taken nothing yet.
    pub fn new() -> (r: Self)
        ensures
            r.wf(),
            r.infallible(),
            r.written() == Seq::<u8>::empty(),
    {
        Self { data: Vec::new() }
    }

    /// A writer that has taken nothing yet, with room set aside for
    /// `capacity` bytes.
    pub fn with_capacity(capacity: usize) -> (r: Self)
        ensures
            r.wf(),
            r.infallible(),
            r.written() == Seq::<u8>::empty(),
    {
        Self { data: Vec::with_capacity(capacity) }
    }

    /// The bytes taken so far.
    pub fn as_bytes(&self) -> (r: &[u8])
        ensures
            r@ == self.written(),
    {
        self.data.as_slice()
    }

    /// The bytes taken, giving up the writer.
    pub fn into_bytes(self) -> (r: Vec<u8>)
        ensures
            r@ == self.written(),
    {
        self.data
    }
}

impl Default for BytesWriter {
    fn default() -> (r: Self)
        ensures
            r.wf(),
            r.infallible(),
            r.written() == Seq::<u8>::empty(),
    {
        Self::new()
    }
}

impl Writer for BytesWriter {
    closed spec fn written(&self) -> Seq<u8> {
        self.data@
    }

    closed spec fn infallible(&self) -> bool {
        true
    }

    closed spec fn room(&self) -> int {
        u64::MAX - self.data@.len()
    }

    closed spec fn wf(&self) -> bool {
        true
    }

    proof fn lemma_wf(&self) {
        vstd::std_specs::vec::axiom_spec_len(&self.data);
    }

    fn write(&mut self, data: &[u8]) -> (r: Result<(), PybagError>)
        ensures
            r is Ok,
    {
        self.data.extend_from_slice(data);
        Ok(())
    }

    fn position(&self) -> (r: u64) {
        self.data.len() as u64
    }

    fn flush(&mut self) -> (r: Result<(), PybagError>)
        ensures
            r is Ok,
    {
        Ok(())
    }
}

/// A writer into memory whose bytes can be taken out piece by piece, so
/// that a caller can hand them on, to a file for one, while writing goes
/// on. It counts all bytes it has ever taken, and fails only where that
/// count would not fit 64 bits any more.
pub struct DrainWriter {
    data: Vec<u8>,
    base: u64,
    earlier: Ghost<Seq<u8>>,
}

impl DrainWriter {
    /// The bytes taken by the writer and not yet taken out of it.
    pub closed spec fn kept(&self) -> Seq<u8> {
        self.data@
    }

    /// The bytes taken out of the writer so far.
    pub closed spec fn taken_out(&self) -> Seq<u8> {
        self.earlier@
    }

    /// What the writer has written is what was taken out of it and what
    /// it has kept.
    pub proof fn lemma_written(&self)
        ensures
            self.written() == self.taken_out() + self.kept(),
    {
    }

    /// The writer takes bytes for as long as their count fits 64 bits.
    pub proof fn lemma_room(&self)
        ensures
            self.room() == u64::MAX - self.written().len(),
    {
    }

    /// A writer that has taken nothing yet.
    pub fn new() -> (r: Self)
        ensures
            r.wf(),
            r.written() == Seq::<u8>::empty(),
            r.kept() == Seq::<u8>::empty(),
            r.taken_out() == Seq::<u8>::empty(),
    {
        let r = Self { data: Vec::new(), base: 0, earlier: Ghost(Seq::empty()) };
        assert(r.earlier@ + r.data@ =~= Seq::<u8>::empty());
        r
    }

    /// Takes out the bytes that the writer has kept. What it has written
    /// in all stays the same.
    pub fn drain(&mut self) -> (r: Vec<u8>)
        requires
            old(self).wf(),
        ensures
            final(self).wf(),
            final(self).written() == old(self).written(),
            final(self).infallible() == old(self).infallible(),
            final(self).room() == old(self).room(),
            final(self).kept() == Seq::<u8>::empty(),
            final(self).taken_out() == old(self).taken_out() + r@,
            r@ == old(self).kept(),
    {
        let mut out: Vec<u8> = Vec::new();
        proof {
            vstd::std_specs::vec::axiom_spec_len(&self.data);
        }
        self.base = self.base + self.data.len() as u64;
        out.append(&mut self.data);
        proof {
            self.earlier = Ghost(old(self).earlier@ + old(self).data@);
            assert(self.earlier@ + self.data@ =~= old(self).earlier@ + old(self).data@);
        }
        out
    }
}

impl Writer for DrainWriter {
    closed spec fn written(&self) -> Seq<u8> {
        self.earlier@ + self.data@
    }

    closed spec fn infallible(&self) -> bool {
        false
    }

    closed spec fn room(&self) -> int {
        u64::MAX - (self.earlier@ + self.data@).len()
    }

    closed spec fn wf(&self) -> bool {
        self.base == self.earlier@.len() && self.base + self.data@.len() <= u64::MAX
    }

    proof fn lemma_wf(&self) {
    }

    /// Takes all of `data`, unless the count of bytes would not fit 64
    /// bits any more.
    fn write(&mut self, data: &[u8]) -> (r: Result<(), PybagError>)
        ensures
            r is Ok <==> old(self).written().len() + data@.len() <= u64::MAX,
            final(self).taken_out() == old(self).taken_out(),
            r is Ok ==> final(self).kept() == old(self).kept() + data@,
            r is Err ==> final(self).kept() == old(self).kept(),
    {
        proof {
            vstd::std_specs::vec::axiom_spec_len(&self.data);
        }
        let used = self.base + self.data.len() as u64;
        if data.len() as u64 > u64::MAX - used {
            return Err(PybagError::Io("too many bytes written".to_string()));
        }
        self.data.extend_from_slice(data);
        assert(self.earlier@ + self.data@ =~= old(self).earlier@ + old(self).data@ + data@);
        Ok(())
    }

    fn position(&self) -> (r: u64) {
        proof {
            vstd::std_specs::vec::axiom_spec_len(&self.data);
        }
        self.base + self.data.len() as u64
    }

    fn flush(&mut self) -> (r: Result<(), PybagError>)
        ensures
            r is Ok,
    {
        Ok(())
    }
}

} // verus!
