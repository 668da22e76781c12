//! The byte-source capability the engine reads through.
//!
//! A [`SeekableSource`] is modelled by the byte sequence from its handoff
//! position to its end (`data`) and a cursor (`pos`) measured from the
//! handoff position, which the engine treats as logical offset zero. Reads
//! may return short; a read returns no bytes only at or past the end of the
//! data. Seeking forward past the end is allowed — what lies there can never
//! be read — and seeking back is bounded by the handoff position.
//!
//! [`Seekable`] is the in-memory implementation over an owned byte vector.

use vstd::prelude::*;

verus! {

/// A failure of the underlying byte source. The engine surfaces it as
/// `TomoError::Io`.
#[derive(Clone, Copy, Debug, PartialEq, Eq, Structural)]
pub struct SourceFault;

/// A byte source with asynchronous-style reading and relative seeking,
/// reduced to the capability set the engine requires.
pub trait SeekableSource: Sized {
    /// The bytes of this source from its handoff position to its end.
    spec fn data(&self) -> Seq<u8>;

    /// The current read position, measured from the handoff position.
    spec fn pos(&self) -> int;

    /// Whether this source is dependable: its operations never fail, and a
    /// read hands back everything available up to what was asked. The
    /// in-memory source always is; a source wrapping fallible or short-read
    /// I/O need not be.
    spec fn reliable(&self) -> bool;

    /// A source is addressable: its data fits the u64 offset space.
    proof fn data_bounded(&self)
        ensures
            self.data().len() <= u64::MAX,
    ;

    /// Read up to `want` bytes at the current position. May return fewer
    /// bytes than asked; returns no bytes only when `want` is zero or the
    /// position is at or past the end of the data. A reliable source
    /// returns exactly what is there, up to `want`.
    fn read_some(&mut self, want: usize) -> (r: Result<Vec<u8>, SourceFault>)
        requires
            0 <= old(self).pos(),
        ensures
            final(self).reliable() == old(self).reliable(),
            old(self).reliable() ==> r is Ok && (r matches Ok(b) ==> b@.len() == (
            if old(self).pos() >= old(self).data().len() {
                0int
            } else if want <= old(self).data().len() - old(self).pos() {
                want as int
            } else {
                old(self).data().len() - old(self).pos()
            })),
            match r {
                Ok(b) => {
                    &&& final(self).data() == old(self).data()
                    &&& b@.len() <= want
                    &&& final(self).pos() == old(self).pos() + b@.len()
                    &&& (b@.len() > 0 ==> old(self).pos() + b@.len() <= old(self).data().len()
                        && b@ == old(self).data().subrange(
                        old(self).pos(),
                        old(self).pos() + b@.len(),
                    ))
                    &&& (b@.len() == 0 ==> want == 0 || old(self).pos() >= old(
                        self,
                    ).data().len())
                },
                Err(_) => final(self).data() == old(self).data() && final(self).pos() == old(
                    self,
                ).pos(),
            },
    ;

    /// Move the position forward by `delta` bytes, possibly past the end of
    /// the data.
    fn seek_forward(&mut self, delta: u64) -> (r: Result<(), SourceFault>)
        requires
            0 <= old(self).pos(),
            old(self).pos() + delta <= u64::MAX,
        ensures
            final(self).reliable() == old(self).reliable(),
            old(self).reliable() ==> r is Ok,
            match r {
                Ok(()) => final(self).data() == old(self).data() && final(self).pos() == old(
                    self,
                ).pos() + delta,
                Err(_) => final(self).data() == old(self).data() && final(self).pos() == old(
                    self,
                ).pos(),
            },
    ;

    /// Move the position back by `delta` bytes, never before the handoff
    /// position.
    fn seek_back(&mut self, delta: u64) -> (r: Result<(), SourceFault>)
        requires
            delta <= old(self).pos(),
        ensures
            final(self).reliable() == old(self).reliable(),
            old(self).reliable() ==> r is Ok,
            match r {
                Ok(()) => final(self).data() == old(self).data() && final(self).pos() == old(
                    self,
                ).pos() - delta,
                Err(_) => final(self).data() == old(self).data() && final(self).pos() == old(
                    self,
                ).pos(),
            },
    ;
}

/// An in-memory byte source: an owned byte vector with a cursor. Its reads
/// are never short and it never fails.
pub struct Seekable {
    pub bytes: Vec<u8>,
    pub pos: u64,
}

impl Seekable {
    /// Wrap an owned byte vector as a source positioned at its start.
    pub fn new(bytes: Vec<u8>) -> (r: Self)
        ensures
            r.data() == bytes@,
            r.pos() == 0,
    {
        Seekable { bytes, pos: 0 }
    }
}

impl SeekableSource for Seekable {
    open spec fn data(&self) -> Seq<u8> {
        self.bytes@
    }

    open spec fn pos(&self) -> int {
        self.pos as int
    }

    open spec fn reliable(&self) -> bool {
        true
    }

    proof fn data_bounded(&self) {
        vstd::std_specs::vec::axiom_spec_len(&self.bytes);
    }

    fn read_some(&mut self, want: usize) -> (r: Result<Vec<u8>, SourceFault>) {
        let len = self.bytes.len();
        if self.pos >= len as u64 {
            return Ok(Vec::new());
        }
        let start = self.pos as usize;
        let avail = len - start;
        let n = if want < avail {
            want
        } else {
            avail
        };
        let mut out: Vec<u8> = Vec::new();
        let mut k: usize = 0;
        while k < n
            invariant
                k <= n,
                start + n <= self.bytes@.len(),
                self.bytes@.len() <= usize::MAX,
                out@ =~= self.bytes@.subrange(start as int, start + k),
            decreases n - k,
        {
            out.push(self.bytes[start + k]);
            k = k + 1;
        }
        self.pos = self.pos + n as u64;
        Ok(out)
    }

    fn seek_forward(&mut self, delta: u64) -> (r: Result<(), SourceFault>) {
        self.pos = self.pos + delta;
        Ok(())
    }

    fn seek_back(&mut self, delta: u64) -> (r: Result<(), SourceFault>) {
        self.pos = self.pos - delta;
        Ok(())
    }
}

} // verus!
