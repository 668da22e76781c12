//! A cursor over one container's index, yielding its indics in on-disk
//! order.

use vstd::prelude::*;

use crate::parsers::{spec_dec_indic, Indic};
use crate::seekable::SeekableSource;
use crate::{container_end, lemma_container_within_current_end, SourceState, TomoError};

verus! {

/// The indic in slot `k` of the index of the container starting at `start`,
/// when that slot lies within the data and decodes.
pub open spec fn spec_indic_at(d: Seq<u8>, start: int, k: int) -> Option<Indic> {
    if 0 <= start && 0 <= k && start + 24 + 24 * k + 24 <= d.len() {
        match spec_dec_indic(d.subrange(start + 24 + 24 * k, start + 24 + 24 * k + 24)) {
            Ok((v, _)) => Some(v),
            Err(_) => None,
        }
    } else {
        None
    }
}

/// What one step of an index walk yields at slot `k` of the container
/// starting at `start`, over a dependable source: the decoded indic, the
/// decoder's own error, or the exact short read where the slot runs past
/// the end of the data.
pub open spec fn spec_index_step(d: Seq<u8>, start: int, k: int) -> Result<Indic, TomoError> {
    let sb = start + 24 + 24 * k;
    if sb + 24 <= d.len() {
        match spec_dec_indic(d.subrange(sb, sb + 24)) {
            Ok((ind, _)) => Ok(ind),
            Err(de) => Err(de),
        }
    } else {
        Err(
            TomoError::UnexpectedEof {
                expected: 24,
                obtained: if sb <= d.len() {
                    (d.len() - sb) as u64
                } else {
                    0u64
                },
            },
        )
    }
}

/// A cursor over the index of one container of one source. On its first
/// step it checks that the index region is a whole number of 24-byte slots
/// and within the per-container limit; each further step seeks to the next
/// slot, reads and decodes one indic, and yields it.
pub struct IndexStream {
    pub container: usize,
    pub inited: bool,
    pub bytes_left: u64,
}

impl IndexStream {
    /// The cursor agrees with a source state: its container exists, and its
    /// remaining byte count is a whole number of slots of that container's
    /// index region.
    pub open spec fn valid<S: SeekableSource>(&self, src: &SourceState<S>) -> bool {
        &&& self.container < src.headers@.len()
        &&& (!self.inited ==> self.bytes_left == 0)
        &&& (self.inited ==> {
            let ib = src.headers@[self.container as int].1.index_bytes;
            &&& self.bytes_left <= ib
            &&& (self.bytes_left > 0 ==> ib % 24 == 0 && (ib - self.bytes_left) % 24 == 0)
        })
    }

    /// Number of indics already yielded.
    pub open spec fn slots_done<S: SeekableSource>(&self, src: &SourceState<S>) -> int {
        if self.inited {
            (src.headers@[self.container as int].1.index_bytes - self.bytes_left) / 24
        } else {
            0
        }
    }

    /// A cursor at the start of the index of container `container`.
    pub fn new(container: usize) -> (r: Self)
        ensures
            r.container == container,
            !r.inited,
            r.bytes_left == 0,
    {
        IndexStream { container, inited: false, bytes_left: 0 }
    }

    /// Yield the next indic of the container's index, `None` exactly when
    /// the index is exhausted — never before and never after a slot remains:
    /// every slot is yielded, or an error ends the stream. Over a dependable
    /// source each step's outcome is the decode of the next 24-byte slot, or
    /// the exact short read where the slot runs past the data. A short or
    /// failing read, an indic that does not decode, or an index region that
    /// is not a whole number of slots (reported as corruption before
    /// anything is read) ends the stream with one error.
    #[verifier::rlimit(60)]
    pub fn next<S: SeekableSource>(&mut self, src: &mut SourceState<S>) -> (r: Option<
        Result<Indic, TomoError>,
    >)
        requires
            old(src).wf(),
            old(self).valid(old(src)),
        ensures
            final(src).wf(),
            final(src).data() == old(src).data(),
            final(src).headers == old(src).headers,
            old(src).offset as int <= old(src).current_end() ==> final(src).offset as int
                <= final(src).current_end(),
            final(src).source.reliable() == old(src).source.reliable(),
            old(src).source.reliable() ==> (r matches Some(item) ==> (item matches Err(e)
                ==> !(e is Io))),
            final(self).container == old(self).container,
            final(self).valid(final(src)),
            ({
                let d = old(src).data();
                let start = old(src).headers@[old(self).container as int].0 as int;
                let ib = old(src).headers@[old(self).container as int].1.index_bytes;
                &&& (!old(self).inited && (ib % 24 != 0 || ib / 24 > 0xFFFFFF) ==> r == Some(
                    Err::<Indic, TomoError>(TomoError::CorruptContainer),
                ))
                &&& (r is None <==> old(self).bytes_left == 0 && (old(self).inited || ib == 0))
                &&& (old(src).source.reliable() && old(self).inited && old(self).bytes_left > 0
                    ==> r == Some(spec_index_step(d, start, old(self).slots_done(old(src)))))
                &&& (old(src).source.reliable() && !old(self).inited && ib % 24 == 0 && ib / 24
                    <= 0xFFFFFF && ib > 0 ==> r == Some(spec_index_step(d, start, 0)))
                &&& match r {
                    None => {
                        // The stream never ends while slots remain: `None`
                        // comes only once the byte budget stood at zero, or
                        // at once on an empty index.
                        &&& old(self).bytes_left == 0
                        &&& (old(self).inited || ib == 0)
                        &&& final(self).inited && final(self).bytes_left == 0
                    },
                    Some(Ok(ind)) => {
                        &&& spec_indic_at(d, start, old(self).slots_done(old(src))) == Some(ind)
                        &&& final(self).inited
                        &&& final(self).slots_done(final(src)) == old(self).slots_done(old(src))
                            + 1
                    },
                    Some(Err(e)) => {
                        &&& final(self).inited && final(self).bytes_left == 0
                        &&& !(e is NotAContainer) && !(e is UnsupportedEncoding)
                    },
                }
            }),
    {
        let c = self.container;
        if !self.inited {
            let pair = self.headers_at(src, c);
            let ib = pair.1.index_bytes;
            if ib % 24 != 0 || ib / 24 > 0xFFFFFF {
                self.inited = true;
                self.bytes_left = 0;
                return Some(Err(TomoError::CorruptContainer));
            }
            self.inited = true;
            self.bytes_left = ib;
        }
        if self.bytes_left == 0 {
            return None;
        }
        let pair = self.headers_at(src, c);
        let start = pair.0;
        let ib = pair.1.index_bytes;
        proof {
            lemma_container_within_current_end(src.headers@, c as int);
        }
        let pos = start + 24 + (ib - self.bytes_left);
        proof {
            let done = (ib - self.bytes_left) / 24;
            vstd::arithmetic::div_mod::lemma_fundamental_div_mod(ib - self.bytes_left, 24);
            assert((ib - self.bytes_left) == 24 * done);
            assert(old(self).slots_done(old(src)) == done) by {
                if !old(self).inited {
                    assert(ib - self.bytes_left == 0);
                    assert(done == 0) by {
                        vstd::arithmetic::div_mod::lemma_fundamental_div_mod_converse_div(
                            0,
                            24,
                            0,
                            0,
                        );
                    }
                }
            }
            assert(pos as int == start as int + 24 + 24 * done);
        }
        match src.seek_to(pos) {
            Ok(()) => {},
            Err(e) => {
                self.bytes_left = 0;
                return Some(Err(e));
            },
        }
        let buf = match src.read(24) {
            Ok(b) => b,
            Err(e) => {
                self.bytes_left = 0;
                return Some(Err(e));
            },
        };
        match Indic::decode(buf.as_slice()) {
            Ok((ind, _)) => {
                proof {
                    let done = (ib - self.bytes_left) / 24;
                    assert((ib - self.bytes_left) == 24 * done);
                    assert((ib - (self.bytes_left - 24)) % 24 == 0) by {
                        vstd::arithmetic::div_mod::lemma_mod_add_multiples_vanish(
                            ib - self.bytes_left,
                            24,
                        );
                    }
                    assert((ib - (self.bytes_left - 24)) / 24 == done + 1) by {
                        vstd::arithmetic::div_mod::lemma_fundamental_div_mod_converse_div(
                            ib - self.bytes_left + 24,
                            24,
                            done + 1,
                            0,
                        );
                    }
                    assert(spec_indic_at(old(src).data(), start as int, done) == Some(ind));
                }
                self.bytes_left = self.bytes_left - 24;
                Some(Ok(ind))
            },
            Err(e) => {
                self.bytes_left = 0;
                Some(Err(e))
            },
        }
    }

    /// The recorded `(start, header)` pair of container `c`.
    fn headers_at<S: SeekableSource>(
        &self,
        src: &SourceState<S>,
        c: usize,
    ) -> (r: (u64, crate::parsers::ContainerHeader))
        requires
            c < src.headers@.len(),
        ensures
            r == src.headers@[c as int],
    {
        src.headers[c]
    }
}

impl<S: SeekableSource> SourceState<S> {
    /// A cursor over the index of container `container` of this source, or
    /// `None` when no such container was loaded.
    pub fn index(&self, container: usize) -> (r: Option<IndexStream>)
        ensures
            match r {
                Some(st) => container < self.headers@.len() && st.container == container
                    && !st.inited && st.valid(self),
                None => container >= self.headers@.len(),
            },
    {
        if container >= self.headers.len() {
            None
        } else {
            Some(IndexStream::new(container))
        }
    }
}

} // verus!
