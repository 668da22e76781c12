//! Tomo: a reader for a binary archive format built around lazy, seek-driven
//! access to one or more containers concatenated in a single byte stream.
//!
//! The crate is organised as:
//! - [`bytes`]: little-endian integer codecs on byte sequences;
//! - [`parsers`]: the container-format data model and its binary codec;
//! - [`seekable`]: the byte-source capability the engine reads through;
//! - the engine itself (`SourceState`, `Tomo`) in this module;
//! - [`stream`]: cursors that walk container indexes and path entries.

use vstd::prelude::*;

pub mod bytes;
pub mod parsers;
pub mod seekable;
pub mod stream;

use crate::parsers::{spec_dec_container_header, spec_magic, ContainerHeader};
use crate::seekable::SeekableSource;

pub use stream::PathsStream;

verus! {

/// Everything the engine can report to a caller.
///
/// - `Io` wraps any failure of the underlying byte source.
/// - `NotAContainer` is raised when the magic does not match at a position
///   where a container must start; `offset` is that position.
/// - `CorruptContainer` covers internal inconsistencies: a bad enum tag, a
///   broken invariant, non-monotonic lookup offsets, entry bounds outside the
///   entries region.
/// - `UnexpectedEof` is raised when an exact-length read obtained fewer bytes
///   than requested.
/// - `UnsupportedEncoding` is raised when an entry that must be read uses an
///   encoding the core does not decode.
#[derive(Clone, Copy, Debug, PartialEq, Eq, Structural)]
pub enum TomoError {
    Io,
    NotAContainer { offset: u64 },
    CorruptContainer,
    UnexpectedEof { expected: u64, obtained: u64 },
    UnsupportedEncoding { encoding: u8 },
}

/// What `load_next_container` learned from its end-of-source probe.
#[derive(Clone, Copy, Debug, PartialEq, Eq, Structural)]
pub enum SourceStatus {
    MoreToGo,
    EndOfSource,
}

/// Logical end position of a container that starts at `start`: its 24-byte
/// header, then its index and entries regions.
pub open spec fn container_end(start: int, h: ContainerHeader) -> int {
    start + 24 + h.index_bytes + h.entries_bytes
}

/// Discovered headers form a chain: the first container starts at logical
/// offset zero, each further one starts where the previous ended, and every
/// end fits in a u64.
pub open spec fn headers_linked(hs: Seq<(u64, ContainerHeader)>) -> bool {
    &&& (hs.len() > 0 ==> hs[0].0 == 0)
    &&& (forall|i: int|
        0 < i < hs.len() ==> (#[trigger] hs[i].0) as int == container_end(
            hs[i - 1].0 as int,
            hs[i - 1].1,
        ))
    &&& (forall|i: int|
        0 <= i < hs.len() ==> container_end((#[trigger] hs[i].0) as int, hs[i].1) <= u64::MAX)
}

/// End of the last discovered container, or zero when none is.
pub open spec fn spec_current_end(hs: Seq<(u64, ContainerHeader)>) -> int {
    if hs.len() == 0 {
        0
    } else {
        container_end(hs[hs.len() - 1].0 as int, hs[hs.len() - 1].1)
    }
}

/// A linked chain extends by one container exactly at its current end.
pub proof fn lemma_headers_push(hs: Seq<(u64, ContainerHeader)>, start: u64, h: ContainerHeader)
    requires
        headers_linked(hs),
        start as int == spec_current_end(hs),
        container_end(start as int, h) <= u64::MAX,
    ensures
        headers_linked(hs.push((start, h))),
        spec_current_end(hs.push((start, h))) == container_end(start as int, h),
{
    let hs2 = hs.push((start, h));
    assert(forall|i: int| 0 <= i < hs.len() ==> hs2[i] == hs[i]);
    assert(hs2[hs2.len() - 1] == (start, h));
}

/// Along a linked chain, container starts never precede earlier ends.
pub proof fn lemma_headers_ends_monotonic(hs: Seq<(u64, ContainerHeader)>, i: int, j: int)
    requires
        headers_linked(hs),
        0 <= i <= j < hs.len(),
    ensures
        container_end(hs[i].0 as int, hs[i].1) <= container_end(hs[j].0 as int, hs[j].1),
        hs[i].0 <= hs[j].0,
    decreases j - i,
{
    if i < j {
        lemma_headers_ends_monotonic(hs, i, j - 1);
        assert(hs[j].0 as int == container_end(hs[j - 1].0 as int, hs[j - 1].1));
    }
}

/// Every container's end lies at or before the chain's current end.
pub proof fn lemma_container_within_current_end(hs: Seq<(u64, ContainerHeader)>, i: int)
    requires
        headers_linked(hs),
        0 <= i < hs.len(),
    ensures
        container_end(hs[i].0 as int, hs[i].1) <= spec_current_end(hs),
        0 <= hs[i].0,
{
    lemma_headers_ends_monotonic(hs, i, hs.len() - 1);
}

/// The container header found at position `start` of the data, provided one
/// parses there and its container fits the u64 offset space.
pub open spec fn spec_next_header(d: Seq<u8>, start: int) -> Option<ContainerHeader> {
    if 0 <= start && start + 24 <= d.len() {
        match spec_dec_container_header(d.subrange(start, start + 24)) {
            Ok((h, _)) => if container_end(start, h) <= u64::MAX {
                Some(h)
            } else {
                None
            },
            Err(_) => None,
        }
    } else {
        None
    }
}

/// The headers a full load discovers on data `d`, starting from the chain
/// `hs`: containers are taken one after the other until one ends at or past
/// the end of the data; `None` when a header fails to parse first.
pub open spec fn spec_load(d: Seq<u8>, hs: Seq<(u64, ContainerHeader)>) -> Option<
    Seq<(u64, ContainerHeader)>,
>
    decreases d.len() - spec_current_end(hs),
{
    let ce = spec_current_end(hs);
    match spec_next_header(d, ce) {
        None => None,
        Some(h) => {
            let hs2 = hs.push((ce as u64, h));
            if container_end(ce, h) >= d.len() {
                Some(hs2)
            } else {
                spec_load(d, hs2)
            }
        },
    }
}

/// The error a container load reports at container start `ce` of data `d`
/// when the source itself is dependable: the header read comes up short
/// against the end of the data, the magic or the mode fails to parse, or
/// the container's claimed sizes overflow the u64 offset space.
pub open spec fn spec_load_failure(d: Seq<u8>, ce: int) -> TomoError {
    if ce + 24 > u64::MAX {
        TomoError::CorruptContainer
    } else if ce + 24 > d.len() {
        TomoError::UnexpectedEof {
            expected: 24,
            obtained: if ce <= d.len() {
                (d.len() - ce) as u64
            } else {
                0u64
            },
        }
    } else {
        match spec_dec_container_header(d.subrange(ce, ce + 24)) {
            Err(TomoError::NotAContainer { .. }) => TomoError::NotAContainer { offset: ce as u64 },
            Err(e) => e,
            Ok((h, _)) => TomoError::CorruptContainer,
        }
    }
}

/// Per-source bookkeeping: the owned seekable source, the logical cursor
/// `offset` counting bytes consumed since handoff, and the ordered list of
/// `(container_start, header)` pairs discovered on this source.
///
/// The engine maintains [`SourceState::wf`] across every operation, and
/// [`SourceState::ready`] — the cursor at or before the current end — as the
/// precondition of [`SourceState::load_next_container`]. After a failed load
/// the state may no longer be `ready`; its headers are unchanged and the
/// streams still work, but no further container can be loaded.
pub struct SourceState<S: SeekableSource> {
    pub source: S,
    pub offset: u64,
    pub headers: Vec<(u64, ContainerHeader)>,
}

impl<S: SeekableSource> SourceState<S> {
    /// The bytes of the underlying source, from handoff to end.
    pub open spec fn data(&self) -> Seq<u8> {
        self.source.data()
    }

    /// End of the last discovered container, or zero when none is.
    pub open spec fn current_end(&self) -> int {
        spec_current_end(self.headers@)
    }

    /// The state's invariant: the source's position agrees with the logical
    /// cursor, and the discovered headers form a chain from offset zero.
    pub open spec fn wf(&self) -> bool {
        &&& self.source.pos() == self.offset as int
        &&& headers_linked(self.headers@)
    }

    /// Ready to load another container: well formed, with the cursor at or
    /// before the end of what was discovered.
    pub open spec fn ready(&self) -> bool {
        self.wf() && self.offset as int <= self.current_end()
    }

    fn new(source: S) -> (r: Self)
        requires
            source.pos() == 0,
        ensures
            r.ready(),
            r.offset == 0,
            r.headers@.len() == 0,
            r.source == source,
    {
        SourceState { source, offset: 0, headers: Vec::new() }
    }

    /// The number of containers discovered on this source.
    pub fn len(&self) -> (r: usize)
        ensures
            r == self.headers@.len(),
    {
        self.headers.len()
    }

    /// Seek the source so that the logical cursor lands on `target`, which
    /// must have been reached before (or still lie ahead); the cursor only
    /// retraces ground between the handoff position and what was consumed.
    pub(crate) fn seek_to(&mut self, target: u64) -> (r: Result<(), TomoError>)
        requires
            old(self).wf(),
        ensures
            final(self).wf(),
            final(self).headers == old(self).headers,
            final(self).data() == old(self).data(),
            old(self).offset == target ==> r is Ok,
            final(self).source.reliable() == old(self).source.reliable(),
            old(self).source.reliable() ==> r is Ok,
            match r {
                Ok(()) => final(self).offset == target,
                Err(e) => e is Io && final(self).offset == old(self).offset,
            },
    {
        if target > self.offset {
            let delta = target - self.offset;
            match self.source.seek_forward(delta) {
                Ok(()) => {
                    self.offset = target;
                    Ok(())
                },
                Err(_) => Err(TomoError::Io),
            }
        } else if target < self.offset {
            let delta = self.offset - target;
            match self.source.seek_back(delta) {
                Ok(()) => {
                    self.offset = target;
                    Ok(())
                },
                Err(_) => Err(TomoError::Io),
            }
        } else {
            Ok(())
        }
    }

    /// Read exactly `n` bytes at the cursor. A short read is surfaced as
    /// `UnexpectedEof` carrying what was asked and what came, with the
    /// cursor advanced over the bytes that did come; the cursor never moves
    /// backwards.
    pub(crate) fn read(&mut self, n: u64) -> (r: Result<Vec<u8>, TomoError>)
        requires
            old(self).wf(),
            old(self).offset + n <= u64::MAX,
            n <= usize::MAX,
        ensures
            final(self).wf(),
            final(self).headers == old(self).headers,
            final(self).data() == old(self).data(),
            old(self).offset <= final(self).offset <= old(self).offset + n,
            final(self).source.reliable() == old(self).source.reliable(),
            old(self).source.reliable() ==> ({
                let d = old(self).data();
                let off = old(self).offset as int;
                let avail = if off <= d.len() {
                    d.len() - off
                } else {
                    0int
                };
                &&& (r is Ok <==> n == 0 || off + n <= d.len())
                &&& (r matches Err(e) ==> e == (TomoError::UnexpectedEof {
                    expected: n,
                    obtained: avail as u64,
                }) && final(self).offset as int == off + avail)
            }),
            match r {
                Ok(b) => {
                    &&& b@.len() == n
                    &&& final(self).offset == old(self).offset + n
                    &&& (n > 0 ==> old(self).offset + n <= old(self).data().len() && b@ == old(
                        self,
                    ).data().subrange(old(self).offset as int, old(self).offset + n))
                },
                Err(e) => {
                    &&& (e matches TomoError::UnexpectedEof { expected, obtained } ==> expected
                        == n && obtained < n && final(self).offset == old(self).offset
                        + obtained)
                    &&& (e is Io ==> final(self).offset == old(self).offset)
                    &&& (e is UnexpectedEof || e is Io)
                },
            },
    {
        let got = match self.source.read_some(n as usize) {
            Ok(b) => b,
            Err(_) => {
                return Err(TomoError::Io);
            },
        };
        self.offset = self.offset + got.len() as u64;
        if (got.len() as u64) < n {
            return Err(TomoError::UnexpectedEof { expected: n, obtained: got.len() as u64 });
        }
        Ok(got)
    }

    /// Load the next container from this source.
    ///
    /// Seeks to the end of the last known container (or stays at the handoff
    /// position when none is loaded yet), reads and decodes a container
    /// header there, skips the container's index and entries regions by
    /// seeking, records the header, and probes one byte to tell a clean end
    /// of the source from further data.
    ///
    /// On success the cursor stands exactly at the recorded container's end,
    /// and the answer is `EndOfSource` exactly when that position is at or
    /// past the end of the data. On failure the discovered headers are
    /// unchanged and the cursor has only moved forward.
    pub fn load_next_container(&mut self) -> (r: Result<SourceStatus, TomoError>)
        requires
            old(self).ready(),
        ensures
            final(self).wf(),
            final(self).data() == old(self).data(),
            final(self).offset >= old(self).offset,
            final(self).source.reliable() == old(self).source.reliable(),
            old(self).source.reliable() ==> ({
                let d = old(self).data();
                let ce = old(self).current_end();
                &&& (r is Ok <==> spec_next_header(d, ce) is Some)
                &&& (r matches Err(e) ==> e == spec_load_failure(d, ce))
            }),
            match r {
                Ok(st) => {
                    let d = old(self).data();
                    let ce = old(self).current_end();
                    let h = spec_next_header(d, ce)->Some_0;
                    &&& spec_next_header(d, ce) is Some
                    &&& final(self).headers@ == old(self).headers@.push((ce as u64, h))
                    &&& final(self).offset as int == container_end(ce, h)
                    &&& final(self).ready()
                    &&& final(self).offset as int == final(self).current_end()
                    &&& (st is EndOfSource <==> final(self).offset >= d.len())
                },
                Err(e) => {
                    let d = old(self).data();
                    let ce = old(self).current_end();
                    &&& final(self).headers == old(self).headers
                    &&& (e matches TomoError::NotAContainer { offset } ==> offset == ce && ce
                        + 24 <= d.len() && d.subrange(ce, ce + 24).take(7) != spec_magic())
                    &&& (e matches TomoError::UnexpectedEof { expected, obtained } ==> expected
                        == 24 && obtained < 24)
                    &&& (e is CorruptContainer ==> ce + 24 > u64::MAX || (ce + 24 <= d.len()
                        && match spec_dec_container_header(d.subrange(ce, ce + 24)) {
                        Err(de) => de is CorruptContainer,
                        Ok((h, _)) => container_end(ce, h) > u64::MAX,
                    }))
                    &&& !(e is UnsupportedEncoding)
                },
            },
    {
        let ce: u64 = if self.headers.len() == 0 {
            0
        } else {
            let last = self.headers[self.headers.len() - 1];
            proof {
                lemma_container_within_current_end(self.headers@, self.headers@.len() - 1);
            }
            last.0 + 24 + last.1.index_bytes + last.1.entries_bytes
        };
        match self.seek_to(ce) {
            Ok(()) => {},
            Err(e) => {
                return Err(e);
            },
        }
        if ce > u64::MAX - 24 {
            return Err(TomoError::CorruptContainer);
        }
        let buf = match self.read(24) {
            Ok(b) => b,
            Err(e) => {
                return Err(e);
            },
        };
        let header = match ContainerHeader::decode(buf.as_slice()) {
            Ok((h, _)) => h,
            Err(e) => {
                let e2 = match e {
                    TomoError::NotAContainer { .. } => TomoError::NotAContainer { offset: ce },
                    other => other,
                };
                return Err(e2);
            },
        };
        let payload = match header.index_bytes.checked_add(header.entries_bytes) {
            Some(p) => p,
            None => {
                return Err(TomoError::CorruptContainer);
            },
        };
        let new_end = match (ce + 24).checked_add(payload) {
            Some(v) => v,
            None => {
                return Err(TomoError::CorruptContainer);
            },
        };
        match self.source.seek_forward(payload) {
            Ok(()) => {},
            Err(_) => {
                return Err(TomoError::Io);
            },
        }
        self.offset = new_end;
        let probe = match self.source.read_some(1) {
            Ok(b) => b,
            Err(_) => {
                return Err(TomoError::Io);
            },
        };
        let k = probe.len();
        if k > 0 {
            proof {
                self.source.data_bounded();
            }
            self.offset = new_end + k as u64;
            match self.source.seek_back(k as u64) {
                Ok(()) => {
                    self.offset = new_end;
                },
                Err(_) => {
                    return Err(TomoError::Io);
                },
            }
        }
        proof {
            lemma_headers_push(self.headers@, ce, header);
        }
        self.headers.push((ce, header));
        Ok(
            if k == 0 {
                SourceStatus::EndOfSource
            } else {
                SourceStatus::MoreToGo
            },
        )
    }
}

/// Total number of containers discovered across a run of source states.
pub open spec fn spec_total_containers<S: SeekableSource>(ss: Seq<SourceState<S>>) -> int
    decreases ss.len(),
{
    if ss.len() == 0 {
        0
    } else {
        spec_total_containers(ss.drop_last()) + ss.last().headers@.len()
    }
}

/// The running total over a prefix never exceeds the total, and totals are
/// never negative.
pub proof fn lemma_total_prefix<S: SeekableSource>(ss: Seq<SourceState<S>>, i: int)
    requires
        0 <= i <= ss.len(),
    ensures
        0 <= spec_total_containers(ss.subrange(0, i)) <= spec_total_containers(ss),
    decreases ss.len() - i,
{
    lemma_total_nonneg(ss.subrange(0, i));
    if i == ss.len() {
        assert(ss.subrange(0, i) =~= ss);
    } else {
        lemma_total_prefix(ss, i + 1);
        let p = ss.subrange(0, i + 1);
        assert(p.len() > 0);
        assert(p.drop_last() =~= ss.subrange(0, i));
        assert(p.last() == ss[i]);
    }
}

/// Totals are never negative.
pub proof fn lemma_total_nonneg<S: SeekableSource>(ss: Seq<SourceState<S>>)
    ensures
        spec_total_containers(ss) >= 0,
    decreases ss.len(),
{
    if ss.len() > 0 {
        lemma_total_nonneg(ss.drop_last());
    }
}

/// Extending the run by one source adds that source's containers.
pub proof fn lemma_total_push<S: SeekableSource>(ss: Seq<SourceState<S>>, s: SourceState<S>)
    ensures
        spec_total_containers(ss.push(s)) == spec_total_containers(ss) + s.headers@.len(),
{
    assert(ss.push(s).drop_last() =~= ss);
    assert(ss.push(s).last() == s);
}

/// The archive facade: an ordered list of source states, each created by
/// handing a source to [`Tomo::load`] or [`Tomo::load_one`] and addressed by
/// the index those return.
pub struct Tomo<S: SeekableSource> {
    pub sources: Vec<SourceState<S>>,
}

impl<S: SeekableSource> Tomo<S> {
    /// Every source state is well formed.
    pub open spec fn wf(&self) -> bool {
        forall|i: int| 0 <= i < self.sources@.len() ==> (#[trigger] self.sources@[i]).wf()
    }

    /// An empty archive, same as `Tomo::default()`.
    pub fn new() -> (r: Self)
        ensures
            r.sources@.len() == 0,
            r.wf(),
    {
        Tomo { sources: Vec::new() }
    }

    /// The number of loaded containers, over all sources.
    pub fn len(&self) -> (r: usize)
        requires
            spec_total_containers(self.sources@) <= usize::MAX,
        ensures
            r == spec_total_containers(self.sources@),
    {
        let mut total: usize = 0;
        let mut i: usize = 0;
        while i < self.sources.len()
            invariant
                i <= self.sources@.len(),
                spec_total_containers(self.sources@) <= usize::MAX,
                total == spec_total_containers(self.sources@.subrange(0, i as int)),
            decreases self.sources@.len() - i,
        {
            proof {
                let p = self.sources@.subrange(0, i + 1);
                assert(p.drop_last() =~= self.sources@.subrange(0, i as int));
                assert(p.last() == self.sources@[i as int]);
                lemma_total_prefix(self.sources@, i + 1);
            }
            total = total + self.sources[i].len();
            i = i + 1;
        }
        proof {
            assert(self.sources@.subrange(0, self.sources@.len() as int) =~= self.sources@);
        }
        total
    }

    /// A shared borrow of the source state at `ix`.
    pub fn source(&self, ix: usize) -> (r: &SourceState<S>)
        requires
            ix < self.sources@.len(),
        ensures
            *r == self.sources@[ix as int],
    {
        &self.sources[ix]
    }

    /// An exclusive borrow of the source state at `ix`, for driving it
    /// directly.
    pub fn source_mut(&mut self, ix: usize) -> (r: &mut SourceState<S>)
        requires
            ix < old(self).sources@.len(),
        ensures
            *r == old(self).sources@[ix as int],
            final(self).sources@ == old(self).sources@.update(ix as int, *final(r)),
    {
        &mut self.sources[ix]
    }

    /// Register a new source, positioned at its handoff position, and
    /// return the index of its state.
    fn add_source(&mut self, source: S) -> (ix: usize)
        requires
            source.pos() == 0,
        ensures
            ix == old(self).sources@.len(),
            final(self).sources@.len() == old(self).sources@.len() + 1,
            forall|i: int|
                0 <= i < old(self).sources@.len() ==> final(self).sources@[i] == old(
                    self,
                ).sources@[i],
            final(self).sources@[ix as int].ready(),
            final(self).sources@[ix as int].offset == 0,
            final(self).sources@[ix as int].headers@.len() == 0,
            final(self).sources@[ix as int].source == source,
    {
        let ix = self.sources.len();
        self.sources.push(SourceState::new(source));
        ix
    }

    /// Drive the source state at `ix` one container further; see
    /// [`SourceState::load_next_container`].
    pub fn load_next(&mut self, ix: usize) -> (r: Result<SourceStatus, TomoError>)
        requires
            ix < old(self).sources@.len(),
            old(self).sources@[ix as int].ready(),
        ensures
            final(self).sources@.len() == old(self).sources@.len(),
            forall|i: int|
                0 <= i < old(self).sources@.len() && i != ix ==> final(self).sources@[i] == old(
                    self,
                ).sources@[i],
            ({
                let pre = old(self).sources@[ix as int];
                let post = final(self).sources@[ix as int];
                &&& post.wf()
                &&& post.data() == pre.data()
                &&& post.offset >= pre.offset
                &&& post.source.reliable() == pre.source.reliable()
                &&& (pre.source.reliable() ==> (r is Ok <==> spec_next_header(
                    pre.data(),
                    pre.current_end(),
                ) is Some) && (r matches Err(e) ==> e == spec_load_failure(
                    pre.data(),
                    pre.current_end(),
                )))
                &&& match r {
                    Ok(st) => {
                        let h = spec_next_header(pre.data(), pre.current_end())->Some_0;
                        &&& spec_next_header(pre.data(), pre.current_end()) is Some
                        &&& post.headers@ == pre.headers@.push(
                            (pre.current_end() as u64, h),
                        )
                        &&& post.offset as int == container_end(pre.current_end(), h)
                        &&& post.ready()
                        &&& post.offset as int == post.current_end()
                        &&& (st is EndOfSource <==> post.offset >= pre.data().len())
                    },
                    Err(e) => {
                        &&& post.headers == pre.headers
                        &&& (e matches TomoError::NotAContainer { offset } ==> offset as int
                            == pre.current_end() && pre.current_end() + 24 <= pre.data().len()
                            && pre.data().subrange(
                            pre.current_end(),
                            pre.current_end() + 24,
                        ).take(7) != spec_magic())
                        &&& !(e is UnsupportedEncoding)
                    },
                }
            }),
    {
        let st = &mut self.sources[ix];
        st.load_next_container()
    }

    /// Load containers from a byte source until its end.
    ///
    /// Registers a state for the source and loads container after container
    /// until the end-of-source probe answers. On success the recorded
    /// headers are exactly what a full walk of the data finds, and the
    /// index of the new source state is returned. On failure the state
    /// keeps the containers found before the error.
    pub fn load(&mut self, source: S) -> (r: Result<usize, TomoError>)
        requires
            source.pos() == 0,
        ensures
            final(self).sources@.len() == old(self).sources@.len() + 1,
            forall|i: int|
                0 <= i < old(self).sources@.len() ==> final(self).sources@[i] == old(
                    self,
                ).sources@[i],
            ({
                let post = final(self).sources@[old(self).sources@.len() as int];
                let d = source.data();
                &&& post.wf()
                &&& post.data() == d
                &&& post.source.reliable() == source.reliable()
                &&& (source.reliable() ==> (r is Ok <==> spec_load(d, Seq::empty()) is Some) && (
                r matches Err(e) ==> e == spec_load_failure(d, spec_current_end(post.headers@))))
                &&& match r {
                    Ok(ix) => {
                        &&& ix == old(self).sources@.len()
                        &&& Some(post.headers@) == spec_load(d, Seq::empty())
                        &&& forall|i: int|
                            0 <= i < post.headers@.len() ==> spec_next_header(
                                d,
                                (#[trigger] post.headers@[i]).0 as int,
                            ) == Some(post.headers@[i].1)
                        &&& post.ready()
                        &&& post.offset as int == post.current_end()
                        &&& post.offset >= d.len()
                    },
                    Err(e) => {
                        &&& spec_load(d, post.headers@) == spec_load(d, Seq::empty())
                        &&& forall|i: int|
                            0 <= i < post.headers@.len() ==> spec_next_header(
                                d,
                                (#[trigger] post.headers@[i]).0 as int,
                            ) == Some(post.headers@[i].1)
                        &&& (e matches TomoError::NotAContainer { offset } ==> offset as int
                            == spec_current_end(post.headers@) && offset + 24 <= d.len()
                            && d.subrange(offset as int, offset as int + 24).take(7)
                            != spec_magic())
                        &&& !(e is UnsupportedEncoding)
                    },
                }
            }),
    {
        let ghost d = source.data();
        let ix = self.add_source(source);
        proof {
            assert(self.sources@[ix as int].headers@ =~= Seq::<(u64, ContainerHeader)>::empty());
        }
        #[verifier::loop_isolation(false)]
        loop
            invariant
                ix < self.sources@.len(),
                self.sources@.len() == old(self).sources@.len() + 1,
                forall|i: int|
                    0 <= i < old(self).sources@.len() ==> self.sources@[i] == old(
                        self,
                    ).sources@[i],
                self.sources@[ix as int].ready(),
                self.sources@[ix as int].data() == d,
                self.sources@[ix as int].offset as int == self.sources@[
                    ix as int
                ].current_end(),
                self.sources@[ix as int].offset < d.len() || self.sources@[
                    ix as int
                ].headers@.len() == 0,
                self.sources@[ix as int].source.reliable() == source.reliable(),
                spec_load(d, self.sources@[ix as int].headers@) == spec_load(d, Seq::empty()),
                forall|i: int|
                    0 <= i < self.sources@[ix as int].headers@.len() ==> spec_next_header(
                        d,
                        (#[trigger] self.sources@[ix as int].headers@[i]).0 as int,
                    ) == Some(self.sources@[ix as int].headers@[i].1),
            decreases d.len() - self.sources@[ix as int].offset,
        {
            let ghost pre_headers = self.sources@[ix as int].headers@;
            let st = match self.load_next(ix) {
                Ok(st) => st,
                Err(e) => {
                    return Err(e);
                },
            };
            match st {
                SourceStatus::EndOfSource => {
                    return Ok(ix);
                },
                SourceStatus::MoreToGo => {},
            }
        }
    }

    /// Load one container from a byte source.
    ///
    /// Same as [`Tomo::load`], but stops after a single container: the
    /// source is left at that container's end, and the probe's answer is
    /// returned beside the index of the new source state.
    pub fn load_one(&mut self, source: S) -> (r: Result<(usize, SourceStatus), TomoError>)
        requires
            source.pos() == 0,
        ensures
            final(self).sources@.len() == old(self).sources@.len() + 1,
            forall|i: int|
                0 <= i < old(self).sources@.len() ==> final(self).sources@[i] == old(
                    self,
                ).sources@[i],
            ({
                let post = final(self).sources@[old(self).sources@.len() as int];
                &&& post.wf()
                &&& post.data() == source.data()
                &&& post.source.reliable() == source.reliable()
                &&& (source.reliable() ==> (r is Ok <==> spec_next_header(source.data(), 0)
                    is Some) && (r matches Err(e) ==> e == spec_load_failure(source.data(), 0)))
                &&& match r {
                    Ok((ix, st)) => {
                        let h = spec_next_header(source.data(), 0)->Some_0;
                        &&& ix == old(self).sources@.len()
                        &&& spec_next_header(source.data(), 0) is Some
                        &&& post.headers@ == seq![(0u64, h)]
                        &&& post.offset as int == container_end(0, h)
                        &&& post.ready()
                        &&& (st is EndOfSource <==> post.offset >= source.data().len())
                    },
                    Err(e) => post.headers@.len() == 0 && !(e is UnsupportedEncoding),
                }
            }),
    {
        let ix = self.add_source(source);
        proof {
            assert(Seq::<(u64, ContainerHeader)>::empty().push(
                (0u64, spec_next_header(source.data(), 0)->Some_0),
            ) =~= seq![(0u64, spec_next_header(source.data(), 0)->Some_0)]);
        }
        match self.load_next(ix) {
            Ok(st) => Ok((ix, st)),
            Err(e) => Err(e),
        }
    }
}

/// Loading one container and then the next produces the same final state as
/// one bulk load of a two-container source.
///
/// `Tomo::load_one` on data `d` records exactly `[(0, h1)]` and leaves the
/// cursor at the first container's end; `load_next_container` then records
/// `(end1, h2)` and leaves the cursor at the second container's end, which
/// is at or past the end of the data, so the probe answers `EndOfSource`.
/// This lemma states that a single `Tomo::load` of the same data arrives at
/// exactly that header chain.
pub proof fn lemma_load_one_then_next_matches_load(d: Seq<u8>)
    requires
        spec_next_header(d, 0) is Some,
        container_end(0, spec_next_header(d, 0)->Some_0) < d.len(),
        spec_next_header(d, container_end(0, spec_next_header(d, 0)->Some_0)) is Some,
        container_end(
            container_end(0, spec_next_header(d, 0)->Some_0),
            spec_next_header(d, container_end(0, spec_next_header(d, 0)->Some_0))->Some_0,
        ) >= d.len(),
    ensures
        ({
            let h1 = spec_next_header(d, 0)->Some_0;
            let end1 = container_end(0, h1);
            let h2 = spec_next_header(d, end1)->Some_0;
            spec_load(d, Seq::empty()) == Some(seq![(0u64, h1), (end1 as u64, h2)])
        }),
{
    let h1 = spec_next_header(d, 0)->Some_0;
    let end1 = container_end(0, h1);
    let h2 = spec_next_header(d, end1)->Some_0;
    let one = Seq::<(u64, ContainerHeader)>::empty().push((0u64, h1));
    assert(spec_current_end(Seq::<(u64, ContainerHeader)>::empty()) == 0);
    assert(spec_load(d, Seq::empty()) == spec_load(d, one));
    assert(one.len() == 1 && one[0] == (0u64, h1));
    assert(spec_current_end(one) == end1);
    assert(spec_load(d, one) == Some(one.push((end1 as u64, h2))));
    assert(one.push((end1 as u64, h2)) =~= seq![(0u64, h1), (end1 as u64, h2)]);
}

impl<S: SeekableSource> Default for Tomo<S> {
    /// An empty archive with no sources.
    fn default() -> (r: Self)
        ensures
            r.sources@.len() == 0,
            r.wf(),
    {
        Tomo { sources: Vec::new() }
    }
}

} // verus!
