//! A cursor over every path of every container of every source.
//!
//! For each container the cursor scans the index for the (at most one) Paths
//! indic, opens that entry — decoding its header and count and demanding the
//! `Raw` encoding — and then reads path after path through the entry's
//! lookup table, exactly as the format prescribes: the i-th path spans from
//! the i-th lookup offset to the next one (or to the end of the payload for
//! the last). Containers and sources are walked in registration order; an
//! error in one container is yielded once and the cursor moves to the next
//! container, so the archive stays usable.

use vstd::prelude::*;

use crate::parsers::{
    encoding_of_byte, spec_dec_indic, spec_dec_lookup, spec_dec_path, path_wf, Indic, IndicKind,
    Lookup, Path, PathSegView, ContainerHeader, Encoding,
};
use crate::seekable::SeekableSource;
use crate::{
    container_end, lemma_container_within_current_end, SourceState, Tomo, TomoError,
};

verus! {

/// Scan index slots `k..n` of the container at `start` for its Paths indic,
/// `found` holding what earlier slots yielded. A slot that runs past the
/// data or does not decode, and a second Paths indic, are corruption.
pub open spec fn spec_scan_from(
    d: Seq<u8>,
    start: int,
    n: int,
    k: int,
    found: Option<Indic>,
) -> Result<Option<Indic>, TomoError>
    decreases n - k,
{
    if k >= n {
        Ok(found)
    } else {
        let sb = start + 24 + 24 * k;
        if sb + 24 > d.len() {
            Err(TomoError::CorruptContainer)
        } else {
            match spec_dec_indic(d.subrange(sb, sb + 24)) {
                Err(e) => Err(e),
                Ok((ind, _)) => if ind.kind is Paths {
                    if found is Some {
                        Err(TomoError::CorruptContainer)
                    } else {
                        spec_scan_from(d, start, n, k + 1, Some(ind))
                    }
                } else {
                    spec_scan_from(d, start, n, k + 1, found)
                },
            }
        }
    }
}

/// The Paths indic of the container at `start` with header `h`, if the
/// whole index is sound and holds at most one.
pub open spec fn spec_scan_paths(d: Seq<u8>, start: int, h: ContainerHeader) -> Result<
    Option<Indic>,
    TomoError,
> {
    if h.index_bytes % 24 != 0 || h.index_bytes / 24 > 0xFFFFFF {
        Err(TomoError::CorruptContainer)
    } else {
        spec_scan_from(d, start, h.index_bytes as int / 24, 0, None)
    }
}

/// Opening the payload once the entry header is decoded: the encoding must
/// be `Raw`, and the path count and its lookup table must fit the payload.
/// `None` stands for bytes that lie beyond the end of the data, which only a
/// read can witness.
pub open spec fn spec_open_payload(d: Seq<u8>, es: int, elen: int, hsize: int, enc: Encoding) -> Option<
    Result<(int, int, u32), TomoError>,
> {
    if !(enc is Raw) {
        Some(Err(TomoError::UnsupportedEncoding { encoding: crate::parsers::encoding_byte(enc) }))
    } else {
        let ps = es + hsize;
        let pl = elen - hsize;
        if pl < 4 {
            Some(Err(TomoError::CorruptContainer))
        } else if ps + 4 > d.len() {
            None
        } else {
            let count = crate::bytes::le32_of(d.subrange(ps, ps + 4));
            if 4 + 12 * (count as int) > pl {
                Some(Err(TomoError::CorruptContainer))
            } else {
                Some(Ok((ps, pl, count)))
            }
        }
    }
}

/// Open the Paths entry that `ind` describes in the container at `start`
/// with header `h`: check the entry's bounds against the entries region,
/// decode its entry header, and locate its payload, length and path count.
pub open spec fn spec_open_paths(d: Seq<u8>, start: int, h: ContainerHeader, ind: Indic) -> Option<
    Result<(int, int, u32), TomoError>,
> {
    let es = start + 24 + h.index_bytes + ind.offset;
    if ind.offset + ind.length > h.entries_bytes {
        Some(Err(TomoError::CorruptContainer))
    } else if ind.length < 2 {
        Some(Err(TomoError::CorruptContainer))
    } else if es + 2 > d.len() {
        None
    } else if d[es] & 0x3F != 0 {
        Some(Err(TomoError::CorruptContainer))
    } else if encoding_of_byte(d[es + 1]) is None {
        Some(Err(TomoError::CorruptContainer))
    } else {
        let enc = encoding_of_byte(d[es + 1])->Some_0;
        if d[es] & 0x80 != 0 {
            if ind.length < 4 {
                Some(Err(TomoError::CorruptContainer))
            } else if es + 4 > d.len() {
                None
            } else {
                let pb = crate::bytes::le16_of(d.subrange(es + 2, es + 4)) as int;
                if 4 + pb > ind.length {
                    Some(Err(TomoError::CorruptContainer))
                } else if es + 4 + pb > d.len() {
                    None
                } else {
                    spec_open_payload(d, es, ind.length as int, 4 + pb, enc)
                }
            }
        } else {
            spec_open_payload(d, es, ind.length as int, 2, enc)
        }
    }
}

/// Where the i-th path of an opened Paths entry ends, measured from the
/// payload start: the next lookup's offset, or the payload length for the
/// last path.
pub open spec fn spec_path_end(d: Seq<u8>, ps: int, pl: int, count: u32, i: u32) -> Option<int> {
    if i + 1 < count {
        let lj = ps + 4 + 12 * (i + 1);
        if lj + 12 > d.len() {
            None
        } else {
            Some(spec_dec_lookup(d.subrange(lj, lj + 12))->Ok_0.0.offset as int)
        }
    } else {
        Some(pl)
    }
}

/// The i-th path of an opened Paths entry: its span runs from its lookup
/// offset to where it ends; a span outside the payload, or one that is not
/// in order, is corruption, and the span's bytes must decode as one path.
pub open spec fn spec_path_at(d: Seq<u8>, ps: int, pl: int, count: u32, i: u32) -> Option<
    Result<Seq<PathSegView>, TomoError>,
> {
    let li = ps + 4 + 12 * i;
    if li + 12 > d.len() {
        None
    } else {
        let off_i = spec_dec_lookup(d.subrange(li, li + 12))->Ok_0.0.offset as int;
        match spec_path_end(d, ps, pl, count, i) {
            None => None,
            Some(off_n) => {
                if !(off_i < off_n <= pl) {
                    Some(Err(TomoError::CorruptContainer))
                } else if ps + off_n > d.len() {
                    None
                } else {
                    match spec_dec_path(d.subrange(ps + off_i, ps + off_n)) {
                        Err(e) => Some(Err(e)),
                        Ok((vs, _)) => Some(Ok(vs)),
                    }
                }
            },
        }
    }
}

/// Scan the index of container `c` for its Paths indic.
fn find_paths_indic<S: SeekableSource>(src: &mut SourceState<S>, c: usize) -> (r: Result<
    Option<Indic>,
    TomoError,
>)
    requires
        old(src).wf(),
        c < old(src).headers@.len(),
    ensures
        final(src).wf(),
        final(src).data() == old(src).data(),
        final(src).headers == old(src).headers,
        old(src).offset as int <= old(src).current_end() ==> final(src).offset as int <= final(src).current_end(),
        final(src).source.reliable() == old(src).source.reliable(),
        old(src).source.reliable() ==> (r matches Err(e) ==> !(e is Io)),
        ({
            let d = old(src).data();
            let start = old(src).headers@[c as int].0 as int;
            let h = old(src).headers@[c as int].1;
            match r {
                Ok(opt) => spec_scan_paths(d, start, h) == Ok::<Option<Indic>, TomoError>(opt),
                Err(e) => {
                    &&& (e is CorruptContainer ==> spec_scan_paths(d, start, h) == Err::<
                        Option<Indic>,
                        TomoError,
                    >(TomoError::CorruptContainer))
                    &&& (old(src).source.reliable() ==> spec_scan_paths(d, start, h) is Err)
                    &&& !(e is NotAContainer)
                    &&& !(e is UnsupportedEncoding)
                },
            }
        }),
{
    let pair = src.headers[c];
    let start = pair.0;
    let ib = pair.1.index_bytes;
    proof {
        lemma_container_within_current_end(src.headers@, c as int);
    }
    if ib % 24 != 0 || ib / 24 > 0xFFFFFF {
        return Err(TomoError::CorruptContainer);
    }
    let n = ib / 24;
    proof {
        vstd::arithmetic::div_mod::lemma_fundamental_div_mod(ib as int, 24);
        assert(24 * (n as int) == ib as int);
    }
    let mut found: Option<Indic> = None;
    let mut k: u64 = 0;
    let ghost d = src.data();
    #[verifier::loop_isolation(false)]
    while k < n
        invariant
            k <= n,
            src.wf(),
            src.data() == d,
            src.headers == old(src).headers,
            old(src).offset as int <= old(src).current_end() ==> src.offset as int
                <= src.current_end(),
            src.source.reliable() == old(src).source.reliable(),
            spec_scan_from(d, start as int, n as int, 0, None) == spec_scan_from(
                d,
                start as int,
                n as int,
                k as int,
                found,
            ),
        decreases n - k,
    {
        let pos = start + 24 + 24 * k;
        match src.seek_to(pos) {
            Ok(()) => {},
            Err(e) => {
                return Err(e);
            },
        }
        let buf = match src.read(24) {
            Ok(b) => b,
            Err(e) => {
                return Err(e);
            },
        };
        match Indic::decode(buf.as_slice()) {
            Ok((ind, _)) => {
                match ind.kind {
                    IndicKind::Paths => {
                        if found.is_some() {
                            return Err(TomoError::CorruptContainer);
                        }
                        found = Some(ind);
                    },
                    _ => {},
                }
            },
            Err(e) => {
                return Err(e);
            },
        }
        k = k + 1;
    }
    Ok(found)
}

/// Open the Paths entry that `ind` describes in container `c`: validate its
/// bounds, decode its entry header, demand the `Raw` encoding, and read the
/// path count. Returns the payload's start, its length, and the count.
fn open_paths_entry<S: SeekableSource>(src: &mut SourceState<S>, c: usize, ind: Indic) -> (r:
    Result<(u64, u64, u32), TomoError>)
    requires
        old(src).wf(),
        c < old(src).headers@.len(),
    ensures
        final(src).wf(),
        final(src).data() == old(src).data(),
        final(src).headers == old(src).headers,
        old(src).offset as int <= old(src).current_end() ==> final(src).offset as int <= final(src).current_end(),
        final(src).source.reliable() == old(src).source.reliable(),
        old(src).source.reliable() ==> (r matches Err(e) ==> !(e is Io)),
        old(src).source.reliable() ==> (spec_open_paths(
            old(src).data(),
            old(src).headers@[c as int].0 as int,
            old(src).headers@[c as int].1,
            ind,
        ) matches Some(se) ==> (se matches Ok(_) ==> r is Ok)),
        ({
            let d = old(src).data();
            let start = old(src).headers@[c as int].0 as int;
            let h = old(src).headers@[c as int].1;
            match r {
                Ok((ps, pl, count)) => {
                    &&& spec_open_paths(d, start, h, ind) == Some(
                        Ok::<(int, int, u32), TomoError>((ps as int, pl as int, count)),
                    )
                    &&& ps + pl <= container_end(start, h)
                    &&& 4 + 12 * (count as int) <= pl
                },
                Err(e) => {
                    &&& ((e is CorruptContainer || e is UnsupportedEncoding) ==> spec_open_paths(
                        d,
                        start,
                        h,
                        ind,
                    ) == Some(Err::<(int, int, u32), TomoError>(e)))
                    &&& (old(src).source.reliable() ==> (spec_open_paths(d, start, h, ind)
                        matches Some(se) ==> se matches Err(oe) ==> e == oe))
                    &&& !(e is NotAContainer)
                },
            }
        }),
{
    let pair = src.headers[c];
    let start = pair.0;
    let h = pair.1;
    proof {
        lemma_container_within_current_end(src.headers@, c as int);
    }
    let within = match ind.offset.checked_add(ind.length) {
        Some(v) => v <= h.entries_bytes,
        None => false,
    };
    if !within {
        return Err(TomoError::CorruptContainer);
    }
    if ind.length < 2 {
        return Err(TomoError::CorruptContainer);
    }
    let es = start + 24 + h.index_bytes + ind.offset;
    let ghost d = src.data();
    match src.seek_to(es) {
        Ok(()) => {},
        Err(e) => {
            return Err(e);
        },
    }
    let hdr = match src.read(2) {
        Ok(b) => b,
        Err(e) => {
            return Err(e);
        },
    };
    let flags = hdr[0];
    let encb = hdr[1];
    proof {
        assert(hdr@[0] == d[es as int] && hdr@[1] == d[es as int + 1]);
    }
    if flags & 0x3F != 0 {
        return Err(TomoError::CorruptContainer);
    }
    let enc = if encb == 0x00 {
        Encoding::Raw
    } else if encb == 0x01 {
        Encoding::Zstd
    } else if encb == 0xFE {
        Encoding::Custom
    } else if encb == 0xFF {
        Encoding::Tomo
    } else {
        return Err(TomoError::CorruptContainer);
    };
    let hsize: u64 = if flags & 0x80 != 0 {
        if ind.length < 4 {
            return Err(TomoError::CorruptContainer);
        }
        let pbb = match src.read(2) {
            Ok(b) => b,
            Err(e) => {
                return Err(e);
            },
        };
        let pb = crate::bytes::get_le16(pbb.as_slice(), 0);
        proof {
            assert(pbb@.subrange(0, 2) =~= pbb@);
            assert(pbb@ =~= d.subrange(es as int + 2, es as int + 4));
        }
        if 4 + pb as u64 > ind.length {
            return Err(TomoError::CorruptContainer);
        }
        match src.read(pb as u64) {
            Ok(_) => {},
            Err(e) => {
                return Err(e);
            },
        }
        4 + pb as u64
    } else {
        2
    };
    match enc {
        Encoding::Raw => {},
        _ => {
            return Err(TomoError::UnsupportedEncoding { encoding: encb });
        },
    }
    let ps = es + hsize;
    let pl = ind.length - hsize;
    if pl < 4 {
        return Err(TomoError::CorruptContainer);
    }
    let cntb = match src.read(4) {
        Ok(b) => b,
        Err(e) => {
            return Err(e);
        },
    };
    let count = crate::bytes::get_le32(cntb.as_slice(), 0);
    proof {
        assert(cntb@.subrange(0, 4) =~= cntb@);
        assert(cntb@ =~= d.subrange(ps as int, ps as int + 4));
    }
    if 4 + 12 * (count as u64) > pl {
        return Err(TomoError::CorruptContainer);
    }
    Ok((ps, pl, count))
}

/// Read path `i` of the opened Paths entry whose payload starts at `ps` and
/// spans `pl` bytes, holding `count` paths.
fn read_path_at<S: SeekableSource>(
    src: &mut SourceState<S>,
    ps: u64,
    pl: u64,
    count: u32,
    i: u32,
) -> (r: Result<Path, TomoError>)
    requires
        old(src).wf(),
        i < count,
        4 + 12 * (count as int) <= pl,
        ps + pl <= old(src).current_end(),
    ensures
        final(src).wf(),
        final(src).data() == old(src).data(),
        final(src).headers == old(src).headers,
        old(src).offset as int <= old(src).current_end() ==> final(src).offset as int <= final(src).current_end(),
        final(src).source.reliable() == old(src).source.reliable(),
        old(src).source.reliable() ==> (r matches Err(e) ==> !(e is Io)),
        old(src).source.reliable() && pl <= usize::MAX ==> (spec_path_at(
            old(src).data(),
            ps as int,
            pl as int,
            count,
            i,
        ) matches Some(pr) ==> ((pr matches Ok(_) ==> r is Ok) && (pr matches Err(se) ==> r
            == Err::<Path, TomoError>(se)))),
        ({
            let d = old(src).data();
            match r {
                Ok(p) => spec_path_at(d, ps as int, pl as int, count, i) == Some(
                    Ok::<Seq<PathSegView>, TomoError>(p@),
                ) && path_wf(p),
                Err(e) => {
                    &&& (e is CorruptContainer ==> spec_path_at(d, ps as int, pl as int, count, i)
                        == Some(Err::<Seq<PathSegView>, TomoError>(e)))
                    &&& !(e is NotAContainer)
                    &&& !(e is UnsupportedEncoding)
                },
            }
        }),
{
    let ghost d = src.data();
    let li = ps + 4 + 12 * (i as u64);
    match src.seek_to(li) {
        Ok(()) => {},
        Err(e) => {
            return Err(e);
        },
    }
    let lb = match src.read(12) {
        Ok(b) => b,
        Err(e) => {
            return Err(e);
        },
    };
    let (lk, _) = match Lookup::decode(lb.as_slice()) {
        Ok(v) => v,
        Err(e) => {
            return Err(e);
        },
    };
    proof {
        assert(lb@.subrange(0, 4) =~= d.subrange(li as int, li as int + 4));
        assert(lb@.subrange(4, 12) =~= d.subrange(li as int + 4, li as int + 12));
        assert(lb@ =~= d.subrange(li as int, li as int + 12));
    }
    let off_i = lk.offset;
    let off_n: u64 = if i + 1 < count {
        let lb2 = match src.read(12) {
            Ok(b) => b,
            Err(e) => {
                return Err(e);
            },
        };
        let (lk2, _) = match Lookup::decode(lb2.as_slice()) {
            Ok(v) => v,
            Err(e) => {
                return Err(e);
            },
        };
        proof {
            assert(lb2@ =~= d.subrange(li as int + 12, li as int + 24));
        }
        lk2.offset
    } else {
        pl
    };
    proof {
        assert(spec_path_end(d, ps as int, pl as int, count, i) == Some(off_n as int));
    }
    if !(off_i < off_n && off_n <= pl) {
        return Err(TomoError::CorruptContainer);
    }
    let span = off_n - off_i;
    if span > usize::MAX as u64 {
        return Err(TomoError::UnexpectedEof { expected: span, obtained: 0 });
    }
    match src.seek_to(ps + off_i) {
        Ok(()) => {},
        Err(e) => {
            return Err(e);
        },
    }
    let pb = match src.read(span) {
        Ok(b) => b,
        Err(e) => {
            return Err(e);
        },
    };
    match Path::decode(pb.as_slice()) {
        Ok((p, _)) => Ok(p),
        Err(e) => {
            proof {
                crate::parsers::lemma_dec_path_err(pb@);
            }
            Err(e)
        },
    }
}

/// A container that contributes no path to the stream: either its index
/// holds no Paths indic at all, or its Paths entry opens and holds zero
/// paths.
pub open spec fn spec_container_no_paths<S: SeekableSource>(src: SourceState<S>, c: int) -> bool {
    let d = src.data();
    let start = src.headers@[c].0 as int;
    let h = src.headers@[c].1;
    match spec_scan_paths(d, start, h) {
        Ok(opt) => match opt {
            None => true,
            Some(ind) => match spec_open_paths(d, start, h, ind) {
                Some(res) => match res {
                    Ok((ps, pl, count)) => count == 0,
                    Err(_) => false,
                },
                None => false,
            },
        },
        Err(_) => false,
    }
}

/// Every container from cursor `(s0, c0)` up to, but not including, cursor
/// `(s1, c1)` — both lexicographic over source then container — contributes
/// no path.
pub open spec fn spec_no_paths_between<S: SeekableSource>(
    sources: Seq<SourceState<S>>,
    s0: int,
    c0: int,
    s1: int,
    c1: int,
) -> bool {
    forall|s: int, c: int|
        s0 <= s < sources.len() && 0 <= c < sources[s].headers@.len() && (s > s0 || c >= c0) && (
        s < s1 || (s == s1 && c < c1)) ==> #[trigger] spec_container_no_paths(sources[s], c)
}

/// A yielded error is genuine: the container it reports either has an index
/// that does not scan, or a Paths entry whose opening fails with exactly
/// this error, or — once opened to `count` paths within an addressable
/// payload — some path among them that does not read back.
pub open spec fn spec_error_genuine<S: SeekableSource>(
    src: SourceState<S>,
    c: int,
    e: TomoError,
) -> bool {
    let d = src.data();
    let start = src.headers@[c].0 as int;
    let h = src.headers@[c].1;
    match spec_scan_paths(d, start, h) {
        Ok(opt) => match opt {
            Some(ind) => match spec_open_paths(d, start, h, ind) {
                Some(se) => match se {
                    Err(oe) => e == oe,
                    Ok(tr) => tr.1 <= usize::MAX ==> exists|pi: u32|
                        pi < tr.2 && (match #[trigger] spec_path_at(d, tr.0, tr.1, tr.2, pi) {
                            Some(pr) => pr == Err::<Seq<crate::parsers::PathSegView>, TomoError>(
                                e,
                            ),
                            None => e is UnexpectedEof,
                        }),
                },
                None => true,
            },
            None => false,
        },
        Err(_) => true,
    }
}

/// Whether a container contributes paths does not depend on the source's
/// cursor: two states over the same data and headers agree on it.
pub proof fn lemma_no_paths_unchanged<S: SeekableSource>(
    a: SourceState<S>,
    b: SourceState<S>,
    c: int,
)
    requires
        a.data() == b.data(),
        a.headers@ == b.headers@,
    ensures
        spec_container_no_paths(a, c) == spec_container_no_paths(b, c),
{
}

/// Progress within one opened Paths entry: where its payload lies, how many
/// paths it holds, and which one comes next. The ghost `indic` remembers the
/// entry's indic for the stream's contract.
pub struct ActivePaths {
    pub payload_start: u64,
    pub payload_len: u64,
    pub count: u32,
    pub next_path: u32,
    pub indic: Ghost<Indic>,
}

/// A cursor over every path of every container of every source, in
/// registration order across sources and on-disk order within a container.
pub struct PathsStream {
    pub source_ix: usize,
    pub container_ix: usize,
    pub entry: Option<ActivePaths>,
}

/// Containers of the current source that the cursor has not finished, for
/// termination measures.
pub open spec fn containers_left<S: SeekableSource>(st: &PathsStream, tomo: &Tomo<S>) -> int {
    if st.source_ix < tomo.sources@.len() && st.container_ix <= tomo.sources@[
        st.source_ix as int
    ].headers@.len() {
        tomo.sources@[st.source_ix as int].headers@.len() - st.container_ix
    } else {
        0
    }
}

impl PathsStream {
    /// The cursor agrees with the archive: whenever an entry is open, it is
    /// the Paths entry of the cursor's container, as the scan and open
    /// pipeline defines it.
    pub open spec fn valid<S: SeekableSource>(&self, tomo: &Tomo<S>) -> bool {
        &&& self.source_ix <= tomo.sources@.len()
        &&& (self.source_ix < tomo.sources@.len() ==> self.container_ix <= tomo.sources@[
            self.source_ix as int
        ].headers@.len())
        &&& match self.entry {
            None => true,
            Some(ap) => {
                &&& self.source_ix < tomo.sources@.len()
                &&& self.container_ix < tomo.sources@[self.source_ix as int].headers@.len()
                &&& ({
                    let src = tomo.sources@[self.source_ix as int];
                    let d = src.data();
                    let start = src.headers@[self.container_ix as int].0 as int;
                    let h = src.headers@[self.container_ix as int].1;
                    &&& spec_scan_paths(d, start, h) == Ok::<Option<Indic>, TomoError>(
                        Some(ap.indic@),
                    )
                    &&& spec_open_paths(d, start, h, ap.indic@) == Some(
                        Ok::<(int, int, u32), TomoError>((
                            ap.payload_start as int,
                            ap.payload_len as int,
                            ap.count,
                        )),
                    )
                    &&& ap.payload_start + ap.payload_len <= container_end(start, h)
                    &&& 4 + 12 * (ap.count as int) <= ap.payload_len
                    &&& ap.next_path <= ap.count
                })
            },
        }
    }

    /// A cursor at the first path of the first container of the first
    /// source.
    pub fn new() -> (r: Self)
        ensures
            r.source_ix == 0,
            r.container_ix == 0,
            r.entry is None,
    {
        PathsStream { source_ix: 0, container_ix: 0, entry: None }
    }

    /// Yield the next path of the archive, or `None` once every source is
    /// exhausted.
    ///
    /// A yielded `Ok(p)` is exactly the path the cursor's entry holds at the
    /// position just before the cursor's `next_path`, as
    /// [`spec_path_at`] defines it from the archive's bytes. A yielded
    /// `Err` reports the cursor's container — an index or entry that does
    /// not parse, an encoding the core does not decode, or a failing read —
    /// and the cursor then stands on the next container, so draining the
    /// stream remains possible. When `None` comes, every container the
    /// cursor passed over on the way contributed no path, so nothing was
    /// skipped in silence; an open entry is consumed path by path, in
    /// order, never dropping one; and over a dependable source a yielded
    /// error reports a genuine fault of the container it stands behind.
    #[verifier::rlimit(100)]
    pub fn next<S: SeekableSource>(&mut self, tomo: &mut Tomo<S>) -> (r: Option<
        Result<Path, TomoError>,
    >)
        requires
            old(tomo).wf(),
            old(self).valid(old(tomo)),
        ensures
            final(tomo).wf(),
            final(self).valid(final(tomo)),
            final(tomo).sources@.len() == old(tomo).sources@.len(),
            forall|i: int|
                0 <= i < old(tomo).sources@.len() ==> {
                    &&& (#[trigger] final(tomo).sources@[i]).data() == old(
                        tomo,
                    ).sources@[i].data()
                    &&& final(tomo).sources@[i].headers == old(tomo).sources@[i].headers
                    &&& final(tomo).sources@[i].source.reliable() == old(
                        tomo,
                    ).sources@[i].source.reliable()
                    &&& (old(tomo).sources@[i].offset as int <= old(
                        tomo,
                    ).sources@[i].current_end() ==> final(tomo).sources@[i].offset as int
                        <= final(tomo).sources@[i].current_end())
                },
            final(self).source_ix >= old(self).source_ix,
            old(self).source_ix >= old(tomo).sources@.len() ==> r is None,
            match old(self).entry {
                Some(ap0) => ap0.next_path >= ap0.count ==> (r matches Some(Ok(_))
                    ==> final(self).source_ix > old(self).source_ix
                    || (final(self).source_ix == old(self).source_ix
                    && final(self).container_ix > old(self).container_ix)),
                None => true,
            },
            match old(self).entry {
                Some(ap0) => ap0.next_path < ap0.count ==> ({
                    &&& r is Some
                    &&& (r matches Some(Ok(_)) ==> ({
                        &&& final(self).source_ix == old(self).source_ix
                        &&& final(self).container_ix == old(self).container_ix
                        &&& final(self).entry matches Some(ap2) && ap2.payload_start
                            == ap0.payload_start && ap2.payload_len == ap0.payload_len
                            && ap2.count == ap0.count && ap2.next_path == ap0.next_path + 1
                    }))
                }),
                None => true,
            },
            ({
                // Every container the cursor passed over on the way to the
                // yield point (or the end) contributed no path.
                let s0 = old(self).source_ix as int;
                let c0 = old(self).container_ix + (if old(self).entry is Some {
                    1int
                } else {
                    0int
                });
                match r {
                    None => {
                        &&& final(self).source_ix >= final(tomo).sources@.len()
                        &&& spec_no_paths_between(
                            final(tomo).sources@,
                            s0,
                            c0,
                            final(tomo).sources@.len() as int,
                            0,
                        )
                    },
                    Some(item) => match item {
                        Ok(p) => {
                            &&& final(self).entry is Some
                            &&& ({
                                let ap = final(self).entry->Some_0;
                                let src = final(tomo).sources@[final(self).source_ix as int];
                                &&& ap.next_path >= 1
                                &&& spec_path_at(
                                    src.data(),
                                    ap.payload_start as int,
                                    ap.payload_len as int,
                                    ap.count,
                                    (ap.next_path - 1) as u32,
                                ) == Some(Ok::<Seq<PathSegView>, TomoError>(p@))
                                &&& path_wf(p)
                                &&& (ap.next_path == 1 || (old(self).entry matches Some(ap0)
                                    && ap0.payload_start == ap.payload_start
                                    && ap0.payload_len == ap.payload_len && ap0.count
                                    == ap.count && ap0.next_path + 1 == ap.next_path
                                    && final(self).source_ix == old(self).source_ix
                                    && final(self).container_ix == old(self).container_ix))
                            })
                            &&& spec_no_paths_between(
                                final(tomo).sources@,
                                s0,
                                c0,
                                final(self).source_ix as int,
                                final(self).container_ix as int,
                            )
                        },
                        Err(e) => {
                            &&& final(self).entry is None
                            &&& !(e is NotAContainer)
                            &&& final(self).source_ix < final(tomo).sources@.len()
                            &&& final(self).container_ix - 1
                                < final(tomo).sources@[final(self).source_ix as int].headers@.len()
                            &&& (old(tomo).sources@[final(self).source_ix as int].source.reliable()
                                ==> !(e is Io))
                            &&& ({
                                // The container the error reports stands
                                // just before the cursor; a dependable
                                // source surfaces a genuine fault of it.
                                let csrc = old(tomo).sources@[final(self).source_ix as int];
                                let cc = final(self).container_ix - 1;
                                csrc.source.reliable() && cc < csrc.headers@.len()
                                    ==> spec_error_genuine(csrc, cc, e)
                            })
                            &&& final(self).container_ix >= 1
                            &&& (final(self).source_ix == old(self).source_ix
                                ==> final(self).container_ix > old(self).container_ix)
                            &&& spec_no_paths_between(
                                final(tomo).sources@,
                                s0,
                                c0,
                                final(self).source_ix as int,
                                final(self).container_ix - 1,
                            )
                        },
                    },
                }
            }),
    {
        let ghost s0 = old(self).source_ix as int;
        let ghost c0 = old(self).container_ix + (if old(self).entry is Some {
            1int
        } else {
            0int
        });
        loop
            invariant
                tomo.wf(),
                self.valid(tomo),
                tomo.sources@.len() == old(tomo).sources@.len(),
                forall|i: int|
                    0 <= i < old(tomo).sources@.len() ==> {
                        &&& (#[trigger] tomo.sources@[i]).data() == old(tomo).sources@[i].data()
                        &&& tomo.sources@[i].headers == old(tomo).sources@[i].headers
                        &&& tomo.sources@[i].source.reliable() == old(
                            tomo,
                        ).sources@[i].source.reliable()
                        &&& (old(tomo).sources@[i].offset as int <= old(
                            tomo,
                        ).sources@[i].current_end() ==> tomo.sources@[i].offset as int
                            <= tomo.sources@[i].current_end())
                    },
                s0 == old(self).source_ix as int,
                c0 == old(self).container_ix + (if old(self).entry is Some {
                    1int
                } else {
                    0int
                }),
                self.source_ix > old(self).source_ix || (self.source_ix == old(self).source_ix
                    && self.container_ix >= old(self).container_ix),
                self.entry matches Some(ap) ==> (ap.next_path == 0 || (self.entry
                    == old(self).entry && self.source_ix == old(self).source_ix
                    && self.container_ix == old(self).container_ix)),
                old(self).entry matches Some(ap0) && ap0.next_path < ap0.count ==> self.entry
                    == old(self).entry && self.source_ix == old(self).source_ix
                    && self.container_ix == old(self).container_ix,
                match old(self).entry {
                    Some(ap0) => ap0.next_path >= ap0.count ==> ((self.entry == old(self).entry
                        && self.source_ix == old(self).source_ix
                        && self.container_ix == old(self).container_ix)
                        || self.source_ix > old(self).source_ix
                        || (self.source_ix == old(self).source_ix
                        && self.container_ix > old(self).container_ix)),
                    None => true,
                },
                spec_no_paths_between(
                    tomo.sources@,
                    s0,
                    c0,
                    self.source_ix as int,
                    self.container_ix as int,
                ),
            decreases
                    tomo.sources@.len() - self.source_ix,
                    containers_left(self, tomo),
                    (if self.entry is Some {
                        0int
                    } else {
                        1int
                    }),
        {
            if self.source_ix >= tomo.sources.len() {
                return None;
            }
            let n_containers = tomo.sources[self.source_ix].headers.len();
            if self.container_ix >= n_containers {
                self.source_ix = self.source_ix + 1;
                self.container_ix = 0;
                self.entry = None;
                continue ;
            }
            let c = self.container_ix;
            let six = self.source_ix;
            let ghost pre = tomo.sources@;
            match &self.entry {
                None => {
                    let found = {
                        let src = &mut tomo.sources[six];
                        find_paths_indic(src, c)
                    };
                    let ind = match found {
                        Ok(Some(ind)) => ind,
                        Ok(None) => {
                            self.container_ix = c + 1;
                            self.entry = None;
                            proof {
                                assert forall|s: int, cc: int|
                                    s0 <= s < tomo.sources@.len() && 0 <= cc < tomo.sources@[s].headers@.len() && (s > s0 || cc >= c0) && (s
                                        < self.source_ix || (s == self.source_ix && cc
                                        < self.container_ix)) implies
                                    #[trigger] spec_container_no_paths(
                                        tomo.sources@[s],
                                        cc,
                                    ) by {
                                    if s == six as int {
                                        if cc == c as int {
                                        } else {
                                            lemma_no_paths_unchanged(
                                                pre[s],
                                                tomo.sources@[s],
                                                cc,
                                            );
                                        }
                                    } else {
                                        assert(tomo.sources@[s] == pre[s]);
                                    }
                                }
                            }
                            continue ;
                        },
                        Err(e) => {
                            self.container_ix = c + 1;
                            self.entry = None;
                            proof {
                                assert forall|s: int, cc: int|
                                    s0 <= s < tomo.sources@.len() && 0 <= cc < tomo.sources@[s].headers@.len() && (s > s0 || cc >= c0) && (s
                                        < six as int || (s == six as int && cc < c as int))
                                    implies #[trigger] spec_container_no_paths(
                                    tomo.sources@[s],
                                    cc,
                                ) by {
                                    if s == six as int {
                                        lemma_no_paths_unchanged(pre[s], tomo.sources@[s], cc);
                                    } else {
                                        assert(tomo.sources@[s] == pre[s]);
                                    }
                                }
                            }
                            return Some(Err(e));
                        },
                    };
                    let opened = {
                        let src = &mut tomo.sources[six];
                        open_paths_entry(src, c, ind)
                    };
                    match opened {
                        Ok((ps, pl, count)) => {
                            self.entry = Some(
                                ActivePaths {
                                    payload_start: ps,
                                    payload_len: pl,
                                    count,
                                    next_path: 0,
                                    indic: Ghost(ind),
                                },
                            );
                            proof {
                                assert forall|s: int, cc: int|
                                    s0 <= s < tomo.sources@.len() && 0 <= cc < tomo.sources@[s].headers@.len() && (s > s0 || cc >= c0) && (s
                                        < self.source_ix || (s == self.source_ix && cc
                                        < self.container_ix)) implies
                                    #[trigger] spec_container_no_paths(
                                        tomo.sources@[s],
                                        cc,
                                    ) by {
                                    if s == six as int {
                                        lemma_no_paths_unchanged(pre[s], tomo.sources@[s], cc);
                                    } else {
                                        assert(tomo.sources@[s] == pre[s]);
                                    }
                                }
                            }
                            continue ;
                        },
                        Err(e) => {
                            self.container_ix = c + 1;
                            self.entry = None;
                            proof {
                                assert forall|s: int, cc: int|
                                    s0 <= s < tomo.sources@.len() && 0 <= cc < tomo.sources@[s].headers@.len() && (s > s0 || cc >= c0) && (s
                                        < six as int || (s == six as int && cc < c as int))
                                    implies #[trigger] spec_container_no_paths(
                                    tomo.sources@[s],
                                    cc,
                                ) by {
                                    if s == six as int {
                                        lemma_no_paths_unchanged(pre[s], tomo.sources@[s], cc);
                                    } else {
                                        assert(tomo.sources@[s] == pre[s]);
                                    }
                                }
                            }
                            return Some(Err(e));
                        },
                    }
                },
                Some(ap) => {
                    if ap.next_path >= ap.count {
                        let ghost gap = self.entry->Some_0;
                        self.container_ix = c + 1;
                        self.entry = None;
                        proof {
                            if gap.next_path == 0 {
                                assert(gap.count == 0);
                                assert(spec_container_no_paths(tomo.sources@[six as int], c as int));
                            }
                            assert forall|s: int, cc: int|
                                s0 <= s < tomo.sources@.len() && 0 <= cc < tomo.sources@[s].headers@.len() && (s > s0 || cc >= c0) && (s < self.source_ix
                                    || (s == self.source_ix && cc < self.container_ix)) implies
                                #[trigger] spec_container_no_paths(tomo.sources@[s], cc) by {
                                if s == six as int && cc == c as int {
                                    assert(gap.next_path == 0 || cc + 1 == c0);
                                }
                            }
                        }
                        continue ;
                    }
                    let i = ap.next_path;
                    let ps = ap.payload_start;
                    let pl = ap.payload_len;
                    let count = ap.count;
                    let ghost gi = ap.indic@;
                    let ghost gap0 = self.entry->Some_0;
                    let rp = {
                        let src = &mut tomo.sources[six];
                        proof {
                            lemma_container_within_current_end(src.headers@, c as int);
                        }
                        read_path_at(src, ps, pl, count, i)
                    };
                    match rp {
                        Ok(p) => {
                            self.entry = Some(
                                ActivePaths {
                                    payload_start: ps,
                                    payload_len: pl,
                                    count,
                                    next_path: i + 1,
                                    indic: Ghost(gi),
                                },
                            );
                            proof {
                                if i > 0 {
                                    assert(old(self).entry == Some(gap0));
                                    assert(gap0.payload_start == ps && gap0.payload_len == pl
                                        && gap0.count == count && gap0.next_path == i);
                                    assert(self.source_ix == old(self).source_ix
                                        && self.container_ix == old(self).container_ix);
                                }
                                assert forall|s: int, cc: int|
                                    s0 <= s < tomo.sources@.len() && 0 <= cc < tomo.sources@[s].headers@.len() && (s > s0 || cc >= c0) && (s
                                        < six as int || (s == six as int && cc < c as int))
                                    implies #[trigger] spec_container_no_paths(
                                    tomo.sources@[s],
                                    cc,
                                ) by {
                                    if s == six as int {
                                        lemma_no_paths_unchanged(pre[s], tomo.sources@[s], cc);
                                    } else {
                                        assert(tomo.sources@[s] == pre[s]);
                                    }
                                }
                            }
                            return Some(Ok(p));
                        },
                        Err(e) => {
                            self.container_ix = c + 1;
                            self.entry = None;
                            proof {
                                let osrc = old(tomo).sources@[six as int];
                                let d2 = osrc.data();
                                let start2 = osrc.headers@[c as int].0 as int;
                                let h2 = osrc.headers@[c as int].1;
                                assert(d2 == pre[six as int].data());
                                assert(osrc.headers@ == pre[six as int].headers@);
                                assert(spec_scan_paths(d2, start2, h2) == Ok::<
                                    Option<Indic>,
                                    TomoError,
                                >(Some(gi)));
                                assert(spec_open_paths(d2, start2, h2, gi) == Some(Ok::<
                                    (int, int, u32),
                                    TomoError,
                                >((ps as int, pl as int, count))));
                                if osrc.source.reliable() && pl <= usize::MAX {
                                    assert(pre[six as int].source.reliable());
                                    assert(!(spec_path_at(
                                        d2,
                                        ps as int,
                                        pl as int,
                                        count,
                                        i,
                                    ) matches Some(Ok(_))));
                                    assert(exists|pi: u32|
                                        pi < count && !((#[trigger] spec_path_at(
                                            d2,
                                            ps as int,
                                            pl as int,
                                            count,
                                            pi,
                                        )) matches Some(Ok(_))));
                                }
                                assert forall|s: int, cc: int|
                                    s0 <= s < tomo.sources@.len() && 0 <= cc < tomo.sources@[s].headers@.len() && (s > s0 || cc >= c0) && (s
                                        < six as int || (s == six as int && cc < c as int))
                                    implies #[trigger] spec_container_no_paths(
                                    tomo.sources@[s],
                                    cc,
                                ) by {
                                    if s == six as int {
                                        lemma_no_paths_unchanged(pre[s], tomo.sources@[s], cc);
                                    } else {
                                        assert(tomo.sources@[s] == pre[s]);
                                    }
                                }
                            }
                            return Some(Err(e));
                        },
                    }
                },
            }
        }
    }
}

impl<S: SeekableSource> Tomo<S> {
    /// A stream of every path in every container of every source; see
    /// [`PathsStream::next`].
    pub fn all_paths(&self) -> (r: PathsStream)
        ensures
            r.source_ix == 0,
            r.container_ix == 0,
            r.entry is None,
            r.valid(self),
    {
        PathsStream::new()
    }
}

} // verus!

