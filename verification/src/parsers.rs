//! The container-format data model and its binary codec.
//!
//! Each on-wire structure has a spec-level decoder (`spec_dec_*`) and encoder
//! (`spec_enc_*`) over byte sequences, an executable `decode` proved to agree
//! with the spec decoder, and an executable `encode` proved to append exactly
//! the spec encoding. Round-trip lemmas relate the two directions.
//!
//! All multi-byte integers are little-endian; sizes are packed, with no
//! padding. The codec performs no I/O.

use vstd::prelude::*;

use crate::bytes::{
    le16_of, le24_of, le32_of, le64_of, le16_bytes, le24_bytes, le32_bytes, le64_bytes,
    lemma_le16_bytes, lemma_le24_bytes, lemma_le32_bytes, lemma_le64_bytes, lemma_le16_value,
    lemma_le24_value, lemma_le32_value, lemma_le64_value, get_le16, get_le24, get_le32, get_le64,
    push_le16, push_le24, push_le32, push_le64,
};
use crate::TomoError;

verus! {

/// Packed size of a [`ContainerHeader`] on the wire.
pub const CONTAINER_HEADER_SIZE: usize = 24;

/// Packed size of an [`Indic`] on the wire.
pub const INDIC_SIZE: u64 = 24;

/// Packed size of a [`Lookup`] on the wire.
pub const LOOKUP_SIZE: usize = 12;

/// The seven bytes every container starts with.
pub open spec fn spec_magic() -> Seq<u8> {
    seq![0x00u8, 0x54u8, 0x00u8, 0x4du8, 0x00u8, 0x76u8, 0x01u8]
}

/// The seven magic bytes, as a value callers can write out.
pub fn magic() -> (r: [u8; 7])
    ensures
        r@ =~= spec_magic(),
{
    [0x00u8, 0x54u8, 0x00u8, 0x4du8, 0x00u8, 0x76u8, 0x01u8]
}

/// Archive concatenation semantics. `Stacked` means that on a path conflict
/// the later archive wins.
#[derive(Clone, Copy, Debug, PartialEq, Eq, PartialOrd, Ord, Structural)]
pub enum Mode {
    Stacked,
}

impl Default for Mode {
    fn default() -> (r: Self)
        ensures
            r == Mode::Stacked,
    {
        Mode::Stacked
    }
}

/// The wire byte of a mode.
pub open spec fn mode_byte(m: Mode) -> u8 {
    match m {
        Mode::Stacked => 0x01,
    }
}

/// The mode a wire byte stands for, if any.
pub open spec fn mode_of_byte(b: u8) -> Option<Mode> {
    if b == 0x01 {
        Some(Mode::Stacked)
    } else {
        None
    }
}

/// What kind of entry an indic describes.
#[derive(Clone, Copy, Debug, PartialEq, Eq, PartialOrd, Ord, Structural)]
pub enum IndicKind {
    File,
    Dir,
    Attributes,
    Paths,
    Checksums,
    Signatures,
}

/// The wire byte of an indic kind.
pub open spec fn kind_byte(k: IndicKind) -> u8 {
    match k {
        IndicKind::File => 0x01,
        IndicKind::Dir => 0x02,
        IndicKind::Attributes => 0x10,
        IndicKind::Paths => 0xF0,
        IndicKind::Checksums => 0xF1,
        IndicKind::Signatures => 0xF2,
    }
}

/// The indic kind a wire byte stands for, if any.
pub open spec fn kind_of_byte(b: u8) -> Option<IndicKind> {
    if b == 0x01 {
        Some(IndicKind::File)
    } else if b == 0x02 {
        Some(IndicKind::Dir)
    } else if b == 0x10 {
        Some(IndicKind::Attributes)
    } else if b == 0xF0 {
        Some(IndicKind::Paths)
    } else if b == 0xF1 {
        Some(IndicKind::Checksums)
    } else if b == 0xF2 {
        Some(IndicKind::Signatures)
    } else {
        None
    }
}

/// How an entry's payload is encoded.
#[derive(Clone, Copy, Debug, PartialEq, Eq, PartialOrd, Ord, Structural)]
pub enum Encoding {
    Raw,
    Zstd,
    Custom,
    Tomo,
}

impl Default for Encoding {
    fn default() -> (r: Self)
        ensures
            r == Encoding::Raw,
    {
        Encoding::Raw
    }
}

/// The wire byte of an encoding.
pub open spec fn encoding_byte(e: Encoding) -> u8 {
    match e {
        Encoding::Raw => 0x00,
        Encoding::Zstd => 0x01,
        Encoding::Custom => 0xFE,
        Encoding::Tomo => 0xFF,
    }
}

/// The encoding a wire byte stands for, if any.
pub open spec fn encoding_of_byte(b: u8) -> Option<Encoding> {
    if b == 0x00 {
        Some(Encoding::Raw)
    } else if b == 0x01 {
        Some(Encoding::Zstd)
    } else if b == 0xFE {
        Some(Encoding::Custom)
    } else if b == 0xFF {
        Some(Encoding::Tomo)
    } else {
        None
    }
}

/// The 24-byte header at the start of every container: the magic, the mode,
/// and the packed sizes of the index and entries regions that follow.
#[derive(Clone, Copy, Debug, PartialEq, Eq, Structural)]
pub struct ContainerHeader {
    pub mode: Mode,
    pub index_bytes: u64,
    pub entries_bytes: u64,
}

/// Wire form of a container header.
pub open spec fn spec_enc_container_header(h: ContainerHeader) -> Seq<u8> {
    spec_magic() + seq![mode_byte(h.mode)] + le64_bytes(h.index_bytes)
        + le64_bytes(h.entries_bytes)
}

/// Spec-level decoder for a container header.
///
/// An unknown magic is `NotAContainer` (with the offset left at zero for the
/// engine to fill in); a short input or an unknown mode byte is
/// `CorruptContainer`.
pub open spec fn spec_dec_container_header(b: Seq<u8>) -> Result<(ContainerHeader, int), TomoError> {
    if b.len() < 24 {
        Err(TomoError::CorruptContainer)
    } else if b.take(7) != spec_magic() {
        Err(TomoError::NotAContainer { offset: 0 })
    } else if mode_of_byte(b[7]) is None {
        Err(TomoError::CorruptContainer)
    } else {
        Ok((
            ContainerHeader {
                mode: mode_of_byte(b[7])->Some_0,
                index_bytes: le64_of(b.subrange(8, 16)),
                entries_bytes: le64_of(b.subrange(16, 24)),
            },
            24,
        ))
    }
}

impl Default for ContainerHeader {
    fn default() -> (r: Self)
        ensures
            r.mode == Mode::Stacked,
            r.index_bytes == 0,
            r.entries_bytes == 0,
    {
        ContainerHeader { mode: Mode::Stacked, index_bytes: 0, entries_bytes: 0 }
    }
}

impl ContainerHeader {
    /// Decode a container header from the front of `bytes`, returning the
    /// value and the number of bytes consumed.
    pub fn decode(bytes: &[u8]) -> (r: Result<(Self, usize), TomoError>)
        ensures
            match r {
                Ok((v, n)) => spec_dec_container_header(bytes@)
                    == Ok::<(ContainerHeader, int), TomoError>((v, n as int)),
                Err(e) => spec_dec_container_header(bytes@)
                    == Err::<(ContainerHeader, int), TomoError>(e),
            },
    {
        if bytes.len() < 24 {
            return Err(TomoError::CorruptContainer);
        }
        if bytes[0] != 0x00 || bytes[1] != 0x54 || bytes[2] != 0x00 || bytes[3] != 0x4d
            || bytes[4] != 0x00 || bytes[5] != 0x76 || bytes[6] != 0x01 {
            proof {
                let t = bytes@.take(7);
                assert(t[0] == bytes@[0] && t[1] == bytes@[1] && t[2] == bytes@[2]
                    && t[3] == bytes@[3] && t[4] == bytes@[4] && t[5] == bytes@[5]
                    && t[6] == bytes@[6]);
                assert(t != spec_magic());
            }
            return Err(TomoError::NotAContainer { offset: 0 });
        }
        proof {
            assert(bytes@.take(7) =~= spec_magic());
        }
        if bytes[7] != 0x01 {
            return Err(TomoError::CorruptContainer);
        }
        let index_bytes = get_le64(bytes, 8);
        let entries_bytes = get_le64(bytes, 16);
        Ok((ContainerHeader { mode: Mode::Stacked, index_bytes, entries_bytes }, 24))
    }

    /// Append the wire form of this header to `out`.
    pub fn encode(&self, out: &mut Vec<u8>)
        ensures
            final(out)@ =~= old(out)@ + spec_enc_container_header(*self),
    {
        out.push(0x00);
        out.push(0x54);
        out.push(0x00);
        out.push(0x4d);
        out.push(0x00);
        out.push(0x76);
        out.push(0x01);
        match self.mode {
            Mode::Stacked => out.push(0x01),
        }
        push_le64(out, self.index_bytes);
        push_le64(out, self.entries_bytes);
    }
}

/// Every valid container header wire form is exactly 24 bytes.
pub proof fn lemma_container_header_size(h: ContainerHeader)
    ensures
        spec_enc_container_header(h).len() == 24,
{
}

/// Every encoded container starts with the seven magic bytes.
pub proof fn lemma_encoded_container_magic(h: ContainerHeader)
    ensures
        spec_enc_container_header(h).take(7) =~= spec_magic(),
{
}

/// Every byte sequence a container header decodes from starts with the
/// seven magic bytes.
pub proof fn lemma_decoded_container_magic(b: Seq<u8>)
    requires
        spec_dec_container_header(b) is Ok,
    ensures
        b.take(7) == spec_magic(),
{
}

/// Decoding then encoding a container header reproduces the consumed bytes.
pub proof fn lemma_container_header_roundtrip(b: Seq<u8>)
    requires
        spec_dec_container_header(b) is Ok,
    ensures
        spec_dec_container_header(b)->Ok_0.1 == 24,
        spec_enc_container_header(spec_dec_container_header(b)->Ok_0.0) =~= b.take(24),
{
    let h = spec_dec_container_header(b)->Ok_0.0;
    lemma_le64_bytes(b.subrange(8, 16));
    lemma_le64_bytes(b.subrange(16, 24));
    assert(b.take(7) == spec_magic());
    assert forall|i: int| 0 <= i < 24 implies spec_enc_container_header(h)[i] == b.take(24)[i] by {
        if i < 7 {
            assert(b.take(7)[i] == b[i]);
            assert(spec_magic()[i] == b[i]);
        } else if i >= 8 && i < 16 {
            assert(le64_bytes(h.index_bytes)[i - 8] == b.subrange(8, 16)[i - 8]);
        } else if i >= 16 {
            assert(le64_bytes(h.entries_bytes)[i - 16] == b.subrange(16, 24)[i - 16]);
        }
    }
}

/// Encoding a container header and decoding it back gives the header again,
/// whatever bytes follow.
pub proof fn lemma_container_header_encdec(h: ContainerHeader, rest: Seq<u8>)
    ensures
        spec_dec_container_header(spec_enc_container_header(h) + rest)
            == Ok::<(ContainerHeader, int), TomoError>((h, 24)),
{
    let b = spec_enc_container_header(h) + rest;
    assert(b.take(7) =~= spec_magic());
    assert(b[7] == mode_byte(h.mode));
    assert(mode_of_byte(mode_byte(h.mode)) == Some(h.mode));
    assert(b.subrange(8, 16) =~= le64_bytes(h.index_bytes));
    assert(b.subrange(16, 24) =~= le64_bytes(h.entries_bytes));
    lemma_le64_value(h.index_bytes);
    lemma_le64_value(h.entries_bytes);
}

/// A 24-byte index record describing one entry: its kind, optional 1-based
/// references into the Paths and Attributes entries (0 meaning absent), and
/// the entry's offset and length within the entries region.
#[derive(Clone, Copy, Debug, PartialEq, Eq, Structural)]
pub struct Indic {
    pub kind: IndicKind,
    pub path: u32,
    pub attrs: u32,
    pub offset: u64,
    pub length: u64,
}

/// An indic is well formed when its packed u24 references fit in 24 bits.
pub open spec fn indic_wf(i: Indic) -> bool {
    i.path < 0x1000000 && i.attrs < 0x1000000
}

/// Wire form of an indic. The reserved byte is written as zero.
pub open spec fn spec_enc_indic(i: Indic) -> Seq<u8> {
    seq![kind_byte(i.kind)] + le24_bytes(i.path) + le24_bytes(i.attrs) + seq![0x00u8]
        + le64_bytes(i.offset) + le64_bytes(i.length)
}

/// Spec-level decoder for an indic. The reserved byte is read and ignored.
pub open spec fn spec_dec_indic(b: Seq<u8>) -> Result<(Indic, int), TomoError> {
    if b.len() < 24 {
        Err(TomoError::CorruptContainer)
    } else if kind_of_byte(b[0]) is None {
        Err(TomoError::CorruptContainer)
    } else {
        Ok((
            Indic {
                kind: kind_of_byte(b[0])->Some_0,
                path: le24_of(b.subrange(1, 4)),
                attrs: le24_of(b.subrange(4, 7)),
                offset: le64_of(b.subrange(8, 16)),
                length: le64_of(b.subrange(16, 24)),
            },
            24,
        ))
    }
}

impl Indic {
    /// Decode an indic from the front of `bytes`, returning the value and
    /// the number of bytes consumed.
    pub fn decode(bytes: &[u8]) -> (r: Result<(Self, usize), TomoError>)
        ensures
            match r {
                Ok((v, n)) => spec_dec_indic(bytes@) == Ok::<(Indic, int), TomoError>((
                    v,
                    n as int,
                )),
                Err(e) => spec_dec_indic(bytes@) == Err::<(Indic, int), TomoError>(e),
            },
            r matches Ok((v, _)) ==> indic_wf(v),
    {
        if bytes.len() < 24 {
            return Err(TomoError::CorruptContainer);
        }
        let k = bytes[0];
        let kind = if k == 0x01 {
            IndicKind::File
        } else if k == 0x02 {
            IndicKind::Dir
        } else if k == 0x10 {
            IndicKind::Attributes
        } else if k == 0xF0 {
            IndicKind::Paths
        } else if k == 0xF1 {
            IndicKind::Checksums
        } else if k == 0xF2 {
            IndicKind::Signatures
        } else {
            return Err(TomoError::CorruptContainer);
        };
        let path = get_le24(bytes, 1);
        let attrs = get_le24(bytes, 4);
        let offset = get_le64(bytes, 8);
        let length = get_le64(bytes, 16);
        Ok((Indic { kind, path, attrs, offset, length }, 24))
    }

    /// Append the wire form of this indic to `out`.
    pub fn encode(&self, out: &mut Vec<u8>)
        requires
            indic_wf(*self),
        ensures
            final(out)@ =~= old(out)@ + spec_enc_indic(*self),
    {
        let kb: u8 = match self.kind {
            IndicKind::File => 0x01,
            IndicKind::Dir => 0x02,
            IndicKind::Attributes => 0x10,
            IndicKind::Paths => 0xF0,
            IndicKind::Checksums => 0xF1,
            IndicKind::Signatures => 0xF2,
        };
        out.push(kb);
        push_le24(out, self.path);
        push_le24(out, self.attrs);
        out.push(0x00);
        push_le64(out, self.offset);
        push_le64(out, self.length);
    }

    /// The 1-based Paths reference of this indic, or `None` when absent.
    pub fn path_ref(&self) -> (r: Option<u32>)
        ensures
            r == (if self.path == 0 { Option::<u32>::None } else { Some(self.path) }),
    {
        if self.path == 0 {
            None
        } else {
            Some(self.path)
        }
    }

    /// The 1-based Attributes reference of this indic, or `None` when absent.
    pub fn attrs_ref(&self) -> (r: Option<u32>)
        ensures
            r == (if self.attrs == 0 { Option::<u32>::None } else { Some(self.attrs) }),
    {
        if self.attrs == 0 {
            None
        } else {
            Some(self.attrs)
        }
    }
}

/// Every encoded indic is exactly 24 bytes.
pub proof fn lemma_indic_size(i: Indic)
    ensures
        spec_enc_indic(i).len() == 24,
{
}

/// Decoding then encoding an indic reproduces the consumed bytes, provided
/// the reserved byte was zero as the format prescribes.
pub proof fn lemma_indic_roundtrip(b: Seq<u8>)
    requires
        spec_dec_indic(b) is Ok,
        b[7] == 0x00,
    ensures
        spec_dec_indic(b)->Ok_0.1 == 24,
        spec_enc_indic(spec_dec_indic(b)->Ok_0.0) =~= b.take(24),
{
    let v = spec_dec_indic(b)->Ok_0.0;
    lemma_le24_bytes(b.subrange(1, 4));
    lemma_le24_bytes(b.subrange(4, 7));
    lemma_le64_bytes(b.subrange(8, 16));
    lemma_le64_bytes(b.subrange(16, 24));
    assert(kind_byte(v.kind) == b[0]);
    assert forall|i: int| 0 <= i < 24 implies spec_enc_indic(v)[i] == b.take(24)[i] by {
        if 1 <= i < 4 {
            assert(le24_bytes(v.path)[i - 1] == b.subrange(1, 4)[i - 1]);
        } else if 4 <= i < 7 {
            assert(le24_bytes(v.attrs)[i - 4] == b.subrange(4, 7)[i - 4]);
        } else if 8 <= i < 16 {
            assert(le64_bytes(v.offset)[i - 8] == b.subrange(8, 16)[i - 8]);
        } else if 16 <= i {
            assert(le64_bytes(v.length)[i - 16] == b.subrange(16, 24)[i - 16]);
        }
    }
}

/// Encoding a well-formed indic and decoding it back gives the indic again,
/// whatever bytes follow.
pub proof fn lemma_indic_encdec(v: Indic, rest: Seq<u8>)
    requires
        indic_wf(v),
    ensures
        spec_dec_indic(spec_enc_indic(v) + rest) == Ok::<(Indic, int), TomoError>((v, 24)),
{
    let b = spec_enc_indic(v) + rest;
    assert(b[0] == kind_byte(v.kind));
    assert(kind_of_byte(kind_byte(v.kind)) == Some(v.kind));
    assert(b.subrange(1, 4) =~= le24_bytes(v.path));
    assert(b.subrange(4, 7) =~= le24_bytes(v.attrs));
    assert(b.subrange(8, 16) =~= le64_bytes(v.offset));
    assert(b.subrange(16, 24) =~= le64_bytes(v.length));
    lemma_le24_value(v.path);
    lemma_le24_value(v.attrs);
    lemma_le64_value(v.offset);
    lemma_le64_value(v.length);
}

/// One record of the lookup table inside a Paths or Attributes entry: a
/// 1-based item index and the item's offset from the start of the entry's
/// payload.
#[derive(Clone, Copy, Debug, PartialEq, Eq, PartialOrd, Ord, Structural)]
pub struct Lookup {
    pub index: u32,
    pub offset: u64,
}

/// Wire form of a lookup record.
pub open spec fn spec_enc_lookup(l: Lookup) -> Seq<u8> {
    le32_bytes(l.index) + le64_bytes(l.offset)
}

/// Spec-level decoder for a lookup record.
pub open spec fn spec_dec_lookup(b: Seq<u8>) -> Result<(Lookup, int), TomoError> {
    if b.len() < 12 {
        Err(TomoError::CorruptContainer)
    } else {
        Ok((Lookup { index: le32_of(b.subrange(0, 4)), offset: le64_of(b.subrange(4, 12)) }, 12))
    }
}

impl Lookup {
    /// Decode a lookup record from the front of `bytes`.
    pub fn decode(bytes: &[u8]) -> (r: Result<(Self, usize), TomoError>)
        ensures
            match r {
                Ok((v, n)) => spec_dec_lookup(bytes@) == Ok::<(Lookup, int), TomoError>((
                    v,
                    n as int,
                )),
                Err(e) => spec_dec_lookup(bytes@) == Err::<(Lookup, int), TomoError>(e),
            },
    {
        if bytes.len() < 12 {
            return Err(TomoError::CorruptContainer);
        }
        let index = get_le32(bytes, 0);
        let offset = get_le64(bytes, 4);
        Ok((Lookup { index, offset }, 12))
    }

    /// Append the wire form of this lookup record to `out`.
    pub fn encode(&self, out: &mut Vec<u8>)
        ensures
            final(out)@ =~= old(out)@ + spec_enc_lookup(*self),
    {
        push_le32(out, self.index);
        push_le64(out, self.offset);
    }
}

/// Every encoded lookup record is exactly 12 bytes.
pub proof fn lemma_lookup_size(l: Lookup)
    ensures
        spec_enc_lookup(l).len() == 12,
{
}

/// Decoding then encoding a lookup record reproduces the consumed bytes.
pub proof fn lemma_lookup_roundtrip(b: Seq<u8>)
    requires
        spec_dec_lookup(b) is Ok,
    ensures
        spec_dec_lookup(b)->Ok_0.1 == 12,
        spec_enc_lookup(spec_dec_lookup(b)->Ok_0.0) =~= b.take(12),
{
    let v = spec_dec_lookup(b)->Ok_0.0;
    lemma_le32_bytes(b.subrange(0, 4));
    lemma_le64_bytes(b.subrange(4, 12));
    assert forall|i: int| 0 <= i < 12 implies spec_enc_lookup(v)[i] == b.take(12)[i] by {
        if i < 4 {
            assert(le32_bytes(v.index)[i] == b.subrange(0, 4)[i]);
        } else {
            assert(le64_bytes(v.offset)[i - 4] == b.subrange(4, 12)[i - 4]);
        }
    }
}

/// Encoding a lookup record and decoding it back gives the record again.
pub proof fn lemma_lookup_encdec(v: Lookup, rest: Seq<u8>)
    ensures
        spec_dec_lookup(spec_enc_lookup(v) + rest) == Ok::<(Lookup, int), TomoError>((v, 12)),
{
    let b = spec_enc_lookup(v) + rest;
    assert(b.subrange(0, 4) =~= le32_bytes(v.index));
    assert(b.subrange(4, 12) =~= le64_bytes(v.offset));
    lemma_le32_value(v.index);
    lemma_le64_value(v.offset);
}

/// The attributes of one archived object; currently a permission mode.
#[derive(Clone, Copy, Debug, PartialEq, Eq, PartialOrd, Ord, Structural)]
pub struct Attributes {
    pub mode: u16,
}

/// Wire form of an attributes record.
pub open spec fn spec_enc_attributes(a: Attributes) -> Seq<u8> {
    le16_bytes(a.mode)
}

/// Spec-level decoder for an attributes record.
pub open spec fn spec_dec_attributes(b: Seq<u8>) -> Result<(Attributes, int), TomoError> {
    if b.len() < 2 {
        Err(TomoError::CorruptContainer)
    } else {
        Ok((Attributes { mode: le16_of(b.subrange(0, 2)) }, 2))
    }
}

impl Attributes {
    /// Decode an attributes record from the front of `bytes`.
    pub fn decode(bytes: &[u8]) -> (r: Result<(Self, usize), TomoError>)
        ensures
            match r {
                Ok((v, n)) => spec_dec_attributes(bytes@) == Ok::<(Attributes, int), TomoError>((
                    v,
                    n as int,
                )),
                Err(e) => spec_dec_attributes(bytes@) == Err::<(Attributes, int), TomoError>(e),
            },
    {
        if bytes.len() < 2 {
            return Err(TomoError::CorruptContainer);
        }
        let mode = get_le16(bytes, 0);
        Ok((Attributes { mode }, 2))
    }

    /// Append the wire form of this attributes record to `out`.
    pub fn encode(&self, out: &mut Vec<u8>)
        ensures
            final(out)@ =~= old(out)@ + spec_enc_attributes(*self),
    {
        push_le16(out, self.mode);
    }
}

/// Decoding then encoding an attributes record reproduces the consumed bytes.
pub proof fn lemma_attributes_roundtrip(b: Seq<u8>)
    requires
        spec_dec_attributes(b) is Ok,
    ensures
        spec_dec_attributes(b)->Ok_0.1 == 2,
        spec_enc_attributes(spec_dec_attributes(b)->Ok_0.0) =~= b.take(2),
{
    lemma_le16_bytes(b.subrange(0, 2));
    assert(b.subrange(0, 2) =~= b.take(2));
}

/// Encoding an attributes record and decoding it back gives the record again.
pub proof fn lemma_attributes_encdec(v: Attributes, rest: Seq<u8>)
    ensures
        spec_dec_attributes(spec_enc_attributes(v) + rest) == Ok::<(Attributes, int), TomoError>((
            v,
            2,
        )),
{
    let b = spec_enc_attributes(v) + rest;
    assert(b.subrange(0, 2) =~= le16_bytes(v.mode));
    lemma_le16_value(v.mode);
}

/// One component of an archived path: either an arbitrary byte segment
/// terminated by (and including) a NUL, or a root marker.
#[derive(Clone, Debug, PartialEq, Eq, PartialOrd, Ord)]
pub enum PathSeg {
    Segment(Vec<u8>),
    Root,
}

/// Mathematical model of a path segment.
pub enum PathSegView {
    Segment(Seq<u8>),
    Root,
}

impl View for PathSeg {
    type V = PathSegView;

    open spec fn view(&self) -> PathSegView {
        match self {
            PathSeg::Segment(v) => PathSegView::Segment(v@),
            PathSeg::Root => PathSegView::Root,
        }
    }
}

/// A segment's bytes end at, and include, the terminating NUL, and hold no
/// NUL before it. A root marker is always well formed.
pub open spec fn path_seg_wf(s: PathSegView) -> bool {
    match s {
        PathSegView::Segment(v) => v.len() >= 1 && v[v.len() - 1] == 0 && (forall|i: int|
            0 <= i < v.len() - 1 ==> v[i] != 0),
        PathSegView::Root => true,
    }
}

/// Wire form of a path segment.
pub open spec fn spec_enc_path_seg(s: PathSegView) -> Seq<u8> {
    match s {
        PathSegView::Segment(v) => seq![0x01u8] + v,
        PathSegView::Root => seq![0x10u8],
    }
}

/// Position of the first zero byte of a sequence, if any.
pub open spec fn first_zero(s: Seq<u8>) -> Option<int>
    decreases s.len(),
{
    if s.len() == 0 {
        None
    } else if s[0] == 0 {
        Some(0)
    } else {
        match first_zero(s.drop_first()) {
            None => None,
            Some(j) => Some(j + 1),
        }
    }
}

/// What `first_zero` finds is the first zero: in bounds, zero, and preceded
/// by non-zero bytes only; and when it finds nothing there is none.
pub proof fn lemma_first_zero(s: Seq<u8>)
    ensures
        match first_zero(s) {
            Some(j) => 0 <= j < s.len() && s[j] == 0 && (forall|i: int|
                0 <= i < j ==> s[i] != 0),
            None => forall|i: int| 0 <= i < s.len() ==> s[i] != 0,
        },
    decreases s.len(),
{
    if s.len() > 0 && s[0] != 0 {
        let t = s.drop_first();
        lemma_first_zero(t);
        match first_zero(t) {
            Some(j) => {
                assert(t[j] == s[j + 1]);
                assert forall|i: int| 0 <= i < j + 1 implies s[i] != 0 by {
                    if i > 0 {
                        assert(t[i - 1] == s[i]);
                    }
                }
            },
            None => {
                assert forall|i: int| 0 <= i < s.len() implies s[i] != 0 by {
                    if i > 0 {
                        assert(t[i - 1] == s[i]);
                    }
                }
            },
        }
    }
}

/// Conversely, the first zero position determines `first_zero`.
pub proof fn lemma_first_zero_at(s: Seq<u8>, j: int)
    requires
        0 <= j < s.len(),
        s[j] == 0,
        forall|i: int| 0 <= i < j ==> s[i] != 0,
    ensures
        first_zero(s) == Some(j),
    decreases j,
{
    if j > 0 {
        assert(forall|i: int| 0 <= i < s.drop_first().len() ==> s.drop_first()[i] == s[i + 1]);
        lemma_first_zero_at(s.drop_first(), j - 1);
    }
}

/// A sequence without zero bytes has no first zero.
pub proof fn lemma_first_zero_none(s: Seq<u8>)
    requires
        forall|i: int| 0 <= i < s.len() ==> s[i] != 0,
    ensures
        first_zero(s) is None,
    decreases s.len(),
{
    if s.len() > 0 {
        assert(forall|i: int| 0 <= i < s.drop_first().len() ==> s.drop_first()[i] == s[i + 1]);
        lemma_first_zero_none(s.drop_first());
    }
}

/// Spec-level decoder for a path segment.
pub open spec fn spec_dec_path_seg(b: Seq<u8>) -> Result<(PathSegView, int), TomoError> {
    if b.len() < 1 {
        Err(TomoError::CorruptContainer)
    } else if b[0] == 0x01 {
        match first_zero(b.skip(1)) {
            None => Err(TomoError::CorruptContainer),
            Some(j) => Ok((PathSegView::Segment(b.subrange(1, 2 + j)), 2 + j)),
        }
    } else if b[0] == 0x10 {
        Ok((PathSegView::Root, 1))
    } else {
        Err(TomoError::CorruptContainer)
    }
}

/// A decoded path segment consumes at least one byte and stays in bounds,
/// is well formed, and re-encodes to exactly the consumed bytes.
pub proof fn lemma_path_seg_roundtrip(b: Seq<u8>)
    requires
        spec_dec_path_seg(b) is Ok,
    ensures
        ({
            let (v, n) = spec_dec_path_seg(b)->Ok_0;
            &&& 1 <= n <= b.len()
            &&& path_seg_wf(v)
            &&& spec_enc_path_seg(v) =~= b.take(n)
        }),
{
    if b[0] == 0x01 {
        lemma_first_zero(b.skip(1));
        let j = first_zero(b.skip(1))->Some_0;
        let v = b.subrange(1, 2 + j);
        assert(forall|i: int| 0 <= i < b.skip(1).len() ==> b.skip(1)[i] == b[i + 1]);
        assert(v[v.len() - 1] == 0);
        assert(forall|i: int| 0 <= i < v.len() - 1 ==> v[i] != 0);
    }
}

/// Encoding a well-formed path segment and decoding it back gives the
/// segment again, whatever bytes follow.
pub proof fn lemma_path_seg_encdec(v: PathSegView, rest: Seq<u8>)
    requires
        path_seg_wf(v),
    ensures
        spec_dec_path_seg(spec_enc_path_seg(v) + rest) == Ok::<(PathSegView, int), TomoError>((
            v,
            spec_enc_path_seg(v).len() as int,
        )),
{
    let b = spec_enc_path_seg(v) + rest;
    match v {
        PathSegView::Segment(s) => {
            assert(b[0] == 0x01);
            assert(forall|i: int| 0 <= i < b.skip(1).len() ==> b.skip(1)[i] == b[i + 1]);
            assert(forall|i: int| 0 <= i < s.len() ==> b.skip(1)[i] == s[i]);
            lemma_first_zero_at(b.skip(1), s.len() - 1);
            assert(b.subrange(1, 1 + s.len() as int) =~= s);
        },
        PathSegView::Root => {
            assert(b[0] == 0x10);
        },
    }
}

/// An archived path: the number of segments, then the segments themselves.
#[derive(Clone, Debug, PartialEq, Eq, PartialOrd, Ord)]
pub struct Path {
    pub segcount: u32,
    pub segments: Vec<PathSeg>,
}

impl View for Path {
    type V = Seq<PathSegView>;

    open spec fn view(&self) -> Seq<PathSegView> {
        self.segments@.map_values(|s: PathSeg| s@)
    }
}

/// A sequence of segment models is well formed when each segment is and the
/// count fits the wire's u32.
pub open spec fn path_view_wf(v: Seq<PathSegView>) -> bool {
    v.len() <= u32::MAX && forall|i: int| 0 <= i < v.len() ==> path_seg_wf(#[trigger] v[i])
}

/// A path value is well formed when its stored count matches its segments
/// and its model is.
pub open spec fn path_wf(p: Path) -> bool {
    p.segcount == p.segments@.len() && path_view_wf(p@)
}

/// Concatenated wire forms of a sequence of segments.
pub open spec fn spec_enc_segs(v: Seq<PathSegView>) -> Seq<u8>
    decreases v.len(),
{
    if v.len() == 0 {
        Seq::empty()
    } else {
        spec_enc_path_seg(v[0]) + spec_enc_segs(v.drop_first())
    }
}

/// Wire form of a path.
pub open spec fn spec_enc_path(v: Seq<PathSegView>) -> Seq<u8> {
    le32_bytes(v.len() as u32) + spec_enc_segs(v)
}

/// Spec-level decoder for `n` consecutive path segments.
pub open spec fn spec_dec_segs(b: Seq<u8>, n: int) -> Result<(Seq<PathSegView>, int), TomoError>
    decreases n,
{
    if n <= 0 {
        Ok((Seq::empty(), 0))
    } else {
        match spec_dec_path_seg(b) {
            Err(e) => Err(e),
            Ok((v, c)) => match spec_dec_segs(b.skip(c), n - 1) {
                Err(e) => Err(e),
                Ok((vs, cs)) => Ok((seq![v] + vs, c + cs)),
            },
        }
    }
}

/// Spec-level decoder for a path.
pub open spec fn spec_dec_path(b: Seq<u8>) -> Result<(Seq<PathSegView>, int), TomoError> {
    if b.len() < 4 {
        Err(TomoError::CorruptContainer)
    } else {
        match spec_dec_segs(b.skip(4), le32_of(b.subrange(0, 4)) as int) {
            Err(e) => Err(e),
            Ok((vs, c)) => Ok((vs, 4 + c)),
        }
    }
}

/// Decoded segments consume bounded bytes, count `n`, are well formed, and
/// re-encode to exactly the consumed bytes.
pub proof fn lemma_segs_roundtrip(b: Seq<u8>, n: int)
    requires
        spec_dec_segs(b, n) is Ok,
    ensures
        ({
            let (vs, c) = spec_dec_segs(b, n)->Ok_0;
            &&& 0 <= c <= b.len()
            &&& vs.len() == (if n <= 0 { 0int } else { n })
            &&& (forall|i: int| 0 <= i < vs.len() ==> path_seg_wf(#[trigger] vs[i]))
            &&& spec_enc_segs(vs) =~= b.take(c)
        }),
    decreases n,
{
    if n > 0 {
        let (v, c) = spec_dec_path_seg(b)->Ok_0;
        lemma_path_seg_roundtrip(b);
        let (vs2, c2) = spec_dec_segs(b.skip(c), n - 1)->Ok_0;
        lemma_segs_roundtrip(b.skip(c), n - 1);
        let vs = seq![v] + vs2;
        assert(vs.drop_first() =~= vs2);
        assert(vs[0] == v);
        assert(spec_enc_segs(vs) == spec_enc_path_seg(v) + spec_enc_segs(vs2));
        assert(spec_enc_segs(vs2) =~= b.skip(c).take(c2));
        assert forall|i: int| 0 <= i < c + c2 implies spec_enc_segs(vs)[i] == b.take(c + c2)[i] by {
            if i < c {
                assert(spec_enc_segs(vs)[i] == spec_enc_path_seg(v)[i]);
                assert(spec_enc_path_seg(v)[i] == b.take(c)[i]);
            } else {
                assert(spec_enc_segs(vs)[i] == spec_enc_segs(vs2)[i - c]);
                assert(b.skip(c).take(c2)[i - c] == b[i]);
            }
        }
    }
}

/// Encoding well-formed segments and decoding them back gives the segments
/// again, whatever bytes follow.
pub proof fn lemma_segs_encdec(vs: Seq<PathSegView>, rest: Seq<u8>)
    requires
        forall|i: int| 0 <= i < vs.len() ==> path_seg_wf(#[trigger] vs[i]),
    ensures
        spec_dec_segs(spec_enc_segs(vs) + rest, vs.len() as int) == Ok::<
            (Seq<PathSegView>, int),
            TomoError,
        >((vs, spec_enc_segs(vs).len() as int)),
    decreases vs.len(),
{
    if vs.len() == 0 {
        assert(spec_enc_segs(vs) + rest =~= rest);
        assert(Seq::<PathSegView>::empty() =~= vs);
    } else {
        let v = vs[0];
        let tail = vs.drop_first();
        let e0 = spec_enc_path_seg(v);
        let etail = spec_enc_segs(tail);
        let b = spec_enc_segs(vs) + rest;
        assert(b =~= e0 + (etail + rest));
        lemma_path_seg_encdec(v, etail + rest);
        assert(b.skip(e0.len() as int) =~= etail + rest);
        lemma_segs_encdec(tail, rest);
        assert(seq![v] + tail =~= vs);
    }
}

/// Concatenated segment encodings split over sequence concatenation.
pub proof fn lemma_enc_segs_concat(a: Seq<PathSegView>, b: Seq<PathSegView>)
    ensures
        spec_enc_segs(a + b) =~= spec_enc_segs(a) + spec_enc_segs(b),
    decreases a.len(),
{
    if a.len() == 0 {
        assert(a + b =~= b);
    } else {
        assert((a + b)[0] == a[0]);
        assert((a + b).drop_first() =~= a.drop_first() + b);
        lemma_enc_segs_concat(a.drop_first(), b);
    }
}

/// Decoding the continuation of a segment run: what remains of `b` from
/// `pos`, with the already-decoded prefix glued back on.
pub open spec fn spec_dec_segs_cont(
    b: Seq<u8>,
    pos: int,
    rem: int,
    acc: Seq<PathSegView>,
    used: int,
) -> Result<(Seq<PathSegView>, int), TomoError> {
    match spec_dec_segs(b.skip(pos), rem) {
        Err(e) => Err(e),
        Ok((vs, c)) => Ok((acc + vs, used + c)),
    }
}

impl PathSeg {
    /// Decode one path segment starting at `at`, returning the segment and
    /// the number of bytes consumed.
    fn decode_at(bytes: &[u8], at: usize) -> (r: Result<(Self, usize), TomoError>)
        requires
            at <= bytes@.len(),
        ensures
            match r {
                Ok((v, n)) => {
                    &&& spec_dec_path_seg(bytes@.skip(at as int)) == Ok::<
                        (PathSegView, int),
                        TomoError,
                    >((v@, n as int))
                    &&& path_seg_wf(v@)
                    &&& 1 <= n && at + n <= bytes@.len()
                },
                Err(e) => spec_dec_path_seg(bytes@.skip(at as int)) == Err::<
                    (PathSegView, int),
                    TomoError,
                >(e),
            },
    {
        let ghost s = bytes@.skip(at as int);
        if at >= bytes.len() {
            return Err(TomoError::CorruptContainer);
        }
        let tag = bytes[at];
        proof {
            assert(s[0] == bytes@[at as int]);
        }
        if tag == 0x01 {
            let ghost t = s.skip(1);
            proof {
                assert(t =~= bytes@.skip(at + 1));
                assert(forall|i: int| 0 <= i < t.len() ==> t[i] == bytes@[at + 1 + i]);
            }
            let mut j: usize = at + 1;
            while j < bytes.len() && bytes[j] != 0
                invariant
                    at + 1 <= j <= bytes@.len(),
                    forall|i: int| at + 1 <= i < j ==> bytes@[i] != 0,
                decreases bytes@.len() - j,
            {
                j = j + 1;
            }
            if j == bytes.len() {
                proof {
                    lemma_first_zero_none(t);
                }
                return Err(TomoError::CorruptContainer);
            }
            let mut seg: Vec<u8> = Vec::new();
            let mut k: usize = at + 1;
            while k <= j
                invariant
                    at + 1 <= k <= j + 1,
                    j < bytes@.len(),
                    seg@ =~= bytes@.subrange(at + 1, k as int),
                decreases j + 1 - k,
            {
                seg.push(bytes[k]);
                k = k + 1;
            }
            let n = j + 1 - at;
            proof {
                let jr = j - at - 1;
                assert(t[jr] == bytes@[j as int]);
                lemma_first_zero_at(t, jr);
                assert(s.subrange(1, 2 + jr) =~= bytes@.subrange(at + 1, j + 1));
                assert(seg@ =~= s.subrange(1, 2 + jr));
                assert(seg@[seg@.len() - 1] == 0);
            }
            Ok((PathSeg::Segment(seg), n))
        } else if tag == 0x10 {
            Ok((PathSeg::Root, 1))
        } else {
            Err(TomoError::CorruptContainer)
        }
    }

    /// Decode a path segment from the front of `bytes`, returning the value
    /// and the number of bytes consumed.
    pub fn decode(bytes: &[u8]) -> (r: Result<(Self, usize), TomoError>)
        ensures
            match r {
                Ok((v, n)) => spec_dec_path_seg(bytes@) == Ok::<(PathSegView, int), TomoError>((
                    v@,
                    n as int,
                )) && path_seg_wf(v@),
                Err(e) => spec_dec_path_seg(bytes@) == Err::<(PathSegView, int), TomoError>(e),
            },
    {
        proof {
            assert(bytes@.skip(0) =~= bytes@);
        }
        Self::decode_at(bytes, 0)
    }

    /// Append the wire form of this segment to `out`.
    pub fn encode(&self, out: &mut Vec<u8>)
        requires
            path_seg_wf(self@),
        ensures
            final(out)@ =~= old(out)@ + spec_enc_path_seg(self@),
    {
        match self {
            PathSeg::Segment(v) => {
                out.push(0x01);
                let mut k: usize = 0;
                while k < v.len()
                    invariant
                        k <= v@.len(),
                        out@ =~= old(out)@ + seq![0x01u8] + v@.subrange(0, k as int),
                    decreases v@.len() - k,
                {
                    out.push(v[k]);
                    k = k + 1;
                }
                proof {
                    assert(v@.subrange(0, v@.len() as int) =~= v@);
                }
            },
            PathSeg::Root => {
                out.push(0x10);
            },
        }
    }
}

impl Path {
    /// Decode one path starting at `at`, returning the path and the number
    /// of bytes consumed.
    fn decode_at(bytes: &[u8], at: usize) -> (r: Result<(Self, usize), TomoError>)
        requires
            at <= bytes@.len(),
        ensures
            match r {
                Ok((p, n)) => {
                    &&& spec_dec_path(bytes@.skip(at as int)) == Ok::<
                        (Seq<PathSegView>, int),
                        TomoError,
                    >((p@, n as int))
                    &&& path_wf(p)
                    &&& 4 <= n && at + n <= bytes@.len()
                },
                Err(e) => spec_dec_path(bytes@.skip(at as int)) == Err::<
                    (Seq<PathSegView>, int),
                    TomoError,
                >(e),
            },
    {
        let ghost s = bytes@.skip(at as int);
        if bytes.len() - at < 4 {
            return Err(TomoError::CorruptContainer);
        }
        let count = get_le32(bytes, at);
        proof {
            assert(bytes@.subrange(at as int, at + 4) =~= s.subrange(0, 4));
        }
        let mut segs: Vec<PathSeg> = Vec::new();
        let mut pos: usize = at + 4;
        let mut i: u32 = 0;
        proof {
            assert(bytes@.skip(pos as int) =~= s.skip(4));
            match spec_dec_segs(s.skip(4), count as int) {
                Err(_) => {},
                Ok((vs, c)) => {
                    assert(segs@.map_values(|x: PathSeg| x@) + vs =~= vs);
                },
            }
        }
        while i < count
            invariant
                at + 4 <= pos <= bytes@.len(),
                bytes@.len() <= usize::MAX,
                i <= count,
                s == bytes@.skip(at as int),
                count == le32_of(s.subrange(0, 4)),
                segs@.len() == i,
                forall|k: int| 0 <= k < segs@.len() ==> path_seg_wf((#[trigger] segs@[k])@),
                spec_dec_segs(s.skip(4), count as int) == spec_dec_segs_cont(
                    bytes@,
                    pos as int,
                    count - i,
                    segs@.map_values(|x: PathSeg| x@),
                    pos - at - 4,
                ),
            decreases count - i,
        {
            let ghost acc = segs@.map_values(|x: PathSeg| x@);
            match PathSeg::decode_at(bytes, pos) {
                Err(e) => {
                    proof {
                        assert(spec_dec_segs(bytes@.skip(pos as int), count - i) == Err::<
                            (Seq<PathSegView>, int),
                            TomoError,
                        >(e));
                        assert(spec_dec_segs(s.skip(4), count as int) == Err::<
                            (Seq<PathSegView>, int),
                            TomoError,
                        >(e));
                    }
                    return Err(e);
                },
                Ok((v, n)) => {
                    proof {
                        assert(bytes@.skip(pos as int).skip(n as int) =~= bytes@.skip(
                            pos + n,
                        ));
                        assert((segs@.push(v)).map_values(|x: PathSeg| x@) =~= acc.push(v@));
                        match spec_dec_segs(bytes@.skip(pos + n), count - i - 1) {
                            Err(_) => {},
                            Ok((vs, c)) => {
                                assert(acc + (seq![v@] + vs) =~= acc.push(v@) + vs);
                            },
                        }
                    }
                    segs.push(v);
                    pos = pos + n;
                    i = i + 1;
                },
            }
        }
        proof {
            let acc = segs@.map_values(|x: PathSeg| x@);
            assert(spec_dec_segs(bytes@.skip(pos as int), 0) == Ok::<
                (Seq<PathSegView>, int),
                TomoError,
            >((Seq::empty(), 0)));
            assert(acc + Seq::<PathSegView>::empty() =~= acc);
        }
        Ok((Path { segcount: count, segments: segs }, pos - at))
    }

    /// Decode a path from the front of `bytes`, returning the value and the
    /// number of bytes consumed.
    pub fn decode(bytes: &[u8]) -> (r: Result<(Self, usize), TomoError>)
        ensures
            match r {
                Ok((p, n)) => spec_dec_path(bytes@) == Ok::<(Seq<PathSegView>, int), TomoError>((
                    p@,
                    n as int,
                )) && path_wf(p),
                Err(e) => spec_dec_path(bytes@) == Err::<(Seq<PathSegView>, int), TomoError>(e),
            },
    {
        proof {
            assert(bytes@.skip(0) =~= bytes@);
        }
        Self::decode_at(bytes, 0)
    }

    /// Append the wire form of this path to `out`.
    pub fn encode(&self, out: &mut Vec<u8>)
        requires
            path_wf(*self),
        ensures
            final(out)@ =~= old(out)@ + spec_enc_path(self@),
    {
        push_le32(out, self.segcount);
        let mut i: usize = 0;
        while i < self.segments.len()
            invariant
                path_wf(*self),
                i <= self.segments@.len(),
                out@ =~= old(out)@ + le32_bytes(self.segcount) + spec_enc_segs(self@.take(
                    i as int,
                )),
            decreases self.segments@.len() - i,
        {
            proof {
                assert(self@.take(i + 1) =~= self@.take(i as int) + seq![self@[i as int]]);
                lemma_enc_segs_concat(self@.take(i as int), seq![self@[i as int]]);
                let single = seq![self@[i as int]];
                assert(single.drop_first() =~= Seq::<PathSegView>::empty());
                assert(spec_enc_segs(single) == spec_enc_path_seg(single[0]) + spec_enc_segs(
                    single.drop_first(),
                ));
                assert(spec_enc_segs(Seq::<PathSegView>::empty()) =~= Seq::<u8>::empty());
                assert(spec_enc_segs(single) =~= spec_enc_path_seg(self@[i as int]));
                assert(self@[i as int] == self.segments@[i as int]@);
            }
            self.segments[i].encode(out);
            i = i + 1;
        }
        proof {
            assert(self@.take(self.segments@.len() as int) =~= self@);
        }
    }
}

/// The only error a segment-run decoder reports is corruption.
pub proof fn lemma_dec_segs_err(b: Seq<u8>, n: int)
    requires
        spec_dec_segs(b, n) is Err,
    ensures
        spec_dec_segs(b, n)->Err_0 is CorruptContainer,
    decreases n,
{
    if n > 0 {
        match spec_dec_path_seg(b) {
            Err(_) => {},
            Ok((v, c)) => {
                lemma_dec_segs_err(b.skip(c), n - 1);
            },
        }
    }
}

/// The only error the path decoder reports is corruption.
pub proof fn lemma_dec_path_err(b: Seq<u8>)
    requires
        spec_dec_path(b) is Err,
    ensures
        spec_dec_path(b)->Err_0 is CorruptContainer,
{
    if b.len() >= 4 {
        lemma_dec_segs_err(b.skip(4), le32_of(b.subrange(0, 4)) as int);
    }
}

/// A decoded path consumes bounded bytes, is well formed, and re-encodes to
/// exactly the consumed bytes.
pub proof fn lemma_path_roundtrip(b: Seq<u8>)
    requires
        spec_dec_path(b) is Ok,
    ensures
        ({
            let (vs, n) = spec_dec_path(b)->Ok_0;
            &&& 4 <= n <= b.len()
            &&& path_view_wf(vs)
            &&& spec_enc_path(vs) =~= b.take(n)
        }),
{
    let count = le32_of(b.subrange(0, 4)) as int;
    let (vs, c) = spec_dec_segs(b.skip(4), count)->Ok_0;
    lemma_segs_roundtrip(b.skip(4), count);
    lemma_le32_bytes(b.subrange(0, 4));
    assert(vs.len() as u32 == le32_of(b.subrange(0, 4)));
    assert forall|i: int| 0 <= i < 4 + c implies spec_enc_path(vs)[i] == b.take(4 + c)[i] by {
        if i < 4 {
            assert(spec_enc_path(vs)[i] == le32_bytes(vs.len() as u32)[i]);
            assert(le32_bytes(le32_of(b.subrange(0, 4)))[i] == b.subrange(0, 4)[i]);
        } else {
            assert(spec_enc_path(vs)[i] == spec_enc_segs(vs)[i - 4]);
            assert(spec_enc_segs(vs)[i - 4] == b.skip(4).take(c)[i - 4]);
            assert(b.skip(4).take(c)[i - 4] == b[i]);
        }
    }
}

/// Encoding a well-formed path and decoding it back gives the path again,
/// whatever bytes follow.
pub proof fn lemma_path_encdec(vs: Seq<PathSegView>, rest: Seq<u8>)
    requires
        path_view_wf(vs),
    ensures
        spec_dec_path(spec_enc_path(vs) + rest) == Ok::<(Seq<PathSegView>, int), TomoError>((
            vs,
            spec_enc_path(vs).len() as int,
        )),
{
    let b = spec_enc_path(vs) + rest;
    assert(b.subrange(0, 4) =~= le32_bytes(vs.len() as u32));
    lemma_le32_value(vs.len() as u32);
    assert(b.skip(4) =~= spec_enc_segs(vs) + rest);
    lemma_segs_encdec(vs, rest);
}

/// The header in front of every entry's payload: two packed flag bits, six
/// reserved bits that must be zero, an encoding byte, and, only when
/// `has_params` is set, a u16-prefixed run of parameter bytes.
#[derive(Clone, Debug, PartialEq, Eq)]
pub struct EntryHeader {
    pub has_params: bool,
    pub nested: bool,
    pub encoding: Encoding,
    pub params: Vec<u8>,
}

/// Mathematical model of an entry header.
pub struct EntryHeaderView {
    pub has_params: bool,
    pub nested: bool,
    pub encoding: Encoding,
    pub params: Seq<u8>,
}

impl View for EntryHeader {
    type V = EntryHeaderView;

    open spec fn view(&self) -> EntryHeaderView {
        EntryHeaderView {
            has_params: self.has_params,
            nested: self.nested,
            encoding: self.encoding,
            params: self.params@,
        }
    }
}

/// An entry header is well formed when a cleared `has_params` carries no
/// parameter bytes and the parameter run fits the wire's u16.
pub open spec fn entry_header_wf(v: EntryHeaderView) -> bool {
    (!v.has_params ==> v.params.len() == 0) && v.params.len() <= 0xFFFF
}

/// The packed flags byte: `has_params` is bit 7, `nested` is bit 6, and the
/// six low bits are reserved as zero.
pub open spec fn flags_byte(has_params: bool, nested: bool) -> u8 {
    if has_params && nested {
        0xC0
    } else if has_params {
        0x80
    } else if nested {
        0x40
    } else {
        0x00
    }
}

/// Wire form of an entry header.
pub open spec fn spec_enc_entry_header(v: EntryHeaderView) -> Seq<u8> {
    seq![flags_byte(v.has_params, v.nested), encoding_byte(v.encoding)] + (if v.has_params {
        le16_bytes(v.params.len() as u16) + v.params
    } else {
        Seq::empty()
    })
}

/// Spec-level decoder for an entry header. A non-zero reserved bit, an
/// unknown encoding byte, or a truncated parameter run is `CorruptContainer`.
pub open spec fn spec_dec_entry_header(b: Seq<u8>) -> Result<(EntryHeaderView, int), TomoError> {
    if b.len() < 2 {
        Err(TomoError::CorruptContainer)
    } else if b[0] & 0x3F != 0 {
        Err(TomoError::CorruptContainer)
    } else if encoding_of_byte(b[1]) is None {
        Err(TomoError::CorruptContainer)
    } else {
        let has_params = b[0] & 0x80 != 0;
        let nested = b[0] & 0x40 != 0;
        let encoding = encoding_of_byte(b[1])->Some_0;
        if !has_params {
            Ok((EntryHeaderView { has_params, nested, encoding, params: Seq::empty() }, 2))
        } else if b.len() < 4 {
            Err(TomoError::CorruptContainer)
        } else {
            let params_bytes = le16_of(b.subrange(2, 4)) as int;
            if b.len() < 4 + params_bytes {
                Err(TomoError::CorruptContainer)
            } else {
                Ok((
                    EntryHeaderView {
                        has_params,
                        nested,
                        encoding,
                        params: b.subrange(4, 4 + params_bytes),
                    },
                    4 + params_bytes,
                ))
            }
        }
    }
}

impl EntryHeader {
    /// Decode an entry header from the front of `bytes`, returning the value
    /// and the number of bytes consumed.
    pub fn decode(bytes: &[u8]) -> (r: Result<(Self, usize), TomoError>)
        ensures
            match r {
                Ok((v, n)) => spec_dec_entry_header(bytes@) == Ok::<
                    (EntryHeaderView, int),
                    TomoError,
                >((v@, n as int)) && entry_header_wf(v@),
                Err(e) => spec_dec_entry_header(bytes@) == Err::<(EntryHeaderView, int), TomoError>(
                    e,
                ),
            },
    {
        if bytes.len() < 2 {
            return Err(TomoError::CorruptContainer);
        }
        let flags = bytes[0];
        if flags & 0x3F != 0 {
            return Err(TomoError::CorruptContainer);
        }
        let eb = bytes[1];
        let encoding = if eb == 0x00 {
            Encoding::Raw
        } else if eb == 0x01 {
            Encoding::Zstd
        } else if eb == 0xFE {
            Encoding::Custom
        } else if eb == 0xFF {
            Encoding::Tomo
        } else {
            return Err(TomoError::CorruptContainer);
        };
        let has_params = flags & 0x80 != 0;
        let nested = flags & 0x40 != 0;
        if !has_params {
            let r = EntryHeader { has_params, nested, encoding, params: Vec::new() };
            proof {
                assert(r@.params =~= Seq::<u8>::empty());
            }
            return Ok((r, 2));
        }
        if bytes.len() < 4 {
            return Err(TomoError::CorruptContainer);
        }
        let params_bytes = get_le16(bytes, 2);
        if bytes.len() - 4 < params_bytes as usize {
            return Err(TomoError::CorruptContainer);
        }
        let mut params: Vec<u8> = Vec::new();
        let mut k: usize = 0;
        while k < params_bytes as usize
            invariant
                k <= params_bytes as usize,
                4 + params_bytes as int <= bytes@.len(),
                params@ =~= bytes@.subrange(4, 4 + k as int),
            decreases params_bytes as int - k,
        {
            params.push(bytes[4 + k]);
            k = k + 1;
        }
        Ok((EntryHeader { has_params, nested, encoding, params }, 4 + params_bytes as usize))
    }

    /// Append the wire form of this entry header to `out`.
    pub fn encode(&self, out: &mut Vec<u8>)
        requires
            entry_header_wf(self@),
        ensures
            final(out)@ =~= old(out)@ + spec_enc_entry_header(self@),
    {
        let flags: u8 = if self.has_params && self.nested {
            0xC0
        } else if self.has_params {
            0x80
        } else if self.nested {
            0x40
        } else {
            0x00
        };
        out.push(flags);
        let eb: u8 = match self.encoding {
            Encoding::Raw => 0x00,
            Encoding::Zstd => 0x01,
            Encoding::Custom => 0xFE,
            Encoding::Tomo => 0xFF,
        };
        out.push(eb);
        if self.has_params {
            push_le16(out, self.params.len() as u16);
            let mut k: usize = 0;
            while k < self.params.len()
                invariant
                    k <= self.params@.len(),
                    out@ =~= old(out)@ + seq![
                        flags_byte(self.has_params, self.nested),
                        encoding_byte(self.encoding),
                    ] + le16_bytes(self.params@.len() as u16) + self.params@.subrange(
                        0,
                        k as int,
                    ),
                    self@.params == self.params@,
                decreases self.params@.len() - k,
            {
                out.push(self.params[k]);
                k = k + 1;
            }
            proof {
                assert(self.params@.subrange(0, self.params@.len() as int) =~= self.params@);
            }
        }
    }
}

/// A decoded entry header consumes bounded bytes, is well formed, and
/// re-encodes to exactly the consumed bytes.
pub proof fn lemma_entry_header_roundtrip(b: Seq<u8>)
    requires
        spec_dec_entry_header(b) is Ok,
    ensures
        ({
            let (v, n) = spec_dec_entry_header(b)->Ok_0;
            &&& 2 <= n <= b.len()
            &&& entry_header_wf(v)
            &&& spec_enc_entry_header(v) =~= b.take(n)
        }),
{
    let (v, n) = spec_dec_entry_header(b)->Ok_0;
    let f = b[0];
    assert(f & 0x3F == 0 ==> ((f & 0x80 != 0) && (f & 0x40 != 0) ==> f == 0xC0) && ((f & 0x80
        != 0) && (f & 0x40 == 0) ==> f == 0x80) && ((f & 0x80 == 0) && (f & 0x40 != 0) ==> f
        == 0x40) && ((f & 0x80 == 0) && (f & 0x40 == 0) ==> f == 0x00)) by (bit_vector);
    assert(flags_byte(v.has_params, v.nested) == f);
    assert(encoding_byte(v.encoding) == b[1]);
    if v.has_params {
        lemma_le16_bytes(b.subrange(2, 4));
        assert(v.params.len() == le16_of(b.subrange(2, 4)));
    }
}

/// Encoding a well-formed entry header and decoding it back gives the header
/// again, whatever bytes follow.
pub proof fn lemma_entry_header_encdec(v: EntryHeaderView, rest: Seq<u8>)
    requires
        entry_header_wf(v),
    ensures
        spec_dec_entry_header(spec_enc_entry_header(v) + rest) == Ok::<
            (EntryHeaderView, int),
            TomoError,
        >((v, spec_enc_entry_header(v).len() as int)),
{
    let b = spec_enc_entry_header(v) + rest;
    let f = flags_byte(v.has_params, v.nested);
    assert(0xC0u8 & 0x3F == 0 && 0x80u8 & 0x3F == 0 && 0x40u8 & 0x3F == 0 && 0x00u8 & 0x3F == 0)
        by (bit_vector);
    assert(0xC0u8 & 0x80 != 0 && 0xC0u8 & 0x40 != 0 && 0x80u8 & 0x80 != 0 && 0x80u8 & 0x40 == 0
        && 0x40u8 & 0x80 == 0 && 0x40u8 & 0x40 != 0 && 0x00u8 & 0x80 == 0 && 0x00u8 & 0x40 == 0)
        by (bit_vector);
    assert(b[0] == f);
    assert(b[1] == encoding_byte(v.encoding));
    assert(encoding_of_byte(encoding_byte(v.encoding)) == Some(v.encoding));
    if v.has_params {
        assert(b.subrange(2, 4) =~= le16_bytes(v.params.len() as u16));
        lemma_le16_value(v.params.len() as u16);
        assert(b.subrange(4, 4 + v.params.len() as int) =~= v.params);
    } else {
        let w = spec_dec_entry_header(b)->Ok_0.0;
        assert(w.params =~= v.params);
        assert(w == v);
    }
}

/// Parameters of a Zstd-encoded entry: the index of the indic pointing at
/// the dictionary data file.
#[derive(Clone, Copy, Debug, PartialEq, Eq, PartialOrd, Ord, Structural)]
pub struct ZstdParams {
    pub dictionary: u64,
}

/// Wire form of Zstd parameters.
pub open spec fn spec_enc_zstd_params(z: ZstdParams) -> Seq<u8> {
    le64_bytes(z.dictionary)
}

/// Spec-level decoder for Zstd parameters.
pub open spec fn spec_dec_zstd_params(b: Seq<u8>) -> Result<(ZstdParams, int), TomoError> {
    if b.len() < 8 {
        Err(TomoError::CorruptContainer)
    } else {
        Ok((ZstdParams { dictionary: le64_of(b.subrange(0, 8)) }, 8))
    }
}

impl ZstdParams {
    /// Decode Zstd parameters from the front of `bytes`.
    pub fn decode(bytes: &[u8]) -> (r: Result<(Self, usize), TomoError>)
        ensures
            match r {
                Ok((v, n)) => spec_dec_zstd_params(bytes@) == Ok::<(ZstdParams, int), TomoError>((
                    v,
                    n as int,
                )),
                Err(e) => spec_dec_zstd_params(bytes@) == Err::<(ZstdParams, int), TomoError>(e),
            },
    {
        if bytes.len() < 8 {
            return Err(TomoError::CorruptContainer);
        }
        let dictionary = get_le64(bytes, 0);
        Ok((ZstdParams { dictionary }, 8))
    }

    /// Append the wire form of these parameters to `out`.
    pub fn encode(&self, out: &mut Vec<u8>)
        ensures
            final(out)@ =~= old(out)@ + spec_enc_zstd_params(*self),
    {
        push_le64(out, self.dictionary);
    }
}

/// Parameters of a custom-encoded entry: the NUL-terminated name of the
/// program that decodes it.
#[derive(Clone, Debug, PartialEq, Eq, PartialOrd, Ord)]
pub enum CustomParams {
    Program(Vec<u8>),
}

/// Mathematical model of custom parameters.
pub enum CustomParamsView {
    Program(Seq<u8>),
}

impl View for CustomParams {
    type V = CustomParamsView;

    open spec fn view(&self) -> CustomParamsView {
        match self {
            CustomParams::Program(v) => CustomParamsView::Program(v@),
        }
    }
}

/// A program name ends at, and includes, the terminating NUL, and holds no
/// NUL before it.
pub open spec fn custom_params_wf(v: CustomParamsView) -> bool {
    match v {
        CustomParamsView::Program(s) => s.len() >= 1 && s[s.len() - 1] == 0 && (forall|i: int|
            0 <= i < s.len() - 1 ==> s[i] != 0),
    }
}

/// Wire form of custom parameters.
pub open spec fn spec_enc_custom_params(v: CustomParamsView) -> Seq<u8> {
    match v {
        CustomParamsView::Program(s) => seq![0x01u8] + s,
    }
}

/// Spec-level decoder for custom parameters.
pub open spec fn spec_dec_custom_params(b: Seq<u8>) -> Result<(CustomParamsView, int), TomoError> {
    if b.len() < 1 || b[0] != 0x01 {
        Err(TomoError::CorruptContainer)
    } else {
        match first_zero(b.skip(1)) {
            None => Err(TomoError::CorruptContainer),
            Some(j) => Ok((CustomParamsView::Program(b.subrange(1, 2 + j)), 2 + j)),
        }
    }
}

impl CustomParams {
    /// Decode custom parameters from the front of `bytes`.
    pub fn decode(bytes: &[u8]) -> (r: Result<(Self, usize), TomoError>)
        ensures
            match r {
                Ok((v, n)) => spec_dec_custom_params(bytes@) == Ok::<
                    (CustomParamsView, int),
                    TomoError,
                >((v@, n as int)) && custom_params_wf(v@),
                Err(e) => spec_dec_custom_params(bytes@) == Err::<
                    (CustomParamsView, int),
                    TomoError,
                >(e),
            },
    {
        if bytes.len() < 1 || bytes[0] != 0x01 {
            return Err(TomoError::CorruptContainer);
        }
        let ghost t = bytes@.skip(1);
        proof {
            assert(forall|i: int| 0 <= i < t.len() ==> t[i] == bytes@[1 + i]);
        }
        let mut j: usize = 1;
        while j < bytes.len() && bytes[j] != 0
            invariant
                1 <= j <= bytes@.len(),
                forall|i: int| 1 <= i < j ==> bytes@[i] != 0,
            decreases bytes@.len() - j,
        {
            j = j + 1;
        }
        if j == bytes.len() {
            proof {
                lemma_first_zero_none(t);
            }
            return Err(TomoError::CorruptContainer);
        }
        let mut name: Vec<u8> = Vec::new();
        let mut k: usize = 1;
        while k <= j
            invariant
                1 <= k <= j + 1,
                j < bytes@.len(),
                name@ =~= bytes@.subrange(1, k as int),
            decreases j + 1 - k,
        {
            name.push(bytes[k]);
            k = k + 1;
        }
        proof {
            let jr = j - 1;
            assert(t[jr as int] == bytes@[j as int]);
            lemma_first_zero_at(t, jr as int);
            assert(bytes@.subrange(1, j + 1) =~= bytes@.skip(0).subrange(1, 2 + jr));
            assert(name@[name@.len() - 1] == 0);
        }
        Ok((CustomParams::Program(name), j + 1))
    }

    /// Append the wire form of these parameters to `out`.
    pub fn encode(&self, out: &mut Vec<u8>)
        requires
            custom_params_wf(self@),
        ensures
            final(out)@ =~= old(out)@ + spec_enc_custom_params(self@),
    {
        match self {
            CustomParams::Program(v) => {
                out.push(0x01);
                let mut k: usize = 0;
                while k < v.len()
                    invariant
                        k <= v@.len(),
                        out@ =~= old(out)@ + seq![0x01u8] + v@.subrange(0, k as int),
                    decreases v@.len() - k,
                {
                    out.push(v[k]);
                    k = k + 1;
                }
                proof {
                    assert(v@.subrange(0, v@.len() as int) =~= v@);
                }
            },
        }
    }
}

/// The Paths special entry: a count, a lookup table, and the concatenated
/// paths. Decoding reads the paths sequentially and skips the lookup table;
/// encoding regenerates the canonical table, whose offsets are measured from
/// the start of the payload, so the first item's offset is
/// `4 + count * 12`.
#[derive(Clone, Debug, PartialEq, Eq)]
pub struct PathsEntry {
    pub path_count: u32,
    pub paths: Vec<Path>,
}

impl View for PathsEntry {
    type V = Seq<Seq<PathSegView>>;

    open spec fn view(&self) -> Seq<Seq<PathSegView>> {
        self.paths@.map_values(|p: Path| p@)
    }
}

/// A Paths entry is well formed when its stored count matches its paths and
/// each path is well formed.
pub open spec fn paths_entry_wf(e: PathsEntry) -> bool {
    e.path_count == e.paths@.len() && forall|i: int|
        0 <= i < e.paths@.len() ==> path_wf(#[trigger] e.paths@[i])
}

/// Spec-level decoder for `n` consecutive paths.
pub open spec fn spec_dec_paths_seq(b: Seq<u8>, n: int) -> Result<
    (Seq<Seq<PathSegView>>, int),
    TomoError,
>
    decreases n,
{
    if n <= 0 {
        Ok((Seq::empty(), 0))
    } else {
        match spec_dec_path(b) {
            Err(e) => Err(e),
            Ok((v, c)) => match spec_dec_paths_seq(b.skip(c), n - 1) {
                Err(e) => Err(e),
                Ok((vs, cs)) => Ok((seq![v] + vs, c + cs)),
            },
        }
    }
}

/// Concatenated wire forms of a sequence of paths.
pub open spec fn spec_enc_paths_cat(v: Seq<Seq<PathSegView>>) -> Seq<u8>
    decreases v.len(),
{
    if v.len() == 0 {
        Seq::empty()
    } else {
        spec_enc_path(v[0]) + spec_enc_paths_cat(v.drop_first())
    }
}

/// The canonical lookup table over a sequence of paths: 1-based indexes from
/// `idx` on, offsets from `off` on, each item advancing the offset by its
/// encoded length.
pub open spec fn spec_paths_lookup(v: Seq<Seq<PathSegView>>, idx: int, off: int) -> Seq<u8>
    decreases v.len(),
{
    if v.len() == 0 {
        Seq::empty()
    } else {
        spec_enc_lookup(Lookup { index: idx as u32, offset: off as u64 }) + spec_paths_lookup(
            v.drop_first(),
            idx + 1,
            off + spec_enc_path(v[0]).len(),
        )
    }
}

/// Wire form of a Paths entry with its canonical lookup table.
pub open spec fn spec_enc_paths_entry(v: Seq<Seq<PathSegView>>) -> Seq<u8> {
    le32_bytes(v.len() as u32) + spec_paths_lookup(v, 1, 4 + 12 * v.len() as int) + spec_enc_paths_cat(v)
}

/// Spec-level decoder for a Paths entry. The lookup table is skipped; the
/// paths are read sequentially after it.
pub open spec fn spec_dec_paths_entry(b: Seq<u8>) -> Result<
    (Seq<Seq<PathSegView>>, int),
    TomoError,
> {
    if b.len() < 4 {
        Err(TomoError::CorruptContainer)
    } else {
        let n = le32_of(b.subrange(0, 4)) as int;
        if b.len() < 4 + 12 * n {
            Err(TomoError::CorruptContainer)
        } else {
            match spec_dec_paths_seq(b.skip(4 + 12 * n), n) {
                Err(e) => Err(e),
                Ok((vs, c)) => Ok((vs, 4 + 12 * n + c)),
            }
        }
    }
}

/// Concatenated path encodings split over sequence concatenation.
pub proof fn lemma_enc_paths_cat_concat(a: Seq<Seq<PathSegView>>, b: Seq<Seq<PathSegView>>)
    ensures
        spec_enc_paths_cat(a + b) =~= spec_enc_paths_cat(a) + spec_enc_paths_cat(b),
    decreases a.len(),
{
    if a.len() == 0 {
        assert(a + b =~= b);
    } else {
        assert((a + b)[0] == a[0]);
        assert((a + b).drop_first() =~= a.drop_first() + b);
        lemma_enc_paths_cat_concat(a.drop_first(), b);
    }
}

/// The canonical lookup table splits over sequence concatenation, with the
/// index and offset advanced past the first part.
pub proof fn lemma_paths_lookup_concat(
    a: Seq<Seq<PathSegView>>,
    b: Seq<Seq<PathSegView>>,
    idx: int,
    off: int,
)
    ensures
        spec_paths_lookup(a + b, idx, off) =~= spec_paths_lookup(a, idx, off)
            + spec_paths_lookup(b, idx + a.len(), off + spec_enc_paths_cat(a).len()),
    decreases a.len(),
{
    if a.len() == 0 {
        assert(a + b =~= b);
        assert(spec_enc_paths_cat(a).len() == 0);
    } else {
        assert((a + b)[0] == a[0]);
        assert((a + b).drop_first() =~= a.drop_first() + b);
        lemma_paths_lookup_concat(a.drop_first(), b, idx + 1, off + spec_enc_path(a[0]).len());
    }
}

/// The canonical lookup table over `v` is exactly `12 * v.len()` bytes.
pub proof fn lemma_paths_lookup_len(v: Seq<Seq<PathSegView>>, idx: int, off: int)
    ensures
        spec_paths_lookup(v, idx, off).len() == 12 * v.len(),
    decreases v.len(),
{
    if v.len() > 0 {
        lemma_paths_lookup_len(v.drop_first(), idx + 1, off + spec_enc_path(v[0]).len());
    }
}

/// Decoded path runs consume bounded bytes, count `n`, are well formed, and
/// re-encode to exactly the consumed bytes.
pub proof fn lemma_paths_seq_roundtrip(b: Seq<u8>, n: int)
    requires
        spec_dec_paths_seq(b, n) is Ok,
    ensures
        ({
            let (vs, c) = spec_dec_paths_seq(b, n)->Ok_0;
            &&& 0 <= c <= b.len()
            &&& vs.len() == (if n <= 0 { 0int } else { n })
            &&& (forall|i: int| 0 <= i < vs.len() ==> path_view_wf(#[trigger] vs[i]))
            &&& spec_enc_paths_cat(vs) =~= b.take(c)
        }),
    decreases n,
{
    if n > 0 {
        let (v, c) = spec_dec_path(b)->Ok_0;
        lemma_path_roundtrip(b);
        let (vs2, c2) = spec_dec_paths_seq(b.skip(c), n - 1)->Ok_0;
        lemma_paths_seq_roundtrip(b.skip(c), n - 1);
        let vs = seq![v] + vs2;
        assert(vs.drop_first() =~= vs2);
        assert(vs[0] == v);
        assert(spec_enc_paths_cat(vs) == spec_enc_path(v) + spec_enc_paths_cat(vs2));
        assert(spec_enc_paths_cat(vs2) =~= b.skip(c).take(c2));
        assert forall|i: int| 0 <= i < c + c2 implies spec_enc_paths_cat(vs)[i] == b.take(
            c + c2,
        )[i] by {
            if i < c {
                assert(spec_enc_paths_cat(vs)[i] == spec_enc_path(v)[i]);
                assert(spec_enc_path(v)[i] == b.take(c)[i]);
            } else {
                assert(spec_enc_paths_cat(vs)[i] == spec_enc_paths_cat(vs2)[i - c]);
                assert(b.skip(c).take(c2)[i - c] == b[i]);
            }
        }
    }
}

/// Encoding well-formed paths and decoding them back gives the paths again,
/// whatever bytes follow.
pub proof fn lemma_paths_seq_encdec(vs: Seq<Seq<PathSegView>>, rest: Seq<u8>)
    requires
        forall|i: int| 0 <= i < vs.len() ==> path_view_wf(#[trigger] vs[i]),
    ensures
        spec_dec_paths_seq(spec_enc_paths_cat(vs) + rest, vs.len() as int) == Ok::<
            (Seq<Seq<PathSegView>>, int),
            TomoError,
        >((vs, spec_enc_paths_cat(vs).len() as int)),
    decreases vs.len(),
{
    if vs.len() == 0 {
        assert(spec_enc_paths_cat(vs) + rest =~= rest);
        assert(Seq::<Seq<PathSegView>>::empty() =~= vs);
    } else {
        let v = vs[0];
        let tail = vs.drop_first();
        let e0 = spec_enc_path(v);
        let etail = spec_enc_paths_cat(tail);
        let b = spec_enc_paths_cat(vs) + rest;
        assert(b =~= e0 + (etail + rest));
        lemma_path_encdec(v, etail + rest);
        assert(b.skip(e0.len() as int) =~= etail + rest);
        lemma_paths_seq_encdec(tail, rest);
        assert(seq![v] + tail =~= vs);
    }
}

/// Decoding then encoding a Paths entry reproduces the consumed bytes,
/// provided the entry carried the canonical lookup table.
pub proof fn lemma_paths_entry_roundtrip(b: Seq<u8>)
    requires
        spec_dec_paths_entry(b) is Ok,
        ({
            let (vs, n) = spec_dec_paths_entry(b)->Ok_0;
            b.subrange(4, 4 + 12 * vs.len() as int) == spec_paths_lookup(vs, 1, 4 + 12 * vs.len() as int)
        }),
    ensures
        ({
            let (vs, n) = spec_dec_paths_entry(b)->Ok_0;
            &&& 4 <= n <= b.len()
            &&& vs.len() <= u32::MAX
            &&& spec_enc_paths_entry(vs) =~= b.take(n)
        }),
{
    let (vs, n) = spec_dec_paths_entry(b)->Ok_0;
    let cnt = le32_of(b.subrange(0, 4)) as int;
    let body = b.skip(4 + 12 * cnt);
    lemma_paths_seq_roundtrip(body, cnt);
    let (_, c) = spec_dec_paths_seq(body, cnt)->Ok_0;
    lemma_le32_bytes(b.subrange(0, 4));
    lemma_paths_lookup_len(vs, 1, 4 + 12 * vs.len() as int);
    assert forall|i: int| 0 <= i < n implies spec_enc_paths_entry(vs)[i] == b.take(n)[i] by {
        if i < 4 {
            assert(spec_enc_paths_entry(vs)[i] == le32_bytes(vs.len() as u32)[i]);
            assert(le32_bytes(le32_of(b.subrange(0, 4)))[i] == b.subrange(0, 4)[i]);
        } else if i < 4 + 12 * cnt {
            assert(spec_enc_paths_entry(vs)[i] == spec_paths_lookup(vs, 1, 4 + 12 * vs.len() as int)[i
                - 4]);
            assert(b.subrange(4, 4 + 12 * vs.len() as int)[i - 4] == b[i]);
        } else {
            assert(spec_enc_paths_entry(vs)[i] == spec_enc_paths_cat(vs)[i - 4 - 12 * cnt]);
            assert(spec_enc_paths_cat(vs)[i - 4 - 12 * cnt] == body.take(c)[i - 4 - 12 * cnt]);
            assert(body.take(c)[i - 4 - 12 * cnt] == b[i]);
        }
    }
}

/// Encoding a well-formed Paths entry and decoding it back gives the entry
/// again, whatever bytes follow.
pub proof fn lemma_paths_entry_encdec(vs: Seq<Seq<PathSegView>>, rest: Seq<u8>)
    requires
        vs.len() <= u32::MAX,
        forall|i: int| 0 <= i < vs.len() ==> path_view_wf(#[trigger] vs[i]),
    ensures
        spec_dec_paths_entry(spec_enc_paths_entry(vs) + rest) == Ok::<
            (Seq<Seq<PathSegView>>, int),
            TomoError,
        >((vs, spec_enc_paths_entry(vs).len() as int)),
{
    let b = spec_enc_paths_entry(vs) + rest;
    lemma_paths_lookup_len(vs, 1, 4 + 12 * vs.len() as int);
    assert(b.subrange(0, 4) =~= le32_bytes(vs.len() as u32));
    lemma_le32_value(vs.len() as u32);
    assert(b.skip(4 + 12 * vs.len() as int) =~= spec_enc_paths_cat(vs) + rest);
    lemma_paths_seq_encdec(vs, rest);
}

impl PathsEntry {
    /// Decode a Paths entry from the front of `bytes`, returning the value
    /// and the number of bytes consumed. The lookup table is skipped.
    pub fn decode(bytes: &[u8]) -> (r: Result<(Self, usize), TomoError>)
        ensures
            match r {
                Ok((v, n)) => spec_dec_paths_entry(bytes@) == Ok::<
                    (Seq<Seq<PathSegView>>, int),
                    TomoError,
                >((v@, n as int)) && paths_entry_wf(v),
                Err(e) => spec_dec_paths_entry(bytes@) == Err::<
                    (Seq<Seq<PathSegView>>, int),
                    TomoError,
                >(e),
            },
    {
        if bytes.len() < 4 {
            return Err(TomoError::CorruptContainer);
        }
        let count = get_le32(bytes, 0);
        let need: u64 = 4 + 12 * (count as u64);
        if (bytes.len() as u64) < need {
            return Err(TomoError::CorruptContainer);
        }
        let ghost cnt = count as int;
        let pos0: usize = need as usize;
        let mut paths: Vec<Path> = Vec::new();
        let mut pos: usize = pos0;
        let mut i: u32 = 0;
        proof {
            match spec_dec_paths_seq(bytes@.skip(pos0 as int), cnt) {
                Err(_) => {},
                Ok((vs, c)) => {
                    assert(paths@.map_values(|x: Path| x@) + vs =~= vs);
                },
            }
        }
        while i < count
            invariant
                pos0 == 4 + 12 * count,
                pos0 <= pos <= bytes@.len(),
                bytes@.len() <= usize::MAX,
                i <= count,
                count == le32_of(bytes@.subrange(0, 4)),
                paths@.len() == i,
                forall|k: int| 0 <= k < paths@.len() ==> path_wf(#[trigger] paths@[k]),
                ({
                    match spec_dec_paths_seq(bytes@.skip(pos as int), count - i) {
                        Err(e) => spec_dec_paths_seq(bytes@.skip(pos0 as int), count as int)
                            == Err::<(Seq<Seq<PathSegView>>, int), TomoError>(e),
                        Ok((vs, c)) => spec_dec_paths_seq(bytes@.skip(pos0 as int), count as int)
                            == Ok::<(Seq<Seq<PathSegView>>, int), TomoError>((
                            paths@.map_values(|x: Path| x@) + vs,
                            (pos - pos0) + c,
                        )),
                    }
                }),
            decreases count - i,
        {
            let ghost acc = paths@.map_values(|x: Path| x@);
            match Path::decode_at(bytes, pos) {
                Err(e) => {
                    return Err(e);
                },
                Ok((p, n)) => {
                    proof {
                        assert(bytes@.skip(pos as int).skip(n as int) =~= bytes@.skip(pos + n));
                        assert((paths@.push(p)).map_values(|x: Path| x@) =~= acc.push(p@));
                        match spec_dec_paths_seq(bytes@.skip(pos + n), count - i - 1) {
                            Err(_) => {},
                            Ok((vs, c)) => {
                                assert(acc + (seq![p@] + vs) =~= acc.push(p@) + vs);
                            },
                        }
                    }
                    paths.push(p);
                    pos = pos + n;
                    i = i + 1;
                },
            }
        }
        proof {
            let acc = paths@.map_values(|x: Path| x@);
            assert(spec_dec_paths_seq(bytes@.skip(pos as int), 0) == Ok::<
                (Seq<Seq<PathSegView>>, int),
                TomoError,
            >((Seq::empty(), 0)));
            assert(acc + Seq::<Seq<PathSegView>>::empty() =~= acc);
        }
        Ok((PathsEntry { path_count: count, paths }, pos))
    }

    /// Append the wire form of this entry, canonical lookup table included,
    /// to `out`.
    pub fn encode(&self, out: &mut Vec<u8>)
        requires
            paths_entry_wf(*self),
            4 + 12 * self.paths@.len() + spec_enc_paths_cat(self@).len() <= u64::MAX,
        ensures
            final(out)@ =~= old(out)@ + spec_enc_paths_entry(self@),
    {
        let count = self.path_count;
        push_le32(out, count);
        let base: u64 = 4 + 12 * (count as u64);
        let mut table: Vec<u8> = Vec::new();
        let mut items: Vec<u8> = Vec::new();
        let mut i: usize = 0;
        while i < self.paths.len()
            invariant
                paths_entry_wf(*self),
                count == self.path_count,
                base == 4 + 12 * (count as u64),
                4 + 12 * self.paths@.len() + spec_enc_paths_cat(self@).len() <= u64::MAX,
                i <= self.paths@.len(),
                table@ =~= spec_paths_lookup(self@.take(i as int), 1, base as int),
                items@ =~= spec_enc_paths_cat(self@.take(i as int)),
            decreases self.paths@.len() - i,
        {
            proof {
                let pre = self@.take(i as int);
                let single = seq![self@[i as int]];
                assert(self@.take(i + 1) =~= pre + single);
                assert(pre + self@.skip(i as int) =~= self@);
                lemma_enc_paths_cat_concat(pre, self@.skip(i as int));
                lemma_enc_paths_cat_concat(pre, single);
                lemma_paths_lookup_concat(pre, single, 1, base as int);
                assert(single.drop_first() =~= Seq::<Seq<PathSegView>>::empty());
                assert(single[0] == self@[i as int]);
                assert(spec_enc_paths_cat(single) == spec_enc_path(single[0])
                    + spec_enc_paths_cat(single.drop_first()));
                assert(spec_enc_paths_cat(Seq::<Seq<PathSegView>>::empty()) =~= Seq::<
                    u8,
                >::empty());
                assert(spec_enc_paths_cat(single) =~= spec_enc_path(self@[i as int]));
                let lone = spec_enc_lookup(
                    Lookup {
                        index: (1 + i as int) as u32,
                        offset: (base + items@.len()) as u64,
                    },
                );
                assert(spec_paths_lookup(single, 1 + i as int, base + items@.len()) == lone
                    + spec_paths_lookup(
                    single.drop_first(),
                    2 + i as int,
                    base + items@.len() + spec_enc_path(single[0]).len(),
                ));
                assert(spec_paths_lookup(
                    Seq::<Seq<PathSegView>>::empty(),
                    2 + i as int,
                    base + items@.len() + spec_enc_path(single[0]).len(),
                ) =~= Seq::<u8>::empty());
                assert(spec_paths_lookup(single, 1 + i as int, base + items@.len()) =~= lone);
                assert(spec_enc_paths_cat(self@.skip(i as int)).len() >= spec_enc_path(
                    self@[i as int],
                ).len()) by {
                    let sk = self@.skip(i as int);
                    assert(sk[0] == self@[i as int]);
                }
                assert(self@[i as int] == self.paths@[i as int]@);
            }
            let off: u64 = base + items.len() as u64;
            let lk = Lookup { index: (i as u32) + 1, offset: off };
            lk.encode(&mut table);
            self.paths[i].encode(&mut items);
            i = i + 1;
        }
        proof {
            assert(self@.take(self.paths@.len() as int) =~= self@);
        }
        out.append(&mut table);
        out.append(&mut items);
    }
}

/// The Attributes special entry: a count, a lookup table, and the
/// concatenated attribute records.
#[derive(Clone, Debug, PartialEq, Eq)]
pub struct AttributesEntry {
    pub attr_count: u32,
    pub attrs: Vec<Attributes>,
}

impl View for AttributesEntry {
    type V = Seq<Attributes>;

    open spec fn view(&self) -> Seq<Attributes> {
        self.attrs@
    }
}

/// An Attributes entry is well formed when its stored count matches its
/// records.
pub open spec fn attributes_entry_wf(e: AttributesEntry) -> bool {
    e.attr_count == e.attrs@.len()
}

/// Spec-level decoder for `n` consecutive attribute records.
pub open spec fn spec_dec_attrs_seq(b: Seq<u8>, n: int) -> Result<(Seq<Attributes>, int), TomoError>
    decreases n,
{
    if n <= 0 {
        Ok((Seq::empty(), 0))
    } else {
        match spec_dec_attributes(b) {
            Err(e) => Err(e),
            Ok((v, c)) => match spec_dec_attrs_seq(b.skip(c), n - 1) {
                Err(e) => Err(e),
                Ok((vs, cs)) => Ok((seq![v] + vs, c + cs)),
            },
        }
    }
}

/// Concatenated wire forms of a sequence of attribute records.
pub open spec fn spec_enc_attrs_cat(v: Seq<Attributes>) -> Seq<u8>
    decreases v.len(),
{
    if v.len() == 0 {
        Seq::empty()
    } else {
        spec_enc_attributes(v[0]) + spec_enc_attrs_cat(v.drop_first())
    }
}

/// The canonical lookup table over a sequence of attribute records.
pub open spec fn spec_attrs_lookup(v: Seq<Attributes>, idx: int, off: int) -> Seq<u8>
    decreases v.len(),
{
    if v.len() == 0 {
        Seq::empty()
    } else {
        spec_enc_lookup(Lookup { index: idx as u32, offset: off as u64 }) + spec_attrs_lookup(
            v.drop_first(),
            idx + 1,
            off + 2,
        )
    }
}

/// Wire form of an Attributes entry with its canonical lookup table.
pub open spec fn spec_enc_attributes_entry(v: Seq<Attributes>) -> Seq<u8> {
    le32_bytes(v.len() as u32) + spec_attrs_lookup(v, 1, 4 + 12 * v.len() as int) + spec_enc_attrs_cat(v)
}

/// Spec-level decoder for an Attributes entry. The lookup table is skipped.
pub open spec fn spec_dec_attributes_entry(b: Seq<u8>) -> Result<(Seq<Attributes>, int), TomoError> {
    if b.len() < 4 {
        Err(TomoError::CorruptContainer)
    } else {
        let n = le32_of(b.subrange(0, 4)) as int;
        if b.len() < 4 + 12 * n {
            Err(TomoError::CorruptContainer)
        } else {
            match spec_dec_attrs_seq(b.skip(4 + 12 * n), n) {
                Err(e) => Err(e),
                Ok((vs, c)) => Ok((vs, 4 + 12 * n + c)),
            }
        }
    }
}

impl AttributesEntry {
    /// Decode an Attributes entry from the front of `bytes`, returning the
    /// value and the number of bytes consumed. The lookup table is skipped.
    pub fn decode(bytes: &[u8]) -> (r: Result<(Self, usize), TomoError>)
        ensures
            match r {
                Ok((v, n)) => spec_dec_attributes_entry(bytes@) == Ok::<
                    (Seq<Attributes>, int),
                    TomoError,
                >((v@, n as int)) && attributes_entry_wf(v),
                Err(e) => spec_dec_attributes_entry(bytes@) == Err::<
                    (Seq<Attributes>, int),
                    TomoError,
                >(e),
            },
    {
        if bytes.len() < 4 {
            return Err(TomoError::CorruptContainer);
        }
        let count = get_le32(bytes, 0);
        let need: u64 = 4 + 12 * (count as u64);
        if (bytes.len() as u64) < need {
            return Err(TomoError::CorruptContainer);
        }
        let pos0: usize = need as usize;
        let mut attrs: Vec<Attributes> = Vec::new();
        let mut pos: usize = pos0;
        let mut i: u32 = 0;
        proof {
            match spec_dec_attrs_seq(bytes@.skip(pos0 as int), count as int) {
                Err(_) => {},
                Ok((vs, c)) => {
                    assert(attrs@ + vs =~= vs);
                },
            }
        }
        while i < count
            invariant
                pos0 == 4 + 12 * count,
                pos0 <= pos <= bytes@.len(),
                bytes@.len() <= usize::MAX,
                i <= count,
                count == le32_of(bytes@.subrange(0, 4)),
                attrs@.len() == i,
                ({
                    match spec_dec_attrs_seq(bytes@.skip(pos as int), count - i) {
                        Err(e) => spec_dec_attrs_seq(bytes@.skip(pos0 as int), count as int)
                            == Err::<(Seq<Attributes>, int), TomoError>(e),
                        Ok((vs, c)) => spec_dec_attrs_seq(bytes@.skip(pos0 as int), count as int)
                            == Ok::<(Seq<Attributes>, int), TomoError>((
                            attrs@ + vs,
                            (pos - pos0) + c,
                        )),
                    }
                }),
            decreases count - i,
        {
            let ghost acc = attrs@;
            if bytes.len() - pos < 2 {
                proof {
                    assert(bytes@.skip(pos as int).len() < 2);
                }
                return Err(TomoError::CorruptContainer);
            }
            let m = get_le16(bytes, pos);
            let a = Attributes { mode: m };
            proof {
                assert(bytes@.subrange(pos as int, pos + 2) =~= bytes@.skip(pos as int).subrange(
                    0,
                    2,
                ));
                assert(spec_dec_attributes(bytes@.skip(pos as int)) == Ok::<
                    (Attributes, int),
                    TomoError,
                >((a, 2)));
                assert(bytes@.skip(pos as int).skip(2) =~= bytes@.skip(pos + 2));
                match spec_dec_attrs_seq(bytes@.skip(pos + 2), count - i - 1) {
                    Err(_) => {},
                    Ok((vs, c)) => {
                        assert(acc + (seq![a] + vs) =~= acc.push(a) + vs);
                    },
                }
            }
            attrs.push(a);
            pos = pos + 2;
            i = i + 1;
        }
        proof {
            assert(spec_dec_attrs_seq(bytes@.skip(pos as int), 0) == Ok::<
                (Seq<Attributes>, int),
                TomoError,
            >((Seq::empty(), 0)));
            assert(attrs@ + Seq::<Attributes>::empty() =~= attrs@);
        }
        Ok((AttributesEntry { attr_count: count, attrs }, pos))
    }

    /// Append the wire form of this entry, canonical lookup table included,
    /// to `out`.
    pub fn encode(&self, out: &mut Vec<u8>)
        requires
            attributes_entry_wf(*self),
            4 + 14 * self.attrs@.len() <= u64::MAX,
        ensures
            final(out)@ =~= old(out)@ + spec_enc_attributes_entry(self@),
    {
        let count = self.attr_count;
        push_le32(out, count);
        let base: u64 = 4 + 12 * (count as u64);
        let mut table: Vec<u8> = Vec::new();
        let mut items: Vec<u8> = Vec::new();
        let mut i: usize = 0;
        proof {
            lemma_enc_attrs_cat_len(self@);
        }
        while i < self.attrs.len()
            invariant
                attributes_entry_wf(*self),
                count == self.attr_count,
                base == 4 + 12 * (count as u64),
                4 + 14 * self.attrs@.len() <= u64::MAX,
                i <= self.attrs@.len(),
                table@ =~= spec_attrs_lookup(self@.take(i as int), 1, base as int),
                items@ =~= spec_enc_attrs_cat(self@.take(i as int)),
                items@.len() == 2 * i,
            decreases self.attrs@.len() - i,
        {
            proof {
                let pre = self@.take(i as int);
                let single = seq![self@[i as int]];
                assert(self@.take(i + 1) =~= pre + single);
                lemma_enc_attrs_cat_concat(pre, single);
                lemma_attrs_lookup_concat(pre, single, 1, base as int);
                lemma_enc_attrs_cat_len(pre);
                assert(single.drop_first() =~= Seq::<Attributes>::empty());
                assert(single[0] == self@[i as int]);
                assert(spec_enc_attrs_cat(single) == spec_enc_attributes(single[0])
                    + spec_enc_attrs_cat(single.drop_first()));
                assert(spec_enc_attrs_cat(Seq::<Attributes>::empty()) =~= Seq::<u8>::empty());
                assert(spec_enc_attrs_cat(single) =~= spec_enc_attributes(self@[i as int]));
                let lone = spec_enc_lookup(
                    Lookup {
                        index: (1 + i as int) as u32,
                        offset: (base + items@.len()) as u64,
                    },
                );
                assert(spec_attrs_lookup(single, 1 + i as int, base + items@.len()) == lone
                    + spec_attrs_lookup(
                    single.drop_first(),
                    2 + i as int,
                    base + items@.len() + 2,
                ));
                assert(spec_attrs_lookup(
                    Seq::<Attributes>::empty(),
                    2 + i as int,
                    base + items@.len() + 2,
                ) =~= Seq::<u8>::empty());
                assert(spec_attrs_lookup(single, 1 + i as int, base + items@.len()) =~= lone);
            }
            let off: u64 = base + items.len() as u64;
            let lk = Lookup { index: (i as u32) + 1, offset: off };
            lk.encode(&mut table);
            let a = self.attrs[i];
            a.encode(&mut items);
            i = i + 1;
        }
        proof {
            assert(self@.take(self.attrs@.len() as int) =~= self@);
        }
        out.append(&mut table);
        out.append(&mut items);
    }
}

/// Concatenated attribute encodings split over sequence concatenation.
pub proof fn lemma_enc_attrs_cat_concat(a: Seq<Attributes>, b: Seq<Attributes>)
    ensures
        spec_enc_attrs_cat(a + b) =~= spec_enc_attrs_cat(a) + spec_enc_attrs_cat(b),
    decreases a.len(),
{
    if a.len() == 0 {
        assert(a + b =~= b);
    } else {
        assert((a + b)[0] == a[0]);
        assert((a + b).drop_first() =~= a.drop_first() + b);
        lemma_enc_attrs_cat_concat(a.drop_first(), b);
    }
}

/// The attribute lookup table splits over sequence concatenation.
pub proof fn lemma_attrs_lookup_concat(a: Seq<Attributes>, b: Seq<Attributes>, idx: int, off: int)
    ensures
        spec_attrs_lookup(a + b, idx, off) =~= spec_attrs_lookup(a, idx, off) + spec_attrs_lookup(
            b,
            idx + a.len(),
            off + 2 * a.len(),
        ),
    decreases a.len(),
{
    if a.len() == 0 {
        assert(a + b =~= b);
    } else {
        assert((a + b)[0] == a[0]);
        assert((a + b).drop_first() =~= a.drop_first() + b);
        lemma_attrs_lookup_concat(a.drop_first(), b, idx + 1, off + 2);
    }
}

/// Concatenated attribute encodings are exactly two bytes per record.
pub proof fn lemma_enc_attrs_cat_len(v: Seq<Attributes>)
    ensures
        spec_enc_attrs_cat(v).len() == 2 * v.len(),
    decreases v.len(),
{
    if v.len() > 0 {
        lemma_enc_attrs_cat_len(v.drop_first());
    }
}

/// Decoded attribute runs consume bounded bytes, count `n`, and re-encode to
/// exactly the consumed bytes.
pub proof fn lemma_attrs_seq_roundtrip(b: Seq<u8>, n: int)
    requires
        spec_dec_attrs_seq(b, n) is Ok,
    ensures
        ({
            let (vs, c) = spec_dec_attrs_seq(b, n)->Ok_0;
            &&& 0 <= c <= b.len()
            &&& vs.len() == (if n <= 0 { 0int } else { n })
            &&& spec_enc_attrs_cat(vs) =~= b.take(c)
        }),
    decreases n,
{
    if n > 0 {
        let (v, c) = spec_dec_attributes(b)->Ok_0;
        lemma_attributes_roundtrip(b);
        let (vs2, c2) = spec_dec_attrs_seq(b.skip(c), n - 1)->Ok_0;
        lemma_attrs_seq_roundtrip(b.skip(c), n - 1);
        let vs = seq![v] + vs2;
        assert(vs.drop_first() =~= vs2);
        assert(vs[0] == v);
        assert(spec_enc_attrs_cat(vs) == spec_enc_attributes(v) + spec_enc_attrs_cat(vs2));
        assert(spec_enc_attrs_cat(vs2) =~= b.skip(c).take(c2));
        assert forall|i: int| 0 <= i < c + c2 implies spec_enc_attrs_cat(vs)[i] == b.take(
            c + c2,
        )[i] by {
            if i < c {
                assert(spec_enc_attrs_cat(vs)[i] == spec_enc_attributes(v)[i]);
                assert(spec_enc_attributes(v)[i] == b.take(c)[i]);
            } else {
                assert(spec_enc_attrs_cat(vs)[i] == spec_enc_attrs_cat(vs2)[i - c]);
                assert(b.skip(c).take(c2)[i - c] == b[i]);
            }
        }
    }
}

/// Encoding attribute records and decoding them back gives the records
/// again, whatever bytes follow.
pub proof fn lemma_attrs_seq_encdec(vs: Seq<Attributes>, rest: Seq<u8>)
    ensures
        spec_dec_attrs_seq(spec_enc_attrs_cat(vs) + rest, vs.len() as int) == Ok::<
            (Seq<Attributes>, int),
            TomoError,
        >((vs, spec_enc_attrs_cat(vs).len() as int)),
    decreases vs.len(),
{
    if vs.len() == 0 {
        assert(spec_enc_attrs_cat(vs) + rest =~= rest);
        assert(Seq::<Attributes>::empty() =~= vs);
    } else {
        let v = vs[0];
        let tail = vs.drop_first();
        let e0 = spec_enc_attributes(v);
        let etail = spec_enc_attrs_cat(tail);
        let b = spec_enc_attrs_cat(vs) + rest;
        assert(b =~= e0 + (etail + rest));
        lemma_attributes_encdec(v, etail + rest);
        assert(b.skip(e0.len() as int) =~= etail + rest);
        lemma_attrs_seq_encdec(tail, rest);
        assert(seq![v] + tail =~= vs);
    }
}

/// Decoding then encoding an Attributes entry reproduces the consumed bytes,
/// provided the entry carried the canonical lookup table.
pub proof fn lemma_attributes_entry_roundtrip(b: Seq<u8>)
    requires
        spec_dec_attributes_entry(b) is Ok,
        ({
            let (vs, n) = spec_dec_attributes_entry(b)->Ok_0;
            b.subrange(4, 4 + 12 * vs.len() as int) == spec_attrs_lookup(vs, 1, 4 + 12 * vs.len() as int)
        }),
    ensures
        ({
            let (vs, n) = spec_dec_attributes_entry(b)->Ok_0;
            &&& 4 <= n <= b.len()
            &&& vs.len() <= u32::MAX
            &&& spec_enc_attributes_entry(vs) =~= b.take(n)
        }),
{
    let (vs, n) = spec_dec_attributes_entry(b)->Ok_0;
    let cnt = le32_of(b.subrange(0, 4)) as int;
    let body = b.skip(4 + 12 * cnt);
    lemma_attrs_seq_roundtrip(body, cnt);
    let (_, c) = spec_dec_attrs_seq(body, cnt)->Ok_0;
    lemma_le32_bytes(b.subrange(0, 4));
    lemma_attrs_lookup_len(vs, 1, 4 + 12 * vs.len() as int);
    assert forall|i: int| 0 <= i < n implies spec_enc_attributes_entry(vs)[i] == b.take(n)[i] by {
        if i < 4 {
            assert(spec_enc_attributes_entry(vs)[i] == le32_bytes(vs.len() as u32)[i]);
            assert(le32_bytes(le32_of(b.subrange(0, 4)))[i] == b.subrange(0, 4)[i]);
        } else if i < 4 + 12 * cnt {
            assert(spec_enc_attributes_entry(vs)[i] == spec_attrs_lookup(vs, 1, 4 + 12 * vs.len() as int)[
                i - 4]);
            assert(b.subrange(4, 4 + 12 * vs.len() as int)[i - 4] == b[i]);
        } else {
            assert(spec_enc_attributes_entry(vs)[i] == spec_enc_attrs_cat(vs)[i - 4 - 12 * cnt]);
            assert(spec_enc_attrs_cat(vs)[i - 4 - 12 * cnt] == body.take(c)[i - 4 - 12 * cnt]);
            assert(body.take(c)[i - 4 - 12 * cnt] == b[i]);
        }
    }
}

/// Concatenated wire forms of a run of indics.
pub open spec fn spec_enc_indics(s: Seq<Indic>) -> Seq<u8>
    decreases s.len(),
{
    if s.len() == 0 {
        Seq::empty()
    } else {
        spec_enc_indic(s[0]) + spec_enc_indics(s.drop_first())
    }
}

/// Concatenated indic encodings are exactly 24 bytes per record.
pub proof fn lemma_enc_indics_len(s: Seq<Indic>)
    ensures
        spec_enc_indics(s).len() == 24 * s.len(),
    decreases s.len(),
{
    if s.len() > 0 {
        lemma_enc_indics_len(s.drop_first());
    }
}

/// Byte `24 * k + r` of a run of indic encodings is byte `r` of the k-th
/// indic's encoding.
pub proof fn lemma_enc_indics_index(s: Seq<Indic>, k: int, r: int)
    requires
        0 <= k < s.len(),
        0 <= r < 24,
    ensures
        spec_enc_indics(s)[24 * k + r] == spec_enc_indic(s[k])[r],
    decreases k,
{
    lemma_enc_indics_len(s.drop_first());
    if k == 0 {
        assert(spec_enc_indics(s)[r] == spec_enc_indic(s[0])[r]);
    } else {
        lemma_enc_indics_index(s.drop_first(), k - 1, r);
        assert(spec_enc_indics(s)[24 * k + r] == spec_enc_indics(s.drop_first())[24 * (k - 1)
            + r]);
    }
}

/// The index records of container bytes `b`, each decoded from its 24-byte
/// slot.
pub open spec fn spec_container_index(b: Seq<u8>, n: int) -> Seq<Indic> {
    Seq::new(n as nat, |k: int| spec_dec_indic(b.subrange(24 + 24 * k, 24 + 24 * k + 24))->Ok_0.0)
}

/// Full wire form of a container: header, index, entries blob.
pub open spec fn spec_enc_container(h: ContainerHeader, index: Seq<Indic>, entries: Seq<u8>) -> Seq<
    u8,
> {
    spec_enc_container_header(h) + spec_enc_indics(index) + entries
}

/// Decoding well-formed container bytes — a parsing header whose claimed
/// sizes span the bytes exactly, a whole number of decodable index slots
/// with zero reserved bytes — and re-encoding the header and the decoded
/// index in front of the entries blob gives the bytes back exactly.
pub proof fn lemma_container_roundtrip(b: Seq<u8>)
    requires
        spec_dec_container_header(b) is Ok,
        ({
            let h = spec_dec_container_header(b)->Ok_0.0;
            &&& b.len() == 24 + h.index_bytes + h.entries_bytes
            &&& h.index_bytes % 24 == 0
            &&& forall|k: int|
                0 <= k < h.index_bytes as int / 24 ==> (#[trigger] spec_dec_indic(
                    b.subrange(24 + 24 * k, 24 + 24 * k + 24),
                )) is Ok && b[24 + 24 * k + 7] == 0x00
        }),
    ensures
        ({
            let h = spec_dec_container_header(b)->Ok_0.0;
            let n = h.index_bytes as int / 24;
            spec_enc_container(
                h,
                spec_container_index(b, n),
                b.subrange(24 + h.index_bytes as int, b.len() as int),
            ) == b
        }),
{
    let h = spec_dec_container_header(b)->Ok_0.0;
    let ib = h.index_bytes as int;
    let n = ib / 24;
    let idx = spec_container_index(b, n);
    let ents = b.subrange(24 + ib, b.len() as int);
    let e = spec_enc_container(h, idx, ents);
    lemma_container_header_roundtrip(b);
    lemma_enc_indics_len(idx);
    vstd::arithmetic::div_mod::lemma_fundamental_div_mod(ib, 24);
    assert(24 * n == ib);
    assert(e.len() == b.len());
    assert forall|j: int| 0 <= j < b.len() implies e[j] == b[j] by {
        if j < 24 {
            assert(e[j] == spec_enc_container_header(h)[j]);
            assert(spec_enc_container_header(h)[j] == b.take(24)[j]);
        } else if j < 24 + ib {
            let k = (j - 24) / 24;
            let r = (j - 24) % 24;
            vstd::arithmetic::div_mod::lemma_fundamental_div_mod(j - 24, 24);
            assert(j == 24 + 24 * k + r);
            assert(0 <= k < n) by {
                vstd::arithmetic::div_mod::lemma_div_is_ordered(j - 24, ib - 1, 24);
                vstd::arithmetic::div_mod::lemma_fundamental_div_mod((ib - 1), 24);
            }
            let slot = b.subrange(24 + 24 * k, 24 + 24 * k + 24);
            lemma_indic_roundtrip(slot);
            assert(slot.take(24) =~= slot);
            assert(e[j] == spec_enc_indics(idx)[j - 24]);
            lemma_enc_indics_index(idx, k, r);
            assert(idx[k] == spec_dec_indic(slot)->Ok_0.0);
            assert(spec_enc_indic(idx[k])[r] == slot[r]);
            assert(slot[r] == b[j]);
        } else {
            assert(e[j] == ents[j - 24 - ib]);
        }
    }
    assert(e =~= b);
}

/// The attribute lookup table over `v` is exactly `12 * v.len()` bytes.
pub proof fn lemma_attrs_lookup_len(v: Seq<Attributes>, idx: int, off: int)
    ensures
        spec_attrs_lookup(v, idx, off).len() == 12 * v.len(),
    decreases v.len(),
{
    if v.len() > 0 {
        lemma_attrs_lookup_len(v.drop_first(), idx + 1, off + 2);
    }
}

/// Encoding an Attributes entry and decoding it back gives the entry again,
/// whatever bytes follow.
pub proof fn lemma_attributes_entry_encdec(vs: Seq<Attributes>, rest: Seq<u8>)
    requires
        vs.len() <= u32::MAX,
    ensures
        spec_dec_attributes_entry(spec_enc_attributes_entry(vs) + rest) == Ok::<
            (Seq<Attributes>, int),
            TomoError,
        >((vs, spec_enc_attributes_entry(vs).len() as int)),
{
    let b = spec_enc_attributes_entry(vs) + rest;
    lemma_attrs_lookup_len(vs, 1, 4 + 12 * vs.len() as int);
    assert(b.subrange(0, 4) =~= le32_bytes(vs.len() as u32));
    lemma_le32_value(vs.len() as u32);
    assert(b.skip(4 + 12 * vs.len() as int) =~= spec_enc_attrs_cat(vs) + rest);
    lemma_attrs_seq_encdec(vs, rest);
}

} // verus!
