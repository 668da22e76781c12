use tomo::parsers::{
    magic, Attributes, AttributesEntry, ContainerHeader, CustomParams, Encoding, EntryHeader,
    Indic, IndicKind, Lookup, Mode, Path, PathSeg, PathsEntry, ZstdParams, CONTAINER_HEADER_SIZE,
    INDIC_SIZE, LOOKUP_SIZE,
};
use tomo::TomoError;

fn empty_container() -> Vec<u8> {
    let mut data = Vec::new();
    data.extend_from_slice(&magic());
    data.push(0x01);
    data.extend_from_slice(&0u64.to_le_bytes());
    data.extend_from_slice(&0u64.to_le_bytes());
    data
}

#[test]
fn empty() {
    let data = empty_container();
    let mut data_out = Vec::new();
    ContainerHeader::default().encode(&mut data_out);
    assert_eq!(data_out, data);

    let (value, used) = ContainerHeader::decode(&data).unwrap();
    assert_eq!(data.len() - used, 0);
    assert_eq!(value.mode, Mode::Stacked);
    assert_eq!(value.index_bytes, 0);
    assert_eq!(value.entries_bytes, 0);
}

#[test]
fn empty_partial() {
    let data = empty_container();
    let (value, used) = ContainerHeader::decode(&data).unwrap();
    assert_eq!(data.len() - used, 0);
    assert_eq!(value.mode, Mode::Stacked);
    assert_eq!(value.entries_bytes, 0);
    assert_eq!(value.index_bytes, 0);
}

#[test]
fn catted() {
    let data = empty_container();
    let datalen = data.len();
    let mut double = data.clone();
    double.extend(&data);

    let (value, used) = ContainerHeader::decode(&double).unwrap();
    assert_eq!(double.len() - used, datalen);
    assert_eq!(value.mode, Mode::Stacked);
    assert_eq!(value.entries_bytes, 0);
    assert_eq!(value.index_bytes, 0);

    let (value2, used2) = ContainerHeader::decode(&double[used..]).unwrap();
    assert_eq!(double.len() - used - used2, 0);
    assert_eq!(value2.mode, Mode::Stacked);
    assert_eq!(value2.entries_bytes, 0);
    assert_eq!(value2.index_bytes, 0);
}

#[test]
fn single_file_raw_lowlevel() {
    let mut ctnr = Vec::new();
    ctnr.extend_from_slice(&magic());
    ctnr.push(0x01); // Mode::Stacked

    let pathsoffset: u64 = 0;
    let pathsdata = {
        let seg = b"\x01hello\0";

        let mut pathdata: Vec<u8> = Vec::new();
        pathdata.extend_from_slice(&1_u32.to_le_bytes()); // count
        pathdata.extend_from_slice(seg);

        let mut data = Vec::new();
        data.push(0b00_000000); // header: flags
        data.push(0x00); // header: encoding(raw)
        data.extend_from_slice(&1_u32.to_le_bytes()); // count
        data.extend_from_slice(&1_u32.to_le_bytes()); // index
        data.extend_from_slice(&0_u64.to_le_bytes()); // offset
        data.extend(pathdata);
        data
    };

    let attrsoffset: u64 = pathsoffset + pathsdata.len() as u64;
    let attrsdata = {
        let mut attr: Vec<u8> = Vec::new();
        attr.extend_from_slice(&0o644_u16.to_le_bytes()); // mode

        let mut data = Vec::new();
        data.push(0b00_000000); // header: flags
        data.push(0x00); // header: encoding(raw)
        data.extend_from_slice(&1_u32.to_le_bytes()); // count
        data.extend_from_slice(&1_u32.to_le_bytes()); // index
        data.extend_from_slice(&0_u64.to_le_bytes()); // offset
        data.extend(attr);
        data
    };

    let fileoffset: u64 = attrsoffset + attrsdata.len() as u64;
    let filedata = {
        let file = b"Hello world!";
        let mut data = Vec::new();
        data.push(0b00_000000); // header: flags
        data.push(0x00); // header: encoding(raw)
        data.extend_from_slice(file);
        data
    };

    let pathsindic = {
        let mut indic = Vec::new();
        indic.push(0xF0); // Paths
        indic.extend_from_slice(&0_u32.to_le_bytes()[0..3]); // no path
        indic.extend_from_slice(&0_u32.to_le_bytes()[0..3]); // no attr
        indic.push(0x00); // reserved
        indic.extend_from_slice(&pathsoffset.to_le_bytes()); // data offset
        indic.extend_from_slice(&(pathsdata.len() as u64).to_le_bytes()); // data length
        indic
    };

    let attrsindic = {
        let mut indic = Vec::new();
        indic.push(0x10); // Attributes
        indic.extend_from_slice(&0_u32.to_le_bytes()[0..3]); // no path
        indic.extend_from_slice(&0_u32.to_le_bytes()[0..3]); // no attr
        indic.push(0x00); // reserved
        indic.extend_from_slice(&attrsoffset.to_le_bytes()); // data offset
        indic.extend_from_slice(&(attrsdata.len() as u64).to_le_bytes()); // data length
        indic
    };

    let fileindic = {
        let mut indic = Vec::new();
        indic.push(0x01); // file
        indic.extend_from_slice(&1_u32.to_le_bytes()[0..3]); // path
        indic.extend_from_slice(&1_u32.to_le_bytes()[0..3]); // attr
        indic.push(0x00); // reserved
        indic.extend_from_slice(&fileoffset.to_le_bytes()); // data offset
        indic.extend_from_slice(&(filedata.len() as u64).to_le_bytes()); // data length
        indic
    };

    let index = {
        let mut index = Vec::new();
        index.extend(pathsindic);
        index.extend(attrsindic);
        index.extend(fileindic);
        index
    };

    let data = {
        let mut data = Vec::new();
        data.extend(&pathsdata);
        data.extend(&attrsdata);
        data.extend(&filedata);
        data
    };

    ctnr.extend_from_slice(&(3 * INDIC_SIZE).to_le_bytes());
    ctnr.extend_from_slice(&(data.len() as u64).to_le_bytes());
    ctnr.extend(index);
    ctnr.extend(&data);

    let (header, hused) = ContainerHeader::decode(&ctnr).unwrap();
    assert_eq!(
        ctnr.len(),
        hused + header.index_bytes as usize + header.entries_bytes as usize
    );
    assert_eq!(header.mode, Mode::Stacked);
    assert_eq!(header.entries_bytes as usize, data.len());
    assert_eq!(header.index_bytes / INDIC_SIZE, 3);

    let index_start = hused;
    let entries_start = hused + header.index_bytes as usize;
    let mut indics: Vec<Indic> = Vec::new();
    for k in 0..3 {
        let (ind, n) = Indic::decode(&ctnr[index_start + 24 * k..]).unwrap();
        assert_eq!(n, 24);
        indics.push(ind);
    }

    let paths_indic = indics.iter().find(|i| i.kind == IndicKind::Paths).unwrap();
    let pstart = entries_start + paths_indic.offset as usize;
    let pbytes = &ctnr[pstart..pstart + paths_indic.length as usize];
    let (peh, pehn) = EntryHeader::decode(pbytes).unwrap();
    assert_eq!(peh.encoding, Encoding::Raw);
    let (pathsv, pn) = PathsEntry::decode(&pbytes[pehn..]).unwrap();
    assert_eq!(pbytes.len() - pehn - pn, 0, "remaining data on paths entry");
    assert_eq!(
        pathsv.paths,
        vec![Path { segcount: 1, segments: vec![PathSeg::Segment(b"hello\0".to_vec())] }]
    );

    let attrs_indic = indics.iter().find(|i| i.kind == IndicKind::Attributes).unwrap();
    let astart = entries_start + attrs_indic.offset as usize;
    let abytes = &ctnr[astart..astart + attrs_indic.length as usize];
    let (aeh, aehn) = EntryHeader::decode(abytes).unwrap();
    assert_eq!(aeh.encoding, Encoding::Raw);
    let (attrsv, an) = AttributesEntry::decode(&abytes[aehn..]).unwrap();
    assert_eq!(abytes.len() - aehn - an, 0, "remaining data on attrs entry");
    assert_eq!(attrsv.attrs, vec![Attributes { mode: 0o644 }]);

    let file_indic = indics.iter().find(|i| i.kind == IndicKind::File).unwrap();
    let fstart = entries_start + file_indic.offset as usize;
    let fbytes = &ctnr[fstart..fstart + file_indic.length as usize];
    let (feh, fehn) = EntryHeader::decode(fbytes).unwrap();
    assert_eq!(feh.encoding, Encoding::Raw);
    assert_eq!(&fbytes[fehn..], b"Hello world!");
}

#[test]
fn magic_bytes_exact() {
    assert_eq!(magic(), [0x00, 0x54, 0x00, 0x4d, 0x00, 0x76, 0x01]);
    let data = empty_container();
    assert_eq!(&data[0..7], &magic());
}

#[test]
fn wire_sizes() {
    assert_eq!(CONTAINER_HEADER_SIZE, 24);
    assert_eq!(INDIC_SIZE, 24);
    assert_eq!(LOOKUP_SIZE, 12);

    let mut h = Vec::new();
    ContainerHeader { mode: Mode::Stacked, index_bytes: 7, entries_bytes: 9 }.encode(&mut h);
    assert_eq!(h.len(), 24);

    let mut i = Vec::new();
    Indic { kind: IndicKind::Dir, path: 5, attrs: 6, offset: 7, length: 8 }.encode(&mut i);
    assert_eq!(i.len(), 24);

    let mut l = Vec::new();
    Lookup { index: 1, offset: 16 }.encode(&mut l);
    assert_eq!(l.len(), 12);
}

#[test]
fn little_endian_formulas() {
    let mut out = Vec::new();
    tomo::bytes::push_le16(&mut out, 0x1234);
    assert_eq!(out, vec![0x34, 0x12]);

    let mut out = Vec::new();
    tomo::bytes::push_le32(&mut out, 0x12345678);
    assert_eq!(out, vec![0x78, 0x56, 0x34, 0x12]);

    let mut out = Vec::new();
    tomo::bytes::push_le64(&mut out, 0x0102030405060708);
    assert_eq!(out, vec![0x08, 0x07, 0x06, 0x05, 0x04, 0x03, 0x02, 0x01]);

    assert_eq!(tomo::bytes::get_le16(&[0x34, 0x12], 0), 0x1234);
    assert_eq!(tomo::bytes::get_le24(&[0x01, 0x02, 0x03], 0), 0x030201);
    assert_eq!(tomo::bytes::get_le32(&[0x78, 0x56, 0x34, 0x12], 0), 0x12345678);
    assert_eq!(
        tomo::bytes::get_le64(&[0x08, 0x07, 0x06, 0x05, 0x04, 0x03, 0x02, 0x01], 0),
        0x0102030405060708
    );
}

#[test]
fn container_header_roundtrip() {
    let h = ContainerHeader { mode: Mode::Stacked, index_bytes: 72, entries_bytes: 123456789 };
    let mut out = Vec::new();
    h.encode(&mut out);
    let (back, n) = ContainerHeader::decode(&out).unwrap();
    assert_eq!(n, 24);
    assert_eq!(back, h);
}

#[test]
fn container_header_bad_magic() {
    let mut data = empty_container();
    data[1] = 0x55;
    let err = ContainerHeader::decode(&data).unwrap_err();
    assert_eq!(err, TomoError::NotAContainer { offset: 0 });
}

#[test]
fn container_header_bad_mode() {
    let mut data = empty_container();
    data[7] = 0x02;
    let err = ContainerHeader::decode(&data).unwrap_err();
    assert_eq!(err, TomoError::CorruptContainer);
}

#[test]
fn container_header_short() {
    let data = empty_container();
    let err = ContainerHeader::decode(&data[..20]).unwrap_err();
    assert_eq!(err, TomoError::CorruptContainer);
}

#[test]
fn indic_roundtrip() {
    let i = Indic { kind: IndicKind::File, path: 0xABCDEF, attrs: 1, offset: 42, length: 7 };
    let mut out = Vec::new();
    i.encode(&mut out);
    let (back, n) = Indic::decode(&out).unwrap();
    assert_eq!(n, 24);
    assert_eq!(back, i);
}

#[test]
fn indic_bad_kind() {
    let mut out = Vec::new();
    Indic { kind: IndicKind::File, path: 0, attrs: 0, offset: 0, length: 0 }.encode(&mut out);
    out[0] = 0x55;
    let err = Indic::decode(&out).unwrap_err();
    assert_eq!(err, TomoError::CorruptContainer);
}

#[test]
fn indic_refs() {
    let i = Indic { kind: IndicKind::File, path: 0, attrs: 3, offset: 0, length: 0 };
    assert_eq!(i.path_ref(), None);
    assert_eq!(i.attrs_ref(), Some(3));
}

#[test]
fn lookup_roundtrip() {
    let l = Lookup { index: 1, offset: 16 };
    let mut out = Vec::new();
    l.encode(&mut out);
    assert_eq!(out, vec![0x01, 0, 0, 0, 0x10, 0, 0, 0, 0, 0, 0, 0]);
    let (back, n) = Lookup::decode(&out).unwrap();
    assert_eq!(n, 12);
    assert_eq!(back, l);
}

#[test]
fn attributes_roundtrip() {
    let a = Attributes { mode: 0o644 };
    let mut out = Vec::new();
    a.encode(&mut out);
    assert_eq!(out, vec![0xA4, 0x01]);
    let (back, n) = Attributes::decode(&out).unwrap();
    assert_eq!(n, 2);
    assert_eq!(back, a);
}

#[test]
fn entry_header_plain_roundtrip() {
    let eh = EntryHeader { has_params: false, nested: false, encoding: Encoding::Raw, params: Vec::new() };
    let mut out = Vec::new();
    eh.encode(&mut out);
    assert_eq!(out, vec![0x00, 0x00]);
    let (back, n) = EntryHeader::decode(&out).unwrap();
    assert_eq!(n, 2);
    assert_eq!(back, eh);
}

#[test]
fn entry_header_params_roundtrip() {
    let eh = EntryHeader {
        has_params: true,
        nested: true,
        encoding: Encoding::Zstd,
        params: vec![1, 2, 3],
    };
    let mut out = Vec::new();
    eh.encode(&mut out);
    assert_eq!(out[0], 0xC0);
    assert_eq!(out[1], 0x01);
    assert_eq!(&out[2..4], &[3, 0]);
    let (back, n) = EntryHeader::decode(&out).unwrap();
    assert_eq!(n, 7);
    assert_eq!(back, eh);
}

#[test]
fn entry_header_reserved_bits_rejected() {
    let err = EntryHeader::decode(&[0x01, 0x00]).unwrap_err();
    assert_eq!(err, TomoError::CorruptContainer);
}

#[test]
fn entry_header_bad_encoding_rejected() {
    let err = EntryHeader::decode(&[0x00, 0x42]).unwrap_err();
    assert_eq!(err, TomoError::CorruptContainer);
}

#[test]
fn path_seg_roundtrip() {
    let s = PathSeg::Segment(b"abc\0".to_vec());
    let mut out = Vec::new();
    s.encode(&mut out);
    assert_eq!(out, vec![0x01, b'a', b'b', b'c', 0x00]);
    let (back, n) = PathSeg::decode(&out).unwrap();
    assert_eq!(n, 5);
    assert_eq!(back, s);

    let mut out = Vec::new();
    PathSeg::Root.encode(&mut out);
    assert_eq!(out, vec![0x10]);
    let (back, n) = PathSeg::decode(&out).unwrap();
    assert_eq!(n, 1);
    assert_eq!(back, PathSeg::Root);
}

#[test]
fn path_seg_unterminated() {
    let err = PathSeg::decode(&[0x01, b'a', b'b']).unwrap_err();
    assert_eq!(err, TomoError::CorruptContainer);
}

#[test]
fn path_seg_bad_tag() {
    let err = PathSeg::decode(&[0x07]).unwrap_err();
    assert_eq!(err, TomoError::CorruptContainer);
}

#[test]
fn path_roundtrip() {
    let p = Path {
        segcount: 2,
        segments: vec![PathSeg::Root, PathSeg::Segment(b"hello\0".to_vec())],
    };
    let mut out = Vec::new();
    p.encode(&mut out);
    let (back, n) = Path::decode(&out).unwrap();
    assert_eq!(n, out.len());
    assert_eq!(back, p);
}

#[test]
fn paths_entry_canonical_lookup() {
    let pe = PathsEntry {
        path_count: 1,
        paths: vec![Path { segcount: 1, segments: vec![PathSeg::Segment(b"hello\0".to_vec())] }],
    };
    let mut out = Vec::new();
    pe.encode(&mut out);
    // count, then one lookup whose offset is 4 + 1 * 12 == 16.
    assert_eq!(&out[0..4], &1u32.to_le_bytes());
    assert_eq!(&out[4..8], &1u32.to_le_bytes());
    assert_eq!(&out[8..16], &16u64.to_le_bytes());
    let (back, n) = PathsEntry::decode(&out).unwrap();
    assert_eq!(n, out.len());
    assert_eq!(back.paths, pe.paths);
    assert_eq!(back.path_count, 1);
}

#[test]
fn attributes_entry_roundtrip() {
    let ae = AttributesEntry {
        attr_count: 2,
        attrs: vec![Attributes { mode: 0o644 }, Attributes { mode: 0o755 }],
    };
    let mut out = Vec::new();
    ae.encode(&mut out);
    // count, then the first lookup whose offset is 4 + 2 * 12 == 28.
    assert_eq!(&out[0..4], &2u32.to_le_bytes());
    assert_eq!(&out[4..8], &1u32.to_le_bytes());
    assert_eq!(&out[8..16], &28u64.to_le_bytes());
    assert_eq!(&out[16..20], &2u32.to_le_bytes());
    assert_eq!(&out[20..28], &30u64.to_le_bytes());
    let (back, n) = AttributesEntry::decode(&out).unwrap();
    assert_eq!(n, out.len());
    assert_eq!(back.attrs, ae.attrs);
}

#[test]
fn zstd_params_roundtrip() {
    let z = ZstdParams { dictionary: 77 };
    let mut out = Vec::new();
    z.encode(&mut out);
    assert_eq!(out, 77u64.to_le_bytes().to_vec());
    let (back, n) = ZstdParams::decode(&out).unwrap();
    assert_eq!(n, 8);
    assert_eq!(back, z);
}

#[test]
fn custom_params_roundtrip() {
    let c = CustomParams::Program(b"gzip\0".to_vec());
    let mut out = Vec::new();
    c.encode(&mut out);
    assert_eq!(out, vec![0x01, b'g', b'z', b'i', b'p', 0x00]);
    let (back, n) = CustomParams::decode(&out).unwrap();
    assert_eq!(n, 6);
    assert_eq!(back, c);
}

#[test]
fn defaults() {
    assert_eq!(Mode::default(), Mode::Stacked);
    assert_eq!(Encoding::default(), Encoding::Raw);
    let h = ContainerHeader::default();
    assert_eq!(h.mode, Mode::Stacked);
    assert_eq!(h.index_bytes, 0);
    assert_eq!(h.entries_bytes, 0);
}
