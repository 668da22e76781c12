use tomo::parsers::{
    Attributes, AttributesEntry, ContainerHeader, Encoding, EntryHeader, Indic, IndicKind, Mode,
    Path, PathSeg, PathsEntry,
};
use tomo::seekable::Seekable;
use tomo::{SourceStatus, Tomo, TomoError};

fn empty() -> Vec<u8> {
    let mut data = Vec::new();
    data.extend_from_slice(&tomo::parsers::magic());
    data.push(0x01);
    data.extend_from_slice(&0_u64.to_le_bytes());
    data.extend_from_slice(&0_u64.to_le_bytes());
    data
}

/// A container holding one Paths entry (one path, single segment
/// `hello\0`), one Attributes entry (mode 0o644) and one File entry, all
/// encoded with canonical lookup tables.
fn single_file() -> Vec<u8> {
    let mut pe_bytes = Vec::new();
    EntryHeader { has_params: false, nested: false, encoding: Encoding::Raw, params: Vec::new() }
        .encode(&mut pe_bytes);
    PathsEntry {
        path_count: 1,
        paths: vec![Path { segcount: 1, segments: vec![PathSeg::Segment(b"hello\0".to_vec())] }],
    }
        .encode(&mut pe_bytes);

    let mut ae_bytes = Vec::new();
    EntryHeader { has_params: false, nested: false, encoding: Encoding::Raw, params: Vec::new() }
        .encode(&mut ae_bytes);
    AttributesEntry { attr_count: 1, attrs: vec![Attributes { mode: 0o644 }] }
        .encode(&mut ae_bytes);

    let mut fe_bytes = Vec::new();
    EntryHeader { has_params: false, nested: false, encoding: Encoding::Raw, params: Vec::new() }
        .encode(&mut fe_bytes);
    fe_bytes.extend_from_slice(b"Hello world!");

    let mut index = Vec::new();
    Indic {
        kind: IndicKind::Paths,
        path: 0,
        attrs: 0,
        offset: 0,
        length: pe_bytes.len() as u64,
    }
        .encode(&mut index);
    Indic {
        kind: IndicKind::Attributes,
        path: 0,
        attrs: 0,
        offset: pe_bytes.len() as u64,
        length: ae_bytes.len() as u64,
    }
        .encode(&mut index);
    Indic {
        kind: IndicKind::File,
        path: 1,
        attrs: 1,
        offset: (pe_bytes.len() + ae_bytes.len()) as u64,
        length: fe_bytes.len() as u64,
    }
        .encode(&mut index);

    let entries_len = pe_bytes.len() + ae_bytes.len() + fe_bytes.len();
    let mut data = Vec::new();
    ContainerHeader {
        mode: Mode::Stacked,
        index_bytes: index.len() as u64,
        entries_bytes: entries_len as u64,
    }
        .encode(&mut data);
    data.extend(index);
    data.extend(pe_bytes);
    data.extend(ae_bytes);
    data.extend(fe_bytes);
    data
}

/// A container whose Paths entry is Zstd-encoded; structurally sound, so
/// loading succeeds and only reading the paths fails.
fn zstd_paths_container() -> Vec<u8> {
    let entry = vec![0x00u8, 0x01, 0xAA, 0xBB];
    let mut index = Vec::new();
    Indic { kind: IndicKind::Paths, path: 0, attrs: 0, offset: 0, length: entry.len() as u64 }
        .encode(&mut index);
    let mut data = Vec::new();
    ContainerHeader {
        mode: Mode::Stacked,
        index_bytes: index.len() as u64,
        entries_bytes: entry.len() as u64,
    }
        .encode(&mut data);
    data.extend(index);
    data.extend(entry);
    data
}

#[test]
fn only_one() {
    let mut tomo = Tomo::default();
    let ix = tomo.load(Seekable::new(empty())).unwrap();

    assert_eq!(tomo.source(ix).len(), 1);
    // An empty container has no Paths entry, so the stream ends at once.
    let mut paths = tomo.all_paths();
    assert!(paths.next(&mut tomo).is_none());
}

#[test]
fn one_then_another() {
    let mut double = empty();
    double.extend(empty());

    let mut tomo = Tomo::default();
    let (ix, st) = tomo.load_one(Seekable::new(double)).unwrap();
    assert_eq!(tomo.source(ix).len(), 1);
    assert_eq!(st, SourceStatus::MoreToGo);
    tomo.source_mut(ix).load_next_container().unwrap();
    assert_eq!(tomo.source(ix).len(), 2);
}

#[test]
fn two_at_once() {
    let mut double = empty();
    double.extend(empty());

    let mut tomo = Tomo::default();
    let ix = tomo.load(Seekable::new(double)).unwrap();
    assert_eq!(tomo.source(ix).len(), 2);
}

#[test]
fn empty_container_scenario() {
    let mut tomo = Tomo::default();
    let ix = tomo.load(Seekable::new(empty())).unwrap();
    assert_eq!(tomo.len(), 1);
    assert_eq!(tomo.source(ix).offset, 24);

    let mut paths = tomo.all_paths();
    assert!(paths.next(&mut tomo).is_none());

    // The probe has already answered: a one-shot load of the same bytes
    // reports a clean end of the source.
    let mut fresh = Tomo::default();
    let (_, st) = fresh.load_one(Seekable::new(empty())).unwrap();
    assert_eq!(st, SourceStatus::EndOfSource);

    // Asking for yet another container reads past the end and fails short.
    let err = tomo.source_mut(ix).load_next_container().unwrap_err();
    assert_eq!(err, TomoError::UnexpectedEof { expected: 24, obtained: 0 });
}

#[test]
fn two_empty_containers_scenario() {
    let mut double = empty();
    double.extend(empty());

    let mut tomo = Tomo::default();
    tomo.load(Seekable::new(double.clone())).unwrap();
    assert_eq!(tomo.len(), 2);

    let mut again = Tomo::default();
    let (ix, st) = again.load_one(Seekable::new(double)).unwrap();
    assert_eq!(st, SourceStatus::MoreToGo);
    let st2 = again.source_mut(ix).load_next_container().unwrap();
    assert_eq!(st2, SourceStatus::EndOfSource);
    assert_eq!(again.len(), 2);
}

#[test]
fn non_tomo_prefix_scenario() {
    let data = vec![0xAB_u8; 32];
    let mut tomo = Tomo::default();
    let err = tomo.load(Seekable::new(data)).unwrap_err();
    assert_eq!(err, TomoError::NotAContainer { offset: 0 });
    assert_eq!(tomo.len(), 0);
}

#[test]
fn single_file_scenario() {
    let mut tomo = Tomo::default();
    let ix = tomo.load(Seekable::new(single_file())).unwrap();
    assert_eq!(tomo.len(), 1);

    // The index holds exactly Paths, Attributes, File, in order.
    let mut kinds = Vec::new();
    let mut index = tomo.source(ix).index(0).unwrap();
    while let Some(item) = index.next(tomo.source_mut(ix)) {
        kinds.push(item.unwrap().kind);
    }
    assert_eq!(kinds, vec![IndicKind::Paths, IndicKind::Attributes, IndicKind::File]);

    // all_paths yields exactly the one path.
    let mut paths = tomo.all_paths();
    let first = paths.next(&mut tomo).unwrap().unwrap();
    assert_eq!(
        first,
        Path { segcount: 1, segments: vec![PathSeg::Segment(b"hello\0".to_vec())] }
    );
    assert!(paths.next(&mut tomo).is_none());
}

#[test]
fn short_header_scenario() {
    let data = empty()[..20].to_vec();
    let mut tomo = Tomo::default();
    let err = tomo.load(Seekable::new(data)).unwrap_err();
    assert_eq!(err, TomoError::UnexpectedEof { expected: 24, obtained: 20 });
}

#[test]
fn unsupported_encoding_scenario() {
    let mut tomo = Tomo::default();
    tomo.load(Seekable::new(zstd_paths_container())).unwrap();
    assert_eq!(tomo.len(), 1);

    let mut paths = tomo.all_paths();
    let err = paths.next(&mut tomo).unwrap().unwrap_err();
    assert_eq!(err, TomoError::UnsupportedEncoding { encoding: 0x01 });
    assert!(paths.next(&mut tomo).is_none());

    // The archive stays usable after draining the failure.
    assert_eq!(tomo.len(), 1);
}

#[test]
fn unsupported_encoding_then_more_containers() {
    let mut data = zstd_paths_container();
    data.extend(single_file());

    let mut tomo = Tomo::default();
    tomo.load(Seekable::new(data)).unwrap();
    assert_eq!(tomo.len(), 2);

    let mut paths = tomo.all_paths();
    let first = paths.next(&mut tomo).unwrap();
    assert_eq!(first.unwrap_err(), TomoError::UnsupportedEncoding { encoding: 0x01 });
    let second = paths.next(&mut tomo).unwrap().unwrap();
    assert_eq!(
        second,
        Path { segcount: 1, segments: vec![PathSeg::Segment(b"hello\0".to_vec())] }
    );
    assert!(paths.next(&mut tomo).is_none());
}

#[test]
fn load_one_then_next_matches_load() {
    let mut double = single_file();
    double.extend(empty());

    let mut bulk = Tomo::default();
    let bix = bulk.load(Seekable::new(double.clone())).unwrap();

    let mut stepped = Tomo::default();
    let (six, st) = stepped.load_one(Seekable::new(double)).unwrap();
    assert_eq!(st, SourceStatus::MoreToGo);
    let st2 = stepped.source_mut(six).load_next_container().unwrap();
    assert_eq!(st2, SourceStatus::EndOfSource);

    assert_eq!(bulk.source(bix).len(), stepped.source(six).len());
    assert_eq!(bulk.source(bix).offset, stepped.source(six).offset);
    assert_eq!(bulk.source(bix).headers, stepped.source(six).headers);
}

#[test]
fn offsets_never_move_back_across_loads() {
    let mut data = single_file();
    data.extend(empty());
    data.extend(single_file());

    let mut tomo = Tomo::default();
    let (ix, mut st) = tomo.load_one(Seekable::new(data)).unwrap();
    let mut last = tomo.source(ix).offset;
    while st == SourceStatus::MoreToGo {
        st = tomo.source_mut(ix).load_next_container().unwrap();
        let now = tomo.source(ix).offset;
        assert!(now >= last);
        last = now;
    }
    assert_eq!(tomo.source(ix).len(), 3);
}

#[test]
fn corrupt_mode_byte() {
    let mut data = empty();
    data[7] = 0x02;
    let mut tomo = Tomo::default();
    let err = tomo.load(Seekable::new(data)).unwrap_err();
    assert_eq!(err, TomoError::CorruptContainer);
    assert_eq!(tomo.len(), 0);
}

#[test]
fn corrupt_indic_kind_surfaces_in_paths() {
    let mut index = Vec::new();
    Indic { kind: IndicKind::Paths, path: 0, attrs: 0, offset: 0, length: 0 }.encode(&mut index);
    index[0] = 0x55;
    let mut data = Vec::new();
    ContainerHeader { mode: Mode::Stacked, index_bytes: 24, entries_bytes: 0 }.encode(&mut data);
    data.extend(index);

    let mut tomo = Tomo::default();
    tomo.load(Seekable::new(data)).unwrap();
    assert_eq!(tomo.len(), 1);

    let mut paths = tomo.all_paths();
    let err = paths.next(&mut tomo).unwrap().unwrap_err();
    assert_eq!(err, TomoError::CorruptContainer);
    assert!(paths.next(&mut tomo).is_none());
}

#[test]
fn ragged_index_surfaces_in_paths() {
    let mut data = Vec::new();
    ContainerHeader { mode: Mode::Stacked, index_bytes: 10, entries_bytes: 0 }.encode(&mut data);
    data.extend_from_slice(&[0u8; 10]);

    let mut tomo = Tomo::default();
    tomo.load(Seekable::new(data)).unwrap();

    let mut paths = tomo.all_paths();
    let err = paths.next(&mut tomo).unwrap().unwrap_err();
    assert_eq!(err, TomoError::CorruptContainer);
    assert!(paths.next(&mut tomo).is_none());
}

#[test]
fn index_stream_ends_after_error() {
    let mut data = Vec::new();
    ContainerHeader { mode: Mode::Stacked, index_bytes: 24, entries_bytes: 0 }.encode(&mut data);
    data.extend_from_slice(&[0x55; 24]);

    let mut tomo = Tomo::default();
    let ix = tomo.load(Seekable::new(data)).unwrap();
    let mut index = tomo.source(ix).index(0).unwrap();
    let first = index.next(tomo.source_mut(ix)).unwrap();
    assert_eq!(first.unwrap_err(), TomoError::CorruptContainer);
    assert!(index.next(tomo.source_mut(ix)).is_none());
}

#[test]
fn index_out_of_range() {
    let mut tomo: Tomo<Seekable> = Tomo::default();
    let ix = tomo.load(Seekable::new(empty())).unwrap();
    assert!(tomo.source(ix).index(1).is_none());
    assert!(tomo.source(ix).index(0).is_some());
}

#[test]
fn paths_across_two_sources() {
    let mut tomo = Tomo::default();
    tomo.load(Seekable::new(single_file())).unwrap();
    tomo.load(Seekable::new(single_file())).unwrap();
    assert_eq!(tomo.len(), 2);

    let mut paths = tomo.all_paths();
    let mut yielded = Vec::new();
    while let Some(item) = paths.next(&mut tomo) {
        yielded.push(item.unwrap());
    }
    assert_eq!(yielded.len(), 2);
    for p in yielded {
        assert_eq!(
            p,
            Path { segcount: 1, segments: vec![PathSeg::Segment(b"hello\0".to_vec())] }
        );
    }
}
