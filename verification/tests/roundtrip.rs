use alcov::v0::{
    Alcov, AlcovBlock, AlcovEdges, AlcovHeader, AlcovModule, AlcovSegment, Error,
};

fn reference_snapshot(compress: bool) -> Alcov {
    let hdr = AlcovHeader::new(Some(b"abcd".to_vec()), compress);

    let modules = vec![
        AlcovModule::new(
            0,
            Some(b"/home/abc".to_vec()),
            vec![
                AlcovSegment::new(0, 0x1000),
                AlcovSegment::new(0x2000, 0x3000),
                AlcovSegment::new(0xaaaaaaaaa, 0xbbbbbbbbbbbbbb),
            ],
        )
        .unwrap(),
        AlcovModule::new(
            0x12345,
            None,
            vec![
                AlcovSegment::new(0, 0x1000),
                AlcovSegment::new(0xaaaaaaaaa, 0xbbbbbbbbbbbbbb),
            ],
        )
        .unwrap(),
    ];

    let blocks = vec![
        AlcovBlock::new(0, 0, 500, 32, 12),
        AlcovBlock::new(0, 0, 560, 16, 3),
        AlcovBlock::new(0, 0, 620, 47, 1),
    ];

    let mut edges = AlcovEdges::new();
    edges.add(0, 1);
    edges.add(0, 1);
    edges.add(1, 2);
    edges.add(2, 0);

    Alcov::new(hdr, modules, blocks, Some(edges))
}

#[test]
fn test_simple() {
    let alcov = reference_snapshot(true);
    let out_buf = alcov.write().unwrap();
    let new_alcov = Alcov::read(&out_buf).unwrap();
    if alcov != new_alcov {
        panic!("alcov serialization is incorrect.");
    }
}

#[test]
fn empty_snapshot_round_trips() {
    let hdr = AlcovHeader::new(None, false);
    let alcov = Alcov::new(hdr, vec![], vec![], None);
    let bytes = alcov.write().unwrap();
    let back = Alcov::read(&bytes).unwrap();
    assert_eq!(alcov, back);
}

#[test]
fn empty_with_input_path_compressed() {
    let hdr = AlcovHeader::new(Some(b"abcd".to_vec()), true);
    let alcov = Alcov::new(hdr, vec![], vec![], None);
    let flags = alcov.get_flags();
    // COMPRESS | INPUT_PATH, no EDGES
    assert_eq!(flags.bits, alcov::v0::header::FLAG_COMPRESS | alcov::v0::header::FLAG_INPUT_PATH);
    let bytes = alcov.write().unwrap();
    // nb_edges is the u64 at offset 32; edges_start the u64 at offset 64: both zero
    assert!(bytes[32..40].iter().all(|b| *b == 0));
    assert!(bytes[64..72].iter().all(|b| *b == 0));
    let back = Alcov::read(&bytes).unwrap();
    assert_eq!(alcov, back);
}

#[test]
fn single_module_no_path() {
    let hdr = AlcovHeader::new(None, false);
    let module = AlcovModule::new(
        0x12345,
        None,
        vec![
            AlcovSegment::new(0, 0x1000),
            AlcovSegment::new(0xaaaaaaaaa, 0xbbbbbbbbbbbbbb),
        ],
    )
    .unwrap();
    let alcov = Alcov::new(hdr, vec![module], vec![], None);
    let bytes = alcov.write().unwrap();
    // the module record starts right after the 74-byte header; its
    // path_offset field (bytes 8..16 of the record) holds -1 as i64
    assert!(bytes[74 + 8..74 + 16].iter().all(|b| *b == 0xff));
    let back = Alcov::read(&bytes).unwrap();
    assert_eq!(alcov, back);
}

#[test]
fn reference_scenario_counts() {
    let alcov = reference_snapshot(true);
    let edges = alcov.edges.as_ref().unwrap();
    assert_eq!(edges.nb_edges(), 3);
    let row0 = &edges.adj_list[0];
    assert_eq!(row0.entries.len(), 1);
    assert_eq!(row0.entries[0].0.dst_block_id, 1);
    assert_eq!(row0.entries[0].1.nb_taken, 2);
}

#[test]
fn edges_without_compression_round_trips_and_is_larger() {
    let compressed = reference_snapshot(true).write().unwrap();
    let plain_snap = reference_snapshot(false);
    let plain = plain_snap.write().unwrap();
    // the LZMA2 encoder frames its input in stored chunks, so the two
    // files differ in size by exactly that framing overhead
    assert_ne!(plain.len(), compressed.len());
    assert!(compressed.len() > plain.len());
    let back = Alcov::read(&plain).unwrap();
    assert_eq!(plain_snap, back);
}

#[test]
fn compression_transparency() {
    let with = reference_snapshot(true);
    let without = reference_snapshot(false);
    let back_with = Alcov::read(&with.write().unwrap()).unwrap();
    let back_without = Alcov::read(&without.write().unwrap()).unwrap();
    assert_eq!(back_with.modules, back_without.modules);
    assert_eq!(back_with.blocks, back_without.blocks);
    assert_eq!(back_with.edges, back_without.edges);
    assert_eq!(back_with.hdr.input_path, back_without.hdr.input_path);
}

#[test]
fn corrupt_magic_is_rejected() {
    let mut bytes = reference_snapshot(true).write().unwrap();
    bytes[0] ^= 0x01;
    match Alcov::read(&bytes) {
        Err(Error::WrongMagic) => (),
        other => panic!("expected WrongMagic, got {:?}", other.map(|_| ())),
    }
}

#[test]
fn unknown_flag_bit_is_rejected() {
    let mut bytes = reference_snapshot(false).write().unwrap();
    bytes[72] |= 0x08;
    match Alcov::read(&bytes) {
        Err(Error::WrongFlags(w)) => assert_eq!(w & 0x08, 0x08),
        other => panic!("expected WrongFlags, got {:?}", other.map(|_| ())),
    }
}

#[test]
fn zeroed_segment_count_is_rejected() {
    let mut bytes = reference_snapshot(false).write().unwrap();
    // first module record starts at 74; nb_segments is its 17th byte
    bytes[74 + 16] = 0;
    match Alcov::read(&bytes) {
        Err(Error::EmptyModule) => (),
        other => panic!("expected EmptyModule, got {:?}", other.map(|_| ())),
    }
}

#[test]
fn wide_segment_count_boundary() {
    let segs_255: Vec<AlcovSegment> = (0..255u64).map(|i| AlcovSegment::new(i, i + 1)).collect();
    let m = AlcovModule::new(1, None, segs_255).unwrap();
    let ok = Alcov::new(AlcovHeader::new(None, false), vec![m], vec![], None);
    let bytes = ok.write().unwrap();
    let back = Alcov::read(&bytes).unwrap();
    assert_eq!(ok, back);

    let segs_300: Vec<AlcovSegment> = (0..300u64).map(|i| AlcovSegment::new(i, i + 1)).collect();
    let wide = AlcovModule::new(1, None, segs_300).unwrap();
    let bad = Alcov::new(AlcovHeader::new(None, false), vec![wide], vec![], None);
    match bad.write() {
        Err(Error::SizeError) => (),
        other => panic!("expected SizeError, got {:?}", other.map(|_| ())),
    }
}

#[test]
fn non_ascii_path_rejected_at_write() {
    let m = AlcovModule::new(0, Some(vec![0x2f, 0xc3, 0xa9]), vec![AlcovSegment::new(0, 1)])
        .unwrap();
    let alcov = Alcov::new(AlcovHeader::new(None, false), vec![m], vec![], None);
    match alcov.write() {
        Err(Error::PathEncodingError) => (),
        other => panic!("expected PathEncodingError, got {:?}", other.map(|_| ())),
    }
}

#[test]
fn empty_adjacency_round_trips() {
    let hdr = AlcovHeader::new(None, false);
    let m = AlcovModule::new(0, None, vec![AlcovSegment::new(0, 0x100)]).unwrap();
    let blocks = vec![AlcovBlock::new(0, 0, 1, 2, 3), AlcovBlock::new(0, 0, 9, 2, 1)];
    let mut edges = AlcovEdges::new();
    edges.add(1, 0); // block 0 gets an empty adjacency; block 1 one edge
    let alcov = Alcov::new(hdr, vec![m], blocks, Some(edges));
    let bytes = alcov.write().unwrap();
    let back = Alcov::read(&bytes).unwrap();
    assert_eq!(alcov, back);
    let back_edges = back.edges.unwrap();
    assert_eq!(back_edges.adj_list[0].entries.len(), 0);
    assert_eq!(back_edges.adj_list[1].entries.len(), 1);
}

#[test]
fn empty_module_rejected_at_construction() {
    match AlcovModule::new(5, None, vec![]) {
        Err(Error::EmptyModule) => (),
        other => panic!("expected EmptyModule, got {:?}", other.map(|_| ())),
    }
}

#[test]
fn truncated_input_is_rejected() {
    match Alcov::read(&vec![0x41, 0x4c]) {
        Err(Error::Io) => (),
        other => panic!("expected Io, got {:?}", other.map(|_| ())),
    }
}

#[test]
fn error_descriptions_are_nonempty() {
    assert!(!Error::WrongMagic.describe().is_empty());
    assert!(!Error::WrongFlags(9).describe().is_empty());
    assert!(!Error::DecompressError.describe().is_empty());
}
