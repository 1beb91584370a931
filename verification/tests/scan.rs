use scanner::cache::AddressValueCache;
use scanner::codec::{decode_cache, decode_records, decode_regions, encode_cache, encode_records,
    encode_regions};
use scanner::error::{Error, ErrorKind};
use scanner::index::ReverseIndex;
use scanner::parse::{Offset, Target};
use scanner::perform_scan;
use scanner::region::MemoryRegion;
use scanner::search::{PathFindEngine, PathRecord};
use scanner::text::{convert_scan_to_text, diff_lines, split_lines};

fn cache_of(pairs: Vec<(u64, u64)>) -> AddressValueCache {
    AddressValueCache::from_entries(pairs).unwrap()
}

fn region(start: u64, end: u64, path: &[u8]) -> MemoryRegion {
    MemoryRegion { start, end, path: path.to_vec() }
}

#[test]
fn cache_rejects_unsorted_entries() {
    let r = AddressValueCache::from_entries(vec![(5, 1), (3, 2)]);
    assert!(matches!(r, Err(Error(ErrorKind::UnsortedCache))));
    let r = AddressValueCache::from_entries(vec![(3, 1), (3, 2)]);
    assert!(matches!(r, Err(Error(ErrorKind::UnsortedCache))));
    assert!(AddressValueCache::from_entries(vec![(3, 1), (5, 2)]).is_ok());
    assert!(AddressValueCache::from_entries(vec![]).is_ok());
}

#[test]
fn reverse_index_inverts_cache() {
    // Three addresses, two of them holding the same value.
    let cache = cache_of(vec![(10, 7), (20, 7), (30, 9)]);
    let idx = ReverseIndex::build(&cache);
    assert_eq!(idx.len(), cache.len());
    let hits = idx.range_query(7, 7);
    let mut addrs: Vec<u64> = hits.iter().map(|p| p.1).collect();
    addrs.sort();
    assert_eq!(addrs, vec![10, 20]);
    assert_eq!(idx.range_query(9, 9), vec![(9, 30)]);
    assert_eq!(idx.range_query(8, 8), vec![]);
}

#[test]
fn reverse_index_window_query() {
    let cache = cache_of(vec![(1, 100), (2, 104), (3, 116), (4, 117)]);
    let idx = ReverseIndex::build(&cache);
    let hits = idx.range_query(100, 116);
    let mut vals: Vec<u64> = hits.iter().map(|p| p.0).collect();
    vals.sort();
    assert_eq!(vals, vec![100, 104, 116]);
}

#[test]
fn anchors_are_cache_keys_inside_selected_regions() {
    let cache = cache_of(vec![(99, 0), (100, 1), (150, 2), (200, 3), (201, 4)]);
    let regions = vec![region(100, 200, b"a"), region(300, 400, b"b")];
    let anchors = cache.select_anchors(&regions);
    // Both boundaries are inclusive; 99 and 201 fall outside.
    assert_eq!(anchors, vec![100, 150, 200]);
}

#[test]
fn disjointness_check_decides_overlap() {
    let ok = vec![region(0, 10, b"a"), region(11, 20, b"b")];
    assert!(scanner::region::check_disjoint(&ok));
    let touching = vec![region(0, 10, b"a"), region(10, 20, b"b")];
    assert!(!scanner::region::check_disjoint(&touching));
    assert!(scanner::region::check_disjoint(&vec![]));
}

#[test]
fn anchors_empty_when_no_region_selected() {
    let cache = cache_of(vec![(1, 2), (3, 4)]);
    let anchors = cache.select_anchors(&vec![]);
    assert!(anchors.is_empty());
}

fn scenario_engine(depth: usize) -> PathFindEngine {
    // target = 100; address 50 holds 104 (offset 4); anchor 200 holds 55
    // (offset 5), inside the selected region [200, 300].
    let cache = cache_of(vec![(50, 104), (200, 55)]);
    let regions = vec![region(200, 300, b"A")];
    let startpoints = cache.select_anchors(&regions);
    let engine = ReverseIndex::build(&cache);
    PathFindEngine { target: 100, depth, offset: (0, 16), startpoints, engine }
}

#[test]
fn search_finds_the_known_chain() {
    let recs = scenario_engine(3).search().unwrap();
    assert_eq!(recs.len(), 1);
    assert_eq!(recs[0].offsets, vec![4, 5]);
    assert_eq!(recs[0].anchor, 200);
}

#[test]
fn search_respects_depth_bound() {
    // The chain needs two levels; depth 1 must not find it.
    let recs = scenario_engine(1).search().unwrap();
    assert!(recs.is_empty());
}

#[test]
fn search_rejects_bad_configuration() {
    let mut e = scenario_engine(0);
    assert!(matches!(e.search(), Err(Error(ErrorKind::ZeroDepth))));
    e.depth = 256;
    assert!(matches!(e.search(), Err(Error(ErrorKind::DepthTooLarge))));
    e.depth = 3;
    e.offset = (32769, 16);
    assert!(matches!(e.search(), Err(Error(ErrorKind::WindowTooWide))));
    e.offset = (0, 32768);
    assert!(matches!(e.search(), Err(Error(ErrorKind::WindowTooWide))));
    e.offset = (32768, 32767);
    assert!(e.search().is_ok());
}

#[test]
fn end_to_end_scan_and_convert() {
    let cache = cache_of(vec![(50, 104), (200, 55)]);
    let regions = vec![region(200, 300, b"A")];
    let bytes = perform_scan(&cache, &regions, 100, 3, (0, 16)).unwrap();
    let lines = convert_scan_to_text(&bytes).unwrap();
    assert_eq!(lines.len(), 1);
    assert_eq!(lines[0], b"A+0x0 4 5".to_vec());
}

#[test]
fn anchor_base_is_region_relative() {
    // Anchor 272 sits 16 bytes into the region starting at 256.
    let cache = cache_of(vec![(50, 104), (272, 55)]);
    let regions = vec![region(256, 512, b"A")];
    let startpoints = cache.select_anchors(&regions);
    let engine = ReverseIndex::build(&cache);
    let e = PathFindEngine { target: 100, depth: 3, offset: (0, 16), startpoints, engine };
    let recs = e.search().unwrap();
    assert_eq!(recs.len(), 1);
    assert_eq!(recs[0].offsets, vec![4, 5]);
    assert_eq!(recs[0].anchor, 272);
    assert_eq!(recs[0].anchor_base(&regions), Some(16));
    assert_eq!(recs[0].anchor_base(&vec![]), None);

    let bytes = perform_scan(&cache, &regions, 100, 3, (0, 16)).unwrap();
    let lines = convert_scan_to_text(&bytes).unwrap();
    assert_eq!(lines, vec![b"A+0x10 4 5".to_vec()]);
}

#[test]
fn region_catalog_round_trips() {
    let regions = vec![
        region(0x1000, 0x2000, b"/lib/libc.so"),
        region(0x3000, 0x3fff, b""),
    ];
    let bytes = encode_regions(&regions);
    let (back, used) = decode_regions(&bytes).unwrap();
    assert_eq!(used, bytes.len());
    assert_eq!(back.len(), 2);
    assert_eq!((back[0].start, back[0].end), (0x1000, 0x2000));
    assert_eq!(back[0].path, b"/lib/libc.so".to_vec());
    assert_eq!((back[1].start, back[1].end), (0x3000, 0x3fff));
    assert_eq!(back[1].path, b"".to_vec());
}

#[test]
fn empty_catalog_round_trips() {
    let bytes = encode_regions(&vec![]);
    let (back, used) = decode_regions(&bytes).unwrap();
    assert_eq!(used, 8);
    assert!(back.is_empty());
}

#[test]
fn catalog_decode_rejects_truncation_and_bad_bounds() {
    let regions = vec![region(10, 20, b"x")];
    let mut bytes = encode_regions(&regions);
    bytes.pop();
    assert!(matches!(
        decode_regions(&bytes),
        Err(Error(ErrorKind::Truncated))
    ));
    let inverted = vec![MemoryRegion { start: 20, end: 10, path: vec![] }];
    // Encode by hand: count, start, end, length.
    let mut raw: Vec<u8> = Vec::new();
    raw.extend_from_slice(&1u64.to_le_bytes());
    raw.extend_from_slice(&20u64.to_le_bytes());
    raw.extend_from_slice(&10u64.to_le_bytes());
    raw.extend_from_slice(&0u64.to_le_bytes());
    assert!(matches!(
        decode_regions(&raw),
        Err(Error(ErrorKind::BadRegion))
    ));
    assert_eq!(inverted[0].start, 20);
}

#[test]
fn record_stream_round_trips() {
    let recs = vec![
        PathRecord { offsets: vec![4, 5], anchor: 200 },
        PathRecord { offsets: vec![-3], anchor: 999 },
        PathRecord { offsets: vec![-32768, 32767, 0], anchor: u64::MAX },
    ];
    let depth = 3;
    let bytes = encode_records(depth, &recs);
    let (d2, back) = decode_records(&bytes, 0).unwrap();
    assert_eq!(d2, depth);
    assert_eq!(back.len(), recs.len());
    for (a, b) in recs.iter().zip(back.iter()) {
        assert_eq!(a.offsets, b.offsets);
        assert_eq!(a.anchor, b.anchor);
    }
}

#[test]
fn empty_record_stream_round_trips() {
    let bytes = encode_records(7, &vec![]);
    let (d2, back) = decode_records(&bytes, 0).unwrap();
    assert_eq!(d2, 7);
    assert!(back.is_empty());
}

#[test]
fn record_width_is_fixed_by_depth() {
    for depth in [1usize, 3, 7, 255] {
        let recs = vec![PathRecord { offsets: vec![1], anchor: 42 }];
        let bytes = encode_records(depth, &recs);
        // Width header, then exactly one record of 1 + 2*depth + 8 bytes.
        assert_eq!(bytes.len(), 8 + 1 + 2 * depth + 8);
        let width = u64::from_le_bytes(bytes[0..8].try_into().unwrap());
        assert_eq!(width as usize, 2 * depth + 9);
    }
}

#[test]
fn record_decode_detects_width_mismatch() {
    let recs = vec![PathRecord { offsets: vec![1, 2], anchor: 7 }];
    let mut bytes = encode_records(2, &recs);
    // A record under a wrong declared width no longer divides the body.
    bytes[0] = 15;
    assert!(matches!(
        decode_records(&bytes, 0),
        Err(Error(ErrorKind::WidthMismatch))
    ));
    // An even width is impossible.
    let mut bytes2 = encode_records(2, &recs);
    bytes2[0] = 14;
    assert!(matches!(
        decode_records(&bytes2, 0),
        Err(Error(ErrorKind::WidthMismatch))
    ));
    // A level count above the stream depth is rejected.
    let mut bytes3 = encode_records(2, &recs);
    bytes3[8] = 3;
    assert!(matches!(
        decode_records(&bytes3, 0),
        Err(Error(ErrorKind::BadRecord))
    ));
}

#[test]
fn cache_file_round_trips() {
    let cache = cache_of(vec![(1, 10), (2, 20), (3, 30)]);
    let regions = vec![region(0x10, 0x20, b"m")];
    let bytes = encode_cache(&regions, &cache);
    let (rback, cback) = decode_cache(&bytes).unwrap();
    assert_eq!(rback.len(), 1);
    assert_eq!(rback[0].path, b"m".to_vec());
    assert_eq!(cback.entries, vec![(1, 10), (2, 20), (3, 30)]);
}

#[test]
fn cache_file_decode_rejects_unsorted_pairs() {
    let regions: Vec<MemoryRegion> = vec![];
    let mut raw: Vec<u8> = Vec::new();
    raw.extend_from_slice(&encode_regions(&regions));
    raw.extend_from_slice(&2u64.to_le_bytes());
    raw.extend_from_slice(&9u64.to_le_bytes());
    raw.extend_from_slice(&1u64.to_le_bytes());
    raw.extend_from_slice(&3u64.to_le_bytes());
    raw.extend_from_slice(&2u64.to_le_bytes());
    assert!(matches!(
        decode_cache(&raw),
        Err(Error(ErrorKind::UnsortedCache))
    ));
}

#[test]
fn target_parses_hex_with_optional_prefix() {
    assert_eq!(Target::from_arg_value("0x1A").unwrap().0, 0x1a);
    assert_eq!(Target::from_arg_value("ff").unwrap().0, 255);
    assert_eq!(Target::from_arg_value("0").unwrap().0, 0);
    assert_eq!(
        Target::from_arg_value("0xffffffffffffffff").unwrap().0,
        u64::MAX
    );
    assert!(matches!(
        Target::from_arg_value(""),
        Err(Error(ErrorKind::EmptyNumber))
    ));
    assert!(matches!(
        Target::from_arg_value("0x"),
        Err(Error(ErrorKind::EmptyNumber))
    ));
    assert!(matches!(
        Target::from_arg_value("12g4"),
        Err(Error(ErrorKind::InvalidDigit))
    ));
    assert!(matches!(
        Target::from_arg_value("0x10000000000000000"),
        Err(Error(ErrorKind::NumberTooLarge))
    ));
}

#[test]
fn offset_parses_window_bounds() {
    let o = Offset::from_arg_value("0:600").unwrap();
    assert_eq!(o.0, (0, 600));
    let o = Offset::from_arg_value("-16:+32").unwrap();
    assert_eq!(o.0, (16, 32));
    assert!(matches!(
        Offset::from_arg_value("16 32"),
        Err(Error(ErrorKind::MissingSeparator))
    ));
    assert!(matches!(
        Offset::from_arg_value(":32"),
        Err(Error(ErrorKind::EmptyNumber))
    ));
    assert!(matches!(
        Offset::from_arg_value("1:x"),
        Err(Error(ErrorKind::InvalidDigit))
    ));
}

#[test]
fn diff_keeps_exactly_the_common_lines() {
    let a: Vec<Vec<u8>> = vec![b"A+0x10 4 5".to_vec(), b"A+0x20 1 2".to_vec()];
    let b: Vec<Vec<u8>> = vec![b"A+0x10 4 5".to_vec(), b"A+0x30 9 9".to_vec()];
    let d = diff_lines(&a, &b);
    assert_eq!(d, vec![b"A+0x10 4 5".to_vec()]);
}

#[test]
fn diff_deduplicates_and_handles_disjoint_sets() {
    let a: Vec<Vec<u8>> = vec![b"x".to_vec(), b"x".to_vec(), b"y".to_vec()];
    let b: Vec<Vec<u8>> = vec![b"x".to_vec()];
    assert_eq!(diff_lines(&a, &b), vec![b"x".to_vec()]);
    let c: Vec<Vec<u8>> = vec![b"z".to_vec()];
    assert!(diff_lines(&a, &c).is_empty());
}

#[test]
fn split_lines_matches_line_structure() {
    let text = b"one\ntwo\nthree".to_vec();
    let ls = split_lines(&text);
    assert_eq!(ls, vec![b"one".to_vec(), b"two".to_vec(), b"three".to_vec()]);
    let text2 = b"one\ntwo\n".to_vec();
    assert_eq!(split_lines(&text2), vec![b"one".to_vec(), b"two".to_vec()]);
    assert!(split_lines(&Vec::new()).is_empty());
    assert_eq!(split_lines(&b"\n\n".to_vec()), vec![Vec::new(), Vec::new()]);
}

#[test]
fn scan_with_unreachable_target_is_empty_not_an_error() {
    let cache = cache_of(vec![(50, 104), (200, 55)]);
    let regions = vec![region(200, 300, b"A")];
    // Nothing points anywhere near this target.
    let bytes = perform_scan(&cache, &regions, 0xdead_0000, 3, (0, 16)).unwrap();
    let lines = convert_scan_to_text(&bytes).unwrap();
    assert!(lines.is_empty());
}

#[test]
fn convert_reports_anchor_outside_catalog() {
    let regions = vec![region(200, 300, b"A")];
    let recs = vec![PathRecord { offsets: vec![1], anchor: 50 }];
    let mut bytes = encode_regions(&regions);
    bytes.extend_from_slice(&encode_records(3, &recs));
    assert!(matches!(
        convert_scan_to_text(&bytes),
        Err(Error(ErrorKind::NoOwningRegion))
    ));
}

#[test]
fn error_messages_name_the_failure() {
    assert_eq!(Error(ErrorKind::ZeroDepth).message(), "depth must be at least 1");
    assert_eq!(Error(ErrorKind::Truncated).message(), "truncated input");
}
