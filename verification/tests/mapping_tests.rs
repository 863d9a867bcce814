use font_outline::mapping::load_cmap;

fn push_u16(buf: &mut Vec<u8>, v: u16) {
    buf.extend_from_slice(&v.to_be_bytes());
}

fn push_u32(buf: &mut Vec<u8>, v: u32) {
    buf.extend_from_slice(&v.to_be_bytes());
}

fn build_sfnt(tables: &[(&[u8; 4], Vec<u8>)]) -> Vec<u8> {
    let mut buf = Vec::new();
    push_u32(&mut buf, 0x0001_0000);
    push_u16(&mut buf, tables.len() as u16);
    push_u16(&mut buf, 0);
    push_u16(&mut buf, 0);
    push_u16(&mut buf, 0);
    let mut offset = 12 + 16 * tables.len() as u32;
    for (tag, body) in tables {
        buf.extend_from_slice(&tag[..]);
        push_u32(&mut buf, 0);
        push_u32(&mut buf, offset);
        push_u32(&mut buf, body.len() as u32);
        offset += body.len() as u32;
    }
    for (_, body) in tables {
        buf.extend_from_slice(body);
    }
    buf
}

/// One segment of a format-4 subtable.
struct Segment {
    start: u16,
    end: u16,
    delta: u16,
    range_offset: u16,
}

/// A cmap table: subtable records (platform, encoding) all pointing at one
/// format-4 subtable built from the segments, with optional extra glyph-id
/// words after the arrays for indirect segments.
fn build_cmap(records: &[(u16, u16)], segments: &[Segment], glyph_ids: &[u16]) -> Vec<u8> {
    let mut table = Vec::new();
    push_u16(&mut table, 0); // version
    push_u16(&mut table, records.len() as u16);
    let subtable_offset = 4 + 8 * records.len() as u32;
    for (platform, encoding) in records {
        push_u16(&mut table, *platform);
        push_u16(&mut table, *encoding);
        push_u32(&mut table, subtable_offset);
    }
    let segc = segments.len() as u16;
    let length = 16 + 8 * segc + 2 * glyph_ids.len() as u16;
    push_u16(&mut table, 4); // format
    push_u16(&mut table, length);
    push_u16(&mut table, 0); // language
    push_u16(&mut table, 2 * segc);
    push_u16(&mut table, 0); // search range
    push_u16(&mut table, 0); // entry selector
    push_u16(&mut table, 0); // range shift
    for s in segments {
        push_u16(&mut table, s.end);
    }
    push_u16(&mut table, 0); // reserved pad
    for s in segments {
        push_u16(&mut table, s.start);
    }
    for s in segments {
        push_u16(&mut table, s.delta);
    }
    for s in segments {
        push_u16(&mut table, s.range_offset);
    }
    for g in glyph_ids {
        push_u16(&mut table, *g);
    }
    table
}

#[test]
fn direct_segment_maps_its_half_open_range() {
    let cmap = build_cmap(
        &[(0, 3)],
        &[Segment { start: 65, end: 68, delta: 5, range_offset: 0 }],
        &[],
    );
    let data = build_sfnt(&[(b"cmap", cmap)]);
    let map = load_cmap(&data).expect("cmap parses");
    assert_eq!(map.glyph_index('A' as u32), 70);
    assert_eq!(map.glyph_index('B' as u32), 71);
    assert_eq!(map.glyph_index('C' as u32), 72);
    // the end code itself lies outside the range
    assert_eq!(map.glyph_index('D' as u32), 0);
    assert!(!map.contains('D' as u32));
    // any code outside all segments resolves to glyph 0
    assert_eq!(map.glyph_index('z' as u32), 0);
    assert_eq!(map.len(), 3);
}

#[test]
fn direct_segment_wraps_modulo_65536() {
    let cmap = build_cmap(
        &[(0, 0)],
        &[Segment { start: 100, end: 101, delta: 0xFFFF, range_offset: 0 }],
        &[],
    );
    let data = build_sfnt(&[(b"cmap", cmap)]);
    let map = load_cmap(&data).expect("cmap parses");
    // (100 + 0xFFFF) mod 0x10000 = 99
    assert_eq!(map.glyph_index(100), 99);
}

#[test]
fn indirect_segment_reads_through_the_range_offset() {
    // the id-range-offset slot of segment 0 sits 4 bytes before the glyph
    // id array, so an offset of 4 selects its first word
    let cmap = build_cmap(
        &[(0, 1)],
        &[
            Segment { start: 100, end: 103, delta: 3, range_offset: 4 },
            Segment { start: 0xFFFF, end: 0xFFFF, delta: 0, range_offset: 0 },
        ],
        &[7, 0, 9],
    );
    let data = build_sfnt(&[(b"cmap", cmap)]);
    let map = load_cmap(&data).expect("cmap parses");
    // nonzero read values get the delta added modulo 0x10000
    assert_eq!(map.glyph_index(100), 10);
    // a zero read value stays glyph 0, without the delta
    assert_eq!(map.glyph_index(101), 0);
    assert!(map.contains(101));
    assert_eq!(map.glyph_index(102), 12);
}

#[test]
fn scan_takes_the_first_matching_record_in_file_order() {
    // (3, 1) never matches; the scan settles on (0, 1) even though (0, 0)
    // follows later
    let cmap = build_cmap(
        &[(3, 1), (0, 1), (0, 0)],
        &[Segment { start: 10, end: 11, delta: 1, range_offset: 0 }],
        &[],
    );
    let data = build_sfnt(&[(b"cmap", cmap)]);
    let map = load_cmap(&data).expect("cmap parses");
    assert_eq!(map.glyph_index(10), 11);
}

#[test]
fn no_matching_record_gives_the_empty_map() {
    let cmap = build_cmap(
        &[(3, 1), (1, 0)],
        &[Segment { start: 10, end: 11, delta: 1, range_offset: 0 }],
        &[],
    );
    let data = build_sfnt(&[(b"cmap", cmap)]);
    let map = load_cmap(&data).expect("an unmatched scan is not a failure");
    assert_eq!(map.len(), 0);
    assert_eq!(map.glyph_index(10), 0);
}

#[test]
fn unsupported_format_gives_the_empty_map() {
    let mut table = Vec::new();
    push_u16(&mut table, 0);
    push_u16(&mut table, 1);
    push_u16(&mut table, 0);
    push_u16(&mut table, 0);
    push_u32(&mut table, 12);
    push_u16(&mut table, 12); // format 12, unimplemented
    push_u16(&mut table, 0);
    let data = build_sfnt(&[(b"cmap", table)]);
    let map = load_cmap(&data).expect("an unimplemented format is not a failure");
    assert_eq!(map.len(), 0);
}

#[test]
fn surrogate_codes_are_skipped() {
    let cmap = build_cmap(
        &[(0, 0)],
        &[Segment { start: 0xD7FE, end: 0xE001, delta: 1, range_offset: 0 }],
        &[],
    );
    let data = build_sfnt(&[(b"cmap", cmap)]);
    let map = load_cmap(&data).expect("cmap parses");
    assert!(map.contains(0xD7FE));
    assert!(map.contains(0xD7FF));
    assert!(!map.contains(0xD800));
    assert!(!map.contains(0xDFFF));
    assert!(map.contains(0xE000));
    assert_eq!(map.len(), 3);
}

#[test]
fn malformed_cmap_header_fails_the_load() {
    // the subtable record list is cut short
    let mut table = Vec::new();
    push_u16(&mut table, 0);
    push_u16(&mut table, 2);
    push_u16(&mut table, 0);
    let data = build_sfnt(&[(b"cmap", table)]);
    assert!(load_cmap(&data).is_none());
    // no cmap table at all
    let empty = build_sfnt(&[]);
    assert!(load_cmap(&empty).is_none());
}

#[test]
fn truncated_format4_arrays_give_the_empty_map() {
    let mut cmap = build_cmap(
        &[(0, 0)],
        &[Segment { start: 65, end: 68, delta: 5, range_offset: 0 }],
        &[],
    );
    cmap.truncate(cmap.len() - 3);
    let data = build_sfnt(&[(b"cmap", cmap)]);
    let map = load_cmap(&data).expect("a short subtable is not a failure");
    assert_eq!(map.len(), 0);
}

#[test]
fn indirect_read_past_the_buffer_gives_the_empty_map() {
    let cmap = build_cmap(
        &[(0, 0)],
        &[Segment { start: 100, end: 102, delta: 0, range_offset: 0x4000 }],
        &[],
    );
    let data = build_sfnt(&[(b"cmap", cmap)]);
    let map = load_cmap(&data).expect("a bad range offset is not a failure");
    assert_eq!(map.len(), 0);
}
