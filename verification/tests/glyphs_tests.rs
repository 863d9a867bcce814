use font_outline::glyphs::{load_glyphs, parse_glyph, Point};

fn push_u16(buf: &mut Vec<u8>, v: u16) {
    buf.extend_from_slice(&v.to_be_bytes());
}

fn push_u32(buf: &mut Vec<u8>, v: u32) {
    buf.extend_from_slice(&v.to_be_bytes());
}

fn push_i16(buf: &mut Vec<u8>, v: i16) {
    buf.extend_from_slice(&v.to_be_bytes());
}

fn build_sfnt(tables: &[(&[u8; 4], Vec<u8>)]) -> Vec<u8> {
    let mut buf = Vec::new();
    push_u32(&mut buf, 0x0001_0000);
    push_u16(&mut buf, tables.len() as u16);
    push_u16(&mut buf, 0);
    push_u16(&mut buf, 0);
    push_u16(&mut buf, 0);
    let mut offset = 12 + 16 * tables.len() as u32;
    for (tag, body) in tables {
        buf.extend_from_slice(&tag[..]);
        push_u32(&mut buf, 0);
        push_u32(&mut buf, offset);
        push_u32(&mut buf, body.len() as u32);
        offset += body.len() as u32;
    }
    for (_, body) in tables {
        buf.extend_from_slice(body);
    }
    buf
}

fn build_head(index_to_location_format: i16) -> Vec<u8> {
    let mut head = vec![0u8; 50];
    push_i16(&mut head, index_to_location_format);
    push_i16(&mut head, 0);
    head
}

/// A glyph record header: contour count, a zero bounding box, the end-point
/// indices and a zero instruction count.
fn glyph_header(ends: &[u16]) -> Vec<u8> {
    let mut rec = Vec::new();
    push_i16(&mut rec, ends.len() as i16);
    for _ in 0..4 {
        push_u16(&mut rec, 0); // bounding box, ignored
    }
    for e in ends {
        push_u16(&mut rec, *e);
    }
    push_u16(&mut rec, 0); // no hinting instructions
    rec
}

#[test]
fn mixed_delta_forms_accumulate() {
    let mut rec = glyph_header(&[2]);
    // point 0: on-curve, both deltas short and positive
    // point 1: on-curve, x short negative, y unchanged
    // point 2: off-curve, both deltas signed 16-bit
    rec.extend_from_slice(&[0x37, 0x23, 0x00]);
    rec.push(10); // +10
    rec.push(3); // -3
    push_i16(&mut rec, -500);
    rec.push(7); // +7
    push_i16(&mut rec, 1000);
    let g = parse_glyph(&rec, 0).expect("record decodes");
    assert_eq!(g.contours.len(), 1);
    let c = &g.contours[0];
    assert_eq!(c.points, vec![
        Point { x: 10, y: 7 },
        Point { x: 7, y: 7 },
        Point { x: -493, y: 1007 },
    ]);
    assert_eq!(c.on_curve, vec![true, true, false]);
}

#[test]
fn repeated_flags_expand() {
    let mut rec = glyph_header(&[4]);
    // one flag byte with the repeat bit, follwed by 4 extra copies
    rec.extend_from_slice(&[0x3F, 4]);
    rec.extend_from_slice(&[1, 2, 3, 4, 5]); // x deltas
    rec.extend_from_slice(&[1, 1, 1, 1, 1]); // y deltas
    let g = parse_glyph(&rec, 0).expect("record decodes");
    let c = &g.contours[0];
    assert_eq!(c.points, vec![
        Point { x: 1, y: 1 },
        Point { x: 3, y: 2 },
        Point { x: 6, y: 3 },
        Point { x: 10, y: 4 },
        Point { x: 15, y: 5 },
    ]);
    assert!(c.on_curve.iter().all(|&b| b));
}

#[test]
fn repeat_count_is_clipped_to_remaining_points() {
    let mut rec = glyph_header(&[1]);
    rec.extend_from_slice(&[0x3F, 200]); // 200 copies offered, 1 slot left
    rec.extend_from_slice(&[4, 4]); // x deltas
    rec.extend_from_slice(&[2, 2]); // y deltas
    let g = parse_glyph(&rec, 0).expect("record decodes");
    assert_eq!(g.contours[0].points, vec![Point { x: 4, y: 2 }, Point { x: 8, y: 4 }]);
}

#[test]
fn composite_glyph_is_an_empty_outline() {
    let mut rec = Vec::new();
    push_i16(&mut rec, -1);
    for _ in 0..4 {
        push_u16(&mut rec, 0);
    }
    let g = parse_glyph(&rec, 0).expect("composite decodes to a placeholder");
    assert_eq!(g.contours.len(), 0);
}

#[test]
fn truncated_record_fails() {
    let mut rec = glyph_header(&[0]);
    rec.push(0x37); // flag, but its deltas are missing
    assert!(parse_glyph(&rec, 0).is_none());
    assert!(parse_glyph(&rec, rec.len() + 5).is_none());
}

#[test]
fn reencoded_deltas_decode_to_identical_points() {
    // the same two points, once with a run-length-compressed flag array and
    // once re-encoded canonically (repeat bit kept, zero repeat count)
    let mut compact = glyph_header(&[1]);
    compact.extend_from_slice(&[0x3F, 1]);
    compact.extend_from_slice(&[6, 7]);
    compact.extend_from_slice(&[8, 9]);
    let mut canonical = glyph_header(&[1]);
    canonical.extend_from_slice(&[0x3F, 0, 0x3F, 0]);
    canonical.extend_from_slice(&[6, 7]);
    canonical.extend_from_slice(&[8, 9]);
    let a = parse_glyph(&compact, 0).unwrap();
    let b = parse_glyph(&canonical, 0).unwrap();
    assert_eq!(a.contours.len(), b.contours.len());
    assert_eq!(a.contours[0].points, b.contours[0].points);
    assert_eq!(a.contours[0].on_curve, b.contours[0].on_curve);
    assert_eq!(a.contours[0].points, vec![Point { x: 6, y: 8 }, Point { x: 13, y: 17 }]);
}

/// One 20-byte glyph record: a single contour of one on-curve point (5, 9).
fn tiny_record() -> Vec<u8> {
    let mut rec = glyph_header(&[0]);
    rec.push(0x37);
    rec.push(5);
    rec.push(9);
    while rec.len() < 20 {
        rec.push(0);
    }
    rec
}

#[test]
fn equal_word_offsets_give_zero_contours_and_scaled_offsets_decode() {
    // loca = [0, 0, 10] in 16-bit-word format, one 10-word record after it
    let mut loca = Vec::new();
    push_u16(&mut loca, 0);
    push_u16(&mut loca, 0);
    push_u16(&mut loca, 10);
    let data = build_sfnt(&[
        (b"head", build_head(0)),
        (b"loca", loca),
        (b"glyf", tiny_record()),
    ]);
    let glyphs = load_glyphs(&data).expect("font loads");
    assert_eq!(glyphs.len(), 2);
    // equal consecutive offsets: no outline
    assert_eq!(glyphs[0].contours.len(), 0);
    // word offset 0 scaled by 2 = byte 0 of glyf
    assert_eq!(glyphs[1].contours.len(), 1);
    assert_eq!(glyphs[1].contours[0].points, vec![Point { x: 5, y: 9 }]);
}

#[test]
fn loader_returns_one_glyph_per_loca_pair() {
    // four word entries: three glyphs, all empty
    let mut loca = Vec::new();
    for _ in 0..4 {
        push_u16(&mut loca, 0);
    }
    let data = build_sfnt(&[
        (b"head", build_head(0)),
        (b"loca", loca),
        (b"glyf", vec![]),
    ]);
    let glyphs = load_glyphs(&data).expect("font loads");
    assert_eq!(glyphs.len(), 3);
    assert!(glyphs.iter().all(|g| g.contours.len() == 0));
}

#[test]
fn long_format_uses_byte_offsets() {
    let mut loca = Vec::new();
    push_u32(&mut loca, 0);
    push_u32(&mut loca, 20);
    let data = build_sfnt(&[
        (b"head", build_head(1)),
        (b"loca", loca),
        (b"glyf", tiny_record()),
    ]);
    let glyphs = load_glyphs(&data).expect("font loads");
    assert_eq!(glyphs.len(), 1);
    assert_eq!(glyphs[0].contours[0].points, vec![Point { x: 5, y: 9 }]);
}

#[test]
fn long_format_corrupt_record_degrades_too() {
    // glyph 0 points past the buffer in 32-bit format; the load still
    // yields a glyph list, with an empty outline in its place
    let mut loca = Vec::new();
    push_u32(&mut loca, 9000);
    push_u32(&mut loca, 9100);
    let data = build_sfnt(&[
        (b"head", build_head(1)),
        (b"loca", loca),
        (b"glyf", tiny_record()),
    ]);
    let glyphs = load_glyphs(&data).expect("one bad record must not abort the font");
    assert_eq!(glyphs.len(), 1);
    assert_eq!(glyphs[0].contours.len(), 0);
}

#[test]
fn corrupt_record_degrades_to_empty_outline_only() {
    // glyph 0 points far outside the buffer; glyph 1 is fine
    let mut loca = Vec::new();
    push_u16(&mut loca, 5000);
    push_u16(&mut loca, 6000);
    push_u16(&mut loca, 6000);
    let data = build_sfnt(&[
        (b"head", build_head(0)),
        (b"loca", loca),
        (b"glyf", tiny_record()),
    ]);
    let glyphs = load_glyphs(&data).expect("one bad record must not abort the font");
    assert_eq!(glyphs.len(), 2);
    assert_eq!(glyphs[0].contours.len(), 0);
    assert_eq!(glyphs[1].contours.len(), 0);
}

#[test]
fn truncated_loca_fails_the_whole_load() {
    let mut loca = Vec::new();
    push_u16(&mut loca, 0);
    push_u16(&mut loca, 0);
    let mut data = build_sfnt(&[
        (b"head", build_head(0)),
        (b"loca", loca),
        (b"glyf", vec![]),
    ]);
    // no loca or glyf at all: structural failure
    let no_tables = build_sfnt(&[(b"head", build_head(0))]);
    assert!(load_glyphs(&no_tables).is_none());
    // loca is the second record: enlarge its declared length past the file
    let len_field = 12 + 16 + 12;
    data[len_field..len_field + 4].copy_from_slice(&100u32.to_be_bytes());
    assert!(load_glyphs(&data).is_none());
}
