use font_outline::font::{Font, FontLoader};
use font_outline::glyphs::Point;

fn push_u16(buf: &mut Vec<u8>, v: u16) {
    buf.extend_from_slice(&v.to_be_bytes());
}

fn push_u32(buf: &mut Vec<u8>, v: u32) {
    buf.extend_from_slice(&v.to_be_bytes());
}

fn push_i16(buf: &mut Vec<u8>, v: i16) {
    buf.extend_from_slice(&v.to_be_bytes());
}

fn build_sfnt(tables: &[(&[u8; 4], Vec<u8>)]) -> Vec<u8> {
    let mut buf = Vec::new();
    push_u32(&mut buf, 0x0001_0000);
    push_u16(&mut buf, tables.len() as u16);
    push_u16(&mut buf, 0);
    push_u16(&mut buf, 0);
    push_u16(&mut buf, 0);
    let mut offset = 12 + 16 * tables.len() as u32;
    for (tag, body) in tables {
        buf.extend_from_slice(&tag[..]);
        push_u32(&mut buf, 0);
        push_u32(&mut buf, offset);
        push_u32(&mut buf, body.len() as u32);
        offset += body.len() as u32;
    }
    for (_, body) in tables {
        buf.extend_from_slice(body);
    }
    buf
}

fn build_head(index_to_location_format: i16) -> Vec<u8> {
    let mut head = vec![0u8; 50];
    push_i16(&mut head, index_to_location_format);
    push_i16(&mut head, 0);
    head
}

/// A record of one contour with a single on-curve point.
fn one_point_record(x: u8, y: u8) -> Vec<u8> {
    let mut rec = Vec::new();
    push_i16(&mut rec, 1);
    for _ in 0..4 {
        push_u16(&mut rec, 0);
    }
    push_u16(&mut rec, 0); // end-point index of contour 0
    push_u16(&mut rec, 0); // no instructions
    rec.push(0x37);
    rec.push(x);
    rec.push(y);
    rec.push(0); // pad to an even word count
    rec
}

/// A font of three glyphs: glyph 0 empty, glyph 1 at (3, 4), glyph 2 at
/// (8, 1); 'A' maps to glyph 1, 'B' to glyph 2, 'Z' to the out-of-range
/// index 9.
fn build_font_bytes() -> Vec<u8> {
    let rec1 = one_point_record(3, 4);
    let rec2 = one_point_record(8, 1);
    let mut glyf = rec1.clone();
    glyf.extend_from_slice(&rec2);
    let mut loca = Vec::new();
    push_u16(&mut loca, 0);
    push_u16(&mut loca, 0);
    push_u16(&mut loca, (rec1.len() / 2) as u16);
    push_u16(&mut loca, ((rec1.len() + rec2.len()) / 2) as u16);
    let mut cmap = Vec::new();
    push_u16(&mut cmap, 0); // version
    push_u16(&mut cmap, 1); // one subtable record
    push_u16(&mut cmap, 0);
    push_u16(&mut cmap, 3);
    push_u32(&mut cmap, 12);
    push_u16(&mut cmap, 4); // format
    push_u16(&mut cmap, 40); // length
    push_u16(&mut cmap, 0); // language
    push_u16(&mut cmap, 6); // seg count times two
    push_u16(&mut cmap, 0);
    push_u16(&mut cmap, 0);
    push_u16(&mut cmap, 0);
    // end codes: ['C', 'a', 0xFFFF]
    push_u16(&mut cmap, 'C' as u16);
    push_u16(&mut cmap, 'a' as u16);
    push_u16(&mut cmap, 0xFFFF);
    push_u16(&mut cmap, 0); // reserved pad
    // start codes: ['A', 'Z', 0xFFFF]
    push_u16(&mut cmap, 'A' as u16);
    push_u16(&mut cmap, 'Z' as u16);
    push_u16(&mut cmap, 0xFFFF);
    // deltas: 'A' -> 1, 'B' -> 2; 'Z' -> 9 (out of range); none for the last
    push_u16(&mut cmap, 1u16.wrapping_sub('A' as u16));
    push_u16(&mut cmap, 9u16.wrapping_sub('Z' as u16));
    push_u16(&mut cmap, 0);
    // id range offsets: all direct
    push_u16(&mut cmap, 0);
    push_u16(&mut cmap, 0);
    push_u16(&mut cmap, 0);
    build_sfnt(&[
        (b"head", build_head(0)),
        (b"loca", loca),
        (b"glyf", glyf),
        (b"cmap", cmap),
    ])
}

#[test]
fn font_resolves_mapped_characters() {
    let data = build_font_bytes();
    let font = Font::from_bytes(&data).expect("font parses");
    assert_eq!(font.glyph_count(), 3);
    let a = font.get_glyph('A');
    assert_eq!(a.contours[0].points, vec![Point { x: 3, y: 4 }]);
    let b = font.get_glyph('B');
    assert_eq!(b.contours[0].points, vec![Point { x: 8, y: 1 }]);
}

#[test]
fn unmapped_character_falls_back_to_glyph_zero() {
    let data = build_font_bytes();
    let font = Font::from_bytes(&data).expect("font parses");
    let g = font.get_glyph('!');
    assert_eq!(g.contours.len(), 0);
}

#[test]
fn out_of_range_index_falls_back_to_glyph_zero() {
    let data = build_font_bytes();
    let font = Font::from_bytes(&data).expect("font parses");
    // 'Z' maps to glyph index 9, past the three decoded glyphs
    let g = font.get_glyph('Z');
    assert_eq!(g.contours.len(), 0);
}

#[test]
fn glyph_at_walks_the_glyph_list() {
    let data = build_font_bytes();
    let font = Font::from_bytes(&data).expect("font parses");
    assert_eq!(font.glyph_at(0).contours.len(), 0);
    assert_eq!(font.glyph_at(1).contours[0].points, vec![Point { x: 3, y: 4 }]);
    assert_eq!(font.glyph_at(2).contours[0].points, vec![Point { x: 8, y: 1 }]);
}

#[test]
fn malformed_top_level_table_fails_the_font() {
    let data = build_font_bytes();
    assert!(Font::from_bytes(&data[..10]).is_none());
}

#[test]
fn malformed_cmap_header_fails_the_font() {
    // cut the buffer inside the cmap subtable record list: the glyphs still
    // decode, but the cmap header is structural, so the font fails
    let data = build_font_bytes();
    let cut = data.len() - 70;
    assert!(Font::from_bytes(&data[..cut]).is_none());
}

#[test]
fn loader_reuses_a_held_font_and_reparses_after_cleanup() {
    let data = build_font_bytes();
    let mut loader = FontLoader::new();

    // first load: a miss, so the caller parses and inserts
    assert!(loader.lookup("fonts/demo.ttf").is_none());
    let font = Font::from_bytes(&data).expect("font parses");
    let first = loader.insert("fonts/demo.ttf", font);

    // second load while the first holder is live: the identical instance
    let second = loader.lookup("fonts/demo.ttf").expect("cache hit");
    assert_eq!(second, first);
    assert!(loader.font(first).is_some());

    // an unrelated path stays a miss
    assert!(loader.lookup("fonts/other.ttf").is_none());

    // both holders release; the entry is dead but only the sweep removes it
    loader.release("fonts/demo.ttf");
    loader.release("fonts/demo.ttf");
    assert!(loader.lookup("fonts/demo.ttf").is_none());
    loader.cleanup_unused_fonts();
    assert!(loader.font(first).is_none());

    // the next load must parse afresh: a new instance under a new id
    assert!(loader.lookup("fonts/demo.ttf").is_none());
    let reparsed = Font::from_bytes(&data).expect("font parses");
    let third = loader.insert("fonts/demo.ttf", reparsed);
    assert_ne!(third, first);
    assert!(loader.font(third).is_some());
}

#[test]
fn cleanup_keeps_held_fonts() {
    let data = build_font_bytes();
    let mut loader = FontLoader::new();
    let font = Font::from_bytes(&data).expect("font parses");
    let id = loader.insert("fonts/kept.ttf", font);
    loader.cleanup_unused_fonts();
    assert!(loader.font(id).is_some());
    let again = loader.lookup("fonts/kept.ttf").expect("still cached");
    assert_eq!(again, id);
}
