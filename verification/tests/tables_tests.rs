use font_outline::tables::{get_head_table, get_tables};

fn push_u16(buf: &mut Vec<u8>, v: u16) {
    buf.extend_from_slice(&v.to_be_bytes());
}

fn push_u32(buf: &mut Vec<u8>, v: u32) {
    buf.extend_from_slice(&v.to_be_bytes());
}

/// An SFNT directory over the given (tag, table bytes) pairs, each table
/// appended after the directory in order.
fn build_sfnt(tables: &[(&[u8; 4], Vec<u8>)]) -> Vec<u8> {
    let mut buf = Vec::new();
    push_u32(&mut buf, 0x0001_0000); // scaler type
    push_u16(&mut buf, tables.len() as u16);
    push_u16(&mut buf, 0); // search range
    push_u16(&mut buf, 0); // entry selector
    push_u16(&mut buf, 0); // range shift
    let mut offset = 12 + 16 * tables.len() as u32;
    for (tag, body) in tables {
        buf.extend_from_slice(&tag[..]);
        push_u32(&mut buf, 0); // checksum, ignored
        push_u32(&mut buf, offset);
        push_u32(&mut buf, body.len() as u32);
        offset += body.len() as u32;
    }
    for (_, body) in tables {
        buf.extend_from_slice(body);
    }
    buf
}

/// A 54-byte head table whose index-to-location format is the given value.
fn build_head(index_to_location_format: i16) -> Vec<u8> {
    let mut head = Vec::new();
    push_u32(&mut head, 0x0001_0000); // version
    push_u32(&mut head, 0x0000_0001); // revision
    push_u32(&mut head, 0xdead_beef); // checksum adjustment
    push_u32(&mut head, 0x5f0f_3cf5); // magic number
    push_u16(&mut head, 0b11); // flags
    push_u16(&mut head, 2048); // units per em
    head.extend_from_slice(&0x0102_0304_0506_0708u64.to_be_bytes()); // created
    head.extend_from_slice(&0x1112_1314_1516_1718u64.to_be_bytes()); // modified
    push_u16(&mut head, 10); // x min
    push_u16(&mut head, 20); // y min
    push_u16(&mut head, 30); // x max
    push_u16(&mut head, 40); // y max
    push_u16(&mut head, 0); // mac style
    push_u16(&mut head, 9); // lowest pixels per em
    push_u16(&mut head, 2); // font direction hint
    push_u16(&mut head, index_to_location_format as u16);
    push_u16(&mut head, 0); // glyph data format
    assert_eq!(head.len(), 54);
    head
}

#[test]
fn directory_lists_every_record() {
    let data = build_sfnt(&[(b"head", build_head(0)), (b"loca", vec![0, 0]), (b"glyf", vec![1, 2, 3])]);
    let tables = get_tables(&data).expect("well-formed directory");
    assert_eq!(tables.len(), 3);
    assert_eq!(tables[0].tag, b"head".to_vec());
    assert_eq!(tables[0].offset, 12 + 48);
    assert_eq!(tables[0].length, 54);
    assert_eq!(tables[1].tag, b"loca".to_vec());
    assert_eq!(tables[1].offset, 12 + 48 + 54);
    assert_eq!(tables[1].length, 2);
    assert_eq!(tables[2].tag, b"glyf".to_vec());
    assert_eq!(tables[2].length, 3);
}

#[test]
fn directory_trims_trailing_spaces_from_tags() {
    let data = build_sfnt(&[(b"cvt ", vec![7])]);
    let tables = get_tables(&data).unwrap();
    assert_eq!(tables[0].tag, b"cvt".to_vec());
}

#[test]
fn truncated_directory_fails() {
    let data = build_sfnt(&[(b"head", build_head(0))]);
    assert!(get_tables(&data[..11]).is_none());
    // the record list is cut short
    assert!(get_tables(&data[..20]).is_none());
    // a zero-table directory needs only the offset subtable
    let empty = build_sfnt(&[]);
    assert_eq!(get_tables(&empty).unwrap().len(), 0);
}

#[test]
fn head_table_fields_parse() {
    let data = build_sfnt(&[(b"head", build_head(1))]);
    let head = get_head_table(&data).expect("head parses");
    assert_eq!(head.version, 0x0001_0000);
    assert_eq!(head.revision, 1);
    assert_eq!(head.checksum_adjustment, 0xdead_beef);
    assert_eq!(head.magic_number, 0x5f0f_3cf5);
    assert_eq!(head.flags, 0b11);
    assert_eq!(head.units_per_em, 2048);
    assert_eq!(head.created, 0x0102_0304_0506_0708);
    assert_eq!(head.modified, 0x1112_1314_1516_1718);
    assert_eq!(head.x_min, 10);
    assert_eq!(head.y_min, 20);
    assert_eq!(head.x_max, 30);
    assert_eq!(head.y_max, 40);
    assert_eq!(head.mac_style, 0);
    assert_eq!(head.lowest_pixels_per_em, 9);
    assert_eq!(head.font_direction_hint, 2);
    assert_eq!(head.index_to_location_format, 1);
    assert_eq!(head.glyph_data_format, 0);
}

#[test]
fn head_table_missing_or_truncated_fails() {
    // no head record at all
    let data = build_sfnt(&[(b"loca", vec![0, 0])]);
    assert!(get_head_table(&data).is_none());
    // head record present but its 54 bytes run past the buffer
    let data = build_sfnt(&[(b"head", build_head(0))]);
    assert!(get_head_table(&data[..data.len() - 1]).is_none());
}
