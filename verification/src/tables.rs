//! The SFNT table directory and the fixed-layout `head` table.
//!
//! An SFNT file starts with an offset subtable (scaler type, table count and
//! three search fields) followed by one 16-byte record per table: a 4-byte
//! tag, a checksum (ignored), a byte offset and a byte length. Lookups are
//! exact matches on the tag with trailing spaces trimmed. A buffer too short
//! for any read makes the whole parse fail: the font is unusable, not
//! partially parsed.

use vstd::prelude::*;

use crate::reader::{be_i16_at, be_u16_at, be_u32_at, be_u64_at, Reader};

verus! {

/// One table directory entry: a byte range within the file, keyed by its tag
/// (trailing spaces trimmed).
pub struct TableDescriptor {
    pub tag: Vec<u8>,
    pub offset: u32,
    pub length: u32,
}

/// The fixed 54-byte `head` table. Only `index_to_location_format` is
/// behaviorally significant downstream (0 = 16-bit word offsets scaled by 2,
/// 1 = 32-bit byte offsets in `loca`); the other fields are passed through
/// for completeness.
pub struct HeadTable {
    pub version: u32,
    pub revision: u32,
    pub checksum_adjustment: u32,
    pub magic_number: u32,
    pub flags: u16,
    pub units_per_em: u16,
    pub created: u64,
    pub modified: u64,
    pub x_min: u16,
    pub y_min: u16,
    pub x_max: u16,
    pub y_max: u16,
    pub mac_style: u16,
    pub lowest_pixels_per_em: u16,
    pub font_direction_hint: i16,
    pub index_to_location_format: i16,
    pub glyph_data_format: i16,
}

/// `s` with every trailing space (0x20) removed.
pub open spec fn trim_trailing_spaces(s: Seq<u8>) -> Seq<u8>
    decreases s.len(),
{
    if s.len() > 0 && s[s.len() - 1] == 32 {
        trim_trailing_spaces(s.drop_last())
    } else {
        s
    }
}

/// The number of table records the offset subtable declares.
pub open spec fn dir_table_count(d: Seq<u8>) -> int {
    be_u16_at(d, 4)
}

/// The directory parses: the buffer holds the 12-byte offset subtable and
/// all declared 16-byte records.
pub open spec fn dir_ok(d: Seq<u8>) -> bool {
    d.len() >= 12 && d.len() >= 12 + 16 * dir_table_count(d)
}

/// The tag of record `i`, trailing spaces trimmed.
pub open spec fn table_tag(d: Seq<u8>, i: int) -> Seq<u8> {
    trim_trailing_spaces(d.subrange(12 + 16 * i, 12 + 16 * i + 4))
}

/// The byte offset of record `i`'s table.
pub open spec fn table_offset(d: Seq<u8>, i: int) -> int {
    be_u32_at(d, 12 + 16 * i + 8)
}

/// The byte length of record `i`'s table.
pub open spec fn table_length(d: Seq<u8>, i: int) -> int {
    be_u32_at(d, 12 + 16 * i + 12)
}

/// The index of the first record at or after `i` whose tag is `tag`.
pub open spec fn find_table_from(d: Seq<u8>, tag: Seq<u8>, i: int) -> Option<int>
    decreases dir_table_count(d) - i,
{
    if i < 0 || i >= dir_table_count(d) {
        None
    } else if table_tag(d, i) == tag {
        Some(i)
    } else {
        find_table_from(d, tag, i + 1)
    }
}

/// The tag of the `head` table.
pub open spec fn head_tag() -> Seq<u8> {
    seq![0x68u8, 0x65u8, 0x61u8, 0x64u8]
}

/// The head table parses: the directory parses, names a `head` table, and
/// the buffer holds that table's whole 54-byte record.
pub open spec fn head_ok(d: Seq<u8>) -> bool {
    &&& dir_ok(d)
    &&& find_table_from(d, head_tag(), 0) is Some
    &&& head_offset(d) + 54 <= d.len()
}

/// The byte offset of the first `head` record's table.
pub open spec fn head_offset(d: Seq<u8>) -> int {
    table_offset(d, find_table_from(d, head_tag(), 0)->Some_0)
}

/// Every field of `h` equals the big-endian field of the 54-byte record at
/// byte offset `off`.
pub open spec fn head_fields_ok(h: HeadTable, d: Seq<u8>, off: int) -> bool {
    &&& h.version == be_u32_at(d, off)
    &&& h.revision == be_u32_at(d, off + 4)
    &&& h.checksum_adjustment == be_u32_at(d, off + 8)
    &&& h.magic_number == be_u32_at(d, off + 12)
    &&& h.flags == be_u16_at(d, off + 16)
    &&& h.units_per_em == be_u16_at(d, off + 18)
    &&& h.created == be_u64_at(d, off + 20)
    &&& h.modified == be_u64_at(d, off + 28)
    &&& h.x_min == be_u16_at(d, off + 36)
    &&& h.y_min == be_u16_at(d, off + 38)
    &&& h.x_max == be_u16_at(d, off + 40)
    &&& h.y_max == be_u16_at(d, off + 42)
    &&& h.mac_style == be_u16_at(d, off + 44)
    &&& h.lowest_pixels_per_em == be_u16_at(d, off + 46)
    &&& h.font_direction_hint == be_i16_at(d, off + 48)
    &&& h.index_to_location_format == be_i16_at(d, off + 50)
    &&& h.glyph_data_format == be_i16_at(d, off + 52)
}

/// The descriptors `ts` are exactly the records of `d`'s table directory.
pub open spec fn tables_match(ts: Seq<TableDescriptor>, d: Seq<u8>) -> bool {
    &&& ts.len() == dir_table_count(d)
    &&& forall|i: int|
        0 <= i < ts.len() ==> {
            &&& (#[trigger] ts[i]).tag@ == table_tag(d, i)
            &&& ts[i].offset == table_offset(d, i)
            &&& ts[i].length == table_length(d, i)
        }
}

/// Remove every trailing space from `tag`.
fn trim_tag(tag: &mut Vec<u8>)
    ensures
        final(tag)@ == trim_trailing_spaces(old(tag)@),
{
    while tag.len() > 0 && tag[tag.len() - 1] == 32
        invariant
            trim_trailing_spaces(tag@) == trim_trailing_spaces(old(tag)@),
        decreases tag.len(),
    {
        tag.pop();
    }
}

/// Byte-for-byte equality of two tags.
fn tag_eq(a: &Vec<u8>, b: &Vec<u8>) -> (r: bool)
    ensures
        r == (a@ == b@),
{
    if a.len() != b.len() {
        return false;
    }
    let n = a.len();
    for i in 0..n
        invariant
            n == a.len() == b.len(),
            forall|j: int| 0 <= j < i ==> a@[j] == b@[j],
    {
        if a[i] != b[i] {
            return false;
        }
    }
    proof {
        assert(a@ =~= b@);
    }
    true
}

/// Parse the table directory: the offset subtable, then exactly `table
/// count` records of (tag, checksum, offset, length). Fails, with no partial
/// result, if the buffer is shorter than any read requires.
pub fn get_tables(data: &[u8]) -> (r: Option<Vec<TableDescriptor>>)
    ensures
        match r {
            Some(ts) => dir_ok(data@) && tables_match(ts@, data@),
            None => !dir_ok(data@),
        },
{
    let mut rd = Reader::new(data, 0);

    let _scaler_type = match rd.read_u32() {
        Some(v) => v,
        None => {
            return None;
        },
    };
    let num_tables = match rd.read_u16() {
        Some(v) => v,
        None => {
            return None;
        },
    };
    let _search_range = match rd.read_u16() {
        Some(v) => v,
        None => {
            return None;
        },
    };
    let _entry_selector = match rd.read_u16() {
        Some(v) => v,
        None => {
            return None;
        },
    };
    let _range_shift = match rd.read_u16() {
        Some(v) => v,
        None => {
            return None;
        },
    };

    let mut tables: Vec<TableDescriptor> = Vec::new();
    for k in 0..num_tables
        invariant
            rd.data@ == data@,
            rd.pos == 12 + 16 * (k as int),
            rd.pos <= data@.len(),
            num_tables == dir_table_count(data@),
            tables@.len() == k as int,
            forall|i: int|
                0 <= i < k as int ==> {
                    &&& (#[trigger] tables@[i]).tag@ == table_tag(data@, i)
                    &&& tables@[i].offset == table_offset(data@, i)
                    &&& tables@[i].length == table_length(data@, i)
                },
    {
        let mut tag: Vec<u8> = Vec::new();
        let ghost tag_start = rd.pos as int;
        for b in 0..4usize
            invariant
                rd.data@ == data@,
                rd.pos == tag_start + b,
                tag_start == 12 + 16 * (k as int),
                (k as int) < dir_table_count(data@),
                tag_start + 4 <= usize::MAX,
                tag@.len() == b,
                forall|j: int| 0 <= j < b ==> tag@[j] == data@[tag_start + j],
        {
            match rd.read_u8() {
                Some(v) => tag.push(v),
                None => {
                    return None;
                },
            }
        }
        let _checksum = match rd.read_u32() {
            Some(v) => v,
            None => {
                return None;
            },
        };
        let offset = match rd.read_u32() {
            Some(v) => v,
            None => {
                return None;
            },
        };
        let length = match rd.read_u32() {
            Some(v) => v,
            None => {
                return None;
            },
        };
        proof {
            assert(tag@ =~= data@.subrange(12 + 16 * (k as int), 12 + 16 * (k as int) + 4));
        }
        trim_tag(&mut tag);
        tables.push(TableDescriptor { tag, offset, length });
    }
    Some(tables)
}

/// Find the first descriptor whose tag equals `tag`.
pub(crate) fn find_descriptor<'a>(tables: &'a Vec<TableDescriptor>, tag: &Vec<u8>, Ghost(d): Ghost<
    Seq<u8>,
>) -> (r: Option<&'a TableDescriptor>)
    requires
        dir_ok(d),
        tables_match(tables@, d),
    ensures
        match r {
            Some(t) => {
                &&& find_table_from(d, tag@, 0) is Some
                &&& t.tag@ == tag@
                &&& t.offset == table_offset(d, find_table_from(d, tag@, 0)->Some_0)
                &&& t.length == table_length(d, find_table_from(d, tag@, 0)->Some_0)
            },
            None => find_table_from(d, tag@, 0) is None,
        },
{
    let n = tables.len();
    for i in 0..n
        invariant
            n == tables@.len(),
            dir_ok(d),
            tables_match(tables@, d),
            find_table_from(d, tag@, 0) == find_table_from(d, tag@, i as int),
    {
        if tag_eq(&tables[i].tag, tag) {
            return Some(&tables[i]);
        }
    }
    None
}

/// Parse the 54-byte `head` table found through the table directory.
pub fn get_head_table(data: &[u8]) -> (r: Option<HeadTable>)
    ensures
        match r {
            Some(h) => head_ok(data@) && head_fields_ok(h, data@, head_offset(data@)),
            None => !head_ok(data@),
        },
{
    let tables = match get_tables(data) {
        Some(ts) => ts,
        None => {
            return None;
        },
    };
    let head_name: Vec<u8> = vec![0x68u8, 0x65u8, 0x61u8, 0x64u8];
    proof {
        assert(head_name@ =~= head_tag());
    }
    let desc = match find_descriptor(&tables, &head_name, Ghost(data@)) {
        Some(t) => t,
        None => {
            return None;
        },
    };

    let mut rd = Reader::new(data, desc.offset as usize);
    let version = match rd.read_u32() {
        Some(v) => v,
        None => {
            return None;
        },
    };
    let revision = match rd.read_u32() {
        Some(v) => v,
        None => {
            return None;
        },
    };
    let checksum_adjustment = match rd.read_u32() {
        Some(v) => v,
        None => {
            return None;
        },
    };
    let magic_number = match rd.read_u32() {
        Some(v) => v,
        None => {
            return None;
        },
    };
    let flags = match rd.read_u16() {
        Some(v) => v,
        None => {
            return None;
        },
    };
    let units_per_em = match rd.read_u16() {
        Some(v) => v,
        None => {
            return None;
        },
    };
    let created = match rd.read_u64() {
        Some(v) => v,
        None => {
            return None;
        },
    };
    let modified = match rd.read_u64() {
        Some(v) => v,
        None => {
            return None;
        },
    };
    let x_min = match rd.read_u16() {
        Some(v) => v,
        None => {
            return None;
        },
    };
    let y_min = match rd.read_u16() {
        Some(v) => v,
        None => {
            return None;
        },
    };
    let x_max = match rd.read_u16() {
        Some(v) => v,
        None => {
            return None;
        },
    };
    let y_max = match rd.read_u16() {
        Some(v) => v,
        None => {
            return None;
        },
    };
    let mac_style = match rd.read_u16() {
        Some(v) => v,
        None => {
            return None;
        },
    };
    let lowest_pixels_per_em = match rd.read_u16() {
        Some(v) => v,
        None => {
            return None;
        },
    };
    let font_direction_hint = match rd.read_i16() {
        Some(v) => v,
        None => {
            return None;
        },
    };
    let index_to_location_format = match rd.read_i16() {
        Some(v) => v,
        None => {
            return None;
        },
    };
    let glyph_data_format = match rd.read_i16() {
        Some(v) => v,
        None => {
            return None;
        },
    };

    Some(
        HeadTable {
            version,
            revision,
            checksum_adjustment,
            magic_number,
            flags,
            units_per_em,
            created,
            modified,
            x_min,
            y_min,
            x_max,
            y_max,
            mac_style,
            lowest_pixels_per_em,
            font_direction_hint,
            index_to_location_format,
            glyph_data_format,
        },
    )
}

} // verus!
