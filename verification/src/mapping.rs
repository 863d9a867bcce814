//! The format-4 `cmap` decoder: the character-to-glyph-index map.
//!
//! The `cmap` table header declares subtables per (platform, encoding) pair;
//! the scan takes the first declared subtable whose pair is (0,0), (0,1) or
//! (0,3), in file order, not the best one. Only format 4 is implemented: it
//! maps sorted, contiguous code segments through four parallel arrays (end
//! codes, start codes, id deltas, id range offsets). A missing match, an
//! unimplemented format or a failed read inside the subtable yields an empty
//! map, so every lookup falls back to glyph 0; only a malformed `cmap`
//! header fails the load.

use std::collections::HashMap;

use vstd::prelude::*;

use crate::reader::{be_u16_at, be_u32_at, Reader};
use crate::tables;

verus! {

broadcast use vstd::std_specs::hash::group_hash_axioms;

/// The glyph index a map resolves `code` to: absent codes fall back to
/// glyph 0, the ".notdef" glyph.
pub open spec fn spec_glyph_index(m: Map<u32, u16>, code: u32) -> u16 {
    if m.contains_key(code) {
        m[code]
    } else {
        0
    }
}

/// A mapping from character code to glyph index; codes it does not hold
/// resolve to glyph index 0.
pub struct CharacterMap {
    map: HashMap<u32, u16>,
}

impl View for CharacterMap {
    type V = Map<u32, u16>;

    closed spec fn view(&self) -> Map<u32, u16> {
        self.map@
    }
}

impl CharacterMap {
    /// The empty map: every code resolves to glyph 0.
    pub fn new() -> (r: Self)
        ensures
            r@ == Map::<u32, u16>::empty(),
    {
        CharacterMap { map: HashMap::new() }
    }

    /// Map `code` to `glyph`, replacing any earlier entry.
    pub fn insert(&mut self, code: u32, glyph: u16)
        ensures
            final(self)@ == old(self)@.insert(code, glyph),
    {
        self.map.insert(code, glyph);
    }

    /// The glyph index for `code`, or 0 if the map does not hold it.
    pub fn glyph_index(&self, code: u32) -> (r: u16)
        ensures
            r == spec_glyph_index(self@, code),
    {
        match self.map.get(&code) {
            Some(v) => *v,
            None => 0,
        }
    }

    /// Whether the map holds an entry for `code`.
    pub fn contains(&self, code: u32) -> (r: bool)
        ensures
            r == self@.contains_key(code),
    {
        self.map.contains_key(&code)
    }

    /// The number of codes the map holds.
    pub fn len(&self) -> (r: usize)
        ensures
            r == self@.dom().len(),
    {
        self.map.len()
    }
}

/// The tag of the `cmap` table.
pub open spec fn cmap_tag() -> Seq<u8> {
    seq![0x63u8, 0x6du8, 0x61u8, 0x70u8]
}

/// The directory parses and names a `cmap` table.
pub open spec fn cmap_ok(d: Seq<u8>) -> bool {
    &&& tables::dir_ok(d)
    &&& tables::find_table_from(d, cmap_tag(), 0) is Some
}

/// The byte offset of the first `cmap` table.
pub open spec fn cmap_offset(d: Seq<u8>) -> int {
    tables::table_offset(d, tables::find_table_from(d, cmap_tag(), 0)->Some_0)
}

/// A code point a `char` can hold: everything a 16-bit code can store except
/// the surrogate range. Codes outside it are skipped, not mapped.
pub open spec fn valid_code(code: int) -> bool {
    !(0xD800 <= code < 0xE000)
}

/// The scan of the declared subtable records from `pos`: the first record
/// whose (platform, encoding) pair is (0,0), (0,1) or (0,3) wins, in file
/// order. `None` is a read past the end of the buffer (the whole load
/// fails); `Some(None)` means no record matched (the map stays empty).
pub open spec fn spec_scan_subtables(d: Seq<u8>, pos: int, remaining: int) -> Option<Option<int>>
    decreases remaining,
{
    if remaining <= 0 {
        Some(None)
    } else if !(0 <= pos && pos + 8 <= d.len()) {
        None
    } else {
        let platform = be_u16_at(d, pos);
        let specific = be_u16_at(d, pos + 2);
        let off = be_u32_at(d, pos + 4);
        if platform == 0 && (specific == 0 || specific == 1 || specific == 3) {
            Some(Some(off))
        } else {
            spec_scan_subtables(d, pos + 8, remaining - 1)
        }
    }
}

/// Insert one resolved code, skipping codes a `char` cannot hold.
pub open spec fn spec_insert_code(m: Map<u32, u16>, code: int, glyph: int) -> Map<u32, u16> {
    if valid_code(code) {
        m.insert(code as u32, glyph as u16)
    } else {
        m
    }
}

/// Fill codes [code, endc) of a direct segment (id range offset zero): each
/// code maps to (code + delta) mod 0x10000.
pub open spec fn spec_fill_direct(m: Map<u32, u16>, code: int, endc: int, delta: int) -> Map<
    u32,
    u16,
>
    decreases endc - code,
{
    if code >= endc {
        m
    } else {
        spec_fill_direct(
            spec_insert_code(m, code, (code + delta) % 0x10000),
            code + 1,
            endc,
            delta,
        )
    }
}

/// The glyph index an indirect segment gives `code`: a 16-bit read at the
/// segment's id-range-offset slot plus the declared offset plus twice the
/// code's distance from the segment start; a nonzero value gets the delta
/// added mod 0x10000.
pub open spec fn spec_indirect_value(d: Seq<u8>, rbase: int, start: int, code: int, delta: int) -> int {
    let raw = be_u16_at(d, rbase + 2 * (code - start));
    if raw != 0 {
        (raw + delta) % 0x10000
    } else {
        0
    }
}

/// Fill codes [code, endc) of an indirect segment. A read past the end of
/// the buffer fails the whole subtable.
pub open spec fn spec_fill_indirect(
    d: Seq<u8>,
    m: Map<u32, u16>,
    start: int,
    code: int,
    endc: int,
    delta: int,
    rbase: int,
) -> Option<Map<u32, u16>>
    decreases endc - code,
{
    if code >= endc {
        Some(m)
    } else if !valid_code(code) {
        spec_fill_indirect(d, m, start, code + 1, endc, delta, rbase)
    } else {
        let rpos = rbase + 2 * (code - start);
        if !(0 <= rpos && rpos + 2 <= d.len()) {
            None
        } else {
            spec_fill_indirect(
                d,
                spec_insert_code(m, code, spec_indirect_value(d, rbase, start, code, delta)),
                start,
                code + 1,
                endc,
                delta,
                rbase,
            )
        }
    }
}

/// The end code of segment `i` of the format-4 subtable at `p0`.
pub open spec fn seg_end(d: Seq<u8>, p0: int, segc: int, i: int) -> int {
    be_u16_at(d, p0 + 14 + 2 * i)
}

/// The start code of segment `i`.
pub open spec fn seg_start(d: Seq<u8>, p0: int, segc: int, i: int) -> int {
    be_u16_at(d, p0 + 16 + 2 * segc + 2 * i)
}

/// The id delta of segment `i`.
pub open spec fn seg_delta(d: Seq<u8>, p0: int, segc: int, i: int) -> int {
    be_u16_at(d, p0 + 16 + 4 * segc + 2 * i)
}

/// The id range offset of segment `i`.
pub open spec fn seg_range_offset(d: Seq<u8>, p0: int, segc: int, i: int) -> int {
    be_u16_at(d, p0 + 16 + 6 * segc + 2 * i)
}

/// The byte position of segment `i`'s id-range-offset slot.
pub open spec fn seg_range_slot(p0: int, segc: int, i: int) -> int {
    p0 + 16 + 6 * segc + 2 * i
}

/// Fill the map from the segments `i` on, in declared order: codes in
/// [startCode, endCode) map per the direct rule when the id range offset is
/// zero, else per the indirect rule.
pub open spec fn spec_fill_segments(
    d: Seq<u8>,
    m: Map<u32, u16>,
    p0: int,
    segc: int,
    i: int,
) -> Option<Map<u32, u16>>
    decreases segc - i,
{
    if i >= segc {
        Some(m)
    } else {
        let sc = seg_start(d, p0, segc, i);
        let ec = seg_end(d, p0, segc, i);
        let delta = seg_delta(d, p0, segc, i);
        let ro = seg_range_offset(d, p0, segc, i);
        let filled = if ro == 0 {
            Some(spec_fill_direct(m, sc, ec, delta))
        } else {
            spec_fill_indirect(d, m, sc, sc, ec, delta, seg_range_slot(p0, segc, i) + ro)
        };
        match filled {
            Some(mm) => spec_fill_segments(d, mm, p0, segc, i + 1),
            None => None,
        }
    }
}

/// The number of segments of the format-4 subtable at `p0` (the field
/// stores twice the true count).
pub open spec fn seg_count(d: Seq<u8>, p0: int) -> int {
    be_u16_at(d, p0 + 6) / 2
}

/// The whole character map of the font. `None` when the directory or the
/// `cmap` header is malformed; an empty map when no subtable matches, the
/// format is not 4, or a read inside the subtable fails.
pub open spec fn spec_load_cmap(d: Seq<u8>) -> Option<Map<u32, u16>> {
    if !cmap_ok(d) {
        None
    } else {
        let base = cmap_offset(d);
        if !(base + 4 <= d.len()) {
            None
        } else {
            let nsub = be_u16_at(d, base + 2);
            match spec_scan_subtables(d, base + 4, nsub) {
                None => None,
                Some(None) => Some(Map::empty()),
                Some(Some(off)) => {
                    let p0 = base + off;
                    if !(p0 + 2 <= d.len()) {
                        Some(Map::empty())
                    } else if be_u16_at(d, p0) != 4 {
                        Some(Map::empty())
                    } else if !(p0 + 14 <= d.len()) {
                        Some(Map::empty())
                    } else {
                        let segc = seg_count(d, p0);
                        if !(p0 + 16 + 8 * segc <= d.len()) {
                            Some(Map::empty())
                        } else {
                            match spec_fill_segments(d, Map::empty(), p0, segc, 0) {
                                Some(m) => Some(m),
                                None => Some(Map::empty()),
                            }
                        }
                    }
                },
            }
        }
    }
}

/// What filling a direct segment does to each code: codes of the segment's
/// range map to (code + delta) mod 0x10000, all others keep their binding.
pub proof fn lemma_fill_direct_at(m: Map<u32, u16>, code: int, endc: int, delta: int, c: int)
    requires
        0 <= c < 0x10000,
        0 <= code,
        endc <= 0x10000,
    ensures
        ({
            let r = spec_fill_direct(m, code, endc, delta);
            &&& (code <= c < endc && valid_code(c)) ==> (r.contains_key(c as u32) && r[c as u32]
                == ((c + delta) % 0x10000) as u16)
            &&& !(code <= c < endc && valid_code(c)) ==> (r.contains_key(c as u32)
                == m.contains_key(c as u32) && (m.contains_key(c as u32) ==> r[c as u32] == m[c
                as u32]))
        }),
    decreases endc - code,
{
    if code < endc {
        lemma_fill_direct_at(
            spec_insert_code(m, code, (code + delta) % 0x10000),
            code + 1,
            endc,
            delta,
            c,
        );
        assert(code as u32 as int == code);
        assert(c as u32 as int == c);
    }
}

/// What filling an indirect segment does to each code: codes of the
/// segment's range map to the value read through the id range offset, all
/// others keep their binding.
pub proof fn lemma_fill_indirect_at(
    d: Seq<u8>,
    m: Map<u32, u16>,
    start: int,
    code: int,
    endc: int,
    delta: int,
    rbase: int,
    c: int,
)
    requires
        spec_fill_indirect(d, m, start, code, endc, delta, rbase) is Some,
        0 <= c < 0x10000,
        0 <= code,
        endc <= 0x10000,
    ensures
        ({
            let r = spec_fill_indirect(d, m, start, code, endc, delta, rbase)->Some_0;
            &&& (code <= c < endc && valid_code(c)) ==> (r.contains_key(c as u32) && r[c as u32]
                == spec_indirect_value(d, rbase, start, c, delta) as u16)
            &&& !(code <= c < endc && valid_code(c)) ==> (r.contains_key(c as u32)
                == m.contains_key(c as u32) && (m.contains_key(c as u32) ==> r[c as u32] == m[c
                as u32]))
        }),
    decreases endc - code,
{
    if code < endc {
        if !valid_code(code) {
            lemma_fill_indirect_at(d, m, start, code + 1, endc, delta, rbase, c);
        } else {
            let rpos = rbase + 2 * (code - start);
            lemma_fill_indirect_at(
                d,
                spec_insert_code(m, code, spec_indirect_value(d, rbase, start, code, delta)),
                start,
                code + 1,
                endc,
                delta,
                rbase,
                c,
            );
            assert(code as u32 as int == code);
            assert(c as u32 as int == c);
        }
    }
}

/// The last segment at or after `i` whose [startCode, endCode) range
/// contains `c`: with later segments overriding earlier ones, it is the one
/// whose rule decides `c`.
pub open spec fn seg_containing_from(d: Seq<u8>, p0: int, segc: int, i: int, c: int) -> Option<
    int,
>
    decreases segc - i,
{
    if i < 0 || i >= segc {
        None
    } else {
        match seg_containing_from(d, p0, segc, i + 1, c) {
            Some(j) => Some(j),
            None => {
                if seg_start(d, p0, segc, i) <= c < seg_end(d, p0, segc, i) {
                    Some(i)
                } else {
                    None
                }
            },
        }
    }
}

/// The glyph index segment `j`'s rule gives code `c`: the direct rule when
/// its id range offset is zero, the indirect rule otherwise.
pub open spec fn seg_rule_value(d: Seq<u8>, p0: int, segc: int, j: int, c: int) -> int {
    if seg_range_offset(d, p0, segc, j) == 0 {
        (c + seg_delta(d, p0, segc, j)) % 0x10000
    } else {
        spec_indirect_value(
            d,
            seg_range_slot(p0, segc, j) + seg_range_offset(d, p0, segc, j),
            seg_start(d, p0, segc, j),
            c,
            seg_delta(d, p0, segc, j),
        )
    }
}

/// What the whole segment fill gives each code, from segment `i` on: the
/// rule of the last containing segment, or the code's old binding when no
/// segment contains it.
pub proof fn lemma_fill_segments_at(
    d: Seq<u8>,
    m: Map<u32, u16>,
    p0: int,
    segc: int,
    i: int,
    c: int,
)
    requires
        spec_fill_segments(d, m, p0, segc, i) is Some,
        0 <= c < 0x10000,
        valid_code(c),
        0 <= i,
    ensures
        ({
            let r = spec_fill_segments(d, m, p0, segc, i)->Some_0;
            match seg_containing_from(d, p0, segc, i, c) {
                Some(j) => r.contains_key(c as u32) && r[c as u32] == seg_rule_value(
                    d,
                    p0,
                    segc,
                    j,
                    c,
                ) as u16,
                None => r.contains_key(c as u32) == m.contains_key(c as u32) && (m.contains_key(
                    c as u32,
                ) ==> r[c as u32] == m[c as u32]),
            }
        }),
    decreases segc - i,
{
    if i < segc {
        let sc = seg_start(d, p0, segc, i);
        let ec = seg_end(d, p0, segc, i);
        let delta = seg_delta(d, p0, segc, i);
        let ro = seg_range_offset(d, p0, segc, i);
        let filled = if ro == 0 {
            Some(spec_fill_direct(m, sc, ec, delta))
        } else {
            spec_fill_indirect(d, m, sc, sc, ec, delta, seg_range_slot(p0, segc, i) + ro)
        };
        let mm = filled->Some_0;
        lemma_fill_segments_at(d, mm, p0, segc, i + 1, c);
        if ro == 0 {
            lemma_fill_direct_at(m, sc, ec, delta, c);
        } else {
            lemma_fill_indirect_at(d, m, sc, sc, ec, delta, seg_range_slot(p0, segc, i) + ro, c);
        }
    }
}

/// Format-4 cmap resolution: every code a `char` can hold that lies in some
/// segment's [startCode, endCode) range resolves per the direct/indirect
/// rule of the last segment containing it (the segments of a well-formed
/// subtable do not overlap, so that is the one containing segment), and
/// every such code outside all segments resolves to glyph index 0.
pub proof fn lemma_format4_resolution(d: Seq<u8>, p0: int, segc: int, c: int)
    requires
        spec_fill_segments(d, Map::<u32, u16>::empty(), p0, segc, 0) is Some,
        0 <= c < 0x10000,
        valid_code(c),
    ensures
        ({
            let m = spec_fill_segments(d, Map::<u32, u16>::empty(), p0, segc, 0)->Some_0;
            match seg_containing_from(d, p0, segc, 0, c) {
                Some(j) => spec_glyph_index(m, c as u32) == seg_rule_value(
                    d,
                    p0,
                    segc,
                    j,
                    c,
                ) as u16,
                None => spec_glyph_index(m, c as u32) == 0,
            }
        }),
{
    lemma_fill_segments_at(d, Map::<u32, u16>::empty(), p0, segc, 0, c);
}

/// The byte position of the format-4 subtable the scan settles on.
pub open spec fn cmap_subtable_pos(d: Seq<u8>) -> int {
    cmap_offset(d) + spec_scan_subtables(
        d,
        cmap_offset(d) + 4,
        be_u16_at(d, cmap_offset(d) + 2),
    )->Some_0->Some_0
}

/// The character map was decoded through the format-4 path: the scan found
/// a supported subtable, its format is 4, the buffer holds its header and
/// its four arrays, and every segment filled without running out of bounds.
pub open spec fn cmap_format4_decoded(d: Seq<u8>) -> bool {
    &&& cmap_ok(d)
    &&& cmap_offset(d) + 4 <= d.len()
    &&& spec_scan_subtables(d, cmap_offset(d) + 4, be_u16_at(d, cmap_offset(d) + 2)) matches Some(
        Some(_),
    )
    &&& cmap_subtable_pos(d) + 14 <= d.len()
    &&& be_u16_at(d, cmap_subtable_pos(d)) == 4
    &&& cmap_subtable_pos(d) + 16 + 8 * seg_count(d, cmap_subtable_pos(d)) <= d.len()
    &&& spec_fill_segments(
        d,
        Map::<u32, u16>::empty(),
        cmap_subtable_pos(d),
        seg_count(d, cmap_subtable_pos(d)),
        0,
    ) is Some
}

/// Format-4 cmap resolution for the whole load: every code a `char` can
/// hold that lies in a segment's [startCode, endCode) range resolves per
/// the direct/indirect rule of the last segment containing it, and every
/// code outside all segments resolves to glyph index 0.
pub proof fn lemma_cmap_resolution(d: Seq<u8>, c: int)
    requires
        cmap_format4_decoded(d),
        0 <= c < 0x10000,
        valid_code(c),
    ensures
        spec_load_cmap(d) is Some,
        ({
            let m = spec_load_cmap(d)->Some_0;
            let p0 = cmap_subtable_pos(d);
            let segc = seg_count(d, p0);
            match seg_containing_from(d, p0, segc, 0, c) {
                Some(j) => spec_glyph_index(m, c as u32) == seg_rule_value(
                    d,
                    p0,
                    segc,
                    j,
                    c,
                ) as u16,
                None => spec_glyph_index(m, c as u32) == 0,
            }
        }),
{
    lemma_format4_resolution(d, cmap_subtable_pos(d), seg_count(d, cmap_subtable_pos(d)), c);
}

/// Scan the declared subtable records for the first supported
/// (platform, encoding) pair, in file order.
fn scan_subtables(rd: &mut Reader, nsub: u16) -> (r: Option<Option<u32>>)
    ensures
        final(rd).data@ == old(rd).data@,
        match r {
            Some(Some(off)) => spec_scan_subtables(old(rd).data@, old(rd).pos as int, nsub as int)
                == Some(Some(off as int)),
            Some(None) => spec_scan_subtables(old(rd).data@, old(rd).pos as int, nsub as int)
                == Some(None::<int>),
            None => spec_scan_subtables(old(rd).data@, old(rd).pos as int, nsub as int) is None,
        },
{
    let ghost d = rd.data@;
    let ghost start = rd.pos as int;
    for k in 0..nsub
        invariant
            rd.data@ == d,
            d == old(rd).data@,
            start == old(rd).pos as int,
            rd.pos == start + 8 * (k as int),
            spec_scan_subtables(d, start, nsub as int) == spec_scan_subtables(
                d,
                rd.pos as int,
                nsub as int - k as int,
            ),
    {
        let platform = match rd.read_u16() {
            Some(v) => v,
            None => {
                return None;
            },
        };
        let specific = match rd.read_u16() {
            Some(v) => v,
            None => {
                return None;
            },
        };
        let off = match rd.read_u32() {
            Some(v) => v,
            None => {
                return None;
            },
        };
        if platform == 0 && (specific == 0 || specific == 1 || specific == 3) {
            return Some(Some(off));
        }
    }
    Some(None)
}

/// Fill a direct segment: codes [sc, ec) map to (code + delta) mod 0x10000.
fn fill_direct(map: &mut CharacterMap, sc: u16, ec: u16, delta: u16)
    ensures
        final(map)@ == spec_fill_direct(old(map)@, sc as int, ec as int, delta as int),
{
    let mut code: u32 = sc as u32;
    while code < ec as u32
        invariant
            sc as u32 <= code <= 0xffff || code == sc as u32,
            spec_fill_direct(map@, code as int, ec as int, delta as int) == spec_fill_direct(
                old(map)@,
                sc as int,
                ec as int,
                delta as int,
            ),
        decreases ec as int - code as int,
    {
        if code < 0xD800 || code >= 0xE000 {
            let gi: u16 = ((code + delta as u32) % 0x10000) as u16;
            map.insert(code, gi);
        }
        code = code + 1;
    }
}

/// Fill an indirect segment, reading each code's glyph index at the
/// position its id range offset gives. Returns false when a read runs past
/// the end of the buffer: the whole map is then discarded.
fn fill_indirect(map: &mut CharacterMap, data: &[u8], sc: u16, ec: u16, delta: u16, rbase: u64) -> (ok:
    bool)
    requires
        rbase < 0x10_0000_0000,
    ensures
        ok ==> Some(final(map)@) == spec_fill_indirect(
            data@,
            old(map)@,
            sc as int,
            sc as int,
            ec as int,
            delta as int,
            rbase as int,
        ),
        !ok ==> spec_fill_indirect(
            data@,
            old(map)@,
            sc as int,
            sc as int,
            ec as int,
            delta as int,
            rbase as int,
        ) is None,
{
    let mut code: u32 = sc as u32;
    while code < ec as u32
        invariant
            rbase < 0x10_0000_0000,
            sc as u32 <= code <= 0xffff || code == sc as u32,
            spec_fill_indirect(
                data@,
                map@,
                sc as int,
                code as int,
                ec as int,
                delta as int,
                rbase as int,
            ) == spec_fill_indirect(
                data@,
                old(map)@,
                sc as int,
                sc as int,
                ec as int,
                delta as int,
                rbase as int,
            ),
        decreases ec as int - code as int,
    {
        if code < 0xD800 || code >= 0xE000 {
            let rpos: u64 = rbase + 2 * (code as u64 - sc as u64);
            if rpos + 2 > data.len() as u64 {
                return false;
            }
            let mut rd = Reader::new(data, rpos as usize);
            let raw = match rd.read_u16() {
                Some(v) => v,
                None => {
                    return false;
                },
            };
            let gi: u16 = if raw != 0 {
                ((raw as u32 + delta as u32) % 0x10000) as u16
            } else {
                0
            };
            map.insert(code, gi);
        }
        code = code + 1;
    }
    true
}

/// Decode the character map of the font: find the `cmap` table, take the
/// first supported subtable in declaration order, and decode it if it is
/// format 4. A missing match, another format or a failed read inside the
/// subtable gives the empty map; a malformed `cmap` header fails the load.
#[verifier::loop_isolation(false)]
#[verifier::rlimit(100)]
pub fn load_cmap(data: &[u8]) -> (r: Option<CharacterMap>)
    ensures
        match r {
            Some(cm) => spec_load_cmap(data@) == Some(cm@),
            None => spec_load_cmap(data@) is None,
        },
{
    let ghost d = data@;
    let tables_v = match tables::get_tables(data) {
        Some(v) => v,
        None => {
            return None;
        },
    };
    let cmap_name: Vec<u8> = vec![0x63u8, 0x6du8, 0x61u8, 0x70u8];
    proof {
        assert(cmap_name@ =~= cmap_tag());
    }
    let desc = match tables::find_descriptor(&tables_v, &cmap_name, Ghost(d)) {
        Some(t) => t,
        None => {
            return None;
        },
    };
    let base = desc.offset;

    let mut rd = Reader::new(data, base as usize);
    let _version = match rd.read_u16() {
        Some(v) => v,
        None => {
            return None;
        },
    };
    let nsub = match rd.read_u16() {
        Some(v) => v,
        None => {
            return None;
        },
    };

    let off: u32 = match scan_subtables(&mut rd, nsub) {
        Some(Some(v)) => v,
        Some(None) => {
            return Some(CharacterMap::new());
        },
        None => {
            return None;
        },
    };

    let p0: u64 = base as u64 + off as u64;
    if p0 + 2 > data.len() as u64 {
        return Some(CharacterMap::new());
    }
    let mut rd = Reader::new(data, p0 as usize);
    let format = match rd.read_u16() {
        Some(v) => v,
        None => {
            return Some(CharacterMap::new());
        },
    };
    if format != 4 {
        return Some(CharacterMap::new());
    }

    let _length = match rd.read_u16() {
        Some(v) => v,
        None => {
            return Some(CharacterMap::new());
        },
    };
    let _language = match rd.read_u16() {
        Some(v) => v,
        None => {
            return Some(CharacterMap::new());
        },
    };
    let seg_count_x2 = match rd.read_u16() {
        Some(v) => v,
        None => {
            return Some(CharacterMap::new());
        },
    };
    let _search_range = match rd.read_u16() {
        Some(v) => v,
        None => {
            return Some(CharacterMap::new());
        },
    };
    let _entry_selector = match rd.read_u16() {
        Some(v) => v,
        None => {
            return Some(CharacterMap::new());
        },
    };
    let _range_shift = match rd.read_u16() {
        Some(v) => v,
        None => {
            return Some(CharacterMap::new());
        },
    };
    let segc = (seg_count_x2 / 2) as usize;
    proof {
        assert(segc as int == seg_count(d, p0 as int));
    }

    let mut end_codes: Vec<u16> = Vec::new();
    for i in 0..segc
        invariant
            rd.data@ == d,
            rd.pos == p0 + 14 + 2 * (i as int),
            rd.pos <= d.len(),
            end_codes@.len() == i,
            forall|j: int|
                0 <= j < i ==> #[trigger] end_codes@[j] == seg_end(d, p0 as int, segc as int, j),
    {
        match rd.read_u16() {
            Some(v) => end_codes.push(v),
            None => {
                return Some(CharacterMap::new());
            },
        }
    }
    let _reserved = match rd.read_u16() {
        Some(v) => v,
        None => {
            return Some(CharacterMap::new());
        },
    };
    let mut start_codes: Vec<u16> = Vec::new();
    for i in 0..segc
        invariant
            rd.data@ == d,
            rd.pos == p0 + 16 + 2 * (segc as int) + 2 * (i as int),
            rd.pos <= d.len(),
            start_codes@.len() == i,
            forall|j: int|
                0 <= j < i ==> #[trigger] start_codes@[j] == seg_start(
                    d,
                    p0 as int,
                    segc as int,
                    j,
                ),
    {
        match rd.read_u16() {
            Some(v) => start_codes.push(v),
            None => {
                return Some(CharacterMap::new());
            },
        }
    }
    let mut deltas: Vec<u16> = Vec::new();
    for i in 0..segc
        invariant
            rd.data@ == d,
            rd.pos == p0 + 16 + 4 * (segc as int) + 2 * (i as int),
            rd.pos <= d.len(),
            deltas@.len() == i,
            forall|j: int|
                0 <= j < i ==> #[trigger] deltas@[j] == seg_delta(d, p0 as int, segc as int, j),
    {
        match rd.read_u16() {
            Some(v) => deltas.push(v),
            None => {
                return Some(CharacterMap::new());
            },
        }
    }
    let mut range_offsets: Vec<u16> = Vec::new();
    for i in 0..segc
        invariant
            rd.data@ == d,
            rd.pos == p0 + 16 + 6 * (segc as int) + 2 * (i as int),
            rd.pos <= d.len(),
            range_offsets@.len() == i,
            forall|j: int|
                0 <= j < i ==> #[trigger] range_offsets@[j] == seg_range_offset(
                    d,
                    p0 as int,
                    segc as int,
                    j,
                ),
    {
        match rd.read_u16() {
            Some(v) => range_offsets.push(v),
            None => {
                return Some(CharacterMap::new());
            },
        }
    }

    let mut cm = CharacterMap::new();
    for i in 0..segc
        invariant
            spec_fill_segments(d, cm@, p0 as int, segc as int, i as int) == spec_fill_segments(
                d,
                Map::<u32, u16>::empty(),
                p0 as int,
                segc as int,
                0,
            ),
    {
        let sc = start_codes[i];
        let ec = end_codes[i];
        let delta = deltas[i];
        let ro = range_offsets[i];
        if ro == 0 {
            fill_direct(&mut cm, sc, ec, delta);
        } else {
            let rbase: u64 = p0 + 16 + 6 * (segc as u64) + 2 * (i as u64) + ro as u64;
            if !fill_indirect(&mut cm, data, sc, ec, delta, rbase) {
                return Some(CharacterMap::new());
            }
        }
    }
    Some(cm)
}

} // verus!
