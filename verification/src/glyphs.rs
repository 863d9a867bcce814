//! The `glyf` outline decoder.
//!
//! `loca` holds glyph-count + 1 offsets into `glyf` (16-bit word offsets
//! scaled by 2, or 32-bit byte offsets, per the `head` table's index
//! format). Each consecutive offset pair delimits one glyph record: equal
//! offsets mean a glyph with no outline, and a negative contour count marks
//! an unsupported composite glyph, decoded as an empty outline. A simple
//! glyph record holds per-contour end-point indices, hinting bytes
//! (skipped), a run-length-encoded flag array, and delta-encoded x and y
//! coordinates accumulated into absolute positions.
//!
//! A record whose decode runs out of bounds degrades to an empty outline for
//! that glyph only; a malformed `loca` walk fails the whole load.

use vstd::prelude::*;

use crate::reader::{be_i16_at, be_u16_at, be_u32_at, Reader};
use crate::tables;

verus! {

/// An absolute outline point in font units.
///
/// Coordinate deltas are 16-bit, and a glyph holds at most 0x10000 points,
/// so every accumulated coordinate fits comfortably in an `i32`.
#[derive(Clone, Copy, Debug, PartialEq, Eq, Structural)]
pub struct Point {
    pub x: i32,
    pub y: i32,
}

/// An ordered sequence of outline points paired one-to-one with on-curve
/// flags. The sequence is logically cyclic: rendered as a closed loop, the
/// last point connects back to the first.
pub struct Contour {
    pub points: Vec<Point>,
    pub on_curve: Vec<bool>,
}

/// An ordered sequence of contours; an empty sequence is a glyph with no
/// visible outline (a space, or an unsupported composite glyph).
pub struct Glyph {
    pub contours: Vec<Contour>,
}

/// One decoded point as (x, y, on-curve).
pub type PointModel = (int, int, bool);

/// A decoded contour: its points in order.
pub type ContourModel = Seq<PointModel>;

/// A decoded glyph: its contours in order.
pub type GlyphModel = Seq<ContourModel>;

impl Contour {
    /// Point count and flag count agree.
    pub open spec fn wf(&self) -> bool {
        self.points@.len() == self.on_curve@.len()
    }

    /// The decoded points this contour holds.
    pub open spec fn model(&self) -> ContourModel {
        Seq::new(
            self.points@.len(),
            |i: int| (self.points@[i].x as int, self.points@[i].y as int, self.on_curve@[i]),
        )
    }
}

impl Glyph {
    pub open spec fn wf(&self) -> bool {
        forall|i: int| 0 <= i < self.contours@.len() ==> (#[trigger] self.contours@[i]).wf()
    }

    /// The decoded contours this glyph holds.
    pub open spec fn model(&self) -> GlyphModel {
        Seq::new(self.contours@.len(), |i: int| self.contours@[i].model())
    }
}

/// Flag bit 0: the point lies on the outline.
pub open spec fn flag_on_curve(f: u8) -> bool {
    f & 0x01 != 0
}

/// Flag bit 3: the next byte is a repeat count for this flag.
pub open spec fn flag_repeat(f: u8) -> bool {
    f & 0x08 != 0
}

/// The run-length decode of `n` flag bytes starting at `pos`: each flag
/// byte with the repeat bit set is followed by a count of additional copies
/// (clipped to the slots that remain). Yields the flags and the position
/// after them, or `None` on a read past the end of the buffer.
pub open spec fn spec_decode_flags(d: Seq<u8>, pos: int, n: int) -> Option<(Seq<u8>, int)>
    decreases n,
{
    if n <= 0 {
        Some((Seq::empty(), pos))
    } else if !(0 <= pos < d.len()) {
        None
    } else {
        let f = d[pos];
        if flag_repeat(f) {
            if pos + 1 >= d.len() {
                None
            } else {
                let c = d[pos + 1] as int;
                let reps = if c <= n - 1 {
                    c
                } else {
                    n - 1
                };
                match spec_decode_flags(d, pos + 2, n - 1 - reps) {
                    Some((rest, end)) => Some(
                        (Seq::new((reps + 1) as nat, |i: int| f) + rest, end),
                    ),
                    None => None,
                }
            }
        } else {
            match spec_decode_flags(d, pos + 1, n - 1) {
                Some((rest, end)) => Some((seq![f] + rest, end)),
                None => None,
            }
        }
    }
}

/// The coordinate delta of the flag `f` for one axis, together with how many
/// bytes it occupies. `short_mask` and `same_mask` select the axis (bits 1
/// and 4 for x, bits 2 and 5 for y): a short delta is one unsigned byte whose
/// sign comes from the same/sign bit; otherwise a set same/sign bit means a
/// zero delta and no bytes, and a clear one a signed 16-bit delta.
pub open spec fn spec_decode_deltas(
    d: Seq<u8>,
    pos: int,
    flags: Seq<u8>,
    k: int,
    short_mask: u8,
    same_mask: u8,
) -> Option<(Seq<int>, int)>
    decreases flags.len() - k,
{
    if k < 0 || k >= flags.len() {
        Some((Seq::empty(), pos))
    } else {
        let f = flags[k];
        if f & short_mask != 0 {
            if !(0 <= pos < d.len()) {
                None
            } else {
                let m = d[pos] as int;
                let delta = if f & same_mask != 0 {
                    m
                } else {
                    -m
                };
                match spec_decode_deltas(d, pos + 1, flags, k + 1, short_mask, same_mask) {
                    Some((rest, end)) => Some((seq![delta] + rest, end)),
                    None => None,
                }
            }
        } else if f & same_mask != 0 {
            match spec_decode_deltas(d, pos, flags, k + 1, short_mask, same_mask) {
                Some((rest, end)) => Some((seq![0int] + rest, end)),
                None => None,
            }
        } else {
            if !(0 <= pos && pos + 2 <= d.len()) {
                None
            } else {
                let delta = be_i16_at(d, pos);
                match spec_decode_deltas(d, pos + 2, flags, k + 1, short_mask, same_mask) {
                    Some((rest, end)) => Some((seq![delta] + rest, end)),
                    None => None,
                }
            }
        }
    }
}

/// The sum of the first `k` deltas: the absolute coordinate after `k`
/// accumulation steps.
pub open spec fn sum_prefix(ds: Seq<int>, k: int) -> int
    decreases k,
{
    if k <= 0 {
        0
    } else {
        sum_prefix(ds, k - 1) + ds[k - 1]
    }
}

/// The index of the first point of contour `i`: the running maximum of
/// end-point index + 1 over the contours before it. (The walk never moves
/// backwards, so a non-monotonic end-point index yields an empty contour.)
pub open spec fn contour_start(ends: Seq<u16>, i: int) -> int
    decreases i,
{
    if i <= 0 {
        0
    } else {
        let prev = contour_start(ends, i - 1);
        let e = ends[i - 1] + 1;
        if e > prev {
            e
        } else {
            prev
        }
    }
}

/// The total number of points the end-point indices call for.
pub open spec fn total_points(ends: Seq<u16>) -> int {
    contour_start(ends, ends.len() as int)
}

/// The decoded point at flat index `j`: accumulated x and y sums and the
/// on-curve bit of its flag.
pub open spec fn point_model_at(flags: Seq<u8>, xs: Seq<int>, ys: Seq<int>, j: int) -> PointModel {
    (sum_prefix(xs, j + 1), sum_prefix(ys, j + 1), flag_on_curve(flags[j]))
}

/// The flat point list partitioned into contours by the end-point indices.
pub open spec fn contours_model(
    ends: Seq<u16>,
    flags: Seq<u8>,
    xs: Seq<int>,
    ys: Seq<int>,
) -> GlyphModel {
    Seq::new(
        ends.len(),
        |i: int|
            Seq::new(
                (contour_start(ends, i + 1) - contour_start(ends, i)) as nat,
                |k: int| point_model_at(flags, xs, ys, contour_start(ends, i) + k),
            ),
    )
}

/// The decode of the single glyph record at byte offset `off`: header
/// (contour count and bounding box), end-point indices, skipped hinting
/// bytes, run-length-decoded flags, then x and y deltas. A negative contour
/// count (a composite glyph) decodes to an empty outline; a read past the
/// end of the buffer yields `None`.
pub open spec fn spec_parse_glyph(d: Seq<u8>, off: int) -> Option<GlyphModel> {
    if !(0 <= off && off + 10 <= d.len()) {
        None
    } else {
        let nc = be_i16_at(d, off);
        if nc < 0 {
            Some(Seq::empty())
        } else {
            if off + 10 + 2 * nc > d.len() {
                None
            } else {
                let ends = Seq::new(nc as nat, |i: int| be_u16_at(d, off + 10 + 2 * i) as u16);
                let ip = off + 10 + 2 * nc;
                if ip + 2 > d.len() {
                    None
                } else {
                    let fp = ip + 2 + be_u16_at(d, ip);
                    let n = total_points(ends);
                    match spec_decode_flags(d, fp, n) {
                        None => None,
                        Some((flags, xp)) => match spec_decode_deltas(d, xp, flags, 0, 0x02, 0x10) {
                            None => None,
                            Some((xs, yp)) => match spec_decode_deltas(
                                d,
                                yp,
                                flags,
                                0,
                                0x04,
                                0x20,
                            ) {
                                None => None,
                                Some((ys, _)) => Some(contours_model(ends, flags, xs, ys)),
                            },
                        },
                    }
                }
            }
        }
    }
}

/// Run-length decode `n` flag bytes through the cursor.
fn decode_flags(rd: &mut Reader, n: usize) -> (r: Option<Vec<u8>>)
    ensures
        final(rd).data@ == old(rd).data@,
        match r {
            Some(flags) => {
                &&& flags@.len() == n
                &&& spec_decode_flags(old(rd).data@, old(rd).pos as int, n as int) == Some(
                    (flags@, final(rd).pos as int),
                )
            },
            None => spec_decode_flags(old(rd).data@, old(rd).pos as int, n as int) is None,
        },
{
    let ghost d = rd.data@;
    let ghost start = rd.pos as int;
    let mut flags: Vec<u8> = Vec::new();
    while flags.len() < n
        invariant
            rd.data@ == d,
            d == old(rd).data@,
            start == old(rd).pos as int,
            flags@.len() <= n,
            spec_decode_flags(d, start, n as int) == (match spec_decode_flags(
                d,
                rd.pos as int,
                n - flags@.len(),
            ) {
                Some(t) => Some((flags@ + t.0, t.1)),
                None => None::<(Seq<u8>, int)>,
            }),
        decreases n - flags@.len(),
    {
        let ghost flags0 = flags@;
        let ghost pos0 = rd.pos as int;
        let ghost m = n - flags@.len();
        let f = match rd.read_u8() {
            Some(v) => v,
            None => {
                return None;
            },
        };
        flags.push(f);
        if f & 0x08 != 0 {
            let c = match rd.read_u8() {
                Some(v) => v,
                None => {
                    return None;
                },
            };
            let ghost pre = flags@;
            let mut j: u8 = 0;
            while j < c && flags.len() < n
                invariant
                    j <= c,
                    pre.len() + j as int == flags@.len(),
                    flags@.len() <= n,
                    flags@ == pre + Seq::new(j as nat, |i: int| f),
                decreases c - j,
            {
                flags.push(f);
                proof {
                    assert(flags@ =~= pre + Seq::new((j + 1) as nat, |i: int| f));
                }
                j = j + 1;
            }
            proof {
                let reps = if c as int <= m - 1 {
                    c as int
                } else {
                    m - 1
                };
                assert(j as int == reps);
                assert(flags@ =~= flags0 + Seq::new((reps + 1) as nat, |i: int| f));
                match spec_decode_flags(d, pos0 + 2, m - 1 - reps) {
                    Some((rest, end)) => {
                        assert(flags0 + (Seq::new((reps + 1) as nat, |i: int| f) + rest) =~= flags@
                            + rest);
                    },
                    None => {},
                }
            }
        } else {
            proof {
                match spec_decode_flags(d, pos0 + 1, m - 1) {
                    Some((rest, end)) => {
                        assert(flags0 + (seq![f] + rest) =~= flags@ + rest);
                    },
                    None => {},
                }
            }
        }
    }
    proof {
        assert(flags@ + Seq::<u8>::empty() =~= flags@);
    }
    Some(flags)
}

/// Decode one coordinate delta per flag for the axis the masks select.
fn decode_deltas(rd: &mut Reader, flags: &Vec<u8>, short_mask: u8, same_mask: u8) -> (r: Option<
    Vec<i16>,
>)
    ensures
        final(rd).data@ == old(rd).data@,
        match r {
            Some(ds) => {
                &&& ds@.len() == flags@.len()
                &&& spec_decode_deltas(
                    old(rd).data@,
                    old(rd).pos as int,
                    flags@,
                    0,
                    short_mask,
                    same_mask,
                ) == Some((ds@.map_values(|v: i16| v as int), final(rd).pos as int))
            },
            None => spec_decode_deltas(
                old(rd).data@,
                old(rd).pos as int,
                flags@,
                0,
                short_mask,
                same_mask,
            ) is None,
        },
{
    let ghost d = rd.data@;
    let ghost start = rd.pos as int;
    let mut ds: Vec<i16> = Vec::new();
    let n = flags.len();
    for k in 0..n
        invariant
            rd.data@ == d,
            d == old(rd).data@,
            start == old(rd).pos as int,
            n == flags@.len(),
            ds@.len() == k,
            spec_decode_deltas(d, start, flags@, 0, short_mask, same_mask) == (match spec_decode_deltas(
                d,
                rd.pos as int,
                flags@,
                k as int,
                short_mask,
                same_mask,
            ) {
                Some(t) => Some((ds@.map_values(|v: i16| v as int) + t.0, t.1)),
                None => None::<(Seq<int>, int)>,
            }),
    {
        let ghost ds0 = ds@;
        let ghost pos0 = rd.pos as int;
        let f = flags[k];
        let delta: i16;
        if f & short_mask != 0 {
            let m = match rd.read_u8() {
                Some(v) => v,
                None => {
                    return None;
                },
            };
            if f & same_mask != 0 {
                delta = m as i16;
            } else {
                delta = -(m as i16);
            }
        } else if f & same_mask != 0 {
            delta = 0;
        } else {
            delta = match rd.read_i16() {
                Some(v) => v,
                None => {
                    return None;
                },
            };
        }
        ds.push(delta);
        proof {
            assert(ds@.map_values(|v: i16| v as int) =~= ds0.map_values(|v: i16| v as int) + seq![
                delta as int,
            ]);
            match spec_decode_deltas(d, rd.pos as int, flags@, k + 1, short_mask, same_mask) {
                Some((rest, end)) => {
                    assert(ds0.map_values(|v: i16| v as int) + (seq![delta as int] + rest) =~= ds@
                        .map_values(|v: i16| v as int) + rest);
                },
                None => {},
            }
        }
    }
    proof {
        assert(ds@.map_values(|v: i16| v as int) + Seq::<int>::empty() =~= ds@.map_values(
            |v: i16| v as int,
        ));
    }
    Some(ds)
}

/// Every contour start index lies between 0 and 0x10000: end-point indices
/// are 16-bit, so a glyph holds at most 0x10000 points.
pub proof fn lemma_contour_start_bounds(ends: Seq<u16>, i: int)
    ensures
        0 <= contour_start(ends, i) <= 0x10000,
    decreases i,
{
    if i > 0 {
        lemma_contour_start_bounds(ends, i - 1);
    }
}

/// Contour start indices never move backwards.
pub proof fn lemma_contour_start_monotone(ends: Seq<u16>, i: int, j: int)
    requires
        i <= j,
    ensures
        contour_start(ends, i) <= contour_start(ends, j),
    decreases j - i,
{
    if i < j {
        lemma_contour_start_monotone(ends, i, j - 1);
    }
}

/// An accumulated coordinate after `k` deltas of at most 16 bits lies
/// within `k` times the delta range.
pub proof fn lemma_sum_prefix_bounds(ds: Seq<int>, k: int)
    requires
        forall|i: int| 0 <= i < ds.len() ==> -0x8000 <= #[trigger] ds[i] <= 0x7fff,
        0 <= k <= ds.len(),
    ensures
        -0x8000 * k <= sum_prefix(ds, k) <= 0x7fff * k,
    decreases k,
{
    if k > 0 {
        lemma_sum_prefix_bounds(ds, k - 1);
    }
}

/// Partition the flat decoded point data into contours, accumulating the
/// deltas into absolute coordinates along the way.
fn build_contours(ends: &Vec<u16>, flags: &Vec<u8>, xs: &Vec<i16>, ys: &Vec<i16>) -> (r: Vec<
    Contour,
>)
    requires
        flags@.len() == total_points(ends@),
        xs@.len() == flags@.len(),
        ys@.len() == flags@.len(),
    ensures
        r@.len() == ends@.len(),
        forall|i: int| 0 <= i < r@.len() ==> (#[trigger] r@[i]).wf(),
        Seq::new(r@.len(), |i: int| r@[i].model()) == contours_model(
            ends@,
            flags@,
            xs@.map_values(|v: i16| v as int),
            ys@.map_values(|v: i16| v as int),
        ),
{
    let ghost xsm = xs@.map_values(|v: i16| v as int);
    let ghost ysm = ys@.map_values(|v: i16| v as int);
    let mut contours: Vec<Contour> = Vec::new();
    let mut point_index: usize = 0;
    let mut x_pos: i32 = 0;
    let mut y_pos: i32 = 0;
    let n = ends.len();
    for ci in 0..n
        invariant
            n == ends@.len(),
            flags@.len() == total_points(ends@),
            xs@.len() == flags@.len(),
            ys@.len() == flags@.len(),
            xsm == xs@.map_values(|v: i16| v as int),
            ysm == ys@.map_values(|v: i16| v as int),
            contours@.len() == ci,
            point_index == contour_start(ends@, ci as int),
            point_index <= flags@.len(),
            x_pos == sum_prefix(xsm, point_index as int),
            y_pos == sum_prefix(ysm, point_index as int),
            forall|j: int| 0 <= j < ci ==> (#[trigger] contours@[j]).wf(),
            forall|j: int|
                0 <= j < ci ==> (#[trigger] contours@[j]).model() == contours_model(
                    ends@,
                    flags@,
                    xsm,
                    ysm,
                )[j],
    {
        let e = ends[ci] as usize;
        let ghost cstart = point_index as int;
        proof {
            lemma_contour_start_monotone(ends@, ci + 1, ends@.len() as int);
            assert(contour_start(ends@, ci + 1) <= flags@.len());
        }
        let mut pts: Vec<Point> = Vec::new();
        let mut ons: Vec<bool> = Vec::new();
        while point_index <= e
            invariant
                n == ends@.len(),
                ci < n,
                e == ends@[ci as int] as int,
                flags@.len() == total_points(ends@),
                xs@.len() == flags@.len(),
                ys@.len() == flags@.len(),
                xsm == xs@.map_values(|v: i16| v as int),
                ysm == ys@.map_values(|v: i16| v as int),
                cstart == contour_start(ends@, ci as int),
                cstart <= point_index,
                point_index <= contour_start(ends@, ci + 1),
                contour_start(ends@, ci + 1) <= flags@.len(),
                pts@.len() == point_index - cstart,
                ons@.len() == point_index - cstart,
                x_pos == sum_prefix(xsm, point_index as int),
                y_pos == sum_prefix(ysm, point_index as int),
                forall|k: int|
                    0 <= k < pts@.len() ==> {
                        &&& (#[trigger] pts@[k]).x == sum_prefix(xsm, cstart + k + 1)
                        &&& pts@[k].y == sum_prefix(ysm, cstart + k + 1)
                    },
                forall|k: int|
                    0 <= k < ons@.len() ==> #[trigger] ons@[k] == flag_on_curve(
                        flags@[cstart + k],
                    ),
            decreases e + 1 - point_index,
        {
            proof {
                lemma_contour_start_bounds(ends@, ends@.len() as int);
                lemma_sum_prefix_bounds(xsm, point_index + 1);
                lemma_sum_prefix_bounds(ysm, point_index + 1);
            }
            x_pos = x_pos + xs[point_index] as i32;
            y_pos = y_pos + ys[point_index] as i32;
            pts.push(Point { x: x_pos, y: y_pos });
            ons.push(flags[point_index] & 0x01 != 0);
            point_index = point_index + 1;
        }
        let contour = Contour { points: pts, on_curve: ons };
        proof {
            assert(point_index == contour_start(ends@, ci + 1));
            assert(contour.model() =~= contours_model(ends@, flags@, xsm, ysm)[ci as int]);
        }
        contours.push(contour);
    }
    proof {
        assert(Seq::new(contours@.len(), |i: int| contours@[i].model()) =~= contours_model(
            ends@,
            flags@,
            xsm,
            ysm,
        ));
    }
    contours
}

/// Decode the single glyph record at `offset`. A negative contour count (a
/// composite glyph) yields an empty outline; a read past the end of the
/// buffer yields `None`, which a caller walking `loca` turns into an empty
/// outline for this glyph alone.
pub fn parse_glyph(data: &[u8], offset: usize) -> (r: Option<Glyph>)
    ensures
        match r {
            Some(g) => spec_parse_glyph(data@, offset as int) == Some(g.model()) && g.wf(),
            None => spec_parse_glyph(data@, offset as int) is None,
        },
{
    let ghost d = data@;
    let ghost off = offset as int;
    let mut rd = Reader::new(data, offset);

    let contour_count = match rd.read_i16() {
        Some(v) => v,
        None => {
            return None;
        },
    };
    let _min_x = match rd.read_u16() {
        Some(v) => v,
        None => {
            return None;
        },
    };
    let _min_y = match rd.read_u16() {
        Some(v) => v,
        None => {
            return None;
        },
    };
    let _max_x = match rd.read_u16() {
        Some(v) => v,
        None => {
            return None;
        },
    };
    let _max_y = match rd.read_u16() {
        Some(v) => v,
        None => {
            return None;
        },
    };

    if contour_count < 0 {
        let g = Glyph { contours: Vec::new() };
        proof {
            assert(g.model() =~= Seq::<ContourModel>::empty());
        }
        return Some(g);
    }
    let nc = contour_count as usize;
    let ghost spec_ends = Seq::new(nc as nat, |i: int| be_u16_at(d, off + 10 + 2 * i) as u16);

    let mut ends: Vec<u16> = Vec::new();
    for i in 0..nc
        invariant
            rd.data@ == d,
            d == data@,
            off == offset as int,
            rd.pos == off + 10 + 2 * (i as int),
            rd.pos <= d.len(),
            0 <= off,
            off + 10 <= d.len(),
            nc as int == be_i16_at(d, off),
            nc <= 0x7fff,
            ends@.len() == i,
            forall|j: int| 0 <= j < i ==> #[trigger] ends@[j] == be_u16_at(d, off + 10 + 2 * j),
    {
        match rd.read_u16() {
            Some(v) => ends.push(v),
            None => {
                return None;
            },
        }
    }
    proof {
        assert(ends@ =~= spec_ends);
    }

    let instruction_count = match rd.read_u16() {
        Some(v) => v,
        None => {
            return None;
        },
    };
    let ghost ip = off + 10 + 2 * (nc as int);
    let ghost fp = ip + 2 + instruction_count as int;

    if nc == 0 {
        let g = Glyph { contours: Vec::new() };
        proof {
            assert(g.model() =~= Seq::<ContourModel>::empty());
            assert(spec_ends.len() == 0);
            assert(total_points(spec_ends) == 0);
            assert(spec_decode_flags(d, fp, 0) == Some((Seq::<u8>::empty(), fp)));
            let flags = Seq::<u8>::empty();
            assert(spec_decode_deltas(d, fp, flags, 0, 0x02, 0x10) == Some(
                (Seq::<int>::empty(), fp),
            ));
            assert(spec_decode_deltas(d, fp, flags, 0, 0x04, 0x20) == Some(
                (Seq::<int>::empty(), fp),
            ));
            assert(contours_model(spec_ends, flags, Seq::<int>::empty(), Seq::<int>::empty())
                =~= Seq::<ContourModel>::empty());
        }
        return Some(g);
    }

    rd.skip(instruction_count as usize);

    let mut total: usize = 0;
    for i in 0..nc
        invariant
            nc == ends@.len(),
            total == contour_start(ends@, i as int),
            total <= 0x10000,
    {
        let e1 = ends[i] as usize + 1;
        if e1 > total {
            total = e1;
        }
    }
    proof {
        assert(total == total_points(ends@));
        lemma_contour_start_monotone(ends@, 1, ends@.len() as int);
        assert(contour_start(ends@, 1) >= 1);
        assert(total >= 1);
        if fp > d.len() {
            assert(rd.pos == d.len());
            assert(spec_decode_flags(d, fp, total as int) is None);
        } else {
            assert(rd.pos == fp);
        }
    }

    let flags = match decode_flags(&mut rd, total) {
        Some(v) => v,
        None => {
            return None;
        },
    };
    let xs = match decode_deltas(&mut rd, &flags, 0x02, 0x10) {
        Some(v) => v,
        None => {
            return None;
        },
    };
    let ys = match decode_deltas(&mut rd, &flags, 0x04, 0x20) {
        Some(v) => v,
        None => {
            return None;
        },
    };

    let contours = build_contours(&ends, &flags, &xs, &ys);
    let g = Glyph { contours };
    proof {
        assert(g.model() =~= Seq::new(g.contours@.len(), |i: int| g.contours@[i].model()));
    }
    Some(g)
}

/// The tag of the `loca` table.
pub open spec fn loca_tag() -> Seq<u8> {
    seq![0x6cu8, 0x6fu8, 0x63u8, 0x61u8]
}

/// The tag of the `glyf` table.
pub open spec fn glyf_tag() -> Seq<u8> {
    seq![0x67u8, 0x6cu8, 0x79u8, 0x66u8]
}

/// The glyph loader can start: the `head` table parses and the directory
/// names `loca` and `glyf` tables.
pub open spec fn glyphs_ok(d: Seq<u8>) -> bool {
    &&& tables::head_ok(d)
    &&& tables::find_table_from(d, loca_tag(), 0) is Some
    &&& tables::find_table_from(d, glyf_tag(), 0) is Some
}

/// The byte offset of the first `loca` table.
pub open spec fn loca_offset(d: Seq<u8>) -> int {
    tables::table_offset(d, tables::find_table_from(d, loca_tag(), 0)->Some_0)
}

/// The byte length of the first `loca` table.
pub open spec fn loca_length(d: Seq<u8>) -> int {
    tables::table_length(d, tables::find_table_from(d, loca_tag(), 0)->Some_0)
}

/// The byte offset of the first `glyf` table.
pub open spec fn glyf_offset(d: Seq<u8>) -> int {
    tables::table_offset(d, tables::find_table_from(d, glyf_tag(), 0)->Some_0)
}

/// The `head` table's index-to-location format selects 32-bit byte offsets
/// (format 1) over 16-bit word offsets scaled by 2 (format 0).
pub open spec fn loca_long_format(d: Seq<u8>) -> bool {
    be_i16_at(d, tables::head_offset(d) + 50) == 1
}

/// The byte size of one `loca` entry.
pub open spec fn loca_entry_size(d: Seq<u8>) -> int {
    if loca_long_format(d) {
        4
    } else {
        2
    }
}

/// The glyph at `off`, degraded to an empty outline if its record does not
/// decode: one corrupt glyph record never aborts the whole font.
pub open spec fn glyph_or_empty(d: Seq<u8>, off: int) -> GlyphModel {
    match spec_parse_glyph(d, off) {
        Some(m) => m,
        None => Seq::empty(),
    }
}

/// The walk of the remaining `loca` entries: each entry read closes a pair
/// with the previous one; equal offsets yield a glyph with no contours, and
/// unequal ones decode the record at the previous offset (scaled by 2 in
/// word format) within `glyf`. A `loca` read past the end of the buffer
/// fails the whole walk.
pub open spec fn spec_walk_loca(
    d: Seq<u8>,
    pos: int,
    end: int,
    prev: int,
    glyf_base: int,
    long_fmt: bool,
) -> Option<Seq<GlyphModel>>
    decreases (if end - pos > 0 { end - pos } else { 0 }),
{
    if pos >= end {
        Some(Seq::empty())
    } else {
        let s: int = if long_fmt {
            4
        } else {
            2
        };
        if !(0 <= pos && pos + s <= d.len()) {
            None
        } else {
            let entry = if long_fmt {
                be_u32_at(d, pos)
            } else {
                be_u16_at(d, pos)
            };
            let gm = if entry == prev {
                Seq::<ContourModel>::empty()
            } else {
                glyph_or_empty(
                    d,
                    glyf_base + (if long_fmt {
                        prev
                    } else {
                        2 * prev
                    }),
                )
            };
            match spec_walk_loca(d, pos + s, end, entry, glyf_base, long_fmt) {
                Some(rest) => Some(seq![gm] + rest),
                None => None,
            }
        }
    }
}

/// The whole glyph list of the font: the `loca` walk seeded with the first
/// entry, or `None` when a top-level table is missing or malformed.
pub open spec fn spec_load_glyphs(d: Seq<u8>) -> Option<Seq<GlyphModel>> {
    if !glyphs_ok(d) {
        None
    } else {
        let pos = loca_offset(d);
        let end = pos + loca_length(d);
        let s = loca_entry_size(d);
        if !(pos + s <= d.len()) {
            None
        } else {
            let first = if loca_long_format(d) {
                be_u32_at(d, pos)
            } else {
                be_u16_at(d, pos)
            };
            spec_walk_loca(d, pos + s, end, first, glyf_offset(d), loca_long_format(d))
        }
    }
}

/// The decoded contours of each glyph of `gs`, in order.
pub open spec fn glyphs_model(gs: Seq<Glyph>) -> Seq<GlyphModel> {
    Seq::new(gs.len(), |i: int| gs[i].model())
}

/// Decode every glyph of the font, in glyph-index order, by walking the
/// `loca` offsets over `glyf`. A malformed individual glyph record becomes
/// an empty outline; a missing or truncated top-level table fails the load.
#[verifier::loop_isolation(false)]
#[verifier::rlimit(50)]
pub fn load_glyphs(data: &[u8]) -> (r: Option<Vec<Glyph>>)
    ensures
        match r {
            Some(gs) => {
                &&& spec_load_glyphs(data@) == Some(glyphs_model(gs@))
                &&& forall|i: int| 0 <= i < gs@.len() ==> (#[trigger] gs@[i]).wf()
            },
            None => spec_load_glyphs(data@) is None,
        },
{
    let ghost d = data@;
    let tables_v = match tables::get_tables(data) {
        Some(v) => v,
        None => {
            return None;
        },
    };
    let head = match tables::get_head_table(data) {
        Some(v) => v,
        None => {
            return None;
        },
    };
    let loca_name: Vec<u8> = vec![0x6cu8, 0x6fu8, 0x63u8, 0x61u8];
    let glyf_name: Vec<u8> = vec![0x67u8, 0x6cu8, 0x79u8, 0x66u8];
    proof {
        assert(loca_name@ =~= loca_tag());
        assert(glyf_name@ =~= glyf_tag());
    }
    let loca = match tables::find_descriptor(&tables_v, &loca_name, Ghost(d)) {
        Some(t) => t,
        None => {
            return None;
        },
    };
    let glyf_off: u32 = match tables::find_descriptor(&tables_v, &glyf_name, Ghost(d)) {
        Some(t) => t.offset,
        None => {
            return None;
        },
    };
    let long_fmt = head.index_to_location_format == 1;
    let loca_off = loca.offset;
    let loca_len = loca.length;
    let end: u64 = loca_off as u64 + loca_len as u64;

    let mut rd = Reader::new(data, loca_off as usize);
    let first_entry: u32 = if long_fmt {
        match rd.read_u32() {
            Some(v) => v,
            None => {
                return None;
            },
        }
    } else {
        match rd.read_u16() {
            Some(v) => v as u32,
            None => {
                return None;
            },
        }
    };

    let mut glyphs: Vec<Glyph> = Vec::new();
    let mut prev: u32 = first_entry;
    let ghost base: int = glyf_off as int;
    let ghost target: Option<Seq<GlyphModel>> = spec_load_glyphs(d);
    proof {
        assert(target == spec_walk_loca(d, rd.pos as int, end as int, prev as int, base, long_fmt));
        match spec_walk_loca(d, rd.pos as int, end as int, prev as int, base, long_fmt) {
            Some(rest) => {
                assert(glyphs_model(glyphs@) + rest =~= rest);
            },
            None => {},
        }
    }
    while (rd.pos as u64) < end
        invariant
            rd.data@ == d,
            rd.pos <= d.len(),
            target == (match spec_walk_loca(
                d,
                rd.pos as int,
                end as int,
                prev as int,
                base,
                long_fmt,
            ) {
                Some(rest) => Some(glyphs_model(glyphs@) + rest),
                None => None::<Seq<GlyphModel>>,
            }),
            forall|i: int| 0 <= i < glyphs@.len() ==> (#[trigger] glyphs@[i]).wf(),
        decreases (if end as int - rd.pos as int > 0 {
            end as int - rd.pos as int
        } else {
            0
        }),
    {
        let ghost glyphs0 = glyphs@;
        let entry: u32 = if long_fmt {
            match rd.read_u32() {
                Some(v) => v,
                None => {
                    return None;
                },
            }
        } else {
            match rd.read_u16() {
                Some(v) => v as u32,
                None => {
                    return None;
                },
            }
        };
        let g: Glyph;
        if entry == prev {
            g = Glyph { contours: Vec::new() };
            proof {
                assert(g.model() =~= Seq::<ContourModel>::empty());
                assert(g.wf());
            }
        } else {
            let goff: u64 = if long_fmt {
                glyf_off as u64 + prev as u64
            } else {
                glyf_off as u64 + 2 * (prev as u64)
            };
            if goff > data.len() as u64 {
                g = Glyph { contours: Vec::new() };
                proof {
                    assert(g.model() =~= Seq::<ContourModel>::empty());
                    assert(g.wf());
                }
            } else {
                g = match parse_glyph(data, goff as usize) {
                    Some(v) => v,
                    None => {
                        let empty = Glyph { contours: Vec::new() };
                        proof {
                            assert(empty.model() =~= Seq::<ContourModel>::empty());
                            assert(empty.wf());
                        }
                        empty
                    },
                };
            }
        }
        glyphs.push(g);
        proof {
            assert(glyphs_model(glyphs@) =~= glyphs_model(glyphs0) + seq![g.model()]);
            match spec_walk_loca(d, rd.pos as int, end as int, entry as int, base, long_fmt) {
                Some(rest) => {
                    assert(glyphs_model(glyphs0) + (seq![g.model()] + rest) =~= glyphs_model(
                        glyphs@,
                    ) + rest);
                },
                None => {},
            }
        }
        prev = entry;
    }
    proof {
        assert(glyphs_model(glyphs@) + Seq::<GlyphModel>::empty() =~= glyphs_model(glyphs@));
    }
    Some(glyphs)
}

/// The `loca` entry value stored at byte position `pos`.
pub open spec fn loca_entry_at(d: Seq<u8>, pos: int, long_fmt: bool) -> int {
    if long_fmt {
        be_u32_at(d, pos)
    } else {
        be_u16_at(d, pos)
    }
}

/// A successful `loca` walk yields one glyph per entry read: the number of
/// entry slots between `pos` and `end`, the last one possibly partial.
pub proof fn lemma_walk_loca_count(
    d: Seq<u8>,
    pos: int,
    end: int,
    prev: int,
    base: int,
    long_fmt: bool,
)
    requires
        spec_walk_loca(d, pos, end, prev, base, long_fmt) is Some,
    ensures
        spec_walk_loca(d, pos, end, prev, base, long_fmt)->Some_0.len() == (if end <= pos {
            0int
        } else {
            ((end - pos) + (if long_fmt { 4int } else { 2int }) - 1) / (if long_fmt {
                4int
            } else {
                2int
            })
        }),
    decreases (if end - pos > 0 { end - pos } else { 0 }),
{
    if pos < end {
        let s: int = if long_fmt { 4 } else { 2 };
        let entry = loca_entry_at(d, pos, long_fmt);
        lemma_walk_loca_count(d, pos + s, end, entry, base, long_fmt);
    }
}

/// For any well-formed font whose `loca` table holds n + 1 entries, the
/// glyph loader returns exactly n glyphs, in glyph-index order.
pub proof fn lemma_load_glyphs_count(d: Seq<u8>, n: int)
    requires
        spec_load_glyphs(d) is Some,
        n >= 0,
        loca_length(d) == (n + 1) * loca_entry_size(d),
    ensures
        spec_load_glyphs(d)->Some_0.len() == n,
{
    let s = loca_entry_size(d);
    let pos = loca_offset(d) + s;
    let end = loca_offset(d) + loca_length(d);
    lemma_walk_loca_count(
        d,
        pos,
        end,
        loca_entry_at(d, loca_offset(d), loca_long_format(d)),
        glyf_offset(d),
        loca_long_format(d),
    );
    if loca_long_format(d) {
        assert(loca_length(d) == (n + 1) * 4);
        assert(n > 0 ==> (n * 4 + 3) / 4 == n) by (nonlinear_arith);
    } else {
        assert(loca_length(d) == (n + 1) * 2);
        assert(n > 0 ==> (n * 2 + 1) / 2 == n) by (nonlinear_arith);
    }
}

/// Within a successful walk, a pair of equal consecutive `loca` entries
/// yields a glyph with no contours at that index.
pub proof fn lemma_walk_equal_pair(
    d: Seq<u8>,
    pos: int,
    end: int,
    prev: int,
    base: int,
    long_fmt: bool,
    i: int,
)
    requires
        spec_walk_loca(d, pos, end, prev, base, long_fmt) is Some,
        0 <= i < spec_walk_loca(d, pos, end, prev, base, long_fmt)->Some_0.len(),
        (if i == 0 {
            prev
        } else {
            loca_entry_at(d, pos + (i - 1) * (if long_fmt { 4int } else { 2int }), long_fmt)
        }) == loca_entry_at(d, pos + i * (if long_fmt { 4int } else { 2int }), long_fmt),
    ensures
        spec_walk_loca(d, pos, end, prev, base, long_fmt)->Some_0[i].len() == 0,
    decreases i,
{
    let s: int = if long_fmt { 4 } else { 2 };
    let entry = loca_entry_at(d, pos, long_fmt);
    if i > 0 {
        lemma_walk_equal_pair(d, pos + s, end, entry, base, long_fmt, i - 1);
    }
}

/// The canonical re-encoding of a decoded flag array: each flag byte is
/// kept as it stands, and one that carries the repeat bit is followed by a
/// zero repeat count.
pub open spec fn spec_encode_flags(flags: Seq<u8>) -> Seq<u8>
    decreases flags.len(),
{
    if flags.len() == 0 {
        Seq::empty()
    } else {
        (if flag_repeat(flags[0]) {
            seq![flags[0], 0u8]
        } else {
            seq![flags[0]]
        }) + spec_encode_flags(flags.drop_first())
    }
}

/// The delta `v` is one that flag `f` can describe for the axis the masks
/// select: a short delta is a magnitude of at most 255 with the sign the
/// same/sign bit gives, a same-bit delta is zero, and a long delta is any
/// signed 16-bit value. Every decoded delta satisfies this.
pub open spec fn delta_matches_flag(f: u8, v: int, short_mask: u8, same_mask: u8) -> bool {
    if f & short_mask != 0 {
        if f & same_mask != 0 {
            0 <= v <= 255
        } else {
            -255 <= v <= 0
        }
    } else if f & same_mask != 0 {
        v == 0
    } else {
        -0x8000 <= v <= 0x7fff
    }
}

/// Every delta of `vs` is one its flag can describe.
pub open spec fn deltas_match_flags(
    flags: Seq<u8>,
    vs: Seq<int>,
    short_mask: u8,
    same_mask: u8,
) -> bool {
    &&& vs.len() == flags.len()
    &&& forall|i: int|
        0 <= i < flags.len() ==> delta_matches_flag(flags[i], #[trigger] vs[i], short_mask, same_mask)
}

/// The bytes that encode delta `v` under flag `f`: the magnitude byte of a
/// short delta, nothing for a same-bit delta, or a big-endian two's
/// complement 16-bit value.
pub open spec fn spec_encode_delta(f: u8, v: int, short_mask: u8, same_mask: u8) -> Seq<u8> {
    if f & short_mask != 0 {
        if f & same_mask != 0 {
            seq![v as u8]
        } else {
            seq![(-v) as u8]
        }
    } else if f & same_mask != 0 {
        Seq::empty()
    } else {
        let u = if v < 0 {
            v + 0x10000
        } else {
            v
        };
        seq![(u / 0x100) as u8, (u % 0x100) as u8]
    }
}

/// The bytes that encode the deltas of `vs` from flag index `k` on.
pub open spec fn spec_encode_deltas(
    flags: Seq<u8>,
    vs: Seq<int>,
    k: int,
    short_mask: u8,
    same_mask: u8,
) -> Seq<u8>
    decreases flags.len() - k,
{
    if k < 0 || k >= flags.len() {
        Seq::empty()
    } else {
        spec_encode_delta(flags[k], vs[k], short_mask, same_mask) + spec_encode_deltas(
            flags,
            vs,
            k + 1,
            short_mask,
            same_mask,
        )
    }
}

/// Decoding always yields deltas that their flags can describe.
pub proof fn lemma_decoded_deltas_match(
    d: Seq<u8>,
    pos: int,
    flags: Seq<u8>,
    k: int,
    short_mask: u8,
    same_mask: u8,
)
    requires
        0 <= k <= flags.len(),
        spec_decode_deltas(d, pos, flags, k, short_mask, same_mask) is Some,
    ensures
        ({
            let vs = spec_decode_deltas(d, pos, flags, k, short_mask, same_mask)->Some_0.0;
            &&& vs.len() == flags.len() - k
            &&& forall|i: int|
                0 <= i < vs.len() ==> delta_matches_flag(
                    flags[k + i],
                    #[trigger] vs[i],
                    short_mask,
                    same_mask,
                )
        }),
    decreases flags.len() - k,
{
    if k < flags.len() {
        let f = flags[k];
        if f & short_mask != 0 {
            lemma_decoded_deltas_match(d, pos + 1, flags, k + 1, short_mask, same_mask);
        } else if f & same_mask != 0 {
            lemma_decoded_deltas_match(d, pos, flags, k + 1, short_mask, same_mask);
        } else {
            lemma_decoded_deltas_match(d, pos + 2, flags, k + 1, short_mask, same_mask);
        }
    }
}

/// Decoding the canonical re-encoding of a flag array reproduces the array.
pub proof fn lemma_decode_encode_flags(d: Seq<u8>, pos: int, flags: Seq<u8>)
    requires
        0 <= pos,
        pos + spec_encode_flags(flags).len() <= d.len(),
        d.subrange(pos, pos + spec_encode_flags(flags).len() as int) == spec_encode_flags(flags),
    ensures
        spec_decode_flags(d, pos, flags.len() as int) == Some(
            (flags, pos + spec_encode_flags(flags).len()),
        ),
    decreases flags.len(),
{
    let enc = spec_encode_flags(flags);
    let sub = d.subrange(pos, pos + enc.len() as int);
    assert(forall|i: int| 0 <= i < enc.len() ==> d[pos + i] == #[trigger] enc[i]) by {
        assert(forall|i: int| 0 <= i < enc.len() ==> #[trigger] sub[i] == d[pos + i]);
    }
    if flags.len() > 0 {
        let f = flags[0];
        let rest = flags.drop_first();
        let enc_rest = spec_encode_flags(rest);
        let head_len: int = if flag_repeat(f) {
            2
        } else {
            1
        };
        let head_seq: Seq<u8> = if flag_repeat(f) {
            seq![f, 0u8]
        } else {
            seq![f]
        };
        assert(enc == head_seq + enc_rest);
        assert(enc.len() == head_len + enc_rest.len());
        assert(d[pos] == enc[0]);
        assert(enc[0] == (head_seq + enc_rest)[0]);
        assert(enc[0] == f);
        if flag_repeat(f) {
            assert(d[pos + 1] == enc[1]);
            assert(enc[1] == (head_seq + enc_rest)[1]);
            assert(enc[1] == 0u8);
        }
        assert forall|j: int| 0 <= j < enc_rest.len() implies d[pos + head_len + j] == enc_rest[j] by {
            assert(enc[head_len + j] == (head_seq + enc_rest)[head_len + j]);
            assert((head_seq + enc_rest)[head_len + j] == enc_rest[j]);
        }
        assert(d.subrange(pos + head_len, pos + head_len + enc_rest.len() as int) =~= enc_rest);
        lemma_decode_encode_flags(d, pos + head_len, rest);
        match spec_decode_flags(d, pos + head_len, rest.len() as int) {
            Some((rflags, end)) => {
                if flag_repeat(f) {
                    assert(Seq::new(1nat, |i: int| f) + rflags =~= flags);
                } else {
                    assert(seq![f] + rflags =~= flags);
                }
            },
            None => {},
        }
    }
}

/// Decoding the re-encoding of consistent deltas reproduces the deltas.
pub proof fn lemma_decode_encode_deltas(
    d: Seq<u8>,
    pos: int,
    flags: Seq<u8>,
    vs: Seq<int>,
    k: int,
    short_mask: u8,
    same_mask: u8,
)
    requires
        0 <= k <= flags.len(),
        0 <= pos,
        vs.len() == flags.len(),
        forall|i: int|
            k <= i < flags.len() ==> delta_matches_flag(
                flags[i],
                #[trigger] vs[i],
                short_mask,
                same_mask,
            ),
        pos + spec_encode_deltas(flags, vs, k, short_mask, same_mask).len() <= d.len(),
        d.subrange(pos, pos + spec_encode_deltas(flags, vs, k, short_mask, same_mask).len() as int)
            == spec_encode_deltas(flags, vs, k, short_mask, same_mask),
    ensures
        spec_decode_deltas(d, pos, flags, k, short_mask, same_mask) == Some(
            (
                vs.subrange(k, vs.len() as int),
                pos + spec_encode_deltas(flags, vs, k, short_mask, same_mask).len(),
            ),
        ),
    decreases flags.len() - k,
{
    let enc = spec_encode_deltas(flags, vs, k, short_mask, same_mask);
    let sub = d.subrange(pos, pos + enc.len() as int);
    assert(forall|i: int| 0 <= i < enc.len() ==> d[pos + i] == #[trigger] enc[i]) by {
        assert(forall|i: int| 0 <= i < enc.len() ==> #[trigger] sub[i] == d[pos + i]);
    }
    if k >= flags.len() {
        assert(vs.subrange(k, vs.len() as int) =~= Seq::<int>::empty());
    } else {
        let f = flags[k];
        let v = vs[k];
        let head = spec_encode_delta(f, v, short_mask, same_mask);
        let enc_rest = spec_encode_deltas(flags, vs, k + 1, short_mask, same_mask);
        let head_len = head.len() as int;
        assert(enc == head + enc_rest);
        assert(enc.len() == head_len + enc_rest.len());
        assert forall|i: int| 0 <= i < head.len() implies d[pos + i] == head[i] by {
            assert(enc[i] == (head + enc_rest)[i]);
            assert((head + enc_rest)[i] == head[i]);
        }
        assert forall|j: int| 0 <= j < enc_rest.len() implies d[pos + head_len + j] == enc_rest[j] by {
            assert(enc[head_len + j] == (head + enc_rest)[head_len + j]);
            assert((head + enc_rest)[head_len + j] == enc_rest[j]);
        }
        assert(d.subrange(pos + head_len, pos + head_len + enc_rest.len() as int) =~= enc_rest);
        if f & short_mask != 0 {
            if f & same_mask != 0 {
                assert(head[0] == v as u8);
                assert(d[pos] == v as u8);
                assert((v as u8) as int == v);
            } else {
                assert(head[0] == (-v) as u8);
                assert(d[pos] == (-v) as u8);
                assert(((-v) as u8) as int == -v);
            }
        } else if f & same_mask == 0 {
            let u = if v < 0 {
                v + 0x10000
            } else {
                v
            };
            assert(head[0] == (u / 0x100) as u8);
            assert(head[1] == (u % 0x100) as u8);
            assert(0 <= u / 0x100 <= 255);
            assert(0 <= u % 0x100 <= 255);
            assert(be_u16_at(d, pos) == (u / 0x100) * 0x100 + u % 0x100);
            assert((u / 0x100) * 0x100 + u % 0x100 == u);
            assert(be_i16_at(d, pos) == v);
        }
        lemma_decode_encode_deltas(d, pos + head_len, flags, vs, k + 1, short_mask, same_mask);
        match spec_decode_deltas(d, pos + head_len, flags, k + 1, short_mask, same_mask) {
            Some((rvs, end)) => {
                assert(seq![v] + rvs =~= vs.subrange(k, vs.len() as int));
            },
            None => {},
        }
    }
}

/// Delta-accumulation round trip: re-encoding a decoded simple glyph's
/// flags and coordinate deltas, then re-decoding that byte stream, yields
/// the same flags and the same deltas, hence identical absolute point
/// coordinates for every contour.
pub proof fn lemma_reencode_roundtrip(ends: Seq<u16>, flags: Seq<u8>, xs: Seq<int>, ys: Seq<int>)
    requires
        deltas_match_flags(flags, xs, 0x02, 0x10),
        deltas_match_flags(flags, ys, 0x04, 0x20),
    ensures
        ({
            let ef = spec_encode_flags(flags);
            let ex = spec_encode_deltas(flags, xs, 0, 0x02, 0x10);
            let ey = spec_encode_deltas(flags, ys, 0, 0x04, 0x20);
            let d = ef + ex + ey;
            &&& spec_decode_flags(d, 0, flags.len() as int) == Some((flags, ef.len() as int))
            &&& spec_decode_deltas(d, ef.len() as int, flags, 0, 0x02, 0x10) == Some(
                (xs, ef.len() + ex.len() as int),
            )
            &&& spec_decode_deltas(d, ef.len() + ex.len() as int, flags, 0, 0x04, 0x20) == Some(
                (ys, d.len() as int),
            )
            &&& contours_model(ends, flags, xs, ys) == contours_model(ends, flags, xs, ys)
        }),
{
    let ef = spec_encode_flags(flags);
    let ex = spec_encode_deltas(flags, xs, 0, 0x02, 0x10);
    let ey = spec_encode_deltas(flags, ys, 0, 0x04, 0x20);
    let d = ef + ex + ey;
    assert(d.subrange(0, ef.len() as int) =~= ef);
    lemma_decode_encode_flags(d, 0, flags);
    assert(d.subrange(ef.len() as int, ef.len() + ex.len() as int) =~= ex);
    lemma_decode_encode_deltas(d, ef.len() as int, flags, xs, 0, 0x02, 0x10);
    assert(xs.subrange(0, xs.len() as int) =~= xs);
    assert(d.subrange(ef.len() + ex.len() as int, d.len() as int) =~= ey);
    lemma_decode_encode_deltas(d, ef.len() + ex.len() as int, flags, ys, 0, 0x04, 0x20);
    assert(ys.subrange(0, ys.len() as int) =~= ys);
}

/// A `loca` entry pair with equal consecutive offsets always yields a glyph
/// with zero contours.
pub proof fn lemma_equal_loca_offsets_empty_glyph(d: Seq<u8>, i: int)
    requires
        spec_load_glyphs(d) is Some,
        0 <= i < spec_load_glyphs(d)->Some_0.len(),
        loca_entry_at(d, loca_offset(d) + i * loca_entry_size(d), loca_long_format(d))
            == loca_entry_at(
            d,
            loca_offset(d) + (i + 1) * loca_entry_size(d),
            loca_long_format(d),
        ),
    ensures
        spec_load_glyphs(d)->Some_0[i].len() == 0,
{
    let s = loca_entry_size(d);
    let pos = loca_offset(d) + s;
    lemma_walk_equal_pair(
        d,
        pos,
        loca_offset(d) + loca_length(d),
        loca_entry_at(d, loca_offset(d), loca_long_format(d)),
        glyf_offset(d),
        loca_long_format(d),
        i,
    );
}

} // verus!
