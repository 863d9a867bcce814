//! The contour tessellator: flattens one contour's on/off-curve point
//! sequence into an open polyline for vertex upload.
//!
//! On-curve points are literal path vertices; an off-curve point is the
//! control point of an implicit quadratic curve whose start is the last
//! emitted vertex and whose end is the next on-curve point, or the midpoint
//! of two consecutive off-curve points (the implied on-curve point). Each
//! curve is flattened into exactly [`CURVE_SEGMENTS`] uniformly-parameterized
//! line segments using the parametric quadratic form.
//!
//! Vertices are returned in fixed-point font units scaled by
//! [`VERTEX_SCALE`]: the curve samples at t = 1/3, 2/3, 1 and the implied
//! midpoints are then exact integers, so the geometry carries no rounding.
//! The first point of a contour is emitted directly, whatever its on-curve
//! flag says, and the polyline is left open: the caller closes the loop.

use vstd::prelude::*;

use crate::glyphs::{Contour, ContourModel};

verus! {

/// Every returned coordinate is the font-unit value times this scale.
pub const VERTEX_SCALE: i64 = 18;

/// How many line segments each quadratic curve is flattened into.
pub const CURVE_SEGMENTS: i64 = 3;

/// A polyline vertex in fixed-point font units (scaled by [`VERTEX_SCALE`]).
#[derive(Clone, Copy, Debug, PartialEq, Eq, Structural)]
pub struct Vertex {
    pub x: i64,
    pub y: i64,
}

/// The quadratic Bezier point at parameter t = j/3, over scaled
/// coordinates: the standard form t*t*(p0 - 2*p1 + p2) + 2*t*(p1 - p0) + p0
/// with t = j/3, so scaled by 9/9.
pub open spec fn bez_point(p0: (int, int), p1: (int, int), p2: (int, int), j: int) -> (int, int) {
    (
        (j * j * (p0.0 - 2 * p1.0 + p2.0) + 6 * j * (p1.0 - p0.0) + 9 * p0.0) / 9,
        (j * j * (p0.1 - 2 * p1.1 + p2.1) + 6 * j * (p1.1 - p0.1) + 9 * p0.1) / 9,
    )
}

/// The point of contour `c` at index `i`, scaled by [`VERTEX_SCALE`].
pub open spec fn scaled_point(c: ContourModel, i: int) -> (int, int) {
    (18 * c[i].0, 18 * c[i].1)
}

/// The vertices the walk emits from point `i` on, with `last` the vertex
/// emitted most recently: an on-curve point after an on-curve point is
/// emitted directly; an off-curve point only starts a curve; a point after
/// an off-curve control point closes a quadratic curve (its end the current
/// point, or the midpoint of the two off-curve points) flattened into three
/// uniformly-spaced samples.
pub open spec fn spec_tess_from(c: ContourModel, i: int, last: (int, int)) -> Seq<(int, int)>
    decreases c.len() - i,
{
    if i < 1 || i >= c.len() {
        Seq::empty()
    } else {
        let cur = scaled_point(c, i);
        let prev_on = c[i - 1].2;
        let on = c[i].2;
        if prev_on {
            if on {
                seq![cur] + spec_tess_from(c, i + 1, cur)
            } else {
                spec_tess_from(c, i + 1, last)
            }
        } else {
            let p1 = scaled_point(c, i - 1);
            let p2 = if on {
                cur
            } else {
                ((p1.0 + cur.0) / 2, (p1.1 + cur.1) / 2)
            };
            let v1 = bez_point(last, p1, p2, 1);
            let v2 = bez_point(last, p1, p2, 2);
            let v3 = bez_point(last, p1, p2, 3);
            seq![v1, v2, v3] + spec_tess_from(c, i + 1, v3)
        }
    }
}

/// The whole polyline of a contour: its first point, scaled, emitted
/// unconditionally (whatever its on-curve flag says), then the walk over
/// the remaining points.
pub open spec fn spec_contour_vertices(c: ContourModel) -> Seq<(int, int)> {
    if c.len() == 0 {
        Seq::empty()
    } else {
        seq![scaled_point(c, 0)] + spec_tess_from(c, 1, scaled_point(c, 0))
    }
}

/// On an all-on-curve contour the walk emits every point directly.
proof fn lemma_tess_from_all_on(c: ContourModel, i: int, last: (int, int))
    requires
        1 <= i,
        forall|k: int| 0 <= k < c.len() ==> (#[trigger] c[k]).2,
    ensures
        spec_tess_from(c, i, last) == Seq::new(
            (if c.len() - i > 0 {
                c.len() - i
            } else {
                0
            }) as nat,
            |k: int| scaled_point(c, i + k),
        ),
    decreases c.len() - i,
{
    if i < c.len() {
        lemma_tess_from_all_on(c, i + 1, scaled_point(c, i));
        assert(seq![scaled_point(c, i)] + spec_tess_from(c, i + 1, scaled_point(c, i)) =~= Seq::new(
            (c.len() - i) as nat,
            |k: int| scaled_point(c, i + k),
        ));
    } else {
        assert(spec_tess_from(c, i, last) =~= Seq::new(0nat, |k: int| scaled_point(c, i + k)));
    }
}

/// The tessellator on an all-on-curve contour returns the input points
/// unchanged (scaled by [`VERTEX_SCALE`]): no flattening occurs.
pub proof fn lemma_all_on_curve_identity(c: ContourModel)
    requires
        forall|k: int| 0 <= k < c.len() ==> (#[trigger] c[k]).2,
    ensures
        spec_contour_vertices(c).len() == c.len(),
        forall|k: int|
            0 <= k < c.len() ==> spec_contour_vertices(c)[k] == scaled_point(c, k),
{
    if c.len() > 0 {
        lemma_tess_from_all_on(c, 1, scaled_point(c, 0));
    }
}

/// A single off-curve point bracketed by two on-curve points tessellates to
/// the start vertex plus exactly three synthesized points, whose last
/// coincides exactly with the closing on-curve point: in this fixed-point
/// arithmetic the flattened quadratic ends on its bracket, with no
/// tolerance needed.
pub proof fn lemma_bracketed_off_curve(c: ContourModel)
    requires
        c.len() == 3,
        c[0].2,
        !c[1].2,
        c[2].2,
    ensures
        ({
            let r = spec_contour_vertices(c);
            let last = scaled_point(c, 0);
            let p1 = scaled_point(c, 1);
            let p2 = scaled_point(c, 2);
            &&& r.len() == 4
            &&& r[0] == scaled_point(c, 0)
            &&& r[1] == bez_point(last, p1, p2, 1)
            &&& r[2] == bez_point(last, p1, p2, 2)
            &&& r[3] == scaled_point(c, 2)
        }),
{
    let last = scaled_point(c, 0);
    let p1 = scaled_point(c, 1);
    let p2 = scaled_point(c, 2);
    let nx = 3 * 3 * (last.0 - 2 * p1.0 + p2.0) + 6 * 3 * (p1.0 - last.0) + 9 * last.0;
    let ny = 3 * 3 * (last.1 - 2 * p1.1 + p2.1) + 6 * 3 * (p1.1 - last.1) + 9 * last.1;
    assert(nx == 9 * p2.0 && ny == 9 * p2.1) by (nonlinear_arith)
        requires
            nx == 3 * 3 * (last.0 - 2 * p1.0 + p2.0) + 6 * 3 * (p1.0 - last.0) + 9 * last.0,
            ny == 3 * 3 * (last.1 - 2 * p1.1 + p2.1) + 6 * 3 * (p1.1 - last.1) + 9 * last.1,
    ;
    vstd::arithmetic::div_mod::lemma_div_multiples_vanish(p2.0, 9);
    vstd::arithmetic::div_mod::lemma_div_multiples_vanish(p2.1, 9);
    assert(bez_point(last, p1, p2, 3) == p2);
    reveal_with_fuel(spec_tess_from, 4);
    assert(spec_contour_vertices(c) =~= seq![last] + (seq![
        bez_point(last, p1, p2, 1),
        bez_point(last, p1, p2, 2),
        bez_point(last, p1, p2, 3),
    ] + Seq::<(int, int)>::empty()));
}

/// One flattened curve sample, computed over ninth-scale values (each scaled
/// coordinate divided by 9, which the divisibility of every curve endpoint
/// makes exact): the division of the parametric form then vanishes.
fn bez_vertex(ax: i64, ay: i64, bx: i64, by: i64, cx: i64, cy: i64, j: i64) -> (r: Vertex)
    requires
        1 <= j <= 3,
        -0x1_0000_0000 <= ax <= 0x1_0000_0000,
        -0x1_0000_0000 <= ay <= 0x1_0000_0000,
        -0x1_0000_0000 <= bx <= 0x1_0000_0000,
        -0x1_0000_0000 <= by <= 0x1_0000_0000,
        -0x1_0000_0000 <= cx <= 0x1_0000_0000,
        -0x1_0000_0000 <= cy <= 0x1_0000_0000,
    ensures
        (r.x as int, r.y as int) == bez_point(
            (9 * ax, 9 * ay),
            (9 * bx, 9 * by),
            (9 * cx, 9 * cy),
            j as int,
        ),
{
    let dx = ax - 2 * bx + cx;
    let ex = bx - ax;
    let dy = ay - 2 * by + cy;
    let ey = by - ay;
    proof {
        assert(1 <= j * j <= 9 && -0x100_0000_0000 <= j * j * (dx as int) <= 0x100_0000_0000
            && -0x40_0000_0000 <= 6 * j * (ex as int) <= 0x40_0000_0000 && -0x100_0000_0000 <= j
            * j * (dy as int) <= 0x100_0000_0000 && -0x40_0000_0000 <= 6 * j * (ey as int)
            <= 0x40_0000_0000) by (nonlinear_arith)
            requires
                1 <= j <= 3,
                -0x4_0000_0000 <= dx <= 0x4_0000_0000,
                -0x2_0000_0000 <= ex <= 0x2_0000_0000,
                -0x4_0000_0000 <= dy <= 0x4_0000_0000,
                -0x2_0000_0000 <= ey <= 0x2_0000_0000,
        ;
    }
    let rx = j * j * dx + 6 * j * ex + 9 * ax;
    let ry = j * j * dy + 6 * j * ey + 9 * ay;
    proof {
        let num_x = (j * j * ((9 * ax) - 2 * (9 * bx) + (9 * cx)) + 6 * j * ((9 * bx) - (9 * ax))
            + 9 * (9 * ax)) as int;
        assert(num_x == 9 * (rx as int)) by (nonlinear_arith)
            requires
                num_x == (j * j * ((9 * ax) - 2 * (9 * bx) + (9 * cx)) + 6 * j * ((9 * bx) - (9
                    * ax)) + 9 * (9 * ax)) as int,
                rx as int == j * j * (dx as int) + 6 * j * (ex as int) + 9 * ax,
                dx as int == ax - 2 * bx + cx,
                ex as int == bx - ax,
        ;
        vstd::arithmetic::div_mod::lemma_div_multiples_vanish(rx as int, 9);
        let num_y = (j * j * ((9 * ay) - 2 * (9 * by) + (9 * cy)) + 6 * j * ((9 * by) - (9 * ay))
            + 9 * (9 * ay)) as int;
        assert(num_y == 9 * (ry as int)) by (nonlinear_arith)
            requires
                num_y == (j * j * ((9 * ay) - 2 * (9 * by) + (9 * cy)) + 6 * j * ((9 * by) - (9
                    * ay)) + 9 * (9 * ay)) as int,
                ry as int == j * j * (dy as int) + 6 * j * (ey as int) + 9 * ay,
                dy as int == ay - 2 * by + cy,
                ey as int == by - ay,
        ;
        vstd::arithmetic::div_mod::lemma_div_multiples_vanish(ry as int, 9);
    }
    Vertex { x: rx, y: ry }
}

/// Flatten one contour into an open polyline of fixed-point vertices, per
/// the walk of [`spec_tess_from`]. The caller closes the loop when it
/// builds index geometry.
pub fn calc_contour_vertices(contour: &Contour) -> (r: Vec<Vertex>)
    requires
        contour.wf(),
    ensures
        r@.map_values(|v: Vertex| (v.x as int, v.y as int)) == spec_contour_vertices(
            contour.model(),
        ),
{
    let ghost cm = contour.model();
    let mut vertices: Vec<Vertex> = Vec::new();
    let n = contour.points.len();
    if n == 0 {
        proof {
            assert(vertices@.map_values(|v: Vertex| (v.x as int, v.y as int))
                =~= spec_contour_vertices(cm));
        }
        return vertices;
    }

    let p0 = contour.points[0];
    vertices.push(Vertex { x: 18 * (p0.x as i64), y: 18 * (p0.y as i64) });
    // the walk carries the last emitted vertex at ninth scale: twice the
    // font-unit value, so curve starts stay exact integers
    let mut last9x: i64 = 2 * (p0.x as i64);
    let mut last9y: i64 = 2 * (p0.y as i64);

    proof {
        assert(vertices@.map_values(|v: Vertex| (v.x as int, v.y as int)) =~= seq![
            scaled_point(cm, 0),
        ]);
    }

    for i in 1..n
        invariant
            contour.wf(),
            cm == contour.model(),
            n == contour.points@.len(),
            -0x1_0000_0000 <= last9x <= 0x1_0000_0000,
            -0x1_0000_0000 <= last9y <= 0x1_0000_0000,
            vertices@.map_values(|v: Vertex| (v.x as int, v.y as int)) + spec_tess_from(
                cm,
                i as int,
                (9 * last9x as int, 9 * last9y as int),
            ) == spec_contour_vertices(cm),
    {
        let ghost verts0 = vertices@;
        let ghost last = (9 * last9x as int, 9 * last9y as int);
        let cur = contour.points[i];
        let prev_on = contour.on_curve[i - 1];
        let on = contour.on_curve[i];

        if prev_on {
            if on {
                vertices.push(Vertex { x: 18 * (cur.x as i64), y: 18 * (cur.y as i64) });
                last9x = 2 * (cur.x as i64);
                last9y = 2 * (cur.y as i64);
                proof {
                    let f = |v: Vertex| (v.x as int, v.y as int);
                    assert(vertices@.map_values(f) =~= verts0.map_values(f) + seq![
                        scaled_point(cm, i as int),
                    ]);
                    assert(verts0.map_values(f) + (seq![scaled_point(cm, i as int)]
                        + spec_tess_from(cm, i + 1, scaled_point(cm, i as int))) =~= vertices@
                        .map_values(f) + spec_tess_from(cm, i + 1, scaled_point(cm, i as int)));
                }
            }
            // an off-curve point only starts a curve; nothing is emitted yet
        } else {
            let prev = contour.points[i - 1];
            let bx: i64 = 2 * (prev.x as i64);
            let by: i64 = 2 * (prev.y as i64);
            let cx: i64;
            let cy: i64;
            if on {
                cx = 2 * (cur.x as i64);
                cy = 2 * (cur.y as i64);
            } else {
                cx = prev.x as i64 + cur.x as i64;
                cy = prev.y as i64 + cur.y as i64;
            }
            let v1 = bez_vertex(last9x, last9y, bx, by, cx, cy, 1);
            let v2 = bez_vertex(last9x, last9y, bx, by, cx, cy, 2);
            let v3 = bez_vertex(last9x, last9y, bx, by, cx, cy, 3);
            vertices.push(v1);
            vertices.push(v2);
            vertices.push(v3);
            proof {
                let p1 = scaled_point(cm, i - 1);
                let p2 = if cm[i as int].2 {
                    scaled_point(cm, i as int)
                } else {
                    ((p1.0 + scaled_point(cm, i as int).0) / 2, (p1.1 + scaled_point(
                        cm,
                        i as int,
                    ).1) / 2)
                };
                assert(9 * (bx as int) == p1.0);
                assert(9 * (by as int) == p1.1);
                if cm[i as int].2 {
                    assert(9 * (cx as int) == p2.0);
                    assert(9 * (cy as int) == p2.1);
                } else {
                    vstd::arithmetic::div_mod::lemma_div_multiples_vanish(cx as int, 2);
                    vstd::arithmetic::div_mod::lemma_div_multiples_vanish(cy as int, 2);
                    assert(p1.0 + scaled_point(cm, i as int).0 == 2 * (9 * (cx as int)));
                    assert(p1.1 + scaled_point(cm, i as int).1 == 2 * (9 * (cy as int)));
                    assert(9 * (cx as int) == p2.0);
                    assert(9 * (cy as int) == p2.1);
                }
                assert((v3.x as int, v3.y as int) == bez_point(last, p1, p2, 3));
                assert(9 * (9 * (cx as int)) / 9 == 9 * (cx as int)) by {
                    vstd::arithmetic::div_mod::lemma_div_multiples_vanish(9 * (cx as int), 9);
                }
                assert(9 * (9 * (cy as int)) / 9 == 9 * (cy as int)) by {
                    vstd::arithmetic::div_mod::lemma_div_multiples_vanish(9 * (cy as int), 9);
                }
                assert(v3.x as int == p2.0);
                assert(v3.y as int == p2.1);
                let f = |v: Vertex| (v.x as int, v.y as int);
                assert(vertices@.map_values(f) =~= verts0.map_values(f) + seq![
                    (v1.x as int, v1.y as int),
                    (v2.x as int, v2.y as int),
                    (v3.x as int, v3.y as int),
                ]);
                assert(verts0.map_values(f) + (seq![
                    bez_point(last, p1, p2, 1),
                    bez_point(last, p1, p2, 2),
                    bez_point(last, p1, p2, 3),
                ] + spec_tess_from(cm, i + 1, bez_point(last, p1, p2, 3))) =~= vertices@
                    .map_values(f) + spec_tess_from(cm, i + 1, bez_point(last, p1, p2, 3)));
            }
            last9x = cx;
            last9y = cy;
        }
    }
    proof {
        assert(vertices@.map_values(|v: Vertex| (v.x as int, v.y as int)) + Seq::<(
            int,
            int,
        )>::empty() =~= vertices@.map_values(|v: Vertex| (v.x as int, v.y as int)));
    }
    vertices
}


} // verus!
