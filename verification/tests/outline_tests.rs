use font_outline::glyphs::{Contour, Point};
use font_outline::outline::{calc_contour_vertices, Vertex, VERTEX_SCALE};

fn contour(points: &[(i32, i32, bool)]) -> Contour {
    Contour {
        points: points.iter().map(|&(x, y, _)| Point { x, y }).collect(),
        on_curve: points.iter().map(|&(_, _, on)| on).collect(),
    }
}

#[test]
fn empty_contour_yields_no_vertices() {
    let c = contour(&[]);
    assert_eq!(calc_contour_vertices(&c).len(), 0);
}

#[test]
fn all_on_curve_contour_passes_through_unchanged() {
    let c = contour(&[(0, 0, true), (4, 1, true), (2, 8, true), (-3, 5, true)]);
    let verts = calc_contour_vertices(&c);
    assert_eq!(verts.len(), 4);
    for (v, &(x, y, _)) in verts.iter().zip([(0, 0, true), (4, 1, true), (2, 8, true), (-3, 5, true)].iter()) {
        assert_eq!(v.x, VERTEX_SCALE * x as i64);
        assert_eq!(v.y, VERTEX_SCALE * y as i64);
    }
}

#[test]
fn bracketed_off_curve_point_flattens_to_three_segments() {
    let c = contour(&[(0, 0, true), (3, 6, false), (9, 0, true)]);
    let verts = calc_contour_vertices(&c);
    // the start vertex plus exactly 3 synthesized points
    assert_eq!(verts.len(), 4);
    assert_eq!(verts[0], Vertex { x: 0, y: 0 });
    // quadratic samples at t = 1/3 and 2/3, in eighteenths of a font unit
    assert_eq!(verts[1], Vertex { x: 42, y: 48 });
    assert_eq!(verts[2], Vertex { x: 96, y: 48 });
    // the last synthesized point coincides exactly with the closing bracket
    assert_eq!(verts[3], Vertex { x: 9 * VERTEX_SCALE, y: 0 });
    // within floating-point tolerance too, for a front end scaling by 1/18
    let fx = verts[3].x as f32 / VERTEX_SCALE as f32;
    let fy = verts[3].y as f32 / VERTEX_SCALE as f32;
    assert!((fx - 9.0).abs() < 1e-6 && fy.abs() < 1e-6);
}

#[test]
fn consecutive_off_curve_points_use_the_implied_midpoint() {
    let c = contour(&[(0, 0, true), (2, 4, false), (6, 4, false)]);
    let verts = calc_contour_vertices(&c);
    // start, then one flattened curve ending on the implied midpoint (4, 4)
    assert_eq!(verts.len(), 4);
    assert_eq!(verts[3], Vertex { x: 4 * VERTEX_SCALE, y: 4 * VERTEX_SCALE });
}

#[test]
fn first_point_is_emitted_even_when_off_curve() {
    // the first point is emitted directly, whatever its flag says
    let c = contour(&[(5, 5, false), (7, 7, true)]);
    let verts = calc_contour_vertices(&c);
    assert_eq!(verts[0], Vertex { x: 5 * VERTEX_SCALE, y: 5 * VERTEX_SCALE });
    // point 1 closes a curve started by the off-curve point 0
    assert_eq!(verts.len(), 4);
    assert_eq!(verts[3], Vertex { x: 7 * VERTEX_SCALE, y: 7 * VERTEX_SCALE });
}

#[test]
fn on_curve_point_after_off_curve_closes_the_curve_exactly() {
    let c = contour(&[(0, 0, true), (1, 1, true), (4, 2, false), (8, 0, true), (9, 9, true)]);
    let verts = calc_contour_vertices(&c);
    // 0 and 1 direct, 3 curve samples, then 4 direct
    assert_eq!(verts.len(), 6);
    assert_eq!(verts[1], Vertex { x: 18, y: 18 });
    assert_eq!(verts[4], Vertex { x: 8 * VERTEX_SCALE, y: 0 });
    assert_eq!(verts[5], Vertex { x: 9 * VERTEX_SCALE, y: 9 * VERTEX_SCALE });
}
