use rasterbuf::color::Color;
use rasterbuf::framebuffer::FrameBuffer;

const WHITE: u32 = 0xFFFFFF;

fn stored(fb: &FrameBuffer, x: usize, logical_y: usize) -> Color {
    // draw_point flips the vertical axis on the way in; get_color does not,
    // so read back through the flipped storage row.
    fb.get_color(x, fb.img_height - 1 - logical_y)
}

#[test]
fn new_fills_with_white() {
    let fb = FrameBuffer::new(3, 2);
    assert_eq!(fb.img_width, 3);
    assert_eq!(fb.img_height, 2);
    for y in 0..2 {
        for x in 0..3 {
            assert_eq!(fb.get_color(x, y).to_hex(), WHITE);
        }
    }
    assert_eq!(fb.bg_color.to_hex(), WHITE);
    assert_eq!(fb.draw_color.to_hex(), WHITE);
}

#[test]
fn draw_point_flips_vertically() {
    let mut fb = FrameBuffer::new(3, 3);
    fb.set_draw_color(Color::new(255, 0, 0));
    fb.draw_point(1, 0);
    // logical y == 0 lands in storage row img_height - 1.
    assert_eq!(fb.get_color(1, 2), Color::new(255, 0, 0));
    assert_eq!(fb.get_color(1, 0).to_hex(), WHITE);
}

#[test]
fn clear_uses_background_color() {
    let mut fb = FrameBuffer::new(4, 4);
    fb.set_draw_color(Color::new(0, 255, 0));
    fb.draw_point(2, 2);
    fb.set_bg_color(Color::new(0, 0, 255));
    fb.clear();
    for y in 0..4 {
        for x in 0..4 {
            assert_eq!(fb.get_color(x, y), Color::new(0, 0, 255));
        }
    }
}

#[test]
fn clear_twice_equals_clear_once() {
    let mut fb = FrameBuffer::new(5, 3);
    fb.set_bg_color(Color::new(17, 34, 51));
    fb.set_draw_color(Color::new(200, 0, 0));
    fb.draw_point(1, 1);
    fb.clear();
    let once = fb.pixel_data.clone();
    fb.clear();
    assert_eq!(fb.pixel_data, once);
}

#[test]
fn get_bounds_reports_extremes() {
    let fb = FrameBuffer::new(10, 10);
    let verts = vec![[3, 7], [5, 2], [9, 4]];
    let (min_x, max_x, min_y, max_y) = fb.get_bounds(&verts);
    assert_eq!(min_x, 3);
    assert_eq!(max_x, 9);
    assert_eq!(min_y, 2);
    assert_eq!(max_y, 7);
}

#[test]
fn line_contains_both_endpoints() {
    for &(x0, y0, x1, y1) in &[(0, 0, 7, 3), (5, 5, 5, 5), (4, 1, 0, 6), (2, 9, 2, 0)] {
        let pts = FrameBuffer::line_points(x0, y0, x1, y1);
        assert_eq!(pts[0], (x0, y0));
        assert_eq!(pts[pts.len() - 1], (x1, y1));
    }
}

#[test]
fn line_cells_are_eight_connected() {
    for &(x0, y0, x1, y1) in &[
        (0, 0, 10, 0),
        (0, 0, 0, 10),
        (0, 0, 10, 10),
        (0, 0, 10, 3),
        (3, 10, 9, 0),
        (10, 2, 0, 2),
    ] {
        let pts = FrameBuffer::line_points(x0, y0, x1, y1);
        for w in pts.windows(2) {
            let dx = (w[0].0 as i64 - w[1].0 as i64).abs();
            let dy = (w[0].1 as i64 - w[1].1 as i64).abs();
            assert!(dx <= 1 && dy <= 1);
            assert!(dx + dy > 0);
        }
    }
}

#[test]
fn degenerate_line_is_one_point() {
    let pts = FrameBuffer::line_points(3, 4, 3, 4);
    assert_eq!(pts, vec![(3, 4)]);
}

#[test]
fn diagonal_line_exact_cells() {
    let pts = FrameBuffer::line_points(0, 0, 4, 4);
    assert_eq!(pts, vec![(0, 0), (1, 1), (2, 2), (3, 3), (4, 4)]);
}

#[test]
fn draw_line_paints_draw_color() {
    let mut fb = FrameBuffer::new(5, 5);
    fb.set_draw_color(Color::new(255, 0, 0));
    fb.draw_line(0, 0, 4, 4);
    for i in 0..5 {
        assert_eq!(stored(&fb, i, i), Color::new(255, 0, 0));
    }
    assert_eq!(stored(&fb, 0, 1).to_hex(), WHITE);
}

#[test]
fn outline_paints_every_vertex() {
    let mut fb = FrameBuffer::new(12, 12);
    fb.set_draw_color(Color::new(0, 0, 255));
    let verts = vec![[1, 1], [9, 2], [5, 8]];
    fb.draw_polygon(verts.clone());
    for v in &verts {
        assert_eq!(stored(&fb, v[0], v[1]), Color::new(0, 0, 255));
    }
}

#[test]
fn filled_square_covers_spans_inclusive() {
    // Vertices [(0,0),(4,0),(4,4),(0,4)]: rows 0..=3 cross the two vertical
    // edges at x == 0 and x == 4, and each span is filled inclusively, so
    // columns 0..=4 of those rows are painted; row 4 crosses nothing under
    // the half-open rule.
    let mut fb = FrameBuffer::new(8, 8);
    fb.set_draw_color(Color::new(255, 0, 0));
    fb.draw_filled_polygon(vec![[0, 0], [4, 0], [4, 4], [0, 4]]);
    for y in 0..8 {
        for x in 0..8 {
            let expect_red = x <= 4 && y <= 3;
            let got = stored(&fb, x, y);
            if expect_red {
                assert_eq!(got, Color::new(255, 0, 0));
            } else {
                assert_eq!(got.to_hex(), WHITE);
            }
        }
    }
}

#[test]
fn filled_triangle_interior_and_exterior() {
    let mut fb = FrameBuffer::new(10, 10);
    fb.set_draw_color(Color::new(0, 128, 0));
    fb.draw_filled_polygon(vec![[1, 1], [7, 1], [4, 6]]);
    // A point well inside the triangle is painted.
    assert_eq!(stored(&fb, 4, 2), Color::new(0, 128, 0));
    // Points well outside stay untouched.
    assert_eq!(stored(&fb, 9, 9).to_hex(), WHITE);
    assert_eq!(stored(&fb, 0, 8).to_hex(), WHITE);
}

#[test]
fn odd_intersection_count_drops_last() {
    // A degenerate bow-tie shaped list can give an odd crossing count on a
    // row; the unpaired crossing is ignored, not an error.
    let mut fb = FrameBuffer::new(10, 10);
    fb.set_draw_color(Color::new(9, 9, 9));
    fb.draw_filled_polygon(vec![[0, 0], [4, 4], [0, 4], [4, 0]]);
    assert_eq!(fb.img_width, 10);
}

#[test]
fn line_emits_exactly_max_delta_plus_one_cells() {
    for &(x0, y0, x1, y1) in &[
        (0, 0, 7, 3),
        (5, 5, 5, 5),
        (4, 1, 0, 6),
        (2, 9, 2, 0),
        (0, 0, 10, 10),
        (10, 2, 0, 2),
    ] {
        let pts = FrameBuffer::line_points(x0, y0, x1, y1);
        let dx = (x1 as i64 - x0 as i64).abs();
        let dy = (y1 as i64 - y0 as i64).abs();
        assert_eq!(pts.len() as i64, dx.max(dy) + 1);
    }
}

#[test]
fn line_coordinates_move_monotonically() {
    for &(x0, y0, x1, y1) in &[(0, 0, 7, 3), (4, 1, 0, 6), (9, 8, 1, 0), (3, 0, 3, 9)] {
        let pts = FrameBuffer::line_points(x0, y0, x1, y1);
        for w in pts.windows(2) {
            if x0 <= x1 {
                assert!(w[0].0 <= w[1].0);
            } else {
                assert!(w[1].0 <= w[0].0);
            }
            if y0 <= y1 {
                assert!(w[0].1 <= w[1].1);
            } else {
                assert!(w[1].1 <= w[0].1);
            }
        }
    }
}
