use vstd::prelude::*;
use vstd::pervasive::VecAdditionalExecFns;
use vstd::relations::sorted_by;
use vstd::relations::total_ordering;
use vstd::arithmetic::div_mod::lemma_div_is_ordered;
use vstd::arithmetic::div_mod::lemma_div_by_multiple;
use vstd::arithmetic::div_mod::lemma_div_pos_is_pos;
use vstd::arithmetic::mul::lemma_mul_inequality;
use vstd::seq_lib::lemma_sorted_unique;

use crate::bitmap::bmp_file;
use crate::bitmap::bmp_file_bytes;
use crate::color::Color;

verus! {

/// Largest canvas dimension the drawing routines accept; it keeps every
/// intermediate product and error term well inside the machine integer types.
pub const MAX_DIM: usize = 0x10000000;

/// A dense, row-major grid of colors together with the current background
/// and draw colors.
pub struct FrameBuffer {
    pub img_width: usize,
    pub img_height: usize,
    pub pixel_data: Vec<Color>,
    pub bg_color: Color,
    pub draw_color: Color,
}

/// Bounds for a grid cell: row-major index y * w + x stays below h * w.
proof fn lemma_grid_index(w: int, h: int, x: int, y: int)
    by (nonlinear_arith)
    requires
        0 <= x < w,
        0 <= y < h,
    ensures
        0 <= y * w + x < h * w,
        y * w + x < w * h,
        0 <= w * y + x < h * w,
        w * y + x < w * h,
{
}

/// Distinct cells have distinct row-major indices.
proof fn lemma_grid_index_inj(w: int, x1: int, y1: int, x2: int, y2: int)
    by (nonlinear_arith)
    requires
        0 <= x1 < w,
        0 <= x2 < w,
        y1 * w + x1 == y2 * w + x2,
    ensures
        x1 == x2 && y1 == y2,
{
}

impl FrameBuffer {
    /// A frame buffer is well formed when it has a positive size and holds
    /// exactly one color per cell.
    pub open spec fn wf(self) -> bool {
        &&& 1 <= self.img_width
        &&& 1 <= self.img_height
        &&& self.img_width * self.img_height <= usize::MAX
        &&& self.pixel_data@.len() == self.img_width * self.img_height
    }

    /// Row-major storage index of the logical point (x, y). Writes flip the
    /// vertical axis, so that y == 0 addresses the bottom row of the storage.
    pub open spec fn flip_index(self, x: int, y: int) -> int {
        (self.img_height - 1 - y) * self.img_width + x
    }

    /// What `clear` does: every cell takes the background color and the rest
    /// of the state is untouched.
    pub open spec fn clear_post(pre: FrameBuffer, post: FrameBuffer) -> bool {
        &&& post.img_width == pre.img_width
        &&& post.img_height == pre.img_height
        &&& post.bg_color == pre.bg_color
        &&& post.draw_color == pre.draw_color
        &&& post.pixel_data@.len() == pre.pixel_data@.len()
        &&& forall|i: int|
            0 <= i < post.pixel_data@.len() ==> post.pixel_data@[i] == pre.bg_color
    }

    pub fn new(img_width: usize, img_height: usize) -> (r: FrameBuffer)
        requires
            1 <= img_width,
            1 <= img_height,
            img_width * img_height <= usize::MAX,
        ensures
            r.wf(),
            r.img_width == img_width,
            r.img_height == img_height,
            r.bg_color == (Color { red: 255, green: 255, blue: 255 }),
            r.draw_color == (Color { red: 255, green: 255, blue: 255 }),
            forall|i: int|
                0 <= i < r.pixel_data@.len()
                    ==> r.pixel_data@[i] == (Color { red: 255, green: 255, blue: 255 }),
    {
        let default_color = Color::new(255, 255, 255);
        assert(default_color == (Color { red: 255, green: 255, blue: 255 }));
        let n = img_width * img_height;
        let mut pixel_data: Vec<Color> = Vec::new();
        let mut i: usize = 0;
        while i < n
            invariant
                i <= n,
                pixel_data@.len() == i,
                default_color == (Color { red: 255, green: 255, blue: 255 }),
                forall|k: int|
                    0 <= k < i ==> pixel_data@[k] == (Color { red: 255, green: 255, blue: 255 }),
            decreases n - i,
        {
            pixel_data.push(default_color);
            i = i + 1;
        }
        FrameBuffer { img_width, img_height, pixel_data, bg_color: default_color, draw_color: default_color }
    }

    /// Resets every cell to the current background color.
    pub fn clear(&mut self)
        ensures
            Self::clear_post(*old(self), *final(self)),
    {
        let n = self.pixel_data.len();
        let mut i: usize = 0;
        while i < n
            invariant
                i <= n,
                n == self.pixel_data@.len(),
                self.img_width == old(self).img_width,
                self.img_height == old(self).img_height,
                self.bg_color == old(self).bg_color,
                self.draw_color == old(self).draw_color,
                self.pixel_data@.len() == old(self).pixel_data@.len(),
                forall|k: int| 0 <= k < i ==> self.pixel_data@[k] == self.bg_color,
            decreases n - i,
        {
            let c = self.bg_color;
            self.pixel_data.set(i, c);
            i = i + 1;
        }
    }

    /// Writes the current draw color at the logical point (x, y); the
    /// vertical axis is flipped on the way into storage.
    pub fn draw_point(&mut self, x: usize, y: usize)
        requires
            old(self).wf(),
            x < old(self).img_width,
            y < old(self).img_height,
        ensures
            final(self).wf(),
            final(self).img_width == old(self).img_width,
            final(self).img_height == old(self).img_height,
            final(self).bg_color == old(self).bg_color,
            final(self).draw_color == old(self).draw_color,
            final(self).pixel_data@ == old(self).pixel_data@.update(
                old(self).flip_index(x as int, y as int),
                old(self).draw_color,
            ),
    {
        let adjusted_y = self.img_height - 1 - y;
        proof {
            lemma_grid_index(
                self.img_width as int,
                self.img_height as int,
                x as int,
                adjusted_y as int,
            );
        }
        let idx = self.img_width * adjusted_y + x;
        let c = self.draw_color;
        self.pixel_data.set(idx, c);
    }

    pub fn set_bg_color(&mut self, color: Color)
        ensures
            *final(self) == (FrameBuffer { bg_color: color, ..*old(self) }),
    {
        self.bg_color = color;
    }

    /// Reads the cell stored at row y, column x; unlike `draw_point` this
    /// addresses the raw storage row, without the vertical flip.
    pub fn get_color(&self, x: usize, y: usize) -> (r: Color)
        requires
            self.wf(),
            x < self.img_width,
            y < self.img_height,
        ensures
            r == self.pixel_data@[y as int * self.img_width + x as int],
    {
        proof {
            lemma_grid_index(
                self.img_width as int,
                self.img_height as int,
                x as int,
                y as int,
            );
        }
        self.pixel_data[self.img_width * y + x]
    }

    pub fn set_draw_color(&mut self, color: Color)
        ensures
            *final(self) == (FrameBuffer { draw_color: color, ..*old(self) }),
    {
        self.draw_color = color;
    }

    /// The least and greatest coordinates among the vertices, as
    /// (min x, max x, min y, max y).
    pub fn get_bounds(&self, vertices: &Vec<[usize; 2]>) -> (r: (usize, usize, usize, usize))
        requires
            vertices@.len() >= 1,
        ensures
            forall|i: int|
                0 <= i < vertices@.len()
                    ==> r.0 <= #[trigger] vertices@[i][0] && vertices@[i][0] <= r.1
                        && r.2 <= vertices@[i][1] && vertices@[i][1] <= r.3,
            exists|i: int| 0 <= i < vertices@.len() && r.0 == #[trigger] vertices@[i][0],
            exists|i: int| 0 <= i < vertices@.len() && r.1 == #[trigger] vertices@[i][0],
            exists|i: int| 0 <= i < vertices@.len() && r.2 == #[trigger] vertices@[i][1],
            exists|i: int| 0 <= i < vertices@.len() && r.3 == #[trigger] vertices@[i][1],
    {
        let mut min_x = vertices[0][0];
        let mut max_x = vertices[0][0];
        let mut min_y = vertices[0][1];
        let mut max_y = vertices[0][1];
        let mut i: usize = 1;
        while i < vertices.len()
            invariant
                1 <= i <= vertices@.len(),
                forall|k: int|
                    0 <= k < i
                        ==> min_x <= #[trigger] vertices@[k][0] && vertices@[k][0] <= max_x
                            && min_y <= vertices@[k][1] && vertices@[k][1] <= max_y,
                exists|k: int| 0 <= k < i && min_x == #[trigger] vertices@[k][0],
                exists|k: int| 0 <= k < i && max_x == #[trigger] vertices@[k][0],
                exists|k: int| 0 <= k < i && min_y == #[trigger] vertices@[k][1],
                exists|k: int| 0 <= k < i && max_y == #[trigger] vertices@[k][1],
            decreases vertices@.len() - i,
        {
            let vx = vertices[i][0];
            let vy = vertices[i][1];
            proof {
                assert(vx == vertices@[i as int][0]);
                assert(vy == vertices@[i as int][1]);
            }
            if vx < min_x {
                min_x = vx;
            }
            if vx > max_x {
                max_x = vx;
            }
            if vy < min_y {
                min_y = vy;
            }
            if vy > max_y {
                max_y = vy;
            }
            i = i + 1;
        }
        (min_x, max_x, min_y, max_y)
    }
}

/// Clearing is idempotent: a second `clear` leaves exactly the state that the
/// first one produced.
pub proof fn lemma_clear_idempotent(a: FrameBuffer, b: FrameBuffer, c: FrameBuffer)
    requires
        FrameBuffer::clear_post(a, b),
        FrameBuffer::clear_post(b, c),
    ensures
        c.img_width == b.img_width,
        c.img_height == b.img_height,
        c.bg_color == b.bg_color,
        c.draw_color == b.draw_color,
        c.pixel_data@ =~= b.pixel_data@,
{
}


/// The magnitude of the difference of two coordinates.
pub open spec fn dist(a: usize, b: usize) -> int {
    if a <= b {
        b - a
    } else {
        a - b
    }
}

/// Two cells no more than one step apart on each axis.
pub open spec fn adjacent(a: (usize, usize), b: (usize, usize)) -> bool {
    &&& -1 <= a.0 - b.0 <= 1
    &&& -1 <= a.1 - b.1 <= 1
}

/// The cell lies in the bounding box of the two endpoints.
pub open spec fn in_box(c: (usize, usize), x0: usize, y0: usize, x1: usize, y1: usize) -> bool {
    &&& if x0 <= x1 {
        x0 <= c.0 <= x1
    } else {
        x1 <= c.0 <= x0
    }
    &&& if y0 <= y1 {
        y0 <= c.1 <= y1
    } else {
        y1 <= c.1 <= y0
    }
}

/// One step moves each coordinate toward the second endpoint or leaves it
/// in place.
pub open spec fn monotone_step(
    a: (usize, usize),
    b: (usize, usize),
    x0: usize,
    y0: usize,
    x1: usize,
    y1: usize,
) -> bool {
    &&& if x0 <= x1 {
        a.0 <= b.0
    } else {
        b.0 <= a.0
    }
    &&& if y0 <= y1 {
        a.1 <= b.1
    } else {
        b.1 <= a.1
    }
}

/// The rasterized line from (x0, y0) to (x1, y1): exactly
/// max(|x1-x0|, |y1-y0|) + 1 cells that start at the first endpoint, end at
/// the second, move by single 8-connected steps, each step monotone toward
/// the second endpoint on both axes, never leaving the endpoints' bounding
/// box.
pub open spec fn is_line_path(
    cells: Seq<(usize, usize)>,
    x0: usize,
    y0: usize,
    x1: usize,
    y1: usize,
) -> bool {
    &&& cells.len() == 1 + (if dist(x0, x1) >= dist(y0, y1) {
        dist(x0, x1)
    } else {
        dist(y0, y1)
    })
    &&& cells[0] == (x0, y0)
    &&& cells[cells.len() - 1] == (x1, y1)
    &&& forall|i: int|
        0 <= i < cells.len() - 1 ==> adjacent(#[trigger] cells[i], cells[i + 1]) && cells[i]
            != cells[i + 1]
    &&& forall|i: int|
        0 <= i < cells.len() - 1 ==> monotone_step(#[trigger] cells[i], cells[i + 1], x0, y0, x1, y1)
    &&& forall|i: int| 0 <= i < cells.len() ==> in_box(#[trigger] cells[i], x0, y0, x1, y1)
}

/// The pixels after stamping `col` on every cell of `cells`, each cell taken
/// through the vertical flip into row-major storage.
pub open spec fn painted(
    pre: Seq<Color>,
    cells: Seq<(usize, usize)>,
    w: int,
    h: int,
    col: Color,
) -> Seq<Color> {
    Seq::new(
        pre.len(),
        |k: int|
            if exists|i: int|
                0 <= i < cells.len() && (h - 1 - (#[trigger] cells[i]).1) * w + cells[i].0 == k {
                col
            } else {
                pre[k]
            },
    )
}

/// The index of the vertex that follows vertex i on the closed loop.
pub open spec fn next_vertex(n: int, i: int) -> int {
    if i == n - 1 {
        0int
    } else {
        i + 1
    }
}

/// The pixels after stamping `col` along each cell path in turn, first path
/// first.
pub open spec fn painted_all(
    pre: Seq<Color>,
    paths: Seq<Seq<(usize, usize)>>,
    w: int,
    h: int,
    col: Color,
) -> Seq<Color>
    decreases paths.len(),
{
    if paths.len() == 0 {
        pre
    } else {
        painted(painted_all(pre, paths.drop_last(), w, h, col), paths.last(), w, h, col)
    }
}

/// Each entry of `paths` is a rasterized line along the matching polygon
/// edge, the closing edge from the last vertex back to the first included.
pub open spec fn are_edge_paths(paths: Seq<Seq<(usize, usize)>>, vs: Seq<[usize; 2]>) -> bool {
    &&& paths.len() == vs.len()
    &&& forall|i: int|
        0 <= i < paths.len() ==> is_line_path(
            #[trigger] paths[i],
            vs[i][0],
            vs[i][1],
            vs[next_vertex(vs.len() as int, i)][0],
            vs[next_vertex(vs.len() as int, i)][1],
        )
}

impl FrameBuffer {
    /// Every integer grid cell of the line from (x0, y0) to (x1, y1), in
    /// order, computed with integer error accumulation and no division.
    #[verifier::loop_isolation(false)]
    #[verifier::rlimit(100)]
    pub fn line_points(x0: usize, y0: usize, x1: usize, y1: usize) -> (r: Vec<(usize, usize)>)
        requires
            x0 <= MAX_DIM,
            y0 <= MAX_DIM,
            x1 <= MAX_DIM,
            y1 <= MAX_DIM,
        ensures
            is_line_path(r@, x0, y0, x1, y1),
    {
        let dx = if x1 >= x0 {
            x1 - x0
        } else {
            x0 - x1
        };
        let dy_mag = if y1 >= y0 {
            y1 - y0
        } else {
            y0 - y1
        };
        let x_pos = x0 < x1;
        let y_pos = y0 < y1;
        let mut err: isize = dx as isize - dy_mag as isize;
        let mut cx = x0;
        let mut cy = y0;
        let mut pts: Vec<(usize, usize)> = Vec::new();
        pts.push((cx, cy));
        proof {
            assert(dist(x0, cx) == 0 && dist(y0, cy) == 0);
            assert((0 + 1) * (dx as int) - (0 + 1) * (dy_mag as int) == dx as int
                - dy_mag as int) by (nonlinear_arith);
        }
        while !(cx == x1 && cy == y1)
            invariant
                if x0 <= x1 {
                    x0 <= cx <= x1
                } else {
                    x1 <= cx <= x0
                },
                if y0 <= y1 {
                    y0 <= cy <= y1
                } else {
                    y1 <= cy <= y0
                },
                err as int == (dist(y0, cy) + 1) * (dx as int) - (dist(x0, cx) + 1) * (
                dy_mag as int),
                -2 * (dy_mag as int) <= err as int <= 2 * (dx as int),
                dx >= dy_mag ==> 2 * (err as int) >= -(dy_mag as int),
                dx < dy_mag ==> 2 * (err as int) <= dx as int,
                pts@.len() == 1 + (if dx >= dy_mag {
                    dist(x0, cx)
                } else {
                    dist(y0, cy)
                }),
                pts@[0] == (x0, y0),
                pts@[pts@.len() - 1] == (cx, cy),
                forall|i: int|
                    0 <= i < pts@.len() - 1 ==> adjacent(#[trigger] pts@[i], pts@[i + 1])
                        && pts@[i] != pts@[i + 1],
                forall|i: int|
                    0 <= i < pts@.len() - 1 ==> monotone_step(
                        #[trigger] pts@[i],
                        pts@[i + 1],
                        x0,
                        y0,
                        x1,
                        y1,
                    ),
                forall|i: int| 0 <= i < pts@.len() ==> in_box(#[trigger] pts@[i], x0, y0, x1, y1),
            decreases dist(cx, x1) + dist(cy, y1),
        {
            let ghost pcx = cx;
            let ghost pcy = cy;
            let ghost ii = dist(x0, cx);
            let ghost jj = dist(y0, cy);
            let ghost uu = dist(cx, x1);
            let ghost vv = dist(cy, y1);
            proof {
                assert(ii + uu == dx);
                assert(jj + vv == dy_mag);
                assert(uu > 0 || vv > 0);
            }
            let e2: isize = 2 * err;
            if e2 >= -(dy_mag as isize) {
                proof {
                    if uu == 0 {
                        assert(2 * ((jj + 1) * (dx as int) - (dx as int + 1) * (dy_mag as int))
                            < -(dy_mag as int)) by (nonlinear_arith)
                            requires
                                0 <= jj,
                                jj + 1 <= dy_mag as int,
                                0 <= dx as int,
                        ;
                        assert(false);
                    }
                }
                err = err - (dy_mag as isize);
                if x_pos {
                    cx = cx + 1;
                } else {
                    cx = cx - 1;
                }
                proof {
                    assert((ii + 2) * (dy_mag as int) == (ii + 1) * (dy_mag as int) + (
                    dy_mag as int)) by (nonlinear_arith);
                    assert(dist(x0, cx) == ii + 1);
                }
            }
            if e2 <= dx as isize {
                proof {
                    if vv == 0 {
                        assert(2 * ((dy_mag as int + 1) * (dx as int) - (ii + 1) * (dy_mag as int))
                            > dx as int) by (nonlinear_arith)
                            requires
                                0 <= ii,
                                ii + 1 <= dx as int,
                                0 <= dy_mag as int,
                        ;
                        assert(false);
                    }
                }
                err = err + (dx as isize);
                if y_pos {
                    cy = cy + 1;
                } else {
                    cy = cy - 1;
                }
                proof {
                    assert((jj + 2) * (dx as int) == (jj + 1) * (dx as int) + (dx as int))
                        by (nonlinear_arith);
                    assert(dist(y0, cy) == jj + 1);
                }
            }
            proof {
                assert(cx != pcx || cy != pcy);
                assert(adjacent((pcx, pcy), (cx, cy)));
                assert(monotone_step((pcx, pcy), (cx, cy), x0, y0, x1, y1));
                if dx >= dy_mag {
                    assert(dist(x0, cx) == ii + 1);
                } else {
                    assert(dist(y0, cy) == jj + 1);
                }
            }
            pts.push((cx, cy));
        }
        pts
    }

    /// Draws the line between the two logical points in the current draw
    /// color. Exactly the cells of one rasterized line path between the
    /// endpoints change, and they all take the draw color.
    #[verifier::loop_isolation(false)]
    pub fn draw_line(&mut self, x0: usize, y0: usize, x1: usize, y1: usize)
        requires
            old(self).wf(),
            old(self).img_width <= MAX_DIM,
            old(self).img_height <= MAX_DIM,
            x0 < old(self).img_width,
            x1 < old(self).img_width,
            y0 < old(self).img_height,
            y1 < old(self).img_height,
        ensures
            final(self).wf(),
            final(self).img_width == old(self).img_width,
            final(self).img_height == old(self).img_height,
            final(self).bg_color == old(self).bg_color,
            final(self).draw_color == old(self).draw_color,
            exists|cells: Seq<(usize, usize)>|
                #[trigger] is_line_path(cells, x0, y0, x1, y1) && final(self).pixel_data@
                    == painted(
                    old(self).pixel_data@,
                    cells,
                    old(self).img_width as int,
                    old(self).img_height as int,
                    old(self).draw_color,
                ),
    {
        let pts = Self::line_points(x0, y0, x1, y1);
        let ghost cells = pts@;
        let ghost w = self.img_width as int;
        let ghost h = self.img_height as int;
        let ghost col = self.draw_color;
        let ghost pre = self.pixel_data@;
        proof {
            assert(self.pixel_data@ =~= painted(pre, cells.take(0), w, h, col));
        }
        let mut i: usize = 0;
        while i < pts.len()
            invariant
                i <= pts@.len(),
                self.wf(),
                self.img_width == old(self).img_width,
                self.img_height == old(self).img_height,
                self.bg_color == old(self).bg_color,
                self.draw_color == old(self).draw_color,
                self.pixel_data@ == painted(pre, cells.take(i as int), w, h, col),
            decreases pts@.len() - i,
        {
            let px = pts[i].0;
            let py = pts[i].1;
            let ghost before = self.pixel_data@;
            proof {
                assert(in_box(cells[i as int], x0, y0, x1, y1));
            }
            self.draw_point(px, py);
            proof {
                let idx = (h - 1 - py) * w + px;
                assert(cells[i as int] == (px, py));
                lemma_grid_index(w, h, px as int, h - 1 - py);
                assert(0 <= idx < pre.len());
                assert(cells.take(i + 1)[i as int] == cells[i as int]);
                assert forall|k: int| 0 <= k < pre.len() implies painted(
                    pre,
                    cells.take(i + 1),
                    w,
                    h,
                    col,
                )[k] == before.update(idx, col)[k] by {
                    if k == idx {
                        assert(0 <= i < cells.take(i + 1).len() && (h - 1 - (cells.take(i + 1)[
                        i as int]).1) * w + cells.take(i + 1)[i as int].0 == k);
                    } else {
                        if exists|j: int|
                            0 <= j < cells.take(i + 1).len() && (h - 1 - (#[trigger] cells.take(
                                i + 1,
                            )[j]).1) * w + cells.take(i + 1)[j].0 == k {
                            let j = choose|j: int|
                                0 <= j < cells.take(i + 1).len() && (h - 1 - (#[trigger] cells.take(
                                    i + 1,
                                )[j]).1) * w + cells.take(i + 1)[j].0 == k;
                            assert(cells.take(i + 1)[j] == cells[j]);
                            assert(j != i);
                            assert(cells.take(i as int)[j] == cells[j]);
                            assert(painted(pre, cells.take(i as int), w, h, col)[k] == col);
                        } else {
                            assert forall|j: int| 0 <= j < i implies (h - 1 - (#[trigger] cells.take(
                                i as int,
                            )[j]).1) * w + cells.take(i as int)[j].0 != k by {
                                assert(cells.take(i as int)[j] == cells[j]);
                                assert(cells.take(i + 1)[j] == cells[j]);
                            }
                            assert(painted(pre, cells.take(i as int), w, h, col)[k] == pre[k]);
                        }
                    }
                }
                assert(self.pixel_data@ =~= painted(pre, cells.take(i + 1), w, h, col));
            }
            i = i + 1;
        }
        proof {
            assert(cells.take(cells.len() as int) =~= cells);
            assert(is_line_path(cells, x0, y0, x1, y1) && self.pixel_data@ == painted(
                pre,
                cells,
                w,
                h,
                col,
            ));
        }
    }

    /// Draws the outline of the polygon: one rasterized line per edge, the
    /// closing edge from the last vertex back to the first included. Every
    /// vertex cell ends up in the draw color, and no cell changes to
    /// anything but the draw color.
    #[verifier::loop_isolation(false)]
    pub fn draw_polygon(&mut self, vertices: Vec<[usize; 2]>)
        requires
            old(self).wf(),
            old(self).img_width <= MAX_DIM,
            old(self).img_height <= MAX_DIM,
            vertices@.len() >= 3,
            forall|i: int|
                0 <= i < vertices@.len() ==> (#[trigger] vertices@[i])[0] < old(self).img_width
                    && vertices@[i][1] < old(self).img_height,
        ensures
            final(self).wf(),
            final(self).img_width == old(self).img_width,
            final(self).img_height == old(self).img_height,
            final(self).bg_color == old(self).bg_color,
            final(self).draw_color == old(self).draw_color,
            final(self).pixel_data@.len() == old(self).pixel_data@.len(),
            forall|k: int|
                0 <= k < final(self).pixel_data@.len() ==> final(self).pixel_data@[k] == old(
                    self,
                ).pixel_data@[k] || final(self).pixel_data@[k] == old(self).draw_color,
            forall|i: int|
                0 <= i < vertices@.len() ==> final(self).pixel_data@[final(self).flip_index(
                    (#[trigger] vertices@[i])[0] as int,
                    vertices@[i][1] as int,
                )] == old(self).draw_color,
            exists|paths: Seq<Seq<(usize, usize)>>|
                #[trigger] are_edge_paths(paths, vertices@) && final(self).pixel_data@
                    == painted_all(
                    old(self).pixel_data@,
                    paths,
                    old(self).img_width as int,
                    old(self).img_height as int,
                    old(self).draw_color,
                ),
    {
        let n = vertices.len();
        let ghost mut paths: Seq<Seq<(usize, usize)>> = Seq::empty();
        proof {
            assert(painted_all(
                old(self).pixel_data@,
                paths,
                old(self).img_width as int,
                old(self).img_height as int,
                old(self).draw_color,
            ) == old(self).pixel_data@);
        }
        let mut i: usize = 0;
        while i < n
            invariant
                i <= n,
                self.wf(),
                self.img_width == old(self).img_width,
                self.img_height == old(self).img_height,
                self.bg_color == old(self).bg_color,
                self.draw_color == old(self).draw_color,
                self.pixel_data@.len() == old(self).pixel_data@.len(),
                forall|k: int|
                    0 <= k < self.pixel_data@.len() ==> self.pixel_data@[k] == old(
                        self,
                    ).pixel_data@[k] || self.pixel_data@[k] == old(self).draw_color,
                forall|j: int|
                    0 <= j < i ==> self.pixel_data@[self.flip_index(
                        (#[trigger] vertices@[j])[0] as int,
                        vertices@[j][1] as int,
                    )] == old(self).draw_color,
                paths.len() == i,
                forall|j: int|
                    0 <= j < i ==> is_line_path(
                        #[trigger] paths[j],
                        vertices@[j][0],
                        vertices@[j][1],
                        vertices@[next_vertex(n as int, j)][0],
                        vertices@[next_vertex(n as int, j)][1],
                    ),
                self.pixel_data@ == painted_all(
                    old(self).pixel_data@,
                    paths,
                    old(self).img_width as int,
                    old(self).img_height as int,
                    old(self).draw_color,
                ),
            decreases n - i,
        {
            let ghost before = self.pixel_data@;
            let x0 = vertices[i][0];
            let y0 = vertices[i][1];
            let x1 = if i == n - 1 {
                vertices[0][0]
            } else {
                vertices[i + 1][0]
            };
            let y1 = if i == n - 1 {
                vertices[0][1]
            } else {
                vertices[i + 1][1]
            };
            self.draw_line(x0, y0, x1, y1);
            proof {
                let w = self.img_width as int;
                let h = self.img_height as int;
                let col = old(self).draw_color;
                let cells = choose|cells: Seq<(usize, usize)>|
                    #[trigger] is_line_path(cells, x0, y0, x1, y1) && self.pixel_data@
                        == painted(before, cells, w, h, col);
                let prev_paths = paths;
                paths = paths.push(cells);
                assert(paths.drop_last() =~= prev_paths);
                assert(paths.last() == cells);
                assert(x1 == vertices@[next_vertex(n as int, i as int)][0]);
                assert(y1 == vertices@[next_vertex(n as int, i as int)][1]);
                assert(painted_all(old(self).pixel_data@, paths, w, h, col) == painted(
                    painted_all(old(self).pixel_data@, prev_paths, w, h, col),
                    cells,
                    w,
                    h,
                    col,
                ));
                assert(cells[0] == (x0, y0));
                lemma_grid_index(w, h, x0 as int, h - 1 - y0);
                assert(0 <= 0 < cells.len() && (h - 1 - (cells[0]).1) * w + cells[0].0
                    == self.flip_index(x0 as int, y0 as int));
                assert(self.pixel_data@[self.flip_index(x0 as int, y0 as int)] == col);
                assert forall|j: int| 0 <= j < i + 1 implies self.pixel_data@[self.flip_index(
                    (#[trigger] vertices@[j])[0] as int,
                    vertices@[j][1] as int,
                )] == col by {
                    if j < i {
                        let fj = self.flip_index(vertices@[j][0] as int, vertices@[j][1] as int);
                        lemma_grid_index(w, h, vertices@[j][0] as int, h - 1 - vertices@[j][1]);
                        assert(painted(before, cells, w, h, col)[fj] == col || painted(
                            before,
                            cells,
                            w,
                            h,
                            col,
                        )[fj] == before[fj]);
                    }
                }
                assert forall|k: int| 0 <= k < self.pixel_data@.len() implies self.pixel_data@[k]
                    == old(self).pixel_data@[k] || self.pixel_data@[k] == col by {
                    assert(painted(before, cells, w, h, col)[k] == col || painted(
                        before,
                        cells,
                        w,
                        h,
                        col,
                    )[k] == before[k]);
                }
            }
            i = i + 1;
        }
        proof {
            assert(are_edge_paths(paths, vertices@));
        }
    }

    /// The packed 0xRRGGBB words of the pixels, in storage order.
    pub open spec fn packed_pixels(pd: Seq<Color>) -> Seq<u32> {
        pd.map_values(|c: Color| c.spec_hex() as u32)
    }

    /// The bytes of a complete bitmap file holding this buffer's pixels.
    pub fn to_bmp_bytes(&self) -> (r: Vec<u8>)
        requires
            self.wf(),
            self.img_width * self.img_height * 4 + 54 <= u32::MAX,
        ensures
            r@ == bmp_file_bytes(
                Self::packed_pixels(self.pixel_data@),
                self.img_width as int,
                self.img_height as int,
            ),
            r@.len() == 54 + self.img_width * self.img_height * 4,
    {
        let mut buffer: Vec<u32> = Vec::new();
        let n = self.pixel_data.len();
        let mut i: usize = 0;
        while i < n
            invariant
                i <= n,
                n == self.pixel_data@.len(),
                buffer@.len() == i,
                forall|k: int|
                    0 <= k < i ==> buffer@[k] == Self::packed_pixels(self.pixel_data@)[k],
            decreases n - i,
        {
            let hex = self.pixel_data[i].to_hex();
            buffer.push(hex);
            i = i + 1;
        }
        proof {
            assert(buffer@ =~= Self::packed_pixels(self.pixel_data@));
        }
        bmp_file(&buffer, self.img_width, self.img_height)
    }
}


/// The comparison by which scan-row crossings are ordered.
pub open spec fn usize_leq() -> spec_fn(usize, usize) -> bool {
    |a: usize, b: usize| a <= b
}

/// Whether the edge from (x0, y0) to (x1, y1) crosses scan row y. The
/// half-open rule counts a shared vertex row for exactly one of the two
/// edges that meet there.
pub open spec fn edge_hits_row(x0: int, y0: int, x1: int, y1: int, y: int) -> bool {
    (y0 <= y < y1) || (y1 <= y < y0)
}

/// The column where that edge crosses row y: linear interpolation, with the
/// division truncated toward zero.
pub open spec fn edge_hit_x(x0: int, y0: int, x1: int, y1: int, y: int) -> int {
    let ynum = if y1 > y0 {
        y - y0
    } else {
        y0 - y
    };
    let yden = if y1 > y0 {
        y1 - y0
    } else {
        y0 - y1
    };
    if x1 >= x0 {
        x0 + (ynum * (x1 - x0)) / yden
    } else {
        x0 - (ynum * (x0 - x1)) / yden
    }
}

/// The endpoints of edge i of the closed polygon; the last edge wraps back
/// to the first vertex.
pub open spec fn edge_of(vs: Seq<[usize; 2]>, i: int) -> (int, int, int, int) {
    let j = if i == vs.len() - 1 {
        0int
    } else {
        i + 1
    };
    (vs[i][0] as int, vs[i][1] as int, vs[j][0] as int, vs[j][1] as int)
}

/// The crossings of row y among the first i edges, in edge order.
pub open spec fn row_hits(vs: Seq<[usize; 2]>, y: int, i: int) -> Seq<usize>
    decreases i,
{
    if i <= 0 {
        Seq::empty()
    } else {
        let e = edge_of(vs, i - 1);
        row_hits(vs, y, i - 1) + if edge_hits_row(e.0, e.1, e.2, e.3, y) {
            seq![edge_hit_x(e.0, e.1, e.2, e.3, y) as usize]
        } else {
            Seq::empty()
        }
    }
}

/// All crossings of row y, in ascending order.
pub open spec fn row_xs(vs: Seq<[usize; 2]>, y: int) -> Seq<usize> {
    row_hits(vs, y, vs.len() as int).sort_by(usize_leq())
}

/// Column x lies in the span of the p-th pair of consecutive crossings.
pub open spec fn covered_pair(xs: Seq<usize>, p: int, x: int) -> bool {
    &&& 0 <= p
    &&& 2 * p + 1 < xs.len()
    &&& xs[2 * p] <= x <= xs[2 * p + 1]
}

/// Column x lies in one of the first pmax pair spans.
spec fn covered_upto(xs: Seq<usize>, x: int, pmax: int) -> bool {
    exists|p: int| p < pmax && #[trigger] covered_pair(xs, p, x)
}

/// The even-odd rule: row y covers column x when x lies between an
/// even-indexed crossing of the row and the crossing after it.
pub open spec fn row_covers(vs: Seq<[usize; 2]>, y: int, x: int) -> bool {
    exists|p: int| #[trigger] covered_pair(row_xs(vs, y), p, x)
}

proof fn lemma_usize_leq_total()
    ensures
        total_ordering(usize_leq()),
{
    let r = usize_leq();
    assert forall|x: usize| #[trigger] r(x, x) by {}
    assert forall|x: usize, y: usize| #[trigger] r(x, y) && #[trigger] r(y, x) implies x == y by {}
    assert forall|x: usize, y: usize, z: usize| #[trigger] r(x, y) && #[trigger] r(y, z) implies r(
        x,
        z,
    ) by {}
    assert forall|x: usize, y: usize| #[trigger] r(x, y) || #[trigger] r(y, x) by {}
}

/// A scan row above or below every vertex is crossed by no edge.
proof fn lemma_no_hits_outside(vs: Seq<[usize; 2]>, y: int, i: int, min_y: int, max_y: int)
    requires
        0 <= i <= vs.len(),
        forall|k: int| 0 <= k < vs.len() ==> min_y <= (#[trigger] vs[k])[1] <= max_y,
        y < min_y || y > max_y,
    ensures
        row_hits(vs, y, i) =~= Seq::<usize>::empty(),
    decreases i,
{
    if i > 0 {
        lemma_no_hits_outside(vs, y, i - 1, min_y, max_y);
        let e = edge_of(vs, i - 1);
        assert(!edge_hits_row(e.0, e.1, e.2, e.3, y));
    }
}

/// The intersection list in ascending order.
#[verifier::loop_isolation(false)]
fn sorted_ascending(v: &Vec<usize>) -> (r: Vec<usize>)
    ensures
        r@.to_multiset() == v@.to_multiset(),
        sorted_by(r@, usize_leq()),
        r@.len() == v@.len(),
{
    broadcast use vstd::seq_lib::group_to_multiset_ensures;

    let mut out: Vec<usize> = Vec::new();
    let mut i: usize = 0;
    proof {
        assert(v@.take(0) =~= Seq::<usize>::empty());
        assert(Seq::<usize>::empty().to_multiset() =~= out@.to_multiset());
    }
    while i < v.len()
        invariant
            i <= v@.len(),
            out@.len() == i,
            sorted_by(out@, usize_leq()),
            out@.to_multiset() == v@.take(i as int).to_multiset(),
        decreases v@.len() - i,
    {
        let x = v[i];
        let mut pos: usize = 0;
        while pos < out.len() && out[pos] <= x
            invariant
                pos <= out@.len(),
                forall|k: int| 0 <= k < pos ==> out@[k] <= x,
            decreases out@.len() - pos,
        {
            pos = pos + 1;
        }
        let ghost before = out@;
        out.insert(pos, x);
        proof {
            let leq = usize_leq();
            assert(out@ =~= before.take(pos as int).push(x) + before.skip(pos as int));
            assert forall|a: int, b: int| 0 <= a < b < out@.len() implies leq(
                out@[a],
                out@[b],
            ) by {
                if b < pos {
                    assert(out@[a] == before[a] && out@[b] == before[b]);
                } else if b == pos {
                    assert(out@[a] == before[a] && out@[b] == x);
                } else if a < pos {
                    assert(out@[a] == before[a] && out@[b] == before[b - 1]);
                    assert(a < b - 1 ==> leq(before[a], before[b - 1]));
                    assert(a == b - 1 ==> before[a] == before[b - 1]);
                } else if a == pos {
                    assert(out@[a] == x && out@[b] == before[b - 1]);
                    assert(pos < before.len());
                    assert(!(before[pos as int] <= x));
                    assert(pos < b - 1 ==> leq(before[pos as int], before[b - 1]));
                } else {
                    assert(out@[a] == before[a - 1] && out@[b] == before[b - 1]);
                }
            }
            assert(v@.take(i + 1) =~= v@.take(i as int).push(x));
            assert(v@.take(i + 1).to_multiset() =~= v@.take(i as int).to_multiset().insert(x));
            assert(out@.to_multiset() =~= before.to_multiset().insert(x));
        }
        i = i + 1;
    }
    proof {
        assert(v@.take(v@.len() as int) =~= v@);
    }
    out
}

impl FrameBuffer {
    /// Fills the cells xa..=xb of logical row y with the draw color and
    /// changes nothing else.
    #[verifier::loop_isolation(false)]
    fn fill_span(&mut self, xa: usize, xb: usize, y: usize)
        requires
            old(self).wf(),
            xa <= xb,
            xb < old(self).img_width,
            y < old(self).img_height,
        ensures
            final(self).wf(),
            final(self).img_width == old(self).img_width,
            final(self).img_height == old(self).img_height,
            final(self).bg_color == old(self).bg_color,
            final(self).draw_color == old(self).draw_color,
            final(self).pixel_data@.len() == old(self).pixel_data@.len(),
            forall|x: int, yv: int|
                0 <= x < old(self).img_width && 0 <= yv < old(self).img_height
                    ==> final(self).pixel_data@[#[trigger] old(self).flip_index(x, yv)] == (
                if yv == y && xa <= x <= xb {
                    old(self).draw_color
                } else {
                    old(self).pixel_data@[old(self).flip_index(x, yv)]
                }),
    {
        let ghost w = self.img_width as int;
        let ghost h = self.img_height as int;
        let ghost col = self.draw_color;
        let ghost pre = self.pixel_data@;
        let mut xf = xa;
        while xf <= xb
            invariant
                xa <= xf <= xb + 1,
                self.wf(),
                self.img_width == old(self).img_width,
                self.img_height == old(self).img_height,
                self.bg_color == old(self).bg_color,
                self.draw_color == old(self).draw_color,
                self.pixel_data@.len() == pre.len(),
                forall|x: int, yv: int|
                    0 <= x < w && 0 <= yv < h ==> self.pixel_data@[#[trigger] old(self).flip_index(
                        x,
                        yv,
                    )] == (if yv == y && xa <= x < xf {
                        col
                    } else {
                        pre[old(self).flip_index(x, yv)]
                    }),
            decreases xb + 1 - xf,
        {
            self.draw_point(xf, y);
            proof {
                let idx = old(self).flip_index(xf as int, y as int);
                lemma_grid_index(w, h, xf as int, h - 1 - y);
                assert forall|x: int, yv: int| 0 <= x < w && 0 <= yv < h implies self.pixel_data@[
                    #[trigger] old(self).flip_index(x, yv)] == (if yv == y && xa <= x < xf + 1 {
                    col
                } else {
                    pre[old(self).flip_index(x, yv)]
                }) by {
                    lemma_grid_index(w, h, x, h - 1 - yv);
                    if old(self).flip_index(x, yv) == idx {
                        lemma_grid_index_inj(w, x, h - 1 - yv, xf as int, h - 1 - y);
                    }
                }
            }
            xf = xf + 1;
        }
    }

    /// Fills the interior of the polygon by even-odd scan conversion: for
    /// each row of the vertices' bounding box, the edge crossings are
    /// collected, sorted, paired off, and each pair's span is painted in the
    /// draw color. A cell changes exactly when its row covers its column,
    /// and it changes to the draw color.
    #[verifier::loop_isolation(false)]
    #[verifier::rlimit(100)]
    pub fn draw_filled_polygon(&mut self, vertices: Vec<[usize; 2]>)
        requires
            old(self).wf(),
            old(self).img_width <= MAX_DIM,
            old(self).img_height <= MAX_DIM,
            vertices@.len() >= 3,
            forall|i: int|
                0 <= i < vertices@.len() ==> (#[trigger] vertices@[i])[0] < old(self).img_width
                    && vertices@[i][1] < old(self).img_height,
        ensures
            final(self).wf(),
            final(self).img_width == old(self).img_width,
            final(self).img_height == old(self).img_height,
            final(self).bg_color == old(self).bg_color,
            final(self).draw_color == old(self).draw_color,
            final(self).pixel_data@.len() == old(self).pixel_data@.len(),
            forall|x: int, yv: int|
                0 <= x < old(self).img_width && 0 <= yv < old(self).img_height
                    ==> final(self).pixel_data@[#[trigger] old(self).flip_index(x, yv)] == (
                if row_covers(vertices@, yv, x) {
                    old(self).draw_color
                } else {
                    old(self).pixel_data@[old(self).flip_index(x, yv)]
                }),
    {
        let ghost vs = vertices@;
        let ghost w = self.img_width as int;
        let ghost h = self.img_height as int;
        let ghost col = self.draw_color;
        let ghost pre = self.pixel_data@;
        let n = vertices.len();
        let bounds = self.get_bounds(&vertices);
        let min_y = bounds.2;
        let max_y = bounds.3;
        let ghost max_x = bounds.1;
        let mut y = min_y;
        while y <= max_y
            invariant
                min_y <= y <= max_y + 1,
                self.wf(),
                self.img_width == old(self).img_width,
                self.img_height == old(self).img_height,
                self.bg_color == old(self).bg_color,
                self.draw_color == old(self).draw_color,
                self.pixel_data@.len() == pre.len(),
                forall|x: int, yv: int|
                    0 <= x < w && 0 <= yv < h ==> self.pixel_data@[#[trigger] old(self).flip_index(
                        x,
                        yv,
                    )] == (if min_y <= yv < y && row_covers(vs, yv, x) {
                        col
                    } else {
                        pre[old(self).flip_index(x, yv)]
                    }),
            decreases max_y + 1 - y,
        {
            let mut intersections: Vec<usize> = Vec::new();
            let mut i: usize = 0;
            proof {
                assert(intersections@ =~= row_hits(vs, y as int, 0));
            }
            while i < n
                invariant
                    i <= n,
                    intersections@ == row_hits(vs, y as int, i as int),
                    forall|k: int|
                        0 <= k < intersections@.len() ==> #[trigger] intersections@[k] <= max_x,
                decreases n - i,
            {
                let ex0 = vertices[i][0];
                let ey0 = vertices[i][1];
                let ex1 = if i == n - 1 {
                    vertices[0][0]
                } else {
                    vertices[i + 1][0]
                };
                let ey1 = if i == n - 1 {
                    vertices[0][1]
                } else {
                    vertices[i + 1][1]
                };
                let ghost e = edge_of(vs, i as int);
                proof {
                    assert(e == (ex0 as int, ey0 as int, ex1 as int, ey1 as int));
                }
                if (ey0 <= y && y < ey1) || (ey1 <= y && y < ey0) {
                    let ynum = if ey1 > ey0 {
                        y - ey0
                    } else {
                        ey0 - y
                    };
                    let yden = if ey1 > ey0 {
                        ey1 - ey0
                    } else {
                        ey0 - ey1
                    };
                    let dxe = if ex1 >= ex0 {
                        ex1 - ex0
                    } else {
                        ex0 - ex1
                    };
                    proof {
                        assert(0 < yden && ynum <= yden);
                        assert(ynum * dxe <= (h - 1) * (w - 1) && 0 <= ynum * dxe && (h - 1) * (w
                            - 1) <= w * h) by (nonlinear_arith)
                            requires
                                0 <= ynum <= h - 1,
                                0 <= dxe <= w - 1,
                                1 <= w,
                                1 <= h,
                        ;
                        lemma_mul_inequality(ynum as int, yden as int, dxe as int);
                        lemma_div_is_ordered(ynum as int * dxe as int, yden as int * dxe as int, yden as int);
                        lemma_div_by_multiple(dxe as int, yden as int);
                        assert(yden as int * dxe as int == dxe as int * yden as int)
                            by (nonlinear_arith);
                        assert((ynum as int * dxe as int) / (yden as int) <= dxe);
                    }
                    let q = (ynum * dxe) / yden;
                    let x = if ex1 >= ex0 {
                        ex0 + q
                    } else {
                        ex0 - q
                    };
                    intersections.push(x);
                    proof {
                        assert(edge_hits_row(e.0, e.1, e.2, e.3, y as int));
                        assert(x as int == edge_hit_x(e.0, e.1, e.2, e.3, y as int));
                        assert(x <= max_x);
                        assert(intersections@ =~= row_hits(vs, y as int, i as int + 1));
                    }
                } else {
                    proof {
                        assert(!edge_hits_row(e.0, e.1, e.2, e.3, y as int));
                        assert(intersections@ =~= row_hits(vs, y as int, i as int + 1));
                    }
                }
                i = i + 1;
            }
            let xs = sorted_ascending(&intersections);
            proof {
                lemma_usize_leq_total();
                row_hits(vs, y as int, n as int).lemma_sort_by_ensures(usize_leq());
                lemma_sorted_unique(xs@, row_xs(vs, y as int), usize_leq());
                assert(xs@ == row_xs(vs, y as int));
                broadcast use vstd::seq_lib::group_to_multiset_ensures;

                assert forall|k: int| 0 <= k < xs@.len() implies #[trigger] xs@[k] <= max_x by {
                    assert(xs@.to_multiset().count(xs@[k]) > 0);
                    assert(intersections@.contains(xs@[k]));
                }
            }
            let ghost row_pre = self.pixel_data@;
            let m = xs.len();
            let mut j: usize = 0;
            while j + 1 < m
                invariant
                    j % 2 == 0,
                    j <= m + 1,
                    self.wf(),
                    self.img_width == old(self).img_width,
                    self.img_height == old(self).img_height,
                    self.bg_color == old(self).bg_color,
                    self.draw_color == old(self).draw_color,
                    self.pixel_data@.len() == pre.len(),
                    forall|x: int, yv: int|
                        0 <= x < w && 0 <= yv < h ==> self.pixel_data@[#[trigger] old(
                            self,
                        ).flip_index(x, yv)] == (if yv == y && covered_upto(
                            xs@,
                            x,
                            j as int / 2,
                        ) {
                            col
                        } else {
                            row_pre[old(self).flip_index(x, yv)]
                        }),
                decreases m - j,
            {
                let xa = xs[j];
                let xb = xs[j + 1];
                proof {
                    assert(usize_leq()(xs@[j as int], xs@[j as int + 1]));
                    assert(xa <= xb);
                    assert(xb < old(self).img_width);
                }
                let ghost midself = *self;
                self.fill_span(xa, xb, y);
                proof {
                    assert forall|x: int, yv: int| 0 <= x < w && 0 <= yv < h implies self.pixel_data@[
                        #[trigger] old(self).flip_index(x, yv)] == (if yv == y && covered_upto(
                        xs@,
                        x,
                        j as int / 2 + 1,
                    ) {
                        col
                    } else {
                        row_pre[old(self).flip_index(x, yv)]
                    }) by {
                        assert(midself.flip_index(x, yv) == old(self).flip_index(x, yv));
                        let pm = j as int / 2;
                        assert(2 * pm == j);
                        if yv == y && xa <= x <= xb {
                            assert(covered_pair(xs@, pm, x));
                            assert(covered_upto(xs@, x, pm + 1));
                        } else {
                            if covered_upto(xs@, x, pm + 1) && yv == y {
                                let p = choose|p: int|
                                    p < pm + 1 && #[trigger] covered_pair(xs@, p, x);
                                if p == pm {
                                    assert(xa <= x <= xb);
                                    assert(false);
                                } else {
                                    assert(covered_upto(xs@, x, pm));
                                }
                            }
                            if covered_upto(xs@, x, pm) {
                                assert(covered_upto(xs@, x, pm + 1));
                            }
                        }
                    }
                }
                j = j + 2;
            }
            proof {
                assert forall|x: int, yv: int| 0 <= x < w && 0 <= yv < h implies self.pixel_data@[
                    #[trigger] old(self).flip_index(x, yv)] == (if min_y <= yv < y + 1
                    && row_covers(vs, yv, x) {
                    col
                } else {
                    pre[old(self).flip_index(x, yv)]
                }) by {
                    if yv == y {
                        assert(row_covers(vs, yv, x) <==> covered_upto(xs@, x, j as int / 2)) by {
                            if row_covers(vs, yv, x) {
                                let p = choose|p: int|
                                    #[trigger] covered_pair(row_xs(vs, yv), p, x);
                                assert(2 * p + 1 < m);
                                assert(p < j as int / 2);
                                assert(covered_upto(xs@, x, j as int / 2));
                            }
                            if covered_upto(xs@, x, j as int / 2) {
                                let p = choose|p: int|
                                    p < j as int / 2 && #[trigger] covered_pair(xs@, p, x);
                                assert(covered_pair(row_xs(vs, yv), p, x));
                            }
                        }
                    }
                }
            }
            y = y + 1;
        }
        proof {
            assert forall|x: int, yv: int| 0 <= x < w && 0 <= yv < h implies self.pixel_data@[
                #[trigger] old(self).flip_index(x, yv)] == (if row_covers(vs, yv, x) {
                col
            } else {
                pre[old(self).flip_index(x, yv)]
            }) by {
                broadcast use vstd::seq_lib::group_to_multiset_ensures;

                if yv < min_y || yv > max_y {
                    lemma_no_hits_outside(vs, yv, vs.len() as int, min_y as int, max_y as int);
                    let rh = row_hits(vs, yv, vs.len() as int);
                    assert(rh.len() == 0);
                    rh.lemma_sort_by_ensures(usize_leq());
                    assert(rh.to_multiset().len() == rh.len());
                    assert(rh.sort_by(usize_leq()).to_multiset().len() == rh.sort_by(
                        usize_leq(),
                    ).len());
                    assert(row_xs(vs, yv).len() == 0);
                    assert(!row_covers(vs, yv, x));
                }
            }
        }
    }
}


/// A crossing of a row lies between the x coordinates of the edge's two
/// endpoints.
proof fn lemma_hit_within(x0: int, y0: int, x1: int, y1: int, y: int)
    requires
        edge_hits_row(x0, y0, x1, y1, y),
    ensures
        x0 <= x1 ==> x0 <= edge_hit_x(x0, y0, x1, y1, y) <= x1,
        x1 <= x0 ==> x1 <= edge_hit_x(x0, y0, x1, y1, y) <= x0,
{
    let ynum = if y1 > y0 {
        y - y0
    } else {
        y0 - y
    };
    let yden = if y1 > y0 {
        y1 - y0
    } else {
        y0 - y1
    };
    assert(0 <= ynum <= yden && 0 < yden);
    if x1 >= x0 {
        let dxe = x1 - x0;
        assert(0 <= ynum * dxe) by (nonlinear_arith)
            requires
                0 <= ynum && 0 <= dxe,
        ;
        lemma_div_pos_is_pos(ynum * dxe, yden);
        lemma_mul_inequality(ynum, yden, dxe);
        lemma_div_is_ordered(ynum * dxe, yden * dxe, yden);
        assert(yden * dxe == dxe * yden) by (nonlinear_arith);
        lemma_div_by_multiple(dxe, yden);
    } else {
        let dxe = x0 - x1;
        assert(0 <= ynum * dxe) by (nonlinear_arith)
            requires
                0 <= ynum && 0 <= dxe,
        ;
        lemma_div_pos_is_pos(ynum * dxe, yden);
        lemma_mul_inequality(ynum, yden, dxe);
        lemma_div_is_ordered(ynum * dxe, yden * dxe, yden);
        assert(yden * dxe == dxe * yden) by (nonlinear_arith);
        lemma_div_by_multiple(dxe, yden);
    }
}

/// Every crossing collected for a row lies within any x range that
/// contains all of the vertices.
proof fn lemma_hits_within(vs: Seq<[usize; 2]>, y: int, i: int, x_lo: int, x_hi: int)
    requires
        0 <= i <= vs.len(),
        forall|k: int| 0 <= k < vs.len() ==> x_lo <= (#[trigger] vs[k])[0] <= x_hi,
    ensures
        forall|k: int|
            0 <= k < row_hits(vs, y, i).len() ==> x_lo <= #[trigger] row_hits(vs, y, i)[k] <= x_hi,
    decreases i,
{
    if i > 0 {
        lemma_hits_within(vs, y, i - 1, x_lo, x_hi);
        let e = edge_of(vs, i - 1);
        let prev = row_hits(vs, y, i - 1);
        if edge_hits_row(e.0, e.1, e.2, e.3, y) {
            lemma_hit_within(e.0, e.1, e.2, e.3, y);
            let hit = edge_hit_x(e.0, e.1, e.2, e.3, y);
            assert(x_lo <= e.0 <= x_hi && x_lo <= e.2 <= x_hi);
            assert(x_lo <= hit <= x_hi);
            assert(row_hits(vs, y, i) =~= prev.push(hit as usize));
            assert forall|k: int| 0 <= k < row_hits(vs, y, i).len() implies x_lo
                <= #[trigger] row_hits(vs, y, i)[k] <= x_hi by {
                if k < prev.len() {
                    assert(row_hits(vs, y, i)[k] == prev[k]);
                } else {
                    assert(row_hits(vs, y, i)[k] == hit as usize);
                }
            }
        } else {
            assert(row_hits(vs, y, i) =~= prev);
        }
    }
}

/// Fill containment, in bounding-box form: a cell that the even-odd rule
/// covers lies inside every box that holds all of the polygon's vertices.
/// In particular no cell outside the vertices' bounding box is painted by
/// `draw_filled_polygon`.
pub proof fn lemma_fill_within_bounds(
    vs: Seq<[usize; 2]>,
    y: int,
    x: int,
    x_lo: int,
    x_hi: int,
    y_lo: int,
    y_hi: int,
)
    requires
        row_covers(vs, y, x),
        forall|k: int|
            0 <= k < vs.len() ==> x_lo <= (#[trigger] vs[k])[0] <= x_hi && y_lo <= vs[k][1] <= y_hi,
    ensures
        x_lo <= x <= x_hi,
        y_lo <= y <= y_hi,
{
    broadcast use vstd::seq_lib::group_to_multiset_ensures;

    let n = vs.len() as int;
    let rh = row_hits(vs, y, n);
    rh.lemma_sort_by_ensures(usize_leq());
    let xs = row_xs(vs, y);
    if y < y_lo || y > y_hi {
        lemma_no_hits_outside(vs, y, n, y_lo, y_hi);
        assert(rh.to_multiset().len() == rh.len());
        assert(xs.to_multiset().len() == xs.len());
        assert(xs.len() == 0);
        let p = choose|p: int| #[trigger] covered_pair(xs, p, x);
        assert(false);
    }
    lemma_hits_within(vs, y, n, x_lo, x_hi);
    let p = choose|p: int| #[trigger] covered_pair(xs, p, x);
    assert(xs.contains(xs[2 * p])) by {
        assert(0 <= 2 * p < xs.len() && xs[2 * p] == xs[2 * p]);
    }
    assert(xs.contains(xs[2 * p + 1])) by {
        assert(0 <= 2 * p + 1 < xs.len() && xs[2 * p + 1] == xs[2 * p + 1]);
    }
    assert(rh.to_multiset().count(xs[2 * p]) > 0);
    assert(rh.contains(xs[2 * p]));
    assert(rh.to_multiset().count(xs[2 * p + 1]) > 0);
    assert(rh.contains(xs[2 * p + 1]));
    let ka = choose|k: int| 0 <= k < rh.len() && rh[k] == xs[2 * p];
    let kb = choose|k: int| 0 <= k < rh.len() && rh[k] == xs[2 * p + 1];
    assert(x_lo <= rh[ka] <= x_hi);
    assert(x_lo <= rh[kb] <= x_hi);
}

} // verus!
