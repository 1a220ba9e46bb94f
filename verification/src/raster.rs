//! Software rasteriser for a row-major `u32` framebuffer.
//!
//! A frame of `ww` columns and `wh` rows is stored row after row in a
//! buffer of at least `ww * wh` pixels; pixel `(x, y)` lives at index
//! `y * ww + x`. Every drawing routine clips to the frame: coordinates
//! outside it are silently ignored, and pixels of the buffer past the
//! frame are never touched.

use vstd::prelude::*;
use vstd::arithmetic::div_mod::{lemma_fundamental_div_mod, lemma_fundamental_div_mod_converse};

verus! {

/// The buffer holds the whole frame, and both sides of the frame are
/// representable as `i64` (so that signed coordinates compare with them).
pub open spec fn frame_ok(len: nat, ww: usize, wh: usize) -> bool {
    &&& ww * wh <= len
    &&& ww <= i64::MAX
    &&& wh <= i64::MAX
}

/// `(x, y)` is a pixel of the frame.
pub open spec fn in_frame(ww: usize, wh: usize, x: int, y: int) -> bool {
    0 <= x < ww && 0 <= y < wh
}

/// `old` with every pixel of the frame at which `shape` holds set to
/// `color`; everything else (including pixels past the frame) unchanged.
pub open spec fn painted(
    old: Seq<u32>,
    ww: usize,
    wh: usize,
    shape: spec_fn(int, int) -> bool,
    color: u32,
) -> Seq<u32> {
    Seq::new(
        old.len(),
        |k: int|
            if k < ww * wh && shape(k % (ww as int), k / (ww as int)) {
                color
            } else {
                old[k]
            },
    )
}

/// Coordinates of an index of the frame.
proof fn lemma_index_coords(ww: usize, wh: usize, k: int)
    requires
        0 <= k < ww * wh,
    ensures
        ww > 0,
        0 <= k % (ww as int) < ww,
        0 <= k / (ww as int) < wh,
        k == (k / (ww as int)) * ww + k % (ww as int),
{
    let w = ww as int;
    let h = wh as int;
    if w == 0 {
        assert(w * h == 0);
    }
    lemma_fundamental_div_mod(k, w);
    let q = k / w;
    let r = k % w;
    assert(0 <= r < w);
    assert(q * w == w * q) by (nonlinear_arith);
    assert(0 <= q < h) by (nonlinear_arith)
        requires
            k == w * q + r,
            0 <= r < w,
            0 <= k < w * h,
            w > 0,
    ;
}

/// Index of an in-frame pixel, and its coordinates read back.
proof fn lemma_coords_index(ww: usize, wh: usize, x: int, y: int)
    requires
        in_frame(ww, wh, x, y),
    ensures
        0 <= y * ww + x < ww * wh,
        (y * ww + x) % (ww as int) == x,
        (y * ww + x) / (ww as int) == y,
{
    let w = ww as int;
    let h = wh as int;
    assert(0 <= y * w + x < w * h) by (nonlinear_arith)
        requires
            0 <= x < w,
            0 <= y < h,
    ;
    lemma_fundamental_div_mod_converse(y * w + x, w, y, x);
}

/// Two shapes that agree on the frame paint the same pixels.
pub proof fn lemma_painted_ext(
    old: Seq<u32>,
    ww: usize,
    wh: usize,
    s1: spec_fn(int, int) -> bool,
    s2: spec_fn(int, int) -> bool,
    color: u32,
)
    requires
        forall|x: int, y: int| in_frame(ww, wh, x, y) ==> s1(x, y) == s2(x, y),
    ensures
        painted(old, ww, wh, s1, color) == painted(old, ww, wh, s2, color),
{
    assert forall|k: int| 0 <= k < old.len() implies painted(old, ww, wh, s1, color)[k]
        == painted(old, ww, wh, s2, color)[k] by {
        if k < ww * wh {
            lemma_index_coords(ww, wh, k);
            assert(in_frame(ww, wh, k % (ww as int), k / (ww as int)));
        }
    }
    assert(painted(old, ww, wh, s1, color) =~= painted(old, ww, wh, s2, color));
}

/// Painting nothing leaves the buffer as it is.
pub proof fn lemma_painted_none(old: Seq<u32>, ww: usize, wh: usize, color: u32)
    ensures
        painted(old, ww, wh, |x: int, y: int| false, color) == old,
{
    assert(painted(old, ww, wh, |x: int, y: int| false, color) =~= old);
}

/// Setting one more pixel (when it lies in the frame) adds it to the shape.
proof fn lemma_painted_add_point(
    old: Seq<u32>,
    cur: Seq<u32>,
    ww: usize,
    wh: usize,
    shape: spec_fn(int, int) -> bool,
    color: u32,
    x: int,
    y: int,
)
    requires
        frame_ok(old.len(), ww, wh),
        cur == painted(old, ww, wh, shape, color),
    ensures
        (if in_frame(ww, wh, x, y) {
            cur.update(y * ww + x, color)
        } else {
            cur
        }) == painted(old, ww, wh, |p: int, q: int| shape(p, q) || (p == x && q == y), color),
{
    let grown = |p: int, q: int| shape(p, q) || (p == x && q == y);
    if in_frame(ww, wh, x, y) {
        lemma_coords_index(ww, wh, x, y);
        let i = y * ww + x;
        assert forall|k: int| 0 <= k < old.len() implies cur.update(i, color)[k] == painted(
            old,
            ww,
            wh,
            grown,
            color,
        )[k] by {
            if k != i && k < ww * wh {
                lemma_index_coords(ww, wh, k);
            }
        }
        assert(cur.update(i, color) =~= painted(old, ww, wh, grown, color));
    } else {
        lemma_painted_ext(old, ww, wh, shape, grown, color);
    }
}

/// Sets pixel `(x, y)` to `color` when it lies in the frame; does nothing
/// otherwise.
pub fn put_pixel(buf: &mut [u32], ww: usize, wh: usize, x: i64, y: i64, color: u32)
    requires
        frame_ok(old(buf)@.len(), ww, wh),
    ensures
        final(buf)@ == (if in_frame(ww, wh, x as int, y as int) {
            old(buf)@.update(y * ww + x, color)
        } else {
            old(buf)@
        }),
{
    if x < 0 || y < 0 || x >= ww as i64 || y >= wh as i64 {
        return;
    }
    proof {
        lemma_coords_index(ww, wh, x as int, y as int);
    }
    let n = buf.len();
    assert(n == buf@.len());
    let idx = y as usize * ww + x as usize;
    buf[idx] = color;
}

/// The axis-aligned rectangle with corner `(x0, y0)`, `w` columns and `h`
/// rows (empty when `w` or `h` is not positive).
pub open spec fn rect_shape(x0: int, y0: int, w: int, h: int) -> spec_fn(int, int) -> bool {
    |x: int, y: int| x0 <= x < x0 + w && y0 <= y < y0 + h
}

/// Fills the rectangle with corner `(x0, y0)` and size `w` x `h`, clipped
/// to the frame.
pub fn draw_rect(buf: &mut [u32], ww: usize, wh: usize, x0: i64, y0: i64, w: i64, h: i64, color: u32)
    requires
        frame_ok(old(buf)@.len(), ww, wh),
        i64::MIN <= x0 + w <= i64::MAX,
        i64::MIN <= y0 + h <= i64::MAX,
    ensures
        final(buf)@ == painted(old(buf)@, ww, wh, rect_shape(x0 as int, y0 as int, w as int, h as int), color),
{
    let ghost start = buf@;
    let xe = x0 + w;
    let ye = y0 + h;
    proof {
        lemma_painted_none(start, ww, wh, color);
        lemma_painted_ext(start, ww, wh, |p: int, q: int| false, rect_shape(x0 as int, y0 as int, w as int, 0), color);
    }
    let mut y = y0;
    while y < ye
        invariant
            frame_ok(start.len(), ww, wh),
            xe == x0 + w,
            ye == y0 + h,
            y0 <= y,
            y <= ye || y == y0,
            buf@ == painted(start, ww, wh, rect_shape(x0 as int, y0 as int, w as int, y - y0), color),
        decreases ye - y,
    {
        let mut x = x0;
        proof {
            lemma_painted_ext(
                start,
                ww,
                wh,
                rect_shape(x0 as int, y0 as int, w as int, y - y0),
                |p: int, q: int| rect_shape(x0 as int, y0 as int, w as int, y - y0)(p, q) || (q == y && x0 <= p < x0),
                color,
            );
        }
        while x < xe
            invariant
                frame_ok(start.len(), ww, wh),
                xe == x0 + w,
                ye == y0 + h,
                y0 <= y < ye,
                x0 <= x,
                x <= xe || x == x0,
                buf@ == painted(
                    start,
                    ww,
                    wh,
                    |p: int, q: int| rect_shape(x0 as int, y0 as int, w as int, y - y0)(p, q) || (q == y && x0 <= p < x),
                    color,
                ),
            decreases xe - x,
        {
            proof {
                lemma_painted_add_point(
                    start,
                    buf@,
                    ww,
                    wh,
                    |p: int, q: int| rect_shape(x0 as int, y0 as int, w as int, y - y0)(p, q) || (q == y && x0 <= p < x),
                    color,
                    x as int,
                    y as int,
                );
            }
            put_pixel(buf, ww, wh, x, y, color);
            proof {
                lemma_painted_ext(
                    start,
                    ww,
                    wh,
                    |p: int, q: int|
                        (rect_shape(x0 as int, y0 as int, w as int, y - y0)(p, q) || (q == y && x0 <= p < x))
                            || (p == x && q == y),
                    |p: int, q: int| rect_shape(x0 as int, y0 as int, w as int, y - y0)(p, q) || (q == y && x0 <= p < x + 1),
                    color,
                );
            }
            x = x + 1;
        }
        proof {
            lemma_painted_ext(
                start,
                ww,
                wh,
                |p: int, q: int| rect_shape(x0 as int, y0 as int, w as int, y - y0)(p, q) || (q == y && x0 <= p < x),
                rect_shape(x0 as int, y0 as int, w as int, y + 1 - y0),
                color,
            );
        }
        y = y + 1;
    }
    proof {
        lemma_painted_ext(
            start,
            ww,
            wh,
            rect_shape(x0 as int, y0 as int, w as int, y - y0),
            rect_shape(x0 as int, y0 as int, w as int, h as int),
            color,
        );
    }
}

/// The disc of centre `(cx, cy)` and radius `r` (empty when `r < 0`).
pub open spec fn disc_shape(cx: int, cy: int, r: int) -> spec_fn(int, int) -> bool {
    |x: int, y: int| r >= 0 && (x - cx) * (x - cx) + (y - cy) * (y - cy) <= r * r
}

/// A point of the disc lies within `r` of the centre on both axes.
proof fn lemma_disc_bounds(dx: int, dy: int, r: int)
    requires
        r >= 0,
        dx * dx + dy * dy <= r * r,
    ensures
        -r <= dx <= r,
        -r <= dy <= r,
{
    assert(dy * dy >= 0) by (nonlinear_arith);
    assert(dx * dx >= 0) by (nonlinear_arith);
    assert(-r <= dx <= r) by (nonlinear_arith)
        requires
            dx * dx <= r * r,
            r >= 0,
    ;
    assert(-r <= dy <= r) by (nonlinear_arith)
        requires
            dy * dy <= r * r,
            r >= 0,
    ;
}

/// The part of the disc scanned before offset `(dx, dy)` in row-major order.
spec fn disc_scanned(cx: int, cy: int, r: int, dx: int, dy: int) -> spec_fn(int, int) -> bool {
    |x: int, y: int| disc_shape(cx, cy, r)(x, y) && (y - cy < dy || (y - cy == dy && x - cx < dx))
}

/// Fills the disc of centre `(cx, cy)` and radius `radius`: the pixels whose
/// squared distance to the centre is at most `radius * radius`, clipped to
/// the frame. A negative radius draws nothing.
pub fn draw_disc(buf: &mut [u32], ww: usize, wh: usize, cx: i64, cy: i64, radius: i64, color: u32)
    requires
        frame_ok(old(buf)@.len(), ww, wh),
        radius * radius <= i64::MAX / 2,
        radius >= 0 ==> i64::MIN <= cx - radius && cx + radius <= i64::MAX,
        radius >= 0 ==> i64::MIN <= cy - radius && cy + radius <= i64::MAX,
    ensures
        final(buf)@ == painted(old(buf)@, ww, wh, disc_shape(cx as int, cy as int, radius as int), color),
{
    let ghost start = buf@;
    let ghost r = radius as int;
    assert(i64::MIN < r < i64::MAX && 0 <= r * r) by (nonlinear_arith)
        requires
            r * r <= i64::MAX / 2,
    ;
    if radius < 0 {
        proof {
            lemma_painted_none(start, ww, wh, color);
            lemma_painted_ext(start, ww, wh, |x: int, y: int| false, disc_shape(cx as int, cy as int, r), color);
        }
        return;
    }
    let r2 = radius * radius;
    proof {
        lemma_painted_none(start, ww, wh, color);
        assert forall|x: int, y: int| in_frame(ww, wh, x, y) implies
            disc_scanned(cx as int, cy as int, r, -r, -r)(x, y) == false by {
            if disc_shape(cx as int, cy as int, r)(x, y) {
                lemma_disc_bounds(x - cx, y - cy, r);
            }
        }
        lemma_painted_ext(start, ww, wh, |x: int, y: int| false, disc_scanned(cx as int, cy as int, r, -r, -r), color);
    }
    let mut dy = -radius;
    while dy <= radius
        invariant
            frame_ok(start.len(), ww, wh),
            r == radius,
            r2 == r * r,
            r >= 0,
            r * r <= i64::MAX / 2,
            r < i64::MAX,
            i64::MIN <= cx - r && cx + r <= i64::MAX,
            i64::MIN <= cy - r && cy + r <= i64::MAX,
            -r <= dy <= r + 1,
            buf@ == painted(start, ww, wh, disc_scanned(cx as int, cy as int, r, -r, dy as int), color),
        decreases r + 1 - dy,
    {
        let mut dx = -radius;
        proof {
            lemma_painted_ext(
                start,
                ww,
                wh,
                disc_scanned(cx as int, cy as int, r, -r, dy as int),
                disc_scanned(cx as int, cy as int, r, -r, dy as int),
                color,
            );
        }
        while dx <= radius
            invariant
                frame_ok(start.len(), ww, wh),
                r == radius,
                r2 == r * r,
                r >= 0,
                r * r <= i64::MAX / 2,
            r < i64::MAX,
                i64::MIN <= cx - r && cx + r <= i64::MAX,
                i64::MIN <= cy - r && cy + r <= i64::MAX,
                -r <= dy <= r,
                -r <= dx <= r + 1,
                buf@ == painted(start, ww, wh, disc_scanned(cx as int, cy as int, r, dx as int, dy as int), color),
            decreases r + 1 - dx,
        {
            let ghost before = disc_scanned(cx as int, cy as int, r, dx as int, dy as int);
            assert(0 <= dx * dx <= r * r && 0 <= dy * dy <= r * r) by (nonlinear_arith)
                requires
                    -r <= dx <= r,
                    -r <= dy <= r,
            ;
            if dx * dx + dy * dy <= r2 {
                proof {
                    lemma_painted_add_point(start, buf@, ww, wh, before, color, cx + dx, cy + dy);
                }
                put_pixel(buf, ww, wh, cx + dx, cy + dy, color);
            }
            proof {
                let grown = |p: int, q: int| before(p, q) || (p == cx + dx && q == cy + dy);
                let next = disc_scanned(cx as int, cy as int, r, dx + 1, dy as int);
                if dx * dx + dy * dy <= r2 {
                    lemma_painted_ext(start, ww, wh, grown, next, color);
                } else {
                    lemma_painted_ext(start, ww, wh, before, next, color);
                }
            }
            dx = dx + 1;
        }
        proof {
            assert forall|x: int, y: int| in_frame(ww, wh, x, y) implies disc_scanned(
                cx as int,
                cy as int,
                r,
                dx as int,
                dy as int,
            )(x, y) == disc_scanned(cx as int, cy as int, r, -r, dy + 1)(x, y) by {
                if disc_shape(cx as int, cy as int, r)(x, y) {
                    lemma_disc_bounds(x - cx, y - cy, r);
                }
            }
            lemma_painted_ext(
                start,
                ww,
                wh,
                disc_scanned(cx as int, cy as int, r, dx as int, dy as int),
                disc_scanned(cx as int, cy as int, r, -r, dy + 1),
                color,
            );
        }
        dy = dy + 1;
    }
    proof {
        assert forall|x: int, y: int| in_frame(ww, wh, x, y) implies disc_scanned(
            cx as int,
            cy as int,
            r,
            -r,
            dy as int,
        )(x, y) == disc_shape(cx as int, cy as int, r)(x, y) by {
            if disc_shape(cx as int, cy as int, r)(x, y) {
                lemma_disc_bounds(x - cx, y - cy, r);
            }
        }
        lemma_painted_ext(
            start,
            ww,
            wh,
            disc_scanned(cx as int, cy as int, r, -r, dy as int),
            disc_shape(cx as int, cy as int, r),
            color,
        );
    }
}

/// State of the line walk: position `(x, y)` and error term `err`, heading
/// for `(x1, y1)`; `dx`, `dy` (the latter not positive) are the spans of the
/// whole segment and `sx`, `sy` the directions of travel. The walk still has
/// `sx * (x1 - x)` columns and `sy * (y1 - y)` rows to go, and the error term
/// is determined by them. The error term stays within twice the spans, and
/// the walk always steps along the longer axis.
pub open spec fn walk_ok(x: int, y: int, err: int, x1: int, y1: int, dx: int, dy: int, sx: int, sy: int) -> bool {
    let rx = sx * (x1 - x);
    let ry = sy * (y1 - y);
    &&& sx == 1 || sx == -1
    &&& sy == 1 || sy == -1
    &&& 0 <= rx <= dx
    &&& 0 <= ry <= -dy
    &&& err == dx + dy - rx * dy - ry * dx
    &&& 2 * dy <= err <= 2 * dx
    &&& dx >= -dy ==> 2 * err >= dy
    &&& -dy >= dx ==> 2 * err <= dx
}

/// Columns plus rows still to go.
pub open spec fn walk_left(x: int, y: int, x1: int, y1: int, sx: int, sy: int) -> int {
    sx * (x1 - x) + sy * (y1 - y)
}

/// One step of the walk cannot overshoot the target, always moves, and
/// keeps the state consistent.
pub proof fn lemma_walk_step(x: int, y: int, err: int, x1: int, y1: int, dx: int, dy: int, sx: int, sy: int)
    requires
        walk_ok(x, y, err, x1, y1, dx, dy, sx, sy),
        !(x == x1 && y == y1),
    ensures
        ({
            let e2 = 2 * err;
            let nx = if e2 >= dy { x + sx } else { x };
            let ne = if e2 >= dy { err + dy } else { err };
            let ny = if e2 <= dx { y + sy } else { y };
            let ne2 = if e2 <= dx { ne + dx } else { ne };
            &&& walk_ok(nx, ny, ne2, x1, y1, dx, dy, sx, sy)
            &&& 0 <= walk_left(nx, ny, x1, y1, sx, sy) < walk_left(x, y, x1, y1, sx, sy)
            &&& (nx == x || nx == x + sx)
            &&& (ny == y || ny == y + sy)
            &&& !(nx == x && ny == y)
        }),
{
    let rx = sx * (x1 - x);
    let ry = sy * (y1 - y);
    let e2 = 2 * err;
    let xs = e2 >= dy;
    let ys = e2 <= dx;
    assert(rx == 0 <==> x == x1) by (nonlinear_arith)
        requires
            rx == sx * (x1 - x),
            sx == 1 || sx == -1,
    ;
    assert(ry == 0 <==> y == y1) by (nonlinear_arith)
        requires
            ry == sy * (y1 - y),
            sy == 1 || sy == -1,
    ;
    if rx == 0 {
        assert(ry >= 1);
        assert(rx * dy == 0) by (nonlinear_arith)
            requires
                rx == 0,
        ;
        assert(ry * dx >= dx) by (nonlinear_arith)
            requires
                ry >= 1,
                dx >= 0,
        ;
        assert(err <= dy);
        assert(dy < 0);
        assert(!xs);
    }
    if ry == 0 {
        assert(rx >= 1);
        assert(ry * dx == 0) by (nonlinear_arith)
            requires
                ry == 0,
        ;
        assert(-(rx * dy) >= -dy) by (nonlinear_arith)
            requires
                rx >= 1,
                dy <= 0,
        ;
        assert(err >= dx);
        assert(dx > 0);
        assert(!ys);
    }
    assert(xs ==> rx >= 1);
    assert(ys ==> ry >= 1);
    assert(xs || ys);
    let nx = if xs { x + sx } else { x };
    let ny = if ys { y + sy } else { y };
    let nrx = if xs { rx - 1 } else { rx };
    let nry = if ys { ry - 1 } else { ry };
    assert(sx * (x1 - nx) == nrx) by (nonlinear_arith)
        requires
            sx == 1 || sx == -1,
            rx == sx * (x1 - x),
            nx == (if xs { x + sx } else { x }),
            nrx == (if xs { rx - 1 } else { rx }),
    ;
    assert(sy * (y1 - ny) == nry) by (nonlinear_arith)
        requires
            sy == 1 || sy == -1,
            ry == sy * (y1 - y),
            ny == (if ys { y + sy } else { y }),
            nry == (if ys { ry - 1 } else { ry }),
    ;
    assert((rx - 1) * dy == rx * dy - dy) by (nonlinear_arith);
    assert((ry - 1) * dx == ry * dx - dx) by (nonlinear_arith);
}

/// The pixels visited by the walk from the given state, in order.
pub open spec fn line_walk(x: int, y: int, err: int, x1: int, y1: int, dx: int, dy: int, sx: int, sy: int) -> Seq<(int, int)>
    decreases walk_left(x, y, x1, y1, sx, sy),
{
    if !walk_ok(x, y, err, x1, y1, dx, dy, sx, sy) {
        Seq::empty()
    } else if x == x1 && y == y1 {
        seq![(x, y)]
    } else {
        let e2 = 2 * err;
        let nx = if e2 >= dy { x + sx } else { x };
        let ne = if e2 >= dy { err + dy } else { err };
        let ny = if e2 <= dx { y + sy } else { y };
        let ne2 = if e2 <= dx { ne + dx } else { ne };
        proof {
            lemma_walk_step(x, y, err, x1, y1, dx, dy, sx, sy);
        }
        seq![(x, y)] + line_walk(nx, ny, ne2, x1, y1, dx, dy, sx, sy)
    }
}

/// `|v|`.
pub open spec fn abs_int(v: int) -> int {
    if v < 0 { -v } else { v }
}

/// The pixels of the segment from `(x0, y0)` to `(x1, y1)`, in drawing
/// order, as chosen by Bresenham's error-accumulating walk.
pub open spec fn line_pixels(x0: int, y0: int, x1: int, y1: int) -> Seq<(int, int)> {
    let dx = abs_int(x1 - x0);
    let dy = -abs_int(y1 - y0);
    let sx = if x0 < x1 { 1int } else { -1int };
    let sy = if y0 < y1 { 1int } else { -1int };
    line_walk(x0, y0, dx + dy, x1, y1, dx, dy, sx, sy)
}

/// The segment's spans are small enough for twice the walk's error term
/// (which stays within twice the spans) to fit an `i64`.
pub open spec fn line_fits(x0: int, y0: int, x1: int, y1: int) -> bool {
    &&& abs_int(x1 - x0) <= i64::MAX / 4
    &&& abs_int(y1 - y0) <= i64::MAX / 4
}

/// Initial state of the walk for a segment.
proof fn lemma_walk_start(x0: int, y0: int, x1: int, y1: int)
    ensures
        walk_ok(
            x0,
            y0,
            abs_int(x1 - x0) - abs_int(y1 - y0),
            x1,
            y1,
            abs_int(x1 - x0),
            -abs_int(y1 - y0),
            if x0 < x1 { 1int } else { -1int },
            if y0 < y1 { 1int } else { -1int },
        ),
{
    let dx = abs_int(x1 - x0);
    let dy = -abs_int(y1 - y0);
    let sx = if x0 < x1 { 1int } else { -1int };
    let sy = if y0 < y1 { 1int } else { -1int };
    assert(sx * (x1 - x0) == dx) by (nonlinear_arith)
        requires
            dx == abs_int(x1 - x0),
            sx == (if x0 < x1 { 1int } else { -1int }),
    ;
    assert(sy * (y1 - y0) == -dy) by (nonlinear_arith)
        requires
            dy == -abs_int(y1 - y0),
            sy == (if y0 < y1 { 1int } else { -1int }),
    ;
    let rx = sx * (x1 - x0);
    let ry = sy * (y1 - y0);
    assert(rx * dy == dx * dy);
    assert(ry * dx == (-dy) * dx);
    assert((-dy) * dx == -(dx * dy)) by (nonlinear_arith);
}

/// `q` follows `p` on a walk heading in directions `sx`, `sy`: a distinct
/// neighbouring pixel (diagonals included), never stepping backwards.
pub open spec fn walk_step(p: (int, int), q: (int, int), sx: int, sy: int) -> bool {
    &&& q.0 == p.0 || q.0 == p.0 + sx
    &&& q.1 == p.1 || q.1 == p.1 + sy
    &&& q != p
}

proof fn lemma_walk_shape(x: int, y: int, err: int, x1: int, y1: int, dx: int, dy: int, sx: int, sy: int)
    requires
        walk_ok(x, y, err, x1, y1, dx, dy, sx, sy),
    ensures
        ({
            let w = line_walk(x, y, err, x1, y1, dx, dy, sx, sy);
            &&& w.len() >= 1
            &&& w[0] == (x, y)
            &&& w[w.len() - 1] == (x1, y1)
            &&& forall|i: int| 0 <= i < w.len() - 1 ==> walk_step(#[trigger] w[i], w[i + 1], sx, sy)
            &&& w.len() == (if dx >= -dy { sx * (x1 - x) } else { sy * (y1 - y) }) + 1
            &&& forall|i: int|
                0 <= i < w.len() ==> 0 <= sx * (x1 - (#[trigger] w[i]).0) <= sx * (x1 - x) && 0 <= sy * (y1
                    - w[i].1) <= sy * (y1 - y)
        }),
    decreases walk_left(x, y, x1, y1, sx, sy),
{
    assert(sx * (x1 - x) == 0 <==> x == x1) by (nonlinear_arith)
        requires
            sx == 1 || sx == -1,
    ;
    assert(sy * (y1 - y) == 0 <==> y == y1) by (nonlinear_arith)
        requires
            sy == 1 || sy == -1,
    ;
    if !(x == x1 && y == y1) {
        lemma_walk_step(x, y, err, x1, y1, dx, dy, sx, sy);
        let e2 = 2 * err;
        let nx = if e2 >= dy { x + sx } else { x };
        let ne = if e2 >= dy { err + dy } else { err };
        let ny = if e2 <= dx { y + sy } else { y };
        let ne2 = if e2 <= dx { ne + dx } else { ne };
        lemma_walk_shape(nx, ny, ne2, x1, y1, dx, dy, sx, sy);
        let rest = line_walk(nx, ny, ne2, x1, y1, dx, dy, sx, sy);
        let w = line_walk(x, y, err, x1, y1, dx, dy, sx, sy);
        assert(w == seq![(x, y)] + rest);
        assert forall|i: int| 0 <= i < w.len() - 1 implies walk_step(#[trigger] w[i], w[i + 1], sx, sy) by {
            if i > 0 {
                assert(w[i] == rest[i - 1]);
                assert(w[i + 1] == rest[i]);
            }
        }
        assert(sx * (x1 - nx) <= sx * (x1 - x) && sy * (y1 - ny) <= sy * (y1 - y)) by (nonlinear_arith)
            requires
                sx == 1 || sx == -1,
                sy == 1 || sy == -1,
                nx == x || nx == x + sx,
                ny == y || ny == y + sy,
        ;
        assert(dx >= -dy ==> sx * (x1 - nx) == sx * (x1 - x) - 1) by (nonlinear_arith)
            requires
                sx == 1 || sx == -1,
                dx >= -dy ==> 2 * err >= dy,
                nx == (if e2 >= dy { x + sx } else { x }),
                e2 == 2 * err,
        ;
        assert(-dy > dx ==> sy * (y1 - ny) == sy * (y1 - y) - 1) by (nonlinear_arith)
            requires
                sy == 1 || sy == -1,
                -dy >= dx ==> 2 * err <= dx,
                ny == (if e2 <= dx { y + sy } else { y }),
                e2 == 2 * err,
        ;
        assert forall|i: int| 0 <= i < w.len() implies 0 <= sx * (x1 - (#[trigger] w[i]).0) <= sx * (x1 - x) && 0
            <= sy * (y1 - w[i].1) <= sy * (y1 - y) by {
            if i > 0 {
                assert(w[i] == rest[i - 1]);
            }
        }
    }
}

/// `v` lies between `a` and `b` (in either order).
pub open spec fn between(v: int, a: int, b: int) -> bool {
    (a <= v <= b) || (b <= v <= a)
}

/// The segment from `(x0, y0)` to `(x1, y1)` starts at `(x0, y0)`, ends at
/// `(x1, y1)`, and each pixel after the first is a distinct neighbour of
/// the one before it, one step closer to the end on each axis it moves on:
/// the drawn line is connected and has no gaps. It has one pixel per column
/// or per row, whichever is more (`max(|x1 - x0|, |y1 - y0|) + 1` pixels),
/// all within the rectangle spanned by the two ends.
pub proof fn lemma_line_pixels_connected(x0: int, y0: int, x1: int, y1: int)
    ensures
        ({
            let w = line_pixels(x0, y0, x1, y1);
            let sx = if x0 < x1 { 1int } else { -1int };
            let sy = if y0 < y1 { 1int } else { -1int };
            &&& w.len() >= 1
            &&& w[0] == (x0, y0)
            &&& w[w.len() - 1] == (x1, y1)
            &&& forall|i: int| 0 <= i < w.len() - 1 ==> walk_step(#[trigger] w[i], w[i + 1], sx, sy)
            &&& w.len() == (if abs_int(x1 - x0) >= abs_int(y1 - y0) { abs_int(x1 - x0) } else { abs_int(y1 - y0) }) + 1
            &&& forall|i: int|
                0 <= i < w.len() ==> between((#[trigger] w[i]).0, x0, x1) && between(w[i].1, y0, y1)
        }),
{
    lemma_walk_start(x0, y0, x1, y1);
    let w = line_pixels(x0, y0, x1, y1);
    let sx = if x0 < x1 { 1int } else { -1int };
    let sy = if y0 < y1 { 1int } else { -1int };
    assert(sx * (x1 - x0) == abs_int(x1 - x0)) by (nonlinear_arith)
        requires
            sx == (if x0 < x1 { 1int } else { -1int }),
            abs_int(x1 - x0) == (if x1 - x0 < 0 { -(x1 - x0) } else { x1 - x0 }),
    ;
    assert(sy * (y1 - y0) == abs_int(y1 - y0)) by (nonlinear_arith)
        requires
            sy == (if y0 < y1 { 1int } else { -1int }),
            abs_int(y1 - y0) == (if y1 - y0 < 0 { -(y1 - y0) } else { y1 - y0 }),
    ;
    lemma_walk_shape(
        x0,
        y0,
        abs_int(x1 - x0) - abs_int(y1 - y0),
        x1,
        y1,
        abs_int(x1 - x0),
        -abs_int(y1 - y0),
        if x0 < x1 { 1int } else { -1int },
        if y0 < y1 { 1int } else { -1int },
    );
    assert forall|i: int| 0 <= i < w.len() implies between((#[trigger] w[i]).0, x0, x1) && between(w[i].1, y0, y1) by {
        assert(0 <= sx * (x1 - w[i].0) <= sx * (x1 - x0));
        assert(0 <= sy * (y1 - w[i].1) <= sy * (y1 - y0));
    }
}

/// Draws the segment from `(x0, y0)` to `(x1, y1)` (both ends included)
/// with Bresenham's walk, clipped to the frame.
pub fn draw_line(buf: &mut [u32], ww: usize, wh: usize, x0: i64, y0: i64, x1: i64, y1: i64, color: u32)
    requires
        frame_ok(old(buf)@.len(), ww, wh),
        line_fits(x0 as int, y0 as int, x1 as int, y1 as int),
    ensures
        final(buf)@ == painted(
            old(buf)@,
            ww,
            wh,
            |x: int, y: int| line_pixels(x0 as int, y0 as int, x1 as int, y1 as int).contains((x, y)),
            color,
        ),
{
    let ghost start = buf@;
    let ghost full = line_pixels(x0 as int, y0 as int, x1 as int, y1 as int);
    let ghost adx = abs_int(x1 - x0);
    let ghost ady = abs_int(y1 - y0);
    let dx = if x1 >= x0 { x1 - x0 } else { x0 - x1 };
    let sx: i64 = if x0 < x1 { 1 } else { -1 };
    let dy = if y1 >= y0 { y0 - y1 } else { y1 - y0 };
    let sy: i64 = if y0 < y1 { 1 } else { -1 };
    let mut err = dx + dy;
    let mut x = x0;
    let mut y = y0;
    let ghost mut visited: Seq<(int, int)> = Seq::empty();
    proof {
        lemma_walk_start(x0 as int, y0 as int, x1 as int, y1 as int);
        lemma_painted_none(start, ww, wh, color);
        lemma_painted_ext(start, ww, wh, |p: int, q: int| false, |p: int, q: int| visited.contains((p, q)), color);
        assert(visited + full =~= full);
    }
    loop
        invariant_except_break
            visited + line_walk(
                x as int,
                y as int,
                err as int,
                x1 as int,
                y1 as int,
                dx as int,
                dy as int,
                sx as int,
                sy as int,
            ) == full,
            buf@ == painted(start, ww, wh, |p: int, q: int| visited.contains((p, q)), color),
        invariant
            frame_ok(start.len(), ww, wh),
            dx == adx,
            dy == -ady,
            adx <= i64::MAX / 4,
            ady <= i64::MAX / 4,
            walk_ok(x as int, y as int, err as int, x1 as int, y1 as int, dx as int, dy as int, sx as int, sy as int),
        ensures
            buf@ == painted(start, ww, wh, |p: int, q: int| full.contains((p, q)), color),
        decreases walk_left(x as int, y as int, x1 as int, y1 as int, sx as int, sy as int),
    {
        proof {
            lemma_painted_add_point(
                start,
                buf@,
                ww,
                wh,
                |p: int, q: int| visited.contains((p, q)),
                color,
                x as int,
                y as int,
            );
        }
        put_pixel(buf, ww, wh, x, y, color);
        let ghost old_visited = visited;
        proof {
            visited = visited.push((x as int, y as int));
            assert forall|p: int, q: int| in_frame(ww, wh, p, q) implies (old_visited.contains((p, q)) || (p == x
                && q == y)) == visited.contains((p, q)) by {
                if p == x && q == y {
                    assert(visited[visited.len() - 1] == (p, q));
                }
                if old_visited.contains((p, q)) {
                    let i = choose|i: int| 0 <= i < old_visited.len() && old_visited[i] == (p, q);
                    assert(visited[i] == (p, q));
                }
            }
            lemma_painted_ext(
                start,
                ww,
                wh,
                |p: int, q: int| old_visited.contains((p, q)) || (p == x && q == y),
                |p: int, q: int| visited.contains((p, q)),
                color,
            );
        }
        if x == x1 && y == y1 {
            proof {
                assert(visited =~= full);
                lemma_painted_ext(
                    start,
                    ww,
                    wh,
                    |p: int, q: int| visited.contains((p, q)),
                    |p: int, q: int| full.contains((p, q)),
                    color,
                );
            }
            break;
        }
        proof {
            lemma_walk_step(x as int, y as int, err as int, x1 as int, y1 as int, dx as int, dy as int, sx as int, sy as int);
        }
        let e2 = 2 * err;
        let ghost (ox, oy, oerr) = (x as int, y as int, err as int);
        if e2 >= dy {
            err = err + dy;
            x = x + sx;
        }
        if e2 <= dx {
            err = err + dx;
            y = y + sy;
        }
        proof {
            let rest = line_walk(x as int, y as int, err as int, x1 as int, y1 as int, dx as int, dy as int, sx as int, sy as int);
            assert(line_walk(ox, oy, oerr, x1 as int, y1 as int, dx as int, dy as int, sx as int, sy as int)
                == seq![(ox, oy)] + rest);
            assert(visited + rest =~= old_visited + (seq![(ox, oy)] + rest));
        }
    }
}

/// The bitmap font: five rows of three pixels per character, one `u8` per
/// row, its three low bits being the pixels from left to right. Covers the
/// capital letters, the digits and `: . - + % /`; anything else is blank.
pub open spec fn font(c: char) -> Seq<u8> {
    match c {
        'A' => seq![0b010, 0b101, 0b111, 0b101, 0b101],
        'B' => seq![0b110, 0b101, 0b110, 0b101, 0b110],
        'C' => seq![0b011, 0b100, 0b100, 0b100, 0b011],
        'D' => seq![0b110, 0b101, 0b101, 0b101, 0b110],
        'E' => seq![0b111, 0b100, 0b110, 0b100, 0b111],
        'F' => seq![0b111, 0b100, 0b110, 0b100, 0b100],
        'G' => seq![0b011, 0b100, 0b101, 0b101, 0b011],
        'H' => seq![0b101, 0b101, 0b111, 0b101, 0b101],
        'I' => seq![0b111, 0b010, 0b010, 0b010, 0b111],
        'J' => seq![0b001, 0b001, 0b001, 0b101, 0b010],
        'K' => seq![0b101, 0b101, 0b110, 0b101, 0b101],
        'L' => seq![0b100, 0b100, 0b100, 0b100, 0b111],
        'M' => seq![0b101, 0b111, 0b111, 0b101, 0b101],
        'N' => seq![0b101, 0b111, 0b111, 0b111, 0b101],
        'O' => seq![0b010, 0b101, 0b101, 0b101, 0b010],
        'P' => seq![0b110, 0b101, 0b110, 0b100, 0b100],
        'Q' => seq![0b010, 0b101, 0b101, 0b111, 0b011],
        'R' => seq![0b110, 0b101, 0b110, 0b101, 0b101],
        'S' => seq![0b011, 0b100, 0b010, 0b001, 0b110],
        'T' => seq![0b111, 0b010, 0b010, 0b010, 0b010],
        'U' => seq![0b101, 0b101, 0b101, 0b101, 0b111],
        'V' => seq![0b101, 0b101, 0b101, 0b101, 0b010],
        'W' => seq![0b101, 0b101, 0b111, 0b111, 0b101],
        'X' => seq![0b101, 0b101, 0b010, 0b101, 0b101],
        'Y' => seq![0b101, 0b101, 0b010, 0b010, 0b010],
        'Z' => seq![0b111, 0b001, 0b010, 0b100, 0b111],
        '0' => seq![0b111, 0b101, 0b101, 0b101, 0b111],
        '1' => seq![0b010, 0b110, 0b010, 0b010, 0b111],
        '2' => seq![0b111, 0b001, 0b111, 0b100, 0b111],
        '3' => seq![0b111, 0b001, 0b111, 0b001, 0b111],
        '4' => seq![0b101, 0b101, 0b111, 0b001, 0b001],
        '5' => seq![0b111, 0b100, 0b111, 0b001, 0b111],
        '6' => seq![0b111, 0b100, 0b111, 0b101, 0b111],
        '7' => seq![0b111, 0b001, 0b001, 0b001, 0b001],
        '8' => seq![0b111, 0b101, 0b111, 0b101, 0b111],
        '9' => seq![0b111, 0b101, 0b111, 0b001, 0b111],
        ':' => seq![0b000, 0b010, 0b000, 0b010, 0b000],
        '.' => seq![0b000, 0b000, 0b000, 0b000, 0b010],
        '-' => seq![0b000, 0b000, 0b111, 0b000, 0b000],
        '+' => seq![0b000, 0b010, 0b111, 0b010, 0b000],
        '%' => seq![0b101, 0b001, 0b010, 0b100, 0b101],
        '/' => seq![0b001, 0b001, 0b010, 0b100, 0b100],
        _ => seq![0b000, 0b000, 0b000, 0b000, 0b000],
    }
}

/// ASCII lower-case letters mapped to upper case; everything else as is.
pub open spec fn ascii_upper(c: char) -> char {
    if 'a' <= c && c <= 'z' {
        ((c as int) - 32) as char
    } else {
        c
    }
}

/// The characters the font draws (letters in either case).
pub open spec fn glyph_covers(c: char) -> bool {
    let u = ascii_upper(c);
    ('A' <= u && u <= 'Z') || ('0' <= u && u <= '9') || u == ':' || u == '.' || u == '-' || u == '+'
        || u == '%' || u == '/'
}

/// The rows drawn for `c`: letters are drawn in upper case.
pub open spec fn glyph_rows(c: char) -> Seq<u8> {
    font(ascii_upper(c))
}

/// The five rows of three pixels that draw `c`. Letters of either case share
/// their upper-case glyph; a character the font does not cover is blank.
pub fn glyph(c: char) -> (rows: [u8; 5])
    ensures
        rows@ == glyph_rows(c),
        forall|i: int| 0 <= i < 5 ==> #[trigger] rows@[i] < 8,
        (rows@ == seq![0u8, 0u8, 0u8, 0u8, 0u8]) <==> !glyph_covers(c),
{
    let rows = match c {
        'A' | 'a' => [0b010, 0b101, 0b111, 0b101, 0b101],
        'B' | 'b' => [0b110, 0b101, 0b110, 0b101, 0b110],
        'C' | 'c' => [0b011, 0b100, 0b100, 0b100, 0b011],
        'D' | 'd' => [0b110, 0b101, 0b101, 0b101, 0b110],
        'E' | 'e' => [0b111, 0b100, 0b110, 0b100, 0b111],
        'F' | 'f' => [0b111, 0b100, 0b110, 0b100, 0b100],
        'G' | 'g' => [0b011, 0b100, 0b101, 0b101, 0b011],
        'H' | 'h' => [0b101, 0b101, 0b111, 0b101, 0b101],
        'I' | 'i' => [0b111, 0b010, 0b010, 0b010, 0b111],
        'J' | 'j' => [0b001, 0b001, 0b001, 0b101, 0b010],
        'K' | 'k' => [0b101, 0b101, 0b110, 0b101, 0b101],
        'L' | 'l' => [0b100, 0b100, 0b100, 0b100, 0b111],
        'M' | 'm' => [0b101, 0b111, 0b111, 0b101, 0b101],
        'N' | 'n' => [0b101, 0b111, 0b111, 0b111, 0b101],
        'O' | 'o' => [0b010, 0b101, 0b101, 0b101, 0b010],
        'P' | 'p' => [0b110, 0b101, 0b110, 0b100, 0b100],
        'Q' | 'q' => [0b010, 0b101, 0b101, 0b111, 0b011],
        'R' | 'r' => [0b110, 0b101, 0b110, 0b101, 0b101],
        'S' | 's' => [0b011, 0b100, 0b010, 0b001, 0b110],
        'T' | 't' => [0b111, 0b010, 0b010, 0b010, 0b010],
        'U' | 'u' => [0b101, 0b101, 0b101, 0b101, 0b111],
        'V' | 'v' => [0b101, 0b101, 0b101, 0b101, 0b010],
        'W' | 'w' => [0b101, 0b101, 0b111, 0b111, 0b101],
        'X' | 'x' => [0b101, 0b101, 0b010, 0b101, 0b101],
        'Y' | 'y' => [0b101, 0b101, 0b010, 0b010, 0b010],
        'Z' | 'z' => [0b111, 0b001, 0b010, 0b100, 0b111],
        '0' => [0b111, 0b101, 0b101, 0b101, 0b111],
        '1' => [0b010, 0b110, 0b010, 0b010, 0b111],
        '2' => [0b111, 0b001, 0b111, 0b100, 0b111],
        '3' => [0b111, 0b001, 0b111, 0b001, 0b111],
        '4' => [0b101, 0b101, 0b111, 0b001, 0b001],
        '5' => [0b111, 0b100, 0b111, 0b001, 0b111],
        '6' => [0b111, 0b100, 0b111, 0b101, 0b111],
        '7' => [0b111, 0b001, 0b001, 0b001, 0b001],
        '8' => [0b111, 0b101, 0b111, 0b101, 0b111],
        '9' => [0b111, 0b101, 0b111, 0b001, 0b111],
        ':' => [0b000, 0b010, 0b000, 0b010, 0b000],
        '.' => [0b000, 0b000, 0b000, 0b000, 0b010],
        '-' => [0b000, 0b000, 0b111, 0b000, 0b000],
        '+' => [0b000, 0b010, 0b111, 0b010, 0b000],
        '%' => [0b101, 0b001, 0b010, 0b100, 0b101],
        '/' => [0b001, 0b001, 0b010, 0b100, 0b100],
        _ => [0b000, 0b000, 0b000, 0b000, 0b000],
    };
    assert(rows@ =~= glyph_rows(c));
    rows
}

/// A letter and its upper-case form are drawn alike.
pub proof fn lemma_glyph_case_insensitive(c: char)
    ensures
        glyph_rows(c) == glyph_rows(ascii_upper(c)),
        glyph_covers(c) == glyph_covers(ascii_upper(c)),
{
}

/// The five rows of a glyph read as one 15-bit number, top row first.
spec fn glyph_code(rows: Seq<u8>) -> int {
    rows[0] * 4096 + rows[1] * 512 + rows[2] * 64 + rows[3] * 8 + rows[4]
}

/// The character whose glyph reads as `code`, for reading glyphs back.
spec fn char_of_code(code: int) -> char {
    if code == 11245 {
        'A'
    } else if code == 27566 {
        'B'
    } else if code == 14627 {
        'C'
    } else if code == 27502 {
        'D'
    } else if code == 31143 {
        'E'
    } else if code == 31140 {
        'F'
    } else if code == 14699 {
        'G'
    } else if code == 23533 {
        'H'
    } else if code == 29847 {
        'I'
    } else if code == 4714 {
        'J'
    } else if code == 23469 {
        'K'
    } else if code == 18727 {
        'L'
    } else if code == 24557 {
        'M'
    } else if code == 24573 {
        'N'
    } else if code == 11114 {
        'O'
    } else if code == 27556 {
        'P'
    } else if code == 11131 {
        'Q'
    } else if code == 27565 {
        'R'
    } else if code == 14478 {
        'S'
    } else if code == 29842 {
        'T'
    } else if code == 23407 {
        'U'
    } else if code == 23402 {
        'V'
    } else if code == 23549 {
        'W'
    } else if code == 23213 {
        'X'
    } else if code == 23186 {
        'Y'
    } else if code == 29351 {
        'Z'
    } else if code == 31599 {
        '0'
    } else if code == 11415 {
        '1'
    } else if code == 29671 {
        '2'
    } else if code == 29647 {
        '3'
    } else if code == 23497 {
        '4'
    } else if code == 31183 {
        '5'
    } else if code == 31215 {
        '6'
    } else if code == 29257 {
        '7'
    } else if code == 31727 {
        '8'
    } else if code == 31695 {
        '9'
    } else if code == 1040 {
        ':'
    } else if code == 2 {
        '.'
    } else if code == 448 {
        '-'
    } else if code == 1488 {
        '+'
    } else if code == 21157 {
        '%'
    } else if code == 4772 {
        '/'
    } else {
        ' '
    }
}

/// A covered character can be read back from its glyph.
proof fn lemma_glyph_reads_back(c: char)
    requires
        glyph_covers(c),
    ensures
        char_of_code(glyph_code(glyph_rows(c))) == ascii_upper(c),
{
}

/// The font tells its characters apart: two covered characters that are not
/// the same letter (in either case) have different glyphs.
pub proof fn lemma_glyphs_distinct(c1: char, c2: char)
    requires
        glyph_covers(c1),
        glyph_covers(c2),
        ascii_upper(c1) != ascii_upper(c2),
    ensures
        glyph_rows(c1) != glyph_rows(c2),
{
    lemma_glyph_reads_back(c1);
    lemma_glyph_reads_back(c2);
}

/// Pixel `(cx, ry)` (column, row) of the glyph of `c` is set.
pub open spec fn glyph_bit(c: char, ry: int, cx: int) -> bool {
    (glyph_rows(c)[ry] >> ((2 - cx) as u8)) & 1u8 == 1u8
}

/// The square of side `scale` that draws cell `(cx, ry)` of the `i`-th
/// character of a text starting at `(x0, y0)`: each character advances the
/// pen by four cells (three columns and a gap).
pub open spec fn glyph_cell(x0: int, y0: int, scale: int, i: int, ry: int, cx: int) -> spec_fn(int, int) -> bool {
    rect_shape(x0 + 4 * scale * i + cx * scale, y0 + ry * scale, scale, scale)
}

/// The pixels covered by the cells numbered below `k`, where cell
/// `(i, ry, cx)` has number `15 * i + 3 * ry + cx`.
pub open spec fn text_cells_below(text: Seq<char>, x0: int, y0: int, scale: int, k: int) -> spec_fn(int, int) -> bool {
    |x: int, y: int|
        exists|i: int, ry: int, cx: int|
            0 <= i < text.len() && 0 <= ry < 5 && 0 <= cx < 3 && 15 * i + 3 * ry + cx < k
                && #[trigger] glyph_bit(text[i], ry, cx) && #[trigger] glyph_cell(x0, y0, scale, i, ry, cx)(x, y)
}

/// The pixels that `text` covers when drawn from `(x0, y0)` at `scale`.
pub open spec fn text_shape(text: Seq<char>, x0: int, y0: int, scale: int) -> spec_fn(int, int) -> bool {
    text_cells_below(text, x0, y0, scale, 15 * (text.len() as int))
}

/// Writing two texts one after the other is writing the first, then the
/// second from where the pen stopped, `4 * scale` columns per character of
/// the first further on.
pub proof fn lemma_text_concat(t1: Seq<char>, t2: Seq<char>, x0: int, y0: int, scale: int, x: int, y: int)
    ensures
        text_shape(t1 + t2, x0, y0, scale)(x, y) <==> (text_shape(t1, x0, y0, scale)(x, y) || text_shape(
            t2,
            x0 + 4 * scale * t1.len(),
            y0,
            scale,
        )(x, y)),
{
    let t = t1 + t2;
    let n1 = t1.len() as int;
    let x1 = x0 + 4 * scale * n1;
    if text_shape(t, x0, y0, scale)(x, y) {
        let (i, ry, cx) = choose|i: int, ry: int, cx: int|
            0 <= i < t.len() && 0 <= ry < 5 && 0 <= cx < 3 && 15 * i + 3 * ry + cx < 15 * (t.len() as int)
                && #[trigger] glyph_bit(t[i], ry, cx) && #[trigger] glyph_cell(x0, y0, scale, i, ry, cx)(x, y);
        if i < n1 {
            assert(t[i] == t1[i]);
            assert(glyph_bit(t1[i], ry, cx) && glyph_cell(x0, y0, scale, i, ry, cx)(x, y));
        } else {
            let k = i - n1;
            assert(t[i] == t2[k]);
            assert(x1 + 4 * scale * k == x0 + 4 * scale * i) by (nonlinear_arith)
                requires
                    x1 == x0 + 4 * scale * n1,
                    k == i - n1,
            ;
            assert(glyph_cell(x1, y0, scale, k, ry, cx) == glyph_cell(x0, y0, scale, i, ry, cx));
            assert(glyph_bit(t2[k], ry, cx) && glyph_cell(x1, y0, scale, k, ry, cx)(x, y));
        }
    }
    if text_shape(t1, x0, y0, scale)(x, y) {
        let (i, ry, cx) = choose|i: int, ry: int, cx: int|
            0 <= i < t1.len() && 0 <= ry < 5 && 0 <= cx < 3 && 15 * i + 3 * ry + cx < 15 * (t1.len() as int)
                && #[trigger] glyph_bit(t1[i], ry, cx) && #[trigger] glyph_cell(x0, y0, scale, i, ry, cx)(x, y);
        assert(t[i] == t1[i]);
        assert(glyph_bit(t[i], ry, cx) && glyph_cell(x0, y0, scale, i, ry, cx)(x, y));
    }
    if text_shape(t2, x1, y0, scale)(x, y) {
        let (k, ry, cx) = choose|k: int, ry: int, cx: int|
            0 <= k < t2.len() && 0 <= ry < 5 && 0 <= cx < 3 && 15 * k + 3 * ry + cx < 15 * (t2.len() as int)
                && #[trigger] glyph_bit(t2[k], ry, cx) && #[trigger] glyph_cell(x1, y0, scale, k, ry, cx)(x, y);
        let i = k + n1;
        assert(t[i] == t2[k]);
        assert(x1 + 4 * scale * k == x0 + 4 * scale * i) by (nonlinear_arith)
            requires
                x1 == x0 + 4 * scale * n1,
                i == k + n1,
        ;
        assert(glyph_cell(x1, y0, scale, k, ry, cx) == glyph_cell(x0, y0, scale, i, ry, cx));
        assert(glyph_bit(t[i], ry, cx) && glyph_cell(x0, y0, scale, i, ry, cx)(x, y));
    }
}

/// Every pen position and cell corner of the text fits an `i64`: the pen
/// step `4 * scale`, the pen's last position `x0 + 4 * scale * n`, and the
/// bottom of the glyph cells `y0 + 5 * scale` (nothing when there is no
/// character to draw).
pub open spec fn text_fits(x0: int, y0: int, scale: int, n: int) -> bool {
    n == 0 || {
        &&& i64::MIN <= 4 * scale <= i64::MAX
        &&& i64::MIN <= x0 + 4 * scale * n <= i64::MAX
        &&& i64::MIN <= y0 + 5 * scale <= i64::MAX
    }
}

/// Painting a second shape in the same colour paints their union.
pub proof fn lemma_painted_union(
    old: Seq<u32>,
    ww: usize,
    wh: usize,
    s1: spec_fn(int, int) -> bool,
    s2: spec_fn(int, int) -> bool,
    color: u32,
)
    ensures
        painted(painted(old, ww, wh, s1, color), ww, wh, s2, color) == painted(
            old,
            ww,
            wh,
            |x: int, y: int| s1(x, y) || s2(x, y),
            color,
        ),
{
    assert(painted(painted(old, ww, wh, s1, color), ww, wh, s2, color) =~= painted(
        old,
        ww,
        wh,
        |x: int, y: int| s1(x, y) || s2(x, y),
        color,
    ));
}

/// A multiple `k * s` of the step `s`, for `0 <= k <= n`, lies between `0`
/// and `n * s`.
proof fn lemma_multiple_between(s: int, k: int, n: int)
    requires
        0 <= k <= n,
    ensures
        between(s * k, 0, s * n),
{
    assert(between(s * k, 0, s * n)) by (nonlinear_arith)
        requires
            0 <= k <= n,
            between(s * k, 0, s * n) == ((0 <= s * k <= s * n) || (s * n <= s * k <= 0)),
    ;
}

/// Draws `text` with the bitmap font from `(x0, y0)`, each font cell being a
/// `scale` x `scale` square; every character advances by `4 * scale`
/// columns. Characters the font does not cover leave a blank.
pub fn draw_text(buf: &mut [u32], ww: usize, wh: usize, x0: i64, y0: i64, text: &str, scale: i64, color: u32)
    requires
        frame_ok(old(buf)@.len(), ww, wh),
        text_fits(x0 as int, y0 as int, scale as int, text@.len() as int),
    ensures
        final(buf)@ == painted(old(buf)@, ww, wh, text_shape(text@, x0 as int, y0 as int, scale as int), color),
{
    let ghost start = buf@;
    let ghost t = text@;
    let n = text.unicode_len();
    let mut cursor_x = x0;
    let mut i: usize = 0;
    proof {
        lemma_painted_none(start, ww, wh, color);
        lemma_painted_ext(start, ww, wh, |x: int, y: int| false, text_cells_below(t, x0 as int, y0 as int, scale as int, 0), color);
    }
    while i < n
        invariant
            frame_ok(start.len(), ww, wh),
            t == text@,
            n == t.len(),
            text_fits(x0 as int, y0 as int, scale as int, n as int),
            i <= n,
            cursor_x == x0 + 4 * scale * i,
            buf@ == painted(start, ww, wh, text_cells_below(t, x0 as int, y0 as int, scale as int, 15 * i), color),
        decreases n - i,
    {
        let ch = text.get_char(i);
        let rows = glyph(ch);
        let ghost sc = scale as int;
        proof {
            lemma_multiple_between(4 * sc, i as int, n as int);
            lemma_multiple_between(4 * sc, i + 1, n as int);
            assert(4 * sc * i == (4 * sc) * (i as int)) by (nonlinear_arith);
            assert(4 * sc * (i + 1) == (4 * sc) * (i + 1)) by (nonlinear_arith);
            assert(4 * sc * n == (4 * sc) * (n as int)) by (nonlinear_arith);
        }
        let mut ry: usize = 0;
        while ry < 5
            invariant
                frame_ok(start.len(), ww, wh),
                t == text@,
                n == t.len(),
                text_fits(x0 as int, y0 as int, scale as int, n as int),
                i < n,
                ch == t[i as int],
                rows@ == glyph_rows(ch),
                ry <= 5,
                cursor_x == x0 + 4 * scale * i,
                between(4 * scale * i, 0, 4 * scale * n),
                between(4 * scale * (i + 1), 0, 4 * scale * n),
                buf@ == painted(start, ww, wh, text_cells_below(t, x0 as int, y0 as int, scale as int, 15 * i + 3 * ry), color),
            decreases 5 - ry,
        {
            let row = rows[ry];
            let mut cx: u8 = 0;
            while cx < 3
                invariant
                    frame_ok(start.len(), ww, wh),
                    t == text@,
                    n == t.len(),
                    text_fits(x0 as int, y0 as int, scale as int, n as int),
                    i < n,
                    ch == t[i as int],
                    rows@ == glyph_rows(ch),
                    ry < 5,
                    row == rows@[ry as int],
                    cx <= 3,
                    cursor_x == x0 + 4 * scale * i,
                    between(4 * scale * i, 0, 4 * scale * n),
                    between(4 * scale * (i + 1), 0, 4 * scale * n),
                    buf@ == painted(
                        start,
                        ww,
                        wh,
                        text_cells_below(t, x0 as int, y0 as int, scale as int, 15 * i + 3 * ry + cx),
                        color,
                    ),
                decreases 3 - cx,
            {
                let ghost k = 15 * i + 3 * ry + cx;
                let ghost before = text_cells_below(t, x0 as int, y0 as int, scale as int, k);
                let ghost after = text_cells_below(t, x0 as int, y0 as int, scale as int, k + 1);
                let ghost cell = glyph_cell(x0 as int, y0 as int, scale as int, i as int, ry as int, cx as int);
                let set = (row >> (2 - cx)) & 1u8 == 1u8;
                assert(set == glyph_bit(ch, ry as int, cx as int));
                if set {
                    proof {
                        let s = scale as int;
                        lemma_multiple_between(s, cx as int, 4);
                        lemma_multiple_between(s, cx + 1, 4);
                        lemma_multiple_between(s, ry as int, 5);
                        lemma_multiple_between(s, ry + 1, 5);
                        assert((cx as int) * s == s * (cx as int)) by (nonlinear_arith);
                        assert((ry as int) * s == s * (ry as int)) by (nonlinear_arith);
                        assert(s * (cx + 1) == s * (cx as int) + s) by (nonlinear_arith);
                        assert(s * (ry + 1) == s * (ry as int) + s) by (nonlinear_arith);
                        assert(s * 4 == 4 * s && s * 5 == 5 * s);
                        assert(4 * s * (i + 1) == 4 * s * i + 4 * s) by (nonlinear_arith);
                    }
                    let px = cursor_x + (cx as i64) * scale;
                    let py = y0 + (ry as i64) * scale;
                    proof {
                        lemma_painted_union(start, ww, wh, before, cell, color);
                        assert forall|x: int, y: int| in_frame(ww, wh, x, y) implies (before(x, y) || cell(x, y))
                            == after(x, y) by {
                            if cell(x, y) {
                                assert(glyph_bit(t[i as int], ry as int, cx as int));
                                assert(glyph_cell(x0 as int, y0 as int, scale as int, i as int, ry as int, cx as int)(x, y));
                            }
                            if after(x, y) && !before(x, y) {
                                let (wi, wr, wc) = choose|wi: int, wr: int, wc: int|
                                    0 <= wi < t.len() && 0 <= wr < 5 && 0 <= wc < 3 && 15 * wi + 3 * wr + wc < k + 1
                                        && #[trigger] glyph_bit(t[wi], wr, wc) && #[trigger] glyph_cell(
                                        x0 as int,
                                        y0 as int,
                                        scale as int,
                                        wi,
                                        wr,
                                        wc,
                                    )(x, y);
                                assert(15 * wi + 3 * wr + wc == k);
                                assert(wi == i && wr == ry && wc == cx);
                            }
                        }
                        lemma_painted_ext(start, ww, wh, |x: int, y: int| before(x, y) || cell(x, y), after, color);
                    }
                    draw_rect(buf, ww, wh, px, py, scale, scale, color);
                } else {
                    proof {
                        assert forall|x: int, y: int| in_frame(ww, wh, x, y) implies before(x, y) == after(x, y) by {
                            if after(x, y) && !before(x, y) {
                                let (wi, wr, wc) = choose|wi: int, wr: int, wc: int|
                                    0 <= wi < t.len() && 0 <= wr < 5 && 0 <= wc < 3 && 15 * wi + 3 * wr + wc < k + 1
                                        && #[trigger] glyph_bit(t[wi], wr, wc) && #[trigger] glyph_cell(
                                        x0 as int,
                                        y0 as int,
                                        scale as int,
                                        wi,
                                        wr,
                                        wc,
                                    )(x, y);
                                assert(15 * wi + 3 * wr + wc == k);
                                assert(wi == i && wr == ry && wc == cx);
                            }
                        }
                        lemma_painted_ext(start, ww, wh, before, after, color);
                    }
                }
                cx = cx + 1;
            }
            ry = ry + 1;
        }
        proof {
            assert(4 * sc * (i + 1) == 4 * sc * i + 4 * sc) by (nonlinear_arith);
        }
        cursor_x = cursor_x + 4 * scale;
        i = i + 1;
    }
}

} // verus!
