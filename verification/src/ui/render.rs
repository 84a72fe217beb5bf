//! Drawing placed widgets into a pixel buffer.
//!
//! A buffer of width `bw` and height `bh` holds pixel `(px, py)` at index
//! `py * bw + px`. Every drawing step paints one colour over a set of pixels; a
//! pixel is drawn only when it lies inside the buffer and both coordinates are
//! below 2^31 (they travel as `i32`). Coordinates are computed without
//! wrap-around.
use vstd::prelude::*;
use vstd::arithmetic::div_mod::{lemma_fundamental_div_mod, lemma_fundamental_div_mod_converse};

use crate::font::{advance, glyph_rows, run_width, Font, GLYPH_W};
use crate::style::Align;
use crate::text::chars_of;
use crate::ui::layout::{in_rect, placed_models, sat_sub, Placed, PlacedModel};
use crate::ui::widget::{Widget, WidgetModel};

verus! {

/// Whether the pixel `(px, py)` is drawn into a `bw` by `bh` buffer.
pub open spec fn on_screen(px: int, py: int, bw: int, bh: int) -> bool {
    0 <= px < bw && 0 <= py < bh && px < 0x8000_0000 && py < 0x8000_0000
}

/// `buf` with every drawn pixel of `shape` set to `color`.
pub open spec fn paint(
    buf: Seq<u32>,
    bw: int,
    bh: int,
    shape: spec_fn(int, int) -> bool,
    color: u32,
) -> Seq<u32> {
    Seq::new(
        buf.len(),
        |i: int|
            if bw > 0 && i < bw * bh && shape(i % bw, i / bw) && on_screen(
                i % bw,
                i / bw,
                bw,
                bh,
            ) {
                color
            } else {
                buf[i]
            },
    )
}

/// The single pixel `(x, y)`.
pub open spec fn point(x: int, y: int) -> spec_fn(int, int) -> bool {
    |px: int, py: int| px == x && py == y
}

/// The pixels of either shape.
pub open spec fn union(s: spec_fn(int, int) -> bool, t: spec_fn(int, int) -> bool) -> spec_fn(
    int,
    int,
) -> bool {
    |px: int, py: int| s(px, py) || t(px, py)
}

/// The rectangle with corner `(x, y)`, width `w` and height `h`.
pub open spec fn rect_shape(x: int, y: int, w: int, h: int) -> spec_fn(int, int) -> bool {
    |px: int, py: int| x <= px < x + w && y <= py < y + h
}

/// The pixels `(px, y)` with `x0 <= px < x1`.
pub open spec fn hline_shape(x0: int, x1: int, y: int) -> spec_fn(int, int) -> bool {
    |px: int, py: int| x0 <= px < x1 && py == y
}

/// The pixels `(x, py)` with `y0 <= py < y1`.
pub open spec fn vline_shape(x: int, y0: int, y1: int) -> spec_fn(int, int) -> bool {
    |px: int, py: int| px == x && y0 <= py < y1
}

proof fn lemma_index(i: int, bw: int, bh: int)
    requires
        bw > 0,
        0 <= i < bw * bh,
    ensures
        i == (i / bw) * bw + i % bw,
        0 <= i % bw < bw,
        0 <= i / bw < bh,
{
    lemma_fundamental_div_mod(i, bw);
    assert(0 <= i % bw < bw) by {
        vstd::arithmetic::div_mod::lemma_mod_pos_bound(i, bw);
    }
    assert(0 <= i / bw) by {
        vstd::arithmetic::div_mod::lemma_div_pos_is_pos(i, bw);
    }
    assert(i / bw < bh) by (nonlinear_arith)
        requires
            bw > 0,
            i < bw * bh,
            i == bw * (i / bw) + i % bw,
            0 <= i % bw,
    ;
    assert(bw * (i / bw) == (i / bw) * bw) by (nonlinear_arith);
}

pub proof fn lemma_position(px: int, py: int, bw: int, bh: int)
    requires
        0 <= px < bw,
        0 <= py < bh,
    ensures
        0 <= py * bw + px < bw * bh,
        (py * bw + px) / bw == py,
        (py * bw + px) % bw == px,
{
    lemma_fundamental_div_mod_converse(py * bw + px, bw, py, px);
    assert(0 <= py * bw + px < bw * bh) by (nonlinear_arith)
        requires
            0 <= px < bw,
            0 <= py < bh,
    ;
}

/// Setting one pixel writes the colour at index `y * bw + x` when the pixel is
/// drawn (inside the buffer, both coordinates below 2^31), and changes nothing
/// otherwise.
pub proof fn law_paint_one_pixel(buf: Seq<u32>, bw: int, bh: int, x: int, y: int, c: u32)
    requires
        bw * bh <= buf.len(),
    ensures
        on_screen(x, y, bw, bh) ==> 0 <= y * bw + x < buf.len() && paint(buf, bw, bh, point(x, y), c)
            == buf.update(y * bw + x, c),
        !on_screen(x, y, bw, bh) ==> paint(buf, bw, bh, point(x, y), c) == buf,
{
    let p = paint(buf, bw, bh, point(x, y), c);
    if on_screen(x, y, bw, bh) {
        lemma_position(x, y, bw, bh);
        let idx = y * bw + x;
        assert forall|i: int| 0 <= i < buf.len() implies #[trigger] p[i] == buf.update(idx, c)[i] by {
            if bw > 0 && i < bw * bh {
                lemma_index(i, bw, bh);
                if i % bw == x && i / bw == y {
                    assert(i == idx);
                }
            }
        }
        assert(p =~= buf.update(idx, c));
    } else {
        assert forall|i: int| 0 <= i < buf.len() implies #[trigger] p[i] == buf[i] by {}
        assert(p =~= buf);
    }
}

/// Painting two shapes in the same colour paints their union.
proof fn lemma_paint_union(
    buf: Seq<u32>,
    bw: int,
    bh: int,
    s: spec_fn(int, int) -> bool,
    t: spec_fn(int, int) -> bool,
    c: u32,
)
    ensures
        paint(paint(buf, bw, bh, s, c), bw, bh, t, c) == paint(buf, bw, bh, union(s, t), c),
{
    assert(paint(paint(buf, bw, bh, s, c), bw, bh, t, c) =~= paint(buf, bw, bh, union(s, t), c));
}

/// Shapes that agree on every drawn pixel paint alike.
proof fn lemma_paint_same(
    buf: Seq<u32>,
    bw: int,
    bh: int,
    s: spec_fn(int, int) -> bool,
    t: spec_fn(int, int) -> bool,
    c: u32,
)
    requires
        forall|px: int, py: int| on_screen(px, py, bw, bh) ==> s(px, py) == t(px, py),
    ensures
        paint(buf, bw, bh, s, c) == paint(buf, bw, bh, t, c),
{
    assert(paint(buf, bw, bh, s, c) =~= paint(buf, bw, bh, t, c));
}

/// Painting a shape with no drawn pixel changes nothing.
proof fn lemma_paint_nothing(buf: Seq<u32>, bw: int, bh: int, s: spec_fn(int, int) -> bool, c: u32)
    requires
        forall|px: int, py: int| on_screen(px, py, bw, bh) ==> !s(px, py),
    ensures
        paint(buf, bw, bh, s, c) == buf,
{
    assert(paint(buf, bw, bh, s, c) =~= buf);
}

/// Sets pixel `(x, y)` when it is drawn.
fn set_px(buf: &mut [u32], x: i64, y: i64, color: u32, bounds: (u32, u32))
    requires
        bounds.0 * bounds.1 <= old(buf)@.len(),
    ensures
        final(buf)@ == paint(old(buf)@, bounds.0 as int, bounds.1 as int, point(x as int, y as int), color),
{
    proof {
        law_paint_one_pixel(buf@, bounds.0 as int, bounds.1 as int, x as int, y as int, color);
    }
    if x < 0 || y < 0 {
        return;
    }
    let (bw, bh) = bounds;
    if x >= 0x8000_0000 || y >= 0x8000_0000 {
        return;
    }
    let x = x as u64;
    let y = y as u64;
    if x >= bw as u64 || y >= bh as u64 {
        return;
    }
    assert(on_screen(x as int, y as int, bw as int, bh as int));
    assert(y * (bw as int) + x < buf@.len());
    assert(y * (bw as int) <= 0xffff_ffff * 0xffff_ffff) by (nonlinear_arith)
        requires
            y <= 0xffff_ffff,
            bw <= 0xffff_ffff,
    ;
    let idx = y * (bw as u64) + x;
    buf[idx as usize] = color;
}

/// The end of a run of coordinates from `from` on that can be drawn below `limit`.
pub open spec fn clip_end(to: int, limit: int) -> int {
    if to < limit {
        to
    } else {
        limit
    }
}

/// Paints the pixels `(px, y)` with `x0 <= px < x1`.
fn hline(buf: &mut [u32], x0: i64, x1: i64, y: i64, color: u32, bounds: (u32, u32))
    requires
        bounds.0 * bounds.1 <= old(buf)@.len(),
    ensures
        final(buf)@ == paint(
            old(buf)@,
            bounds.0 as int,
            bounds.1 as int,
            hline_shape(x0 as int, x1 as int, y as int),
            color,
        ),
{
    let ghost bw = bounds.0 as int;
    let ghost bh = bounds.1 as int;
    let ghost buf0 = buf@;
    let limit: i64 = if (bounds.0 as i64) < 0x8000_0000 {
        bounds.0 as i64
    } else {
        0x8000_0000
    };
    let end: i64 = if x1 < limit {
        x1
    } else {
        limit
    };
    let mut xx: i64 = if x0 < 0 {
        0
    } else {
        x0
    };
    proof {
        lemma_paint_nothing(buf0, bw, bh, hline_shape(x0 as int, xx as int, y as int), color);
    }
    while xx < end
        invariant
            bw * bh <= buf@.len(),
            bw == bounds.0,
            bh == bounds.1,
            buf@.len() == buf0.len(),
            0 <= xx,
            x0 <= xx,
            xx <= end || xx == (if x0 < 0 {
                0
            } else {
                x0
            }),
            end == clip_end(x1 as int, limit as int),
            limit == clip_end(bounds.0 as int, 0x8000_0000),
            buf@ == paint(buf0, bw, bh, hline_shape(x0 as int, xx as int, y as int), color),
        decreases end - xx,
    {
        set_px(buf, xx, y, color, bounds);
        proof {
            lemma_paint_union(
                buf0,
                bw,
                bh,
                hline_shape(x0 as int, xx as int, y as int),
                point(xx as int, y as int),
                color,
            );
            lemma_paint_same(
                buf0,
                bw,
                bh,
                union(hline_shape(x0 as int, xx as int, y as int), point(xx as int, y as int)),
                hline_shape(x0 as int, xx + 1, y as int),
                color,
            );
        }
        xx = xx + 1;
    }
    proof {
        lemma_paint_same(
            buf0,
            bw,
            bh,
            hline_shape(x0 as int, xx as int, y as int),
            hline_shape(x0 as int, x1 as int, y as int),
            color,
        );
    }
}

/// Paints the pixels `(x, py)` with `y0 <= py < y1`.
fn vline(buf: &mut [u32], x: i64, y0: i64, y1: i64, color: u32, bounds: (u32, u32))
    requires
        bounds.0 * bounds.1 <= old(buf)@.len(),
    ensures
        final(buf)@ == paint(
            old(buf)@,
            bounds.0 as int,
            bounds.1 as int,
            vline_shape(x as int, y0 as int, y1 as int),
            color,
        ),
{
    let ghost bw = bounds.0 as int;
    let ghost bh = bounds.1 as int;
    let ghost buf0 = buf@;
    let limit: i64 = if (bounds.1 as i64) < 0x8000_0000 {
        bounds.1 as i64
    } else {
        0x8000_0000
    };
    let end: i64 = if y1 < limit {
        y1
    } else {
        limit
    };
    let mut yy: i64 = if y0 < 0 {
        0
    } else {
        y0
    };
    proof {
        lemma_paint_nothing(buf0, bw, bh, vline_shape(x as int, y0 as int, yy as int), color);
    }
    while yy < end
        invariant
            bw * bh <= buf@.len(),
            bw == bounds.0,
            bh == bounds.1,
            buf@.len() == buf0.len(),
            0 <= yy,
            y0 <= yy,
            yy <= end || yy == (if y0 < 0 {
                0
            } else {
                y0
            }),
            end == clip_end(y1 as int, limit as int),
            limit == clip_end(bounds.1 as int, 0x8000_0000),
            buf@ == paint(buf0, bw, bh, vline_shape(x as int, y0 as int, yy as int), color),
        decreases end - yy,
    {
        set_px(buf, x, yy, color, bounds);
        proof {
            lemma_paint_union(
                buf0,
                bw,
                bh,
                vline_shape(x as int, y0 as int, yy as int),
                point(x as int, yy as int),
                color,
            );
            lemma_paint_same(
                buf0,
                bw,
                bh,
                union(vline_shape(x as int, y0 as int, yy as int), point(x as int, yy as int)),
                vline_shape(x as int, y0 as int, yy + 1),
                color,
            );
        }
        yy = yy + 1;
    }
    proof {
        lemma_paint_same(
            buf0,
            bw,
            bh,
            vline_shape(x as int, y0 as int, yy as int),
            vline_shape(x as int, y0 as int, y1 as int),
            color,
        );
    }
}

/// Fills the rectangle with corner `(x, y)`, width `rw` and height `rh`.
fn fill_rect(buf: &mut [u32], w: u32, h: u32, x: i64, y: i64, rw: i64, rh: i64, color: u32)
    requires
        w * h <= old(buf)@.len(),
        -0x1_0000_0000 <= x <= 0x1_0000_0000,
        -0x1_0000_0000 <= y <= 0x1_0000_0000,
        0 <= rw <= 0x1_0000_0000,
        0 <= rh <= 0x1_0000_0000,
    ensures
        final(buf)@ == paint(
            old(buf)@,
            w as int,
            h as int,
            rect_shape(x as int, y as int, rw as int, rh as int),
            color,
        ),
{
    let ghost bw = w as int;
    let ghost bh = h as int;
    let ghost buf0 = buf@;
    let limit: i64 = if (h as i64) < 0x8000_0000 {
        h as i64
    } else {
        0x8000_0000
    };
    let end: i64 = if y + rh < limit {
        y + rh
    } else {
        limit
    };
    let mut yy: i64 = if y < 0 {
        0
    } else {
        y
    };
    proof {
        lemma_paint_nothing(buf0, bw, bh, rect_shape(x as int, y as int, rw as int, yy - y), color);
    }
    while yy < end
        invariant
            bw * bh <= buf@.len(),
            bw == w,
            bh == h,
            buf@.len() == buf0.len(),
            -0x1_0000_0000 <= x <= 0x1_0000_0000,
            -0x1_0000_0000 <= y <= 0x1_0000_0000,
            0 <= rw <= 0x1_0000_0000,
            0 <= rh <= 0x1_0000_0000,
            0 <= yy,
            y <= yy,
            yy <= end || yy == (if y < 0 {
                0
            } else {
                y
            }),
            end == clip_end(y + rh, limit as int),
            limit == clip_end(h as int, 0x8000_0000),
            buf@ == paint(buf0, bw, bh, rect_shape(x as int, y as int, rw as int, yy - y), color),
        decreases end - yy,
    {
        hline(buf, x, x + rw, yy, color, (w, h));
        proof {
            lemma_paint_union(
                buf0,
                bw,
                bh,
                rect_shape(x as int, y as int, rw as int, yy - y),
                hline_shape(x as int, x + rw, yy as int),
                color,
            );
            lemma_paint_same(
                buf0,
                bw,
                bh,
                union(
                    rect_shape(x as int, y as int, rw as int, yy - y),
                    hline_shape(x as int, x + rw, yy as int),
                ),
                rect_shape(x as int, y as int, rw as int, yy + 1 - y),
                color,
            );
        }
        yy = yy + 1;
    }
    proof {
        lemma_paint_same(
            buf0,
            bw,
            bh,
            rect_shape(x as int, y as int, rw as int, yy - y),
            rect_shape(x as int, y as int, rw as int, rh as int),
            color,
        );
    }
}

/// Whether column `col` (0 to 4, left to right) of a glyph row is set.
pub open spec fn glyph_bit(pattern: u8, col: int) -> bool {
    0 <= col < 5 && pattern & (1u8 << ((4 - col) as u32)) != 0
}

/// The set pixels of a glyph with rows `rows` whose top left corner is `(gx, gy)`.
pub open spec fn glyph_shape(rows: Seq<u8>, gx: int, gy: int) -> spec_fn(int, int) -> bool {
    |px: int, py: int| 0 <= py - gy < rows.len() && glyph_bit(rows[py - gy], px - gx)
}

/// The pixels of `text` drawn from `(tx, ty)`: character `k` occupies the
/// columns from `tx + k * advance` on; a character without a glyph draws nothing.
pub open spec fn text_shape(font: &Font, text: Seq<char>, tx: int, ty: int) -> spec_fn(
    int,
    int,
) -> bool {
    |px: int, py: int|
        px >= tx && (px - tx) / advance(font) < text.len() && match glyph_rows(
            font,
            text[(px - tx) / advance(font)],
        ) {
            Some(rows) => glyph_shape(rows, tx + ((px - tx) / advance(font)) * advance(font), ty)(
                px,
                py,
            ),
            None => false,
        }
}

/// The pixels of the first `k` characters of `text`.
pub open spec fn text_prefix(font: &Font, text: Seq<char>, tx: int, ty: int, k: int) -> spec_fn(
    int,
    int,
) -> bool {
    |px: int, py: int| text_shape(font, text, tx, ty)(px, py) && (px - tx) / advance(font) < k
}

/// The set pixels of one glyph row whose leftmost pixel is `(gx, gy)`.
pub open spec fn row_shape(pattern: u8, gx: int, gy: int) -> spec_fn(int, int) -> bool {
    |px: int, py: int| py == gy && glyph_bit(pattern, px - gx)
}

/// Paints the set pixels of one glyph row at `(gx, gy)`.
fn glyph_row(buf: &mut [u32], pattern: u8, gx: i64, gy: i64, color: u32, bounds: (u32, u32))
    requires
        bounds.0 * bounds.1 <= old(buf)@.len(),
        gx <= 0x1_0000_0000,
    ensures
        final(buf)@ == paint(
            old(buf)@,
            bounds.0 as int,
            bounds.1 as int,
            row_shape(pattern, gx as int, gy as int),
            color,
        ),
{
    let ghost bw = bounds.0 as int;
    let ghost bh = bounds.1 as int;
    let ghost buf0 = buf@;
    let ghost done = |k: int| (|px: int, py: int| py == gy && glyph_bit(pattern, px - gx) && px - gx < k);
    proof {
        lemma_paint_nothing(buf0, bw, bh, done(0), color);
    }
    let mut col: u32 = 0;
    while col < GLYPH_W
        invariant
            bw * bh <= buf@.len(),
            bw == bounds.0,
            bh == bounds.1,
            buf@.len() == buf0.len(),
            col <= 5,
            gx <= 0x1_0000_0000,
            done == (|k: int| (|px: int, py: int| py == gy && glyph_bit(pattern, px - gx) && px - gx < k)),
            buf@ == paint(buf0, bw, bh, done(col as int), color),
        decreases 5 - col,
    {
        if pattern & (1u8 << (4 - col)) != 0 {
            set_px(buf, gx + col as i64, gy, color, bounds);
            proof {
                lemma_paint_union(buf0, bw, bh, done(col as int), point(gx + col, gy as int), color);
                lemma_paint_same(
                    buf0,
                    bw,
                    bh,
                    union(done(col as int), point(gx + col, gy as int)),
                    done(col + 1),
                    color,
                );
            }
        } else {
            proof {
                lemma_paint_same(buf0, bw, bh, done(col as int), done(col + 1), color);
            }
        }
        col = col + 1;
    }
    proof {
        lemma_paint_same(
            buf0,
            bw,
            bh,
            done(5),
            row_shape(pattern, gx as int, gy as int),
            color,
        );
    }
}

/// Paints a glyph with rows `rows` at `(gx, gy)`.
fn draw_glyph(buf: &mut [u32], rows: &Vec<u8>, gx: i64, gy: i64, color: u32, bounds: (u32, u32))
    requires
        bounds.0 * bounds.1 <= old(buf)@.len(),
        gx <= 0x1_0000_0000,
        -0x1_0000_0000 <= gy <= 0x4_0000_0000,
    ensures
        final(buf)@ == paint(
            old(buf)@,
            bounds.0 as int,
            bounds.1 as int,
            glyph_shape(rows@, gx as int, gy as int),
            color,
        ),
{
    let ghost bw = bounds.0 as int;
    let ghost bh = bounds.1 as int;
    let ghost buf0 = buf@;
    let ghost done = |k: int|
        (|px: int, py: int| glyph_shape(rows@, gx as int, gy as int)(px, py) && py - gy < k);
    proof {
        lemma_paint_nothing(buf0, bw, bh, done(0), color);
    }
    let mut row: usize = 0;
    while row < rows.len()
        invariant
            bw * bh <= buf@.len(),
            bw == bounds.0,
            bh == bounds.1,
            buf@.len() == buf0.len(),
            row <= rows@.len(),
            gx <= 0x1_0000_0000,
            -0x1_0000_0000 <= gy <= 0x4_0000_0000,
            done == (|k: int|
                (|px: int, py: int| glyph_shape(rows@, gx as int, gy as int)(px, py) && py - gy < k)),
            buf@ == paint(buf0, bw, bh, done(row as int), color),
        decreases rows@.len() - row,
    {
        let r64 = row as u64;
        if r64 >= 0x2_0000_0000u64 || gy + (r64 as i64) >= 0x8000_0000 {
            // The remaining rows lie below every drawn pixel.
            proof {
                lemma_paint_same(buf0, bw, bh, done(row as int), done(rows@.len() as int), color);
            }
            row = rows.len();
        } else {
            let ghost r = row as int;
            glyph_row(buf, rows[row], gx, gy + r64 as i64, color, bounds);
            proof {
                let line = row_shape(rows@[r], gx as int, gy + r);
                lemma_paint_union(buf0, bw, bh, done(r), line, color);
                lemma_paint_same(buf0, bw, bh, union(done(r), line), done(r + 1), color);
            }
            row = row + 1;
        }
    }
    proof {
        lemma_paint_same(
            buf0,
            bw,
            bh,
            done(rows@.len() as int),
            glyph_shape(rows@, gx as int, gy as int),
            color,
        );
    }
}

proof fn lemma_text_tail(font: &Font, text: Seq<char>, x: int, y: int, k: int, bw: int, bh: int)
    requires
        advance(font) >= 5,
        k >= 0,
        x + k * advance(font) >= 0x8000_0000,
    ensures
        forall|px: int, py: int|
            on_screen(px, py, bw, bh) ==> text_prefix(font, text, x, y, k)(px, py) == text_prefix(
                font,
                text,
                x,
                y,
                text.len() as int,
            )(px, py),
{
    let adv = advance(font);
    assert forall|px: int, py: int| on_screen(px, py, bw, bh) implies text_prefix(font, text, x, y, k)(
        px,
        py,
    ) == text_prefix(font, text, x, y, text.len() as int)(px, py) by {
        if text_prefix(font, text, x, y, text.len() as int)(px, py) {
            let d = (px - x) / adv;
            lemma_fundamental_div_mod(px - x, adv);
            vstd::arithmetic::div_mod::lemma_mod_pos_bound(px - x, adv);
            if d >= k {
                assert(d * adv >= k * adv) by (nonlinear_arith)
                    requires
                        d >= k,
                        adv >= 5,
                ;
                assert(adv * d == d * adv) by (nonlinear_arith);
                assert(false);
            }
        }
    }
}

proof fn lemma_char_of(px: int, tx: int, adv: int, k: int)
    requires
        adv >= 5,
        0 <= px - (tx + k * adv) < 5,
        k >= 0,
    ensures
        (px - tx) / adv == k,
        (px - tx) % adv == px - (tx + k * adv),
{
    lemma_fundamental_div_mod_converse(px - tx, adv, k, px - (tx + k * adv));
}

/// Draws `text` from `(x, y)`, one glyph per character.
fn draw_text(
    buf: &mut [u32],
    font: &Font,
    w: u32,
    h: u32,
    x: i64,
    y: i64,
    text: &[char],
    color: u32,
)
    requires
        w * h <= old(buf)@.len(),
        0 <= x <= 0x2_0000_0000,
        0 <= y <= 0x4_0000_0000,
    ensures
        final(buf)@ == paint(
            old(buf)@,
            w as int,
            h as int,
            text_shape(font, text@, x as int, y as int),
            color,
        ),
{
    let ghost bw = w as int;
    let ghost bh = h as int;
    let ghost buf0 = buf@;
    let ghost adv = advance(font);
    let step: i64 = GLYPH_W as i64 + font.gap as i64;
    proof {
        lemma_paint_nothing(buf0, bw, bh, text_prefix(font, text@, x as int, y as int, 0), color);
    }
    let mut cx: i64 = x;
    let mut k: usize = 0;
    while k < text.len()
        invariant
            bw * bh <= buf@.len(),
            bw == w,
            bh == h,
            buf@.len() == buf0.len(),
            k <= text@.len(),
            step == adv,
            adv == advance(font),
            adv >= 5,
            0 <= x <= 0x2_0000_0000,
            0 <= y <= 0x4_0000_0000,
            k < text@.len() ==> cx == x + k * adv,
            cx <= 0x4_0000_0000,
            buf@ == paint(buf0, bw, bh, text_prefix(font, text@, x as int, y as int, k as int), color),
        decreases text@.len() - k,
    {
        if cx >= 0x8000_0000 {
            // Every remaining character lies right of every drawn pixel.
            proof {
                lemma_text_tail(font, text@, x as int, y as int, k as int, bw, bh);
                lemma_paint_same(
                    buf0,
                    bw,
                    bh,
                    text_prefix(font, text@, x as int, y as int, k as int),
                    text_prefix(font, text@, x as int, y as int, text@.len() as int),
                    color,
                );
            }
            k = text.len();
        } else {
            let ghost kk = k as int;
            let ghost before = text_prefix(font, text@, x as int, y as int, kk);
            let ghost after = text_prefix(font, text@, x as int, y as int, kk + 1);
            match font.glyph(text[k]) {
                Some(rows) => {
                    draw_glyph(buf, rows, cx, y, color, (w, h));
                    proof {
                        let g = glyph_shape(rows@, cx as int, y as int);
                        lemma_paint_union(buf0, bw, bh, before, g, color);
                        assert forall|px: int, py: int| #[trigger] union(before, g)(px, py) == after(px, py) by {
                            if g(px, py) {
                                lemma_char_of(px, x as int, adv, kk);
                            }
                            if after(px, py) && !before(px, py) {
                                let d = (px - x) / adv;
                                lemma_fundamental_div_mod(px - x, adv);
                                assert(d == kk);
                                assert(px - x == adv * d + (px - x) % adv);
                                assert(adv * d == d * adv) by (nonlinear_arith);
                            }
                        }
                        lemma_paint_same(buf0, bw, bh, union(before, g), after, color);
                    }
                },
                None => {
                    proof {
                        assert forall|px: int, py: int| #[trigger] before(px, py) == after(px, py) by {}
                        lemma_paint_same(buf0, bw, bh, before, after, color);
                    }
                },
            }
            cx = cx + step;
            k = k + 1;
            assert(cx == x + k * adv) by (nonlinear_arith)
                requires
                    cx == x + (k - 1) * adv + adv,
            ;
            assert(k < text@.len() ==> cx == x + k * adv);
        }
    }
    proof {
        lemma_paint_same(
            buf0,
            bw,
            bh,
            text_prefix(font, text@, x as int, y as int, text@.len() as int),
            text_shape(font, text@, x as int, y as int),
            color,
        );
    }
}

/// Whether `(px, py)` lies on the `i`-th ring of a rectangle's border: its
/// `i`-th row from the top or the bottom, or its `i`-th column from the left or
/// the right.
pub open spec fn on_border_line(x: int, y: int, w: int, h: int, i: int, px: int, py: int) -> bool {
    ||| x <= px < x + w && (py == y + i || py == y + h - 1 - i)
    ||| y <= py < y + h && (px == x + i || px == x + w - 1 - i)
}

/// The border of width `bs` of the rectangle with corner `(x, y)`, width `w` and height `h`.
pub open spec fn border_shape(x: int, y: int, w: int, h: int, bs: int) -> spec_fn(int, int) -> bool {
    |px: int, py: int| exists|i: int| 0 <= i < bs && #[trigger] on_border_line(x, y, w, h, i, px, py)
}

/// Draws a border of width `bs` around the rectangle.
fn draw_border(buf: &mut [u32], bw: u32, bh: u32, x: u32, y: u32, w: u32, h: u32, bs: u32, c: u32)
    requires
        bw * bh <= old(buf)@.len(),
    ensures
        final(buf)@ == paint(
            old(buf)@,
            bw as int,
            bh as int,
            border_shape(x as int, y as int, w as int, h as int, bs as int),
            c,
        ),
{
    let ghost buf0 = buf@;
    let ghost (fx, fy, fw, fh) = (x as int, y as int, w as int, h as int);
    proof {
        lemma_paint_nothing(buf0, bw as int, bh as int, border_shape(fx, fy, fw, fh, 0), c);
    }
    let x = x as i64;
    let y = y as i64;
    let w = w as i64;
    let h = h as i64;
    let mut i: u32 = 0;
    while i < bs
        invariant
            bw * bh <= buf@.len(),
            buf@.len() == buf0.len(),
            i <= bs,
            x == fx && y == fy && w == fw && h == fh,
            0 <= fx <= u32::MAX && 0 <= fy <= u32::MAX && 0 <= fw <= u32::MAX && 0 <= fh <= u32::MAX,
            buf@ == paint(buf0, bw as int, bh as int, border_shape(fx, fy, fw, fh, i as int), c),
        decreases bs - i,
    {
        let ii = i as i64;
        let ghost s0 = border_shape(fx, fy, fw, fh, i as int);
        let ghost top = hline_shape(fx, fx + fw, fy + ii);
        let ghost bottom = hline_shape(fx, fx + fw, fy + fh - 1 - ii);
        let ghost left = vline_shape(fx + ii, fy, fy + fh);
        let ghost right = vline_shape(fx + fw - 1 - ii, fy, fy + fh);
        // top & bottom
        hline(buf, x, x + w, y + ii, c, (bw, bh));
        hline(buf, x, x + w, y + h - 1 - ii, c, (bw, bh));
        // left & right
        vline(buf, x + ii, y, y + h, c, (bw, bh));
        vline(buf, x + w - 1 - ii, y, y + h, c, (bw, bh));
        proof {
            let bwi = bw as int;
            let bhi = bh as int;
            lemma_paint_union(buf0, bwi, bhi, s0, top, c);
            lemma_paint_union(buf0, bwi, bhi, union(s0, top), bottom, c);
            lemma_paint_union(buf0, bwi, bhi, union(union(s0, top), bottom), left, c);
            lemma_paint_union(buf0, bwi, bhi, union(union(union(s0, top), bottom), left), right, c);
            let all = union(union(union(union(s0, top), bottom), left), right);
            let s1 = border_shape(fx, fy, fw, fh, i + 1);
            assert forall|px: int, py: int| #[trigger] all(px, py) == s1(px, py) by {
                if s1(px, py) && !s0(px, py) {
                    let j = choose|j: int| 0 <= j < i + 1 && #[trigger] on_border_line(fx, fy, fw, fh, j, px, py);
                    assert(j == i);
                }
                if all(px, py) && !s0(px, py) {
                    assert(on_border_line(fx, fy, fw, fh, i as int, px, py));
                }
            }
            lemma_paint_same(buf0, bwi, bhi, all, s1, c);
        }
        i = i + 1;
    }
}

/// The red, green and blue channels of a `0xRRGGBB` colour.
pub fn rgb_from_u32(v: u32) -> (c: (u8, u8, u8))
    ensures
        c.0 == v / 65536 % 256,
        c.1 == v / 256 % 256,
        c.2 == v % 256,
{
    assert((v >> 16) & 0xff == v / 65536 % 256) by (bit_vector);
    assert((v >> 8) & 0xff == v / 256 % 256) by (bit_vector);
    assert(v & 0xff == v % 256) by (bit_vector);
    (((v >> 16) & 0xff) as u8, ((v >> 8) & 0xff) as u8, (v & 0xff) as u8)
}

/// Packs three colour channels into one `0xRRGGBB` word.
fn pack(r: u8, g: u8, b: u8) -> (v: u32)
    ensures
        v == r as int * 65536 + g as int * 256 + b as int,
{
    assert(((r as u32) << 16) | ((g as u32) << 8) | (b as u32) == r as u32 * 65536 + g as u32 * 256
        + b as u32) by (bit_vector);
    ((r as u32) << 16) | ((g as u32) << 8) | (b as u32)
}

/// A colour channel raised by 24, at most 255.
pub open spec fn lighten(c: int) -> int {
    if c + 24 < 255 {
        c + 24
    } else {
        255
    }
}

/// The face of a button: its background with every channel lightened.
pub open spec fn face_color(bg: u32) -> int {
    lighten(bg as int / 65536 % 256) * 65536 + lighten(bg as int / 256 % 256) * 256 + lighten(
        bg as int % 256,
    )
}

fn lighten_channel(c: u8) -> (r: u8)
    ensures
        r == lighten(c as int),
{
    let v = c as u32 + 24;
    if v < 255 {
        v as u8
    } else {
        255
    }
}

/// Where a label's text starts horizontally.
pub open spec fn label_x(align: Align, x: int, w: int, tw: int, pad: int) -> int {
    match align {
        Align::Left => x + pad,
        Align::Center => x + sat_sub(w, tw) / 2,
        Align::Right => x + sat_sub(w, tw + pad),
    }
}

/// Where text is placed vertically: centred in the rectangle.
pub open spec fn text_y(font: &Font, y: int, h: int) -> int {
    y + sat_sub(h, font.height as int) / 2
}

/// `buf` after one placed widget is drawn: a container fills its rectangle
/// with its background; a label draws its text in its colour, aligned by its
/// style; a button fills its rectangle with its lightened background, draws its
/// border, then its text centred.
pub open spec fn draw_item(buf: Seq<u32>, p: PlacedModel, font: &Font, bw: int, bh: int) -> Seq<u32> {
    let (x, y, w, h) = p.rect;
    let st = p.style;
    match p.widget {
        WidgetModel::Container { .. } => paint(
            buf,
            bw,
            bh,
            rect_shape(x as int, y as int, w as int, h as int),
            st.background,
        ),
        WidgetModel::Label { text } => {
            let tw = run_width(font, text.len() as int);
            let tx = label_x(st.align, x as int, w as int, tw, st.padding as int);
            paint(buf, bw, bh, text_shape(font, text, tx, text_y(font, y as int, h as int)), st.color)
        },
        WidgetModel::Button { text, .. } => {
            let tw = run_width(font, text.len() as int);
            let face = paint(
                buf,
                bw,
                bh,
                rect_shape(x as int, y as int, w as int, h as int),
                face_color(st.background) as u32,
            );
            let framed = paint(
                face,
                bw,
                bh,
                border_shape(x as int, y as int, w as int, h as int, st.border_size as int),
                st.border_color,
            );
            let tx = x + sat_sub(w as int, tw) / 2;
            paint(framed, bw, bh, text_shape(font, text, tx, text_y(font, y as int, h as int)), st.color)
        },
    }
}

/// A buffer of `len` pixels, all of the background colour `0x222222`.
pub open spec fn cleared(len: nat) -> Seq<u32> {
    Seq::new(len, |i: int| 0x222222u32)
}

/// The buffer after the placed widgets are drawn in order over a cleared buffer.
pub open spec fn render_spec(items: Seq<PlacedModel>, font: &Font, bw: int, bh: int, len: nat) -> Seq<u32> {
    items.fold_left(cleared(len), |buf: Seq<u32>, p: PlacedModel| draw_item(buf, p, font, bw, bh))
}

/// `a - b` in `u64`, or 0 when `b` is larger.
fn sat_sub64(a: u64, b: u64) -> (r: u64)
    ensures
        r == sat_sub(a as int, b as int),
{
    if a > b {
        a - b
    } else {
        0
    }
}

/// Draw the placed widgets into a pixel buffer.
pub fn render(placed: &[Placed], font: &Font, buf: &mut [u32], width: u32, height: u32)
    requires
        width * height <= old(buf)@.len(),
    ensures
        final(buf)@ == render_spec(placed_models(placed@), font, width as int, height as int, old(buf)@.len()),
{
    let ghost len = buf@.len();
    let ghost bw = width as int;
    let ghost bh = height as int;
    // Clear.
    let mut i: usize = 0;
    while i < buf.len()
        invariant
            buf@.len() == len,
            i <= len,
            forall|j: int| 0 <= j < i ==> buf@[j] == 0x222222u32,
        decreases len - i,
    {
        buf[i] = 0x222222;
        i = i + 1;
    }
    assert(buf@ =~= cleared(len));
    let ghost items = placed_models(placed@);
    let ghost f = |b: Seq<u32>, p: PlacedModel| draw_item(b, p, font, bw, bh);
    let mut k: usize = 0;
    while k < placed.len()
        invariant
            buf@.len() == len,
            width * height <= len,
            bw == width,
            bh == height,
            k <= placed@.len(),
            items == placed_models(placed@),
            items.len() == placed@.len(),
            f == (|b: Seq<u32>, p: PlacedModel| draw_item(b, p, font, bw, bh)),
            buf@ == items.take(k as int).fold_left(cleared(len), f),
        decreases placed@.len() - k,
    {
        proof {
            assert(items.take(k + 1).drop_last() =~= items.take(k as int));
            assert(items.take(k + 1).last() == placed@[k as int]@);
        }
        let ghost b0 = buf@;
        let item = &placed[k];
        let (x, y, w, h) = item.rect;
        match &item.widget {
            Widget::Container { .. } => {
                fill_rect(buf, width, height, x as i64, y as i64, w as i64, h as i64, item.style.background);
            },
            Widget::Label { text } => {
                // Transparent background; draw text.
                let color = item.style.color;
                let tw = font.text_width(text.as_str());
                let align = item.style.align;
                let pad = item.style.padding as u64;
                let tx: u64 = match align {
                    Align::Left => x as u64 + pad,
                    Align::Center => x as u64 + sat_sub64(w as u64, tw) / 2,
                    Align::Right => {
                        let need = if tw > u64::MAX - pad {
                            u64::MAX
                        } else {
                            tw + pad
                        };
                        x as u64 + sat_sub64(w as u64, need)
                    },
                };
                let ty = y as u64 + sat_sub64(h as u64, font.text_height() as u64) / 2;
                let chars = chars_of(text.as_str());
                proof {
                    let true_tw = run_width(font, text@.len() as int);
                    assert(tx == label_x(align, x as int, w as int, true_tw, pad as int));
                }
                draw_text(buf, font, width, height, tx as i64, ty as i64, &chars, color);
            },
            Widget::Button { text, .. } => {
                let (r, g, b) = rgb_from_u32(item.style.background);
                // Slightly lighter than container background.
                let base = pack(lighten_channel(r), lighten_channel(g), lighten_channel(b));
                fill_rect(buf, width, height, x as i64, y as i64, w as i64, h as i64, base);
                // Border.
                draw_border(buf, width, height, x, y, w, h, item.style.border_size, item.style.border_color);
                // Text.
                let color = item.style.color;
                let tw = font.text_width(text.as_str());
                let tx = x as u64 + sat_sub64(w as u64, tw) / 2;
                let ty = y as u64 + sat_sub64(h as u64, font.text_height() as u64) / 2;
                let chars = chars_of(text.as_str());
                draw_text(buf, font, width, height, tx as i64, ty as i64, &chars, color);
            },
        }
        k = k + 1;
    }
    assert(items.take(placed@.len() as int) =~= items);
}

/// Painting never touches a pixel past the `bw * bh` pixels of the window.
proof fn lemma_paint_keeps_tail(buf: Seq<u32>, bw: int, bh: int, s: spec_fn(int, int) -> bool, c: u32, i: int)
    requires
        0 <= i,
        bw * bh <= i < buf.len(),
    ensures
        paint(buf, bw, bh, s, c)[i] == buf[i],
{
}

/// Drawing leaves every buffer entry past the window's `width * height` pixels
/// with the background colour it was cleared to.
pub proof fn law_render_keeps_outside_clear(items: Seq<PlacedModel>, font: &Font, bw: int, bh: int, len: nat)
    requires
        0 <= bw,
        0 <= bh,
    ensures
        forall|i: int| bw * bh <= i < len ==> #[trigger] render_spec(items, font, bw, bh, len)[i] == 0x222222u32,
        render_spec(items, font, bw, bh, len).len() == len,
    decreases items.len(),
{
    if items.len() > 0 {
        law_render_keeps_outside_clear(items.drop_last(), font, bw, bh, len);
        let prev = render_spec(items.drop_last(), font, bw, bh, len);
        let p = items.last();
        assert forall|i: int| bw * bh <= i < len implies #[trigger] draw_item(prev, p, font, bw, bh)[i] == 0x222222u32 by {
            assert(0 <= bw * bh) by (nonlinear_arith)
                requires
                    0 <= bw,
                    0 <= bh,
            ;
            let (x, y, w, h) = p.rect;
            let st = p.style;
            match p.widget {
                WidgetModel::Container { .. } => {
                    lemma_paint_keeps_tail(prev, bw, bh, rect_shape(x as int, y as int, w as int, h as int), st.background, i);
                },
                WidgetModel::Label { text } => {
                    let tw = run_width(font, text.len() as int);
                    let tx = label_x(st.align, x as int, w as int, tw, st.padding as int);
                    lemma_paint_keeps_tail(prev, bw, bh, text_shape(font, text, tx, text_y(font, y as int, h as int)), st.color, i);
                },
                WidgetModel::Button { text, .. } => {
                    let tw = run_width(font, text.len() as int);
                    let face = paint(prev, bw, bh, rect_shape(x as int, y as int, w as int, h as int), face_color(st.background) as u32);
                    let framed = paint(face, bw, bh, border_shape(x as int, y as int, w as int, h as int, st.border_size as int), st.border_color);
                    let tx = x + sat_sub(w as int, tw) / 2;
                    lemma_paint_keeps_tail(prev, bw, bh, rect_shape(x as int, y as int, w as int, h as int), face_color(st.background) as u32, i);
                    lemma_paint_keeps_tail(face, bw, bh, border_shape(x as int, y as int, w as int, h as int, st.border_size as int), st.border_color, i);
                    lemma_paint_keeps_tail(framed, bw, bh, text_shape(font, text, tx, text_y(font, y as int, h as int)), st.color, i);
                },
            }
        }
    }
}

/// The colour a pixel `(px, py)` gets from containers drawn in order over the
/// cleared buffer: the background of the last one whose rectangle holds it,
/// else the clear colour `0x222222`.
pub open spec fn top_background(items: Seq<PlacedModel>, px: int, py: int) -> u32
    decreases items.len(),
{
    if items.len() == 0 {
        0x222222u32
    } else if in_rect(items.last().rect, px, py) {
        items.last().style.background
    } else {
        top_background(items.drop_last(), px, py)
    }
}

/// Containers paint their backgrounds over one another, the later one winning:
/// every pixel of the window shows the background of the last container whose
/// rectangle holds it, or the clear colour where none does.
pub proof fn law_containers_paint_last_wins(
    items: Seq<PlacedModel>,
    font: &Font,
    bw: int,
    bh: int,
    len: nat,
)
    requires
        forall|j: int| 0 <= j < items.len() ==> (#[trigger] items[j].widget) is Container,
        0 < bw <= 0x8000_0000,
        0 <= bh <= 0x8000_0000,
    ensures
        forall|i: int|
            0 <= i < len && i < bw * bh ==> #[trigger] render_spec(items, font, bw, bh, len)[i]
                == top_background(items, i % bw, i / bw),
    decreases items.len(),
{
    if items.len() > 0 {
        let pre = items.drop_last();
        assert forall|j: int| 0 <= j < pre.len() implies (#[trigger] pre[j].widget) is Container by {
            assert(pre[j] == items[j]);
        }
        law_containers_paint_last_wins(pre, font, bw, bh, len);
        law_render_keeps_outside_clear(pre, font, bw, bh, len);
        let prev = render_spec(pre, font, bw, bh, len);
        let p = items.last();
        assert(items[items.len() - 1].widget is Container);
        assert forall|i: int| 0 <= i < len && i < bw * bh implies #[trigger] render_spec(
            items,
            font,
            bw,
            bh,
            len,
        )[i] == top_background(items, i % bw, i / bw) by {
            lemma_index(i, bw, bh);
            assert(on_screen(i % bw, i / bw, bw, bh));
            assert(prev[i] == top_background(pre, i % bw, i / bw));
        }
    }
}

/// A centre-aligned label whose text fits its rectangle is drawn, in its text
/// colour, with equal blank space left and right of the text (the right one at
/// most one pixel wider) and, when a line fits, equal space above and below
/// (the lower one at most one pixel taller); a line taller than the rectangle
/// starts at its top.
pub proof fn law_label_centred(p: PlacedModel, font: &Font, bw: int, bh: int, len: nat)
    requires
        p.widget is Label,
        p.style.align == Align::Center,
        run_width(font, p.widget->Label_text.len() as int) <= p.rect.2,
    ensures
        ({
            let (x, y, w, h) = p.rect;
            let text = p.widget->Label_text;
            let tw = run_width(font, text.len() as int);
            let fh = font.height as int;
            exists|tx: int, ty: int|
                {
                    &&& 0 <= (x + w - (tx + tw)) - (tx - x) <= 1
                    &&& fh <= h ==> 0 <= (y + h - (ty + fh)) - (ty - y) <= 1
                    &&& fh > h ==> ty == y
                    &&& render_spec(seq![p], font, bw, bh, len) == paint(
                        cleared(len),
                        bw,
                        bh,
                        #[trigger] text_shape(font, text, tx, ty),
                        p.style.color,
                    )
                }
        }),
{
    let (x, y, w, h) = p.rect;
    let text = p.widget->Label_text;
    let tw = run_width(font, text.len() as int);
    let tx = label_x(p.style.align, x as int, w as int, tw, p.style.padding as int);
    let ty = text_y(font, y as int, h as int);
    assert(seq![p].drop_last() =~= Seq::<PlacedModel>::empty());
    assert(render_spec(seq![p].drop_last(), font, bw, bh, len) == cleared(len));
    assert(seq![p].last() == p);
    assert(render_spec(seq![p], font, bw, bh, len) == draw_item(cleared(len), p, font, bw, bh));
    assert(render_spec(seq![p], font, bw, bh, len) == paint(
        cleared(len),
        bw,
        bh,
        text_shape(font, text, tx, ty),
        p.style.color,
    ));
}

/// A left-aligned label's text starts its padding's width in from the left
/// edge; a right-aligned label's text, when it fits with the padding, ends its
/// padding's width in from the right edge. Either is drawn in the text colour.
pub proof fn law_label_left_right(p: PlacedModel, font: &Font, bw: int, bh: int, len: nat)
    requires
        p.widget is Label,
        p.style.align != Align::Center,
    ensures
        ({
            let (x, y, w, h) = p.rect;
            let text = p.widget->Label_text;
            let tw = run_width(font, text.len() as int);
            let pad = p.style.padding as int;
            exists|tx: int, ty: int|
                {
                    &&& p.style.align == Align::Left ==> tx == x + pad
                    &&& p.style.align == Align::Right && tw + pad <= w ==> tx + tw == x + w - pad
                    &&& render_spec(seq![p], font, bw, bh, len) == paint(
                        cleared(len),
                        bw,
                        bh,
                        #[trigger] text_shape(font, text, tx, ty),
                        p.style.color,
                    )
                }
        }),
{
    let (x, y, w, h) = p.rect;
    let text = p.widget->Label_text;
    let tw = run_width(font, text.len() as int);
    let tx = label_x(p.style.align, x as int, w as int, tw, p.style.padding as int);
    let ty = text_y(font, y as int, h as int);
    assert(seq![p].drop_last() =~= Seq::<PlacedModel>::empty());
    assert(render_spec(seq![p].drop_last(), font, bw, bh, len) == cleared(len));
    assert(seq![p].last() == p);
    assert(render_spec(seq![p], font, bw, bh, len) == draw_item(cleared(len), p, font, bw, bh));
    assert(render_spec(seq![p], font, bw, bh, len) == paint(
        cleared(len),
        bw,
        bh,
        text_shape(font, text, tx, ty),
        p.style.color,
    ));
}

/// A button is drawn as its face (its rectangle in the lightened background),
/// then its border, then its text in the text colour, centred like a
/// centre-aligned label whatever its alignment: the blank space right of the
/// text is at most one pixel wider than the space left of it.
pub proof fn law_button_text_centred(p: PlacedModel, font: &Font, bw: int, bh: int, len: nat)
    requires
        p.widget is Button,
        run_width(font, p.widget->Button_text.len() as int) <= p.rect.2,
    ensures
        ({
            let (x, y, w, h) = p.rect;
            let text = p.widget->Button_text;
            let tw = run_width(font, text.len() as int);
            let fh = font.height as int;
            let st = p.style;
            let face = paint(
                cleared(len),
                bw,
                bh,
                rect_shape(x as int, y as int, w as int, h as int),
                face_color(st.background) as u32,
            );
            let framed = paint(
                face,
                bw,
                bh,
                border_shape(x as int, y as int, w as int, h as int, st.border_size as int),
                st.border_color,
            );
            exists|tx: int, ty: int|
                {
                    &&& 0 <= (x + w - (tx + tw)) - (tx - x) <= 1
                    &&& fh <= h ==> 0 <= (y + h - (ty + fh)) - (ty - y) <= 1
                    &&& fh > h ==> ty == y
                    &&& render_spec(seq![p], font, bw, bh, len) == paint(
                        framed,
                        bw,
                        bh,
                        #[trigger] text_shape(font, text, tx, ty),
                        st.color,
                    )
                }
        }),
{
    let (x, y, w, h) = p.rect;
    let text = p.widget->Button_text;
    let tw = run_width(font, text.len() as int);
    let tx = x + sat_sub(w as int, tw) / 2;
    let ty = text_y(font, y as int, h as int);
    assert(seq![p].drop_last() =~= Seq::<PlacedModel>::empty());
    assert(render_spec(seq![p].drop_last(), font, bw, bh, len) == cleared(len));
    assert(seq![p].last() == p);
    assert(render_spec(seq![p], font, bw, bh, len) == draw_item(cleared(len), p, font, bw, bh));
    let st = p.style;
    let face = paint(
        cleared(len),
        bw,
        bh,
        rect_shape(x as int, y as int, w as int, h as int),
        face_color(st.background) as u32,
    );
    let framed = paint(
        face,
        bw,
        bh,
        border_shape(x as int, y as int, w as int, h as int, st.border_size as int),
        st.border_color,
    );
    assert(render_spec(seq![p], font, bw, bh, len) == paint(
        framed,
        bw,
        bh,
        text_shape(font, text, tx, ty),
        st.color,
    ));
}

/// The channels of a 24-bit colour recombine into the colour: packing what
/// `rgb_from_u32` splits off gives the colour back.
pub proof fn law_channels_rebuild_color(v: u32)
    requires
        v <= 0xff_ffff,
    ensures
        (v / 65536 % 256) * 65536 + (v / 256 % 256) * 256 + v % 256 == v,
{
    assert((v / 65536 % 256) * 65536 + (v / 256 % 256) * 256 + v % 256 == v) by (bit_vector)
        requires
            v <= 0xff_ffff,
    ;
}

} // verus!
