use vstd::prelude::*;
use crate::vm::api::{
    BackendState, Brush, map_cell, map_view, map_after_set, identity_palette, lemma_raster, lemma_map_view_cell, restored,
    line_walk, line_points, line_steps_x, line_steps_y, line_err, advance, lemma_line_step, circle_walk, circle_points,
    circle_ring, circle_spans, circle_next_y, circle_next_d, box_points, box_border, sprite_brush, stretch_brush,
    text_points, solid, sheet_at, lemma_unraster, cell_brush, map_row_brush, map_brush, glyph_rows, glyph_points,
};

verus! {

/// Reading a cell back after writing it: in a `w x h` map, `mget` gives
/// the tile just written to a cell of the map, every other cell reads as
/// before, and a write outside the map changes nothing.
pub proof fn lemma_mget_after_mset(map: Seq<u8>, w: int, h: int, x: int, y: int, tile: u8, qx: int, qy: int)
    requires
        map.len() == 240 * 136,
        1 <= w <= 240,
        1 <= h <= 136,
    ensures
        map_cell(map_view(map_after_set(map, w, h, x, y, tile), w, h), qx, qy) == if qx == x && qy == y && 0 <= x < w
            && 0 <= y < h {
            tile
        } else {
            map_cell(map_view(map, w, h), qx, qy)
        },
        !(0 <= x < w && 0 <= y < h) ==> map_after_set(map, w, h, x, y, tile) == map,
{
    let m2 = map_after_set(map, w, h, x, y, tile);
    lemma_map_view_cell(map, w, h, qx, qy);
    lemma_map_view_cell(m2, w, h, qx, qy);
    if 0 <= x < w && 0 <= y < h && 0 <= qx < w && 0 <= qy < h {
        lemma_raster(240, 136, x, y);
        lemma_raster(240, 136, qx, qy);
        if qx != x || qy != y {
            assert(qy * 240 + qx != y * 240 + x) by {
                if qy * 240 + qx == y * 240 + x {
                    assert((qy * 240 + qx) % 240 == (y * 240 + x) % 240);
                    assert((qy * 240 + qx) / 240 == (y * 240 + x) / 240);
                }
            }
        }
    }
}

/// Scissoring: drawing never changes a pixel outside the clip rectangle
/// (nor, for a screen of the state's size, outside the screen), whatever
/// the brush.
pub proof fn lemma_draw_keeps_clipped(s: BackendState, base: Seq<u8>, brush: Brush, i: int)
    requires
        s.wf(),
        0 <= i < base.len(),
        !s.visible(i % (s.target_width as int), i / (s.target_width as int)),
    ensures
        s.draw_over(base, brush)[i] == base[i],
{
}

/// With the identity palette (after `pal_reset`, or on a fresh state) every
/// colour draws as its own low nibble.
pub proof fn lemma_identity_ink(s: BackendState, c: u8)
    requires
        s.palette_map@ == identity_palette(),
    ensures
        s.ink(c) == c % 16,
{
    assert(s.palette_map@[(c % 16) as int] == (c % 16) as u8);
}

/// After `palette(c0, c1)` with both below 16, drawing with `c0` produces
/// `c1`; colours with another low nibble draw as before.
pub proof fn lemma_palette_ink(before: BackendState, after: BackendState, c0: u8, c1: u8, c: u8)
    requires
        c0 < 16,
        c1 < 16,
        after.palette_map@ == before.palette_map@.update(c0 as int, c1),
    ensures
        after.ink(c) == if c % 16 == c0 { c1 } else { before.ink(c) },
{
}

/// Loading a slot that holds the current state changes nothing, and after
/// a load the restored parts no longer depend on what was there before.
pub proof fn lemma_restore_saved(s: BackendState, other: BackendState, loaded: BackendState)
    ensures
        restored(s, s) == s,
        restored(s, loaded).screen_buffer == restored(other, loaded).screen_buffer,
        restored(s, loaded).sprite_sheet == restored(other, loaded).sprite_sheet,
        restored(s, loaded).map_buffer == restored(other, loaded).map_buffer,
        restored(restored(s, loaded), loaded) == restored(s, loaded),
{
}

/// The Bresenham walk from step `(nx, ny)` ends at the far end point.
proof fn lemma_walk_reaches_end(x0: int, y0: int, a: int, b: int, sx: int, sy: int, nx: int, ny: int)
    requires
        0 <= nx <= a,
        0 <= ny <= b,
    ensures
        line_walk(x0, y0, a, b, sx, sy, nx, ny).contains((advance(x0, sx, a), advance(y0, sy, b))),
    decreases (a - nx) + (b - ny),
{
    if !(nx == a && ny == b) {
        lemma_line_step(a, b, nx, ny);
        let nx2 = if line_steps_x(a, b, nx, ny) { nx + 1 } else { nx };
        let ny2 = if line_steps_y(a, b, nx, ny) { ny + 1 } else { ny };
        lemma_walk_reaches_end(x0, y0, a, b, sx, sy, nx2, ny2);
    }
}

/// A line plots both its end points.
pub proof fn lemma_line_ends(x0: int, y0: int, x1: int, y1: int)
    ensures
        line_points(x0, y0, x1, y1).contains((x0, y0)),
        line_points(x0, y0, x1, y1).contains((x1, y1)),
{
    let a = if x1 >= x0 { x1 - x0 } else { x0 - x1 };
    let b = if y1 >= y0 { y1 - y0 } else { y0 - y1 };
    let sx: int = if x0 < x1 { 1 } else { -1 };
    let sy: int = if y0 < y1 { 1 } else { -1 };
    lemma_walk_reaches_end(x0, y0, a, b, sx, sy, 0, 0);
    if !(a == 0 && b == 0) {
        lemma_line_step(a, b, 0, 0);
    }
}

/// From any step on, the filled walk covers the outline walk.
proof fn lemma_walk_covers(xc: int, yc: int, x: int, y: int, d: int)
    ensures
        circle_walk(xc, yc, x, y, d, false).subset_of(circle_walk(xc, yc, x, y, d, true)),
    decreases (if y >= x { y - x + 1 } else { 0 }),
{
    lemma_line_ends(xc - x, yc + y, xc + x, yc + y);
    lemma_line_ends(xc - x, yc - y, xc + x, yc - y);
    lemma_line_ends(xc - y, yc + x, xc + y, yc + x);
    lemma_line_ends(xc - y, yc - x, xc + y, yc - x);
    assert(circle_ring(xc, yc, x, y).subset_of(circle_spans(xc, yc, x, y)));
    if y >= x {
        lemma_walk_covers(xc, yc, x + 1, circle_next_y(y, d), circle_next_d(x, y, d));
    }
}

/// `circfill` covers every pixel `circ` draws for the same circle.
pub proof fn lemma_circfill_covers_circ(xc: int, yc: int, r: int)
    ensures
        circle_points(xc, yc, r, false).subset_of(circle_points(xc, yc, r, true)),
{
    if r >= 0 {
        lemma_walk_covers(xc, yc, 0, r, 3 - 2 * r);
    }
}

/// `rectfill` covers every pixel `rect` draws for the same corners, and a
/// box one pixel wide or high is all outline.
pub proof fn lemma_rectfill_covers_rect(x0: int, y0: int, x1: int, y1: int)
    ensures
        box_border(x0, y0, x1, y1).subset_of(box_points(x0, y0, x1, y1)),
        (x0 == x1 || y0 == y1) ==> box_border(x0, y0, x1, y1) == box_points(x0, y0, x1, y1),
{
    if x0 == x1 || y0 == y1 {
        assert(box_border(x0, y0, x1, y1) =~= box_points(x0, y0, x1, y1));
    }
}

/// `sspr_ext` of sprite `n`'s own 8 x 8 block at scale 1 draws exactly what
/// `spr_ext(n, ..)` draws.
pub proof fn lemma_sspr_unscaled_is_spr(sheet: Seq<u8>, n: int, dx: int, dy: int, fx: bool, fy: bool)
    requires
        n >= 0,
    ensures
        stretch_brush(sheet, (n % 16) * 8, (n / 16) * 8, 8, 8, dx, dy, 8, 8, fx, fy) == sprite_brush(sheet, n, dx, dy, fx, fy),
{
    assert(stretch_brush(sheet, (n % 16) * 8, (n / 16) * 8, 8, 8, dx, dy, 8, 8, fx, fy) =~= sprite_brush(
        sheet,
        n,
        dx,
        dy,
        fx,
        fy,
    ));
}

/// The glyphs of `a + b` are those of `a`, then those of `b` starting
/// `4 * |a|` pixels further right.
pub proof fn lemma_text_points_concat(a: Seq<char>, b: Seq<char>, x: int, y: int)
    ensures
        text_points(a + b, x, y) == text_points(a, x, y).union(text_points(b, x + 4 * a.len(), y)),
    decreases a.len(),
{
    if a.len() == 0 {
        assert(a + b =~= b);
        assert(text_points(a, x, y).union(text_points(b, x, y)) =~= text_points(b, x, y));
    } else {
        lemma_text_points_concat(a.drop_first(), b, x + 4, y);
        assert((a + b).drop_first() =~= a.drop_first() + b);
        assert(text_points(a + b, x, y) =~= text_points(a, x, y).union(text_points(b, x + 4 * a.len(), y)));
    }
}

/// Printing two strings joined is printing the first, then the second
/// where the first one ends.
pub proof fn lemma_draw_text_concat(s: BackendState, base: Seq<u8>, a: Seq<char>, b: Seq<char>, x: int, y: int, c: u8)
    ensures
        s.draw_over(base, solid(text_points(a + b, x, y), c)) == s.draw_over(
            s.draw_over(base, solid(text_points(a, x, y), c)),
            solid(text_points(b, x + 4 * a.len(), y), c),
        ),
{
    lemma_text_points_concat(a, b, x, y);
    s.lemma_solid_chain(base, text_points(a, x, y), text_points(b, x + 4 * a.len(), y), c);
}

/// Drawing keeps the screen within the hardware colours, whatever the brush
/// and the palette.
pub proof fn lemma_draw_keeps_colors(s: BackendState, base: Seq<u8>, brush: Brush)
    requires
        forall|i: int| 0 <= i < base.len() ==> #[trigger] base[i] < 16,
    ensures
        forall|i: int| 0 <= i < base.len() ==> #[trigger] s.draw_over(base, brush)[i] < 16,
{
}

/// `palette(c0, c1)` keeps a palette of hardware colours within them.
pub proof fn lemma_palette_keeps_colors(before: Seq<u8>, after: Seq<u8>, c0: u8, c1: u8)
    requires
        before.len() == 16,
        forall|i: int| 0 <= i < 16 ==> #[trigger] before[i] < 16,
        after == (if c0 < 16 && c1 < 16 { before.update(c0 as int, c1) } else { before }),
    ensures
        forall|i: int| 0 <= i < 16 ==> #[trigger] after[i] < 16,
{
}

/// The palette of a fresh state, and after `pal_reset`, holds hardware
/// colours only.
pub proof fn lemma_identity_palette_colors()
    ensures
        forall|i: int| 0 <= i < 16 ==> #[trigger] identity_palette()[i] < 16,
{
}

/// The screen after `pset(p, c)` at each point `p` of `pts` in turn.
pub open spec fn pset_run(s: BackendState, base: Seq<u8>, pts: Seq<(int, int)>, c: u8) -> Seq<u8>
    decreases pts.len(),
{
    if pts.len() == 0 {
        base
    } else {
        s.draw_over(pset_run(s, base, pts.drop_last(), c), map![pts.last() => c])
    }
}

/// Setting pixels one by one in a colour draws the set of them: so
/// `rectfill`, `rect`, `line`, `circ`, `circfill` and `print`, which draw
/// a point set in one colour, equal `pset` at each of their points, in any
/// order.
pub proof fn lemma_pset_run(s: BackendState, base: Seq<u8>, pts: Seq<(int, int)>, c: u8)
    ensures
        pset_run(s, base, pts, c) == s.draw_over(base, solid(pts.to_set(), c)),
    decreases pts.len(),
{
    if pts.len() == 0 {
        assert(solid(pts.to_set(), c) =~= Map::empty());
        s.lemma_draw_empty(base);
    } else {
        let init = pts.drop_last();
        lemma_pset_run(s, base, init, c);
        assert(map![pts.last() => c] =~= solid(set![pts.last()], c));
        s.lemma_solid_chain(base, init.to_set(), set![pts.last()], c);
        assert(init.to_set().union(set![pts.last()]) =~= pts.to_set()) by {
            assert forall|p: (int, int)| pts.to_set().contains(p) implies init.to_set().union(set![pts.last()]).contains(p) by {
                let k = choose|k: int| 0 <= k < pts.len() && pts[k] == p;
                if k < pts.len() - 1 {
                    assert(init[k] == p);
                }
            }
            assert forall|p: (int, int)| init.to_set().contains(p) implies pts.to_set().contains(p) by {
                let k = choose|k: int| 0 <= k < init.len() && init[k] == p;
                assert(pts[k] == p);
            }
        }
    }
}

/// The brush that a sequence of coloured points builds, later points
/// winning.
pub open spec fn seq_brush(pts: Seq<((int, int), u8)>) -> Brush
    decreases pts.len(),
{
    if pts.len() == 0 {
        Map::empty()
    } else {
        seq_brush(pts.drop_last()).insert(pts.last().0, pts.last().1)
    }
}

/// The screen after `pset(p, c)` for each pair `(p, c)` of `pts` in turn.
pub open spec fn paint_run(s: BackendState, base: Seq<u8>, pts: Seq<((int, int), u8)>) -> Seq<u8>
    decreases pts.len(),
{
    if pts.len() == 0 {
        base
    } else {
        s.draw_over(paint_run(s, base, pts.drop_last()), map![pts.last().0 => pts.last().1])
    }
}

/// Setting coloured pixels one by one draws the brush they build: so
/// `spr_ext`, `sspr_ext` and `map`, whose brushes are their pixels with
/// the sheet's colours, equal their pixel-by-pixel `pset` loops.
pub proof fn lemma_paint_run(s: BackendState, base: Seq<u8>, pts: Seq<((int, int), u8)>)
    ensures
        paint_run(s, base, pts) == s.draw_over(base, seq_brush(pts)),
    decreases pts.len(),
{
    if pts.len() == 0 {
        s.lemma_draw_empty(base);
    } else {
        let init = pts.drop_last();
        lemma_paint_run(s, base, init);
        s.lemma_draw_compose(base, seq_brush(init), map![pts.last().0 => pts.last().1]);
        assert(seq_brush(init).union_prefer_right(map![pts.last().0 => pts.last().1]) =~= seq_brush(pts));
    }
}

/// `sspr_ext` samples by nearest neighbour: destination pixel
/// `(dx + x, dy + y)` of the `dw x dh` target shows source column
/// `(x * sw) / dw` and source row `(y * sh) / dh` of the `sw x sh` region
/// at `(sx, sy)` (counted from the far edge when flipped); the columns
/// depend on the widths only and the rows on the heights only. Source
/// colour 0 is transparent, and nothing is drawn outside the target.
pub proof fn lemma_sspr_samples(
    sheet: Seq<u8>,
    sx: int,
    sy: int,
    sw: int,
    sh: int,
    dx: int,
    dy: int,
    dw: int,
    dh: int,
    fx: bool,
    fy: bool,
    x: int,
    y: int,
)
    requires
        sw > 0,
        sh > 0,
        dw > 0,
        dh > 0,
    ensures
        ({
            let b = stretch_brush(sheet, sx, sy, sw, sh, dx, dy, dw, dh, fx, fy);
            let col = (x * sw) / dw;
            let row = (y * sh) / dh;
            let src_x = if fx { sx + sw - 1 - col } else { sx + col };
            let src_y = if fy { sy + sh - 1 - row } else { sy + row };
            let c = sheet_at(sheet, src_x, src_y);
            &&& (0 <= x < dw && 0 <= y < dh) ==> (0 <= col < sw && 0 <= row < sh)
            &&& (0 <= x < dw && 0 <= y < dh) ==> (b.dom().contains((dx + x, dy + y)) <==> c != 0)
            &&& (0 <= x < dw && 0 <= y < dh && c != 0) ==> b[(dx + x, dy + y)] == c
            &&& !(0 <= x < dw && 0 <= y < dh) ==> !b.dom().contains((dx + x, dy + y))
        }),
{
    if 0 <= x < dw && 0 <= y < dh {
        assert(0 <= (x * sw) / dw < sw) by (nonlinear_arith)
            requires
                0 <= x < dw,
                sw > 0,
                dw > 0,
;
        assert(0 <= (y * sh) / dh < sh) by (nonlinear_arith)
            requires
                0 <= y < dh,
                sh > 0,
                dh > 0,
;
    }
}

/// Printing one character lights pixel `(x + col, y + row)` exactly when
/// bit `2 - col` of glyph row `row` (as `get_ascii_glyph` gives it) is set:
/// the `0b100` bit is the leftmost column, the `0b001` bit the rightmost.
/// Nothing outside the 3 x 5 cell is lit.
pub proof fn lemma_glyph_pixels(c: char, x: int, y: int, col: int, row: int)
    ensures
        (0 <= col < 3 && 0 <= row < 5) ==> (text_points(seq![c], x, y).contains((x + col, y + row)) <==> (glyph_rows(
            c,
        )[row] >> ((2 - col) as u8)) & 1u8 == 1u8),
        !(0 <= col < 3 && 0 <= row < 5) ==> !text_points(seq![c], x, y).contains((x + col, y + row)),
{
    assert(seq![c].drop_first() =~= Seq::<char>::empty());
    reveal_with_fuel(text_points, 2);
    assert(text_points(seq![c], x, y) =~= glyph_points(c, x, y));
    if 0 <= col < 3 && 0 <= row < 5 {
        let b = glyph_rows(c)[row];
        assert((b >> 2u8) & 1u8 == 1u8 <==> (b / 4) % 2 == 1) by (bit_vector);
        assert((b >> 1u8) & 1u8 == 1u8 <==> (b / 2) % 2 == 1) by (bit_vector);
        assert((b >> 0u8) & 1u8 == 1u8 <==> b % 2 == 1) by (bit_vector);
        if col == 0 {
            assert(((2 - col) as u8) == 2u8);
        } else if col == 1 {
            assert(((2 - col) as u8) == 1u8);
        } else {
            assert(((2 - col) as u8) == 0u8);
        }
    }
}

/// Within one 8 x 8 screen square of the block `map(cel_x, cel_y, scr_x,
/// scr_y, w, h)` draws, the brush is a single cell's: cell `(cx, cy)` at
/// `(scr_x + 8 * cx, scr_y + 8 * cy)` shows the sprite of map cell
/// `(cel_x + cx, cel_y + cy)`, as `spr` would draw it there, and nothing
/// when that tile is 0.
pub proof fn lemma_map_cell_shown(
    sheet: Seq<u8>,
    map: Seq<u8>,
    cel_x: int,
    cel_y: int,
    scr_x: int,
    scr_y: int,
    w: int,
    h: int,
    cx: int,
    cy: int,
    p: (int, int),
)
    requires
        0 <= cx < w,
        0 <= cy < h,
        scr_x + 8 * cx <= p.0 < scr_x + 8 * cx + 8,
        scr_y + 8 * cy <= p.1 < scr_y + 8 * cy + 8,
    ensures
        ({
            let t = map_cell(map, cel_x + cx, cel_y + cy);
            let b = map_brush(sheet, map, cel_x, cel_y, scr_x, scr_y, w, h);
            let sb = sprite_brush(sheet, t as int, scr_x + 8 * cx, scr_y + 8 * cy, false, false);
            &&& b.dom().contains(p) <==> (t != 0 && sb.dom().contains(p))
            &&& b.dom().contains(p) ==> b[p] == sb[p]
        }),
{
    lemma_map_rows_at(sheet, map, cel_x, cel_y, scr_x, scr_y, w, h, cx, cy, p);
    lemma_map_row_at(sheet, map, cel_x, cel_y, scr_x, scr_y, cy, w, cx, cy, p);
}

/// A cell's brush lies in its own 8 x 8 square.
proof fn lemma_cell_square(
    sheet: Seq<u8>,
    map: Seq<u8>,
    cel_x: int,
    cel_y: int,
    scr_x: int,
    scr_y: int,
    k: int,
    r: int,
    p: (int, int),
)
    requires
        cell_brush(sheet, map, cel_x, cel_y, scr_x, scr_y, k, r).dom().contains(p),
    ensures
        scr_x + 8 * k <= p.0 < scr_x + 8 * k + 8,
        scr_y + 8 * r <= p.1 < scr_y + 8 * r + 8,
{
}

/// In row `r` of cells `0 .. n`, the point `p` of cell `(cx, cy)`'s square
/// is covered by that cell alone.
proof fn lemma_map_row_at(
    sheet: Seq<u8>,
    map: Seq<u8>,
    cel_x: int,
    cel_y: int,
    scr_x: int,
    scr_y: int,
    r: int,
    n: int,
    cx: int,
    cy: int,
    p: (int, int),
)
    requires
        0 <= cx,
        scr_x + 8 * cx <= p.0 < scr_x + 8 * cx + 8,
        scr_y + 8 * cy <= p.1 < scr_y + 8 * cy + 8,
    ensures
        ({
            let rb = map_row_brush(sheet, map, cel_x, cel_y, scr_x, scr_y, r, n);
            let cb = cell_brush(sheet, map, cel_x, cel_y, scr_x, scr_y, cx, cy);
            &&& (r == cy && cx < n) ==> (rb.dom().contains(p) == cb.dom().contains(p) && (rb.dom().contains(p) ==> rb[p] == cb[p]))
            &&& !(r == cy && cx < n) ==> !rb.dom().contains(p)
        }),
    decreases n,
{
    if n > 0 {
        lemma_map_row_at(sheet, map, cel_x, cel_y, scr_x, scr_y, r, n - 1, cx, cy, p);
        let last = cell_brush(sheet, map, cel_x, cel_y, scr_x, scr_y, n - 1, r);
        if last.dom().contains(p) {
            lemma_cell_square(sheet, map, cel_x, cel_y, scr_x, scr_y, n - 1, r, p);
        }
    }
}

/// In rows `0 .. m`, the point `p` of cell `(cx, cy)`'s square is covered
/// by row `cy` alone.
proof fn lemma_map_rows_at(
    sheet: Seq<u8>,
    map: Seq<u8>,
    cel_x: int,
    cel_y: int,
    scr_x: int,
    scr_y: int,
    w: int,
    m: int,
    cx: int,
    cy: int,
    p: (int, int),
)
    requires
        0 <= cx,
        scr_x + 8 * cx <= p.0 < scr_x + 8 * cx + 8,
        scr_y + 8 * cy <= p.1 < scr_y + 8 * cy + 8,
    ensures
        ({
            let b = map_brush(sheet, map, cel_x, cel_y, scr_x, scr_y, w, m);
            let rb = map_row_brush(sheet, map, cel_x, cel_y, scr_x, scr_y, cy, w);
            &&& (0 <= cy < m) ==> (b.dom().contains(p) == rb.dom().contains(p) && (b.dom().contains(p) ==> b[p] == rb[p]))
            &&& !(0 <= cy < m) ==> !b.dom().contains(p)
        }),
    decreases m,
{
    if m > 0 {
        lemma_map_rows_at(sheet, map, cel_x, cel_y, scr_x, scr_y, w, m - 1, cx, cy, p);
        lemma_map_row_at(sheet, map, cel_x, cel_y, scr_x, scr_y, m - 1, w, cx, cy, p);
    }
}

/// What `pset(x, y, c)` writes: with camera `(cx, cy)`, the screen pixel
/// `(x - cx, y - cy)` (row-major index `(y - cy) * width + (x - cx)`)
/// takes palette entry `c & 15`, kept to four bits, when that pixel is on
/// the screen and inside the clip rectangle; no other pixel changes.
pub proof fn lemma_pset_pixel(s: BackendState, base: Seq<u8>, x: int, y: int, c: u8, i: int)
    requires
        s.wf(),
        base.len() == s.screen_buffer@.len(),
        0 <= i < base.len(),
    ensures
        ({
            let w = s.target_width as int;
            let px = x - s.camera_x;
            let py = y - s.camera_y;
            let shown = s.clip_x0 <= px <= s.clip_x1 && s.clip_y0 <= py <= s.clip_y1 && 0 <= px < w && 0 <= py
                < s.target_height;
            s.draw_over(base, map![(x, y) => c])[i] == if shown && i == py * w + px {
                s.palette_map@[(c & 15u8) as int] & 15u8
            } else {
                base[i]
            }
        }),
{
    let w = s.target_width as int;
    let h = s.target_height as int;
    let px = x - s.camera_x;
    let py = y - s.camera_y;
    lemma_unraster(w, h, i);
    assert(c & 15u8 == c % 16) by (bit_vector);
    let e = s.palette_map@[(c % 16) as int];
    assert(e & 15u8 == e % 16) by (bit_vector);
    if 0 <= px < w && 0 <= py < h {
        lemma_raster(w, h, px, py);
    }
}

/// Every point of the walk from step `(nx, ny)` lies between that step
/// and the far end point.
proof fn lemma_walk_box(x0: int, y0: int, a: int, b: int, sx: int, sy: int, nx: int, ny: int, p: (int, int))
    requires
        0 <= nx <= a,
        0 <= ny <= b,
        line_walk(x0, y0, a, b, sx, sy, nx, ny).contains(p),
    ensures
        exists|i: int, j: int|
            nx <= i <= a && ny <= j <= b && p == (#[trigger] advance(x0, sx, i), #[trigger] advance(y0, sy, j)),
    decreases (a - nx) + (b - ny),
{
    if p == (advance(x0, sx, nx), advance(y0, sy, ny)) {
        assert(p == (advance(x0, sx, nx), advance(y0, sy, ny)));
    } else {
        lemma_line_step(a, b, nx, ny);
        let nx2 = if line_steps_x(a, b, nx, ny) { nx + 1 } else { nx };
        let ny2 = if line_steps_y(a, b, nx, ny) { ny + 1 } else { ny };
        lemma_walk_box(x0, y0, a, b, sx, sy, nx2, ny2, p);
    }
}

/// A line stays inside the box its two end points span.
pub proof fn lemma_line_in_box(x0: int, y0: int, x1: int, y1: int, p: (int, int))
    requires
        line_points(x0, y0, x1, y1).contains(p),
    ensures
        (if x0 <= x1 { x0 } else { x1 }) <= p.0 <= (if x0 <= x1 { x1 } else { x0 }),
        (if y0 <= y1 { y0 } else { y1 }) <= p.1 <= (if y0 <= y1 { y1 } else { y0 }),
{
    let a = if x1 >= x0 { x1 - x0 } else { x0 - x1 };
    let b = if y1 >= y0 { y1 - y0 } else { y0 - y1 };
    let sx: int = if x0 < x1 { 1 } else { -1 };
    let sy: int = if y0 < y1 { 1 } else { -1 };
    lemma_walk_box(x0, y0, a, b, sx, sy, 0, 0, p);
}

/// From any step on, the outline walk is symmetric about the centre's
/// column, its row and its diagonal.
proof fn lemma_ring_walk_symmetric(xc: int, yc: int, x: int, y: int, d: int, u: int, v: int)
    requires
        circle_walk(xc, yc, x, y, d, false).contains((xc + u, yc + v)),
    ensures
        circle_walk(xc, yc, x, y, d, false).contains((xc - u, yc + v)),
        circle_walk(xc, yc, x, y, d, false).contains((xc + u, yc - v)),
        circle_walk(xc, yc, x, y, d, false).contains((xc + v, yc + u)),
    decreases (if y >= x { y - x + 1 } else { 0 }),
{
    if circle_ring(xc, yc, x, y).contains((xc + u, yc + v)) {
    } else if y >= x {
        lemma_ring_walk_symmetric(xc, yc, x + 1, circle_next_y(y, d), circle_next_d(x, y, d), u, v);
    }
}

/// `circ` draws an 8-fold symmetric outline: with a point `(xc + u, yc + v)`
/// it draws its mirror images across the centre's column, its row and the
/// diagonal, `(xc - u, yc + v)`, `(xc + u, yc - v)` and `(xc + v, yc + u)`.
pub proof fn lemma_circ_symmetric(xc: int, yc: int, r: int, u: int, v: int)
    requires
        circle_points(xc, yc, r, false).contains((xc + u, yc + v)),
    ensures
        circle_points(xc, yc, r, false).contains((xc - u, yc + v)),
        circle_points(xc, yc, r, false).contains((xc + u, yc - v)),
        circle_points(xc, yc, r, false).contains((xc + v, yc + u)),
{
    lemma_ring_walk_symmetric(xc, yc, 0, r, 3 - 2 * r, u, v);
}

/// How far step `(nx, ny)` of a walk over `a x b` lies off the ideal line,
/// doubled and scaled by the run: `2 (ny a - nx b)`.
pub open spec fn line_dev(a: int, b: int, nx: int, ny: int) -> int {
    2 * (ny * a - nx * b)
}

/// One step of the walk keeps it within half a pixel of the ideal line.
proof fn lemma_line_dev_step(a: int, b: int, nx: int, ny: int)
    requires
        0 <= nx <= a,
        0 <= ny <= b,
        !(nx == a && ny == b),
        -(if a >= b { a } else { b }) <= line_dev(a, b, nx, ny) <= (if a >= b { a } else { b }),
    ensures
        ({
            let nx2 = if line_steps_x(a, b, nx, ny) { nx + 1 } else { nx };
            let ny2 = if line_steps_y(a, b, nx, ny) { ny + 1 } else { ny };
            &&& -(if a >= b { a } else { b }) <= line_dev(a, b, nx2, ny2) <= (if a >= b { a } else { b })
            &&& a >= b ==> line_steps_x(a, b, nx, ny)
            &&& b >= a ==> line_steps_y(a, b, nx, ny)
        }),
{
    assert(line_err(a, b, nx, ny) == a - b + (ny * a - nx * b)) by (nonlinear_arith);
    assert(line_dev(a, b, nx + 1, ny) == line_dev(a, b, nx, ny) - 2 * b) by (nonlinear_arith);
    assert(line_dev(a, b, nx, ny + 1) == line_dev(a, b, nx, ny) + 2 * a) by (nonlinear_arith);
    assert(line_dev(a, b, nx + 1, ny + 1) == line_dev(a, b, nx, ny) + 2 * a - 2 * b) by (nonlinear_arith);
}

/// Every point of the walk from a step within half a pixel of the ideal
/// line is itself within half a pixel of it; and, along the major axis,
/// every coordinate from the step to the end has a point.
proof fn lemma_walk_dev(x0: int, y0: int, a: int, b: int, sx: int, sy: int, nx: int, ny: int, p: (int, int), k: int)
    requires
        0 <= nx <= a,
        0 <= ny <= b,
        -(if a >= b { a } else { b }) <= line_dev(a, b, nx, ny) <= (if a >= b { a } else { b }),
    ensures
        line_walk(x0, y0, a, b, sx, sy, nx, ny).contains(p) ==> exists|i: int, j: int|
            nx <= i <= a && ny <= j <= b && p == (#[trigger] advance(x0, sx, i), #[trigger] advance(y0, sy, j)) && -(
            if a >= b { a } else { b }) <= line_dev(a, b, i, j) <= (if a >= b { a } else { b }),
        (a >= b && nx <= k <= a) ==> exists|j: int| #[trigger]
            line_walk(x0, y0, a, b, sx, sy, nx, ny).contains((advance(x0, sx, k), advance(y0, sy, j))),
        (b >= a && ny <= k <= b) ==> exists|i: int| #[trigger]
            line_walk(x0, y0, a, b, sx, sy, nx, ny).contains((advance(x0, sx, i), advance(y0, sy, k))),
    decreases (a - nx) + (b - ny),
{
    let here = (advance(x0, sx, nx), advance(y0, sy, ny));
    assert(line_walk(x0, y0, a, b, sx, sy, nx, ny).contains(here));
    if !(nx == a && ny == b) {
        lemma_line_step(a, b, nx, ny);
        lemma_line_dev_step(a, b, nx, ny);
        let nx2 = if line_steps_x(a, b, nx, ny) { nx + 1 } else { nx };
        let ny2 = if line_steps_y(a, b, nx, ny) { ny + 1 } else { ny };
        lemma_walk_dev(x0, y0, a, b, sx, sy, nx2, ny2, p, k);
        let rest = line_walk(x0, y0, a, b, sx, sy, nx2, ny2);
        assert(line_walk(x0, y0, a, b, sx, sy, nx, ny) == rest.insert(here));
        if a >= b && nx <= k <= a {
            if k == nx {
                assert(line_walk(x0, y0, a, b, sx, sy, nx, ny).contains((advance(x0, sx, k), advance(y0, sy, ny))));
            } else {
                let j = choose|j: int| #[trigger] rest.contains((advance(x0, sx, k), advance(y0, sy, j)));
                assert(line_walk(x0, y0, a, b, sx, sy, nx, ny).contains((advance(x0, sx, k), advance(y0, sy, j))));
            }
        }
        if b >= a && ny <= k <= b {
            if k == ny {
                assert(line_walk(x0, y0, a, b, sx, sy, nx, ny).contains((advance(x0, sx, nx), advance(y0, sy, k))));
            } else {
                let i = choose|i: int| #[trigger] rest.contains((advance(x0, sx, i), advance(y0, sy, k)));
                assert(line_walk(x0, y0, a, b, sx, sy, nx, ny).contains((advance(x0, sx, i), advance(y0, sy, k))));
            }
        }
    } else {
        if p == here {
            assert(nx <= nx <= a && ny <= ny <= b && p == (advance(x0, sx, nx), advance(y0, sy, ny)));
        }
        if a >= b && nx <= k <= a {
            assert(line_walk(x0, y0, a, b, sx, sy, nx, ny).contains((advance(x0, sx, k), advance(y0, sy, ny))));
        }
        if b >= a && ny <= k <= b {
            assert(line_walk(x0, y0, a, b, sx, sy, nx, ny).contains((advance(x0, sx, nx), advance(y0, sy, k))));
        }
    }
}

/// The coordinate `k` steps from `v0` towards `v1`.
pub open spec fn toward(v0: int, v1: int, k: int) -> int {
    if v1 >= v0 {
        v0 + k
    } else {
        v0 - k
    }
}

/// `line` draws the pixels nearest the ideal line: with `a = |x1 - x0|`,
/// `b = |y1 - y0|` and each point `(x0 +- i, y0 +- j)` taken from the first
/// end point towards the second, every point has `|2 (j a - i b)| <=
/// max(a, b)` (it is at most half a pixel off the ideal line along the
/// minor axis), and every column (for `a >= b`) or row (for `b >= a`)
/// between the end points has a point.
pub proof fn lemma_line_nearest(x0: int, y0: int, x1: int, y1: int, p: (int, int), k: int)
    ensures
        ({
            let a = if x1 >= x0 { x1 - x0 } else { x0 - x1 };
            let b = if y1 >= y0 { y1 - y0 } else { y0 - y1 };
            let m = if a >= b { a } else { b };
            let i = if x1 >= x0 { p.0 - x0 } else { x0 - p.0 };
            let j = if y1 >= y0 { p.1 - y0 } else { y0 - p.1 };
            &&& line_points(x0, y0, x1, y1).contains(p) ==> (0 <= i <= a && 0 <= j <= b && -m <= 2 * (j * a - i * b) <= m)
            &&& (a >= b && 0 <= k <= a) ==> exists|y: int| #[trigger]
                line_points(x0, y0, x1, y1).contains((toward(x0, x1, k), y))
            &&& (b >= a && 0 <= k <= b) ==> exists|x: int| #[trigger]
                line_points(x0, y0, x1, y1).contains((x, toward(y0, y1, k)))
        }),
{
    let a = if x1 >= x0 { x1 - x0 } else { x0 - x1 };
    let b = if y1 >= y0 { y1 - y0 } else { y0 - y1 };
    let sx: int = if x0 < x1 { 1 } else { -1 };
    let sy: int = if y0 < y1 { 1 } else { -1 };
    assert(line_dev(a, b, 0, 0) == 0);
    lemma_walk_dev(x0, y0, a, b, sx, sy, 0, 0, p, k);
    if a >= b && 0 <= k <= a {
        let j = choose|j: int| #[trigger] line_walk(x0, y0, a, b, sx, sy, 0, 0).contains((advance(x0, sx, k), advance(y0, sy, j)));
        assert(line_points(x0, y0, x1, y1).contains((toward(x0, x1, k), advance(y0, sy, j))));
    }
    if b >= a && 0 <= k <= b {
        let i = choose|i: int| #[trigger] line_walk(x0, y0, a, b, sx, sy, 0, 0).contains((advance(x0, sx, i), advance(y0, sy, k)));
        assert(line_points(x0, y0, x1, y1).contains((advance(x0, sx, i), toward(y0, y1, k))));
    }
}

} // verus!
