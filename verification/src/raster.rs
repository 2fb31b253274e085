//! Rasterisation of a frame into an indexed-colour pixel image: every
//! cell becomes a `cw` by `ch` block in its background colour, and the
//! raised dots of a Braille cell (2 columns by 4 rows of sub-blocks) are
//! painted in its foreground colour.

use vstd::prelude::*;
use vstd::arithmetic::div_mod::{
    lemma_fundamental_div_mod, lemma_fundamental_div_mod_converse_div,
    lemma_fundamental_div_mod_converse_mod,
};
use crate::frame::{braille_bits, braille_dot_bit, braille_pattern, dot_bit, MapCell, MapFrame};

verus! {

/// Pixel index `i` of an image `w` pixels wide lies in the rectangle with
/// corner (`x`, `y`), `rw` wide and `rh` high.
pub open spec fn in_rect(i: int, w: int, x: int, y: int, rw: int, rh: int) -> bool {
    y <= i / w < y + rh && x <= i % w < x + rw
}

/// Pixel (`x`, `y`) of a `w`-wide image sits at index `y * w + x`.
pub(crate) proof fn lemma_pixel_index(w: int, x: int, y: int)
    requires
        w > 0,
        0 <= x < w,
    ensures
        (y * w + x) / w == y,
        (y * w + x) % w == x,
{
    lemma_fundamental_div_mod_converse_div(y * w + x, w, y, x);
    lemma_fundamental_div_mod_converse_mod(y * w + x, w, y, x);
}

/// Index `i` lies in row `i / w`, column `i % w`.
proof fn lemma_index_decompose(i: int, w: int)
    requires
        w > 0,
        i >= 0,
    ensures
        i == (i / w) * w + i % w,
        0 <= i % w < w,
        i / w >= 0,
{
    lemma_fundamental_div_mod(i, w);
    assert(w * (i / w) == (i / w) * w) by (nonlinear_arith);
    vstd::arithmetic::div_mod::lemma_mod_bound(i, w);
    vstd::arithmetic::div_mod::lemma_div_pos_is_pos(i, w);
}

/// Index of pixel (`px`, `py`) in an image stored row after row, `w`
/// pixels to a row.
pub open spec fn pixel_offset(w: int, px: int, py: int) -> int {
    py * w + px
}

/// Index `i` is written when the rectangle with corner (`x`, `y`), `rw`
/// wide and `rh` high, is painted into a `w`-wide image: some pixel of
/// the rectangle sits at `i`. Nothing keeps the rectangle inside one row,
/// so a rectangle that runs past the row's end reaches into the next.
pub open spec fn rect_covers(i: int, w: int, x: int, y: int, rw: int, rh: int) -> bool {
    exists|py: int, px: int|
        y <= py < y + rh && x <= px < x + rw && #[trigger] pixel_offset(w, px, py) == i
}

/// What the rows before `py` and the columns of row `py` before `px`
/// cover.
spec fn covered_before(i: int, w: int, x: int, y: int, rw: int, py: int, px: int) -> bool {
    rect_covers(i, w, x, y, rw, py - y) || exists|qx: int|
        x <= qx < px && #[trigger] pixel_offset(w, qx, py) == i
}

proof fn lemma_covered_step(w: int, x: int, y: int, rw: int, py: int, px: int)
    requires
        y <= py,
    ensures
        forall|i: int|
            #[trigger] covered_before(i, w, x, y, rw, py, px + 1) == (covered_before(
                i,
                w,
                x,
                y,
                rw,
                py,
                px,
            ) || (x <= px && i == pixel_offset(w, px, py))),
{
    assert forall|i: int|
        #[trigger] covered_before(i, w, x, y, rw, py, px + 1) implies (covered_before(
            i,
            w,
            x,
            y,
            rw,
            py,
            px,
        ) || (x <= px && i == pixel_offset(w, px, py))) by {
        if !rect_covers(i, w, x, y, rw, py - y) {
            let qx = choose|qx: int| x <= qx < px + 1 && #[trigger] pixel_offset(w, qx, py) == i;
            if qx < px {
                assert(x <= qx < px && pixel_offset(w, qx, py) == i);
            }
        }
    }
    assert forall|i: int|
        covered_before(i, w, x, y, rw, py, px) || (x <= px && i == pixel_offset(w, px, py))
            implies #[trigger] covered_before(i, w, x, y, rw, py, px + 1) by {
        if !rect_covers(i, w, x, y, rw, py - y) {
            if exists|qx: int| x <= qx < px && #[trigger] pixel_offset(w, qx, py) == i {
                let qx = choose|qx: int| x <= qx < px && #[trigger] pixel_offset(w, qx, py) == i;
                assert(x <= qx < px + 1 && pixel_offset(w, qx, py) == i);
            } else {
                assert(x <= px < px + 1 && pixel_offset(w, px, py) == i);
            }
        }
    }
}

proof fn lemma_covered_row(w: int, x: int, y: int, rw: int, py: int)
    requires
        y <= py,
        rw >= 0,
    ensures
        forall|i: int|
            #[trigger] rect_covers(i, w, x, y, rw, py + 1 - y) == covered_before(
                i,
                w,
                x,
                y,
                rw,
                py,
                x + rw,
            ),
{
    assert forall|i: int|
        #[trigger] rect_covers(i, w, x, y, rw, py + 1 - y) implies covered_before(
            i,
            w,
            x,
            y,
            rw,
            py,
            x + rw,
        ) by {
        let (qy, qx) = choose|qy: int, qx: int|
            y <= qy < y + (py + 1 - y) && x <= qx < x + rw && #[trigger] pixel_offset(w, qx, qy)
                == i;
        if qy < py {
            assert(y <= qy < y + (py - y) && x <= qx < x + rw && pixel_offset(w, qx, qy) == i);
        } else {
            assert(x <= qx < x + rw && pixel_offset(w, qx, py) == i);
        }
    }
    assert forall|i: int|
        covered_before(i, w, x, y, rw, py, x + rw) implies #[trigger] rect_covers(
            i,
            w,
            x,
            y,
            rw,
            py + 1 - y,
        ) by {
        if rect_covers(i, w, x, y, rw, py - y) {
            let (qy, qx) = choose|qy: int, qx: int|
                y <= qy < y + (py - y) && x <= qx < x + rw && #[trigger] pixel_offset(w, qx, qy)
                    == i;
            assert(y <= qy < y + (py + 1 - y) && x <= qx < x + rw && pixel_offset(w, qx, qy)
                == i);
        } else {
            let qx = choose|qx: int| x <= qx < x + rw && #[trigger] pixel_offset(w, qx, py) == i;
            assert(y <= py < y + (py + 1 - y) && x <= qx < x + rw && pixel_offset(w, qx, py)
                == i);
        }
    }
}

/// In an image `w` pixels wide, a rectangle that stays inside its rows
/// covers exactly the indices whose row and column lie in its range.
proof fn lemma_covers_in_rect(w: int, x: int, y: int, rw: int, rh: int)
    requires
        w > 0,
        x >= 0,
        rw >= 0,
        x + rw <= w,
    ensures
        forall|i: int|
            i >= 0 ==> (#[trigger] rect_covers(i, w, x, y, rw, rh) == in_rect(i, w, x, y, rw, rh)),
{
    assert forall|i: int| i >= 0 implies (#[trigger] rect_covers(i, w, x, y, rw, rh) == in_rect(
        i,
        w,
        x,
        y,
        rw,
        rh,
    )) by {
        if rect_covers(i, w, x, y, rw, rh) {
            let (qy, qx) = choose|qy: int, qx: int|
                y <= qy < y + rh && x <= qx < x + rw && #[trigger] pixel_offset(w, qx, qy) == i;
            lemma_pixel_index(w, qx, qy);
        }
        if in_rect(i, w, x, y, rw, rh) {
            lemma_index_decompose(i, w);
            assert(pixel_offset(w, i % w, i / w) == i);
        }
    }
}

/// A rectangle inside the rows of a `w`-wide image of `len` pixels, whose
/// last row ends at or before the image's end, meets the bounds that
/// `fill_rect` asks for.
proof fn lemma_rect_fits(len: int, w: int, x: int, y: int, rw: int, rh: int)
    requires
        w > 0,
        x >= 0,
        y >= 0,
        rw >= 0,
        rh >= 0,
        x + rw <= w,
        w <= usize::MAX,
        (y + rh) * w <= len,
        len <= usize::MAX,
    ensures
        y + rh <= usize::MAX,
        x + rw <= usize::MAX,
        rh > 0 ==> (y + rh - 1) * w <= usize::MAX,
        rw > 0 && rh > 0 ==> (y + rh - 1) * w + x + rw <= len,
{
    assert((y + rh - 1) * w + w == (y + rh) * w) by (nonlinear_arith);
    assert(y + rh <= (y + rh) * w) by (nonlinear_arith)
        requires
            w > 0,
            y + rh >= 0,
    ;
    if rh > 0 {
        assert((y + rh - 1) * w >= 0) by (nonlinear_arith)
            requires
                w > 0,
                y + rh - 1 >= 0,
        ;
    }
}

/// Paints the rectangle with corner (`x`, `y`), `rect_width` by
/// `rect_height`, of the `width`-wide image `pixels` in `color`: pixel
/// (`px`, `py`) of the rectangle is the element `py * width + px`, and
/// every other element stays as it was.
pub fn fill_rect(
    pixels: &mut Vec<u8>,
    width: usize,
    x: usize,
    y: usize,
    rect_width: usize,
    rect_height: usize,
    color: u8,
)
    requires
        y + rect_height <= usize::MAX,
        x + rect_width <= usize::MAX,
        rect_height > 0 ==> (y + rect_height - 1) * width <= usize::MAX,
        rect_width > 0 && rect_height > 0 ==> (y + rect_height - 1) * width + x + rect_width
            <= old(pixels)@.len(),
    ensures
        final(pixels)@.len() == old(pixels)@.len(),
        forall|py: int, px: int|
            y <= py < y + rect_height && x <= px < x + rect_width ==> final(pixels)@[#[trigger] pixel_offset(
                width as int,
                px,
                py,
            )] == color,
        forall|i: int|
            0 <= i < old(pixels)@.len() ==> final(pixels)@[i] == if rect_covers(
                i,
                width as int,
                x as int,
                y as int,
                rect_width as int,
                rect_height as int,
            ) {
                color
            } else {
                old(pixels)@[i]
            },
        width > 0 && x + rect_width <= width ==> forall|i: int|
            0 <= i < old(pixels)@.len() ==> final(pixels)@[i] == if in_rect(
                i,
                width as int,
                x as int,
                y as int,
                rect_width as int,
                rect_height as int,
            ) {
                color
            } else {
                old(pixels)@[i]
            },
{
    let ghost w = width as int;
    let ghost old_p = pixels@;
    let ghost len = pixels@.len();
    let ghost rw = rect_width as int;
    let n = pixels.len();
    for py in y..y + rect_height
        invariant
            n == len,
            w == width,
            rw == rect_width,
            x + rect_width <= usize::MAX,
            rect_height > 0 ==> (y + rect_height - 1) * width <= usize::MAX,
            rect_width > 0 && rect_height > 0 ==> (y + rect_height - 1) * width + x + rect_width
                <= len,
            pixels@.len() == len,
            old_p.len() == len,
            forall|i: int|
                0 <= i < len ==> pixels@[i] == if rect_covers(i, w, x as int, y as int, rw, py - y) {
                    color
                } else {
                    old_p[i]
                },
    {
        assert(py * width <= (y + rect_height - 1) * width) by (nonlinear_arith)
            requires
                py <= y + rect_height - 1,
        ;
        let row = py * width;
        for px in x..x + rect_width
            invariant
                n == len,
                w == width,
                rw == rect_width,
                y <= py < y + rect_height,
                row == py * width,
                rect_width > 0 ==> row + x + rect_width <= len,
                pixels@.len() == len,
                old_p.len() == len,
                forall|i: int|
                    0 <= i < len ==> pixels@[i] == if covered_before(
                        i,
                        w,
                        x as int,
                        y as int,
                        rw,
                        py as int,
                        px as int,
                    ) {
                        color
                    } else {
                        old_p[i]
                    },
        {
            let ghost before = pixels@;
            pixels.set(row + px, color);
            proof {
                lemma_covered_step(w, x as int, y as int, rw, py as int, px as int);
                assert forall|i: int| 0 <= i < len implies pixels@[i] == if covered_before(
                    i,
                    w,
                    x as int,
                    y as int,
                    rw,
                    py as int,
                    px + 1,
                ) {
                    color
                } else {
                    old_p[i]
                } by {
                    assert(before[i] == if covered_before(
                        i,
                        w,
                        x as int,
                        y as int,
                        rw,
                        py as int,
                        px as int,
                    ) {
                        color
                    } else {
                        old_p[i]
                    });
                    assert(covered_before(i, w, x as int, y as int, rw, py as int, px + 1) == (
                    covered_before(i, w, x as int, y as int, rw, py as int, px as int) || (x <= px
                        && i == pixel_offset(w, px as int, py as int))));
                }
            }
        }
        proof {
            lemma_covered_row(w, x as int, y as int, rw, py as int);
        }
    }
    proof {
        assert forall|py: int, px: int|
            y <= py < y + rect_height && x <= px < x + rect_width implies pixels@[
            #[trigger] pixel_offset(width as int, px, py)] == color by {
            assert(py * w + px <= (y + rect_height - 1) * w + x + rect_width - 1) by (nonlinear_arith)
                requires
                    py <= y + rect_height - 1,
                    px <= x + rect_width - 1,
                    w >= 0,
            ;
            assert(py * w + px >= 0) by (nonlinear_arith)
                requires
                    py >= 0,
                    px >= 0,
                    w >= 0,
            ;
            assert(rect_covers(pixel_offset(w, px, py), w, x as int, y as int, rw, rect_height as int));
        }
        if width > 0 && x + rect_width <= width {
            lemma_covers_in_rect(w, x as int, y as int, rw, rect_height as int);
        }
    }
}


/// Braille dot column (0 or 1) of pixel column `xo` of a cell `cw` wide:
/// the left dot covers `[0, cw/2)`, the right one `[cw/2, cw)`.
pub open spec fn dot_column(xo: int, cw: int) -> int {
    if xo < cw / 2 {
        0
    } else {
        1
    }
}

/// Braille dot row (0 to 3) of pixel row `yo` of a cell `ch` high: dot
/// row `k` covers `[k*ch/4, (k+1)*ch/4)`.
pub open spec fn dot_row(yo: int, ch: int) -> int {
    if yo < ch / 4 {
        0
    } else if yo < 2 * ch / 4 {
        1
    } else if yo < 3 * ch / 4 {
        2
    } else {
        3
    }
}

/// Whether the dot covering pixel (`xo`, `yo`) of a `cw` by `ch` cell is
/// raised in the pattern `bits`.
pub open spec fn dot_lit(bits: u8, xo: int, yo: int, cw: int, ch: int) -> bool {
    bits & dot_bit(dot_row(yo, ch), dot_column(xo, cw)) != 0
}

proof fn lemma_small_multiple(a: int, b: int)
    requires
        0 <= a <= 4,
    ensures
        a == 0 ==> a * b == 0,
        a == 1 ==> a * b == b,
        a == 2 ==> a * b == 2 * b,
        a == 3 ==> a * b == 3 * b,
        a == 4 ==> a * b == 4 * b,
{
    assert(a == 0 ==> a * b == 0) by (nonlinear_arith);
    assert(a == 1 ==> a * b == b) by (nonlinear_arith);
    assert(a == 2 ==> a * b == 2 * b) by (nonlinear_arith);
    assert(a == 3 ==> a * b == 3 * b) by (nonlinear_arith);
    assert(a == 4 ==> a * b == 4 * b) by (nonlinear_arith);
}

/// The rectangle of dot (`dy`, `dx`) of the cell at (`cx`, `cy`) is
/// exactly the part of the cell whose dot row and column are those.
proof fn lemma_dot_rect(i: int, w: int, cx: int, cy: int, cw: int, ch: int, dx: int, dy: int)
    requires
        w > 0,
        cw >= 0,
        ch >= 0,
        0 <= dx < 2,
        0 <= dy < 4,
    ensures
        in_rect(
            i,
            w,
            cx + dx * cw / 2,
            cy + dy * ch / 4,
            (cx + (dx + 1) * cw / 2) - (cx + dx * cw / 2),
            (cy + (dy + 1) * ch / 4) - (cy + dy * ch / 4),
        ) <==> (in_rect(i, w, cx, cy, cw, ch) && dot_column(i % w - cx, cw) == dx && dot_row(
            i / w - cy,
            ch,
        ) == dy),
{
    if dx == 0 {
        assert(0 * cw / 2 == 0);
        assert(1 * cw / 2 == cw / 2);
    } else {
        assert(1 * cw / 2 == cw / 2);
        assert(2 * cw / 2 == cw);
    }
    if dy == 0 {
        assert(0 * ch / 4 == 0);
        assert(1 * ch / 4 == ch / 4);
    } else if dy == 1 {
        assert(1 * ch / 4 == ch / 4);
    } else if dy == 2 {
    } else {
        assert(4 * ch / 4 == ch);
    }
    assert(cw / 2 <= cw);
    assert(ch / 4 <= 2 * ch / 4 <= 3 * ch / 4 <= ch);
}

/// Paints, in `fg`, the raised dots of pattern `bits` over the `cw` by
/// `ch` cell at (`cell_x`, `cell_y`) of the `width`-wide image.
fn paint_braille_dots(
    pixels: &mut Vec<u8>,
    width: usize,
    cell_x: usize,
    cell_y: usize,
    cw: usize,
    ch: usize,
    bits: u8,
    fg: u8,
)
    requires
        width > 0,
        cw <= 0xffff,
        ch <= 0xffff,
        cell_x + cw <= width,
        (cell_y + ch) * width <= old(pixels)@.len(),
    ensures
        final(pixels)@.len() == old(pixels)@.len(),
        forall|i: int|
            0 <= i < old(pixels)@.len() ==> final(pixels)@[i] == if in_rect(
                i,
                width as int,
                cell_x as int,
                cell_y as int,
                cw as int,
                ch as int,
            ) && dot_lit(
                bits,
                i % (width as int) - cell_x,
                i / (width as int) - cell_y,
                cw as int,
                ch as int,
            ) {
                fg
            } else {
                old(pixels)@[i]
            },
{
    let ghost w = width as int;
    let ghost old_p = pixels@;
    let ghost len = pixels@.len();
    let n = pixels.len();
    assert(cell_y + ch <= (cell_y + ch) * width) by (nonlinear_arith)
        requires
            width > 0,
    ;
    for dot_y in 0..4usize
        invariant
            w == width,
            w > 0,
            cw <= 0xffff,
            ch <= 0xffff,
            cell_x + cw <= width,
            (cell_y + ch) * width <= len,
            cell_y + ch <= len,
            n == len,
            pixels@.len() == len,
            old_p.len() == len,
            forall|i: int|
                0 <= i < len ==> pixels@[i] == if in_rect(
                    i,
                    w,
                    cell_x as int,
                    cell_y as int,
                    cw as int,
                    ch as int,
                ) && dot_lit(bits, i % w - cell_x, i / w - cell_y, cw as int, ch as int)
                    && dot_row(i / w - cell_y, ch as int) < dot_y {
                    fg
                } else {
                    old_p[i]
                },
    {
        for dot_x in 0..2usize
            invariant
                w == width,
                w > 0,
                dot_y < 4,
                cw <= 0xffff,
                ch <= 0xffff,
                cell_x + cw <= width,
                (cell_y + ch) * width <= len,
                cell_y + ch <= len,
                n == len,
                pixels@.len() == len,
                old_p.len() == len,
                forall|i: int|
                    0 <= i < len ==> pixels@[i] == if in_rect(
                        i,
                        w,
                        cell_x as int,
                        cell_y as int,
                        cw as int,
                        ch as int,
                    ) && dot_lit(bits, i % w - cell_x, i / w - cell_y, cw as int, ch as int) && (
                    dot_row(i / w - cell_y, ch as int) < dot_y || (dot_row(i / w - cell_y, ch as int)
                        == dot_y && dot_column(i % w - cell_x, cw as int) < dot_x)) {
                        fg
                    } else {
                        old_p[i]
                    },
        {
            let bit = braille_dot_bit(dot_y, dot_x);
            let ghost before = pixels@;
            if bits & bit != 0 {
                proof {
                    lemma_small_multiple(dot_x as int, cw as int);
                    lemma_small_multiple(dot_x + 1, cw as int);
                    lemma_small_multiple(dot_y as int, ch as int);
                    lemma_small_multiple(dot_y + 1, ch as int);
                }
                let x0 = cell_x + dot_x * cw / 2;
                let x1 = cell_x + (dot_x + 1) * cw / 2;
                let y0 = cell_y + dot_y * ch / 4;
                let y1 = cell_y + (dot_y + 1) * ch / 4;
                assert(y1 * width <= (cell_y + ch) * width) by (nonlinear_arith)
                    requires
                        y1 <= cell_y + ch,
                ;
                proof {
                    lemma_rect_fits(len as int, w, x0 as int, y0 as int, x1 - x0, y1 - y0);
                }
                fill_rect(pixels, width, x0, y0, x1 - x0, y1 - y0, fg);
            }
            proof {
                assert forall|i: int| 0 <= i < len implies pixels@[i] == if in_rect(
                    i,
                    w,
                    cell_x as int,
                    cell_y as int,
                    cw as int,
                    ch as int,
                ) && dot_lit(bits, i % w - cell_x, i / w - cell_y, cw as int, ch as int) && (
                dot_row(i / w - cell_y, ch as int) < dot_y || (dot_row(i / w - cell_y, ch as int)
                    == dot_y && dot_column(i % w - cell_x, cw as int) < dot_x + 1)) {
                    fg
                } else {
                    old_p[i]
                } by {
                    lemma_dot_rect(
                        i,
                        w,
                        cell_x as int,
                        cell_y as int,
                        cw as int,
                        ch as int,
                        dot_x as int,
                        dot_y as int,
                    );
                }
            }
        }
    }
}


/// Colour of pixel (`xo`, `yo`) of a `cw` by `ch` block showing `cell`:
/// the foreground where the cell is a Braille pattern whose dot there is
/// raised, the background elsewhere.
pub open spec fn cell_pixel(cell: MapCell, xo: int, yo: int, cw: int, ch: int) -> u8 {
    match braille_pattern(cell.ch) {
        Some(bits) => if dot_lit(bits, xo, yo, cw, ch) {
            cell.fg
        } else {
            cell.bg
        },
        None => cell.bg,
    }
}

/// Colour of pixel (`x`, `y`) of the raster of a frame with `cols`
/// columns of cells, each `cw` by `ch` pixels; 0 where the frame has no
/// cell for that position.
pub open spec fn frame_pixel(cells: Seq<MapCell>, cols: int, cw: int, ch: int, x: int, y: int) -> u8 {
    let idx = (y / ch) * cols + x / cw;
    if idx < cells.len() {
        cell_pixel(cells[idx], x % cw, y % ch, cw, ch)
    } else {
        0
    }
}

/// The raster of a frame of `cols` by `rows` cells of `cw` by `ch`
/// pixels: `cols * cw` pixels wide, `rows * ch` high, row by row.
pub open spec fn raster_image(cells: Seq<MapCell>, cols: int, rows: int, cw: int, ch: int) -> Seq<
    u8,
> {
    let w = cols * cw;
    let h = rows * ch;
    Seq::new((w * h) as nat, |i: int| frame_pixel(cells, cols, cw, ch, i % w, i / w))
}

/// `a / d == q` exactly when `a` lies in `[q*d, q*d + d)`; then
/// `a % d == a - q*d`.
proof fn lemma_div_range(a: int, d: int, q: int)
    requires
        d > 0,
        a >= 0,
    ensures
        (q * d <= a < q * d + d) <==> a / d == q,
        a / d == q ==> a % d == a - q * d,
{
    lemma_index_decompose(a, d);
    if q * d <= a < q * d + d {
        lemma_fundamental_div_mod_converse_div(a, d, q, a - q * d);
        lemma_fundamental_div_mod_converse_mod(a, d, q, a - q * d);
    }
    if a / d == q {
        assert(a == q * d + a % d);
    }
}

/// Pixel `i` lies in the block of cell (`row`, `col`) exactly when its
/// row and column of cells are those.
proof fn lemma_cell_block(i: int, w: int, cw: int, ch: int, col: int, row: int)
    requires
        w > 0,
        cw > 0,
        ch > 0,
        i >= 0,
    ensures
        in_rect(i, w, col * cw, row * ch, cw, ch) <==> ((i / w) / ch == row && (i % w) / cw == col),
        (i / w) / ch == row && (i % w) / cw == col ==> (i % w) % cw == i % w - col * cw && (i / w)
            % ch == i / w - row * ch,
{
    lemma_index_decompose(i, w);
    lemma_div_range(i / w, ch, row);
    lemma_div_range(i % w, cw, col);
}

/// Pixel `i` of a `cols*cw` by `rows*ch` image is in a cell row below
/// `rows` and a cell column below `cols`.
proof fn lemma_cell_bounds(i: int, cols: int, rows: int, cw: int, ch: int)
    requires
        cols > 0,
        rows > 0,
        cw > 0,
        ch > 0,
        0 <= i < (cols * cw) * (rows * ch),
    ensures
        (i / (cols * cw)) / ch < rows,
        (i % (cols * cw)) / cw < cols,
        (i / (cols * cw)) / ch >= 0,
        (i % (cols * cw)) / cw >= 0,
{
    assert(cols * cw > 0) by (nonlinear_arith)
        requires
            cols > 0,
            cw > 0,
    ;
    let w = cols * cw;
    lemma_index_decompose(i, w);
    let y = i / w;
    let x = i % w;
    assert(y < rows * ch) by (nonlinear_arith)
        requires
            i == y * w + x,
            0 <= x,
            i < w * (rows * ch),
            w > 0,
    ;
    lemma_index_decompose(y, ch);
    lemma_index_decompose(x, cw);
    assert(y / ch < rows) by (nonlinear_arith)
        requires
            y == (y / ch) * ch + y % ch,
            0 <= y % ch,
            y < rows * ch,
            ch > 0,
    ;
    assert(x / cw < cols) by (nonlinear_arith)
        requires
            x == (x / cw) * cw + x % cw,
            0 <= x % cw,
            x < cols * cw,
            cw > 0,
    ;
}

/// Pixel `i` belongs to a cell already painted when rows before `row`,
/// and the cells of `row` before `col`, are done.
pub open spec fn cell_done(i: int, w: int, cw: int, ch: int, row: int, col: int) -> bool {
    let r = (i / w) / ch;
    let c = (i % w) / cw;
    r < row || (r == row && c < col)
}

/// Rasterises `frame` with cells of `cw` by `ch` pixels.
pub(crate) fn rasterize(frame: &MapFrame, cw: usize, ch: usize) -> (pixels: Vec<u8>)
    requires
        frame.cols >= 1,
        frame.rows >= 1,
        1 <= cw <= 0xffff,
        1 <= ch <= 0xffff,
        (frame.cols * cw) * (frame.rows * ch) <= usize::MAX,
    ensures
        pixels@ == raster_image(
            frame.cells@,
            frame.cols as int,
            frame.rows as int,
            cw as int,
            ch as int,
        ),
{
    let cols = frame.cols as usize;
    let rows = frame.rows as usize;
    proof {
        assert(cols * cw <= (cols * cw) * (rows * ch) && rows * ch <= (cols * cw) * (rows * ch)
            && rows * cols <= (cols * cw) * (rows * ch)) by (nonlinear_arith)
            requires
                cols >= 1,
                rows >= 1,
                cw >= 1,
                ch >= 1,
        ;
    }
    let width = cols * cw;
    let height = rows * ch;
    let total = width * height;
    let ghost w = width as int;
    let ghost cells = frame.cells@;
    let mut pixels: Vec<u8> = Vec::new();
    for k in 0..total
        invariant
            pixels@.len() == k,
            forall|i: int| 0 <= i < k ==> pixels@[i] == 0,
    {
        pixels.push(0);
    }
    assert(cols * cw >= 1) by (nonlinear_arith)
        requires
            cols >= 1,
            cw >= 1,
    ;
    for row in 0..rows
        invariant
            w == width,
            w > 0,
            cols == frame.cols,
            rows == frame.rows,
            cells == frame.cells@,
            width == cols * cw,
            height == rows * ch,
            total == width * height,
            rows * cols <= total,
            height <= total,
            1 <= cw <= 0xffff,
            1 <= ch <= 0xffff,
            pixels@.len() == total,
            forall|i: int|
                0 <= i < total ==> pixels@[i] == if (i / w) / (ch as int) < row {
                    frame_pixel(cells, cols as int, cw as int, ch as int, i % w, i / w)
                } else {
                    0
                },
    {
        for col in 0..cols
            invariant
                w == width,
                w > 0,
                cols == frame.cols,
                rows == frame.rows,
                cells == frame.cells@,
                width == cols * cw,
                height == rows * ch,
                total == width * height,
                rows * cols <= total,
                height <= total,
                row < rows,
                1 <= cw <= 0xffff,
                1 <= ch <= 0xffff,
                pixels@.len() == total,
                forall|i: int|
                    0 <= i < total ==> pixels@[i] == if cell_done(
                        i,
                        w,
                        cw as int,
                        ch as int,
                        row as int,
                        col as int,
                    ) {
                        frame_pixel(cells, cols as int, cw as int, ch as int, i % w, i / w)
                    } else {
                        0
                    },
        {
            assert(row * cols + col < rows * cols && col * cw + cw <= width && (row * ch + ch)
                * width <= total && row * ch + ch <= height) by (nonlinear_arith)
                requires
                    row < rows,
                    col < cols,
                    width == cols * cw,
                    height == rows * ch,
                    total == width * height,
            ;
            let idx = row * cols + col;
            let ghost before = pixels@;
            if idx < frame.cells.len() {
                let cell = frame.cells[idx];
                let cell_x = col * cw;
                let cell_y = row * ch;
                proof {
                    lemma_rect_fits(total as int, w, cell_x as int, cell_y as int, cw as int, ch as int);
                }
                fill_rect(&mut pixels, width, cell_x, cell_y, cw, ch, cell.bg);
                match braille_bits(cell.ch) {
                    Some(bits) => {
                        paint_braille_dots(
                            &mut pixels,
                            width,
                            cell_x,
                            cell_y,
                            cw,
                            ch,
                            bits,
                            cell.fg,
                        );
                    },
                    None => {},
                }
            }
            proof {
                assert forall|i: int| 0 <= i < total implies pixels@[i] == if cell_done(
                    i,
                    w,
                    cw as int,
                    ch as int,
                    row as int,
                    col + 1,
                ) {
                    frame_pixel(cells, cols as int, cw as int, ch as int, i % w, i / w)
                } else {
                    0
                } by {
                    lemma_cell_block(i, w, cw as int, ch as int, col as int, row as int);
                    lemma_index_decompose(i, w);
                }
            }
        }
        proof {
            assert forall|i: int| 0 <= i < total implies pixels@[i] == if (i / w) / (ch as int)
                < row + 1 {
                frame_pixel(cells, cols as int, cw as int, ch as int, i % w, i / w)
            } else {
                0
            } by {
                lemma_cell_bounds(i, cols as int, rows as int, cw as int, ch as int);
            }
        }
    }
    proof {
        assert forall|i: int| 0 <= i < total implies pixels@[i] == frame_pixel(
            cells,
            cols as int,
            cw as int,
            ch as int,
            i % w,
            i / w,
        ) by {
            lemma_cell_bounds(i, cols as int, rows as int, cw as int, ch as int);
        }
        assert(pixels@ =~= raster_image(cells, cols as int, rows as int, cw as int, ch as int));
    }
    pixels
}


/// A Braille cell is drawn as 2 by 4 dots: when the cell is at least 2
/// pixels wide and 4 high, each of its eight dots covers some pixel, and
/// every pixel of the cell belongs to one dot.
pub proof fn lemma_cell_has_eight_dots(cw: int, ch: int, dy: int, dx: int, xo: int, yo: int)
    requires
        cw >= 2,
        ch >= 4,
        0 <= dy < 4,
        0 <= dx < 2,
    ensures
        0 <= dx * cw / 2 < cw && dot_column(dx * cw / 2, cw) == dx,
        0 <= dy * ch / 4 < ch && dot_row(dy * ch / 4, ch) == dy,
        0 <= dot_column(xo, cw) < 2,
        0 <= dot_row(yo, ch) < 4,
{
    lemma_small_multiple(dx, cw);
    lemma_small_multiple(dy, ch);
}

/// Each pixel of a cell's block shows the cell's foreground or its
/// background; a blank Braille cell (no dots) shows only its background
/// and a full one (all eight dots) only its foreground.
pub proof fn lemma_cell_pixel_colors(cell: MapCell, xo: int, yo: int, cw: int, ch: int)
    ensures
        cell_pixel(cell, xo, yo, cw, ch) == cell.fg || cell_pixel(cell, xo, yo, cw, ch) == cell.bg,
        cell.ch == '\u{2800}' ==> cell_pixel(cell, xo, yo, cw, ch) == cell.bg,
        cell.ch == '\u{28ff}' ==> cell_pixel(cell, xo, yo, cw, ch) == cell.fg,
{
    let b = dot_bit(dot_row(yo, ch), dot_column(xo, cw));
    assert(b == 0x01 || b == 0x02 || b == 0x04 || b == 0x08 || b == 0x10 || b == 0x20 || b == 0x40
        || b == 0x80);
    assert((0u8 & b) == 0 && (0xffu8 & b) != 0) by (bit_vector)
        requires
            b == 0x01 || b == 0x02 || b == 0x04 || b == 0x08 || b == 0x10 || b == 0x20 || b == 0x40
                || b == 0x80,
    ;
}

} // verus!
