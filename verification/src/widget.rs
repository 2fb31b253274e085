//! Drawing a frame into a screen buffer as text cells.

use vstd::prelude::*;
use crate::buffer::{CellBuffer, Rect, UiColor};
use crate::frame::{MapCell, MapFrame};

verus! {

/// The UI colour for an xterm colour index: index 0 is drawn in the
/// terminal's default colour, every other index as itself.
pub open spec fn xterm_color(idx: u8) -> UiColor {
    if idx == 0 {
        UiColor::Reset
    } else {
        UiColor::Indexed(idx)
    }
}

/// The UI colour for an xterm colour index.
pub fn xterm_to_color(idx: u8) -> (c: UiColor)
    ensures
        c == xterm_color(idx),
{
    if idx == 0 {
        UiColor::Reset
    } else {
        UiColor::Indexed(idx)
    }
}

/// Draws a map frame into the cells of an area of a buffer, clipped to
/// the area; when disabled it draws nothing.
pub struct MapFrameWidget<'a> {
    pub frame: &'a MapFrame,
    pub enabled: bool,
}

/// Number of frame columns drawn into an area `area_width` wide.
pub open spec fn drawn_extent(frame_extent: u16, area_extent: u16) -> int {
    if frame_extent < area_extent {
        frame_extent as int
    } else {
        area_extent as int
    }
}

/// Column and row of storage slot `i` of the buffer.
pub open spec fn slot_position(buf: &CellBuffer, i: int) -> (int, int) {
    (buf.area.x + i % (buf.area.width as int), buf.area.y + i / (buf.area.width as int))
}

/// Whether cell (`x`, `y`) of the screen receives a frame cell.
pub open spec fn is_drawn(frame: &MapFrame, area: Rect, x: int, y: int) -> bool {
    area.x <= x < area.x + drawn_extent(frame.cols, area.width) && area.y <= y < area.y
        + drawn_extent(frame.rows, area.height)
}

/// The frame cell drawn at screen cell (`x`, `y`).
pub open spec fn frame_cell_at(frame: &MapFrame, area: Rect, x: int, y: int) -> MapCell {
    frame.cells@[(y - area.y) * frame.cols + (x - area.x)]
}

/// The drawn block lies in the buffer, the frame has a cell for every
/// drawn position, and no coordinate or index overflows 16 bits.
pub open spec fn widget_fits(frame: &MapFrame, area: Rect, buf: &CellBuffer) -> bool {
    let dc = drawn_extent(frame.cols, area.width);
    let dr = drawn_extent(frame.rows, area.height);
    dc > 0 && dr > 0 ==> {
        &&& (dr - 1) * frame.cols + dc - 1 < frame.cells@.len()
        &&& (dr - 1) * frame.cols + dc - 1 <= u16::MAX
        &&& area.x + area.width <= u16::MAX
        &&& area.y + area.height <= u16::MAX
        &&& buf.area.contains_cell(area.x as int, area.y as int)
        &&& buf.area.contains_cell(area.x + dc - 1, area.y + dr - 1)
    }
}

impl<'a> MapFrameWidget<'a> {
    /// Draws the frame into `area` of `buf`: frame cell (`col`, `row`)
    /// goes to screen cell (`area.x + col`, `area.y + row`) with its
    /// character and colours, for the columns and rows that fit in both
    /// the frame and the area. Every other cell is kept.
    pub fn render(self, area: Rect, buf: &mut CellBuffer)
        requires
            old(buf).wf(),
            self.enabled ==> widget_fits(self.frame, area, old(buf)),
        ensures
            final(buf).wf(),
            final(buf).area == old(buf).area,
            forall|i: int|
                #![trigger final(buf).content@[i]]
                0 <= i < old(buf).content@.len() ==> {
                    let (x, y) = slot_position(old(buf), i);
                    if self.enabled && is_drawn(self.frame, area, x, y) {
                        let c = frame_cell_at(self.frame, area, x, y);
                        &&& final(buf).content@[i].symbol@ == seq![c.ch]
                        &&& final(buf).content@[i].fg == xterm_color(c.fg)
                        &&& final(buf).content@[i].bg == xterm_color(c.bg)
                    } else {
                        final(buf).content@[i] == old(buf).content@[i]
                    }
                },
    {
        if !self.enabled {
            return;
        }
        let frame = self.frame;
        let draw_cols = if frame.cols < area.width {
            frame.cols
        } else {
            area.width
        };
        let draw_rows = if frame.rows < area.height {
            frame.rows
        } else {
            area.height
        };
        let ghost old_buf = *buf;
        let ghost len = buf.content@.len();
        let ghost bw = buf.area.width as int;
        for row in 0..draw_rows
            invariant
                self.enabled,
                frame == self.frame,
                draw_cols == drawn_extent(frame.cols, area.width),
                draw_rows == drawn_extent(frame.rows, area.height),
                widget_fits(frame, area, &old_buf),
                old_buf.wf(),
                buf.wf(),
                buf.area == old_buf.area,
                len == old_buf.content@.len(),
                bw == buf.area.width,
                forall|i: int|
                    #![trigger buf.content@[i]]
                    0 <= i < len ==> {
                        let (x, y) = slot_position(&old_buf, i);
                        if is_drawn(frame, area, x, y) && y - area.y < row {
                            let c = frame_cell_at(frame, area, x, y);
                            &&& buf.content@[i].symbol@ == seq![c.ch]
                            &&& buf.content@[i].fg == xterm_color(c.fg)
                            &&& buf.content@[i].bg == xterm_color(c.bg)
                        } else {
                            buf.content@[i] == old_buf.content@[i]
                        }
                    },
        {
            for col in 0..draw_cols
                invariant
                    self.enabled,
                    frame == self.frame,
                    row < draw_rows,
                    draw_cols == drawn_extent(frame.cols, area.width),
                    draw_rows == drawn_extent(frame.rows, area.height),
                    widget_fits(frame, area, &old_buf),
                    old_buf.wf(),
                    buf.wf(),
                    buf.area == old_buf.area,
                    len == old_buf.content@.len(),
                    bw == buf.area.width,
                    forall|i: int|
                        #![trigger buf.content@[i]]
                        0 <= i < len ==> {
                            let (x, y) = slot_position(&old_buf, i);
                            if is_drawn(frame, area, x, y) && (y - area.y < row || (y - area.y
                                == row && x - area.x < col)) {
                                let c = frame_cell_at(frame, area, x, y);
                                &&& buf.content@[i].symbol@ == seq![c.ch]
                                &&& buf.content@[i].fg == xterm_color(c.fg)
                                &&& buf.content@[i].bg == xterm_color(c.bg)
                            } else {
                                buf.content@[i] == old_buf.content@[i]
                            }
                        },
            {
                assert(row * frame.cols + col <= (draw_rows - 1) * frame.cols + draw_cols - 1)
                    by (nonlinear_arith)
                    requires
                        row < draw_rows,
                        col < draw_cols,
                ;
                let cell = frame.cells[(row * frame.cols + col) as usize];
                let x = area.x + col;
                let y = area.y + row;
                if x < area.x + area.width && y < area.y + area.height {
                    let ghost before = buf.content@;
                    let ghost s = buf.slot(x as int, y as int);
                    buf.set_cell(x, y, cell.ch, xterm_to_color(cell.fg), xterm_to_color(cell.bg));
                    proof {
                        assert forall|i: int|
                            #![trigger buf.content@[i]]
                            0 <= i < len implies {
                            let (px, py) = slot_position(&old_buf, i);
                            if is_drawn(frame, area, px, py) && (py - area.y < row || (py - area.y
                                == row && px - area.x < col + 1)) {
                                let c = frame_cell_at(frame, area, px, py);
                                &&& buf.content@[i].symbol@ == seq![c.ch]
                                &&& buf.content@[i].fg == xterm_color(c.fg)
                                &&& buf.content@[i].bg == xterm_color(c.bg)
                            } else {
                                buf.content@[i] == old_buf.content@[i]
                            }
                        } by {
                            crate::raster::lemma_pixel_index(
                                bw,
                                x - buf.area.x,
                                y - buf.area.y,
                            );
                            lemma_slot_decompose(i, bw);
                        }
                    }
                }
            }
        }
    }
}

proof fn lemma_slot_decompose(i: int, w: int)
    requires
        w > 0,
        i >= 0,
    ensures
        i == (i / w) * w + i % w,
        0 <= i % w < w,
{
    vstd::arithmetic::div_mod::lemma_fundamental_div_mod(i, w);
    assert(w * (i / w) == (i / w) * w) by (nonlinear_arith);
    vstd::arithmetic::div_mod::lemma_mod_bound(i, w);
}

} // verus!
