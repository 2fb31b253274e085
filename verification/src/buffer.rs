//! A screen buffer of styled cells, as the UI toolkit draws it, and the
//! colours it uses.

use vstd::prelude::*;
use crate::text::string_of_char;

verus! {

/// A rectangle of terminal cells with its corner at (`x`, `y`).
#[derive(Clone, Copy, Debug, PartialEq, Eq, Structural)]
pub struct Rect {
    pub x: u16,
    pub y: u16,
    pub width: u16,
    pub height: u16,
}

impl Rect {
    /// One past the last column, saturating at `u16::MAX`.
    pub open spec fn right(self) -> int {
        if self.x + self.width > u16::MAX {
            u16::MAX as int
        } else {
            self.x + self.width
        }
    }

    /// One past the last row, saturating at `u16::MAX`.
    pub open spec fn bottom(self) -> int {
        if self.y + self.height > u16::MAX {
            u16::MAX as int
        } else {
            self.y + self.height
        }
    }

    /// Whether cell (`px`, `py`) lies in the rectangle.
    pub open spec fn contains_cell(self, px: int, py: int) -> bool {
        self.x <= px < self.right() && self.y <= py < self.bottom()
    }
}

/// A colour as the UI toolkit names it.
#[derive(Clone, Copy, Debug, PartialEq, Eq, Structural)]
pub enum UiColor {
    Reset,
    Black,
    Red,
    Green,
    Yellow,
    Blue,
    Magenta,
    Cyan,
    Gray,
    DarkGray,
    LightRed,
    LightGreen,
    LightYellow,
    LightBlue,
    LightMagenta,
    LightCyan,
    White,
    Rgb(u8, u8, u8),
    Indexed(u8),
}

/// One cell of a screen buffer: the symbol drawn and its colours.
#[derive(Clone, Debug, PartialEq, Eq)]
pub struct BufferCell {
    pub symbol: String,
    pub fg: UiColor,
    pub bg: UiColor,
}

/// A screen buffer covering `area`, its cells stored row by row.
#[derive(Clone, Debug)]
pub struct CellBuffer {
    pub area: Rect,
    pub content: Vec<BufferCell>,
}

impl CellBuffer {
    /// One cell per position of the area.
    pub open spec fn wf(&self) -> bool {
        self.content@.len() == self.area.width * self.area.height
    }

    /// Storage slot of cell (`x`, `y`).
    pub open spec fn slot(&self, x: int, y: int) -> int {
        (y - self.area.y) * self.area.width + (x - self.area.x)
    }

    /// The cell at (`x`, `y`).
    pub open spec fn cell_at(&self, x: int, y: int) -> BufferCell {
        self.content@[self.slot(x, y)]
    }

    /// A buffer over `area` with every cell blank: a space on the
    /// default colours.
    pub fn empty(area: Rect) -> (buf: Self)
        ensures
            buf.wf(),
            buf.area == area,
            forall|i: int|
                0 <= i < buf.content@.len() ==> (#[trigger] buf.content@[i]).symbol@ == seq![' ']
                    && buf.content@[i].fg == UiColor::Reset && buf.content@[i].bg
                    == UiColor::Reset,
    {
        proof {
            lemma_area_fits(area);
        }
        let size = area.width as usize * area.height as usize;
        let mut content: Vec<BufferCell> = Vec::new();
        for k in 0..size
            invariant
                content@.len() == k,
                forall|i: int|
                    0 <= i < k ==> (#[trigger] content@[i]).symbol@ == seq![' '] && content@[i].fg
                        == UiColor::Reset && content@[i].bg == UiColor::Reset,
        {
            content.push(BufferCell { symbol: string_of_char(' '), fg: UiColor::Reset, bg: UiColor::Reset });
        }
        CellBuffer { area, content }
    }

    /// Storage slot of the cell at (`x`, `y`), which must lie in the area.
    pub fn index_of(&self, x: u16, y: u16) -> (slot: usize)
        requires
            self.wf(),
            self.area.contains_cell(x as int, y as int),
        ensures
            slot == self.slot(x as int, y as int),
            slot < self.content@.len(),
    {
        proof {
            lemma_slot_in_area(self.area, x as int, y as int);
            lemma_area_fits(self.area);
        }
        (y - self.area.y) as usize * self.area.width as usize + (x - self.area.x) as usize
    }

    /// The cell at (`x`, `y`), which must lie in the area.
    pub fn cell(&self, x: u16, y: u16) -> (c: &BufferCell)
        requires
            self.wf(),
            self.area.contains_cell(x as int, y as int),
        ensures
            *c == self.cell_at(x as int, y as int),
    {
        let i = self.index_of(x, y);
        &self.content[i]
    }

    /// Puts `ch` as the symbol of the cell at (`x`, `y`), which must lie
    /// in the area, keeping its colours; the other cells are kept.
    pub fn set_char(&mut self, x: u16, y: u16, ch: char)
        requires
            old(self).wf(),
            old(self).area.contains_cell(x as int, y as int),
        ensures
            final(self).wf(),
            final(self).area == old(self).area,
            final(self).content@.len() == old(self).content@.len(),
            forall|i: int|
                0 <= i < old(self).content@.len() && i != old(self).slot(x as int, y as int)
                    ==> final(self).content@[i] == old(self).content@[i],
            final(self).cell_at(x as int, y as int).symbol@ == seq![ch],
            final(self).cell_at(x as int, y as int).fg == old(self).cell_at(x as int, y as int).fg,
            final(self).cell_at(x as int, y as int).bg == old(self).cell_at(x as int, y as int).bg,
    {
        let i = self.index_of(x, y);
        let fg = self.content[i].fg;
        let bg = self.content[i].bg;
        let cell = BufferCell { symbol: string_of_char(ch), fg, bg };
        self.content.set(i, cell);
    }

    /// Draws `ch` in colours `fg` on `bg` at (`x`, `y`), which must lie
    /// in the area; the other cells are kept.
    pub fn set_cell(&mut self, x: u16, y: u16, ch: char, fg: UiColor, bg: UiColor)
        requires
            old(self).wf(),
            old(self).area.contains_cell(x as int, y as int),
        ensures
            final(self).wf(),
            final(self).area == old(self).area,
            final(self).content@.len() == old(self).content@.len(),
            forall|i: int|
                0 <= i < old(self).content@.len() && i != old(self).slot(x as int, y as int)
                    ==> final(self).content@[i] == old(self).content@[i],
            final(self).cell_at(x as int, y as int).symbol@ == seq![ch],
            final(self).cell_at(x as int, y as int).fg == fg,
            final(self).cell_at(x as int, y as int).bg == bg,
    {
        let i = self.index_of(x, y);
        let cell = BufferCell { symbol: string_of_char(ch), fg, bg };
        self.content.set(i, cell);
    }
}

/// The cell count of an area fits in 32 bits.
proof fn lemma_area_fits(area: Rect)
    ensures
        area.width * area.height <= 0xfffe_0001,
{
    assert(area.width * area.height <= 0xffff * 0xffff) by (nonlinear_arith)
        requires
            area.width <= 0xffff,
            area.height <= 0xffff,
    ;
}

/// The storage slot of a cell of the area lies in the storage.
proof fn lemma_slot_in_area(area: Rect, x: int, y: int)
    requires
        area.contains_cell(x, y),
    ensures
        0 <= (y - area.y) * area.width + (x - area.x) < area.width * area.height,
        (y - area.y) * area.width <= (y - area.y) * area.width + (x - area.x),
{
    assert(0 <= (y - area.y) * area.width + (x - area.x) < area.width * area.height)
        by (nonlinear_arith)
        requires
            0 <= y - area.y < area.height,
            0 <= x - area.x < area.width,
    ;
}

} // verus!
