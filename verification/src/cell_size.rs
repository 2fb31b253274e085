//! Size of one terminal cell in device pixels.

use vstd::prelude::*;

verus! {

/// Width of a cell in pixels when the terminal does not report one.
pub const DEFAULT_CELL_PIXEL_WIDTH: u16 = 8;

/// Height of a cell in pixels when the terminal does not report one.
pub const DEFAULT_CELL_PIXEL_HEIGHT: u16 = 16;

/// Pixel size of one terminal cell.
#[derive(Clone, Copy, Debug, PartialEq, Eq, Structural)]
pub struct CellPixelSize {
    pub width: u16,
    pub height: u16,
}

/// What the terminal reports of its size: cells and pixels.
#[derive(Clone, Copy, Debug, PartialEq, Eq, Structural)]
pub struct WindowSize {
    pub rows: u16,
    pub columns: u16,
    pub width: u16,
    pub height: u16,
}

/// `v`, raised to at least one.
pub open spec fn at_least_one(v: u16) -> u16 {
    if v == 0 {
        1
    } else {
        v
    }
}

/// The cell size used when the terminal reports none.
pub open spec fn default_cell_size() -> CellPixelSize {
    CellPixelSize { width: DEFAULT_CELL_PIXEL_WIDTH, height: DEFAULT_CELL_PIXEL_HEIGHT }
}

/// The cell size derived from a window report: the pixel size divided
/// by the cell count, at least one pixel each way; the default where
/// the report is missing or has a zero field.
pub open spec fn cell_size_of_window(window: Option<WindowSize>) -> CellPixelSize {
    match window {
        Some(w) => if w.columns == 0 || w.rows == 0 || w.width == 0 || w.height == 0 {
            default_cell_size()
        } else {
            CellPixelSize {
                width: at_least_one((w.width / w.columns) as u16),
                height: at_least_one((w.height / w.rows) as u16),
            }
        },
        None => default_cell_size(),
    }
}

impl CellPixelSize {
    pub fn new(width: u16, height: u16) -> (s: Self)
        ensures
            s.width == width,
            s.height == height,
    {
        Self { width, height }
    }

    /// The size with a zero dimension raised to one pixel.
    pub open spec fn spec_normalized(self) -> CellPixelSize {
        CellPixelSize { width: at_least_one(self.width), height: at_least_one(self.height) }
    }

    /// The size with a zero dimension raised to one pixel.
    pub fn normalized(self) -> (s: Self)
        ensures
            s == self.spec_normalized(),
    {
        Self {
            width: if self.width == 0 {
                1
            } else {
                self.width
            },
            height: if self.height == 0 {
                1
            } else {
                self.height
            },
        }
    }
}

impl Default for CellPixelSize {
    fn default() -> (s: Self)
        ensures
            s == default_cell_size(),
    {
        Self::new(DEFAULT_CELL_PIXEL_WIDTH, DEFAULT_CELL_PIXEL_HEIGHT)
    }
}

/// The cell size to rasterise with, given what the terminal reported of
/// its window (`None` where it reported nothing).
pub fn cell_pixel_size_from_window(window: Option<WindowSize>) -> (s: CellPixelSize)
    ensures
        s == cell_size_of_window(window),
        s.width >= 1,
        s.height >= 1,
{
    let fallback = CellPixelSize::default();
    let size = match window {
        Some(size) => size,
        None => return fallback,
    };
    if size.columns == 0 || size.rows == 0 || size.width == 0 || size.height == 0 {
        return fallback;
    }
    CellPixelSize::new(size.width / size.columns, size.height / size.rows).normalized()
}


/// Normalising raises a zero dimension to one pixel, keeps any other,
/// and changes nothing the second time.
pub proof fn lemma_normalized(size: CellPixelSize)
    ensures
        size.spec_normalized().width >= 1,
        size.spec_normalized().height >= 1,
        size.width >= 1 ==> size.spec_normalized().width == size.width,
        size.height >= 1 ==> size.spec_normalized().height == size.height,
        size.spec_normalized().spec_normalized() == size.spec_normalized(),
{
}

} // verus!
