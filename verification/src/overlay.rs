//! Text that stays legible over a sixel image: the cells of a frame, or
//! of a drawn screen buffer, that carry a visible non-Braille symbol.

use vstd::prelude::*;
use crate::buffer::{CellBuffer, Rect, UiColor};
use crate::frame::{braille_bits, braille_pattern, MapCell, MapFrame};
use crate::text::{str_equals, string_of_char};

verus! {

/// A terminal colour as the terminal backend names it.
#[derive(Clone, Copy, Debug, PartialEq, Eq, Structural)]
pub enum TermColor {
    Reset,
    Black,
    DarkGrey,
    Red,
    DarkRed,
    Green,
    DarkGreen,
    Yellow,
    DarkYellow,
    Blue,
    DarkBlue,
    Magenta,
    DarkMagenta,
    Cyan,
    DarkCyan,
    White,
    Grey,
    Rgb { r: u8, g: u8, b: u8 },
    AnsiValue(u8),
}

/// A symbol to print at cell (`x`, `y`) of an area, with its colours.
#[derive(Clone, Debug, PartialEq, Eq)]
pub struct OverlayCell {
    pub x: u16,
    pub y: u16,
    pub symbol: String,
    pub fg: TermColor,
    pub bg: TermColor,
}

/// Unicode `White_Space` characters.
pub open spec fn is_white_space(c: char) -> bool {
    let u = c as u32;
    ||| 0x09 <= u && u <= 0x0d
    ||| u == 0x20
    ||| u == 0x85
    ||| u == 0xa0
    ||| u == 0x1680
    ||| 0x2000 <= u && u <= 0x200a
    ||| u == 0x2028
    ||| u == 0x2029
    ||| u == 0x202f
    ||| u == 0x205f
    ||| u == 0x3000
}

/// Whether `c` has the Unicode `White_Space` property (what
/// `char::is_whitespace` answers).
fn char_is_whitespace(c: char) -> (r: bool)
    ensures
        r == is_white_space(c),
{
    let u = c as u32;
    (0x09 <= u && u <= 0x0d) || u == 0x20 || u == 0x85 || u == 0xa0 || u == 0x1680 || (0x2000 <= u
        && u <= 0x200a) || u == 0x2028 || u == 0x2029 || u == 0x202f || u == 0x205f || u == 0x3000
}

/// A cell that shows text rather than map dots: neither white space nor
/// a Braille pattern.
pub open spec fn is_text_cell(cell: MapCell) -> bool {
    !is_white_space(cell.ch) && braille_pattern(cell.ch) is None
}

/// Indices below `n` of the text cells of `cells`, ascending.
pub open spec fn text_cell_indices(cells: Seq<MapCell>, n: nat) -> Seq<int>
    decreases n,
{
    if n == 0 {
        Seq::empty()
    } else {
        text_cell_indices(cells, (n - 1) as nat) + if is_text_cell(cells[n - 1]) {
            seq![n - 1]
        } else {
            Seq::empty()
        }
    }
}

/// The overlay entry for the text cell at index `idx` of a frame with
/// `cols` columns: its column and row, its character and its colours.
pub open spec fn text_overlay_matches(o: OverlayCell, cells: Seq<MapCell>, cols: int, idx: int) -> bool {
    &&& o.x == (idx % cols) as u16
    &&& o.y == (idx / cols) as u16
    &&& o.symbol@ == seq![cells[idx].ch]
    &&& o.fg == TermColor::AnsiValue(cells[idx].fg)
    &&& o.bg == TermColor::AnsiValue(cells[idx].bg)
}

/// The text cells of `frame`, in order, as overlay entries at their
/// column and row with their xterm colours.
pub fn frame_text_overlays(frame: &MapFrame) -> (overlays: Vec<OverlayCell>)
    requires
        frame.cols > 0 || text_cell_indices(frame.cells@, frame.cells@.len()).len() == 0,
    ensures
        overlays@.len() == text_cell_indices(frame.cells@, frame.cells@.len()).len(),
        forall|j: int|
            0 <= j < overlays@.len() ==> text_overlay_matches(
                #[trigger] overlays@[j],
                frame.cells@,
                frame.cols as int,
                text_cell_indices(frame.cells@, frame.cells@.len())[j],
            ),
{
    let cols = frame.cols as usize;
    let n = frame.cells.len();
    let ghost cells = frame.cells@;
    let mut overlays: Vec<OverlayCell> = Vec::new();
    for idx in 0..n
        invariant
            n == cells.len(),
            cells == frame.cells@,
            cols == frame.cols,
            frame.cols > 0 || text_cell_indices(cells, cells.len()).len() == 0,
            overlays@.len() == text_cell_indices(cells, idx as nat).len(),
            forall|j: int|
                0 <= j < overlays@.len() ==> text_overlay_matches(
                    #[trigger] overlays@[j],
                    cells,
                    cols as int,
                    text_cell_indices(cells, idx as nat)[j],
                ),
    {
        let cell = frame.cells[idx];
        let ghost prev = text_cell_indices(cells, idx as nat);
        assert(text_cell_indices(cells, (idx + 1) as nat) == prev + if is_text_cell(cells[idx as int]) {
            seq![idx as int]
        } else {
            Seq::<int>::empty()
        });
        let keep = !char_is_whitespace(cell.ch) && braille_bits(cell.ch).is_none();
        if keep {
            proof {
                if cols == 0 {
                    lemma_prefix_text_indices(cells, (idx + 1) as nat, cells.len());
                    assert(false);
                }
            }
            overlays.push(
                OverlayCell {
                    x: (idx % cols) as u16,
                    y: (idx / cols) as u16,
                    symbol: string_of_char(cell.ch),
                    fg: TermColor::AnsiValue(cell.fg),
                    bg: TermColor::AnsiValue(cell.bg),
                },
            );
        }
    }
    overlays
}

/// The text cells below `m` are a prefix of those below `n` (`m <= n`).
proof fn lemma_prefix_text_indices(cells: Seq<MapCell>, m: nat, n: nat)
    requires
        m <= n,
    ensures
        text_cell_indices(cells, m).len() <= text_cell_indices(cells, n).len(),
        forall|j: int|
            0 <= j < text_cell_indices(cells, m).len() ==> text_cell_indices(cells, m)[j]
                == text_cell_indices(cells, n)[j],
    decreases n - m,
{
    if m < n {
        lemma_prefix_text_indices(cells, m, (n - 1) as nat);
    }
}


/// The terminal colour that a UI colour stands for: the toolkit's plain
/// colour names are the terminal's dark variants, its light names the
/// terminal's bright ones.
pub open spec fn term_color_of(color: UiColor) -> TermColor {
    match color {
        UiColor::Reset => TermColor::Reset,
        UiColor::Black => TermColor::Black,
        UiColor::Red => TermColor::DarkRed,
        UiColor::Green => TermColor::DarkGreen,
        UiColor::Yellow => TermColor::DarkYellow,
        UiColor::Blue => TermColor::DarkBlue,
        UiColor::Magenta => TermColor::DarkMagenta,
        UiColor::Cyan => TermColor::DarkCyan,
        UiColor::Gray => TermColor::Grey,
        UiColor::DarkGray => TermColor::DarkGrey,
        UiColor::LightRed => TermColor::Red,
        UiColor::LightGreen => TermColor::Green,
        UiColor::LightYellow => TermColor::Yellow,
        UiColor::LightBlue => TermColor::Blue,
        UiColor::LightMagenta => TermColor::Magenta,
        UiColor::LightCyan => TermColor::Cyan,
        UiColor::White => TermColor::White,
        UiColor::Rgb(r, g, b) => TermColor::Rgb { r, g, b },
        UiColor::Indexed(i) => TermColor::AnsiValue(i),
    }
}

/// The terminal colour for a UI colour.
pub fn ratatui_to_crossterm(color: UiColor) -> (c: TermColor)
    ensures
        c == term_color_of(color),
{
    match color {
        UiColor::Reset => TermColor::Reset,
        UiColor::Black => TermColor::Black,
        UiColor::Red => TermColor::DarkRed,
        UiColor::Green => TermColor::DarkGreen,
        UiColor::Yellow => TermColor::DarkYellow,
        UiColor::Blue => TermColor::DarkBlue,
        UiColor::Magenta => TermColor::DarkMagenta,
        UiColor::Cyan => TermColor::DarkCyan,
        UiColor::Gray => TermColor::Grey,
        UiColor::DarkGray => TermColor::DarkGrey,
        UiColor::LightRed => TermColor::Red,
        UiColor::LightGreen => TermColor::Green,
        UiColor::LightYellow => TermColor::Yellow,
        UiColor::LightBlue => TermColor::Blue,
        UiColor::LightMagenta => TermColor::Magenta,
        UiColor::LightCyan => TermColor::Cyan,
        UiColor::White => TermColor::White,
        UiColor::Rgb(r, g, b) => TermColor::Rgb { r, g, b },
        UiColor::Indexed(i) => TermColor::AnsiValue(i),
    }
}

/// Every cell of `area` lies in the buffer, and its coordinates can be
/// computed without overflow.
pub open spec fn area_in_buffer(buffer: &CellBuffer, area: Rect) -> bool {
    area.width > 0 && area.height > 0 ==> {
        &&& area.x + area.width <= u16::MAX + 1
        &&& area.y + area.height <= u16::MAX + 1
        &&& buffer.area.contains_cell(area.x as int, area.y as int)
        &&& buffer.area.contains_cell(area.x + area.width - 1, area.y + area.height - 1)
    }
}

/// The cell of `buffer` at position `k` of `area`, counted row by row.
pub open spec fn area_cell(buffer: &CellBuffer, area: Rect, k: int) -> crate::buffer::BufferCell {
    buffer.cell_at(area.x + k % (area.width as int), area.y + k / (area.width as int))
}

/// Positions below `n` of `area`, row by row, whose cell shows something
/// other than a single space.
pub open spec fn visible_positions(buffer: &CellBuffer, area: Rect, n: nat) -> Seq<int>
    decreases n,
{
    if n == 0 {
        Seq::empty()
    } else {
        visible_positions(buffer, area, (n - 1) as nat) + if area_cell(buffer, area, n - 1).symbol@
            != seq![' '] {
            seq![n - 1]
        } else {
            Seq::empty()
        }
    }
}

/// The overlay entry for position `k` of `area`: its column and row
/// relative to the area, the cell's symbol and its colours.
pub open spec fn buffer_overlay_matches(o: OverlayCell, buffer: &CellBuffer, area: Rect, k: int) -> bool {
    let c = area_cell(buffer, area, k);
    &&& o.x == k % (area.width as int)
    &&& o.y == k / (area.width as int)
    &&& o.symbol@ == c.symbol@
    &&& o.fg == term_color_of(c.fg)
    &&& o.bg == term_color_of(c.bg)
}

/// The cells of `area` in `buffer` that show something other than a
/// space, row by row, with coordinates relative to the area.
pub fn buffer_overlays(buffer: &CellBuffer, area: Rect) -> (overlays: Vec<OverlayCell>)
    requires
        buffer.wf(),
        area_in_buffer(buffer, area),
    ensures
        overlays@.len() == visible_positions(buffer, area, (area.width * area.height) as nat).len(),
        forall|j: int|
            0 <= j < overlays@.len() ==> buffer_overlay_matches(
                #[trigger] overlays@[j],
                buffer,
                area,
                visible_positions(buffer, area, (area.width * area.height) as nat)[j],
            ),
{
    let mut overlays: Vec<OverlayCell> = Vec::new();
    let space: [char; 1] = [' '];
    assert(space@ =~= seq![' ']);
    let ghost w = area.width as int;
    assert(0 * w == 0);
    for y in 0..area.height
        invariant
            w == area.width,
            buffer.wf(),
            area_in_buffer(buffer, area),
            space@ == seq![' '],
            overlays@.len() == visible_positions(buffer, area, (y * w) as nat).len(),
            forall|j: int|
                0 <= j < overlays@.len() ==> buffer_overlay_matches(
                    #[trigger] overlays@[j],
                    buffer,
                    area,
                    visible_positions(buffer, area, (y * w) as nat)[j],
                ),
    {
        for x in 0..area.width
            invariant
                w == area.width,
                y < area.height,
                buffer.wf(),
                area_in_buffer(buffer, area),
                space@ == seq![' '],
                overlays@.len() == visible_positions(buffer, area, (y * w + x) as nat).len(),
                forall|j: int|
                    0 <= j < overlays@.len() ==> buffer_overlay_matches(
                        #[trigger] overlays@[j],
                        buffer,
                        area,
                        visible_positions(buffer, area, (y * w + x) as nat)[j],
                    ),
        {
            let ghost k = y * w + x;
            proof {
                crate::raster::lemma_pixel_index(w, x as int, y as int);
            }
            let cell = buffer.cell(area.x + x, area.y + y);
            let ghost prev = visible_positions(buffer, area, k as nat);
            assert(visible_positions(buffer, area, (k + 1) as nat) == prev + if area_cell(
                buffer,
                area,
                k,
            ).symbol@ != seq![' '] {
                seq![k]
            } else {
                Seq::<int>::empty()
            });
            if !str_equals(cell.symbol.as_str(), &space) {
                overlays.push(
                    OverlayCell {
                        x,
                        y,
                        symbol: cell.symbol.clone(),
                        fg: ratatui_to_crossterm(cell.fg),
                        bg: ratatui_to_crossterm(cell.bg),
                    },
                );
            }
            assert(y * w + x + 1 == (y * w + x) + 1);
        }
        assert((y + 1) * w == y * w + w) by (nonlinear_arith);
    }
    assert(area.height * w == area.width * area.height) by (nonlinear_arith)
        requires
            w == area.width,
    ;
    overlays
}


/// The text cells below `n` are listed once each, in order: the list is
/// strictly increasing and holds exactly the indices below `n` of the
/// cells that are neither white space nor a Braille pattern.
pub proof fn lemma_text_cells_listed(cells: Seq<MapCell>, n: nat)
    requires
        n <= cells.len(),
    ensures
        forall|j: int, k: int|
            0 <= j < k < text_cell_indices(cells, n).len() ==> text_cell_indices(cells, n)[j]
                < text_cell_indices(cells, n)[k],
        forall|j: int|
            0 <= j < text_cell_indices(cells, n).len() ==> 0 <= #[trigger] text_cell_indices(
                cells,
                n,
            )[j] < n,
        forall|i: int|
            0 <= i < n ==> (is_text_cell(cells[i]) <==> #[trigger] text_cell_indices(
                cells,
                n,
            ).contains(i)),
    decreases n,
{
    if n > 0 {
        let m = (n - 1) as nat;
        lemma_text_cells_listed(cells, m);
        let prev = text_cell_indices(cells, m);
        let cur = text_cell_indices(cells, n);
        if is_text_cell(cells[m as int]) {
            assert(cur == prev.push(m as int));
        } else {
            assert(cur =~= prev);
        }
        assert forall|i: int| 0 <= i < n implies (is_text_cell(cells[i]) <==> #[trigger] cur.contains(
            i,
        )) by {
            if is_text_cell(cells[m as int]) {
                if i == m {
                    assert(cur[prev.len() as int] == m);
                } else if cur.contains(i) {
                    let k = choose|k: int| 0 <= k < cur.len() && cur[k] == i;
                    assert(k < prev.len());
                    assert(prev.contains(i));
                } else if prev.contains(i) {
                    let k = choose|k: int| 0 <= k < prev.len() && prev[k] == i;
                    assert(cur[k] == i);
                }
            } else {
                if i == m {
                    if cur.contains(i) {
                        let k = choose|k: int| 0 <= k < cur.len() && cur[k] == i;
                        assert(prev[k] < m);
                    }
                }
            }
        }
    }
}

/// Distinct UI colours stand for distinct terminal colours.
pub proof fn lemma_term_color_injective(a: UiColor, b: UiColor)
    ensures
        term_color_of(a) == term_color_of(b) ==> a == b,
{
}

/// The colour number of a UI colour, where it has one: the named colours
/// by the ANSI codes the UI toolkit documents for them (foreground codes
/// 30 to 37 are numbers 0 to 7, codes 90 to 97 are numbers 8 to 15), and
/// an indexed colour by its index.
pub open spec fn ui_color_number(c: UiColor) -> Option<u8> {
    match c {
        UiColor::Black => Some(0u8),
        UiColor::Red => Some(1u8),
        UiColor::Green => Some(2u8),
        UiColor::Yellow => Some(3u8),
        UiColor::Blue => Some(4u8),
        UiColor::Magenta => Some(5u8),
        UiColor::Cyan => Some(6u8),
        UiColor::Gray => Some(7u8),
        UiColor::DarkGray => Some(8u8),
        UiColor::LightRed => Some(9u8),
        UiColor::LightGreen => Some(10u8),
        UiColor::LightYellow => Some(11u8),
        UiColor::LightBlue => Some(12u8),
        UiColor::LightMagenta => Some(13u8),
        UiColor::LightCyan => Some(14u8),
        UiColor::White => Some(15u8),
        UiColor::Indexed(i) => Some(i),
        _ => None,
    }
}

/// The colour number a terminal colour is written with (`5;<n>` in its
/// escape sequence), where it has one.
pub open spec fn term_color_number(c: TermColor) -> Option<u8> {
    match c {
        TermColor::Black => Some(0u8),
        TermColor::DarkRed => Some(1u8),
        TermColor::DarkGreen => Some(2u8),
        TermColor::DarkYellow => Some(3u8),
        TermColor::DarkBlue => Some(4u8),
        TermColor::DarkMagenta => Some(5u8),
        TermColor::DarkCyan => Some(6u8),
        TermColor::Grey => Some(7u8),
        TermColor::DarkGrey => Some(8u8),
        TermColor::Red => Some(9u8),
        TermColor::Green => Some(10u8),
        TermColor::Yellow => Some(11u8),
        TermColor::Blue => Some(12u8),
        TermColor::Magenta => Some(13u8),
        TermColor::Cyan => Some(14u8),
        TermColor::White => Some(15u8),
        TermColor::AnsiValue(v) => Some(v),
        _ => None,
    }
}

/// Converting a UI colour keeps the colour the terminal shows: a
/// numbered colour (named or indexed) becomes the terminal colour written
/// with the same number, an RGB colour keeps its channels, and the reset
/// colour stays the reset colour.
pub proof fn lemma_term_color_keeps_number(c: UiColor)
    ensures
        ui_color_number(c) is Some ==> term_color_number(term_color_of(c)) == ui_color_number(c),
        ui_color_number(c) is None ==> term_color_number(term_color_of(c)) is None,
        c matches UiColor::Rgb(r, g, b) ==> term_color_of(c) == (TermColor::Rgb { r, g, b }),
        c == UiColor::Reset ==> term_color_of(c) == TermColor::Reset,
{
}

} // verus!
