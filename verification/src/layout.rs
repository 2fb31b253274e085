//! Screen layout: the map panel above a one-line footer, optionally
//! beside a sidebar, inside a bordered block.

use vstd::prelude::*;
use crate::buffer::Rect;
use ratatui::layout::{Constraint, Direction, Layout};

verus! {

/// The two areas that the UI toolkit's layout solver gives when it
/// splits the area (`x`, `y`, `width`, `height`) in two along one axis
/// (`vertical` or horizontal), each part with a size constraint that is
/// either a minimum (`*_is_min`) or an exact length, of `first` and
/// `second` cells. Each area is (`x`, `y`, `width`, `height`).
pub uninterp spec fn two_way_split(
    vertical: bool,
    first_is_min: bool,
    first: u16,
    second_is_min: bool,
    second: u16,
    x: u16,
    y: u16,
    width: u16,
    height: u16,
) -> ((u16, u16, u16, u16), (u16, u16, u16, u16));

/// A rectangle as a tuple.
pub open spec fn rect_tuple(r: Rect) -> (u16, u16, u16, u16) {
    (r.x, r.y, r.width, r.height)
}

/// The parts of a vertical split of `area` into at least one row above
/// exactly one row. The solver works within the rows from `area.y` to
/// `area.bottom()` (which stops at the largest coordinate): with two or
/// more rows the first part takes all but the last row; with one row the
/// first part takes it and the second is empty below it; with none both
/// are empty. Both keep the area's columns.
pub open spec fn footer_split(area: Rect) -> ((u16, u16, u16, u16), (u16, u16, u16, u16)) {
    let h = area.bottom() - area.y;
    if h >= 2 {
        (
            (area.x, area.y, area.width, (h - 1) as u16),
            (area.x, (area.y + h - 1) as u16, area.width, 1u16),
        )
    } else if h == 1 {
        ((area.x, area.y, area.width, 1u16), (area.x, (area.y + 1) as u16, area.width, 0u16))
    } else {
        ((area.x, area.y, area.width, 0u16), (area.x, area.y, area.width, 0u16))
    }
}

/// The parts of a horizontal split of `area` into exactly `s` columns
/// beside at least one, where more than `s` columns lie between `area.x`
/// and `area.right()`: the first `s` columns, then the rest up to
/// `area.right()`. Both keep the area's rows.
pub open spec fn sidebar_split(area: Rect, s: u16) -> ((u16, u16, u16, u16), (u16, u16, u16, u16)) {
    (
        (area.x, area.y, s, area.height),
        ((area.x + s) as u16, area.y, (area.right() - area.x - s) as u16, area.height),
    )
}

/// The rectangle with the corner and size of `t`.
pub open spec fn rect_at(t: (u16, u16, u16, u16)) -> Rect {
    Rect { x: t.0, y: t.1, width: t.2, height: t.3 }
}

/// `Layout::new(direction, [c1, c2]).split(area)` of the UI toolkit, for
/// two constraints that are each `Min(n)` or `Length(n)`. What the
/// solver returns is named `two_way_split`. It is stated for the two
/// splits whose optimum is unique under the solver's weights (a `Min`
/// bound outweighs a `Length`, which outweighs the growth of a `Min`
/// part, which outweighs the growth of the trailing space): `Min(1)`
/// above `Length(1)` gives `footer_split`, and `Length(first)` beside
/// `Min(1)`, with more than `first` columns up to the area's right edge,
/// gives `sidebar_split`. Other splits are left unsaid.
#[verifier::external_body]
fn split_two(
    vertical: bool,
    first_is_min: bool,
    first: u16,
    second_is_min: bool,
    second: u16,
    area: Rect,
) -> (parts: ((u16, u16, u16, u16), (u16, u16, u16, u16)))
    ensures
        parts == two_way_split(
            vertical,
            first_is_min,
            first,
            second_is_min,
            second,
            area.x,
            area.y,
            area.width,
            area.height,
        ),
        vertical && first_is_min && first == 1 && !second_is_min && second == 1 ==> parts
            == footer_split(area),
        !vertical && !first_is_min && second_is_min && second == 1 && area.right() - area.x > first
            ==> parts == sidebar_split(area, first),
{
    let dir = if vertical { Direction::Vertical } else { Direction::Horizontal };
    let c1 = if first_is_min { Constraint::Min(first) } else { Constraint::Length(first) };
    let c2 = if second_is_min { Constraint::Min(second) } else { Constraint::Length(second) };
    let (x, y, width, height) = (area.x, area.y, area.width, area.height);
    let r = Layout::new(dir, [c1, c2]).split(ratatui::layout::Rect { x, y, width, height });
    let (a, b) = (r[0], r[1]);
    ((a.x, a.y, a.width, a.height), (b.x, b.y, b.width, b.height))
}

/// The rectangle with the given corner and size.
fn rect_of(t: (u16, u16, u16, u16)) -> (r: Rect)
    ensures
        rect_tuple(r) == t,
{
    Rect { x: t.0, y: t.1, width: t.2, height: t.3 }
}

/// The inside of `area` framed by a border on all four sides: one cell
/// in from the left and top (not past the right and bottom edges), two
/// cells narrower and lower (not below zero).
pub open spec fn bordered_inner(area: Rect) -> Rect {
    let x1 = if area.x + 1 > u16::MAX { u16::MAX as int } else { area.x + 1 };
    let y1 = if area.y + 1 > u16::MAX { u16::MAX as int } else { area.y + 1 };
    Rect {
        x: if x1 < area.right() { x1 as u16 } else { area.right() as u16 },
        y: if y1 < area.bottom() { y1 as u16 } else { area.bottom() as u16 },
        width: if area.width >= 2 { (area.width - 2) as u16 } else { 0 },
        height: if area.height >= 2 { (area.height - 2) as u16 } else { 0 },
    }
}

/// The inside of `area` framed by a border on all four sides, as the UI
/// toolkit's `Block::new().borders(Borders::ALL).inner(area)` gives it
/// (no title, no padding).
pub fn block_inner(area: Rect) -> (inner: Rect)
    ensures
        inner == bordered_inner(area),
{
    let right: u16 = area.x.saturating_add(area.width);
    let bottom: u16 = area.y.saturating_add(area.height);
    let x1: u16 = area.x.saturating_add(1);
    let y1: u16 = area.y.saturating_add(1);
    Rect {
        x: if x1 < right { x1 } else { right },
        y: if y1 < bottom { y1 } else { bottom },
        width: area.width.saturating_sub(2),
        height: area.height.saturating_sub(2),
    }
}

/// The area above the one-line footer: the first part of a vertical
/// split of `area` into at least one line and exactly one line.
pub open spec fn main_area_of(area: Rect) -> (u16, u16, u16, u16) {
    two_way_split(true, true, 1, false, 1, area.x, area.y, area.width, area.height).0
}

/// The area right of a sidebar `sidebar_width` wide: the second part of a
/// horizontal split of `main` into exactly that width and at least one
/// column.
pub open spec fn beside_sidebar_of(main: Rect, sidebar_width: u16) -> (u16, u16, u16, u16) {
    two_way_split(false, false, sidebar_width, true, 1, main.x, main.y, main.width, main.height).1
}

/// Whether an open sidebar leaves room for the map: the main area must
/// be more than four columns wider than the sidebar.
pub open spec fn shows_sidebar(main: Rect, sidebar_open: bool, sidebar_width: u16) -> bool {
    sidebar_open && main.width > sidebar_width + 4
}

/// Whether the sidebar is drawn beside the map in `main`.
pub fn sidebar_fits(main: Rect, sidebar_open: bool, sidebar_width: u16) -> (fits: bool)
    requires
        sidebar_open ==> sidebar_width + 4 <= u16::MAX,
    ensures
        fits == shows_sidebar(main, sidebar_open, sidebar_width),
{
    sidebar_open && main.width > sidebar_width + 4
}

/// The area where the map is drawn, from the layout's results: inside
/// the border of the map panel, which is `beside` (the part of `main`
/// right of the sidebar) when the sidebar is open and fits, and `main`
/// (the screen above the footer) otherwise.
pub fn map_inner_area_from(main: Rect, sidebar_open: bool, sidebar_width: u16, beside: Rect) -> (inner:
    Rect)
    requires
        sidebar_open ==> sidebar_width + 4 <= u16::MAX,
    ensures
        inner == bordered_inner(
            if shows_sidebar(main, sidebar_open, sidebar_width) {
                beside
            } else {
                main
            },
        ),
{
    let map_area = if sidebar_fits(main, sidebar_open, sidebar_width) {
        beside
    } else {
        main
    };
    block_inner(map_area)
}

/// The area of the screen `area` where the map is drawn: inside the
/// border of the map panel, which takes the part of the screen above the
/// footer, less the sidebar when one is open and fits.
pub fn map_inner_area(area: Rect, sidebar_open: bool, sidebar_width: u16) -> (inner: Rect)
    requires
        sidebar_open ==> sidebar_width + 4 <= u16::MAX,
    ensures
        exists|main: Rect, map: Rect|
            rect_tuple(main) == main_area_of(area) && (if shows_sidebar(
                main,
                sidebar_open,
                sidebar_width,
            ) {
                rect_tuple(map) == beside_sidebar_of(main, sidebar_width)
            } else {
                map == main
            }) && inner == bordered_inner(map),
        ({
            let main = rect_at(footer_split(area).0);
            &&& !shows_sidebar(main, sidebar_open, sidebar_width) ==> inner == bordered_inner(main)
            &&& shows_sidebar(main, sidebar_open, sidebar_width) && area.right() - area.x
                > sidebar_width ==> inner == bordered_inner(
                rect_at(sidebar_split(main, sidebar_width).1),
            )
        }),
{
    let main_area = rect_of(split_two(true, true, 1, false, 1, area).0);
    let beside = if sidebar_fits(main_area, sidebar_open, sidebar_width) {
        rect_of(split_two(false, false, sidebar_width, true, 1, main_area).1)
    } else {
        main_area
    };
    let inner = map_inner_area_from(main_area, sidebar_open, sidebar_width, beside);
    assert(rect_tuple(main_area) == main_area_of(area));
    inner
}


/// The inside of a bordered area lies within the area, one cell in from
/// each side when the area is at least two cells wide and high.
pub proof fn lemma_border_inside(area: Rect)
    requires
        area.x + area.width <= u16::MAX,
        area.y + area.height <= u16::MAX,
    ensures
        area.x <= bordered_inner(area).x,
        bordered_inner(area).x + bordered_inner(area).width <= area.x + area.width,
        area.y <= bordered_inner(area).y,
        bordered_inner(area).y + bordered_inner(area).height <= area.y + area.height,
        area.width >= 2 ==> bordered_inner(area).x == area.x + 1 && bordered_inner(area).width
            == area.width - 2,
        area.height >= 2 ==> bordered_inner(area).y == area.y + 1 && bordered_inner(area).height
            == area.height - 2,
{
}

} // verus!
