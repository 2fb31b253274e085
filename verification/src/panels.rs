//! Small decisions of the screen's chrome: the colour of the map
//! panel's border and the placeholder of an empty sidebar.

use vstd::prelude::*;
use crate::buffer::{Rect, UiColor};
use crate::layout::{shows_sidebar, sidebar_fits};

verus! {

/// Colour of the map panel's border: the accent colour while the map
/// itself has the focus (no panel or sidebar component is active), the
/// muted colour otherwise.
pub fn map_border_color(base_focused: bool, accent: UiColor, muted: UiColor) -> (color: UiColor)
    ensures
        color == if base_focused {
            accent
        } else {
            muted
        },
{
    if base_focused {
        accent
    } else {
        muted
    }
}

/// Whether the sidebar shows its "(no sections yet)" placeholder: when
/// it is open and fits beside the map in `main`, and holds no sections.
pub fn sidebar_placeholder_shown(
    main: Rect,
    sidebar_open: bool,
    sidebar_width: u16,
    section_count: usize,
) -> (shown: bool)
    requires
        sidebar_open ==> sidebar_width + 4 <= u16::MAX,
    ensures
        shown == (shows_sidebar(main, sidebar_open, sidebar_width) && section_count == 0),
{
    sidebar_fits(main, sidebar_open, sidebar_width) && section_count == 0
}

} // verus!
