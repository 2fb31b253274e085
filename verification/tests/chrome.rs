use ttymap_tui::buffer::{Rect, UiColor};
use ttymap_tui::frame::{MapCell, MapFrame};
use ttymap_tui::layout::{block_inner, map_inner_area, map_inner_area_from};
use ttymap_tui::panels::{map_border_color, sidebar_placeholder_shown};
use ttymap_tui::raster::fill_rect;
use ttymap_tui::render_mode::{braille_enabled, paints_sixel, ActiveRenderMode};
use ttymap_tui::snapshot::{wait_step, WaitAction, WaitEvent};

fn rect(x: u16, y: u16, width: u16, height: u16) -> Rect {
    Rect { x, y, width, height }
}

fn frame_of(ch: char) -> MapFrame {
    MapFrame { cells: vec![MapCell { ch, fg: 1, bg: 2 }], cols: 1, rows: 1 }
}

#[test]
fn fill_rect_inside_rows() {
    let mut pixels = vec![0u8; 12];
    fill_rect(&mut pixels, 4, 1, 1, 2, 2, 5);
    assert_eq!(pixels, vec![0, 0, 0, 0, 0, 5, 5, 0, 0, 5, 5, 0]);
}

#[test]
fn fill_rect_running_past_row_end_wraps_into_next_row() {
    let mut pixels = vec![0u8; 12];
    fill_rect(&mut pixels, 4, 3, 0, 2, 2, 7);
    assert_eq!(pixels, vec![0, 0, 0, 7, 7, 0, 0, 7, 7, 0, 0, 0]);
}

#[test]
fn fill_rect_empty_rectangle_anywhere_changes_nothing() {
    let mut pixels = vec![3u8; 6];
    fill_rect(&mut pixels, 3, 100, 200, 0, 5, 1);
    fill_rect(&mut pixels, 3, 500, 7, 4, 0, 1);
    assert_eq!(pixels, vec![3u8; 6]);
}

#[test]
fn fill_rect_zero_width_image_writes_columns_as_indices() {
    let mut pixels = vec![0u8; 4];
    fill_rect(&mut pixels, 0, 1, 5, 2, 3, 9);
    assert_eq!(pixels, vec![0, 9, 9, 0]);
}

#[test]
fn block_inner_of_plain_and_degenerate_areas() {
    assert_eq!(block_inner(rect(0, 0, 10, 5)), rect(1, 1, 8, 3));
    assert_eq!(block_inner(rect(3, 4, 1, 1)), rect(4, 5, 0, 0));
    assert_eq!(block_inner(rect(65535, 65535, 0, 0)), rect(65535, 65535, 0, 0));
    assert_eq!(block_inner(rect(7, 2, 0, 9)), rect(7, 3, 0, 7));
}

#[test]
fn map_inner_area_from_layout_results() {
    let main = rect(0, 0, 80, 23);
    let beside = rect(20, 0, 60, 23);
    assert_eq!(map_inner_area_from(main, true, 20, beside), rect(21, 1, 58, 21));
    assert_eq!(map_inner_area_from(main, false, 20, beside), rect(1, 1, 78, 21));
    // 76 + 4 is not less than 80: the sidebar does not fit.
    assert_eq!(map_inner_area_from(main, true, 76, beside), rect(1, 1, 78, 21));
}

#[test]
fn map_inner_area_off_origin() {
    assert_eq!(map_inner_area(rect(5, 2, 40, 10), false, 8), rect(6, 3, 38, 7));
    assert_eq!(map_inner_area(rect(5, 2, 40, 10), true, 8), rect(14, 3, 30, 7));
}

#[test]
fn map_border_follows_focus() {
    let accent = UiColor::Cyan;
    let muted = UiColor::DarkGray;
    assert_eq!(map_border_color(true, accent, muted), UiColor::Cyan);
    assert_eq!(map_border_color(false, accent, muted), UiColor::DarkGray);
}

#[test]
fn sidebar_placeholder_only_when_open_fitting_and_empty() {
    let main = rect(0, 0, 80, 23);
    assert!(sidebar_placeholder_shown(main, true, 20, 0));
    assert!(!sidebar_placeholder_shown(main, true, 20, 2));
    assert!(!sidebar_placeholder_shown(main, false, 20, 0));
    assert!(!sidebar_placeholder_shown(main, true, 76, 0));
}

#[test]
fn render_mode_chooses_braille_or_sixel_painting() {
    assert!(braille_enabled(ActiveRenderMode::Braille));
    assert!(!braille_enabled(ActiveRenderMode::Sixel));
    assert!(paints_sixel(ActiveRenderMode::Sixel, true));
    assert!(!paints_sixel(ActiveRenderMode::Sixel, false));
    assert!(!paints_sixel(ActiveRenderMode::Braille, true));
}

#[test]
fn wait_stops_at_deadline_keeping_last_frame() {
    let (kept, action) = wait_step(Some(frame_of('a')), WaitEvent::DeadlineReached);
    assert_eq!(action, WaitAction::Stop);
    assert_eq!(kept.unwrap().cells[0].ch, 'a');
    let (kept, action) = wait_step(None, WaitEvent::DeadlineReached);
    assert_eq!(action, WaitAction::Stop);
    assert!(kept.is_none());
}

#[test]
fn wait_polls_until_idle_then_drains_once() {
    let (kept, action) =
        wait_step(Some(frame_of('a')), WaitEvent::Polled { frame: Some(frame_of('b')), idle: false });
    assert_eq!(action, WaitAction::Sleep);
    assert_eq!(kept.as_ref().unwrap().cells[0].ch, 'b');
    let (kept, action) = wait_step(kept, WaitEvent::Polled { frame: None, idle: true });
    assert_eq!(action, WaitAction::Drain);
    assert_eq!(kept.as_ref().unwrap().cells[0].ch, 'b');
    let (kept, action) = wait_step(kept, WaitEvent::Drained { frame: Some(frame_of('c')) });
    assert_eq!(action, WaitAction::Stop);
    assert_eq!(kept.unwrap().cells[0].ch, 'c');
    let (kept, action) = wait_step(None, WaitEvent::Drained { frame: None });
    assert_eq!(action, WaitAction::Stop);
    assert!(kept.is_none());
}

#[test]
fn map_inner_area_past_largest_column_without_sidebar() {
    assert_eq!(map_inner_area(rect(65000, 0, 1000, 24), false, 20), rect(65001, 1, 998, 21));
}

#[test]
fn map_inner_area_of_short_screens() {
    // One row: the map panel takes it and the footer is empty.
    assert_eq!(map_inner_area(rect(0, 0, 80, 1), true, 20), rect(21, 1, 58, 0));
    // No rows at all.
    assert_eq!(map_inner_area(rect(0, 0, 80, 0), false, 20), rect(1, 0, 78, 0));
    // Two rows: one above the footer.
    assert_eq!(map_inner_area(rect(0, 0, 80, 2), false, 20), rect(1, 1, 78, 0));
}
