use ttymap_tui::buffer::{CellBuffer, Rect, UiColor};
use ttymap_tui::cell_size::{cell_pixel_size_from_window, CellPixelSize, WindowSize};
use ttymap_tui::footer::{build_hints, footer_spans, FooterStyle};
use ttymap_tui::frame::{braille_bits, braille_dot_bit, MapCell, MapFrame};
use ttymap_tui::input::{route_input, InputEvent, InputRoute};
use ttymap_tui::layout::{map_inner_area, sidebar_fits};
use ttymap_tui::overlay::{buffer_overlays, frame_text_overlays, ratatui_to_crossterm, TermColor};
use ttymap_tui::palette::{cube_value, rgb_to_percent, xterm_to_rgb};
use ttymap_tui::render_mode::{
    resolve_render_mode, terminal_supports_sixel_env, ActiveRenderMode, RenderMode, SnapshotFormat,
};
use ttymap_tui::sixel::frame_to_sixel;
use ttymap_tui::snapshot::{braille_canvas_size, snapshot_grid};
use ttymap_tui::widget::MapFrameWidget;

fn cell(ch: char, fg: u8, bg: u8) -> MapCell {
    MapCell { ch, fg, bg }
}

#[test]
fn sixel_of_sample_frame_is_exact() {
    let frame = MapFrame {
        cells: vec![cell('\u{2801}', 9, 0), cell('A', 15, 4)],
        cols: 2,
        rows: 1,
    };
    let sixel = frame_to_sixel(&frame, CellPixelSize::new(4, 8));
    assert_eq!(
        sixel,
        "\x1bPq\"1;1;8;8#0;2;0;0;0#4;2;0;0;50#9;2;100;0;0#0{{~~!4?$#4!4?!4~$#9BB!6?-#0!4B!4?$#4!4?!4B\x1b\\"
    );
}

#[test]
fn sixel_of_full_and_blank_braille_cells() {
    let frame = MapFrame {
        cells: vec![
            cell('\u{28ff}', 196, 16),
            cell('\u{2800}', 21, 232),
            cell(' ', 1, 2),
        ],
        cols: 3,
        rows: 1,
    };
    let sixel = frame_to_sixel(&frame, CellPixelSize::new(2, 4));
    assert_eq!(
        sixel,
        "\x1bPq\"1;1;6;4#2;2;0;50;0#196;2;100;0;0#232;2;3;3;3#2!4?NN$#196NN!4?$#232??NN??\x1b\\"
    );
}

#[test]
fn sixel_raises_zero_cell_size_to_one_pixel() {
    let frame = MapFrame {
        cells: vec![cell('x', 7, 7)],
        cols: 1,
        rows: 1,
    };
    let sixel = frame_to_sixel(&frame, CellPixelSize::new(0, 0));
    assert_eq!(sixel, "\x1bPq\"1;1;1;1#7;2;75;75;75#7@\x1b\\");
}

#[test]
fn sixel_of_two_bands() {
    let frame = MapFrame {
        cells: vec![cell('\u{2847}', 10, 0); 10],
        cols: 5,
        rows: 2,
    };
    let sixel = frame_to_sixel(&frame, CellPixelSize::new(2, 4));
    assert_eq!(
        sixel,
        "\x1bPq\"1;1;10;8#0;2;0;0;0#10;2;0;100;0#0?~?~?~?~?~$#10~?~?~?~?~?-#0?B?B?B?B?B$#10B?B?B?B?B?\x1b\\"
    );
}

#[test]
fn sixel_of_blank_frame_is_empty() {
    let empty = MapFrame {
        cells: vec![],
        cols: 2,
        rows: 1,
    };
    assert_eq!(frame_to_sixel(&empty, CellPixelSize::new(4, 8)), "");
    let no_cols = MapFrame {
        cells: vec![cell('a', 1, 1)],
        cols: 0,
        rows: 1,
    };
    assert_eq!(frame_to_sixel(&no_cols, CellPixelSize::new(4, 8)), "");
}

#[test]
fn xterm_palette_values() {
    assert_eq!(xterm_to_rgb(0), (0, 0, 0));
    assert_eq!(xterm_to_rgb(7), (0xc0, 0xc0, 0xc0));
    assert_eq!(xterm_to_rgb(15), (0xff, 0xff, 0xff));
    assert_eq!(xterm_to_rgb(16), (0, 0, 0));
    assert_eq!(xterm_to_rgb(196), (255, 0, 0));
    assert_eq!(xterm_to_rgb(110), (135, 175, 215));
    assert_eq!(xterm_to_rgb(231), (255, 255, 255));
    assert_eq!(xterm_to_rgb(232), (8, 8, 8));
    assert_eq!(xterm_to_rgb(255), (238, 238, 238));
    assert_eq!(cube_value(0), 0);
    assert_eq!(cube_value(1), 95);
    assert_eq!(cube_value(5), 255);
}

#[test]
fn percent_scaling() {
    assert_eq!(rgb_to_percent(0), 0);
    assert_eq!(rgb_to_percent(128), 50);
    assert_eq!(rgb_to_percent(192), 75);
    assert_eq!(rgb_to_percent(254), 99);
    assert_eq!(rgb_to_percent(255), 100);
}

#[test]
fn braille_patterns() {
    assert_eq!(braille_bits('\u{2800}'), Some(0));
    assert_eq!(braille_bits('\u{2801}'), Some(1));
    assert_eq!(braille_bits('\u{28ff}'), Some(0xff));
    assert_eq!(braille_bits('\u{27ff}'), None);
    assert_eq!(braille_bits('\u{2900}'), None);
    assert_eq!(braille_bits('A'), None);
    let mut all = 0u32;
    for dy in 0..4 {
        for dx in 0..2 {
            all += u32::from(braille_dot_bit(dy, dx));
        }
    }
    assert_eq!(all, 0xff);
}

#[test]
fn cell_size_from_window_report() {
    assert_eq!(cell_pixel_size_from_window(None), CellPixelSize::new(8, 16));
    let w = WindowSize {
        rows: 24,
        columns: 80,
        width: 800,
        height: 480,
    };
    assert_eq!(cell_pixel_size_from_window(Some(w)), CellPixelSize::new(10, 20));
    let zero = WindowSize {
        rows: 24,
        columns: 80,
        width: 0,
        height: 480,
    };
    assert_eq!(cell_pixel_size_from_window(Some(zero)), CellPixelSize::new(8, 16));
    let tiny = WindowSize {
        rows: 24,
        columns: 80,
        width: 40,
        height: 12,
    };
    assert_eq!(cell_pixel_size_from_window(Some(tiny)), CellPixelSize::new(1, 1));
    assert_eq!(CellPixelSize::default(), CellPixelSize::new(8, 16));
    assert_eq!(CellPixelSize::new(0, 3).normalized(), CellPixelSize::new(1, 3));
}

#[test]
fn render_mode_resolution() {
    assert_eq!(resolve_render_mode(RenderMode::Auto, || true), ActiveRenderMode::Sixel);
    assert_eq!(resolve_render_mode(RenderMode::Auto, || false), ActiveRenderMode::Braille);
    assert_eq!(resolve_render_mode(RenderMode::Braille, || true), ActiveRenderMode::Braille);
    assert_eq!(resolve_render_mode(RenderMode::Sixel, || false), ActiveRenderMode::Sixel);
    assert_eq!(RenderMode::default(), RenderMode::Auto);
    assert_eq!(ActiveRenderMode::default(), ActiveRenderMode::Braille);
    assert_eq!(SnapshotFormat::default(), SnapshotFormat::Ansi);
}

#[test]
fn sixel_detection_cases() {
    assert!(terminal_supports_sixel_env(Some("xterm-sixel"), None, None));
    assert!(terminal_supports_sixel_env(Some("XTERM-SIXEL"), None, None));
    assert!(terminal_supports_sixel_env(Some("WezTerm-Nightly"), None, None));
    assert!(terminal_supports_sixel_env(Some("foot"), None, None));
    assert!(terminal_supports_sixel_env(Some("yaft"), None, None));
    assert!(terminal_supports_sixel_env(None, Some("iTerm.app"), None));
    assert!(terminal_supports_sixel_env(Some("xterm"), Some("foot"), Some("380")));
    assert!(!terminal_supports_sixel_env(Some("footer"), None, None));
    assert!(!terminal_supports_sixel_env(None, Some("yaft"), None));
    assert!(!terminal_supports_sixel_env(None, None, Some("380")));
    assert!(!terminal_supports_sixel_env(Some(""), Some(""), None));
}

#[test]
fn text_overlays_skip_whitespace_and_wrap_rows() {
    let frame = MapFrame {
        cells: vec![
            cell(' ', 1, 2),
            cell('\u{2840}', 1, 2),
            cell('\u{3000}', 1, 2),
            cell('Z', 5, 6),
        ],
        cols: 3,
        rows: 2,
    };
    let overlays = frame_text_overlays(&frame);
    assert_eq!(overlays.len(), 1);
    assert_eq!((overlays[0].x, overlays[0].y), (0, 1));
    assert_eq!(overlays[0].symbol, "Z");
    assert_eq!(overlays[0].fg, TermColor::AnsiValue(5));
    assert_eq!(overlays[0].bg, TermColor::AnsiValue(6));
}

#[test]
fn buffer_overlays_are_relative_to_the_area() {
    let buf_area = Rect {
        x: 2,
        y: 3,
        width: 4,
        height: 3,
    };
    let mut buf = CellBuffer::empty(buf_area);
    buf.set_cell(4, 4, 'Q', UiColor::LightRed, UiColor::Indexed(9));
    buf.set_cell(2, 3, 'W', UiColor::Red, UiColor::Reset);
    let area = Rect {
        x: 3,
        y: 4,
        width: 3,
        height: 2,
    };
    let overlays = buffer_overlays(&buf, area);
    assert_eq!(overlays.len(), 1);
    assert_eq!((overlays[0].x, overlays[0].y), (1, 0));
    assert_eq!(overlays[0].symbol, "Q");
    assert_eq!(overlays[0].fg, TermColor::Red);
    assert_eq!(overlays[0].bg, TermColor::AnsiValue(9));
}

#[test]
fn ui_colors_map_to_terminal_colors() {
    assert_eq!(ratatui_to_crossterm(UiColor::Red), TermColor::DarkRed);
    assert_eq!(ratatui_to_crossterm(UiColor::LightRed), TermColor::Red);
    assert_eq!(ratatui_to_crossterm(UiColor::Gray), TermColor::Grey);
    assert_eq!(ratatui_to_crossterm(UiColor::DarkGray), TermColor::DarkGrey);
    assert_eq!(
        ratatui_to_crossterm(UiColor::Rgb(1, 2, 3)),
        TermColor::Rgb { r: 1, g: 2, b: 3 }
    );
    assert_eq!(ratatui_to_crossterm(UiColor::Indexed(42)), TermColor::AnsiValue(42));
}

#[test]
fn widget_clips_to_area_and_frame() {
    let frame = MapFrame {
        cells: vec![
            cell('a', 0, 3),
            cell('b', 1, 0),
            cell('c', 2, 0),
            cell('d', 3, 0),
            cell('e', 4, 0),
            cell('f', 5, 0),
        ],
        cols: 3,
        rows: 2,
    };
    let buf_area = Rect {
        x: 0,
        y: 0,
        width: 4,
        height: 3,
    };
    let mut buf = CellBuffer::empty(buf_area);
    let area = Rect {
        x: 1,
        y: 1,
        width: 2,
        height: 5,
    };
    MapFrameWidget {
        frame: &frame,
        enabled: true,
    }
    .render(area, &mut buf);
    assert_eq!(buf.cell(1, 1).symbol, "a");
    assert_eq!(buf.cell(1, 1).fg, UiColor::Reset);
    assert_eq!(buf.cell(1, 1).bg, UiColor::Indexed(3));
    assert_eq!(buf.cell(2, 1).symbol, "b");
    assert_eq!(buf.cell(1, 2).symbol, "d");
    assert_eq!(buf.cell(2, 2).symbol, "e");
    assert_eq!(buf.cell(3, 1).symbol, " ");
    assert_eq!(buf.cell(0, 0).symbol, " ");
}

#[test]
fn footer_hints_gain_focus_cycling() {
    let hints = vec![("?", "help"), ("q", "quit"), ("q", "again")];
    assert_eq!(build_hints(hints.clone(), 1), hints);
    assert_eq!(
        build_hints(hints.clone(), 2),
        vec![("?", "help"), ("Tab/S-Tab", "focus"), ("q", "quit"), ("q", "again")]
    );
    assert_eq!(
        build_hints(vec![("?", "help")], 3),
        vec![("?", "help"), ("Tab/S-Tab", "focus")]
    );
}

#[test]
fn footer_spans_of_hints() {
    let spans = footer_spans("wiki", &vec![("j", "down"), ("q", "quit")]);
    let texts: Vec<(&str, FooterStyle)> = spans.iter().map(|s| (s.text.as_str(), s.style)).collect();
    assert_eq!(
        texts,
        vec![
            (" wiki ", FooterStyle::FocusedName),
            ("  ", FooterStyle::Separator),
            (" j ", FooterStyle::Key),
            (" down", FooterStyle::Description),
            ("  ", FooterStyle::Separator),
            (" q ", FooterStyle::Key),
            (" quit", FooterStyle::Description),
        ]
    );
    assert!(footer_spans("", &vec![]).is_empty());
}

#[test]
fn map_area_inside_border_and_beside_sidebar() {
    let screen = Rect {
        x: 0,
        y: 0,
        width: 80,
        height: 24,
    };
    assert_eq!(
        map_inner_area(screen, false, 20),
        Rect {
            x: 1,
            y: 1,
            width: 78,
            height: 21
        }
    );
    assert_eq!(
        map_inner_area(screen, true, 20),
        Rect {
            x: 21,
            y: 1,
            width: 58,
            height: 21
        }
    );
    assert_eq!(
        map_inner_area(screen, true, 76),
        Rect {
            x: 1,
            y: 1,
            width: 78,
            height: 21
        }
    );
    assert!(sidebar_fits(screen, true, 75));
    assert!(!sidebar_fits(screen, true, 76));
    assert!(!sidebar_fits(screen, false, 10));
}

#[test]
fn snapshot_sizes() {
    assert_eq!(snapshot_grid(None, None, None), (80, 24));
    assert_eq!(snapshot_grid(None, None, Some((120, 40))), (120, 40));
    assert_eq!(snapshot_grid(Some(10), None, Some((120, 40))), (10, 40));
    assert_eq!(snapshot_grid(Some(10), Some(5), None), (10, 5));
    assert_eq!(braille_canvas_size(80, 24), (160, 96));
}

#[test]
fn input_routing() {
    assert_eq!(
        route_input(InputEvent::Key {
            ch: Some('c'),
            ctrl: true
        }),
        InputRoute::Quit
    );
    assert_eq!(
        route_input(InputEvent::Key {
            ch: Some('c'),
            ctrl: false
        }),
        InputRoute::FocusedKey
    );
    assert_eq!(
        route_input(InputEvent::Key {
            ch: None,
            ctrl: true
        }),
        InputRoute::FocusedKey
    );
    assert_eq!(
        route_input(InputEvent::Resize { cols: 100, rows: 30 }),
        InputRoute::Resize { cols: 100, rows: 30 }
    );
    assert_eq!(route_input(InputEvent::Mouse), InputRoute::Mouse);
    assert_eq!(route_input(InputEvent::Other), InputRoute::Ignore);
}
