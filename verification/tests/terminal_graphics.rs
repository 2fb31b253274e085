use ttymap_tui::buffer::{CellBuffer, Rect};
use ttymap_tui::overlay::buffer_overlays;
use ttymap_tui::terminal_graphics::{
    frame_text_overlays, frame_to_sixel, terminal_supports_sixel_env, CellPixelSize, MapCell,
    MapFrame,
};

fn sample_frame() -> MapFrame {
    MapFrame {
        cells: vec![
            MapCell {
                ch: '\u{2801}',
                fg: 9,
                bg: 0,
            },
            MapCell {
                ch: 'A',
                fg: 15,
                bg: 4,
            },
        ],
        cols: 2,
        rows: 1,
    }
}

#[test]
fn auto_mode_detects_known_sixel_terminals() {
    assert!(terminal_supports_sixel_env(Some("mlterm"), None, None));
    assert!(terminal_supports_sixel_env(None, Some("WezTerm"), None));
    assert!(!terminal_supports_sixel_env(
        Some("xterm-256color"),
        None,
        None
    ));
}

#[test]
fn frame_to_sixel_emits_dcs_sequence_and_palette() {
    let sixel = frame_to_sixel(&sample_frame(), CellPixelSize::new(4, 8));
    assert!(sixel.starts_with("\x1bPq\"1;1;8;8"));
    assert!(sixel.contains("#0;2;0;0;0"));
    assert!(sixel.contains("#9;2;100;0;0"));
    assert!(sixel.ends_with("\x1b\\"));
}

#[test]
fn frame_text_overlays_skip_braille_cells() {
    let overlays = frame_text_overlays(&sample_frame());
    assert_eq!(overlays.len(), 1);
    assert_eq!(overlays[0].x, 1);
    assert_eq!(overlays[0].symbol, "A");
}

#[test]
fn buffer_overlays_only_collect_visible_symbols() {
    let area = Rect {
        x: 0,
        y: 0,
        width: 2,
        height: 1,
    };
    let mut buf = CellBuffer::empty(area);
    buf.set_char(0, 0, 'X');
    let overlays = buffer_overlays(&buf, area);
    assert_eq!(overlays.len(), 1);
    assert_eq!(overlays[0].symbol, "X");
}
