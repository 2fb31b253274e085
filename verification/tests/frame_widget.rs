use ttymap_tui::buffer::{CellBuffer, Rect, UiColor};
use ttymap_tui::frame::{MapCell, MapFrame};
use ttymap_tui::widget::{xterm_to_color, MapFrameWidget};

#[test]
fn test_xterm_to_color() {
    assert_eq!(xterm_to_color(0), UiColor::Reset);
    assert_eq!(xterm_to_color(1), UiColor::Indexed(1));
    assert_eq!(xterm_to_color(255), UiColor::Indexed(255));
}

#[test]
fn test_map_frame_widget_render() {
    let frame = MapFrame {
        cells: vec![
            MapCell {
                ch: 'A',
                fg: 1,
                bg: 0,
            },
            MapCell {
                ch: 'B',
                fg: 2,
                bg: 0,
            },
        ],
        cols: 2,
        rows: 1,
    };
    let area = Rect {
        x: 0,
        y: 0,
        width: 2,
        height: 1,
    };
    let mut buf = CellBuffer::empty(area);
    MapFrameWidget {
        frame: &frame,
        enabled: true,
    }
    .render(area, &mut buf);
    assert_eq!(buf.cell(0, 0).symbol, "A");
    assert_eq!(buf.cell(1, 0).symbol, "B");
}

#[test]
fn disabled_widget_leaves_buffer_untouched() {
    let frame = MapFrame {
        cells: vec![MapCell {
            ch: 'A',
            fg: 1,
            bg: 0,
        }],
        cols: 1,
        rows: 1,
    };
    let area = Rect {
        x: 0,
        y: 0,
        width: 1,
        height: 1,
    };
    let mut buf = CellBuffer::empty(area);
    MapFrameWidget {
        frame: &frame,
        enabled: false,
    }
    .render(area, &mut buf);
    assert_eq!(buf.cell(0, 0).symbol, " ");
}
