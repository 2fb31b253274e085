use ttymap_tui::cell_size::CellPixelSize;
use ttymap_tui::frame::{MapCell, MapFrame};
use ttymap_tui::sixel::{encode_sixel, frame_to_sixel};

/// Reads the digits at `i`, returning the number and the index after them.
fn number_at(chars: &[char], mut i: usize) -> (usize, usize) {
    let mut n = 0usize;
    while i < chars.len() && chars[i].is_ascii_digit() {
        n = n * 10 + (chars[i] as usize - '0' as usize);
        i += 1;
    }
    (n, i)
}

/// Decodes a sixel sequence into the painted pixels, in order, as
/// (column, row, colour register).
fn paint(sixel: &str) -> Vec<(usize, usize, usize)> {
    let chars: Vec<char> = sixel.chars().collect();
    assert!(chars.starts_with(&['\x1b', 'P', 'q']));
    assert!(chars.ends_with(&['\x1b', '\\']));
    let body = &chars[3..chars.len() - 2];
    let mut i = 0;
    if body[0] == '"' {
        while i < body.len() && body[i] != '#' {
            i += 1;
        }
    }
    let (mut color, mut x, mut band) = (0usize, 0usize, 0usize);
    let mut out = Vec::new();
    while i < body.len() {
        let ch = body[i];
        match ch {
            '#' => {
                let (n, next) = number_at(body, i + 1);
                i = next;
                if i < body.len() && body[i] == ';' {
                    // A register definition `#n;2;r;g;b`.
                    for _ in 0..4 {
                        let (_, next) = number_at(body, i + 1);
                        i = next;
                    }
                } else {
                    color = n;
                }
            }
            '$' => {
                x = 0;
                i += 1;
            }
            '-' => {
                x = 0;
                band += 1;
                i += 1;
            }
            '!' => {
                let (n, next) = number_at(body, i + 1);
                let data = body[next] as usize - 63;
                for _ in 0..n {
                    for k in 0..6 {
                        if data & (1 << k) != 0 {
                            out.push((x, band * 6 + k, color));
                        }
                    }
                    x += 1;
                }
                i = next + 1;
            }
            '?'..='~' => {
                let data = ch as usize - 63;
                for k in 0..6 {
                    if data & (1 << k) != 0 {
                        out.push((x, band * 6 + k, color));
                    }
                }
                x += 1;
                i += 1;
            }
            _ => i += 1,
        }
    }
    out
}

fn assert_paints_exactly(sixel: &str, image: &[Vec<usize>]) {
    let mut painted = paint(sixel);
    painted.sort();
    let mut expected = Vec::new();
    for (y, row) in image.iter().enumerate() {
        for (x, &c) in row.iter().enumerate() {
            expected.push((x, y, c));
        }
    }
    expected.sort();
    assert_eq!(painted, expected);
}

#[test]
fn decoded_sixel_paints_each_background_pixel_once() {
    let frame = MapFrame {
        cells: vec![MapCell { ch: ' ', fg: 1, bg: 4 }, MapCell { ch: ' ', fg: 1, bg: 9 }],
        cols: 2,
        rows: 1,
    };
    let sixel = frame_to_sixel(&frame, CellPixelSize::new(2, 3));
    let row = vec![4, 4, 9, 9];
    assert_paints_exactly(&sixel, &[row.clone(), row.clone(), row]);
}

#[test]
fn decoded_sixel_paints_braille_dots_in_foreground_across_bands() {
    // A full pattern over a blank one, cells 2 by 4 pixels: the image is
    // 2 wide and 8 high, so it takes two bands.
    let frame = MapFrame {
        cells: vec![MapCell { ch: '\u{28ff}', fg: 196, bg: 16 }, MapCell { ch: '\u{2800}', fg: 21, bg: 232 }],
        cols: 1,
        rows: 2,
    };
    let sixel = frame_to_sixel(&frame, CellPixelSize::new(2, 4));
    let mut image = vec![vec![196, 196]; 4];
    image.extend(vec![vec![232, 232]; 4]);
    assert_paints_exactly(&sixel, &image);
}

#[test]
fn decoded_sixel_of_wide_uniform_row_uses_runs() {
    let frame = MapFrame { cells: vec![MapCell { ch: 'x', fg: 3, bg: 7 }; 3], cols: 3, rows: 1 };
    let sixel = frame_to_sixel(&frame, CellPixelSize::new(4, 1));
    assert!(sixel.contains("!12"));
    assert_paints_exactly(&sixel, &[vec![7; 12]]);
}

#[test]
fn decoded_encoding_of_raw_pixels_is_the_image() {
    // 3 wide, 7 high: a full band and a band of one row.
    let pixels: Vec<u8> = (0..21u8).map(|i| i % 4).collect();
    let sixel = encode_sixel(&pixels, 3, 7);
    let image: Vec<Vec<usize>> =
        (0..7).map(|y| (0..3).map(|x| pixels[y * 3 + x] as usize).collect()).collect();
    assert_paints_exactly(&sixel, &image);
}

#[test]
fn encoding_of_empty_image_paints_nothing() {
    assert_eq!(encode_sixel(&[], 0, 0), "\x1bPq\"1;1;0;0\x1b\\");
    assert!(paint(&encode_sixel(&[], 0, 5)).is_empty());
}

#[test]
fn zero_cell_dimension_is_raised_to_one() {
    let frame = MapFrame {
        cells: vec![MapCell { ch: '\u{28ff}', fg: 196, bg: 16 }, MapCell { ch: 'a', fg: 1, bg: 2 }],
        cols: 2,
        rows: 1,
    };
    let raised = frame_to_sixel(&frame, CellPixelSize::new(1, 3));
    assert_eq!(frame_to_sixel(&frame, CellPixelSize::new(0, 3)), raised);
    assert!(raised.starts_with("\x1bPq\"1;1;2;3"));
    assert_eq!(frame_to_sixel(&frame, CellPixelSize::new(0, 0)), frame_to_sixel(&frame, CellPixelSize::new(1, 1)));
    assert!(frame_to_sixel(&frame, CellPixelSize::new(5, 0)).starts_with("\x1bPq\"1;1;10;1"));
}
