//! Serialisation of an indexed-colour pixel image as a sixel (DEC
//! graphics) escape sequence.
//!
//! The image is a row-major `width * height` buffer of xterm colour
//! indices. The sequence opens with `ESC P q` and the raster attributes
//! `"1;1;<width>;<height>`, defines one colour register per colour in
//! use (ascending, as RGB percentages), then writes the image in bands
//! of six pixel rows: per band, one line per colour that occurs in it
//! (`#<colour>` and the run-length compressed column characters), lines
//! separated by `$`, bands separated by `-`. It closes with `ESC \`.

use vstd::prelude::*;
use crate::palette::{percent_of, rgb_to_percent, xterm_rgb, xterm_to_rgb};
use crate::rle::{expand_runs, is_plain, lemma_rle_round_trip, push_rle, rle};
use crate::text::{decimal, push_chars, push_decimal, string_from_chars};
use crate::cell_size::{lemma_normalized, CellPixelSize};
use crate::frame::{MapCell, MapFrame};
use crate::raster::{rasterize, raster_image};
use crate::color_set::used_colors;

verus! {

/// Colours below `n` that occur in `p`, ascending.
pub open spec fn colors_below(p: Seq<u8>, n: nat) -> Seq<u8>
    decreases n,
{
    if n == 0 {
        Seq::empty()
    } else {
        let c = (n - 1) as u8;
        colors_below(p, (n - 1) as nat) + if p.contains(c) {
            seq![c]
        } else {
            Seq::empty()
        }
    }
}

/// The distinct colours of an image, ascending.
pub open spec fn used_color_set(p: Seq<u8>) -> Seq<u8> {
    colors_below(p, 256)
}

/// Sixel colour register definition `#<c>;2;<r>;<g>;<b>` (percentages).
pub open spec fn register_text(c: u8) -> Seq<char> {
    let (r, g, b) = xterm_rgb(c);
    seq!['#'] + decimal(c as nat) + seq![';', '2', ';'] + decimal(percent_of(r) as nat) + seq![';']
        + decimal(percent_of(g) as nat) + seq![';'] + decimal(percent_of(b) as nat)
}

/// Register definitions of `cs`, in order.
pub open spec fn registers_text(cs: Seq<u8>) -> Seq<char>
    decreases cs.len(),
{
    if cs.len() == 0 {
        Seq::empty()
    } else {
        registers_text(cs.drop_last()) + register_text(cs.last())
    }
}

/// The pixel at column `x`, row `y`.
pub open spec fn pixel_at(p: Seq<u8>, w: nat, x: int, y: int) -> u8 {
    p[y * w + x]
}

/// Bits `0..k` of the sixel for column `x` of band `g` and colour `c`:
/// bit `k` is set when row `6g + k` exists and holds colour `c`.
pub open spec fn band_bits(p: Seq<u8>, w: nat, h: nat, g: nat, x: int, c: u8, k: nat) -> u8
    decreases k,
{
    if k == 0 {
        0
    } else {
        let prev = band_bits(p, w, h, g, x, c, (k - 1) as nat);
        if band_hit(p, w, h, g, x, c, k - 1) {
            prev | (1u8 << ((k - 1) as u8))
        } else {
            prev
        }
    }
}

/// Whether row `6g + k` holds colour `c` at column `x`.
pub open spec fn band_hit(p: Seq<u8>, w: nat, h: nat, g: nat, x: int, c: u8, k: int) -> bool {
    g * 6 + k < h && pixel_at(p, w, x, g * 6 + k) == c
}

/// The sixel character for six bits.
pub open spec fn sixel_char(bits: u8) -> char {
    (63 + bits) as char
}

/// Sixel characters of band `g` for colour `c`, one per column.
pub open spec fn column_chars(p: Seq<u8>, w: nat, h: nat, g: nat, c: u8) -> Seq<char> {
    Seq::new(w, |x: int| sixel_char(band_bits(p, w, h, g, x, c, 6)))
}

/// Whether colour `c` occurs in band `g`.
pub open spec fn band_has(p: Seq<u8>, w: nat, h: nat, g: nat, c: u8) -> bool {
    exists|x: int, k: int| 0 <= x < w && 0 <= k < 6 && band_hit(p, w, h, g, x, c, k)
}

/// One colour's line of band `g`.
pub open spec fn color_line(p: Seq<u8>, w: nat, h: nat, g: nat, c: u8) -> Seq<char> {
    seq!['#'] + decimal(c as nat) + rle(column_chars(p, w, h, g, c))
}

/// Lines of band `g` for those colours of `cs` that occur in it, in order.
pub open spec fn band_lines(p: Seq<u8>, w: nat, h: nat, g: nat, cs: Seq<u8>) -> Seq<Seq<char>>
    decreases cs.len(),
{
    if cs.len() == 0 {
        Seq::empty()
    } else {
        band_lines(p, w, h, g, cs.drop_last()) + if band_has(p, w, h, g, cs.last()) {
            seq![color_line(p, w, h, g, cs.last())]
        } else {
            Seq::empty()
        }
    }
}

/// `lines` joined with `$`.
pub open spec fn join_lines(lines: Seq<Seq<char>>) -> Seq<char>
    decreases lines.len(),
{
    if lines.len() == 0 {
        Seq::empty()
    } else if lines.len() == 1 {
        lines[0]
    } else {
        join_lines(lines.drop_last()) + seq!['$'] + lines.last()
    }
}

/// Number of six-row bands of an image `h` rows high.
pub open spec fn band_count(h: nat) -> nat {
    (h + 5) / 6
}

/// Text of band `g`, with the `-` that separates it from the next.
pub open spec fn band_text(p: Seq<u8>, w: nat, h: nat, g: nat) -> Seq<char> {
    join_lines(band_lines(p, w, h, g, used_color_set(p))) + if g + 1 < band_count(h) {
        seq!['-']
    } else {
        Seq::empty()
    }
}

/// Text of bands `0..n`.
pub open spec fn bands_text(p: Seq<u8>, w: nat, h: nat, n: nat) -> Seq<char>
    decreases n,
{
    if n == 0 {
        Seq::empty()
    } else {
        bands_text(p, w, h, (n - 1) as nat) + band_text(p, w, h, (n - 1) as nat)
    }
}

/// `ESC P q "1;1;<w>;<h>`.
pub open spec fn sixel_header(w: nat, h: nat) -> Seq<char> {
    seq!['\x1b', 'P', 'q', '"', '1', ';', '1', ';'] + decimal(w) + seq![';'] + decimal(h)
}

/// The complete sixel sequence of the image `p`, `w` by `h` pixels.
pub open spec fn sixel_image(p: Seq<u8>, w: nat, h: nat) -> Seq<char> {
    sixel_header(w, h) + registers_text(used_color_set(p)) + bands_text(p, w, h, band_count(h))
        + seq!['\x1b', '\\']
}

proof fn lemma_or_bit(b: u8, k: u8)
    requires
        b < 64,
        k < 6,
    ensures
        (b | (1u8 << k)) < 64,
        (b | (1u8 << k)) != 0,
{
    assert(b < 64 && k < 6 ==> (b | (1u8 << k)) < 64 && (b | (1u8 << k)) != 0) by (bit_vector);
}

/// The bits below `k` are zero exactly when none of the rows `6g..6g+k`
/// holds the colour; they stay below 64.
pub(crate) proof fn lemma_band_bits(p: Seq<u8>, w: nat, h: nat, g: nat, x: int, c: u8, k: nat)
    requires
        k <= 6,
    ensures
        band_bits(p, w, h, g, x, c, k) < 64,
        band_bits(p, w, h, g, x, c, k) != 0 <==> exists|j: int|
            0 <= j < k && band_hit(p, w, h, g, x, c, j),
    decreases k,
{
    if k > 0 {
        lemma_band_bits(p, w, h, g, x, c, (k - 1) as nat);
        let prev = band_bits(p, w, h, g, x, c, (k - 1) as nat);
        if band_hit(p, w, h, g, x, c, k - 1) {
            lemma_or_bit(prev, (k - 1) as u8);
        } else {
            assert forall|j: int| 0 <= j < k && band_hit(p, w, h, g, x, c, j) implies j < k
                - 1 by {}
        }
    }
}

pub(crate) proof fn lemma_index_in_image(w: nat, h: nat, x: nat, y: nat)
    requires
        x < w,
        y < h,
    ensures
        y * w + x < h * w,
{
    assert(y * w + x < h * w) by (nonlinear_arith)
        requires
            x < w,
            y < h,
    ;
}

/// Appends the colour register definition of `color`.
fn push_register(out: &mut Vec<char>, color: u8)
    ensures
        final(out)@ == old(out)@ + register_text(color),
{
    let (r, g, b) = xterm_to_rgb(color);
    let hash: [char; 1] = ['#'];
    let rgb_mode: [char; 3] = [';', '2', ';'];
    let sep: [char; 1] = [';'];
    push_chars(out, &hash);
    push_decimal(out, color as usize);
    push_chars(out, &rgb_mode);
    push_decimal(out, rgb_to_percent(r) as usize);
    push_chars(out, &sep);
    push_decimal(out, rgb_to_percent(g) as usize);
    push_chars(out, &sep);
    push_decimal(out, rgb_to_percent(b) as usize);
    assert(hash@ =~= seq!['#']);
    assert(rgb_mode@ =~= seq![';', '2', ';']);
    assert(sep@ =~= seq![';']);
    assert(out@ =~= old(out)@ + register_text(color));
}

/// Sixel characters of band `group` for `color`, and whether the colour
/// occurs in the band at all.
fn band_columns(pixels: &[u8], width: usize, height: usize, group: usize, color: u8) -> (res: (
    Vec<char>,
    bool,
))
    requires
        pixels@.len() == width * height,
        width * height <= usize::MAX,
        group < band_count(height as nat),
        height + 5 <= usize::MAX,
    ensures
        res.0@ == column_chars(pixels@, width as nat, height as nat, group as nat, color),
        res.1 == band_has(pixels@, width as nat, height as nat, group as nat, color),
{
    let ghost p = pixels@;
    let ghost w = width as nat;
    let ghost h = height as nat;
    let ghost g = group as nat;
    let mut chars: Vec<char> = Vec::with_capacity(width);
    let mut any = false;
    for x in 0..width
        invariant
            p == pixels@,
            w == width,
            h == height,
            g == group,
            pixels@.len() == width * height,
            width * height <= usize::MAX,
            group < band_count(height as nat),
            height + 5 <= usize::MAX,
            chars@ == Seq::new(x as nat, |i: int| sixel_char(band_bits(p, w, h, g, i, color, 6))),
            any == exists|i: int, k: int|
                0 <= i < x && 0 <= k < 6 && band_hit(p, w, h, g, i, color, k),
    {
        let mut bits: u8 = 0;
        let ghost any_before = any;
        for bit in 0..6u8
            invariant
                p == pixels@,
                w == width,
                h == height,
                g == group,
                pixels@.len() == width * height,
                width * height <= usize::MAX,
                group < band_count(height as nat),
                height + 5 <= usize::MAX,
                x < width,
                bits == band_bits(p, w, h, g, x as int, color, bit as nat),
                bits < 64,
                any == (any_before || exists|k: int|
                    0 <= k < bit && band_hit(p, w, h, g, x as int, color, k)),
        {
            assert(group * 6 + 5 <= height + 4);
            let y = group * 6 + bit as usize;
            if y < height {
                proof {
                    lemma_index_in_image(w, h, x as nat, y as nat);
                }
                if pixels[y * width + x] == color {
                    proof {
                        lemma_or_bit(bits, bit);
                    }
                    bits = bits | (1u8 << bit);
                    any = true;
                }
            }
            proof {
                assert(band_hit(p, w, h, g, x as int, color, bit as int) == (y < height
                    && pixels@[y * width + x] == color));
            }
        }
        proof {
            lemma_band_bits(p, w, h, g, x as int, color, 6);
        }
        chars.push((63u8 + bits) as char);
        proof {
            assert(chars@ =~= Seq::new(
                (x + 1) as nat,
                |i: int| sixel_char(band_bits(p, w, h, g, i, color, 6)),
            ));
            assert(any == exists|i: int, k: int|
                0 <= i < x + 1 && 0 <= k < 6 && band_hit(p, w, h, g, i, color, k)) by {
                if any {
                    if !any_before {
                        let k = choose|k: int|
                            0 <= k < 6 && band_hit(p, w, h, g, x as int, color, k);
                        assert(0 <= x < x + 1 && 0 <= k < 6 && band_hit(p, w, h, g, x as int, color, k));
                    }
                } else {
                    assert forall|i: int, k: int|
                        0 <= i < x + 1 && 0 <= k < 6 implies !band_hit(p, w, h, g, i, color, k) by {
                        if i == x {
                        }
                    }
                }
            }
        }
    }
    (chars, any)
}


/// Text of band `group`: the lines of the colours in `used` that occur
/// in the band, joined with `$`.
fn band_body(pixels: &[u8], width: usize, height: usize, group: usize, used: &Vec<u8>) -> (band:
    Vec<char>)
    requires
        pixels@.len() == width * height,
        width * height <= usize::MAX,
        group < band_count(height as nat),
        height + 5 <= usize::MAX,
    ensures
        band@ == join_lines(
            band_lines(pixels@, width as nat, height as nat, group as nat, used@),
        ),
{
    let ghost p = pixels@;
    let ghost w = width as nat;
    let ghost h = height as nat;
    let ghost g = group as nat;
    let mut band: Vec<char> = Vec::new();
    let mut has_line = false;
    let n = used.len();
    assert(used@.take(0) =~= Seq::<u8>::empty());
    for i in 0..n
        invariant
            p == pixels@,
            w == width,
            h == height,
            g == group,
            n == used@.len(),
            pixels@.len() == width * height,
            width * height <= usize::MAX,
            group < band_count(height as nat),
            height + 5 <= usize::MAX,
            band@ == join_lines(band_lines(p, w, h, g, used@.take(i as int))),
            has_line == (band_lines(p, w, h, g, used@.take(i as int)).len() > 0),
    {
        let color = used[i];
        let (chars, any) = band_columns(pixels, width, height, group, color);
        let ghost prev_lines = band_lines(p, w, h, g, used@.take(i as int));
        let ghost line = color_line(p, w, h, g, color);
        if any {
            let ghost before = band@;
            if has_line {
                band.push('$');
            }
            band.push('#');
            push_decimal(&mut band, color as usize);
            push_rle(&mut band, chars.as_slice());
            has_line = true;
            proof {
                assert(band@ =~= before + (if prev_lines.len() > 0 {
                    seq!['$']
                } else {
                    Seq::<char>::empty()
                }) + line);
            }
        }
        proof {
            let next = used@.take(i + 1);
            assert(next.drop_last() =~= used@.take(i as int));
            assert(next.last() == color);
            let lines = band_lines(p, w, h, g, next);
            if any {
                assert(lines =~= prev_lines.push(line));
                assert(lines.drop_last() =~= prev_lines);
                if prev_lines.len() == 0 {
                    assert(lines =~= seq![line]);
                }
            } else {
                assert(lines =~= prev_lines);
            }
        }
    }
    assert(used@.take(n as int) =~= used@);
    band
}

/// The sixel sequence of the row-major `width * height` image `pixels`.
pub fn encode_sixel(pixels: &[u8], width: usize, height: usize) -> (sixel: String)
    requires
        pixels@.len() == width * height,
        width * height <= usize::MAX,
        height + 5 <= usize::MAX,
    ensures
        sixel@ == sixel_image(pixels@, width as nat, height as nat),
{
    let ghost p = pixels@;
    let ghost w = width as nat;
    let ghost h = height as nat;
    let used = used_colors(pixels);
    let mut out: Vec<char> = Vec::new();
    let intro: [char; 8] = ['\x1b', 'P', 'q', '"', '1', ';', '1', ';'];
    let sep: [char; 1] = [';'];
    push_chars(&mut out, &intro);
    push_decimal(&mut out, width);
    push_chars(&mut out, &sep);
    push_decimal(&mut out, height);
    assert(intro@ =~= seq!['\x1b', 'P', 'q', '"', '1', ';', '1', ';']);
    assert(sep@ =~= seq![';']);
    assert(out@ =~= sixel_header(w, h));
    let n = used.len();
    assert(used@.take(0) =~= Seq::<u8>::empty());
    for i in 0..n
        invariant
            n == used@.len(),
            out@ == sixel_header(w, h) + registers_text(used@.take(i as int)),
    {
        push_register(&mut out, used[i]);
        assert(used@.take(i + 1).drop_last() =~= used@.take(i as int));
        assert(out@ =~= sixel_header(w, h) + registers_text(used@.take(i + 1)));
    }
    assert(used@.take(n as int) =~= used@);
    let groups = (height + 5) / 6;
    let ghost head = out@;
    for group in 0..groups
        invariant
            p == pixels@,
            w == width,
            h == height,
            groups == band_count(h),
            pixels@.len() == width * height,
            width * height <= usize::MAX,
            height + 5 <= usize::MAX,
            used@ == used_color_set(p),
            head == sixel_header(w, h) + registers_text(used_color_set(p)),
            out@ == head + bands_text(p, w, h, group as nat),
    {
        let band = band_body(pixels, width, height, group, &used);
        push_chars(&mut out, band.as_slice());
        if group + 1 < groups {
            out.push('-');
        }
        assert(out@ =~= head + bands_text(p, w, h, (group + 1) as nat));
    }
    let outro: [char; 2] = ['\x1b', '\\'];
    push_chars(&mut out, &outro);
    assert(outro@ =~= seq!['\x1b', '\\']);
    assert(out@ =~= sixel_image(p, w, h));
    string_from_chars(&out)
}


/// Whether a frame has nothing to draw.
pub open spec fn frame_is_blank(cells: Seq<MapCell>, cols: u16, rows: u16) -> bool {
    cols == 0 || rows == 0 || cells.len() == 0
}

/// Whether the raster of a frame at the given cell size is small enough
/// to hold in memory (at most `isize::MAX` pixels).
pub open spec fn raster_fits(frame: &MapFrame, cell_size: CellPixelSize) -> bool {
    let n = cell_size.spec_normalized();
    frame_is_blank(frame.cells@, frame.cols, frame.rows) || (frame.cols * n.width) * (frame.rows
        * n.height) <= isize::MAX
}

/// The sixel sequence of a frame: empty for a blank frame, otherwise
/// the sixel image of its raster at `cell_size` (a zero dimension raised
/// to one pixel).
pub open spec fn frame_sixel(cells: Seq<MapCell>, cols: u16, rows: u16, cell_size: CellPixelSize) -> Seq<char> {
    if frame_is_blank(cells, cols, rows) {
        Seq::empty()
    } else {
        let n = cell_size.spec_normalized();
        let cw = n.width as int;
        let ch = n.height as int;
        sixel_image(
            raster_image(cells, cols as int, rows as int, cw, ch),
            (cols * cw) as nat,
            (rows * ch) as nat,
        )
    }
}

/// Renders `frame` as a sixel escape sequence, each cell `cell_size`
/// pixels: cells are filled with their background colour and the raised
/// dots of Braille cells painted in their foreground colour.
pub fn frame_to_sixel(frame: &MapFrame, cell_size: CellPixelSize) -> (sixel: String)
    requires
        raster_fits(frame, cell_size),
    ensures
        sixel@ == frame_sixel(frame.cells@, frame.cols, frame.rows, cell_size),
{
    if frame.cols == 0 || frame.rows == 0 || frame.cells.len() == 0 {
        return String::new();
    }
    let cell_size = cell_size.normalized();
    let cols = frame.cols as usize;
    let rows = frame.rows as usize;
    let cw = cell_size.width as usize;
    let ch = cell_size.height as usize;
    proof {
        assert(cols * cw <= (cols * cw) * (rows * ch) && rows * ch <= (cols * cw) * (rows * ch))
            by (nonlinear_arith)
            requires
                cols >= 1,
                rows >= 1,
                cw >= 1,
                ch >= 1,
        ;
    }
    let width = cols * cw;
    let height = rows * ch;
    let pixels = rasterize(frame, cw, ch);
    encode_sixel(pixels.as_slice(), width, height)
}


/// A frame's sixel sequence does not change when a zero dimension of the
/// cell size is raised to one pixel; unless the frame is blank, it opens
/// with the header that gives the raster's size: the columns times the
/// raised cell width, the rows times the raised cell height.
pub proof fn lemma_frame_sixel_cell_size(cells: Seq<MapCell>, cols: u16, rows: u16, cell_size: CellPixelSize)
    ensures
        frame_sixel(cells, cols, rows, cell_size) == frame_sixel(
            cells,
            cols,
            rows,
            cell_size.spec_normalized(),
        ),
        !frame_is_blank(cells, cols, rows) ==> ({
            let n = cell_size.spec_normalized();
            let header = sixel_header((cols * n.width) as nat, (rows * n.height) as nat);
            &&& header.len() <= frame_sixel(cells, cols, rows, cell_size).len()
            &&& frame_sixel(cells, cols, rows, cell_size).subrange(0, header.len() as int) == header
        }),
{
    lemma_normalized(cell_size);
    if !frame_is_blank(cells, cols, rows) {
        let n = cell_size.spec_normalized();
        let cw = n.width as int;
        let ch = n.height as int;
        let p = raster_image(cells, cols as int, rows as int, cw, ch);
        let w = (cols * cw) as nat;
        let h = (rows * ch) as nat;
        let header = sixel_header(w, h);
        let img = sixel_image(p, w, h);
        assert(img.subrange(0, header.len() as int) =~= header);
    }
}

proof fn lemma_or_bit_test(a: u8, j: u8, k: u8)
    requires
        j < 8,
        k < 8,
    ensures
        ((a | (1u8 << j)) & (1u8 << k) != 0) == ((a & (1u8 << k) != 0) || j == k),
        (0u8 & (1u8 << k)) == 0,
{
    assert(j < 8 && k < 8 ==> (((a | (1u8 << j)) & (1u8 << k) != 0) == ((a & (1u8 << k) != 0) || j
        == k))) by (bit_vector);
    assert((0u8 & (1u8 << k)) == 0) by (bit_vector);
}

proof fn lemma_band_bit_k(p: Seq<u8>, w: nat, h: nat, g: nat, x: int, c: u8, n: nat, k: u8)
    requires
        n <= 6,
        k < 6,
    ensures
        (band_bits(p, w, h, g, x, c, n) & (1u8 << k) != 0) == (k < n && band_hit(
            p,
            w,
            h,
            g,
            x,
            c,
            k as int,
        )),
    decreases n,
{
    lemma_or_bit_test(0, 0, k);
    if n > 0 {
        lemma_band_bit_k(p, w, h, g, x, c, (n - 1) as nat, k);
        lemma_or_bit_test(band_bits(p, w, h, g, x, c, (n - 1) as nat), (n - 1) as u8, k);
    }
}

/// Each pixel is encoded once, by its own colour: in band `g`, bit `k`
/// of the sixel for column `x` in the line of colour `c` is set exactly
/// when pixel (`x`, `6g + k`) exists and has colour `c`.
pub proof fn lemma_sixel_bit_is_pixel(p: Seq<u8>, w: nat, h: nat, g: nat, x: int, c: u8, k: u8)
    requires
        k < 6,
    ensures
        (band_bits(p, w, h, g, x, c, 6) & (1u8 << k) != 0) == (g * 6 + k < h && pixel_at(
            p,
            w,
            x,
            g * 6 + k,
        ) == c),
{
    lemma_band_bit_k(p, w, h, g, x, c, 6, k);
}

/// The colours below `n` in the register list are ascending, below `n`,
/// and exactly those below `n` that occur in the image.
proof fn lemma_colors_below(p: Seq<u8>, n: nat)
    requires
        n <= 256,
    ensures
        forall|i: int| 0 <= i < colors_below(p, n).len() ==> (#[trigger] colors_below(p, n)[i]) < n,
        forall|i: int, j: int|
            0 <= i < j < colors_below(p, n).len() ==> colors_below(p, n)[i] < colors_below(p, n)[j],
        forall|c: u8| c < n ==> (colors_below(p, n).contains(c) <==> p.contains(c)),
        forall|c: u8| c >= n ==> !colors_below(p, n).contains(c),
    decreases n,
{
    if n > 0 {
        let m = (n - 1) as nat;
        lemma_colors_below(p, m);
        let prev = colors_below(p, m);
        let cur = colors_below(p, n);
        let c = m as u8;
        assert forall|d: u8| d < n implies (cur.contains(d) <==> p.contains(d)) by {
            if p.contains(c) {
                assert(cur == prev.push(c));
                if d == c {
                    assert(cur[prev.len() as int] == c);
                } else if cur.contains(d) {
                    let k = choose|k: int| 0 <= k < cur.len() && cur[k] == d;
                    assert(k < prev.len());
                    assert(prev[k] == d);
                } else if prev.contains(d) {
                    let k = choose|k: int| 0 <= k < prev.len() && prev[k] == d;
                    assert(cur[k] == d);
                }
            } else {
                assert(cur =~= prev);
            }
        }
        assert forall|d: u8| d >= n implies !cur.contains(d) by {
            if p.contains(c) {
                assert(cur == prev.push(c));
                if cur.contains(d) {
                    let k = choose|k: int| 0 <= k < cur.len() && cur[k] == d;
                    if k < prev.len() {
                        assert(prev[k] == d);
                    }
                }
            } else {
                assert(cur =~= prev);
            }
        }
    }
}

/// Each colour of the image gets exactly one colour register, in
/// ascending order: the register list is strictly increasing and holds
/// exactly the colours that occur in the image.
pub proof fn lemma_registers_cover_image(p: Seq<u8>)
    ensures
        forall|i: int, j: int|
            0 <= i < j < used_color_set(p).len() ==> used_color_set(p)[i] < used_color_set(p)[j],
        forall|c: u8| used_color_set(p).contains(c) <==> p.contains(c),
{
    lemma_colors_below(p, 256);
}

/// Every column character of a band line is a sixel data character
/// (`?` to `~`), and the run-length compressed line expands back to the
/// column characters.
pub proof fn lemma_band_line_decodes(p: Seq<u8>, w: nat, h: nat, g: nat, c: u8)
    ensures
        forall|x: int|
            0 <= x < w ==> 63 <= #[trigger] (column_chars(p, w, h, g, c)[x] as u32) <= 126,
        expand_runs(rle(column_chars(p, w, h, g, c))) == column_chars(p, w, h, g, c),
{
    let cs = column_chars(p, w, h, g, c);
    assert forall|x: int| 0 <= x < w implies 63 <= #[trigger] (cs[x] as u32) <= 126 && is_plain(
        cs[x],
    ) by {
        lemma_band_bits(p, w, h, g, x, c, 6);
        let b = band_bits(p, w, h, g, x, c, 6);
        assert(cs[x] == sixel_char(b));
        assert((63 + b) as char as u32 == 63 + b);
    }
    assert forall|x: int| 0 <= x < cs.len() implies is_plain(#[trigger] cs[x]) by {
        lemma_band_bits(p, w, h, g, x, c, 6);
        let b = band_bits(p, w, h, g, x, c, 6);
        assert((63 + b) as char as u32 == 63 + b);
    }
    lemma_rle_round_trip(cs);
}

} // verus!
