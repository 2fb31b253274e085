//! What a terminal makes of sixel band data, and the proof that the
//! encoder's bands paint exactly the image they were made from.
//!
//! The decoder keeps the current colour, column and band. `#<n>` selects
//! colour `n`; `$` returns to column 0; `-` returns to column 0 of the
//! next band; `!<n><ch>` stands for `n` copies of the data character
//! `ch`; a data character `?` to `~` paints, in the current column, row
//! `6 * band + k` for each set bit `k` of its value less 63, then moves
//! one column right. Anything else is skipped.

use vstd::prelude::*;
use crate::rle::{
    digit_prefix_len, digits_value, is_digit, lemma_decimal_digits, lemma_digit_prefix_len_bound,
    lemma_digit_prefix_of_digits, lemma_run_is_uniform, lemma_run_len_bounds, rle, run_len,
    run_text,
};
use crate::text::decimal;
use crate::sixel::{
    band_bits, band_count, band_has, band_hit, band_lines, band_text, bands_text, color_line,
    column_chars, join_lines, lemma_band_bits, lemma_band_line_decodes, lemma_index_in_image,
    lemma_registers_cover_image, lemma_sixel_bit_is_pixel, pixel_at, registers_text, sixel_char,
    sixel_header, sixel_image, used_color_set,
};

verus! {

/// A sixel data character: `?` (no pixel) to `~` (all six).
pub open spec fn is_sixel_data(ch: char) -> bool {
    63 <= (ch as u32) && (ch as u32) <= 126
}

/// The six bits a data character stands for.
pub open spec fn sixel_value(ch: char) -> u8 {
    ((ch as u32) - 63) as u8
}

/// The pixels, as (column, row, colour), that bits `0..k` of the sixel
/// `b` paint in column `x` of band `g` in colour `c`.
pub open spec fn column_events(b: u8, c: int, x: int, g: int, k: nat) -> Seq<(int, int, int)>
    decreases k,
{
    if k == 0 {
        Seq::empty()
    } else {
        column_events(b, c, x, g, (k - 1) as nat) + if b & (1u8 << ((k - 1) as u8)) != 0 {
            seq![(x, g * 6 + k - 1, c)]
        } else {
            Seq::empty()
        }
    }
}

/// The pixels that `n` copies of the sixel `b` paint from column `x` on.
pub open spec fn run_events(b: u8, n: nat, c: int, x: int, g: int) -> Seq<(int, int, int)>
    decreases n,
{
    if n == 0 {
        Seq::empty()
    } else {
        column_events(b, c, x, g, 6) + run_events(b, (n - 1) as nat, c, x + 1, g)
    }
}

/// The pixels painted, in order, by decoding `s` from colour `c`, column
/// `x` and band `g`.
pub open spec fn decode_sixel(s: Seq<char>, c: int, x: int, g: int) -> Seq<(int, int, int)>
    decreases s.len(),
    via decode_sixel_decreases
{
    if s.len() == 0 {
        Seq::empty()
    } else if s[0] == '#' {
        let k = digit_prefix_len(s.drop_first()) as int;
        decode_sixel(s.skip(1 + k), digits_value(s.subrange(1, 1 + k)) as int, x, g)
    } else if s[0] == '$' {
        decode_sixel(s.drop_first(), c, 0, g)
    } else if s[0] == '-' {
        decode_sixel(s.drop_first(), c, 0, g + 1)
    } else if s[0] == '!' {
        let k = digit_prefix_len(s.drop_first()) as int;
        if 1 + k < s.len() {
            let n = digits_value(s.subrange(1, 1 + k));
            let ch = s[1 + k];
            if is_sixel_data(ch) {
                run_events(sixel_value(ch), n, c, x, g) + decode_sixel(s.skip(2 + k), c, x + n, g)
            } else {
                decode_sixel(s.skip(2 + k), c, x, g)
            }
        } else {
            Seq::empty()
        }
    } else if is_sixel_data(s[0]) {
        column_events(sixel_value(s[0]), c, x, g, 6) + decode_sixel(s.drop_first(), c, x + 1, g)
    } else {
        decode_sixel(s.drop_first(), c, x, g)
    }
}

#[via_fn]
proof fn decode_sixel_decreases(s: Seq<char>, c: int, x: int, g: int) {
    if s.len() > 0 {
        lemma_digit_prefix_len_bound(s.drop_first());
    }
}

/// How many times `e` occurs among the painted pixels `events`.
pub open spec fn paint_count(events: Seq<(int, int, int)>, e: (int, int, int)) -> nat
    decreases events.len(),
{
    if events.len() == 0 {
        0
    } else {
        paint_count(events.drop_last(), e) + if events.last() == e {
            1nat
        } else {
            0nat
        }
    }
}

/// The pixels painted by the data characters `cs` from column `x` on.
spec fn chars_events(cs: Seq<char>, c: int, x: int, g: int) -> Seq<(int, int, int)>
    decreases cs.len(),
{
    if cs.len() == 0 {
        Seq::empty()
    } else {
        column_events(sixel_value(cs[0]), c, x, g, 6) + chars_events(cs.drop_first(), c, x + 1, g)
    }
}

proof fn lemma_count_concat(a: Seq<(int, int, int)>, b: Seq<(int, int, int)>, e: (int, int, int))
    ensures
        paint_count(a + b, e) == paint_count(a, e) + paint_count(b, e),
    decreases b.len(),
{
    if b.len() == 0 {
        assert(a + b =~= a);
    } else {
        assert((a + b).drop_last() =~= a + b.drop_last());
        assert((a + b).last() == b.last());
        lemma_count_concat(a, b.drop_last(), e);
    }
}

proof fn lemma_count_single(v: (int, int, int), e: (int, int, int))
    ensures
        paint_count(seq![v], e) == if v == e {
            1nat
        } else {
            0nat
        },
{
    assert(seq![v].drop_last() =~= Seq::<(int, int, int)>::empty());
    assert(paint_count(seq![v].drop_last(), e) == 0);
    assert(seq![v].last() == v);
}

/// Bits `0..k` of a sixel paint pixel `e` once if it lies in that column
/// and colour and its row's bit is set, and not otherwise.
proof fn lemma_count_column(b: u8, c: int, x: int, g: int, k: nat, e: (int, int, int))
    requires
        k <= 6,
    ensures
        paint_count(column_events(b, c, x, g, k), e) == if e.0 == x && e.2 == c && g * 6 <= e.1
            < g * 6 + k && b & (1u8 << ((e.1 - g * 6) as u8)) != 0 {
            1nat
        } else {
            0nat
        },
    decreases k,
{
    if k > 0 {
        let prev = column_events(b, c, x, g, (k - 1) as nat);
        let v = (x, g * 6 + k - 1, c);
        lemma_count_column(b, c, x, g, (k - 1) as nat, e);
        if b & (1u8 << ((k - 1) as u8)) != 0 {
            lemma_count_concat(prev, seq![v], e);
            lemma_count_single(v, e);
        } else {
            assert(column_events(b, c, x, g, k) =~= prev);
        }
        if e.1 == g * 6 + k - 1 {
            assert((e.1 - g * 6) as u8 == (k - 1) as u8);
        }
    }
}

proof fn lemma_chars_concat(a: Seq<char>, b: Seq<char>, c: int, x: int, g: int)
    ensures
        chars_events(a + b, c, x, g) == chars_events(a, c, x, g) + chars_events(b, c, x + a.len(), g),
    decreases a.len(),
{
    if a.len() == 0 {
        assert(a + b =~= b);
        assert(chars_events(a, c, x, g) =~= Seq::<(int, int, int)>::empty());
        assert(chars_events(a, c, x, g) + chars_events(b, c, x, g) =~= chars_events(b, c, x, g));
    } else {
        assert((a + b)[0] == a[0]);
        assert((a + b).drop_first() =~= a.drop_first() + b);
        lemma_chars_concat(a.drop_first(), b, c, x + 1, g);
        let head = column_events(sixel_value(a[0]), c, x, g, 6);
        assert(head + (chars_events(a.drop_first(), c, x + 1, g) + chars_events(b, c, x + a.len(), g))
            =~= (head + chars_events(a.drop_first(), c, x + 1, g)) + chars_events(b, c, x + a.len(), g));
    }
}

proof fn lemma_chars_uniform(ch: char, n: nat, c: int, x: int, g: int)
    ensures
        chars_events(Seq::new(n, |_i: int| ch), c, x, g) == run_events(sixel_value(ch), n, c, x, g),
    decreases n,
{
    let s = Seq::new(n, |_i: int| ch);
    if n > 0 {
        assert(s.drop_first() =~= Seq::new((n - 1) as nat, |_i: int| ch));
        lemma_chars_uniform(ch, (n - 1) as nat, c, x + 1, g);
    } else {
        assert(chars_events(s, c, x, g) =~= Seq::<(int, int, int)>::empty());
    }
}

/// The events of the data characters `cs`, counted: pixel `e` once if it
/// lies in their columns, in colour `c` and band `g`, and the bit of its
/// row is set in its column's character.
proof fn lemma_count_chars(cs: Seq<char>, c: int, x: int, g: int, e: (int, int, int))
    ensures
        paint_count(chars_events(cs, c, x, g), e) == if x <= e.0 < x + cs.len() && e.2 == c && g
            * 6 <= e.1 < g * 6 + 6 && sixel_value(cs[e.0 - x]) & (1u8 << ((e.1 - g * 6) as u8))
            != 0 {
            1nat
        } else {
            0nat
        },
    decreases cs.len(),
{
    if cs.len() > 0 {
        let head = column_events(sixel_value(cs[0]), c, x, g, 6);
        lemma_count_concat(head, chars_events(cs.drop_first(), c, x + 1, g), e);
        lemma_count_column(sixel_value(cs[0]), c, x, g, 6, e);
        lemma_count_chars(cs.drop_first(), c, x + 1, g, e);
        if x + 1 <= e.0 < x + cs.len() {
            assert(cs.drop_first()[e.0 - (x + 1)] == cs[e.0 - x]);
        }
    } else {
        assert(chars_events(cs, c, x, g) =~= Seq::<(int, int, int)>::empty());
    }
}

proof fn lemma_data_char(ch: char)
    requires
        is_sixel_data(ch),
    ensures
        ch != '#',
        ch != '$',
        ch != '-',
        ch != '!',
        !is_digit(ch),
{
}

/// Decoding `n` literal copies of a data character paints a run.
proof fn lemma_decode_uniform(ch: char, n: nat, rest: Seq<char>, c: int, x: int, g: int)
    requires
        is_sixel_data(ch),
    ensures
        decode_sixel(Seq::new(n, |_i: int| ch) + rest, c, x, g) == run_events(
            sixel_value(ch),
            n,
            c,
            x,
            g,
        ) + decode_sixel(rest, c, x + n, g),
    decreases n,
{
    let t = Seq::new(n, |_i: int| ch) + rest;
    if n > 0 {
        lemma_data_char(ch);
        assert(t[0] == ch);
        assert(t.drop_first() =~= Seq::new((n - 1) as nat, |_i: int| ch) + rest);
        lemma_decode_uniform(ch, (n - 1) as nat, rest, c, x + 1, g);
        let head = column_events(sixel_value(ch), c, x, g, 6);
        assert(head + (run_events(sixel_value(ch), (n - 1) as nat, c, x + 1, g) + decode_sixel(
            rest,
            c,
            x + n,
            g,
        )) =~= (head + run_events(sixel_value(ch), (n - 1) as nat, c, x + 1, g)) + decode_sixel(
            rest,
            c,
            x + n,
            g,
        ));
    } else {
        assert(t =~= rest);
        assert(run_events(sixel_value(ch), n, c, x, g) + decode_sixel(rest, c, x, g) =~= decode_sixel(
            rest,
            c,
            x,
            g,
        ));
    }
}

/// Decoding the text of a run paints the run.
proof fn lemma_decode_run_text(ch: char, n: nat, rest: Seq<char>, c: int, x: int, g: int)
    requires
        is_sixel_data(ch),
    ensures
        decode_sixel(run_text(ch, n) + rest, c, x, g) == run_events(sixel_value(ch), n, c, x, g)
            + decode_sixel(rest, c, x + n, g),
{
    if n >= 4 {
        lemma_data_char(ch);
        let d = decimal(n);
        let t = run_text(ch, n) + rest;
        lemma_decimal_digits(n);
        assert(t =~= seq!['!'] + (d + (seq![ch] + rest)));
        assert(t.drop_first() =~= d + (seq![ch] + rest));
        lemma_digit_prefix_of_digits(d, seq![ch] + rest);
        let k = d.len();
        assert(t.subrange(1, 1 + k as int) =~= d);
        assert(t[1 + k as int] == ch);
        assert(t.skip(2 + k as int) =~= rest);
    } else {
        lemma_decode_uniform(ch, n, rest, c, x, g);
    }
}

/// Decoding run-length compressed data characters paints them one
/// column after another.
proof fn lemma_decode_rle(cs: Seq<char>, rest: Seq<char>, c: int, x: int, g: int)
    requires
        forall|j: int| 0 <= j < cs.len() ==> is_sixel_data(#[trigger] cs[j]),
    ensures
        decode_sixel(rle(cs) + rest, c, x, g) == chars_events(cs, c, x, g) + decode_sixel(
            rest,
            c,
            x + cs.len(),
            g,
        ),
    decreases cs.len(),
{
    if cs.len() == 0 {
        assert(rle(cs) =~= Seq::<char>::empty());
        assert(rle(cs) + rest =~= rest);
        assert(chars_events(cs, c, x, g) =~= Seq::<(int, int, int)>::empty());
        assert(chars_events(cs, c, x, g) + decode_sixel(rest, c, x, g) =~= decode_sixel(
            rest,
            c,
            x,
            g,
        ));
    } else {
        let ch = cs[0];
        let n = run_len(cs, ch);
        lemma_run_len_bounds(cs, ch);
        lemma_run_is_uniform(cs, ch);
        let tail = cs.skip(n as int);
        assert forall|j: int| 0 <= j < tail.len() implies is_sixel_data(#[trigger] tail[j]) by {
            assert(tail[j] == cs[j + n]);
        }
        lemma_decode_rle(tail, rest, c, x + n, g);
        lemma_decode_run_text(ch, n, rle(tail) + rest, c, x, g);
        assert(rle(cs) == run_text(ch, n) + rle(tail));
        assert(rle(cs) + rest =~= run_text(ch, n) + (rle(tail) + rest));
        let run = Seq::new(n, |_i: int| ch);
        assert(cs =~= run + tail);
        lemma_chars_concat(run, tail, c, x, g);
        lemma_chars_uniform(ch, n, c, x, g);
        let re = run_events(sixel_value(ch), n, c, x, g);
        let te = chars_events(tail, c, x + n, g);
        let de = decode_sixel(rest, c, x + n + tail.len(), g);
        assert(re + (te + de) =~= (re + te) + de);
    }
}

/// Compressed data characters start with a character that is no digit.
proof fn lemma_rle_head(cs: Seq<char>)
    requires
        cs.len() > 0,
        forall|j: int| 0 <= j < cs.len() ==> is_sixel_data(#[trigger] cs[j]),
    ensures
        rle(cs).len() > 0,
        !is_digit(rle(cs)[0]),
{
    let ch = cs[0];
    let n = run_len(cs, ch);
    lemma_run_len_bounds(cs, ch);
    lemma_data_char(ch);
    let tail = cs.skip(n as int);
    assert(rle(cs) == run_text(ch, n) + rle(tail));
    if n >= 4 {
        assert(run_text(ch, n)[0] == '!');
    } else {
        assert(run_text(ch, n)[0] == ch);
    }
}

/// The pixels painted by the lines of band `g` for the colours `cs`.
spec fn lines_events(p: Seq<u8>, w: nat, h: nat, g: nat, cs: Seq<u8>) -> Seq<(int, int, int)>
    decreases cs.len(),
{
    if cs.len() == 0 {
        Seq::empty()
    } else {
        lines_events(p, w, h, g, cs.drop_last()) + if band_has(p, w, h, g, cs.last()) {
            chars_events(column_chars(p, w, h, g, cs.last()), cs.last() as int, 0, g as int)
        } else {
            Seq::empty()
        }
    }
}

/// The pixels painted by bands `0..n`.
spec fn bands_events(p: Seq<u8>, w: nat, h: nat, n: nat) -> Seq<(int, int, int)>
    decreases n,
{
    if n == 0 {
        Seq::empty()
    } else {
        bands_events(p, w, h, (n - 1) as nat) + lines_events(
            p,
            w,
            h,
            (n - 1) as nat,
            used_color_set(p),
        )
    }
}

/// Decoding one colour's line of a band, from column 0, paints its
/// column characters and leaves the decoder in that colour at column `w`.
proof fn lemma_decode_line(p: Seq<u8>, w: nat, h: nat, g: nat, col: u8, rest: Seq<char>, c0: int)
    requires
        band_has(p, w, h, g, col),
    ensures
        decode_sixel(color_line(p, w, h, g, col) + rest, c0, 0, g as int) == chars_events(
            column_chars(p, w, h, g, col),
            col as int,
            0,
            g as int,
        ) + decode_sixel(rest, col as int, w as int, g as int),
{
    let cs = column_chars(p, w, h, g, col);
    lemma_band_line_decodes(p, w, h, g, col);
    assert forall|j: int| 0 <= j < cs.len() implies is_sixel_data(#[trigger] cs[j]) by {
        assert(63 <= (cs[j] as u32) <= 126);
    }
    let (x0, k0) = choose|x: int, k: int| 0 <= x < w && 0 <= k < 6 && band_hit(p, w, h, g, x, col, k);
    assert(cs.len() == w && w > 0);
    lemma_rle_head(cs);
    let d = decimal(col as nat);
    lemma_decimal_digits(col as nat);
    let body = rle(cs) + rest;
    assert(body[0] == rle(cs)[0]);
    let t = color_line(p, w, h, g, col) + rest;
    assert(t =~= seq!['#'] + (d + body));
    assert(t.drop_first() =~= d + body);
    lemma_digit_prefix_of_digits(d, body);
    let k = d.len() as int;
    assert(t.subrange(1, 1 + k) =~= d);
    assert(t.skip(1 + k) =~= body);
    lemma_decode_rle(cs, rest, col as int, 0, g as int);
}

proof fn lemma_no_lines(p: Seq<u8>, w: nat, h: nat, g: nat, cs: Seq<u8>)
    requires
        band_lines(p, w, h, g, cs).len() == 0,
    ensures
        lines_events(p, w, h, g, cs) == Seq::<(int, int, int)>::empty(),
    decreases cs.len(),
{
    if cs.len() > 0 {
        lemma_no_lines(p, w, h, g, cs.drop_last());
        assert(lines_events(p, w, h, g, cs) =~= Seq::<(int, int, int)>::empty());
    }
}

/// Decoding the lines of a band from column 0 paints each line in turn;
/// it ends in the colour of the last line, at column `w`.
proof fn lemma_decode_lines(
    p: Seq<u8>,
    w: nat,
    h: nat,
    g: nat,
    cs: Seq<u8>,
    rest: Seq<char>,
    c0: int,
) -> (c1: int)
    requires
        band_lines(p, w, h, g, cs).len() > 0,
    ensures
        decode_sixel(join_lines(band_lines(p, w, h, g, cs)) + rest, c0, 0, g as int) == lines_events(
            p,
            w,
            h,
            g,
            cs,
        ) + decode_sixel(rest, c1, w as int, g as int),
    decreases cs.len(),
{
    let lines = band_lines(p, w, h, g, cs);
    let drop = cs.drop_last();
    let l = cs.last();
    let prev = band_lines(p, w, h, g, drop);
    let pe = lines_events(p, w, h, g, drop);
    if band_has(p, w, h, g, l) {
        let line = color_line(p, w, h, g, l);
        let ce = chars_events(column_chars(p, w, h, g, l), l as int, 0, g as int);
        assert(lines =~= prev.push(line));
        lemma_decode_line(p, w, h, g, l, rest, c0);
        if prev.len() == 0 {
            lemma_no_lines(p, w, h, g, drop);
            assert(lines =~= seq![line]);
            assert(join_lines(lines) == line);
            assert(lines_events(p, w, h, g, cs) =~= ce);
            l as int
        } else {
            assert(lines.drop_last() =~= prev);
            assert(lines.last() == line);
            let after = seq!['$'] + line + rest;
            let c1 = lemma_decode_lines(p, w, h, g, drop, after, c0);
            assert(join_lines(lines) + rest =~= join_lines(prev) + after);
            assert(after.drop_first() =~= line + rest);
            lemma_decode_line(p, w, h, g, l, rest, c1);
            let de = decode_sixel(rest, l as int, w as int, g as int);
            assert(pe + (ce + de) =~= (pe + ce) + de);
            l as int
        }
    } else {
        assert(lines =~= prev);
        assert(lines_events(p, w, h, g, cs) =~= pe);
        lemma_decode_lines(p, w, h, g, drop, rest, c0)
    }
}

/// Decoding band `g` from column 0 paints its lines; unless it is the
/// last band, its `-` then moves the decoder to column 0 of band `g + 1`.
proof fn lemma_decode_band(p: Seq<u8>, w: nat, h: nat, g: nat, rest: Seq<char>, c0: int) -> (c1:
    int)
    requires
        g < band_count(h),
    ensures
        g + 1 < band_count(h) ==> decode_sixel(band_text(p, w, h, g) + rest, c0, 0, g as int)
            == lines_events(p, w, h, g, used_color_set(p)) + decode_sixel(rest, c1, 0, g + 1int),
        g + 1 == band_count(h) ==> decode_sixel(band_text(p, w, h, g), c0, 0, g as int)
            == lines_events(p, w, h, g, used_color_set(p)),
{
    let used = used_color_set(p);
    let lines = band_lines(p, w, h, g, used);
    let joined = join_lines(lines);
    let le = lines_events(p, w, h, g, used);
    let empty = Seq::<char>::empty();
    if lines.len() == 0 {
        lemma_no_lines(p, w, h, g, used);
        assert(joined =~= empty);
    }
    if g + 1 < band_count(h) {
        let after = seq!['-'] + rest;
        assert(band_text(p, w, h, g) + rest =~= joined + after);
        assert(after.drop_first() =~= rest);
        if lines.len() > 0 {
            let c1 = lemma_decode_lines(p, w, h, g, used, after, c0);
            c1
        } else {
            assert(joined + after =~= after);
            assert(le + decode_sixel(rest, c0, 0, g + 1int) =~= decode_sixel(rest, c0, 0, g + 1int));
            c0
        }
    } else {
        assert(band_text(p, w, h, g) =~= joined + empty);
        if lines.len() > 0 {
            let c1 = lemma_decode_lines(p, w, h, g, used, empty, c0);
            assert(le + decode_sixel(empty, c1, w as int, g as int) =~= le);
            c1
        } else {
            assert(decode_sixel(joined + empty, c0, 0, g as int) =~= le);
            c0
        }
    }
}

proof fn lemma_decode_bands(p: Seq<u8>, w: nat, h: nat, n: nat, rest: Seq<char>, c0: int) -> (c1:
    int)
    requires
        n < band_count(h),
    ensures
        decode_sixel(bands_text(p, w, h, n) + rest, c0, 0, 0) == bands_events(p, w, h, n)
            + decode_sixel(rest, c1, 0, n as int),
    decreases n,
{
    if n == 0 {
        assert(bands_text(p, w, h, n) + rest =~= rest);
        assert(bands_events(p, w, h, n) + decode_sixel(rest, c0, 0, 0) =~= decode_sixel(
            rest,
            c0,
            0,
            0,
        ));
        c0
    } else {
        let m = (n - 1) as nat;
        let bt = band_text(p, w, h, m);
        let c = lemma_decode_bands(p, w, h, m, bt + rest, c0);
        assert(bands_text(p, w, h, n) + rest =~= bands_text(p, w, h, m) + (bt + rest));
        let c1 = lemma_decode_band(p, w, h, m, rest, c);
        let be = bands_events(p, w, h, m);
        let le = lines_events(p, w, h, m, used_color_set(p));
        let de = decode_sixel(rest, c1, 0, n as int);
        assert(be + (le + de) =~= (be + le) + de);
        c1
    }
}

proof fn lemma_decode_all_bands(p: Seq<u8>, w: nat, h: nat)
    ensures
        decode_sixel(bands_text(p, w, h, band_count(h)), 0, 0, 0) == bands_events(
            p,
            w,
            h,
            band_count(h),
        ),
{
    let n = band_count(h);
    if n > 0 {
        let m = (n - 1) as nat;
        let bt = band_text(p, w, h, m);
        let c = lemma_decode_bands(p, w, h, m, bt, 0);
        lemma_decode_band(p, w, h, m, Seq::<char>::empty(), c);
    } else {
        assert(decode_sixel(bands_text(p, w, h, n), 0, 0, 0) =~= bands_events(p, w, h, n));
    }
}

/// Pixel `e` lies in band `g` of the image and has the colour `e.2`.
spec fn band_pixel(p: Seq<u8>, w: nat, h: nat, g: nat, e: (int, int, int)) -> bool {
    0 <= e.0 < w && g * 6 <= e.1 < g * 6 + 6 && e.1 < h && pixel_at(p, w, e.0, e.1) == e.2
}

proof fn lemma_count_lines(p: Seq<u8>, w: nat, h: nat, g: nat, cs: Seq<u8>, e: (int, int, int))
    requires
        forall|i: int, j: int| 0 <= i < j < cs.len() ==> cs[i] < cs[j],
    ensures
        paint_count(lines_events(p, w, h, g, cs), e) == if band_pixel(p, w, h, g, e) && cs.contains(
            pixel_at(p, w, e.0, e.1),
        ) {
            1nat
        } else {
            0nat
        },
    decreases cs.len(),
{
    if cs.len() == 0 {
        assert(lines_events(p, w, h, g, cs) =~= Seq::<(int, int, int)>::empty());
    } else {
        let drop = cs.drop_last();
        let l = cs.last();
        assert forall|i: int, j: int| 0 <= i < j < drop.len() implies drop[i] < drop[j] by {
            assert(drop[i] == cs[i] && drop[j] == cs[j]);
        }
        lemma_count_lines(p, w, h, g, drop, e);
        let colchars = column_chars(p, w, h, g, l);
        let x_part = if band_has(p, w, h, g, l) {
            chars_events(colchars, l as int, 0, g as int)
        } else {
            Seq::<(int, int, int)>::empty()
        };
        lemma_count_concat(lines_events(p, w, h, g, drop), x_part, e);
        let inside = 0 <= e.0 < w && g * 6 <= e.1 < g * 6 + 6;
        if inside {
            let k = (e.1 - g * 6) as u8;
            lemma_sixel_bit_is_pixel(p, w, h, g, e.0, l, k);
            lemma_band_bits(p, w, h, g, e.0, l, 6);
            let b = band_bits(p, w, h, g, e.0, l, 6);
            assert(colchars[e.0] == sixel_char(b));
            assert((63 + b) as char as u32 == 63 + b);
            assert(sixel_value(colchars[e.0]) == b);
            assert(g * 6 + k == e.1);
        }
        if band_has(p, w, h, g, l) {
            lemma_count_chars(colchars, l as int, 0, g as int, e);
        } else {
            assert(paint_count(x_part, e) == 0);
            if band_pixel(p, w, h, g, e) && e.2 == l {
                assert(band_hit(p, w, h, g, e.0, l, e.1 - g * 6));
            }
        }
        let pix = pixel_at(p, w, e.0, e.1);
        if band_pixel(p, w, h, g, e) {
            if pix == l {
                assert(cs[cs.len() - 1] == l);
                if drop.contains(l) {
                    let i = choose|i: int| 0 <= i < drop.len() && drop[i] == l;
                    assert(cs[i] < cs[cs.len() - 1]);
                }
            } else {
                if cs.contains(pix) {
                    let i = choose|i: int| 0 <= i < cs.len() && cs[i] == pix;
                    assert(i < drop.len());
                    assert(drop[i] == pix);
                }
                if drop.contains(pix) {
                    let i = choose|i: int| 0 <= i < drop.len() && drop[i] == pix;
                    assert(cs[i] == pix);
                }
            }
        }
    }
}

proof fn lemma_count_bands(p: Seq<u8>, w: nat, h: nat, n: nat, e: (int, int, int))
    requires
        p.len() == w * h,
    ensures
        paint_count(bands_events(p, w, h, n), e) == if 0 <= e.0 < w && 0 <= e.1 < h && e.1 < n * 6
            && pixel_at(p, w, e.0, e.1) == e.2 {
            1nat
        } else {
            0nat
        },
    decreases n,
{
    if n == 0 {
        assert(bands_events(p, w, h, n) =~= Seq::<(int, int, int)>::empty());
    } else {
        let m = (n - 1) as nat;
        let used = used_color_set(p);
        lemma_count_bands(p, w, h, m, e);
        lemma_registers_cover_image(p);
        lemma_count_lines(p, w, h, m, used, e);
        lemma_count_concat(bands_events(p, w, h, m), lines_events(p, w, h, m, used), e);
        if 0 <= e.0 < w && 0 <= e.1 < h {
            lemma_index_in_image(w, h, e.0 as nat, e.1 as nat);
            let i = e.1 * w + e.0;
            assert(h * w == w * h && 0 <= e.1 * w) by (nonlinear_arith)
                requires
                    0 <= e.1,
            ;
            assert(0 <= i < p.len());
            assert(p[i] == pixel_at(p, w, e.0, e.1));
            assert(p.contains(pixel_at(p, w, e.0, e.1)));
        }
    }
}

/// The band data of an image's sixel sequence (what follows the header
/// and the colour registers, up to the closing `ESC \`) decodes back to
/// the image: starting at column 0 of band 0,
/// the decoder paints every pixel (`x`, `y`) of the `w` by `h` image
/// exactly once, in its own colour, and paints nothing else.
pub proof fn lemma_sixel_decodes_to_image(p: Seq<u8>, w: nat, h: nat)
    requires
        p.len() == w * h,
    ensures
        sixel_image(p, w, h) == sixel_header(w, h) + registers_text(used_color_set(p)) + bands_text(
            p,
            w,
            h,
            band_count(h),
        ) + seq!['\x1b', '\\'],
        forall|x: int, y: int, c: int|
            #[trigger] paint_count(decode_sixel(bands_text(p, w, h, band_count(h)), 0, 0, 0), (x, y, c))
                == if 0 <= x < w && 0 <= y < h && pixel_at(p, w, x, y) == c {
                1nat
            } else {
                0nat
            },
{
    lemma_decode_all_bands(p, w, h);
    assert forall|x: int, y: int, c: int|
        #[trigger] paint_count(decode_sixel(bands_text(p, w, h, band_count(h)), 0, 0, 0), (x, y, c))
            == if 0 <= x < w && 0 <= y < h && pixel_at(p, w, x, y) == c {
            1nat
        } else {
            0nat
        } by {
        lemma_count_bands(p, w, h, band_count(h), (x, y, c));
    }
}

} // verus!
