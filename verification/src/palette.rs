//! The xterm 256-colour palette and its conversion to sixel percentages.

use vstd::prelude::*;

verus! {

/// Channel intensity of one step of the 6x6x6 colour cube.
pub open spec fn cube_level(component: int) -> int {
    if component == 0 {
        0
    } else {
        55 + component * 40
    }
}

/// RGB value of an xterm colour index.
pub open spec fn xterm_rgb(idx: u8) -> (u8, u8, u8) {
    if idx == 0 {
        (0x00, 0x00, 0x00)
    } else if idx == 1 {
        (0x80, 0x00, 0x00)
    } else if idx == 2 {
        (0x00, 0x80, 0x00)
    } else if idx == 3 {
        (0x80, 0x80, 0x00)
    } else if idx == 4 {
        (0x00, 0x00, 0x80)
    } else if idx == 5 {
        (0x80, 0x00, 0x80)
    } else if idx == 6 {
        (0x00, 0x80, 0x80)
    } else if idx == 7 {
        (0xc0, 0xc0, 0xc0)
    } else if idx == 8 {
        (0x80, 0x80, 0x80)
    } else if idx == 9 {
        (0xff, 0x00, 0x00)
    } else if idx == 10 {
        (0x00, 0xff, 0x00)
    } else if idx == 11 {
        (0xff, 0xff, 0x00)
    } else if idx == 12 {
        (0x00, 0x00, 0xff)
    } else if idx == 13 {
        (0xff, 0x00, 0xff)
    } else if idx == 14 {
        (0x00, 0xff, 0xff)
    } else if idx == 15 {
        (0xff, 0xff, 0xff)
    } else if idx <= 231 {
        let i = idx - 16;
        (
            cube_level(i / 36) as u8,
            cube_level((i % 36) / 6) as u8,
            cube_level(i % 6) as u8,
        )
    } else {
        let shade = 8 + (idx - 232) * 10;
        (shade as u8, shade as u8, shade as u8)
    }
}

/// A colour channel `0..=255` scaled to the sixel range `0..=100`, rounded down.
pub open spec fn percent_of(v: u8) -> u8 {
    ((v as int * 100) / 255) as u8
}

/// Intensity of one cube step (`component` in `0..=5`).
pub fn cube_value(component: u8) -> (r: u8)
    requires
        component <= 5,
    ensures
        r as int == cube_level(component as int),
{
    if component == 0 {
        0
    } else {
        55 + component * 40
    }
}

/// RGB triple of an xterm colour index: the 16 system colours, the
/// 6x6x6 cube and the 24-step grey ramp.
pub fn xterm_to_rgb(idx: u8) -> (rgb: (u8, u8, u8))
    ensures
        rgb == xterm_rgb(idx),
{
    match idx {
        0 => (0x00, 0x00, 0x00),
        1 => (0x80, 0x00, 0x00),
        2 => (0x00, 0x80, 0x00),
        3 => (0x80, 0x80, 0x00),
        4 => (0x00, 0x00, 0x80),
        5 => (0x80, 0x00, 0x80),
        6 => (0x00, 0x80, 0x80),
        7 => (0xc0, 0xc0, 0xc0),
        8 => (0x80, 0x80, 0x80),
        9 => (0xff, 0x00, 0x00),
        10 => (0x00, 0xff, 0x00),
        11 => (0xff, 0xff, 0x00),
        12 => (0x00, 0x00, 0xff),
        13 => (0xff, 0x00, 0xff),
        14 => (0x00, 0xff, 0xff),
        15 => (0xff, 0xff, 0xff),
        16..=231 => {
            let idx = idx - 16;
            let r = idx / 36;
            let g = (idx % 36) / 6;
            let b = idx % 6;
            (cube_value(r), cube_value(g), cube_value(b))
        },
        232..=255 => {
            let shade = 8 + (idx - 232) * 10;
            (shade, shade, shade)
        },
    }
}

/// Scales a channel to the `0..=100` range that sixel colour registers use.
pub fn rgb_to_percent(v: u8) -> (p: u8)
    ensures
        p == percent_of(v),
        p <= 100,
{
    ((v as u16 * 100) / 255) as u8
}


/// The 6x6x6 colour cube: index `16 + 36r + 6g + b` (each of `r`, `g`,
/// `b` in `0..6`) has the cube levels of `r`, `g` and `b` as channels.
pub proof fn lemma_cube_index(r: int, g: int, b: int)
    requires
        0 <= r < 6,
        0 <= g < 6,
        0 <= b < 6,
    ensures
        xterm_rgb((16 + 36 * r + 6 * g + b) as u8) == (
            cube_level(r) as u8,
            cube_level(g) as u8,
            cube_level(b) as u8,
        ),
{
    let i = 36 * r + 6 * g + b;
    assert(i / 36 == r);
    assert(i % 36 == 6 * g + b);
    assert((i % 36) / 6 == g);
    assert(i % 6 == b);
}

/// The grey ramp: index `232 + k` (`k` in `0..24`) is the grey of level
/// `8 + 10k` on every channel.
pub proof fn lemma_grey_ramp(k: int)
    requires
        0 <= k < 24,
    ensures
        xterm_rgb((232 + k) as u8) == ((8 + 10 * k) as u8, (8 + 10 * k) as u8, (8 + 10 * k) as u8),
{
}

/// Scaling to percentages keeps order, sends 0 to 0 and 255 to 100.
pub proof fn lemma_percent_scale(a: u8, b: u8)
    ensures
        percent_of(0) == 0,
        percent_of(255) == 100,
        a <= b ==> percent_of(a) <= percent_of(b),
        percent_of(a) <= 100,
{
    if a <= b {
        assert((a as int * 100) / 255 <= (b as int * 100) / 255) by (nonlinear_arith)
            requires
                a <= b,
        ;
    }
}

/// The sixteen system colours: colour `i` other than 7 and 8 has red,
/// green and blue switched on by bits 0, 1 and 2 of `i % 8`, at half
/// intensity (0x80) for the normal colours 0 to 6 and full intensity
/// (0xff) for the bright colours 9 to 15; colour 7 is light grey (0xc0)
/// and colour 8 dark grey (0x80).
pub proof fn lemma_system_colors(i: u8)
    requires
        i < 16,
    ensures
        i != 7 && i != 8 ==> ({
            let level: u8 = if i < 8 {
                0x80
            } else {
                0xff
            };
            let bits = i % 8;
            xterm_rgb(i) == (
                if bits % 2 == 1 {
                    level
                } else {
                    0u8
                },
                if (bits / 2) % 2 == 1 {
                    level
                } else {
                    0u8
                },
                if bits / 4 == 1 {
                    level
                } else {
                    0u8
                },
            )
        }),
        i == 7 ==> xterm_rgb(i) == (0xc0u8, 0xc0u8, 0xc0u8),
        i == 8 ==> xterm_rgb(i) == (0x80u8, 0x80u8, 0x80u8),
{
}

/// The levels of the colour cube are the xterm ones: 0 for the first
/// step, 95 for the second, then 40 more for each further step, up to
/// 255 for the last.
pub proof fn lemma_cube_levels(c: int)
    requires
        1 <= c < 5,
    ensures
        cube_level(0) == 0,
        cube_level(1) == 95,
        cube_level(c + 1) == cube_level(c) + 40,
        cube_level(5) == 255,
{
}

/// A channel is scaled to the largest percentage not above its share of
/// 255: `percent_of(v) * 255 <= v * 100 < (percent_of(v) + 1) * 255`.
pub proof fn lemma_percent_rounds_down(v: u8)
    ensures
        percent_of(v) * 255 <= v * 100 < (percent_of(v) + 1) * 255,
{
    let q = (v as int * 100) / 255;
    assert(0 <= q <= 100);
    assert(q * 255 <= v * 100 < (q + 1) * 255);
}

} // verus!
