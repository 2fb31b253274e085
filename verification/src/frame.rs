//! A rendered map frame: a grid of character cells with xterm colours.

use vstd::prelude::*;

verus! {

/// One character cell of a frame: its character and its foreground and
/// background xterm colour indices.
#[derive(Clone, Copy, Debug, PartialEq, Eq, Structural)]
pub struct MapCell {
    pub ch: char,
    pub fg: u8,
    pub bg: u8,
}

/// A frame of `cols` by `rows` cells, stored row by row in `cells`.
#[derive(Debug)]
pub struct MapFrame {
    pub cells: Vec<MapCell>,
    pub cols: u16,
    pub rows: u16,
}

/// First code point of the Unicode Braille Patterns block.
pub const BRAILLE_BASE: u32 = 0x2800;

/// The dot pattern of a Braille Patterns character (its offset in the
/// block, one bit per dot), or `None` for any other character.
pub open spec fn braille_pattern(ch: char) -> Option<u8> {
    let code = ch as u32;
    if 0x2800 <= code && code <= 0x28ff {
        Some((code - 0x2800) as u8)
    } else {
        None
    }
}

/// The bit of Braille dot (`dot_y`, `dot_x`): dot rows top to bottom,
/// dot columns left to right, in Unicode's dot numbering.
pub open spec fn dot_bit(dot_y: int, dot_x: int) -> u8 {
    if dot_y == 0 {
        if dot_x == 0 {
            0x01
        } else {
            0x08
        }
    } else if dot_y == 1 {
        if dot_x == 0 {
            0x02
        } else {
            0x10
        }
    } else if dot_y == 2 {
        if dot_x == 0 {
            0x04
        } else {
            0x20
        }
    } else {
        if dot_x == 0 {
            0x40
        } else {
            0x80
        }
    }
}

/// The dot pattern of `ch` if it is a Braille Patterns character.
pub fn braille_bits(ch: char) -> (bits: Option<u8>)
    ensures
        bits == braille_pattern(ch),
{
    let code = ch as u32;
    if 0x2800 <= code && code <= 0x28ff {
        Some((code - BRAILLE_BASE) as u8)
    } else {
        None
    }
}

/// The bit of Braille dot (`dot_y`, `dot_x`).
pub fn braille_dot_bit(dot_y: usize, dot_x: usize) -> (bit: u8)
    requires
        dot_y < 4,
        dot_x < 2,
    ensures
        bit == dot_bit(dot_y as int, dot_x as int),
{
    match (dot_y, dot_x) {
        (0, 0) => 0x01,
        (0, _) => 0x08,
        (1, 0) => 0x02,
        (1, _) => 0x10,
        (2, 0) => 0x04,
        (2, _) => 0x20,
        (_, 0) => 0x40,
        (_, _) => 0x80,
    }
}


/// Every dot pattern has its Braille character: the character at offset
/// `bits` in the Braille Patterns block has pattern `bits`, and the
/// patterns are exactly the characters of that block.
pub proof fn lemma_braille_round_trip(bits: u8, ch: char)
    ensures
        braille_pattern(((0x2800 + bits) as u32) as char) == Some(bits),
        braille_pattern(ch) matches Some(b) ==> ch as u32 == 0x2800 + b,
{
    let c = ((0x2800 + bits) as u32) as char;
    assert(c as u32 == 0x2800 + bits);
}

/// The eight dots of a Braille cell are eight distinct single bits that
/// together make up every bit of a pattern.
pub proof fn lemma_dot_bits_partition()
    ensures
        forall|dy: int, dx: int|
            0 <= dy < 4 && 0 <= dx < 2 ==> #[trigger] dot_bit(dy, dx) != 0 && (dot_bit(dy, dx) & (
            (dot_bit(dy, dx) - 1) as u8)) == 0,
        forall|dy1: int, dx1: int, dy2: int, dx2: int|
            0 <= dy1 < 4 && 0 <= dx1 < 2 && 0 <= dy2 < 4 && 0 <= dx2 < 2 && (dy1 != dy2 || dx1
                != dx2) ==> #[trigger] dot_bit(dy1, dx1) != #[trigger] dot_bit(dy2, dx2),
        dot_bit(0, 0) + dot_bit(0, 1) + dot_bit(1, 0) + dot_bit(1, 1) + dot_bit(2, 0) + dot_bit(2, 1)
            + dot_bit(3, 0) + dot_bit(3, 1) == 0xff,
{
    assert((0x01u8 & 0x00u8) == 0 && (0x02u8 & 0x01u8) == 0 && (0x04u8 & 0x03u8) == 0 && (0x08u8
        & 0x07u8) == 0 && (0x10u8 & 0x0fu8) == 0 && (0x20u8 & 0x1fu8) == 0 && (0x40u8 & 0x3fu8)
        == 0 && (0x80u8 & 0x7fu8) == 0) by (bit_vector);
}

/// Dots follow Unicode's numbering: dots 1 to 3 run down the left
/// column, dots 4 to 6 down the right column, and dots 7 and 8 sit left
/// and right in the bottom row; dot `n` is bit `n - 1` of the pattern.
/// So dot row `dy` (of the top three) in column `dx` is bit `3 * dx + dy`,
/// and the bottom row's dot in column `dx` is bit `6 + dx`.
pub proof fn lemma_dot_bits_in_unicode_order(dy: int, dx: int)
    requires
        0 <= dy < 4,
        0 <= dx < 2,
    ensures
        dy < 3 ==> dot_bit(dy, dx) as nat == vstd::arithmetic::power2::pow2((3 * dx + dy) as nat),
        dy == 3 ==> dot_bit(dy, dx) as nat == vstd::arithmetic::power2::pow2((6 + dx) as nat),
{
    vstd::arithmetic::power2::lemma2_to64();
}

} // verus!
