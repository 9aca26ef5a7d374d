//! Card colors: the palette a card cycles through, and the text color that
//! stays readable on a card's background.
use vstd::prelude::*;
use vstd::utf8::{encode_utf8, is_char_boundary};

use crate::model::str_eq;
use crate::text::{chars_of, string_of, trim, trim_bounds, trim_start_char};

verus! {

/// Number of colors in the palette.
pub const N_COLORS: usize = 8;

/// The `i`-th color of the palette.
pub open spec fn palette(i: int) -> Seq<char> {
    if i == 0 {
        "#c4b8a8"@
    } else if i == 1 {
        "#a8b0b8"@
    } else if i == 2 {
        "#a8b4a8"@
    } else if i == 3 {
        "#b8a8b0"@
    } else if i == 4 {
        "#b0a090"@
    } else if i == 5 {
        "#90a4a8"@
    } else if i == 6 {
        "#a8a090"@
    } else {
        "#9ca0b0"@
    }
}

/// The `i`-th color of the palette.
pub fn color(i: usize) -> (c: &'static str)
    requires
        i < N_COLORS,
    ensures
        c@ == palette(i as int),
{
    if i == 0 {
        "#c4b8a8"
    } else if i == 1 {
        "#a8b0b8"
    } else if i == 2 {
        "#a8b4a8"
    } else if i == 3 {
        "#b8a8b0"
    } else if i == 4 {
        "#b0a090"
    } else if i == 5 {
        "#90a4a8"
    } else if i == 6 {
        "#a8a090"
    } else {
        "#9ca0b0"
    }
}

/// Where `c` first stands in the palette; 0 when it is not a palette color.
pub open spec fn palette_index(c: Seq<char>) -> int {
    if c == palette(0) {
        0
    } else if c == palette(1) {
        1
    } else if c == palette(2) {
        2
    } else if c == palette(3) {
        3
    } else if c == palette(4) {
        4
    } else if c == palette(5) {
        5
    } else if c == palette(6) {
        6
    } else if c == palette(7) {
        7
    } else {
        0
    }
}

/// The palette color after `current` (after the first one when `current` is not in the palette).
pub fn next_color(current: &str) -> (next: &'static str)
    ensures
        next@ == palette((palette_index(current@) + 1) % (N_COLORS as int)),
{
    let mut i: usize = 0;
    while i < N_COLORS
        invariant
            i <= N_COLORS,
            forall|j: int| 0 <= j < i ==> palette(j) != current@,
        decreases N_COLORS - i,
    {
        if str_eq(color(i), current) {
            return color((i + 1) % N_COLORS);
        }
        i += 1;
    }
    color(1)
}

/// The palette's colors are all different.
pub proof fn lemma_palette_distinct()
    ensures
        forall|i: int, j: int|
            0 <= i < N_COLORS && 0 <= j < N_COLORS && i != j ==> palette(i) != palette(j),
{
    reveal_strlit("#c4b8a8");
    reveal_strlit("#a8b0b8");
    reveal_strlit("#a8b4a8");
    reveal_strlit("#b8a8b0");
    reveal_strlit("#b0a090");
    reveal_strlit("#90a4a8");
    reveal_strlit("#a8a090");
    reveal_strlit("#9ca0b0");
    assert forall|i: int, j: int|
        0 <= i < N_COLORS && 0 <= j < N_COLORS && i != j implies palette(i) != palette(j) by {
        if palette(i) == palette(j) {
            assert(palette(i)[2] == palette(j)[2]);
            assert(palette(i)[3] == palette(j)[3]);
            assert(palette(i)[4] == palette(j)[4]);
            assert(palette(i)[5] == palette(j)[5]);
            assert(palette(i)[6] == palette(j)[6]);
        }
    }
}

/// Cycling the color of a card walks the whole palette in order and comes
/// back after `N_COLORS` steps.
pub proof fn lemma_next_color_cycles(i: int)
    requires
        0 <= i < N_COLORS,
    ensures
        palette_index(palette(i)) == i,
        palette((palette_index(palette(i)) + 1) % (N_COLORS as int)) == palette((i + 1) % (N_COLORS as int)),
{
    lemma_palette_distinct();
}

/// The value of an ASCII hexadecimal digit (`char::to_digit(16)`).
pub open spec fn hex_digit(b: u8) -> Option<nat> {
    if 0x30 <= b <= 0x39 {
        Some((b - 0x30) as nat)
    } else if 0x61 <= b <= 0x66 {
        Some((b - 0x61 + 10) as nat)
    } else if 0x41 <= b <= 0x46 {
        Some((b - 0x41 + 10) as nat)
    } else {
        None
    }
}

/// `u8::from_str_radix(s, 16)` on a two-byte string: an optional `+`
/// followed by one or two hexadecimal digits.
pub open spec fn parse_hex_pair(b0: u8, b1: u8) -> Option<nat> {
    if b0 == 0x2b {
        hex_digit(b1)
    } else {
        match (hex_digit(b0), hex_digit(b1)) {
            (Some(x), Some(y)) => Some(16 * x + y),
            _ => None,
        }
    }
}

/// The hex digits that the luminance reads: trimmed, then without leading `#`.
pub open spec fn hex_body(hex: Seq<char>) -> Seq<char> {
    trim_start_char(trim(hex), '#')
}

/// The red, green and blue channels read from the first six bytes of the
/// hex body; `None` when it is shorter or they do not parse.
pub open spec fn hex_rgb(hex: Seq<char>) -> Option<(nat, nat, nat)> {
    let b = encode_utf8(hex_body(hex));
    if b.len() < 6 {
        None
    } else {
        match (parse_hex_pair(b[0], b[1]), parse_hex_pair(b[2], b[3]), parse_hex_pair(b[4], b[5])) {
            (Some(r), Some(g), Some(bl)) => Some((r, g, bl)),
            _ => None,
        }
    }
}

/// Reading the three channels slices the hex body at bytes 2, 4 and 6; those
/// must fall between characters.
pub open spec fn hex_slices_on_boundaries(hex: Seq<char>) -> bool {
    let b = encode_utf8(hex_body(hex));
    b.len() >= 6 ==> is_char_boundary(b, 2) && is_char_boundary(b, 4) && is_char_boundary(b, 6)
}

/// The luminance `0.2126 r + 0.7152 g + 0.0722 b` (channels over 255)
/// exceeds 0.45, as computed in `f64`. Scaled by 255 * 10000 this is
/// `2126 r + 7152 g + 722 b > 1147500`; among the channel triples where the
/// two sides are equal, `f64` rounding puts exactly (141, 94, 243) above.
/// A color that cannot be read counts as luminance 0.5.
pub open spec fn is_light(hex: Seq<char>) -> bool {
    match hex_rgb(hex) {
        None => true,
        Some((r, g, b)) => 2126 * r + 7152 * g + 722 * b > 1147500 || (r == 141 && g == 94 && b
            == 243),
    }
}

/// A channel read from two hex bytes is a byte value.
proof fn lemma_hex_pair_is_byte(b0: u8, b1: u8)
    ensures
        parse_hex_pair(b0, b1) matches Some(v) ==> v < 256,
{
    match (hex_digit(b0), hex_digit(b1)) {
        (Some(x), Some(y)) => {
            assert(16 * x + y < 256) by (nonlinear_arith)
                requires
                    x < 16,
                    y < 16,
            ;
        },
        _ => {},
    }
}

/// Dark text exactly when the luminance `0.2126 r + 0.7152 g + 0.0722 b` of
/// the channels, each taken over 255, is above `0.45` (with the one `f64`
/// tie that rounds up); green weighs most, blue least. So full green always
/// gets dark text, and a color with neither red nor green always gets light
/// text.
pub proof fn lemma_light_by_luminance(hex: Seq<char>, r: nat, g: nat, b: nat)
    requires
        hex_rgb(hex) == Some((r, g, b)),
    ensures
        r < 256 && g < 256 && b < 256,
        is_light(hex) <==> (r * 2126 + g * 7152 + b * 722 > 255 * 4500 || (r, g, b) == (141nat, 94nat, 243nat)),
        g == 255 ==> is_light(hex),
        r == 0 && g == 0 ==> !is_light(hex),
{
    let bs = encode_utf8(hex_body(hex));
    lemma_hex_pair_is_byte(bs[0], bs[1]);
    lemma_hex_pair_is_byte(bs[2], bs[3]);
    lemma_hex_pair_is_byte(bs[4], bs[5]);
}

fn hex_digit_of(b: u8) -> (r: Option<u32>)
    ensures
        match hex_digit(b) {
            Some(v) => r == Some(v as u32),
            None => r is None,
        },
{
    if 0x30 <= b && b <= 0x39 {
        Some((b - 0x30) as u32)
    } else if 0x61 <= b && b <= 0x66 {
        Some((b - 0x61 + 10) as u32)
    } else if 0x41 <= b && b <= 0x46 {
        Some((b - 0x41 + 10) as u32)
    } else {
        None
    }
}

fn hex_pair(b0: u8, b1: u8) -> (r: Option<u32>)
    ensures
        match parse_hex_pair(b0, b1) {
            Some(v) => r == Some(v as u32) && v < 256,
            None => r is None,
        },
{
    if b0 == 0x2b {
        hex_digit_of(b1)
    } else {
        match (hex_digit_of(b0), hex_digit_of(b1)) {
            (Some(x), Some(y)) => Some(16 * x + y),
            _ => None,
        }
    }
}

/// A text color that reads well on the background `hex`: dark on light
/// backgrounds, light on dark ones.
pub fn text_color(hex: &str) -> (fg: &'static str)
    requires
        hex_slices_on_boundaries(hex@),
    ensures
        fg@ == (if is_light(hex@) {
            "#1a1a1c"@
        } else {
            "#ece8e0"@
        }),
{
    let chars = chars_of(hex);
    let (lo, hi) = trim_bounds(&chars);
    let mut start = lo;
    while start < hi && chars[start] == '#'
        invariant
            lo <= start <= hi <= chars.len(),
            trim_start_char(chars@.subrange(lo as int, hi as int), '#') == trim_start_char(
                chars@.subrange(start as int, hi as int),
                '#',
            ),
        decreases hi - start,
    {
        assert(chars@.subrange(start as int, hi as int).drop_first() == chars@.subrange(
            start + 1,
            hi as int,
        ));
        start += 1;
    }
    let body = string_of(&chars, start, hi);
    assert(body@ == hex_body(hex@));
    let bytes = body.as_str().as_bytes();
    assert(bytes@ == encode_utf8(hex_body(hex@)));
    let light = if bytes.len() < 6 {
        true
    } else {
        match (hex_pair(bytes[0], bytes[1]), hex_pair(bytes[2], bytes[3]), hex_pair(bytes[4], bytes[5])) {
            (Some(r), Some(g), Some(b)) => 2126 * r + 7152 * g + 722 * b > 1147500 || (r == 141
                && g == 94 && b == 243),
            _ => true,
        }
    };
    if light {
        "#1a1a1c"
    } else {
        "#ece8e0"
    }
}

} // verus!
