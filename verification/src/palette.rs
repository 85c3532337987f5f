//! Colours of the snakes on the players' screens.
use vstd::prelude::*;
use vstd::string::{StrSliceExecFns, StringExecFns};

verus! {

/// Number of distinct colours `#RRGGBB` can name.
pub const COLOR_COUNT: usize = 0x1000000;

/// The `i`-th of the ten colours given to the first snakes, as a number `0xRRGGBB`.
pub open spec fn palette_value(i: int) -> int {
    if i == 0 {
        0x4CAF50
    } else if i == 1 {
        0x2196F3
    } else if i == 2 {
        0xFFC107
    } else if i == 3 {
        0x9C27B0
    } else if i == 4 {
        0xFF9800
    } else if i == 5 {
        0x00BCD4
    } else if i == 6 {
        0x8BC34A
    } else if i == 7 {
        0xFF5722
    } else if i == 8 {
        0x607D8B
    } else {
        0x795548
    }
}

/// One step of counting past the palette: `v` moves up by one when palette colour `p` is not
/// above it.
pub open spec fn skip_past(v: int, p: int) -> int {
    if p <= v {
        v + 1
    } else {
        v
    }
}

/// The `n`-th colour that is not in the palette, counting from `0x000000`: `n` moved past each
/// palette colour, in increasing order.
pub open spec fn unpaletted(n: int) -> int {
    skip_past(
        skip_past(
            skip_past(
                skip_past(
                    skip_past(
                        skip_past(
                            skip_past(
                                skip_past(skip_past(skip_past(n, 0x00BCD4), 0x2196F3), 0x4CAF50),
                                0x607D8B,
                            ),
                            0x795548,
                        ),
                        0x8BC34A,
                    ),
                    0x9C27B0,
                ),
                0xFF5722,
            ),
            0xFF9800,
        ),
        0xFFC107,
    )
}

/// The colour of snake `id` as a number: the ten palette colours for the first ten ids, then
/// every other colour in increasing order; after all `COLOR_COUNT` colours the sequence starts
/// over at the colours past the palette.
pub open spec fn color_value(id: int) -> int {
    if id < 10 {
        palette_value(id)
    } else {
        unpaletted((id - 10) % (COLOR_COUNT - 10))
    }
}

/// Colour `v` written `#RRGGBB` in uppercase.
pub open spec fn color_name(v: int) -> Seq<char> {
    seq!['#'] + hex_pair(v / 65536) + hex_pair((v / 256) % 256) + hex_pair(v % 256)
}

/// The colour of snake `snake_id`: every id below `COLOR_COUNT` has a colour of its own. The
/// first ten ids take the palette; later ids take the colours outside it, in order.
pub fn get_snake_color(snake_id: usize) -> (r: String)
    ensures
        r@ == color_name(color_value(snake_id as int)),
{
    let palette: [u32; 10] = [
        0x4CAF50,
        0x2196F3,
        0xFFC107,
        0x9C27B0,
        0xFF9800,
        0x00BCD4,
        0x8BC34A,
        0xFF5722,
        0x607D8B,
        0x795548,
    ];
    let value: u32 = if snake_id < 10 {
        palette[snake_id]
    } else {
        let n = ((snake_id - 10) % (COLOR_COUNT - 10)) as u32;
        let mut v: u32 = n;
        v = if 0x00BCD4 <= v { v + 1 } else { v };
        v = if 0x2196F3 <= v { v + 1 } else { v };
        v = if 0x4CAF50 <= v { v + 1 } else { v };
        v = if 0x607D8B <= v { v + 1 } else { v };
        v = if 0x795548 <= v { v + 1 } else { v };
        v = if 0x8BC34A <= v { v + 1 } else { v };
        v = if 0x9C27B0 <= v { v + 1 } else { v };
        v = if 0xFF5722 <= v { v + 1 } else { v };
        v = if 0xFF9800 <= v { v + 1 } else { v };
        v = if 0xFFC107 <= v { v + 1 } else { v };
        v
    };
    assert(value == color_value(snake_id as int));
    assert(value < COLOR_COUNT);
    let mut out = String::from_str("#");
    proof {
        reveal_strlit("#");
    }
    push_hex_pair(&mut out, (value / 65536) as i32);
    push_hex_pair(&mut out, ((value / 256) % 256) as i32);
    push_hex_pair(&mut out, (value % 256) as i32);
    assert(out@ =~= color_name(value as int));
    out
}

/// The value of hexadecimal digit `c`, either case.
pub open spec fn hex_value(c: char) -> int {
    if '0' <= c <= '9' {
        c as int - '0' as int
    } else if 'a' <= c <= 'f' {
        c as int - 'a' as int + 10
    } else if 'A' <= c <= 'F' {
        c as int - 'A' as int + 10
    } else {
        -1
    }
}

/// `c` is a hexadecimal digit.
pub open spec fn is_hex_digit(c: char) -> bool {
    hex_value(c) >= 0
}

/// The two characters `a`, `b` read as a signed hexadecimal number: two digits, or a sign and
/// one digit.
pub open spec fn pair_readable(a: char, b: char) -> bool {
    (is_hex_digit(a) || a == '+' || a == '-') && is_hex_digit(b)
}

/// The number that `a`, `b` spell in hexadecimal.
pub open spec fn pair_value(a: char, b: char) -> int {
    if a == '+' {
        hex_value(b)
    } else if a == '-' {
        -hex_value(b)
    } else {
        16 * hex_value(a) + hex_value(b)
    }
}

/// `color` is a colour that `darken_color` reads: seven ASCII characters first, of which the
/// last six are three channels of two hexadecimal characters each.
pub open spec fn readable_color(color: Seq<char>) -> bool {
    &&& color.len() >= 7
    &&& forall|i: int| 0 <= i < 7 ==> (color[i] as u32) < 128
    &&& pair_readable(color[1], color[2])
    &&& pair_readable(color[3], color[4])
    &&& pair_readable(color[5], color[6])
}

/// A channel darkened by 30, but not below zero.
pub open spec fn darker(v: int) -> int {
    if v - 30 > 0 {
        v - 30
    } else {
        0
    }
}

/// The uppercase hexadecimal digit of `d`.
pub open spec fn hex_char(d: int) -> char {
    "0123456789ABCDEF"@[d]
}

/// `v`, below 256, as two uppercase hexadecimal digits.
pub open spec fn hex_pair(v: int) -> Seq<char> {
    seq![hex_char(v / 16), hex_char(v % 16)]
}

/// `color` with each channel darkened, written `#RRGGBB` in uppercase.
pub open spec fn darkened(color: Seq<char>) -> Seq<char> {
    seq!['#'] + hex_pair(darker(pair_value(color[1], color[2]))) + hex_pair(
        darker(pair_value(color[3], color[4])),
    ) + hex_pair(darker(pair_value(color[5], color[6])))
}

/// The value of hexadecimal digit `c`; -1 for another character.
fn hex_digit_value(c: char) -> (v: i32)
    ensures
        v == hex_value(c),
{
    if '0' <= c && c <= '9' {
        (c as u32 - '0' as u32) as i32
    } else if 'a' <= c && c <= 'f' {
        (c as u32 - 'a' as u32 + 10) as i32
    } else if 'A' <= c && c <= 'F' {
        (c as u32 - 'A' as u32 + 10) as i32
    } else {
        -1
    }
}

/// The channel spelt by characters `i` and `i + 1` of `color`, darkened.
fn darker_channel(color: &str, i: usize) -> (v: i32)
    requires
        i <= 5,
        i + 1 < color@.len(),
        pair_readable(color@[i as int], color@[i + 1]),
    ensures
        v == darker(pair_value(color@[i as int], color@[i + 1])),
        0 <= v < 256,
{
    let a = color.get_char(i);
    let b = color.get_char(i + 1);
    let lo = hex_digit_value(b);
    let value = if a == '+' {
        lo
    } else if a == '-' {
        -lo
    } else {
        16 * hex_digit_value(a) + lo
    };
    if value - 30 > 0 {
        value - 30
    } else {
        0
    }
}

/// Appends `v`, below 256, to `s` as two uppercase hexadecimal digits.
fn push_hex_pair(s: &mut String, v: i32)
    requires
        0 <= v < 256,
    ensures
        final(s)@ == old(s)@ + hex_pair(v as int),
{
    let digits = "0123456789ABCDEF";
    proof {
        reveal_strlit("0123456789ABCDEF");
    }
    let hi = (v / 16) as usize;
    let lo = (v % 16) as usize;
    s.append(digits.substring_ascii(hi, hi + 1));
    s.append(digits.substring_ascii(lo, lo + 1));
    assert(digits@.subrange(hi as int, hi + 1) =~= seq![hex_char(hi as int)]);
    assert(digits@.subrange(lo as int, lo + 1) =~= seq![hex_char(lo as int)]);
    assert(final(s)@ =~= old(s)@ + hex_pair(v as int));
}

/// Whether `darken_color` can read `color`: see `readable_color`.
pub fn is_readable_color(color: &str) -> (r: bool)
    ensures
        r == readable_color(color@),
{
    if color.unicode_len() < 7 {
        return false;
    }
    let mut i: usize = 0;
    while i < 7
        invariant
            i <= 7 <= color@.len(),
            forall|k: int| 0 <= k < i ==> (color@[k] as u32) < 128,
        decreases 7 - i,
    {
        if color.get_char(i) as u32 >= 128 {
            return false;
        }
        i = i + 1;
    }
    let mut k: usize = 1;
    while k < 7
        invariant
            k == 1 || k == 3 || k == 5 || k == 7,
            7 <= color@.len(),
            k >= 3 ==> pair_readable(color@[1], color@[2]),
            k >= 5 ==> pair_readable(color@[3], color@[4]),
            k >= 7 ==> pair_readable(color@[5], color@[6]),
            forall|j: int| 0 <= j < 7 ==> (color@[j] as u32) < 128,
        decreases 7 - k,
    {
        let a = color.get_char(k);
        let b = color.get_char(k + 1);
        if !((hex_digit_value(a) >= 0 || a == '+' || a == '-') && hex_digit_value(b) >= 0) {
            return false;
        }
        k = k + 2;
    }
    true
}

/// `color` with each of its three channels darkened by 30 (not below zero), written `#RRGGBB`
/// in uppercase. The first character of `color` is not read.
pub fn darken_color(color: String) -> (r: String)
    requires
        readable_color(color@),
    ensures
        r@ == darkened(color@),
{
    let s = color.as_str();
    let r_dark = darker_channel(s, 1);
    let g_dark = darker_channel(s, 3);
    let b_dark = darker_channel(s, 5);
    let mut out = String::from_str("#");
    proof {
        reveal_strlit("#");
    }
    push_hex_pair(&mut out, r_dark);
    push_hex_pair(&mut out, g_dark);
    push_hex_pair(&mut out, b_dark);
    assert(out@ =~= darkened(color@));
    out
}

proof fn lemma_hex_char_injective(a: int, b: int)
    requires
        0 <= a < 16,
        0 <= b < 16,
        hex_char(a) == hex_char(b),
    ensures
        a == b,
{
    reveal_strlit("0123456789ABCDEF");
    let digits = seq!['0', '1', '2', '3', '4', '5', '6', '7', '8', '9', 'A', 'B', 'C', 'D', 'E', 'F'];
    assert("0123456789ABCDEF"@ =~= digits);
    assert(digits[a] == digits[b]);
}

proof fn lemma_hex_pair_injective(u: int, w: int)
    requires
        0 <= u < 256,
        0 <= w < 256,
        hex_pair(u) == hex_pair(w),
    ensures
        u == w,
{
    assert(hex_pair(u)[0] == hex_pair(w)[0]);
    assert(hex_pair(u)[1] == hex_pair(w)[1]);
    lemma_hex_char_injective(u / 16, w / 16);
    lemma_hex_char_injective(u % 16, w % 16);
}

/// Distinct colours below `COLOR_COUNT` have distinct names.
proof fn lemma_color_name_injective(v: int, w: int)
    requires
        0 <= v < COLOR_COUNT,
        0 <= w < COLOR_COUNT,
        color_name(v) == color_name(w),
    ensures
        v == w,
{
    let (a, b) = (color_name(v), color_name(w));
    assert(a.subrange(1, 3) =~= hex_pair(v / 65536));
    assert(b.subrange(1, 3) =~= hex_pair(w / 65536));
    assert(a.subrange(3, 5) =~= hex_pair((v / 256) % 256));
    assert(b.subrange(3, 5) =~= hex_pair((w / 256) % 256));
    assert(a.subrange(5, 7) =~= hex_pair(v % 256));
    assert(b.subrange(5, 7) =~= hex_pair(w % 256));
    lemma_hex_pair_injective(v / 65536, w / 65536);
    lemma_hex_pair_injective((v / 256) % 256, (w / 256) % 256);
    lemma_hex_pair_injective(v % 256, w % 256);
    assert(v == (v / 65536) * 65536 + ((v / 256) % 256) * 256 + v % 256) by (nonlinear_arith)
        requires 0 <= v;
    assert(w == (w / 65536) * 65536 + ((w / 256) % 256) * 256 + w % 256) by (nonlinear_arith)
        requires 0 <= w;
}

/// Counting past the palette is strictly increasing, stays below `COLOR_COUNT`, and never lands
/// on a palette colour.
proof fn lemma_unpaletted(n: int)
    requires
        0 <= n < COLOR_COUNT - 10,
    ensures
        n <= unpaletted(n) < COLOR_COUNT,
        forall|i: int| 0 <= i < 10 ==> unpaletted(n) != palette_value(i),
{
}

proof fn lemma_unpaletted_increasing(n: int, m: int)
    requires
        n < m,
    ensures
        unpaletted(n) < unpaletted(m),
{
}

/// Distinct ids below `COLOR_COUNT` get distinct colour values, each below `COLOR_COUNT`.
proof fn lemma_color_values_distinct(a: int, b: int)
    requires
        0 <= a < COLOR_COUNT,
        0 <= b < COLOR_COUNT,
        a != b,
    ensures
        0 <= color_value(a) < COLOR_COUNT,
        0 <= color_value(b) < COLOR_COUNT,
        color_value(a) != color_value(b),
{
    if a >= 10 {
        assert((a - 10) % (COLOR_COUNT - 10) == a - 10);
        lemma_unpaletted(a - 10);
    }
    if b >= 10 {
        assert((b - 10) % (COLOR_COUNT - 10) == b - 10);
        lemma_unpaletted(b - 10);
    }
    if a >= 10 && b >= 10 {
        if a < b {
            lemma_unpaletted_increasing(a - 10, b - 10);
        } else {
            lemma_unpaletted_increasing(b - 10, a - 10);
        }
    }
}

/// Every snake id below `COLOR_COUNT` has a colour of its own.
pub proof fn law_colors_distinct(a: int, b: int)
    requires
        0 <= a < COLOR_COUNT,
        0 <= b < COLOR_COUNT,
        a != b,
    ensures
        color_name(color_value(a)) != color_name(color_value(b)),
{
    lemma_color_values_distinct(a, b);
    let (v, w) = (color_value(a), color_value(b));
    if color_name(v) == color_name(w) {
        lemma_color_name_injective(v, w);
    }
}

} // verus!
