//! Colors: CSS color parsing, alpha blending, and pixel buffer encodings.
use vstd::prelude::*;
use crate::text::{
    chars_of, decimal, is_upper, is_ws, lemma_lower_no_upper, lemma_trim_no_ws, lower_range, lower_seq, slice_of, trim,
    trim_bounds,
};

verus! {

#[derive(Debug, Clone, Copy, PartialEq, Eq, Structural)]
pub struct Rgba(pub u8, pub u8, pub u8, pub u8);

pub open spec fn is_hex(c: char) -> bool {
    ('0' <= c && c <= '9') || ('a' <= c && c <= 'f')
}

pub open spec fn hex_val(c: char) -> nat {
    if '0' <= c && c <= '9' {
        (c as u32 - '0' as u32) as nat
    } else {
        (c as u32 - 'a' as u32 + 10) as nat
    }
}

/// The value `u8::from_str_radix(_, 16)` gives a two-character text: two
/// hex digits, or `+` and one hex digit.
pub open spec fn pair_value(a: char, b: char) -> Option<u8> {
    if is_hex(a) && is_hex(b) {
        Some((hex_val(a) * 16 + hex_val(b)) as u8)
    } else if a == '+' && is_hex(b) {
        Some(hex_val(b) as u8)
    } else {
        None
    }
}

/// The color named by a CSS color text: a keyword, or `#rgb`, `#rrggbb`,
/// `#rrggbbaa` (after trimming and ASCII lower-casing).
pub open spec fn color_of(s: Seq<char>) -> Option<Rgba> {
    let t = lower_seq(trim(s));
    if t == "transparent"@ {
        Some(Rgba(0, 0, 0, 0))
    } else if t == "white"@ {
        Some(Rgba(255, 255, 255, 255))
    } else if t == "black"@ {
        Some(Rgba(0, 0, 0, 255))
    } else if t == "red"@ {
        Some(Rgba(255, 0, 0, 255))
    } else if t == "green"@ {
        Some(Rgba(0, 128, 0, 255))
    } else if t == "blue"@ {
        Some(Rgba(0, 0, 255, 255))
    } else if t == "gray"@ || t == "grey"@ {
        Some(Rgba(128, 128, 128, 255))
    } else if t == "yellow"@ {
        Some(Rgba(255, 255, 0, 255))
    } else if t == "purple"@ {
        Some(Rgba(128, 0, 128, 255))
    } else if t == "orange"@ {
        Some(Rgba(255, 165, 0, 255))
    } else if t == "cyan"@ {
        Some(Rgba(0, 255, 255, 255))
    } else if t.len() > 0 && t[0] == '#' {
        let h = t.drop_first();
        if h.len() == 3 {
            match (pair_value(h[0], h[0]), pair_value(h[1], h[1]), pair_value(h[2], h[2])) {
                (Some(r), Some(g), Some(b)) => Some(Rgba(r, g, b, 255)),
                _ => None,
            }
        } else if h.len() == 6 {
            match (pair_value(h[0], h[1]), pair_value(h[2], h[3]), pair_value(h[4], h[5])) {
                (Some(r), Some(g), Some(b)) => Some(Rgba(r, g, b, 255)),
                _ => None,
            }
        } else if h.len() == 8 {
            match (pair_value(h[0], h[1]), pair_value(h[2], h[3]), pair_value(h[4], h[5]), pair_value(h[6], h[7])) {
                (Some(r), Some(g), Some(b), Some(a)) => Some(Rgba(r, g, b, a)),
                _ => None,
            }
        } else {
            None
        }
    } else {
        None
    }
}

fn hex_digit(c: char) -> (r: Option<u8>)
    ensures
        match r {
            Some(v) => is_hex(c) && v as nat == hex_val(c),
            None => !is_hex(c),
        },
{
    if '0' <= c && c <= '9' {
        Some((c as u32 - '0' as u32) as u8)
    } else if 'a' <= c && c <= 'f' {
        Some((c as u32 - 'a' as u32 + 10) as u8)
    } else {
        None
    }
}

fn pair(a: char, b: char) -> (r: Option<u8>)
    ensures
        r == pair_value(a, b),
{
    match (hex_digit(a), hex_digit(b)) {
        (Some(x), Some(y)) => Some(x * 16 + y),
        (None, Some(y)) => {
            if a == '+' {
                Some(y)
            } else {
                None
            }
        },
        _ => None,
    }
}

fn is_word(t: &Vec<char>, w: &str) -> (b: bool)
    ensures
        b == (t@ == w@),
{
    let wv = chars_of(w);
    crate::text::chars_eq(t, &wv)
}

/// Parses a CSS color (see `color_of`).
pub fn parse_color(s: &str) -> (r: Option<Rgba>)
    ensures
        r == color_of(s@),
{
    let v = chars_of(s);
    assert(v@.subrange(0, v@.len() as int) == v@);
    let (a, b) = trim_bounds(&v, 0, v.len());
    let t = lower_range(&v, a, b);
    if is_word(&t, "transparent") {
        Some(Rgba(0, 0, 0, 0))
    } else if is_word(&t, "white") {
        Some(Rgba(255, 255, 255, 255))
    } else if is_word(&t, "black") {
        Some(Rgba(0, 0, 0, 255))
    } else if is_word(&t, "red") {
        Some(Rgba(255, 0, 0, 255))
    } else if is_word(&t, "green") {
        Some(Rgba(0, 128, 0, 255))
    } else if is_word(&t, "blue") {
        Some(Rgba(0, 0, 255, 255))
    } else if is_word(&t, "gray") || is_word(&t, "grey") {
        Some(Rgba(128, 128, 128, 255))
    } else if is_word(&t, "yellow") {
        Some(Rgba(255, 255, 0, 255))
    } else if is_word(&t, "purple") {
        Some(Rgba(128, 0, 128, 255))
    } else if is_word(&t, "orange") {
        Some(Rgba(255, 165, 0, 255))
    } else if is_word(&t, "cyan") {
        Some(Rgba(0, 255, 255, 255))
    } else if t.len() > 0 && t[0] == '#' {
        let h = slice_of(&t, 1, t.len());
        assert(h@ =~= t@.drop_first());
        if h.len() == 3 {
            match (pair(h[0], h[0]), pair(h[1], h[1]), pair(h[2], h[2])) {
                (Some(r), Some(g), Some(b)) => Some(Rgba(r, g, b, 255)),
                _ => None,
            }
        } else if h.len() == 6 {
            match (pair(h[0], h[1]), pair(h[2], h[3]), pair(h[4], h[5])) {
                (Some(r), Some(g), Some(b)) => Some(Rgba(r, g, b, 255)),
                _ => None,
            }
        } else if h.len() == 8 {
            match (pair(h[0], h[1]), pair(h[2], h[3]), pair(h[4], h[5]), pair(h[6], h[7])) {
                (Some(r), Some(g), Some(b), Some(a)) => Some(Rgba(r, g, b, a)),
                _ => None,
            }
        } else {
            None
        }
    } else {
        None
    }
}

/// One channel of `color` drawn with coverage `a` (out of 255) over `bg`.
pub open spec fn mix(c: u8, bg: u8, a: nat) -> u8 {
    ((c as nat * a + bg as nat * (255 - a) as nat) / 255) as u8
}

/// The coverage of a pixel: the mask scaled by the color's alpha.
pub open spec fn coverage(color: Rgba, mask: u8) -> nat {
    (mask as nat * color.3 as nat) / 255
}

/// `color` drawn with coverage mask `mask` over the opaque pixel `bg`.
pub open spec fn blended(bg: Rgba, color: Rgba, mask: u8) -> Rgba {
    let a = coverage(color, mask);
    Rgba(mix(color.0, bg.0, a), mix(color.1, bg.1, a), mix(color.2, bg.2, a), 255)
}

/// Draws `color` with coverage `alpha_mask` over the pixel `bg`; the result is opaque.
pub fn blend(bg: Rgba, color: Rgba, alpha_mask: u8) -> (r: Rgba)
    ensures
        r == blended(bg, color, alpha_mask),
{
    let m32: u32 = alpha_mask as u32;
    let c32: u32 = color.3 as u32;
    assert(m32 * c32 <= 255 * 255) by (nonlinear_arith)
        requires
            m32 <= 255,
            c32 <= 255,
    ;
    let a: u32 = (m32 * c32) / 255;
    assert(a <= 255) by (nonlinear_arith)
        requires
            a == (m32 * c32) / 255,
            m32 <= 255,
            c32 <= 255,
    ;
    let inv_a: u32 = 255 - a;
    assert(color.0 as u32 * a + bg.0 as u32 * inv_a <= 255 * 255) by (nonlinear_arith)
        requires
            a <= 255,
            inv_a == 255 - a,
            color.0 <= 255,
            bg.0 <= 255,
    ;
    assert(color.1 as u32 * a + bg.1 as u32 * inv_a <= 255 * 255) by (nonlinear_arith)
        requires
            a <= 255,
            inv_a == 255 - a,
            color.1 <= 255,
            bg.1 <= 255,
    ;
    assert(color.2 as u32 * a + bg.2 as u32 * inv_a <= 255 * 255) by (nonlinear_arith)
        requires
            a <= 255,
            inv_a == 255 - a,
            color.2 <= 255,
            bg.2 <= 255,
    ;
    let r = ((color.0 as u32 * a + bg.0 as u32 * inv_a) / 255) as u8;
    let g = ((color.1 as u32 * a + bg.1 as u32 * inv_a) / 255) as u8;
    let b = ((color.2 as u32 * a + bg.2 as u32 * inv_a) / 255) as u8;
    Rgba(r, g, b, 255)
}

/// A pixel as `0x00RRGGBB`.
pub open spec fn packed(p: Rgba) -> u32 {
    (p.0 as nat * 65536 + p.1 as nat * 256 + p.2 as nat) as u32
}

/// The pixels as `0x00RRGGBB` words, for a window's frame buffer.
pub fn to_u32_buffer(pixels: &Vec<Rgba>) -> (out: Vec<u32>)
    ensures
        out@ == pixels@.map_values(|p: Rgba| packed(p)),
{
    let mut out: Vec<u32> = Vec::new();
    let mut i: usize = 0;
    while i < pixels.len()
        invariant
            i <= pixels.len(),
            out@ == pixels@.take(i as int).map_values(|p: Rgba| packed(p)),
        decreases pixels.len() - i,
    {
        let p = pixels[i];
        let r: u32 = p.0 as u32;
        let g: u32 = p.1 as u32;
        let b: u32 = p.2 as u32;
        let w: u32 = (r << 16) | (g << 8) | b;
        assert((r << 16) | (g << 8) | b == r * 65536 + g * 256 + b) by (bit_vector)
            requires
                r <= 255,
                g <= 255,
                b <= 255,
        ;
        out.push(w);
        assert(pixels@.take(i + 1) =~= pixels@.take(i as int).push(p));
        i = i + 1;
        assert(out@ =~= pixels@.take(i as int).map_values(|p: Rgba| packed(p)));
    }
    assert(pixels@.take(pixels@.len() as int) == pixels@);
    out
}

/// The ASCII bytes of a text made of ASCII characters.
pub open spec fn ascii_bytes(s: Seq<char>) -> Seq<u8> {
    s.map_values(|c: char| c as u8)
}

/// The color bytes of the pixels, red, green and blue in turn.
pub open spec fn rgb_bytes(ps: Seq<Rgba>) -> Seq<u8>
    decreases ps.len(),
{
    if ps.len() == 0 {
        Seq::empty()
    } else {
        rgb_bytes(ps.drop_last()) + seq![ps.last().0, ps.last().1, ps.last().2]
    }
}

/// A binary PPM image: `P6`, the size, the maximum value 255, then the color bytes.
pub open spec fn ppm_of(width: u32, height: u32, ps: Seq<Rgba>) -> Seq<u8> {
    ascii_bytes("P6\n"@ + decimal(width as nat) + " "@ + decimal(height as nat) + "\n255\n"@) + rgb_bytes(ps)
}

fn push_ascii(out: &mut Vec<u8>, s: &str)
    ensures
        final(out)@ == old(out)@ + ascii_bytes(s@),
{
    let v = chars_of(s);
    let ghost o0 = out@;
    let mut i: usize = 0;
    while i < v.len()
        invariant
            i <= v.len(),
            v@ == s@,
            out@ == o0 + ascii_bytes(v@.take(i as int)),
        decreases v.len() - i,
    {
        out.push(v[i] as u8);
        i = i + 1;
        assert(out@ =~= o0 + ascii_bytes(v@.take(i as int)));
    }
    assert(v@.take(v@.len() as int) == v@);
}

fn push_decimal_bytes(out: &mut Vec<u8>, n: u64)
    ensures
        final(out)@ == old(out)@ + ascii_bytes(decimal(n as nat)),
    decreases n,
{
    if n >= 10 {
        push_decimal_bytes(out, n / 10);
    }
    let d = ((n % 10) as u8 + 48) as char;
    out.push(d as u8);
    assert(final(out)@ =~= old(out)@ + ascii_bytes(decimal(n as nat)));
}

/// Encodes pixels as a binary PPM image.
pub fn to_ppm(width: u32, height: u32, pixels: &Vec<Rgba>) -> (out: Vec<u8>)
    ensures
        out@ == ppm_of(width, height, pixels@),
{
    let mut o: Vec<u8> = Vec::new();
    push_ascii(&mut o, "P6\n");
    push_decimal_bytes(&mut o, width as u64);
    push_ascii(&mut o, " ");
    push_decimal_bytes(&mut o, height as u64);
    push_ascii(&mut o, "\n255\n");
    let ghost head = o@;
    assert(head =~= ascii_bytes("P6\n"@ + decimal(width as nat) + " "@ + decimal(height as nat) + "\n255\n"@));
    let mut i: usize = 0;
    while i < pixels.len()
        invariant
            i <= pixels.len(),
            o@ == head + rgb_bytes(pixels@.take(i as int)),
        decreases pixels.len() - i,
    {
        let p = pixels[i];
        o.push(p.0);
        o.push(p.1);
        o.push(p.2);
        assert(pixels@.take(i + 1).drop_last() =~= pixels@.take(i as int));
        i = i + 1;
        assert(o@ =~= head + rgb_bytes(pixels@.take(i as int)));
    }
    assert(pixels@.take(pixels@.len() as int) == pixels@);
    o
}

/// Drawing with no coverage leaves the background (made opaque); drawing an
/// opaque color with full coverage gives that color; the result is always opaque.
pub proof fn law_blend_extremes(bg: Rgba, color: Rgba, mask: u8)
    ensures
        blended(bg, color, 0) == Rgba(bg.0, bg.1, bg.2, 255),
        color.3 == 255 ==> blended(bg, color, 255) == Rgba(color.0, color.1, color.2, 255),
        blended(bg, color, mask).3 == 255,
{
    assert(coverage(color, 0) == 0);
    assert(mix(bg.0, bg.0, 0) == bg.0) by {
        assert((bg.0 as nat * 0 + bg.0 as nat * 255) / 255 == bg.0 as nat);
    }
    assert((color.0 as nat * 0 + bg.0 as nat * 255) / 255 == bg.0 as nat);
    assert((color.1 as nat * 0 + bg.1 as nat * 255) / 255 == bg.1 as nat);
    assert((color.2 as nat * 0 + bg.2 as nat * 255) / 255 == bg.2 as nat);
    if color.3 == 255 {
        assert(coverage(color, 255) == 255);
        assert((color.0 as nat * 255 + bg.0 as nat * 0) / 255 == color.0 as nat);
        assert((color.1 as nat * 255 + bg.1 as nat * 0) / 255 == color.1 as nat);
        assert((color.2 as nat * 255 + bg.2 as nat * 0) / 255 == color.2 as nat);
    }
}


/// Each color keyword names its color, in any ASCII case and with any
/// whitespace around it: `transparent` is clear black, `gray` and `grey` are
/// both (128, 128, 128), `orange` is (255, 165, 0), and so on for `white`,
/// `black`, `red`, `green`, `blue`, `yellow`, `purple` and `cyan`.
pub proof fn law_color_keywords(s: Seq<char>)
    ensures
        lower_seq(trim(s)) == "transparent"@ ==> color_of(s) == Some(Rgba(0, 0, 0, 0)),
        lower_seq(trim(s)) == "white"@ ==> color_of(s) == Some(Rgba(255, 255, 255, 255)),
        lower_seq(trim(s)) == "black"@ ==> color_of(s) == Some(Rgba(0, 0, 0, 255)),
        lower_seq(trim(s)) == "red"@ ==> color_of(s) == Some(Rgba(255, 0, 0, 255)),
        lower_seq(trim(s)) == "green"@ ==> color_of(s) == Some(Rgba(0, 128, 0, 255)),
        lower_seq(trim(s)) == "blue"@ ==> color_of(s) == Some(Rgba(0, 0, 255, 255)),
        lower_seq(trim(s)) == "gray"@ ==> color_of(s) == Some(Rgba(128, 128, 128, 255)),
        lower_seq(trim(s)) == "grey"@ ==> color_of(s) == Some(Rgba(128, 128, 128, 255)),
        lower_seq(trim(s)) == "yellow"@ ==> color_of(s) == Some(Rgba(255, 255, 0, 255)),
        lower_seq(trim(s)) == "purple"@ ==> color_of(s) == Some(Rgba(128, 0, 128, 255)),
        lower_seq(trim(s)) == "orange"@ ==> color_of(s) == Some(Rgba(255, 165, 0, 255)),
        lower_seq(trim(s)) == "cyan"@ ==> color_of(s) == Some(Rgba(0, 255, 255, 255)),
{
    reveal_strlit("transparent");
    reveal_strlit("white");
    reveal_strlit("black");
    reveal_strlit("red");
    reveal_strlit("green");
    reveal_strlit("blue");
    reveal_strlit("gray");
    reveal_strlit("grey");
    reveal_strlit("yellow");
    reveal_strlit("purple");
    reveal_strlit("orange");
    reveal_strlit("cyan");
}


/// The value of a decimal digit character.
pub open spec fn digit(c: char) -> int {
    c as int - '0' as int
}

/// Hex colors written with decimal digits: `#rrggbb` gives each channel as
/// the two digits read in base 16 (first digit times 16 plus the second),
/// fully opaque; `#rgb` gives each channel as its digit repeated (the digit
/// times 17).
pub proof fn law_hex_colors(s: Seq<char>)
    requires
        s.len() == 4 || s.len() == 7,
        s[0] == '#',
        forall|i: int| 1 <= i < s.len() ==> '0' <= #[trigger] s[i] <= '9',
    ensures
        s.len() == 7 ==> color_of(s) == Some(
            Rgba(
                (digit(s[1]) * 16 + digit(s[2])) as u8,
                (digit(s[3]) * 16 + digit(s[4])) as u8,
                (digit(s[5]) * 16 + digit(s[6])) as u8,
                255,
            ),
        ),
        s.len() == 4 ==> color_of(s) == Some(
            Rgba((digit(s[1]) * 17) as u8, (digit(s[2]) * 17) as u8, (digit(s[3]) * 17) as u8, 255),
        ),
{
    assert forall|i: int| 0 <= i < s.len() implies !is_ws(#[trigger] s[i]) && !is_upper(s[i]) by {
        if i > 0 {
            assert('0' <= s[i] <= '9');
        }
    }
    lemma_trim_no_ws(s);
    lemma_lower_no_upper(s);
    reveal_strlit("transparent");
    reveal_strlit("white");
    reveal_strlit("black");
    reveal_strlit("red");
    reveal_strlit("green");
    reveal_strlit("blue");
    reveal_strlit("gray");
    reveal_strlit("grey");
    reveal_strlit("yellow");
    reveal_strlit("purple");
    reveal_strlit("orange");
    reveal_strlit("cyan");
    assert(s != "transparent"@ && s != "white"@ && s != "black"@ && s != "red"@ && s != "green"@ && s != "blue"@);
    assert(s != "gray"@ && s != "grey"@ && s != "yellow"@ && s != "purple"@ && s != "orange"@ && s != "cyan"@);
    let h = s.drop_first();
    assert forall|i: int| 0 <= i < h.len() implies is_hex(#[trigger] h[i]) && hex_val(h[i]) == digit(h[i]) by {
        assert(h[i] == s[i + 1]);
    }
}

} // verus!
