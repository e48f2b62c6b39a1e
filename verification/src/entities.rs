//! HTML character references in text: `&name;`, `&#digits;` and `&#xhex;`.
use vstd::prelude::*;
use crate::text::{chars_of, find_char, find_from, push_char, slice_of};

verus! {

/// The character a named reference stands for, among those this parser knows.
pub open spec fn named_char(name: Seq<char>) -> Option<char> {
    if name == "amp"@ {
        Some('&')
    } else if name == "lt"@ {
        Some('<')
    } else if name == "gt"@ {
        Some('>')
    } else if name == "quot"@ {
        Some('"')
    } else if name == "apos"@ {
        Some('\'')
    } else if name == "nbsp"@ {
        Some('\u{a0}')
    } else if name == "copy"@ {
        Some('\u{a9}')
    } else if name == "reg"@ {
        Some('\u{ae}')
    } else if name == "trade"@ {
        Some('\u{2122}')
    } else if name == "euro"@ {
        Some('\u{20ac}')
    } else if name == "pound"@ {
        Some('\u{a3}')
    } else if name == "yen"@ {
        Some('\u{a5}')
    } else if name == "cent"@ {
        Some('\u{a2}')
    } else if name == "sect"@ {
        Some('\u{a7}')
    } else if name == "para"@ {
        Some('\u{b6}')
    } else if name == "deg"@ {
        Some('\u{b0}')
    } else if name == "plusmn"@ {
        Some('\u{b1}')
    } else if name == "times"@ {
        Some('\u{d7}')
    } else if name == "divide"@ {
        Some('\u{f7}')
    } else if name == "middot"@ {
        Some('\u{b7}')
    } else if name == "hellip"@ {
        Some('\u{2026}')
    } else if name == "mdash"@ {
        Some('\u{2014}')
    } else if name == "ndash"@ {
        Some('\u{2013}')
    } else if name == "laquo"@ {
        Some('\u{ab}')
    } else if name == "raquo"@ {
        Some('\u{bb}')
    } else if name == "lsquo"@ {
        Some('\u{2018}')
    } else if name == "rsquo"@ {
        Some('\u{2019}')
    } else if name == "ldquo"@ {
        Some('\u{201c}')
    } else if name == "rdquo"@ {
        Some('\u{201d}')
    } else if name == "bull"@ {
        Some('\u{2022}')
    } else if name == "micro"@ {
        Some('\u{b5}')
    } else if name == "frac12"@ {
        Some('\u{bd}')
    } else if name == "frac14"@ {
        Some('\u{bc}')
    } else if name == "frac34"@ {
        Some('\u{be}')
    } else {
        None
    }
}

pub open spec fn is_dec(c: char) -> bool {
    '0' <= c && c <= '9'
}

pub open spec fn is_hex_digit(c: char) -> bool {
    ('0' <= c && c <= '9') || ('a' <= c && c <= 'f') || ('A' <= c && c <= 'F')
}

pub open spec fn digit_value(c: char) -> nat {
    if '0' <= c && c <= '9' {
        (c as nat - '0' as nat) as nat
    } else if 'a' <= c && c <= 'f' {
        (c as nat - 'a' as nat + 10) as nat
    } else {
        (c as nat - 'A' as nat + 10) as nat
    }
}

/// The number the digits spell in `base`.
pub open spec fn digits_value(d: Seq<char>, base: nat) -> nat
    decreases d.len(),
{
    if d.len() == 0 {
        0
    } else {
        digits_value(d.drop_last(), base) * base + digit_value(d.last())
    }
}

/// The character of a code point: itself when it is a Unicode scalar value
/// other than 0, else U+FFFD.
pub open spec fn code_point_char(v: nat) -> char {
    if v == 0 || v > 0x10FFFF || (0xD800 <= v && v <= 0xDFFF) {
        '\u{fffd}'
    } else {
        v as char
    }
}

/// The character a numeric reference body (the text after `&#`) stands for.
pub open spec fn numeric_char(body: Seq<char>) -> Option<char> {
    if body.len() > 1 && (body[0] == 'x' || body[0] == 'X') {
        let d = body.drop_first();
        if forall|i: int| 0 <= i < d.len() ==> is_hex_digit(#[trigger] d[i]) {
            Some(code_point_char(digits_value(d, 16)))
        } else {
            None
        }
    } else if body.len() > 0 && forall|i: int| 0 <= i < body.len() ==> is_dec(#[trigger] body[i]) {
        Some(code_point_char(digits_value(body, 10)))
    } else {
        None
    }
}

/// The character that the reference starting with the `&` at `i` stands
/// for, and where the reference ends (after its `;`).
pub open spec fn reference_at(t: Seq<char>, i: int) -> Option<(char, int)> {
    let semi = find_from(t, ';', i + 1);
    if semi >= t.len() {
        None
    } else {
        let name = t.subrange(i + 1, semi);
        if name.len() > 0 && name[0] == '#' {
            match numeric_char(name.drop_first()) {
                Some(c) => Some((c, semi + 1)),
                None => None,
            }
        } else {
            match named_char(name) {
                Some(c) => Some((c, semi + 1)),
                None => None,
            }
        }
    }
}

/// The text from `i` on with each character reference replaced by its
/// character; an `&` that starts no known reference stays as it is.
pub open spec fn decode_from(t: Seq<char>, i: int) -> Seq<char>
    decreases t.len() - i,
{
    if i < 0 || i >= t.len() {
        Seq::empty()
    } else if t[i] == '&' {
        match reference_at(t, i) {
            Some((c, e)) => if i < e <= t.len() {
                seq![c] + decode_from(t, e)
            } else {
                Seq::empty()
            },
            None => seq!['&'] + decode_from(t, i + 1),
        }
    } else {
        seq![t[i]] + decode_from(t, i + 1)
    }
}

pub open spec fn decode_text(t: Seq<char>) -> Seq<char> {
    decode_from(t, 0)
}

fn word_is(w: &Vec<char>, lit: &str) -> (b: bool)
    ensures
        b == (w@ == lit@),
{
    let l = chars_of(lit);
    crate::text::chars_eq(w, &l)
}

fn named(w: &Vec<char>) -> (r: Option<char>)
    ensures
        r == named_char(w@),
{
    if word_is(w, "amp") {
        Some('&')
    } else if word_is(w, "lt") {
        Some('<')
    } else if word_is(w, "gt") {
        Some('>')
    } else if word_is(w, "quot") {
        Some('"')
    } else if word_is(w, "apos") {
        Some('\'')
    } else if word_is(w, "nbsp") {
        Some('\u{a0}')
    } else if word_is(w, "copy") {
        Some('\u{a9}')
    } else if word_is(w, "reg") {
        Some('\u{ae}')
    } else if word_is(w, "trade") {
        Some('\u{2122}')
    } else if word_is(w, "euro") {
        Some('\u{20ac}')
    } else if word_is(w, "pound") {
        Some('\u{a3}')
    } else if word_is(w, "yen") {
        Some('\u{a5}')
    } else if word_is(w, "cent") {
        Some('\u{a2}')
    } else if word_is(w, "sect") {
        Some('\u{a7}')
    } else if word_is(w, "para") {
        Some('\u{b6}')
    } else if word_is(w, "deg") {
        Some('\u{b0}')
    } else if word_is(w, "plusmn") {
        Some('\u{b1}')
    } else if word_is(w, "times") {
        Some('\u{d7}')
    } else if word_is(w, "divide") {
        Some('\u{f7}')
    } else if word_is(w, "middot") {
        Some('\u{b7}')
    } else if word_is(w, "hellip") {
        Some('\u{2026}')
    } else if word_is(w, "mdash") {
        Some('\u{2014}')
    } else if word_is(w, "ndash") {
        Some('\u{2013}')
    } else if word_is(w, "laquo") {
        Some('\u{ab}')
    } else if word_is(w, "raquo") {
        Some('\u{bb}')
    } else if word_is(w, "lsquo") {
        Some('\u{2018}')
    } else if word_is(w, "rsquo") {
        Some('\u{2019}')
    } else if word_is(w, "ldquo") {
        Some('\u{201c}')
    } else if word_is(w, "rdquo") {
        Some('\u{201d}')
    } else if word_is(w, "bull") {
        Some('\u{2022}')
    } else if word_is(w, "micro") {
        Some('\u{b5}')
    } else if word_is(w, "frac12") {
        Some('\u{bd}')
    } else if word_is(w, "frac14") {
        Some('\u{bc}')
    } else if word_is(w, "frac34") {
        Some('\u{be}')
    } else {
        None
    }
}

/// Calls `char::from_u32`, which gives the character of a Unicode scalar
/// value and `None` for any other number.
#[verifier::external_body]
fn char_from_u32(v: u32) -> (r: Option<char>)
    ensures
        r == (if v <= 0x10FFFF && !(0xD800 <= v && v <= 0xDFFF) {
            Some(v as char)
        } else {
            None::<char>
        }),
{
    char::from_u32(v)
}

/// The bound past which a code point is out of range anyway.
pub open spec fn min_nat(a: nat, b: nat) -> nat {
    if a <= b {
        a
    } else {
        b
    }
}

proof fn lemma_capped_step(v: nat, base: nat, d: nat)
    requires
        base >= 1,
        d < base,
    ensures
        min_nat(min_nat(v, 0x110000) * base + d, 0x110000) == min_nat(v * base + d, 0x110000),
{
    if v >= 0x110000 {
        assert(0x110000 * base >= 0x110000) by (nonlinear_arith)
            requires
                base >= 1,
        ;
        assert(v * base >= 0x110000 * base) by (nonlinear_arith)
            requires
                v >= 0x110000,
                base >= 1,
        ;
    }
}

/// The value of the digits `d[from..to]`, capped at 0x110000.
fn capped_value(d: &Vec<char>, from: usize, to: usize, base: u32) -> (v: u32)
    requires
        from <= to <= d@.len(),
        base == 10 || base == 16,
        forall|i: int| from <= i < to ==> (if base == 16 {
            is_hex_digit(#[trigger] d@[i])
        } else {
            is_dec(d@[i])
        }),
    ensures
        v == min_nat(digits_value(d@.subrange(from as int, to as int), base as nat), 0x110000),
{
    let mut acc: u32 = 0;
    let mut k = from;
    assert(d@.subrange(from as int, from as int) =~= Seq::<char>::empty());
    while k < to
        invariant
            from <= k <= to,
            to <= d@.len(),
            base == 10 || base == 16,
            forall|i: int| from <= i < to ==> (if base == 16 {
                is_hex_digit(#[trigger] d@[i])
            } else {
                is_dec(d@[i])
            }),
            acc == min_nat(digits_value(d@.subrange(from as int, k as int), base as nat), 0x110000),
            acc <= 0x110000,
        decreases to - k,
    {
        let c = d[k];
        let dv: u32 = if '0' <= c && c <= '9' {
            (c as u32) - ('0' as u32)
        } else if 'a' <= c && c <= 'f' {
            (c as u32) - ('a' as u32) + 10
        } else {
            (c as u32) - ('A' as u32) + 10
        };
        assert(dv as nat == digit_value(c));
        assert(dv < base);
        let next: u32 = acc * base + dv;
        proof {
            let pre = d@.subrange(from as int, k as int);
            let now = d@.subrange(from as int, k + 1);
            assert(now.drop_last() =~= pre);
            assert(now.last() == c);
            lemma_capped_step(digits_value(pre, base as nat), base as nat, dv as nat);
        }
        acc = if next > 0x110000 {
            0x110000
        } else {
            next
        };
        k = k + 1;
    }
    acc
}

fn code_point(v: u32) -> (c: char)
    requires
        v <= 0x110000,
    ensures
        forall|n: nat| min_nat(n, 0x110000) == v ==> c == code_point_char(n),
{
    if v == 0 {
        '\u{fffd}'
    } else {
        match char_from_u32(v) {
            Some(c) => c,
            None => '\u{fffd}',
        }
    }
}

/// The character of a numeric reference body `w[from..to]`.
fn numeric(w: &Vec<char>, from: usize, to: usize) -> (r: Option<char>)
    requires
        from <= to <= w@.len(),
    ensures
        r == numeric_char(w@.subrange(from as int, to as int)),
{
    let ghost body = w@.subrange(from as int, to as int);
    if to - from > 1 && (w[from] == 'x' || w[from] == 'X') {
        let mut k = from + 1;
        while k < to
            invariant
                from + 1 <= k <= to,
                to <= w@.len(),
                body == w@.subrange(from as int, to as int),
                forall|i: int| from + 1 <= i < k ==> is_hex_digit(#[trigger] w@[i]),
            decreases to - k,
        {
            let c = w[k];
            if !(('0' <= c && c <= '9') || ('a' <= c && c <= 'f') || ('A' <= c && c <= 'F')) {
                assert(body.drop_first()[k - from - 1] == c);
                return None;
            }
            k = k + 1;
        }
        assert(body.drop_first() =~= w@.subrange(from + 1, to as int));
        let v = capped_value(w, from + 1, to, 16);
        Some(code_point(v))
    } else if to > from {
        let mut k = from;
        while k < to
            invariant
                from <= k <= to,
                to <= w@.len(),
                body == w@.subrange(from as int, to as int),
                !(to - from > 1 && (w@[from as int] == 'x' || w@[from as int] == 'X')),
                forall|i: int| from <= i < k ==> is_dec(#[trigger] w@[i]),
            decreases to - k,
        {
            let c = w[k];
            if !('0' <= c && c <= '9') {
                assert(body[k - from] == c);
                assert(!is_dec(body[k - from]));
                assert(body.len() > 0 ==> body[0] == w@[from as int]);
                return None;
            }
            k = k + 1;
        }
        assert(forall|i: int| 0 <= i < body.len() ==> is_dec(#[trigger] body[i]) <== w@[i + from] == body[i]);
        let v = capped_value(w, from, to, 10);
        Some(code_point(v))
    } else {
        None
    }
}

/// Replaces the character references of a text by their characters (see `decode_text`).
pub fn decode_entities(text: &str) -> (r: String)
    ensures
        r@ == decode_text(text@),
{
    let t = chars_of(text);
    let ghost s = t@;
    let mut out = String::new();
    let mut i: usize = 0;
    while i < t.len()
        invariant
            s == t@,
            i <= t.len(),
            decode_text(s) == out@ + decode_from(s, i as int),
        decreases t.len() - i,
    {
        let c = t[i];
        if c == '&' {
            let semi = find_char(&t, ';', i + 1);
            let mut found: Option<char> = None;
            if semi < t.len() {
                let name = slice_of(&t, i + 1, semi);
                assert(name@ == s.subrange(i + 1, semi as int));
                if name.len() > 0 && name[0] == '#' {
                    found = numeric(&name, 1, name.len());
                    assert(name@.subrange(1, name@.len() as int) =~= name@.drop_first());
                } else {
                    found = named(&name);
                }
            }
            match found {
                Some(ch) => {
                    push_char(&mut out, ch);
                    assert(decode_from(s, i as int) == seq![ch] + decode_from(s, semi + 1));
                    assert(out@ + decode_from(s, semi + 1) =~= (out@.drop_last() + seq![ch]) + decode_from(s, semi + 1));
                    i = semi + 1;
                },
                None => {
                    push_char(&mut out, '&');
                    i = i + 1;
                },
            }
        } else {
            push_char(&mut out, c);
            i = i + 1;
        }
    }
    out
}

/// Text without an `&` is left exactly as it is.
pub proof fn law_plain_text_unchanged(t: Seq<char>)
    requires
        !t.contains('&'),
    ensures
        decode_text(t) == t,
{
    lemma_plain_from(t, 0);
    assert(t.subrange(0, t.len() as int) == t);
}

proof fn lemma_plain_from(t: Seq<char>, i: int)
    requires
        0 <= i <= t.len(),
        !t.contains('&'),
    ensures
        decode_from(t, i) == t.subrange(i, t.len() as int),
    decreases t.len() - i,
{
    if i < t.len() {
        assert(t[i] != '&') by {
            if t[i] == '&' {
                assert(t.contains('&'));
            }
        }
        lemma_plain_from(t, i + 1);
        assert(t.subrange(i, t.len() as int) =~= seq![t[i]] + t.subrange(i + 1, t.len() as int));
    } else {
        assert(t.subrange(i, t.len() as int) =~= Seq::<char>::empty());
    }
}

} // verus!
