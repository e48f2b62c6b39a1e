//! Character-level helpers shared by the parsers: whitespace, trimming,
//! splitting, ASCII case folding and conversions between `str`, `String`
//! and `Vec<char>`.
use vstd::prelude::*;

verus! {

/// Unicode `White_Space` property (the set `char::is_whitespace` uses).
pub open spec fn is_ws(c: char) -> bool {
    let u = c as u32;
    ||| (0x09 <= u && u <= 0x0D)
    ||| u == 0x20
    ||| u == 0x85
    ||| u == 0xA0
    ||| u == 0x1680
    ||| (0x2000 <= u && u <= 0x200A)
    ||| u == 0x2028
    ||| u == 0x2029
    ||| u == 0x202F
    ||| u == 0x205F
    ||| u == 0x3000
}

pub fn is_whitespace(c: char) -> (b: bool)
    ensures
        b == is_ws(c),
{
    let u = c as u32;
    (0x09 <= u && u <= 0x0D) || u == 0x20 || u == 0x85 || u == 0xA0 || u == 0x1680 || (0x2000
        <= u && u <= 0x200A) || u == 0x2028 || u == 0x2029 || u == 0x202F || u == 0x205F || u
        == 0x3000
}

pub open spec fn is_digit(c: char) -> bool {
    '0' <= c && c <= '9'
}

pub open spec fn is_upper(c: char) -> bool {
    'A' <= c && c <= 'Z'
}

/// ASCII lower-casing of one character (`char::to_ascii_lowercase`).
pub open spec fn lower(c: char) -> char {
    if is_upper(c) {
        ((c as u32 + 32) as u8) as char
    } else {
        c
    }
}

/// ASCII lower-casing of a whole string (`str::to_ascii_lowercase`).
pub open spec fn lower_seq(s: Seq<char>) -> Seq<char> {
    s.map_values(|c: char| lower(c))
}

/// ASCII case-insensitive equality (`str::eq_ignore_ascii_case`).
pub open spec fn eq_ignore_case(a: Seq<char>, b: Seq<char>) -> bool {
    lower_seq(a) == lower_seq(b)
}

pub fn lower_char(c: char) -> (r: char)
    ensures
        r == lower(c),
{
    if 'A' <= c && c <= 'Z' {
        ((c as u32 + 32) as u8) as char
    } else {
        c
    }
}

/// Index of the first non-whitespace character at or after `i`.
pub open spec fn lead_ws(s: Seq<char>, i: int) -> int
    decreases s.len() - i,
{
    if 0 <= i < s.len() && is_ws(s[i]) {
        lead_ws(s, i + 1)
    } else {
        i
    }
}

/// End of the string once trailing whitespace before `j` is removed.
pub open spec fn trail_ws(s: Seq<char>, j: int) -> int
    decreases j,
{
    if 0 < j <= s.len() && is_ws(s[j - 1]) {
        trail_ws(s, j - 1)
    } else {
        j
    }
}

pub open spec fn trim_start(s: Seq<char>) -> Seq<char> {
    s.subrange(lead_ws(s, 0), s.len() as int)
}

pub open spec fn trim_end(s: Seq<char>) -> Seq<char> {
    s.subrange(0, trail_ws(s, s.len() as int))
}

/// `str::trim`: leading and trailing whitespace removed.
pub open spec fn trim(s: Seq<char>) -> Seq<char> {
    trim_end(trim_start(s))
}

/// First index at or after `i` holding `c`, or the length when there is none.
pub open spec fn find_from(s: Seq<char>, c: char, i: int) -> int
    decreases s.len() - i,
{
    if 0 <= i < s.len() {
        if s[i] == c {
            i
        } else {
            find_from(s, c, i + 1)
        }
    } else {
        i
    }
}

/// `str::split_once(c)`: the text before and after the first `c`.
pub open spec fn split_once(s: Seq<char>, c: char) -> Option<(Seq<char>, Seq<char>)> {
    let k = find_from(s, c, 0);
    if k < s.len() {
        Some((s.subrange(0, k), s.subrange(k + 1, s.len() as int)))
    } else {
        None
    }
}

/// `str::split(c)`: the pieces between occurrences of `c` (always at least one).
pub open spec fn split_on(s: Seq<char>, c: char) -> Seq<Seq<char>>
    decreases s.len(),
{
    if s.len() == 0 {
        seq![Seq::<char>::empty()]
    } else {
        let rest = split_on(s.drop_last(), c);
        if s.last() == c {
            rest.push(Seq::<char>::empty())
        } else {
            rest.update(rest.len() - 1, rest.last().push(s.last()))
        }
    }
}

/// Pieces split at whitespace, keeping the empty pieces.
pub open spec fn split_ws_raw(s: Seq<char>) -> Seq<Seq<char>>
    decreases s.len(),
{
    if s.len() == 0 {
        seq![Seq::<char>::empty()]
    } else {
        let rest = split_ws_raw(s.drop_last());
        if is_ws(s.last()) {
            rest.push(Seq::<char>::empty())
        } else {
            rest.update(rest.len() - 1, rest.last().push(s.last()))
        }
    }
}

pub open spec fn non_empty(p: Seq<char>) -> bool {
    p.len() > 0
}

/// `str::split_whitespace`: the non-empty runs of non-whitespace characters.
pub open spec fn split_ws(s: Seq<char>) -> Seq<Seq<char>> {
    split_ws_raw(s).filter(|p: Seq<char>| non_empty(p))
}

pub proof fn lemma_split_on_len(s: Seq<char>, c: char)
    ensures
        split_on(s, c).len() >= 1,
    decreases s.len(),
{
    if s.len() > 0 {
        lemma_split_on_len(s.drop_last(), c);
    }
}

pub proof fn lemma_split_ws_raw_len(s: Seq<char>)
    ensures
        split_ws_raw(s).len() >= 1,
    decreases s.len(),
{
    if s.len() > 0 {
        lemma_split_ws_raw_len(s.drop_last());
    }
}

/// The characters of a string slice.
pub fn chars_of(s: &str) -> (v: Vec<char>)
    ensures
        v@ == s@,
{
    let mut v: Vec<char> = Vec::new();
    for c in it: s.chars()
        invariant
            v@ == it.seq().take(it.index() as int),
    {
        v.push(c);
    }
    v
}

/// Calls `String::push`: trusted to append `c` at the end of `s` and change
/// nothing else.
#[verifier::external_body]
pub(crate) fn push_char(s: &mut String, c: char)
    ensures
        final(s)@ == old(s)@.push(c),
{
    s.push(c);
}

/// The string made of `v[from..to]`.
pub fn string_of(v: &Vec<char>, from: usize, to: usize) -> (s: String)
    requires
        from <= to <= v.len(),
    ensures
        s@ == v@.subrange(from as int, to as int),
{
    let mut s = String::new();
    let mut i = from;
    while i < to
        invariant
            from <= i <= to <= v.len(),
            s@ == v@.subrange(from as int, i as int),
        decreases to - i,
    {
        push_char(&mut s, v[i]);
        i = i + 1;
    }
    s
}

/// The string made of all of `v`.
pub fn string_of_all(v: &Vec<char>) -> (s: String)
    ensures
        s@ == v@,
{
    let s = string_of(v, 0, v.len());
    assert(v@.subrange(0, v@.len() as int) == v@);
    s
}

/// `v[from..to]` as a vector.
pub fn slice_of(v: &Vec<char>, from: usize, to: usize) -> (r: Vec<char>)
    requires
        from <= to <= v.len(),
    ensures
        r@ == v@.subrange(from as int, to as int),
{
    let mut r: Vec<char> = Vec::new();
    let mut i = from;
    while i < to
        invariant
            from <= i <= to <= v.len(),
            r@ == v@.subrange(from as int, i as int),
        decreases to - i,
    {
        r.push(v[i]);
        i = i + 1;
    }
    r
}

/// Index of the first non-whitespace character of `v` at or after `i`.
pub fn skip_ws(v: &Vec<char>, i: usize) -> (k: usize)
    requires
        i <= v.len(),
    ensures
        k as int == lead_ws(v@, i as int),
        i <= k <= v.len(),
{
    let mut k = i;
    while k < v.len() && is_whitespace(v[k])
        invariant
            i <= k <= v.len(),
            lead_ws(v@, i as int) == lead_ws(v@, k as int),
        decreases v.len() - k,
    {
        k = k + 1;
    }
    k
}

/// End of `v[..j]` once trailing whitespace is removed.
pub fn back_ws(v: &Vec<char>, j: usize) -> (k: usize)
    requires
        j <= v.len(),
    ensures
        k as int == trail_ws(v@, j as int),
        k <= j,
{
    let mut k = j;
    while k > 0 && is_whitespace(v[k - 1])
        invariant
            k <= j <= v.len(),
            trail_ws(v@, j as int) == trail_ws(v@, k as int),
        decreases k,
    {
        k = k - 1;
    }
    k
}

proof fn lemma_lead_ws_bounds(s: Seq<char>, i: int)
    requires
        0 <= i <= s.len(),
    ensures
        i <= lead_ws(s, i) <= s.len(),
    decreases s.len() - i,
{
    if i < s.len() && is_ws(s[i]) {
        lemma_lead_ws_bounds(s, i + 1);
    }
}

proof fn lemma_trail_ws_bounds(s: Seq<char>, j: int)
    requires
        0 <= j <= s.len(),
    ensures
        0 <= trail_ws(s, j) <= j,
    decreases j,
{
    if 0 < j && is_ws(s[j - 1]) {
        lemma_trail_ws_bounds(s, j - 1);
    }
}

/// `trail_ws` only looks at the characters before `j`.
proof fn lemma_trail_ws_prefix(s: Seq<char>, t: Seq<char>, j: int)
    requires
        0 <= j <= s.len(),
        j <= t.len(),
        s.subrange(0, j) == t.subrange(0, j),
    ensures
        trail_ws(s, j) == trail_ws(t, j),
    decreases j,
{
    if 0 < j {
        assert(s[j - 1] == s.subrange(0, j)[j - 1]);
        assert(t[j - 1] == t.subrange(0, j)[j - 1]);
        assert(s.subrange(0, j - 1) == s.subrange(0, j).subrange(0, j - 1));
        assert(t.subrange(0, j - 1) == t.subrange(0, j).subrange(0, j - 1));
        lemma_trail_ws_prefix(s, t, j - 1);
    }
}

/// `trail_ws` on a suffix `s[a..]` is `trail_ws` on `s` shifted by `a`, once it stays above `a`.
proof fn lemma_trail_ws_shift(s: Seq<char>, a: int, j: int)
    requires
        0 <= a <= j <= s.len(),
        trail_ws(s, j) >= a,
    ensures
        trail_ws(s.subrange(a, s.len() as int), j - a) == trail_ws(s, j) - a,
    decreases j,
{
    let t = s.subrange(a, s.len() as int);
    if 0 < j && is_ws(s[j - 1]) {
        if j - 1 >= a {
            assert(t[j - a - 1] == s[j - 1]);
            lemma_trail_ws_shift(s, a, j - 1);
        } else {
            // j == a, so trail_ws(s, j) < a: impossible
            lemma_trail_ws_bounds(s, j - 1);
        }
    } else {
        if 0 < j - a {
            assert(t[j - a - 1] == s[j - 1]);
        }
    }
}

/// Bounds `(a, b)` with `v[a..b]` equal to the trimmed text of `v[from..to]`.
pub fn trim_bounds(v: &Vec<char>, from: usize, to: usize) -> (r: (usize, usize))
    requires
        from <= to <= v.len(),
    ensures
        from <= r.0 <= r.1 <= to,
        v@.subrange(r.0 as int, r.1 as int) == trim(v@.subrange(from as int, to as int)),
{
    let ghost s = v@.subrange(from as int, to as int);
    let w = slice_of(v, from, to);
    let a = skip_ws(&w, 0);
    let b = back_ws(&w, w.len());
    proof {
        lemma_lead_ws_bounds(s, 0);
        lemma_trail_ws_bounds(s, s.len() as int);
        let ts = trim_start(s);
        assert(ts == s.subrange(a as int, s.len() as int));
        // trim_end(ts) = ts[0 .. trail_ws(ts, len)]
        let k = trail_ws(ts, ts.len() as int);
        if b >= a {
            lemma_trail_ws_shift(s, a as int, s.len() as int);
            assert(k == b - a);
            assert(trim(s) == s.subrange(a as int, b as int));
        } else {
            // everything is whitespace from a on; then lead_ws(s, 0) = len
            lemma_all_ws_trim(s, a as int, b as int);
        }
    }
    if b >= a {
        assert(v@.subrange((from + a) as int, (from + b) as int) == s.subrange(a as int, b as int));
        (from + a, from + b)
    } else {
        assert(v@.subrange((from + a) as int, (from + a) as int) =~= Seq::<char>::empty());
        (from + a, from + a)
    }
}

/// Leading whitespace from `i` ends at `a` when everything from `i` to `a` is
/// whitespace and what stands at `a` is not.
pub proof fn lemma_lead_ws_reach(s: Seq<char>, i: int, a: int)
    requires
        0 <= i <= a <= s.len(),
        forall|m: int| i <= m < a ==> is_ws(#[trigger] s[m]),
        a < s.len() ==> !is_ws(s[a]),
    ensures
        lead_ws(s, i) == a,
    decreases a - i,
{
    if i < a {
        lemma_lead_ws_reach(s, i + 1, a);
    }
}

proof fn lemma_lead_ws_all(s: Seq<char>, i: int, k: int)
    requires
        0 <= i <= k <= s.len(),
        lead_ws(s, i) >= k,
    ensures
        forall|m: int| i <= m < k ==> is_ws(s[m]),
    decreases k - i,
{
    if i < k {
        assert(is_ws(s[i]));
        lemma_lead_ws_all(s, i + 1, k);
    }
}

proof fn lemma_trail_ws_stop(s: Seq<char>, j: int)
    requires
        0 <= j <= s.len(),
    ensures
        trail_ws(s, j) == 0 || !is_ws(s[trail_ws(s, j) - 1]),
    decreases j,
{
    if 0 < j && is_ws(s[j - 1]) {
        lemma_trail_ws_stop(s, j - 1);
    }
}

proof fn lemma_all_ws_trim(s: Seq<char>, a: int, b: int)
    requires
        a == lead_ws(s, 0),
        b == trail_ws(s, s.len() as int),
        0 <= a <= s.len(),
        0 <= b <= s.len(),
        b < a,
    ensures
        trim(s).len() == 0,
{
    lemma_lead_ws_all(s, 0, a);
    lemma_trail_ws_stop(s, s.len() as int);
    if b > 0 {
        assert(is_ws(s[b - 1]));
    }
    if a < s.len() {
        // lead stopped at a non-ws char at a, but trail_ws would have stopped at or after a + 1
        lemma_lead_ws_stop(s, 0);
        lemma_trail_ws_above(s, s.len() as int, a);
    } else {
        let ts = trim_start(s);
        assert(ts.len() == 0);
    }
}

proof fn lemma_lead_ws_stop(s: Seq<char>, i: int)
    requires
        0 <= i <= s.len(),
    ensures
        lead_ws(s, i) == s.len() || !is_ws(s[lead_ws(s, i)]),
    decreases s.len() - i,
{
    if i < s.len() && is_ws(s[i]) {
        lemma_lead_ws_stop(s, i + 1);
    }
}

proof fn lemma_trail_ws_above(s: Seq<char>, j: int, a: int)
    requires
        0 <= a < j <= s.len(),
        !is_ws(s[a]),
    ensures
        trail_ws(s, j) > a,
    decreases j,
{
    if is_ws(s[j - 1]) {
        lemma_trail_ws_above(s, j - 1, a);
    }
}

/// The trimmed text of a string slice.
pub fn trim_str(s: &str) -> (r: String)
    ensures
        r@ == trim(s@),
{
    let v = chars_of(s);
    let (a, b) = trim_bounds(&v, 0, v.len());
    assert(v@.subrange(0, v@.len() as int) == v@);
    string_of(&v, a, b)
}

/// Index of the first `c` in `v` at or after `i`, or `v.len()`.
pub fn find_char(v: &Vec<char>, c: char, i: usize) -> (k: usize)
    requires
        i <= v.len(),
    ensures
        k as int == find_from(v@, c, i as int),
        i <= k <= v.len(),
        forall|m: int| i <= m < k ==> v@[m] != c,
        k < v.len() ==> v@[k as int] == c,
{
    let mut k = i;
    while k < v.len() && v[k] != c
        invariant
            i <= k <= v.len(),
            find_from(v@, c, i as int) == find_from(v@, c, k as int),
            forall|m: int| i <= m < k ==> v@[m] != c,
        decreases v.len() - k,
    {
        k = k + 1;
    }
    k
}

/// `find_from` on a subrange `s[a..b]` is `find_from` on `s`, capped at `b`, shifted by `a`.
pub proof fn lemma_find_from_sub(s: Seq<char>, c: char, a: int, b: int, i: int)
    requires
        0 <= a <= i <= b <= s.len(),
    ensures
        find_from(s.subrange(a, b), c, i - a) == (if find_from(s, c, i) < b { find_from(s, c, i) } else { b }) - a,
    decreases b - i,
{
    if i < b {
        assert(s.subrange(a, b)[i - a] == s[i]);
        if s[i] != c {
            lemma_find_from_sub(s, c, a, b, i + 1);
        }
    } else {
        lemma_find_from_ge(s, c, i);
    }
}

pub proof fn lemma_find_from_ge(s: Seq<char>, c: char, i: int)
    requires
        0 <= i,
    ensures
        find_from(s, c, i) >= i,
    decreases s.len() - i,
{
    if 0 <= i < s.len() && s[i] != c {
        lemma_find_from_ge(s, c, i + 1);
    }
}

/// Whether `c` occurs in `v`.
pub fn contains_char(v: &Vec<char>, c: char) -> (b: bool)
    ensures
        b == v@.contains(c),
{
    let k = find_char(v, c, 0);
    if k < v.len() {
        assert(v@[k as int] == c);
        true
    } else {
        assert(forall|m: int| 0 <= m < v@.len() ==> v@[m] != c);
        false
    }
}

/// Equality of two character vectors.
pub fn chars_eq(a: &Vec<char>, b: &Vec<char>) -> (r: bool)
    ensures
        r == (a@ == b@),
{
    if a.len() != b.len() {
        return false;
    }
    let mut i: usize = 0;
    while i < a.len()
        invariant
            a@.len() == b@.len(),
            i <= a.len(),
            forall|m: int| 0 <= m < i ==> a@[m] == b@[m],
        decreases a.len() - i,
    {
        if a[i] != b[i] {
            return false;
        }
        i = i + 1;
    }
    assert(a@ =~= b@);
    true
}

/// Equality of two strings.
pub fn str_eq(a: &str, b: &str) -> (r: bool)
    ensures
        r == (a@ == b@),
{
    let va = chars_of(a);
    let vb = chars_of(b);
    chars_eq(&va, &vb)
}

/// `v[from..to]` equals the literal `lit` (given as characters).
pub fn range_eq(v: &Vec<char>, from: usize, to: usize, lit: &Vec<char>) -> (r: bool)
    requires
        from <= to <= v.len(),
    ensures
        r == (v@.subrange(from as int, to as int) == lit@),
{
    if to - from != lit.len() {
        return false;
    }
    let mut i: usize = 0;
    while i < lit.len()
        invariant
            to - from == lit@.len(),
            from <= to <= v.len(),
            i <= lit.len(),
            forall|m: int| 0 <= m < i ==> v@[from + m] == lit@[m],
        decreases lit.len() - i,
    {
        if v[from + i] != lit[i] {
            assert(v@.subrange(from as int, to as int)[i as int] != lit@[i as int]);
            return false;
        }
        i = i + 1;
    }
    assert(v@.subrange(from as int, to as int) =~= lit@);
    true
}

/// Whether `v[from..]` begins with `lit`.
pub fn starts_with_at(v: &Vec<char>, from: usize, lit: &Vec<char>) -> (r: bool)
    requires
        from <= v.len(),
    ensures
        r == (from + lit@.len() <= v@.len() && v@.subrange(from as int, from + lit@.len()) == lit@),
{
    if lit.len() > v.len() - from {
        return false;
    }
    range_eq(v, from, from + lit.len(), lit)
}

/// The ASCII lower-cased copy of `v[from..to]`.
pub fn lower_range(v: &Vec<char>, from: usize, to: usize) -> (r: Vec<char>)
    requires
        from <= to <= v.len(),
    ensures
        r@ == lower_seq(v@.subrange(from as int, to as int)),
{
    let mut r: Vec<char> = Vec::new();
    let mut i = from;
    while i < to
        invariant
            from <= i <= to <= v.len(),
            r@ == lower_seq(v@.subrange(from as int, i as int)),
        decreases to - i,
    {
        r.push(lower_char(v[i]));
        i = i + 1;
        assert(lower_seq(v@.subrange(from as int, i as int)) =~= lower_seq(
            v@.subrange(from as int, (i - 1) as int),
        ).push(lower(v@[i - 1])));
    }
    r
}

/// `str::to_ascii_lowercase`.
pub fn lower_str(s: &str) -> (r: String)
    ensures
        r@ == lower_seq(s@),
{
    let v = chars_of(s);
    let l = lower_range(&v, 0, v.len());
    assert(v@.subrange(0, v@.len() as int) == v@);
    string_of_all(&l)
}

/// `str::eq_ignore_ascii_case` on two character ranges.
pub fn eq_ignore_case_vec(a: &Vec<char>, b: &Vec<char>) -> (r: bool)
    ensures
        r == eq_ignore_case(a@, b@),
{
    let la = lower_range(a, 0, a.len());
    let lb = lower_range(b, 0, b.len());
    assert(a@.subrange(0, a@.len() as int) == a@);
    assert(b@.subrange(0, b@.len() as int) == b@);
    chars_eq(&la, &lb)
}

/// The pieces of `v[from..to]` split at `c`, as character vectors.
pub fn split_char(v: &Vec<char>, from: usize, to: usize, c: char) -> (r: Vec<Vec<char>>)
    requires
        from <= to <= v.len(),
    ensures
        r@.map_values(|p: Vec<char>| p@) == split_on(v@.subrange(from as int, to as int), c),
{
    let mut done: Vec<Vec<char>> = Vec::new();
    let mut cur: Vec<char> = Vec::new();
    let mut i = from;
    while i < to
        invariant
            from <= i <= to <= v.len(),
            done@.map_values(|p: Vec<char>| p@).push(cur@) == split_on(
                v@.subrange(from as int, i as int),
                c,
            ),
        decreases to - i,
    {
        let ghost before = v@.subrange(from as int, i as int);
        let ghost now = v@.subrange(from as int, (i + 1) as int);
        assert(now.drop_last() =~= before);
        assert(now.last() == v@[i as int]);
        proof {
            lemma_split_on_len(before, c);
        }
        if v[i] == c {
            let ghost old_done = done@.map_values(|p: Vec<char>| p@);
            let finished = cur;
            done.push(finished);
            cur = Vec::new();
            assert(done@.map_values(|p: Vec<char>| p@) =~= old_done.push(finished@));
            assert(done@.map_values(|p: Vec<char>| p@).push(cur@) =~= split_on(now, c));
        } else {
            let ghost old_cur = cur@;
            cur.push(v[i]);
            assert(done@.map_values(|p: Vec<char>| p@).push(cur@) =~= split_on(now, c));
        }
        i = i + 1;
    }
    let ghost old_done = done@.map_values(|p: Vec<char>| p@);
    let last = cur;
    done.push(last);
    assert(done@.map_values(|p: Vec<char>| p@) =~= old_done.push(last@));
    done
}

/// The runs of non-whitespace characters of `v[from..to]` (`str::split_whitespace`).
pub fn split_whitespace(v: &Vec<char>, from: usize, to: usize) -> (r: Vec<Vec<char>>)
    requires
        from <= to <= v.len(),
    ensures
        r@.map_values(|p: Vec<char>| p@) == split_ws(v@.subrange(from as int, to as int)),
{
    let mut done: Vec<Vec<char>> = Vec::new();
    let mut cur: Vec<char> = Vec::new();
    let mut i = from;
    while i < to
        invariant
            from <= i <= to <= v.len(),
            done@.map_values(|p: Vec<char>| p@) == split_ws_raw(
                v@.subrange(from as int, i as int),
            ).drop_last().filter(|p: Seq<char>| non_empty(p)),
            cur@ == split_ws_raw(v@.subrange(from as int, i as int)).last(),
        decreases to - i,
    {
        let ghost before = v@.subrange(from as int, i as int);
        let ghost now = v@.subrange(from as int, (i + 1) as int);
        assert(now.drop_last() =~= before);
        assert(now.last() == v@[i as int]);
        proof {
            lemma_split_ws_raw_len(before);
        }
        let ghost raw = split_ws_raw(before);
        if is_whitespace(v[i]) {
            let ghost old_done = done@.map_values(|p: Vec<char>| p@);
            assert(split_ws_raw(now) == raw.push(Seq::<char>::empty()));
            assert(split_ws_raw(now).drop_last() =~= raw);
            assert(raw =~= raw.drop_last().push(raw.last()));
            proof {
                raw.drop_last().lemma_filter_push(raw.last(), |p: Seq<char>| non_empty(p));
            }
            if cur.len() > 0 {
                let finished = cur;
                done.push(finished);
                assert(done@.map_values(|p: Vec<char>| p@) =~= old_done.push(finished@));
            }
            cur = Vec::new();
        } else {
            cur.push(v[i]);
            assert(split_ws_raw(now).drop_last() =~= raw.drop_last());
        }
        i = i + 1;
    }
    let ghost raw = split_ws_raw(v@.subrange(from as int, to as int));
    proof {
        lemma_split_ws_raw_len(v@.subrange(from as int, to as int));
        assert(raw =~= raw.drop_last().push(raw.last()));
        raw.drop_last().lemma_filter_push(raw.last(), |p: Seq<char>| non_empty(p));
    }
    if cur.len() > 0 {
        let ghost old_done = done@.map_values(|p: Vec<char>| p@);
        let last = cur;
        done.push(last);
        assert(done@.map_values(|p: Vec<char>| p@) =~= old_done.push(last@));
    }
    done
}

} // verus!

verus! {

/// The character of a decimal digit.
pub open spec fn digit_char(d: nat) -> char {
    ((48 + d) as u8) as char
}

/// The decimal notation of a natural number.
pub open spec fn decimal(n: nat) -> Seq<char>
    decreases n,
{
    if n < 10 {
        seq![digit_char(n)]
    } else {
        decimal(n / 10).push(digit_char(n % 10))
    }
}

/// Appends the decimal notation of `n`.
pub fn push_decimal(s: &mut String, n: u64)
    ensures
        final(s)@ == old(s)@ + decimal(n as nat),
    decreases n,
{
    if n >= 10 {
        push_decimal(s, n / 10);
    }
    let d = ((n % 10) as u8 + 48) as char;
    push_char(s, d);
    assert(final(s)@ =~= old(s)@ + decimal(n as nat));
}

/// Appends a string slice.
pub fn push_str(s: &mut String, t: &str)
    ensures
        final(s)@ == old(s)@ + t@,
{
    let v = chars_of(t);
    let mut i: usize = 0;
    let ghost s0 = s@;
    while i < v.len()
        invariant
            i <= v.len(),
            v@ == t@,
            s@ == s0 + v@.subrange(0, i as int),
        decreases v.len() - i,
    {
        push_char(s, v[i]);
        i = i + 1;
        assert(s@ =~= s0 + v@.subrange(0, i as int));
    }
    assert(v@.subrange(0, v@.len() as int) == v@);
}

/// `s` ends with `d`.
pub open spec fn ends_with(s: Seq<char>, d: Seq<char>) -> bool {
    d.len() <= s.len() && s.subrange(s.len() - d.len(), s.len() as int) == d
}

/// `s` starts with `d`.
pub open spec fn starts_with(s: Seq<char>, d: Seq<char>) -> bool {
    d.len() <= s.len() && s.subrange(0, d.len() as int) == d
}

/// Whether `s` starts with `d`.
pub fn str_starts_with(s: &str, d: &str) -> (b: bool)
    ensures
        b == starts_with(s@, d@),
{
    let v = chars_of(s);
    let w = chars_of(d);
    starts_with_at(&v, 0, &w)
}

/// Whether `s` ends with `d`.
pub fn str_ends_with(s: &str, d: &str) -> (b: bool)
    ensures
        b == ends_with(s@, d@),
{
    let v = chars_of(s);
    let w = chars_of(d);
    if w.len() > v.len() {
        return false;
    }
    range_eq(&v, v.len() - w.len(), v.len(), &w)
}

/// The extended grapheme clusters (Unicode Standard Annex #29) of a text, as
/// `unicode_segmentation` splits it.
pub uninterp spec fn spec_graphemes(s: Seq<char>) -> Seq<Seq<char>>;

/// Calls `UnicodeSegmentation::graphemes(text, true)`. The crate yields
/// consecutive non-empty slices of the text from its start to its end, so the
/// clusters are non-empty and together spell the text; where the boundaries
/// fall is not stated.
#[verifier::external_body]
fn extended_graphemes(text: &str) -> (r: Vec<String>)
    ensures
        r@.map_values(|g: String| g@) == spec_graphemes(text@),
        r@.map_values(|g: String| g@).flatten() == text@,
        forall|i: int| 0 <= i < r@.len() ==> (#[trigger] r@[i])@.len() > 0,
{
    unicode_segmentation::UnicodeSegmentation::graphemes(text, true).map(|g| g.to_string()).collect()
}

/// A sequence of non-empty pieces has no more pieces than its concatenation has items.
proof fn lemma_pieces_le_flatten(gs: Seq<Seq<char>>)
    requires
        forall|i: int| 0 <= i < gs.len() ==> (#[trigger] gs[i]).len() > 0,
    ensures
        gs.len() <= gs.flatten().len(),
    decreases gs.len(),
{
    if gs.len() > 0 {
        assert(gs.drop_first().len() == gs.len() - 1);
        assert forall|i: int| 0 <= i < gs.drop_first().len() implies (#[trigger] gs.drop_first()[i]).len() > 0 by {
            assert(gs.drop_first()[i] == gs[i + 1]);
        }
        lemma_pieces_le_flatten(gs.drop_first());
        assert(gs[0].len() > 0);
    }
}

/// The number of user-perceived characters (extended grapheme clusters) of a
/// text; never more than its number of `char`s.
pub fn grapheme_count(text: &str) -> (n: usize)
    ensures
        n == spec_graphemes(text@).len(),
        n <= text@.len(),
{
    let gs = extended_graphemes(text);
    proof {
        let v = gs@.map_values(|g: String| g@);
        assert forall|i: int| 0 <= i < v.len() implies (#[trigger] v[i]).len() > 0 by {
            assert(v[i] == gs@[i]@);
        }
        lemma_pieces_le_flatten(v);
    }
    gs.len()
}

/// Whether `char::is_alphabetic` holds (Unicode `Alphabetic`).
pub uninterp spec fn spec_is_alphabetic(c: char) -> bool;

/// Whether `char::is_alphanumeric` holds (Unicode `Alphabetic` or `Numeric`).
pub uninterp spec fn spec_is_alphanumeric(c: char) -> bool;

/// Calls `char::is_alphabetic`; the contract names its result.
#[verifier::external_body]
pub(crate) fn char_is_alphabetic(c: char) -> (b: bool)
    ensures
        b == spec_is_alphabetic(c),
{
    c.is_alphabetic()
}

/// Calls `char::is_alphanumeric`; the contract names its result.
#[verifier::external_body]
pub(crate) fn char_is_alphanumeric(c: char) -> (b: bool)
    ensures
        b == spec_is_alphanumeric(c),
{
    c.is_alphanumeric()
}



/// No whitespace at either end.
pub open spec fn trimmed(s: Seq<char>) -> bool {
    s.len() > 0 ==> !is_ws(s[0]) && !is_ws(s[s.len() - 1])
}

/// What `trim` gives has no whitespace at either end.
pub proof fn lemma_trim_trimmed(s: Seq<char>)
    ensures
        trimmed(trim(s)),
{
    lemma_lead_ws_bounds(s, 0);
    lemma_lead_ws_stop(s, 0);
    let t = trim_start(s);
    lemma_trail_ws_bounds(t, t.len() as int);
    lemma_trail_ws_stop(t, t.len() as int);
}

/// Lower-casing a character keeps it whitespace or not, and lower-casing
/// twice is lower-casing once.
pub proof fn lemma_lower_char(c: char)
    ensures
        lower(lower(c)) == lower(c),
        is_ws(lower(c)) == is_ws(c),
{
    if is_upper(c) {
        let u = c as u32;
        assert(65 <= u <= 90);
        let b = (u + 32) as u8;
        assert(b == u + 32);
        assert((b as char) as u32 == b as u32);
    }
}

/// Lower-casing a string keeps it trimmed, and is idempotent.
pub proof fn lemma_lower_seq_trimmed(s: Seq<char>)
    ensures
        lower_seq(lower_seq(s)) == lower_seq(s),
        lower_seq(s).len() == s.len(),
        trimmed(s) ==> trimmed(lower_seq(s)),
{
    assert forall|i: int| 0 <= i < s.len() implies #[trigger] lower_seq(lower_seq(s))[i] == lower_seq(s)[i] by {
        lemma_lower_char(s[i]);
    }
    assert(lower_seq(lower_seq(s)) =~= lower_seq(s));
    if s.len() > 0 {
        lemma_lower_char(s[0]);
        lemma_lower_char(s[s.len() - 1]);
    }
}


/// Lower-casing never makes or unmakes a `>`.
pub proof fn lemma_lower_not_gt(c: char)
    ensures
        (lower(c) == '>') == (c == '>'),
{
    if is_upper(c) {
        let u = c as u32;
        let b = (u + 32) as u8;
        assert(b == u + 32);
        assert((b as char) as u32 == b as u32);
    }
}

/// Leading whitespace ends inside the string.
pub proof fn lemma_lead_ws_bounds_pub(s: Seq<char>, i: int)
    requires
        0 <= i <= s.len(),
    ensures
        i <= lead_ws(s, i) <= s.len(),
{
    lemma_lead_ws_bounds(s, i);
}


/// A text without whitespace is its own trim.
pub proof fn lemma_trim_no_ws(s: Seq<char>)
    requires
        forall|i: int| 0 <= i < s.len() ==> !is_ws(#[trigger] s[i]),
    ensures
        trim(s) == s,
{
    assert(lead_ws(s, 0) == 0);
    assert(s.subrange(0, s.len() as int) =~= s);
    assert(trail_ws(s, s.len() as int) == s.len());
}

/// A text without upper-case ASCII letters is its own lower-casing.
pub proof fn lemma_lower_no_upper(s: Seq<char>)
    requires
        forall|i: int| 0 <= i < s.len() ==> !is_upper(#[trigger] s[i]),
    ensures
        lower_seq(s) == s,
{
    assert(lower_seq(s) =~= s);
}

} // verus!
