//! Cookies and the cookie jar, Web Storage, and the HTTP cache.
use vstd::prelude::*;
use crate::strmap::{StrMap, keys_distinct, map_of};
use crate::text::{
    chars_of, chars_eq, ends_with, find_char, lower_range, lower_seq, push_char, push_str,
    split_char, split_on, split_once, starts_with, str_ends_with, str_eq, str_starts_with,
    string_of, string_of_all, trim, trim_bounds, trail_ws, is_ws, find_from, char_is_alphanumeric,
    spec_is_alphanumeric,
};
use crate::urls::{parse_url, spec_parse_url, ParsedUrl, UrlView};

verus! {

/// A cookie, as mathematical values.
pub struct CookieView {
    pub name: Seq<char>,
    pub value: Seq<char>,
    pub domain: Seq<char>,
    pub path: Seq<char>,
    pub secure: bool,
    pub http_only: bool,
}

#[derive(Debug, Clone, PartialEq)]
pub struct Cookie {
    pub name: String,
    pub value: String,
    pub domain: String,
    pub path: String,
    pub secure: bool,
    pub http_only: bool,
}

impl View for Cookie {
    type V = CookieView;

    open spec fn view(&self) -> CookieView {
        CookieView {
            name: self.name@,
            value: self.value@,
            domain: self.domain@,
            path: self.path@,
            secure: self.secure,
            http_only: self.http_only,
        }
    }
}

/// Index of the first character at or after `i` other than `c`.
pub open spec fn skip_char(s: Seq<char>, c: char, i: int) -> int
    decreases s.len() - i,
{
    if 0 <= i < s.len() && s[i] == c {
        skip_char(s, c, i + 1)
    } else {
        i
    }
}

/// End of `s[..j]` once trailing `c` characters are removed.
pub open spec fn back_char(s: Seq<char>, c: char, j: int) -> int
    decreases j,
{
    if 0 < j <= s.len() && s[j - 1] == c {
        back_char(s, c, j - 1)
    } else {
        j
    }
}

/// `str::trim_start_matches(c)`.
pub open spec fn strip_start(s: Seq<char>, c: char) -> Seq<char> {
    s.subrange(skip_char(s, c, 0), s.len() as int)
}

/// `str::trim_end_matches(c)`.
pub open spec fn strip_end(s: Seq<char>, c: char) -> Seq<char> {
    s.subrange(0, back_char(s, c, s.len() as int))
}

/// `str::trim_matches(c)`.
pub open spec fn strip_both(s: Seq<char>, c: char) -> Seq<char> {
    strip_end(strip_start(s, c), c)
}

fn skip_char_exec(v: &Vec<char>, c: char, i: usize) -> (k: usize)
    requires
        i <= v.len(),
    ensures
        k as int == skip_char(v@, c, i as int),
        i <= k <= v.len(),
{
    let mut k = i;
    while k < v.len() && v[k] == c
        invariant
            i <= k <= v.len(),
            skip_char(v@, c, i as int) == skip_char(v@, c, k as int),
        decreases v.len() - k,
    {
        k = k + 1;
    }
    k
}

fn back_char_exec(v: &Vec<char>, c: char, j: usize) -> (k: usize)
    requires
        j <= v.len(),
    ensures
        k as int == back_char(v@, c, j as int),
        k <= j,
{
    let mut k = j;
    while k > 0 && v[k - 1] == c
        invariant
            k <= j <= v.len(),
            back_char(v@, c, j as int) == back_char(v@, c, k as int),
        decreases k,
    {
        k = k - 1;
    }
    k
}

/// The characters of `v[from..to]` with leading `c` removed.
fn strip_start_vec(v: &Vec<char>, from: usize, to: usize, c: char) -> (r: Vec<char>)
    requires
        from <= to <= v.len(),
    ensures
        r@ == strip_start(v@.subrange(from as int, to as int), c),
{
    let w = crate::text::slice_of(v, from, to);
    let k = skip_char_exec(&w, c, 0);
    crate::text::slice_of(&w, k, w.len())
}

/// The characters of `v` with leading and trailing `c` removed.
fn strip_both_vec(v: &Vec<char>, c: char) -> (r: Vec<char>)
    ensures
        r@ == strip_both(v@, c),
{
    let w = strip_start_vec(v, 0, v.len(), c);
    assert(v@.subrange(0, v@.len() as int) == v@);
    let k = back_char_exec(&w, c, w.len());
    crate::text::slice_of(&w, 0, k)
}

/// What one attribute of a `Set-Cookie` header does to the cookie being built:
/// `Domain=` (leading dots dropped) and `Path=` set their fields, `Secure` and
/// `HttpOnly` set their flags; names are matched without regard to ASCII case.
pub open spec fn apply_attr(c: CookieView, part: Seq<char>) -> CookieView {
    let p = trim(part);
    match split_once(p, '=') {
        Some((k, v)) => {
            let key = lower_seq(trim(k));
            if key == "domain"@ {
                CookieView { domain: strip_start(trim(v), '.'), ..c }
            } else if key == "path"@ {
                CookieView { path: trim(v), ..c }
            } else {
                c
            }
        },
        None => {
            let key = lower_seq(p);
            if key == "secure"@ {
                CookieView { secure: true, ..c }
            } else if key == "httponly"@ {
                CookieView { http_only: true, ..c }
            } else {
                c
            }
        },
    }
}

pub open spec fn apply_attrs(c: CookieView, parts: Seq<Seq<char>>) -> CookieView
    decreases parts.len(),
{
    if parts.len() == 0 {
        c
    } else {
        apply_attr(apply_attrs(c, parts.drop_last()), parts.last())
    }
}

/// The cookie a `Set-Cookie` header sets for a page at `url`: the first
/// `;`-piece holds `name=value`; domain and path default to the page's host
/// and path.
pub open spec fn cookie_of(header: Seq<char>, url: Seq<char>) -> Option<CookieView> {
    let parts = split_on(header, ';');
    match split_once(parts[0], '=') {
        Some((n, v)) => {
            let (domain, path) = match spec_parse_url(url) {
                Ok(u) => (
                    match u.host {
                        Some(h) => h,
                        None => Seq::empty(),
                    },
                    u.path,
                ),
                Err(_) => (Seq::empty(), "/"@),
            };
            Some(
                apply_attrs(
                    CookieView {
                        name: trim(n),
                        value: trim(v),
                        domain,
                        path,
                        secure: false,
                        http_only: false,
                    },
                    parts.drop_first(),
                ),
            )
        },
        None => None,
    }
}

/// Whether a cookie goes with a request to a URL: the host ends with (or is)
/// the cookie's domain, the path starts with the cookie's path, and a secure
/// cookie goes only over `https`.
pub open spec fn cookie_matches(c: CookieView, u: UrlView) -> bool {
    match u.host {
        Some(h) => {
            &&& ends_with(h, c.domain)
            &&& starts_with(u.path, c.path)
            &&& (c.secure ==> u.scheme == "https"@)
        },
        None => false,
    }
}

/// A cookie goes to a URL exactly when the URL has a host that ends with the
/// cookie's domain, a path that begins with the cookie's path, and, for a
/// secure cookie, the `https` scheme. So a secure cookie never goes over
/// plain `http`, and a cookie never goes to a host outside its domain.
pub proof fn law_cookie_sent_only_where_it_belongs(c: CookieView, u: UrlView)
    ensures
        cookie_matches(c, u) <==> (u.host matches Some(h) && c.domain.len() <= h.len() && h.subrange(
            h.len() - c.domain.len(),
            h.len() as int,
        ) == c.domain && c.path.len() <= u.path.len() && u.path.subrange(0, c.path.len() as int) == c.path && (c.secure
            ==> u.scheme == "https"@)),
        c.secure && u.scheme != "https"@ ==> !cookie_matches(c, u),
{
}

impl Cookie {
    /// Parses a `Set-Cookie` header value received for a page at `current_url`.
    pub fn parse(header: &str, current_url: &str) -> (r: Option<Cookie>)
        ensures
            match r {
                Some(c) => cookie_of(header@, current_url@) == Some(c@),
                None => cookie_of(header@, current_url@) is None,
            },
    {
        let hv = chars_of(header);
        assert(hv@.subrange(0, hv@.len() as int) == hv@);
        let parts = split_char(&hv, 0, hv.len(), ';');
        let ghost ps = parts@.map_values(|p: Vec<char>| p@);
        proof {
            crate::text::lemma_split_on_len(hv@, ';');
        }
        let first = &parts[0];
        let k = find_char(first, '=', 0);
        if k >= first.len() {
            return None;
        }
        let (a, b) = trim_bounds(first, 0, k);
        let (c, d) = trim_bounds(first, k + 1, first.len());
        let name = string_of(first, a, b);
        let value = string_of(first, c, d);
        let (domain, path) = match parse_url(current_url) {
            Ok(u) => (
                match u.host {
                    Some(h) => h,
                    None => String::new(),
                },
                u.path,
            ),
            Err(_) => (String::new(), "/".to_owned()),
        };
        let mut cookie = Cookie { name, value, domain, path, secure: false, http_only: false };
        let ghost start = cookie@;
        let mut i: usize = 1;
        while i < parts.len()
            invariant
                ps == parts@.map_values(|p: Vec<char>| p@),
                1 <= i <= parts.len(),
                cookie@ == apply_attrs(start, ps.subrange(1, i as int)),
            decreases parts.len() - i,
        {
            let part = &parts[i];
            assert(ps.subrange(1, i + 1).drop_last() == ps.subrange(1, i as int));
            assert(ps.subrange(1, i + 1).last() == part@);
            let (pa, pb) = trim_bounds(part, 0, part.len());
            assert(part@.subrange(0, part@.len() as int) == part@);
            let p = crate::text::slice_of(part, pa, pb);
            let eq = find_char(&p, '=', 0);
            if eq < p.len() {
                let (ka, kb) = trim_bounds(&p, 0, eq);
                let key = lower_range(&p, ka, kb);
                let (va, vb) = trim_bounds(&p, eq + 1, p.len());
                if chars_eq(&key, &chars_of("domain")) {
                    let d = strip_start_vec(&p, va, vb, '.');
                    cookie.domain = string_of_all(&d);
                } else if chars_eq(&key, &chars_of("path")) {
                    cookie.path = string_of(&p, va, vb);
                }
            } else {
                let key = lower_range(&p, 0, p.len());
                assert(p@.subrange(0, p@.len() as int) == p@);
                if chars_eq(&key, &chars_of("secure")) {
                    cookie.secure = true;
                } else if chars_eq(&key, &chars_of("httponly")) {
                    cookie.http_only = true;
                }
            }
            i = i + 1;
        }
        assert(ps.subrange(1, parts.len() as int) == ps.drop_first());
        Some(cookie)
    }

    /// Whether the cookie goes with a request to `target_url`.
    pub fn matches_url(&self, target_url: &ParsedUrl) -> (b: bool)
        ensures
            b == cookie_matches(self@, target_url@),
    {
        match &target_url.host {
            Some(host) => {
                if !str_ends_with(host.as_str(), self.domain.as_str()) && !str_eq(host.as_str(), self.domain.as_str()) {
                    return false;
                }
                proof {
                    if host@ == self.domain@ {
                        assert(host@.subrange(0, host@.len() as int) == host@);
                    }
                }
                if !str_starts_with(target_url.path.as_str(), self.path.as_str()) {
                    return false;
                }
                if self.secure && !str_eq(target_url.scheme.as_str(), "https") {
                    return false;
                }
                true
            },
            None => false,
        }
    }

    /// A copy.
    pub fn duplicate(&self) -> (r: Cookie)
        ensures
            r@ == self@,
    {
        Cookie {
            name: self.name.clone(),
            value: self.value.clone(),
            domain: self.domain.clone(),
            path: self.path.clone(),
            secure: self.secure,
            http_only: self.http_only,
        }
    }
}

/// Two cookies with the same name, domain and path replace one another.
pub open spec fn same_slot(a: CookieView, b: CookieView) -> bool {
    a.name == b.name && a.domain == b.domain && a.path == b.path
}

#[derive(Debug, Clone)]
pub struct CookieJar {
    cookies: Vec<Cookie>,
}

impl View for CookieJar {
    type V = Seq<CookieView>;

    closed spec fn view(&self) -> Seq<CookieView> {
        self.cookies@.map_values(|c: Cookie| c@)
    }
}

/// The cookie lines `name=value` of the cookies matching a URL, in jar order.
pub open spec fn matching_pairs(cs: Seq<CookieView>, u: UrlView) -> Seq<Seq<char>>
    decreases cs.len(),
{
    if cs.len() == 0 {
        Seq::empty()
    } else {
        let r = matching_pairs(cs.drop_last(), u);
        if cookie_matches(cs.last(), u) {
            r.push(cs.last().name + "="@ + cs.last().value)
        } else {
            r
        }
    }
}

/// Pieces joined with a separator.
pub open spec fn join(parts: Seq<Seq<char>>, sep: Seq<char>) -> Seq<char>
    decreases parts.len(),
{
    if parts.len() == 0 {
        Seq::empty()
    } else if parts.len() == 1 {
        parts[0]
    } else {
        join(parts.drop_last(), sep) + sep + parts.last()
    }
}

/// The `Cookie` header a jar sends to a URL: the matching cookies joined by
/// `; `, or nothing when none matches or the URL does not parse.
pub open spec fn cookie_header(cs: Seq<CookieView>, url: Seq<char>) -> Option<Seq<char>> {
    match spec_parse_url(url) {
        Ok(u) => {
            let ps = matching_pairs(cs, u);
            if ps.len() == 0 {
                None
            } else {
                Some(join(ps, "; "@))
            }
        },
        Err(_) => None,
    }
}

/// No two cookies of a jar share a name, domain and path.
pub open spec fn slots_unique(cs: Seq<CookieView>) -> bool {
    forall|i: int, j: int| 0 <= i < j < cs.len() ==> !same_slot(#[trigger] cs[i], #[trigger] cs[j])
}

/// Storing a cookie keeps one cookie per name, domain and path: the new
/// cookie is the last one, the only one in its slot, and every other cookie
/// stays.
pub proof fn law_one_cookie_per_slot(cs: Seq<CookieView>, c: CookieView)
    requires
        slots_unique(cs),
    ensures
        slots_unique(cs.filter(|x: CookieView| !same_slot(x, c)).push(c)),
        forall|i: int| 0 <= i < cs.len() && !same_slot(cs[i], c) ==> cs.filter(|x: CookieView| !same_slot(x, c)).push(c).contains(
            #[trigger] cs[i],
        ),
        cs.filter(|x: CookieView| !same_slot(x, c)).push(c).last() == c,
{
    let f = |x: CookieView| !same_slot(x, c);
    let kept = cs.filter(f);
    let r = kept.push(c);
    lemma_filter_unique(cs, c);
    assert forall|i: int, j: int| 0 <= i < j < r.len() implies !same_slot(#[trigger] r[i], #[trigger] r[j]) by {
        if j == r.len() - 1 {
            assert(r[i] == kept[i]);
            assert(f(kept[i]));
        } else {
            assert(r[i] == kept[i] && r[j] == kept[j]);
        }
    }
    assert forall|i: int| 0 <= i < cs.len() && !same_slot(cs[i], c) implies r.contains(#[trigger] cs[i]) by {
        cs.filter_lemma(f);
        assert(kept.contains(cs[i]));
        let k = choose|k: int| 0 <= k < kept.len() && kept[k] == cs[i];
        assert(r[k] == cs[i]);
    }
}

/// The jar after storing `c` into `cs`.
pub open spec fn jar_with(cs: Seq<CookieView>, c: CookieView) -> Seq<CookieView> {
    cs.filter(|x: CookieView| !same_slot(x, c)).push(c)
}

/// Storing a cookie replaces exactly the cookies that have its name, domain
/// and path: the new cookie comes last; every stored cookie that differs from
/// it in name, in domain or in path stays; and nothing else is in the jar.
pub proof fn law_cookie_replaces_only_its_slot(cs: Seq<CookieView>, c: CookieView)
    ensures
        jar_with(cs, c).last() == c,
        forall|x: CookieView|
            cs.contains(x) && (x.name != c.name || x.domain != c.domain || x.path != c.path) ==> #[trigger] jar_with(
                cs,
                c,
            ).contains(x),
        forall|x: CookieView|
            #[trigger] jar_with(cs, c).contains(x) ==> x == c || (cs.contains(x) && (x.name != c.name || x.domain
                != c.domain || x.path != c.path)),
{
    let f = |y: CookieView| !same_slot(y, c);
    let kept = cs.filter(f);
    let r = kept.push(c);
    cs.filter_lemma(f);
    assert forall|x: CookieView| cs.contains(x) && (x.name != c.name || x.domain != c.domain || x.path != c.path) implies #[trigger] r.contains(x) by {
        assert(f(x));
        let i = choose|i: int| 0 <= i < cs.len() && cs[i] == x;
        cs.lemma_filter_contains(f, i);
        let k = choose|k: int| 0 <= k < kept.len() && kept[k] == x;
        assert(r[k] == x);
    }
    assert forall|x: CookieView| #[trigger] r.contains(x) implies x == c || (cs.contains(x) && (x.name != c.name
        || x.domain != c.domain || x.path != c.path)) by {
        let k = choose|k: int| 0 <= k < r.len() && r[k] == x;
        if k < kept.len() {
            assert(kept[k] == x);
            assert(f(kept[k]));
            assert(kept.contains(x));
            cs.lemma_filter_contains_rev(f, x);
        }
    }
}

proof fn lemma_filter_unique(cs: Seq<CookieView>, c: CookieView)
    requires
        slots_unique(cs),
    ensures
        slots_unique(cs.filter(|x: CookieView| !same_slot(x, c))),
    decreases cs.len(),
{
    let f = |x: CookieView| !same_slot(x, c);
    reveal(Seq::filter);
    if cs.len() > 0 {
        let init = cs.drop_last();
        assert(slots_unique(init)) by {
            assert forall|i: int, j: int| 0 <= i < j < init.len() implies !same_slot(#[trigger] init[i], #[trigger] init[j]) by {
                assert(init[i] == cs[i] && init[j] == cs[j]);
            }
        }
        lemma_filter_unique(init, c);
        let ki = init.filter(f);
        init.filter_lemma(f);
        if f(cs.last()) {
            let k = ki.push(cs.last());
            assert(cs.filter(f) == k);
            assert forall|i: int, j: int| 0 <= i < j < k.len() implies !same_slot(#[trigger] k[i], #[trigger] k[j]) by {
                if j == k.len() - 1 {
                    assert(k[i] == ki[i]);
                    assert(ki.contains(ki[i]));
                    init.lemma_filter_contains_rev(f, ki[i]);
                    assert(init.contains(ki[i]));
                    let m = choose|m: int| 0 <= m < init.len() && init[m] == ki[i];
                    assert(cs[m] == ki[i]);
                    assert(cs[cs.len() - 1] == cs.last());
                    assert(!same_slot(cs[m], cs[cs.len() - 1]));
                } else {
                    assert(k[i] == ki[i] && k[j] == ki[j]);
                }
            }
        } else {
            assert(cs.filter(f) == ki);
        }
    }
}

impl CookieJar {
    pub fn new() -> (j: Self)
        ensures
            j@ == Seq::<CookieView>::empty(),
    {
        CookieJar { cookies: Vec::new() }
    }

    /// Stores a cookie, replacing any with the same name, domain and path:
    /// every stored cookie that differs from it in name, domain or path stays.
    pub fn add_cookie(&mut self, cookie: Cookie)
        ensures
            final(self)@ == old(self)@.filter(|c: CookieView| !same_slot(c, cookie@)).push(cookie@),
            final(self)@.last() == cookie@,
            forall|x: CookieView|
                old(self)@.contains(x) && (x.name != cookie@.name || x.domain != cookie@.domain || x.path != cookie@.path)
                    ==> #[trigger] final(self)@.contains(x),
            forall|x: CookieView|
                #[trigger] final(self)@.contains(x) ==> x == cookie@ || (old(self)@.contains(x) && (x.name != cookie@.name
                    || x.domain != cookie@.domain || x.path != cookie@.path)),
    {
        proof {
            law_cookie_replaces_only_its_slot(self@, cookie@);
            assert(jar_with(self@, cookie@) == self@.filter(|c: CookieView| !same_slot(c, cookie@)).push(cookie@));
        }
        let ghost old_view = self@;
        let ghost key = cookie@;
        let mut kept: Vec<Cookie> = Vec::new();
        let mut i: usize = 0;
        while i < self.cookies.len()
            invariant
                old_view == self.cookies@.map_values(|c: Cookie| c@),
                key == cookie@,
                i <= self.cookies.len(),
                kept@.map_values(|c: Cookie| c@) == old_view.take(i as int).filter(|c: CookieView| !same_slot(c, key)),
            decreases self.cookies.len() - i,
        {
            let c = &self.cookies[i];
            proof {
                assert(old_view.take(i + 1).drop_last() =~= old_view.take(i as int));
                assert(old_view.take(i + 1).last() == c@);
                old_view.take(i as int).lemma_filter_push(c@, |c: CookieView| !same_slot(c, key));
                assert(old_view.take(i + 1) =~= old_view.take(i as int).push(c@));
            }
            let same = str_eq(c.name.as_str(), cookie.name.as_str()) && str_eq(c.domain.as_str(), cookie.domain.as_str()) && str_eq(c.path.as_str(), cookie.path.as_str());
            if !same {
                let ghost before = kept@.map_values(|c: Cookie| c@);
                kept.push(c.duplicate());
                assert(kept@.map_values(|c: Cookie| c@) =~= before.push(c@));
            }
            i = i + 1;
        }
        assert(old_view.take(self.cookies@.len() as int) == old_view);
        let ghost before = kept@.map_values(|c: Cookie| c@);
        kept.push(cookie);
        assert(kept@.map_values(|c: Cookie| c@) =~= before.push(key));
        self.cookies = kept;
    }

    /// Parses a `Set-Cookie` header for a page and stores the cookie, if any.
    pub fn process_set_cookie_header(&mut self, header_val: &str, current_url: &str)
        ensures
            match cookie_of(header_val@, current_url@) {
                Some(c) => final(self)@ == old(self)@.filter(|x: CookieView| !same_slot(x, c)).push(c),
                None => final(self)@ == old(self)@,
            },
    {
        if let Some(c) = Cookie::parse(header_val, current_url) {
            self.add_cookie(c);
        }
    }

    /// The `Cookie` header to send to `url_str`.
    pub fn cookie_header_for_url(&self, url_str: &str) -> (r: Option<String>)
        ensures
            match r {
                Some(s) => cookie_header(self@, url_str@) == Some(s@),
                None => cookie_header(self@, url_str@) is None,
            },
    {
        let parsed = match parse_url(url_str) {
            Ok(u) => u,
            Err(_) => return None,
        };
        let ghost cs = self@;
        let mut out = String::new();
        let mut count: usize = 0;
        let mut i: usize = 0;
        while i < self.cookies.len()
            invariant
                cs == self.cookies@.map_values(|c: Cookie| c@),
                spec_parse_url(url_str@) == Ok::<UrlView, Seq<char>>(parsed@),
                i <= self.cookies.len(),
                count == matching_pairs(cs.take(i as int), parsed@).len(),
                count <= i,
                out@ == join(matching_pairs(cs.take(i as int), parsed@), "; "@),
            decreases self.cookies.len() - i,
        {
            let c = &self.cookies[i];
            assert(cs.take(i + 1).drop_last() =~= cs.take(i as int));
            assert(cs.take(i + 1).last() == c@);
            if c.matches_url(&parsed) {
                let ghost before = matching_pairs(cs.take(i as int), parsed@);
                if count > 0 {
                    push_str(&mut out, "; ");
                }
                push_str(&mut out, c.name.as_str());
                push_char(&mut out, '=');
                push_str(&mut out, c.value.as_str());
                count = count + 1;
                proof {
                    let now = matching_pairs(cs.take(i + 1), parsed@);
                    assert(now == before.push(c@.name + "="@ + c@.value));
                    assert(now.drop_last() == before);
                    reveal_strlit("=");
                    if before.len() == 0 {
                        assert(out@ =~= join(now, "; "@));
                    } else {
                        assert(out@ =~= join(now, "; "@));
                    }
                }
            }
            i = i + 1;
        }
        assert(cs.take(self.cookies@.len() as int) == cs);
        if count == 0 {
            None
        } else {
            Some(out)
        }
    }
}

/// A key-value store (`localStorage`), with its text form for saving.
#[derive(Debug, Clone)]
pub struct WebStorage {
    data: StrMap,
}

impl View for WebStorage {
    type V = Map<Seq<char>, Seq<char>>;

    closed spec fn view(&self) -> Map<Seq<char>, Seq<char>> {
        self.data@
    }
}

/// A quote-escaped string: each `"` becomes `\"`.
pub open spec fn escape_quotes(s: Seq<char>) -> Seq<char>
    decreases s.len(),
{
    if s.len() == 0 {
        Seq::empty()
    } else {
        escape_quotes(s.drop_last()) + (if s.last() == '"' {
            seq!['\\', '"']
        } else {
            seq![s.last()]
        })
    }
}

/// One line of the saved form: `"key": "value"`.
pub open spec fn json_pair(k: Seq<char>, v: Seq<char>) -> Seq<char> {
    seq!['"'] + escape_quotes(k) + seq!['"', ':', ' ', '"'] + escape_quotes(v) + seq!['"']
}

pub open spec fn json_pairs(es: Seq<(String, String)>) -> Seq<Seq<char>> {
    es.map_values(|p: (String, String)| json_pair(p.0@, p.1@))
}

/// The saved form of entries: `{`, the pairs on their own lines indented by
/// two spaces and separated by commas, `}`.
pub open spec fn json_of(es: Seq<(String, String)>) -> Seq<char> {
    seq!['{', '\n', ' ', ' '] + join(json_pairs(es), seq![',', '\n', ' ', ' ']) + seq!['\n', '}']
}

/// What one line of a saved form adds: the text before the first `:` and the
/// text after it, each trimmed with its quotes stripped, once trailing commas
/// are dropped; lines with an empty key or no `:` add nothing.
pub open spec fn json_line(line: Seq<char>) -> Option<(Seq<char>, Seq<char>)> {
    let t = strip_end(trim(line), ',');
    match split_once(t, ':') {
        Some((k, v)) => {
            let key = strip_both(trim(k), '"');
            if key.len() > 0 {
                Some((key, strip_both(trim(v), '"')))
            } else {
                None
            }
        },
        None => None,
    }
}

pub open spec fn json_lines(m: Map<Seq<char>, Seq<char>>, lines: Seq<Seq<char>>) -> Map<Seq<char>, Seq<char>>
    decreases lines.len(),
{
    if lines.len() == 0 {
        m
    } else {
        let r = json_lines(m, lines.drop_last());
        match json_line(lines.last()) {
            Some((k, v)) => r.insert(k, v),
            None => r,
        }
    }
}

/// The lines of a text, split at `\n` (a `\r` before it is trimmed away with
/// the other whitespace).
pub open spec fn lines_of(s: Seq<char>) -> Seq<Seq<char>> {
    split_on(s, '\n')
}

fn push_escaped(out: &mut String, s: &String)
    ensures
        final(out)@ == old(out)@ + escape_quotes(s@),
{
    let v = chars_of(s.as_str());
    let ghost o0 = out@;
    let mut i: usize = 0;
    while i < v.len()
        invariant
            i <= v.len(),
            out@ == o0 + escape_quotes(v@.take(i as int)),
        decreases v.len() - i,
    {
        if v[i] == '"' {
            push_char(out, '\\');
            push_char(out, '"');
        } else {
            push_char(out, v[i]);
        }
        assert(v@.take(i + 1).drop_last() == v@.take(i as int));
        i = i + 1;
        assert(out@ =~= o0 + escape_quotes(v@.take(i as int)));
    }
    assert(v@.take(v@.len() as int) == v@);
}

impl WebStorage {
    pub fn new_in_memory() -> (s: Self)
        ensures
            s@ == Map::<Seq<char>, Seq<char>>::empty(),
    {
        WebStorage { data: StrMap::new() }
    }

    pub fn get_item(&self, key: &str) -> (r: Option<&str>)
        ensures
            match r {
                Some(v) => self@.dom().contains(key@) && v@ == self@[key@],
                None => !self@.dom().contains(key@),
            },
    {
        match self.data.get(key) {
            Some(v) => Some(v.as_str()),
            None => None,
        }
    }

    /// Stores `val` under `key`; the number of items grows by one exactly
    /// when `key` was new.
    pub fn set_item(&mut self, key: &str, val: &str)
        ensures
            final(self)@ == old(self)@.insert(key@, val@),
            old(self)@.dom().finite(),
            final(self)@.dom().finite(),
            final(self)@.dom().len() == old(self)@.dom().len() + (if old(self)@.dom().contains(key@) { 0int } else { 1int }),
    {
        proof {
            use_type_invariant(&self.data);
            self.data.lemma_wf();
        }
        self.data.insert(key.to_owned(), val.to_owned());
        proof {
            use_type_invariant(&self.data);
            self.data.lemma_wf();
            if old(self)@.dom().contains(key@) {
                assert(final(self)@.dom() =~= old(self)@.dom());
            } else {
                assert(final(self)@.dom() =~= old(self)@.dom().insert(key@));
            }
        }
    }

    /// Removes the item of `key`; the number of items shrinks by one exactly
    /// when there was one.
    pub fn remove_item(&mut self, key: &str)
        ensures
            final(self)@ == old(self)@.remove(key@),
            old(self)@.dom().finite(),
            final(self)@.dom().finite(),
            final(self)@.dom().len() == old(self)@.dom().len() - (if old(self)@.dom().contains(key@) { 1int } else { 0int }),
    {
        proof {
            use_type_invariant(&self.data);
            self.data.lemma_wf();
        }
        self.data.remove(key);
        proof {
            if old(self)@.dom().contains(key@) {
                assert(final(self)@.dom() =~= old(self)@.dom().remove(key@));
            } else {
                assert(final(self)@.dom() =~= old(self)@.dom());
            }
        }
    }

    pub fn clear(&mut self)
        ensures
            final(self)@ == Map::<Seq<char>, Seq<char>>::empty(),
    {
        self.data.clear();
    }

    pub fn length(&self) -> (n: usize)
        ensures
            self@.dom().finite(),
            n == self@.dom().len(),
    {
        proof {
            use_type_invariant(&self.data);
            self.data.lemma_wf();
        }
        self.data.len()
    }

    /// The items in the order they were first stored.
    pub closed spec fn items(&self) -> Seq<(String, String)> {
        self.data.entries()
    }

    /// The saved form of the storage (see `json_of`).
    /// The saved form of the storage. Reading it back into an empty storage
    /// (`load_json`) gives the same items, when every key is non-empty and
    /// holds no `"`, `:` or line break and every value holds no `"` or line
    /// break.
    pub fn to_json(&self) -> (s: String)
        ensures
            s@ == json_of(self.items()),
            (forall|k: Seq<char>| #[trigger] self@.dom().contains(k) ==> plain_item(k, self@[k])) ==> json_lines(
                Map::empty(),
                lines_of(s@),
            ) == self@,
    {
        proof {
            use_type_invariant(&self.data);
            self.data.lemma_wf();
            if forall|k: Seq<char>| #[trigger] self@.dom().contains(k) ==> plain_item(k, self@[k]) {
                assert forall|i: int| 0 <= i < self.items().len() implies plain_item(
                    (#[trigger] self.items()[i]).0@,
                    self.items()[i].1@,
                ) by {
                    assert(self@.dom().contains(self.items()[i].0@));
                }
                self.lemma_saved_items_round_trip();
            }
        }
        let n = self.data.len();
        let ghost es = self.items();
        let mut body = String::new();
        let mut i: usize = 0;
        while i < n
            invariant
                es == self.items(),
                n == es.len(),
                i <= n,
                body@ == join(json_pairs(es.take(i as int)), seq![',', '\n', ' ', ' ']),
            decreases n - i,
        {
            let (k, v) = self.data.entry(i);
            let ghost before = json_pairs(es.take(i as int));
            if i > 0 {
                push_str(&mut body, ",\n  ");
                proof {
                    reveal_strlit(",\n  ");
                }
            }
            push_char(&mut body, '"');
            push_escaped(&mut body, k);
            push_str(&mut body, "\": \"");
            proof {
                reveal_strlit("\": \"");
            }
            push_escaped(&mut body, v);
            push_char(&mut body, '"');
            proof {
                let now = json_pairs(es.take(i + 1));
                assert(es.take(i + 1).drop_last() =~= es.take(i as int));
                assert(now =~= before.push(json_pair(k@, v@)));
                assert(now.drop_last() =~= before);
                assert(body@ =~= join(now, seq![',', '\n', ' ', ' ']));
            }
            i = i + 1;
        }
        assert(es.take(n as int) == es);
        let mut out = String::new();
        push_str(&mut out, "{\n  ");
        push_str(&mut out, body.as_str());
        push_str(&mut out, "\n}");
        proof {
            reveal_strlit("{\n  ");
            reveal_strlit("\n}");
        }
        assert(out@ =~= json_of(es));
        out
    }

    /// Reads a saved form line by line (see `json_line`) into the storage.
    pub fn load_json(&mut self, json_str: &str)
        ensures
            final(self)@ == json_lines(old(self)@, lines_of(json_str@)),
    {
        let v = chars_of(json_str);
        assert(v@.subrange(0, v@.len() as int) == v@);
        let lines = split_char(&v, 0, v.len(), '\n');
        let ghost ls = lines@.map_values(|p: Vec<char>| p@);
        let ghost m0 = self@;
        let mut i: usize = 0;
        while i < lines.len()
            invariant
                ls == lines@.map_values(|p: Vec<char>| p@),
                ls == lines_of(json_str@),
                i <= lines.len(),
                self@ == json_lines(m0, ls.take(i as int)),
            decreases lines.len() - i,
        {
            let line = &lines[i];
            assert(ls.take(i + 1).drop_last() == ls.take(i as int));
            assert(ls.take(i + 1).last() == line@);
            assert(line@.subrange(0, line@.len() as int) == line@);
            let (a, b) = trim_bounds(line, 0, line.len());
            let t0 = crate::text::slice_of(line, a, b);
            let e = back_char_exec(&t0, ',', t0.len());
            let t = crate::text::slice_of(&t0, 0, e);
            let colon = find_char(&t, ':', 0);
            if colon < t.len() {
                let (ka, kb) = trim_bounds(&t, 0, colon);
                let kt = crate::text::slice_of(&t, ka, kb);
                let key = strip_both_vec(&kt, '"');
                if key.len() > 0 {
                    let (va, vb) = trim_bounds(&t, colon + 1, t.len());
                    let vt = crate::text::slice_of(&t, va, vb);
                    let val = strip_both_vec(&vt, '"');
                    self.data.insert(string_of_all(&key), string_of_all(&val));
                }
            }
            i = i + 1;
        }
        assert(ls.take(lines.len() as int) == ls);
    }
}

/// A storage item that survives being saved and read back: a non-empty key
/// without `"`, `:` or a line break, and a value without `"` or a line break.
pub open spec fn plain_item(k: Seq<char>, v: Seq<char>) -> bool {
    &&& k.len() > 0
    &&& !k.contains('"') && !k.contains(':') && !k.contains('\n')
    &&& !v.contains('"') && !v.contains('\n')
}

proof fn lemma_escape_plain(s: Seq<char>)
    requires
        !s.contains('"'),
    ensures
        escape_quotes(s) == s,
    decreases s.len(),
{
    if s.len() > 0 {
        assert(!s.drop_last().contains('"')) by {
            if s.drop_last().contains('"') {
                let i = choose|i: int| 0 <= i < s.drop_last().len() && s.drop_last()[i] == '"';
                assert(s[i] == '"');
            }
        }
        lemma_escape_plain(s.drop_last());
        assert(s.last() != '"') by {
            assert(s[s.len() - 1] == s.last());
        }
        assert(s.drop_last() + seq![s.last()] =~= s);
    }
}

/// Appending text without `c` extends the last piece of a split at `c`.
proof fn lemma_split_append_plain(x: Seq<char>, a: Seq<char>, c: char)
    requires
        !a.contains(c),
    ensures
        split_on(x + a, c) == split_on(x, c).update(split_on(x, c).len() - 1, split_on(x, c).last() + a),
    decreases a.len(),
{
    crate::text::lemma_split_on_len(x, c);
    if a.len() == 0 {
        assert(x + a =~= x);
        assert(split_on(x, c).last() + a =~= split_on(x, c).last());
        assert(split_on(x, c).update(split_on(x, c).len() - 1, split_on(x, c).last()) =~= split_on(x, c));
    } else {
        let a0 = a.drop_last();
        assert(!a0.contains(c)) by {
            if a0.contains(c) {
                let i = choose|i: int| 0 <= i < a0.len() && a0[i] == c;
                assert(a[i] == c);
            }
        }
        lemma_split_append_plain(x, a0, c);
        assert(a.last() != c) by {
            assert(a[a.len() - 1] == a.last());
        }
        let s = x + a;
        assert(s.drop_last() =~= x + a0);
        assert(s.last() == a.last());
        let r0 = split_on(x, c);
        let rest = split_on(x + a0, c);
        assert(rest.last() == r0.last() + a0);
        assert(r0.last() + a0 + seq![a.last()] =~= r0.last() + a);
        assert(rest.last().push(a.last()) =~= r0.last() + a);
        assert(rest.update(rest.len() - 1, rest.last().push(a.last())) =~= r0.update(r0.len() - 1, r0.last() + a));
    }
}

/// Text, a `c`, then text without `c`: the split of the first part and the last part as a new piece.
proof fn lemma_split_sep(x: Seq<char>, a: Seq<char>, c: char)
    requires
        !a.contains(c),
    ensures
        split_on(x + seq![c] + a, c) == split_on(x, c).push(a),
{
    let xc = x.push(c);
    assert(x + seq![c] + a =~= xc + a);
    assert(xc.drop_last() =~= x);
    crate::text::lemma_split_on_len(xc, c);
    lemma_split_append_plain(xc, a, c);
    let r = split_on(x, c).push(Seq::<char>::empty());
    assert(split_on(xc, c) == r);
    assert(r.last() + a =~= a);
    assert(r.update(r.len() - 1, a) =~= split_on(x, c).push(a));
}

/// The lines of the saved form before its closing `}`.
pub open spec fn body_lines(ps: Seq<Seq<char>>) -> Seq<Seq<char>>
    decreases ps.len(),
{
    if ps.len() == 0 {
        seq![seq!['{'], seq![' ', ' ']]
    } else if ps.len() == 1 {
        seq![seq!['{'], seq![' ', ' '] + ps[0]]
    } else {
        let l = body_lines(ps.drop_last());
        l.update(l.len() - 1, l.last() + seq![',']).push(seq![' ', ' '] + ps.last())
    }
}

proof fn lemma_body_lines_shape(ps: Seq<Seq<char>>)
    ensures
        body_lines(ps).len() == (if ps.len() == 0 { 2 } else { ps.len() + 1 }),
        body_lines(ps)[0] == seq!['{'],
        ps.len() > 0 ==> body_lines(ps).last() == seq![' ', ' '] + ps.last(),
    decreases ps.len(),
{
    if ps.len() > 1 {
        lemma_body_lines_shape(ps.drop_last());
    }
}

proof fn lemma_split_body(ps: Seq<Seq<char>>)
    requires
        forall|i: int| 0 <= i < ps.len() ==> !(#[trigger] ps[i]).contains('\n'),
    ensures
        split_on(seq!['{', '\n', ' ', ' '] + join(ps, seq![',', '\n', ' ', ' ']), '\n') == body_lines(ps),
    decreases ps.len(),
{
    let head = seq!['{'];
    assert(split_on(head, '\n') =~= seq![seq!['{']]) by {
        assert(head.drop_last() =~= Seq::<char>::empty());
        assert(split_on(Seq::<char>::empty(), '\n') == seq![Seq::<char>::empty()]);
        assert(head.last() == '{');
        let rest = seq![Seq::<char>::empty()];
        assert(rest.update(0, rest.last().push('{')) =~= seq![seq!['{']]);
    }
    let sp = seq![' ', ' '];
    assert(!sp.contains('\n')) by {
        if sp.contains('\n') {
            let i = choose|i: int| 0 <= i < sp.len() && sp[i] == '\n';
        }
    }
    if ps.len() == 0 {
        assert(seq!['{', '\n', ' ', ' '] + join(ps, seq![',', '\n', ' ', ' ']) =~= head + seq!['\n'] + sp);
        lemma_split_sep(head, sp, '\n');
    } else if ps.len() == 1 {
        let a = sp + ps[0];
        assert(!a.contains('\n')) by {
            if a.contains('\n') {
                let i = choose|i: int| 0 <= i < a.len() && a[i] == '\n';
                if i >= 2 {
                    assert(ps[0][i - 2] == '\n');
                    assert(ps[0].contains('\n'));
                }
            }
        }
        assert(seq!['{', '\n', ' ', ' '] + join(ps, seq![',', '\n', ' ', ' ']) =~= head + seq!['\n'] + a);
        lemma_split_sep(head, a, '\n');
    } else {
        let ps0 = ps.drop_last();
        assert forall|i: int| 0 <= i < ps0.len() implies !(#[trigger] ps0[i]).contains('\n') by {
            assert(ps0[i] == ps[i]);
        }
        lemma_split_body(ps0);
        let t0 = seq!['{', '\n', ' ', ' '] + join(ps0, seq![',', '\n', ' ', ' ']);
        let a = sp + ps.last();
        assert(!a.contains('\n')) by {
            if a.contains('\n') {
                let i = choose|i: int| 0 <= i < a.len() && a[i] == '\n';
                if i >= 2 {
                    assert(ps.last()[i - 2] == '\n');
                    assert(ps[ps.len() - 1].contains('\n'));
                }
            }
        }
        assert(seq!['{', '\n', ' ', ' '] + join(ps, seq![',', '\n', ' ', ' ']) =~= (t0 + seq![',']) + seq!['\n'] + a);
        lemma_split_sep(t0 + seq![','], a, '\n');
        assert(!seq![','].contains('\n')) by {
            if seq![','].contains('\n') {
                let i = choose|i: int| 0 <= i < 1 && seq![','][i] == '\n';
            }
        }
        lemma_split_append_plain(t0, seq![','], '\n');
    }
}

proof fn lemma_find_first(s: Seq<char>, c: char, i: int, j: int)
    requires
        0 <= i <= j < s.len(),
        s[j] == c,
        forall|m: int| i <= m < j ==> s[m] != c,
    ensures
        find_from(s, c, i) == j,
    decreases j - i,
{
    if i < j {
        lemma_find_first(s, c, i + 1, j);
    }
}

/// A quoted text (`"` then text without `"` then `"`) loses exactly its two
/// quotes when its quotes are stripped.
proof fn lemma_strip_quotes(x: Seq<char>)
    requires
        !x.contains('"'),
    ensures
        strip_both(seq!['"'] + x + seq!['"'], '"') == x,
{
    let q = seq!['"'] + x + seq!['"'];
    if x.len() == 0 {
        assert(q[0] == '"' && q[1] == '"' && q.len() == 2);
        assert(skip_char(q, '"', 2) == 2);
        assert(skip_char(q, '"', 1) == 2);
        assert(skip_char(q, '"', 0) == 2);
        let st = q.subrange(2, 2);
        assert(st =~= Seq::<char>::empty());
        assert(back_char(st, '"', 0) == 0);
        assert(strip_end(st, '"') =~= x);
    } else {
        assert(q[1] == x[0]);
        assert(x[0] != '"') by {
            if x[0] == '"' {
                assert(x.contains('"'));
            }
        }
        assert(skip_char(q, '"', 1) == 1);
        assert(skip_char(q, '"', 0) == 1);
        let st = q.subrange(1, q.len() as int);
        assert(st =~= x + seq!['"']);
        assert(st[st.len() - 1] == '"');
        assert(st[st.len() - 2] == x[x.len() - 1]);
        assert(x[x.len() - 1] != '"') by {
            if x[x.len() - 1] == '"' {
                assert(x.contains('"'));
            }
        }
        assert(back_char(st, '"', st.len() - 1) == st.len() - 1);
        assert(back_char(st, '"', st.len() as int) == st.len() - 1);
        assert(strip_end(st, '"') =~= x);
    }
}

proof fn lemma_trim_fixed(s: Seq<char>, a: int)
    requires
        0 <= a < s.len(),
        forall|m: int| 0 <= m < a ==> is_ws(#[trigger] s[m]),
        !is_ws(s[a]),
        !is_ws(s.last()),
    ensures
        trim(s) == s.subrange(a, s.len() as int),
{
    crate::text::lemma_lead_ws_reach(s, 0, a);
    let t = s.subrange(a, s.len() as int);
    assert(t.last() == s.last());
    assert(trail_ws(t, t.len() as int) == t.len()) by {
        assert(t[t.len() - 1] == s.last());
    }
    assert(t.subrange(0, t.len() as int) =~= t);
}

/// A saved line without its indentation and trailing comma: the pair itself.
proof fn lemma_line_trimmed(p: Seq<char>, comma: bool)
    requires
        p.len() >= 2,
        p[0] == '"',
        p.last() == '"',
    ensures
        strip_end(trim(seq![' ', ' '] + p + (if comma { seq![','] } else { Seq::<char>::empty() })), ',') == p,
{
    let tail = if comma { seq![','] } else { Seq::<char>::empty() };
    let line = seq![' ', ' '] + p + tail;
    assert(is_ws(' '));
    assert(!is_ws('"'));
    assert(!is_ws(','));
    assert(line[2] == '"');
    assert(line.last() == (if comma { ',' } else { '"' }));
    lemma_trim_fixed(line, 2);
    let tr = p + tail;
    assert(trim(line) =~= tr);
    if comma {
        assert(tr[tr.len() - 1] == ',');
        assert(tr[tr.len() - 2] == '"');
        assert(back_char(tr, ',', tr.len() - 1) == tr.len() - 1);
        assert(back_char(tr, ',', tr.len() as int) == tr.len() - 1);
    } else {
        assert(tr[tr.len() - 1] == '"');
        assert(back_char(tr, ',', tr.len() as int) == tr.len());
    }
    assert(strip_end(tr, ',') =~= p);
}

/// The pair `"k": "v"` splits at its first `:` into the quoted key and value.
proof fn lemma_pair_fields(k: Seq<char>, v: Seq<char>)
    requires
        plain_item(k, v),
    ensures
        split_once(json_pair(k, v), ':') matches Some((kp, vp)) && strip_both(trim(kp), '"') == k && strip_both(trim(vp), '"')
            == v,
{
    lemma_escape_plain(k);
    lemma_escape_plain(v);
    let p = json_pair(k, v);
    assert(p =~= seq!['"'] + k + seq!['"', ':', ' ', '"'] + v + seq!['"']);
    let j: int = k.len() as int + 2;
    assert(p[j] == ':');
    assert forall|m: int| 0 <= m < j implies p[m] != ':' by {
        if 1 <= m < k.len() + 1 {
            assert(p[m] == k[m - 1]);
            if k[m - 1] == ':' {
                assert(k.contains(':'));
            }
        }
    }
    lemma_find_first(p, ':', 0, j);
    let kp = p.subrange(0, j);
    let vp = p.subrange(j + 1, p.len() as int);
    assert(kp =~= seq!['"'] + k + seq!['"']);
    assert(vp =~= seq![' '] + (seq!['"'] + v + seq!['"']));
    assert(!is_ws('"'));
    assert(is_ws(' '));
    assert(kp[0] == '"' && kp.last() == '"');
    lemma_trim_fixed(kp, 0);
    assert(kp.subrange(0, kp.len() as int) =~= kp);
    lemma_strip_quotes(k);
    assert(vp[0] == ' ' && vp[1] == '"' && vp.last() == '"');
    lemma_trim_fixed(vp, 1);
    assert(vp.subrange(1, vp.len() as int) =~= seq!['"'] + v + seq!['"']);
    lemma_strip_quotes(v);
}

/// One saved line `  "k": "v"`, with or without a trailing comma, reads back as `(k, v)`.
proof fn lemma_json_line(k: Seq<char>, v: Seq<char>, comma: bool)
    requires
        plain_item(k, v),
    ensures
        json_line(seq![' ', ' '] + json_pair(k, v) + (if comma { seq![','] } else { Seq::<char>::empty() })) == Some((k, v)),
{
    lemma_escape_plain(k);
    lemma_escape_plain(v);
    let p = json_pair(k, v);
    assert(p =~= seq!['"'] + k + seq!['"', ':', ' ', '"'] + v + seq!['"']);
    assert(p[0] == '"' && p.last() == '"');
    lemma_line_trimmed(p, comma);
    lemma_pair_fields(k, v);
}

proof fn lemma_json_line_other()
    ensures
        json_line(seq!['{']) is None,
        json_line(seq!['}']) is None,
        json_line(seq![' ', ' ']) is None,
{
    let a = seq!['{'];
    assert(find_from(a, ':', 0) == 1) by {
        assert(find_from(a, ':', 1) == 1);
    }
    assert(!is_ws('{'));
    lemma_trim_fixed(a, 0);
    assert(a.subrange(0, 1) =~= a);
    assert(back_char(a, ',', 1) == 1);
    assert(a.subrange(0, 1) =~= a);
    let b = seq!['}'];
    assert(!is_ws('}'));
    lemma_trim_fixed(b, 0);
    assert(b.subrange(0, 1) =~= b);
    assert(back_char(b, ',', 1) == 1);
    assert(find_from(b, ':', 0) == 1) by {
        assert(find_from(b, ':', 1) == 1);
    }
    let c = seq![' ', ' '];
    assert(is_ws(' '));
    crate::text::lemma_lead_ws_reach(c, 0, 2);
    let e = c.subrange(2, 2);
    assert(e =~= Seq::<char>::empty());
    assert(trim(c) =~= Seq::<char>::empty());
    assert(back_char(Seq::<char>::empty(), ',', 0) == 0);
    assert(find_from(Seq::<char>::empty(), ':', 0) == 0);
}

proof fn lemma_lines_map(es: Seq<(String, String)>)
    requires
        forall|i: int| 0 <= i < es.len() ==> plain_item((#[trigger] es[i]).0@, es[i].1@),
    ensures
        json_lines(Map::empty(), body_lines(json_pairs(es))) == map_of(es),
    decreases es.len(),
{
    let ps = json_pairs(es);
    let m0 = Map::<Seq<char>, Seq<char>>::empty();
    lemma_json_line_other();
    if es.len() == 0 {
        assert(ps =~= Seq::<Seq<char>>::empty());
        let l = body_lines(ps);
        assert(l.drop_last() =~= seq![seq!['{']]);
        assert(l.drop_last().drop_last() =~= Seq::<Seq<char>>::empty());
        assert(json_lines(m0, l.drop_last().drop_last()) == m0);
        assert(json_lines(m0, l.drop_last()) == m0);
        assert(json_lines(m0, l) == m0);
        assert(map_of(es) == m0);
    } else if es.len() == 1 {
        let l = body_lines(ps);
        assert(ps[0] == json_pair(es[0].0@, es[0].1@));
        lemma_json_line(es[0].0@, es[0].1@, false);
        assert(seq![' ', ' '] + ps[0] + Seq::<char>::empty() =~= seq![' ', ' '] + ps[0]);
        assert(l.drop_last() =~= seq![seq!['{']]);
        assert(l.drop_last().drop_last() =~= Seq::<Seq<char>>::empty());
        assert(json_lines(m0, l.drop_last().drop_last()) == m0);
        assert(json_lines(m0, l.drop_last()) == m0);
        assert(json_lines(m0, l) == m0.insert(es[0].0@, es[0].1@));
        assert(es.drop_last() =~= Seq::<(String, String)>::empty());
        assert(map_of(es.drop_last()) == m0);
        assert(es.last() == es[0]);
    } else {
        let es0 = es.drop_last();
        assert forall|i: int| 0 <= i < es0.len() implies plain_item((#[trigger] es0[i]).0@, es0[i].1@) by {
            assert(es0[i] == es[i]);
        }
        lemma_lines_map(es0);
        let ps0 = json_pairs(es0);
        assert(ps.drop_last() =~= ps0);
        let l0 = body_lines(ps0);
        lemma_body_lines_shape(ps0);
        let lm = l0.update(l0.len() - 1, l0.last() + seq![',']);
        let l = lm.push(seq![' ', ' '] + ps.last());
        assert(body_lines(ps) == l);
        assert(l.drop_last() =~= lm);
        assert(lm.drop_last() =~= l0.drop_last());
        let e0 = es0.last();
        assert(ps0.last() == json_pair(e0.0@, e0.1@));
        assert(es0[es0.len() - 1] == e0);
        lemma_json_line(e0.0@, e0.1@, true);
        lemma_json_line(e0.0@, e0.1@, false);
        assert(seq![' ', ' '] + ps0.last() + Seq::<char>::empty() =~= seq![' ', ' '] + ps0.last());
        assert(lm.last() == seq![' ', ' '] + ps0.last() + seq![',']);
        assert(json_line(lm.last()) == json_line(l0.last()));
        assert(json_lines(m0, lm) == json_lines(m0, l0));
        let el = es.last();
        assert(es[es.len() - 1] == el);
        assert(ps.last() == json_pair(el.0@, el.1@));
        lemma_json_line(el.0@, el.1@, false);
        assert(seq![' ', ' '] + ps.last() + Seq::<char>::empty() =~= seq![' ', ' '] + ps.last());
        assert(json_lines(m0, l) == json_lines(m0, lm).insert(el.0@, el.1@));
    }
}

impl WebStorage {
    /// The saved form of the items, read back into an empty storage, gives
    /// the same items, when every item is plain (see `plain_item`).
    proof fn lemma_saved_items_round_trip(&self)
        requires
            forall|i: int| 0 <= i < self.items().len() ==> plain_item((#[trigger] self.items()[i]).0@, self.items()[i].1@),
        ensures
            json_lines(Map::empty(), lines_of(json_of(self.items()))) == self@,
    {
        let es = self.items();
        let ps = json_pairs(es);
        assert forall|i: int| 0 <= i < ps.len() implies !(#[trigger] ps[i]).contains('\n') by {
            let e = es[i];
            lemma_escape_plain(e.0@);
            lemma_escape_plain(e.1@);
            assert(ps[i] =~= seq!['"'] + e.0@ + seq!['"', ':', ' ', '"'] + e.1@ + seq!['"']);
            if ps[i].contains('\n') {
                let m = choose|m: int| 0 <= m < ps[i].len() && ps[i][m] == '\n';
                if 1 <= m < e.0@.len() + 1 {
                    assert(e.0@[m - 1] == '\n');
                    assert(e.0@.contains('\n'));
                } else if e.0@.len() + 5 <= m < e.0@.len() + 5 + e.1@.len() {
                    assert(e.1@[m - e.0@.len() - 5] == '\n');
                    assert(e.1@.contains('\n'));
                }
            }
        }
        lemma_split_body(ps);
        let body = seq!['{', '\n', ' ', ' '] + join(ps, seq![',', '\n', ' ', ' ']);
        assert(json_of(es) =~= body + seq!['\n'] + seq!['}']);
        assert(!seq!['}'].contains('\n')) by {
            if seq!['}'].contains('\n') {
                let i = choose|i: int| 0 <= i < 1 && seq!['}'][i] == '\n';
            }
        }
        lemma_split_sep(body, seq!['}'], '\n');
        let lines = body_lines(ps).push(seq!['}']);
        assert(lines_of(json_of(es)) == lines);
        lemma_json_line_other();
        assert(lines.drop_last() =~= body_lines(ps));
        lemma_lines_map(es);
    }
}

/// An origin made safe as a file name: every character that is not
/// alphanumeric becomes `_`.
pub open spec fn safe_origin(origin: Seq<char>) -> Seq<char> {
    Seq::new(origin.len(), |i: int| if spec_is_alphanumeric(origin[i]) { origin[i] } else { '_' })
}

/// The name of the file that keeps the storage of an origin.
pub fn storage_file_name(origin: &str) -> (r: String)
    ensures
        r@ == safe_origin(origin@) + ".json"@,
{
    let v = chars_of(origin);
    let mut out = String::new();
    let mut i: usize = 0;
    while i < v.len()
        invariant
            i <= v.len(),
            v@ == origin@,
            out@ == safe_origin(origin@).take(i as int),
        decreases v.len() - i,
    {
        let c = v[i];
        if char_is_alphanumeric(c) {
            push_char(&mut out, c);
        } else {
            push_char(&mut out, '_');
        }
        assert(safe_origin(origin@).take(i + 1) =~= safe_origin(origin@).take(i as int).push(
            if spec_is_alphanumeric(c) { c } else { '_' },
        ));
        i = i + 1;
    }
    assert(safe_origin(origin@).take(v@.len() as int) =~= safe_origin(origin@));
    push_str(&mut out, ".json");
    out
}


#[derive(Debug, Clone)]
pub struct CachedResponse {
    pub status: u16,
    pub headers: Vec<(String, String)>,
    pub body: Vec<u8>,
    pub etag: Option<String>,
}

/// The cached responses by URL; a later store for a URL replaces an earlier one.
pub open spec fn cache_map(es: Seq<(String, CachedResponse)>) -> Map<Seq<char>, CachedResponse>
    decreases es.len(),
{
    if es.len() == 0 {
        Map::empty()
    } else {
        cache_map(es.drop_last()).insert(es.last().0@, es.last().1)
    }
}

proof fn lemma_cache_lookup(es: Seq<(String, CachedResponse)>, k: Seq<char>, j: int)
    requires
        0 <= j <= es.len(),
        forall|m: int| j <= m < es.len() ==> (#[trigger] es[m]).0@ != k,
    ensures
        cache_map(es).dom().contains(k) == cache_map(es.take(j)).dom().contains(k),
        cache_map(es)[k] == cache_map(es.take(j))[k],
    decreases es.len() - j,
{
    if j < es.len() {
        let t = es.take(j + 1);
        assert(t.drop_last() == es.take(j));
        assert(t.last() == es[j]);
        lemma_cache_lookup(es, k, j + 1);
    } else {
        assert(es.take(j) == es);
    }
}

#[derive(Debug, Clone)]
pub struct HttpCache {
    entries: Vec<(String, CachedResponse)>,
}

impl View for HttpCache {
    type V = Map<Seq<char>, CachedResponse>;

    closed spec fn view(&self) -> Map<Seq<char>, CachedResponse> {
        cache_map(self.entries@)
    }
}

impl HttpCache {
    pub fn new() -> (c: Self)
        ensures
            c@ == Map::<Seq<char>, CachedResponse>::empty(),
    {
        HttpCache { entries: Vec::new() }
    }

    /// The response cached for `url`.
    pub fn get(&self, url: &str) -> (r: Option<&CachedResponse>)
        ensures
            match r {
                Some(c) => self@.dom().contains(url@) && *c == self@[url@],
                None => !self@.dom().contains(url@),
            },
    {
        let mut j = self.entries.len();
        while j > 0
            invariant
                j <= self.entries@.len(),
                forall|m: int| j <= m < self.entries@.len() ==> (#[trigger] self.entries@[m]).0@ != url@,
            decreases j,
        {
            if str_eq(self.entries[j - 1].0.as_str(), url) {
                proof {
                    lemma_cache_lookup(self.entries@, url@, j as int);
                    let t = self.entries@.take(j as int);
                    assert(t.last() == self.entries@[j - 1]);
                }
                return Some(&self.entries[j - 1].1);
            }
            j = j - 1;
        }
        proof {
            lemma_cache_lookup(self.entries@, url@, 0);
        }
        None
    }

    /// Caches `res` for `url`, replacing an earlier response.
    pub fn put(&mut self, url: &str, res: CachedResponse)
        ensures
            final(self)@ == old(self)@.insert(url@, res),
    {
        let ghost before = self.entries@;
        self.entries.push((url.to_owned(), res));
        assert(self.entries@.drop_last() == before);
    }

    pub fn clear(&mut self)
        ensures
            final(self)@ == Map::<Seq<char>, CachedResponse>::empty(),
    {
        self.entries = Vec::new();
    }
}


/// A storage read gives back what was last written: after `set_item(k, v)`,
/// `get_item(k)` is `v`, every other key keeps its item, and `length` grows
/// by one exactly when `k` was new; after `remove_item(k)` there is no item
/// for `k` and the others stay.
pub proof fn law_storage_read_after_write(
    m: Map<Seq<char>, Seq<char>>,
    k: Seq<char>,
    v: Seq<char>,
    other: Seq<char>,
)
    requires
        m.dom().finite(),
    ensures
        m.insert(k, v).dom().contains(k) && m.insert(k, v)[k] == v,
        other != k ==> m.insert(k, v).dom().contains(other) == m.dom().contains(other),
        other != k && m.dom().contains(other) ==> m.insert(k, v)[other] == m[other],
        m.insert(k, v).dom().len() == (if m.dom().contains(k) { m.dom().len() } else { m.dom().len() + 1 }),
        !m.remove(k).dom().contains(k),
        other != k ==> m.remove(k).dom().contains(other) == m.dom().contains(other),
{
    if m.dom().contains(k) {
        assert(m.insert(k, v).dom() =~= m.dom());
    } else {
        assert(m.insert(k, v).dom() =~= m.dom().insert(k));
    }
}

/// A cached response is found under its URL until the URL is stored again or
/// the cache is cleared, and storing one URL leaves the others as they were.
pub proof fn law_cache_read_after_write(
    m: Map<Seq<char>, CachedResponse>,
    url: Seq<char>,
    res: CachedResponse,
    other: Seq<char>,
)
    ensures
        m.insert(url, res).dom().contains(url) && m.insert(url, res)[url] == res,
        other != url ==> m.insert(url, res).dom().contains(other) == m.dom().contains(other),
        other != url && m.dom().contains(other) ==> m.insert(url, res)[other] == m[other],
        !Map::<Seq<char>, CachedResponse>::empty().dom().contains(url),
{
}

} // verus!
