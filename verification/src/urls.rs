//! The parts of a parsed URL that the engine reads, obtained from the `url`
//! crate, and the plain split of a page address into `location` parts.
use vstd::prelude::*;
use crate::text::{chars_of, find_char, find_from, string_of};

verus! {

/// The parts of a parsed URL, as mathematical values.
pub struct UrlView {
    pub scheme: Seq<char>,
    pub host: Option<Seq<char>>,
    pub port: Option<u16>,
    pub path: Seq<char>,
}

/// The parts of a parsed URL: scheme, host, port (explicit or the scheme's
/// default) and path.
#[derive(Debug, Clone, PartialEq)]
pub struct ParsedUrl {
    pub scheme: String,
    pub host: Option<String>,
    pub port: Option<u16>,
    pub path: String,
}

impl View for ParsedUrl {
    type V = UrlView;

    open spec fn view(&self) -> UrlView {
        UrlView {
            scheme: self.scheme@,
            host: match self.host {
                Some(h) => Some(h@),
                None => None,
            },
            port: self.port,
            path: self.path@,
        }
    }
}

/// What `url::Url::parse` makes of an input: its scheme, host, known port and
/// path, or the text of its parse error.
pub uninterp spec fn spec_parse_url(input: Seq<char>) -> Result<UrlView, Seq<char>>;

/// What `url::Url::parse(base)` then `Url::join(target)` gives, as text, when both succeed.
pub uninterp spec fn spec_url_join(base: Seq<char>, target: Seq<char>) -> Option<Seq<char>>;

/// Calls `url::Url::parse` and reads `scheme`, `host_str`,
/// `port_or_known_default` and `path` from the result, or the error's text.
/// The contract names the result; it states nothing of the URL grammar.
#[verifier::external_body]
pub(crate) fn parse_url(input: &str) -> (r: Result<ParsedUrl, String>)
    ensures
        match (r, spec_parse_url(input@)) {
            (Ok(u), Ok(v)) => u@ == v,
            (Err(e), Err(m)) => e@ == m,
            _ => false,
        },
{
    match url::Url::parse(input) {
        Ok(u) => Ok(
            ParsedUrl {
                scheme: u.scheme().to_string(),
                host: u.host_str().map(|h| h.to_string()),
                port: u.port_or_known_default(),
                path: u.path().to_string(),
            },
        ),
        Err(e) => Err(e.to_string()),
    }
}

/// Calls `url::Url::parse(base)` and `Url::join(target)`, and gives the joined
/// URL's text; `None` when either call fails. The contract names the result.
#[verifier::external_body]
pub(crate) fn url_join(base: &str, target: &str) -> (r: Option<String>)
    ensures
        match (r, spec_url_join(base@, target@)) {
            (Some(s), Some(t)) => s@ == t,
            (None, None) => true,
            _ => false,
        },
{
    match url::Url::parse(base) {
        Ok(b) => match b.join(target) {
            Ok(j) => Some(j.to_string()),
            Err(_) => None,
        },
        Err(_) => None,
    }
}

impl ParsedUrl {
    /// Parses a URL; `None` where the `url` crate rejects it.
    pub fn parse(input: &str) -> (r: Option<ParsedUrl>)
        ensures
            match r {
                Some(u) => spec_parse_url(input@) == Ok::<UrlView, Seq<char>>(u@),
                None => spec_parse_url(input@) is Err,
            },
    {
        match parse_url(input) {
            Ok(u) => Some(u),
            Err(_) => None,
        }
    }
}

/// First index at or after `i` where `://` starts in `s`, or the length of `s`.
pub open spec fn find_scheme_sep(s: Seq<char>, i: int) -> int
    decreases s.len() - i,
{
    if i < 0 || i + 3 > s.len() {
        s.len() as int
    } else if s[i] == ':' && s[i + 1] == '/' && s[i + 2] == '/' {
        i
    } else {
        find_scheme_sep(s, i + 1)
    }
}

/// A page address split the way `location` shows it: the protocol with its
/// `:` (`http:` when there is no `://`), the host, the path (`/` when there is
/// none), the query with its `?`, and the fragment with its `#`.
pub open spec fn url_parts(u: Seq<char>) -> (Seq<char>, Seq<char>, Seq<char>, Seq<char>, Seq<char>) {
    let k = find_scheme_sep(u, 0);
    let protocol = if k < u.len() { u.subrange(0, k + 1) } else { "http:"@ };
    let rest = if k < u.len() { u.subrange(k + 3, u.len() as int) } else { u };
    let sl = find_from(rest, '/', 0);
    let host = if sl < rest.len() { rest.subrange(0, sl) } else { rest };
    let path = if sl < rest.len() { rest.subrange(sl, rest.len() as int) } else { "/"@ };
    let q = find_from(path, '?', 0);
    let pathname = if q < path.len() { path.subrange(0, q) } else { path };
    let search_part = if q < path.len() { path.subrange(q, path.len() as int) } else { Seq::empty() };
    let h = find_from(search_part, '#', 0);
    let search = if h < search_part.len() { search_part.subrange(0, h) } else { search_part };
    let hash = if h < search_part.len() { search_part.subrange(h, search_part.len() as int) } else { Seq::empty() };
    (protocol, host, pathname, search, hash)
}

proof fn lemma_find_sep_bounds(s: Seq<char>, i: int)
    requires
        0 <= i,
    ensures
        find_scheme_sep(s, i) == s.len() || (i <= find_scheme_sep(s, i) && find_scheme_sep(s, i) + 3 <= s.len()),
    decreases s.len() - i,
{
    if i + 3 <= s.len() && !(s[i] == ':' && s[i + 1] == '/' && s[i + 2] == '/') {
        lemma_find_sep_bounds(s, i + 1);
    }
}

fn find_sep(v: &Vec<char>) -> (k: usize)
    ensures
        k == find_scheme_sep(v@, 0),
{
    let mut i: usize = 0;
    while i < v.len() && v.len() - i >= 3
        invariant
            find_scheme_sep(v@, 0) == find_scheme_sep(v@, i as int),
        decreases v.len() - i,
    {
        if v[i] == ':' && v[i + 1] == '/' && v[i + 2] == '/' {
            return i;
        }
        i = i + 1;
    }
    v.len()
}

/// Splits a page address into protocol, host, path, query and fragment (see `url_parts`).
pub fn parse_url_parts(url: &str) -> (r: (String, String, String, String, String))
    ensures
        (r.0@, r.1@, r.2@, r.3@, r.4@) == url_parts(url@),
{
    let u = chars_of(url);
    let k = find_sep(&u);
    proof {
        lemma_find_sep_bounds(u@, 0);
    }
    let (protocol, rest) = if k < u.len() {
        (string_of(&u, 0, k + 1), crate::text::slice_of(&u, k + 3, u.len()))
    } else {
        assert(u@.subrange(0, u@.len() as int) =~= u@);
        ("http:".to_owned(), crate::text::slice_of(&u, 0, u.len()))
    };
    let sl = find_char(&rest, '/', 0);
    let (host, path) = if sl < rest.len() {
        (string_of(&rest, 0, sl), crate::text::slice_of(&rest, sl, rest.len()))
    } else {
        assert(rest@.subrange(0, rest@.len() as int) =~= rest@);
        (string_of(&rest, 0, rest.len()), chars_of("/"))
    };
    let q = find_char(&path, '?', 0);
    let (pathname, search_part) = if q < path.len() {
        (string_of(&path, 0, q), crate::text::slice_of(&path, q, path.len()))
    } else {
        assert(path@.subrange(0, path@.len() as int) =~= path@);
        (string_of(&path, 0, path.len()), Vec::new())
    };
    let h = find_char(&search_part, '#', 0);
    let (search, hash) = if h < search_part.len() {
        (string_of(&search_part, 0, h), string_of(&search_part, h, search_part.len()))
    } else {
        assert(search_part@.subrange(0, search_part@.len() as int) =~= search_part@);
        (string_of(&search_part, 0, search_part.len()), String::new())
    };
    (protocol, host, pathname, search, hash)
}

} // verus!
