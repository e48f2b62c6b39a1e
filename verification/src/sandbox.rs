//! Origins and the same-origin rule, Content-Security-Policy, permissions,
//! and the renderer sandbox.
use vstd::prelude::*;
use crate::text::{
    chars_of, chars_eq, ends_with, lower_seq, lower_str, push_char, push_decimal, push_str,
    split_char, split_on, split_whitespace, split_ws, starts_with, str_ends_with, str_eq,
    str_starts_with, string_of, string_of_all, lower_range, trim, trim_bounds, decimal,
};
use crate::urls::{parse_url, spec_parse_url, UrlView};
use vstd::string::StringSliceAdditionalSpecFns;

verus! {

/// An origin, as mathematical values.
pub enum OriginView {
    Tuple { scheme: Seq<char>, host: Seq<char>, port: u16 },
    Opaque(Seq<char>),
}

#[derive(Debug, Clone, PartialEq, Eq, Hash)]
pub enum Origin {
    Tuple { scheme: String, host: String, port: u16 },
    Opaque(String),
}

impl View for Origin {
    type V = OriginView;

    open spec fn view(&self) -> OriginView {
        match self {
            Origin::Tuple { scheme, host, port } => OriginView::Tuple {
                scheme: scheme@,
                host: host@,
                port: *port,
            },
            Origin::Opaque(id) => OriginView::Opaque(id@),
        }
    }
}

/// 64-bit FNV-1a over a byte sequence.
pub open spec fn fnv1a(bytes: Seq<u8>) -> u64
    decreases bytes.len(),
{
    if bytes.len() == 0 {
        0xcbf29ce484222325u64
    } else {
        let h = fnv1a(bytes.drop_last());
        (((h ^ (bytes.last() as u64)) as nat * 0x100000001b3nat) % 0x1_0000_0000_0000_0000nat) as u64
    }
}

/// 64-bit FNV-1a hash of the UTF-8 bytes of `s`.
pub fn fast_hash(s: &str) -> (h: u64)
    ensures
        h == fnv1a(s.spec_bytes()),
{
    let bytes = s.as_bytes();
    let mut h: u64 = 0xcbf29ce484222325;
    let mut i: usize = 0;
    while i < bytes.len()
        invariant
            i <= bytes@.len(),
            bytes@ == s.spec_bytes(),
            h == fnv1a(bytes@.take(i as int)),
        decreases bytes@.len() - i,
    {
        assert(bytes@.take(i + 1).drop_last() == bytes@.take(i as int));
        h = (h ^ (bytes[i] as u64)).wrapping_mul(0x100000001b3);
        i = i + 1;
    }
    assert(bytes@.take(bytes@.len() as int) == bytes@);
    h
}

/// The port a scheme defaults to when the URL names none.
pub open spec fn default_port(scheme: Seq<char>) -> u16 {
    if scheme == "http"@ {
        80
    } else if scheme == "https"@ {
        443
    } else {
        0
    }
}

/// The origin of a URL text: `data:`, `javascript:` and empty texts give an
/// opaque origin named by their hash, `file:` gives the file origin, other
/// texts go through the URL parser.
pub open spec fn origin_of(input: Seq<char>) -> Result<OriginView, Seq<char>> {
    let t = trim(input);
    if starts_with(t, "data:"@) || starts_with(t, "javascript:"@) || t.len() == 0 {
        Ok(OriginView::Opaque("opaque:"@ + decimal(fnv1a(vstd::utf8::encode_utf8(t)) as nat)))
    } else if starts_with(t, "file:"@) {
        Ok(OriginView::Tuple { scheme: "file"@, host: Seq::empty(), port: 0 })
    } else {
        match spec_parse_url(t) {
            Ok(u) => {
                let scheme = lower_seq(u.scheme);
                Ok(
                    OriginView::Tuple {
                        scheme: scheme,
                        host: lower_seq(
                            match u.host {
                                Some(h) => h,
                                None => Seq::empty(),
                            },
                        ),
                        port: match u.port {
                            Some(p) => p,
                            None => default_port(scheme),
                        },
                    },
                )
            },
            Err(e) => Err(e),
        }
    }
}

/// Two origins are the same when both are tuples with equal scheme, host and
/// port; an opaque origin is the same as nothing.
pub open spec fn same_origin(a: OriginView, b: OriginView) -> bool {
    match (a, b) {
        (
            OriginView::Tuple { scheme: s1, host: h1, port: p1 },
            OriginView::Tuple { scheme: s2, host: h2, port: p2 },
        ) => s1 == s2 && h1 == h2 && p1 == p2,
        _ => false,
    }
}

/// The serialization of an origin.
pub open spec fn origin_repr(o: OriginView) -> Seq<char> {
    match o {
        OriginView::Tuple { scheme, host, port } => {
            if scheme == "file"@ {
                "file://"@
            } else if (scheme == "http"@ && port == 80) || (scheme == "https"@ && port == 443) {
                scheme + "://"@ + host
            } else {
                scheme + "://"@ + host + ":"@ + decimal(port as nat)
            }
        },
        OriginView::Opaque(id) => id,
    }
}

/// How the debug notation writes one character inside a string.
pub open spec fn escape_char(c: char) -> Seq<char> {
    if c == '"' {
        seq!['\\', '"']
    } else if c == '\\' {
        seq!['\\', '\\']
    } else if c == '\n' {
        seq!['\\', 'n']
    } else if c == '\r' {
        seq!['\\', 'r']
    } else if c == '\t' {
        seq!['\\', 't']
    } else {
        seq![c]
    }
}

pub open spec fn escape(s: Seq<char>) -> Seq<char>
    decreases s.len(),
{
    if s.len() == 0 {
        Seq::empty()
    } else {
        escape(s.drop_last()) + escape_char(s.last())
    }
}

pub open spec fn quoted(s: Seq<char>) -> Seq<char> {
    seq!['"'] + escape(s) + seq!['"']
}

/// The debug notation of an origin.
pub open spec fn origin_debug(o: OriginView) -> Seq<char> {
    match o {
        OriginView::Tuple { scheme, host, port } => "Tuple { scheme: "@ + quoted(scheme) + ", host: "@
            + quoted(host) + ", port: "@ + decimal(port as nat) + " }"@,
        OriginView::Opaque(id) => "Opaque("@ + quoted(id) + ")"@,
    }
}

fn push_quoted(out: &mut String, s: &String)
    ensures
        final(out)@ == old(out)@ + quoted(s@),
{
    let v = chars_of(s.as_str());
    let ghost o0 = out@;
    push_char(out, '"');
    let mut i: usize = 0;
    while i < v.len()
        invariant
            i <= v.len(),
            out@ == o0 + seq!['"'] + escape(v@.take(i as int)),
        decreases v.len() - i,
    {
        let c = v[i];
        if c == '"' {
            push_char(out, '\\');
            push_char(out, '"');
        } else if c == '\\' {
            push_char(out, '\\');
            push_char(out, '\\');
        } else if c == '\n' {
            push_char(out, '\\');
            push_char(out, 'n');
        } else if c == '\r' {
            push_char(out, '\\');
            push_char(out, 'r');
        } else if c == '\t' {
            push_char(out, '\\');
            push_char(out, 't');
        } else {
            push_char(out, c);
        }
        assert(v@.take(i + 1).drop_last() == v@.take(i as int));
        i = i + 1;
        assert(out@ =~= o0 + seq!['"'] + escape(v@.take(i as int)));
    }
    push_char(out, '"');
    assert(v@.take(v@.len() as int) == v@);
    assert(out@ =~= o0 + quoted(s@));
}

impl Origin {
    /// The origin of a URL text (see `origin_of`); the URL parser's error text
    /// when it rejects the input.
    pub fn parse(input: &str) -> (r: Result<Origin, String>)
        ensures
            match (r, origin_of(input@)) {
                (Ok(o), Ok(v)) => o@ == v,
                (Err(e), Err(m)) => e@ == m,
                _ => false,
            },
    {
        let t = crate::text::trim_str(input);
        let ts = t.as_str();
        if str_starts_with(ts, "data:") || str_starts_with(ts, "javascript:") || ts.is_empty() {
            let mut id = String::new();
            push_str(&mut id, "opaque:");
            push_decimal(&mut id, fast_hash(ts));
            return Ok(Origin::Opaque(id));
        }
        if str_starts_with(ts, "file:") {
            return Ok(Origin::Tuple { scheme: "file".to_owned(), host: String::new(), port: 0 });
        }
        match parse_url(ts) {
            Ok(u) => {
                let scheme = lower_str(u.scheme.as_str());
                let host = match &u.host {
                    Some(h) => lower_str(h.as_str()),
                    None => {
                        let e = String::new();
                        let l = lower_str(e.as_str());
                        l
                    },
                };
                let port = match u.port {
                    Some(p) => p,
                    None => {
                        if str_eq(scheme.as_str(), "http") {
                            80
                        } else if str_eq(scheme.as_str(), "https") {
                            443
                        } else {
                            0
                        }
                    },
                };
                Ok(Origin::Tuple { scheme, host, port })
            },
            Err(e) => Err(e),
        }
    }

    pub fn is_same_origin(&self, other: &Origin) -> (b: bool)
        ensures
            b == same_origin(self@, other@),
    {
        match (self, other) {
            (
                Origin::Tuple { scheme: s1, host: h1, port: p1 },
                Origin::Tuple { scheme: s2, host: h2, port: p2 },
            ) => str_eq(s1.as_str(), s2.as_str()) && str_eq(h1.as_str(), h2.as_str()) && *p1 == *p2,
            _ => false,
        }
    }

    pub fn is_opaque(&self) -> (b: bool)
        ensures
            b == (self@ is Opaque),
    {
        match self {
            Origin::Opaque(_) => true,
            _ => false,
        }
    }

    /// The serialization: `scheme://host`, with `:port` unless it is the
    /// scheme's default; `file://` for files; the name of an opaque origin.
    pub fn to_string_repr(&self) -> (s: String)
        ensures
            s@ == origin_repr(self@),
    {
        match self {
            Origin::Tuple { scheme, host, port } => {
                if str_eq(scheme.as_str(), "file") {
                    "file://".to_owned()
                } else {
                    let mut out = String::new();
                    push_str(&mut out, scheme.as_str());
                    push_str(&mut out, "://");
                    push_str(&mut out, host.as_str());
                    if (str_eq(scheme.as_str(), "http") && *port == 80) || (str_eq(scheme.as_str(), "https") && *port == 443) {
                        assert(out@ =~= origin_repr(self@));
                    } else {
                        push_str(&mut out, ":");
                        push_decimal(&mut out, *port as u64);
                        assert(out@ =~= origin_repr(self@));
                    }
                    out
                }
            },
            Origin::Opaque(id) => id.clone(),
        }
    }

    /// A copy.
    pub fn duplicate(&self) -> (r: Origin)
        ensures
            r@ == self@,
    {
        match self {
            Origin::Tuple { scheme, host, port } => Origin::Tuple {
                scheme: scheme.clone(),
                host: host.clone(),
                port: *port,
            },
            Origin::Opaque(id) => Origin::Opaque(id.clone()),
        }
    }

    /// The debug notation (see `origin_debug`).
    pub fn debug_repr(&self) -> (s: String)
        ensures
            s@ == origin_debug(self@),
    {
        let mut out = String::new();
        match self {
            Origin::Tuple { scheme, host, port } => {
                push_str(&mut out, "Tuple { scheme: ");
                push_quoted(&mut out, scheme);
                push_str(&mut out, ", host: ");
                push_quoted(&mut out, host);
                push_str(&mut out, ", port: ");
                push_decimal(&mut out, *port as u64);
                push_str(&mut out, " }");
            },
            Origin::Opaque(id) => {
                push_str(&mut out, "Opaque(");
                push_quoted(&mut out, id);
                push_str(&mut out, ")");
            },
        }
        assert(out@ =~= origin_debug(self@));
        out
    }
}

/// Whether the keywords of a directive include `v`.
fn has_value(values: &Vec<String>, v: &str) -> (b: bool)
    ensures
        b == values@.map_values(|s: String| s@).contains(v@),
{
    let ghost vs = values@.map_values(|s: String| s@);
    let mut i: usize = 0;
    while i < values.len()
        invariant
            vs == values@.map_values(|s: String| s@),
            i <= values.len(),
            forall|m: int| 0 <= m < i ==> vs[m] != v@,
        decreases values.len() - i,
    {
        if str_eq(values[i].as_str(), v) {
            assert(vs[i as int] == v@);
            return true;
        }
        i = i + 1;
    }
    false
}

/// Whether one source expression `v` lets in a URL whose parse is `u`:
/// the bare host, a URL with the same scheme and host, or a `*.domain` pattern
/// whose domain ends the host.
pub open spec fn source_matches(v: Seq<char>, u: UrlView) -> bool {
    let host = match u.host {
        Some(h) => h,
        None => Seq::empty(),
    };
    ||| v == host
    ||| (spec_parse_url(v) matches Ok(vu) && vu.scheme == u.scheme && vu.host == u.host)
    ||| (starts_with(v, "*."@) && ends_with(host, v.subrange(2, v.len() as int)))
}

/// Whether a directive with these keywords allows loading `target` into a
/// document of `origin` (inline content when `inline`).
pub open spec fn directive_allows(values: Seq<Seq<char>>, target: Seq<char>, origin: OriginView, inline: bool) -> bool {
    if values.contains("'none'"@) {
        false
    } else if inline {
        values.contains("'unsafe-inline'"@)
    } else if values.contains("*"@) {
        true
    } else if values.contains("'self'"@) && (origin_of(target) matches Ok(t) && same_origin(origin, t)) {
        true
    } else if starts_with(target, "data:"@) && values.contains("data:"@) {
        true
    } else {
        match spec_parse_url(target) {
            Ok(u) => exists|i: int| 0 <= i < values.len() && source_matches(#[trigger] values[i], u),
            Err(_) => false,
        }
    }
}

#[derive(Debug, Clone, PartialEq, Eq)]
pub struct CspDirective {
    pub name: String,
    pub values: Vec<String>,
}

impl CspDirective {
    pub open spec fn values_view(&self) -> Seq<Seq<char>> {
        self.values@.map_values(|s: String| s@)
    }

    /// Whether this directive allows `target_url` for a document of `origin`.
    pub fn allows(&self, target_url: &str, origin: &Origin, is_inline: bool) -> (b: bool)
        ensures
            b == directive_allows(self.values_view(), target_url@, origin@, is_inline),
    {
        if has_value(&self.values, "'none'") {
            return false;
        }
        if is_inline {
            return has_value(&self.values, "'unsafe-inline'");
        }
        if has_value(&self.values, "*") {
            return true;
        }
        if has_value(&self.values, "'self'") {
            if let Ok(target_origin) = Origin::parse(target_url) {
                if origin.is_same_origin(&target_origin) {
                    return true;
                }
            }
        }
        if str_starts_with(target_url, "data:") && has_value(&self.values, "data:") {
            return true;
        }
        match parse_url(target_url) {
            Ok(u) => {
                let ghost vs = self.values_view();
                let empty = String::new();
                let target_host: &String = match &u.host {
                    Some(h) => h,
                    None => &empty,
                };
                let mut i: usize = 0;
                while i < self.values.len()
                    invariant
                        vs == self.values_view(),
                        !vs.contains("'none'"@),
                        !is_inline,
                        !vs.contains("*"@),
                        !(vs.contains("'self'"@) && (origin_of(target_url@) matches Ok(t) && same_origin(origin@, t))),
                        !(starts_with(target_url@, "data:"@) && vs.contains("data:"@)),
                        spec_parse_url(target_url@) == Ok::<UrlView, Seq<char>>(u@),
                        target_host@ == (match u@.host {
                            Some(h) => h,
                            None => Seq::empty(),
                        }),
                        i <= self.values.len(),
                        forall|m: int| 0 <= m < i ==> !source_matches(#[trigger] vs[m], u@),
                    decreases self.values.len() - i,
                {
                    let val = self.values[i].as_str();
                    assert(vs[i as int] == val@);
                    if str_eq(val, target_host.as_str()) {
                        return true;
                    }
                    match parse_url(val) {
                        Ok(vu) => {
                            let same_host = match (&vu.host, &u.host) {
                                (Some(a), Some(b)) => str_eq(a.as_str(), b.as_str()),
                                (None, None) => true,
                                _ => false,
                            };
                            if str_eq(vu.scheme.as_str(), u.scheme.as_str()) && same_host {
                                return true;
                            }
                        },
                        Err(_) => {},
                    }
                    if str_starts_with(val, "*.") {
                        let vv = chars_of(val);
                        proof {
                            reveal_strlit("*.");
                        }
                        let domain = string_of(&vv, 2, vv.len());
                        if str_ends_with(target_host.as_str(), domain.as_str()) {
                            return true;
                        }
                    }
                    i = i + 1;
                }
                false
            },
            Err(_) => false,
        }
    }
}

/// The directives of a policy by name; a later directive of a name replaces an earlier one.
pub open spec fn directive_map(ds: Seq<CspDirective>) -> Map<Seq<char>, Seq<Seq<char>>>
    decreases ds.len(),
{
    if ds.len() == 0 {
        Map::empty()
    } else {
        directive_map(ds.drop_last()).insert(ds.last().name@, ds.last().values_view())
    }
}

/// One `;`-separated piece of a policy header: its first word, lower-cased,
/// names the directive; the other words are its keywords.
pub open spec fn directive_of(piece: Seq<char>) -> Option<(Seq<char>, Seq<Seq<char>>)> {
    let words = split_ws(trim(piece));
    if words.len() == 0 {
        None
    } else {
        Some((lower_seq(words[0]), words.drop_first()))
    }
}

pub open spec fn policy_of(pieces: Seq<Seq<char>>) -> Map<Seq<char>, Seq<Seq<char>>>
    decreases pieces.len(),
{
    if pieces.len() == 0 {
        Map::empty()
    } else {
        let m = policy_of(pieces.drop_last());
        match directive_of(pieces.last()) {
            Some((n, vs)) => m.insert(n, vs),
            None => m,
        }
    }
}

/// The directives of a `Content-Security-Policy` header value.
pub open spec fn parse_policy(header: Seq<char>) -> Map<Seq<char>, Seq<Seq<char>>> {
    policy_of(split_on(header, ';'))
}

/// Whether a policy allows a load under directive `name`, falling back to
/// `default-src`, and allowing everything when neither is present.
pub open spec fn policy_allows(p: Map<Seq<char>, Seq<Seq<char>>>, name: Seq<char>, target: Seq<char>, origin: OriginView, inline: bool) -> bool {
    if p.dom().contains(name) {
        directive_allows(p[name], target, origin, inline)
    } else if p.dom().contains("default-src"@) {
        directive_allows(p["default-src"@], target, origin, inline)
    } else {
        true
    }
}

#[derive(Debug, Clone)]
pub struct ContentSecurityPolicy {
    directives: Vec<CspDirective>,
}

impl View for ContentSecurityPolicy {
    type V = Map<Seq<char>, Seq<Seq<char>>>;

    closed spec fn view(&self) -> Map<Seq<char>, Seq<Seq<char>>> {
        directive_map(self.directives@)
    }
}

proof fn lemma_directive_lookup(ds: Seq<CspDirective>, name: Seq<char>, j: int)
    requires
        0 <= j <= ds.len(),
        forall|m: int| j <= m < ds.len() ==> (#[trigger] ds[m]).name@ != name,
    ensures
        directive_map(ds).dom().contains(name) == directive_map(ds.take(j)).dom().contains(name),
        directive_map(ds)[name] == directive_map(ds.take(j))[name],
    decreases ds.len() - j,
{
    if j < ds.len() {
        let t = ds.take(j + 1);
        assert(t.drop_last() == ds.take(j));
        assert(t.last() == ds[j]);
        assert forall|m: int| j + 1 <= m < t.len() implies (#[trigger] t[m]).name@ != name by {}
        lemma_directive_lookup(ds, name, j + 1);
    } else {
        assert(ds.take(j) == ds);
    }
}

impl ContentSecurityPolicy {
    /// Parses a header value: `;`-separated directives, each a name and keywords.
    pub fn parse(header_value: &str) -> (p: Self)
        ensures
            p@ == parse_policy(header_value@),
    {
        let v = chars_of(header_value);
        assert(v@.subrange(0, v@.len() as int) == v@);
        let chunks = split_char(&v, 0, v.len(), ';');
        let ghost cs = chunks@.map_values(|p: Vec<char>| p@);
        let mut directives: Vec<CspDirective> = Vec::new();
        let mut i: usize = 0;
        while i < chunks.len()
            invariant
                cs == chunks@.map_values(|p: Vec<char>| p@),
                cs == split_on(v@, ';'),
                i <= chunks.len(),
                directive_map(directives@) == policy_of(cs.take(i as int)),
            decreases chunks.len() - i,
        {
            let c = &chunks[i];
            assert(cs.take(i + 1).drop_last() == cs.take(i as int));
            assert(cs.take(i + 1).last() == c@);
            let (a, b) = trim_bounds(c, 0, c.len());
            assert(c@.subrange(0, c@.len() as int) == c@);
            let words = split_whitespace(c, a, b);
            let ghost ws = words@.map_values(|p: Vec<char>| p@);
            if words.len() > 0 {
                let name_l = lower_range(&words[0], 0, words[0].len());
                assert(words[0]@.subrange(0, words[0]@.len() as int) == words[0]@);
                let name = string_of_all(&name_l);
                let mut values: Vec<String> = Vec::new();
                let mut k: usize = 1;
                while k < words.len()
                    invariant
                        ws == words@.map_values(|p: Vec<char>| p@),
                        1 <= k <= words.len(),
                        values@.map_values(|s: String| s@) == ws.subrange(1, k as int),
                    decreases words.len() - k,
                {
                    let w = string_of_all(&words[k]);
                    assert(w@ == ws[k as int]);
                    let ghost before = values@.map_values(|s: String| s@);
                    values.push(w);
                    assert(values@.map_values(|s: String| s@) =~= before.push(w@));
                    assert(ws.subrange(1, k + 1) =~= ws.subrange(1, k as int).push(ws[k as int]));
                    assert(values@.map_values(|s: String| s@) =~= ws.subrange(1, k + 1));
                    k = k + 1;
                }
                let d = CspDirective { name, values };
                assert(d.values_view() =~= ws.drop_first());
                let ghost before = directives@;
                directives.push(d);
                assert(directives@.drop_last() == before);
            }
            i = i + 1;
        }
        assert(cs.take(chunks.len() as int) == cs);
        ContentSecurityPolicy { directives }
    }

    /// The directive of the given name.
    pub fn directive(&self, name: &str) -> (r: Option<&CspDirective>)
        ensures
            match r {
                Some(d) => self@.dom().contains(name@) && self@[name@] == d.values_view() && d.name@ == name@,
                None => !self@.dom().contains(name@),
            },
    {
        let mut j = self.directives.len();
        while j > 0
            invariant
                j <= self.directives@.len(),
                forall|m: int| j <= m < self.directives@.len() ==> (#[trigger] self.directives@[m]).name@ != name@,
            decreases j,
        {
            if str_eq(self.directives[j - 1].name.as_str(), name) {
                proof {
                    lemma_directive_lookup(self.directives@, name@, j as int);
                    let t = self.directives@.take(j as int);
                    assert(t.last() == self.directives@[j - 1]);
                }
                return Some(&self.directives[j - 1]);
            }
            j = j - 1;
        }
        proof {
            lemma_directive_lookup(self.directives@, name@, 0);
            assert(self.directives@.take(0).len() == 0);
        }
        None
    }

    fn check_directive(&self, specific_name: &str, target_url: &str, origin: &Origin, is_inline: bool) -> (b: bool)
        ensures
            b == policy_allows(self@, specific_name@, target_url@, origin@, is_inline),
    {
        if let Some(dir) = self.directive(specific_name) {
            return dir.allows(target_url, origin, is_inline);
        }
        if let Some(default_dir) = self.directive("default-src") {
            return default_dir.allows(target_url, origin, is_inline);
        }
        true
    }

    /// Whether a script (from `src`, or inline) may run.
    pub fn allows_script(&self, origin: &Origin, src: Option<&str>, is_inline: bool) -> (b: bool)
        ensures
            b == policy_allows(self@, "script-src"@, match src {
                Some(s) => s@,
                None => Seq::empty(),
            }, origin@, is_inline),
    {
        let empty = String::new();
        let target: &str = match src {
            Some(s) => s,
            None => empty.as_str(),
        };
        self.check_directive("script-src", target, origin, is_inline)
    }

    /// Whether a style sheet (from `src`, or inline) may apply.
    pub fn allows_style(&self, origin: &Origin, src: Option<&str>, is_inline: bool) -> (b: bool)
        ensures
            b == policy_allows(self@, "style-src"@, match src {
                Some(s) => s@,
                None => Seq::empty(),
            }, origin@, is_inline),
    {
        let empty = String::new();
        let target: &str = match src {
            Some(s) => s,
            None => empty.as_str(),
        };
        self.check_directive("style-src", target, origin, is_inline)
    }

    /// Whether an image may load from `url`.
    pub fn allows_image(&self, origin: &Origin, url: &str) -> (b: bool)
        ensures
            b == policy_allows(self@, "img-src"@, url@, origin@, false),
    {
        self.check_directive("img-src", url, origin, false)
    }

    /// Whether a connection to `url` may open.
    pub fn allows_connect(&self, origin: &Origin, url: &str) -> (b: bool)
        ensures
            b == policy_allows(self@, "connect-src"@, url@, origin@, false),
    {
        self.check_directive("connect-src", url, origin, false)
    }
}

#[derive(Debug, Clone, Copy, PartialEq, Eq, Structural)]
pub enum Permission {
    Geolocation,
    Notifications,
    Camera,
    Microphone,
    ClipboardRead,
    ClipboardWrite,
}

#[derive(Debug, Clone, Copy, PartialEq, Eq, Structural)]
pub enum PermissionState {
    Granted,
    Denied,
    Prompt,
}

/// The permission decisions in force: a later decision for the same origin
/// and permission replaces an earlier one.
pub open spec fn decision_map(es: Seq<(Origin, Permission, PermissionState)>) -> Map<(OriginView, Permission), PermissionState>
    decreases es.len(),
{
    if es.len() == 0 {
        Map::empty()
    } else {
        decision_map(es.drop_last()).insert((es.last().0@, es.last().1), es.last().2)
    }
}

#[derive(Debug)]
pub struct PermissionManager {
    permissions: Vec<(Origin, Permission, PermissionState)>,
}

impl View for PermissionManager {
    type V = Map<(OriginView, Permission), PermissionState>;

    closed spec fn view(&self) -> Map<(OriginView, Permission), PermissionState> {
        decision_map(self.permissions@)
    }
}

fn origin_eq(a: &Origin, b: &Origin) -> (r: bool)
    ensures
        r == (a@ == b@),
{
    match (a, b) {
        (
            Origin::Tuple { scheme: s1, host: h1, port: p1 },
            Origin::Tuple { scheme: s2, host: h2, port: p2 },
        ) => str_eq(s1.as_str(), s2.as_str()) && str_eq(h1.as_str(), h2.as_str()) && *p1 == *p2,
        (Origin::Opaque(x), Origin::Opaque(y)) => str_eq(x.as_str(), y.as_str()),
        _ => false,
    }
}

proof fn lemma_decision_lookup(es: Seq<(Origin, Permission, PermissionState)>, k: (OriginView, Permission), j: int)
    requires
        0 <= j <= es.len(),
        forall|m: int| j <= m < es.len() ==> ((#[trigger] es[m]).0@, es[m].1) != k,
    ensures
        decision_map(es).dom().contains(k) == decision_map(es.take(j)).dom().contains(k),
        decision_map(es)[k] == decision_map(es.take(j))[k],
    decreases es.len() - j,
{
    if j < es.len() {
        let t = es.take(j + 1);
        assert(t.drop_last() == es.take(j));
        assert(t.last() == es[j]);
        lemma_decision_lookup(es, k, j + 1);
    } else {
        assert(es.take(j) == es);
    }
}

/// The decision recorded for an origin and permission; `Prompt` when none was made.
pub open spec fn decision(m: Map<(OriginView, Permission), PermissionState>, o: OriginView, p: Permission) -> PermissionState {
    if m.dom().contains((o, p)) {
        m[(o, p)]
    } else {
        PermissionState::Prompt
    }
}

/// A recorded decision is what a later query for the same origin and
/// permission answers, and it changes the answer for no other pair.
pub proof fn law_permission_decision_is_remembered(
    m: Map<(OriginView, Permission), PermissionState>,
    o: OriginView,
    p: Permission,
    st: PermissionState,
    o2: OriginView,
    p2: Permission,
)
    ensures
        decision(m.insert((o, p), st), o, p) == st,
        (o2, p2) != (o, p) ==> decision(m.insert((o, p), st), o2, p2) == decision(m, o2, p2),
{
}

/// Being same-origin is symmetric and transitive, holds between a tuple
/// origin and itself, and never holds for an opaque origin.
pub proof fn law_same_origin_equivalence(a: OriginView, b: OriginView, c: OriginView)
    ensures
        same_origin(a, b) == same_origin(b, a),
        same_origin(a, b) && same_origin(b, c) ==> same_origin(a, c),
        a is Tuple ==> same_origin(a, a),
        a is Opaque ==> !same_origin(a, b) && !same_origin(b, a),
{
}

/// An origin parsed from a `data:` or `javascript:` URL, or from blank
/// input, is opaque and so is never same-origin with anything.
pub proof fn law_data_urls_are_opaque(input: Seq<char>, other: OriginView)
    requires
        starts_with(trim(input), "data:"@) || starts_with(trim(input), "javascript:"@) || trim(input).len() == 0,
    ensures
        origin_of(input) matches Ok(o) && o is Opaque && !same_origin(o, other),
{
}

impl PermissionManager {
    pub fn new() -> (m: Self)
        ensures
            m@ == Map::<(OriginView, Permission), PermissionState>::empty(),
    {
        PermissionManager { permissions: Vec::new() }
    }

    /// The decision for an origin and permission; `Prompt` when none was made.
    pub fn query(&self, origin: &Origin, perm: Permission) -> (s: PermissionState)
        ensures
            s == decision(self@, origin@, perm),
    {
        let mut j = self.permissions.len();
        while j > 0
            invariant
                j <= self.permissions@.len(),
                forall|m: int| j <= m < self.permissions@.len() ==> ((#[trigger] self.permissions@[m]).0@, self.permissions@[m].1) != (origin@, perm),
            decreases j,
        {
            let e = &self.permissions[j - 1];
            if origin_eq(&e.0, origin) && e.1 == perm {
                proof {
                    lemma_decision_lookup(self.permissions@, (origin@, perm), j as int);
                    let t = self.permissions@.take(j as int);
                    assert(t.last() == self.permissions@[j - 1]);
                }
                return e.2;
            }
            j = j - 1;
        }
        proof {
            lemma_decision_lookup(self.permissions@, (origin@, perm), 0);
        }
        PermissionState::Prompt
    }

    /// Records a decision for an origin and permission.
    pub fn set_permission(&mut self, origin: Origin, perm: Permission, state: PermissionState)
        ensures
            final(self)@ == old(self)@.insert((origin@, perm), state),
    {
        let ghost before = self.permissions@;
        self.permissions.push((origin, perm, state));
        assert(self.permissions@.drop_last() == before);
    }
}

#[derive(Debug, Clone)]
pub struct RenderProcessSandbox {
    pub process_id: u32,
    pub origin: Origin,
    pub can_access_network_directly: bool,
    pub can_access_filesystem_directly: bool,
}

/// The refusal text of a sandboxed renderer.
pub open spec fn refusal(id: u32, origin: OriginView, what: Seq<char>) -> Seq<char> {
    "SecurityError: Render process "@ + decimal(id as nat) + " for origin "@ + origin_debug(origin) + what
}

impl RenderProcessSandbox {
    /// A renderer for `origin` with no direct network or file access.
    pub fn new_isolated(process_id: u32, origin: Origin) -> (s: Self)
        ensures
            s.process_id == process_id,
            s.origin@ == origin@,
            !s.can_access_network_directly,
            !s.can_access_filesystem_directly,
    {
        RenderProcessSandbox {
            process_id,
            origin,
            can_access_network_directly: false,
            can_access_filesystem_directly: false,
        }
    }

    fn refusal_text(&self, what: &str) -> (s: String)
        ensures
            s@ == refusal(self.process_id, self.origin@, what@),
    {
        let mut s = String::new();
        push_str(&mut s, "SecurityError: Render process ");
        push_decimal(&mut s, self.process_id as u64);
        push_str(&mut s, " for origin ");
        let d = self.origin.debug_repr();
        push_str(&mut s, d.as_str());
        push_str(&mut s, what);
        assert(s@ =~= refusal(self.process_id, self.origin@, what@));
        s
    }

    /// `Ok` only when the renderer may touch the file system itself.
    pub fn check_file_access(&self) -> (r: Result<(), String>)
        ensures
            r is Ok <==> self.can_access_filesystem_directly,
            r matches Err(e) ==> e@ == refusal(self.process_id, self.origin@, " is sandboxed from filesystem access"@),
    {
        if !self.can_access_filesystem_directly {
            Err(self.refusal_text(" is sandboxed from filesystem access"))
        } else {
            Ok(())
        }
    }

    /// `Ok` only when the renderer may open the network itself.
    pub fn check_direct_network_access(&self) -> (r: Result<(), String>)
        ensures
            r is Ok <==> self.can_access_network_directly,
            r matches Err(e) ==> e@ == refusal(self.process_id, self.origin@, " must broker network access through the browser process"@),
    {
        if !self.can_access_network_directly {
            Err(self.refusal_text(" must broker network access through the browser process"))
        } else {
            Ok(())
        }
    }
}

/// The pair of endpoints that joins a browser process and a renderer.
#[derive(Debug)]
pub struct IpcChannel;

} // verus!
