//! Site isolation: sites of origins, one renderer process per site, and the
//! `sandbox` attribute of iframes.
use vstd::prelude::*;
use crate::sandbox::{Origin, OriginView, fast_hash, fnv1a, origin_repr};
use crate::text::{
    chars_of, decimal, eq_ignore_case_vec, lower_seq, push_decimal, push_str, split_whitespace, split_ws,
    str_eq, string_of,
};
use vstd::string::StringSliceAdditionalSpecFns;

verus! {

/// Index of the last `.` before `j`, or -1.
pub open spec fn last_dot_before(h: Seq<char>, j: int) -> int
    decreases j,
{
    if 0 < j <= h.len() {
        if h[j - 1] == '.' {
            j - 1
        } else {
            last_dot_before(h, j - 1)
        }
    } else {
        -1
    }
}

/// A host written as an IP address: only digits and dots, or with a `:`.
pub open spec fn ip_like(h: Seq<char>) -> bool {
    (forall|i: int| 0 <= i < h.len() ==> (('0' <= #[trigger] h[i] && h[i] <= '9') || h[i] == '.')) || h.contains(':')
}

/// The registrable part of a host: its last two labels, or the whole host
/// when it has fewer or is an IP address.
pub open spec fn registrable(h: Seq<char>) -> Seq<char> {
    let d1 = last_dot_before(h, h.len() as int);
    if ip_like(h) || d1 < 0 {
        h
    } else {
        h.subrange(last_dot_before(h, d1) + 1, h.len() as int)
    }
}

/// The site of an origin: its scheme and registrable domain; an opaque
/// origin is a site of its own, named by its identifier.
pub open spec fn site_of(o: OriginView) -> (Seq<char>, Seq<char>) {
    match o {
        OriginView::Tuple { scheme, host, .. } => (scheme, registrable(host)),
        OriginView::Opaque(id) => (Seq::empty(), id),
    }
}

/// The site an origin belongs to.
#[derive(Debug, Clone, PartialEq, Eq, Hash)]
pub struct SiteInstance {
    pub scheme: String,
    pub site: String,
}

impl View for SiteInstance {
    type V = (Seq<char>, Seq<char>);

    open spec fn view(&self) -> (Seq<char>, Seq<char>) {
        (self.scheme@, self.site@)
    }
}

fn last_dot(h: &Vec<char>, j: usize) -> (r: usize)
    requires
        j <= h.len(),
    ensures
        r <= j,
        r == 0 ==> last_dot_before(h@, j as int) == -1,
        r > 0 ==> last_dot_before(h@, j as int) == r - 1,
{
    let mut k = j;
    while k > 0
        invariant
            k <= j <= h.len(),
            last_dot_before(h@, j as int) == last_dot_before(h@, k as int),
        decreases k,
    {
        if h[k - 1] == '.' {
            return k;
        }
        k = k - 1;
    }
    k
}

fn is_ip_like(h: &Vec<char>) -> (b: bool)
    ensures
        b == ip_like(h@),
{
    let mut all = true;
    let mut colon = false;
    let mut i: usize = 0;
    while i < h.len()
        invariant
            i <= h.len(),
            all == (forall|m: int| 0 <= m < i ==> (('0' <= #[trigger] h@[m] && h@[m] <= '9') || h@[m] == '.')),
            colon == (exists|m: int| 0 <= m < i && h@[m] == ':'),
        decreases h.len() - i,
    {
        let c = h[i];
        if !(('0' <= c && c <= '9') || c == '.') {
            all = false;
        }
        if c == ':' {
            colon = true;
        }
        i = i + 1;
    }
    proof {
        if colon {
            let m = choose|m: int| 0 <= m < i && h@[m] == ':';
            assert(h@.contains(':')) by {
                assert(h@[m] == ':');
            }
        }
        if h@.contains(':') {
            let m = choose|m: int| 0 <= m < h@.len() && h@[m] == ':';
            assert(0 <= m < i && h@[m] == ':');
        }
    }
    all || colon
}

impl SiteInstance {
    /// The site of `origin` (see `site_of`).
    pub fn for_origin(origin: &Origin) -> (s: SiteInstance)
        ensures
            s@ == site_of(origin@),
    {
        match origin {
            Origin::Tuple { scheme, host, .. } => {
                let h = chars_of(host.as_str());
                let d1 = last_dot(&h, h.len());
                let site = if is_ip_like(&h) || d1 == 0 {
                    string_of(&h, 0, h.len())
                } else {
                    let d2 = last_dot(&h, d1 - 1);
                    string_of(&h, d2, h.len())
                };
                assert(h@.subrange(0, h@.len() as int) == h@);
                SiteInstance { scheme: scheme.clone(), site }
            },
            Origin::Opaque(id) => SiteInstance { scheme: String::new(), site: id.clone() },
        }
    }

    fn same(&self, other: &SiteInstance) -> (b: bool)
        ensures
            b == (self@ == other@),
    {
        str_eq(self.scheme.as_str(), other.scheme.as_str()) && str_eq(self.site.as_str(), other.site.as_str())
    }
}

/// The process given to each site so far, in the order the sites came.
pub open spec fn table_wf(t: Seq<((Seq<char>, Seq<char>), nat)>) -> bool {
    &&& forall|i: int| 0 <= i < t.len() ==> (#[trigger] t[i]).1 == i + 1
    &&& forall|i: int, j: int| 0 <= i < j < t.len() ==> (#[trigger] t[i]).0 != (#[trigger] t[j]).0
}

/// The process of a site in the table, if it has one.
pub open spec fn process_of(t: Seq<((Seq<char>, Seq<char>), nat)>, site: (Seq<char>, Seq<char>)) -> Option<nat> {
    if exists|i: int| 0 <= i < t.len() && (#[trigger] t[i]).0 == site {
        Some((choose|i: int| 0 <= i < t.len() && (#[trigger] t[i]).0 == site) as nat + 1)
    } else {
        None
    }
}

/// Gives each site a renderer process of its own, numbered from 1 in the
/// order the sites are first seen.
#[derive(Debug)]
pub struct SiteIsolationManager {
    sites: Vec<SiteInstance>,
}

impl View for SiteIsolationManager {
    type V = Seq<((Seq<char>, Seq<char>), nat)>;

    closed spec fn view(&self) -> Seq<((Seq<char>, Seq<char>), nat)> {
        Seq::new(self.sites@.len(), |i: int| (self.sites@[i]@, (i + 1) as nat))
    }
}

impl SiteIsolationManager {
    #[verifier::type_invariant]
    pub closed spec fn distinct(self) -> bool {
        forall|i: int, j: int| 0 <= i < j < self.sites@.len() ==> (#[trigger] self.sites@[i])@ != (#[trigger] self.sites@[j])@
    }

    /// The table is well formed: process `i + 1` belongs to the `i`-th site, and no site is listed twice.
    pub proof fn lemma_wf(&self)
        requires
            self.distinct(),
        ensures
            table_wf(self@),
    {
    }

    pub fn new() -> (m: Self)
        ensures
            m@ == Seq::<((Seq<char>, Seq<char>), nat)>::empty(),
    {
        let m = SiteIsolationManager { sites: Vec::new() };
        assert(m@ =~= Seq::<((Seq<char>, Seq<char>), nat)>::empty());
        m
    }

    /// The process of the site of `origin`, given a new one when the site is new.
    pub fn get_or_assign_process_id(&mut self, origin: &Origin) -> (pid: usize)
        ensures
            table_wf(final(self)@),
            process_of(old(self)@, site_of(origin@)) matches Some(p) ==> pid == p && final(self)@ == old(self)@,
            process_of(old(self)@, site_of(origin@)) is None ==> pid == old(self)@.len() + 1 && final(self)@
                == old(self)@.push((site_of(origin@), pid as nat)),
            process_of(final(self)@, site_of(origin@)) == Some(pid as nat),
    {
        proof {
            use_type_invariant(&*self);
        }
        let ghost t0 = self@;
        let site = SiteInstance::for_origin(origin);
        let mut i: usize = 0;
        while i < self.sites.len()
            invariant
                i <= self.sites@.len(),
                self@ == t0,
                site@ == site_of(origin@),
                forall|m: int| 0 <= m < i ==> (#[trigger] self.sites@[m])@ != site@,
                forall|a: int, b: int| 0 <= a < b < self.sites@.len() ==> (#[trigger] self.sites@[a])@ != (#[trigger] self.sites@[b])@,
            decreases self.sites@.len() - i,
        {
            if self.sites[i].same(&site) {
                proof {
                    assert(t0[i as int].0 == site@);
                    let c = choose|k: int| 0 <= k < t0.len() && (#[trigger] t0[k]).0 == site@;
                    assert(t0[c].0 == self.sites@[c]@);
                    if c != i {
                        if c < i {
                            assert(self.sites@[c]@ != self.sites@[i as int]@);
                        } else {
                            assert(self.sites@[i as int]@ != self.sites@[c]@);
                        }
                    }
                    self.lemma_wf();
                }
                return i + 1;
            }
            i = i + 1;
        }
        proof {
            assert forall|k: int| 0 <= k < t0.len() implies (#[trigger] t0[k]).0 != site@ by {
                assert(t0[k].0 == self.sites@[k]@);
            }
        }
        let ghost old_sites = self.sites@;
        let mut sites: Vec<SiteInstance> = Vec::new();
        std::mem::swap(&mut sites, &mut self.sites);
        sites.push(site);
        let pid = sites.len();
        assert(sites@.drop_last() == old_sites);
        assert forall|a: int, b: int| 0 <= a < b < sites@.len() implies (#[trigger] sites@[a])@ != (#[trigger] sites@[b])@ by {
            if b < old_sites.len() {
                assert(sites@[a] == old_sites[a] && sites@[b] == old_sites[b]);
            } else {
                assert(sites@[a] == old_sites[a]);
                assert(t0[a].0 == old_sites[a]@);
            }
        }
        self.sites = sites;
        proof {
            assert(self@ =~= t0.push((site_of(origin@), pid as nat)));
            use_type_invariant(&*self);
            self.lemma_wf();
            let t = self@;
            assert(t[pid - 1].0 == site_of(origin@));
            let c = choose|k: int| 0 <= k < t.len() && (#[trigger] t[k]).0 == site_of(origin@);
            if c != pid - 1 {
                assert(t[c].0 == t0[c].0);
            }
        }
        pid
    }

    /// Whether two origins belong to different sites and so to different processes.
    pub fn are_sites_isolated(&self, a: &Origin, b: &Origin) -> (r: bool)
        ensures
            r == (site_of(a@) != site_of(b@)),
    {
        let sa = SiteInstance::for_origin(a);
        let sb = SiteInstance::for_origin(b);
        !sa.same(&sb)
    }
}

/// Two origins of one site share a process, and origins of different sites
/// never do.
pub proof fn law_one_process_per_site(t: Seq<((Seq<char>, Seq<char>), nat)>, a: (Seq<char>, Seq<char>), b: (Seq<char>, Seq<char>))
    requires
        table_wf(t),
        process_of(t, a) is Some,
        process_of(t, b) is Some,
    ensures
        (process_of(t, a) == process_of(t, b)) == (a == b),
{
    let ia = choose|i: int| 0 <= i < t.len() && (#[trigger] t[i]).0 == a;
    let ib = choose|i: int| 0 <= i < t.len() && (#[trigger] t[i]).0 == b;
    if a != b {
        assert(ia != ib);
    }
}

/// The restrictions of an iframe's `sandbox` attribute.
#[derive(Debug, Clone, PartialEq, Eq)]
pub struct IframeSandboxPolicy {
    pub is_sandboxed: bool,
    pub allow_scripts: bool,
    pub allow_same_origin: bool,
    pub allow_forms: bool,
    pub allow_popups: bool,
    pub allow_top_navigation: bool,
}

/// Whether the attribute's tokens include `token` (ASCII case-insensitively).
pub open spec fn has_token(attr: Seq<char>, token: Seq<char>) -> bool {
    exists|i: int| 0 <= i < split_ws(attr).len() && lower_seq(#[trigger] split_ws(attr)[i]) == token
}

/// The policy an iframe gets from its `sandbox` attribute, if it has one.
pub open spec fn sandbox_policy(attr: Option<Seq<char>>) -> IframeSandboxPolicy {
    match attr {
        None => IframeSandboxPolicy {
            is_sandboxed: false,
            allow_scripts: true,
            allow_same_origin: true,
            allow_forms: true,
            allow_popups: true,
            allow_top_navigation: true,
        },
        Some(a) => IframeSandboxPolicy {
            is_sandboxed: true,
            allow_scripts: has_token(a, "allow-scripts"@),
            allow_same_origin: has_token(a, "allow-same-origin"@),
            allow_forms: has_token(a, "allow-forms"@),
            allow_popups: has_token(a, "allow-popups"@),
            allow_top_navigation: has_token(a, "allow-top-navigation"@),
        },
    }
}

/// The opaque origin a sandboxed frame of `o` runs in.
pub open spec fn sandboxed_origin(o: OriginView) -> OriginView {
    OriginView::Opaque("opaque:sandbox:"@ + decimal(fnv1a(vstd::utf8::encode_utf8(origin_repr(o))) as nat))
}

fn token_present(words: &Vec<Vec<char>>, token: &str) -> (b: bool)
    ensures
        b == (exists|i: int| 0 <= i < words@.len() && lower_seq(#[trigger] words@[i]@) == token@),
{
    let t = chars_of(token);
    let mut i: usize = 0;
    while i < words.len()
        invariant
            i <= words@.len(),
            t@ == token@,
            forall|m: int| 0 <= m < i ==> lower_seq(#[trigger] words@[m]@) != token@,
        decreases words@.len() - i,
    {
        let lw = crate::text::lower_range(&words[i], 0, words[i].len());
        assert(words@[i as int]@.subrange(0, words@[i as int]@.len() as int) == words@[i as int]@);
        if crate::text::chars_eq(&lw, &t) {
            return true;
        }
        i = i + 1;
    }
    false
}

impl IframeSandboxPolicy {
    /// Reads a `sandbox` attribute: without one nothing is restricted; with
    /// one everything is, but for the `allow-*` tokens it lists.
    pub fn parse(attr: Option<&str>) -> (p: Self)
        ensures
            p == sandbox_policy(match attr {
                Some(a) => Some(a@),
                None => None,
            }),
    {
        match attr {
            None => IframeSandboxPolicy {
                is_sandboxed: false,
                allow_scripts: true,
                allow_same_origin: true,
                allow_forms: true,
                allow_popups: true,
                allow_top_navigation: true,
            },
            Some(a) => {
                let v = chars_of(a);
                assert(v@.subrange(0, v@.len() as int) == v@);
                let words = split_whitespace(&v, 0, v.len());
                let ghost ws = words@.map_values(|w: Vec<char>| w@);
                proof {
                    assert forall|tok: Seq<char>| (exists|i: int| 0 <= i < words@.len() && lower_seq(#[trigger] words@[i]@) == tok)
                        == has_token(a@, tok) by {
                        if exists|i: int| 0 <= i < words@.len() && lower_seq(#[trigger] words@[i]@) == tok {
                            let i = choose|i: int| 0 <= i < words@.len() && lower_seq(#[trigger] words@[i]@) == tok;
                            assert(split_ws(a@)[i] == words@[i]@);
                        }
                        if has_token(a@, tok) {
                            let i = choose|i: int| 0 <= i < split_ws(a@).len() && lower_seq(#[trigger] split_ws(a@)[i]) == tok;
                            assert(split_ws(a@)[i] == words@[i]@);
                        }
                    }
                }
                IframeSandboxPolicy {
                    is_sandboxed: true,
                    allow_scripts: token_present(&words, "allow-scripts"),
                    allow_same_origin: token_present(&words, "allow-same-origin"),
                    allow_forms: token_present(&words, "allow-forms"),
                    allow_popups: token_present(&words, "allow-popups"),
                    allow_top_navigation: token_present(&words, "allow-top-navigation"),
                }
            },
        }
    }

    pub fn allows_scripts(&self) -> (b: bool)
        ensures
            b == (!self.is_sandboxed || self.allow_scripts),
    {
        !self.is_sandboxed || self.allow_scripts
    }

    pub fn allows_forms(&self) -> (b: bool)
        ensures
            b == (!self.is_sandboxed || self.allow_forms),
    {
        !self.is_sandboxed || self.allow_forms
    }

    pub fn allows_popups(&self) -> (b: bool)
        ensures
            b == (!self.is_sandboxed || self.allow_popups),
    {
        !self.is_sandboxed || self.allow_popups
    }

    pub fn allows_top_navigation(&self) -> (b: bool)
        ensures
            b == (!self.is_sandboxed || self.allow_top_navigation),
    {
        !self.is_sandboxed || self.allow_top_navigation
    }

    /// The origin a frame from `origin` runs in: an opaque one when sandboxed
    /// without `allow-same-origin`, else `origin` itself.
    pub fn effective_origin(&self, origin: &Origin) -> (r: Origin)
        ensures
            r@ == (if self.is_sandboxed && !self.allow_same_origin {
                sandboxed_origin(origin@)
            } else {
                origin@
            }),
    {
        if self.is_sandboxed && !self.allow_same_origin {
            let repr = origin.to_string_repr();
            let mut id = String::new();
            push_str(&mut id, "opaque:sandbox:");
            push_decimal(&mut id, fast_hash(repr.as_str()));
            proof {
                reveal_strlit("opaque:sandbox:");
            }
            Origin::Opaque(id)
        } else {
            origin.duplicate()
        }
    }
}

} // verus!
