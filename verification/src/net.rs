//! Navigation history, URL resolution, and the decisions around loading a resource.
use vstd::prelude::*;
use crate::text::{chars_of, find_char, find_from, slice_of, starts_with, str_eq, str_starts_with, string_of, trim, trim_str};
use crate::urls::{spec_url_join, url_join};
use vstd::utf8::encode_utf8;

verus! {

/// `std::io::Error`, carried unread inside a network error.
#[verifier::external_type_specification]
#[verifier::external_body]
pub struct ExIoError(std::io::Error);

#[derive(Debug, Clone, PartialEq)]
pub struct ResourceResponse {
    pub url: String,
    pub content: String,
    pub content_type: String,
}

#[derive(Debug)]
pub enum NetError {
    Network(String),
    Io(std::io::Error),
    InvalidUrl(String),
}

/// A navigation history, as mathematical values.
pub struct NavView {
    pub history: Seq<Seq<char>>,
    pub current_index: int,
}

/// The page shown, if the index is in range.
pub open spec fn nav_current(n: NavView) -> Option<Seq<char>> {
    if 0 <= n.current_index < n.history.len() {
        Some(n.history[n.current_index])
    } else {
        None
    }
}

/// Visiting `url`: nothing happens when it is the page shown; otherwise the
/// forward history is dropped and `url` becomes the last and current entry.
pub open spec fn nav_push(n: NavView, url: Seq<char>) -> NavView {
    if nav_current(n) == Some(url) {
        n
    } else {
        let kept = if n.current_index + 1 < n.history.len() {
            n.history.take(n.current_index + 1)
        } else {
            n.history
        };
        NavView { history: kept.push(url), current_index: kept.len() as int }
    }
}

pub open spec fn nav_can_back(n: NavView) -> bool {
    n.current_index > 0
}

pub open spec fn nav_can_forward(n: NavView) -> bool {
    n.current_index + 1 < n.history.len()
}

pub open spec fn nav_back(n: NavView) -> NavView {
    if nav_can_back(n) {
        NavView { current_index: n.current_index - 1, ..n }
    } else {
        n
    }
}

pub open spec fn nav_forward(n: NavView) -> NavView {
    if nav_can_forward(n) {
        NavView { current_index: n.current_index + 1, ..n }
    } else {
        n
    }
}

/// The index points into the history.
pub open spec fn nav_wf(n: NavView) -> bool {
    0 <= n.current_index < n.history.len()
}

#[derive(Debug, Clone)]
pub struct NavigationController {
    pub history: Vec<String>,
    pub current_index: usize,
}

impl View for NavigationController {
    type V = NavView;

    open spec fn view(&self) -> NavView {
        NavView {
            history: self.history@.map_values(|s: String| s@),
            current_index: self.current_index as int,
        }
    }
}

/// What `std::path::Path::parent` gives for a path, as text.
pub uninterp spec fn spec_path_parent(p: Seq<char>) -> Option<Seq<char>>;

/// What `std::path::Path::join` gives for a base and a target, as text.
pub uninterp spec fn spec_path_join(base: Seq<char>, target: Seq<char>) -> Seq<char>;

/// Calls `std::path::Path::parent` and gives the parent as text.
#[verifier::external_body]
fn path_parent(p: &str) -> (r: Option<String>)
    ensures
        match (r, spec_path_parent(p@)) {
            (Some(s), Some(t)) => s@ == t,
            (None, None) => true,
            _ => false,
        },
{
    std::path::Path::new(p).parent().map(|q| q.to_string_lossy().to_string())
}

/// Calls `std::path::Path::join` and gives the result as text.
#[verifier::external_body]
fn path_join(base: &str, target: &str) -> (r: String)
    ensures
        r@ == spec_path_join(base@, target@),
{
    std::path::Path::new(base).join(target).to_string_lossy().to_string()
}

/// Whether a text names a remote resource (`http://` or `https://`).
pub open spec fn is_remote(t: Seq<char>) -> bool {
    starts_with(t, "http://"@) || starts_with(t, "https://"@)
}

/// The text with `prefix` removed when it starts with it.
pub open spec fn strip_prefix(t: Seq<char>, prefix: Seq<char>) -> Seq<char> {
    if starts_with(t, prefix) {
        t.subrange(prefix.len() as int, t.len() as int)
    } else {
        t
    }
}

/// Where a link on the current page leads: absolute links stay as they are;
/// against a web page the URL parser joins them; against a file path the
/// link is joined to the file's directory.
pub open spec fn resolve(n: NavView, target: Seq<char>) -> Seq<char> {
    let t = trim(target);
    if is_remote(t) || starts_with(t, "file://"@) {
        t
    } else {
        match nav_current(n) {
            None => t,
            Some(base) => {
                if is_remote(base) && spec_url_join(base, t) is Some {
                    spec_url_join(base, t)->0
                } else {
                    let p = strip_prefix(base, "file://"@);
                    let parent = match spec_path_parent(p) {
                        Some(q) => q,
                        None => "."@,
                    };
                    spec_path_join(parent, t)
                }
            },
        }
    }
}

fn strip_prefix_str(t: &str, prefix: &str) -> (r: String)
    ensures
        r@ == strip_prefix(t@, prefix@),
{
    let v = chars_of(t);
    if str_starts_with(t, prefix) {
        let p = chars_of(prefix);
        string_of(&v, p.len(), v.len())
    } else {
        let s = string_of(&v, 0, v.len());
        assert(v@.subrange(0, v@.len() as int) == v@);
        s
    }
}

impl NavigationController {
    pub fn new(initial_url: String) -> (n: Self)
        ensures
            n@.history == seq![initial_url@],
            n@.current_index == 0,
    {
        let mut history = Vec::new();
        history.push(initial_url);
        let n = NavigationController { history, current_index: 0 };
        assert(n@.history =~= seq![initial_url@]);
        n
    }

    pub fn current_url(&self) -> (r: Option<&str>)
        ensures
            match r {
                Some(s) => nav_current(self@) == Some(s@),
                None => nav_current(self@) is None,
            },
    {
        if self.current_index < self.history.len() {
            Some(self.history[self.current_index].as_str())
        } else {
            None
        }
    }

    /// Visits `url` (see `nav_push`).
    pub fn push(&mut self, url: String)
        requires
            old(self).history.len() < usize::MAX,
        ensures
            final(self)@ == nav_push(old(self)@, url@),
    {
        let same = match self.current_url() {
            Some(cur) => str_eq(cur, url.as_str()),
            None => false,
        };
        if same {
            return;
        }
        let ghost h0 = self@.history;
        if self.current_index < self.history.len() && self.current_index + 1 < self.history.len() {
            self.history.truncate(self.current_index + 1);
            assert(self@.history =~= h0.take(self.current_index + 1));
        }
        let ghost kept = self@.history;
        self.history.push(url);
        self.current_index = self.history.len() - 1;
        assert(self@.history =~= kept.push(url@));
    }

    pub fn can_go_back(&self) -> (b: bool)
        ensures
            b == nav_can_back(self@),
    {
        self.current_index > 0
    }

    /// Steps back; the page now shown, or `None` when there is no earlier page.
    pub fn go_back(&mut self) -> (r: Option<&str>)
        ensures
            final(self)@ == nav_back(old(self)@),
            match r {
                Some(s) => nav_can_back(old(self)@) && nav_current(final(self)@) == Some(s@),
                None => !nav_can_back(old(self)@) || nav_current(final(self)@) is None,
            },
    {
        if self.can_go_back() {
            self.current_index = self.current_index - 1;
            self.current_url()
        } else {
            None
        }
    }

    pub fn can_go_forward(&self) -> (b: bool)
        ensures
            b == nav_can_forward(self@),
    {
        self.history.len() > 0 && self.current_index < self.history.len() - 1
    }

    /// Steps forward; the page now shown, or `None` when there is no later page.
    pub fn go_forward(&mut self) -> (r: Option<&str>)
        ensures
            final(self)@ == nav_forward(old(self)@),
            match r {
                Some(s) => nav_can_forward(old(self)@) && nav_current(final(self)@) == Some(s@),
                None => !nav_can_forward(old(self)@),
            },
    {
        if self.history.len() > 0 && self.current_index < self.history.len() - 1 {
            self.current_index = self.current_index + 1;
            self.current_url()
        } else {
            None
        }
    }

    /// Resolves a link against the page shown (see `resolve`).
    pub fn resolve_relative(&self, target: &str) -> (r: String)
        ensures
            r@ == resolve(self@, target@),
    {
        let t = trim_str(target);
        let ts = t.as_str();
        if str_starts_with(ts, "http://") || str_starts_with(ts, "https://") || str_starts_with(ts, "file://") {
            return t;
        }
        let base = match self.current_url() {
            Some(b) => b,
            None => return t,
        };
        if str_starts_with(base, "http://") || str_starts_with(base, "https://") {
            if let Some(joined) = url_join(base, ts) {
                return joined;
            }
        }
        let p = strip_prefix_str(base, "file://");
        let parent = match path_parent(p.as_str()) {
            Some(q) => q,
            None => ".".to_owned(),
        };
        path_join(parent.as_str(), ts)
    }
}

/// A web page to `go_back` from and return to with `go_forward` is shown again.
pub proof fn law_back_then_forward(n: NavView)
    requires
        nav_wf(n),
        nav_can_back(n),
    ensures
        nav_forward(nav_back(n)) == n,
        nav_wf(nav_back(n)),
{
}

/// After visiting a page other than the one shown, it is shown, there is no
/// forward history, and stepping back shows the page that was shown before.
pub proof fn law_push_then_back(n: NavView, url: Seq<char>)
    requires
        nav_wf(n),
        nav_current(n) != Some(url),
    ensures
        nav_current(nav_push(n, url)) == Some(url),
        !nav_can_forward(nav_push(n, url)),
        nav_current(nav_back(nav_push(n, url))) == nav_current(n),
        nav_wf(nav_push(n, url)),
{
    let kept = if n.current_index + 1 < n.history.len() {
        n.history.take(n.current_index + 1)
    } else {
        n.history
    };
    assert(kept.len() == n.current_index + 1);
    assert(kept[n.current_index] == n.history[n.current_index]);
}

/// Every navigation step keeps the index inside the history.
pub proof fn law_steps_keep_index_in_range(n: NavView, url: Seq<char>)
    requires
        nav_wf(n),
    ensures
        nav_wf(nav_push(n, url)),
        nav_wf(nav_back(n)),
        nav_wf(nav_forward(n)),
{
    if nav_current(n) != Some(url) {
        let kept = if n.current_index + 1 < n.history.len() {
            n.history.take(n.current_index + 1)
        } else {
            n.history
        };
        assert(kept.len() == n.current_index + 1);
    }
}

/// The media type given to a local file by its extension.
pub open spec fn content_type_of(ext: Seq<char>) -> Seq<char> {
    if ext == "html"@ || ext == "htm"@ {
        "text/html"@
    } else if ext == "css"@ {
        "text/css"@
    } else {
        "text/plain"@
    }
}

/// Whether a resource text names a remote resource.
pub fn is_remote_resource(t: &str) -> (b: bool)
    ensures
        b == is_remote(t@),
{
    str_starts_with(t, "http://") || str_starts_with(t, "https://")
}

/// The local path a resource text names: the text without a `file://` prefix.
pub fn local_path(t: &str) -> (p: String)
    ensures
        p@ == strip_prefix(t@, "file://"@),
{
    strip_prefix_str(t, "file://")
}

/// The media type of a local file with extension `ext`.
pub fn content_type_for_extension(ext: &str) -> (s: String)
    ensures
        s@ == content_type_of(ext@),
{
    if str_eq(ext, "html") || str_eq(ext, "htm") {
        "text/html".to_owned()
    } else if str_eq(ext, "css") {
        "text/css".to_owned()
    } else {
        "text/plain".to_owned()
    }
}


/// Why a fetch by the client failed.
#[derive(Debug, Clone, PartialEq)]
pub enum FetchError {
    /// The body has more bytes than the client's limit allows.
    TooLarge { limit: usize, size: usize },
    /// A `data:` URL without the `,` that starts its body.
    InvalidDataUrl(String),
    /// Not a `data:` URL: those are loaded by the program's network layer.
    Unsupported(String),
}

/// The parts of a `data:` URL: the media type before the first `,` and the body after it.
pub open spec fn data_url_parts(u: Seq<char>) -> Option<(Seq<char>, Seq<char>)> {
    let k = find_from(u, ',', 5);
    if starts_with(u, "data:"@) && k < u.len() {
        Some((u.subrange(5, k), u.subrange(k + 1, u.len() as int)))
    } else {
        None
    }
}

/// The content type a `data:` URL declares, `text/plain` when it declares none.
pub open spec fn data_content_type(meta: Seq<char>) -> Seq<char> {
    if meta.len() == 0 {
        "text/plain"@
    } else {
        meta
    }
}

/// A client that loads resources within a configurable size limit.
pub struct NetworkClient {
    pub max_response_bytes: usize,
}

impl NetworkClient {
    /// A client with the default limit of 16 MiB per response.
    pub fn new() -> (c: NetworkClient)
        ensures
            c.max_response_bytes == 16_777_216,
    {
        NetworkClient { max_response_bytes: 16_777_216 }
    }

    /// Loads a `data:` URL: its body is the text after the first `,`, its
    /// content type the text between `data:` and that `,`. A body longer than
    /// `max_response_bytes` bytes is refused.
    pub fn fetch(&self, url: &str) -> (r: Result<ResourceResponse, FetchError>)
        ensures
            !starts_with(url@, "data:"@) ==> (r matches Err(FetchError::Unsupported(m)) && m@ == url@),
            match data_url_parts(url@) {
                None => starts_with(url@, "data:"@) ==> (r matches Err(FetchError::InvalidDataUrl(m)) && m@ == url@),
                Some((meta, body)) => {
                    let size = encode_utf8(body).len() as usize;
                    if size > self.max_response_bytes {
                        r == Err::<ResourceResponse, FetchError>(FetchError::TooLarge { limit: self.max_response_bytes, size })
                    } else {
                        r matches Ok(resp) && resp.url@ == url@ && resp.content@ == body && resp.content_type@ == data_content_type(meta)
                    }
                },
            },
    {
        proof {
            reveal_strlit("data:");
        }
        if !str_starts_with(url, "data:") {
            return Err(FetchError::Unsupported(url.to_owned()));
        }
        let v = chars_of(url);
        let k = find_char(&v, ',', 5);
        if k >= v.len() {
            return Err(FetchError::InvalidDataUrl(url.to_owned()));
        }
        let body = string_of(&v, k + 1, v.len());
        let size = body.as_str().len();
        if size > self.max_response_bytes {
            return Err(FetchError::TooLarge { limit: self.max_response_bytes, size });
        }
        let content_type = if k == 5 {
            "text/plain".to_owned()
        } else {
            string_of(&v, 5, k)
        };
        Ok(ResourceResponse { url: url.to_owned(), content: body, content_type })
    }
}

} // verus!
