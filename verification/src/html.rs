//! A small HTML parser: nested start and end tags with attributes, and text.
use vstd::prelude::*;
use crate::dom::{KindView, Node, NodeType, NodeView, nodes_view, lemma_children_view, text_content};
use crate::entities::{decode_entities, decode_text};
use crate::strmap::StrMap;
use crate::text::{
    chars_of, eq_ignore_case, eq_ignore_case_vec, find_char, find_from, is_whitespace, is_ws,
    lead_ws, lemma_find_from_ge, lower_range, lower_seq, skip_ws, slice_of, string_of,
    string_of_all, trim, trim_bounds,
};

verus! {

/// First index at or after `i` holding whitespace, or the length.
pub open spec fn word_end(s: Seq<char>, i: int) -> int
    decreases s.len() - i,
{
    if 0 <= i < s.len() && !is_ws(s[i]) {
        word_end(s, i + 1)
    } else {
        i
    }
}

pub open spec fn ends_name(c: char) -> bool {
    is_ws(c) || c == '=' || c == '/'
}

/// First index at or after `i` that ends an attribute name, or the length.
pub open spec fn name_end(s: Seq<char>, i: int) -> int
    decreases s.len() - i,
{
    if 0 <= i < s.len() && !ends_name(s[i]) {
        name_end(s, i + 1)
    } else {
        i
    }
}

/// The tag name of a tag's text: its first word, lower-cased.
pub open spec fn tag_of(c: Seq<char>) -> Seq<char> {
    let a = lead_ws(c, 0);
    lower_seq(c.subrange(a, word_end(c, a)))
}

/// The attributes written from index `i` of a tag's text, added to `m`:
/// `name`, `name=value`, `name="value"` or `name='value'`, names lower-cased,
/// a later attribute of the same name winning.
pub open spec fn attrs_from(c: Seq<char>, i: int, m: Map<Seq<char>, Seq<char>>) -> Map<Seq<char>, Seq<char>>
    decreases c.len() - i,
{
    if i < 0 || i >= c.len() {
        m
    } else if ends_name(c[i]) {
        attrs_from(c, i + 1, m)
    } else {
        let ne = name_end(c, i);
        let name = lower_seq(c.subrange(i, ne));
        if ne < c.len() && c[ne] == '=' {
            let v0 = ne + 1;
            if v0 < c.len() && (c[v0] == '"' || c[v0] == '\'') {
                let ve = find_from(c, c[v0], v0 + 1);
                let next = if ve < c.len() { ve + 1 } else { ve };
                if i < next <= c.len() {
                    attrs_from(c, next, m.insert(name, c.subrange(v0 + 1, ve)))
                } else {
                    m
                }
            } else {
                let ve = word_end(c, v0);
                if i < ve <= c.len() {
                    attrs_from(c, ve, m.insert(name, c.subrange(v0, ve)))
                } else {
                    m
                }
            }
        } else if i < ne <= c.len() {
            attrs_from(c, ne, m.insert(name, Seq::empty()))
        } else {
            m
        }
    }
}

/// The attributes of a tag's text: those after its first word.
pub open spec fn attrs_of(c: Seq<char>) -> Map<Seq<char>, Seq<char>> {
    attrs_from(c, word_end(c, lead_ws(c, 0)), Map::empty())
}

/// Where a tag that starts at `i` (just after `<` or `</`) ends: after its `>`, or at the end.
pub open spec fn after_gt(s: Seq<char>, i: int) -> int {
    let e = find_from(s, '>', i);
    if e < s.len() {
        e + 1
    } else {
        e
    }
}

pub open spec fn starts_end_tag(s: Seq<char>, pos: int) -> bool {
    0 <= pos && pos + 1 < s.len() && s[pos] == '<' && s[pos + 1] == '/'
}

/// The nodes parsed from `pos` until the end of the input or the end tag
/// closing `closing`, with the position where parsing stopped.
/// An end tag that closes nothing open here is skipped; a start tag with an
/// empty name is skipped; text runs up to the next `<`.
pub open spec fn nodes_from(s: Seq<char>, pos: int, closing: Option<Seq<char>>) -> (Seq<NodeView>, int)
    decreases s.len() - pos,
{
    if pos < 0 || pos >= s.len() {
        (Seq::empty(), pos)
    } else if starts_end_tag(s, pos) {
        let e = find_from(s, '>', pos + 2);
        let name = s.subrange(pos + 2, e);
        let p1 = after_gt(s, pos + 2);
        if p1 <= pos || p1 > s.len() {
            (Seq::empty(), pos)
        } else if closing matches Some(c) && eq_ignore_case(c, trim(name)) {
            (Seq::empty(), p1)
        } else {
            nodes_from(s, p1, closing)
        }
    } else if s[pos] == '<' {
        let e = find_from(s, '>', pos + 1);
        let content = s.subrange(pos + 1, e);
        let p1 = after_gt(s, pos + 1);
        let tag = tag_of(content);
        if p1 <= pos || p1 > s.len() {
            (Seq::empty(), pos)
        } else if tag.len() == 0 {
            nodes_from(s, p1, closing)
        } else {
            let (kids, p2) = nodes_from(s, p1, Some(tag));
            let q = if p1 <= p2 <= s.len() { p2 } else { p1 };
            let (rest, p3) = nodes_from(s, q, closing);
            (seq![NodeView { kind: KindView::Element { tag: tag, attrs: attrs_of(content) }, children: kids }] + rest, p3)
        }
    } else {
        let e = find_from(s, '<', pos);
        if e <= pos || e > s.len() {
            (Seq::empty(), pos)
        } else {
            let (rest, p3) = nodes_from(s, e, closing);
            (seq![NodeView { kind: KindView::Text(s.subrange(pos, e)), children: Seq::empty() }] + rest, p3)
        }
    }
}

/// The document tree of an input.
pub open spec fn parse_spec(s: Seq<char>) -> NodeView {
    NodeView { kind: KindView::Document, children: nodes_from(s, 0, None).0 }
}

proof fn lemma_find_from_le(s: Seq<char>, c: char, i: int)
    requires
        0 <= i <= s.len(),
    ensures
        i <= find_from(s, c, i) <= s.len(),
    decreases s.len() - i,
{
    if i < s.len() && s[i] != c {
        lemma_find_from_le(s, c, i + 1);
    }
}

proof fn lemma_nodes_from_pos(s: Seq<char>, pos: int, closing: Option<Seq<char>>)
    requires
        0 <= pos <= s.len(),
    ensures
        pos <= nodes_from(s, pos, closing).1 <= s.len(),
    decreases s.len() - pos,
{
    if pos < s.len() {
        if starts_end_tag(s, pos) {
            lemma_find_from_le(s, '>', pos + 2);
            let p1 = after_gt(s, pos + 2);
            if p1 > pos && p1 <= s.len() {
                lemma_nodes_from_pos(s, p1, closing);
            }
        } else if s[pos] == '<' {
            lemma_find_from_le(s, '>', pos + 1);
            let e = find_from(s, '>', pos + 1);
            let content = s.subrange(pos + 1, e);
            let p1 = after_gt(s, pos + 1);
            let tag = tag_of(content);
            if p1 > pos && p1 <= s.len() {
                if tag.len() == 0 {
                    lemma_nodes_from_pos(s, p1, closing);
                } else {
                    lemma_nodes_from_pos(s, p1, Some(tag));
                    let p2 = nodes_from(s, p1, Some(tag)).1;
                    let q = if p1 <= p2 <= s.len() { p2 } else { p1 };
                    lemma_nodes_from_pos(s, q, closing);
                }
            }
        } else {
            lemma_find_from_le(s, '<', pos);
            let e = find_from(s, '<', pos);
            if e > pos && e <= s.len() {
                lemma_nodes_from_pos(s, e, closing);
            }
        }
    }
}

fn word_end_exec(v: &Vec<char>, i: usize) -> (k: usize)
    requires
        i <= v.len(),
    ensures
        k as int == word_end(v@, i as int),
        i <= k <= v.len(),
{
    let mut k = i;
    while k < v.len() && !is_whitespace(v[k])
        invariant
            i <= k <= v.len(),
            word_end(v@, i as int) == word_end(v@, k as int),
        decreases v.len() - k,
    {
        k = k + 1;
    }
    k
}

fn name_end_exec(v: &Vec<char>, i: usize) -> (k: usize)
    requires
        i <= v.len(),
    ensures
        k as int == name_end(v@, i as int),
        i <= k <= v.len(),
        i < v.len() && !ends_name(v@[i as int]) ==> i < k,
{
    let mut k = i;
    while k < v.len() && !(is_whitespace(v[k]) || v[k] == '=' || v[k] == '/')
        invariant
            i <= k <= v.len(),
            name_end(v@, i as int) == name_end(v@, k as int),
        decreases v.len() - k,
    {
        k = k + 1;
    }
    k
}

/// The attributes of a tag's text.
fn parse_attributes(c: &Vec<char>) -> (m: StrMap)
    ensures
        m@ == attrs_of(c@),
{
    let a = skip_ws(c, 0);
    let mut i = word_end_exec(c, a);
    let mut m = StrMap::new();
    while i < c.len()
        invariant
            i <= c.len(),
            attrs_of(c@) == attrs_from(c@, i as int, m@),
        decreases c.len() - i,
    {
        let ch = c[i];
        if is_whitespace(ch) || ch == '=' || ch == '/' {
            i = i + 1;
        } else {
            let ne = name_end_exec(c, i);
            let name = lower_range(c, i, ne);
            let name_s = string_of_all(&name);
            if ne < c.len() && c[ne] == '=' {
                let v0 = ne + 1;
                if v0 < c.len() && (c[v0] == '"' || c[v0] == '\'') {
                    let q = c[v0];
                    let ve = find_char(c, q, v0 + 1);
                    let val = string_of(c, v0 + 1, ve);
                    m.insert(name_s, val);
                    i = if ve < c.len() {
                        ve + 1
                    } else {
                        ve
                    };
                } else {
                    let ve = word_end_exec(c, v0);
                    let val = string_of(c, v0, ve);
                    m.insert(name_s, val);
                    i = ve;
                }
            } else {
                let empty = String::new();
                m.insert(name_s, empty);
                i = ne;
            }
        }
    }
    m
}

struct Parser {
    input: Vec<char>,
    pos: usize,
}

impl Parser {
    /// Parses nodes from the current position until the input ends or the end
    /// tag named `closing` is consumed.
    fn parse_nodes(&mut self, closing: Option<&Vec<char>>) -> (nodes: Vec<Node>)
        requires
            old(self).pos <= old(self).input.len(),
        ensures
            final(self).input@ == old(self).input@,
            final(self).pos <= final(self).input.len(),
            (nodes_view(nodes@), final(self).pos as int) == nodes_from(
                old(self).input@,
                old(self).pos as int,
                match closing {
                    Some(c) => Some(c@),
                    None => None,
                },
            ),
        decreases old(self).input.len() - old(self).pos,
    {
        let ghost s = self.input@;
        let ghost cl = match closing {
            Some(c) => Some(c@),
            None => None::<Seq<char>>,
        };
        let ghost pos0 = self.pos as int;
        let mut nodes: Vec<Node> = Vec::new();
        while self.pos < self.input.len()
            invariant
                s == old(self).input@,
                pos0 == old(self).pos,
                cl == match closing {
                    Some(c) => Some(c@),
                    None => None::<Seq<char>>,
                },
                self.input@ == s,
                self.pos <= self.input.len(),
                pos0 <= self.pos,
                nodes_from(s, pos0, cl) == (nodes_view(nodes@) + nodes_from(s, self.pos as int, cl).0, nodes_from(s, self.pos as int, cl).1),
            decreases self.input.len() - self.pos,
        {
            let pos = self.pos;
            if pos + 1 < self.input.len() && self.input[pos] == '<' && self.input[pos + 1] == '/' {
                let e = find_char(&self.input, '>', pos + 2);
                let p1 = if e < self.input.len() {
                    e + 1
                } else {
                    e
                };
                let (a, b) = trim_bounds(&self.input, pos + 2, e);
                let name = slice_of(&self.input, a, b);
                self.pos = p1;
                let closes = match closing {
                    Some(c) => eq_ignore_case_vec(c, &name),
                    None => false,
                };
                if closes {
                    assert(nodes_view(nodes@) + Seq::<NodeView>::empty() =~= nodes_view(nodes@));
                    return nodes;
                }
            } else if self.input[pos] == '<' {
                let e = find_char(&self.input, '>', pos + 1);
                let p1 = if e < self.input.len() {
                    e + 1
                } else {
                    e
                };
                let content = slice_of(&self.input, pos + 1, e);
                let a = skip_ws(&content, 0);
                let b = word_end_exec(&content, a);
                let tag = lower_range(&content, a, b);
                self.pos = p1;
                if tag.len() > 0 {
                    let attributes = parse_attributes(&content);
                    let children = self.parse_nodes(Some(&tag));
                    proof {
                        lemma_find_from_le(s, '>', pos + 1);
                        lemma_nodes_from_pos(s, p1 as int, Some(tag@));
                    }
                    let tag_s = string_of_all(&tag);
                    let el = Node::element_with_attributes(tag_s.as_str(), attributes, children);
                    let ghost before = nodes_view(nodes@);
                    nodes.push(el);
                    proof {
                        lemma_children_view(el);
                        assert(nodes_view(nodes@) =~= before.push(el@));
                    }
                }
            } else {
                let e = find_char(&self.input, '<', pos);
                let text = string_of(&self.input, pos, e);
                let t = Node::text(text.as_str());
                let ghost before = nodes_view(nodes@);
                nodes.push(t);
                proof {
                    assert(t@.children =~= Seq::<NodeView>::empty());
                    assert(nodes_view(nodes@) =~= before.push(t@));
                }
                self.pos = e;
            }
            assert(nodes_from(s, pos0, cl) == (nodes_view(nodes@) + nodes_from(s, self.pos as int, cl).0, nodes_from(s, self.pos as int, cl).1));
        }
        assert(nodes_view(nodes@) + Seq::<NodeView>::empty() =~= nodes_view(nodes@));
        nodes
    }
}

/// Parses an HTML text into a document node.
pub fn parse(input: &str) -> (doc: Node)
    ensures
        doc@ == parse_spec(input@),
{
    let mut parser = Parser { input: chars_of(input), pos: 0 };
    let children = parser.parse_nodes(None);
    let doc = Node::document(children);
    proof {
        lemma_children_view(doc);
    }
    doc
}

/// How a document is to be rendered, as its doctype decides.
#[derive(Debug, Clone, Copy, PartialEq, Eq, Structural)]
pub enum DocumentMode {
    Standards,
    Quirks,
}

/// A leading `<!DOCTYPE ...>` declaration (after optional whitespace, the
/// keyword in any case): its text after the keyword and the position after its `>`.
pub open spec fn doctype_of(s: Seq<char>) -> Option<(Seq<char>, int)> {
    let a = lead_ws(s, 0);
    if a + 9 <= s.len() && lower_seq(s.subrange(a, a + 9)) == "<!doctype"@ {
        Some((s.subrange(a + 9, find_from(s, '>', a + 9)), after_gt(s, a + 9)))
    } else {
        None
    }
}

/// Standards mode for a `<!DOCTYPE html>` declaration (name in any case),
/// quirks mode for any other doctype or none.
pub open spec fn mode_of(s: Seq<char>) -> DocumentMode {
    match doctype_of(s) {
        Some((c, _)) => if tag_of(c) == "html"@ {
            DocumentMode::Standards
        } else {
            DocumentMode::Quirks
        },
        None => DocumentMode::Quirks,
    }
}

/// The markup after the doctype declaration, if there is one.
pub open spec fn body_of(s: Seq<char>) -> Seq<char> {
    match doctype_of(s) {
        Some((_, e)) => s.subrange(e, s.len() as int),
        None => s,
    }
}

/// A node kind with the character references of its text decoded.
pub open spec fn decoded_kind(k: KindView) -> KindView {
    match k {
        KindView::Text(t) => KindView::Text(decode_text(t)),
        other => other,
    }
}

/// A tree with the character references of every text decoded.
pub open spec fn decoded(n: NodeView) -> NodeView
    decreases n, 1int,
{
    NodeView { kind: decoded_kind(n.kind), children: decoded_children(n) }
}

pub open spec fn decoded_children(n: NodeView) -> Seq<NodeView>
    decreases n, 0int,
{
    Seq::new(
        n.children.len(),
        |i: int|
            if 0 <= i < n.children.len() {
                decoded(n.children[i])
            } else {
                n
            },
    )
}

/// A copy of a tree with the character references of every text decoded.
fn decode_tree(n: &Node) -> (r: Node)
    ensures
        r@ == decoded(n@),
    decreases n,
{
    let node_type = match &n.node_type {
        NodeType::Text(t) => NodeType::Text(decode_entities(t.as_str())),
        NodeType::Element(e) => NodeType::Element(e.clone_data()),
        NodeType::Document => NodeType::Document,
    };
    let mut children: Vec<Node> = Vec::new();
    let mut i: usize = 0;
    proof {
        lemma_children_view(*n);
    }
    while i < n.children.len()
        invariant
            i <= n.children@.len(),
            n@.children == nodes_view(n.children@),
            children@.len() == i,
            forall|m: int| 0 <= m < i ==> (#[trigger] children@[m])@ == decoded(n.children@[m]@),
        decreases n.children@.len() - i,
    {
        let c = decode_tree(&n.children[i]);
        children.push(c);
        i = i + 1;
    }
    let r = Node { node_type, children };
    proof {
        lemma_children_view(r);
        assert(r@.children =~= decoded_children(n@));
    }
    r
}

/// Parses a document: a leading doctype declaration decides the mode and is
/// not part of the tree, and character references in text are decoded.
pub fn parse_with_mode(input: &str) -> (r: (Node, DocumentMode))
    ensures
        r.0@ == decoded(parse_spec(body_of(input@))),
        r.1 == mode_of(input@),
{
    let v = chars_of(input);
    let a = skip_ws(&v, 0);
    let mut start: usize = 0;
    let mut mode = DocumentMode::Quirks;
    if 9 <= v.len() - a {
        let head = lower_range(&v, a, a + 9);
        let kw = chars_of("<!doctype");
        if crate::text::chars_eq(&head, &kw) {
            let e = find_char(&v, '>', a + 9);
            let content = slice_of(&v, a + 9, e);
            let ca = skip_ws(&content, 0);
            let cb = word_end_exec(&content, ca);
            let name = lower_range(&content, ca, cb);
            let html = chars_of("html");
            if crate::text::chars_eq(&name, &html) {
                mode = DocumentMode::Standards;
            }
            start = if e < v.len() {
                e + 1
            } else {
                e
            };
            proof {
                lemma_find_from_le(v@, '>', a + 9);
            }
        }
    }
    let rest = slice_of(&v, start, v.len());
    assert(rest@ == body_of(input@));
    let mut parser = Parser { input: rest, pos: 0 };
    let children = parser.parse_nodes(None);
    let doc = Node::document(children);
    proof {
        lemma_children_view(doc);
    }
    (decode_tree(&doc), mode)
}


/// The characters of `s` from `i` with the markup taken out: a markup segment
/// is a `<` and everything up to and including the next `>`, or up to the end.
pub open spec fn strip_markup(s: Seq<char>, i: int) -> Seq<char>
    decreases s.len() - i,
{
    if i < 0 || i >= s.len() {
        Seq::empty()
    } else if s[i] == '<' {
        let n = after_gt(s, i + 1);
        if i < n <= s.len() {
            strip_markup(s, n)
        } else {
            Seq::empty()
        }
    } else {
        seq![s[i]] + strip_markup(s, i + 1)
    }
}

/// The text of a list of sibling nodes and their descendants, in document order.
pub open spec fn nodes_text(ns: Seq<NodeView>) -> Seq<char> {
    Seq::new(ns.len(), |i: int| text_content(ns[i])).flatten()
}

proof fn lemma_nodes_text_cons(n: NodeView, rest: Seq<NodeView>)
    ensures
        nodes_text(seq![n] + rest) == text_content(n) + nodes_text(rest),
{
    let all = Seq::new((seq![n] + rest).len(), |i: int| text_content((seq![n] + rest)[i]));
    let tail = Seq::new(rest.len(), |i: int| text_content(rest[i]));
    assert(all.drop_first() =~= tail);
    assert(all.first() == text_content(n));
}

proof fn lemma_strip_text_run(s: Seq<char>, i: int, e: int)
    requires
        0 <= i <= e <= s.len(),
        forall|m: int| i <= m < e ==> s[m] != '<',
    ensures
        strip_markup(s, i) == s.subrange(i, e) + strip_markup(s, e),
    decreases e - i,
{
    if i < e {
        lemma_strip_text_run(s, i + 1, e);
        assert(seq![s[i]] + s.subrange(i + 1, e) =~= s.subrange(i, e));
        assert(seq![s[i]] + (s.subrange(i + 1, e) + strip_markup(s, e)) =~= s.subrange(i, e) + strip_markup(s, e));
    } else {
        assert(s.subrange(i, e) =~= Seq::<char>::empty());
        assert(Seq::<char>::empty() + strip_markup(s, e) =~= strip_markup(s, e));
    }
}

proof fn lemma_find_lt_none(s: Seq<char>, c: char, i: int, m: int)
    requires
        0 <= i <= m < find_from(s, c, i),
        m < s.len(),
    ensures
        s[m] != c,
    decreases m - i,
{
    if i < m {
        lemma_find_lt_none(s, c, i + 1, m);
    }
}

proof fn lemma_nodes_text(s: Seq<char>, pos: int, closing: Option<Seq<char>>)
    requires
        0 <= pos <= s.len(),
    ensures
        strip_markup(s, pos) == nodes_text(nodes_from(s, pos, closing).0) + strip_markup(s, nodes_from(s, pos, closing).1),
        closing is None ==> nodes_from(s, pos, closing).1 == s.len(),
    decreases s.len() - pos,
{
    let empty = Seq::<NodeView>::empty();
    assert(nodes_text(empty) =~= Seq::<char>::empty());
    if pos < s.len() {
        if starts_end_tag(s, pos) {
            lemma_find_from_le(s, '>', pos + 2);
            let p1 = after_gt(s, pos + 2);
            assert(find_from(s, '>', pos + 1) == find_from(s, '>', pos + 2));
            assert(after_gt(s, pos + 1) == p1);
            let e = find_from(s, '>', pos + 2);
            let name = s.subrange(pos + 2, e);
            if closing matches Some(c) && eq_ignore_case(c, trim(name)) {
                assert(Seq::<char>::empty() + strip_markup(s, p1) =~= strip_markup(s, p1));
            } else {
                lemma_nodes_text(s, p1, closing);
            }
        } else if s[pos] == '<' {
            lemma_find_from_le(s, '>', pos + 1);
            let e = find_from(s, '>', pos + 1);
            let content = s.subrange(pos + 1, e);
            let p1 = after_gt(s, pos + 1);
            let tag = tag_of(content);
            if tag.len() == 0 {
                lemma_nodes_text(s, p1, closing);
            } else {
                lemma_nodes_text(s, p1, Some(tag));
                lemma_nodes_from_pos(s, p1, Some(tag));
                let (kids, p2) = nodes_from(s, p1, Some(tag));
                lemma_nodes_text(s, p2, closing);
                let (rest, p3) = nodes_from(s, p2, closing);
                let el = NodeView { kind: KindView::Element { tag: tag, attrs: attrs_of(content) }, children: kids };
                lemma_nodes_text_cons(el, rest);
                assert(Seq::new(kids.len(), |i: int| text_content(kids[i])) =~= crate::dom::child_texts(el));
                assert(text_content(el) == Seq::<char>::empty() + nodes_text(kids));
                assert(Seq::<char>::empty() + nodes_text(kids) =~= nodes_text(kids));
                assert(nodes_text(kids) + (nodes_text(rest) + strip_markup(s, p3)) =~= (nodes_text(kids) + nodes_text(rest))
                    + strip_markup(s, p3));
            }
        } else {
            lemma_find_from_le(s, '<', pos + 1);
            let e = find_from(s, '<', pos);
            assert(e == find_from(s, '<', pos + 1));
            assert forall|m: int| pos <= m < e implies s[m] != '<' by {
                lemma_find_lt_none(s, '<', pos, m);
            }
            lemma_strip_text_run(s, pos, e);
            lemma_nodes_text(s, e, closing);
            let (rest, p3) = nodes_from(s, e, closing);
            let t = NodeView { kind: KindView::Text(s.subrange(pos, e)), children: Seq::empty() };
            lemma_nodes_text_cons(t, rest);
            assert(crate::dom::child_texts(t) =~= Seq::<Seq<char>>::empty());
            assert(text_content(t) =~= s.subrange(pos, e));
            assert(s.subrange(pos, e) + (nodes_text(rest) + strip_markup(s, p3)) =~= (s.subrange(pos, e) + nodes_text(rest))
                + strip_markup(s, p3));
        }
    } else {
        assert(Seq::<char>::empty() + strip_markup(s, pos) =~= strip_markup(s, pos));
    }
}

/// The text of a parsed document, read in document order, is the input with
/// its markup taken out: every `<` and what follows it up to and including the
/// next `>` (or the end of the input).
pub proof fn law_document_text_is_input_without_markup(s: Seq<char>)
    ensures
        text_content(parse_spec(s)) == strip_markup(s, 0),
{
    lemma_nodes_text(s, 0, None);
    let doc = parse_spec(s);
    assert(Seq::new(doc.children.len(), |i: int| text_content(doc.children[i])) =~= crate::dom::child_texts(doc));
    assert(strip_markup(s, s.len() as int) =~= Seq::<char>::empty());
    assert(Seq::<char>::empty() + nodes_text(doc.children) =~= nodes_text(doc.children));
    assert(nodes_text(doc.children) + Seq::<char>::empty() =~= nodes_text(doc.children));
}


/// A tag name as parsing leaves it: non-empty, lower-case, without
/// whitespace and without `>`.
pub open spec fn tag_ok(t: Seq<char>) -> bool {
    &&& t.len() > 0
    &&& lower_seq(t) == t
    &&& forall|i: int| 0 <= i < t.len() ==> !is_ws(#[trigger] t[i]) && t[i] != '>'
}

/// Every element in a tree has a tag name as `tag_ok` says.
pub open spec fn node_tags_ok(n: NodeView) -> bool
    decreases n, 1int,
{
    &&& (n.kind matches KindView::Element { tag, .. } ==> tag_ok(tag))
    &&& nodes_tags_ok(n.children)
}

/// Every element in a list of trees has a tag name as `tag_ok` says.
pub open spec fn nodes_tags_ok(ns: Seq<NodeView>) -> bool
    decreases ns, 0int,
{
    if ns.len() == 0 {
        true
    } else {
        node_tags_ok(ns[0]) && nodes_tags_ok(ns.subrange(1, ns.len() as int))
    }
}

proof fn lemma_word_chars(c: Seq<char>, i: int, m: int)
    requires
        0 <= i <= m < word_end(c, i),
        m < c.len(),
    ensures
        !is_ws(c[m]),
    decreases m - i,
{
    if i < m {
        lemma_word_chars(c, i + 1, m);
    }
}

proof fn lemma_word_end_le(c: Seq<char>, i: int)
    requires
        0 <= i <= c.len(),
    ensures
        i <= word_end(c, i) <= c.len(),
    decreases c.len() - i,
{
    if i < c.len() && !is_ws(c[i]) {
        lemma_word_end_le(c, i + 1);
    }
}

proof fn lemma_tag_ok(s: Seq<char>, pos: int)
    requires
        0 <= pos < s.len(),
        tag_of(s.subrange(pos + 1, find_from(s, '>', pos + 1))).len() > 0,
    ensures
        tag_ok(tag_of(s.subrange(pos + 1, find_from(s, '>', pos + 1)))),
{
    lemma_find_from_le(s, '>', pos + 1);
    let e = find_from(s, '>', pos + 1);
    let c = s.subrange(pos + 1, e);
    let a = lead_ws(c, 0);
    crate::text::lemma_lead_ws_bounds_pub(c, 0);
    lemma_word_end_le(c, a);
    let w = c.subrange(a, word_end(c, a));
    let t = lower_seq(w);
    crate::text::lemma_lower_seq_trimmed(w);
    assert forall|i: int| 0 <= i < t.len() implies !is_ws(#[trigger] t[i]) && t[i] != '>' by {
        lemma_word_chars(c, a, a + i);
        lemma_find_lt_none(s, '>', pos + 1, pos + 1 + a + i);
        assert(w[i] == c[a + i]);
        assert(c[a + i] == s[pos + 1 + a + i]);
        crate::text::lemma_lower_char(w[i]);
        crate::text::lemma_lower_not_gt(w[i]);
    }
}

proof fn lemma_nodes_tags(s: Seq<char>, pos: int, closing: Option<Seq<char>>)
    requires
        0 <= pos <= s.len(),
    ensures
        nodes_tags_ok(nodes_from(s, pos, closing).0),
    decreases s.len() - pos,
{
    if pos < s.len() {
        if starts_end_tag(s, pos) {
            lemma_find_from_le(s, '>', pos + 2);
            let p1 = after_gt(s, pos + 2);
            let e = find_from(s, '>', pos + 2);
            let name = s.subrange(pos + 2, e);
            if !(closing matches Some(c) && eq_ignore_case(c, trim(name))) {
                lemma_nodes_tags(s, p1, closing);
            }
        } else if s[pos] == '<' {
            lemma_find_from_le(s, '>', pos + 1);
            let e = find_from(s, '>', pos + 1);
            let content = s.subrange(pos + 1, e);
            let p1 = after_gt(s, pos + 1);
            let tag = tag_of(content);
            if tag.len() == 0 {
                lemma_nodes_tags(s, p1, closing);
            } else {
                lemma_nodes_tags(s, p1, Some(tag));
                lemma_nodes_from_pos(s, p1, Some(tag));
                let (kids, p2) = nodes_from(s, p1, Some(tag));
                lemma_nodes_tags(s, p2, closing);
                lemma_tag_ok(s, pos);
                let (rest, p3) = nodes_from(s, p2, closing);
                let el = NodeView { kind: KindView::Element { tag: tag, attrs: attrs_of(content) }, children: kids };
                assert(node_tags_ok(el));
                let ns = seq![el] + rest;
                assert(ns.subrange(1, ns.len() as int) =~= rest);
            }
        } else {
            lemma_find_from_le(s, '<', pos + 1);
            let e = find_from(s, '<', pos);
            assert(e == find_from(s, '<', pos + 1));
            lemma_nodes_tags(s, e, closing);
            let (rest, p3) = nodes_from(s, e, closing);
            let t = NodeView { kind: KindView::Text(s.subrange(pos, e)), children: Seq::empty() };
            assert(node_tags_ok(t));
            let ns = seq![t] + rest;
            assert(ns.subrange(1, ns.len() as int) =~= rest);
        }
    }
}

/// Every element of a parsed document has a non-empty, lower-case tag name
/// without whitespace and without `>`.
pub proof fn law_tag_names_are_clean(s: Seq<char>)
    ensures
        node_tags_ok(parse_spec(s)),
{
    lemma_nodes_tags(s, 0, None);
}

} // verus!
