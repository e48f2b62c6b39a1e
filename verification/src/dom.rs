//! The document tree: documents, elements with attributes, and text.
use vstd::prelude::*;
use crate::strmap::StrMap;
use crate::text::{chars_of, split_whitespace, chars_eq, split_ws, push_str, str_eq};

verus! {

/// What a node is, as mathematical values.
pub enum KindView {
    Document,
    Text(Seq<char>),
    Element { tag: Seq<char>, attrs: Map<Seq<char>, Seq<char>> },
}

/// A node and its subtree, as mathematical values.
pub struct NodeView {
    pub kind: KindView,
    pub children: Seq<NodeView>,
}

#[derive(Debug, Clone, PartialEq)]
pub enum NodeType {
    Document,
    Text(String),
    Element(ElementData),
}

#[derive(Debug, Clone, PartialEq)]
pub struct ElementData {
    pub tag_name: String,
    pub attributes: StrMap,
}

#[derive(Debug, PartialEq)]
pub struct Node {
    pub node_type: NodeType,
    pub children: Vec<Node>,
}

pub open spec fn kind_view(t: NodeType) -> KindView {
    match t {
        NodeType::Document => KindView::Document,
        NodeType::Text(s) => KindView::Text(s@),
        NodeType::Element(e) => KindView::Element { tag: e.tag_name@, attrs: e.attributes@ },
    }
}

/// The mathematical value of a node and its subtree.
pub open spec fn node_view(n: Node) -> NodeView
    decreases n,
{
    NodeView {
        kind: kind_view(n.node_type),
        children: Seq::new(
            n.children@.len(),
            |i: int|
                if 0 <= i < n.children@.len() {
                    node_view(n.children@[i])
                } else {
                    NodeView { kind: KindView::Document, children: Seq::empty() }
                },
        ),
    }
}

/// The views of a list of nodes.
pub open spec fn nodes_view(v: Seq<Node>) -> Seq<NodeView> {
    Seq::new(v.len(), |i: int| node_view(v[i]))
}

impl View for Node {
    type V = NodeView;

    open spec fn view(&self) -> NodeView {
        node_view(*self)
    }
}

pub proof fn lemma_children_view(n: Node)
    ensures
        node_view(n).children == nodes_view(n.children@),
{
    assert(node_view(n).children =~= nodes_view(n.children@));
}

/// The text content of every element named `tag` in the subtree, in document order.
pub open spec fn tag_texts(n: NodeView, tag: Seq<char>) -> Seq<Seq<char>>
    decreases n, 1int,
{
    (match n.kind {
        KindView::Element { tag: t, .. } => if t == tag {
            seq![text_content(n)]
        } else {
            Seq::empty()
        },
        _ => Seq::empty(),
    }) + child_tag_texts(n, tag).flatten()
}

pub open spec fn child_tag_texts(n: NodeView, tag: Seq<char>) -> Seq<Seq<Seq<char>>>
    decreases n, 0int,
{
    Seq::new(
        n.children.len(),
        |i: int|
            if 0 <= i < n.children.len() {
                tag_texts(n.children[i], tag)
            } else {
                Seq::empty()
            },
    )
}

pub open spec fn texts_view(v: Seq<String>) -> Seq<Seq<char>> {
    v.map_values(|s: String| s@)
}

/// The class names of an element: the whitespace-separated words of its `class` attribute.
pub open spec fn classes_of(attrs: Map<Seq<char>, Seq<char>>) -> Seq<Seq<char>> {
    if attrs.dom().contains("class"@) {
        split_ws(attrs["class"@])
    } else {
        Seq::empty()
    }
}

/// The text a node holds itself: a text node's text, nothing for others.
pub open spec fn own_text(k: KindView) -> Seq<char> {
    match k {
        KindView::Text(t) => t,
        _ => Seq::empty(),
    }
}

/// The text of a node and its descendants, in document order.
pub open spec fn text_content(n: NodeView) -> Seq<char>
    decreases n, 1int,
{
    own_text(n.kind) + child_texts(n).flatten()
}

/// The text of each child of a node.
pub open spec fn child_texts(n: NodeView) -> Seq<Seq<char>>
    decreases n, 0int,
{
    Seq::new(
        n.children.len(),
        |i: int|
            if 0 <= i < n.children.len() {
                text_content(n.children[i])
            } else {
                Seq::empty()
            },
    )
}

impl ElementData {
    /// The `id` attribute.
    pub fn id(&self) -> (r: Option<&String>)
        ensures
            match r {
                Some(v) => self.attributes@.dom().contains("id"@) && v@ == self.attributes@["id"@],
                None => !self.attributes@.dom().contains("id"@),
            },
    {
        self.attributes.get("id")
    }

    /// Whether the `class` attribute lists `class` among its words.
    pub fn has_class(&self, class: &Vec<char>) -> (b: bool)
        ensures
            b == classes_of(self.attributes@).contains(class@),
    {
        match self.attributes.get("class") {
            None => false,
            Some(list) => {
                let v = chars_of(list.as_str());
                let words = split_whitespace(&v, 0, v.len());
                assert(v@.subrange(0, v@.len() as int) == v@);
                let ghost ws = words@.map_values(|p: Vec<char>| p@);
                assert(classes_of(self.attributes@) == ws);
                let mut i: usize = 0;
                while i < words.len()
                    invariant
                        ws == words@.map_values(|p: Vec<char>| p@),
                        ws == split_ws(v@),
                        classes_of(self.attributes@) == ws,
                        i <= words.len(),
                        forall|m: int| 0 <= m < i ==> ws[m] != class@,
                    decreases words.len() - i,
                {
                    if chars_eq(&words[i], class) {
                        assert(ws[i as int] == class@);
                        assert(ws.contains(class@));
                        return true;
                    }
                    i = i + 1;
                }
                assert(!ws.contains(class@));
                false
            },
        }
    }

    /// The value of an attribute.
    pub fn get_attribute(&self, name: &str) -> (r: Option<&String>)
        ensures
            match r {
                Some(v) => self.attributes@.dom().contains(name@) && v@ == self.attributes@[name@],
                None => !self.attributes@.dom().contains(name@),
            },
    {
        self.attributes.get(name)
    }

    /// Sets an attribute.
    pub fn set_attribute(&mut self, name: &str, value: &str)
        ensures
            final(self).attributes@ == old(self).attributes@.insert(name@, value@),
            final(self).tag_name == old(self).tag_name,
    {
        self.attributes.insert(name.to_owned(), value.to_owned());
    }

    pub fn clone_data(&self) -> (r: ElementData)
        ensures
            r.tag_name@ == self.tag_name@,
            r.attributes@ == self.attributes@,
    {
        ElementData { tag_name: self.tag_name.clone(), attributes: self.attributes.duplicate() }
    }
}

impl Node {
    pub fn document(children: Vec<Node>) -> (n: Self)
        ensures
            n.node_type is Document,
            n.children == children,
    {
        Node { node_type: NodeType::Document, children }
    }

    pub fn text(value: &str) -> (n: Self)
        ensures
            n@.kind == KindView::Text(value@),
            n.children@.len() == 0,
    {
        let n = Node { node_type: NodeType::Text(value.to_owned()), children: Vec::new() };
        assert(n@.children =~= Seq::<NodeView>::empty());
        n
    }

    /// An element with no attributes.
    pub fn element(tag_name: &str, children: Vec<Node>) -> (n: Self)
        ensures
            n@.kind == (KindView::Element { tag: tag_name@, attrs: Map::empty() }),
            n.children == children,
    {
        Node {
            node_type: NodeType::Element(
                ElementData { tag_name: tag_name.to_owned(), attributes: StrMap::new() },
            ),
            children,
        }
    }

    /// An element with the given attributes.
    pub fn element_with_attributes(tag_name: &str, attributes: StrMap, children: Vec<Node>) -> (n: Self)
        ensures
            n@.kind == (KindView::Element { tag: tag_name@, attrs: attributes@ }),
            n.children == children,
    {
        Node {
            node_type: NodeType::Element(ElementData { tag_name: tag_name.to_owned(), attributes }),
            children,
        }
    }

    /// The text content of every element named `tag` in the subtree, in
    /// document order (the sources of `<script>` elements, for instance).
    pub fn texts_of(&self, tag: &str) -> (r: Vec<String>)
        ensures
            texts_view(r@) == tag_texts(self@, tag@),
        decreases self,
    {
        let mut out: Vec<String> = Vec::new();
        match &self.node_type {
            NodeType::Element(e) => {
                if str_eq(e.tag_name.as_str(), tag) {
                    out.push(self.inner_text());
                }
            },
            _ => {},
        }
        let ghost own = texts_view(out@);
        let ghost ts = child_tag_texts(self@, tag@);
        proof {
            lemma_children_view(*self);
            assert(own =~= (match self@.kind {
                KindView::Element { tag: t, .. } => if t == tag@ {
                    seq![text_content(self@)]
                } else {
                    Seq::empty()
                },
                _ => Seq::empty(),
            }));
            assert(ts.take(0).flatten() =~= Seq::<Seq<char>>::empty());
            assert(texts_view(out@) =~= own + ts.take(0).flatten());
        }
        let mut i: usize = 0;
        while i < self.children.len()
            invariant
                i <= self.children@.len(),
                self@.children == nodes_view(self.children@),
                ts == child_tag_texts(self@, tag@),
                ts.len() == self.children@.len(),
                texts_view(out@) == own + ts.take(i as int).flatten(),
            decreases self.children@.len() - i,
        {
            let mut sub = self.children[i].texts_of(tag);
            let ghost before = texts_view(out@);
            let ghost add = texts_view(sub@);
            out.append(&mut sub);
            proof {
                assert(texts_view(out@) =~= before + add);
                assert(ts[i as int] == tag_texts(self@.children[i as int], tag@));
                assert(ts.take(i + 1) =~= ts.take(i as int).push(ts[i as int]));
                ts.take(i as int).lemma_flatten_push(ts[i as int]);
                assert(texts_view(out@) =~= own + ts.take(i + 1).flatten());
            }
            i = i + 1;
        }
        proof {
            assert(ts.take(i as int) =~= ts);
        }
        out
    }

    /// The text of the node and all its descendants, in document order.
    pub fn inner_text(&self) -> (r: String)
        ensures
            r@ == text_content(self@),
        decreases self,
    {
        let mut out = String::new();
        match &self.node_type {
            NodeType::Text(t) => push_str(&mut out, t.as_str()),
            _ => {},
        }
        let ghost own = out@;
        let ghost ts = child_texts(self@);
        proof {
            lemma_children_view(*self);
            assert(own == own_text(self@.kind));
            assert(ts.take(0).flatten() =~= Seq::<char>::empty());
        }
        let mut i: usize = 0;
        while i < self.children.len()
            invariant
                i <= self.children@.len(),
                self@.children == nodes_view(self.children@),
                ts == child_texts(self@),
                ts.len() == self.children@.len(),
                out@ == own + ts.take(i as int).flatten(),
            decreases self.children@.len() - i,
        {
            let t = self.children[i].inner_text();
            push_str(&mut out, t.as_str());
            proof {
                assert(ts[i as int] == text_content(self@.children[i as int]));
                assert(ts.take(i + 1) =~= ts.take(i as int).push(ts[i as int]));
                ts.take(i as int).lemma_flatten_push(ts[i as int]);
            }
            i = i + 1;
        }
        proof {
            assert(ts.take(i as int) =~= ts);
        }
        out
    }

    /// Replaces the text of a text node (dropping any children it had), or
    /// the children of any other node by one text node.
    pub fn set_inner_text(&mut self, text: &str)
        ensures
            text_content(final(self)@) == text@,
            match old(self).node_type {
                NodeType::Text(_) => final(self)@ == (NodeView { kind: KindView::Text(text@), children: Seq::empty() }),
                _ => final(self)@ == (NodeView {
                    kind: old(self)@.kind,
                    children: seq![NodeView { kind: KindView::Text(text@), children: Seq::empty() }],
                }),
            },
    {
        let is_text = match &self.node_type {
            NodeType::Text(_) => true,
            _ => false,
        };
        if is_text {
            self.node_type = NodeType::Text(text.to_owned());
            self.children = Vec::new();
            assert(self@.children =~= Seq::<NodeView>::empty());
        } else {
            let t = Node::text(text);
            self.children = vec![t];
            assert(self@.children =~= seq![t@]);
            assert(t@.children =~= Seq::<NodeView>::empty());
        }
        proof {
            let n = self@;
            if !is_text {
                let tn = n.children[0];
                assert(child_texts(tn) =~= Seq::<Seq<char>>::empty());
                assert(child_texts(tn).flatten() =~= Seq::<char>::empty());
                assert(text_content(tn) =~= text@);
                assert(child_texts(n) =~= seq![text@]);
                seq![text@].lemma_flatten_one_element();
            } else {
                assert(child_texts(n) =~= Seq::<Seq<char>>::empty());
                assert(child_texts(n).flatten() =~= Seq::<char>::empty());
            }
        }
    }

    /// A deep copy.
    pub fn deep_clone(&self) -> (r: Node)
        ensures
            r@ == self@,
        decreases self,
    {
        let node_type = match &self.node_type {
            NodeType::Document => NodeType::Document,
            NodeType::Text(t) => NodeType::Text(t.clone()),
            NodeType::Element(e) => NodeType::Element(e.clone_data()),
        };
        let mut children: Vec<Node> = Vec::new();
        let mut i: usize = 0;
        while i < self.children.len()
            invariant
                i <= self.children@.len(),
                children@.len() == i,
                forall|m: int| 0 <= m < i ==> (#[trigger] children@[m])@ == self.children@[m]@,
            decreases self.children@.len() - i,
        {
            let c = self.children[i].deep_clone();
            children.push(c);
            i = i + 1;
        }
        let r = Node { node_type, children };
        assert(r@.children =~= self@.children);
        r
    }
}

} // verus!

verus! {

impl Clone for Node {
    fn clone(&self) -> (r: Self)
        ensures
            r@ == self@,
    {
        self.deep_clone()
    }
}

} // verus!
