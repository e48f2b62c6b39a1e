//! Selector matching and the cascade: which declarations apply to each element.
use vstd::prelude::*;
use crate::css::{parse_declarations, parse_decls, Rule, RuleView, Stylesheet, rule_view};
use crate::dom::{classes_of, ElementData, KindView, Node, NodeType, NodeView, lemma_children_view};
use crate::strmap::StrMap;
use crate::text::{
    chars_eq, chars_of, contains_char, eq_ignore_case, eq_ignore_case_vec, find_char, find_from, lower_seq, is_ws, lead_ws, trail_ws,
    lemma_find_from_ge, slice_of, split_char, split_on, split_once, trim, trim_bounds,
};

verus! {

pub type Specificity = (u16, u16, u16);

/// Lexicographic order on specificities (the order of Rust tuples).
pub open spec fn le3(a: Specificity, b: Specificity) -> bool {
    a.0 < b.0 || (a.0 == b.0 && (a.1 < b.1 || (a.1 == b.1 && a.2 <= b.2)))
}

pub open spec fn max3(a: Specificity, b: Specificity) -> Specificity {
    if le3(a, b) {
        b
    } else {
        a
    }
}

/// Last index below `j` holding `c`, or -1.
pub open spec fn rfind_before(s: Seq<char>, c: char, j: int) -> int
    decreases j,
{
    if 0 < j <= s.len() {
        if s[j - 1] == c {
            j - 1
        } else {
            rfind_before(s, c, j - 1)
        }
    } else {
        -1
    }
}

/// A compound selector without spaces: `*`, `#id`, `.a.b`, `tag.class` or `tag`.
pub open spec fn match_simple(s: Seq<char>, tag: Seq<char>, attrs: Map<Seq<char>, Seq<char>>) -> Option<Specificity> {
    if s == seq!['*'] {
        Some((0u16, 0u16, 0u16))
    } else if s.len() > 0 && s[0] == '#' {
        if attrs.dom().contains("id"@) && attrs["id"@] == s.drop_first() {
            Some((1u16, 0u16, 0u16))
        } else {
            None
        }
    } else if s.len() > 0 && s[0] == '.' {
        let class = s.drop_first();
        if class.contains('.') {
            let classes = split_on(class, '.');
            if forall|i: int| 0 <= i < classes.len() ==> classes_of(attrs).contains(#[trigger] classes[i]) {
                Some((0u16, classes.len() as u16, 0u16))
            } else {
                None
            }
        } else if classes_of(attrs).contains(class) {
            Some((0u16, 1u16, 0u16))
        } else {
            None
        }
    } else {
        match split_once(s, '.') {
            Some((t, class)) => {
                if eq_ignore_case(t, tag) && classes_of(attrs).contains(class) {
                    Some((0u16, 1u16, 1u16))
                } else {
                    None
                }
            },
            None => {
                if eq_ignore_case(s, tag) {
                    Some((0u16, 0u16, 1u16))
                } else {
                    None
                }
            },
        }
    }
}

/// One selector: a descendant selector `a b` is judged by its last part only.
pub open spec fn match_single(sel: Seq<char>, tag: Seq<char>, attrs: Map<Seq<char>, Seq<char>>) -> Option<Specificity> {
    let s = trim(sel);
    if s.contains(' ') {
        let k = rfind_before(s, ' ', s.len() as int);
        match_simple(trim(s.subrange(k + 1, s.len() as int)), tag, attrs)
    } else {
        match_simple(s, tag, attrs)
    }
}

/// The greatest specificity among the comma-separated parts that match.
pub open spec fn best_part(parts: Seq<Seq<char>>, tag: Seq<char>, attrs: Map<Seq<char>, Seq<char>>) -> Option<Specificity>
    decreases parts.len(),
{
    if parts.len() == 0 {
        None
    } else {
        let b = best_part(parts.drop_last(), tag, attrs);
        match match_single(trim(parts.last()), tag, attrs) {
            Some(s) => match b {
                Some(bb) => Some(max3(bb, s)),
                None => Some(s),
            },
            None => b,
        }
    }
}

/// The specificity with which a selector (list) matches an element, if it does.
pub open spec fn spec_of_sel(sel: Seq<char>, tag: Seq<char>, attrs: Map<Seq<char>, Seq<char>>) -> Option<Specificity> {
    if sel.contains(',') {
        best_part(split_on(sel, ','), tag, attrs)
    } else {
        match_single(trim(sel), tag, attrs)
    }
}

/// Among the first `n` rules, the one whose value for property `k` wins:
/// the matching rule declaring `k` with the greatest specificity, a later rule
/// winning a tie.
pub open spec fn best_rule(rules: Seq<RuleView>, tag: Seq<char>, attrs: Map<Seq<char>, Seq<char>>, k: Seq<char>, n: int) -> Option<int>
    decreases n,
{
    if n <= 0 {
        None
    } else {
        let b = best_rule(rules, tag, attrs, k, n - 1);
        match spec_of_sel(rules[n - 1].selector, tag, attrs) {
            Some(s) => {
                if rules[n - 1].declarations.dom().contains(k) && (b is None || le3(
                    spec_of_sel(rules[b->0].selector, tag, attrs)->0,
                    s,
                )) {
                    Some(n - 1)
                } else {
                    b
                }
            },
            None => b,
        }
    }
}

/// The properties that the sheet's rules give an element.
pub open spec fn cascaded(rules: Seq<RuleView>, tag: Seq<char>, attrs: Map<Seq<char>, Seq<char>>) -> Map<Seq<char>, Seq<char>> {
    Map::new(
        |k: Seq<char>| best_rule(rules, tag, attrs, k, rules.len() as int) is Some,
        |k: Seq<char>| rules[best_rule(rules, tag, attrs, k, rules.len() as int)->0].declarations[k],
    )
}

/// The declarations of the element's `style` attribute.
pub open spec fn inline_decls(attrs: Map<Seq<char>, Seq<char>>) -> Map<Seq<char>, Seq<char>> {
    if attrs.dom().contains("style"@) {
        parse_decls(attrs["style"@])
    } else {
        Map::empty()
    }
}

/// The computed properties of an element: the cascade, then the inline style over it.
pub open spec fn computed(rules: Seq<RuleView>, tag: Seq<char>, attrs: Map<Seq<char>, Seq<char>>) -> Map<Seq<char>, Seq<char>> {
    cascaded(rules, tag, attrs).union_prefer_right(inline_decls(attrs))
}

pub struct StyledView {
    pub node: NodeView,
    pub properties: Map<Seq<char>, Seq<char>>,
    pub children: Seq<StyledView>,
}

/// The styled tree of a node: elements get their computed properties, other nodes none.
pub open spec fn styled(n: NodeView, rules: Seq<RuleView>) -> StyledView
    decreases n,
{
    StyledView {
        node: n,
        properties: match n.kind {
            KindView::Element { tag, attrs } => computed(rules, tag, attrs),
            _ => Map::empty(),
        },
        children: Seq::new(
            n.children.len(),
            |i: int|
                if 0 <= i < n.children.len() {
                    styled(n.children[i], rules)
                } else {
                    StyledView { node: n, properties: Map::empty(), children: Seq::empty() }
                },
        ),
    }
}

#[derive(Debug)]
pub struct StyledNode {
    pub node: Node,
    pub properties: StrMap,
    pub children: Vec<StyledNode>,
}

pub open spec fn styled_view(s: StyledNode) -> StyledView
    decreases s,
{
    StyledView {
        node: s.node@,
        properties: s.properties@,
        children: Seq::new(
            s.children@.len(),
            |i: int|
                if 0 <= i < s.children@.len() {
                    styled_view(s.children@[i])
                } else {
                    StyledView { node: s.node@, properties: Map::empty(), children: Seq::empty() }
                },
        ),
    }
}

impl View for StyledNode {
    type V = StyledView;

    open spec fn view(&self) -> StyledView {
        styled_view(*self)
    }
}

fn rfind_char(v: &Vec<char>, c: char) -> (k: Option<usize>)
    ensures
        match k {
            Some(i) => i < v.len() && i as int == rfind_before(v@, c, v@.len() as int),
            None => rfind_before(v@, c, v@.len() as int) == -1,
        },
{
    let mut j = v.len();
    while j > 0
        invariant
            j <= v.len(),
            rfind_before(v@, c, v@.len() as int) == rfind_before(v@, c, j as int),
        decreases j,
    {
        if v[j - 1] == c {
            return Some(j - 1);
        }
        j = j - 1;
    }
    None
}

fn match_simple_exec(s: &Vec<char>, e: &ElementData) -> (r: Option<Specificity>)
    ensures
        r == match_simple(s@, e.tag_name@, e.attributes@),
{
    if s.len() == 1 && s[0] == '*' {
        assert(s@ =~= seq!['*']);
        return Some((0, 0, 0));
    }
    assert(s@ != seq!['*']);
    if s.len() > 0 && s[0] == '#' {
        let id = slice_of(s, 1, s.len());
        assert(id@ =~= s@.drop_first());
        return match e.id() {
            Some(attr) => {
                let a = chars_of(attr.as_str());
                if chars_eq(&a, &id) {
                    Some((1, 0, 0))
                } else {
                    None
                }
            },
            None => None,
        };
    }
    if s.len() > 0 && s[0] == '.' {
        let class = slice_of(s, 1, s.len());
        assert(class@ =~= s@.drop_first());
        if contains_char(&class, '.') {
            let classes = split_char(&class, 0, class.len(), '.');
            assert(class@.subrange(0, class@.len() as int) == class@);
            let ghost cs = classes@.map_values(|p: Vec<char>| p@);
            let mut i: usize = 0;
            while i < classes.len()
                invariant
                    cs == classes@.map_values(|p: Vec<char>| p@),
                    s@.len() > 0,
                    s@ != seq!['*'],
                    s@[0] == '.',
                    s@.drop_first().contains('.'),
                    cs == split_on(s@.drop_first(), '.'),
                    i <= classes.len(),
                    forall|m: int| 0 <= m < i ==> classes_of(e.attributes@).contains(#[trigger] cs[m]),
                decreases classes.len() - i,
            {
                if !e.has_class(&classes[i]) {
                    assert(!classes_of(e.attributes@).contains(cs[i as int]));
                    return None;
                }
                i = i + 1;
            }
            return Some((0, classes.len() as u16, 0));
        }
        if e.has_class(&class) {
            return Some((0, 1, 0));
        }
        return None;
    }
    let k = find_char(s, '.', 0);
    let tag = chars_of(e.tag_name.as_str());
    if k < s.len() {
        let t = slice_of(s, 0, k);
        let class = slice_of(s, k + 1, s.len());
        if eq_ignore_case_vec(&t, &tag) && e.has_class(&class) {
            return Some((0, 1, 1));
        }
        return None;
    }
    if eq_ignore_case_vec(s, &tag) {
        Some((0, 0, 1))
    } else {
        None
    }
}

fn match_single_vec(v: &Vec<char>, from: usize, to: usize, e: &ElementData) -> (r: Option<Specificity>)
    requires
        from <= to <= v.len(),
    ensures
        r == match_single(v@.subrange(from as int, to as int), e.tag_name@, e.attributes@),
{
    let (a, b) = trim_bounds(v, from, to);
    let s = slice_of(v, a, b);
    assert(s@ == trim(v@.subrange(from as int, to as int)));
    assert(s@.subrange(0, s@.len() as int) == s@);
    match rfind_char(&s, ' ') {
        Some(k) => {
            proof {
                lemma_rfind_contains(s@, ' ', s@.len() as int);
            }
            assert(s@.contains(' '));
            let (c, d) = trim_bounds(&s, k + 1, s.len());
            let last = slice_of(&s, c, d);
            assert(last@ == trim(s@.subrange(k + 1, s@.len() as int)));
            match_simple_exec(&last, e)
        },
        None => {
            proof {
                lemma_rfind_contains(s@, ' ', s@.len() as int);
            }
            assert(!s@.contains(' '));
            match_simple_exec(&s, e)
        },
    }
}

proof fn lemma_rfind_contains(s: Seq<char>, c: char, j: int)
    requires
        0 <= j <= s.len(),
    ensures
        rfind_before(s, c, j) == -1 <==> !s.subrange(0, j).contains(c),
        -1 <= rfind_before(s, c, j) < j,
    decreases j,
{
    if j > 0 {
        lemma_rfind_contains(s, c, j - 1);
        assert(s.subrange(0, j - 1) =~= s.subrange(0, j).drop_last());
        if s.subrange(0, j - 1).contains(c) {
            let i = choose|i: int| 0 <= i < s.subrange(0, j - 1).len() && #[trigger] s.subrange(0, j - 1)[i] == c;
            assert(s.subrange(0, j)[i] == c);
        }
        if s[j - 1] == c {
            assert(s.subrange(0, j)[j - 1] == c);
        } else if s.subrange(0, j).contains(c) {
            let i = choose|i: int| 0 <= i < s.subrange(0, j).len() && #[trigger] s.subrange(0, j)[i] == c;
            assert(s.subrange(0, j - 1)[i] == c);
        }
    } else {
        assert(s.subrange(0, 0).len() == 0);
    }
    if j == s.len() {
        assert(s.subrange(0, j) == s);
    }
}

/// The specificity of a single selector against an element.
pub fn match_single_selector(s: &str, e: &ElementData) -> (r: Option<Specificity>)
    ensures
        r == match_single(s@, e.tag_name@, e.attributes@),
{
    let v = chars_of(s);
    assert(v@.subrange(0, v@.len() as int) == v@);
    match_single_vec(&v, 0, v.len(), e)
}

/// The specificity of a selector list against an element: the greatest among
/// its matching parts.
pub fn selector_specificity(selector: &str, e: &ElementData) -> (r: Option<Specificity>)
    ensures
        r == spec_of_sel(selector@, e.tag_name@, e.attributes@),
{
    let v = chars_of(selector);
    assert(v@.subrange(0, v@.len() as int) == v@);
    if contains_char(&v, ',') {
        let parts = split_char(&v, 0, v.len(), ',');
        let ghost ps = parts@.map_values(|p: Vec<char>| p@);
        let mut best: Option<Specificity> = None;
        let mut i: usize = 0;
        while i < parts.len()
            invariant
                ps == parts@.map_values(|p: Vec<char>| p@),
                ps == split_on(v@, ','),
                i <= parts.len(),
                best == best_part(ps.take(i as int), e.tag_name@, e.attributes@),
            decreases parts.len() - i,
        {
            let p = &parts[i];
            assert(ps.take(i + 1).drop_last() == ps.take(i as int));
            assert(ps.take(i + 1).last() == p@);
            assert(p@.subrange(0, p@.len() as int) == p@);
            let (a, b) = trim_bounds(p, 0, p.len());
            let m = match_single_vec(p, a, b, e);
            if let Some(s) = m {
                best = match best {
                    Some(bb) => {
                        if bb.0 < s.0 || (bb.0 == s.0 && (bb.1 < s.1 || (bb.1 == s.1 && bb.2 <= s.2))) {
                            Some(s)
                        } else {
                            Some(bb)
                        }
                    },
                    None => Some(s),
                };
            }
            i = i + 1;
        }
        assert(ps.take(parts.len() as int) == ps);
        best
    } else {
        let (a, b) = trim_bounds(&v, 0, v.len());
        assert(v@.subrange(a as int, b as int).subrange(0, (b - a) as int) == v@.subrange(a as int, b as int));
        match_single_vec(&v, a, b, e)
    }
}

proof fn lemma_best_rule_some(rules: Seq<RuleView>, tag: Seq<char>, attrs: Map<Seq<char>, Seq<char>>, k: Seq<char>, n: int)
    requires
        0 <= n <= rules.len(),
    ensures
        best_rule(rules, tag, attrs, k, n) is Some <==> exists|i: int| 0 <= i < n && spec_of_sel(rules[i].selector, tag, attrs) is Some && rules[i].declarations.dom().contains(k),
        best_rule(rules, tag, attrs, k, n) matches Some(b) ==> 0 <= b < n && spec_of_sel(rules[b].selector, tag, attrs) is Some
            && rules[b].declarations.dom().contains(k),
    decreases n,
{
    if n > 0 {
        lemma_best_rule_some(rules, tag, attrs, k, n - 1);
        if exists|i: int| 0 <= i < n && spec_of_sel(rules[i].selector, tag, attrs) is Some && rules[i].declarations.dom().contains(k) {
            let i = choose|i: int| 0 <= i < n && spec_of_sel(rules[i].selector, tag, attrs) is Some && rules[i].declarations.dom().contains(k);
            if i < n - 1 {
                assert(best_rule(rules, tag, attrs, k, n - 1) is Some);
            }
        }
    }
}

/// Keys declared by the matching rules among the first `n`.
pub open spec fn declared_upto(rules: Seq<RuleView>, tag: Seq<char>, attrs: Map<Seq<char>, Seq<char>>, n: int) -> Set<Seq<char>> {
    Set::new(|k: Seq<char>| exists|i: int| 0 <= i < n && spec_of_sel(rules[i].selector, tag, attrs) is Some && rules[i].declarations.dom().contains(k))
}

/// The index of the winning rule for property `k`, computed by scanning the rules.
fn winner(rules: &Vec<Rule>, specs: &Vec<Option<Specificity>>, e: &ElementData, k: &str) -> (w: usize)
    requires
        specs@.len() == rules@.len(),
        forall|i: int| 0 <= i < rules@.len() ==> specs@[i] == spec_of_sel(#[trigger] rules@[i].selector@, e.tag_name@, e.attributes@),
        best_rule(rules@.map_values(|r: Rule| rule_view(r)), e.tag_name@, e.attributes@, k@, rules@.len() as int) is Some,
    ensures
        best_rule(rules@.map_values(|r: Rule| rule_view(r)), e.tag_name@, e.attributes@, k@, rules@.len() as int) == Some(w as int),
        w < rules@.len(),
{
    let ghost rv = rules@.map_values(|r: Rule| rule_view(r));
    let mut best: Option<usize> = None;
    let mut best_spec: Specificity = (0, 0, 0);
    let mut i: usize = 0;
    while i < rules.len()
        invariant
            rv == rules@.map_values(|r: Rule| rule_view(r)),
            specs@.len() == rules@.len(),
            forall|m: int| 0 <= m < rules@.len() ==> specs@[m] == spec_of_sel(#[trigger] rules@[m].selector@, e.tag_name@, e.attributes@),
            i <= rules.len(),
            match best {
                Some(b) => best_rule(rv, e.tag_name@, e.attributes@, k@, i as int) == Some(b as int)
                    && b < i && specs@[b as int] == Some(best_spec),
                None => best_rule(rv, e.tag_name@, e.attributes@, k@, i as int) is None,
            },
        decreases rules.len() - i,
    {
        assert(rv[i as int] == rule_view(rules@[i as int]));
        if let Some(s) = specs[i] {
            if rules[i].declarations.contains_key(k) {
                let better = match best {
                    None => true,
                    Some(_) => best_spec.0 < s.0 || (best_spec.0 == s.0 && (best_spec.1 < s.1 || (
                    best_spec.1 == s.1 && best_spec.2 <= s.2))),
                };
                if better {
                    best = Some(i);
                    best_spec = s;
                }
            }
        }
        i = i + 1;
    }
    match best {
        Some(b) => b,
        None => 0,
    }
}

/// The computed properties of an element under a sheet.
fn element_properties(sheet: &Stylesheet, e: &ElementData) -> (props: StrMap)
    ensures
        props@ == computed(sheet@, e.tag_name@, e.attributes@),
{
    let rules = &sheet.rules;
    let ghost rv = sheet@;
    let ghost tag = e.tag_name@;
    let ghost attrs = e.attributes@;
    let mut specs: Vec<Option<Specificity>> = Vec::new();
    let mut i: usize = 0;
    while i < rules.len()
        invariant
            tag == e.tag_name@,
            attrs == e.attributes@,
            i <= rules.len(),
            specs@.len() == i,
            forall|m: int| 0 <= m < i ==> specs@[m] == spec_of_sel(#[trigger] rules@[m].selector@, tag, attrs),
        decreases rules.len() - i,
    {
        specs.push(selector_specificity(rules[i].selector.as_str(), e));
        i = i + 1;
    }
    let mut props = StrMap::new();
    let mut i: usize = 0;
    while i < rules.len()
        invariant
            rv == rules@.map_values(|r: Rule| rule_view(r)),
            tag == e.tag_name@,
            attrs == e.attributes@,
            specs@.len() == rules@.len(),
            forall|m: int| 0 <= m < rules@.len() ==> specs@[m] == spec_of_sel(#[trigger] rules@[m].selector@, tag, attrs),
            i <= rules.len(),
            props@ == cascaded(rv, tag, attrs).restrict(declared_upto(rv, tag, attrs, i as int)),
        decreases rules.len() - i,
    {
        assert(rv[i as int] == rule_view(rules@[i as int]));
        let decls = &rules[i].declarations;
        proof {
            use_type_invariant(decls);
            decls.lemma_wf();
        }
        if specs[i].is_some() {
            let n = decls.len();
            let mut j: usize = 0;
            while j < n
                invariant
                    rv == rules@.map_values(|r: Rule| rule_view(r)),
                    rv[i as int] == rule_view(rules@[i as int]),
                    tag == e.tag_name@,
                    attrs == e.attributes@,
                    specs@.len() == rules@.len(),
                    forall|m: int| 0 <= m < rules@.len() ==> specs@[m] == spec_of_sel(#[trigger] rules@[m].selector@, tag, attrs),
                    i < rules.len(),
                    specs@[i as int] is Some,
                    decls == &rules@[i as int].declarations,
                    n == decls.entries().len(),
                    forall|m: int| 0 <= m < decls.entries().len() ==> decls@.dom().contains(#[trigger] decls.entries()[m].0@),
                    j <= n,
                    props@ == cascaded(rv, tag, attrs).restrict(declared_upto(rv, tag, attrs, i as int).union(
                        Set::new(|k: Seq<char>| exists|m: int| 0 <= m < j && decls.entries()[m].0@ == k))),
                decreases n - j,
            {
                let (k, _) = decls.entry(j);
                proof {
                    lemma_best_rule_some(rv, tag, attrs, k@, rv.len() as int);
                    assert(decls@.dom().contains(decls.entries()[j as int].0@));
                }
                let w = winner(rules, &specs, e, k.as_str());
                proof {
                    lemma_best_rule_some(rv, tag, attrs, k@, rv.len() as int);
                    assert(rv[w as int] == rule_view(rules@[w as int]));
                }
                let v = rules[w].declarations.get(k.as_str());
                match v {
                    Some(val) => {
                        props.insert(k.clone(), val.clone());
                    },
                    None => {
                        assert(false);
                    },
                }
                j = j + 1;
                proof {
                    let c = cascaded(rv, tag, attrs);
                    let s_old = declared_upto(rv, tag, attrs, i as int).union(
                        Set::new(|kk: Seq<char>| exists|m: int| 0 <= m < j - 1 && decls.entries()[m].0@ == kk));
                    let s_new = declared_upto(rv, tag, attrs, i as int).union(
                        Set::new(|kk: Seq<char>| exists|m: int| 0 <= m < j && decls.entries()[m].0@ == kk));
                    assert(s_new =~= s_old.insert(k@));
                    assert(c.dom().contains(k@));
                    assert(props@ =~= c.restrict(s_new));
                }
            }
            proof {
                let c = cascaded(rv, tag, attrs);
                let s_in = declared_upto(rv, tag, attrs, i as int).union(
                    Set::new(|kk: Seq<char>| exists|m: int| 0 <= m < n && decls.entries()[m].0@ == kk));
                let s_next = declared_upto(rv, tag, attrs, i + 1);
                assert forall|kk: Seq<char>| s_in.contains(kk) <==> s_next.contains(kk) by {
                    if s_next.contains(kk) {
                        let m = choose|m: int| 0 <= m < i + 1 && spec_of_sel(rv[m].selector, tag, attrs) is Some && rv[m].declarations.dom().contains(kk);
                        if m == i {
                            let q = choose|q: int| 0 <= q < decls.entries().len() && decls.entries()[q].0@ == kk;
                        }
                    }
                    if exists|m: int| 0 <= m < n && decls.entries()[m].0@ == kk {
                        let q = choose|m: int| 0 <= m < n && decls.entries()[m].0@ == kk;
                        assert(decls@.dom().contains(decls.entries()[q].0@));
                    }
                }
                assert(s_in =~= s_next);
            }
        } else {
            assert(declared_upto(rv, tag, attrs, i as int) =~= declared_upto(rv, tag, attrs, i + 1));
        }
        i = i + 1;
    }
    proof {
        let c = cascaded(rv, tag, attrs);
        assert forall|kk: Seq<char>| c.dom().contains(kk) <==> declared_upto(rv, tag, attrs, rv.len() as int).contains(kk) by {
            lemma_best_rule_some(rv, tag, attrs, kk, rv.len() as int);
        }
        assert(props@ =~= c);
    }
    match e.attributes.get("style") {
        Some(inline) => {
            let iv = chars_of(inline.as_str());
            let decls = parse_declarations(&iv, 0, iv.len());
            assert(iv@.subrange(0, iv@.len() as int) == iv@);
            props.extend_from(&decls);
        },
        None => {
            assert(props@.union_prefer_right(Map::empty()) =~= props@);
        },
    }
    props
}

/// The styled tree of a node under a sheet.
pub fn style_tree(node: &Node, sheet: &Stylesheet) -> (s: StyledNode)
    ensures
        s@ == styled(node@, sheet@),
    decreases node,
{
    let properties = match &node.node_type {
        NodeType::Element(e) => element_properties(sheet, e),
        _ => StrMap::new(),
    };
    let mut children: Vec<StyledNode> = Vec::new();
    let mut i: usize = 0;
    while i < node.children.len()
        invariant
            i <= node.children@.len(),
            children@.len() == i,
            forall|m: int| 0 <= m < i ==> (#[trigger] children@[m])@ == styled(node.children@[m]@, sheet@),
        decreases node.children@.len() - i,
    {
        let c = style_tree(&node.children[i], sheet);
        children.push(c);
        i = i + 1;
    }
    let s = StyledNode { node: node.clone(), properties, children };
    proof {
        lemma_children_view(*node);
        assert(s@.children =~= styled(node@, sheet@).children);
    }
    s
}

/// The winning rule for a property is a matching rule declaring it whose
/// selector is at least as specific as that of every other such rule, and
/// among equally specific ones it comes last.
pub proof fn law_most_specific_rule_wins(rules: Seq<RuleView>, tag: Seq<char>, attrs: Map<Seq<char>, Seq<char>>, k: Seq<char>, n: int, j: int)
    requires
        0 <= j < n <= rules.len(),
        spec_of_sel(rules[j].selector, tag, attrs) is Some,
        rules[j].declarations.dom().contains(k),
    ensures
        best_rule(rules, tag, attrs, k, n) matches Some(w) && {
            let sj = spec_of_sel(rules[j].selector, tag, attrs)->0;
            let sw = spec_of_sel(rules[w].selector, tag, attrs)->0;
            &&& 0 <= w < n
            &&& rules[w].declarations.dom().contains(k)
            &&& spec_of_sel(rules[w].selector, tag, attrs) is Some
            &&& le3(sj, sw)
            &&& sj == sw ==> j <= w
        },
    decreases n,
{
    lemma_best_rule_some(rules, tag, attrs, k, n);
    if j < n - 1 {
        law_most_specific_rule_wins(rules, tag, attrs, k, n - 1, j);
    } else {
        lemma_best_rule_some(rules, tag, attrs, k, n - 1);
    }
}

/// A property set in an element's `style` attribute overrides every rule of
/// the sheet.
pub proof fn law_inline_style_wins(rules: Seq<RuleView>, tag: Seq<char>, attrs: Map<Seq<char>, Seq<char>>, k: Seq<char>)
    requires
        inline_decls(attrs).dom().contains(k),
    ensures
        computed(rules, tag, attrs).dom().contains(k),
        computed(rules, tag, attrs)[k] == inline_decls(attrs)[k],
{
}

/// Without an inline value, a property an element gets is the one the winning
/// rule declares, and it gets one exactly when some matching rule declares it.
pub proof fn law_cascaded_value(rules: Seq<RuleView>, tag: Seq<char>, attrs: Map<Seq<char>, Seq<char>>, k: Seq<char>)
    requires
        !inline_decls(attrs).dom().contains(k),
    ensures
        computed(rules, tag, attrs).dom().contains(k) <==> exists|i: int|
            0 <= i < rules.len() && spec_of_sel(rules[i].selector, tag, attrs) is Some && rules[i].declarations.dom().contains(k),
        computed(rules, tag, attrs).dom().contains(k) ==> computed(rules, tag, attrs)[k]
            == rules[best_rule(rules, tag, attrs, k, rules.len() as int)->0].declarations[k],
{
    lemma_best_rule_some(rules, tag, attrs, k, rules.len() as int);
}


/// What `style_tree` gives each node, stated through the cascade laws: an
/// element's property comes from its `style` attribute when that sets it, else
/// from the winning matching rule that declares it, and is absent when no
/// matching rule declares it; any other node gets no properties; each child is
/// styled the same way.
pub proof fn law_styled_tree_follows_the_cascade(n: NodeView, rules: Seq<RuleView>, k: Seq<char>)
    ensures
        n.kind matches KindView::Element { tag, attrs } ==> {
            &&& inline_decls(attrs).dom().contains(k) ==> styled(n, rules).properties.dom().contains(k)
                && styled(n, rules).properties[k] == inline_decls(attrs)[k]
            &&& !inline_decls(attrs).dom().contains(k) ==> (styled(n, rules).properties.dom().contains(k) <==> exists|i: int|
                0 <= i < rules.len() && spec_of_sel(rules[i].selector, tag, attrs) is Some
                    && rules[i].declarations.dom().contains(k))
            &&& !inline_decls(attrs).dom().contains(k) && styled(n, rules).properties.dom().contains(k)
                ==> styled(n, rules).properties[k] == rules[best_rule(rules, tag, attrs, k, rules.len() as int)->0].declarations[k]
        },
        !(n.kind is Element) ==> styled(n, rules).properties == Map::<Seq<char>, Seq<char>>::empty(),
        styled(n, rules).node == n,
        styled(n, rules).children.len() == n.children.len(),
        forall|i: int| 0 <= i < n.children.len() ==> #[trigger] styled(n, rules).children[i] == styled(n.children[i], rules),
{
    if let KindView::Element { tag, attrs } = n.kind {
        if inline_decls(attrs).dom().contains(k) {
            law_inline_style_wins(rules, tag, attrs, k);
        } else {
            law_cascaded_value(rules, tag, attrs, k);
        }
    }
}


proof fn lemma_find_first(s: Seq<char>, c: char, i: int, k: int)
    requires
        0 <= i <= k < s.len(),
        s[k] == c,
        forall|m: int| i <= m < k ==> s[m] != c,
    ensures
        find_from(s, c, i) == k,
    decreases k - i,
{
    if i < k {
        lemma_find_first(s, c, i + 1, k);
    }
}

/// A selector `tag.class` matches exactly the elements whose tag name is
/// `tag` (ignoring ASCII case) and whose `class` attribute lists `class`; it
/// then counts one class and one tag. An element without that class is never
/// matched, whatever its tag.
pub proof fn law_tag_class_selector(t: Seq<char>, c: Seq<char>, tag: Seq<char>, attrs: Map<Seq<char>, Seq<char>>)
    requires
        t.len() > 0,
        t[0] != '#',
        t[0] != '.',
        forall|i: int| 0 <= i < t.len() ==> t[i] != '.',
    ensures
        match_simple(t + seq!['.'] + c, tag, attrs) is Some <==> (lower_seq(t) == lower_seq(tag) && classes_of(
            attrs,
        ).contains(c)),
        match_simple(t + seq!['.'] + c, tag, attrs) is Some ==> match_simple(t + seq!['.'] + c, tag, attrs) == Some(
            (0u16, 1u16, 1u16),
        ),
        !classes_of(attrs).contains(c) ==> match_simple(t + seq!['.'] + c, tag, attrs) is None,
{
    let s = t + seq!['.'] + c;
    assert(s[0] == t[0]);
    assert(s[t.len() as int] == '.');
    assert forall|m: int| 0 <= m < t.len() implies s[m] != '.' by {
        assert(s[m] == t[m]);
    }
    lemma_find_first(s, '.', 0, t.len() as int);
    assert(s.subrange(0, t.len() as int) =~= t);
    assert(s.subrange(t.len() as int + 1, s.len() as int) =~= c);
    if s == seq!['*'] {
        assert(s.len() == 1);
        assert(false);
    }
}


proof fn lemma_trim_plain(s: Seq<char>)
    requires
        forall|i: int| 0 <= i < s.len() ==> !is_ws(#[trigger] s[i]),
    ensures
        trim(s) == s,
{
    assert(lead_ws(s, 0) == 0);
    assert(s.subrange(0, s.len() as int) =~= s);
    assert(trail_ws(s, s.len() as int) == s.len());
}

/// The same for a whole selector: `tag.class` without whitespace or commas
/// applies to an element exactly when its tag name is `tag` (ignoring ASCII
/// case) and its `class` attribute lists `class`, with one class and one tag
/// of specificity.
pub proof fn law_tag_class_selector_applies(t: Seq<char>, c: Seq<char>, tag: Seq<char>, attrs: Map<Seq<char>, Seq<char>>)
    requires
        t.len() > 0,
        t[0] != '#',
        t[0] != '.',
        forall|i: int| 0 <= i < t.len() ==> t[i] != '.' && t[i] != ',' && !is_ws(#[trigger] t[i]),
        forall|i: int| 0 <= i < c.len() ==> c[i] != ',' && !is_ws(#[trigger] c[i]),
    ensures
        spec_of_sel(t + seq!['.'] + c, tag, attrs) is Some <==> (lower_seq(t) == lower_seq(tag) && classes_of(
            attrs,
        ).contains(c)),
        spec_of_sel(t + seq!['.'] + c, tag, attrs) is Some ==> spec_of_sel(t + seq!['.'] + c, tag, attrs) == Some(
            (0u16, 1u16, 1u16),
        ),
{
    let s = t + seq!['.'] + c;
    assert forall|i: int| 0 <= i < s.len() implies !is_ws(#[trigger] s[i]) && s[i] != ',' && s[i] != ' ' by {
        if i < t.len() {
            assert(s[i] == t[i]);
        } else if i > t.len() {
            assert(s[i] == c[i - t.len() - 1]);
        }
    }
    assert(!s.contains(',')) by {
        if s.contains(',') {
            let i = choose|i: int| 0 <= i < s.len() && s[i] == ',';
        }
    }
    assert(!s.contains(' ')) by {
        if s.contains(' ') {
            let i = choose|i: int| 0 <= i < s.len() && s[i] == ' ';
        }
    }
    lemma_trim_plain(s);
    law_tag_class_selector(t, c, tag, attrs);
}


/// The simple selectors: `*` matches every element with no specificity;
/// `#x` matches exactly the element whose `id` is `x` (one id); `.x` matches
/// exactly the elements whose `class` attribute lists `x` (one class); a bare
/// `x` matches exactly the elements whose tag name is `x`, ignoring ASCII case
/// (one tag).
pub proof fn law_simple_selectors(x: Seq<char>, tag: Seq<char>, attrs: Map<Seq<char>, Seq<char>>)
    ensures
        match_simple(seq!['*'], tag, attrs) == Some((0u16, 0u16, 0u16)),
        match_simple(seq!['#'] + x, tag, attrs) == (if attrs.dom().contains("id"@) && attrs["id"@] == x {
            Some((1u16, 0u16, 0u16))
        } else {
            None
        }),
        (forall|i: int| 0 <= i < x.len() ==> x[i] != '.') ==> match_simple(seq!['.'] + x, tag, attrs) == (if classes_of(
            attrs,
        ).contains(x) {
            Some((0u16, 1u16, 0u16))
        } else {
            None
        }),
        x.len() > 0 && x[0] != '#' && x[0] != '.' && x != seq!['*'] && (forall|i: int| 0 <= i < x.len() ==> x[i] != '.')
            ==> match_simple(x, tag, attrs) == (if lower_seq(x) == lower_seq(tag) {
            Some((0u16, 0u16, 1u16))
        } else {
            None
        }),
{
    let hx = seq!['#'] + x;
    assert(hx.drop_first() =~= x);
    assert(hx != seq!['*']) by {
        if hx == seq!['*'] {
            assert(hx[0] == '*');
        }
    }
    let dx = seq!['.'] + x;
    assert(dx.drop_first() =~= x);
    assert(dx != seq!['*']) by {
        if dx == seq!['*'] {
            assert(dx[0] == '*');
        }
    }
    if forall|i: int| 0 <= i < x.len() ==> x[i] != '.' {
        assert(!x.contains('.'));
        if x.len() > 0 {
            lemma_no_dot_find(x);
        }
    }
}

proof fn lemma_no_dot_find(x: Seq<char>)
    requires
        forall|i: int| 0 <= i < x.len() ==> x[i] != '.',
    ensures
        find_from(x, '.', 0) == x.len(),
        split_once(x, '.') is None,
{
    lemma_no_dot_from(x, 0);
}

proof fn lemma_no_dot_from(x: Seq<char>, i: int)
    requires
        0 <= i <= x.len(),
        forall|m: int| 0 <= m < x.len() ==> x[m] != '.',
    ensures
        find_from(x, '.', i) == x.len(),
    decreases x.len() - i,
{
    if i < x.len() {
        lemma_no_dot_from(x, i + 1);
    }
}

} // verus!
