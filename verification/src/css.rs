//! Style sheets: a list of rules, each a selector with its declarations.
use vstd::prelude::*;
use crate::strmap::StrMap;
use crate::text::{
    chars_of, find_char, lemma_lower_seq_trimmed, lemma_split_on_len, lemma_trim_trimmed, lower_range, lower_seq, split_char,
    split_on, split_once, string_of, string_of_all, trim, trim_bounds, trimmed,
};

verus! {

/// One declaration `name: value`: both trimmed, both non-empty, the name lower-cased.
pub open spec fn decl_of(d: Seq<char>) -> Option<(Seq<char>, Seq<char>)> {
    match split_once(d, ':') {
        Some((n, v)) => {
            let n = trim(n);
            let v = trim(v);
            if n.len() > 0 && v.len() > 0 {
                Some((lower_seq(n), v))
            } else {
                None
            }
        },
        None => None,
    }
}

/// The declarations of a list of pieces, a later one winning over an earlier one.
pub open spec fn decls_map(ds: Seq<Seq<char>>) -> Map<Seq<char>, Seq<char>>
    decreases ds.len(),
{
    if ds.len() == 0 {
        Map::empty()
    } else {
        let m = decls_map(ds.drop_last());
        match decl_of(ds.last()) {
            Some((n, v)) => m.insert(n, v),
            None => m,
        }
    }
}

/// The declarations of a block `a: b; c: d`.
pub open spec fn parse_decls(body: Seq<char>) -> Map<Seq<char>, Seq<char>> {
    decls_map(split_on(body, ';'))
}

pub struct RuleView {
    pub selector: Seq<char>,
    pub declarations: Map<Seq<char>, Seq<char>>,
}

/// The rule written in one `}`-terminated chunk: the trimmed text before the
/// first `{` is the selector, what follows holds the declarations.
pub open spec fn rule_of(chunk: Seq<char>) -> Option<RuleView> {
    match split_once(chunk, '{') {
        Some((sel, body)) => {
            let s = trim(sel);
            if s.len() == 0 {
                None
            } else {
                Some(RuleView { selector: s, declarations: parse_decls(body) })
            }
        },
        None => None,
    }
}

pub open spec fn rules_of(chunks: Seq<Seq<char>>) -> Seq<RuleView>
    decreases chunks.len(),
{
    if chunks.len() == 0 {
        Seq::empty()
    } else {
        let r = rules_of(chunks.drop_last());
        match rule_of(chunks.last()) {
            Some(rule) => r.push(rule),
            None => r,
        }
    }
}

/// The rules of a style sheet's text.
pub open spec fn parse_sheet(input: Seq<char>) -> Seq<RuleView> {
    rules_of(split_on(input, '}'))
}

#[derive(Debug, Clone, PartialEq)]
pub struct Stylesheet {
    pub rules: Vec<Rule>,
}

#[derive(Debug, Clone, PartialEq)]
pub struct Rule {
    pub selector: String,
    pub declarations: StrMap,
}

pub open spec fn rule_view(r: Rule) -> RuleView {
    RuleView { selector: r.selector@, declarations: r.declarations@ }
}

impl View for Stylesheet {
    type V = Seq<RuleView>;

    open spec fn view(&self) -> Seq<RuleView> {
        self.rules@.map_values(|r: Rule| rule_view(r))
    }
}

/// The declarations written in `v[from..to]`.
pub fn parse_declarations(v: &Vec<char>, from: usize, to: usize) -> (m: StrMap)
    requires
        from <= to <= v.len(),
    ensures
        m@ == parse_decls(v@.subrange(from as int, to as int)),
{
    let pieces = split_char(v, from, to, ';');
    let ghost ps = pieces@.map_values(|p: Vec<char>| p@);
    let mut m = StrMap::new();
    let mut i: usize = 0;
    while i < pieces.len()
        invariant
            ps == pieces@.map_values(|p: Vec<char>| p@),
            ps == split_on(v@.subrange(from as int, to as int), ';'),
            i <= pieces.len(),
            m@ == decls_map(ps.take(i as int)),
        decreases pieces.len() - i,
    {
        let p = &pieces[i];
        let ghost d = p@;
        assert(ps.take(i + 1).drop_last() == ps.take(i as int));
        assert(ps.take(i + 1).last() == d);
        let k = find_char(p, ':', 0);
        if k < p.len() {
            let (a, b) = trim_bounds(p, 0, k);
            let (c, e) = trim_bounds(p, k + 1, p.len());
            if b > a && e > c {
                let name = lower_range(p, a, b);
                let name_s = string_of_all(&name);
                let val_s = string_of(p, c, e);
                m.insert(name_s, val_s);
            }
        }
        i = i + 1;
    }
    assert(ps.take(pieces.len() as int) == ps);
    m
}

/// Parses a style sheet: each `}`-terminated chunk with a `{` and a non-empty
/// selector becomes a rule.
pub fn parse(input: &str) -> (sheet: Stylesheet)
    ensures
        sheet@ == parse_sheet(input@),
{
    let v = chars_of(input);
    let chunks = split_char(&v, 0, v.len(), '}');
    assert(v@.subrange(0, v@.len() as int) == v@);
    let ghost cs = chunks@.map_values(|p: Vec<char>| p@);
    let mut rules: Vec<Rule> = Vec::new();
    let mut i: usize = 0;
    while i < chunks.len()
        invariant
            cs == chunks@.map_values(|p: Vec<char>| p@),
            cs == split_on(v@, '}'),
            i <= chunks.len(),
            rules@.map_values(|r: Rule| rule_view(r)) == rules_of(cs.take(i as int)),
        decreases chunks.len() - i,
    {
        let c = &chunks[i];
        assert(cs.take(i + 1).drop_last() == cs.take(i as int));
        assert(cs.take(i + 1).last() == c@);
        let k = find_char(c, '{', 0);
        if k < c.len() {
            let (a, b) = trim_bounds(c, 0, k);
            if b > a {
                let selector = string_of(c, a, b);
                let declarations = parse_declarations(c, k + 1, c.len());
                let ghost before = rules@.map_values(|r: Rule| rule_view(r));
                rules.push(Rule { selector, declarations });
                assert(rules@.map_values(|r: Rule| rule_view(r)) =~= before.push(rule_of(c@).unwrap()));
            }
        }
        i = i + 1;
    }
    assert(cs.take(chunks.len() as int) == cs);
    Stylesheet { rules }
}


/// A declaration as parsing leaves it: name and value non-empty and without
/// whitespace at either end, the name lower-case.
pub open spec fn decl_ok(k: Seq<char>, v: Seq<char>) -> bool {
    &&& k.len() > 0
    &&& trimmed(k)
    &&& lower_seq(k) == k
    &&& v.len() > 0
    &&& trimmed(v)
}

/// A rule as parsing leaves it: a non-empty selector without whitespace at
/// either end, and declarations as `decl_ok` says.
pub open spec fn rule_ok(r: RuleView) -> bool {
    &&& r.selector.len() > 0
    &&& trimmed(r.selector)
    &&& forall|k: Seq<char>| #[trigger] r.declarations.dom().contains(k) ==> decl_ok(k, r.declarations[k])
}

proof fn lemma_decls_ok(ds: Seq<Seq<char>>)
    ensures
        forall|k: Seq<char>| #[trigger] decls_map(ds).dom().contains(k) ==> decl_ok(k, decls_map(ds)[k]),
    decreases ds.len(),
{
    if ds.len() > 0 {
        let m = decls_map(ds.drop_last());
        lemma_decls_ok(ds.drop_last());
        if let Some((n0, v0)) = split_once(ds.last(), ':') {
            lemma_trim_trimmed(n0);
            lemma_trim_trimmed(v0);
            lemma_lower_seq_trimmed(trim(n0));
            if let Some((n, v)) = decl_of(ds.last()) {
                assert(n == lower_seq(trim(n0)) && v == trim(v0));
                assert(decl_ok(n, v));
                assert(decls_map(ds) == m.insert(n, v));
                assert forall|k: Seq<char>| #[trigger] decls_map(ds).dom().contains(k) implies decl_ok(k, decls_map(ds)[k]) by {
                    if k != n {
                        assert(m.dom().contains(k));
                    }
                }
            }
        }
    }
}

proof fn lemma_rules_ok(cs: Seq<Seq<char>>)
    ensures
        forall|i: int| 0 <= i < rules_of(cs).len() ==> rule_ok(#[trigger] rules_of(cs)[i]),
    decreases cs.len(),
{
    if cs.len() > 0 {
        let r = rules_of(cs.drop_last());
        lemma_rules_ok(cs.drop_last());
        if let Some((sel, body)) = split_once(cs.last(), '{') {
            lemma_trim_trimmed(sel);
            lemma_decls_ok(split_on(body, ';'));
            if let Some(rule) = rule_of(cs.last()) {
                assert(rule_ok(rule));
                assert(rules_of(cs) == r.push(rule));
                assert forall|i: int| 0 <= i < rules_of(cs).len() implies rule_ok(#[trigger] rules_of(cs)[i]) by {
                    if i < r.len() {
                        assert(rules_of(cs)[i] == r[i]);
                    }
                }
            }
        }
    }
}

/// What parsing a style sheet guarantees of every rule: its selector is
/// non-empty and has no whitespace at either end; each declaration's name is
/// non-empty, lower-case and has no whitespace at either end, and so has its
/// non-empty value.
pub proof fn law_parsed_rules_are_clean(input: Seq<char>)
    ensures
        forall|i: int| 0 <= i < parse_sheet(input).len() ==> rule_ok(#[trigger] parse_sheet(input)[i]),
{
    lemma_rules_ok(split_on(input, '}'));
}

proof fn lemma_split_concat(a: Seq<char>, b: Seq<char>, c: char)
    ensures
        split_on(a + seq![c] + b, c) == split_on(a, c) + split_on(b, c),
    decreases b.len(),
{
    let s = a + seq![c] + b;
    if b.len() == 0 {
        assert(s == (a + seq![c]));
        assert((a + seq![c]).drop_last() =~= a);
        assert(split_on(a, c) + split_on(b, c) =~= split_on(a, c).push(Seq::<char>::empty()));
    } else {
        let b1 = b.drop_last();
        lemma_split_concat(a, b1, c);
        assert(s.drop_last() =~= a + seq![c] + b1);
        assert(s.last() == b.last());
        let x = split_on(a, c);
        let y = split_on(b1, c);
        lemma_split_on_len(b1, c);
        if b.last() == c {
            assert(split_on(s, c) =~= (x + y).push(Seq::<char>::empty()));
            assert(split_on(b, c) =~= y.push(Seq::<char>::empty()));
            assert((x + y).push(Seq::<char>::empty()) =~= x + y.push(Seq::<char>::empty()));
        } else {
            let xy = x + y;
            assert(xy.last() == y.last());
            assert(xy.update(xy.len() - 1, xy.last().push(b.last())) =~= x + y.update(y.len() - 1, y.last().push(b.last())));
        }
    }
}

proof fn lemma_rules_concat(c1: Seq<Seq<char>>, c2: Seq<Seq<char>>)
    ensures
        rules_of(c1 + c2) == rules_of(c1) + rules_of(c2),
    decreases c2.len(),
{
    if c2.len() == 0 {
        assert(c1 + c2 =~= c1);
        assert(rules_of(c1) + rules_of(c2) =~= rules_of(c1));
    } else {
        lemma_rules_concat(c1, c2.drop_last());
        assert((c1 + c2).drop_last() =~= c1 + c2.drop_last());
        assert((c1 + c2).last() == c2.last());
        let r1 = rules_of(c1);
        let r2 = rules_of(c2.drop_last());
        match rule_of(c2.last()) {
            Some(rule) => {
                assert((r1 + r2).push(rule) =~= r1 + r2.push(rule));
            },
            None => {},
        }
    }
}

/// Rules keep source order: the rules of a sheet are the rules of the text
/// before any `}` followed by the rules of the text after it.
pub proof fn law_rules_in_source_order(a: Seq<char>, b: Seq<char>)
    ensures
        parse_sheet(a + seq!['}'] + b) == parse_sheet(a) + parse_sheet(b),
{
    lemma_split_concat(a, b, '}');
    lemma_rules_concat(split_on(a, '}'), split_on(b, '}'));
}

proof fn lemma_split_none(d: Seq<char>, c: char)
    requires
        forall|i: int| 0 <= i < d.len() ==> d[i] != c,
    ensures
        split_on(d, c) == seq![d],
    decreases d.len(),
{
    if d.len() == 0 {
        assert(d =~= Seq::<char>::empty());
    } else {
        assert forall|i: int| 0 <= i < d.drop_last().len() implies d.drop_last()[i] != c by {
            assert(d.drop_last()[i] == d[i]);
        }
        lemma_split_none(d.drop_last(), c);
        assert(d.drop_last().push(d.last()) =~= d);
        assert(d[d.len() - 1] != c);
        assert(seq![d.drop_last()].update(0, d.drop_last().push(d.last())) =~= seq![d]);
    }
}

/// In one block, a later declaration of a name replaces an earlier one: after
/// any text and a `;`, a last piece `name: value` gives the name that value.
pub proof fn law_later_declaration_wins(a: Seq<char>, d: Seq<char>)
    requires
        forall|i: int| 0 <= i < d.len() ==> d[i] != ';',
    ensures
        decl_of(d) matches Some((n, v)) ==> parse_decls(a + seq![';'] + d).dom().contains(n) && parse_decls(
            a + seq![';'] + d,
        )[n] == v,
{
    lemma_split_concat(a, d, ';');
    lemma_split_none(d, ';');
    let ps = split_on(a, ';') + seq![d];
    assert(ps.drop_last() =~= split_on(a, ';'));
    assert(ps.last() == d);
}

} // verus!
