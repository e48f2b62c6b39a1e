use wavecore::css::parse as parse_css;
use wavecore::dom::{Node, NodeType};
use wavecore::html::parse as parse_html;
use wavecore::strmap::StrMap;
use wavecore::style::style_tree;

#[test]
fn parses_rule() {
    let css = parse_css("h1 { color: red; margin: 8px; }");
    assert_eq!(css.rules[0].declarations.get("color").map(String::as_str), Some("red"));
}

#[test]
fn parses_nested_elements() {
    let dom = parse_html("<main><h1>WaveCore</h1><p>Hello</p></main>");
    assert_eq!(dom.children.len(), 1);
    let NodeType::Element(main) = &dom.children[0].node_type else { panic!() };
    assert_eq!(main.tag_name, "main");
    assert_eq!(dom.children[0].children.len(), 2);
}

#[test]
fn id_beats_class_and_tag() {
    let d = parse_html("<p id=\"x\" class=\"note\">x</p>");
    let s = style_tree(&d, &parse_css("p{color:black}.note{color:blue}#x{color:red}"));
    assert_eq!(s.children[0].properties.get("color").map(String::as_str), Some("red"));
}

#[test]
fn inline_style_beats_id_rule() {
    let d = parse_html("<p id=\"x\" style=\"color: gold; font-size: 20px;\">x</p>");
    let s = style_tree(&d, &parse_css("#x{color: red; margin: 10px;}"));
    assert_eq!(s.children[0].properties.get("color").map(String::as_str), Some("gold"));
    assert_eq!(s.children[0].properties.get("margin").map(String::as_str), Some("10px"));
}

#[test]
fn comma_and_tag_class_selectors() {
    let d = parse_html("<h1 class=\"title\">Header</h1>");
    let s = style_tree(&d, &parse_css("h1.title, h2.title { color: purple; }"));
    assert_eq!(s.children[0].properties.get("color").map(String::as_str), Some("purple"));
}

#[test]
fn css_later_declaration_of_a_property_wins() {
    let css = parse_css("p { color: red; color: blue }");
    assert_eq!(css.rules.len(), 1);
    assert_eq!(css.rules[0].selector, "p");
    assert_eq!(css.rules[0].declarations.get("color").map(String::as_str), Some("blue"));
    assert_eq!(css.rules[0].declarations.len(), 1);
}

#[test]
fn css_several_rules_keep_their_order() {
    let css = parse_css("a{x:1} b { y : 2 ; z:3}");
    assert_eq!(css.rules.len(), 2);
    assert_eq!(css.rules[0].selector, "a");
    assert_eq!(css.rules[1].selector, "b");
    assert_eq!(css.rules[1].declarations.get("y").map(String::as_str), Some("2"));
    assert_eq!(css.rules[1].declarations.get("z").map(String::as_str), Some("3"));
}

#[test]
fn css_empty_input_has_no_rules() {
    assert!(parse_css("").rules.is_empty());
}

#[test]
fn html_text_and_attributes() {
    let dom = parse_html("<a href=\"/x\" title='t'>link</a>tail");
    assert_eq!(dom.children.len(), 2);
    let NodeType::Element(a) = &dom.children[0].node_type else { panic!() };
    assert_eq!(a.tag_name, "a");
    assert_eq!(a.attributes.get("href").map(String::as_str), Some("/x"));
    assert_eq!(a.attributes.get("title").map(String::as_str), Some("t"));
    let NodeType::Text(t) = &dom.children[0].children[0].node_type else { panic!() };
    assert_eq!(t, "link");
    let NodeType::Text(tail) = &dom.children[1].node_type else { panic!() };
    assert_eq!(tail, "tail");
}

#[test]
fn html_root_is_a_document() {
    let dom = parse_html("");
    assert!(matches!(dom.node_type, NodeType::Document));
    assert!(dom.children.is_empty());
}

#[test]
fn dom_constructors_and_classes() {
    let mut attrs = StrMap::new();
    attrs.insert("class".to_string(), "a b".to_string());
    attrs.insert("id".to_string(), "main".to_string());
    let n = Node::element_with_attributes("div", attrs, vec![Node::text("hi")]);
    let NodeType::Element(e) = &n.node_type else { panic!() };
    assert_eq!(e.id().map(String::as_str), Some("main"));
    assert!(e.has_class(&"b".chars().collect()));
    assert!(!e.has_class(&"c".chars().collect()));
    let copy = n.deep_clone();
    assert_eq!(copy, n);
    let doc = Node::document(vec![Node::element("p", vec![])]);
    assert_eq!(doc.children.len(), 1);
}

#[test]
fn style_tree_keeps_the_shape_of_the_document() {
    let d = parse_html("<div><p>a</p><p>b</p></div>");
    let s = style_tree(&d, &parse_css("p { color: green }"));
    assert_eq!(s.children.len(), 1);
    assert_eq!(s.children[0].children.len(), 2);
    assert!(s.children[0].properties.get("color").is_none());
    assert_eq!(s.children[0].children[1].properties.get("color").map(String::as_str), Some("green"));
}

#[test]
fn strmap_insert_get_remove() {
    let mut m = StrMap::new();
    m.insert("k".to_string(), "1".to_string());
    m.insert("k".to_string(), "2".to_string());
    assert_eq!(m.len(), 1);
    assert_eq!(m.get("k").map(String::as_str), Some("2"));
    m.remove("k");
    assert!(!m.contains_key("k"));
    assert_eq!(m.len(), 0);
}

#[test]
fn resilience_malformed_html_no_panics() {
    let test_cases = [
        "<html><head><title>Unclosed",
        "<p>Paragraph 1 <div>Nested block inside inline <p>Another paragraph",
        "<b><i>Bold and italic</b></i> Mismatched tags",
        "<a href=\"https://example.com' Broken quotes>Link</a>",
        "<img src=unquoted_attr alt=test/>",
        "<div <span class=\"broken\">Bad tag nesting</div>",
        "<!DOCTYPE html><<<<>>>>><><><><",
        "<script>let x = '<p>not a tag</p>';</script><p>After script</p>",
        "&&&&&nbsp;&&amp;&&&bull; Random raw entities",
        "<style>body { color: red; /* unclosed comment </style><p>Still parsed</p>",
    ];

    for case in test_cases {
        let dom = parse_html(case);
        assert!(!dom.children.is_empty() || dom.inner_text().is_empty());
        let stylesheet = parse_css("body { margin: 0; }");
        let _styled = style_tree(&dom, &stylesheet);
    }
}

#[test]
fn resilience_broken_css_no_panics() {
    let broken_stylesheets = [
        "body { color: ; margin: 10px",
        "div { unclosed-bracket: 10px;",
        "@media screen { body { color: red; } /* unclosed media */",
        "} random tokens { background: #12345; }",
        "p { padding: -100px; font-size: invalid_unit; }",
        "::::invalid-selector:::: { width: 100px; }",
        "/* comment only without any rules */",
        "div { color: #GGGGGG; width: NaNpx; }",
    ];

    let dom = parse_html("<div><p>Hello Resilience</p></div>");
    for css in broken_stylesheets {
        let sheet = parse_css(css);
        let _styled = style_tree(&dom, &sheet);
    }
}

fn collect_tags(n: &Node, out: &mut Vec<String>) {
    if let NodeType::Element(e) = &n.node_type {
        out.push(e.tag_name.clone());
    }
    for c in &n.children {
        collect_tags(c, out);
    }
}

#[test]
fn document_text_is_the_input_without_markup() {
    let input = "a<B CLASS='x'>b<i>c</I>d</b>e<>f</x>g<!-- h -->i<unclosed";
    let doc = parse_html(input);
    assert_eq!(doc.inner_text(), "abcdefgi");
    let mut tags = Vec::new();
    collect_tags(&doc, &mut tags);
    assert_eq!(tags, vec!["b".to_string(), "i".to_string(), "!--".to_string(), "unclosed".to_string()]);
    for t in tags {
        assert!(!t.is_empty() && t == t.to_ascii_lowercase() && !t.contains(char::is_whitespace) && !t.contains('>'));
    }
}

#[test]
fn css_rules_come_out_trimmed_and_lower_cased() {
    let css = parse_css("  H1 .X  {  COLOR :  Red ;  ;  :x; y: ; Margin-Top:1px }  p{}  { a: b }");
    assert_eq!(css.rules.len(), 2);
    assert_eq!(css.rules[0].selector, "H1 .X");
    assert_eq!(css.rules[0].declarations.get("color").map(String::as_str), Some("Red"));
    assert_eq!(css.rules[0].declarations.get("margin-top").map(String::as_str), Some("1px"));
    assert_eq!(css.rules[0].declarations.len(), 2);
    assert_eq!(css.rules[1].selector, "p");
    assert_eq!(css.rules[1].declarations.len(), 0);
}
