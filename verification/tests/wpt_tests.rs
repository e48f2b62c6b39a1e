use wavecore::dom::{Node, NodeType};
use wavecore::entities::decode_entities;
use wavecore::html::{parse, parse_with_mode, DocumentMode};
use wavecore::text::grapheme_count;

#[test]
fn wpt_doctype_sniffing_and_standards_mode() {
    let (std_doc, std_mode) = parse_with_mode("<!DOCTYPE html><html><body>Test</body></html>");
    assert_eq!(std_mode, DocumentMode::Standards);
    assert_eq!(std_doc.children.len(), 1);

    let (quirk_doc, quirk_mode) = parse_with_mode("<html><body>No doctype here</body></html>");
    assert_eq!(quirk_mode, DocumentMode::Quirks);
    assert_eq!(quirk_doc.children.len(), 1);
}

#[test]
fn wpt_html_entities_extended_coverage() {
    let html = "<p>&euro; 50 &times; 2 &plusmn; 5 &hellip; &copy; 2026 &deg;C</p>";
    let (dom, _) = parse_with_mode(html);
    let text_node = &dom.children[0].children[0];
    assert_eq!(text_node.inner_text(), "€ 50 × 2 ± 5 … © 2026 °C");
}

#[test]
fn thai_and_emoji_clusters() {
    assert!(grapheme_count("สวัสดี 👨‍👩‍👧‍👦") < "สวัสดี 👨‍👩‍👧‍👦".chars().count());
}

#[test]
fn grapheme_counts() {
    assert_eq!(grapheme_count(""), 0);
    assert_eq!(grapheme_count("abc"), 3);
    assert_eq!(grapheme_count("a\r\nb"), 3);
    assert_eq!(grapheme_count("e\u{301}"), 1);
}

#[test]
fn doctype_variants() {
    let (doc, mode) = parse_with_mode("  <!doctype HTML >\n<p>x</p>");
    assert_eq!(mode, DocumentMode::Standards);
    assert_eq!(doc.children.len(), 2);
    let (_, mode) = parse_with_mode("<!DOCTYPE svg><svg></svg>");
    assert_eq!(mode, DocumentMode::Quirks);
    let (doc, mode) = parse_with_mode("<!DOCTYPE html");
    assert_eq!(mode, DocumentMode::Standards);
    assert!(doc.children.is_empty());
}

#[test]
fn character_references() {
    assert_eq!(decode_entities("a &amp; b &lt;c&gt; &quot;q&quot; &apos;"), "a & b <c> \"q\" '");
    assert_eq!(decode_entities("&#65;&#x42;&#X63;"), "ABc");
    assert_eq!(decode_entities("&#0; &#xD800; &#1114112; &#99999999999999999999;"), "\u{fffd} \u{fffd} \u{fffd} \u{fffd}");
    assert_eq!(decode_entities("&unknown; &amp &#; &#x; &#12a;"), "&unknown; &amp &#; &#x; &#12a;");
    assert_eq!(decode_entities("&&amp;"), "&&");
    assert_eq!(decode_entities("no refs"), "no refs");
}

#[test]
fn inner_text_and_set_inner_text() {
    let mut n = Node::element("div", vec![Node::text("a"), Node::element("b", vec![Node::text("c")]), Node::text("d")]);
    assert_eq!(n.inner_text(), "acd");
    n.set_inner_text("new");
    assert_eq!(n.children.len(), 1);
    assert_eq!(n.inner_text(), "new");
    let NodeType::Element(e) = &n.node_type else { panic!() };
    assert_eq!(e.tag_name, "div");
    let mut t = Node::text("old");
    t.set_inner_text("fresh");
    assert_eq!(t.node_type, NodeType::Text("fresh".to_string()));
    assert_eq!(Node::document(vec![]).inner_text(), "");
}

#[test]
fn entities_are_decoded_in_nested_text_only() {
    let (doc, _) = parse_with_mode("<a title=\"&amp;\">x &lt; y<b>&gt;</b></a>");
    let NodeType::Element(a) = &doc.children[0].node_type else { panic!() };
    assert_eq!(a.get_attribute("title").map(String::as_str), Some("&amp;"));
    assert_eq!(doc.inner_text(), "x < y>");
}

#[test]
fn texts_of_script_elements_in_document_order() {
    let dom = parse("<div><script>let a = 1;</script><p>x</p><section><script>b();</script></section></div><script></script>");
    assert_eq!(dom.texts_of("script"), vec!["let a = 1;".to_string(), "b();".to_string(), String::new()]);
    assert_eq!(dom.texts_of("p"), vec!["x".to_string()]);
    assert!(dom.texts_of("table").is_empty());
}
