//! Tests for element references, selection and traversal.

use scraper::ElementData;
use scraper::ElementRef;
use scraper::Node;
use scraper::Selector;
use scraper::Tree;

fn elem(name: &str) -> Node {
    Node::Element(ElementData { name: name.to_string(), attrs: Vec::new() })
}

fn elem_attrs(name: &str, attrs: &[(&str, &str)]) -> Node {
    let attrs: Vec<(String, String)> =
        attrs.iter().map(|(k, v)| (k.to_string(), v.to_string())).collect();
    Node::Element(ElementData { name: name.to_string(), attrs })
}

fn text(s: &str) -> Node {
    Node::Text(s.to_string())
}

/// The document of the scope test:
/// `<div><b>1</b><span><span><b>2</b></span><b>3</b></span></div>`.
fn scope_tree() -> Tree {
    let mut tree = Tree::new();
    let html = tree.append_child(0, elem("html"));
    let div = tree.append_child(html, elem("div"));
    let b1 = tree.append_child(div, elem("b"));
    tree.append_child(b1, text("1"));
    let span_outer = tree.append_child(div, elem("span"));
    let span_inner = tree.append_child(span_outer, elem("span"));
    let b2 = tree.append_child(span_inner, elem("b"));
    tree.append_child(b2, text("2"));
    let b3 = tree.append_child(span_outer, elem("b"));
    tree.append_child(b3, text("3"));
    tree
}

#[test]
fn test_scope() {
    let tree = scope_tree();
    let root = ElementRef::wrap(&tree, 1).unwrap();
    let sel1 = Selector::parse("div > span").unwrap();
    let sel2 = Selector::parse(":scope > b").unwrap();

    let element1 = root.select(&sel1).next().unwrap();
    let element2 = element1.select(&sel2).next().unwrap();
    assert_eq!(element2.inner_html(), "3");
}

#[test]
fn test_children() {
    // <form><input>1</input></form>
    // <button><span><b>2</b></span><b>3</b></button>
    let mut tree = Tree::new();
    let html = tree.append_child(0, elem("html"));
    let form_id = tree.append_child(html, elem("form"));
    let input_id = tree.append_child(form_id, elem("input"));
    tree.append_child(input_id, text("1"));
    let button_id = tree.append_child(html, elem("button"));
    let span = tree.append_child(button_id, elem("span"));
    let b2 = tree.append_child(span, elem("b"));
    tree.append_child(b2, text("2"));
    let b3 = tree.append_child(button_id, elem("b"));
    tree.append_child(b3, text("3"));

    let root = ElementRef::wrap(&tree, html).unwrap();
    let form = ElementRef::wrap(&tree, form_id).unwrap();
    let input_sel = Selector::parse("input").unwrap();
    let input = root.select(&input_sel).next().unwrap();
    let button_sel = Selector::parse("button").unwrap();
    let button = root.select(&button_sel).next().unwrap();

    assert!(input.is_child_of(&form));
    assert!(!button.is_child_of(&form));
}

#[test]
fn select_yields_strict_descendants_that_match() {
    let tree = scope_tree();
    let root = ElementRef::wrap(&tree, 1).unwrap();
    let sel = Selector::parse("span").unwrap();
    let mut it = root.select(&sel);
    let mut ids: Vec<usize> = Vec::new();
    while let Some(er) = it.next() {
        assert_ne!(er.id, root.id);
        assert!(er.is_child_of(&root));
        assert_eq!(er.value().name(), "span");
        ids.push(er.id);
    }
    assert_eq!(ids, vec![5, 6]);
}

#[test]
fn select_scope_is_never_yielded() {
    let tree = scope_tree();
    let div = ElementRef::wrap(&tree, 2).unwrap();
    let sel = Selector::parse("div").unwrap();
    let mut it = div.select(&sel);
    assert!(it.next().is_none());
}

#[test]
fn clone_mid_traversal_is_independent() {
    // <div><b/><b/><b/></div> with text between the elements, so that
    // positional numbering skips the text nodes.
    let mut tree = Tree::new();
    let html = tree.append_child(0, elem("html"));
    let div = tree.append_child(html, elem("div"));
    tree.append_child(div, text("x"));
    let _b1 = tree.append_child(div, elem("b"));
    tree.append_child(div, text("y"));
    let b2 = tree.append_child(div, elem("b"));
    let _b3 = tree.append_child(div, elem("b"));

    let root = ElementRef::wrap(&tree, html).unwrap();
    let sel = Selector::parse("b:nth-child(2)").unwrap();

    // Advance one copy, then duplicate and drain both: the duplicate must
    // reproduce what a fresh iterator would from that position, with no
    // cached positions leaking over.
    let mut first = root.select(&sel);
    let first_hit = first.next().unwrap();
    assert_eq!(first_hit.id, b2);
    let mut dup = first.clone();
    assert!(first.next().is_none());
    assert!(dup.next().is_none());

    let mut fresh = root.select(&sel);
    assert_eq!(fresh.next().unwrap().id, b2);
    assert!(fresh.next().is_none());
}

#[test]
fn nth_child_counts_element_siblings_only() {
    let mut tree = Tree::new();
    let html = tree.append_child(0, elem("html"));
    let div = tree.append_child(html, elem("div"));
    tree.append_child(div, text("pad"));
    let _a = tree.append_child(div, elem("a"));
    tree.append_child(div, text("pad"));
    let b = tree.append_child(div, elem("b"));

    let root = ElementRef::wrap(&tree, html).unwrap();
    let sel = Selector::parse(":scope > div > *:nth-child(2)").unwrap();
    let mut it = root.select(&sel);
    let hit = it.next().unwrap();
    assert_eq!(hit.id, b);
    assert!(it.next().is_none());
}

#[test]
fn child_and_descendent_elements_skip_text_and_keep_order() {
    // foo<span>bar</span><a>baz</a>qux under the root element.
    let mut tree = Tree::new();
    let html = tree.append_child(0, elem("html"));
    tree.append_child(html, text("foo"));
    let span = tree.append_child(html, elem("span"));
    tree.append_child(span, text("bar"));
    let a = tree.append_child(html, elem("a"));
    let i = tree.append_child(a, elem("i"));
    tree.append_child(i, text("baz"));
    tree.append_child(html, text("qux"));
    tree.append_child(html, Node::Comment("note".to_string()));

    let root = ElementRef::wrap(&tree, html).unwrap();
    let children: Vec<String> =
        root.child_elements().iter().map(|e| e.value().name().to_string()).collect();
    assert_eq!(children, vec!["span".to_string(), "a".to_string()]);

    let descendants: Vec<String> =
        root.descendent_elements().iter().map(|e| e.value().name().to_string()).collect();
    assert_eq!(descendants, vec!["span".to_string(), "a".to_string(), "i".to_string()]);
}

#[test]
fn is_child_of_is_transitive_and_false_for_non_ancestors() {
    let tree = scope_tree();
    let div = ElementRef::wrap(&tree, 2).unwrap();
    let span_outer = ElementRef::wrap(&tree, 5).unwrap();
    let span_inner = ElementRef::wrap(&tree, 6).unwrap();
    let b1 = ElementRef::wrap(&tree, 3).unwrap();

    assert!(span_inner.is_child_of(&span_outer));
    assert!(span_outer.is_child_of(&div));
    assert!(span_inner.is_child_of(&div));

    // Not itself, not a sibling, not an unrelated subtree.
    assert!(!div.is_child_of(&div));
    assert!(!b1.is_child_of(&span_outer));
    assert!(!span_inner.is_child_of(&b1));
    // The relation is directed: an ancestor is not below its descendant.
    assert!(!div.is_child_of(&span_inner));
}

#[test]
fn wrap_rejects_non_elements() {
    let mut tree = Tree::new();
    let html = tree.append_child(0, elem("html"));
    let t = tree.append_child(html, text("plain"));
    let c = tree.append_child(html, Node::Comment("c".to_string()));
    assert!(ElementRef::wrap(&tree, html).is_some());
    assert!(ElementRef::wrap(&tree, t).is_none());
    assert!(ElementRef::wrap(&tree, c).is_none());
    assert!(ElementRef::wrap(&tree, 0).is_none());
}

#[test]
fn html_and_inner_html_serialize_the_subtree() {
    let mut tree = Tree::new();
    let html = tree.append_child(0, elem("html"));
    let p = tree.append_child(html, elem_attrs("p", &[("class", "x"), ("id", "y")]));
    tree.append_child(p, text("hi"));
    let em = tree.append_child(p, elem("em"));
    tree.append_child(em, text("there"));
    tree.append_child(p, Node::Comment("note".to_string()));

    let pref = ElementRef::wrap(&tree, p).unwrap();
    assert_eq!(pref.html(), "<p class=\"x\" id=\"y\">hi<em>there</em><!--note--></p>");
    assert_eq!(pref.inner_html(), "hi<em>there</em><!--note-->");
}

#[test]
fn attr_is_exact_match_only() {
    let mut tree = Tree::new();
    let html = tree.append_child(0, elem("html"));
    let p = tree.append_child(html, elem_attrs("p", &[("Class", "up"), ("class", "down")]));
    let pref = ElementRef::wrap(&tree, p).unwrap();
    assert_eq!(pref.attr("Class"), Some("up".to_string()));
    assert_eq!(pref.attr("class"), Some("down".to_string()));
    assert_eq!(pref.attr("missing"), None);
}

#[test]
fn text_iterator_yields_document_order() {
    let tree = scope_tree();
    let div = ElementRef::wrap(&tree, 2).unwrap();
    let mut it = div.text();
    let mut texts: Vec<String> = Vec::new();
    while let Some(s) = it.next() {
        texts.push(s);
    }
    assert_eq!(texts, vec!["1".to_string(), "2".to_string(), "3".to_string()]);
}

#[test]
fn selector_parse_rejects_bad_text() {
    assert!(Selector::parse("").is_err());
    assert!(Selector::parse("   ").is_err());
    assert!(Selector::parse("div >").is_err());
    assert!(Selector::parse("div,").is_err());
    assert!(Selector::parse(":nth-child()").is_err());
    assert!(Selector::parse(":unknown").is_err());
    assert!(Selector::parse("div > span").is_ok());
    assert!(Selector::parse("a, b, c").is_ok());
    assert!(Selector::parse("*:nth-child(3)").is_ok());
}
