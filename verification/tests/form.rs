//! Tests for form membership and value extraction.

use scraper::form::belongs_to_form;
use scraper::form::get_value;
use scraper::ElementData;
use scraper::ElementRef;
use scraper::Form;
use scraper::Node;
use scraper::Selector;
use scraper::Tree;

fn elem(name: &str) -> Node {
    Node::Element(ElementData { name: name.to_string(), attrs: Vec::new() })
}

fn elem_attrs(name: &str, attrs: &[(&str, &str)]) -> Node {
    let attrs: Vec<(String, String)> =
        attrs.iter().map(|(k, v)| (k.to_string(), v.to_string())).collect();
    Node::Element(ElementData { name: name.to_string(), attrs })
}

fn text(s: &str) -> Node {
    Node::Text(s.to_string())
}

/// Wraps a single element built from `node` under a fresh document root.
fn single(node: Node) -> Tree {
    let mut tree = Tree::new();
    let html = tree.append_child(0, elem("html"));
    tree.append_child(html, node);
    tree
}

#[test]
fn abc() {
    // <form></form><input>1</input><button><span><b>2</b></span><b>3</b></button>
    let mut tree = Tree::new();
    let html = tree.append_child(0, elem("html"));
    let form_id = tree.append_child(html, elem("form"));
    let input_id = tree.append_child(html, elem("input"));
    tree.append_child(input_id, text("1"));
    let button_id = tree.append_child(html, elem("button"));
    let span = tree.append_child(button_id, elem("span"));
    let b2 = tree.append_child(span, elem("b"));
    tree.append_child(b2, text("2"));
    let b3 = tree.append_child(button_id, elem("b"));
    tree.append_child(b3, text("3"));

    let root = ElementRef::wrap(&tree, html).unwrap();
    let form_sel = Selector::parse("form").unwrap();
    let mut forms: Vec<Form> = Vec::new();
    let mut it = root.select(&form_sel);
    while let Some(fe) = it.next() {
        forms.push(Form::wrap(root, fe));
    }

    let i = forms.len();
    assert_eq!(i, 1, "expected to see one form");

    let form = forms.get(0).unwrap();
    assert_eq!(form.element().id, form_id);
    for input in form.inputs() {
        println!("{:?}", input);
    }
    // Nothing is inside the form and nothing is tied to it by attribute.
    assert_eq!(form.inputs().len(), 0);
}

#[test]
fn test_belongs_to_form() {
    // <form id="a"><input>1</input></form>
    // <button><span><b>2</b></span><b>3</b></button>
    // <select name="abc" form="a"><option value="def">DEF</option></select>
    let mut tree = Tree::new();
    let html = tree.append_child(0, elem("html"));
    let form_id = tree.append_child(html, elem_attrs("form", &[("id", "a")]));
    let input_id = tree.append_child(form_id, elem("input"));
    tree.append_child(input_id, text("1"));
    let button_id = tree.append_child(html, elem("button"));
    let span = tree.append_child(button_id, elem("span"));
    let b2 = tree.append_child(span, elem("b"));
    tree.append_child(b2, text("2"));
    let b3 = tree.append_child(button_id, elem("b"));
    tree.append_child(b3, text("3"));
    let select_id =
        tree.append_child(html, elem_attrs("select", &[("name", "abc"), ("form", "a")]));
    let option = tree.append_child(select_id, elem_attrs("option", &[("value", "def")]));
    tree.append_child(option, text("DEF"));

    let root = ElementRef::wrap(&tree, html).unwrap();
    let form_el = ElementRef::wrap(&tree, form_id).unwrap();
    let form = Form::wrap(root, form_el);

    let input_sel = Selector::parse("input").unwrap();
    let input = root.select(&input_sel).next().unwrap();
    let button_sel = Selector::parse("button").unwrap();
    let button = root.select(&button_sel).next().unwrap();
    let select_sel = Selector::parse("select").unwrap();
    let select = root.select(&select_sel).next().unwrap();

    assert!(input.is_child_of(&form.element()));
    assert!(!button.is_child_of(&form.element()));
    assert!(belongs_to_form(&select, &form.element()));

    let form_inputs = form.inputs();

    assert!(form_inputs.iter().any(|e| e.id == input.id));
    assert!(form_inputs.iter().any(|e| e.id == select.id));
    // The unrelated button is not a member.
    assert!(!form_inputs.iter().any(|e| e.id == button.id));
}

#[test]
fn belongs_needs_both_attributes() {
    let mut tree = Tree::new();
    let html = tree.append_child(0, elem("html"));
    let form_plain = tree.append_child(html, elem("form"));
    let form_with_id = tree.append_child(html, elem_attrs("form", &[("id", "a")]));
    let sel_with_attr = tree.append_child(html, elem_attrs("select", &[("form", "a")]));
    let sel_plain = tree.append_child(html, elem("select"));
    let sel_wrong = tree.append_child(html, elem_attrs("select", &[("form", "b")]));

    let f0 = ElementRef::wrap(&tree, form_plain).unwrap();
    let f1 = ElementRef::wrap(&tree, form_with_id).unwrap();
    let s0 = ElementRef::wrap(&tree, sel_with_attr).unwrap();
    let s1 = ElementRef::wrap(&tree, sel_plain).unwrap();
    let s2 = ElementRef::wrap(&tree, sel_wrong).unwrap();

    assert!(belongs_to_form(&s0, &f1));
    assert!(!belongs_to_form(&s0, &f0));
    assert!(!belongs_to_form(&s1, &f1));
    assert!(!belongs_to_form(&s2, &f1));
}

#[test]
fn checkbox_mirrors_checked_attribute() {
    let tree = single(elem_attrs("input", &[("type", "checkbox"), ("checked", "")]));
    let el = ElementRef::wrap(&tree, 2).unwrap();
    assert_eq!(get_value(&el), Some("".to_string()));

    let tree2 = single(elem_attrs("input", &[("type", "checkbox")]));
    let el2 = ElementRef::wrap(&tree2, 2).unwrap();
    assert_eq!(get_value(&el2), None);

    let tree3 = single(elem_attrs("input", &[("type", "radio"), ("checked", "checked")]));
    let el3 = ElementRef::wrap(&tree3, 2).unwrap();
    assert_eq!(get_value(&el3), Some("checked".to_string()));
}

#[test]
fn number_input_yields_value_attribute() {
    let tree = single(elem_attrs("input", &[("type", "number"), ("value", "5")]));
    let el = ElementRef::wrap(&tree, 2).unwrap();
    assert_eq!(get_value(&el), Some("5".to_string()));
}

#[test]
fn submit_input_yields_no_value() {
    let tree = single(elem_attrs("input", &[("type", "submit")]));
    let el = ElementRef::wrap(&tree, 2).unwrap();
    assert_eq!(get_value(&el), None);

    // An input without a type has no value either.
    let tree2 = single(elem_attrs("input", &[("value", "5")]));
    let el2 = ElementRef::wrap(&tree2, 2).unwrap();
    assert_eq!(get_value(&el2), None);

    // The empty-string type counts as textual.
    let tree3 = single(elem_attrs("input", &[("type", ""), ("value", "5")]));
    let el3 = ElementRef::wrap(&tree3, 2).unwrap();
    assert_eq!(get_value(&el3), Some("5".to_string()));
}

#[test]
fn textarea_yields_inner_markup() {
    let mut tree = Tree::new();
    let html = tree.append_child(0, elem("html"));
    let ta = tree.append_child(html, elem("textarea"));
    tree.append_child(ta, text("abc"));
    let el = ElementRef::wrap(&tree, ta).unwrap();
    assert_eq!(get_value(&el), Some("abc".to_string()));
}

#[test]
fn select_yields_selected_option_value() {
    // <select><option value="x"></option><option value="y" selected></option></select>
    let mut tree = Tree::new();
    let html = tree.append_child(0, elem("html"));
    let sel = tree.append_child(html, elem("select"));
    tree.append_child(sel, elem_attrs("option", &[("value", "x")]));
    tree.append_child(sel, elem_attrs("option", &[("value", "y"), ("selected", "")]));
    let el = ElementRef::wrap(&tree, sel).unwrap();
    assert_eq!(get_value(&el), Some("y".to_string()));

    // No selected child: no value.
    let mut tree2 = Tree::new();
    let html2 = tree2.append_child(0, elem("html"));
    let sel2 = tree2.append_child(html2, elem("select"));
    tree2.append_child(sel2, elem_attrs("option", &[("value", "x")]));
    let el2 = ElementRef::wrap(&tree2, sel2).unwrap();
    assert_eq!(get_value(&el2), None);

    // A selected child without a value attribute settles the scan: no value.
    let mut tree3 = Tree::new();
    let html3 = tree3.append_child(0, elem("html"));
    let sel3 = tree3.append_child(html3, elem("select"));
    tree3.append_child(sel3, elem_attrs("option", &[("selected", "")]));
    tree3.append_child(sel3, elem_attrs("option", &[("value", "z"), ("selected", "")]));
    let el3 = ElementRef::wrap(&tree3, sel3).unwrap();
    assert_eq!(get_value(&el3), None);
}

#[test]
fn datalist_behaves_like_select() {
    let mut tree = Tree::new();
    let html = tree.append_child(0, elem("html"));
    let dl = tree.append_child(html, elem("datalist"));
    tree.append_child(dl, elem_attrs("option", &[("value", "q"), ("selected", "")]));
    let el = ElementRef::wrap(&tree, dl).unwrap();
    assert_eq!(get_value(&el), Some("q".to_string()));
}

#[test]
fn unhandled_control_tags_yield_no_value() {
    for tag in ["button", "fieldset", "keygen", "object", "output"] {
        let tree = single(elem_attrs(tag, &[("value", "v")]));
        let el = ElementRef::wrap(&tree, 2).unwrap();
        assert_eq!(get_value(&el), None);
    }
}

#[test]
fn form_values_are_stored_per_member() {
    // <form id="f"><input type="number" value="7"><textarea>hi</textarea></form>
    let mut tree = Tree::new();
    let html = tree.append_child(0, elem("html"));
    let form_id = tree.append_child(html, elem_attrs("form", &[("id", "f")]));
    let num = tree.append_child(form_id, elem_attrs("input", &[("type", "number"), ("value", "7")]));
    let ta = tree.append_child(form_id, elem("textarea"));
    tree.append_child(ta, text("hi"));

    let root = ElementRef::wrap(&tree, html).unwrap();
    let form_el = ElementRef::wrap(&tree, form_id).unwrap();
    let form = Form::wrap(root, form_el);

    let values = form.values();
    assert_eq!(values.len(), 2);
    assert_eq!(values[0], (num, Some("7".to_string())));
    assert_eq!(values[1], (ta, Some("hi".to_string())));
}
