use flexui::template::{
    component_default_scope_binding, is_component_name, is_component_prop_attr,
    is_slot_syntax_attr_name, normalize_slot_name, parse_scope_binding, push_slot_content,
    slot_binding_from_template_attrs, slot_name_from_slot_syntax_attr, split_component_slots,
    Attribute, Element, Node, SlotMap, SlotScope,
};
use flexui::text::normalize_text_content;

fn attr(name: &str, value: &str) -> Attribute {
    Attribute { name: name.to_string(), value: value.to_string(), is_dynamic: false }
}

fn el(name: &str, attributes: Vec<Attribute>, children: Vec<Node>) -> Element {
    Element { name: name.to_string(), attributes, children }
}

#[test]
fn component_names_start_upper_case() {
    assert!(is_component_name("Header"));
    assert!(is_component_name("Ärger"));
    assert!(!is_component_name("div"));
    assert!(!is_component_name(""));
    assert!(!is_component_name("1abc"));
}

#[test]
fn slot_syntax_names() {
    assert!(is_slot_syntax_attr_name("#header"));
    assert!(is_slot_syntax_attr_name("v-slot"));
    assert!(is_slot_syntax_attr_name("v-slot:footer"));
    assert!(!is_slot_syntax_attr_name("slot"));
    assert!(!is_slot_syntax_attr_name("v-slots"));
}

#[test]
fn scope_bindings() {
    assert_eq!(parse_scope_binding("  item  "), Some("item".to_string()));
    assert_eq!(parse_scope_binding("true"), None);
    assert_eq!(parse_scope_binding("   "), None);
    assert_eq!(parse_scope_binding(" true "), None);
}

#[test]
fn slot_names() {
    assert_eq!(normalize_slot_name("  header "), "header");
    assert_eq!(normalize_slot_name("   "), "default");
    assert_eq!(slot_name_from_slot_syntax_attr(&attr("#footer", "")), Some("footer".to_string()));
    assert_eq!(slot_name_from_slot_syntax_attr(&attr("##", "")), Some("default".to_string()));
    assert_eq!(slot_name_from_slot_syntax_attr(&attr("v-slot", "x")), Some("default".to_string()));
    assert_eq!(slot_name_from_slot_syntax_attr(&attr("v-slot:side", "")), Some("side".to_string()));
    assert_eq!(slot_name_from_slot_syntax_attr(&attr("slot", "a")), None);
}

#[test]
fn template_attrs_binding() {
    let attrs = vec![attr("#item", "row"), attr("slot-scope", "other")];
    assert_eq!(
        slot_binding_from_template_attrs(&attrs),
        Some(("item".to_string(), Some("row".to_string())))
    );
    let attrs = vec![attr("slot-scope", "s"), attr("slot", " head ")];
    assert_eq!(
        slot_binding_from_template_attrs(&attrs),
        Some(("head".to_string(), Some("s".to_string())))
    );
    let attrs = vec![attr("class", "x")];
    assert_eq!(slot_binding_from_template_attrs(&attrs), None);
}

#[test]
fn default_scope_binding() {
    assert_eq!(
        component_default_scope_binding(&[attr("class", "a"), attr("v-slot", "props")]),
        Some("props".to_string())
    );
    assert_eq!(component_default_scope_binding(&[attr("#header", "h"), attr("slot-scope", "s")]), Some("s".to_string()));
    assert_eq!(component_default_scope_binding(&[attr("#default", "true")]), None);
    assert_eq!(component_default_scope_binding(&[]), None);
}

#[test]
fn prop_attrs() {
    assert!(is_component_prop_attr(&attr("title", "x")));
    assert!(!is_component_prop_attr(&attr("v-for", "x")));
    assert!(!is_component_prop_attr(&attr("v-if", "x")));
    assert!(!is_component_prop_attr(&attr("v-show", "x")));
    assert!(!is_component_prop_attr(&attr("#a", "x")));
    assert!(!is_component_prop_attr(&attr("slot-scope", "x")));
}

#[test]
fn push_merges_same_slot() {
    let mut slots = SlotMap::new();
    push_slot_content(&mut slots, "default".to_string(), None, vec![Node::Text("a".to_string())]);
    push_slot_content(&mut slots, "default".to_string(), Some("s".to_string()), vec![Node::Text("b".to_string())]);
    push_slot_content(&mut slots, "other".to_string(), None, vec![]);
    // Empty content adds no slot.
    assert_eq!(slots.entries.len(), 1);
    let d = slots.get("default").unwrap();
    assert_eq!(d.nodes.len(), 2);
    assert_eq!(d.scope_binding, Some("s".to_string()));
    assert!(slots.get("missing").is_none());
}

#[test]
fn split_slots_of_component() {
    let component = el(
        "Card",
        vec![attr("v-slot", "props")],
        vec![
            Node::Text("hello".to_string()),
            Node::Element(el("template", vec![attr("#header", "h")], vec![Node::Binding("x".to_string())])),
            Node::Element(el("div", vec![attr("slot", "footer"), attr("slot-scope", "f"), attr("class", "c")], vec![])),
            Node::Element(el("span", vec![], vec![])),
        ],
    );
    let slots = split_component_slots(&component);
    let d = slots.get("default").unwrap();
    assert_eq!(d.nodes.len(), 2);
    assert_eq!(d.scope_binding, Some("props".to_string()));
    let h = slots.get("header").unwrap();
    assert_eq!(h.nodes.len(), 1);
    assert_eq!(h.scope_binding, Some("h".to_string()));
    let f = slots.get("footer").unwrap();
    assert_eq!(f.scope_binding, None);
    match &f.nodes[0] {
        Node::Element(e) => {
            assert_eq!(e.attributes.len(), 1);
            assert_eq!(e.attributes[0].name, "class");
        }
        _ => panic!("expected an element"),
    }
}

#[test]
fn slot_scope_lookup() {
    let s = SlotScope::new(vec![
        ("a".to_string(), "1".to_string()),
        ("b".to_string(), "2".to_string()),
        ("a".to_string(), "3".to_string()),
    ]);
    assert_eq!(s.get("a"), "3");
    assert_eq!(s.get("b"), "2");
    assert_eq!(s.get("c"), "");
    assert!(s.has("b"));
    assert!(!s.has("c"));
}

#[test]
fn text_content_is_normalized() {
    assert_eq!(normalize_text_content("  hello \n\t world  "), Some("hello world".to_string()));
    assert_eq!(normalize_text_content(" \n "), None);
    assert_eq!(normalize_text_content(""), None);
    assert_eq!(normalize_text_content("a\u{3000}b"), Some("a b".to_string()));
}

#[test]
fn slots_come_in_name_order() {
    let mut slots = SlotMap::new();
    push_slot_content(&mut slots, "header".to_string(), None, vec![Node::Text("h".to_string())]);
    push_slot_content(&mut slots, "default".to_string(), None, vec![Node::Text("d".to_string())]);
    push_slot_content(&mut slots, "footer".to_string(), None, vec![Node::Text("f".to_string())]);
    let names: Vec<&str> = slots.entries.iter().map(|(n, _)| n.as_str()).collect();
    assert_eq!(names, vec!["default", "footer", "header"]);
}

#[test]
fn slot_scope_default_is_empty() {
    let s = SlotScope::default();
    assert!(!s.has("a"));
    assert_eq!(s.get("a"), "");
}

#[test]
fn normalizing_twice_changes_nothing() {
    let once = normalize_text_content("  Hello \n\t world  again ").unwrap();
    assert_eq!(once, "Hello world again");
    assert_eq!(normalize_text_content(&once), Some(once.clone()));
}
