use flexui::propmap::PropMap;
use flexui::style::{apply_layout_modes, apply_text_transform, LayoutModes, NodeStyle, StyleSheet, StyleValue};
use flexui::tree::NodeTree;

fn px(v: f32) -> StyleValue {
    StyleValue::Px(v.to_bits())
}

fn decls(pairs: &[(&str, StyleValue)]) -> PropMap<StyleValue> {
    let mut m = PropMap::new();
    for (k, v) in pairs {
        m.insert(k.to_string(), v.clone());
    }
    m
}

fn ident(s: &str) -> StyleValue {
    StyleValue::Ident(s.to_string())
}

#[test]
fn test_style_rule_deduplication() {
    let mut sheet = StyleSheet::new();
    sheet.add_style_rule(".test".to_string(), decls(&[("width", px(100.0))]));
    assert_eq!(sheet.rules.len(), 1);

    // Add same selector again
    sheet.add_style_rule(".test".to_string(), decls(&[("width", px(100.0))]));
    assert_eq!(sheet.rules.len(), 1, "Should replace existing rule, not append");
}

#[test]
fn replaced_rule_takes_new_declarations() {
    let mut sheet = StyleSheet::new();
    sheet.add_style_rule(".a".to_string(), decls(&[("width", px(1.0))]));
    sheet.add_style_rule(".b".to_string(), decls(&[]));
    sheet.add_style_rule(".a".to_string(), decls(&[("height", px(2.0))]));
    assert_eq!(sheet.rules.len(), 2);
    assert_eq!(sheet.rules[0].selector, ".a");
    assert!(sheet.rules[0].declarations.contains_key("height"));
    assert!(!sheet.rules[0].declarations.contains_key("width"));
}

#[test]
fn cascade_order_and_hover() {
    let mut sheet = StyleSheet::new();
    sheet.add_style_rule(".btn".to_string(), decls(&[("width", px(10.0)), ("color", ident("red"))]));
    sheet.add_style_rule("btn:hover".to_string(), decls(&[("color", ident("blue"))]));
    sheet.add_style_rule(".big".to_string(), decls(&[("width", px(20.0))]));
    sheet.add_style_rule(".other".to_string(), decls(&[("height", px(5.0))]));
    let classes = vec!["btn".to_string(), "big".to_string()];
    let inline = decls(&[("margin", px(1.0))]);

    let r = sheet.resolve(&classes, false, &inline);
    assert_eq!(r.get("width"), Some(&px(20.0)));
    assert_eq!(r.get("color"), Some(&ident("red")));
    assert!(r.contains_key("margin"));
    assert!(!r.contains_key("height"));

    let h = sheet.resolve(&classes, true, &decls(&[("color", ident("green"))]));
    assert_eq!(h.get("color"), Some(&ident("green")));
    let h2 = sheet.resolve(&classes, true, &decls(&[]));
    assert_eq!(h2.get("color"), Some(&ident("blue")));
}

#[test]
fn text_transforms() {
    assert_eq!(apply_text_transform("Hello world", "uppercase"), "HELLO WORLD");
    assert_eq!(apply_text_transform("Hello World", "lowercase"), "hello world");
    assert_eq!(apply_text_transform("hello  big\tworld ß", "capitalize"), "Hello  Big\tWorld SS");
    assert_eq!(apply_text_transform("mIxEd", "none"), "mIxEd");
    assert_eq!(apply_text_transform("abc", "UPPERCASE"), "abc");
}

#[test]
fn text_transform_is_inherited() {
    let mut tree = NodeTree::new();
    let root = tree.add_node();
    let mid = tree.add_node();
    let leaf = tree.add_node();
    let lone = tree.add_node();
    tree.set_parent(mid, root);
    tree.set_parent(leaf, mid);
    let mut sheet = StyleSheet::new();
    sheet.add_style_rule(".shout".to_string(), decls(&[("text-transform", ident("uppercase"))]));
    let style = |classes: &[&str]| NodeStyle {
        classes: classes.iter().map(|c| c.to_string()).collect(),
        hovered: false,
        inline_styles: PropMap::new(),
    };
    let styles = vec![style(&["shout"]), style(&[]), style(&[]), style(&[])];
    assert_eq!(sheet.resolve_text_transform(&tree, &styles, leaf as usize), "uppercase");
    assert_eq!(sheet.resolve_text_transform(&tree, &styles, lone as usize), "none");
    let mut styles2 = styles;
    styles2[1].inline_styles.insert("text-transform".to_string(), ident("capitalize"));
    assert_eq!(sheet.resolve_text_transform(&tree, &styles2, leaf as usize), "capitalize");
}

#[test]
fn layout_modes_from_keywords() {
    let start = LayoutModes { flex_direction: 0, justify_content: 4, align_items: 2, position_mode: 1 };
    let m = decls(&[
        ("flex-direction", ident("column")),
        ("justify-content", ident("end")),
        ("align-items", ident("bogus")),
        ("position", ident("sticky")),
    ]);
    let r = apply_layout_modes(start, &m);
    assert_eq!(r, LayoutModes { flex_direction: 1, justify_content: 2, align_items: 0, position_mode: 1 });
    let r = apply_layout_modes(start, &decls(&[("width", px(3.0)), ("flex-direction", px(1.0))]));
    assert_eq!(r, start);
    let r = apply_layout_modes(start, &decls(&[("justify-content", ident("space-evenly")), ("position", ident("relative"))]));
    assert_eq!(r.justify_content, 5);
    assert_eq!(r.position_mode, 0);
}
