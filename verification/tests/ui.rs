use flexui::signals::{create_signal, Runtime};
use flexui::style::StyleValue;
use flexui::propmap::PropMap;
use flexui::ui::{div, img, input, mount_if_step, reconcile_list, text, Element, IfStep};

type El = Element<fn(u32), fn(String)>;

#[test]
fn test_builder_structure() {
    let layout: El = div()
        .style("width", StyleValue::Px(100.0f32.to_bits()))
        .row()
        .child(text("Hello"))
        .child(div().col());
    assert_eq!(layout.children.len(), 2);
    assert_eq!(layout.children[0].text_content, Some("Hello".to_string()));
    assert_eq!(layout.inline_styles.len(), 2);
}

#[test]
fn class_splits_on_white_space() {
    let e: El = div().class("  btn  primary\tlarge ").class("x");
    assert_eq!(e.classes, vec!["btn", "primary", "large", "x"]);
}

#[test]
fn style_replaces_existing_property() {
    let e: El = div().row().col().style("width", StyleValue::Auto);
    assert_eq!(e.inline_styles.len(), 2);
    assert_eq!(e.inline_styles.entries()[0].0, "flex-direction");
    match e.inline_styles.get("flex-direction").unwrap() {
        StyleValue::Ident(s) => assert_eq!(s, "column"),
        _ => panic!("expected an identifier"),
    }
}

#[test]
fn fresh_element_is_visible_and_empty() {
    let e: El = Element::new();
    assert_eq!(e.flags, 1);
    assert!(e.children.is_empty() && e.classes.is_empty() && e.inline_styles.len() == 0);
    let i: El = input().input_type("text");
    assert_eq!(i.input_type, Some("text".to_string()));
    let m: El = img().image("logo");
    assert_eq!(m.image_id, Some("logo".to_string()));
}

#[test]
fn bindings_record_signals() {
    let mut rt = Runtime::new();
    let (label, _set_label) = create_signal(&mut rt, "x".to_string());
    let (flags, _set_flags) = create_signal(&mut rt, 1u32);
    let e: El = div().bind_text(label).bind_flags(flags).bind_path(label).path("M 0 0");
    assert_eq!(e.value_signal.unwrap().id, label.id);
    assert_eq!(e.flags_signal.unwrap().id, flags.id);
    assert_eq!(e.path_signal.unwrap().id, label.id);
    assert_eq!(e.path_data, Some("M 0 0".to_string()));
}

#[test]
fn keyed_list_reconciliation() {
    let mut mounted = PropMap::new();
    mounted.insert("a".to_string(), 10u32);
    mounted.insert("b".to_string(), 11u32);
    mounted.insert("c".to_string(), 12u32);
    let keys = vec!["c".to_string(), "x".to_string(), "a".to_string()];
    let (plan, gone) = reconcile_list(&mounted, &keys);
    assert_eq!(plan, vec![Some(12), None, Some(10)]);
    assert_eq!(gone, vec![11]);
}

#[test]
fn conditional_block_steps() {
    assert!(matches!(mount_if_step(None, true), IfStep::Mount));
    assert!(matches!(mount_if_step(Some(4), false), IfStep::Unmount(4)));
    assert!(matches!(mount_if_step(Some(4), true), IfStep::Keep));
    assert!(matches!(mount_if_step(None, false), IfStep::Keep));
}
