use flexui::codegen::{
    attribute_actions, collect_rules, component_props, contains_char, directives, element_builder, expr_source,
    handler_plan, parse_v_for, remove_v_if, replace, slot_binding, slot_outlet, AttrAction, Builder,
};
use flexui::template::Attribute;

fn attr(name: &str, value: &str, is_dynamic: bool) -> Attribute {
    Attribute { name: name.to_string(), value: value.to_string(), is_dynamic }
}

#[test]
fn replace_is_left_to_right() {
    assert_eq!(replace("a => b => c", "=>", "|val|"), "a |val| b |val| c");
    assert_eq!(replace("aaa", "aa", "b"), "ba");
    assert_eq!(replace("x == 'y'", "'", "\""), "x == \"y\"");
    assert!(contains_char("a|b", '|'));
    assert!(!contains_char("ab", '|'));
}

#[test]
fn actions_of_plain_element() {
    let attrs = vec![
        attr("class", "btn big", false),
        attr("v-if", "x", false),
        attr("style", "width: 10px; padding: 1px;", false),
        attr("src", "logo", false),
        attr(":d", "path", true),
        attr("d", "M 0 0", false),
        attr("@click", "go", true),
        attr("text", "  hello   there ", false),
        attr(":value", "label", true),
        attr("unknown", "x", false),
        attr("@update:modelValue", "v => set(v)", true),
        attr("text", "   ", false),
    ];
    let acts = attribute_actions(&attrs);
    assert_eq!(acts.len(), 9);
    assert!(matches!(&acts[0], AttrAction::Class(c) if c == "btn big"));
    match &acts[1] {
        AttrAction::InlineStyles(m) => {
            assert!(m.contains_key("width"));
            assert!(!m.contains_key("padding"));
            assert!(m.contains_key("padding-top") && m.contains_key("padding-left"));
        }
        _ => panic!("expected inline styles"),
    }
    assert!(matches!(&acts[2], AttrAction::Image(s) if s == "logo"));
    assert!(matches!(&acts[3], AttrAction::BindPath(s) if s == "path"));
    assert!(matches!(&acts[4], AttrAction::Path(s) if s == "M 0 0"));
    assert!(matches!(&acts[5], AttrAction::Click(s) if s == "go"));
    assert!(matches!(&acts[6], AttrAction::Text(s) if s == "hello there"));
    assert!(matches!(&acts[7], AttrAction::BindValue(s) if s == "label"));
    assert!(matches!(&acts[8], AttrAction::ModelValue(s, true) if s == "move v |val| set(v)"));
}

#[test]
fn model_value_forms() {
    let acts = attribute_actions(&vec![attr("@update:modelValue", "set_name", true)]);
    assert!(matches!(&acts[0], AttrAction::ModelValue(s, false) if s == "set_name"));
    let acts = attribute_actions(&vec![attr("@update:modelValue", " move |v| x(v)", true)]);
    assert!(matches!(&acts[0], AttrAction::ModelValue(s, true) if s == " move |v| x(v)"));
}

#[test]
fn directives_and_v_for() {
    let attrs = vec![attr("v-if", "a", false), attr("v-for", "item in items", false), attr("v-if", "b", false)];
    let (v_if, v_for, v_show) = directives(&attrs);
    assert_eq!(v_if, Some("b".to_string()));
    assert_eq!(v_for, Some("item in items".to_string()));
    assert_eq!(v_show, None);
    assert_eq!(remove_v_if(&attrs).len(), 1);
    assert_eq!(parse_v_for(" msg in messages "), ("msg".to_string(), "messages".to_string()));
    assert_eq!(parse_v_for("x"), ("x".to_string(), String::new()));
    assert_eq!(parse_v_for("a in b in c"), ("a".to_string(), "b in c".to_string()));
}

#[test]
fn builders_by_tag() {
    assert!(matches!(element_builder("text"), Builder::Text));
    assert!(matches!(element_builder("input"), Builder::Input));
    assert!(matches!(element_builder("img"), Builder::Img));
    assert!(matches!(element_builder("bezier-curve"), Builder::Div));
    assert!(matches!(element_builder("section"), Builder::Div));
}

#[test]
fn component_prop_arguments() {
    let attrs = vec![attr(":count", "n", true), attr("title", "Hi", false), attr("v-if", "x", false), attr("#head", "", false)];
    let props = component_props(&attrs);
    assert_eq!(props.len(), 2);
    assert_eq!(props[0].field, "count");
    assert!(props[0].is_expr);
    assert_eq!(props[1].field, "title");
    assert_eq!(props[1].value, "Hi");
}

#[test]
fn slot_outlet_reads_attributes() {
    let attrs = vec![
        attr("name", " header ", false),
        attr(":item", "row", true),
        attr("label", "x", false),
        attr("@click", "f", true),
        attr("slot", "s", false),
        attr("v-if", "c", false),
    ];
    let o = slot_outlet(&attrs);
    assert_eq!(o.name, "header");
    assert!(o.dynamic_name.is_none());
    assert_eq!(o.entries.len(), 2);
    assert_eq!(o.entries[0].key, "item");
    assert!(o.entries[0].is_expr);
    assert_eq!(o.entries[1].key, "label");
    let o = slot_outlet(&vec![attr(":name", "which", true)]);
    assert_eq!(o.name, "default");
    assert_eq!(o.dynamic_name, Some("which".to_string()));
}

#[test]
fn rules_of_all_style_blocks() {
    let rules = collect_rules(&vec![".a { x: 1px; }".to_string(), ".b {} .c {}".to_string()]);
    assert_eq!(rules.len(), 3);
    assert_eq!(rules[2].selector, ".c");
}

#[test]
fn inline_style_needs_semicolons() {
    // The last declaration without `;` makes the whole inline rule unreadable.
    let acts = attribute_actions(&vec![attr("style", "width: 10px", false)]);
    assert!(acts.is_empty());
}

#[test]
fn replace_matches_str_replace() {
    assert_eq!(replace("a=>b=>c", "=>", "|val|"), "a|val|b|val|c");
    assert_eq!(replace("it's", "'", "\""), "it\"s");
    assert_eq!(replace("ab", "", "x"), "ab".replace("", "x"));
    assert_eq!(replace("", "", "x"), "x");
}

#[test]
fn handler_forms() {
    assert_eq!(handler_plan("   "), None);
    assert_eq!(handler_plan(" |e| go(e) "), Some(0));
    assert_eq!(handler_plan("{ count.set(1); }"), Some(1));
    assert_eq!(handler_plan("on_click"), Some(2));
    assert_eq!(handler_plan("go(1)"), Some(3));
    assert_eq!(handler_plan("let = ;"), Some(4));
}

#[test]
fn slot_bindings() {
    assert_eq!(slot_binding("  item "), Some("item".to_string()));
    assert_eq!(slot_binding("true"), None);
    assert_eq!(slot_binding("   "), None);
    assert_eq!(slot_binding("a b"), None);
}

#[test]
fn expressions_fall_back() {
    assert_eq!(expr_source("count + 1", "0"), "count + 1");
    assert_eq!(expr_source("count +", "0"), "0");
}
