use flexui::css::{parse_css, StyleValue};

fn px(v: Option<&StyleValue>) -> String {
    match v {
        Some(StyleValue::Px(n)) => n.clone(),
        _ => panic!("expected a pixel length"),
    }
}

#[test]
fn parses_single_line_comments() {
    let css = r#"
        // before
        .a {
            color: #ff0000; // trailing
            // between declarations
            width: 10px;
        }
        "#;

    let (rest, rules) = parse_css(css);
    assert!(rest.trim().is_empty());
    assert_eq!(rules.len(), 1);
    assert_eq!(rules[0].selector, ".a");
    assert!(rules[0].declarations.contains_key("color"));
    assert!(rules[0].declarations.contains_key("width"));
}

#[test]
fn parses_multi_line_comments() {
    let css = r#"
        /* before */
        .b {
            /* comment in block */
            height: 20px;
            /* multi-line
               comment */
            margin: 4px 8px;
        }
        /* after */
        "#;

    let (rest, rules) = parse_css(css);
    assert!(rest.trim().is_empty());
    assert_eq!(rules.len(), 1);
    assert_eq!(rules[0].selector, ".b");
    assert!(rules[0].declarations.contains_key("height"));
    assert!(rules[0].declarations.contains_key("margin-top"));
    assert!(rules[0].declarations.contains_key("margin-right"));
}

#[test]
fn box_shorthands_expand() {
    let (_, rules) = parse_css(".p { padding: 1px 2px 3px; margin: 5px; }");
    let d = &rules[0].declarations;
    assert_eq!(px(d.get("padding-top")), "1");
    assert_eq!(px(d.get("padding-right")), "2");
    assert_eq!(px(d.get("padding-bottom")), "3");
    assert_eq!(px(d.get("padding-left")), "2");
    assert_eq!(px(d.get("margin-left")), "5");
    assert!(!d.contains_key("padding"));
    assert_eq!(d.len(), 8);
}

#[test]
fn border_and_shadow_expand() {
    let (_, rules) = parse_css(".b { border: 2px solid #abc; box-shadow: 1px 2px 3px rgba(0, 0, 0, 0.5); }");
    let d = &rules[0].declarations;
    assert_eq!(px(d.get("border-left-width")), "2");
    match d.get("border-color-top") {
        Some(StyleValue::Hex(h)) => assert_eq!(h, "abc"),
        _ => panic!("expected a hex colour"),
    }
    assert_eq!(px(d.get("box-shadow-h-offset")), "1");
    assert_eq!(px(d.get("box-shadow-blur")), "3");
    assert_eq!(px(d.get("box-shadow-spread")), "0");
    match d.get("box-shadow-color") {
        Some(StyleValue::Rgb(v)) => assert_eq!(v, &vec!["0", "0", "0", "0.5"]),
        _ => panic!("expected an rgb colour"),
    }
}

#[test]
fn border_defaults() {
    let (_, rules) = parse_css(".b { border: solid; }");
    let d = &rules[0].declarations;
    assert_eq!(px(d.get("border-top-width")), "0");
    match d.get("border-color-left") {
        Some(StyleValue::Rgb(v)) => assert_eq!(v, &vec!["0", "0", "0"]),
        _ => panic!("expected black"),
    }
}

#[test]
fn units_and_idents() {
    let (_, rules) = parse_css("x { a: 50%; b: 1.5em; c: -2vh; d: 3vw; e: auto; f: center; g: 7; }");
    let d = &rules[0].declarations;
    assert!(matches!(d.get("a"), Some(StyleValue::Percent(n)) if n == "50"));
    assert!(matches!(d.get("b"), Some(StyleValue::Em(n)) if n == "1.5"));
    assert!(matches!(d.get("c"), Some(StyleValue::Vh(n)) if n == "-2"));
    assert!(matches!(d.get("d"), Some(StyleValue::Vw(n)) if n == "3"));
    assert!(matches!(d.get("e"), Some(StyleValue::Auto)));
    assert!(matches!(d.get("f"), Some(StyleValue::Ident(n)) if n == "center"));
    assert!(matches!(d.get("g"), Some(StyleValue::Px(n)) if n == "7"));
}

#[test]
fn later_declarations_win_and_flex_flow() {
    let (_, rules) = parse_css("a { width: 1px; width: 2px; flex-flow: column wrap; background: #fff; }");
    let d = &rules[0].declarations;
    assert_eq!(px(d.get("width")), "2");
    assert!(matches!(d.get("flex-direction"), Some(StyleValue::Ident(n)) if n == "column"));
    assert!(matches!(d.get("flex-wrap"), Some(StyleValue::Ident(n)) if n == "wrap"));
    assert!(matches!(d.get("background-color"), Some(StyleValue::Hex(n)) if n == "fff"));
}

#[test]
fn parse_stops_at_bad_rule() {
    let (rest, rules) = parse_css(".a { x: 1px; } .b { y 2px; } .c { z: 3px; }");
    assert_eq!(rules.len(), 1);
    assert_eq!(rest, ".b { y 2px; } .c { z: 3px; }");
}

#[test]
fn unclosed_block_comment_is_not_skipped() {
    let (rest, rules) = parse_css("  /* never closed");
    assert!(rules.is_empty());
    assert_eq!(rest, "/* never closed");
}

#[test]
fn several_rules_in_order() {
    let (rest, rules) = parse_css(".a{}\n.b:hover { color: red; }");
    assert_eq!(rest, "");
    assert_eq!(rules.len(), 2);
    assert_eq!(rules[0].selector, ".a");
    assert_eq!(rules[0].declarations.len(), 0);
    assert_eq!(rules[1].selector, ".b:hover");
}
