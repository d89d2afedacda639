use flexui::parser::{extract_imports, parse_template, split_script};
use flexui::template::Node;

const PAGE: &str = r#"
<script>
mod Header;
mod utils;
let count = 1;
</script>
<template>
  <div class="a b" :title="t" @click="go">
    Hello {{ name }}
    <Header/>
    <input value="say \"hi\"\n" disabled/>
  </div>
</template>
<style scoped>
.a { color: red; }
</style>
"#;

#[test]
fn parses_a_component_file() {
    let (rest, t) = parse_template(PAGE).expect("the page should parse");
    assert_eq!(rest, "\n");
    assert_eq!(t.styles, vec!["\n.a { color: red; }\n".to_string()]);
    assert_eq!(t.imports.len(), 1);
    assert_eq!(t.imports[0].module_name, "Header");
    assert!(t.imports[0].is_component);
    let script = t.script.expect("a script");
    assert!(script.contains("utils") && script.contains("count"));
    assert!(!script.contains("Header"));

    assert_eq!(t.root.len(), 1);
    let div = match &t.root[0] {
        Node::Element(e) => e,
        _ => panic!("expected an element"),
    };
    assert_eq!(div.name, "div");
    assert_eq!(div.attributes.len(), 3);
    assert_eq!(div.attributes[0].name, "class");
    assert_eq!(div.attributes[0].value, "a b");
    assert!(!div.attributes[0].is_dynamic);
    assert!(div.attributes[1].is_dynamic && div.attributes[2].is_dynamic);
    assert_eq!(div.children.len(), 4);
    assert!(matches!(&div.children[0], Node::Text(t) if t == "Hello "));
    assert!(matches!(&div.children[1], Node::Binding(b) if b == "name"));
    assert!(matches!(&div.children[2], Node::Element(e) if e.name == "Header" && e.children.is_empty()));
    match &div.children[3] {
        Node::Element(e) => {
            assert_eq!(e.attributes[0].value, "say \"hi\"\n");
            assert_eq!(e.attributes[1].name, "disabled");
            assert_eq!(e.attributes[1].value, "true");
        }
        _ => panic!("expected an element"),
    }
}

#[test]
fn unclosed_element_fails() {
    assert!(parse_template("<div>").is_none());
    assert!(parse_template("{ x").is_none());
    assert!(parse_template("<script>never closed").is_none());
}

#[test]
fn closing_tag_name_is_not_checked() {
    let (_, t) = parse_template("<p>x</span>").unwrap();
    assert_eq!(t.root.len(), 1);
}

#[test]
fn loose_nodes_and_whitespace() {
    let (rest, t) = parse_template("  text here <b/>  ").unwrap();
    assert_eq!(rest, "  ");
    assert_eq!(t.root.len(), 2);
    assert!(matches!(&t.root[0], Node::Text(s) if s == "text here "));
    let (rest, t) = parse_template("").unwrap();
    assert_eq!(rest, "");
    assert!(t.root.is_empty() && t.script.is_none());
}

#[test]
fn unparsable_script_is_kept() {
    let (script, imports) = extract_imports("let = ;");
    assert_eq!(script, "let = ;");
    assert!(imports.is_empty());
    let (script, imports) = extract_imports("mod Footer; mod Nav;");
    assert_eq!(script, "");
    assert_eq!(imports.len(), 2);
    assert_eq!(imports[1].module_name, "Nav");
}

#[test]
fn kept_statements_are_printed_back() {
    let (script, imports) = extract_imports("let a = 1; mod Header; let b = a + 2;");
    assert_eq!(script, "let a = 1 ; let b = a + 2 ;");
    assert_eq!(imports.len(), 1);
    assert_eq!(imports[0].module_name, "Header");
    let (script, imports) = extract_imports("mod utils; mod Nav;");
    assert_eq!(script, "mod utils ;");
    assert_eq!(imports.len(), 1);
    assert_eq!(imports[0].module_name, "Nav");
}

#[test]
fn script_is_split_into_items_and_statements() {
    let parts = split_script("struct Props { n: i32 } let x = 1; fn helper() {} let y = 2;");
    assert!(parts.has_props);
    assert_eq!(parts.items.len(), 2);
    assert_eq!(parts.stmts.len(), 2);
    assert_eq!(parts.items[0].struct_name.as_deref(), Some("Props"));
    assert_eq!(parts.items[1].text, "fn helper () { }");
    assert_eq!(parts.stmts[0].text, "let x = 1 ;");
    assert_eq!(parts.stmts[1].text, "let y = 2 ;");
}

#[test]
fn script_without_props() {
    let parts = split_script("struct Other; let x = 1;");
    assert!(!parts.has_props);
    assert_eq!(parts.items.len(), 1);
    assert_eq!(parts.stmts.len(), 1);
    let parts = split_script("let = ;");
    assert!(!parts.has_props);
    assert!(parts.items.is_empty() && parts.stmts.is_empty());
}
