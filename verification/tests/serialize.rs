use flexui::propmap::PropMap;
use flexui::serialize::{serialize_property, StyleCodes};
use flexui::style::StyleValue;

fn codes() -> StyleCodes {
    let mut props = PropMap::new();
    props.insert("width".to_string(), 10u32);
    props.insert("max-width".to_string(), 11u32);
    props.insert("justify-content".to_string(), 12u32);
    props.insert("background-color".to_string(), 13u32);
    props.insert("font-weight".to_string(), 14u32);
    props.insert("border-color-top".to_string(), 15u32);
    props.insert("font-size".to_string(), 16u32);
    props.insert("line-height".to_string(), 17u32);
    StyleCodes { props, unit_px: 1, unit_percent: 2, unit_em: 3 }
}

#[test]
fn serializes_width_in_px_and_percent() {
    let c = codes();
    let mut dest = vec![99u32];
    assert_eq!(serialize_property(&mut dest, &c, "width", &StyleValue::Px(100.0f32.to_bits()), 0, 0), Ok(()));
    assert_eq!(dest, vec![99, 10, 100.0f32.to_bits(), 1]);
    let mut dest = Vec::new();
    assert_eq!(serialize_property(&mut dest, &c, "width", &StyleValue::Percent(50.0f32.to_bits()), 0, 0), Ok(()));
    assert_eq!(dest, vec![10, 50.0f32.to_bits(), 2]);
}

#[test]
fn serializes_missing_max_width_as_minus_one() {
    let c = codes();
    let mut dest = Vec::new();
    assert_eq!(serialize_property(&mut dest, &c, "max-width", &StyleValue::Auto, 0, 0), Ok(()));
    assert_eq!(dest, vec![11, (-1.0f32).to_bits(), 1]);
}

#[test]
fn serializes_keywords() {
    let c = codes();
    let mut dest = Vec::new();
    let v = StyleValue::Ident("space-between".to_string());
    assert_eq!(serialize_property(&mut dest, &c, "justify-content", &v, 0, 0), Ok(()));
    assert_eq!(dest, vec![12, 3]);
    let mut dest = Vec::new();
    let v = StyleValue::Ident("bold".to_string());
    assert_eq!(serialize_property(&mut dest, &c, "font-weight", &v, 0, 0), Ok(()));
    assert_eq!(dest, vec![14, 700]);
}

#[test]
fn clamps_numeric_font_weight() {
    let c = codes();
    let mut dest = Vec::new();
    assert_eq!(serialize_property(&mut dest, &c, "font-weight", &StyleValue::Px(1000.0f32.to_bits()), 0, 1000), Ok(()));
    assert_eq!(dest, vec![14, 900]);
}

#[test]
fn serializes_colors() {
    let c = codes();
    let mut dest = Vec::new();
    let red = StyleValue::Color(1.0f32.to_bits(), 0, 0, 1.0f32.to_bits());
    assert_eq!(serialize_property(&mut dest, &c, "background-color", &red, 0, 0), Ok(()));
    assert_eq!(dest, vec![13, 1.0f32.to_bits(), 0, 0, 1.0f32.to_bits()]);
    let mut dest = Vec::new();
    assert_eq!(serialize_property(&mut dest, &c, "background-color", &StyleValue::Auto, 0, 0), Ok(()));
    assert!(dest.is_empty());
    let mut dest = Vec::new();
    assert_eq!(serialize_property(&mut dest, &c, "border-color-top", &red, 0xff0000ff, 0), Ok(()));
    assert_eq!(dest, vec![15, 0xff0000ff]);
}

#[test]
fn serializes_font_size_defaults() {
    let c = codes();
    let mut dest = Vec::new();
    assert_eq!(serialize_property(&mut dest, &c, "font-size", &StyleValue::Auto, 0, 0), Ok(()));
    assert_eq!(dest, vec![16, 24.0f32.to_bits(), 1]);
    let mut dest = Vec::new();
    assert_eq!(serialize_property(&mut dest, &c, "line-height", &StyleValue::Auto, 0, 0), Ok(()));
    assert_eq!(dest, vec![17, 1.0f32.to_bits()]);
}

#[test]
fn skips_text_transform_and_refuses_unknown_properties() {
    let c = codes();
    let mut dest = vec![5u32];
    assert_eq!(serialize_property(&mut dest, &c, "text-transform", &StyleValue::Auto, 0, 0), Ok(()));
    assert_eq!(dest, vec![5]);
    assert_eq!(serialize_property(&mut dest, &c, "float", &StyleValue::Auto, 0, 0), Err(()));
    assert_eq!(serialize_property(&mut dest, &c, "height", &StyleValue::Auto, 0, 0), Err(()));
    assert_eq!(dest, vec![5]);
}
