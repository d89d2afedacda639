use vstd::prelude::*;
use crate::propmap::PropMap;
use crate::style::StyleValue;
use crate::text::str_eq;

verus! {

/// The bit pattern of `0.0f32`.
pub const ZERO_BITS: u32 = 0x0000_0000;

/// The bit pattern of `-1.0f32`: no maximum size.
pub const MINUS_ONE_BITS: u32 = 0xBF80_0000;

/// The bit pattern of `1.0f32`: the default line height.
pub const ONE_BITS: u32 = 0x3F80_0000;

/// The bit pattern of `24.0f32`: the default font size.
pub const TWENTY_FOUR_BITS: u32 = 0x41C0_0000;

/// The codes of the style encoding: the code of each property, keyed by
/// its CSS name, and the codes of the units.
pub struct StyleCodes {
    pub props: PropMap<u32>,
    pub unit_px: u32,
    pub unit_percent: u32,
    pub unit_em: u32,
}

/// How a property's value is encoded.
#[derive(Clone, Copy, Debug, PartialEq, Eq, Structural)]
pub enum Encoding {
    Rgba,
    Length,
    PxZero,
    PxMinusOne,
    ZIndex,
    FlexDirection,
    JustifyContent,
    AlignItems,
    Position,
    TextAlign,
    FontStyle,
    Packed,
    FontSize,
    LineHeight,
    Spacing,
    FontWeight,
    Skip,
}

/// The encoding of a property, by its CSS name (`None` for a property the
/// encoding does not know).
pub open spec fn encoding_of(p: Seq<char>) -> Option<Encoding> {
    if p == "background-color"@ {
        Some(Encoding::Rgba)
    } else if p == "color"@ {
        Some(Encoding::Rgba)
    } else if p == "width"@ {
        Some(Encoding::Length)
    } else if p == "height"@ {
        Some(Encoding::Length)
    } else if p == "min-width"@ {
        Some(Encoding::PxZero)
    } else if p == "max-width"@ {
        Some(Encoding::PxMinusOne)
    } else if p == "min-height"@ {
        Some(Encoding::PxZero)
    } else if p == "max-height"@ {
        Some(Encoding::PxMinusOne)
    } else if p == "flex-direction"@ {
        Some(Encoding::FlexDirection)
    } else if p == "justify-content"@ {
        Some(Encoding::JustifyContent)
    } else if p == "align-items"@ {
        Some(Encoding::AlignItems)
    } else if p == "position"@ {
        Some(Encoding::Position)
    } else if p == "top"@ {
        Some(Encoding::PxZero)
    } else if p == "left"@ {
        Some(Encoding::PxZero)
    } else if p == "z-index"@ {
        Some(Encoding::ZIndex)
    } else if p == "padding-top"@ {
        Some(Encoding::PxZero)
    } else if p == "padding-right"@ {
        Some(Encoding::PxZero)
    } else if p == "padding-bottom"@ {
        Some(Encoding::PxZero)
    } else if p == "padding-left"@ {
        Some(Encoding::PxZero)
    } else if p == "margin-top"@ {
        Some(Encoding::PxZero)
    } else if p == "margin-right"@ {
        Some(Encoding::PxZero)
    } else if p == "margin-bottom"@ {
        Some(Encoding::PxZero)
    } else if p == "margin-left"@ {
        Some(Encoding::PxZero)
    } else if p == "border-top-width"@ {
        Some(Encoding::PxZero)
    } else if p == "border-right-width"@ {
        Some(Encoding::PxZero)
    } else if p == "border-bottom-width"@ {
        Some(Encoding::PxZero)
    } else if p == "border-left-width"@ {
        Some(Encoding::PxZero)
    } else if p == "border-color-top"@ {
        Some(Encoding::Packed)
    } else if p == "border-color-right"@ {
        Some(Encoding::Packed)
    } else if p == "border-color-bottom"@ {
        Some(Encoding::Packed)
    } else if p == "border-color-left"@ {
        Some(Encoding::Packed)
    } else if p == "outline-width"@ {
        Some(Encoding::PxZero)
    } else if p == "outline-offset"@ {
        Some(Encoding::PxZero)
    } else if p == "outline-color-top"@ {
        Some(Encoding::Packed)
    } else if p == "outline-color-right"@ {
        Some(Encoding::Packed)
    } else if p == "outline-color-bottom"@ {
        Some(Encoding::Packed)
    } else if p == "outline-color-left"@ {
        Some(Encoding::Packed)
    } else if p == "box-shadow-h-offset"@ {
        Some(Encoding::PxZero)
    } else if p == "box-shadow-v-offset"@ {
        Some(Encoding::PxZero)
    } else if p == "box-shadow-blur"@ {
        Some(Encoding::PxZero)
    } else if p == "box-shadow-spread"@ {
        Some(Encoding::PxZero)
    } else if p == "box-shadow-color"@ {
        Some(Encoding::Packed)
    } else if p == "font-size"@ {
        Some(Encoding::FontSize)
    } else if p == "text-align"@ {
        Some(Encoding::TextAlign)
    } else if p == "line-height"@ {
        Some(Encoding::LineHeight)
    } else if p == "letter-spacing"@ {
        Some(Encoding::Spacing)
    } else if p == "word-spacing"@ {
        Some(Encoding::Spacing)
    } else if p == "font-weight"@ {
        Some(Encoding::FontWeight)
    } else if p == "font-style"@ {
        Some(Encoding::FontStyle)
    } else if p == "text-transform"@ {
        Some(Encoding::Skip)
    } else if p == "fill"@ {
        Some(Encoding::Packed)
    } else if p == "stroke"@ {
        Some(Encoding::Packed)
    } else if p == "stroke-width"@ {
        Some(Encoding::PxZero)
    } else {
        None
    }
}

/// The `flex-direction` code of a keyword: 1 for `column`, else 0 (`row`).
pub open spec fn flex_direction_mode(s: Seq<char>) -> u32 {
    if s == "column"@ {
        1
    } else {
        0
    }
}

/// The `justify-content` code of a keyword (0 is `flex-start`).
pub open spec fn justify_mode(s: Seq<char>) -> u32 {
    if s == "center"@ {
        1
    } else if s == "flex-end"@ || s == "end"@ || s == "right"@ {
        2
    } else if s == "space-between"@ {
        3
    } else if s == "space-around"@ {
        4
    } else if s == "space-evenly"@ {
        5
    } else {
        0
    }
}

/// The `align-items` code of a keyword (0 is `stretch`).
pub open spec fn align_mode(s: Seq<char>) -> u32 {
    if s == "flex-start"@ || s == "start"@ || s == "left"@ {
        1
    } else if s == "center"@ {
        2
    } else if s == "flex-end"@ || s == "end"@ || s == "right"@ {
        3
    } else {
        0
    }
}

/// The `position` code of a keyword: 1 for `absolute`, else 0 (`relative`).
pub open spec fn position_mode(s: Seq<char>) -> u32 {
    if s == "absolute"@ {
        1
    } else {
        0
    }
}

/// The `text-align` code of a keyword (0 is `left`).
pub open spec fn text_align_mode(s: Seq<char>) -> u32 {
    if s == "center"@ {
        1
    } else if s == "right"@ || s == "end"@ {
        2
    } else {
        0
    }
}

/// The `font-style` code of a keyword (0 is `normal`).
pub open spec fn font_style_mode(s: Seq<char>) -> u32 {
    if s == "italic"@ {
        1
    } else if s == "oblique"@ {
        2
    } else {
        0
    }
}

/// The weight that a `font-weight` keyword stands for.
pub open spec fn keyword_weight(s: Seq<char>) -> u32 {
    if s == "normal"@ {
        400
    } else if s == "bold"@ {
        700
    } else if s == "bolder"@ {
        800
    } else if s == "lighter"@ {
        300
    } else {
        400
    }
}

/// `w` kept between 100 and 900.
pub open spec fn clamp_weight(w: u32) -> u32 {
    if w < 100 {
        100
    } else if w > 900 {
        900
    } else {
        w
    }
}

/// The words that encode value `v` under encoding `e`, after the property's
/// `code`.  `packed` is the packed form of a color value and `weight` the
/// whole number a `Px` weight rounds to; each is read only for such values.
pub open spec fn encoded_words(
    e: Encoding,
    code: u32,
    px: u32,
    percent: u32,
    em: u32,
    v: StyleValue,
    packed: u32,
    weight: u32,
) -> Seq<u32> {
    match e {
        Encoding::Rgba => match v {
            StyleValue::Color(r, g, b, a) => seq![code, r, g, b, a],
            _ => Seq::empty(),
        },
        Encoding::Length => match v {
            StyleValue::Px(x) => seq![code, x, px],
            StyleValue::Percent(x) => seq![code, x, percent],
            _ => seq![code, ZERO_BITS, px],
        },
        Encoding::PxZero => match v {
            StyleValue::Px(x) => seq![code, x, px],
            _ => seq![code, ZERO_BITS, px],
        },
        Encoding::PxMinusOne => match v {
            StyleValue::Px(x) => seq![code, x, px],
            _ => seq![code, MINUS_ONE_BITS, px],
        },
        Encoding::ZIndex => match v {
            StyleValue::Px(x) => seq![code, x],
            _ => seq![code, ZERO_BITS],
        },
        Encoding::FlexDirection => seq![code, match v { StyleValue::Ident(s) => flex_direction_mode(s@), _ => 0 }],
        Encoding::JustifyContent => seq![code, match v { StyleValue::Ident(s) => justify_mode(s@), _ => 0 }],
        Encoding::AlignItems => seq![code, match v { StyleValue::Ident(s) => align_mode(s@), _ => 0 }],
        Encoding::Position => seq![code, match v { StyleValue::Ident(s) => position_mode(s@), _ => 0 }],
        Encoding::TextAlign => seq![code, match v { StyleValue::Ident(s) => text_align_mode(s@), _ => 0 }],
        Encoding::FontStyle => seq![code, match v { StyleValue::Ident(s) => font_style_mode(s@), _ => 0 }],
        Encoding::Packed => match v {
            StyleValue::Color(_, _, _, _) => seq![code, packed],
            _ => seq![code, 0],
        },
        Encoding::FontSize => match v {
            StyleValue::Px(x) => seq![code, x, px],
            StyleValue::Em(x) => seq![code, x, em],
            _ => seq![code, TWENTY_FOUR_BITS, px],
        },
        Encoding::LineHeight => match v {
            StyleValue::Px(x) => seq![code, x],
            StyleValue::Em(x) => seq![code, x],
            _ => seq![code, ONE_BITS],
        },
        Encoding::Spacing => match v {
            StyleValue::Px(x) => seq![code, x, px],
            StyleValue::Em(x) => seq![code, x, em],
            _ => seq![code, ZERO_BITS, px],
        },
        Encoding::FontWeight => seq![code, clamp_weight(match v {
            StyleValue::Px(_) => weight,
            _ => match v { StyleValue::Ident(s) => keyword_weight(s@), _ => 400 },
        })],
        Encoding::Skip => Seq::empty(),
    }
}

/// The words that encode property `p` set to `v`, with the property codes
/// `props` and the unit codes; `None` when the encoding does not know the
/// property or `props` holds no code for it.
pub open spec fn property_words(
    props: Map<Seq<char>, u32>,
    px: u32,
    percent: u32,
    em: u32,
    p: Seq<char>,
    v: StyleValue,
    packed: u32,
    weight: u32,
) -> Option<Seq<u32>> {
    match encoding_of(p) {
        None => None,
        Some(Encoding::Skip) => Some(Seq::empty()),
        Some(e) => if props.contains_key(p) {
            Some(encoded_words(e, props[p], px, percent, em, v, packed, weight))
        } else {
            None
        },
    }
}

/// The encoding of a property, by its CSS name.
pub fn encoding(prop: &str) -> (r: Option<Encoding>)
    ensures
        r == encoding_of(prop@),
{
    if str_eq(prop, "background-color") {
        Some(Encoding::Rgba)
    } else if str_eq(prop, "color") {
        Some(Encoding::Rgba)
    } else if str_eq(prop, "width") {
        Some(Encoding::Length)
    } else if str_eq(prop, "height") {
        Some(Encoding::Length)
    } else if str_eq(prop, "min-width") {
        Some(Encoding::PxZero)
    } else if str_eq(prop, "max-width") {
        Some(Encoding::PxMinusOne)
    } else if str_eq(prop, "min-height") {
        Some(Encoding::PxZero)
    } else if str_eq(prop, "max-height") {
        Some(Encoding::PxMinusOne)
    } else if str_eq(prop, "flex-direction") {
        Some(Encoding::FlexDirection)
    } else if str_eq(prop, "justify-content") {
        Some(Encoding::JustifyContent)
    } else if str_eq(prop, "align-items") {
        Some(Encoding::AlignItems)
    } else if str_eq(prop, "position") {
        Some(Encoding::Position)
    } else if str_eq(prop, "top") {
        Some(Encoding::PxZero)
    } else if str_eq(prop, "left") {
        Some(Encoding::PxZero)
    } else if str_eq(prop, "z-index") {
        Some(Encoding::ZIndex)
    } else if str_eq(prop, "padding-top") {
        Some(Encoding::PxZero)
    } else if str_eq(prop, "padding-right") {
        Some(Encoding::PxZero)
    } else if str_eq(prop, "padding-bottom") {
        Some(Encoding::PxZero)
    } else if str_eq(prop, "padding-left") {
        Some(Encoding::PxZero)
    } else if str_eq(prop, "margin-top") {
        Some(Encoding::PxZero)
    } else if str_eq(prop, "margin-right") {
        Some(Encoding::PxZero)
    } else if str_eq(prop, "margin-bottom") {
        Some(Encoding::PxZero)
    } else if str_eq(prop, "margin-left") {
        Some(Encoding::PxZero)
    } else if str_eq(prop, "border-top-width") {
        Some(Encoding::PxZero)
    } else if str_eq(prop, "border-right-width") {
        Some(Encoding::PxZero)
    } else if str_eq(prop, "border-bottom-width") {
        Some(Encoding::PxZero)
    } else if str_eq(prop, "border-left-width") {
        Some(Encoding::PxZero)
    } else if str_eq(prop, "border-color-top") {
        Some(Encoding::Packed)
    } else if str_eq(prop, "border-color-right") {
        Some(Encoding::Packed)
    } else if str_eq(prop, "border-color-bottom") {
        Some(Encoding::Packed)
    } else if str_eq(prop, "border-color-left") {
        Some(Encoding::Packed)
    } else if str_eq(prop, "outline-width") {
        Some(Encoding::PxZero)
    } else if str_eq(prop, "outline-offset") {
        Some(Encoding::PxZero)
    } else if str_eq(prop, "outline-color-top") {
        Some(Encoding::Packed)
    } else if str_eq(prop, "outline-color-right") {
        Some(Encoding::Packed)
    } else if str_eq(prop, "outline-color-bottom") {
        Some(Encoding::Packed)
    } else if str_eq(prop, "outline-color-left") {
        Some(Encoding::Packed)
    } else if str_eq(prop, "box-shadow-h-offset") {
        Some(Encoding::PxZero)
    } else if str_eq(prop, "box-shadow-v-offset") {
        Some(Encoding::PxZero)
    } else if str_eq(prop, "box-shadow-blur") {
        Some(Encoding::PxZero)
    } else if str_eq(prop, "box-shadow-spread") {
        Some(Encoding::PxZero)
    } else if str_eq(prop, "box-shadow-color") {
        Some(Encoding::Packed)
    } else if str_eq(prop, "font-size") {
        Some(Encoding::FontSize)
    } else if str_eq(prop, "text-align") {
        Some(Encoding::TextAlign)
    } else if str_eq(prop, "line-height") {
        Some(Encoding::LineHeight)
    } else if str_eq(prop, "letter-spacing") {
        Some(Encoding::Spacing)
    } else if str_eq(prop, "word-spacing") {
        Some(Encoding::Spacing)
    } else if str_eq(prop, "font-weight") {
        Some(Encoding::FontWeight)
    } else if str_eq(prop, "font-style") {
        Some(Encoding::FontStyle)
    } else if str_eq(prop, "text-transform") {
        Some(Encoding::Skip)
    } else if str_eq(prop, "fill") {
        Some(Encoding::Packed)
    } else if str_eq(prop, "stroke") {
        Some(Encoding::Packed)
    } else if str_eq(prop, "stroke-width") {
        Some(Encoding::PxZero)
    } else {
        None
    }
}

fn flex_direction_mode_of(s: &str) -> (r: u32)
    ensures
        r == flex_direction_mode(s@),
{
    if str_eq(s, "column") {
        1
    } else {
        0
    }
}

fn justify_mode_of(s: &str) -> (r: u32)
    ensures
        r == justify_mode(s@),
{
    if str_eq(s, "center") {
        1
    } else if str_eq(s, "flex-end") || str_eq(s, "end") || str_eq(s, "right") {
        2
    } else if str_eq(s, "space-between") {
        3
    } else if str_eq(s, "space-around") {
        4
    } else if str_eq(s, "space-evenly") {
        5
    } else {
        0
    }
}

fn align_mode_of(s: &str) -> (r: u32)
    ensures
        r == align_mode(s@),
{
    if str_eq(s, "flex-start") || str_eq(s, "start") || str_eq(s, "left") {
        1
    } else if str_eq(s, "center") {
        2
    } else if str_eq(s, "flex-end") || str_eq(s, "end") || str_eq(s, "right") {
        3
    } else {
        0
    }
}

fn position_mode_of(s: &str) -> (r: u32)
    ensures
        r == position_mode(s@),
{
    if str_eq(s, "absolute") {
        1
    } else {
        0
    }
}

fn text_align_mode_of(s: &str) -> (r: u32)
    ensures
        r == text_align_mode(s@),
{
    if str_eq(s, "center") {
        1
    } else if str_eq(s, "right") || str_eq(s, "end") {
        2
    } else {
        0
    }
}

fn font_style_mode_of(s: &str) -> (r: u32)
    ensures
        r == font_style_mode(s@),
{
    if str_eq(s, "italic") {
        1
    } else if str_eq(s, "oblique") {
        2
    } else {
        0
    }
}

fn keyword_weight_of(s: &str) -> (r: u32)
    ensures
        r == keyword_weight(s@),
{
    if str_eq(s, "normal") {
        400
    } else if str_eq(s, "bold") {
        700
    } else if str_eq(s, "bolder") {
        800
    } else if str_eq(s, "lighter") {
        300
    } else {
        400
    }
}

fn clamp_weight_of(w: u32) -> (r: u32)
    ensures
        r == clamp_weight(w),
{
    if w < 100 {
        100
    } else if w > 900 {
        900
    } else {
        w
    }
}

/// The words that encode `v` under encoding `e`, after the code `code`.
fn encoded(e: Encoding, code: u32, codes: &StyleCodes, v: &StyleValue, packed: u32, weight: u32) -> (r: Vec<u32>)
    ensures
        r@ == encoded_words(e, code, codes.unit_px, codes.unit_percent, codes.unit_em, *v, packed, weight),
{
    let px = codes.unit_px;
    let percent = codes.unit_percent;
    let em = codes.unit_em;
    let r = match e {
        Encoding::Rgba => match v {
            StyleValue::Color(r, g, b, a) => vec![code, *r, *g, *b, *a],
            _ => Vec::new(),
        },
        Encoding::Length => match v {
            StyleValue::Px(x) => vec![code, *x, px],
            StyleValue::Percent(x) => vec![code, *x, percent],
            _ => vec![code, ZERO_BITS, px],
        },
        Encoding::PxZero => match v {
            StyleValue::Px(x) => vec![code, *x, px],
            _ => vec![code, ZERO_BITS, px],
        },
        Encoding::PxMinusOne => match v {
            StyleValue::Px(x) => vec![code, *x, px],
            _ => vec![code, MINUS_ONE_BITS, px],
        },
        Encoding::ZIndex => match v {
            StyleValue::Px(x) => vec![code, *x],
            _ => vec![code, ZERO_BITS],
        },
        Encoding::FlexDirection => vec![code, match v {
            StyleValue::Ident(s) => flex_direction_mode_of(s.as_str()),
            _ => 0,
        }],
        Encoding::JustifyContent => vec![code, match v {
            StyleValue::Ident(s) => justify_mode_of(s.as_str()),
            _ => 0,
        }],
        Encoding::AlignItems => vec![code, match v {
            StyleValue::Ident(s) => align_mode_of(s.as_str()),
            _ => 0,
        }],
        Encoding::Position => vec![code, match v {
            StyleValue::Ident(s) => position_mode_of(s.as_str()),
            _ => 0,
        }],
        Encoding::TextAlign => vec![code, match v {
            StyleValue::Ident(s) => text_align_mode_of(s.as_str()),
            _ => 0,
        }],
        Encoding::FontStyle => vec![code, match v {
            StyleValue::Ident(s) => font_style_mode_of(s.as_str()),
            _ => 0,
        }],
        Encoding::Packed => match v {
            StyleValue::Color(_, _, _, _) => vec![code, packed],
            _ => vec![code, 0],
        },
        Encoding::FontSize => match v {
            StyleValue::Px(x) => vec![code, *x, px],
            StyleValue::Em(x) => vec![code, *x, em],
            _ => vec![code, TWENTY_FOUR_BITS, px],
        },
        Encoding::LineHeight => match v {
            StyleValue::Px(x) => vec![code, *x],
            StyleValue::Em(x) => vec![code, *x],
            _ => vec![code, ONE_BITS],
        },
        Encoding::Spacing => match v {
            StyleValue::Px(x) => vec![code, *x, px],
            StyleValue::Em(x) => vec![code, *x, em],
            _ => vec![code, ZERO_BITS, px],
        },
        Encoding::FontWeight => {
            let w = match v {
                StyleValue::Px(_) => weight,
                StyleValue::Ident(s) => keyword_weight_of(s.as_str()),
                _ => 400,
            };
            vec![code, clamp_weight_of(w)]
        },
        Encoding::Skip => Vec::new(),
    };
    proof {
        assert(r@ =~= encoded_words(e, code, px, percent, em, *v, packed, weight));
    }
    r
}

/// Appends to `dest` the words that encode property `prop` set to `val`:
/// the property's code, then its value in the property's own layout.
/// `packed_color` is the packed form of a color value and `px_weight` the
/// whole number a `Px` weight rounds to (each is read only for such a
/// value).  A property that the encoding does not know, or for which
/// `codes` holds no code, is refused and `dest` is left as it was.
pub fn serialize_property(
    dest: &mut Vec<u32>,
    codes: &StyleCodes,
    prop: &str,
    val: &StyleValue,
    packed_color: u32,
    px_weight: u32,
) -> (r: Result<(), ()>)
    ensures
        r is Err <==> property_words(
            codes.props@, codes.unit_px, codes.unit_percent, codes.unit_em, prop@, *val, packed_color, px_weight,
        ) is None,
        r is Ok ==> final(dest)@ == old(dest)@ + property_words(
            codes.props@, codes.unit_px, codes.unit_percent, codes.unit_em, prop@, *val, packed_color, px_weight,
        ).unwrap(),
        r is Err ==> final(dest)@ == old(dest)@,
{
    let e = match encoding(prop) {
        None => {
            return Err(());
        },
        Some(e) => e,
    };
    let words = match e {
        Encoding::Skip => Vec::new(),
        _ => match codes.props.get(prop) {
            None => {
                return Err(());
            },
            Some(code) => encoded(e, *code, codes, val, packed_color, px_weight),
        },
    };
    let mut i: usize = 0;
    while i < words.len()
        invariant
            i <= words.len(),
            dest@ == old(dest)@ + words@.take(i as int),
        decreases words.len() - i,
    {
        dest.push(words[i]);
        proof {
            assert(words@.take(i + 1) =~= words@.take(i as int).push(words@[i as int]));
        }
        i = i + 1;
    }
    proof {
        assert(words@.take(words@.len() as int) =~= words@);
    }
    Ok(())
}

/// The number a length value carries, if it is one.
pub open spec fn length_number(v: StyleValue) -> Option<u32> {
    match v {
        StyleValue::Px(x) => Some(x),
        StyleValue::Percent(x) => Some(x),
        StyleValue::Em(x) => Some(x),
        _ => None,
    }
}

/// The code of the unit a length value is given in, if it is one.
pub open spec fn unit_code(v: StyleValue, px: u32, percent: u32, em: u32) -> Option<u32> {
    match v {
        StyleValue::Px(_) => Some(px),
        StyleValue::Percent(_) => Some(percent),
        StyleValue::Em(_) => Some(em),
        _ => None,
    }
}

/// The units a length-valued encoding takes: pixels everywhere, percentages
/// for sizes, ems for font sizes and spacings.
pub open spec fn takes_unit(e: Encoding, v: StyleValue) -> bool {
    match e {
        Encoding::Length => v is Px || v is Percent,
        Encoding::PxZero | Encoding::PxMinusOne => v is Px,
        Encoding::FontSize | Encoding::Spacing => v is Px || v is Em,
        _ => false,
    }
}

/// A length given in a unit its property takes is written as the
/// property's code, the number, then the code of that same unit.
pub proof fn law_length_keeps_its_unit(
    e: Encoding,
    code: u32,
    px: u32,
    percent: u32,
    em: u32,
    v: StyleValue,
    packed: u32,
    weight: u32,
)
    requires
        takes_unit(e, v),
    ensures
        encoded_words(e, code, px, percent, em, v, packed, weight)
            == seq![code, length_number(v).unwrap(), unit_code(v, px, percent, em).unwrap()],
{
}

/// Whenever a length's own number is written as the second of three words
/// (and is not one of the default numbers), the third word is the code of
/// the length's own unit: a value is never written with another unit.
pub proof fn law_unit_word_is_the_values_unit(
    e: Encoding,
    code: u32,
    px: u32,
    percent: u32,
    em: u32,
    v: StyleValue,
    packed: u32,
    weight: u32,
)
    requires
        length_number(v) matches Some(x) && x != ZERO_BITS && x != MINUS_ONE_BITS && x != TWENTY_FOUR_BITS,
    ensures
        ({
            let w = encoded_words(e, code, px, percent, em, v, packed, weight);
            w.len() == 3 && w[1] == length_number(v).unwrap() ==> w[2] == unit_code(v, px, percent, em).unwrap()
        }),
{
}

/// `font-size` is a length in pixels or ems: an em font size is written as
/// its code, the number and the em unit.
pub proof fn law_em_font_size(props: Map<Seq<char>, u32>, px: u32, percent: u32, em: u32, x: u32, packed: u32, weight: u32)
    requires
        props.contains_key("font-size"@),
    ensures
        property_words(props, px, percent, em, "font-size"@, StyleValue::Em(x), packed, weight)
            == Some(seq![props["font-size"@], x, em]),
{
    reveal_strlit("background-color");
    reveal_strlit("color");
    reveal_strlit("width");
    reveal_strlit("height");
    reveal_strlit("min-width");
    reveal_strlit("max-width");
    reveal_strlit("min-height");
    reveal_strlit("max-height");
    reveal_strlit("flex-direction");
    reveal_strlit("justify-content");
    reveal_strlit("align-items");
    reveal_strlit("position");
    reveal_strlit("top");
    reveal_strlit("left");
    reveal_strlit("z-index");
    reveal_strlit("padding-top");
    reveal_strlit("padding-right");
    reveal_strlit("padding-bottom");
    reveal_strlit("padding-left");
    reveal_strlit("margin-top");
    reveal_strlit("margin-right");
    reveal_strlit("margin-bottom");
    reveal_strlit("margin-left");
    reveal_strlit("border-top-width");
    reveal_strlit("border-right-width");
    reveal_strlit("border-bottom-width");
    reveal_strlit("border-left-width");
    reveal_strlit("border-color-top");
    reveal_strlit("border-color-right");
    reveal_strlit("border-color-bottom");
    reveal_strlit("border-color-left");
    reveal_strlit("outline-width");
    reveal_strlit("outline-offset");
    reveal_strlit("outline-color-top");
    reveal_strlit("outline-color-right");
    reveal_strlit("outline-color-bottom");
    reveal_strlit("outline-color-left");
    reveal_strlit("box-shadow-h-offset");
    reveal_strlit("box-shadow-v-offset");
    reveal_strlit("box-shadow-blur");
    reveal_strlit("box-shadow-spread");
    reveal_strlit("box-shadow-color");
    reveal_strlit("font-size");
    assert("font-size"@.len() == 9);
    assert("font-size"@ != "background-color"@) by { assert("background-color"@.len() == 16); }
    assert("font-size"@ != "color"@) by { assert("color"@.len() == 5); }
    assert("font-size"@ != "width"@) by { assert("width"@.len() == 5); }
    assert("font-size"@ != "height"@) by { assert("height"@.len() == 6); }
    assert("font-size"@ != "min-width"@) by { assert("font-size"@[0] != "min-width"@[0]); }
    assert("font-size"@ != "max-width"@) by { assert("font-size"@[0] != "max-width"@[0]); }
    assert("font-size"@ != "min-height"@) by { assert("min-height"@.len() == 10); }
    assert("font-size"@ != "max-height"@) by { assert("max-height"@.len() == 10); }
    assert("font-size"@ != "flex-direction"@) by { assert("flex-direction"@.len() == 14); }
    assert("font-size"@ != "justify-content"@) by { assert("justify-content"@.len() == 15); }
    assert("font-size"@ != "align-items"@) by { assert("align-items"@.len() == 11); }
    assert("font-size"@ != "position"@) by { assert("position"@.len() == 8); }
    assert("font-size"@ != "top"@) by { assert("top"@.len() == 3); }
    assert("font-size"@ != "left"@) by { assert("left"@.len() == 4); }
    assert("font-size"@ != "z-index"@) by { assert("z-index"@.len() == 7); }
    assert("font-size"@ != "padding-top"@) by { assert("padding-top"@.len() == 11); }
    assert("font-size"@ != "padding-right"@) by { assert("padding-right"@.len() == 13); }
    assert("font-size"@ != "padding-bottom"@) by { assert("padding-bottom"@.len() == 14); }
    assert("font-size"@ != "padding-left"@) by { assert("padding-left"@.len() == 12); }
    assert("font-size"@ != "margin-top"@) by { assert("margin-top"@.len() == 10); }
    assert("font-size"@ != "margin-right"@) by { assert("margin-right"@.len() == 12); }
    assert("font-size"@ != "margin-bottom"@) by { assert("margin-bottom"@.len() == 13); }
    assert("font-size"@ != "margin-left"@) by { assert("margin-left"@.len() == 11); }
    assert("font-size"@ != "border-top-width"@) by { assert("border-top-width"@.len() == 16); }
    assert("font-size"@ != "border-right-width"@) by { assert("border-right-width"@.len() == 18); }
    assert("font-size"@ != "border-bottom-width"@) by { assert("border-bottom-width"@.len() == 19); }
    assert("font-size"@ != "border-left-width"@) by { assert("border-left-width"@.len() == 17); }
    assert("font-size"@ != "border-color-top"@) by { assert("border-color-top"@.len() == 16); }
    assert("font-size"@ != "border-color-right"@) by { assert("border-color-right"@.len() == 18); }
    assert("font-size"@ != "border-color-bottom"@) by { assert("border-color-bottom"@.len() == 19); }
    assert("font-size"@ != "border-color-left"@) by { assert("border-color-left"@.len() == 17); }
    assert("font-size"@ != "outline-width"@) by { assert("outline-width"@.len() == 13); }
    assert("font-size"@ != "outline-offset"@) by { assert("outline-offset"@.len() == 14); }
    assert("font-size"@ != "outline-color-top"@) by { assert("outline-color-top"@.len() == 17); }
    assert("font-size"@ != "outline-color-right"@) by { assert("outline-color-right"@.len() == 19); }
    assert("font-size"@ != "outline-color-bottom"@) by { assert("outline-color-bottom"@.len() == 20); }
    assert("font-size"@ != "outline-color-left"@) by { assert("outline-color-left"@.len() == 18); }
    assert("font-size"@ != "box-shadow-h-offset"@) by { assert("box-shadow-h-offset"@.len() == 19); }
    assert("font-size"@ != "box-shadow-v-offset"@) by { assert("box-shadow-v-offset"@.len() == 19); }
    assert("font-size"@ != "box-shadow-blur"@) by { assert("box-shadow-blur"@.len() == 15); }
    assert("font-size"@ != "box-shadow-spread"@) by { assert("box-shadow-spread"@.len() == 17); }
    assert("font-size"@ != "box-shadow-color"@) by { assert("box-shadow-color"@.len() == 16); }
    assert(encoding_of("font-size"@) == Some(Encoding::FontSize));
}

} // verus!
