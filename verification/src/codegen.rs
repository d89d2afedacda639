use vstd::prelude::*;
use crate::css::{self, has_at, parse_css, props_view, rules_view, stylesheet, ValueView};
use crate::propmap::PropMap;
use crate::template::{
    attr_view, attrs_view, clone_attribute, is_component_prop_attr, is_slot_syntax_attr_name, lemma_attrs_view_index,
    normalize_slot_name, spec_is_prop, spec_is_slot_syntax, spec_slot_name, AttrView, Attribute,
};
use crate::text::{
    chars_of, concat, has_prefix, join_words, normalize_text_content, push_char, starts_with, str_eq, strip_prefixes,
    opt_str, trim, trim_start_matches, trimmed, words,
};

verus! {

broadcast use vstd::string::group_string_axioms;

// ---------------------------------------------------------------------------
// Rust fragments

/// Whether `syn` reads the text `s` as a Rust expression.
pub uninterp spec fn expr_text(s: Seq<char>) -> bool;

/// `syn::parse_str::<syn::Expr>`: whether it succeeds is `expr_text(text)`.
#[verifier::external_body]
fn parses_as_expr(text: &str) -> (b: bool)
    ensures
        b == expr_text(text@),
{
    syn::parse_str::<syn::Expr>(text).is_ok()
}

/// Whether `syn` reads the text `s` as a Rust identifier.
pub uninterp spec fn ident_text(s: Seq<char>) -> bool;

/// `syn::parse_str::<syn::Ident>`: whether it succeeds is `ident_text(text)`.
#[verifier::external_body]
fn parses_as_ident(text: &str) -> (b: bool)
    ensures
        b == ident_text(text@),
{
    syn::parse_str::<syn::Ident>(text).is_ok()
}

/// How `syn` reads the text of an event handler: `0` a closure, `1` a block,
/// `2` a path, `3` another expression, `4` none of these.
pub uninterp spec fn handler_form(s: Seq<char>) -> u8;

/// Tries `text` with `syn::parse_str` as a closure (`ExprClosure`), a block
/// (`Block`), then an expression (`Expr`), in that order, and tells a path
/// expression apart from the others.  The result is named by `handler_form`.
#[verifier::external_body]
fn classify_handler(text: &str) -> (k: u8)
    ensures
        k == handler_form(text@),
{
    if syn::parse_str::<syn::ExprClosure>(text).is_ok() {
        return 0;
    }
    if syn::parse_str::<syn::Block>(text).is_ok() {
        return 1;
    }
    match syn::parse_str::<syn::Expr>(text) {
        Ok(syn::Expr::Path(_)) => 2,
        Ok(_) => 3,
        Err(_) => 4,
    }
}

/// The source an expression is read from: `src` where it reads as an
/// expression, `fallback` otherwise.
pub fn expr_source(src: &str, fallback: &str) -> (r: String)
    ensures
        r@ == (if expr_text(src@) { src@ } else { fallback@ }),
{
    if parses_as_expr(src) {
        src.to_string()
    } else {
        fallback.to_string()
    }
}

/// How an event handler is written, read from its trimmed text: nothing for
/// an empty handler, else its form (`handler_form`).
pub fn handler_plan(raw: &str) -> (r: Option<u8>)
    ensures
        trim(raw@).len() == 0 <==> r is None,
        r matches Some(k) ==> k == handler_form(trim(raw@)),
{
    let t = trimmed(raw);
    if chars_of(t.as_str()).len() == 0 {
        None
    } else {
        Some(classify_handler(t.as_str()))
    }
}

/// The name a slot's scope is bound to, from the slot attribute's value:
/// its trimmed text where that is an identifier other than `true`.
pub open spec fn binding_name(raw: Seq<char>) -> Option<Seq<char>> {
    let t = trim(raw);
    if t.len() == 0 || t == "true"@ || !ident_text(t) {
        None
    } else {
        Some(t)
    }
}

/// The name a slot's scope is bound to (`binding_name`).
pub fn slot_binding(raw: &str) -> (r: Option<String>)
    ensures
        opt_str(r) == binding_name(raw@),
{
    let t = trimmed(raw);
    if chars_of(t.as_str()).len() == 0 || str_eq(t.as_str(), "true") {
        None
    } else if parses_as_ident(t.as_str()) {
        Some(t)
    } else {
        None
    }
}

// ---------------------------------------------------------------------------
// Text helpers

/// `s` with `to` before each character and at the end: what replacing the
/// empty text does (`str::replace` with an empty pattern).
pub open spec fn interleave(s: Seq<char>, to: Seq<char>) -> Seq<char>
    decreases s.len(),
{
    if s.len() == 0 {
        to
    } else {
        to + seq![s[0]] + interleave(s.drop_first(), to)
    }
}

/// `s` with every occurrence of `from` replaced by `to`, left to right
/// (`str::replace`).
pub open spec fn replace_all(s: Seq<char>, from: Seq<char>, to: Seq<char>) -> Seq<char>
    decreases s.len(),
{
    if from.len() == 0 {
        interleave(s, to)
    } else if s.len() == 0 {
        s
    } else if has_prefix(s, from) {
        to + replace_all(s.subrange(from.len() as int, s.len() as int), from, to)
    } else {
        seq![s[0]] + replace_all(s.drop_first(), from, to)
    }
}

/// `s` with every occurrence of `from` replaced by `to` (`str::replace`).
pub fn replace(s: &str, from: &str, to: &str) -> (r: String)
    ensures
        r@ == replace_all(s@, from@, to@),
{
    let v = chars_of(s);
    let f = chars_of(from);
    let n = v.len();
    if f.len() == 0 {
        let mut out = String::new();
        let mut i: usize = 0;
        proof {
            assert(v@.subrange(0, n as int) =~= v@);
            assert(out@ + interleave(v@, to@) =~= interleave(v@, to@));
        }
        while i < n
            invariant
                n == v@.len(),
                v@ == s@,
                i <= n,
                out@ + interleave(v@.subrange(i as int, n as int), to@) == interleave(s@, to@),
            decreases n - i,
        {
            let ghost rest = v@.subrange(i as int, n as int);
            let ghost o0 = out@;
            out = concat(out.as_str(), to);
            push_char(&mut out, v[i]);
            proof {
                assert(rest.drop_first() =~= v@.subrange(i + 1, n as int));
                assert(o0 + interleave(rest, to@) =~= out@ + interleave(v@.subrange(i + 1, n as int), to@));
            }
            i = i + 1;
        }
        let ghost o0 = out@;
        out = concat(out.as_str(), to);
        proof {
            assert(v@.subrange(n as int, n as int) =~= Seq::<char>::empty());
        }
        return out;
    }
    let mut out = String::new();
    let mut i: usize = 0;
    proof {
        assert(v@.subrange(0, n as int) =~= v@);
        assert(out@ + replace_all(v@, from@, to@) =~= replace_all(v@, from@, to@));
    }
    while i < n
        invariant
            n == v@.len(),
            v@ == s@,
            f@ == from@,
            from@.len() > 0,
            i <= n,
            out@ + replace_all(v@.subrange(i as int, n as int), from@, to@) == replace_all(s@, from@, to@),
        decreases n - i,
    {
        let ghost rest = v@.subrange(i as int, n as int);
        if has_at(&v, i, from) {
            proof {
                assert(rest.subrange(0, from@.len() as int) =~= v@.subrange(i as int, i + from@.len()));
                assert(rest.subrange(from@.len() as int, rest.len() as int) =~= v@.subrange(i + from@.len(), n as int));
            }
            let ghost o0 = out@;
            out = concat(out.as_str(), to);
            proof {
                assert(o0 + (to@ + replace_all(v@.subrange(i + from@.len(), n as int), from@, to@)) =~= out@
                    + replace_all(v@.subrange(i + from@.len(), n as int), from@, to@));
            }
            i = i + f.len();
        } else {
            proof {
                if has_prefix(rest, from@) {
                    assert(v@.subrange(i as int, i + from@.len()) =~= rest.subrange(0, from@.len() as int));
                }
                assert(rest.drop_first() =~= v@.subrange(i + 1, n as int));
            }
            let ghost o0 = out@;
            push_char(&mut out, v[i]);
            proof {
                assert(o0 + (seq![v@[i as int]] + replace_all(v@.subrange(i + 1, n as int), from@, to@)) =~= out@
                    + replace_all(v@.subrange(i + 1, n as int), from@, to@));
            }
            i = i + 1;
        }
    }
    proof {
        assert(v@.subrange(n as int, n as int) =~= Seq::<char>::empty());
        assert(out@ + Seq::<char>::empty() =~= out@);
    }
    out
}

/// Whether `s` holds the character `c`.
pub fn contains_char(s: &str, c: char) -> (b: bool)
    ensures
        b == s@.contains(c),
{
    let v = chars_of(s);
    let mut i: usize = 0;
    while i < v.len()
        invariant
            i <= v@.len(),
            v@ == s@,
            forall|k: int| 0 <= k < i ==> v@[k] != c,
        decreases v.len() - i,
    {
        if v[i] == c {
            proof {
                assert(s@[i as int] == c);
            }
            return true;
        }
        i = i + 1;
    }
    false
}

// ---------------------------------------------------------------------------
// Attributes of plain elements

/// What an attribute of a plain element does to the element's builder.
pub enum AttrAction {
    /// `.class(..)`
    Class(String),
    /// `.style(..)` for each property of an inline `style` attribute.
    InlineStyles(PropMap<css::StyleValue>),
    /// `.image(..)`
    Image(String),
    /// `.bind_path(..)` with a memo of the expression.
    BindPath(String),
    /// `.path(..)`
    Path(String),
    /// `.input_type(..)`
    InputType(String),
    /// `.on_update_model_value(..)`: the handler's source, and whether it is
    /// a closure already (it holds `|`).
    ModelValue(String, bool),
    /// `.on_click(..)` with the handler's source.
    Click(String),
    /// `.on_mouse_enter(..)` with the handler's source.
    MouseEnter(String),
    /// `.on_mouse_leave(..)` with the handler's source.
    MouseLeave(String),
    /// `.value(..)` with a memo of the expression.
    BindValue(String),
    /// `.text(..)`
    Text(String),
}

/// The text of an attribute action.
pub enum ActionView {
    Class(Seq<char>),
    InlineStyles(Map<Seq<char>, ValueView>),
    Image(Seq<char>),
    BindPath(Seq<char>),
    Path(Seq<char>),
    InputType(Seq<char>),
    ModelValue(Seq<char>, bool),
    Click(Seq<char>),
    MouseEnter(Seq<char>),
    MouseLeave(Seq<char>),
    BindValue(Seq<char>),
    Text(Seq<char>),
}

pub open spec fn action_view(a: AttrAction) -> ActionView {
    match a {
        AttrAction::Class(s) => ActionView::Class(s@),
        AttrAction::InlineStyles(m) => ActionView::InlineStyles(props_view(m.view())),
        AttrAction::Image(s) => ActionView::Image(s@),
        AttrAction::BindPath(s) => ActionView::BindPath(s@),
        AttrAction::Path(s) => ActionView::Path(s@),
        AttrAction::InputType(s) => ActionView::InputType(s@),
        AttrAction::ModelValue(s, c) => ActionView::ModelValue(s@, c),
        AttrAction::Click(s) => ActionView::Click(s@),
        AttrAction::MouseEnter(s) => ActionView::MouseEnter(s@),
        AttrAction::MouseLeave(s) => ActionView::MouseLeave(s@),
        AttrAction::BindValue(s) => ActionView::BindValue(s@),
        AttrAction::Text(s) => ActionView::Text(s@),
    }
}

pub open spec fn actions_view(v: Seq<AttrAction>) -> Seq<ActionView> {
    Seq::new(v.len(), |i: int| action_view(v[i]))
}

/// Attributes that are directives or slot syntax, which a plain element's
/// builder does not see.
pub open spec fn is_directive(name: Seq<char>) -> bool {
    name == "v-for"@ || name == "v-if"@ || name == "v-show"@ || spec_is_slot_syntax(name) || name == "slot"@
        || name == "slot-scope"@
}

/// The text of an inline style, read as the body of a rule.
pub open spec fn inline_rule(value: Seq<char>) -> Seq<char> {
    "temp { "@ + value + " }"@
}

/// A model-value handler's source: `=>` becomes `|val|`, and a closure or
/// block not already `move` is made `move`.
pub open spec fn model_source(value: Seq<char>) -> Seq<char> {
    let raw = replace_all(value, "=>"@, "|val|"@);
    if (raw.contains('|') || raw.contains('{')) && !has_prefix(trim(raw), "move"@) {
        "move "@ + raw
    } else {
        raw
    }
}

/// Whether an attribute is bound to an expression: it is dynamic or its
/// name begins with `:`.
pub open spec fn is_bound(a: AttrView) -> bool {
    a.is_dynamic || has_prefix(a.name, ":"@)
}

/// What one attribute of a plain element does.
pub open spec fn attr_actions(a: AttrView) -> Seq<ActionView> {
    let n = a.name;
    let v = a.value;
    if is_directive(n) {
        seq![]
    } else if n == "class"@ {
        seq![ActionView::Class(v)]
    } else if n == "style"@ {
        let rules = stylesheet(inline_rule(v)).1;
        if rules.len() > 0 {
            seq![ActionView::InlineStyles(rules[0].1)]
        } else {
            seq![]
        }
    } else if n == "image"@ || n == "src"@ {
        seq![ActionView::Image(v)]
    } else if n == "data"@ || n == "d"@ || n == ":data"@ || n == ":d"@ {
        if is_bound(a) {
            seq![ActionView::BindPath(v)]
        } else {
            seq![ActionView::Path(v)]
        }
    } else if n == "type"@ {
        seq![ActionView::InputType(v)]
    } else if n == "@update:modelValue"@ {
        seq![ActionView::ModelValue(model_source(v), model_source(v).contains('|'))]
    } else if n == "@click"@ {
        seq![ActionView::Click(v)]
    } else if n == "@mouseenter"@ {
        seq![ActionView::MouseEnter(v)]
    } else if n == "@mouseleave"@ {
        seq![ActionView::MouseLeave(v)]
    } else if n == "text"@ || n == ":text"@ || n == "value"@ || n == ":value"@ {
        if is_bound(a) {
            seq![ActionView::BindValue(v)]
        } else if words(v).len() > 0 {
            seq![ActionView::Text(join_words(words(v)))]
        } else {
            seq![]
        }
    } else {
        seq![]
    }
}

/// What the attributes of a plain element do, in order.
pub open spec fn all_actions(attrs: Seq<AttrView>) -> Seq<ActionView>
    decreases attrs.len(),
{
    if attrs.len() == 0 {
        seq![]
    } else {
        all_actions(attrs.drop_last()) + attr_actions(attrs.last())
    }
}

fn is_directive_name(name: &str) -> (b: bool)
    ensures
        b == is_directive(name@),
{
    str_eq(name, "v-for") || str_eq(name, "v-if") || str_eq(name, "v-show") || is_slot_syntax_attr_name(name) || str_eq(
        name,
        "slot",
    ) || str_eq(name, "slot-scope")
}

fn actions_of(a: &Attribute) -> (r: Vec<AttrAction>)
    ensures
        actions_view(r@) == attr_actions(attr_view(*a)),
{
    let n = a.name.as_str();
    let v = a.value.as_str();
    let bound = a.is_dynamic || starts_with(n, ":");
    let mut r: Vec<AttrAction> = Vec::new();
    if is_directive_name(n) {
    } else if str_eq(n, "class") {
        r.push(AttrAction::Class(a.value.clone()));
    } else if str_eq(n, "style") {
        let body = concat(concat("temp { ", v).as_str(), " }");
        let (_rest, rules) = parse_css(body.as_str());
        if rules.len() > 0 {
            let mut rules = rules;
            proof {
                assert(rules_view(rules@)[0] == (rules@[0].selector@, props_view(rules@[0].declarations.view())));
            }
            let first = rules.swap_remove(0);
            r.push(AttrAction::InlineStyles(first.declarations));
        }
    } else if str_eq(n, "image") || str_eq(n, "src") {
        r.push(AttrAction::Image(a.value.clone()));
    } else if str_eq(n, "data") || str_eq(n, "d") || str_eq(n, ":data") || str_eq(n, ":d") {
        if bound {
            r.push(AttrAction::BindPath(a.value.clone()));
        } else {
            r.push(AttrAction::Path(a.value.clone()));
        }
    } else if str_eq(n, "type") {
        r.push(AttrAction::InputType(a.value.clone()));
    } else if str_eq(n, "@update:modelValue") {
        proof {
            reveal_strlit("=>");
        }
        let raw = replace(v, "=>", "|val|");
        let t = trimmed(raw.as_str());
        let src = if (contains_char(raw.as_str(), '|') || contains_char(raw.as_str(), '{')) && !starts_with(t.as_str(), "move") {
            concat("move ", raw.as_str())
        } else {
            raw
        };
        let is_closure = contains_char(src.as_str(), '|');
        r.push(AttrAction::ModelValue(src, is_closure));
    } else if str_eq(n, "@click") {
        r.push(AttrAction::Click(a.value.clone()));
    } else if str_eq(n, "@mouseenter") {
        r.push(AttrAction::MouseEnter(a.value.clone()));
    } else if str_eq(n, "@mouseleave") {
        r.push(AttrAction::MouseLeave(a.value.clone()));
    } else if str_eq(n, "text") || str_eq(n, ":text") || str_eq(n, "value") || str_eq(n, ":value") {
        if bound {
            r.push(AttrAction::BindValue(a.value.clone()));
        } else {
            match normalize_text_content(v) {
                Some(t) => r.push(AttrAction::Text(t)),
                None => {},
            }
        }
    }
    proof {
        assert(actions_view(r@) =~= attr_actions(attr_view(*a)));
    }
    r
}

/// What the attributes of a plain element do to its builder, in order:
/// directives and slot syntax are skipped, each known attribute gives its
/// builder call, and unknown ones give none.
pub fn attribute_actions(attrs: &Vec<Attribute>) -> (r: Vec<AttrAction>)
    ensures
        actions_view(r@) == all_actions(attrs_view(attrs@)),
{
    let mut r: Vec<AttrAction> = Vec::new();
    let mut i: usize = 0;
    proof {
        lemma_attrs_view_index(attrs@);
        assert(attrs_view(attrs@.take(0)) =~= Seq::<AttrView>::empty());
        assert(actions_view(r@) =~= Seq::<ActionView>::empty());
    }
    while i < attrs.len()
        invariant
            i <= attrs@.len(),
            actions_view(r@) == all_actions(attrs_view(attrs@.take(i as int))),
        decreases attrs.len() - i,
    {
        let mut more = actions_of(&attrs[i]);
        let ghost r0 = r@;
        let ghost m0 = more@;
        r.append(&mut more);
        proof {
            lemma_attrs_view_index(attrs@.take(i + 1));
            lemma_attrs_view_index(attrs@.take(i as int));
            let t = attrs_view(attrs@.take(i + 1));
            assert(t.drop_last() =~= attrs_view(attrs@.take(i as int)));
            assert(t.last() == attr_view(attrs@[i as int]));
            assert(actions_view(r@) =~= actions_view(r0) + actions_view(m0));
        }
        i = i + 1;
    }
    proof {
        assert(attrs@.take(attrs@.len() as int) =~= attrs@);
    }
    r
}

// ---------------------------------------------------------------------------
// Directives

/// The values of the last `v-if`, `v-for` and `v-show` attributes.
pub open spec fn directives_of(attrs: Seq<AttrView>) -> (Option<Seq<char>>, Option<Seq<char>>, Option<Seq<char>>)
    decreases attrs.len(),
{
    if attrs.len() == 0 {
        (None, None, None)
    } else {
        let (i, f, s) = directives_of(attrs.drop_last());
        let a = attrs.last();
        if a.name == "v-if"@ {
            (Some(a.value), f, s)
        } else if a.name == "v-for"@ {
            (i, Some(a.value), s)
        } else if a.name == "v-show"@ {
            (i, f, Some(a.value))
        } else {
            (i, f, s)
        }
    }
}

/// The element's `v-if`, `v-for` and `v-show` directives (the last of each).
pub fn directives(attrs: &Vec<Attribute>) -> (r: (Option<String>, Option<String>, Option<String>))
    ensures
        directives_of(attrs_view(attrs@)) == (crate::text::opt_str(r.0), crate::text::opt_str(r.1), crate::text::opt_str(r.2)),
{
    let mut v_if: Option<String> = None;
    let mut v_for: Option<String> = None;
    let mut v_show: Option<String> = None;
    let mut i: usize = 0;
    proof {
        assert(attrs_view(attrs@.take(0)) =~= Seq::<AttrView>::empty());
    }
    while i < attrs.len()
        invariant
            i <= attrs@.len(),
            directives_of(attrs_view(attrs@.take(i as int))) == (
                crate::text::opt_str(v_if),
                crate::text::opt_str(v_for),
                crate::text::opt_str(v_show),
            ),
        decreases attrs.len() - i,
    {
        let a = &attrs[i];
        proof {
            lemma_attrs_view_index(attrs@.take(i + 1));
            lemma_attrs_view_index(attrs@.take(i as int));
            let t = attrs_view(attrs@.take(i + 1));
            assert(t.drop_last() =~= attrs_view(attrs@.take(i as int)));
            assert(t.last() == attr_view(attrs@[i as int]));
        }
        if str_eq(a.name.as_str(), "v-if") {
            v_if = Some(a.value.clone());
        } else if str_eq(a.name.as_str(), "v-for") {
            v_for = Some(a.value.clone());
        } else if str_eq(a.name.as_str(), "v-show") {
            v_show = Some(a.value.clone());
        }
        i = i + 1;
    }
    proof {
        assert(attrs@.take(attrs@.len() as int) =~= attrs@);
    }
    (v_if, v_for, v_show)
}

/// The attributes without any `v-if`.
pub open spec fn without_v_if(attrs: Seq<AttrView>) -> Seq<AttrView>
    decreases attrs.len(),
{
    if attrs.len() == 0 {
        seq![]
    } else {
        let rest = without_v_if(attrs.drop_last());
        if attrs.last().name == "v-if"@ {
            rest
        } else {
            rest.push(attrs.last())
        }
    }
}

/// The attributes without any `v-if`, in order.
pub fn remove_v_if(attrs: &Vec<Attribute>) -> (r: Vec<Attribute>)
    ensures
        attrs_view(r@) == without_v_if(attrs_view(attrs@)),
{
    let mut r: Vec<Attribute> = Vec::new();
    let mut i: usize = 0;
    proof {
        assert(attrs_view(attrs@.take(0)) =~= Seq::<AttrView>::empty());
        assert(attrs_view(r@) =~= Seq::<AttrView>::empty());
    }
    while i < attrs.len()
        invariant
            i <= attrs@.len(),
            attrs_view(r@) == without_v_if(attrs_view(attrs@.take(i as int))),
        decreases attrs.len() - i,
    {
        proof {
            lemma_attrs_view_index(attrs@.take(i + 1));
            lemma_attrs_view_index(attrs@.take(i as int));
            let t = attrs_view(attrs@.take(i + 1));
            assert(t.drop_last() =~= attrs_view(attrs@.take(i as int)));
            assert(t.last() == attr_view(attrs@[i as int]));
        }
        if !str_eq(attrs[i].name.as_str(), "v-if") {
            let ghost r0 = r@;
            r.push(clone_attribute(&attrs[i]));
            proof {
                assert(r@.drop_last() =~= r0);
            }
        }
        i = i + 1;
    }
    proof {
        assert(attrs@.take(attrs@.len() as int) =~= attrs@);
    }
    r
}

/// A `v-for` value `item in collection`, split at the first ` in `: the
/// trimmed item and the trimmed collection (empty when there is no ` in `).
pub open spec fn v_for_parts(v: Seq<char>) -> (Seq<char>, Seq<char>) {
    match crate::parser::find(v, 0, " in "@) {
        Some(k) => (trim(v.subrange(0, k)), trim(v.subrange(k + " in "@.len(), v.len() as int))),
        None => (trim(v), seq![]),
    }
}

/// Splits a `v-for` value `item in collection`.
pub fn parse_v_for(value: &str) -> (r: (String, String))
    ensures
        (r.0@, r.1@) == v_for_parts(value@),
{
    let v = chars_of(value);
    let n = v.len();
    let mut k: usize = 0;
    let sv = chars_of(" in ");
    proof {
        reveal_strlit(" in ");
    }
    let w = sv.len();
    while k <= n && w <= n - k
        invariant
            n == v@.len(),
            v@ == value@,
            sv@ == " in "@,
            " in "@.len() == 4,
            w == 4,
            k <= n,
            crate::parser::find(v@, k as int, " in "@) == crate::parser::find(v@, 0, " in "@),
        ensures
            crate::parser::find(v@, 0, " in "@) is None,
        decreases n + 1 - k,
    {
        if has_at(&v, k, " in ") {
            let item_raw = crate::text::string_of(&v, 0, k);
            let rest_raw = crate::text::string_of(&v, k + w, n);
            proof {
                assert(crate::parser::find(v@, k as int, " in "@) == Some(k as int));
            }
            return (trimmed(item_raw.as_str()), trimmed(rest_raw.as_str()));
        }
        if k >= n {
            break;
        }
        k = k + 1;
    }
    (trimmed(value), String::new())
}

/// The builder a plain element starts from.
pub enum Builder {
    Div,
    Text,
    Input,
    Img,
}

/// The builder for a tag name: `text`, `input` and `img` have their own;
/// everything else is a `div`.
pub open spec fn builder_of(name: Seq<char>) -> Builder {
    if name == "text"@ {
        Builder::Text
    } else if name == "input"@ {
        Builder::Input
    } else if name == "img"@ {
        Builder::Img
    } else {
        Builder::Div
    }
}

/// The builder for a tag name.
pub fn element_builder(name: &str) -> (b: Builder)
    ensures
        b == builder_of(name@),
{
    if str_eq(name, "text") {
        Builder::Text
    } else if str_eq(name, "input") {
        Builder::Input
    } else if str_eq(name, "img") {
        Builder::Img
    } else {
        Builder::Div
    }
}

// ---------------------------------------------------------------------------
// Components and slot outlets

/// A prop passed to a component: the field, and its value either as an
/// expression (for dynamic attributes) or as literal text.
pub struct PropArg {
    pub field: String,
    pub is_expr: bool,
    pub value: String,
}

pub open spec fn prop_view(p: PropArg) -> (Seq<char>, bool, Seq<char>) {
    (p.field@, p.is_expr, p.value@)
}

pub open spec fn props_args_view(v: Seq<PropArg>) -> Seq<(Seq<char>, bool, Seq<char>)> {
    Seq::new(v.len(), |i: int| prop_view(v[i]))
}

/// The props a component element passes: each attribute that is a prop, its
/// field the name without leading `:`.
pub open spec fn component_args(attrs: Seq<AttrView>) -> Seq<(Seq<char>, bool, Seq<char>)>
    decreases attrs.len(),
{
    if attrs.len() == 0 {
        seq![]
    } else {
        let rest = component_args(attrs.drop_last());
        let a = attrs.last();
        if spec_is_prop(a.name) {
            rest.push((strip_prefixes(a.name, ":"@), a.is_dynamic, a.value))
        } else {
            rest
        }
    }
}

/// The props a component element passes, in order.
pub fn component_props(attrs: &Vec<Attribute>) -> (r: Vec<PropArg>)
    ensures
        props_args_view(r@) == component_args(attrs_view(attrs@)),
{
    let mut r: Vec<PropArg> = Vec::new();
    let mut i: usize = 0;
    proof {
        assert(attrs_view(attrs@.take(0)) =~= Seq::<AttrView>::empty());
        assert(props_args_view(r@) =~= Seq::<(Seq<char>, bool, Seq<char>)>::empty());
    }
    while i < attrs.len()
        invariant
            i <= attrs@.len(),
            props_args_view(r@) == component_args(attrs_view(attrs@.take(i as int))),
        decreases attrs.len() - i,
    {
        let a = &attrs[i];
        proof {
            lemma_attrs_view_index(attrs@.take(i + 1));
            lemma_attrs_view_index(attrs@.take(i as int));
            let t = attrs_view(attrs@.take(i + 1));
            assert(t.drop_last() =~= attrs_view(attrs@.take(i as int)));
            assert(t.last() == attr_view(attrs@[i as int]));
        }
        if is_component_prop_attr(a) {
            let field = trim_start_matches(a.name.as_str(), ":");
            let ghost r0 = r@;
            r.push(PropArg { field, is_expr: a.is_dynamic, value: a.value.clone() });
            proof {
                assert(props_args_view(r@) =~= props_args_view(r0).push(prop_view(r@.last())));
            }
        }
        i = i + 1;
    }
    proof {
        assert(attrs@.take(attrs@.len() as int) =~= attrs@);
    }
    r
}

/// A value a slot outlet hands to its slot's content: an expression to
/// render as text, or literal text.
pub struct ScopeEntry {
    pub key: String,
    pub is_expr: bool,
    pub value: String,
}

/// What a `<slot>` outlet needs: the slot name (or an expression that
/// computes it) and the values it hands to the content.
pub struct SlotOutlet {
    pub name: String,
    pub dynamic_name: Option<String>,
    pub entries: Vec<ScopeEntry>,
}

pub open spec fn entry_view(e: ScopeEntry) -> (Seq<char>, bool, Seq<char>) {
    (e.key@, e.is_expr, e.value@)
}

pub open spec fn entries_view(v: Seq<ScopeEntry>) -> Seq<(Seq<char>, bool, Seq<char>)> {
    Seq::new(v.len(), |i: int| entry_view(v[i]))
}

/// The slot outlet the attributes of a `<slot>` describe, attribute by
/// attribute: `name` sets the slot name, `:name` an expression for it,
/// directives, handlers (`@..`) and slot syntax are skipped, `:key` hands an
/// expression and any other attribute but `slot` and `slot-scope` hands its
/// text.
pub open spec fn outlet_of(attrs: Seq<AttrView>) -> (Seq<char>, Option<Seq<char>>, Seq<(Seq<char>, bool, Seq<char>)>)
    decreases attrs.len(),
{
    if attrs.len() == 0 {
        ("default"@, None, seq![])
    } else {
        let (name, dynamic, entries) = outlet_of(attrs.drop_last());
        let a = attrs.last();
        if a.name == "name"@ {
            (spec_slot_name(a.value), dynamic, entries)
        } else if a.name == ":name"@ {
            (name, Some(a.value), entries)
        } else if a.name == "v-if"@ || a.name == "v-for"@ || a.name == "v-show"@ {
            (name, dynamic, entries)
        } else if has_prefix(a.name, "@"@) || spec_is_slot_syntax(a.name) {
            (name, dynamic, entries)
        } else if has_prefix(a.name, ":"@) {
            (name, dynamic, entries.push((strip_prefixes(a.name, ":"@), true, a.value)))
        } else if a.name != "slot"@ && a.name != "slot-scope"@ {
            (name, dynamic, entries.push((a.name, false, a.value)))
        } else {
            (name, dynamic, entries)
        }
    }
}

/// Reads the attributes of a `<slot>` outlet.
pub fn slot_outlet(attrs: &Vec<Attribute>) -> (r: SlotOutlet)
    ensures
        outlet_of(attrs_view(attrs@)) == (r.name@, crate::text::opt_str(r.dynamic_name), entries_view(r.entries@)),
{
    let mut name = "default".to_string();
    let mut dynamic_name: Option<String> = None;
    let mut entries: Vec<ScopeEntry> = Vec::new();
    let mut i: usize = 0;
    proof {
        assert(attrs_view(attrs@.take(0)) =~= Seq::<AttrView>::empty());
        assert(entries_view(entries@) =~= Seq::<(Seq<char>, bool, Seq<char>)>::empty());
    }
    while i < attrs.len()
        invariant
            i <= attrs@.len(),
            outlet_of(attrs_view(attrs@.take(i as int))) == (name@, crate::text::opt_str(dynamic_name), entries_view(entries@)),
        decreases attrs.len() - i,
    {
        let a = &attrs[i];
        let n = a.name.as_str();
        proof {
            lemma_attrs_view_index(attrs@.take(i + 1));
            lemma_attrs_view_index(attrs@.take(i as int));
            let t = attrs_view(attrs@.take(i + 1));
            assert(t.drop_last() =~= attrs_view(attrs@.take(i as int)));
            assert(t.last() == attr_view(attrs@[i as int]));
        }
        if str_eq(n, "name") {
            name = normalize_slot_name(a.value.as_str());
        } else if str_eq(n, ":name") {
            dynamic_name = Some(a.value.clone());
        } else if str_eq(n, "v-if") || str_eq(n, "v-for") || str_eq(n, "v-show") {
        } else if starts_with(n, "@") || is_slot_syntax_attr_name(n) {
        } else if starts_with(n, ":") {
            let key = trim_start_matches(n, ":");
            let ghost e0 = entries@;
            entries.push(ScopeEntry { key, is_expr: true, value: a.value.clone() });
            proof {
                assert(entries_view(entries@) =~= entries_view(e0).push(entry_view(entries@.last())));
            }
        } else if !str_eq(n, "slot") && !str_eq(n, "slot-scope") {
            let ghost e0 = entries@;
            entries.push(ScopeEntry { key: a.name.clone(), is_expr: false, value: a.value.clone() });
            proof {
                assert(entries_view(entries@) =~= entries_view(e0).push(entry_view(entries@.last())));
            }
        }
        i = i + 1;
    }
    proof {
        assert(attrs@.take(attrs@.len() as int) =~= attrs@);
    }
    SlotOutlet { name, dynamic_name, entries }
}

/// The rules of all the style blocks, in order.
pub open spec fn all_rules(styles: Seq<Seq<char>>) -> Seq<(Seq<char>, Map<Seq<char>, ValueView>)>
    decreases styles.len(),
{
    if styles.len() == 0 {
        seq![]
    } else {
        all_rules(styles.drop_last()) + stylesheet(styles.last()).1
    }
}

/// Parses every style block and collects their rules, in order.
pub fn collect_rules(styles: &Vec<String>) -> (r: Vec<css::StyleRule>)
    ensures
        rules_view(r@) == all_rules(crate::text::texts(styles@)),
{
    let mut r: Vec<css::StyleRule> = Vec::new();
    let mut i: usize = 0;
    proof {
        assert(crate::text::texts(styles@).take(0) =~= Seq::<Seq<char>>::empty());
        assert(rules_view(r@) =~= Seq::<(Seq<char>, Map<Seq<char>, ValueView>)>::empty());
    }
    while i < styles.len()
        invariant
            i <= styles@.len(),
            rules_view(r@) == all_rules(crate::text::texts(styles@).take(i as int)),
        decreases styles.len() - i,
    {
        let (_rest, mut more) = parse_css(styles[i].as_str());
        let ghost r0 = r@;
        let ghost m0 = more@;
        r.append(&mut more);
        proof {
            let t = crate::text::texts(styles@).take(i + 1);
            assert(t.drop_last() =~= crate::text::texts(styles@).take(i as int));
            assert(t.last() == styles@[i as int]@);
            assert(rules_view(r@) =~= rules_view(r0) + rules_view(m0));
        }
        i = i + 1;
    }
    proof {
        assert(crate::text::texts(styles@).take(styles@.len() as int) =~= crate::text::texts(styles@));
    }
    r
}

} // verus!
