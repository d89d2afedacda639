use vstd::prelude::*;
use crate::text::{
    chars_of, has_prefix, lemma_text_lt_total, lemma_text_lt_trans, opt_str, starts_with, str_eq, strip_prefixes, text_less,
    text_lt, trim, trim_start_matches, trimmed,
};

verus! {

broadcast use vstd::string::group_string_axioms;

/// A node of a parsed template.
pub enum Node {
    Element(Element),
    Text(String),
    Binding(String),
}

/// An element of a parsed template.
pub struct Element {
    pub name: String,
    pub attributes: Vec<Attribute>,
    pub children: Vec<Node>,
}

/// An attribute of a template element.
pub struct Attribute {
    pub name: String,
    pub value: String,
    pub is_dynamic: bool,
}

/// A module imported by a template's script.
pub struct Import {
    pub module_name: String,
    pub is_component: bool,
}

/// A parsed template file.
pub struct Template {
    pub root: Vec<Node>,
    pub styles: Vec<String>,
    pub script: Option<String>,
    pub imports: Vec<Import>,
}

/// The text of an attribute.
pub struct AttrView {
    pub name: Seq<char>,
    pub value: Seq<char>,
    pub is_dynamic: bool,
}

/// The text of a template node.
pub enum NodeView {
    Element(ElementView),
    Text(Seq<char>),
    Binding(Seq<char>),
}

/// The text of a template element.
pub struct ElementView {
    pub name: Seq<char>,
    pub attributes: Seq<AttrView>,
    pub children: Seq<NodeView>,
}

pub open spec fn attr_view(a: Attribute) -> AttrView {
    AttrView { name: a.name@, value: a.value@, is_dynamic: a.is_dynamic }
}

pub open spec fn attrs_view(s: Seq<Attribute>) -> Seq<AttrView>
    decreases s.len(),
{
    if s.len() == 0 {
        Seq::empty()
    } else {
        attrs_view(s.drop_last()).push(attr_view(s.last()))
    }
}

pub open spec fn node_view(n: Node) -> NodeView
    decreases n,
{
    match n {
        Node::Element(e) => NodeView::Element(element_view(e)),
        Node::Text(t) => NodeView::Text(t@),
        Node::Binding(b) => NodeView::Binding(b@),
    }
}

pub open spec fn element_view(e: Element) -> ElementView
    decreases e,
{
    ElementView { name: e.name@, attributes: attrs_view(e.attributes@), children: nodes_view(e.children@) }
}

pub open spec fn nodes_view(s: Seq<Node>) -> Seq<NodeView>
    decreases s,
{
    if s.len() == 0 {
        Seq::empty()
    } else {
        nodes_view(s.drop_last()).push(node_view(s.last()))
    }
}

pub proof fn lemma_attrs_view_index(s: Seq<Attribute>)
    ensures
        attrs_view(s).len() == s.len(),
        forall|j: int| 0 <= j < s.len() ==> #[trigger] attrs_view(s)[j] == attr_view(s[j]),
    decreases s.len(),
{
    if s.len() > 0 {
        lemma_attrs_view_index(s.drop_last());
    }
}

pub proof fn lemma_nodes_view_index(s: Seq<Node>)
    ensures
        nodes_view(s).len() == s.len(),
        forall|j: int| 0 <= j < s.len() ==> #[trigger] nodes_view(s)[j] == node_view(s[j]),
    decreases s.len(),
{
    if s.len() > 0 {
        lemma_nodes_view_index(s.drop_last());
    }
}

pub proof fn lemma_nodes_view_concat(a: Seq<Node>, b: Seq<Node>)
    ensures
        nodes_view(a + b) == nodes_view(a) + nodes_view(b),
{
    lemma_nodes_view_index(a + b);
    lemma_nodes_view_index(a);
    lemma_nodes_view_index(b);
    assert(nodes_view(a + b) =~= nodes_view(a) + nodes_view(b));
}

/// A copy of an attribute.
pub fn clone_attribute(a: &Attribute) -> (r: Attribute)
    ensures
        attr_view(r) == attr_view(*a),
{
    Attribute { name: a.name.clone(), value: a.value.clone(), is_dynamic: a.is_dynamic }
}

/// A copy of a list of attributes.
pub fn clone_attributes(v: &Vec<Attribute>) -> (r: Vec<Attribute>)
    ensures
        attrs_view(r@) == attrs_view(v@),
{
    let mut r: Vec<Attribute> = Vec::new();
    let mut i: usize = 0;
    while i < v.len()
        invariant
            i <= v@.len(),
            attrs_view(r@) == attrs_view(v@.take(i as int)),
        decreases v.len() - i,
    {
        let a = clone_attribute(&v[i]);
        let ghost before = r@;
        r.push(a);
        proof {
            assert(r@.drop_last() =~= before);
            assert(v@.take(i + 1).drop_last() =~= v@.take(i as int));
        }
        i = i + 1;
    }
    proof {
        assert(v@.take(v@.len() as int) =~= v@);
    }
    r
}

/// A copy of a template node.
pub fn clone_node(n: &Node) -> (r: Node)
    ensures
        node_view(r) == node_view(*n),
    decreases n,
{
    match n {
        Node::Element(e) => Node::Element(clone_element(e)),
        Node::Text(t) => Node::Text(t.clone()),
        Node::Binding(b) => Node::Binding(b.clone()),
    }
}

/// A copy of a template element.
pub fn clone_element(e: &Element) -> (r: Element)
    ensures
        element_view(r) == element_view(*e),
    decreases e,
{
    Element { name: e.name.clone(), attributes: clone_attributes(&e.attributes), children: clone_nodes(&e.children) }
}

/// A copy of a list of template nodes.
pub fn clone_nodes(v: &Vec<Node>) -> (r: Vec<Node>)
    ensures
        nodes_view(r@) == nodes_view(v@),
    decreases v,
{
    let mut r: Vec<Node> = Vec::new();
    let mut i: usize = 0;
    while i < v.len()
        invariant
            i <= v@.len(),
            nodes_view(r@) == nodes_view(v@.take(i as int)),
        decreases v.len() - i,
    {
        let c = clone_node(&v[i]);
        let ghost before = r@;
        r.push(c);
        proof {
            assert(r@.drop_last() =~= before);
            assert(v@.take(i + 1).drop_last() =~= v@.take(i as int));
        }
        i = i + 1;
    }
    proof {
        assert(v@.take(v@.len() as int) =~= v@);
    }
    r
}

/// Whether `c` is an uppercase letter (Unicode `Uppercase` property).
pub uninterp spec fn is_upper(c: char) -> bool;

/// `char::is_uppercase`: its result is `is_upper(c)`.
#[verifier::external_body]
fn char_is_uppercase(c: char) -> (b: bool)
    ensures
        b == is_upper(c),
{
    c.is_uppercase()
}

/// Whether a tag name names a component: it begins with an uppercase letter.
pub open spec fn spec_is_component_name(name: Seq<char>) -> bool {
    name.len() > 0 && is_upper(name[0])
}

/// Whether a tag name names a component: it begins with an uppercase letter.
pub fn is_component_name(name: &str) -> (b: bool)
    ensures
        b == spec_is_component_name(name@),
{
    let v = chars_of(name);
    if v.len() == 0 {
        false
    } else {
        char_is_uppercase(v[0])
    }
}

/// Whether an attribute name is slot syntax: `#name`, `v-slot` or `v-slot:name`.
pub open spec fn spec_is_slot_syntax(name: Seq<char>) -> bool {
    has_prefix(name, "#"@) || name == "v-slot"@ || has_prefix(name, "v-slot:"@)
}

/// Whether an attribute name is slot syntax: `#name`, `v-slot` or `v-slot:name`.
pub fn is_slot_syntax_attr_name(name: &str) -> (b: bool)
    ensures
        b == spec_is_slot_syntax(name@),
{
    starts_with(name, "#") || str_eq(name, "v-slot") || starts_with(name, "v-slot:")
}

/// The scope binding written in an attribute value: the trimmed value,
/// unless that is empty or `true`.
pub open spec fn spec_scope_binding(value: Seq<char>) -> Option<Seq<char>> {
    let t = trim(value);
    if t.len() == 0 || t == "true"@ {
        None
    } else {
        Some(t)
    }
}

/// The scope binding written in an attribute value: the trimmed value,
/// unless that is empty or `true`.
pub fn parse_scope_binding(value: &str) -> (r: Option<String>)
    ensures
        opt_str(r) == spec_scope_binding(value@),
{
    let t = trimmed(value);
    if t.as_str().is_empty() || str_eq(t.as_str(), "true") {
        None
    } else {
        Some(t)
    }
}


/// A slot name: the trimmed text, or `default` when that is empty.
pub open spec fn spec_slot_name(raw: Seq<char>) -> Seq<char> {
    let t = trim(raw);
    if t.len() == 0 {
        "default"@
    } else {
        t
    }
}

/// A slot name: the trimmed text, or `default` when that is empty.
pub fn normalize_slot_name(raw: &str) -> (r: String)
    ensures
        r@ == spec_slot_name(raw@),
{
    let t = trimmed(raw);
    if t.as_str().is_empty() {
        "default".to_string()
    } else {
        t
    }
}

/// The slot an attribute in slot syntax names: `#name` and `v-slot:name`
/// give `name`, `v-slot` gives `default`; other attributes name none.
pub open spec fn spec_slot_of_syntax(name: Seq<char>) -> Option<Seq<char>> {
    if has_prefix(name, "#"@) {
        Some(spec_slot_name(strip_prefixes(name, "#"@)))
    } else if name == "v-slot"@ {
        Some("default"@)
    } else if has_prefix(name, "v-slot:"@) {
        Some(spec_slot_name(strip_prefixes(name, "v-slot:"@)))
    } else {
        None
    }
}

/// The slot an attribute in slot syntax names: `#name` and `v-slot:name`
/// give `name`, `v-slot` gives `default`; other attributes name none.
pub fn slot_name_from_slot_syntax_attr(attr: &Attribute) -> (r: Option<String>)
    ensures
        opt_str(r) == spec_slot_of_syntax(attr.name@),
{
    let name = attr.name.as_str();
    if starts_with(name, "#") {
        let stripped = trim_start_matches(name, "#");
        return Some(normalize_slot_name(stripped.as_str()));
    }
    if str_eq(name, "v-slot") {
        return Some("default".to_string());
    }
    if starts_with(name, "v-slot:") {
        let stripped = trim_start_matches(name, "v-slot:");
        return Some(normalize_slot_name(stripped.as_str()));
    }
    None
}

/// Whether an attribute is passed on to a component as a prop: directives
/// (`v-for`, `v-if`, `v-show`), slot syntax and `slot-scope` are not.
pub open spec fn spec_is_prop(name: Seq<char>) -> bool {
    !(name == "v-for"@ || name == "v-if"@ || name == "v-show"@ || spec_is_slot_syntax(name) || name == "slot-scope"@)
}

/// Whether an attribute is passed on to a component as a prop: directives
/// (`v-for`, `v-if`, `v-show`), slot syntax and `slot-scope` are not.
pub fn is_component_prop_attr(attr: &Attribute) -> (b: bool)
    ensures
        b == spec_is_prop(attr.name@),
{
    let name = attr.name.as_str();
    !(str_eq(name, "v-for") || str_eq(name, "v-if") || str_eq(name, "v-show") || is_slot_syntax_attr_name(name)
        || str_eq(name, "slot-scope"))
}

/// The slot name and scope binding that the attributes of a `<template>`
/// give, attribute by attribute: slot syntax sets the name and the binding
/// (each only if not yet set), `slot` sets the name, `slot-scope` the binding.
pub open spec fn template_binding_state(attrs: Seq<AttrView>) -> (Option<Seq<char>>, Option<Seq<char>>)
    decreases attrs.len(),
{
    if attrs.len() == 0 {
        (None, None)
    } else {
        let (name, scope) = template_binding_state(attrs.drop_last());
        let a = attrs.last();
        if spec_is_slot_syntax(a.name) {
            (
                if name is None { spec_slot_of_syntax(a.name) } else { name },
                if scope is None { spec_scope_binding(a.value) } else { scope },
            )
        } else if a.name == "slot"@ {
            (if name is None { Some(spec_slot_name(a.value)) } else { name }, scope)
        } else if a.name == "slot-scope"@ {
            (name, if scope is None { spec_scope_binding(a.value) } else { scope })
        } else {
            (name, scope)
        }
    }
}

/// The slot a `<template>` fills and its scope binding; `None` when its
/// attributes name no slot.
pub fn slot_binding_from_template_attrs(attrs: &[Attribute]) -> (r: Option<(String, Option<String>)>)
    ensures
        template_binding_state(attrs_view(attrs@)).0 is None ==> r is None,
        template_binding_state(attrs_view(attrs@)).0 matches Some(n) ==> (r matches Some(p) && p.0@ == n
            && opt_str(p.1) == template_binding_state(attrs_view(attrs@)).1),
{
    let mut slot_name: Option<String> = None;
    let mut scope_binding: Option<String> = None;
    let mut i: usize = 0;
    while i < attrs.len()
        invariant
            i <= attrs@.len(),
            opt_str(slot_name) == template_binding_state(attrs_view(attrs@.take(i as int))).0,
            opt_str(scope_binding) == template_binding_state(attrs_view(attrs@.take(i as int))).1,
        decreases attrs.len() - i,
    {
        let attr = &attrs[i];
        proof {
            assert(attrs@.take(i + 1).drop_last() =~= attrs@.take(i as int));
            assert(attrs@.take(i + 1).last() == attrs@[i as int]);
            let av = attrs_view(attrs@.take(i + 1));
            assert(av.drop_last() == attrs_view(attrs@.take(i as int)));
            assert(av.last() == attr_view(attrs@[i as int]));
        }
        if is_slot_syntax_attr_name(attr.name.as_str()) {
            if slot_name.is_none() {
                slot_name = slot_name_from_slot_syntax_attr(attr);
            }
            if scope_binding.is_none() {
                scope_binding = parse_scope_binding(attr.value.as_str());
            }
        } else if str_eq(attr.name.as_str(), "slot") {
            if slot_name.is_none() {
                slot_name = Some(normalize_slot_name(attr.value.as_str()));
            }
        } else if str_eq(attr.name.as_str(), "slot-scope") {
            if scope_binding.is_none() {
                scope_binding = parse_scope_binding(attr.value.as_str());
            }
        }
        i = i + 1;
    }
    proof {
        assert(attrs@.take(attrs@.len() as int) =~= attrs@);
    }
    match slot_name {
        Some(name) => Some((name, scope_binding)),
        None => None,
    }
}

/// The default-slot scope binding given on a component itself: from the
/// first attribute that is slot syntax naming the default slot, or
/// `slot-scope`.
pub open spec fn spec_default_scope(attrs: Seq<AttrView>) -> Option<Seq<char>>
    decreases attrs.len(),
{
    if attrs.len() == 0 {
        None
    } else {
        let a = attrs[0];
        if spec_is_slot_syntax(a.name) && spec_slot_of_syntax(a.name) == Some("default"@) {
            spec_scope_binding(a.value)
        } else if !spec_is_slot_syntax(a.name) && a.name == "slot-scope"@ {
            spec_scope_binding(a.value)
        } else {
            spec_default_scope(attrs.drop_first())
        }
    }
}

/// The default-slot scope binding given on a component itself: from the
/// first attribute that is slot syntax naming the default slot, or
/// `slot-scope`.
pub fn component_default_scope_binding(attrs: &[Attribute]) -> (r: Option<String>)
    ensures
        opt_str(r) == spec_default_scope(attrs_view(attrs@)),
{
    let mut i: usize = 0;
    proof {
        assert(attrs@.subrange(0, attrs@.len() as int) =~= attrs@);
    }
    while i < attrs.len()
        invariant
            i <= attrs@.len(),
            spec_default_scope(attrs_view(attrs@)) == spec_default_scope(attrs_view(attrs@.subrange(i as int, attrs@.len() as int))),
        decreases attrs.len() - i,
    {
        let attr = &attrs[i];
        proof {
            let rest = attrs@.subrange(i as int, attrs@.len() as int);
            lemma_attrs_view_index(rest);
            lemma_attrs_view_index(rest.drop_first());
            assert(rest[0] == attrs@[i as int]);
            assert(rest.drop_first() =~= attrs@.subrange(i + 1, attrs@.len() as int));
            assert(attrs_view(rest).drop_first() =~= attrs_view(rest.drop_first()));
        }
        if is_slot_syntax_attr_name(attr.name.as_str()) {
            if let Some(name) = slot_name_from_slot_syntax_attr(attr) {
                if str_eq(name.as_str(), "default") {
                    return parse_scope_binding(attr.value.as_str());
                }
            }
        } else if str_eq(attr.name.as_str(), "slot-scope") {
            return parse_scope_binding(attr.value.as_str());
        }
        i = i + 1;
    }
    None
}


/// The nodes given to one slot of a component, and their scope binding.
pub struct SlotContent {
    pub scope_binding: Option<String>,
    pub nodes: Vec<Node>,
}

/// What a slot holds: its scope binding and its nodes.
pub open spec fn content_view(c: SlotContent) -> (Option<Seq<char>>, Seq<NodeView>) {
    (opt_str(c.scope_binding), nodes_view(c.nodes@))
}

/// The slots of a component by name.
pub open spec fn slots_view(e: Seq<(String, SlotContent)>) -> Map<Seq<char>, (Option<Seq<char>>, Seq<NodeView>)>
    decreases e.len(),
{
    if e.len() == 0 {
        Map::empty()
    } else {
        slots_view(e.drop_last()).insert(e.last().0@, content_view(e.last().1))
    }
}

/// The slot contents of a component, one entry per slot name, in the order
/// of the names.
pub struct SlotMap {
    pub entries: Vec<(String, SlotContent)>,
}

impl SlotMap {
    pub open spec fn view(&self) -> Map<Seq<char>, (Option<Seq<char>>, Seq<NodeView>)> {
        slots_view(self.entries@)
    }

    /// No slot name occurs twice, and the entries are in the order of
    /// their names.
    pub open spec fn wf(&self) -> bool {
        &&& forall|i: int, j: int|
            0 <= i < j < self.entries@.len() ==> #[trigger] self.entries@[i].0@ != #[trigger] self.entries@[j].0@
        &&& forall|i: int, j: int|
            0 <= i < j < self.entries@.len() ==> text_lt(#[trigger] self.entries@[i].0@, #[trigger] self.entries@[j].0@)
    }

    pub fn new() -> (m: SlotMap)
        ensures
            m.wf(),
            m.view() == Map::<Seq<char>, (Option<Seq<char>>, Seq<NodeView>)>::empty(),
    {
        SlotMap { entries: Vec::new() }
    }

    /// The content of slot `name`, if any.
    pub fn get(&self, name: &str) -> (r: Option<&SlotContent>)
        requires
            self.wf(),
        ensures
            r is None <==> !self.view().contains_key(name@),
            r matches Some(c) ==> self.view()[name@] == content_view(*c),
    {
        match self.find(name) {
            Some(j) => {
                proof { lemma_slots_view_lookup(self.entries@, j as int); }
                Some(&self.entries[j].1)
            },
            None => None,
        }
    }

    /// Where a slot called `name`, which is not there, goes in name order.
    fn insert_position(&self, name: &str) -> (r: usize)
        requires
            self.wf(),
            !self.view().contains_key(name@),
        ensures
            r <= self.entries@.len(),
            forall|j: int| 0 <= j < r ==> text_lt(#[trigger] self.entries@[j].0@, name@),
            forall|j: int| r <= j < self.entries@.len() ==> text_lt(name@, #[trigger] self.entries@[j].0@),
    {
        let mut i: usize = 0;
        while i < self.entries.len()
            invariant
                i <= self.entries@.len(),
                self.wf(),
                !self.view().contains_key(name@),
                forall|j: int| 0 <= j < i ==> text_lt(#[trigger] self.entries@[j].0@, name@),
            decreases self.entries.len() - i,
        {
            if !text_less(self.entries[i].0.as_str(), name) {
                proof {
                    lemma_slots_view_dom(self.entries@, name@);
                    let first = self.entries@[i as int].0@;
                    if first == name@ {
                        assert(self.entries@[i as int].0@ == name@);
                        assert(self.view().contains_key(name@));
                    }
                    lemma_text_lt_total(first, name@);
                    assert forall|j: int| i <= j < self.entries@.len() implies text_lt(name@, #[trigger] self.entries@[j].0@) by {
                        if j > i {
                            assert(text_lt(self.entries@[i as int].0@, self.entries@[j].0@));
                            lemma_text_lt_trans(name@, first, self.entries@[j].0@);
                        }
                    }
                }
                return i;
            }
            i = i + 1;
        }
        i
    }

    fn find(&self, name: &str) -> (r: Option<usize>)
        ensures
            r matches Some(j) ==> j < self.entries@.len() && self.entries@[j as int].0@ == name@,
            r is None ==> !self.view().contains_key(name@),
    {
        let mut i: usize = 0;
        while i < self.entries.len()
            invariant
                i <= self.entries@.len(),
                forall|k: int| 0 <= k < i ==> self.entries@[k].0@ != name@,
            decreases self.entries.len() - i,
        {
            if str_eq(self.entries[i].0.as_str(), name) {
                return Some(i);
            }
            i = i + 1;
        }
        proof { lemma_slots_view_dom(self.entries@, name@); }
        None
    }
}

pub proof fn lemma_slots_view_dom(e: Seq<(String, SlotContent)>, k: Seq<char>)
    ensures
        slots_view(e).contains_key(k) <==> exists|j: int| 0 <= j < e.len() && #[trigger] e[j].0@ == k,
    decreases e.len(),
{
    if e.len() > 0 {
        lemma_slots_view_dom(e.drop_last(), k);
        if slots_view(e.drop_last()).contains_key(k) {
            let j = choose|j: int| 0 <= j < e.drop_last().len() && #[trigger] e.drop_last()[j].0@ == k;
            assert(e[j].0@ == k);
        }
        if exists|j: int| 0 <= j < e.len() && #[trigger] e[j].0@ == k {
            let j = choose|j: int| 0 <= j < e.len() && #[trigger] e[j].0@ == k;
            if j < e.len() - 1 {
                assert(e.drop_last()[j].0@ == k);
            }
        }
    }
}

pub proof fn lemma_slots_view_lookup(e: Seq<(String, SlotContent)>, j: int)
    requires
        0 <= j < e.len(),
        forall|a: int, b: int| 0 <= a < b < e.len() ==> #[trigger] e[a].0@ != #[trigger] e[b].0@,
    ensures
        slots_view(e).contains_key(e[j].0@),
        slots_view(e)[e[j].0@] == content_view(e[j].1),
    decreases e.len(),
{
    if j < e.len() - 1 {
        lemma_slots_view_lookup(e.drop_last(), j);
        assert(e[j].0@ != e.last().0@);
    }
}

proof fn lemma_slots_view_insert(e: Seq<(String, SlotContent)>, pos: int, x: (String, SlotContent))
    requires
        0 <= pos <= e.len(),
        forall|j: int| 0 <= j < e.len() ==> #[trigger] e[j].0@ != x.0@,
    ensures
        slots_view(e.insert(pos, x)) == slots_view(e).insert(x.0@, content_view(x.1)),
    decreases e.len(),
{
    let u = e.insert(pos, x);
    if pos == e.len() {
        assert(u.drop_last() =~= e);
    } else {
        assert(u.drop_last() =~= e.drop_last().insert(pos, x));
        assert(u.last() == e.last());
        lemma_slots_view_insert(e.drop_last(), pos, x);
        assert(e.last().0@ != x.0@);
        assert(slots_view(u) =~= slots_view(e).insert(x.0@, content_view(x.1)));
    }
}

proof fn lemma_slots_view_update(e: Seq<(String, SlotContent)>, j: int, x: (String, SlotContent))
    requires
        0 <= j < e.len(),
        x.0@ == e[j].0@,
        forall|a: int, b: int| 0 <= a < b < e.len() ==> #[trigger] e[a].0@ != #[trigger] e[b].0@,
    ensures
        slots_view(e.update(j, x)) == slots_view(e).insert(x.0@, content_view(x.1)),
    decreases e.len(),
{
    let u = e.update(j, x);
    if j == e.len() - 1 {
        assert(u.drop_last() =~= e.drop_last());
        lemma_slots_view_dom(e.drop_last(), x.0@);
        assert(slots_view(e).insert(x.0@, content_view(x.1)) =~= slots_view(e.drop_last()).insert(x.0@, content_view(x.1)));
    } else {
        assert(u.drop_last() =~= e.drop_last().update(j, x));
        lemma_slots_view_update(e.drop_last(), j, x);
        assert(e.last().0@ != x.0@);
        assert(slots_view(u) =~= slots_view(e).insert(x.0@, content_view(x.1)));
    }
}

/// The slots after `nodes` are given to slot `name` with scope binding
/// `scope`: nothing changes when there are no nodes; otherwise the nodes are
/// appended to the slot, which keeps its binding if it has one.
pub open spec fn spec_push(
    m: Map<Seq<char>, (Option<Seq<char>>, Seq<NodeView>)>,
    name: Seq<char>,
    scope: Option<Seq<char>>,
    nodes: Seq<NodeView>,
) -> Map<Seq<char>, (Option<Seq<char>>, Seq<NodeView>)> {
    if nodes.len() == 0 {
        m
    } else if m.contains_key(name) {
        m.insert(name, (if m[name].0 is None { scope } else { m[name].0 }, m[name].1 + nodes))
    } else {
        m.insert(name, (scope, nodes))
    }
}

/// Gives `nodes` to slot `slot_name` with scope binding `scope_binding`.
pub fn push_slot_content(slots: &mut SlotMap, slot_name: String, scope_binding: Option<String>, nodes: Vec<Node>)
    requires
        old(slots).wf(),
    ensures
        final(slots).wf(),
        final(slots).view() == spec_push(old(slots).view(), slot_name@, opt_str(scope_binding), nodes_view(nodes@)),
{
    proof { lemma_nodes_view_index(nodes@); }
    if nodes.len() == 0 {
        return;
    }
    let ghost e0 = slots.entries@;
    match slots.find(slot_name.as_str()) {
        Some(j) => {
            let (key, mut content) = slots.entries.remove(j);
            let ghost c0 = content;
            if content.scope_binding.is_none() {
                content.scope_binding = scope_binding;
            }
            let mut more = nodes;
            let ghost added = more@;
            content.nodes.append(&mut more);
            proof {
                lemma_nodes_view_concat(c0.nodes@, added);
                lemma_slots_view_lookup(e0, j as int);
            }
            slots.entries.insert(j, (key, content));
            proof {
                assert(slots.entries@ =~= e0.update(j as int, (key, content)));
                lemma_slots_view_update(e0, j as int, (key, content));
                assert forall|a: int, b: int| 0 <= a < b < slots.entries@.len() implies
                    #[trigger] slots.entries@[a].0@ != #[trigger] slots.entries@[b].0@ by {
                    assert(e0[a].0@ != e0[b].0@);
                }
            }
        },
        None => {
            let pos = slots.insert_position(slot_name.as_str());
            let content = SlotContent { scope_binding, nodes };
            let ghost x = (slot_name, content);
            slots.entries.insert(pos, (slot_name, content));
            proof {
                let e1 = slots.entries@;
                assert(e1 =~= e0.insert(pos as int, x));
                assert forall|j: int| 0 <= j < e0.len() implies #[trigger] e0[j].0@ != x.0@ by {
                    lemma_text_lt_total(e0[j].0@, x.0@);
                }
                lemma_slots_view_insert(e0, pos as int, x);
                assert forall|a: int, b: int| 0 <= a < b < e1.len() implies
                    text_lt(#[trigger] e1[a].0@, #[trigger] e1[b].0@) by {
                    if b < pos {
                        assert(text_lt(e0[a].0@, e0[b].0@));
                    } else if b == pos {
                    } else if a < pos {
                        assert(text_lt(e0[a].0@, x.0@));
                        lemma_text_lt_trans(e0[a].0@, x.0@, e0[b - 1].0@);
                    } else if a == pos {
                    } else {
                        assert(text_lt(e0[a - 1].0@, e0[b - 1].0@));
                    }
                }
                assert forall|a: int, b: int| 0 <= a < b < e1.len() implies
                    #[trigger] e1[a].0@ != #[trigger] e1[b].0@ by {
                    lemma_text_lt_total(e1[a].0@, e1[b].0@);
                }
            }
        },
    }
}


/// Whether an attribute stays on an element moved into a named slot.
pub open spec fn keep_attr(a: AttrView) -> bool {
    a.name != "slot"@ && a.name != "slot-scope"@
}

/// The attributes other than `slot` and `slot-scope`, in order.
pub open spec fn kept_attrs(s: Seq<AttrView>) -> Seq<AttrView>
    decreases s.len(),
{
    if s.len() == 0 {
        Seq::empty()
    } else if keep_attr(s.last()) {
        kept_attrs(s.drop_last()).push(s.last())
    } else {
        kept_attrs(s.drop_last())
    }
}

/// Whether some attribute is called `n`.
pub open spec fn has_attr_named(attrs: Seq<AttrView>, n: Seq<char>) -> bool {
    exists|j: int| 0 <= j < attrs.len() && #[trigger] attrs[j].name == n
}

/// The position of the first attribute called `n`.
pub open spec fn first_attr_named(attrs: Seq<AttrView>, n: Seq<char>) -> int {
    choose|j: int| 0 <= j < attrs.len() && #[trigger] attrs[j].name == n && forall|k: int| 0 <= k < j ==> attrs[k].name != n
}

/// Where one child of a component goes: a `<template>` naming a slot gives
/// that slot its children; an element with a `slot` attribute goes, without
/// its `slot` and `slot-scope` attributes, to the slot the first one names;
/// anything else goes to the default slot with the component's binding.
pub open spec fn slot_step(
    m: Map<Seq<char>, (Option<Seq<char>>, Seq<NodeView>)>,
    child: NodeView,
    default_scope: Option<Seq<char>>,
) -> Map<Seq<char>, (Option<Seq<char>>, Seq<NodeView>)> {
    match child {
        NodeView::Element(ce) => {
            let tb = template_binding_state(ce.attributes);
            if ce.name == "template"@ && tb.0 is Some {
                spec_push(m, tb.0->0, tb.1, ce.children)
            } else if has_attr_named(ce.attributes, "slot"@) {
                let a = ce.attributes[first_attr_named(ce.attributes, "slot"@)];
                spec_push(
                    m,
                    spec_slot_name(a.value),
                    None,
                    seq![NodeView::Element(ElementView { name: ce.name, attributes: kept_attrs(ce.attributes), children: ce.children })],
                )
            } else {
                spec_push(m, "default"@, default_scope, seq![child])
            }
        },
        _ => spec_push(m, "default"@, default_scope, seq![child]),
    }
}

/// The slots a component's children fill, child by child.
pub open spec fn spec_split(children: Seq<NodeView>, default_scope: Option<Seq<char>>) -> Map<
    Seq<char>,
    (Option<Seq<char>>, Seq<NodeView>),
>
    decreases children.len(),
{
    if children.len() == 0 {
        Map::empty()
    } else {
        slot_step(spec_split(children.drop_last(), default_scope), children.last(), default_scope)
    }
}

/// The position of the first attribute called `name`.
fn find_attr(attrs: &Vec<Attribute>, name: &str) -> (r: Option<usize>)
    ensures
        r is None <==> !has_attr_named(attrs_view(attrs@), name@),
        r matches Some(j) ==> j == first_attr_named(attrs_view(attrs@), name@) && j < attrs@.len()
            && attrs@[j as int].name@ == name@,
{
    proof { lemma_attrs_view_index(attrs@); }
    let ghost av = attrs_view(attrs@);
    let mut i: usize = 0;
    while i < attrs.len()
        invariant
            i <= attrs@.len(),
            av == attrs_view(attrs@),
            av.len() == attrs@.len(),
            forall|j: int| 0 <= j < attrs@.len() ==> #[trigger] av[j] == attr_view(attrs@[j]),
            forall|k: int| 0 <= k < i ==> av[k].name != name@,
        decreases attrs.len() - i,
    {
        if str_eq(attrs[i].name.as_str(), name) {
            proof {
                assert(av[i as int].name == name@);
                let c = first_attr_named(av, name@);
                assert(0 <= c < av.len() && av[c].name == name@ && forall|k: int| 0 <= k < c ==> av[k].name != name@);
                if c < i {
                    assert(av[c].name != name@);
                }
                if c > i {
                    assert(av[i as int].name != name@);
                }
            }
            return Some(i);
        }
        i = i + 1;
    }
    None
}

/// The attributes other than `slot` and `slot-scope`.
fn without_slot_attrs(attrs: &Vec<Attribute>) -> (r: Vec<Attribute>)
    ensures
        attrs_view(r@) == kept_attrs(attrs_view(attrs@)),
{
    let mut r: Vec<Attribute> = Vec::new();
    let mut i: usize = 0;
    while i < attrs.len()
        invariant
            i <= attrs@.len(),
            attrs_view(r@) == kept_attrs(attrs_view(attrs@.take(i as int))),
        decreases attrs.len() - i,
    {
        proof {
            assert(attrs@.take(i + 1).drop_last() =~= attrs@.take(i as int));
            let av = attrs_view(attrs@.take(i + 1));
            assert(av.drop_last() == attrs_view(attrs@.take(i as int)));
            assert(av.last() == attr_view(attrs@[i as int]));
        }
        let a = &attrs[i];
        if !(str_eq(a.name.as_str(), "slot") || str_eq(a.name.as_str(), "slot-scope")) {
            let c = clone_attribute(a);
            let ghost before = r@;
            r.push(c);
            proof {
                assert(r@.drop_last() =~= before);
            }
        }
        i = i + 1;
    }
    proof {
        assert(attrs@.take(attrs@.len() as int) =~= attrs@);
    }
    r
}

fn clone_opt_string(o: &Option<String>) -> (r: Option<String>)
    ensures
        opt_str(r) == opt_str(*o),
{
    match o {
        Some(s) => Some(s.clone()),
        None => None,
    }
}

/// Sorts the children of a component into its slots.
pub fn split_component_slots(el: &Element) -> (r: SlotMap)
    ensures
        r.wf(),
        r.view() == spec_split(nodes_view(el.children@), spec_default_scope(attrs_view(el.attributes@))),
{
    let mut slots = SlotMap::new();
    let default_scope = component_default_scope_binding(el.attributes.as_slice());
    let ghost ds = spec_default_scope(attrs_view(el.attributes@));
    let ghost kids = nodes_view(el.children@);
    proof { lemma_nodes_view_index(el.children@); }
    let mut i: usize = 0;
    while i < el.children.len()
        invariant
            i <= el.children@.len(),
            opt_str(default_scope) == ds,
            kids == nodes_view(el.children@),
            kids.len() == el.children@.len(),
            forall|j: int| 0 <= j < el.children@.len() ==> #[trigger] kids[j] == node_view(el.children@[j]),
            slots.wf(),
            slots.view() == spec_split(kids.take(i as int), ds),
        decreases el.children.len() - i,
    {
        let child = &el.children[i];
        let ghost before = slots.view();
        proof {
            assert(kids.take(i + 1).drop_last() =~= kids.take(i as int));
            assert(kids.take(i + 1).last() == node_view(*child));
        }
        match child {
            Node::Element(ce) => {
                let mut done = false;
                if str_eq(ce.name.as_str(), "template") {
                    match slot_binding_from_template_attrs(ce.attributes.as_slice()) {
                        Some((slot_name, scope_binding)) => {
                            let kids_copy = clone_nodes(&ce.children);
                            push_slot_content(&mut slots, slot_name, scope_binding, kids_copy);
                            proof {
                                assert(node_view(*child) == NodeView::Element(element_view(*ce)));
                                assert(slots.view() == slot_step(before, node_view(*child), ds));
                            }
                            done = true;
                        },
                        None => {},
                    }
                }
                if !done {
                    match find_attr(&ce.attributes, "slot") {
                        Some(k) => {
                            proof { lemma_attrs_view_index(ce.attributes@); }
                            let slot_name = normalize_slot_name(ce.attributes[k].value.as_str());
                            let moved = Element {
                                name: ce.name.clone(),
                                attributes: without_slot_attrs(&ce.attributes),
                                children: clone_nodes(&ce.children),
                            };
                            let nodes = vec![Node::Element(moved)];
                            proof {
                                assert(nodes_view(nodes@) =~= seq![node_view(nodes@[0])]) by {
                                    lemma_nodes_view_index(nodes@);
                                }
                            }
                            push_slot_content(&mut slots, slot_name, None, nodes);
                            proof {
                                let cev = element_view(*ce);
                                assert(node_view(*child) == NodeView::Element(cev));
                                assert(cev.attributes[k as int] == attr_view(ce.attributes@[k as int]));
                                assert(element_view(moved) == ElementView { name: cev.name, attributes: kept_attrs(cev.attributes), children: cev.children });
                                assert(slots.view() == slot_step(before, node_view(*child), ds));
                            }
                        },
                        None => {
                            let nodes = vec![clone_node(child)];
                            proof {
                                lemma_nodes_view_index(nodes@);
                                assert(nodes_view(nodes@) =~= seq![node_view(*child)]);
                            }
                            push_slot_content(&mut slots, "default".to_string(), clone_opt_string(&default_scope), nodes);
                            proof {
                                reveal_strlit("default");
                                assert(node_view(*child) == NodeView::Element(element_view(*ce)));
                                assert(slots.view() == slot_step(before, node_view(*child), ds));
                            }
                        },
                    }
                }
            },
            _ => {
                let nodes = vec![clone_node(child)];
                proof {
                    lemma_nodes_view_index(nodes@);
                    assert(nodes_view(nodes@) =~= seq![node_view(*child)]);
                }
                push_slot_content(&mut slots, "default".to_string(), clone_opt_string(&default_scope), nodes);
                proof {
                    reveal_strlit("default");
                    assert(slots.view() == slot_step(before, node_view(*child), ds));
                }
            },
        }
        proof {
            assert(spec_split(kids.take(i + 1), ds) == slot_step(spec_split(kids.take(i as int), ds), kids[i as int], ds));
        }
        i = i + 1;
    }
    proof {
        assert(kids.take(kids.len() as int) =~= kids);
    }
    slots
}


/// The map a list of key/value pairs builds, later pairs winning.
pub open spec fn pairs_view(p: Seq<(String, String)>) -> Map<Seq<char>, Seq<char>>
    decreases p.len(),
{
    if p.len() == 0 {
        Map::empty()
    } else {
        pairs_view(p.drop_last()).insert(p.last().0@, p.last().1@)
    }
}

/// The values a slot outlet hands to the content that fills it.
pub struct SlotScope {
    values: Vec<(String, String)>,
}

impl Default for SlotScope {
    /// A scope holding no values.
    fn default() -> (s: SlotScope)
        ensures
            s.view() == Map::<Seq<char>, Seq<char>>::empty(),
    {
        SlotScope { values: Vec::new() }
    }
}

impl SlotScope {
    pub closed spec fn view(&self) -> Map<Seq<char>, Seq<char>> {
        pairs_view(self.values@)
    }

    /// A scope holding `values` (where a key repeats, the last pair counts).
    pub fn new(values: Vec<(String, String)>) -> (s: SlotScope)
        ensures
            s.view() == pairs_view(values@),
    {
        SlotScope { values }
    }

    fn position(&self, key: &str) -> (r: Option<usize>)
        ensures
            r is None <==> !self.view().contains_key(key@),
            r matches Some(j) ==> j < self.values@.len() && self.view()[key@] == self.values@[j as int].1@,
    {
        let mut i: usize = self.values.len();
        proof {
            assert(self.values@.take(i as int) =~= self.values@);
        }
        while i > 0
            invariant
                i <= self.values@.len(),
                pairs_view(self.values@).contains_key(key@) ==> (pairs_view(self.values@.take(i as int)).contains_key(key@)
                    && pairs_view(self.values@.take(i as int))[key@] == pairs_view(self.values@)[key@]),
                !pairs_view(self.values@).contains_key(key@) ==> !pairs_view(self.values@.take(i as int)).contains_key(key@),
                pairs_view(self.values@.take(i as int)).contains_key(key@) ==> pairs_view(self.values@).contains_key(key@),
            decreases i,
        {
            let ghost t = self.values@.take(i as int);
            proof {
                assert(t.drop_last() =~= self.values@.take(i - 1));
                assert(t.last() == self.values@[i - 1]);
            }
            if str_eq(self.values[i - 1].0.as_str(), key) {
                return Some(i - 1);
            }
            i = i - 1;
        }
        proof {
            assert(self.values@.take(0) =~= Seq::<(String, String)>::empty());
        }
        None
    }

    /// The value of `key`, or the empty string.
    pub fn get(&self, key: &str) -> (r: String)
        ensures
            self.view().contains_key(key@) ==> r@ == self.view()[key@],
            !self.view().contains_key(key@) ==> r@ == Seq::<char>::empty(),
    {
        match self.position(key) {
            Some(j) => self.values[j].1.clone(),
            None => String::new(),
        }
    }

    /// Whether `key` has a value.
    pub fn has(&self, key: &str) -> (b: bool)
        ensures
            b == self.view().contains_key(key@),
    {
        self.position(key).is_some()
    }
}

} // verus!
