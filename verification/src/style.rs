use vstd::prelude::*;
use crate::text::{chars_of, concat, is_white, is_whitespace, push_char, str_eq, texts};
use crate::propmap::{pairs_map, PropMap};
use crate::tree::NodeTree;

verus! {

/// A CSS value.  Numbers are kept as the bit patterns of `f32` values
/// (`f32::to_bits`), so that they can be stored, compared and serialized
/// without floating-point arithmetic.
#[derive(Clone, Debug, PartialEq)]
pub enum StyleValue {
    Px(u32),
    Percent(u32),
    Em(u32),
    Vh(u32),
    Vw(u32),
    Color(u32, u32, u32, u32),
    Ident(String),
    String(String),
    Auto,
}

/// A copy of a style value.
pub fn clone_style_value(v: &StyleValue) -> (r: StyleValue)
    ensures
        r == *v,
{
    match v {
        StyleValue::Px(x) => StyleValue::Px(*x),
        StyleValue::Percent(x) => StyleValue::Percent(*x),
        StyleValue::Em(x) => StyleValue::Em(*x),
        StyleValue::Vh(x) => StyleValue::Vh(*x),
        StyleValue::Vw(x) => StyleValue::Vw(*x),
        StyleValue::Color(r, g, b, a) => StyleValue::Color(*r, *g, *b, *a),
        StyleValue::Ident(s) => StyleValue::Ident(s.clone()),
        StyleValue::String(s) => StyleValue::String(s.clone()),
        StyleValue::Auto => StyleValue::Auto,
    }
}

// ---------------------------------------------------------------------------
// Style sheets

/// A style rule: a selector and the properties it sets.
pub struct StyleRule {
    pub selector: String,
    pub declarations: PropMap<StyleValue>,
}

/// The rules of a style sheet, in the order they were first added.
pub struct StyleSheet {
    pub rules: Vec<StyleRule>,
}

/// No two rules have the same selector.
pub open spec fn distinct_selectors(rules: Seq<StyleRule>) -> bool {
    forall|i: int, j: int| 0 <= i < j < rules.len() ==> (#[trigger] rules[i]).selector@ != (#[trigger] rules[j]).selector@
}

/// The rule at `i` is the first with selector `sel`.
pub open spec fn first_with(rules: Seq<StyleRule>, sel: Seq<char>, i: int) -> bool {
    0 <= i < rules.len() && rules[i].selector@ == sel && forall|j: int| 0 <= j < i ==> (#[trigger] rules[j]).selector@ != sel
}

/// Sets every property of `from` in `m`.
pub fn merge_into(m: &mut PropMap<StyleValue>, from: &PropMap<StyleValue>)
    ensures
        final(m).view() == old(m).view().union_prefer_right(from.view()),
{
    let entries = from.entries();
    let ghost m0 = m.view();
    let mut i: usize = 0;
    proof {
        assert(m0.union_prefer_right(pairs_map(entries@.take(0))) =~= m0);
    }
    while i < entries.len()
        invariant
            i <= entries@.len(),
            m.view() == m0.union_prefer_right(pairs_map(entries@.take(i as int))),
            pairs_map(entries@) == from.view(),
        decreases entries.len() - i,
    {
        let k = entries[i].0.clone();
        let v = clone_style_value(&entries[i].1);
        m.insert(k, v);
        proof {
            let t = entries@.take(i + 1);
            assert(t.drop_last() =~= entries@.take(i as int));
            assert(m.view() =~= m0.union_prefer_right(pairs_map(t)));
        }
        i = i + 1;
    }
    proof {
        assert(entries@.take(entries@.len() as int) =~= entries@);
    }
}

impl StyleSheet {
    /// An empty style sheet.
    pub fn new() -> (s: StyleSheet)
        ensures
            s.rules@.len() == 0,
    {
        StyleSheet { rules: Vec::new() }
    }

    /// Adds a rule; where a rule with the same selector exists, the first
    /// such rule takes the new declarations instead.
    pub fn add_style_rule(&mut self, selector: String, declarations: PropMap<StyleValue>)
        ensures
            (exists|i: int| first_with(old(self).rules@, selector@, i)) ==> {
                let i = choose|i: int| first_with(old(self).rules@, selector@, i);
                &&& final(self).rules@.len() == old(self).rules@.len()
                &&& final(self).rules@[i].selector@ == selector@
                &&& final(self).rules@[i].declarations.view() == declarations.view()
                &&& forall|j: int| 0 <= j < old(self).rules@.len() && j != i ==> #[trigger] final(self).rules@[j] == old(self).rules@[j]
            },
            !(exists|i: int| first_with(old(self).rules@, selector@, i)) ==> {
                &&& final(self).rules@.len() == old(self).rules@.len() + 1
                &&& final(self).rules@.last().selector@ == selector@
                &&& final(self).rules@.last().declarations.view() == declarations.view()
                &&& forall|j: int| 0 <= j < old(self).rules@.len() ==> #[trigger] final(self).rules@[j] == old(self).rules@[j]
            },
            distinct_selectors(old(self).rules@) ==> distinct_selectors(final(self).rules@),
    {
        let mut i: usize = 0;
        while i < self.rules.len()
            invariant
                self.rules@ == old(self).rules@,
                i <= self.rules@.len(),
                forall|j: int| 0 <= j < i ==> (#[trigger] self.rules@[j]).selector@ != selector@,
            decreases self.rules.len() - i,
        {
            if str_eq(self.rules[i].selector.as_str(), selector.as_str()) {
                proof {
                    assert(first_with(old(self).rules@, selector@, i as int));
                    let c = choose|c: int| first_with(old(self).rules@, selector@, c);
                    if c < i {
                        assert(old(self).rules@[c].selector@ != selector@);
                    }
                    if c > i {
                        assert(old(self).rules@[i as int].selector@ != selector@);
                    }
                }
                let mut rules = Vec::new();
                std::mem::swap(&mut rules, &mut self.rules);
                let mut rule = rules.remove(i);
                rule.declarations = declarations;
                rules.insert(i, rule);
                self.rules = rules;
                proof {
                    assert forall|j: int| 0 <= j < old(self).rules@.len() && j != i implies #[trigger] self.rules@[j]
                        == old(self).rules@[j] by {
                        if j < i {
                            assert(self.rules@[j] == old(self).rules@[j]);
                        } else {
                            assert(self.rules@[j] == old(self).rules@[j]);
                        }
                    }
                    if distinct_selectors(old(self).rules@) {
                        assert forall|a: int, b: int| 0 <= a < b < self.rules@.len() implies (#[trigger] self.rules@[a]).selector@
                            != (#[trigger] self.rules@[b]).selector@ by {
                            assert(self.rules@[a].selector@ == old(self).rules@[a].selector@);
                            assert(self.rules@[b].selector@ == old(self).rules@[b].selector@);
                            assert(old(self).rules@[a].selector@ != old(self).rules@[b].selector@);
                        }
                    }
                }
                return;
            }
            i = i + 1;
        }
        let ghost sel = selector@;
        self.rules.push(StyleRule { selector, declarations });
        proof {
            if distinct_selectors(old(self).rules@) {
                assert forall|a: int, b: int| 0 <= a < b < self.rules@.len() implies (#[trigger] self.rules@[a]).selector@
                    != (#[trigger] self.rules@[b]).selector@ by {
                    if b < old(self).rules@.len() {
                        assert(old(self).rules@[a].selector@ != old(self).rules@[b].selector@);
                    } else {
                        assert(self.rules@[a] == old(self).rules@[a]);
                        assert(old(self).rules@[a].selector@ != sel);
                    }
                }
            }
        }
    }

    /// The properties the rules give a node with `classes`: for each class in
    /// turn, every rule whose selector is the class, with or without a
    /// leading dot, sets its properties, and so does every such rule with
    /// `:hover` appended when the node is `hovered`; later settings win, and
    /// the node's own `inline` properties win over all.
    pub fn resolve(&self, classes: &Vec<String>, hovered: bool, inline: &PropMap<StyleValue>) -> (r: PropMap<StyleValue>)
        ensures
            r.view() == cascade(self.rules@, texts(classes@), hovered, inline.view()),
    {
        let mut m: PropMap<StyleValue> = PropMap::new();
        let ghost cls = texts(classes@);
        let mut c: usize = 0;
        while c < classes.len()
            invariant
                c <= classes@.len(),
                cls == texts(classes@),
                m.view() == apply_classes(Map::empty(), self.rules@, cls.take(c as int), hovered),
            decreases classes.len() - c,
        {
            let name = classes[c].as_str();
            let dot = concat(".", name);
            let dot_hover = concat(dot.as_str(), ":hover");
            let plain_hover = concat(name, ":hover");
            let ghost m_class = m.view();
            proof {
                reveal_strlit(".");
            }
            let mut i: usize = 0;
            while i < self.rules.len()
                invariant
                    i <= self.rules@.len(),
                    dot@ == seq!['.'] + name@,
                    dot_hover@ == seq!['.'] + name@ + ":hover"@,
                    plain_hover@ == name@ + ":hover"@,
                    m.view() == apply_rules(m_class, self.rules@.take(i as int), name@, hovered),
                decreases self.rules.len() - i,
            {
                let sel = self.rules[i].selector.as_str();
                let is_match = str_eq(sel, dot.as_str()) || str_eq(sel, name);
                let is_hover_match = hovered && (str_eq(sel, dot_hover.as_str()) || str_eq(sel, plain_hover.as_str()));
                proof {
                    let t = self.rules@.take(i + 1);
                    assert(t.drop_last() =~= self.rules@.take(i as int));
                    assert(t.last() == self.rules@[i as int]);
                    assert(dot@ == seq!['.'] + name@);
                }
                if is_match || is_hover_match {
                    merge_into(&mut m, &self.rules[i].declarations);
                }
                i = i + 1;
            }
            proof {
                assert(self.rules@.take(self.rules@.len() as int) =~= self.rules@);
                let t = cls.take(c + 1);
                assert(t.drop_last() =~= cls.take(c as int));
                assert(t.last() == name@);
            }
            c = c + 1;
        }
        proof {
            assert(cls.take(classes@.len() as int) =~= cls);
        }
        merge_into(&mut m, inline);
        m
    }
}


/// A rule with selector `sel` applies to a node with `class`.
pub open spec fn matches_class(sel: Seq<char>, class: Seq<char>, hovered: bool) -> bool {
    ||| sel == seq!['.'] + class
    ||| sel == class
    ||| hovered && (sel == seq!['.'] + class + ":hover"@ || sel == class + ":hover"@)
}

/// `m` with the properties of each rule that applies to `class` set, in order.
pub open spec fn apply_rules(m: Map<Seq<char>, StyleValue>, rules: Seq<StyleRule>, class: Seq<char>, hovered: bool) -> Map<
    Seq<char>,
    StyleValue,
>
    decreases rules.len(),
{
    if rules.len() == 0 {
        m
    } else {
        let m1 = apply_rules(m, rules.drop_last(), class, hovered);
        if matches_class(rules.last().selector@, class, hovered) {
            m1.union_prefer_right(rules.last().declarations.view())
        } else {
            m1
        }
    }
}

/// `m` with the rules applied for each class in turn.
pub open spec fn apply_classes(m: Map<Seq<char>, StyleValue>, rules: Seq<StyleRule>, classes: Seq<Seq<char>>, hovered: bool) -> Map<
    Seq<char>,
    StyleValue,
>
    decreases classes.len(),
{
    if classes.len() == 0 {
        m
    } else {
        apply_rules(apply_classes(m, rules, classes.drop_last(), hovered), rules, classes.last(), hovered)
    }
}

/// The properties a node ends up with: its classes' rules, then its own.
pub open spec fn cascade(rules: Seq<StyleRule>, classes: Seq<Seq<char>>, hovered: bool, inline: Map<Seq<char>, StyleValue>) -> Map<
    Seq<char>,
    StyleValue,
> {
    apply_classes(Map::empty(), rules, classes, hovered).union_prefer_right(inline)
}

// ---------------------------------------------------------------------------
// Text transforms

/// What `str::to_uppercase` makes of a text.
pub uninterp spec fn upper_text(s: Seq<char>) -> Seq<char>;

/// What `str::to_lowercase` makes of a text.
pub uninterp spec fn lower_text(s: Seq<char>) -> Seq<char>;

/// The characters `char::to_uppercase` yields for a character.
pub uninterp spec fn upper_char(c: char) -> Seq<char>;

/// `str::to_uppercase`: the result is named, as Unicode case mapping takes
/// pages to state; it depends on the text alone.
#[verifier::external_body]
fn str_to_uppercase(s: &str) -> (r: String)
    ensures
        r@ == upper_text(s@),
{
    s.to_uppercase()
}

/// `str::to_lowercase`: the result is named, as Unicode case mapping takes
/// pages to state; it depends on the text alone.
#[verifier::external_body]
fn str_to_lowercase(s: &str) -> (r: String)
    ensures
        r@ == lower_text(s@),
{
    s.to_lowercase()
}

/// `char::to_uppercase`, its characters collected into a string: the result
/// is named, as Unicode case mapping takes pages to state; it depends on the
/// character alone.
#[verifier::external_body]
fn char_to_uppercase(c: char) -> (r: String)
    ensures
        r@ == upper_char(c),
{
    c.to_uppercase().collect()
}

/// `s` with the first character of every word upper-cased, where a word
/// starts at the beginning (when `cap` holds) or after white space.
pub open spec fn capitalize_from(s: Seq<char>, cap: bool) -> Seq<char>
    decreases s.len(),
{
    if s.len() == 0 {
        seq![]
    } else if is_white(s[0]) {
        seq![s[0]] + capitalize_from(s.drop_first(), true)
    } else if cap {
        upper_char(s[0]) + capitalize_from(s.drop_first(), false)
    } else {
        seq![s[0]] + capitalize_from(s.drop_first(), false)
    }
}

/// The text shown for `text` under the CSS `text-transform` value
/// `transform`; an unknown value leaves the text as it is.
pub open spec fn text_transform(text: Seq<char>, transform: Seq<char>) -> Seq<char> {
    if transform == "uppercase"@ {
        upper_text(text)
    } else if transform == "lowercase"@ {
        lower_text(text)
    } else if transform == "capitalize"@ {
        capitalize_from(text, true)
    } else {
        text
    }
}

/// The text shown for `text` under the CSS `text-transform` value
/// `transform`.
pub fn apply_text_transform(text: &str, transform: &str) -> (r: String)
    ensures
        r@ == text_transform(text@, transform@),
{
    if str_eq(transform, "uppercase") {
        str_to_uppercase(text)
    } else if str_eq(transform, "lowercase") {
        str_to_lowercase(text)
    } else if str_eq(transform, "capitalize") {
        capitalize(text)
    } else {
        text.to_string()
    }
}

fn capitalize(text: &str) -> (r: String)
    ensures
        r@ == capitalize_from(text@, true),
{
    let v = chars_of(text);
    let mut out = String::new();
    let mut cap = true;
    let mut i: usize = 0;
    proof {
        assert(v@.skip(0) =~= v@);
        assert(out@ + capitalize_from(v@, true) =~= capitalize_from(v@, true));
    }
    while i < v.len()
        invariant
            i <= v@.len(),
            v@ == text@,
            out@ + capitalize_from(v@.skip(i as int), cap) == capitalize_from(v@, true),
        decreases v.len() - i,
    {
        let ch = v[i];
        let ghost rest = v@.skip(i as int);
        proof {
            assert(rest[0] == ch);
            assert(rest.drop_first() =~= v@.skip(i + 1));
        }
        if is_whitespace(ch) {
            cap = true;
            push_char(&mut out, ch);
            proof {
                assert(out@ + capitalize_from(v@.skip(i + 1), cap) =~= (out@.drop_last()) + (seq![ch] + capitalize_from(rest.drop_first(), true)));
            }
        } else if cap {
            let ghost o0 = out@;
            let up = char_to_uppercase(ch);
            out = concat(out.as_str(), up.as_str());
            cap = false;
            proof {
                assert(out@ + capitalize_from(v@.skip(i + 1), cap) =~= o0 + (upper_char(ch) + capitalize_from(rest.drop_first(), false)));
            }
        } else {
            push_char(&mut out, ch);
            proof {
                assert(out@ + capitalize_from(v@.skip(i + 1), cap) =~= (out@.drop_last()) + (seq![ch] + capitalize_from(rest.drop_first(), false)));
            }
        }
        i = i + 1;
    }
    proof {
        assert(v@.skip(v@.len() as int) =~= Seq::<char>::empty());
        assert(out@ + Seq::<char>::empty() =~= out@);
    }
    out
}

/// What the style of a node is computed from: its classes, whether the
/// pointer is over it, and its own properties.
pub struct NodeStyle {
    pub classes: Vec<String>,
    pub hovered: bool,
    pub inline_styles: PropMap<StyleValue>,
}

/// The properties a node ends up with under `rules`.
pub open spec fn node_props(rules: Seq<StyleRule>, st: NodeStyle) -> Map<Seq<char>, StyleValue> {
    cascade(rules, texts(st.classes@), st.hovered, st.inline_styles.view())
}

/// The `text-transform` a node sets itself, if it sets one to an identifier.
pub open spec fn own_transform(m: Map<Seq<char>, StyleValue>) -> Option<Seq<char>> {
    if m.contains_key("text-transform"@) && m["text-transform"@] is Ident {
        Some(m["text-transform"@]->Ident_0@)
    } else {
        None
    }
}

/// `chain` runs from `node` up through parent links.
pub open spec fn is_path(tree: &NodeTree, node: int, chain: Seq<usize>) -> bool {
    &&& chain.len() > 0
    &&& chain[0] == node
    &&& forall|k: int| 0 <= k < chain.len() - 1 ==> tree.parent_of(#[trigger] chain[k] as int) == Some(chain[k + 1])
}

impl StyleSheet {
    /// The `text-transform` in force for `node`: the one the node sets
    /// itself, else the nearest ancestor's, else `none`.
    pub fn resolve_text_transform(&self, tree: &NodeTree, styles: &Vec<NodeStyle>, node: usize) -> (r: String)
        requires
            tree.wf(),
            tree.acyclic(),
            styles@.len() == tree.len(),
            node < tree.len(),
        ensures
            exists|chain: Seq<usize>| {
                &&& is_path(tree, node as int, chain)
                &&& forall|k: int| 0 <= k < chain.len() - 1 ==> own_transform(node_props(self.rules@, styles@[#[trigger] chain[k] as int])) is None
                &&& match own_transform(node_props(self.rules@, styles@[chain.last() as int])) {
                    Some(m) => r@ == m,
                    None => tree.parent_of(chain.last() as int) is None && r@ == "none"@,
                }
            },
    {
        let ghost rank = choose|rank: spec_fn(int) -> nat| tree.ranked(rank);
        let ghost bound = crate::tree::lemma_rank_bound(rank, tree.len());
        let mut current = node;
        let ghost mut chain: Seq<usize> = seq![node];
        loop
            invariant
                tree.wf(),
                tree.ranked(rank),
                forall|c: int| 0 <= c < tree.len() ==> #[trigger] rank(c) <= bound,
                styles@.len() == tree.len(),
                current < tree.len(),
                is_path(tree, node as int, chain),
                chain.last() == current,
                forall|k: int| 0 <= k < chain.len() - 1 ==> own_transform(node_props(self.rules@, styles@[#[trigger] chain[k] as int])) is None,
            decreases bound - rank(current as int),
        {
            let st = &styles[current];
            let resolved = self.resolve(&st.classes, st.hovered, &st.inline_styles);
            let found = match resolved.get("text-transform") {
                Some(StyleValue::Ident(mode)) => Some(mode.clone()),
                _ => None,
            };
            if let Some(mode) = found {
                return mode;
            }
            let l = tree.links(current);
            match l.parent {
                Some(p) => {
                    proof {
                        assert(tree.parent_of(current as int) is Some);
                        tree.lemma_parent_in_range(current as int);
                        assert(rank(current as int) < rank(p as int));
                        let old_chain = chain;
                        chain = chain.push(p);
                        assert forall|k: int| 0 <= k < chain.len() - 1 implies tree.parent_of(#[trigger] chain[k] as int) == Some(chain[k + 1]) by {
                            if k < old_chain.len() - 1 {
                                assert(chain[k] == old_chain[k] && chain[k + 1] == old_chain[k + 1]);
                            }
                        }
                        assert forall|k: int| 0 <= k < chain.len() - 1 implies own_transform(node_props(self.rules@, styles@[#[trigger] chain[k] as int])) is None by {
                            if k < old_chain.len() - 1 {
                                assert(chain[k] == old_chain[k]);
                            }
                        }
                    }
                    current = p;
                },
                None => {
                    return "none".to_string();
                },
            }
        }
    }
}

/// A node's own properties win over every rule: each property set inline
/// has its inline value, whatever the classes, rules and hover state.
pub proof fn law_inline_wins(
    rules: Seq<StyleRule>,
    classes: Seq<Seq<char>>,
    hovered: bool,
    inline: Map<Seq<char>, StyleValue>,
    k: Seq<char>,
)
    requires
        inline.contains_key(k),
    ensures
        cascade(rules, classes, hovered, inline).contains_key(k),
        cascade(rules, classes, hovered, inline)[k] == inline[k],
{
}

/// A hovered node gets the declarations of a rule written `.class:hover`
/// for its class, and, unhovered, of one written `.class`: when such a rule
/// is the last one and the class the node's last, each property it sets
/// that the node does not set inline has the rule's value.
pub proof fn law_class_rules_apply(
    rules: Seq<StyleRule>,
    classes: Seq<Seq<char>>,
    hovered: bool,
    inline: Map<Seq<char>, StyleValue>,
    k: Seq<char>,
)
    requires
        classes.len() > 0,
        rules.len() > 0,
        rules.last().selector@ == seq!['.'] + classes.last() + ":hover"@ && hovered
            || rules.last().selector@ == seq!['.'] + classes.last(),
        rules.last().declarations.view().contains_key(k),
        !inline.contains_key(k),
    ensures
        cascade(rules, classes, hovered, inline).contains_key(k),
        cascade(rules, classes, hovered, inline)[k] == rules.last().declarations.view()[k],
{
    assert(matches_class(rules.last().selector@, classes.last(), hovered));
}

/// A rule that does not apply changes nothing: a node without classes gets
/// exactly its own properties.
pub proof fn law_no_class_no_rule(rules: Seq<StyleRule>, hovered: bool, inline: Map<Seq<char>, StyleValue>)
    ensures
        cascade(rules, seq![], hovered, inline) == inline,
{
    assert(Map::<Seq<char>, StyleValue>::empty().union_prefer_right(inline) =~= inline);
}

// ---------------------------------------------------------------------------
// Layout modes

/// The layout modes of a node that its style sets by keyword.
#[derive(Clone, Copy, Debug, PartialEq, Eq)]
pub struct LayoutModes {
    /// `row` is 0, `column` 1.
    pub flex_direction: u32,
    /// `flex-start` 0, `center` 1, the end 2, `space-between` 3,
    /// `space-around` 4, `space-evenly` 5.
    pub justify_content: u32,
    /// `stretch` 0, the start 1, `center` 2, the end 3.
    pub align_items: u32,
    /// `relative` is 0, `absolute` 1.
    pub position_mode: u32,
}

/// The keyword a property is set to, if it is set to one.
pub open spec fn keyword(m: Map<Seq<char>, StyleValue>, prop: Seq<char>) -> Option<Seq<char>> {
    if m.contains_key(prop) && m[prop] is Ident {
        Some(m[prop]->Ident_0@)
    } else {
        None
    }
}

pub open spec fn justify_code(k: Seq<char>) -> u32 {
    if k == "center"@ {
        1
    } else if k == "flex-end"@ || k == "end"@ || k == "right"@ {
        2
    } else if k == "space-between"@ {
        3
    } else if k == "space-around"@ {
        4
    } else if k == "space-evenly"@ {
        5
    } else {
        0
    }
}

pub open spec fn align_code(k: Seq<char>) -> u32 {
    if k == "flex-start"@ || k == "start"@ || k == "left"@ {
        1
    } else if k == "center"@ {
        2
    } else if k == "flex-end"@ || k == "end"@ || k == "right"@ {
        3
    } else {
        0
    }
}

/// The layout modes after a node's resolved properties `m` are applied to
/// `l`: `flex-direction` and `position` change only for a keyword they know;
/// `justify-content` and `align-items` take any keyword, unknown ones giving
/// the default mode.
pub open spec fn modes_after(l: LayoutModes, m: Map<Seq<char>, StyleValue>) -> LayoutModes {
    LayoutModes {
        flex_direction: match keyword(m, "flex-direction"@) {
            Some(k) => if k == "row"@ { 0 } else if k == "column"@ { 1 } else { l.flex_direction },
            None => l.flex_direction,
        },
        justify_content: match keyword(m, "justify-content"@) {
            Some(k) => justify_code(k),
            None => l.justify_content,
        },
        align_items: match keyword(m, "align-items"@) {
            Some(k) => align_code(k),
            None => l.align_items,
        },
        position_mode: match keyword(m, "position"@) {
            Some(k) => if k == "relative"@ { 0 } else if k == "absolute"@ { 1 } else { l.position_mode },
            None => l.position_mode,
        },
    }
}

fn keyword_of<'a>(m: &'a PropMap<StyleValue>, prop: &str) -> (r: Option<&'a String>)
    ensures
        keyword(m.view(), prop@) == (match r {
            Some(s) => Some(s@),
            None => None::<Seq<char>>,
        }),
{
    match m.get(prop) {
        Some(StyleValue::Ident(s)) => Some(s),
        _ => None,
    }
}

/// Applies the keyword layout properties of a node's resolved style.
pub fn apply_layout_modes(l: LayoutModes, m: &PropMap<StyleValue>) -> (r: LayoutModes)
    ensures
        r == modes_after(l, m.view()),
{
    let mut r = l;
    if let Some(k) = keyword_of(m, "flex-direction") {
        if str_eq(k.as_str(), "row") {
            r.flex_direction = 0;
        } else if str_eq(k.as_str(), "column") {
            r.flex_direction = 1;
        }
    }
    if let Some(k) = keyword_of(m, "justify-content") {
        let k = k.as_str();
        r.justify_content = if str_eq(k, "center") {
            1
        } else if str_eq(k, "flex-end") || str_eq(k, "end") || str_eq(k, "right") {
            2
        } else if str_eq(k, "space-between") {
            3
        } else if str_eq(k, "space-around") {
            4
        } else if str_eq(k, "space-evenly") {
            5
        } else {
            0
        };
    }
    if let Some(k) = keyword_of(m, "align-items") {
        let k = k.as_str();
        r.align_items = if str_eq(k, "flex-start") || str_eq(k, "start") || str_eq(k, "left") {
            1
        } else if str_eq(k, "center") {
            2
        } else if str_eq(k, "flex-end") || str_eq(k, "end") || str_eq(k, "right") {
            3
        } else {
            0
        };
    }
    if let Some(k) = keyword_of(m, "position") {
        if str_eq(k.as_str(), "relative") {
            r.position_mode = 0;
        } else if str_eq(k.as_str(), "absolute") {
            r.position_mode = 1;
        }
    }
    r
}

} // verus!
