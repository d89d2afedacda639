use vstd::prelude::*;
use crate::css::{has_at, is_space, run_end, starts_at, tag, tag_at};
use crate::template::{
    attr_view, attrs_view, element_view, lemma_attrs_view_index, lemma_nodes_view_concat, lemma_nodes_view_index, node_view,
    nodes_view, spec_is_component_name, is_component_name, AttrView, Attribute, Element, ElementView, Import, Node,
    NodeView, Template,
};
use crate::text::{chars_of, concat, join_words, opt_str, push_char, str_eq, string_of, texts, trim, trimmed};

verus! {

broadcast use vstd::string::group_string_axioms;

// ---------------------------------------------------------------------------
// Characters

/// Whether `c` is alphabetic or numeric (Unicode `Alphabetic` or `Numeric`).
pub uninterp spec fn is_alnum(c: char) -> bool;

/// `char::is_alphanumeric`: its result is `is_alnum(c)`.
#[verifier::external_body]
fn char_is_alphanumeric(c: char) -> (b: bool)
    ensures
        b == is_alnum(c),
{
    c.is_alphanumeric()
}

/// A character that may begin a name.
pub open spec fn is_name_start(c: char) -> bool {
    is_alnum(c) || c == ':' || c == '@' || c == '#'
}

/// A character that may continue a name.
pub open spec fn is_name_char(c: char) -> bool {
    is_name_start(c) || c == '-' || c == '_' || c == '.'
}

/// A character of plain text.
pub open spec fn is_text_char(c: char) -> bool {
    c != '<' && c != '{'
}

/// The character classes of templates, by number.
pub open spec fn class(kind: u8) -> spec_fn(char) -> bool {
    if kind == 0 {
        |c: char| is_space(c)
    } else if kind == 1 {
        |c: char| is_name_start(c)
    } else if kind == 2 {
        |c: char| is_name_char(c)
    } else {
        |c: char| is_text_char(c)
    }
}

fn in_class(c: char, kind: u8) -> (b: bool)
    requires
        kind < 4,
    ensures
        b == class(kind)(c),
{
    if kind == 0 {
        c == ' ' || c == '\t' || c == '\r' || c == '\n'
    } else if kind == 1 {
        c == ':' || c == '@' || c == '#' || char_is_alphanumeric(c)
    } else if kind == 2 {
        c == ':' || c == '@' || c == '#' || c == '-' || c == '_' || c == '.' || char_is_alphanumeric(c)
    } else {
        c != '<' && c != '{'
    }
}

proof fn lemma_run_end(s: Seq<char>, i: int, p: spec_fn(char) -> bool)
    requires
        0 <= i <= s.len(),
    ensures
        i <= run_end(s, i, p) <= s.len(),
    decreases s.len() - i,
{
    if i < s.len() && p(s[i]) {
        lemma_run_end(s, i + 1, p);
    }
}

/// The end of the run of characters of class `kind` from `i`.
fn scan(s: &Vec<char>, i: usize, kind: u8) -> (r: usize)
    requires
        i <= s@.len(),
        kind < 4,
    ensures
        r == run_end(s@, i as int, class(kind)),
        i <= r <= s@.len(),
{
    proof {
        lemma_run_end(s@, i as int, class(kind));
    }
    let ghost target = run_end(s@, i as int, class(kind));
    let n = s.len();
    let mut j = i;
    while j < n && in_class(s[j], kind)
        invariant
            n == s@.len(),
            i <= j <= n,
            kind < 4,
            target == run_end(s@, i as int, class(kind)),
            run_end(s@, j as int, class(kind)) == target,
        decreases n - j,
    {
        j = j + 1;
    }
    j
}

/// The first place at or after `j` where `t` occurs.
pub open spec fn find(s: Seq<char>, j: int, t: Seq<char>) -> Option<int>
    decreases s.len() - j,
{
    if j < 0 || j + t.len() > s.len() {
        None
    } else if starts_at(s, j, t) {
        Some(j)
    } else if j >= s.len() {
        None
    } else {
        find(s, j + 1, t)
    }
}

proof fn lemma_find(s: Seq<char>, j: int, t: Seq<char>)
    requires
        0 <= j,
    ensures
        find(s, j, t) matches Some(k) ==> j <= k && k + t.len() <= s.len() && starts_at(s, k, t),
    decreases s.len() - j,
{
    if j + t.len() <= s.len() && !starts_at(s, j, t) && j < s.len() {
        lemma_find(s, j + 1, t);
    }
}

/// The first place at or after `j` where `t` occurs (`take_until`).
fn find_from(s: &Vec<char>, j: usize, t: &str) -> (r: Option<usize>)
    requires
        j <= s@.len(),
    ensures
        r matches Some(k) ==> find(s@, j as int, t@) == Some(k as int),
        r is None ==> find(s@, j as int, t@) is None,
{
    let n = s.len();
    let tv = chars_of(t);
    let mut k = j;
    while k <= n && tv.len() <= n - k
        invariant
            n == s@.len(),
            j <= k,
            tv@ == t@,
            find(s@, k as int, t@) == find(s@, j as int, t@),
        decreases n + 1 - k,
    {
        if has_at(s, k, t) {
            return Some(k);
        }
        if k >= n {
            return None;
        }
        k = k + 1;
    }
    None
}

// ---------------------------------------------------------------------------
// Names, attributes and tags

/// Where a name that starts at `i` ends: a first run of name-start
/// characters, then a run of name characters.
pub open spec fn name_end(s: Seq<char>, i: int) -> Option<int> {
    let a = run_end(s, i, class(1));
    if a > i {
        Some(run_end(s, a, class(2)))
    } else {
        None
    }
}

fn scan_name(s: &Vec<char>, i: usize) -> (r: Option<usize>)
    requires
        i <= s@.len(),
    ensures
        r matches Some(e) ==> name_end(s@, i as int) == Some(e as int) && i < e <= s@.len(),
        r is None ==> name_end(s@, i as int) is None,
{
    let a = scan(s, i, 1);
    if a > i {
        Some(scan(s, a, 2))
    } else {
        None
    }
}

/// What a backslash followed by `c` stands for in a quoted value.
pub open spec fn unescape(c: char) -> char {
    if c == 'n' {
        '\n'
    } else if c == 'r' {
        '\r'
    } else if c == 't' {
        '\t'
    } else {
        c
    }
}

/// The rest of a quoted value from `j` (just after a backslash when
/// `escaped`): where it ends, after the closing quote, and its text.
pub open spec fn quoted_rest(s: Seq<char>, j: int, escaped: bool) -> Option<(int, Seq<char>)>
    decreases s.len() - j,
{
    if j < 0 || j >= s.len() {
        None
    } else if escaped {
        match quoted_rest(s, j + 1, false) {
            Some((e, rest)) => Some((e, seq![unescape(s[j])] + rest)),
            None => None,
        }
    } else if s[j] == '\\' {
        quoted_rest(s, j + 1, true)
    } else if s[j] == '"' {
        Some((j + 1, seq![]))
    } else {
        match quoted_rest(s, j + 1, false) {
            Some((e, rest)) => Some((e, seq![s[j]] + rest)),
            None => None,
        }
    }
}

/// A double-quoted value at `i`, with backslash escapes.
pub open spec fn quoted(s: Seq<char>, i: int) -> Option<(int, Seq<char>)> {
    if 0 <= i < s.len() && s[i] == '"' {
        quoted_rest(s, i + 1, false)
    } else {
        None
    }
}

proof fn lemma_quoted_rest(s: Seq<char>, j: int, escaped: bool)
    requires
        0 <= j,
    ensures
        quoted_rest(s, j, escaped) matches Some((e, v)) ==> j < e <= s.len(),
    decreases s.len() - j,
{
    if 0 <= j < s.len() {
        if escaped || s[j] != '"' {
            lemma_quoted_rest(s, j + 1, !escaped && s[j] == '\\');
        }
    }
}

fn parse_quoted(s: &Vec<char>, i: usize) -> (r: Option<(usize, String)>)
    requires
        i <= s@.len(),
    ensures
        r matches Some((e, v)) ==> quoted(s@, i as int) == Some((e as int, v@)) && i < e <= s@.len(),
        r is None ==> quoted(s@, i as int) is None,
{
    let n = s.len();
    if !(i < n && s[i] == '"') {
        return None;
    }
    proof {
        lemma_quoted_rest(s@, i + 1, false);
    }
    let mut out = String::new();
    let mut escaped = false;
    let mut j = i + 1;
    loop
        invariant
            n == s@.len(),
            i < j <= n,
            quoted(s@, i as int) == (match quoted_rest(s@, j as int, escaped) {
                Some((e, rest)) => Some((e, out@ + rest)),
                None => None,
            }),
        decreases n - j,
    {
        if j >= n {
            return None;
        }
        let ch = s[j];
        if escaped {
            let d = if ch == 'n' {
                '\n'
            } else if ch == 'r' {
                '\r'
            } else if ch == 't' {
                '\t'
            } else {
                ch
            };
            let ghost o0 = out@;
            push_char(&mut out, d);
            escaped = false;
            proof {
                match quoted_rest(s@, j + 1, false) {
                    Some((e, rest)) => {
                        assert(o0 + (seq![d] + rest) =~= out@ + rest);
                    },
                    None => {},
                }
            }
        } else if ch == '\\' {
            escaped = true;
        } else if ch == '"' {
            proof {
                assert(out@ + Seq::<char>::empty() =~= out@);
            }
            return Some((j + 1, out));
        } else {
            let ghost o0 = out@;
            push_char(&mut out, ch);
            proof {
                match quoted_rest(s@, j + 1, false) {
                    Some((e, rest)) => {
                        assert(o0 + (seq![ch] + rest) =~= out@ + rest);
                    },
                    None => {},
                }
            }
        }
        j = j + 1;
    }
}

/// An attribute at `i`: a name, then optionally `=` and a quoted value; a
/// missing (or unreadable) value is `true`.  Names beginning with `:` or
/// `@` are dynamic.
pub open spec fn attribute(s: Seq<char>, i: int) -> Option<(int, AttrView)> {
    match name_end(s, i) {
        Some(a) => {
            let name = s.subrange(i, a);
            let (e, value) = if 0 <= a < s.len() && s[a] == '=' && quoted(s, a + 1) is Some {
                quoted(s, a + 1)->0
            } else {
                (a, "true"@)
            };
            Some((e, AttrView { name, value, is_dynamic: name.len() > 0 && (name[0] == ':' || name[0] == '@') }))
        },
        None => None,
    }
}

fn parse_attribute(s: &Vec<char>, i: usize) -> (r: Option<(usize, Attribute)>)
    requires
        i <= s@.len(),
    ensures
        r matches Some((e, a)) ==> attribute(s@, i as int) == Some((e as int, attr_view(a))) && i < e <= s@.len(),
        r is None ==> attribute(s@, i as int) is None,
{
    let a = match scan_name(s, i) {
        Some(a) => a,
        None => {
            return None;
        },
    };
    let name = string_of(s, i, a);
    let is_dynamic = s[i] == ':' || s[i] == '@';
    let mut e = a;
    let mut value: Option<String> = None;
    if a < s.len() && s[a] == '=' {
        if let Some((e2, v)) = parse_quoted(s, a + 1) {
            e = e2;
            value = Some(v);
        }
    }
    let value = match value {
        Some(v) => v,
        None => "true".to_string(),
    };
    Some((e, Attribute { name, value, is_dynamic }))
}

/// The attributes that follow from `i`, each after white space.
pub open spec fn attribute_list(s: Seq<char>, i: int) -> (int, Seq<AttrView>)
    decreases s.len() - i,
{
    let a = run_end(s, i, class(0));
    if 0 <= i < a {
        match attribute(s, a) {
            Some((e, at)) => if a < e <= s.len() {
                let (k, rest) = attribute_list(s, e);
                (k, seq![at] + rest)
            } else {
                (i, seq![])
            },
            None => (i, seq![]),
        }
    } else {
        (i, seq![])
    }
}

fn parse_attribute_list(s: &Vec<char>, i: usize) -> (r: (usize, Vec<Attribute>))
    requires
        i <= s@.len(),
    ensures
        attribute_list(s@, i as int) == (r.0 as int, attrs_view(r.1@)),
        i <= r.0 <= s@.len(),
{
    let mut attrs: Vec<Attribute> = Vec::new();
    let mut q = i;
    proof {
        assert(attrs_view(attrs@) + attribute_list(s@, q as int).1 =~= attribute_list(s@, q as int).1);
    }
    loop
        invariant
            i <= q <= s@.len(),
            attribute_list(s@, i as int) == ({
                let (k, rest) = attribute_list(s@, q as int);
                (k, attrs_view(attrs@) + rest)
            }),
        decreases s@.len() - q,
    {
        let a = scan(s, q, 0);
        if a > q {
            match parse_attribute(s, a) {
                Some((e, at)) => {
                    let ghost a0 = attrs@;
                    attrs.push(at);
                    proof {
                        assert(attrs@.drop_last() =~= a0);
                        let (k, rest) = attribute_list(s@, e as int);
                        assert(attrs_view(a0) + (seq![attr_view(at)] + rest) =~= attrs_view(attrs@) + rest);
                    }
                    q = e;
                },
                None => {
                    proof {
                        assert(attrs_view(attrs@) + Seq::<AttrView>::empty() =~= attrs_view(attrs@));
                    }
                    return (q, attrs);
                },
            }
        } else {
            proof {
                assert(attrs_view(attrs@) + Seq::<AttrView>::empty() =~= attrs_view(attrs@));
            }
            return (q, attrs);
        }
    }
}

/// An opening tag at `i`: `<`, a name, attributes, optional white space,
/// an optional `/` (self-closing), `>`.
pub open spec fn open_tag(s: Seq<char>, i: int) -> Option<(int, Seq<char>, Seq<AttrView>, bool)> {
    if 0 <= i < s.len() && s[i] == '<' && name_end(s, i + 1) is Some {
        let a = name_end(s, i + 1)->0;
        let (b, attrs) = attribute_list(s, a);
        let c = run_end(s, b, class(0));
        let self_closing = 0 <= c < s.len() && s[c] == '/';
        let d = if self_closing { c + 1 } else { c };
        if 0 <= d < s.len() && s[d] == '>' {
            Some((d + 1, s.subrange(i + 1, a), attrs, self_closing))
        } else {
            None
        }
    } else {
        None
    }
}

proof fn lemma_attribute_list(s: Seq<char>, i: int)
    requires
        0 <= i <= s.len(),
    ensures
        i <= attribute_list(s, i).0 <= s.len(),
    decreases s.len() - i,
{
    let a = run_end(s, i, class(0));
    lemma_run_end(s, i, class(0));
    if i < a {
        if let Some((e, at)) = attribute(s, a) {
            if a < e <= s.len() {
                lemma_attribute_list(s, e);
            }
        }
    }
}

fn parse_open_tag(s: &Vec<char>, i: usize) -> (r: Option<(usize, String, Vec<Attribute>, bool)>)
    requires
        i <= s@.len(),
    ensures
        r matches Some((e, name, attrs, sc)) ==> open_tag(s@, i as int) == Some((e as int, name@, attrs_view(attrs@), sc))
            && i < e <= s@.len(),
        r is None ==> open_tag(s@, i as int) is None,
{
    let n = s.len();
    if !(i < n && s[i] == '<') {
        return None;
    }
    let a = match scan_name(s, i + 1) {
        Some(a) => a,
        None => {
            return None;
        },
    };
    let (b, attrs) = parse_attribute_list(s, a);
    let c = scan(s, b, 0);
    let self_closing = c < n && s[c] == '/';
    let d = if self_closing { c + 1 } else { c };
    if d < n && s[d] == '>' {
        let name = string_of(s, i + 1, a);
        Some((d + 1, name, attrs, self_closing))
    } else {
        None
    }
}

/// A closing tag at `i`: `</`, a name, optional white space, `>`.
pub open spec fn close_tag(s: Seq<char>, i: int) -> Option<int> {
    if starts_at(s, i, seq!['<', '/']) && name_end(s, i + 2) is Some {
        let c = run_end(s, name_end(s, i + 2)->0, class(0));
        if 0 <= c < s.len() && s[c] == '>' {
            Some(c + 1)
        } else {
            None
        }
    } else {
        None
    }
}

fn parse_close_tag(s: &Vec<char>, i: usize) -> (r: Option<usize>)
    requires
        i <= s@.len(),
    ensures
        r matches Some(e) ==> close_tag(s@, i as int) == Some(e as int) && i < e <= s@.len(),
        r is None ==> close_tag(s@, i as int) is None,
{
    let n = s.len();
    if !(i < n && i + 1 < n && s[i] == '<' && s[i + 1] == '/') {
        proof {
            if starts_at(s@, i as int, seq!['<', '/']) {
                assert(s@.subrange(i as int, i + 2)[0] == '<');
                assert(s@.subrange(i as int, i + 2)[1] == '/');
            }
        }
        return None;
    }
    proof {
        assert(s@.subrange(i as int, i + 2) =~= seq!['<', '/']);
    }
    let a = match scan_name(s, i + 2) {
        Some(a) => a,
        None => {
            return None;
        },
    };
    let c = scan(s, a, 0);
    if c < n && s[c] == '>' {
        Some(c + 1)
    } else {
        None
    }
}

// ---------------------------------------------------------------------------
// Nodes

/// A binding `{{ expression }}` at `j`: the trimmed expression.
pub open spec fn binding(s: Seq<char>, j: int) -> Option<(int, NodeView)> {
    if starts_at(s, j, seq!['{', '{']) {
        match find(s, j + 2, seq!['}', '}']) {
            Some(k) => Some((k + 2, NodeView::Binding(trim(s.subrange(j + 2, k))))),
            None => None,
        }
    } else {
        None
    }
}

/// Text at `j`: a run of characters other than `<` and `{`.
pub open spec fn text(s: Seq<char>, j: int) -> Option<(int, NodeView)> {
    let k = run_end(s, j, class(3));
    if k > j {
        Some((k, NodeView::Text(s.subrange(j, k))))
    } else {
        None
    }
}

/// A node at `i`, after white space: a binding, an element or text; a
/// closing tag or the end of the input is no node.
pub open spec fn node(s: Seq<char>, i: int) -> Option<(int, NodeView)>
    decreases s.len() - i, 1int,
{
    let j = run_end(s, i, class(0));
    if j < 0 || j >= s.len() {
        None
    } else if starts_at(s, j, seq!['{', '{']) {
        binding(s, j)
    } else if s[j] == '<' {
        if starts_at(s, j, seq!['<', '/']) {
            None
        } else if i <= j {
            element(s, j)
        } else {
            None
        }
    } else {
        text(s, j)
    }
}

/// An element at `j`: a self-closing tag, or an opening tag, child nodes,
/// optional white space and a closing tag (of any name).
pub open spec fn element(s: Seq<char>, j: int) -> Option<(int, NodeView)>
    decreases s.len() - j, 0int,
{
    match open_tag(s, j) {
        Some((a, name, attrs, self_closing)) => if self_closing {
            Some((a, NodeView::Element(ElementView { name, attributes: attrs, children: seq![] })))
        } else if j < a {
            let (b, children) = node_list(s, a);
            match close_tag(s, run_end(s, b, class(0))) {
                Some(e) => Some((e, NodeView::Element(ElementView { name, attributes: attrs, children }))),
                None => None,
            }
        } else {
            None
        },
        None => None,
    }
}

/// As many nodes as follow one another from `a`.
pub open spec fn node_list(s: Seq<char>, a: int) -> (int, Seq<NodeView>)
    decreases s.len() - a, 2int,
{
    match node(s, a) {
        Some((e, n)) => if a < e <= s.len() {
            let (k, rest) = node_list(s, e);
            (k, seq![n] + rest)
        } else {
            (a, seq![])
        },
        None => (a, seq![]),
    }
}

proof fn lemma_node_list(s: Seq<char>, a: int)
    requires
        0 <= a <= s.len(),
    ensures
        a <= node_list(s, a).0 <= s.len(),
    decreases s.len() - a,
{
    if let Some((e, n)) = node(s, a) {
        if a < e <= s.len() {
            lemma_node_list(s, e);
        }
    }
}

fn parse_node(s: &Vec<char>, i: usize) -> (r: Option<(usize, Node)>)
    requires
        i <= s@.len(),
    ensures
        r matches Some((e, n)) ==> node(s@, i as int) == Some((e as int, node_view(n))) && i < e <= s@.len(),
        r is None ==> node(s@, i as int) is None,
    decreases s@.len() - i, 1int,
{
    let n = s.len();
    let j = scan(s, i, 0);
    if j >= n {
        return None;
    }
    if j + 1 < n && s[j] == '{' && s[j + 1] == '{' {
        proof {
            assert(s@.subrange(j as int, j + 2) =~= seq!['{', '{']);
        }
        return match find_from(s, j + 2, "}}") {
            Some(k) => {
                proof {
                    reveal_strlit("}}");
                    assert("}}"@ =~= seq!['}', '}']);
                    lemma_find(s@, j + 2, seq!['}', '}']);
                }
                let raw = string_of(s, j + 2, k);
                let b = trimmed(raw.as_str());
                Some((k + 2, Node::Binding(b)))
            },
            None => {
                proof {
                    reveal_strlit("}}");
                    assert("}}"@ =~= seq!['}', '}']);
                }
                None
            },
        };
    }
    proof {
        if starts_at(s@, j as int, seq!['{', '{']) {
            assert(s@.subrange(j as int, j + 2)[0] == '{');
            assert(s@.subrange(j as int, j + 2)[1] == '{');
        }
    }
    if s[j] == '<' {
        if j + 1 < n && s[j + 1] == '/' {
            proof {
                assert(s@.subrange(j as int, j + 2) =~= seq!['<', '/']);
            }
            return None;
        }
        proof {
            if starts_at(s@, j as int, seq!['<', '/']) {
                assert(s@.subrange(j as int, j + 2)[1] == '/');
            }
        }
        return parse_element(s, j);
    }
    let k = scan(s, j, 3);
    if k > j {
        Some((k, Node::Text(string_of(s, j, k))))
    } else {
        None
    }
}

fn parse_element(s: &Vec<char>, j: usize) -> (r: Option<(usize, Node)>)
    requires
        j <= s@.len(),
    ensures
        r matches Some((e, n)) ==> element(s@, j as int) == Some((e as int, node_view(n))) && j < e <= s@.len(),
        r is None ==> element(s@, j as int) is None,
    decreases s@.len() - j, 0int,
{
    let (a, name, attributes, self_closing) = match parse_open_tag(s, j) {
        Some(t) => t,
        None => {
            return None;
        },
    };
    if self_closing {
        let e = Element { name, attributes, children: Vec::new() };
        proof {
            assert(nodes_view(e.children@) =~= Seq::<NodeView>::empty());
        }
        return Some((a, Node::Element(e)));
    }
    let (b, children) = parse_node_list(s, a);
    let c = scan(s, b, 0);
    match parse_close_tag(s, c) {
        Some(e) => Some((e, Node::Element(Element { name, attributes, children }))),
        None => None,
    }
}

fn parse_node_list(s: &Vec<char>, a: usize) -> (r: (usize, Vec<Node>))
    requires
        a <= s@.len(),
    ensures
        node_list(s@, a as int) == (r.0 as int, nodes_view(r.1@)),
        a <= r.0 <= s@.len(),
    decreases s@.len() - a, 2int,
{
    match parse_node(s, a) {
        Some((e, n)) => {
            let (k, rest) = parse_node_list(s, e);
            let mut out = vec![n];
            let mut rest = rest;
            let ghost rv = rest@;
            out.append(&mut rest);
            proof {
                assert(out@ =~= seq![n] + rv);
                lemma_nodes_view_concat(seq![n], rv);
                lemma_nodes_view_index(seq![n]);
                assert(nodes_view(seq![n]) =~= seq![node_view(n)]);
            }
            (k, out)
        },
        None => {
            proof {
                assert(nodes_view(Seq::<Node>::empty()) =~= Seq::<NodeView>::empty());
            }
            (a, Vec::new())
        },
    }
}

// ---------------------------------------------------------------------------
// Scripts

/// A statement of a Rust block, as `syn` parses it.
#[verifier::external_type_specification]
#[verifier::external_body]
pub struct ExStmt(syn::Stmt);

/// What is read of a statement: whether it is an item, the name of the
/// module it declares (a `mod` item), the name of the struct it declares (a
/// `struct` item), and the statement printed back as Rust tokens.
pub type StmtView = (bool, Option<Seq<char>>, Option<Seq<char>>, Seq<char>);

/// A statement of a script block with what is read of it.
pub struct ScriptStmt {
    pub is_item: bool,
    pub mod_name: Option<String>,
    pub struct_name: Option<String>,
    pub text: String,
    pub stmt: syn::Stmt,
}

pub open spec fn stmt_view(s: ScriptStmt) -> StmtView {
    (s.is_item, opt_str(s.mod_name), opt_str(s.struct_name), s.text@)
}

pub open spec fn stmts_view(v: Seq<ScriptStmt>) -> Seq<StmtView> {
    Seq::new(v.len(), |k: int| stmt_view(v[k]))
}

/// For the text `s` of a Rust block, what `syn` finds in it: nothing when
/// it does not parse as a block; otherwise each statement in order, read as
/// `StmtView` says.
pub uninterp spec fn block_stmts(s: Seq<char>) -> Option<Seq<StmtView>>;

/// Parses `text` as a Rust block (`syn::parse_str::<syn::Block>`) and hands
/// back its statements, each with what is read of it (`ToTokens` and
/// `TokenStream`'s `Display` print it).  The result is named by
/// `block_stmts`.
#[verifier::external_body]
fn parse_block(text: &str) -> (r: Option<Vec<ScriptStmt>>)
    ensures
        r is None ==> block_stmts(text@) is None,
        r matches Some(v) ==> block_stmts(text@) == Some(stmts_view(v@)),
{
    let block = syn::parse_str::<syn::Block>(text).ok()?;
    Some(block.stmts.into_iter().map(|stmt| {
        let (is_item, mod_name, struct_name) = match &stmt {
            syn::Stmt::Item(syn::Item::Mod(i)) => (true, Some(i.ident.to_string()), None),
            syn::Stmt::Item(syn::Item::Struct(i)) => (true, None, Some(i.ident.to_string())),
            syn::Stmt::Item(_) => (true, None, None),
            _ => (false, None, None),
        };
        let text = quote::ToTokens::to_token_stream(&stmt).to_string();
        ScriptStmt { is_item, mod_name, struct_name, text, stmt }
    }).collect())
}

/// A script as the block it is parsed as.
pub open spec fn wrap_block(src: Seq<char>) -> Seq<char> {
    "{ "@ + src + " }"@
}

/// Reads a script as a block (`wrap_block`).
fn read_script(script: &str) -> (r: Option<Vec<ScriptStmt>>)
    ensures
        r is None <==> block_stmts(wrap_block(script@)) is None,
        r matches Some(v) ==> block_stmts(wrap_block(script@)) == Some(stmts_view(v@)),
{
    let open = concat("{ ", script);
    let wrapped = concat(open.as_str(), " }");
    proof {
        assert(wrapped@ =~= wrap_block(script@));
    }
    parse_block(wrapped.as_str())
}

/// The module names declared by the statements, in order.
pub open spec fn mod_names(stmts: Seq<StmtView>) -> Seq<Option<Seq<char>>> {
    Seq::new(stmts.len(), |k: int| stmts[k].1)
}

/// The names of the declared modules that are components: those whose
/// name begins with an uppercase letter, in order.
pub open spec fn component_mods(mods: Seq<Option<Seq<char>>>) -> Seq<Seq<char>>
    decreases mods.len(),
{
    if mods.len() == 0 {
        seq![]
    } else {
        let rest = component_mods(mods.drop_last());
        match mods.last() {
            Some(n) => if spec_is_component_name(n) { rest.push(n) } else { rest },
            None => rest,
        }
    }
}

/// Whether a statement declares a component module.
pub open spec fn is_component_stmt(st: StmtView) -> bool {
    st.1 matches Some(n) && spec_is_component_name(n)
}

/// The printed statements that do not declare a component module, in order.
pub open spec fn kept_texts(stmts: Seq<StmtView>) -> Seq<Seq<char>>
    decreases stmts.len(),
{
    if stmts.len() == 0 {
        seq![]
    } else {
        let rest = kept_texts(stmts.drop_last());
        if is_component_stmt(stmts.last()) { rest } else { rest.push(stmts.last().3) }
    }
}

/// What is left of a script once its component modules are taken out: the
/// other statements printed back and joined by single spaces, or the script
/// itself where it does not parse as a block.
pub open spec fn script_text(src: Seq<char>) -> Seq<char> {
    match block_stmts(wrap_block(src)) {
        Some(st) => join_words(kept_texts(st)),
        None => src,
    }
}

pub open spec fn import_view(i: Import) -> (Seq<char>, bool) {
    (i.module_name@, i.is_component)
}

pub open spec fn imports_view(v: Seq<Import>) -> Seq<(Seq<char>, bool)> {
    Seq::new(v.len(), |k: int| import_view(v[k]))
}

/// The component imports a script declares, as `(name, true)`.
pub open spec fn script_imports(src: Seq<char>) -> Seq<(Seq<char>, bool)> {
    match block_stmts(wrap_block(src)) {
        Some(st) => Seq::new(component_mods(mod_names(st)).len(), |k: int| (component_mods(mod_names(st))[k], true)),
        None => seq![],
    }
}

proof fn lemma_join_push(ws: Seq<Seq<char>>, t: Seq<char>)
    ensures
        join_words(ws.push(t)) == (if ws.len() == 0 { t } else { join_words(ws) + seq![' '] + t }),
{
    assert(ws.push(t).drop_last() =~= ws);
    if ws.len() == 0 {
        assert(ws.push(t)[0] == t);
    }
}

/// Takes the component modules (`mod Name;` with an uppercase name) out of a
/// script and returns the rest of the script with the components as
/// imports.  A script that does not parse as a block is kept as it is, with
/// no imports.
pub fn extract_imports(script: &str) -> (r: (String, Vec<Import>))
    ensures
        imports_view(r.1@) == script_imports(script@),
        r.0@ == script_text(script@),
{
    let items = match read_script(script) {
        Some(items) => items,
        None => {
            let imports: Vec<Import> = Vec::new();
            proof {
                assert(imports_view(imports@) =~= script_imports(script@));
            }
            return (script.to_string(), imports);
        },
    };
    let ghost stmts = stmts_view(items@);
    let ghost mods = mod_names(stmts);
    let mut imports: Vec<Import> = Vec::new();
    let mut out = String::new();
    let mut any = false;
    let mut i: usize = 0;
    proof {
        assert(mods.take(0) =~= Seq::<Option<Seq<char>>>::empty());
        assert(stmts.take(0) =~= Seq::<StmtView>::empty());
        assert(imports_view(imports@) =~= Seq::new(component_mods(mods.take(0)).len(), |k: int| (component_mods(mods.take(0))[k], true)));
        assert(out@ =~= join_words(Seq::<Seq<char>>::empty()));
    }
    while i < items.len()
        invariant
            block_stmts(wrap_block(script@)) == Some(stmts),
            stmts == stmts_view(items@),
            mods == mod_names(stmts),
            i <= items@.len(),
            imports_view(imports@) == Seq::new(component_mods(mods.take(i as int)).len(), |k: int| (component_mods(mods.take(i as int))[k], true)),
            out@ == join_words(kept_texts(stmts.take(i as int))),
            any == (kept_texts(stmts.take(i as int)).len() > 0),
        decreases items.len() - i,
    {
        let ghost st = stmts[i as int];
        proof {
            let t = mods.take(i + 1);
            assert(t.drop_last() =~= mods.take(i as int));
            assert(t.last() == mods[i as int]);
            let u = stmts.take(i + 1);
            assert(u.drop_last() =~= stmts.take(i as int));
            assert(u.last() == st);
            assert(mods[i as int] == st.1);
        }
        let mut is_component = false;
        if let Some(n) = &items[i].mod_name {
            if is_component_name(n.as_str()) {
                is_component = true;
            }
        }
        if is_component {
            let module_name = match &items[i].mod_name {
                Some(n) => n.clone(),
                None => String::new(),
            };
            let ghost i0 = imports@;
            let ghost mn = module_name@;
            imports.push(Import { module_name, is_component: true });
            proof {
                let c0 = component_mods(mods.take(i as int));
                let c = component_mods(mods.take(i + 1));
                assert(mods[i as int] == Some(mn));
                assert(spec_is_component_name(mn));
                assert(c == c0.push(mn));
                assert(imports_view(i0) == Seq::new(c0.len(), |k: int| (c0[k], true)));
                assert(imports_view(i0).len() == i0.len());
                assert(imports@.len() == i0.len() + 1);
                assert(imports@.last().module_name@ == mn);
                assert forall|k: int| 0 <= k < c.len() implies #[trigger] imports_view(imports@)[k] == (c[k], true) by {
                    if k < c0.len() {
                        assert(imports@[k] == i0[k]);
                        assert(imports_view(i0)[k] == (c0[k], true));
                    }
                }
                assert(imports_view(imports@) =~= Seq::new(c.len(), |k: int| (c[k], true)));
                assert(is_component_stmt(st));
                assert(kept_texts(stmts.take(i + 1)) == kept_texts(stmts.take(i as int)));
            }
        } else {
            let ghost w = kept_texts(stmts.take(i as int));
            proof {
                assert(!is_component_stmt(st));
                lemma_join_push(w, st.3);
                reveal_strlit(" ");
                assert(st.3 == items@[i as int].text@);
            }
            if any {
                out = concat(out.as_str(), " ");
            }
            out = concat(out.as_str(), items[i].text.as_str());
            any = true;
            proof {
                let c = component_mods(mods.take(i + 1));
                assert(imports_view(imports@) =~= Seq::new(c.len(), |k: int| (c[k], true)));
                assert(kept_texts(stmts.take(i + 1)) == w.push(st.3));
            }
        }
        i = i + 1;
    }
    proof {
        assert(mods.take(i as int) =~= mods);
        assert(stmts.take(i as int) =~= stmts);
    }
    (out, imports)
}

/// The statements of a block that are items, in order.
pub open spec fn item_stmts(st: Seq<StmtView>) -> Seq<StmtView>
    decreases st.len(),
{
    if st.len() == 0 {
        seq![]
    } else {
        let rest = item_stmts(st.drop_last());
        if st.last().0 { rest.push(st.last()) } else { rest }
    }
}

/// The statements of a block that are not items, in order.
pub open spec fn plain_stmts(st: Seq<StmtView>) -> Seq<StmtView>
    decreases st.len(),
{
    if st.len() == 0 {
        seq![]
    } else {
        let rest = plain_stmts(st.drop_last());
        if st.last().0 { rest } else { rest.push(st.last()) }
    }
}

/// Whether some statement of a block declares the struct `Props`.
pub open spec fn declares_props(st: Seq<StmtView>) -> bool {
    exists|k: int| 0 <= k < st.len() && #[trigger] st[k].2 == Some("Props"@)
}

/// A script split as the generated module uses it: its items go to the
/// module, its other statements into the build function.
pub struct ScriptParts {
    pub items: Vec<ScriptStmt>,
    pub stmts: Vec<ScriptStmt>,
    pub has_props: bool,
}

/// Splits a script into its items and its other statements, in order, and
/// tells whether it declares the struct `Props`.  A script that does not
/// parse as a block has neither.
pub fn split_script(script: &str) -> (r: ScriptParts)
    ensures
        match block_stmts(wrap_block(script@)) {
            Some(st) => {
                &&& stmts_view(r.items@) == item_stmts(st)
                &&& stmts_view(r.stmts@) == plain_stmts(st)
                &&& r.has_props == declares_props(st)
            },
            None => r.items@.len() == 0 && r.stmts@.len() == 0 && !r.has_props,
        },
{
    let mut rest = match read_script(script) {
        Some(v) => v,
        None => {
            return ScriptParts { items: Vec::new(), stmts: Vec::new(), has_props: false };
        },
    };
    let ghost st = stmts_view(rest@);
    let mut items: Vec<ScriptStmt> = Vec::new();
    let mut stmts: Vec<ScriptStmt> = Vec::new();
    let mut has_props = false;
    let ghost mut done: int = 0;
    proof {
        reveal_strlit("Props");
        assert(st.take(0) =~= Seq::<StmtView>::empty());
        assert(stmts_view(items@) =~= item_stmts(st.take(0)));
        assert(stmts_view(stmts@) =~= plain_stmts(st.take(0)));
    }
    while rest.len() > 0
        invariant
            block_stmts(wrap_block(script@)) == Some(st),
            0 <= done <= st.len(),
            rest@.len() == st.len() - done,
            forall|k: int| 0 <= k < rest@.len() ==> stmt_view(#[trigger] rest@[k]) == st[done + k],
            stmts_view(items@) == item_stmts(st.take(done)),
            stmts_view(stmts@) == plain_stmts(st.take(done)),
            has_props == (exists|k: int| 0 <= k < done && #[trigger] st[k].2 == Some("Props"@)),
        decreases rest.len(),
    {
        let ghost rest0 = rest@;
        let s = rest.remove(0);
        let ghost v = stmt_view(s);
        proof {
            assert(v == st[done]);
            assert forall|k: int| 0 <= k < rest@.len() implies stmt_view(#[trigger] rest@[k]) == st[done + 1 + k] by {
                assert(rest@[k] == rest0[k + 1]);
            }
            let t = st.take(done + 1);
            assert(t.drop_last() =~= st.take(done));
            assert(t.last() == v);
        }
        let mut props = false;
        if let Some(n) = &s.struct_name {
            props = str_eq(n.as_str(), "Props");
        }
        proof {
            reveal_strlit("Props");
            assert(props == (v.2 == Some("Props"@)));
        }
        has_props = has_props || props;
        let ghost i0 = items@;
        let ghost s0 = stmts@;
        if s.is_item {
            items.push(s);
            proof {
                assert(stmts_view(items@) =~= stmts_view(i0).push(v));
            }
        } else {
            stmts.push(s);
            proof {
                assert(stmts_view(stmts@) =~= stmts_view(s0).push(v));
            }
        }
        proof {
            assert(has_props == (exists|k: int| 0 <= k < done + 1 && #[trigger] st[k].2 == Some("Props"@))) by {
                if props {
                    assert(st[done].2 == Some("Props"@));
                }
            }
            done = done + 1;
        }
    }
    proof {
        assert(st.take(done) =~= st);
    }
    ScriptParts { items, stmts, has_props }
}

// ---------------------------------------------------------------------------
// Templates

/// A parsed template file: its top-level nodes, its style blocks and the
/// source of its (last) script block.
pub struct TemplateView {
    pub root: Seq<NodeView>,
    pub styles: Seq<Seq<char>>,
    pub script: Option<Seq<char>>,
}

/// Where the head `open attributes >` of a block that starts at `j` ends.
pub open spec fn block_head(s: Seq<char>, j: int, open: Seq<char>) -> Option<int> {
    match tag(s, j, open) {
        Some(a) => {
            let c = run_end(s, attribute_list(s, a).0, class(0));
            if 0 <= c < s.len() && s[c] == '>' {
                Some(c + 1)
            } else {
                None
            }
        },
        None => None,
    }
}

/// A block `open ... > text close` at `j`: where it ends and the text.
pub open spec fn raw_block(s: Seq<char>, j: int, open: Seq<char>, close: Seq<char>) -> Option<(int, Seq<char>)> {
    match block_head(s, j, open) {
        Some(h) => match find(s, h, close) {
            Some(k) => Some((k + close.len(), s.subrange(h, k))),
            None => None,
        },
        None => None,
    }
}

/// A `<template ...>` block at `j`: where it ends and its nodes.
pub open spec fn template_block(s: Seq<char>, j: int) -> Option<(int, Seq<NodeView>)> {
    match block_head(s, j, "<template"@) {
        Some(h) => {
            let (b, children) = node_list(s, h);
            match close_tag(s, run_end(s, b, class(0))) {
                Some(e) => Some((e, children)),
                None => None,
            }
        },
        None => None,
    }
}

/// The rest of a template file from `i`, what was read before being `t`.
pub open spec fn template_from(s: Seq<char>, i: int, t: TemplateView) -> Option<(int, TemplateView)>
    decreases s.len() - i,
{
    if i < 0 || i >= s.len() {
        Some((i, t))
    } else {
        let j = run_end(s, i, class(0));
        if j >= s.len() {
            Some((i, t))
        } else if starts_at(s, j, "<script"@) {
            match raw_block(s, j, "<script"@, "</script>"@) {
                Some((e, src)) => if i < e <= s.len() {
                    template_from(s, e, TemplateView { script: Some(src), ..t })
                } else {
                    None
                },
                None => None,
            }
        } else if starts_at(s, j, "<style"@) {
            match raw_block(s, j, "<style"@, "</style>"@) {
                Some((e, src)) => if i < e <= s.len() {
                    template_from(s, e, TemplateView { styles: t.styles.push(src), ..t })
                } else {
                    None
                },
                None => None,
            }
        } else if starts_at(s, j, "<template"@) {
            match template_block(s, j) {
                Some((e, children)) => if i < e <= s.len() {
                    template_from(s, e, TemplateView { root: t.root + children, ..t })
                } else {
                    None
                },
                None => None,
            }
        } else {
            match node(s, j) {
                Some((e, n)) => if i < e <= s.len() {
                    template_from(s, e, TemplateView { root: t.root.push(n), ..t })
                } else {
                    None
                },
                None => None,
            }
        }
    }
}

/// A template file: script, style and template blocks and loose nodes, in
/// any order; where it stops (only white space is left) and what was read.
pub open spec fn template(s: Seq<char>) -> Option<(int, TemplateView)> {
    template_from(s, 0, TemplateView { root: seq![], styles: seq![], script: None })
}


/// Reading on through a file only adds to what was read: the nodes and the
/// style blocks read before stay, in order, at the front.
pub proof fn law_template_only_appends(s: Seq<char>, i: int, t: TemplateView)
    ensures
        template_from(s, i, t) matches Some((e, tv)) ==> t.styles.is_prefix_of(tv.styles) && t.root.is_prefix_of(tv.root),
    decreases s.len() - i,
{
    if i < 0 || i >= s.len() {
        return;
    }
    let j = run_end(s, i, class(0));
    if j >= s.len() {
        return;
    }
    if starts_at(s, j, "<script"@) {
        if let Some((e, src)) = raw_block(s, j, "<script"@, "</script>"@) {
            if i < e <= s.len() {
                law_template_only_appends(s, e, TemplateView { script: Some(src), ..t });
            }
        }
    } else if starts_at(s, j, "<style"@) {
        if let Some((e, src)) = raw_block(s, j, "<style"@, "</style>"@) {
            if i < e <= s.len() {
                let t2 = TemplateView { styles: t.styles.push(src), ..t };
                law_template_only_appends(s, e, t2);
                if let Some((e2, tv)) = template_from(s, e, t2) {
                    assert(t.styles.is_prefix_of(tv.styles)) by {
                        assert(t2.styles.subrange(0, t.styles.len() as int) =~= t.styles);
                        assert(tv.styles.subrange(0, t2.styles.len() as int) == t2.styles);
                        assert(tv.styles.subrange(0, t.styles.len() as int) =~= t2.styles.subrange(0, t.styles.len() as int));
                    }
                }
            }
        }
    } else if starts_at(s, j, "<template"@) {
        if let Some((e, children)) = template_block(s, j) {
            if i < e <= s.len() {
                let t2 = TemplateView { root: t.root + children, ..t };
                law_template_only_appends(s, e, t2);
                if let Some((e2, tv)) = template_from(s, e, t2) {
                    assert(t.root.is_prefix_of(tv.root)) by {
                        assert(t2.root.subrange(0, t.root.len() as int) =~= t.root);
                        assert(tv.root.subrange(0, t2.root.len() as int) == t2.root);
                        assert(tv.root.subrange(0, t.root.len() as int) =~= t2.root.subrange(0, t.root.len() as int));
                    }
                }
            }
        }
    } else {
        if let Some((e, n)) = node(s, j) {
            if i < e <= s.len() {
                let t2 = TemplateView { root: t.root.push(n), ..t };
                law_template_only_appends(s, e, t2);
                if let Some((e2, tv)) = template_from(s, e, t2) {
                    assert(t.root.is_prefix_of(tv.root)) by {
                        assert(t2.root.subrange(0, t.root.len() as int) =~= t.root);
                        assert(tv.root.subrange(0, t2.root.len() as int) == t2.root);
                        assert(tv.root.subrange(0, t.root.len() as int) =~= t2.root.subrange(0, t.root.len() as int));
                    }
                }
            }
        }
    }
}

/// A `<style>` block is kept: where the next block of a file from `i` is a
/// style block with content `src`, the styles read are those read before,
/// then `src`, then those of the blocks after it.
pub proof fn law_style_block_is_kept(s: Seq<char>, i: int, t: TemplateView, e: int, src: Seq<char>)
    requires
        0 <= i < s.len(),
        run_end(s, i, class(0)) < s.len(),
        starts_at(s, run_end(s, i, class(0)), "<style"@),
        raw_block(s, run_end(s, i, class(0)), "<style"@, "</style>"@) == Some((e, src)),
    ensures
        template_from(s, i, t) matches Some((end, tv)) ==> {
            &&& tv.styles.len() > t.styles.len()
            &&& tv.styles.subrange(0, t.styles.len() as int) == t.styles
            &&& tv.styles[t.styles.len() as int] == src
        },
{
    let j = run_end(s, i, class(0));
    reveal_strlit("<script");
    reveal_strlit("<style");
    assert(!starts_at(s, j, "<script"@)) by {
        if starts_at(s, j, "<script"@) {
            assert(s.subrange(j, j + 6) == "<style"@);
            assert(s.subrange(j, j + 7) == "<script"@);
            assert(s[j + 2] == s.subrange(j, j + 6)[2]);
            assert(s[j + 2] == s.subrange(j, j + 7)[2]);
        }
    }
    if let Some((end, tv)) = template_from(s, i, t) {
        assert(i < e <= s.len());
        let t2 = TemplateView { styles: t.styles.push(src), ..t };
        assert(template_from(s, i, t) == template_from(s, e, t2));
        law_template_only_appends(s, e, t2);
        assert(tv.styles.subrange(0, t2.styles.len() as int) == t2.styles);
        assert(tv.styles[t.styles.len() as int] == tv.styles.subrange(0, t2.styles.len() as int)[t.styles.len() as int]);
        assert(tv.styles.subrange(0, t.styles.len() as int) =~= t2.styles.subrange(0, t.styles.len() as int));
        assert(t2.styles.subrange(0, t.styles.len() as int) =~= t.styles);
    }
}

fn parse_block_head(s: &Vec<char>, j: usize, open: &str) -> (r: Option<usize>)
    requires
        j <= s@.len(),
    ensures
        r matches Some(h) ==> block_head(s@, j as int, open@) == Some(h as int) && j < h <= s@.len(),
        r is None ==> block_head(s@, j as int, open@) is None,
{
    let a = match tag_at(s, j, open) {
        Some(a) => a,
        None => {
            return None;
        },
    };
    let (b, _attrs) = parse_attribute_list(s, a);
    let c = scan(s, b, 0);
    if c < s.len() && s[c] == '>' {
        Some(c + 1)
    } else {
        None
    }
}

fn parse_raw_block(s: &Vec<char>, j: usize, open: &str, close: &str) -> (r: Option<(usize, String)>)
    requires
        j <= s@.len(),
    ensures
        r matches Some((e, src)) ==> raw_block(s@, j as int, open@, close@) == Some((e as int, src@)) && j < e <= s@.len(),
        r is None ==> raw_block(s@, j as int, open@, close@) is None,
{
    let h = match parse_block_head(s, j, open) {
        Some(h) => h,
        None => {
            return None;
        },
    };
    match find_from(s, h, close) {
        Some(k) => {
            proof {
                lemma_find(s@, h as int, close@);
            }
            let e = match tag_at(s, k, close) {
                Some(e) => e,
                None => {
                    return None;
                },
            };
            Some((e, string_of(s, h, k)))
        },
        None => None,
    }
}

/// Parses a template file: `<script>`, `<style>` and `<template>` blocks and
/// loose nodes, in any order, with white space between them.  Each script
/// block replaces the script and its imports; style blocks and nodes
/// accumulate.  Returns the white space left at the end and the template,
/// or nothing where some part cannot be read.
pub fn parse_template(input: &str) -> (r: Option<(String, Template)>)
    ensures
        r is None <==> template(input@) is None,
        r matches Some((rest, t)) ==> (template(input@) matches Some((e, tv)) && {
            &&& rest@ == input@.subrange(e, input@.len() as int)
            &&& nodes_view(t.root@) == tv.root
            &&& texts(t.styles@) == tv.styles
            &&& (t.script is Some <==> tv.script is Some)
            &&& imports_view(t.imports@) == (match tv.script {
                Some(src) => script_imports(src),
                None => seq![],
            })
            &&& (tv.script matches Some(src) ==> (t.script matches Some(x) && x@ == script_text(src)))
        }),
{
    let s = chars_of(input);
    let n = s.len();
    let mut root: Vec<Node> = Vec::new();
    let mut styles: Vec<String> = Vec::new();
    let mut script: Option<String> = None;
    let mut imports: Vec<Import> = Vec::new();
    let ghost mut src: Option<Seq<char>> = None;
    let mut q: usize = 0;
    proof {
        assert(nodes_view(root@) =~= Seq::<NodeView>::empty());
        assert(texts(styles@) =~= Seq::<Seq<char>>::empty());
        assert(imports_view(imports@) =~= Seq::<(Seq<char>, bool)>::empty());
    }
    loop
        invariant
            n == s@.len(),
            s@ == input@,
            q <= n,
            template(input@) == template_from(s@, q as int, TemplateView { root: nodes_view(root@), styles: texts(styles@), script: src }),
            (script is Some <==> src is Some),
            imports_view(imports@) == (match src {
                Some(x) => script_imports(x),
                None => seq![],
            }),
            (src matches Some(x) ==> (script matches Some(y) && y@ == script_text(x))),
        decreases n - q,
    {
        let ghost tv = TemplateView { root: nodes_view(root@), styles: texts(styles@), script: src };
        if q >= n {
            return Some((string_of(&s, q, n), Template { root, styles, script, imports }));
        }
        let j = scan(&s, q, 0);
        if j >= n {
            return Some((string_of(&s, q, n), Template { root, styles, script, imports }));
        }
        if has_at(&s, j, "<script") {
            match parse_raw_block(&s, j, "<script", "</script>") {
                Some((e, content)) => {
                    let (cleaned, found) = extract_imports(content.as_str());
                    proof {
                        src = Some(content@);
                    }
                    script = Some(cleaned);
                    imports = found;
                    q = e;
                },
                None => {
                    return None;
                },
            }
        } else if has_at(&s, j, "<style") {
            match parse_raw_block(&s, j, "<style", "</style>") {
                Some((e, content)) => {
                    let ghost st0 = styles@;
                    styles.push(content);
                    proof {
                        assert(texts(styles@) =~= texts(st0).push(styles@.last()@));
                    }
                    q = e;
                },
                None => {
                    return None;
                },
            }
        } else if has_at(&s, j, "<template") {
            let h = match parse_block_head(&s, j, "<template") {
                Some(h) => h,
                None => {
                    return None;
                },
            };
            let (b, children) = parse_node_list(&s, h);
            let c = scan(&s, b, 0);
            match parse_close_tag(&s, c) {
                Some(e) => {
                    let ghost r0 = root@;
                    let mut children = children;
                    let ghost cv = children@;
                    root.append(&mut children);
                    proof {
                        lemma_nodes_view_concat(r0, cv);
                    }
                    q = e;
                },
                None => {
                    return None;
                },
            }
        } else {
            match parse_node(&s, j) {
                Some((e, nd)) => {
                    let ghost r0 = root@;
                    root.push(nd);
                    proof {
                        assert(root@ =~= r0 + seq![nd]);
                        lemma_nodes_view_concat(r0, seq![nd]);
                        lemma_nodes_view_index(seq![nd]);
                        assert(nodes_view(seq![nd]) =~= seq![node_view(nd)]);
                        assert(nodes_view(r0) + seq![node_view(nd)] =~= nodes_view(r0).push(node_view(nd)));
                    }
                    q = e;
                },
                None => {
                    return None;
                },
            }
        }
    }
}

} // verus!
