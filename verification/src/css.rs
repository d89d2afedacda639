use vstd::prelude::*;
use crate::text::{chars_of, string_of, texts, trim, trimmed};
use crate::propmap::PropMap;

verus! {

broadcast use vstd::string::group_string_axioms;

// ---------------------------------------------------------------------------
// Characters

/// Space, tab, carriage return or line feed.
pub open spec fn is_space(c: char) -> bool {
    c == ' ' || c == '\t' || c == '\r' || c == '\n'
}

/// A decimal digit or a dot: what a number is written with.
pub open spec fn is_num_char(c: char) -> bool {
    ('0' <= c && c <= '9') || c == '.'
}

/// An ASCII hexadecimal digit.
pub open spec fn is_hex_char(c: char) -> bool {
    ('0' <= c && c <= '9') || ('a' <= c && c <= 'f') || ('A' <= c && c <= 'F')
}

/// A character that may appear in an unquoted value.
pub open spec fn is_ident_char(c: char) -> bool {
    c != ';' && c != '{' && c != '}' && c != ' '
}

/// A character that may appear in a property name.
pub open spec fn is_prop_char(c: char) -> bool {
    c != ':' && c != '}'
}

/// A character that may appear in a selector.
pub open spec fn is_selector_char(c: char) -> bool {
    c != '{'
}

/// `t` occurs in `s` at `i`.
pub open spec fn starts_at(s: Seq<char>, i: int, t: Seq<char>) -> bool {
    0 <= i && i + t.len() <= s.len() && s.subrange(i, i + t.len()) == t
}

// ---------------------------------------------------------------------------
// White space and comments

/// Where the white space and comments that start at `i` end.  A line
/// comment runs up to (not over) the next line feed or to the end; a block
/// comment needs its closing `*/`, and without one it is not skipped.
pub open spec fn ws_end(s: Seq<char>, i: int) -> int
    decreases s.len() - i, 0int,
{
    if i < 0 || i >= s.len() {
        i
    } else if is_space(s[i]) {
        ws_end(s, i + 1)
    } else if i + 1 < s.len() && s[i] == '/' && s[i + 1] == '/' {
        line_rest(s, i + 2)
    } else if i + 1 < s.len() && s[i] == '/' && s[i + 1] == '*' {
        block_rest(s, i + 2, i)
    } else {
        i
    }
}

/// Inside a line comment at `i`.
pub open spec fn line_rest(s: Seq<char>, i: int) -> int
    decreases s.len() - i, 1int,
{
    if i >= s.len() {
        s.len() as int
    } else if s[i] == '\n' {
        ws_end(s, i)
    } else {
        line_rest(s, i + 1)
    }
}

/// Inside a block comment at `i` that opened at `start`.
pub open spec fn block_rest(s: Seq<char>, i: int, start: int) -> int
    decreases s.len() - i, 1int,
{
    if i + 1 >= s.len() {
        start
    } else if s[i] == '*' && s[i + 1] == '/' {
        ws_end(s, i + 2)
    } else {
        block_rest(s, i + 1, start)
    }
}

/// The end of the run of characters satisfying `p` that starts at `i`.
pub open spec fn run_end(s: Seq<char>, i: int, p: spec_fn(char) -> bool) -> int
    decreases s.len() - i,
{
    if 0 <= i < s.len() && p(s[i]) {
        run_end(s, i + 1, p)
    } else {
        i
    }
}

proof fn lemma_ws_end_bounds(s: Seq<char>, i: int)
    requires
        0 <= i <= s.len(),
    ensures
        i <= ws_end(s, i) <= s.len(),
    decreases s.len() - i, 0int,
{
    if i < s.len() {
        if is_space(s[i]) {
            lemma_ws_end_bounds(s, i + 1);
        } else if i + 1 < s.len() && s[i] == '/' && s[i + 1] == '/' {
            lemma_line_rest_bounds(s, i + 2);
        } else if i + 1 < s.len() && s[i] == '/' && s[i + 1] == '*' {
            lemma_block_rest_bounds(s, i + 2, i);
        }
    }
}

proof fn lemma_line_rest_bounds(s: Seq<char>, i: int)
    requires
        0 <= i <= s.len(),
    ensures
        i <= line_rest(s, i) <= s.len(),
    decreases s.len() - i, 1int,
{
    if i < s.len() {
        if s[i] == '\n' {
            lemma_ws_end_bounds(s, i);
        } else {
            lemma_line_rest_bounds(s, i + 1);
        }
    }
}

proof fn lemma_block_rest_bounds(s: Seq<char>, i: int, start: int)
    requires
        0 <= start <= i <= s.len(),
    ensures
        start <= block_rest(s, i, start) <= s.len(),
    decreases s.len() - i, 1int,
{
    if i + 1 < s.len() {
        if s[i] == '*' && s[i + 1] == '/' {
            lemma_ws_end_bounds(s, i + 2);
        } else {
            lemma_block_rest_bounds(s, i + 1, start);
        }
    }
}

proof fn lemma_run_end_bounds(s: Seq<char>, i: int, p: spec_fn(char) -> bool)
    requires
        0 <= i <= s.len(),
    ensures
        i <= run_end(s, i, p) <= s.len(),
        forall|k: int| i <= k < run_end(s, i, p) ==> #[trigger] p(s[k]),
        run_end(s, i, p) < s.len() ==> !p(s[run_end(s, i, p)]),
    decreases s.len() - i,
{
    if i < s.len() && p(s[i]) {
        lemma_run_end_bounds(s, i + 1, p);
    }
}

/// Skips white space and comments (`ws0`).
fn skip_ws(s: &Vec<char>, from: usize) -> (r: usize)
    requires
        from <= s@.len(),
    ensures
        r == ws_end(s@, from as int),
        from <= r <= s@.len(),
{
    proof {
        lemma_ws_end_bounds(s@, from as int);
    }
    let ghost target = ws_end(s@, from as int);
    let n = s.len();
    let mut i = from;
    loop
        invariant
            n == s@.len(),
            from <= i <= n,
            target == ws_end(s@, from as int),
            ws_end(s@, i as int) == target,
            from <= target <= n,
        decreases n - i,
    {
        if i < n && (s[i] == ' ' || s[i] == '\t' || s[i] == '\r' || s[i] == '\n') {
            i = i + 1;
        } else if i < n && i + 1 < n && s[i] == '/' && s[i + 1] == '/' {
            let mut j = i + 2;
            while j < n && s[j] != '\n'
                invariant
                    n == s@.len(),
                    i + 2 <= j <= n,
                    line_rest(s@, j as int) == target,
                decreases n - j,
            {
                j = j + 1;
            }
            if j >= n {
                assert(line_rest(s@, j as int) == s@.len());
                return n;
            }
            assert(line_rest(s@, j as int) == ws_end(s@, j as int));
            i = j;
        } else if i < n && i + 1 < n && s[i] == '/' && s[i + 1] == '*' {
            let start = i;
            let mut j = i + 2;
            while j < n && j + 1 < n && !(s[j] == '*' && s[j + 1] == '/')
                invariant
                    n == s@.len(),
                    start + 2 <= j <= n,
                    block_rest(s@, j as int, start as int) == target,
                decreases n - j,
            {
                j = j + 1;
            }
            if j >= n || j + 1 >= n {
                return start;
            }
            i = j + 2;
        } else {
            assert(ws_end(s@, i as int) == i);
            return i;
        }
    }
}

/// The end of the run of characters satisfying `p` (given as `pe` in code)
/// that starts at `i`.
fn scan(s: &Vec<char>, i: usize, kind: u8) -> (r: usize)
    requires
        i <= s@.len(),
        kind < 5,
    ensures
        r == run_end(s@, i as int, scan_class(kind)),
        i <= r <= s@.len(),
{
    proof {
        lemma_run_end_bounds(s@, i as int, scan_class(kind));
    }
    let ghost target = run_end(s@, i as int, scan_class(kind));
    let n = s.len();
    let mut j = i;
    while j < n && in_class(s[j], kind)
        invariant
            n == s@.len(),
            i <= j <= n,
            kind < 5,
            run_end(s@, j as int, scan_class(kind)) == target,
        decreases n - j,
    {
        j = j + 1;
    }
    j
}

/// The character classes the scanner knows, by number.
pub open spec fn scan_class(kind: u8) -> spec_fn(char) -> bool {
    if kind == 0 {
        |c: char| is_num_char(c)
    } else if kind == 1 {
        |c: char| is_hex_char(c)
    } else if kind == 2 {
        |c: char| is_ident_char(c)
    } else if kind == 3 {
        |c: char| is_prop_char(c)
    } else {
        |c: char| is_selector_char(c)
    }
}

fn in_class(c: char, kind: u8) -> (b: bool)
    requires
        kind < 5,
    ensures
        b == scan_class(kind)(c),
{
    if kind == 0 {
        ('0' <= c && c <= '9') || c == '.'
    } else if kind == 1 {
        ('0' <= c && c <= '9') || ('a' <= c && c <= 'f') || ('A' <= c && c <= 'F')
    } else if kind == 2 {
        c != ';' && c != '{' && c != '}' && c != ' '
    } else if kind == 3 {
        c != ':' && c != '}'
    } else {
        c != '{'
    }
}

/// Whether `t` occurs in `s` at `i`.
pub(crate) fn has_at(s: &Vec<char>, i: usize, t: &str) -> (b: bool)
    requires
        i <= s@.len(),
    ensures
        b == starts_at(s@, i as int, t@),
{
    let tv = chars_of(t);
    let n = s.len();
    if tv.len() > n - i {
        return false;
    }
    let end: usize = i + tv.len();
    let mut j: usize = i;
    while j < end
        invariant
            n == s@.len(),
            i <= j <= end,
            end == i + tv@.len(),
            end <= n,
            tv@ == t@,
            forall|m: int| i <= m < j ==> s@[m] == tv@[m - i],
        decreases end - j,
    {
        if s[j] != tv[j - i] {
            proof {
                assert(s@.subrange(i as int, end as int)[j - i] != t@[j - i]);
            }
            return false;
        }
        j = j + 1;
    }
    proof {
        assert(s@.subrange(i as int, i + t@.len()) =~= t@);
    }
    true
}

// ---------------------------------------------------------------------------
// Values

/// A CSS value as written.  Numbers keep the text they were written with:
/// an optional minus sign, then digits and dots.
pub enum ValueView {
    Px(Seq<char>),
    Percent(Seq<char>),
    Em(Seq<char>),
    Vh(Seq<char>),
    Vw(Seq<char>),
    /// The digits of a `#` colour.
    Hex(Seq<char>),
    /// The numbers of an `rgb(..)` or `rgba(..)` colour.
    Rgb(Seq<Seq<char>>),
    Auto,
    Ident(Seq<char>),
}

/// A parsed CSS value.  Numbers keep the text they were written with, so
/// that no arithmetic is done while parsing; whoever renders the value turns
/// the text into a number.
#[derive(Clone, Debug, PartialEq)]
pub enum StyleValue {
    Px(String),
    Percent(String),
    Em(String),
    Vh(String),
    Vw(String),
    Hex(String),
    Rgb(Vec<String>),
    Auto,
    Ident(String),
}


pub open spec fn value_view(v: StyleValue) -> ValueView {
    match v {
        StyleValue::Px(n) => ValueView::Px(n@),
        StyleValue::Percent(n) => ValueView::Percent(n@),
        StyleValue::Em(n) => ValueView::Em(n@),
        StyleValue::Vh(n) => ValueView::Vh(n@),
        StyleValue::Vw(n) => ValueView::Vw(n@),
        StyleValue::Hex(d) => ValueView::Hex(d@),
        StyleValue::Rgb(v) => ValueView::Rgb(texts(v@)),
        StyleValue::Auto => ValueView::Auto,
        StyleValue::Ident(t) => ValueView::Ident(t@),
    }
}

/// Where `t` ends if it occurs at `i`.
pub open spec fn tag(s: Seq<char>, i: int, t: Seq<char>) -> Option<int> {
    if starts_at(s, i, t) {
        Some(i + t.len())
    } else {
        None
    }
}

/// Where a number (an optional minus sign, then at least one digit or
/// dot) that starts at `i` ends.
pub open spec fn number_end(s: Seq<char>, i: int) -> Option<int> {
    let j = if 0 <= i < s.len() && s[i] == '-' { i + 1 } else { i };
    let k = run_end(s, j, scan_class(0));
    if k > j {
        Some(k)
    } else {
        None
    }
}

/// A `#` colour at `i`: `#` and at least one hexadecimal digit.
pub open spec fn hex_value(s: Seq<char>, i: int) -> Option<(int, ValueView)> {
    if 0 <= i < s.len() && s[i] == '#' {
        let k = run_end(s, i + 1, scan_class(1));
        if k > i + 1 {
            Some((k, ValueView::Hex(s.subrange(i + 1, k))))
        } else {
            None
        }
    } else {
        None
    }
}

/// The numbers that follow a first one ending at `q`, each after a comma
/// with optional white space around it.
pub open spec fn number_tail(s: Seq<char>, q: int) -> (int, Seq<Seq<char>>)
    decreases s.len() - q,
{
    let a = ws_end(s, q);
    if 0 <= q && q <= a < s.len() && s[a] == ',' {
        let b = ws_end(s, a + 1);
        match number_end(s, b) {
            Some(k) => if q < k <= s.len() {
                let (r, rest) = number_tail(s, k);
                (r, seq![s.subrange(b, k)] + rest)
            } else {
                (q, seq![])
            },
            None => (q, seq![]),
        }
    } else {
        (q, seq![])
    }
}

/// A comma separated, possibly empty, list of numbers at `p`.
pub open spec fn number_list(s: Seq<char>, p: int) -> (int, Seq<Seq<char>>) {
    match number_end(s, p) {
        Some(k) => {
            let (q, rest) = number_tail(s, k);
            (q, seq![s.subrange(p, k)] + rest)
        },
        None => (p, seq![]),
    }
}

/// An `rgba(..)` or `rgb(..)` colour at `i`.
pub open spec fn rgb_value(s: Seq<char>, i: int) -> Option<(int, ValueView)> {
    let open = match tag(s, i, "rgba("@) {
        Some(p) => Some(p),
        None => tag(s, i, "rgb("@),
    };
    match open {
        Some(p) => {
            let (q, items) = number_list(s, p);
            if 0 <= q < s.len() && s[q] == ')' {
                Some((q + 1, ValueView::Rgb(items)))
            } else {
                None
            }
        },
        None => None,
    }
}

/// A number followed by `unit` at `i`: where it ends and the number.
pub open spec fn unit_number(s: Seq<char>, i: int, unit: Seq<char>) -> Option<(int, Seq<char>)> {
    match number_end(s, i) {
        Some(k) => match tag(s, k, unit) {
            Some(e) => Some((e, s.subrange(i, k))),
            None => None,
        },
        None => None,
    }
}

/// A number with a unit at `i`, the units tried in the order
/// `px`, `%`, `em`, `vh`, `vw`.
pub open spec fn unit_value(s: Seq<char>, i: int) -> Option<(int, ValueView)> {
    match unit_number(s, i, "px"@) {
        Some((e, n)) => Some((e, ValueView::Px(n))),
        None => match unit_number(s, i, "%"@) {
            Some((e, n)) => Some((e, ValueView::Percent(n))),
            None => match unit_number(s, i, "em"@) {
                Some((e, n)) => Some((e, ValueView::Em(n))),
                None => match unit_number(s, i, "vh"@) {
                    Some((e, n)) => Some((e, ValueView::Vh(n))),
                    None => match unit_number(s, i, "vw"@) {
                        Some((e, n)) => Some((e, ValueView::Vw(n))),
                        None => None,
                    },
                },
            },
        },
    }
}

/// The value at `i`: a `#` colour, an `rgb` colour, a number with a unit,
/// a bare number (pixels), `auto`, or else the run of characters other than
/// `;`, `{`, `}` and space.
pub open spec fn style_value(s: Seq<char>, i: int) -> Option<(int, ValueView)> {
    if hex_value(s, i) is Some {
        hex_value(s, i)
    } else if rgb_value(s, i) is Some {
        rgb_value(s, i)
    } else if unit_value(s, i) is Some {
        unit_value(s, i)
    } else if number_end(s, i) is Some {
        let k = number_end(s, i)->0;
        Some((k, ValueView::Px(s.subrange(i, k))))
    } else if tag(s, i, "auto"@) is Some {
        Some((tag(s, i, "auto"@)->0, ValueView::Auto))
    } else {
        let k = run_end(s, i, scan_class(2));
        if k > i {
            Some((k, ValueView::Ident(s.subrange(i, k))))
        } else {
            None
        }
    }
}

proof fn lemma_number_end(s: Seq<char>, i: int)
    requires
        0 <= i <= s.len(),
    ensures
        number_end(s, i) matches Some(k) ==> i < k <= s.len(),
{
    let j = if 0 <= i < s.len() && s[i] == '-' { i + 1 } else { i };
    lemma_run_end_bounds(s, j, scan_class(0));
}

proof fn lemma_style_value_progress(s: Seq<char>, i: int)
    requires
        0 <= i <= s.len(),
    ensures
        style_value(s, i) matches Some((k, v)) ==> i < k <= s.len(),
{
    reveal_strlit("auto");
    lemma_number_end(s, i);
    lemma_run_end_bounds(s, i, scan_class(2));
    if i < s.len() && s[i] == '#' {
        lemma_run_end_bounds(s, i + 1, scan_class(1));
    }
    if rgb_value(s, i) is Some {
        let p = match tag(s, i, "rgba("@) {
            Some(p) => p,
            None => tag(s, i, "rgb("@)->0,
        };
        lemma_number_list(s, p);
    }
}

proof fn lemma_number_tail(s: Seq<char>, q: int)
    requires
        0 <= q <= s.len(),
    ensures
        q <= number_tail(s, q).0 <= s.len(),
    decreases s.len() - q,
{
    let a = ws_end(s, q);
    lemma_ws_end_bounds(s, q);
    if q <= a < s.len() && s[a] == ',' {
        let b = ws_end(s, a + 1);
        lemma_ws_end_bounds(s, a + 1);
        lemma_number_end(s, b);
        if let Some(k) = number_end(s, b) {
            if q < k <= s.len() {
                lemma_number_tail(s, k);
            }
        }
    }
}

proof fn lemma_number_list(s: Seq<char>, p: int)
    requires
        0 <= p <= s.len(),
    ensures
        p <= number_list(s, p).0 <= s.len(),
{
    lemma_number_end(s, p);
    if let Some(k) = number_end(s, p) {
        lemma_number_tail(s, k);
    }
}

/// A copy of a value.
pub fn clone_value(v: &StyleValue) -> (r: StyleValue)
    ensures
        value_view(r) == value_view(*v),
{
    match v {
        StyleValue::Px(n) => StyleValue::Px(n.clone()),
        StyleValue::Percent(n) => StyleValue::Percent(n.clone()),
        StyleValue::Em(n) => StyleValue::Em(n.clone()),
        StyleValue::Vh(n) => StyleValue::Vh(n.clone()),
        StyleValue::Vw(n) => StyleValue::Vw(n.clone()),
        StyleValue::Hex(d) => StyleValue::Hex(d.clone()),
        StyleValue::Rgb(items) => {
            let mut out: Vec<String> = Vec::new();
            let mut i: usize = 0;
            while i < items.len()
                invariant
                    i <= items@.len(),
                    texts(out@) == texts(items@).take(i as int),
                decreases items.len() - i,
            {
                let ghost before = out@;
                out.push(items[i].clone());
                proof {
                    assert(out@ == before.push(items@[i as int]));
                    assert(texts(before).len() == before.len());
                    assert(before.len() == i);
                    assert(texts(items@).take(i + 1).len() == i + 1);
                    assert forall|k: int| 0 <= k < out@.len() implies #[trigger] texts(out@)[k]
                        == texts(items@).take(i + 1)[k] by {
                        if k < before.len() {
                            assert(texts(before)[k] == before[k]@);
                        }
                    }
                    assert(texts(out@) =~= texts(items@).take(i + 1));
                }
                i = i + 1;
            }
            proof {
                assert(texts(items@).take(items@.len() as int) =~= texts(items@));
            }
            StyleValue::Rgb(out)
        },
        StyleValue::Auto => StyleValue::Auto,
        StyleValue::Ident(t) => StyleValue::Ident(t.clone()),
    }
}

/// Where `t` ends if it occurs at `i`.
pub(crate) fn tag_at(s: &Vec<char>, i: usize, t: &str) -> (r: Option<usize>)
    requires
        i <= s@.len(),
    ensures
        r matches Some(e) ==> tag(s@, i as int, t@) == Some(e as int),
        r is None ==> tag(s@, i as int, t@) is None,
{
    let n = s.len();
    if has_at(s, i, t) {
        let tv = chars_of(t);
        assert(starts_at(s@, i as int, t@));
        assert(i + t@.len() <= s@.len());
        assert(tv@.len() == t@.len());
        Some(i + tv.len())
    } else {
        None
    }
}

fn scan_number(s: &Vec<char>, i: usize) -> (r: Option<usize>)
    requires
        i <= s@.len(),
    ensures
        r matches Some(k) ==> number_end(s@, i as int) == Some(k as int),
        r is None ==> number_end(s@, i as int) is None,
{
    let j = if i < s.len() && s[i] == '-' { i + 1 } else { i };
    let k = scan(s, j, 0);
    if k > j {
        Some(k)
    } else {
        None
    }
}

fn parse_numbers(s: &Vec<char>, p: usize) -> (r: (usize, Vec<String>))
    requires
        p <= s@.len(),
    ensures
        number_list(s@, p as int) == (r.0 as int, texts(r.1@)),
{
    let mut items: Vec<String> = Vec::new();
    let k = match scan_number(s, p) {
        Some(k) => k,
        None => {
            proof {
                assert(texts(items@) =~= Seq::<Seq<char>>::empty());
            }
            return (p, items);
        },
    };
    proof {
        lemma_number_end(s@, p as int);
    }
    items.push(string_of(s, p, k));
    let mut q = k;
    loop
        invariant
            q <= s@.len(),
            number_list(s@, p as int) == ({
                let (e, rest) = number_tail(s@, q as int);
                (e, texts(items@) + rest)
            }),
        decreases s@.len() - q,
    {
        let ghost items0 = items@;
        let a = skip_ws(s, q);
        if a < s.len() && s[a] == ',' {
            let b = skip_ws(s, a + 1);
            match scan_number(s, b) {
                Some(k2) => {
                    proof {
                        lemma_number_end(s@, b as int);
                    }
                    items.push(string_of(s, b, k2));
                    proof {
                        assert(texts(items@) =~= texts(items0) + seq![s@.subrange(b as int, k2 as int)]);
                        let (e, rest) = number_tail(s@, k2 as int);
                        assert(texts(items0) + (seq![s@.subrange(b as int, k2 as int)] + rest)
                            =~= texts(items@) + rest);
                    }
                    q = k2;
                },
                None => {
                    proof {
                        assert(texts(items@) + Seq::<Seq<char>>::empty() =~= texts(items@));
                    }
                    return (q, items);
                },
            }
        } else {
            proof {
                assert(texts(items@) + Seq::<Seq<char>>::empty() =~= texts(items@));
            }
            return (q, items);
        }
    }
}

fn parse_unit(s: &Vec<char>, i: usize, unit: &str) -> (r: Option<(usize, String)>)
    requires
        i <= s@.len(),
    ensures
        r matches Some((e, n)) ==> unit_number(s@, i as int, unit@) == Some((e as int, n@)),
        r is None ==> unit_number(s@, i as int, unit@) is None,
{
    match scan_number(s, i) {
        Some(k) => {
            proof {
                lemma_number_end(s@, i as int);
            }
            match tag_at(s, k, unit) {
                Some(e) => Some((e, string_of(s, i, k))),
                None => None,
            }
        },
        None => None,
    }
}

/// Parses the value at `i`.
fn parse_value(s: &Vec<char>, i: usize) -> (r: Option<(usize, StyleValue)>)
    requires
        i <= s@.len(),
    ensures
        r matches Some((k, v)) ==> style_value(s@, i as int) == Some((k as int, value_view(v))),
        r is None ==> style_value(s@, i as int) is None,
{
    proof {
        lemma_number_end(s@, i as int);
    }
    // A `#` colour.
    if i < s.len() && s[i] == '#' {
        let k = scan(s, i + 1, 1);
        if k > i + 1 {
            return Some((k, StyleValue::Hex(string_of(s, i + 1, k))));
        }
    }
    // An `rgb` colour.
    let open = match tag_at(s, i, "rgba(") {
        Some(p) => Some(p),
        None => tag_at(s, i, "rgb("),
    };
    if let Some(p) = open {
        proof {
            lemma_tag_bounds(s@, i as int, "rgba("@);
            lemma_tag_bounds(s@, i as int, "rgb("@);
        }
        let (q, items) = parse_numbers(s, p);
        if q < s.len() && s[q] == ')' {
            return Some((q + 1, StyleValue::Rgb(items)));
        }
    }
    // A number with a unit.
    if let Some((e, n)) = parse_unit(s, i, "px") {
        return Some((e, StyleValue::Px(n)));
    }
    if let Some((e, n)) = parse_unit(s, i, "%") {
        return Some((e, StyleValue::Percent(n)));
    }
    if let Some((e, n)) = parse_unit(s, i, "em") {
        return Some((e, StyleValue::Em(n)));
    }
    if let Some((e, n)) = parse_unit(s, i, "vh") {
        return Some((e, StyleValue::Vh(n)));
    }
    if let Some((e, n)) = parse_unit(s, i, "vw") {
        return Some((e, StyleValue::Vw(n)));
    }
    // A bare number is in pixels.
    if let Some(k) = scan_number(s, i) {
        return Some((k, StyleValue::Px(string_of(s, i, k))));
    }
    if let Some(e) = tag_at(s, i, "auto") {
        return Some((e, StyleValue::Auto));
    }
    let k = scan(s, i, 2);
    if k > i {
        Some((k, StyleValue::Ident(string_of(s, i, k))))
    } else {
        None
    }
}

proof fn lemma_tag_bounds(s: Seq<char>, i: int, t: Seq<char>)
    ensures
        tag(s, i, t) matches Some(e) ==> 0 <= i <= e <= s.len(),
{
}

// ---------------------------------------------------------------------------
// Declarations and rules

/// The values that follow a first one ending at `q`, each after white space.
pub open spec fn value_tail(s: Seq<char>, q: int) -> (int, Seq<ValueView>)
    decreases s.len() - q,
{
    let a = ws_end(s, q);
    if 0 <= q < a {
        match style_value(s, a) {
            Some((k, v)) => if a < k <= s.len() {
                let (r, rest) = value_tail(s, k);
                (r, seq![v] + rest)
            } else {
                (q, seq![])
            },
            None => (q, seq![]),
        }
    } else {
        (q, seq![])
    }
}

/// A white-space separated, possibly empty, list of values at `i`.
pub open spec fn value_list(s: Seq<char>, i: int) -> (int, Seq<ValueView>) {
    match style_value(s, i) {
        Some((k, v)) => {
            let (q, rest) = value_tail(s, k);
            (q, seq![v] + rest)
        },
        None => (i, seq![]),
    }
}

/// A declaration `property: values;` at `i`, with white space and comments
/// around it: where it ends, the trimmed property name and the values.
pub open spec fn declaration(s: Seq<char>, i: int) -> Option<(int, Seq<char>, Seq<ValueView>)> {
    let a = ws_end(s, i);
    let pe = run_end(s, a, scan_class(3));
    if 0 <= a < pe < s.len() && s[pe] == ':' {
        let b = ws_end(s, pe + 1);
        let (c, vals) = value_list(s, b);
        let d = ws_end(s, c);
        if 0 <= d < s.len() && s[d] == ';' {
            Some((ws_end(s, d + 1), trim(s.subrange(a, pe)), vals))
        } else {
            None
        }
    } else {
        None
    }
}

/// As many declarations as follow one another from `i`.
pub open spec fn declaration_list(s: Seq<char>, i: int) -> (int, Seq<(Seq<char>, Seq<ValueView>)>)
    decreases s.len() - i,
{
    match declaration(s, i) {
        Some((j, p, v)) => if i < j <= s.len() {
            let (k, rest) = declaration_list(s, j);
            (k, seq![(p, v)] + rest)
        } else {
            (i, seq![])
        },
        None => (i, seq![]),
    }
}

/// A rule `selector { declarations }` at `i`, with white space and comments
/// around it: where it ends, the trimmed selector and the declarations.
pub open spec fn rule(s: Seq<char>, i: int) -> Option<(int, Seq<char>, Seq<(Seq<char>, Seq<ValueView>)>)> {
    let a = ws_end(s, i);
    let se = run_end(s, a, scan_class(4));
    if 0 <= a < se < s.len() && s[se] == '{' {
        let (b, decls) = declaration_list(s, se + 1);
        let c = ws_end(s, b);
        if 0 <= c < s.len() && s[c] == '}' {
            Some((ws_end(s, c + 1), trim(s.subrange(a, se)), decls))
        } else {
            None
        }
    } else {
        None
    }
}

/// As many rules as follow one another from `i`.
pub open spec fn rule_list(s: Seq<char>, i: int) -> (int, Seq<(Seq<char>, Map<Seq<char>, ValueView>)>)
    decreases s.len() - i,
{
    match rule(s, i) {
        Some((j, sel, decls)) => if i < j <= s.len() {
            let (k, rest) = rule_list(s, j);
            (k, seq![(sel, expand(decls))] + rest)
        } else {
            (i, seq![])
        },
        None => (i, seq![]),
    }
}

/// A style sheet: where the parse stops and the rules, each as its selector
/// and the properties its declarations set.
pub open spec fn stylesheet(s: Seq<char>) -> (int, Seq<(Seq<char>, Map<Seq<char>, ValueView>)>) {
    let (b, rules) = rule_list(s, ws_end(s, 0));
    (ws_end(s, b), rules)
}

/// Zero pixels, what a missing length defaults to.
pub open spec fn zero_px() -> ValueView {
    ValueView::Px("0"@)
}

/// Opaque black, what a missing colour defaults to.
pub open spec fn black() -> ValueView {
    ValueView::Rgb(seq!["0"@, "0"@, "0"@])
}

pub open spec fn is_color(v: ValueView) -> bool {
    v is Hex || v is Rgb
}

/// The last pixel length among `vals`, or zero pixels.
pub open spec fn last_px(vals: Seq<ValueView>) -> ValueView
    decreases vals.len(),
{
    if vals.len() == 0 {
        zero_px()
    } else if vals.last() is Px {
        vals.last()
    } else {
        last_px(vals.drop_last())
    }
}

/// The last colour among `vals`, or black.
pub open spec fn last_color(vals: Seq<ValueView>) -> ValueView
    decreases vals.len(),
{
    if vals.len() == 0 {
        black()
    } else if is_color(vals.last()) {
        vals.last()
    } else {
        last_color(vals.drop_last())
    }
}

/// The pixel lengths among `vals`, in order.
pub open spec fn px_values(vals: Seq<ValueView>) -> Seq<ValueView>
    decreases vals.len(),
{
    if vals.len() == 0 {
        seq![]
    } else if vals.last() is Px {
        px_values(vals.drop_last()).push(vals.last())
    } else {
        px_values(vals.drop_last())
    }
}

/// The `n`-th pixel length among `vals`, or zero pixels.
pub open spec fn nth_px(vals: Seq<ValueView>, n: int) -> ValueView {
    if 0 <= n < px_values(vals).len() {
        px_values(vals)[n]
    } else {
        zero_px()
    }
}

/// The four sides set from one to four values, as CSS box shorthands do;
/// any other number of values sets nothing.
pub open spec fn sides(
    m: Map<Seq<char>, ValueView>,
    top: Seq<char>,
    right: Seq<char>,
    bottom: Seq<char>,
    left: Seq<char>,
    vals: Seq<ValueView>,
) -> Map<Seq<char>, ValueView> {
    if vals.len() == 1 {
        m.insert(top, vals[0]).insert(right, vals[0]).insert(bottom, vals[0]).insert(left, vals[0])
    } else if vals.len() == 2 {
        m.insert(top, vals[0]).insert(right, vals[1]).insert(bottom, vals[0]).insert(left, vals[1])
    } else if vals.len() == 3 {
        m.insert(top, vals[0]).insert(right, vals[1]).insert(bottom, vals[2]).insert(left, vals[1])
    } else if vals.len() == 4 {
        m.insert(top, vals[0]).insert(right, vals[1]).insert(bottom, vals[2]).insert(left, vals[3])
    } else {
        m
    }
}

/// The properties after declaration `p: vals` is applied to `m`.  The
/// shorthands `padding`, `margin`, `border`, `outline`, `box-shadow`,
/// `flex-flow` and `background` are expanded; any other property takes the
/// first value; a declaration without values sets nothing.
pub open spec fn apply_decl(m: Map<Seq<char>, ValueView>, p: Seq<char>, vals: Seq<ValueView>) -> Map<Seq<char>, ValueView> {
    if p == "padding"@ {
        sides(m, "padding-top"@, "padding-right"@, "padding-bottom"@, "padding-left"@, vals)
    } else if p == "margin"@ {
        sides(m, "margin-top"@, "margin-right"@, "margin-bottom"@, "margin-left"@, vals)
    } else if p == "border"@ {
        let w = last_px(vals);
        let c = last_color(vals);
        m.insert("border-top-width"@, w).insert("border-right-width"@, w).insert("border-bottom-width"@, w)
            .insert("border-left-width"@, w).insert("border-color-top"@, c).insert("border-color-right"@, c)
            .insert("border-color-bottom"@, c).insert("border-color-left"@, c)
    } else if p == "outline"@ {
        let c = last_color(vals);
        m.insert("outline-width"@, last_px(vals)).insert("outline-color-top"@, c).insert("outline-color-right"@, c)
            .insert("outline-color-bottom"@, c).insert("outline-color-left"@, c)
    } else if p == "box-shadow"@ {
        m.insert("box-shadow-h-offset"@, nth_px(vals, 0)).insert("box-shadow-v-offset"@, nth_px(vals, 1))
            .insert("box-shadow-blur"@, nth_px(vals, 2)).insert("box-shadow-spread"@, nth_px(vals, 3))
            .insert("box-shadow-color"@, last_color(vals))
    } else if p == "flex-flow"@ {
        let m1 = if vals.len() > 0 { m.insert("flex-direction"@, vals[0]) } else { m };
        if vals.len() > 1 { m1.insert("flex-wrap"@, vals[1]) } else { m1 }
    } else if p == "background"@ {
        if vals.len() > 0 { m.insert("background-color"@, vals[0]) } else { m }
    } else {
        if vals.len() > 0 { m.insert(p, vals[0]) } else { m }
    }
}

/// The properties a list of declarations sets, later ones winning.
pub open spec fn expand(decls: Seq<(Seq<char>, Seq<ValueView>)>) -> Map<Seq<char>, ValueView>
    decreases decls.len(),
{
    if decls.len() == 0 {
        Map::empty()
    } else {
        apply_decl(expand(decls.drop_last()), decls.last().0, decls.last().1)
    }
}

pub open spec fn values_view(v: Seq<StyleValue>) -> Seq<ValueView> {
    Seq::new(v.len(), |i: int| value_view(v[i]))
}

pub open spec fn props_view(m: Map<Seq<char>, StyleValue>) -> Map<Seq<char>, ValueView> {
    m.map_values(|v: StyleValue| value_view(v))
}

proof fn lemma_props_view_insert(m: Map<Seq<char>, StyleValue>, k: Seq<char>, v: StyleValue)
    ensures
        props_view(m.insert(k, v)) == props_view(m).insert(k, value_view(v)),
{
    assert(props_view(m.insert(k, v)) =~= props_view(m).insert(k, value_view(v)));
}

proof fn lemma_value_tail_bounds(s: Seq<char>, q: int)
    requires
        0 <= q <= s.len(),
    ensures
        q <= value_tail(s, q).0 <= s.len(),
    decreases s.len() - q,
{
    let a = ws_end(s, q);
    lemma_ws_end_bounds(s, q);
    if q < a {
        lemma_style_value_progress(s, a);
        if let Some((k, v)) = style_value(s, a) {
            if a < k <= s.len() {
                lemma_value_tail_bounds(s, k);
            }
        }
    }
}

/// Parses the values of a declaration.
fn parse_values(s: &Vec<char>, i: usize) -> (r: (usize, Vec<StyleValue>))
    requires
        i <= s@.len(),
    ensures
        value_list(s@, i as int) == (r.0 as int, values_view(r.1@)),
        i <= r.0 <= s@.len(),
{
    let mut vals: Vec<StyleValue> = Vec::new();
    proof {
        lemma_style_value_progress(s@, i as int);
    }
    let (k, v) = match parse_value(s, i) {
        Some(x) => x,
        None => {
            proof {
                assert(values_view(vals@) =~= Seq::<ValueView>::empty());
            }
            return (i, vals);
        },
    };
    vals.push(v);
    proof {
        assert(values_view(vals@) =~= seq![value_view(v)]);
    }
    let mut q = k;
    loop
        invariant
            i <= q <= s@.len(),
            value_list(s@, i as int) == ({
                let (e, rest) = value_tail(s@, q as int);
                (e, values_view(vals@) + rest)
            }),
        decreases s@.len() - q,
    {
        let a = skip_ws(s, q);
        if a > q {
            proof {
                lemma_style_value_progress(s@, a as int);
            }
            match parse_value(s, a) {
                Some((k2, v2)) => {
                    let ghost vals0 = vals@;
                    vals.push(v2);
                    proof {
                        assert(values_view(vals@) =~= values_view(vals0) + seq![value_view(v2)]);
                        let (e, rest) = value_tail(s@, k2 as int);
                        assert(values_view(vals0) + (seq![value_view(v2)] + rest) =~= values_view(vals@) + rest);
                    }
                    q = k2;
                },
                None => {
                    proof {
                        assert(values_view(vals@) + Seq::<ValueView>::empty() =~= values_view(vals@));
                    }
                    return (q, vals);
                },
            }
        } else {
            proof {
                assert(values_view(vals@) + Seq::<ValueView>::empty() =~= values_view(vals@));
            }
            return (q, vals);
        }
    }
}

/// Parses a declaration at `i`.
fn parse_declaration(s: &Vec<char>, i: usize) -> (r: Option<(usize, String, Vec<StyleValue>)>)
    requires
        i <= s@.len(),
    ensures
        r matches Some((j, p, v)) ==> declaration(s@, i as int) == Some((j as int, p@, values_view(v@)))
            && i < j <= s@.len(),
        r is None ==> declaration(s@, i as int) is None,
{
    let a = skip_ws(s, i);
    let pe = scan(s, a, 3);
    if a < pe && pe < s.len() && s[pe] == ':' {
        let b = skip_ws(s, pe + 1);
        let (c, vals) = parse_values(s, b);
        let d = skip_ws(s, c);
        if d < s.len() && s[d] == ';' {
            let e = skip_ws(s, d + 1);
            let raw = string_of(s, a, pe);
            let name = trimmed(raw.as_str());
            return Some((e, name, vals));
        }
    }
    None
}

/// Sets `key` to a copy of `v`.
fn put(m: &mut PropMap<StyleValue>, key: &str, v: &StyleValue)
    ensures
        props_view(final(m).view()) == props_view(old(m).view()).insert(key@, value_view(*v)),
{
    let c = clone_value(v);
    let ghost cv = c;
    m.insert(key.to_string(), c);
    proof {
        lemma_props_view_insert(old(m).view(), key@, cv);
    }
}

/// Sets the four sides from `vals` as the box shorthands do.
fn put_sides(m: &mut PropMap<StyleValue>, top: &str, right: &str, bottom: &str, left: &str, vals: &Vec<StyleValue>)
    ensures
        props_view(final(m).view()) == sides(props_view(old(m).view()), top@, right@, bottom@, left@, values_view(vals@)),
{
    let n = vals.len();
    if n == 1 {
        put(m, top, &vals[0]);
        put(m, right, &vals[0]);
        put(m, bottom, &vals[0]);
        put(m, left, &vals[0]);
    } else if n == 2 {
        put(m, top, &vals[0]);
        put(m, right, &vals[1]);
        put(m, bottom, &vals[0]);
        put(m, left, &vals[1]);
    } else if n == 3 {
        put(m, top, &vals[0]);
        put(m, right, &vals[1]);
        put(m, bottom, &vals[2]);
        put(m, left, &vals[1]);
    } else if n == 4 {
        put(m, top, &vals[0]);
        put(m, right, &vals[1]);
        put(m, bottom, &vals[2]);
        put(m, left, &vals[3]);
    }
}

fn zero_px_value() -> (v: StyleValue)
    ensures
        value_view(v) == zero_px(),
{
    StyleValue::Px("0".to_string())
}

fn black_value() -> (v: StyleValue)
    ensures
        value_view(v) == black(),
{
    let items = vec!["0".to_string(), "0".to_string(), "0".to_string()];
    let v = StyleValue::Rgb(items);
    assert(texts(items@) =~= seq!["0"@, "0"@, "0"@]);
    v
}

/// The last pixel length and the last colour among `vals`, with their
/// defaults, and the first four pixel lengths.
fn scan_lengths(vals: &Vec<StyleValue>) -> (r: (StyleValue, StyleValue, Vec<StyleValue>))
    ensures
        value_view(r.0) == last_px(values_view(vals@)),
        value_view(r.1) == last_color(values_view(vals@)),
        forall|n: int| 0 <= n < 4 ==> #[trigger] nth_px(values_view(vals@), n) == (if n < r.2@.len() {
            value_view(r.2@[n])
        } else {
            zero_px()
        }),
{
    let mut w = zero_px_value();
    let mut c = black_value();
    let mut pxs: Vec<StyleValue> = Vec::new();
    let ghost all = values_view(vals@);
    let mut i: usize = 0;
    while i < vals.len()
        invariant
            i <= vals@.len(),
            all == values_view(vals@),
            value_view(w) == last_px(all.take(i as int)),
            value_view(c) == last_color(all.take(i as int)),
            pxs@.len() <= 4,
            pxs@.len() == (if px_values(all.take(i as int)).len() < 4 { px_values(all.take(i as int)).len() } else { 4 }),
            forall|n: int| 0 <= n < pxs@.len() ==> #[trigger] value_view(pxs@[n]) == px_values(all.take(i as int))[n],
        decreases vals.len() - i,
    {
        let ghost t = all.take(i as int);
        let ghost t1 = all.take(i + 1);
        proof {
            assert(t1.drop_last() =~= t);
            assert(t1.last() == value_view(vals@[i as int]));
        }
        match &vals[i] {
            StyleValue::Px(_) => {
                w = clone_value(&vals[i]);
                if pxs.len() < 4 {
                    pxs.push(clone_value(&vals[i]));
                }
            },
            StyleValue::Hex(_) => {
                c = clone_value(&vals[i]);
            },
            StyleValue::Rgb(_) => {
                c = clone_value(&vals[i]);
            },
            _ => {},
        }
        proof {
            assert(px_values(t1).len() >= px_values(t).len());
        }
        i = i + 1;
    }
    proof {
        assert(all.take(vals@.len() as int) =~= all);
    }
    (w, c, pxs)
}

/// Applies the declaration `p: vals` to `m`.
fn apply_declaration(m: &mut PropMap<StyleValue>, p: &String, vals: &Vec<StyleValue>)
    ensures
        props_view(final(m).view()) == apply_decl(props_view(old(m).view()), p@, values_view(vals@)),
{
    let ghost vv = values_view(vals@);
    let name = p.as_str();
    if crate::text::str_eq(name, "padding") {
        put_sides(m, "padding-top", "padding-right", "padding-bottom", "padding-left", vals);
    } else if crate::text::str_eq(name, "margin") {
        put_sides(m, "margin-top", "margin-right", "margin-bottom", "margin-left", vals);
    } else if crate::text::str_eq(name, "border") {
        let (w, c, _pxs) = scan_lengths(vals);
        put(m, "border-top-width", &w);
        put(m, "border-right-width", &w);
        put(m, "border-bottom-width", &w);
        put(m, "border-left-width", &w);
        put(m, "border-color-top", &c);
        put(m, "border-color-right", &c);
        put(m, "border-color-bottom", &c);
        put(m, "border-color-left", &c);
    } else if crate::text::str_eq(name, "outline") {
        let (w, c, _pxs) = scan_lengths(vals);
        put(m, "outline-width", &w);
        put(m, "outline-color-top", &c);
        put(m, "outline-color-right", &c);
        put(m, "outline-color-bottom", &c);
        put(m, "outline-color-left", &c);
    } else if crate::text::str_eq(name, "box-shadow") {
        let (_w, c, pxs) = scan_lengths(vals);
        let zero = zero_px_value();
        proof {
            assert(nth_px(vv, 0) == nth_px(vv, 0));
            assert(nth_px(vv, 1) == nth_px(vv, 1));
            assert(nth_px(vv, 2) == nth_px(vv, 2));
            assert(nth_px(vv, 3) == nth_px(vv, 3));
        }
        put(m, "box-shadow-h-offset", if pxs.len() > 0 { &pxs[0] } else { &zero });
        put(m, "box-shadow-v-offset", if pxs.len() > 1 { &pxs[1] } else { &zero });
        put(m, "box-shadow-blur", if pxs.len() > 2 { &pxs[2] } else { &zero });
        put(m, "box-shadow-spread", if pxs.len() > 3 { &pxs[3] } else { &zero });
        put(m, "box-shadow-color", &c);
    } else if crate::text::str_eq(name, "flex-flow") {
        if vals.len() > 0 {
            put(m, "flex-direction", &vals[0]);
        }
        if vals.len() > 1 {
            put(m, "flex-wrap", &vals[1]);
        }
    } else if crate::text::str_eq(name, "background") {
        if vals.len() > 0 {
            put(m, "background-color", &vals[0]);
        }
    } else {
        if vals.len() > 0 {
            put(m, name, &vals[0]);
        }
    }
}

/// A parsed style rule: its selector and the properties it sets.
pub struct StyleRule {
    pub selector: String,
    pub declarations: PropMap<StyleValue>,
}

pub open spec fn rules_view(v: Seq<StyleRule>) -> Seq<(Seq<char>, Map<Seq<char>, ValueView>)> {
    Seq::new(v.len(), |i: int| (v[i].selector@, props_view(v[i].declarations.view())))
}

/// Parses a rule at `i`.
fn parse_rule(s: &Vec<char>, i: usize) -> (r: Option<(usize, StyleRule)>)
    requires
        i <= s@.len(),
    ensures
        r matches Some((j, rl)) ==> i < j <= s@.len() && (rule(s@, i as int) matches Some((j2, sel, decls))
            && j2 == j && sel == rl.selector@ && props_view(rl.declarations.view()) == expand(decls)),
        r is None ==> rule(s@, i as int) is None,
{
    let n = s.len();
    let a = skip_ws(s, i);
    let se = scan(s, a, 4);
    if a < se && se < n && s[se] == '{' {
        let mut m: PropMap<StyleValue> = PropMap::new();
        let mut q = se + 1;
        let ghost mut done: Seq<(Seq<char>, Seq<ValueView>)> = seq![];
        proof {
            assert(done + declaration_list(s@, q as int).1 =~= declaration_list(s@, q as int).1);
            assert(props_view(m.view()) =~= expand(done));
        }
        loop
            invariant_except_break
                se + 1 <= q <= n,
                n == s@.len(),
                declaration_list(s@, se + 1) == ({
                    let (k, rest) = declaration_list(s@, q as int);
                    (k, done + rest)
                }),
                props_view(m.view()) == expand(done),
            ensures
                se + 1 <= q <= n,
                declaration_list(s@, se + 1) == (q as int, done),
                props_view(m.view()) == expand(done),
            decreases n - q,
        {
            match parse_declaration(s, q) {
                Some((j, p, vals)) => {
                    let ghost d = (p@, values_view(vals@));
                    apply_declaration(&mut m, &p, &vals);
                    proof {
                        let old_done = done;
                        done = done.push(d);
                        assert(done.drop_last() =~= old_done);
                        let (k, rest) = declaration_list(s@, j as int);
                        assert(old_done + (seq![d] + rest) =~= done + rest);
                    }
                    q = j;
                },
                None => {
                    proof {
                        assert(done + Seq::<(Seq<char>, Seq<ValueView>)>::empty() =~= done);
                    }
                    break;
                },
            }
        }
        let c = skip_ws(s, q);
        if c < n && s[c] == '}' {
            let e = skip_ws(s, c + 1);
            let raw = string_of(s, a, se);
            let selector = trimmed(raw.as_str());
            return Some((e, StyleRule { selector, declarations: m }));
        }
    }
    None
}

/// Parses a style sheet: rules one after another, with white space and
/// `//` and `/* */` comments around them.  Parsing stops where no further
/// rule can be read; the text from there on is handed back.
pub fn parse_css(input: &str) -> (r: (String, Vec<StyleRule>))
    ensures
        r.0@ == input@.subrange(stylesheet(input@).0, input@.len() as int),
        rules_view(r.1@) == stylesheet(input@).1,
{
    let s = chars_of(input);
    let n = s.len();
    let start = skip_ws(&s, 0);
    let mut rules: Vec<StyleRule> = Vec::new();
    let mut q = start;
    proof {
        assert(rules_view(rules@) + rule_list(s@, q as int).1 =~= rule_list(s@, q as int).1);
    }
    loop
        invariant_except_break
            start <= q <= n,
            n == s@.len(),
            rule_list(s@, start as int) == ({
                let (k, rest) = rule_list(s@, q as int);
                (k, rules_view(rules@) + rest)
            }),
        ensures
            q <= n,
            rule_list(s@, start as int) == (q as int, rules_view(rules@)),
        decreases n - q,
    {
        match parse_rule(&s, q) {
            Some((j, rl)) => {
                let ghost before = rules@;
                let ghost item = (rl.selector@, props_view(rl.declarations.view()));
                rules.push(rl);
                proof {
                    assert(rules_view(rules@) =~= rules_view(before).push(item));
                    let (k, rest) = rule_list(s@, j as int);
                    assert(rules_view(before) + (seq![item] + rest) =~= rules_view(rules@) + rest);
                }
                q = j;
            },
            None => {
                proof {
                    assert(rules_view(rules@) + Seq::<(Seq<char>, Map<Seq<char>, ValueView>)>::empty()
                        =~= rules_view(rules@));
                }
                break;
            },
        }
    }
    let e = skip_ws(&s, q);
    let rest = string_of(&s, e, n);
    (rest, rules)
}

/// The box shorthands `padding` and `margin` with one to four values set
/// all four sides, in the CSS order top, right, bottom, left: a missing
/// right side copies the top, a missing bottom the top and a missing left
/// the right.  So with two values the first sets top and bottom and the
/// second right and left.  No other property changes.
pub proof fn law_box_shorthand_sets_four_sides(m: Map<Seq<char>, ValueView>, p: Seq<char>, vals: Seq<ValueView>)
    requires
        p == "padding"@ || p == "margin"@,
        1 <= vals.len() <= 4,
    ensures
        ({
            let r = apply_decl(m, p, vals);
            let (t, rt, b, l) = if p == "padding"@ {
                ("padding-top"@, "padding-right"@, "padding-bottom"@, "padding-left"@)
            } else {
                ("margin-top"@, "margin-right"@, "margin-bottom"@, "margin-left"@)
            };
            &&& r.contains_key(t) && r.contains_key(rt) && r.contains_key(b) && r.contains_key(l)
            &&& r[t] == vals[0]
            &&& r[rt] == (if vals.len() >= 2 { vals[1] } else { vals[0] })
            &&& r[b] == (if vals.len() >= 3 { vals[2] } else { vals[0] })
            &&& r[l] == (if vals.len() >= 4 { vals[3] } else { r[rt] })
            &&& forall|k: Seq<char>| k != t && k != rt && k != b && k != l ==> (r.contains_key(k) == m.contains_key(k)
                && (m.contains_key(k) ==> r[k] == m[k]))
        }),
{
    reveal_strlit("padding");
    reveal_strlit("margin");
    reveal_strlit("padding-top");
    reveal_strlit("padding-right");
    reveal_strlit("padding-bottom");
    reveal_strlit("padding-left");
    reveal_strlit("margin-top");
    reveal_strlit("margin-right");
    reveal_strlit("margin-bottom");
    reveal_strlit("margin-left");
    assert("padding"@ != "margin"@) by {
        assert("padding"@.len() != "margin"@.len());
    }
    assert("padding-top"@.len() == 11 && "padding-right"@.len() == 13 && "padding-bottom"@.len() == 14 && "padding-left"@.len() == 12);
    assert("margin-top"@.len() == 10 && "margin-right"@.len() == 12 && "margin-bottom"@.len() == 13 && "margin-left"@.len() == 11);
}

/// The `border` shorthand sets the width and colour of all four sides, from
/// its last length and last colour or their defaults.
pub proof fn law_border_sets_all_sides(m: Map<Seq<char>, ValueView>, vals: Seq<ValueView>)
    ensures
        ({
            let r = apply_decl(m, "border"@, vals);
            &&& r.contains_key("border-left-width"@) && r["border-left-width"@] == last_px(vals)
            &&& r.contains_key("border-color-top"@) && r["border-color-top"@] == last_color(vals)
        }),
{
    reveal_strlit("border-left-width");
    reveal_strlit("border-bottom-width");
    reveal_strlit("border-right-width");
    reveal_strlit("border-top-width");
    reveal_strlit("border-color-top");
    reveal_strlit("border-color-right");
    reveal_strlit("border-color-bottom");
    reveal_strlit("border-color-left");
    reveal_strlit("border");
    reveal_strlit("padding");
    reveal_strlit("margin");
    assert("border"@.len() == 6 && "padding"@.len() == 7);
    assert("border"@ != "padding"@);
    assert("border"@[0] != "margin"@[0]);
    assert("border-left-width"@[7] != "border-color-left"@[7]);
    assert("border-left-width"@.len() == 17 && "border-color-top"@.len() == 16);
    assert("border-color-right"@.len() == 18 && "border-color-bottom"@.len() == 19);
    assert("border-left-width"@ != "border-color-top"@);
    assert("border-left-width"@ != "border-color-right"@);
    assert("border-left-width"@ != "border-color-bottom"@);
    assert("border-color-top"@[13] != "border-color-left"@[13]);
    assert("border-color-top"@ != "border-color-right"@);
    assert("border-color-top"@ != "border-color-bottom"@);
}

} // verus!
