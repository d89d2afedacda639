use vstd::prelude::*;

verus! {

broadcast use vstd::string::group_string_axioms;

/// The Unicode `White_Space` property.
pub open spec fn is_white(c: char) -> bool {
    let u = c as u32;
    ||| 0x9 <= u <= 0xd
    ||| u == 0x20
    ||| u == 0x85
    ||| u == 0xa0
    ||| u == 0x1680
    ||| 0x2000 <= u <= 0x200a
    ||| u == 0x2028
    ||| u == 0x2029
    ||| u == 0x202f
    ||| u == 0x205f
    ||| u == 0x3000
}

/// Whether `c` has the Unicode `White_Space` property.
pub fn is_whitespace(c: char) -> (b: bool)
    ensures
        b == is_white(c),
{
    let u = c as u32;
    (0x9 <= u && u <= 0xd) || u == 0x20 || u == 0x85 || u == 0xa0 || u == 0x1680 || (0x2000 <= u
        && u <= 0x200a) || u == 0x2028 || u == 0x2029 || u == 0x202f || u == 0x205f || u == 0x3000
}

/// `s` without its leading white space.
pub open spec fn trim_start(s: Seq<char>) -> Seq<char>
    decreases s.len(),
{
    if s.len() > 0 && is_white(s[0]) {
        trim_start(s.drop_first())
    } else {
        s
    }
}

/// `s` without its trailing white space.
pub open spec fn trim_end(s: Seq<char>) -> Seq<char>
    decreases s.len(),
{
    if s.len() > 0 && is_white(s.last()) {
        trim_end(s.drop_last())
    } else {
        s
    }
}

/// `s` without leading and trailing white space.
pub open spec fn trim(s: Seq<char>) -> Seq<char> {
    trim_end(trim_start(s))
}

/// Appends a character to a string (`String::push`).
#[verifier::external_body]
pub(crate) fn push_char(s: &mut String, c: char)
    ensures
        final(s)@ == old(s)@.push(c),
{
    s.push(c)
}

/// The characters of `s`.
pub fn chars_of(s: &str) -> (v: Vec<char>)
    ensures
        v@ == s@,
{
    let mut v: Vec<char> = Vec::new();
    for c in it: s.chars()
        invariant
            it.seq() == s@,
            v@ == it.seq().take(it.index() as int),
    {
        v.push(c);
    }
    assert(v@ =~= s@);
    v
}

/// The string made of the characters `v[from..to]`.
pub fn string_of(v: &Vec<char>, from: usize, to: usize) -> (s: String)
    requires
        from <= to <= v@.len(),
    ensures
        s@ == v@.subrange(from as int, to as int),
{
    let mut s = String::new();
    let mut i = from;
    while i < to
        invariant
            from <= i <= to <= v@.len(),
            s@ == v@.subrange(from as int, i as int),
        decreases to - i,
    {
        push_char(&mut s, v[i]);
        assert(v@.subrange(from as int, i + 1) =~= v@.subrange(from as int, i as int).push(v@[i as int]));
        i = i + 1;
    }
    s
}

/// The concatenation of `a` and `b`.
pub fn concat(a: &str, b: &str) -> (r: String)
    ensures
        r@ == a@ + b@,
{
    let mut r = String::new();
    let x = chars_of(a);
    let y = chars_of(b);
    let mut i: usize = 0;
    while i < x.len()
        invariant
            i <= x@.len(),
            r@ == x@.take(i as int),
        decreases x.len() - i,
    {
        push_char(&mut r, x[i]);
        assert(x@.take(i + 1) =~= x@.take(i as int).push(x@[i as int]));
        i = i + 1;
    }
    let mut j: usize = 0;
    while j < y.len()
        invariant
            i == x@.len(),
            j <= y@.len(),
            r@ == x@ + y@.take(j as int),
        decreases y.len() - j,
    {
        push_char(&mut r, y[j]);
        assert(x@ + y@.take(j + 1) =~= (x@ + y@.take(j as int)).push(y@[j as int]));
        j = j + 1;
    }
    assert(x@.take(x@.len() as int) =~= x@);
    assert(y@.take(y@.len() as int) =~= y@);
    r
}

/// Whether two strings are equal.
pub fn str_eq(a: &str, b: &str) -> (r: bool)
    ensures
        r == (a@ == b@),
{
    let x = chars_of(a);
    let y = chars_of(b);
    seq_eq(&x, &y)
}

/// Whether two character sequences are equal.
pub fn seq_eq(x: &Vec<char>, y: &Vec<char>) -> (r: bool)
    ensures
        r == (x@ == y@),
{
    if x.len() != y.len() {
        return false;
    }
    let mut i: usize = 0;
    while i < x.len()
        invariant
            x@.len() == y@.len(),
            i <= x@.len(),
            forall|j: int| 0 <= j < i ==> x@[j] == y@[j],
        decreases x.len() - i,
    {
        if x[i] != y[i] {
            return false;
        }
        i = i + 1;
    }
    assert(x@ =~= y@);
    true
}

/// The texts of a list of strings.
pub open spec fn texts(v: Seq<String>) -> Seq<Seq<char>> {
    Seq::new(v.len(), |i: int| v[i]@)
}

/// The text of an optional string.
pub open spec fn opt_str(o: Option<String>) -> Option<Seq<char>> {
    match o {
        Some(s) => Some(s@),
        None => None,
    }
}

/// `s` with every leading repetition of `p` removed (`str::trim_start_matches`).
pub open spec fn strip_prefixes(s: Seq<char>, p: Seq<char>) -> Seq<char>
    decreases s.len(),
{
    if p.len() > 0 && has_prefix(s, p) {
        strip_prefixes(s.subrange(p.len() as int, s.len() as int), p)
    } else {
        s
    }
}

/// `s` with every leading repetition of `p` removed (`str::trim_start_matches`).
pub fn trim_start_matches(s: &str, p: &str) -> (r: String)
    ensures
        r@ == strip_prefixes(s@, p@),
{
    let v = chars_of(s);
    let q = chars_of(p);
    let n = v.len();
    let m = q.len();
    let mut i: usize = 0;
    proof {
        assert(v@.subrange(0, n as int) =~= v@);
    }
    if m == 0 {
        return string_of(&v, 0, n);
    }
    loop
        invariant
            n == v@.len(),
            m == q@.len(),
            m > 0,
            v@ == s@,
            q@ == p@,
            i <= n,
            strip_prefixes(v@, q@) == strip_prefixes(v@.subrange(i as int, n as int), q@),
        decreases n - i,
    {
        if m > n - i {
            return string_of(&v, i, n);
        }
        let mut k: usize = 0;
        let mut same = true;
        while k < m
            invariant
                n == v@.len(),
                m == q@.len(),
                i + m <= n,
                k <= m,
                same == (forall|j: int| 0 <= j < k ==> v@[i + j] == q@[j]),
            decreases m - k,
        {
            if v[i + k] != q[k] {
                same = false;
            }
            k = k + 1;
        }
        let ghost rest = v@.subrange(i as int, n as int);
        if !same {
            proof {
                let j = choose|j: int| 0 <= j < m && v@[i + j] != q@[j];
                assert(rest.subrange(0, m as int)[j] != q@[j]);
            }
            return string_of(&v, i, n);
        }
        proof {
            assert(rest.subrange(0, m as int) =~= q@);
            assert(rest.subrange(m as int, rest.len() as int) =~= v@.subrange(i + m, n as int));
        }
        i = i + m;
    }
}

/// Whether `s` begins with `p`.
pub open spec fn has_prefix(s: Seq<char>, p: Seq<char>) -> bool {
    p.len() <= s.len() && s.subrange(0, p.len() as int) == p
}

/// Whether `s` begins with `p`.
pub fn starts_with(s: &str, p: &str) -> (r: bool)
    ensures
        r == has_prefix(s@, p@),
{
    let x = chars_of(s);
    let y = chars_of(p);
    if y.len() > x.len() {
        return false;
    }
    let mut i: usize = 0;
    while i < y.len()
        invariant
            x@ == s@,
            y@ == p@,
            y@.len() <= x@.len(),
            i <= y@.len(),
            forall|j: int| 0 <= j < i ==> x@[j] == y@[j],
        decreases y.len() - i,
    {
        if x[i] != y[i] {
            assert(x@.subrange(0, y@.len() as int)[i as int] != y@[i as int]);
            assert(x@.subrange(0, y@.len() as int) != y@);
            return false;
        }
        i = i + 1;
    }
    assert(x@.subrange(0, y@.len() as int) =~= y@);
    true
}

proof fn lemma_trim_start_step(s: Seq<char>, i: int)
    requires
        0 <= i < s.len(),
        is_white(s[i]),
    ensures
        trim_start(s.subrange(i, s.len() as int)) == trim_start(s.subrange(i + 1, s.len() as int)),
{
    assert(s.subrange(i, s.len() as int).drop_first() =~= s.subrange(i + 1, s.len() as int));
}

proof fn lemma_trim_end_step(s: Seq<char>, i: int, j: int)
    requires
        0 <= i < j <= s.len(),
        is_white(s[j - 1]),
    ensures
        trim_end(s.subrange(i, j)) == trim_end(s.subrange(i, j - 1)),
{
    assert(s.subrange(i, j).drop_last() =~= s.subrange(i, j - 1));
}

/// `s` without leading and trailing white space (`str::trim`).
pub fn trimmed(s: &str) -> (r: String)
    ensures
        r@ == trim(s@),
{
    let v = chars_of(s);
    let n = v.len();
    let mut i: usize = 0;
    proof {
        assert(v@.subrange(0, n as int) =~= v@);
    }
    while i < n && is_whitespace(v[i])
        invariant
            n == v@.len(),
            i <= n,
            trim_start(v@) == trim_start(v@.subrange(i as int, n as int)),
        decreases n - i,
    {
        proof { lemma_trim_start_step(v@, i as int); }
        i = i + 1;
    }
    proof {
        assert(v@.subrange(0, n as int) =~= v@);
    }
    let mut j: usize = n;
    while j > i && is_whitespace(v[j - 1])
        invariant
            n == v@.len(),
            i <= j <= n,
            trim_end(v@.subrange(i as int, n as int)) == trim_end(v@.subrange(i as int, j as int)),
        decreases j - i,
    {
        proof { lemma_trim_end_step(v@, i as int, j as int); }
        j = j - 1;
    }
    proof {
        assert(trim_start(v@) == v@.subrange(i as int, n as int));
        assert(trim_end(v@.subrange(i as int, j as int)) == v@.subrange(i as int, j as int));
    }
    string_of(&v, i, j)
}


/// The length of the run of non-white characters that `s` begins with.
pub open spec fn word_len(s: Seq<char>) -> nat
    decreases s.len(),
{
    if s.len() > 0 && !is_white(s[0]) {
        1 + word_len(s.drop_first())
    } else {
        0
    }
}

pub proof fn lemma_word_len_bound(s: Seq<char>)
    ensures
        word_len(s) <= s.len(),
        s.len() > 0 && !is_white(s[0]) ==> word_len(s) >= 1,
    decreases s.len(),
{
    if s.len() > 0 && !is_white(s[0]) {
        lemma_word_len_bound(s.drop_first());
    }
}

/// The maximal runs of non-white characters of `s`, in order
/// (`str::split_whitespace`).
pub open spec fn words(s: Seq<char>) -> Seq<Seq<char>>
    decreases s.len(),
{
    if s.len() == 0 {
        Seq::empty()
    } else if is_white(s[0]) {
        words(s.drop_first())
    } else {
        let k = word_len(s);
        proof {
            lemma_word_len_bound(s);
        }
        seq![s.subrange(0, k as int)] + words(s.subrange(k as int, s.len() as int))
    }
}

/// The words of a sequence joined by single spaces.
pub open spec fn join_words(ws: Seq<Seq<char>>) -> Seq<char>
    decreases ws.len(),
{
    if ws.len() == 0 {
        Seq::empty()
    } else if ws.len() == 1 {
        ws[0]
    } else {
        join_words(ws.drop_last()) + seq![' '] + ws.last()
    }
}

pub open spec fn all_dark(s: Seq<char>) -> bool {
    forall|j: int| 0 <= j < s.len() ==> !is_white(#[trigger] s[j])
}

proof fn lemma_word_len_of_word(w: Seq<char>, t: Seq<char>)
    requires
        all_dark(w),
        t.len() == 0 || is_white(t[0]),
    ensures
        word_len(w + t) == w.len(),
    decreases w.len(),
{
    if w.len() > 0 {
        assert((w + t).drop_first() =~= w.drop_first() + t);
        lemma_word_len_of_word(w.drop_first(), t);
    } else {
        assert(w + t =~= t);
    }
}

proof fn lemma_words_of_word(w: Seq<char>, t: Seq<char>)
    requires
        all_dark(w),
        w.len() > 0,
        t.len() == 0 || is_white(t[0]),
    ensures
        words(w + t) == seq![w] + words(t),
{
    lemma_word_len_of_word(w, t);
    let s = w + t;
    assert(s[0] == w[0]);
    assert(s.subrange(0, w.len() as int) =~= w);
    assert(s.subrange(w.len() as int, s.len() as int) =~= t);
}

/// The words of `s` (`str::split_whitespace`).
pub fn split_whitespace(s: &str) -> (r: Vec<String>)
    ensures
        r@.len() == words(s@).len(),
        forall|j: int| 0 <= j < r@.len() ==> #[trigger] r@[j]@ == words(s@)[j],
{
    let v = chars_of(s);
    let n = v.len();
    let mut out: Vec<String> = Vec::new();
    let mut start: usize = 0;
    let mut i: usize = 0;
    let ghost mut done: Seq<Seq<char>> = Seq::empty();
    proof {
        assert(v@.subrange(0, 0) + v@.subrange(0, n as int) =~= v@);
    }
    while i < n
        invariant
            n == v@.len(),
            v@ == s@,
            start <= i <= n,
            all_dark(v@.subrange(start as int, i as int)),
            out@.len() == done.len(),
            forall|j: int| 0 <= j < out@.len() ==> #[trigger] out@[j]@ == done[j],
            done + words(v@.subrange(start as int, i as int) + v@.subrange(i as int, n as int)) == words(v@),
        decreases n - i,
    {
        let ghost cur = v@.subrange(start as int, i as int);
        let ghost rest = v@.subrange(i as int, n as int);
        if is_whitespace(v[i]) {
            if start < i {
                let w = string_of(&v, start, i);
                proof {
                    lemma_words_of_word(cur, rest);
                    assert(rest.drop_first() =~= v@.subrange(i + 1, n as int));
                    assert(words(rest) == words(v@.subrange(i + 1, n as int)));
                    assert(v@.subrange(i + 1, i + 1) + v@.subrange(i + 1, n as int) =~= v@.subrange(i + 1, n as int));
                    assert(done.push(cur) + words(v@.subrange(i + 1, n as int)) =~= done + (seq![cur] + words(rest)));
                    done = done.push(cur);
                }
                out.push(w);
            } else {
                proof {
                    assert(cur + rest =~= rest);
                    assert(rest.drop_first() =~= v@.subrange(i + 1, n as int));
                    assert(v@.subrange(i + 1, i + 1) + v@.subrange(i + 1, n as int) =~= v@.subrange(i + 1, n as int));
                }
            }
            start = i + 1;
        } else {
            proof {
                assert(cur + rest =~= v@.subrange(start as int, i + 1) + v@.subrange(i + 1, n as int));
            }
        }
        i = i + 1;
    }
    let ghost cur = v@.subrange(start as int, n as int);
    if start < n {
        let w = string_of(&v, start, n);
        proof {
            assert(v@.subrange(n as int, n as int) =~= Seq::<char>::empty());
            assert(cur + Seq::<char>::empty() =~= cur);
            lemma_words_of_word(cur, Seq::<char>::empty());
            assert(words(Seq::<char>::empty()) =~= Seq::<Seq<char>>::empty());
            assert(done.push(cur) =~= done + (seq![cur] + words(Seq::<char>::empty())));
            done = done.push(cur);
        }
        out.push(w);
    } else {
        proof {
            assert(v@.subrange(start as int, n as int) + v@.subrange(n as int, n as int) =~= Seq::<char>::empty());
            assert(done + words(Seq::<char>::empty()) =~= done);
        }
    }
    out
}

/// `raw` with every run of white space turned into one space and the ends
/// trimmed; `None` when nothing is left.
pub fn normalize_text_content(raw: &str) -> (r: Option<String>)
    ensures
        words(raw@).len() == 0 ==> r is None,
        words(raw@).len() > 0 ==> (r matches Some(t) && t@ == join_words(words(raw@))),
{
    let ws = split_whitespace(raw);
    if ws.len() == 0 {
        return None;
    }
    let mut out = String::new();
    let mut i: usize = 0;
    while i < ws.len()
        invariant
            ws@.len() == words(raw@).len(),
            forall|j: int| 0 <= j < ws@.len() ==> #[trigger] ws@[j]@ == words(raw@)[j],
            i <= ws@.len(),
            out@ == join_words(words(raw@).take(i as int)),
        decreases ws.len() - i,
    {
        let ghost before = out@;
        if i > 0 {
            push_char(&mut out, ' ');
        }
        out.append(ws[i].as_str());
        proof {
            let ww = words(raw@);
            assert(ww.take(i + 1).drop_last() =~= ww.take(i as int));
            assert(ww.take(i + 1).last() == ww[i as int]);
            if i == 0 {
                assert(ww.take(0) =~= Seq::<Seq<char>>::empty());
                assert(out@ =~= ww[0]);
            } else {
                assert(out@ =~= before + seq![' '] + ww[i as int]);
            }
        }
        i = i + 1;
    }
    proof {
        assert(words(raw@).take(ws@.len() as int) =~= words(raw@));
    }
    Some(out)
}

/// `a` comes before `b` in the order of `str`: lexicographic by character
/// (for UTF-8 text the order of the bytes is that of the characters).
pub open spec fn text_lt(a: Seq<char>, b: Seq<char>) -> bool
    decreases a.len(),
{
    if a.len() == 0 {
        b.len() > 0
    } else if b.len() == 0 {
        false
    } else if a[0] != b[0] {
        (a[0] as int) < (b[0] as int)
    } else {
        text_lt(a.drop_first(), b.drop_first())
    }
}

/// The order of texts is strict and total.
pub proof fn lemma_text_lt_total(a: Seq<char>, b: Seq<char>)
    ensures
        !text_lt(a, a),
        !(text_lt(a, b) && text_lt(b, a)),
        a != b ==> text_lt(a, b) || text_lt(b, a),
    decreases a.len(),
{
    if a.len() > 0 {
        lemma_text_lt_total(a.drop_first(), a.drop_first());
    }
    if a.len() > 0 && b.len() > 0 && a[0] == b[0] {
        lemma_text_lt_total(a.drop_first(), b.drop_first());
        if a != b {
            if a.drop_first() == b.drop_first() {
                assert(a =~= seq![a[0]] + a.drop_first());
                assert(b =~= seq![b[0]] + b.drop_first());
            }
        }
    }
    if a.len() == 0 && b.len() == 0 {
        assert(a =~= b);
    }
    if a.len() > 0 && b.len() > 0 && a[0] != b[0] {
        assert((a[0] as int) != (b[0] as int));
    }
}

/// The order of texts is transitive.
pub proof fn lemma_text_lt_trans(a: Seq<char>, b: Seq<char>, c: Seq<char>)
    requires
        text_lt(a, b),
        text_lt(b, c),
    ensures
        text_lt(a, c),
    decreases a.len(),
{
    if a.len() > 0 && b.len() > 0 && c.len() > 0 && a[0] == b[0] && b[0] == c[0] {
        lemma_text_lt_trans(a.drop_first(), b.drop_first(), c.drop_first());
    }
}

/// Whether `a` comes before `b` in the order of `str`.
pub fn text_less(a: &str, b: &str) -> (r: bool)
    ensures
        r == text_lt(a@, b@),
{
    let x = chars_of(a);
    let y = chars_of(b);
    let mut i: usize = 0;
    proof {
        assert(x@.skip(0) =~= x@);
        assert(y@.skip(0) =~= y@);
    }
    while i < x.len() && i < y.len()
        invariant
            i <= x@.len(),
            i <= y@.len(),
            x@ == a@,
            y@ == b@,
            text_lt(a@, b@) == text_lt(x@.skip(i as int), y@.skip(i as int)),
        decreases x.len() - i,
    {
        if x[i] != y[i] {
            return x[i] < y[i];
        }
        proof {
            assert(x@.skip(i as int).drop_first() =~= x@.skip(i + 1));
            assert(y@.skip(i as int).drop_first() =~= y@.skip(i + 1));
        }
        i = i + 1;
    }
    i == x.len() && i < y.len()
}

/// `join_words` seen from the front.
proof fn lemma_join_front(ws: Seq<Seq<char>>)
    requires
        ws.len() >= 2,
    ensures
        join_words(ws) == ws[0] + seq![' '] + join_words(ws.drop_first()),
    decreases ws.len(),
{
    if ws.len() == 2 {
        assert(join_words(ws.drop_last()) == ws[0]);
        assert(join_words(ws.drop_first()) == ws[1]);
        assert(join_words(ws) =~= ws[0] + seq![' '] + join_words(ws.drop_first()));
    } else {
        lemma_join_front(ws.drop_last());
        assert(ws.drop_last().drop_first() =~= ws.drop_first().drop_last());
        assert(ws.drop_first().last() == ws.last());
        assert(join_words(ws) =~= ws[0] + seq![' '] + join_words(ws.drop_first()));
    }
}

/// Each word of `s` is a non-empty run of non-white characters.
proof fn lemma_words_dark(s: Seq<char>)
    ensures
        forall|j: int| 0 <= j < words(s).len() ==> (#[trigger] words(s)[j]).len() > 0 && all_dark(words(s)[j]),
    decreases s.len(),
{
    if s.len() > 0 {
        if is_white(s[0]) {
            lemma_words_dark(s.drop_first());
            assert(words(s) == words(s.drop_first()));
        } else {
            let k = word_len(s);
            lemma_word_len_bound(s);
            lemma_word_len_dark(s);
            lemma_words_dark(s.subrange(k as int, s.len() as int));
            let w = s.subrange(0, k as int);
            assert(all_dark(w));
            let rest = words(s.subrange(k as int, s.len() as int));
            assert(words(s) == seq![w] + rest);
            assert forall|j: int| 0 <= j < words(s).len() implies (#[trigger] words(s)[j]).len() > 0 && all_dark(words(s)[j]) by {
                if j > 0 {
                    assert(words(s)[j] == rest[j - 1]);
                }
            }
        }
    }
}

/// The characters `s` begins with, up to `word_len(s)`, are not white.
proof fn lemma_word_len_dark(s: Seq<char>)
    ensures
        forall|j: int| 0 <= j < word_len(s) ==> !is_white(#[trigger] s[j]),
    decreases s.len(),
{
    lemma_word_len_bound(s);
    if s.len() > 0 && !is_white(s[0]) {
        lemma_word_len_dark(s.drop_first());
        assert forall|j: int| 0 <= j < word_len(s) implies !is_white(#[trigger] s[j]) by {
            if j > 0 {
                assert(s[j] == s.drop_first()[j - 1]);
            }
        }
    }
}

/// Joining words by single spaces and splitting again gives the words back.
proof fn lemma_words_of_join(ws: Seq<Seq<char>>)
    requires
        forall|j: int| 0 <= j < ws.len() ==> (#[trigger] ws[j]).len() > 0 && all_dark(ws[j]),
    ensures
        words(join_words(ws)) == ws,
    decreases ws.len(),
{
    if ws.len() == 0 {
        assert(words(Seq::<char>::empty()) =~= Seq::<Seq<char>>::empty());
    } else if ws.len() == 1 {
        lemma_words_of_word(ws[0], Seq::empty());
        assert(ws[0] + Seq::<char>::empty() =~= ws[0]);
        assert(words(Seq::<char>::empty()) =~= Seq::<Seq<char>>::empty());
        assert(seq![ws[0]] + Seq::<Seq<char>>::empty() =~= ws);
    } else {
        lemma_join_front(ws);
        let rest = join_words(ws.drop_first());
        let t = seq![' '] + rest;
        assert(is_white(t[0]));
        lemma_words_of_word(ws[0], t);
        assert(ws[0] + seq![' '] + rest =~= ws[0] + t);
        assert(t.drop_first() =~= rest);
        assert(forall|j: int| 0 <= j < ws.drop_first().len() ==> #[trigger] ws.drop_first()[j] == ws[j + 1]);
        lemma_words_of_join(ws.drop_first());
        assert(seq![ws[0]] + ws.drop_first() =~= ws);
    }
}

/// Normalizing text is idempotent: the words of normalized text are the
/// words of the text it came from, so normalizing it again changes nothing.
pub proof fn law_normalize_idempotent(raw: Seq<char>)
    ensures
        words(join_words(words(raw))) == words(raw),
{
    lemma_words_dark(raw);
    lemma_words_of_join(words(raw));
}

} // verus!
