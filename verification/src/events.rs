use vstd::prelude::*;
use crate::style::is_path;
use crate::text::{chars_of, str_eq, string_of};
use crate::tree::NodeTree;

verus! {

broadcast use vstd::string::group_string_axioms;

// ---------------------------------------------------------------------------
// Keys typed into inputs

/// Whether an input of type `input_type` holding `text` takes the character
/// `c`: `int64` inputs take digits, `float64` inputs digits and dots, both a
/// minus sign while empty; other inputs take anything.
pub open spec fn accepts(input_type: Seq<char>, text: Seq<char>, c: char) -> bool {
    let digit = '0' <= c && c <= '9';
    if input_type == "float64"@ {
        digit || c == '.' || (c == '-' && text.len() == 0)
    } else if input_type == "int64"@ {
        digit || (c == '-' && text.len() == 0)
    } else {
        true
    }
}

/// The text of an input after the key `key` is pressed: `Backspace` removes
/// the last character, a key that is one ASCII character adds it when the
/// input takes it, and other keys change nothing.
pub open spec fn edited(text: Seq<char>, input_type: Seq<char>, key: Seq<char>) -> Seq<char> {
    if key == "Backspace"@ {
        if text.len() > 0 {
            text.drop_last()
        } else {
            text
        }
    } else if key.len() == 1 && (key[0] as u32) < 0x80 {
        if accepts(input_type, text, key[0]) {
            text.push(key[0])
        } else {
            text
        }
    } else {
        text
    }
}

/// The text of an input after a key press.
pub fn edit_input_text(text: &str, input_type: &str, key: &str) -> (r: String)
    ensures
        r@ == edited(text@, input_type@, key@),
{
    let v = chars_of(text);
    let k = chars_of(key);
    if str_eq(key, "Backspace") {
        if v.len() > 0 {
            return string_of(&v, 0, v.len() - 1);
        }
        return text.to_string();
    }
    if k.len() == 1 && (k[0] as u32) < 0x80 {
        let c = k[0];
        let digit = '0' <= c && c <= '9';
        let allowed = if str_eq(input_type, "float64") {
            digit || c == '.' || (c == '-' && v.len() == 0)
        } else if str_eq(input_type, "int64") {
            digit || (c == '-' && v.len() == 0)
        } else {
            true
        };
        if allowed {
            let mut out = string_of(&v, 0, v.len());
            crate::text::push_char(&mut out, c);
            proof {
                assert(v@.subrange(0, v@.len() as int) =~= v@);
            }
            return out;
        }
    }
    text.to_string()
}

/// In a number input (`int64` or `float64`) every ASCII digit key types
/// its digit at the end of the text.
pub proof fn law_digit_keys_type_digits(text: Seq<char>, input_type: Seq<char>, c: char)
    requires
        input_type == "int64"@ || input_type == "float64"@,
        '0' <= c <= '9',
    ensures
        edited(text, input_type, seq![c]) == text.push(c),
{
    reveal_strlit("Backspace");
    assert(seq![c] != "Backspace"@) by {
        assert("Backspace"@.len() == 9);
    }
    assert((c as u32) < 0x80);
}

/// A number input refuses letters: an `int64` or `float64` input keeps its
/// text when a letter key is pressed.
pub proof fn law_number_inputs_refuse_letters(text: Seq<char>, input_type: Seq<char>, c: char)
    requires
        input_type == "int64"@ || input_type == "float64"@,
        ('a' <= c <= 'z') || ('A' <= c <= 'Z'),
    ensures
        edited(text, input_type, seq![c]) == text,
{
    reveal_strlit("Backspace");
    assert(seq![c] != "Backspace"@) by {
        assert("Backspace"@.len() == 9);
    }
}

/// `Backspace` takes back the character just typed.
pub proof fn law_backspace_undoes_a_key(text: Seq<char>, input_type: Seq<char>, c: char)
    requires
        edited(text, input_type, seq![c]) == text.push(c),
    ensures
        edited(text.push(c), input_type, "Backspace"@) == text,
{
    assert(text.push(c).drop_last() =~= text);
}

/// What a key press on the focused input gives: the new text when it
/// differs from the old one (the input's handler is then called with it),
/// else nothing.  A missing text is empty and a missing type is `text`.
pub fn handle_keydown(text: Option<String>, input_type: Option<String>, key: &str) -> (r: Option<String>)
    ensures
        ({
            let t = match text {
                Some(s) => s@,
                None => Seq::<char>::empty(),
            };
            let ty = match input_type {
                Some(s) => s@,
                None => "text"@,
            };
            &&& edited(t, ty, key@) != t ==> (r matches Some(n) && n@ == edited(t, ty, key@))
            &&& edited(t, ty, key@) == t ==> r is None
        }),
{
    let current = match text {
        Some(s) => s,
        None => String::new(),
    };
    let ty = match input_type {
        Some(s) => s,
        None => "text".to_string(),
    };
    let next = edit_input_text(current.as_str(), ty.as_str(), key);
    if str_eq(next.as_str(), current.as_str()) {
        None
    } else {
        Some(next)
    }
}

// ---------------------------------------------------------------------------
// Clicks

/// The last input among the first `m` nodes of `chain`, if any.
pub open spec fn last_input(is_input: Seq<bool>, chain: Seq<usize>, m: int) -> Option<usize>
    decreases m,
{
    if m <= 0 {
        None
    } else if is_input[chain[m - 1] as int] {
        Some(chain[m - 1])
    } else {
        last_input(is_input, chain, m - 1)
    }
}

/// Where a click on node `start` goes: up from `start`, the first node with
/// a click handler (`r.0`); inputs passed on the way without one take the
/// focus, the last of them keeping it (`r.1`).
pub fn click_target(tree: &NodeTree, clickable: &Vec<bool>, is_input: &Vec<bool>, start: usize) -> (r: (
    Option<usize>,
    Option<usize>,
))
    requires
        tree.wf(),
        tree.acyclic(),
        clickable@.len() == tree.len(),
        is_input@.len() == tree.len(),
        start < tree.len(),
    ensures
        exists|chain: Seq<usize>| {
            &&& is_path(tree, start as int, chain)
            &&& forall|k: int| 0 <= k < chain.len() - 1 ==> !clickable@[#[trigger] chain[k] as int]
            &&& if clickable@[chain.last() as int] {
                &&& r.0 == Some(chain.last())
                &&& r.1 == last_input(is_input@, chain, chain.len() - 1)
            } else {
                &&& tree.parent_of(chain.last() as int) is None
                &&& r.0 is None
                &&& r.1 == last_input(is_input@, chain, chain.len() as int)
            }
        },
{
    let ghost rank = choose|rank: spec_fn(int) -> nat| tree.ranked(rank);
    let ghost bound = crate::tree::lemma_rank_bound(rank, tree.len());
    let mut current = start;
    let mut focus: Option<usize> = None;
    let ghost mut chain: Seq<usize> = seq![start];
    loop
        invariant
            tree.wf(),
            tree.ranked(rank),
            forall|c: int| 0 <= c < tree.len() ==> #[trigger] rank(c) <= bound,
            clickable@.len() == tree.len(),
            is_input@.len() == tree.len(),
            current < tree.len(),
            is_path(tree, start as int, chain),
            chain.last() == current,
            forall|k: int| 0 <= k < chain.len() - 1 ==> !clickable@[#[trigger] chain[k] as int],
            forall|k: int| 0 <= k < chain.len() ==> (#[trigger] chain[k] as int) < tree.len(),
            focus == last_input(is_input@, chain, chain.len() - 1),
        decreases bound - rank(current as int),
    {
        if clickable[current] {
            return (Some(current), focus);
        }
        if is_input[current] {
            focus = Some(current);
        }
        proof {
            assert(last_input(is_input@, chain, chain.len() as int) == focus);
        }
        let l = tree.links(current);
        match l.parent {
            Some(p) => {
                proof {
                    tree.lemma_parent_in_range(current as int);
                    assert(tree.parent_of(current as int) is Some);
                    assert(rank(current as int) < rank(p as int));
                    let old_chain = chain;
                    chain = chain.push(p);
                    assert forall|k: int| 0 <= k < chain.len() - 1 implies tree.parent_of(#[trigger] chain[k] as int) == Some(
                        chain[k + 1],
                    ) by {
                        if k < old_chain.len() - 1 {
                            assert(chain[k] == old_chain[k] && chain[k + 1] == old_chain[k + 1]);
                        }
                    }
                    assert forall|k: int| 0 <= k < chain.len() - 1 implies !clickable@[#[trigger] chain[k] as int] by {
                        if k < old_chain.len() - 1 {
                            assert(chain[k] == old_chain[k]);
                        }
                    }
                    assert forall|k: int| 0 <= k < chain.len() implies (#[trigger] chain[k] as int) < tree.len() by {
                        if k < old_chain.len() {
                            assert(chain[k] == old_chain[k]);
                        }
                    }
                    lemma_last_input_prefix(is_input@, old_chain, chain, old_chain.len() as int);
                }
                current = p;
            },
            None => {
                return (None, focus);
            },
        }
    }
}

proof fn lemma_last_input_prefix(is_input: Seq<bool>, a: Seq<usize>, b: Seq<usize>, m: int)
    requires
        0 <= m <= a.len(),
        m <= b.len(),
        forall|k: int| 0 <= k < m ==> a[k] == b[k],
    ensures
        last_input(is_input, a, m) == last_input(is_input, b, m),
    decreases m,
{
    if m > 0 {
        lemma_last_input_prefix(is_input, a, b, m - 1);
    }
}

// ---------------------------------------------------------------------------
// Hover

/// `chain` runs from a root down to `target`.
pub open spec fn is_root_path(tree: &NodeTree, target: int, chain: Seq<usize>) -> bool {
    &&& chain.len() > 0
    &&& chain.last() == target
    &&& tree.parent_of(chain[0] as int) is None
    &&& forall|k: int| 0 <= k < chain.len() - 1 ==> tree.parent_of(#[trigger] chain[k + 1] as int) == Some(chain[k])
}

/// The length of the common prefix of `a` and `b` from `i` on.
pub open spec fn prefix_len(a: Seq<usize>, b: Seq<usize>, i: int) -> int
    decreases a.len() - i,
{
    if 0 <= i < a.len() && i < b.len() && a[i] == b[i] {
        prefix_len(a, b, i + 1)
    } else {
        i
    }
}

/// `h` with the nodes of `chain` from `c` on set to `on`.
pub open spec fn set_from(h: Seq<bool>, chain: Seq<usize>, c: int, on: bool) -> Seq<bool> {
    Seq::new(h.len(), |j: int| if chain.subrange(c, chain.len() as int).contains(j as usize) { on } else { h[j] })
}

proof fn lemma_prefix_len(a: Seq<usize>, b: Seq<usize>, i: int)
    requires
        0 <= i <= a.len(),
        i <= b.len(),
    ensures
        i <= prefix_len(a, b, i) <= a.len(),
        prefix_len(a, b, i) <= b.len(),
    decreases a.len() - i,
{
    if i < a.len() && i < b.len() && a[i] == b[i] {
        lemma_prefix_len(a, b, i + 1);
    }
}

/// The path from a root down to `target`, an id out of range giving none.
fn root_path(tree: &NodeTree, target: usize) -> (r: Vec<usize>)
    requires
        tree.wf(),
        tree.acyclic(),
    ensures
        (target as int) < tree.len() ==> is_root_path(tree, target as int, r@),
        (target as int) >= tree.len() ==> r@.len() == 0,
{
    let mut up: Vec<usize> = Vec::new();
    if target >= tree.node_count() {
        return up;
    }
    let ghost rank = choose|rank: spec_fn(int) -> nat| tree.ranked(rank);
    let ghost bound = crate::tree::lemma_rank_bound(rank, tree.len());
    let mut current = target;
    up.push(target);
    loop
        invariant
            tree.wf(),
            tree.ranked(rank),
            forall|c: int| 0 <= c < tree.len() ==> #[trigger] rank(c) <= bound,
            current < tree.len(),
            is_path(tree, target as int, up@),
            up@.last() == current,
        ensures
            is_path(tree, target as int, up@),
            up@.last() == current,
            tree.parent_of(current as int) is None,
        decreases bound - rank(current as int),
    {
        let l = tree.links(current);
        match l.parent {
            Some(p) => {
                proof {
                    tree.lemma_parent_in_range(current as int);
                    assert(tree.parent_of(current as int) is Some);
                    assert(rank(current as int) < rank(p as int));
                }
                let ghost old_up = up@;
                up.push(p);
                proof {
                    assert forall|k: int| 0 <= k < up@.len() - 1 implies tree.parent_of(#[trigger] up@[k] as int) == Some(
                        up@[k + 1],
                    ) by {
                        if k < old_up.len() - 1 {
                            assert(up@[k] == old_up[k] && up@[k + 1] == old_up[k + 1]);
                        }
                    }
                }
                current = p;
            },
            None => {
                break;
            },
        }
    }
    // Turn the path from the target up into the path from the root down.
    let n = up.len();
    let mut down: Vec<usize> = Vec::new();
    let mut i = n;
    while i > 0
        invariant
            n == up@.len(),
            n > 0,
            i <= n,
            down@.len() == n - i,
            forall|k: int| 0 <= k < down@.len() ==> #[trigger] down@[k] == up@[n - 1 - k],
        decreases i,
    {
        down.push(up[i - 1]);
        i = i - 1;
    }
    proof {
        assert(down@.last() == up@[0]);
        assert(down@[0] == up@[n - 1]);
        assert forall|k: int| 0 <= k < down@.len() - 1 implies tree.parent_of(#[trigger] down@[k + 1] as int) == Some(down@[k]) by {
            assert(down@[k + 1] == up@[n - 2 - k]);
            assert(down@[k] == up@[n - 1 - k]);
            assert(up@[(n - 2 - k) + 1] == up@[n - 1 - k]);
        }
    }
    down
}

/// Moves the hover from the nodes of `last_chain` (the hovered path of the
/// last target) to the path of `target`: nothing happens when the target
/// has not changed; otherwise, past their common prefix, the nodes of the
/// old path lose the hover and those of the new path gain it.  Returns the
/// new path and whether any node's hover changed.
pub fn update_hover(
    tree: &NodeTree,
    hovered: &mut Vec<bool>,
    last_target: Option<usize>,
    last_chain: &Vec<usize>,
    target: Option<usize>,
) -> (r: Option<(Vec<usize>, bool)>)
    requires
        tree.wf(),
        tree.acyclic(),
        old(hovered)@.len() == tree.len(),
    ensures
        target == last_target ==> r is None && final(hovered)@ == old(hovered)@,
        target != last_target ==> (r matches Some((chain, changed)) && {
            let c = prefix_len(last_chain@, chain@, 0);
            let mid = set_from(old(hovered)@, last_chain@, c, false);
            &&& (target matches Some(t) ==> ((t as int) < tree.len() ==> is_root_path(tree, t as int, chain@)))
            &&& (target matches Some(t) && (t as int) < tree.len()) || chain@.len() == 0
            &&& final(hovered)@ == set_from(mid, chain@, c, true)
            &&& changed == (mid != old(hovered)@ || final(hovered)@ != mid)
        }),
{
    let same = match (target, last_target) {
        (Some(a), Some(b)) => a == b,
        (None, None) => true,
        _ => false,
    };
    if same {
        return None;
    }
    let chain = match target {
        Some(t) => root_path(tree, t),
        None => Vec::new(),
    };
    let n = hovered.len();
    let mut common: usize = 0;
    proof {
        lemma_prefix_len(last_chain@, chain@, 0);
    }
    while common < last_chain.len() && common < chain.len() && last_chain[common] == chain[common]
        invariant
            common <= last_chain@.len(),
            common <= chain@.len(),
            prefix_len(last_chain@, chain@, common as int) == prefix_len(last_chain@, chain@, 0),
        decreases last_chain.len() - common,
    {
        common = common + 1;
    }
    let ghost h0 = hovered@;
    let ghost c = common as int;
    let ghost mid = set_from(h0, last_chain@, c, false);
    // Take the hover from the old path, deepest node first.
    let mut changed = false;
    let mut i = last_chain.len();
    proof {
        assert(set_from(h0, last_chain@, i as int, false) =~= h0);
    }
    while i > common
        invariant
            hovered@.len() == n,
            h0.len() == n,
            c == common,
            common <= i <= last_chain@.len(),
            hovered@ == set_from(h0, last_chain@, i as int, false),
            changed == (hovered@ != h0),
        decreases i,
    {
        let idx = last_chain[i - 1];
        let ghost before = hovered@;
        if idx < n && hovered[idx] {
            hovered.set(idx, false);
            changed = true;
            proof {
                assert(h0[idx as int]) by {
                    if last_chain@.subrange(i as int, last_chain@.len() as int).contains(idx) {
                        assert(before[idx as int] == false);
                    }
                }
                assert(hovered@[idx as int] != h0[idx as int]);
            }
        }
        proof {
            let s1 = last_chain@.subrange(i - 1, last_chain@.len() as int);
            let s0 = last_chain@.subrange(i as int, last_chain@.len() as int);
            assert forall|j: int| 0 <= j < n implies #[trigger] hovered@[j] == (if s1.contains(j as usize) { false } else { h0[j] }) by {
                if s1.contains(j as usize) {
                    let k = s1.index_of(j as usize);
                    if k > 0 {
                        assert(s0[k - 1] == j as usize);
                        assert(s0.contains(j as usize));
                    } else {
                        assert(j as usize == idx);
                    }
                } else {
                    assert(s1[0] == idx);
                    if s0.contains(j as usize) {
                        let k = s0.index_of(j as usize);
                        assert(s1[k + 1] == j as usize);
                    }
                }
            }
            assert(hovered@ =~= set_from(h0, last_chain@, i - 1, false));
        }
        i = i - 1;
    }
    let ghost h1 = hovered@;
    proof {
        assert(h1 == mid);
        assert(set_from(h1, chain@, chain@.len() as int, true) =~= h1);
    }
    // Give the hover to the new path, from the top down.
    let mut changed_new = false;
    let mut k = chain.len();
    while k > common
        invariant
            hovered@.len() == n,
            h1.len() == n,
            common <= k <= chain@.len(),
            hovered@ == set_from(h1, chain@, k as int, true),
            changed_new == (hovered@ != h1),
        decreases k,
    {
        let idx = chain[k - 1];
        let ghost before = hovered@;
        if idx < n && !hovered[idx] {
            hovered.set(idx, true);
            changed_new = true;
            proof {
                assert(!h1[idx as int]) by {
                    if chain@.subrange(k as int, chain@.len() as int).contains(idx) {
                        assert(before[idx as int] == true);
                    }
                }
                assert(hovered@[idx as int] != h1[idx as int]);
            }
        }
        proof {
            let s1 = chain@.subrange(k - 1, chain@.len() as int);
            let s0 = chain@.subrange(k as int, chain@.len() as int);
            assert forall|j: int| 0 <= j < n implies #[trigger] hovered@[j] == (if s1.contains(j as usize) { true } else { h1[j] }) by {
                if s1.contains(j as usize) {
                    let m = s1.index_of(j as usize);
                    if m > 0 {
                        assert(s0[m - 1] == j as usize);
                        assert(s0.contains(j as usize));
                    } else {
                        assert(j as usize == idx);
                    }
                } else {
                    assert(s1[0] == idx);
                    if s0.contains(j as usize) {
                        let m = s0.index_of(j as usize);
                        assert(s1[m + 1] == j as usize);
                    }
                }
            }
            assert(hovered@ =~= set_from(h1, chain@, k - 1, true));
        }
        k = k - 1;
    }
    Some((chain, changed || changed_new))
}

} // verus!
