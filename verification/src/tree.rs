use vstd::prelude::*;

verus! {

/// How a node is wired into the tree: its parent, the ends of its list of
/// children, and the next node in its parent's list.
#[derive(Clone, Copy)]
pub struct Links {
    pub parent: Option<usize>,
    pub first_child: Option<usize>,
    pub next_sibling: Option<usize>,
    pub last_child: Option<usize>,
}

/// A node with no parent, no children and no sibling.
pub open spec fn detached() -> Links {
    Links { parent: None, first_child: None, next_sibling: None, last_child: None }
}

/// No element occurs twice.
pub open spec fn no_dup<T>(s: Seq<T>) -> bool {
    forall|a: int, b: int| 0 <= a < b < s.len() ==> #[trigger] s[a] != #[trigger] s[b]
}

/// The links of `nodes` spell out `s` as the children of `p`: each child
/// points back to `p`, the parent points at the two ends, and each child
/// points at the next one.
pub open spec fn list_ok(nodes: Seq<Links>, p: int, s: Seq<usize>) -> bool {
    &&& no_dup(s)
    &&& forall|k: int| 0 <= k < s.len() ==> (#[trigger] s[k] as int) < nodes.len() && nodes[s[k] as int].parent == Some(p as usize)
    &&& nodes[p].first_child == (if s.len() > 0 { Some(s[0]) } else { None::<usize> })
    &&& nodes[p].last_child == (if s.len() > 0 { Some(s.last()) } else { None::<usize> })
    &&& forall|k: int| 0 <= k < s.len() - 1 ==> nodes[#[trigger] s[k] as int].next_sibling == Some(s[k + 1])
    &&& s.len() > 0 ==> nodes[s.last() as int].next_sibling is None
}

/// `nodes` is `old` with `s[at]` unlinked from the children `s` of `p`.
pub open spec fn unlinked(nodes: Seq<Links>, old: Seq<Links>, p: int, node: int, at: int, s: Seq<usize>) -> bool {
    let next = if at + 1 < s.len() { Some(s[at + 1]) } else { None::<usize> };
    let prev = if at == 0 { None::<usize> } else { Some(s[at - 1]) };
    forall|i: int| #![trigger nodes[i]] 0 <= i < nodes.len() ==> nodes[i] == Links {
        parent: if i == node { None } else { old[i].parent },
        next_sibling: if i == node {
            None
        } else if at > 0 && i == s[at - 1] {
            next
        } else {
            old[i].next_sibling
        },
        first_child: if i == p && at == 0 { next } else { old[i].first_child },
        last_child: if i == p && next is None { prev } else { old[i].last_child },
    }
}

#[verifier::spinoff_prover]
#[verifier::rlimit(40)]
proof fn lemma_unlinked_list(nodes: Seq<Links>, old: Seq<Links>, p: int, node: int, at: int, s: Seq<usize>)
    requires
        nodes.len() == old.len(),
        0 <= p < old.len(),
        0 <= at < s.len(),
        s[at] == node,
        list_ok(old, p, s),
        unlinked(nodes, old, p, node, at, s),
    ensures
        list_ok(nodes, p, s.remove(at)),
{
    let s2 = s.remove(at);
    assert forall|a: int, b: int| 0 <= a < b < s2.len() implies #[trigger] s2[a] != #[trigger] s2[b] by {
        let a0 = if a < at { a } else { a + 1 };
        let b0 = if b < at { b } else { b + 1 };
        assert(s2[a] == s[a0] && s2[b] == s[b0]);
    }
    assert forall|k: int| 0 <= k < s2.len() implies (#[trigger] s2[k] as int) < nodes.len()
        && nodes[s2[k] as int].parent == Some(p as usize) by {
        let k0 = if k < at { k } else { k + 1 };
        assert(s2[k] == s[k0]);
        assert(s[k0] != s[at]);
        assert(nodes[s2[k] as int].parent == old[s[k0] as int].parent);
    }
    assert forall|k: int| 0 <= k < s2.len() - 1 implies nodes[#[trigger] s2[k] as int].next_sibling == Some(s2[k + 1]) by {
        let k0 = if k < at { k } else { k + 1 };
        assert(s2[k] == s[k0]);
        assert(s[k0] != s[at]);
        if k + 1 == at {
            assert(s2[k + 1] == s[at + 1]);
        } else {
            let k1 = if k + 1 < at { k + 1 } else { k + 2 };
            assert(s2[k + 1] == s[k1]);
            if at > 0 && s[k0] == s[at - 1] {
                assert(k0 == at - 1);
            }
        }
    }
    if s2.len() > 0 {
        let l = s2.len() - 1;
        let l0 = if l < at { l } else { l + 1 };
        assert(s2[l] == s[l0]);
        assert(s[l0] != s[at]);
        if at > 0 && s[l0] == s[at - 1] {
            assert(l0 == at - 1);
        }
        if at == 0 {
            assert(s2[0] == s[1]);
        } else {
            assert(s2[0] == s[0]);
        }
    }
}

#[verifier::spinoff_prover]
#[verifier::rlimit(40)]
proof fn lemma_unlinked_other(
    nodes: Seq<Links>,
    old: Seq<Links>,
    p: int,
    node: int,
    at: int,
    s: Seq<usize>,
    q: int,
    t: Seq<usize>,
)
    requires
        nodes.len() == old.len(),
        0 <= p < old.len(),
        0 <= q < old.len(),
        q != p,
        0 <= at < s.len(),
        s[at] == node,
        list_ok(old, p, s),
        list_ok(old, q, t),
        !t.contains(node as usize),
        unlinked(nodes, old, p, node, at, s),
    ensures
        list_ok(nodes, q, t),
{
    assert forall|k: int| 0 <= k < t.len() implies (#[trigger] t[k] as int) < nodes.len()
        && nodes[t[k] as int].parent == Some(q as usize) by {
        assert(t[k] != node) by {
            if t[k] == node {
                assert(t.contains(node as usize));
            }
        }
    }
    assert forall|k: int| 0 <= k < t.len() - 1 implies nodes[#[trigger] t[k] as int].next_sibling == Some(t[k + 1]) by {
        assert(t[k] != node) by {
            if t[k] == node {
                assert(t.contains(node as usize));
            }
        }
        if at > 0 && t[k] == s[at - 1] {
            assert(old[s[at - 1] as int].parent == Some(p as usize));
        }
    }
    if t.len() > 0 {
        let l = t.len() - 1;
        assert(t[l] != node) by {
            if t[l] == node {
                assert(t.contains(node as usize));
            }
        }
        if at > 0 && t[l] == s[at - 1] {
            assert(old[s[at - 1] as int].parent == Some(p as usize));
        }
    }
}

/// `nodes` is `old` with the detached `c` linked in at position `j` of the
/// children `s` of `p`.
pub open spec fn inserted(nodes: Seq<Links>, old: Seq<Links>, p: usize, c: usize, j: int, s: Seq<usize>) -> bool {
    let next = if j < s.len() { Some(s[j]) } else { None::<usize> };
    forall|i: int| #![trigger nodes[i]] 0 <= i < nodes.len() ==> nodes[i] == Links {
        parent: if i == c { Some(p) } else { old[i].parent },
        next_sibling: if i == c {
            next
        } else if j > 0 && i == s[j - 1] {
            Some(c)
        } else {
            old[i].next_sibling
        },
        first_child: if i == p && j == 0 { Some(c) } else { old[i].first_child },
        last_child: if i == p && j == s.len() { Some(c) } else { old[i].last_child },
    }
}

#[verifier::spinoff_prover]
#[verifier::rlimit(40)]
proof fn lemma_inserted_list(nodes: Seq<Links>, old: Seq<Links>, p: usize, c: usize, j: int, s: Seq<usize>)
    requires
        nodes.len() == old.len(),
        0 <= p < old.len(),
        0 <= c < old.len(),
        0 <= j <= s.len(),
        !s.contains(c as usize),
        list_ok(old, p as int, s),
        inserted(nodes, old, p, c, j, s),
    ensures
        list_ok(nodes, p as int, s.insert(j, c)),
{
    let s2 = s.insert(j, c as usize);
    assert forall|a: int, b: int| 0 <= a < b < s2.len() implies #[trigger] s2[a] != #[trigger] s2[b] by {
        if a == j {
            let b0 = b - 1;
            assert(s2[b] == s[b0]);
        } else if b == j {
            assert(s2[a] == s[a]);
        } else {
            let a0 = if a < j { a } else { a - 1 };
            let b0 = if b < j { b } else { b - 1 };
            assert(s2[a] == s[a0] && s2[b] == s[b0]);
        }
    }
    assert forall|k: int| 0 <= k < s2.len() implies (#[trigger] s2[k] as int) < nodes.len()
        && nodes[s2[k] as int].parent == Some(p as usize) by {
        if k != j {
            let k0 = if k < j { k } else { k - 1 };
            assert(s2[k] == s[k0]);
            assert(s[k0] != c as usize);
        }
    }
    assert forall|k: int| 0 <= k < s2.len() - 1 implies nodes[#[trigger] s2[k] as int].next_sibling == Some(s2[k + 1]) by {
        if k == j {
            if j < s.len() {
                assert(s2[k + 1] == s[j]);
            }
        } else {
            let k0 = if k < j { k } else { k - 1 };
            assert(s2[k] == s[k0]);
            assert(s[k0] != c as usize);
            if k + 1 == j {
                assert(k0 == j - 1);
            } else {
                let k1 = if k + 1 < j { k + 1 } else { k };
                assert(s2[k + 1] == s[k1]);
                if j > 0 && s[k0] == s[j - 1] {
                    assert(k0 == j - 1);
                }
            }
        }
    }
    let l = s2.len() - 1;
    if l == j {
        assert(s2[l] == c as usize);
    } else {
        assert(s2[l] == s[l - 1]);
        assert(s[l - 1] != c as usize);
        if j > 0 && s[l - 1] == s[j - 1] {
            assert(l - 1 == j - 1);
        }
    }
    if j == 0 {
        assert(s2[0] == c as usize);
    } else {
        assert(s2[0] == s[0]);
    }
}

#[verifier::spinoff_prover]
#[verifier::rlimit(40)]
proof fn lemma_inserted_other(
    nodes: Seq<Links>,
    old: Seq<Links>,
    p: usize,
    c: usize,
    j: int,
    s: Seq<usize>,
    q: int,
    t: Seq<usize>,
)
    requires
        nodes.len() == old.len(),
        old.len() <= usize::MAX,
        0 <= p < old.len(),
        0 <= q < old.len(),
        0 <= c < old.len(),
        q != p,
        0 <= j <= s.len(),
        list_ok(old, p as int, s),
        list_ok(old, q, t),
        !t.contains(c as usize),
        inserted(nodes, old, p, c, j, s),
    ensures
        list_ok(nodes, q, t),
{
    assert forall|k: int| 0 <= k < t.len() implies (#[trigger] t[k] as int) < nodes.len()
        && nodes[t[k] as int].parent == Some(q as usize) by {
        assert(t[k] != c) by {
            if t[k] == c {
                assert(t.contains(c as usize));
            }
        }
    }
    assert forall|k: int| 0 <= k < t.len() - 1 implies nodes[#[trigger] t[k] as int].next_sibling == Some(t[k + 1]) by {
        assert(t[k] != c) by {
            if t[k] == c {
                assert(t.contains(c as usize));
            }
        }
        if j > 0 && t[k] == s[j - 1] {
            assert(old[s[j - 1] as int].parent == Some(p as usize));
        }
    }
    if t.len() > 0 {
        let l = t.len() - 1;
        assert(t[l] != c) by {
            if t[l] == c {
                assert(t.contains(c as usize));
            }
        }
        if j > 0 && t[l] == s[j - 1] {
            assert(old[s[j - 1] as int].parent == Some(p as usize));
        }
    }
}

/// The children of `i` once `c` has left its parent's list.
pub open spec fn detach(t: &NodeTree, c: int, i: int) -> Seq<usize> {
    if t.parent_of(c) == Some(i as usize) {
        t.children(i).remove(t.children(i).index_of(c as usize))
    } else {
        t.children(i)
    }
}

/// `freed` lists the subtree of `t` under `root`, each node once, `root`
/// last: nodes that were live, each with its parent among them (but
/// `root`), and with all their children among them.
pub open spec fn is_subtree(t: &NodeTree, root: int, freed: Seq<u32>) -> bool {
    &&& freed.len() > 0
    &&& freed.last() == root as u32
    &&& subtree_part(t, root, freed)
}

/// The shape of a set of nodes that have been freed under `root`.
pub open spec fn subtree_part(t: &NodeTree, root: int, freed: Seq<u32>) -> bool {
    &&& no_dup(freed)
    &&& forall|k: int| 0 <= k < freed.len() ==> t.is_live(#[trigger] freed[k] as int)
    &&& forall|k: int| 0 <= k < freed.len() && freed[k] != root as u32 ==> (t.parent_of(#[trigger] freed[k] as int) matches Some(
        p,
    ) && (p == root || freed.contains(p as u32)))
    &&& forall|k: int, m: int|
        0 <= k < freed.len() && 0 <= m < t.children(freed[k] as int).len() ==> freed.contains(
            #[trigger] t.children(#[trigger] freed[k] as int)[m] as u32,
        )
}

/// Any rank is bounded on the first `n` nodes.
pub proof fn lemma_rank_bound(rank: spec_fn(int) -> nat, n: nat) -> (b: nat)
    ensures
        forall|c: int| 0 <= c < n ==> #[trigger] rank(c) <= b,
    decreases n,
{
    if n == 0 {
        0
    } else {
        let b0 = lemma_rank_bound(rank, (n - 1) as nat);
        if rank(n - 1) > b0 {
            rank(n - 1)
        } else {
            b0
        }
    }
}

/// The nodes of a UI: a forest kept as linked lists of children, with the
/// slots of deleted nodes kept for reuse.
pub struct NodeTree {
    nodes: Vec<Links>,
    free: Vec<u32>,
    kids: Ghost<Seq<Seq<usize>>>,
}

impl NodeTree {
    /// The number of node slots, live or free.
    pub closed spec fn len(&self) -> nat {
        self.nodes@.len()
    }

    /// The parent of node `i`.
    pub closed spec fn parent_of(&self, i: int) -> Option<usize> {
        self.nodes@[i].parent
    }

    /// The children of node `i`, in order.
    pub closed spec fn children(&self, i: int) -> Seq<usize> {
        self.kids@[i]
    }

    /// The free slots, the next one to be reused last.
    pub closed spec fn free_list(&self) -> Seq<u32> {
        self.free@
    }

    /// The links agree with the lists of children; every node with a parent
    /// is in that parent's list; free slots are detached and listed once.
    pub closed spec fn wf(&self) -> bool {
        let n = self.nodes@.len();
        &&& n <= u32::MAX
        &&& self.kids@.len() == n
        &&& forall|p: int| 0 <= p < n ==> list_ok(self.nodes@, p, #[trigger] self.kids@[p])
        &&& forall|c: int| 0 <= c < n ==> match #[trigger] self.nodes@[c].parent {
            Some(p) => (p as int) < n && self.kids@[p as int].contains(c as usize),
            None => self.nodes@[c].next_sibling is None,
        }
        &&& no_dup(self.free@)
        &&& forall|k: int| 0 <= k < self.free@.len() ==> (#[trigger] self.free@[k] as int) < n
            && self.nodes@[self.free@[k] as int].parent is None && self.kids@[self.free@[k] as int].len() == 0
    }

    /// Slot `i` exists and is in use.
    pub open spec fn is_live(&self, i: int) -> bool {
        0 <= i < self.len() && !self.free_list().contains(i as u32)
    }

    /// An empty tree.
    pub fn new() -> (t: NodeTree)
        ensures
            t.wf(),
            t.len() == 0,
            t.free_list().len() == 0,
            t.acyclic(),
    {
        let t = NodeTree { nodes: Vec::new(), free: Vec::new(), kids: Ghost(Seq::empty()) };
        assert(t.ranked(|x: int| 0nat));
        t
    }

    /// The number of node slots, live or free.
    pub fn node_count(&self) -> (n: usize)
        ensures
            n == self.len(),
    {
        self.nodes.len()
    }

    /// The links of node `i`.
    pub fn links(&self, i: usize) -> (l: Links)
        requires
            self.wf(),
            i < self.len(),
        ensures
            l.parent == self.parent_of(i as int),
            l.first_child == (if self.children(i as int).len() > 0 { Some(self.children(i as int)[0]) } else { None }),
            l.last_child == (if self.children(i as int).len() > 0 { Some(self.children(i as int).last()) } else { None }),
            l.next_sibling == (match self.parent_of(i as int) {
                Some(p) => {
                    let s = self.children(p as int);
                    let k = s.index_of(i);
                    if k + 1 < s.len() { Some(s[k + 1]) } else { None }
                },
                None => None,
            }),
    {
        let l = self.nodes[i];
        proof {
            assert(list_ok(self.nodes@, i as int, self.kids@[i as int]));
            match l.parent {
                Some(p) => {
                    let s = self.kids@[p as int];
                    assert(list_ok(self.nodes@, p as int, s));
                    assert(s.contains(i));
                    let k = s.index_of(i);
                    assert(s[k] == i);
                    if k + 1 < s.len() {
                        assert(self.nodes@[s[k] as int].next_sibling == Some(s[k + 1]));
                    }
                },
                None => {},
            }
        }
        l
    }

    proof fn lemma_member(&self, c: int)
        requires
            self.wf(),
            0 <= c < self.len(),
            self.parent_of(c) is Some,
        ensures
            ({
                let p = self.parent_of(c)->0 as int;
                &&& 0 <= p < self.len()
                &&& self.children(p).contains(c as usize)
                &&& forall|q: int| 0 <= q < self.len() && q != p ==> !(#[trigger] self.children(q)).contains(c as usize)
            }),
    {
        let p = self.parent_of(c)->0 as int;
        assert forall|q: int| 0 <= q < self.len() && q != p implies !(#[trigger] self.children(q)).contains(c as usize) by {
            assert(list_ok(self.nodes@, q, self.kids@[q]));
            if self.kids@[q].contains(c as usize) {
                let k = self.kids@[q].index_of(c as usize);
                assert(self.kids@[q][k] == c as usize);
            }
        }
    }

    /// Adds a detached node and returns its id: the last freed slot if there
    /// is one, else a new slot.
    #[verifier::spinoff_prover]
    #[verifier::rlimit(40)]
    pub fn add_node(&mut self) -> (id: u32)
        requires
            old(self).wf(),
            old(self).free_list().len() > 0 || old(self).len() < u32::MAX,
        ensures
            final(self).wf(),
            old(self).free_list().len() > 0 ==> {
                &&& id == old(self).free_list().last()
                &&& final(self).free_list() == old(self).free_list().drop_last()
                &&& final(self).len() == old(self).len()
            },
            old(self).free_list().len() == 0 ==> {
                &&& id == old(self).len()
                &&& final(self).free_list() == old(self).free_list()
                &&& final(self).len() == old(self).len() + 1
            },
            final(self).parent_of(id as int) is None,
            final(self).children(id as int).len() == 0,
            old(self).acyclic() ==> final(self).acyclic(),
            forall|i: int| 0 <= i < old(self).len() && i != id ==> final(self).parent_of(i) == old(self).parent_of(i)
                && final(self).children(i) == old(self).children(i),
    {
        match self.free.pop() {
            Some(id) => {
                proof {
                    let k = old(self).free@.len() - 1;
                    assert(old(self).free@[k] == id);
                    assert(self.free@ =~= old(self).free@.drop_last());
                    assert forall|a: int, b: int| 0 <= a < b < self.free@.len() implies
                        #[trigger] self.free@[a] != #[trigger] self.free@[b] by {
                        assert(old(self).free@[a] != old(self).free@[b]);
                    }
                    assert forall|k2: int| 0 <= k2 < self.free@.len() implies (#[trigger] self.free@[k2] as int) < self.nodes@.len()
                        && self.nodes@[self.free@[k2] as int].parent is None && self.kids@[self.free@[k2] as int].len() == 0 by {
                        assert(self.free@[k2] == old(self).free@[k2]);
                    }
                    assert(list_ok(self.nodes@, id as int, self.kids@[id as int]));
                    if old(self).acyclic() {
                        lemma_unparent_acyclic(&*old(self), &*self, id as int);
                    }
                }
                id
            },
            None => {
                let id = self.nodes.len();
                self.nodes.push(Links { parent: None, first_child: None, next_sibling: None, last_child: None });
                proof {
                    self.kids@ = self.kids@.push(Seq::empty());
                    let n = self.nodes@.len();
                    assert forall|p: int| 0 <= p < n implies list_ok(self.nodes@, p, #[trigger] self.kids@[p]) by {
                        if p < n - 1 {
                            assert(list_ok(old(self).nodes@, p, old(self).kids@[p]));
                            let s = self.kids@[p];
                            assert forall|k: int| 0 <= k < s.len() implies (#[trigger] s[k] as int) < self.nodes@.len()
                                && self.nodes@[s[k] as int].parent == Some(p as usize) by {
                                assert(old(self).nodes@[s[k] as int] == self.nodes@[s[k] as int]);
                            }
                            assert forall|k: int| 0 <= k < s.len() - 1 implies self.nodes@[#[trigger] s[k] as int].next_sibling
                                == Some(s[k + 1]) by {
                                assert(old(self).nodes@[s[k] as int] == self.nodes@[s[k] as int]);
                            }
                            if s.len() > 0 {
                                assert(old(self).nodes@[s.last() as int] == self.nodes@[s.last() as int]);
                            }
                        }
                    }
                    assert forall|c: int| 0 <= c < n implies match #[trigger] self.nodes@[c].parent {
                        Some(p) => (p as int) < n && self.kids@[p as int].contains(c as usize),
                        None => self.nodes@[c].next_sibling is None,
                    } by {
                        if c < n - 1 {
                            assert(self.nodes@[c] == old(self).nodes@[c]);
                            match old(self).nodes@[c].parent {
                                Some(p) => {
                                    assert(self.kids@[p as int] == old(self).kids@[p as int]);
                                },
                                None => {},
                            }
                        }
                    }
                    assert forall|k: int| 0 <= k < self.free@.len() implies (#[trigger] self.free@[k] as int) < n
                        && self.nodes@[self.free@[k] as int].parent is None && self.kids@[self.free@[k] as int].len() == 0 by {
                        assert(self.nodes@[self.free@[k] as int] == old(self).nodes@[self.free@[k] as int]);
                    }
                    if old(self).acyclic() {
                        lemma_unparent_acyclic(&*old(self), &*self, id as int);
                    }
                }
                id as u32
            },
        }
    }

    /// Detaches node `node_id` from its parent, if it has one; nothing else
    /// changes.  An id out of range is ignored.
    #[verifier::spinoff_prover]
    #[verifier::rlimit(40)]
    pub fn remove_from_parent(&mut self, node_id: u32)
        requires
            old(self).wf(),
        ensures
            final(self).wf(),
            final(self).len() == old(self).len(),
            final(self).free_list() == old(self).free_list(),
            (node_id as int) < old(self).len() ==> final(self).parent_of(node_id as int) is None,
            old(self).acyclic() ==> final(self).acyclic(),
            forall|i: int| 0 <= i < old(self).len() && i != node_id ==> final(self).parent_of(i) == old(self).parent_of(i),
            forall|i: int| 0 <= i < old(self).len() ==> final(self).children(i) == (
                if (node_id as int) < old(self).len() && old(self).parent_of(node_id as int) == Some(i as usize) {
                    old(self).children(i).remove(old(self).children(i).index_of(node_id as usize))
                } else {
                    old(self).children(i)
                }),
    {
        let node = node_id as usize;
        if node >= self.nodes.len() {
            return;
        }
        let p = match self.nodes[node].parent {
            Some(p) => p,
            None => {
                return;
            },
        };
        let ghost s = self.kids@[p as int];
        let ghost n = self.nodes@.len();
        proof {
            self.lemma_member(node as int);
            assert(list_ok(self.nodes@, p as int, s));
        }
        let ghost at = s.index_of(node);
        // Find the previous sibling.
        let mut prev: Option<usize> = None;
        let mut curr: Option<usize> = self.nodes[p].first_child;
        let ghost mut k: int = 0;
        proof {
            assert(s[at] == node);
        }
        loop
            invariant
                n == self.nodes@.len(),
                list_ok(self.nodes@, p as int, s),
                0 <= k <= at < s.len(),
                s[at] == node,
                curr == Some(s[k]),
                prev == (if k == 0 { None } else { Some(s[k - 1]) }),
            ensures
                k == at,
                prev == (if k == 0 { None } else { Some(s[k - 1]) }),
            decreases at - k,
        {
            match curr {
                Some(ci) => {
                    if ci == node {
                        proof {
                            if k != at {
                                assert(s[k] == s[at]);
                            }
                        }
                        break;
                    }
                    proof {
                        if k == at {
                            assert(false);
                        }
                        assert(self.nodes@[s[k] as int].next_sibling == Some(s[k + 1]));
                    }
                    prev = curr;
                    curr = self.nodes[ci].next_sibling;
                    proof {
                        k = k + 1;
                    }
                },
                None => {
                    proof {
                        assert(false);
                    }
                    break;
                },
            }
        }
        let next = self.nodes[node].next_sibling;
        proof {
            if at + 1 < s.len() {
                assert(self.nodes@[s[at] as int].next_sibling == Some(s[at + 1]));
            }
        }
        let ghost nodes0 = self.nodes@;
        match prev {
            Some(pv) => {
                let mut l = self.nodes[pv];
                l.next_sibling = next;
                self.nodes.set(pv, l);
            },
            None => {
                let mut l = self.nodes[p];
                l.first_child = next;
                self.nodes.set(p, l);
            },
        }
        if next.is_none() {
            let mut l = self.nodes[p];
            l.last_child = prev;
            self.nodes.set(p, l);
        }
        let mut l = self.nodes[node];
        l.parent = None;
        l.next_sibling = None;
        self.nodes.set(node, l);
        proof {
            let s2 = s.remove(at);
            self.kids@ = self.kids@.update(p as int, s2);
            self.lemma_after_remove(old(self), p as int, node as int, at);
            if old(self).acyclic() {
                lemma_unparent_acyclic(&*old(self), &*self, node as int);
            }
        }
    }

    /// The lists are sound again once `node` (at `at` in the children of
    /// `p`) has been unlinked.
    #[verifier::spinoff_prover]
    #[verifier::rlimit(40)]
    proof fn lemma_after_remove(&self, old: &NodeTree, p: int, node: int, at: int)
        requires
            old.wf(),
            0 <= p < old.len(),
            0 <= node < old.len(),
            old.parent_of(node) == Some(p as usize),
            0 <= at < old.kids@[p].len(),
            old.kids@[p][at] == node,
            self.free@ == old.free@,
            self.kids@ == old.kids@.update(p, old.kids@[p].remove(at)),
            self.nodes@.len() == old.nodes@.len(),
            unlinked(self.nodes@, old.nodes@, p, node, at, old.kids@[p]),
        ensures
            self.wf(),
    {
        let n = self.nodes@.len();
        old.lemma_member(node);
        assert(list_ok(old.nodes@, p, old.kids@[p]));
        assert forall|q: int| 0 <= q < n implies list_ok(self.nodes@, q, #[trigger] self.kids@[q]) by {
            if q == p {
                lemma_unlinked_list(self.nodes@, old.nodes@, p, node, at, old.kids@[p]);
            } else {
                assert(list_ok(old.nodes@, q, old.kids@[q]));
                assert(!old.kids@[q].contains(node as usize));
                lemma_unlinked_other(self.nodes@, old.nodes@, p, node, at, old.kids@[p], q, old.kids@[q]);
            }
        }
        let s = old.kids@[p];
        let s2 = s.remove(at);
        assert forall|c: int| 0 <= c < n implies match #[trigger] self.nodes@[c].parent {
            Some(pp) => (pp as int) < n && self.kids@[pp as int].contains(c as usize),
            None => self.nodes@[c].next_sibling is None,
        } by {
            if c != node {
                match old.nodes@[c].parent {
                    Some(pp) => {
                        let t = old.kids@[pp as int];
                        assert(t.contains(c as usize));
                        let j = t.index_of(c as usize);
                        if pp as int == p {
                            assert(j != at);
                            let j2 = if j < at { j } else { j - 1 };
                            assert(s2[j2] == c as usize);
                        }
                    },
                    None => {
                        if at > 0 && c == s[at - 1] {
                            assert(old.nodes@[s[at - 1] as int].parent == Some(p as usize));
                        }
                    },
                }
            }
        }
        assert forall|k: int| 0 <= k < self.free@.len() implies (#[trigger] self.free@[k] as int) < n
            && self.nodes@[self.free@[k] as int].parent is None && self.kids@[self.free@[k] as int].len() == 0 by {
            let f = self.free@[k] as int;
            assert(old.nodes@[f].parent is None);
            if f == p {
                assert(old.kids@[p].len() > 0);
            }
        }
    }

    /// The lists are sound once the detached, live `c` has been linked in
    /// at position `j` of the children of `p`.
    #[verifier::spinoff_prover]
    #[verifier::rlimit(40)]
    proof fn lemma_after_insert(&self, old: &NodeTree, p: usize, c: usize, j: int)
        requires
            old.wf(),
            0 <= p < old.len(),
            0 <= c < old.len(),
            old.parent_of(c as int) is None,
            !old.free@.contains(c as u32),
            !old.free@.contains(p as u32),
            0 <= j <= old.kids@[p as int].len(),
            self.free@ == old.free@,
            self.kids@ == old.kids@.update(p as int, old.kids@[p as int].insert(j, c as usize)),
            self.nodes@.len() == old.nodes@.len(),
            inserted(self.nodes@, old.nodes@, p, c, j, old.kids@[p as int]),
        ensures
            self.wf(),
    {
        let n = self.nodes@.len();
        let s = old.kids@[p as int];
        assert(list_ok(old.nodes@, p as int, s));
        assert forall|q: int| 0 <= q < n implies !(#[trigger] old.kids@[q]).contains(c as usize) by {
            assert(list_ok(old.nodes@, q, old.kids@[q]));
            if old.kids@[q].contains(c as usize) {
                let k = old.kids@[q].index_of(c as usize);
                assert(old.kids@[q][k] == c as usize);
            }
        }
        assert forall|q: int| 0 <= q < n implies list_ok(self.nodes@, q, #[trigger] self.kids@[q]) by {
            assert(!old.kids@[q].contains(c as usize));
            if q == p as int {
                lemma_inserted_list(self.nodes@, old.nodes@, p, c, j, s);
            } else {
                assert(list_ok(old.nodes@, q, old.kids@[q]));
                lemma_inserted_other(self.nodes@, old.nodes@, p, c, j, s, q, old.kids@[q]);
            }
        }
        let s2 = s.insert(j, c as usize);
        assert(s2[j] == c as usize);
        assert forall|x: int| 0 <= x < n implies match #[trigger] self.nodes@[x].parent {
            Some(pp) => (pp as int) < n && self.kids@[pp as int].contains(x as usize),
            None => self.nodes@[x].next_sibling is None,
        } by {
            if x != c as int {
                match old.nodes@[x].parent {
                    Some(pp) => {
                        let t = old.kids@[pp as int];
                        assert(t.contains(x as usize));
                        let i = t.index_of(x as usize);
                        if pp == p {
                            let i2 = if i < j { i } else { i + 1 };
                            assert(s2[i2] == x as usize);
                        }
                    },
                    None => {
                        if j > 0 && x == s[j - 1] {
                            assert(old.nodes@[s[j - 1] as int].parent == Some(p));
                        }
                    },
                }
            }
        }
        assert forall|k: int| 0 <= k < self.free@.len() implies (#[trigger] self.free@[k] as int) < n
            && self.nodes@[self.free@[k] as int].parent is None && self.kids@[self.free@[k] as int].len() == 0 by {
            let f = self.free@[k] as int;
            assert(old.free@.contains(self.free@[k]));
            assert(f != c as int);
            assert(f != p as int);
        }
    }

    /// Links the detached, live `c` into the children of `p`, after `prev`
    /// or, without one, first.
    #[verifier::spinoff_prover]
    #[verifier::rlimit(40)]
    fn link_after(&mut self, c: usize, p: usize, prev: Option<usize>)
        requires
            old(self).wf(),
            c < old(self).len(),
            p < old(self).len(),
            old(self).parent_of(c as int) is None,
            !old(self).free_list().contains(c as u32),
            !old(self).free_list().contains(p as u32),
            prev matches Some(a) ==> old(self).children(p as int).contains(a),
        ensures
            final(self).wf(),
            final(self).len() == old(self).len(),
            final(self).free_list() == old(self).free_list(),
            final(self).parent_of(c as int) == Some(p),
            forall|i: int| 0 <= i < old(self).len() && i != c ==> final(self).parent_of(i) == old(self).parent_of(i),
            forall|i: int| 0 <= i < old(self).len() ==> final(self).children(i) == (if i == p {
                old(self).children(i).insert(
                    match prev {
                        Some(a) => old(self).children(i).index_of(a) + 1,
                        None => 0,
                    },
                    c,
                )
            } else {
                old(self).children(i)
            }),
    {
        let ghost s = self.kids@[p as int];
        proof {
            assert(list_ok(self.nodes@, p as int, s));
        }
        let ghost j: int = match prev {
            Some(a) => s.index_of(a) + 1,
            None => 0,
        };
        let next = match prev {
            Some(a) => {
                proof {
                    assert(s[j - 1] == a);
                    assert((a as int) < self.nodes@.len());
                    if j < s.len() {
                        assert(self.nodes@[s[j - 1] as int].next_sibling == Some(s[j]));
                    }
                }
                self.nodes[a].next_sibling
            },
            None => self.nodes[p].first_child,
        };
        match prev {
            Some(a) => {
                let mut l = self.nodes[a];
                l.next_sibling = Some(c);
                self.nodes.set(a, l);
            },
            None => {
                let mut l = self.nodes[p];
                l.first_child = Some(c);
                self.nodes.set(p, l);
            },
        }
        let mut l = self.nodes[c];
        l.next_sibling = next;
        l.parent = Some(p);
        self.nodes.set(c, l);
        if next.is_none() {
            let mut l = self.nodes[p];
            l.last_child = Some(c);
            self.nodes.set(p, l);
        }
        proof {
            assert(!s.contains(c)) by {
                if s.contains(c) {
                    let k = s.index_of(c);
                    assert(s[k] == c);
                }
            }
            if j > 0 {
                assert(s[j - 1] != c);
            }
            self.kids@ = self.kids@.update(p as int, s.insert(j, c));
            self.lemma_after_insert(old(self), p, c, j);
        }
    }

    /// Makes node `child_id` the last child of node `parent_id`, taking it
    /// out of its old parent's list first.  Ids out of range are ignored.
    /// Both nodes must be in use: a free slot stays detached until
    /// `add_node` hands it out again as a fresh node.
    #[verifier::spinoff_prover]
    #[verifier::rlimit(40)]
    pub fn set_parent(&mut self, child_id: u32, parent_id: u32)
        requires
            old(self).wf(),
            (child_id as int) < old(self).len() && (parent_id as int) < old(self).len() ==> old(self).is_live(
                child_id as int,
            ) && old(self).is_live(parent_id as int),
        ensures
            final(self).wf(),
            final(self).len() == old(self).len(),
            final(self).free_list() == old(self).free_list(),
            (child_id as int) < old(self).len() && (parent_id as int) < old(self).len() ==> {
                &&& final(self).parent_of(child_id as int) == Some(parent_id as usize)
                &&& final(self).children(parent_id as int) == detach(old(self), child_id as int, parent_id as int).push(child_id as usize)
                &&& forall|i: int| 0 <= i < old(self).len() && i != child_id ==> final(self).parent_of(i) == old(self).parent_of(i)
                &&& forall|i: int| 0 <= i < old(self).len() && i != parent_id ==> final(self).children(i) == detach(old(self), child_id as int, i)
            },
            !((child_id as int) < old(self).len() && (parent_id as int) < old(self).len()) ==> *final(self) == *old(self),
            old(self).acyclic() && (child_id as int) < old(self).len() && (parent_id as int) < old(self).len()
                && !old(self).descends(parent_id as int, child_id as int) ==> final(self).acyclic(),
    {
        let c = child_id as usize;
        let p = parent_id as usize;
        if c >= self.nodes.len() || p >= self.nodes.len() {
            return;
        }
        self.remove_from_parent(child_id);
        let last = self.nodes[p].last_child;
        proof {
            assert(list_ok(self.nodes@, p as int, self.kids@[p as int]));
            if self.kids@[p as int].len() > 0 {
                let s = self.kids@[p as int];
                assert(s.contains(s.last()) && s[s.len() - 1] == s.last());
                assert(s.index_of(s.last()) == s.len() - 1) by {
                    let k = s.index_of(s.last());
                    assert(s[k] == s.last());
                    if k != s.len() - 1 {
                        assert(s[k] != s[s.len() - 1]);
                    }
                }
            }
        }
        self.link_after(c, p, last);
        proof {
            if old(self).acyclic() && !old(self).descends(p as int, c as int) {
                lemma_reparent_acyclic(&*old(self), &*self, c as int, p);
            }
        }
    }

    /// Makes node `child_id` a child of node `parent_id`, right after
    /// `after_id` or, without one, first; it leaves its old parent's list
    /// first.  Ids out of range are ignored.  Both nodes must be in use, as
    /// for `set_parent`.
    #[verifier::spinoff_prover]
    #[verifier::rlimit(40)]
    pub fn insert_after_node(&mut self, child_id: u32, parent_id: u32, after_id: Option<u32>)
        requires
            old(self).wf(),
            (child_id as int) < old(self).len() && (parent_id as int) < old(self).len() ==> {
                &&& old(self).is_live(child_id as int)
                &&& old(self).is_live(parent_id as int)
                &&& after_id matches Some(a) ==> a != child_id && old(self).children(parent_id as int).contains(a as usize)
            },
        ensures
            final(self).wf(),
            final(self).len() == old(self).len(),
            final(self).free_list() == old(self).free_list(),
            (child_id as int) < old(self).len() && (parent_id as int) < old(self).len() ==> {
                let s = detach(old(self), child_id as int, parent_id as int);
                &&& final(self).parent_of(child_id as int) == Some(parent_id as usize)
                &&& final(self).children(parent_id as int) == s.insert(
                    match after_id {
                        Some(a) => s.index_of(a as usize) + 1,
                        None => 0,
                    },
                    child_id as usize,
                )
                &&& forall|i: int| 0 <= i < old(self).len() && i != child_id ==> final(self).parent_of(i) == old(self).parent_of(i)
                &&& forall|i: int| 0 <= i < old(self).len() && i != parent_id ==> final(self).children(i) == detach(old(self), child_id as int, i)
            },
            !((child_id as int) < old(self).len() && (parent_id as int) < old(self).len()) ==> *final(self) == *old(self),
            old(self).acyclic() && (child_id as int) < old(self).len() && (parent_id as int) < old(self).len()
                && !old(self).descends(parent_id as int, child_id as int) ==> final(self).acyclic(),
    {
        let c = child_id as usize;
        let p = parent_id as usize;
        if c >= self.nodes.len() || p >= self.nodes.len() {
            return;
        }
        self.remove_from_parent(child_id);
        let prev = match after_id {
            Some(a) => Some(a as usize),
            None => None,
        };
        proof {
            if let Some(a) = after_id {
                let s0 = old(self).kids@[p as int];
                if old(self).parent_of(c as int) == Some(p) {
                    let k = s0.index_of(c);
                    let i = s0.index_of(a as usize);
                    assert(s0[i] == a as usize);
                    let i2 = if i < k { i } else { i - 1 };
                    assert(s0.remove(k)[i2] == a as usize);
                }
            }
        }
        self.link_after(c, p, prev);
        proof {
            if old(self).acyclic() && !old(self).descends(p as int, c as int) {
                lemma_reparent_acyclic(&*old(self), &*self, c as int, p);
            }
        }
    }

    /// Every parent link goes up in `rank`.
    pub open spec fn ranked(&self, rank: spec_fn(int) -> nat) -> bool {
        forall|c: int| 0 <= c < self.len() && #[trigger] self.parent_of(c) is Some ==> rank(c) < rank(
            self.parent_of(c)->0 as int,
        )
    }

    /// No node is its own ancestor.
    pub open spec fn acyclic(&self) -> bool {
        exists|rank: spec_fn(int) -> nat| self.ranked(rank)
    }

    /// Following `n` parent links from `x` leads to `a`.
    pub open spec fn reaches(&self, x: int, a: int, n: nat) -> bool
        decreases n,
    {
        if n == 0 {
            x == a
        } else {
            self.parent_of(x) matches Some(p) && self.reaches(p as int, a, (n - 1) as nat)
        }
    }

    /// `x` is `a` or lies below it.
    pub open spec fn descends(&self, x: int, a: int) -> bool {
        exists|n: nat| self.reaches(x, a, n)
    }

    /// Marks the detached, childless, live `node` free.
    fn push_free(&mut self, node: usize)
        requires
            old(self).wf(),
            node < old(self).len(),
            old(self).parent_of(node as int) is None,
            old(self).children(node as int).len() == 0,
            !old(self).free_list().contains(node as u32),
        ensures
            final(self).wf(),
            final(self).len() == old(self).len(),
            final(self).free_list() == old(self).free_list().push(node as u32),
            forall|i: int| 0 <= i < old(self).len() ==> final(self).parent_of(i) == old(self).parent_of(i)
                && final(self).children(i) == old(self).children(i),
    {
        self.free.push(node as u32);
        proof {
            let f = self.free@;
            assert forall|a: int, b: int| 0 <= a < b < f.len() implies #[trigger] f[a] != #[trigger] f[b] by {
                if b == f.len() - 1 {
                    assert(old(self).free@.contains(f[a]));
                } else {
                    assert(old(self).free@[a] != old(self).free@[b]);
                }
            }
            assert forall|k: int| 0 <= k < f.len() implies (#[trigger] f[k] as int) < self.nodes@.len()
                && self.nodes@[f[k] as int].parent is None && self.kids@[f[k] as int].len() == 0 by {
                if k < f.len() - 1 {
                    assert(f[k] == old(self).free@[k]);
                }
            }
        }
    }

    /// Deletes everything under the live node `node`, deepest nodes first,
    /// and returns the ids it freed; `node` keeps its place.
    #[verifier::spinoff_prover]
    #[verifier::rlimit(50)]
    fn delete_children(&mut self, node: usize, Ghost(rank): Ghost<spec_fn(int) -> nat>) -> (freed: Vec<u32>)
        requires
            old(self).wf(),
            old(self).is_live(node as int),
            old(self).ranked(rank),
        ensures
            final(self).wf(),
            final(self).len() == old(self).len(),
            final(self).ranked(rank),
            final(self).free_list() == old(self).free_list() + freed@,
            final(self).children(node as int).len() == 0,
            final(self).parent_of(node as int) == old(self).parent_of(node as int),
            !final(self).free_list().contains(node as u32),
            forall|i: int| 0 <= i < old(self).len() && i != node && !freed@.contains(i as u32) ==> final(self).parent_of(i)
                == old(self).parent_of(i) && final(self).children(i) == old(self).children(i),
            subtree_part(old(self), node as int, freed@),
            !freed@.contains(node as u32),
            forall|m: int| 0 <= m < old(self).children(node as int).len() ==> freed@.contains(
                #[trigger] old(self).children(node as int)[m] as u32,
            ),
            forall|j: int| 0 <= j < freed@.len() ==> rank(#[trigger] freed@[j] as int) < rank(node as int),
        decreases rank(node as int), 0int,
    {
        let ghost n = self.nodes@.len();
        let ghost kids0 = self.kids@[node as int];
        let ghost t0 = *self;
        proof {
            assert(list_ok(self.nodes@, node as int, kids0));
        }
        let mut freed: Vec<u32> = Vec::new();
        let mut curr = self.nodes[node].first_child;
        let ghost mut k: int = 0;
        proof {
            assert(kids0.subrange(0, kids0.len() as int) =~= kids0);
        }
        loop
            invariant_except_break
                curr == (if k < kids0.len() { Some(kids0[k]) } else { None::<usize> }),
            invariant
                self.wf(),
                self.nodes@.len() == n,
                n == t0.len(),
                t0.wf(),
                t0 == *old(self),
                kids0 == t0.children(node as int),
                node < n,
                self.ranked(rank),
                0 <= k <= kids0.len(),
                self.children(node as int) == kids0.subrange(k, kids0.len() as int),
                self.free_list() == t0.free_list() + freed@,
                self.parent_of(node as int) == t0.parent_of(node as int),
                !self.free_list().contains(node as u32),
                forall|i: int| 0 <= i < n && i != node && !freed@.contains(i as u32) ==> self.parent_of(i) == t0.parent_of(i)
                    && self.children(i) == t0.children(i),
                subtree_part(&t0, node as int, freed@),
                !freed@.contains(node as u32),
                forall|m: int| 0 <= m < k ==> freed@.contains(#[trigger] kids0[m] as u32),
                forall|j: int| 0 <= j < freed@.len() ==> rank(#[trigger] freed@[j] as int) < rank(node as int),
            ensures
                k == kids0.len(),
            decreases kids0.len() - k,
        {
            match curr {
                None => {
                    break;
                },
                Some(ci) => {
                    proof {
                        assert(self.children(node as int)[0] == ci);
                        assert(list_ok(self.nodes@, node as int, self.kids@[node as int]));
                        assert(self.nodes@[ci as int].parent == Some(node));
                        assert(!self.free_list().contains(ci as u32)) by {
                            if self.free_list().contains(ci as u32) {
                                let j = self.free@.index_of(ci as u32);
                                assert(self.free@[j] == ci as u32);
                            }
                        }
                        if k + 1 < kids0.len() {
                            assert(self.children(node as int)[1] == kids0[k + 1]);
                        }
                        assert(self.parent_of(ci as int) is Some);
                        assert(rank(ci as int) < rank(node as int));
                    }
                    let next = self.nodes[ci].next_sibling;
                    let ghost before = *self;
                    let ghost freed0 = freed@;
                    let mut sub = self.delete_rec(ci, Ghost(rank));
                    let ghost subv = sub@;
                    freed.append(&mut sub);
                    proof {
                        self.lemma_delete_step(&before, &t0, node as int, ci as int, k, kids0, freed0, subv, rank);
                        k = k + 1;
                    }
                    curr = next;
                },
            }
        }
        proof {
            assert(self.children(node as int).len() == 0);
        }
        freed
    }

    /// Deletes the live node `node` and everything under it, deepest nodes
    /// first, and returns the ids it freed.
    #[verifier::spinoff_prover]
    #[verifier::rlimit(40)]
    fn delete_rec(&mut self, node: usize, Ghost(rank): Ghost<spec_fn(int) -> nat>) -> (freed: Vec<u32>)
        requires
            old(self).wf(),
            old(self).is_live(node as int),
            old(self).ranked(rank),
        ensures
            final(self).wf(),
            final(self).len() == old(self).len(),
            final(self).ranked(rank),
            final(self).free_list() == old(self).free_list() + freed@,
            is_subtree(old(self), node as int, freed@),
            forall|k: int| 0 <= k < freed@.len() ==> rank(#[trigger] freed@[k] as int) <= rank(node as int),
            forall|i: int| 0 <= i < old(self).len() && !freed@.contains(i as u32) ==> final(self).parent_of(i) == old(self).parent_of(i)
                && final(self).children(i) == detach(old(self), node as int, i),
        decreases rank(node as int), 1int,
    {
        let ghost t0 = *self;
        let ghost kids0 = self.kids@[node as int];
        let mut freed = self.delete_children(node, Ghost(rank));
        let ghost before_remove = *self;
        self.remove_from_parent(node as u32);
        proof {
            assert(self.children(node as int).len() == 0);
            assert(self.ranked(rank)) by {
                assert forall|c: int| 0 <= c < self.len() && #[trigger] self.parent_of(c) is Some implies rank(c) < rank(
                    self.parent_of(c)->0 as int,
                ) by {
                    assert(before_remove.parent_of(c) == self.parent_of(c));
                }
            }
        }
        let ghost mid = *self;
        self.push_free(node);
        let ghost freed_loop = freed@;
        freed.push(node as u32);
        proof {
            assert(kids0 == t0.children(node as int));
            assert forall|m: int| 0 <= m < kids0.len() implies freed_loop.contains(#[trigger] kids0[m] as u32) by {
                assert(kids0[m] == t0.children(node as int)[m]);
            }
            self.lemma_delete_done(&mid, &before_remove, &t0, node as int, kids0, freed_loop, freed@, rank);
        }
        freed
    }

    /// One child's subtree has been deleted: the loop of `delete_children`
    /// goes on.
    #[verifier::spinoff_prover]
    #[verifier::rlimit(40)]
    proof fn lemma_delete_step(
        &self,
        before: &NodeTree,
        t0: &NodeTree,
        node: int,
        ci: int,
        k: int,
        kids0: Seq<usize>,
        freed0: Seq<u32>,
        subv: Seq<u32>,
        rank: spec_fn(int) -> nat,
    )
        requires
            t0.wf(),
            before.wf(),
            before.len() == t0.len(),
            0 <= node < t0.len(),
            kids0 == t0.children(node),
            0 <= k < kids0.len(),
            kids0[k] == ci,
            before.children(node) == kids0.subrange(k, kids0.len() as int),
            before.parent_of(ci) == Some(node as usize),
            before.is_live(ci),
            rank(ci) < rank(node),
            before.free_list() == t0.free_list() + freed0,
            before.parent_of(node) == t0.parent_of(node),
            !before.free_list().contains(node as u32),
            forall|i: int| 0 <= i < t0.len() && i != node && !freed0.contains(i as u32) ==> before.parent_of(i) == t0.parent_of(i)
                && before.children(i) == t0.children(i),
            subtree_part(t0, node, freed0),
            !freed0.contains(node as u32),
            forall|m: int| 0 <= m < k ==> freed0.contains(#[trigger] kids0[m] as u32),
            forall|j: int| 0 <= j < freed0.len() ==> rank(#[trigger] freed0[j] as int) < rank(node),
            self.len() == before.len(),
            self.free_list() == before.free_list() + subv,
            is_subtree(before, ci, subv),
            forall|j: int| 0 <= j < subv.len() ==> rank(#[trigger] subv[j] as int) <= rank(ci),
            forall|i: int| 0 <= i < before.len() && !subv.contains(i as u32) ==> self.parent_of(i) == before.parent_of(i)
                && self.children(i) == detach(before, ci, i),
        ensures
            ({
                let freed = freed0 + subv;
                &&& self.children(node) == kids0.subrange(k + 1, kids0.len() as int)
                &&& self.free_list() == t0.free_list() + freed
                &&& self.parent_of(node) == t0.parent_of(node)
                &&& !self.free_list().contains(node as u32)
                &&& forall|i: int| 0 <= i < t0.len() && i != node && !freed.contains(i as u32) ==> self.parent_of(i) == t0.parent_of(i)
                    && self.children(i) == t0.children(i)
                &&& subtree_part(t0, node, freed)
                &&& !freed.contains(node as u32)
                &&& forall|m: int| 0 <= m < k + 1 ==> freed.contains(#[trigger] kids0[m] as u32)
                &&& forall|j: int| 0 <= j < freed.len() ==> rank(#[trigger] freed[j] as int) < rank(node)
            }),
    {
        let freed = freed0 + subv;
        let n = t0.len();
        // The deleted subtree does not hold `node`.
        assert(!subv.contains(node as u32)) by {
            if subv.contains(node as u32) {
                let j = subv.index_of(node as u32);
                assert(rank(subv[j] as int) <= rank(ci));
            }
        }
        // Nor anything freed before.
        assert forall|j: int| 0 <= j < subv.len() implies !freed0.contains(#[trigger] subv[j]) by {
            assert(before.is_live(subv[j] as int));
            if freed0.contains(subv[j]) {
                let a = freed0.index_of(subv[j]);
                assert((t0.free_list() + freed0)[t0.free_list().len() + a] == subv[j]);
            }
        }
        assert(subv[subv.len() - 1] == ci as u32);
        assert(subv.contains(ci as u32));
        // The children of `node` lose their first.
        let cur = kids0.subrange(k, kids0.len() as int);
        assert(cur[0] == ci as usize);
        assert(cur.index_of(ci as usize) == 0) by {
            let a = cur.index_of(ci as usize);
            assert(cur[a] == ci as usize);
            assert(list_ok(t0.nodes@, node, kids0));
            if a != 0 {
                assert(kids0[k + a] == kids0[k]);
            }
        }
        assert(self.children(node) =~= kids0.subrange(k + 1, kids0.len() as int));
        assert(self.free_list() =~= t0.free_list() + freed);
        assert(!self.free_list().contains(node as u32)) by {
            if self.free_list().contains(node as u32) {
                let a = self.free_list().index_of(node as u32);
                if a < before.free_list().len() {
                    assert(before.free_list()[a] == node as u32);
                } else {
                    assert(subv[a - before.free_list().len()] == node as u32);
                }
            }
        }
        assert forall|i: int| 0 <= i < n && i != node && !freed.contains(i as u32) implies self.parent_of(i) == t0.parent_of(i)
            && self.children(i) == t0.children(i) by {
            assert(!freed0.contains(i as u32)) by {
                if freed0.contains(i as u32) {
                    let a = freed0.index_of(i as u32);
                    assert(freed[a] == i as u32);
                }
            }
            assert(!subv.contains(i as u32)) by {
                if subv.contains(i as u32) {
                    let a = subv.index_of(i as u32);
                    assert(freed[freed0.len() + a] == i as u32);
                }
            }
        }
        // The freed nodes still form the top of a subtree under `node`.
        assert forall|a: int, b: int| 0 <= a < b < freed.len() implies #[trigger] freed[a] != #[trigger] freed[b] by {
            if b < freed0.len() {
                assert(freed0[a] != freed0[b]);
            } else if a >= freed0.len() {
                assert(subv[a - freed0.len()] != subv[b - freed0.len()]);
            } else {
                assert(!freed0.contains(subv[b - freed0.len()]));
                assert(freed0[a] == freed[a]);
            }
        }
        assert forall|j: int| 0 <= j < freed.len() implies t0.is_live(#[trigger] freed[j] as int) by {
            if j >= freed0.len() {
                let x = subv[j - freed0.len()];
                assert(before.is_live(x as int));
                if t0.free_list().contains(x) {
                    let a = t0.free_list().index_of(x);
                    assert(before.free_list()[a] == x);
                }
            }
        }
        assert forall|j: int| 0 <= j < freed.len() && freed[j] != node as u32 implies (t0.parent_of(#[trigger] freed[j] as int) matches Some(
            p,
        ) && (p == node || freed.contains(p as u32))) by {
            if j < freed0.len() {
                let p = t0.parent_of(freed0[j] as int)->0;
                if p != node {
                    let a = freed0.index_of(p as u32);
                    assert(freed[a] == p as u32);
                }
            } else {
                let x = subv[j - freed0.len()];
                assert(!freed0.contains(x));
                assert(before.parent_of(x as int) == t0.parent_of(x as int));
                if x != ci as u32 {
                    let p = before.parent_of(x as int)->0;
                    let a = subv.index_of(p as u32);
                    assert(freed[freed0.len() + a] == p as u32);
                }
            }
        }
        assert forall|j: int, m: int| 0 <= j < freed.len() && 0 <= m < t0.children(freed[j] as int).len() implies freed.contains(
            #[trigger] t0.children(#[trigger] freed[j] as int)[m] as u32,
        ) by {
            if j < freed0.len() {
                let c = t0.children(freed0[j] as int)[m];
                let a = freed0.index_of(c as u32);
                assert(freed[a] == c as u32);
            } else {
                let x = subv[j - freed0.len()];
                assert(!freed0.contains(x));
                assert(x != node as u32);
                assert(before.children(x as int) == t0.children(x as int));
                let c = before.children(x as int)[m];
                assert(subv.contains(c as u32));
                let a = subv.index_of(c as u32);
                assert(freed[freed0.len() + a] == c as u32);
            }
        }
        assert forall|m: int| 0 <= m < k + 1 implies freed.contains(#[trigger] kids0[m] as u32) by {
            if m < k {
                let a = freed0.index_of(kids0[m] as u32);
                assert(freed[a] == kids0[m] as u32);
            } else {
                let a = subv.index_of(ci as u32);
                assert(freed[freed0.len() + a] == ci as u32);
            }
        }
        assert forall|j: int| 0 <= j < freed.len() implies rank(#[trigger] freed[j] as int) < rank(node) by {
            if j < freed0.len() {
                assert(freed[j] == freed0[j]);
            } else {
                assert(freed[j] == subv[j - freed0.len()]);
            }
        }
    }

    /// The last step of `delete_rec`: `node` itself is unlinked and freed.
    #[verifier::spinoff_prover]
    #[verifier::rlimit(40)]
    proof fn lemma_delete_done(
        &self,
        mid: &NodeTree,
        before: &NodeTree,
        t0: &NodeTree,
        node: int,
        kids0: Seq<usize>,
        freed_loop: Seq<u32>,
        freed: Seq<u32>,
        rank: spec_fn(int) -> nat,
    )
        requires
            t0.wf(),
            t0.is_live(node),
            kids0 == t0.children(node),
            before.len() == t0.len(),
            before.free_list() == t0.free_list() + freed_loop,
            before.parent_of(node) == t0.parent_of(node),
            forall|i: int| 0 <= i < t0.len() && i != node && !freed_loop.contains(i as u32) ==> before.parent_of(i) == t0.parent_of(i)
                && before.children(i) == t0.children(i),
            subtree_part(t0, node, freed_loop),
            !freed_loop.contains(node as u32),
            forall|m: int| 0 <= m < kids0.len() ==> freed_loop.contains(#[trigger] kids0[m] as u32),
            forall|j: int| 0 <= j < freed_loop.len() ==> rank(#[trigger] freed_loop[j] as int) < rank(node),
            mid.len() == before.len(),
            mid.free_list() == before.free_list(),
            forall|i: int| 0 <= i < before.len() && i != node ==> mid.parent_of(i) == before.parent_of(i),
            forall|i: int| 0 <= i < before.len() ==> mid.children(i) == (
                if before.parent_of(node) == Some(i as usize) {
                    before.children(i).remove(before.children(i).index_of(node as usize))
                } else {
                    before.children(i)
                }),
            self.len() == mid.len(),
            self.free_list() == mid.free_list().push(node as u32),
            forall|i: int| 0 <= i < mid.len() ==> self.parent_of(i) == mid.parent_of(i) && self.children(i) == mid.children(i),
            freed == freed_loop.push(node as u32),
        ensures
            self.free_list() == t0.free_list() + freed,
            is_subtree(t0, node, freed),
            forall|k: int| 0 <= k < freed.len() ==> rank(#[trigger] freed[k] as int) <= rank(node),
            forall|i: int| 0 <= i < t0.len() && !freed.contains(i as u32) ==> self.parent_of(i) == t0.parent_of(i)
                && self.children(i) == detach(t0, node, i),
    {
        assert(self.free_list() =~= t0.free_list() + freed);
        assert(freed[freed.len() - 1] == node as u32);
        assert forall|a: int, b: int| 0 <= a < b < freed.len() implies #[trigger] freed[a] != #[trigger] freed[b] by {
            if b == freed.len() - 1 {
                assert(freed[a] == freed_loop[a]);
            } else {
                assert(freed_loop[a] != freed_loop[b]);
            }
        }
        assert forall|j: int| 0 <= j < freed.len() implies t0.is_live(#[trigger] freed[j] as int) by {
            if j < freed_loop.len() {
                assert(freed[j] == freed_loop[j]);
            }
        }
        assert forall|j: int| 0 <= j < freed.len() && freed[j] != node as u32 implies (t0.parent_of(#[trigger] freed[j] as int) matches Some(
            p,
        ) && (p == node || freed.contains(p as u32))) by {
            assert(j < freed_loop.len());
            assert(freed[j] == freed_loop[j]);
            let p = t0.parent_of(freed_loop[j] as int)->0;
            if p != node {
                let a = freed_loop.index_of(p as u32);
                assert(freed[a] == p as u32);
            }
        }
        assert forall|j: int, m: int| 0 <= j < freed.len() && 0 <= m < t0.children(freed[j] as int).len() implies freed.contains(
            #[trigger] t0.children(#[trigger] freed[j] as int)[m] as u32,
        ) by {
            let c = if j < freed_loop.len() {
                assert(freed[j] == freed_loop[j]);
                t0.children(freed_loop[j] as int)[m]
            } else {
                kids0[m]
            };
            let a = freed_loop.index_of(c as u32);
            assert(freed[a] == c as u32);
        }
        assert forall|k: int| 0 <= k < freed.len() implies rank(#[trigger] freed[k] as int) <= rank(node) by {
            if k < freed_loop.len() {
                assert(freed[k] == freed_loop[k]);
            }
        }
        assert forall|i: int| 0 <= i < t0.len() && !freed.contains(i as u32) implies self.parent_of(i) == t0.parent_of(i)
            && self.children(i) == detach(t0, node, i) by {
            assert(i != node);
            assert(!freed_loop.contains(i as u32)) by {
                if freed_loop.contains(i as u32) {
                    let a = freed_loop.index_of(i as u32);
                    assert(freed[a] == i as u32);
                }
            }
        }
    }

    /// Deletes node `node_id` and everything under it, deepest nodes first:
    /// each leaves its parent's list and its slot is freed.  Returns the ids
    /// freed, in that order (`node_id` last); an id out of range frees
    /// nothing.
    pub fn delete_node_recursive(&mut self, node_id: u32) -> (freed: Vec<u32>)
        requires
            old(self).wf(),
            old(self).acyclic(),
            (node_id as int) < old(self).len() ==> old(self).is_live(node_id as int),
        ensures
            final(self).wf(),
            final(self).acyclic(),
            final(self).len() == old(self).len(),
            final(self).free_list() == old(self).free_list() + freed@,
            (node_id as int) < old(self).len() ==> is_subtree(old(self), node_id as int, freed@),
            (node_id as int) >= old(self).len() ==> freed@.len() == 0 && *final(self) == *old(self),
            (node_id as int) < old(self).len() ==> forall|i: int| 0 <= i < old(self).len() && !freed@.contains(i as u32)
                ==> final(self).parent_of(i) == old(self).parent_of(i) && final(self).children(i) == detach(old(self), node_id as int, i),
    {
        let node = node_id as usize;
        if node >= self.nodes.len() {
            let freed = Vec::new();
            proof {
                assert(self.free_list() =~= old(self).free_list() + freed@);
            }
            return freed;
        }
        let ghost rank = choose|rank: spec_fn(int) -> nat| self.ranked(rank);
        let freed = self.delete_rec(node, Ghost(rank));
        freed
    }

    /// Deletes everything under node `parent_id`, deepest nodes first, and
    /// returns the ids freed; the node itself stays, with no children.  An id
    /// out of range frees nothing.
    pub fn clear_children(&mut self, parent_id: u32) -> (freed: Vec<u32>)
        requires
            old(self).wf(),
            old(self).acyclic(),
            (parent_id as int) < old(self).len() ==> old(self).is_live(parent_id as int),
        ensures
            final(self).wf(),
            final(self).acyclic(),
            final(self).len() == old(self).len(),
            final(self).free_list() == old(self).free_list() + freed@,
            (parent_id as int) >= old(self).len() ==> freed@.len() == 0 && *final(self) == *old(self),
            (parent_id as int) < old(self).len() ==> {
                &&& final(self).children(parent_id as int).len() == 0
                &&& subtree_part(old(self), parent_id as int, freed@)
                &&& !freed@.contains(parent_id)
                &&& forall|m: int| 0 <= m < old(self).children(parent_id as int).len() ==> freed@.contains(
                    #[trigger] old(self).children(parent_id as int)[m] as u32,
                )
                &&& forall|i: int| 0 <= i < old(self).len() && !freed@.contains(i as u32) ==> final(self).parent_of(i)
                    == old(self).parent_of(i) && (i != parent_id ==> final(self).children(i) == old(self).children(i))
            },
    {
        let p = parent_id as usize;
        if p >= self.nodes.len() {
            let freed = Vec::new();
            proof {
                assert(self.free_list() =~= old(self).free_list() + freed@);
            }
            return freed;
        }
        let ghost rank = choose|rank: spec_fn(int) -> nat| self.ranked(rank);
        self.delete_children(p, Ghost(rank))
    }

    /// The children of node `id`, in order; none for an id out of range.
    #[verifier::spinoff_prover]
    #[verifier::rlimit(40)]
    pub fn children_of(&self, id: u32) -> (r: Vec<u32>)
        requires
            self.wf(),
        ensures
            (id as int) < self.len() ==> r@ == self.children(id as int).map_values(|c: usize| c as u32),
            (id as int) >= self.len() ==> r@.len() == 0,
    {
        let p = id as usize;
        let mut r: Vec<u32> = Vec::new();
        if p >= self.nodes.len() {
            return r;
        }
        let ghost s = self.kids@[p as int];
        proof {
            assert(list_ok(self.nodes@, p as int, s));
        }
        let mut curr = self.nodes[p].first_child;
        let ghost mut k: int = 0;
        loop
            invariant_except_break
                curr == (if k < s.len() { Some(s[k]) } else { None::<usize> }),
            invariant
                self.wf(),
                p < self.len(),
                s == self.kids@[p as int],
                list_ok(self.nodes@, p as int, s),
                0 <= k <= s.len(),
                r@ == s.take(k).map_values(|c: usize| c as u32),
            ensures
                k == s.len(),
            decreases s.len() - k,
        {
            match curr {
                None => {
                    break;
                },
                Some(c) => {
                    r.push(c as u32);
                    proof {
                        assert((c as int) < self.nodes@.len());
                        assert(s.take(k + 1).map_values(|c: usize| c as u32) =~= s.take(k).map_values(|c: usize| c as u32).push(
                            c as u32,
                        ));
                        if k + 1 < s.len() {
                            assert(self.nodes@[s[k] as int].next_sibling == Some(s[k + 1]));
                        }
                    }
                    curr = self.nodes[c].next_sibling;
                    proof {
                        k = k + 1;
                    }
                },
            }
        }
        proof {
            assert(s.take(s.len() as int) =~= s);
        }
        r
    }

    /// A parent is a node of the tree.
    pub proof fn lemma_parent_in_range(&self, c: int)
        requires
            self.wf(),
            0 <= c < self.len(),
            self.parent_of(c) is Some,
        ensures
            (self.parent_of(c)->0 as int) < self.len(),
    {
    }

    /// Taking a node out of its parent's list (`remove_from_parent`) and
    /// inserting it again (`insert_after_node`) after its old previous
    /// sibling, or first if it was first, gives back the same list.
    pub proof fn law_reinsert_restores(&self, c: int)
        requires
            self.wf(),
            0 <= c < self.len(),
            self.parent_of(c) is Some,
        ensures
            ({
                let p = self.parent_of(c)->0 as int;
                let s = self.children(p);
                let k = s.index_of(c as usize);
                let rest = detach(self, c, p);
                let at = if k == 0 { 0 } else { rest.index_of(s[k - 1]) + 1 };
                rest.insert(at, c as usize) == s
            }),
    {
        let p = self.parent_of(c)->0 as int;
        self.lemma_member(c);
        let s = self.children(p);
        assert(list_ok(self.nodes@, p, s));
        let k = s.index_of(c as usize);
        assert(s[k] == c as usize);
        let rest = s.remove(k);
        if k > 0 {
            let i = rest.index_of(s[k - 1]);
            assert(rest[k - 1] == s[k - 1]);
            assert(rest.contains(s[k - 1]));
            assert(rest[i] == s[k - 1]);
            if i != k - 1 {
                let i0 = if i < k { i } else { i + 1 };
                assert(s[i0] == s[k - 1]);
            }
        }
        assert(rest.insert(k, c as usize) =~= s);
    }
}

/// A tree that differs from an acyclic one only in that `child` now hangs
/// under `parent`, which does not lie below `child`, is acyclic: the
/// nodes below `child` keep their ranks and every other node is ranked
/// above them.
proof fn lemma_reparent_acyclic(a: &NodeTree, b: &NodeTree, child: int, parent: usize)
    requires
        a.acyclic(),
        0 <= child < a.len(),
        (parent as int) < a.len(),
        b.len() == a.len(),
        b.parent_of(child) == Some(parent),
        forall|i: int| 0 <= i < a.len() && i != child ==> b.parent_of(i) == a.parent_of(i),
        !a.descends(parent as int, child),
    ensures
        b.acyclic(),
{
    let rank = choose|r: spec_fn(int) -> nat| a.ranked(r);
    let m: nat = rank(child) + 1;
    let r2 = |x: int| -> nat { if a.descends(x, child) { rank(x) } else { rank(x) + m } };
    assert(a.reaches(child, child, 0));
    assert forall|c: int| 0 <= c < b.len() && #[trigger] b.parent_of(c) is Some implies r2(c) < r2(
        b.parent_of(c)->0 as int,
    ) by {
        if c == child {
            assert(a.descends(child, child));
            assert(r2(c) == rank(child));
            assert(r2(parent as int) == rank(parent as int) + m);
            assert(r2(c) < r2(b.parent_of(c)->0 as int));
        } else {
            let p = a.parent_of(c)->0 as int;
            assert(a.parent_of(c) is Some);
            assert(b.parent_of(c)->0 as int == p);
            assert(rank(c) < rank(p));
            if a.descends(c, child) {
                let n = choose|n: nat| a.reaches(c, child, n);
                assert(n > 0);
                assert(a.reaches(p, child, (n - 1) as nat));
                assert(a.descends(p, child));
                assert(r2(c) == rank(c));
                assert(r2(p) == rank(p));
            } else {
                if a.descends(p, child) {
                    let n = choose|n: nat| a.reaches(p, child, n);
                    assert(a.reaches(c, child, n + 1));
                    assert(a.descends(c, child));
                }
                assert(r2(c) == rank(c) + m);
                assert(r2(p) == rank(p) + m);
            }
            assert(r2(c) < r2(b.parent_of(c)->0 as int));
        }
    }
    assert(b.ranked(r2));
}

/// A tree that differs from an acyclic one only in that `node` has no
/// parent (or is a new node without one) is acyclic: the same ranks do.
proof fn lemma_unparent_acyclic(a: &NodeTree, b: &NodeTree, node: int)
    requires
        a.acyclic(),
        b.len() >= a.len(),
        b.parent_of(node) is None,
        forall|i: int| 0 <= i < b.len() && i != node ==> i < a.len() && b.parent_of(i) == a.parent_of(i),
    ensures
        b.acyclic(),
{
    let rank = choose|r: spec_fn(int) -> nat| a.ranked(r);
    assert(b.ranked(rank));
}

} // verus!
