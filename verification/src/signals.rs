use vstd::prelude::*;
use std::collections::HashMap;
use std::collections::HashSet;
use vstd::std_specs::iter::IteratorSpec;

verus! {

broadcast use vstd::std_specs::hash::group_hash_axioms;

pub type SignalId = usize;

pub type EffectId = usize;

pub type ScopeId = usize;

/// A value held by a signal.
pub enum Value {
    Bool(bool),
    I32(i32),
    U32(u32),
    I64(i64),
    U64(u64),
    Usize(usize),
    Text(String),
}

/// The bookkeeping of one reactive scope.
pub struct ScopeData {
    pub signals: Vec<SignalId>,
    pub effects: Vec<EffectId>,
    pub sub_scopes: Vec<ScopeId>,
    pub parent: Option<ScopeId>,
}

/// The mathematical picture of a scope.
pub struct ScopeView {
    pub signals: Seq<SignalId>,
    pub effects: Seq<EffectId>,
    pub sub_scopes: Seq<ScopeId>,
    pub parent: Option<ScopeId>,
}

impl ScopeData {
    pub open spec fn view(&self) -> ScopeView {
        ScopeView {
            signals: self.signals@,
            effects: self.effects@,
            sub_scopes: self.sub_scopes@,
            parent: self.parent,
        }
    }
}

/// The mathematical picture of the reactive graph.
pub struct ReactiveView {
    pub current_effect: Option<EffectId>,
    pub current_scope: Option<ScopeId>,
    pub values: Map<SignalId, Value>,
    pub subscribers: Map<SignalId, Set<EffectId>>,
    pub dependencies: Map<EffectId, Set<SignalId>>,
    pub effect_scopes: Map<EffectId, ScopeId>,
    pub scopes: Map<ScopeId, ScopeView>,
    pub next_signal_id: nat,
    pub next_effect_id: nat,
    pub next_scope_id: nat,
}

impl ReactiveView {
    /// Every subscription is mirrored by a dependency, subscriber sets are
    /// never empty, only live signals have subscribers, and every id in use
    /// lies below the matching counter.
    pub open spec fn wf(self) -> bool {
        &&& forall|s: SignalId, e: EffectId|
            #![trigger self.subscribers[s].contains(e)]
            self.subscribers.contains_key(s) && self.subscribers[s].contains(e)
                ==> self.dependencies.contains_key(e) && self.dependencies[e].contains(s)
        &&& forall|s: SignalId|
            #![trigger self.subscribers[s]]
            self.subscribers.contains_key(s) ==> self.subscribers[s] != Set::<EffectId>::empty()
        &&& forall|s: SignalId|
            #![trigger self.subscribers.contains_key(s)]
            self.subscribers.contains_key(s) ==> self.values.contains_key(s)
        &&& forall|s: SignalId| #![trigger self.values.contains_key(s)]
            self.values.contains_key(s) ==> s < self.next_signal_id
        &&& forall|e: EffectId| #![trigger self.dependencies.contains_key(e)]
            self.dependencies.contains_key(e) ==> e < self.next_effect_id
        &&& forall|e: EffectId| #![trigger self.effect_scopes.contains_key(e)]
            self.effect_scopes.contains_key(e) ==> e < self.next_effect_id
        &&& forall|c: ScopeId| #![trigger self.scopes.contains_key(c)]
            self.scopes.contains_key(c) ==> c < self.next_scope_id
        &&& self.current_effect matches Some(e) ==> e < self.next_effect_id
    }

    /// The set of effects subscribed to a signal (empty when it has no entry).
    pub open spec fn subscribers_of(self, s: SignalId) -> Set<EffectId> {
        if self.subscribers.contains_key(s) {
            self.subscribers[s]
        } else {
            Set::empty()
        }
    }

    /// The effect that `e` is subscribed to nothing.
    pub open spec fn unsubscribed(self, e: EffectId) -> bool {
        forall|s: SignalId|
            #![trigger self.subscribers[s].contains(e)]
            self.subscribers.contains_key(s) ==> !self.subscribers[s].contains(e)
    }

    /// The state right after `reset`.
    pub open spec fn is_empty(self) -> bool {
        &&& self.current_effect is None
        &&& self.current_scope is None
        &&& self.values == Map::<SignalId, Value>::empty()
        &&& self.subscribers == Map::<SignalId, Set<EffectId>>::empty()
        &&& self.dependencies == Map::<EffectId, Set<SignalId>>::empty()
        &&& self.effect_scopes == Map::<EffectId, ScopeId>::empty()
        &&& self.scopes == Map::<ScopeId, ScopeView>::empty()
        &&& self.next_signal_id == 0
        &&& self.next_effect_id == 0
        &&& self.next_scope_id == 0
    }
}

/// `m` with the effect `e` taken out of the sets of the signals in `p`;
/// a set that becomes empty loses its entry.
pub open spec fn strip(m: Map<SignalId, Set<EffectId>>, e: EffectId, p: Set<SignalId>) -> Map<
    SignalId,
    Set<EffectId>,
> {
    Map::new(
        |s: SignalId| m.contains_key(s) && !(p.contains(s) && m[s].remove(e) == Set::<EffectId>::empty()),
        |s: SignalId| if p.contains(s) { m[s].remove(e) } else { m[s] },
    )
}

/// `m` with the effect `e` taken out of every subscriber set.
pub open spec fn without_effect(m: Map<SignalId, Set<EffectId>>, e: EffectId) -> Map<SignalId, Set<EffectId>> {
    strip(m, e, Set::full())
}

/// `m` without the signals in `sigs` and with the effects in `effs` taken
/// out of every subscriber set; sets that become empty lose their entry.
pub open spec fn purge(m: Map<SignalId, Set<EffectId>>, effs: Set<EffectId>, sigs: Set<SignalId>) -> Map<
    SignalId,
    Set<EffectId>,
> {
    Map::new(
        |s: SignalId| m.contains_key(s) && !sigs.contains(s) && m[s].difference(effs) != Set::<EffectId>::empty(),
        |s: SignalId| m[s].difference(effs),
    )
}

/// The signals owned by the scopes in `r`.
pub open spec fn signals_of(scopes: Map<ScopeId, ScopeView>, r: Set<ScopeId>) -> Set<SignalId> {
    Set::new(|s: SignalId| exists|d: ScopeId| #[trigger] r.contains(d) && scopes[d].signals.contains(s))
}

/// The effects owned by the scopes in `r`.
pub open spec fn effects_of(scopes: Map<ScopeId, ScopeView>, r: Set<ScopeId>) -> Set<EffectId> {
    Set::new(|e: EffectId| exists|d: ScopeId| #[trigger] r.contains(d) && scopes[d].effects.contains(e))
}

/// The graph after the scopes `r`, the effects `effs` and the signals `sigs`
/// are gone.
pub open spec fn removed(v: ReactiveView, r: Set<ScopeId>, effs: Set<EffectId>, sigs: Set<SignalId>) -> ReactiveView {
    ReactiveView {
        scopes: v.scopes.remove_keys(r),
        values: v.values.remove_keys(sigs),
        subscribers: purge(v.subscribers, effs, sigs),
        dependencies: v.dependencies.remove_keys(effs),
        effect_scopes: v.effect_scopes.remove_keys(effs),
        ..v
    }
}

/// `scopes` with a fresh, empty scope `id` whose parent is `parent`, and
/// `id` listed among the parent's sub-scopes when the parent exists.
pub open spec fn with_child(scopes: Map<ScopeId, ScopeView>, parent: Option<ScopeId>, id: ScopeId) -> Map<
    ScopeId,
    ScopeView,
> {
    let fresh = scopes.insert(
        id,
        ScopeView { signals: Seq::empty(), effects: Seq::empty(), sub_scopes: Seq::empty(), parent },
    );
    match parent {
        Some(p) => if fresh.contains_key(p) {
            fresh.insert(p, ScopeView { sub_scopes: fresh[p].sub_scopes.push(id), ..fresh[p] })
        } else {
            fresh
        },
        None => fresh,
    }
}

/// `r` is what disposing scope `id` takes away from `scopes`: the scope
/// itself (when it exists) and, transitively, its sub-scopes, and nothing
/// that is not reached from it that way.
pub open spec fn disposal(scopes: Map<ScopeId, ScopeView>, id: ScopeId, r: Set<ScopeId>) -> bool {
    &&& r.finite()
    &&& r.subset_of(scopes.dom())
    &&& scopes.contains_key(id) <==> r.contains(id)
    &&& forall|d: ScopeId, c: ScopeId|
        #![trigger r.contains(d), scopes[d].sub_scopes.contains(c)]
        r.contains(d) && scopes[d].sub_scopes.contains(c) && scopes.contains_key(c) ==> r.contains(c)
    &&& forall|d: ScopeId|
        #![trigger r.contains(d)]
        r.contains(d) ==> d == id || exists|p: ScopeId| #[trigger] r.contains(p) && scopes[p].sub_scopes.contains(d)
}

/// No scope lists among its sub-scopes a scope older than itself (scopes
/// are numbered as they are created, so this rules out cycles).
pub open spec fn scopes_ordered(scopes: Map<ScopeId, ScopeView>) -> bool {
    forall|d: ScopeId, c: ScopeId|
        #![trigger scopes[d].sub_scopes.contains(c)]
        scopes.contains_key(d) && scopes[d].sub_scopes.contains(c) ==> d < c
}

/// In the order `ord`, each scope comes after those of its sub-scopes that
/// are in `r`.
pub open spec fn children_first(scopes: Map<ScopeId, ScopeView>, ord: Seq<ScopeId>, r: Set<ScopeId>) -> bool {
    forall|j: int, c: ScopeId|
        #![trigger scopes[ord[j]].sub_scopes.contains(c)]
        0 <= j < ord.len() && scopes[ord[j]].sub_scopes.contains(c) && r.contains(c)
            ==> exists|i: int| 0 <= i < j && ord[i] == c
}

/// `m` where the effect `e` is added to the subscribers of `s`.
pub open spec fn subscribe(m: Map<SignalId, Set<EffectId>>, s: SignalId, e: EffectId) -> Map<SignalId, Set<EffectId>> {
    if m.contains_key(s) { m.insert(s, m[s].insert(e)) } else { m.insert(s, Set::empty().insert(e)) }
}

proof fn lemma_removed_compose(
    v: ReactiveView,
    r1: Set<ScopeId>,
    e1: Set<EffectId>,
    s1: Set<SignalId>,
    r2: Set<ScopeId>,
    e2: Set<EffectId>,
    s2: Set<SignalId>,
)
    ensures
        removed(removed(v, r1, e1, s1), r2, e2, s2) == removed(v, r1 + r2, e1 + e2, s1 + s2),
{
    let a = removed(removed(v, r1, e1, s1), r2, e2, s2);
    let b = removed(v, r1 + r2, e1 + e2, s1 + s2);
    assert(a.scopes =~= b.scopes);
    assert(a.values =~= b.values);
    assert(a.dependencies =~= b.dependencies);
    assert(a.effect_scopes =~= b.effect_scopes);
    assert forall|k: SignalId| v.subscribers.contains_key(k) implies
        v.subscribers[k].difference(e1).difference(e2) == v.subscribers[k].difference(e1 + e2) by {
        assert(v.subscribers[k].difference(e1).difference(e2) =~= v.subscribers[k].difference(e1 + e2));
    }
    assert forall|k: SignalId| a.subscribers.contains_key(k) == b.subscribers.contains_key(k) by {
        if v.subscribers.contains_key(k) && !s1.contains(k) && !s2.contains(k)
            && v.subscribers[k].difference(e1 + e2) != Set::<EffectId>::empty() {
            assert(v.subscribers[k].difference(e1 + e2).subset_of(v.subscribers[k].difference(e1)));
            if v.subscribers[k].difference(e1) == Set::<EffectId>::empty() {
                assert(v.subscribers[k].difference(e1 + e2) =~= Set::<EffectId>::empty());
            }
        }
    }
    assert(a.subscribers =~= b.subscribers);
}

proof fn lemma_removed_empty(v: ReactiveView)
    requires
        v.wf(),
    ensures
        removed(v, Set::empty(), Set::empty(), Set::empty()) == v,
{
    let a = removed(v, Set::empty(), Set::empty(), Set::empty());
    assert(a.scopes =~= v.scopes);
    assert(a.values =~= v.values);
    assert(a.dependencies =~= v.dependencies);
    assert(a.effect_scopes =~= v.effect_scopes);
    assert forall|k: SignalId| v.subscribers.contains_key(k) implies
        v.subscribers[k].difference(Set::<EffectId>::empty()) == v.subscribers[k] by {
        assert(v.subscribers[k].difference(Set::<EffectId>::empty()) =~= v.subscribers[k]);
    }
    assert(a.subscribers =~= v.subscribers);
}

proof fn lemma_removed_wf(v: ReactiveView, r: Set<ScopeId>, effs: Set<EffectId>, sigs: Set<SignalId>)
    requires
        v.wf(),
    ensures
        removed(v, r, effs, sigs).wf(),
        forall|e: EffectId| #[trigger] effs.contains(e) ==> removed(v, r, effs, sigs).unsubscribed(e),
{
    let n = removed(v, r, effs, sigs);
    assert forall|s: SignalId, f: EffectId|
        n.subscribers.contains_key(s) && n.subscribers[s].contains(f)
        implies n.dependencies.contains_key(f) && n.dependencies[f].contains(s) by {
        assert(v.subscribers[s].contains(f));
    }
}

proof fn lemma_without_effect_as_removed(v: ReactiveView, e: EffectId)
    ensures
        (ReactiveView {
            subscribers: without_effect(v.subscribers, e),
            dependencies: v.dependencies.remove(e),
            effect_scopes: v.effect_scopes.remove(e),
            ..v
        }) == removed(v, Set::empty(), set![e], Set::empty()),
{
    let b = removed(v, Set::empty(), set![e], Set::empty());
    assert(b.scopes =~= v.scopes);
    assert(b.values =~= v.values);
    assert(b.dependencies =~= v.dependencies.remove(e));
    assert(b.effect_scopes =~= v.effect_scopes.remove(e));
    assert forall|k: SignalId| v.subscribers.contains_key(k) implies
        v.subscribers[k].difference(set![e]) == v.subscribers[k].remove(e) by {
        assert(v.subscribers[k].difference(set![e]) =~= v.subscribers[k].remove(e));
    }
    assert(b.subscribers =~= without_effect(v.subscribers, e));
}

proof fn lemma_effects_signals_restrict(scopes: Map<ScopeId, ScopeView>, gone: Set<ScopeId>, r: Set<ScopeId>)
    requires
        r.subset_of(scopes.remove_keys(gone).dom()),
    ensures
        effects_of(scopes.remove_keys(gone), r) == effects_of(scopes, r),
        signals_of(scopes.remove_keys(gone), r) == signals_of(scopes, r),
{
    let m = scopes.remove_keys(gone);
    assert forall|e: EffectId| effects_of(m, r).contains(e) <==> effects_of(scopes, r).contains(e) by {
        if effects_of(m, r).contains(e) {
            let d = choose|d: ScopeId| #[trigger] r.contains(d) && m[d].effects.contains(e);
            assert(m[d] == scopes[d]);
        }
        if effects_of(scopes, r).contains(e) {
            let d = choose|d: ScopeId| #[trigger] r.contains(d) && scopes[d].effects.contains(e);
            assert(m[d] == scopes[d]);
        }
    }
    assert forall|x: SignalId| signals_of(m, r).contains(x) <==> signals_of(scopes, r).contains(x) by {
        if signals_of(m, r).contains(x) {
            let d = choose|d: ScopeId| #[trigger] r.contains(d) && m[d].signals.contains(x);
            assert(m[d] == scopes[d]);
        }
        if signals_of(scopes, r).contains(x) {
            let d = choose|d: ScopeId| #[trigger] r.contains(d) && scopes[d].signals.contains(x);
            assert(m[d] == scopes[d]);
        }
    }
    assert(effects_of(m, r) =~= effects_of(scopes, r));
    assert(signals_of(m, r) =~= signals_of(scopes, r));
}

proof fn lemma_effects_signals_union(scopes: Map<ScopeId, ScopeView>, a: Set<ScopeId>, b: Set<ScopeId>)
    ensures
        effects_of(scopes, a + b) == effects_of(scopes, a) + effects_of(scopes, b),
        signals_of(scopes, a + b) == signals_of(scopes, a) + signals_of(scopes, b),
{
    assert forall|e: EffectId| effects_of(scopes, a + b).contains(e) <==> (effects_of(scopes, a) + effects_of(scopes, b)).contains(e) by {
        if effects_of(scopes, a + b).contains(e) {
            let d = choose|d: ScopeId| #[trigger] (a + b).contains(d) && scopes[d].effects.contains(e);
            if a.contains(d) { assert(effects_of(scopes, a).contains(e)); } else { assert(effects_of(scopes, b).contains(e)); }
        }
        if effects_of(scopes, a).contains(e) {
            let d = choose|d: ScopeId| #[trigger] a.contains(d) && scopes[d].effects.contains(e);
            assert((a + b).contains(d));
        }
        if effects_of(scopes, b).contains(e) {
            let d = choose|d: ScopeId| #[trigger] b.contains(d) && scopes[d].effects.contains(e);
            assert((a + b).contains(d));
        }
    }
    assert forall|x: SignalId| signals_of(scopes, a + b).contains(x) <==> (signals_of(scopes, a) + signals_of(scopes, b)).contains(x) by {
        if signals_of(scopes, a + b).contains(x) {
            let d = choose|d: ScopeId| #[trigger] (a + b).contains(d) && scopes[d].signals.contains(x);
            if a.contains(d) { assert(signals_of(scopes, a).contains(x)); } else { assert(signals_of(scopes, b).contains(x)); }
        }
        if signals_of(scopes, a).contains(x) {
            let d = choose|d: ScopeId| #[trigger] a.contains(d) && scopes[d].signals.contains(x);
            assert((a + b).contains(d));
        }
        if signals_of(scopes, b).contains(x) {
            let d = choose|d: ScopeId| #[trigger] b.contains(d) && scopes[d].signals.contains(x);
            assert((a + b).contains(d));
        }
    }
    assert(effects_of(scopes, a + b) =~= effects_of(scopes, a) + effects_of(scopes, b));
    assert(signals_of(scopes, a + b) =~= signals_of(scopes, a) + signals_of(scopes, b));
}

proof fn lemma_own_effects_signals(scopes: Map<ScopeId, ScopeView>, id: ScopeId)
    ensures
        effects_of(scopes, set![id]) == scopes[id].effects.to_set(),
        signals_of(scopes, set![id]) == scopes[id].signals.to_set(),
{
    assert forall|e: EffectId| effects_of(scopes, set![id]).contains(e) <==> scopes[id].effects.to_set().contains(e) by {
        if scopes[id].effects.contains(e) {
            assert(set![id].contains(id));
        }
    }
    assert forall|x: SignalId| signals_of(scopes, set![id]).contains(x) <==> scopes[id].signals.to_set().contains(x) by {
        if scopes[id].signals.contains(x) {
            assert(set![id].contains(id));
        }
    }
    assert(effects_of(scopes, set![id]) =~= scopes[id].effects.to_set());
    assert(signals_of(scopes, set![id]) =~= scopes[id].signals.to_set());
}

proof fn lemma_prefix_trans<A>(a: Seq<A>, b: Seq<A>, c: Seq<A>)
    requires
        a.is_prefix_of(b),
        b.is_prefix_of(c),
    ensures
        a.is_prefix_of(c),
{
    assert(c.subrange(0, a.len() as int) =~= b.subrange(0, a.len() as int));
}

proof fn lemma_push_to_set<A>(q: Seq<A>, a: A)
    ensures
        q.push(a).to_set() == q.to_set().insert(a),
{
    broadcast use vstd::seq_lib::group_seq_properties;
    assert(q.push(a).to_set() =~= q.to_set().insert(a));
}

proof fn lemma_strip_step(m: Map<SignalId, Set<EffectId>>, e: EffectId, p: Set<SignalId>, s: SignalId)
    ensures
        strip(strip(m, e, p), e, set![s]) == strip(m, e, p.insert(s)),
{
    let a = strip(strip(m, e, p), e, set![s]);
    let b = strip(m, e, p.insert(s));
    assert forall|k: SignalId| a.contains_key(k) == b.contains_key(k) by {
        if k == s && p.contains(s) {
            assert(m[k].remove(e).remove(e) =~= m[k].remove(e));
        }
    }
    assert forall|k: SignalId| a.contains_key(k) implies a[k] == b[k] by {
        if k == s && p.contains(s) {
            assert(m[k].remove(e).remove(e) =~= m[k].remove(e));
        }
    }
    assert(a =~= b);
}

/// When `p` holds every signal whose subscribers include `e`, stripping
/// `e` from `p` strips it from everything.
proof fn lemma_strip_covering(v: ReactiveView, e: EffectId, p: Set<SignalId>)
    requires
        v.wf(),
        v.dependencies.contains_key(e) ==> p == v.dependencies[e],
        !v.dependencies.contains_key(e) ==> p == Set::<SignalId>::empty(),
    ensures
        strip(v.subscribers, e, p) == without_effect(v.subscribers, e),
{
    let a = strip(v.subscribers, e, p);
    let b = without_effect(v.subscribers, e);
    assert forall|k: SignalId| v.subscribers.contains_key(k) && !p.contains(k) implies v.subscribers[k].remove(e) == v.subscribers[k] by {
        if v.subscribers[k].contains(e) {
            assert(v.dependencies.contains_key(e) && v.dependencies[e].contains(k));
        }
        assert(v.subscribers[k].remove(e) =~= v.subscribers[k]);
    }
    assert forall|k: SignalId| a.contains_key(k) == b.contains_key(k) by {
        if v.subscribers.contains_key(k) && !p.contains(k) {
            assert(v.subscribers[k] != Set::<EffectId>::empty());
        }
    }
    assert(a =~= b);
}

/// Removing an effect's subscriptions and dependencies keeps the graph well formed.
proof fn lemma_without_effect_wf(v: ReactiveView, e: EffectId)
    requires
        v.wf(),
    ensures
        (ReactiveView {
            subscribers: without_effect(v.subscribers, e),
            dependencies: v.dependencies.remove(e),
            ..v
        }).wf(),
        (ReactiveView {
            subscribers: without_effect(v.subscribers, e),
            dependencies: v.dependencies.remove(e),
            ..v
        }).unsubscribed(e),
{
    let n = ReactiveView {
        subscribers: without_effect(v.subscribers, e),
        dependencies: v.dependencies.remove(e),
        ..v
    };
    assert forall|s: SignalId, f: EffectId|
        n.subscribers.contains_key(s) && n.subscribers[s].contains(f)
        implies n.dependencies.contains_key(f) && n.dependencies[f].contains(s) by {
        assert(v.subscribers[s].contains(f));
    }
}

/// A copy of a value.
pub fn clone_value(v: &Value) -> (r: Value)
    ensures
        r == *v,
{
    match v {
        Value::Bool(b) => Value::Bool(*b),
        Value::I32(x) => Value::I32(*x),
        Value::U32(x) => Value::U32(*x),
        Value::I64(x) => Value::I64(*x),
        Value::U64(x) => Value::U64(*x),
        Value::Usize(x) => Value::Usize(*x),
        Value::Text(t) => Value::Text(t.clone()),
    }
}

/// The subscribers of `id` as a list without repeats.
fn subscriber_list(subscribers: &HashMap<SignalId, HashSet<EffectId>>, id: SignalId) -> (r: Vec<EffectId>)
    ensures
        r@.to_set() == set_views(subscribers@).get(id).unwrap_or(Set::empty()),
        r@.no_duplicates(),
{
    let mut out: Vec<EffectId> = Vec::new();
    if let Some(subs) = subscribers.get(&id) {
        for e in it: subs.iter()
            invariant
                out@ == it.seq().take(it.index() as int).map_values(|x: &EffectId| *x),
                it.seq() == vstd::std_specs::hash::spec_hash_keys_iter(subs).remaining(),
        {
            out.push(*e);
        }
        proof {
            let seq = vstd::std_specs::hash::spec_hash_keys_iter(subs).remaining();
            assert(seq.take(seq.len() as int) =~= seq);
            assert(out@ =~= seq.unref());
            assert(out@.to_set() =~= subs@);
        }
    } else {
        assert(out@.to_set() =~= Set::<EffectId>::empty());
    }
    out
}

pub open spec fn set_views(m: Map<usize, HashSet<usize>>) -> Map<usize, Set<usize>> {
    Map::new(|k: usize| m.contains_key(k), |k: usize| m[k]@)
}

pub open spec fn scope_views(m: Map<ScopeId, ScopeData>) -> Map<ScopeId, ScopeView> {
    Map::new(|k: ScopeId| m.contains_key(k), |k: ScopeId| m[k].view())
}

/// The reactive graph: signal values, subscriptions, and the scope tree.
struct Graph {
    current_effect: Option<EffectId>,
    current_scope: Option<ScopeId>,
    signals: HashMap<SignalId, Value>,
    subscribers: HashMap<SignalId, HashSet<EffectId>>,
    effect_scopes: HashMap<EffectId, ScopeId>,
    effect_dependencies: HashMap<EffectId, HashSet<SignalId>>,
    scopes: HashMap<ScopeId, ScopeData>,
    next_signal_id: SignalId,
    next_effect_id: EffectId,
    next_scope_id: ScopeId,
}

impl Graph {
    spec fn view(&self) -> ReactiveView {
        ReactiveView {
            current_effect: self.current_effect,
            current_scope: self.current_scope,
            values: self.signals@,
            subscribers: set_views(self.subscribers@),
            dependencies: set_views(self.effect_dependencies@),
            effect_scopes: self.effect_scopes@,
            scopes: scope_views(self.scopes@),
            next_signal_id: self.next_signal_id as nat,
            next_effect_id: self.next_effect_id as nat,
            next_scope_id: self.next_scope_id as nat,
        }
    }

    fn new() -> (g: Graph)
        ensures
            g.view().is_empty(),
            g.view().wf(),
    {
        let g = Graph {
            current_effect: None,
            current_scope: None,
            signals: HashMap::new(),
            subscribers: HashMap::new(),
            effect_scopes: HashMap::new(),
            effect_dependencies: HashMap::new(),
            scopes: HashMap::new(),
            next_signal_id: 0,
            next_effect_id: 0,
            next_scope_id: 0,
        };
        assert(set_views(g.subscribers@) =~= Map::<SignalId, Set<EffectId>>::empty());
        assert(set_views(g.effect_dependencies@) =~= Map::<EffectId, Set<SignalId>>::empty());
        assert(scope_views(g.scopes@) =~= Map::<ScopeId, ScopeView>::empty());
        g
    }

    fn create_signal(&mut self, value: Value) -> (id: SignalId)
        requires
            old(self).view().wf(),
            old(self).next_signal_id < usize::MAX,
        ensures
            final(self).view().wf(),
            id == old(self).view().next_signal_id,
            final(self).view() == (ReactiveView {
                values: old(self).view().values.insert(id, value),
                next_signal_id: old(self).view().next_signal_id + 1,
                scopes: match old(self).view().current_scope {
                    Some(c) => if old(self).view().scopes.contains_key(c) {
                        old(self).view().scopes.insert(c, ScopeView {
                            signals: old(self).view().scopes[c].signals.push(id),
                            ..old(self).view().scopes[c]
                        })
                    } else {
                        old(self).view().scopes
                    },
                    None => old(self).view().scopes,
                },
                ..old(self).view()
            }),
    {
        let id = self.next_signal_id;
        self.next_signal_id = self.next_signal_id + 1;
        self.signals.insert(id, value);
        if let Some(scope_id) = self.current_scope {
            if let Some(mut scope) = self.scopes.remove(&scope_id) {
                scope.signals.push(id);
                self.scopes.insert(scope_id, scope);
            }
        }
        proof {
            let ov = old(self).view();
            let nv = self.view();
            assert(nv.scopes =~= match ov.current_scope {
                Some(c) => if ov.scopes.contains_key(c) {
                    ov.scopes.insert(c, ScopeView { signals: ov.scopes[c].signals.push(id), ..ov.scopes[c] })
                } else { ov.scopes },
                None => ov.scopes,
            });
        }
        id
    }

    /// Reads a signal's value; inside an effect, records the dependency.
    fn read(&mut self, id: SignalId) -> (r: Option<Value>)
        requires
            old(self).view().wf(),
        ensures
            final(self).view().wf(),
            r == old(self).view().values.get(id),
            final(self).view() == (match (old(self).view().current_effect, old(self).view().values.contains_key(id)) {
                (Some(e), true) => ReactiveView {
                    subscribers: subscribe(old(self).view().subscribers, id, e),
                    dependencies: subscribe(old(self).view().dependencies, e, id),
                    ..old(self).view()
                },
                _ => old(self).view(),
            }),
    {
        if let Some(e) = self.current_effect {
            if self.signals.contains_key(&id) {
                let mut subs = match self.subscribers.remove(&id) {
                    Some(set) => set,
                    None => HashSet::new(),
                };
                subs.insert(e);
                self.subscribers.insert(id, subs);
                let mut deps = match self.effect_dependencies.remove(&e) {
                    Some(set) => set,
                    None => HashSet::new(),
                };
                deps.insert(id);
                self.effect_dependencies.insert(e, deps);
                proof {
                    let ov = old(self).view();
                    let nv = self.view();
                    assert(nv.subscribers =~= subscribe(ov.subscribers, id, e));
                    assert(nv.dependencies =~= subscribe(ov.dependencies, e, id));
                    assert forall|s: SignalId| nv.subscribers.contains_key(s) implies nv.subscribers[s] != Set::<EffectId>::empty() by {
                        if s == id {
                            assert(nv.subscribers[s].contains(e));
                        }
                    }
                    assert forall|s: SignalId, f: EffectId|
                        nv.subscribers.contains_key(s) && nv.subscribers[s].contains(f)
                        implies nv.dependencies.contains_key(f) && nv.dependencies[f].contains(s) by {
                        if s == id && f == e {
                        } else if s == id {
                            assert(ov.subscribers[s].contains(f));
                        } else {
                            assert(ov.subscribers[s].contains(f));
                        }
                    }
                    assert forall|f: EffectId| nv.dependencies.contains_key(f) implies f < nv.next_effect_id by {
                        if f != e { assert(ov.dependencies.contains_key(f)); }
                    }
                    assert forall|s: SignalId| nv.subscribers.contains_key(s) implies nv.values.contains_key(s) by {
                        if s != id { assert(ov.subscribers.contains_key(s)); }
                    }
                }
            }
        }
        match self.signals.get(&id) {
            Some(v) => Some(clone_value(v)),
            None => None,
        }
    }

    /// Stores a new value for a signal and returns the effects subscribed to it.
    fn write(&mut self, id: SignalId, value: Value) -> (to_run: Vec<EffectId>)
        requires
            old(self).view().wf(),
            old(self).view().values.contains_key(id) || id < old(self).view().next_signal_id,
        ensures
            final(self).view().wf(),
            final(self).view() == (ReactiveView {
                values: old(self).view().values.insert(id, value),
                ..old(self).view()
            }),
            to_run@.to_set() == old(self).view().subscribers_of(id),
            to_run@.no_duplicates(),
    {
        self.signals.insert(id, value);
        let to_run = subscriber_list(&self.subscribers, id);
        proof {
            assert(self.view().values =~= old(self).view().values.insert(id, value));
        }
        to_run
    }

    /// Forgets every dependency of `e` and takes `e` out of all subscriber sets.
    fn clear_dependencies(&mut self, e: EffectId)
        requires
            old(self).view().wf(),
        ensures
            final(self).view().wf(),
            final(self).view() == (ReactiveView {
                subscribers: without_effect(old(self).view().subscribers, e),
                dependencies: old(self).view().dependencies.remove(e),
                ..old(self).view()
            }),
    {
        let ghost ov = self.view();
        if let Some(deps) = self.effect_dependencies.remove(&e) {
            proof {
                assert(strip(ov.subscribers, e, Set::empty()) =~= ov.subscribers);
                assert(Seq::<SignalId>::empty().to_set() =~= Set::<SignalId>::empty());
                assert(self.view().dependencies =~= ov.dependencies.remove(e));
                assert(self.view().subscribers =~= ov.subscribers);
            }
            let ghost mut done: Set<SignalId> = Set::empty();
            for s in it: deps.iter()
                invariant
                    it.seq() == vstd::std_specs::hash::spec_hash_keys_iter(&deps).remaining(),
                    ov.dependencies.contains_key(e),
                    ov.dependencies[e] == deps@,
                    forall|j: int| 0 <= j < it.index() ==> done.contains(*it.seq()[j]),
                    forall|x: SignalId| done.contains(x) ==> exists|j: int| 0 <= j < it.index() && *it.seq()[j] == x,
                    self.view() == (ReactiveView {
                        subscribers: strip(ov.subscribers, e, done),
                        dependencies: ov.dependencies.remove(e),
                        ..ov
                    }),
            {
                self.unsubscribe(*s, e);
                proof {
                    lemma_strip_step(ov.subscribers, e, done, *s);
                    done = done.insert(*s);
                }
            }
            proof {
                let seq = vstd::std_specs::hash::spec_hash_keys_iter(&deps).remaining();
                assert(seq.unref().to_set() == deps@);
                assert forall|x: SignalId| done.contains(x) <==> deps@.contains(x) by {
                    if deps@.contains(x) {
                        assert(seq.unref().contains(x));
                        let j = choose|j: int| 0 <= j < seq.unref().len() && seq.unref()[j] == x;
                        assert(*seq[j] == x);
                    }
                    if done.contains(x) {
                        let j = choose|j: int| 0 <= j < seq.len() && *seq[j] == x;
                        assert(seq.unref()[j] == x);
                    }
                }
                assert(done =~= deps@);
                lemma_strip_covering(ov, e, deps@);
            }
        } else {
            proof {
                lemma_strip_covering(ov, e, Set::empty());
                assert(strip(ov.subscribers, e, Set::empty()) =~= ov.subscribers);
                assert(ov.dependencies.remove(e) =~= ov.dependencies);
                assert(self.view().dependencies =~= ov.dependencies.remove(e));
            }
        }
        proof {
            lemma_without_effect_wf(ov, e);
        }
    }

    /// Reads a signal's value without recording a dependency.
    fn peek(&self, id: SignalId) -> (r: Option<Value>)
        ensures
            r == self.view().values.get(id),
    {
        match self.signals.get(&id) {
            Some(v) => Some(clone_value(v)),
            None => None,
        }
    }

    /// Allocates a new effect id, registering it with the current scope.
    fn create_effect_entry(&mut self) -> (id: EffectId)
        requires
            old(self).view().wf(),
            old(self).next_effect_id < usize::MAX,
        ensures
            final(self).view().wf(),
            id == old(self).view().next_effect_id,
            final(self).view() == (match old(self).view().current_scope {
                Some(c) => if old(self).view().scopes.contains_key(c) {
                    ReactiveView {
                        next_effect_id: old(self).view().next_effect_id + 1,
                        scopes: old(self).view().scopes.insert(c, ScopeView {
                            effects: old(self).view().scopes[c].effects.push(id),
                            ..old(self).view().scopes[c]
                        }),
                        effect_scopes: old(self).view().effect_scopes.insert(id, c),
                        ..old(self).view()
                    }
                } else {
                    ReactiveView { next_effect_id: old(self).view().next_effect_id + 1, ..old(self).view() }
                },
                None => ReactiveView { next_effect_id: old(self).view().next_effect_id + 1, ..old(self).view() },
            }),
    {
        let id = self.next_effect_id;
        self.next_effect_id = self.next_effect_id + 1;
        if let Some(scope_id) = self.current_scope {
            if let Some(mut scope) = self.scopes.remove(&scope_id) {
                scope.effects.push(id);
                self.scopes.insert(scope_id, scope);
                self.effect_scopes.insert(id, scope_id);
                proof {
                    let ov = old(self).view();
                    assert(self.view().scopes =~= ov.scopes.insert(scope_id, ScopeView {
                        effects: ov.scopes[scope_id].effects.push(id), ..ov.scopes[scope_id] }));
                }
            }
        }
        proof {
            let ov = old(self).view();
            assert(self.view().scopes.dom() =~= ov.scopes.dom());
            if !(ov.current_scope is Some && ov.scopes.contains_key(ov.current_scope->0)) {
                assert(self.view().scopes =~= ov.scopes);
            }
        }
        id
    }

    /// Enters effect `id`: it becomes the current effect (and its scope the
    /// current scope), and its old dependencies are forgotten so that they
    /// are tracked afresh while it runs.  Returns the context to restore.
    fn begin_effect(&mut self, id: EffectId) -> (prev: (Option<EffectId>, Option<ScopeId>))
        requires
            old(self).view().wf(),
            id < old(self).view().next_effect_id,
        ensures
            final(self).view().wf(),
            final(self).view().unsubscribed(id),
            prev == (old(self).view().current_effect, old(self).view().current_scope),
            final(self).view() == (ReactiveView {
                current_effect: Some(id),
                current_scope: if old(self).view().effect_scopes.contains_key(id) {
                    Some(old(self).view().effect_scopes[id])
                } else {
                    old(self).view().current_scope
                },
                subscribers: without_effect(old(self).view().subscribers, id),
                dependencies: old(self).view().dependencies.remove(id),
                ..old(self).view()
            }),
    {
        let prev = (self.current_effect, self.current_scope);
        let scope = match self.effect_scopes.get(&id) {
            Some(s) => Some(*s),
            None => None,
        };
        self.current_effect = Some(id);
        if let Some(s) = scope {
            self.current_scope = Some(s);
        }
        let ghost mid = self.view();
        self.clear_dependencies(id);
        proof {
            lemma_without_effect_wf(mid, id);
        }
        prev
    }

    /// Restores the context saved by `begin_effect`.  An effect id that no
    /// longer exists (the graph was reset meanwhile) is not restored.
    fn end_effect(&mut self, prev: (Option<EffectId>, Option<ScopeId>))
        requires
            old(self).view().wf(),
        ensures
            final(self).view().wf(),
            final(self).view() == (ReactiveView {
                current_effect: match prev.0 {
                    Some(e) => if e < old(self).view().next_effect_id { Some(e) } else { None },
                    None => None,
                },
                current_scope: prev.1,
                ..old(self).view()
            }),
    {
        self.current_effect = match prev.0 {
            Some(e) => if e < self.next_effect_id { Some(e) } else { None },
            None => None,
        };
        self.current_scope = prev.1;
    }

    /// Opens a new scope as a child of the current one and makes it current.
    /// Returns the new scope and the scope to restore afterwards.
    fn enter_scope(&mut self) -> (r: (ScopeId, Option<ScopeId>))
        requires
            old(self).view().wf(),
            old(self).next_scope_id < usize::MAX,
        ensures
            final(self).view().wf(),
            r.0 == old(self).view().next_scope_id,
            r.1 == old(self).view().current_scope,
            final(self).view() == (ReactiveView {
                current_scope: Some(r.0),
                next_scope_id: old(self).view().next_scope_id + 1,
                scopes: with_child(old(self).view().scopes, old(self).view().current_scope, r.0),
                ..old(self).view()
            }),
    {
        let id = self.next_scope_id;
        self.next_scope_id = self.next_scope_id + 1;
        let parent = self.current_scope;
        self.scopes.insert(id, ScopeData {
            signals: Vec::new(),
            effects: Vec::new(),
            sub_scopes: Vec::new(),
            parent,
        });
        let ghost mid = self.view();
        if let Some(p) = parent {
            if let Some(mut pdata) = self.scopes.remove(&p) {
                pdata.sub_scopes.push(id);
                self.scopes.insert(p, pdata);
            }
        }
        let prev = self.current_scope;
        self.current_scope = Some(id);
        proof {
            let ov = old(self).view();
            assert(self.view().scopes =~= with_child(ov.scopes, parent, id));
        }
        (id, prev)
    }

    /// Makes `prev` the current scope again.
    fn leave_scope(&mut self, prev: Option<ScopeId>)
        requires
            old(self).view().wf(),
        ensures
            final(self).view().wf(),
            final(self).view() == (ReactiveView { current_scope: prev, ..old(self).view() }),
    {
        self.current_scope = prev;
    }

    /// The number of signals that have at least one subscriber.
    fn subscriber_count(&self) -> (n: usize)
        ensures
            n == self.view().subscribers.dom().len(),
    {
        proof {
            assert(self.view().subscribers.dom() =~= self.subscribers@.dom());
        }
        self.subscribers.len()
    }

    /// Forgets effect `e`: its scope entry, its dependencies, its subscriptions.
    fn remove_effect(&mut self, e: EffectId)
        requires
            old(self).view().wf(),
        ensures
            final(self).view().wf(),
            final(self).view() == removed(old(self).view(), Set::empty(), set![e], Set::empty()),
    {
        let ghost ov = self.view();
        self.effect_scopes.remove(&e);
        let ghost mid = self.view();
        proof {
            assert(mid.effect_scopes =~= ov.effect_scopes.remove(e));
        }
        self.clear_dependencies(e);
        proof {
            lemma_without_effect_as_removed(ov, e);
            lemma_removed_wf(ov, Set::empty(), set![e], Set::empty());
        }
    }

    /// Forgets signal `s`: its value and its subscriber entry.
    fn remove_signal(&mut self, s: SignalId)
        requires
            old(self).view().wf(),
        ensures
            final(self).view().wf(),
            final(self).view() == removed(old(self).view(), Set::empty(), Set::empty(), set![s]),
    {
        let ghost ov = self.view();
        self.signals.remove(&s);
        self.subscribers.remove(&s);
        proof {
            let b = removed(ov, Set::empty(), Set::empty(), set![s]);
            assert(b.scopes =~= ov.scopes);
            assert(b.dependencies =~= ov.dependencies);
            assert(b.effect_scopes =~= ov.effect_scopes);
            assert(b.values =~= self.view().values);
            assert forall|k: SignalId| ov.subscribers.contains_key(k) implies
                ov.subscribers[k].difference(Set::<EffectId>::empty()) == ov.subscribers[k] by {
                assert(ov.subscribers[k].difference(Set::<EffectId>::empty()) =~= ov.subscribers[k]);
            }
            assert(b.subscribers =~= self.view().subscribers);
            lemma_removed_wf(ov, Set::empty(), Set::empty(), set![s]);
        }
    }

    /// Disposes scope `id` and, before it, its sub-scopes; their effects and
    /// signals are forgotten.  Appends to `out`, children first, each
    /// disposed scope with the effects it owned.  Returns the disposed scopes.
    fn dispose_scope(&mut self, id: ScopeId, out: &mut Vec<(ScopeId, Vec<EffectId>)>) -> (r: Ghost<Set<ScopeId>>)
        requires
            old(self).view().wf(),
        ensures
            final(self).view().wf(),
            disposal(old(self).view().scopes, id, r@),
            final(self).view() == removed(
                old(self).view(),
                r@,
                effects_of(old(self).view().scopes, r@),
                signals_of(old(self).view().scopes, r@),
            ),
            final(out)@.len() >= old(out)@.len(),
            final(out)@.subrange(0, old(out)@.len() as int) == old(out)@,
            forall|j: int| old(out)@.len() <= j < final(out)@.len() ==> r@.contains(#[trigger] final(out)@[j].0)
                && final(out)@[j].1@ == old(self).view().scopes[final(out)@[j].0].effects,
            forall|d: ScopeId| #[trigger] r@.contains(d) ==> exists|j: int|
                old(out)@.len() <= j < final(out)@.len() && #[trigger] final(out)@[j].0 == d,
            old(self).view().scopes.contains_key(id) ==> {
                &&& final(out)@.len() > old(out)@.len()
                &&& final(out)@.last().0 == id
                &&& forall|j: int| old(out)@.len() <= j < final(out)@.len() - 1 ==> (#[trigger] final(out)@[j]).0 != id
            },
            scopes_ordered(old(self).view().scopes) ==> {
                &&& forall|d: ScopeId| #[trigger] r@.contains(d) ==> id <= d
                &&& forall|j: int, c: ScopeId|
                    #![trigger old(self).view().scopes[final(out)@[j].0].sub_scopes.contains(c)]
                    old(out)@.len() <= j < final(out)@.len() && old(self).view().scopes[final(out)@[j].0].sub_scopes.contains(c)
                        && r@.contains(c) ==> exists|i: int| old(out)@.len() <= i < j && #[trigger] final(out)@[i].0 == c
            },
        decreases old(self).scopes@.dom().len(),
    {
        let ghost ov = self.view();
        let ghost out0 = out@;
        proof {
            assert(ov.scopes.dom() =~= self.scopes@.dom());
            assert(self.scopes@.dom().finite());
        }
        match self.scopes.remove(&id) {
            None => {
                proof {
                    lemma_removed_empty(ov);
                    assert(effects_of(ov.scopes, Set::empty()) =~= Set::<EffectId>::empty());
                    assert(signals_of(ov.scopes, Set::empty()) =~= Set::<SignalId>::empty());
                    assert(self.view().scopes =~= ov.scopes);
                    assert(out@.subrange(0, out0.len() as int) =~= out0);
                }
                Ghost(Set::empty())
            },
            Some(data) => {
                let ghost mut acc: Set<ScopeId> = Set::empty();
                proof {
                    assert(data.view() == ov.scopes[id]);
                    lemma_removed_empty(ov);
                    assert(effects_of(ov.scopes, Set::empty()) =~= Set::<EffectId>::empty());
                    assert(signals_of(ov.scopes, Set::empty()) =~= Set::<SignalId>::empty());
                    let b = removed(ov, set![id], Set::empty(), Set::empty());
                    assert(b.scopes =~= self.view().scopes);
                    assert(b.values =~= ov.values);
                    assert(b.dependencies =~= ov.dependencies);
                    assert(b.effect_scopes =~= ov.effect_scopes);
                    assert(b.subscribers =~= ov.subscribers) by {
                        assert forall|k: SignalId| ov.subscribers.contains_key(k) implies
                            ov.subscribers[k].difference(Set::<EffectId>::empty()) == ov.subscribers[k] by {
                            assert(ov.subscribers[k].difference(Set::<EffectId>::empty()) =~= ov.subscribers[k]);
                        }
                    }
                    lemma_removed_wf(ov, set![id], Set::empty(), Set::empty());
                    assert(acc.insert(id) =~= set![id]);
                    assert(out@.subrange(0, out0.len() as int) =~= out0);
                }
                let mut i: usize = 0;
                while i < data.sub_scopes.len()
                    invariant
                        ov.wf(),
                        ov.scopes.dom() == old(self).scopes@.dom(),
                        ov.scopes.dom().finite(),
                        ov.scopes.contains_key(id),
                        data.view() == ov.scopes[id],
                        i <= data.sub_scopes.len(),
                        acc.finite(),
                        !acc.contains(id),
                        acc.subset_of(ov.scopes.dom()),
                        self.view().wf(),
                        self.view() == removed(ov, acc.insert(id), effects_of(ov.scopes, acc), signals_of(ov.scopes, acc)),
                        forall|k: int| 0 <= k < i && ov.scopes.contains_key(#[trigger] data.sub_scopes@[k]) ==> acc.insert(id).contains(data.sub_scopes@[k]),
                        forall|d: ScopeId, c: ScopeId|
                            #![trigger acc.contains(d), ov.scopes[d].sub_scopes.contains(c)]
                            acc.contains(d) && ov.scopes[d].sub_scopes.contains(c) && ov.scopes.contains_key(c) ==> acc.insert(id).contains(c),
                        forall|d: ScopeId|
                            #![trigger acc.contains(d)]
                            acc.contains(d) ==> exists|p: ScopeId| #[trigger] acc.insert(id).contains(p) && ov.scopes[p].sub_scopes.contains(d),
                        out@.len() >= out0.len(),
                        out@.subrange(0, out0.len() as int) == out0,
                        forall|j: int| out0.len() <= j < out@.len() ==> acc.contains(#[trigger] out@[j].0)
                            && out@[j].1@ == ov.scopes[out@[j].0].effects,
                        forall|d: ScopeId| #[trigger] acc.contains(d) ==> exists|j: int|
                            out0.len() <= j < out@.len() && #[trigger] out@[j].0 == d,
                        scopes_ordered(ov.scopes) ==> forall|d: ScopeId| #[trigger] acc.contains(d) ==> id < d,
                        scopes_ordered(ov.scopes) ==> forall|j: int, c: ScopeId|
                            #![trigger ov.scopes[out@[j].0].sub_scopes.contains(c)]
                            out0.len() <= j < out@.len() && ov.scopes[out@[j].0].sub_scopes.contains(c) && acc.contains(c)
                                ==> exists|ii: int| out0.len() <= ii < j && #[trigger] out@[ii].0 == c,
                    decreases data.sub_scopes.len() - i,
                {
                    let sub = data.sub_scopes[i];
                    let ghost before = self.view();
                    let ghost out_before = out@;
                    proof {
                        assert(self.scopes@.dom() =~= before.scopes.dom());
                        assert(before.scopes.dom() =~= ov.scopes.dom().difference(acc.insert(id)));
                        assert(before.scopes.dom().subset_of(ov.scopes.dom().remove(id)));
                        vstd::set_lib::lemma_len_subset(before.scopes.dom(), ov.scopes.dom().remove(id));
                        assert(self.scopes@.dom().len() < old(self).scopes@.dom().len());
                    }
                    let rc = self.dispose_scope(sub, out);
                    proof {
                        let a = acc.insert(id);
                        lemma_effects_signals_restrict(ov.scopes, a, rc@);
                        lemma_removed_compose(ov, a, effects_of(ov.scopes, acc), signals_of(ov.scopes, acc),
                            rc@, effects_of(before.scopes, rc@), signals_of(before.scopes, rc@));
                        lemma_effects_signals_union(ov.scopes, acc, rc@);
                        assert(a + rc@ =~= (acc + rc@).insert(id));
                        // sub-scope bookkeeping
                        assert forall|k: int| 0 <= k < i + 1 && ov.scopes.contains_key(#[trigger] data.sub_scopes@[k])
                            implies (acc + rc@).insert(id).contains(data.sub_scopes@[k]) by {
                            if k == i as int {
                                if !before.scopes.contains_key(sub) {
                                    assert(a.contains(sub));
                                }
                            }
                        }
                        assert forall|d: ScopeId, c: ScopeId|
                            (acc + rc@).contains(d) && ov.scopes[d].sub_scopes.contains(c) && ov.scopes.contains_key(c)
                            implies (acc + rc@).insert(id).contains(c) by {
                            if rc@.contains(d) {
                                assert(before.scopes[d] == ov.scopes[d]);
                                if !before.scopes.contains_key(c) {
                                    assert(a.contains(c));
                                } else {
                                    assert(rc@.contains(c));
                                }
                            } else {
                                assert(acc.contains(d));
                            }
                        }
                        assert forall|d: ScopeId| (acc + rc@).contains(d)
                            implies exists|p: ScopeId| #[trigger] (acc + rc@).insert(id).contains(p) && ov.scopes[p].sub_scopes.contains(d) by {
                            if rc@.contains(d) {
                                if d == sub {
                                    assert(ov.scopes[id].sub_scopes.contains(d));
                                    assert((acc + rc@).insert(id).contains(id));
                                } else {
                                    let p = choose|p: ScopeId| #[trigger] rc@.contains(p) && before.scopes[p].sub_scopes.contains(d);
                                    assert(before.scopes[p] == ov.scopes[p]);
                                    assert((acc + rc@).insert(id).contains(p));
                                }
                            } else {
                                let p = choose|p: ScopeId| #[trigger] acc.insert(id).contains(p) && ov.scopes[p].sub_scopes.contains(d);
                                assert((acc + rc@).insert(id).contains(p));
                            }
                        }
                        assert forall|j: int| out0.len() <= j < out@.len() implies (acc + rc@).contains(#[trigger] out@[j].0)
                            && out@[j].1@ == ov.scopes[out@[j].0].effects by {
                            if j < out_before.len() {
                                assert(out@[j] == out_before[j]) by {
                                    assert(out@.subrange(0, out_before.len() as int)[j] == out_before[j]);
                                }
                            } else {
                                assert(before.scopes[out@[j].0] == ov.scopes[out@[j].0]);
                            }
                        }
                        assert forall|d: ScopeId| #[trigger] (acc + rc@).contains(d) implies exists|j: int|
                            out0.len() <= j < out@.len() && #[trigger] out@[j].0 == d by {
                            if acc.contains(d) {
                                let j = choose|j: int| out0.len() <= j < out_before.len() && #[trigger] out_before[j].0 == d;
                                assert(out@.subrange(0, out_before.len() as int)[j] == out_before[j]);
                                assert(out@[j].0 == d);
                            }
                        }
                        assert(out@.subrange(0, out0.len() as int) =~= out0) by {
                            assert(out@.subrange(0, out_before.len() as int) == out_before);
                            assert forall|j: int| 0 <= j < out0.len() implies out@[j] == out0[j] by {
                                assert(out@.subrange(0, out_before.len() as int)[j] == out_before[j]);
                                assert(out_before.subrange(0, out0.len() as int)[j] == out0[j]);
                            }
                        }
                        if scopes_ordered(ov.scopes) {
                            assert(ov.scopes[id].sub_scopes.contains(sub));
                            assert(id < sub);
                            assert(scopes_ordered(before.scopes)) by {
                                assert forall|d: ScopeId, c: ScopeId|
                                    before.scopes.contains_key(d) && #[trigger] before.scopes[d].sub_scopes.contains(c) implies d < c by {
                                    assert(before.scopes[d] == ov.scopes[d]);
                                }
                            }
                            assert forall|d: ScopeId| #[trigger] (acc + rc@).contains(d) implies id < d by {
                                if rc@.contains(d) {
                                    assert(sub <= d);
                                }
                            }
                            assert forall|j: int, c: ScopeId|
                                out0.len() <= j < out@.len() && #[trigger] ov.scopes[out@[j].0].sub_scopes.contains(c) && (acc + rc@).contains(c)
                                implies exists|ii: int| out0.len() <= ii < j && #[trigger] out@[ii].0 == c by {
                                if j < out_before.len() {
                                    assert(out@[j] == out_before[j]) by {
                                        assert(out@.subrange(0, out_before.len() as int)[j] == out_before[j]);
                                    }
                                    let d = out@[j].0;
                                    assert(acc.contains(d));
                                    if acc.contains(c) {
                                        let ii = choose|ii: int| out0.len() <= ii < j && #[trigger] out_before[ii].0 == c;
                                        assert(out@.subrange(0, out_before.len() as int)[ii] == out_before[ii]);
                                        assert(out@[ii].0 == c);
                                    } else {
                                        assert(ov.scopes.contains_key(c));
                                        assert(acc.insert(id).contains(c));
                                        assert(c == id);
                                        assert(id < d);
                                        assert(ov.scopes.contains_key(d));
                                        assert(d < c);
                                    }
                                } else {
                                    let d = out@[j].0;
                                    assert(rc@.contains(d));
                                    assert(before.scopes[d] == ov.scopes[d]);
                                    if rc@.contains(c) {
                                        assert(before.scopes[out@[j].0].sub_scopes.contains(c));
                                    } else {
                                        assert(acc.contains(c));
                                        let ii = choose|ii: int| out0.len() <= ii < out_before.len() && #[trigger] out_before[ii].0 == c;
                                        assert(out@.subrange(0, out_before.len() as int)[ii] == out_before[ii]);
                                        assert(out@[ii].0 == c);
                                    }
                                }
                            }
                        }
                        acc = acc + rc@;
                    }
                    i = i + 1;
                }
                let ghost a = acc.insert(id);
                let ghost mut effs: Set<EffectId> = effects_of(ov.scopes, acc);
                let mut j: usize = 0;
                while j < data.effects.len()
                    invariant
                        ov.wf(),
                        data.view() == ov.scopes[id],
                        j <= data.effects.len(),
                        effs == effects_of(ov.scopes, acc) + data.effects@.take(j as int).to_set(),
                        self.view().wf(),
                        self.view() == removed(ov, a, effs, signals_of(ov.scopes, acc)),
                    decreases data.effects.len() - j,
                {
                    let ghost before = self.view();
                    self.remove_effect(data.effects[j]);
                    proof {
                        lemma_removed_compose(ov, a, effs, signals_of(ov.scopes, acc), Set::empty(), set![data.effects@[j as int]], Set::empty());
                        assert(a + Set::empty() =~= a);
                        assert(signals_of(ov.scopes, acc) + Set::empty() =~= signals_of(ov.scopes, acc));
                        assert(data.effects@.take(j + 1) =~= data.effects@.take(j as int).push(data.effects@[j as int]));
                        lemma_push_to_set(data.effects@.take(j as int), data.effects@[j as int]);
                        assert(effs + set![data.effects@[j as int]] =~= effects_of(ov.scopes, acc) + data.effects@.take(j + 1).to_set());
                        effs = effs + set![data.effects@[j as int]];
                    }
                    j = j + 1;
                }
                let ghost mut sigs: Set<SignalId> = signals_of(ov.scopes, acc);
                let mut k: usize = 0;
                while k < data.signals.len()
                    invariant
                        ov.wf(),
                        data.view() == ov.scopes[id],
                        k <= data.signals.len(),
                        sigs == signals_of(ov.scopes, acc) + data.signals@.take(k as int).to_set(),
                        self.view().wf(),
                        self.view() == removed(ov, a, effs, sigs),
                    decreases data.signals.len() - k,
                {
                    self.remove_signal(data.signals[k]);
                    proof {
                        lemma_removed_compose(ov, a, effs, sigs, Set::empty(), Set::empty(), set![data.signals@[k as int]]);
                        assert(a + Set::empty() =~= a);
                        assert(effs + Set::empty() =~= effs);
                        assert(data.signals@.take(k + 1) =~= data.signals@.take(k as int).push(data.signals@[k as int]));
                        lemma_push_to_set(data.signals@.take(k as int), data.signals@[k as int]);
                        assert(sigs + set![data.signals@[k as int]] =~= signals_of(ov.scopes, acc) + data.signals@.take(k + 1).to_set());
                        sigs = sigs + set![data.signals@[k as int]];
                    }
                    k = k + 1;
                }
                let ghost out_before = out@;
                out.push((id, data.effects));
                proof {
                    assert(data.effects@.take(data.effects@.len() as int) =~= data.effects@);
                    assert(data.signals@.take(data.signals@.len() as int) =~= data.signals@);
                    lemma_effects_signals_union(ov.scopes, acc, set![id]);
                    assert(acc + set![id] =~= a);
                    lemma_own_effects_signals(ov.scopes, id);
                    assert forall|d: ScopeId, c: ScopeId|
                        #![trigger a.contains(d), ov.scopes[d].sub_scopes.contains(c)]
                        a.contains(d) && ov.scopes[d].sub_scopes.contains(c) && ov.scopes.contains_key(c) implies a.contains(c) by {
                        if d == id {
                            let kk = choose|kk: int| 0 <= kk < data.sub_scopes@.len() && data.sub_scopes@[kk] == c;
                            assert(ov.scopes.contains_key(data.sub_scopes@[kk]));
                        }
                    }
                    assert forall|d: ScopeId| #[trigger] a.contains(d) implies d == id || exists|p: ScopeId| #[trigger] a.contains(p) && ov.scopes[p].sub_scopes.contains(d) by {
                        if d != id {
                            let p = choose|p: ScopeId| #[trigger] acc.insert(id).contains(p) && ov.scopes[p].sub_scopes.contains(d);
                            assert(a.contains(p));
                        }
                    }
                    assert(out@.subrange(0, out0.len() as int) =~= out0) by {
                        assert forall|jj: int| 0 <= jj < out0.len() implies out@[jj] == out0[jj] by {
                            assert(out_before.subrange(0, out0.len() as int)[jj] == out0[jj]);
                        }
                    }
                    assert forall|d: ScopeId| #[trigger] a.contains(d) implies exists|jj: int|
                        out0.len() <= jj < out@.len() && #[trigger] out@[jj].0 == d by {
                        if d == id {
                            assert(out@[out@.len() - 1].0 == id);
                        } else {
                            let jj = choose|jj: int| out0.len() <= jj < out_before.len() && #[trigger] out_before[jj].0 == d;
                            assert(out@[jj].0 == d);
                        }
                    }
                    assert forall|jj: int| out0.len() <= jj < out@.len() implies a.contains(#[trigger] out@[jj].0)
                        && out@[jj].1@ == ov.scopes[out@[jj].0].effects by {
                        if jj < out_before.len() {
                            assert(out@[jj] == out_before[jj]);
                        }
                    }
                    assert forall|jj: int| out0.len() <= jj < out@.len() - 1 implies (#[trigger] out@[jj]).0 != id by {
                        assert(out@[jj] == out_before[jj]);
                        assert(acc.contains(out_before[jj].0));
                    }
                    if scopes_ordered(ov.scopes) {
                        assert forall|j: int, c: ScopeId|
                            out0.len() <= j < out@.len() && #[trigger] ov.scopes[out@[j].0].sub_scopes.contains(c) && a.contains(c)
                            implies exists|ii: int| out0.len() <= ii < j && #[trigger] out@[ii].0 == c by {
                            if j < out_before.len() {
                                assert(out@[j] == out_before[j]);
                                let d = out@[j].0;
                                assert(acc.contains(d));
                                assert(ov.scopes.contains_key(d));
                                if c == id {
                                    assert(id < d);
                                    assert(d < c);
                                } else {
                                    assert(acc.contains(c));
                                    let ii = choose|ii: int| out0.len() <= ii < j && #[trigger] out_before[ii].0 == c;
                                    assert(out@[ii] == out_before[ii]);
                                }
                            } else {
                                assert(out@[j].0 == id);
                                assert(id < c);
                                assert(acc.contains(c));
                                let ii = choose|ii: int| out0.len() <= ii < out_before.len() && #[trigger] out_before[ii].0 == c;
                                assert(out@[ii] == out_before[ii]);
                            }
                        }
                    }
                }
                Ghost(a)
            },
        }
    }

    /// Forgets everything: the state right after `new`.
    fn reset(&mut self)
        ensures
            final(self).view().is_empty(),
            final(self).view().wf(),
    {
        self.current_effect = None;
        self.current_scope = None;
        self.signals.clear();
        self.subscribers.clear();
        self.effect_scopes.clear();
        self.effect_dependencies.clear();
        self.scopes.clear();
        self.next_signal_id = 0;
        self.next_effect_id = 0;
        self.next_scope_id = 0;
        proof {
            assert(self.view().subscribers =~= Map::<SignalId, Set<EffectId>>::empty());
            assert(self.view().dependencies =~= Map::<EffectId, Set<SignalId>>::empty());
            assert(self.view().scopes =~= Map::<ScopeId, ScopeView>::empty());
        }
    }

    /// Takes `e` out of the subscribers of `s`, dropping the entry once empty.
    fn unsubscribe(&mut self, s: SignalId, e: EffectId)
        ensures
            final(self).view() == (ReactiveView {
                subscribers: strip(old(self).view().subscribers, e, set![s]),
                ..old(self).view()
            }),
    {
        if let Some(mut subs) = self.subscribers.remove(&s) {
            subs.remove(&e);
            if !subs.is_empty() {
                self.subscribers.insert(s, subs);
            }
        }
        proof {
            assert(self.view().subscribers =~= strip(old(self).view().subscribers, e, set![s]));
        }
    }
}

/// The reactive graph, kept well formed at all times.
pub struct Core {
    graph: Graph,
}

impl Core {
    #[verifier::type_invariant]
    spec fn inv(self) -> bool {
        self.graph.view().wf()
    }

    pub closed spec fn view(&self) -> ReactiveView {
        self.graph.view()
    }

    pub fn new() -> (c: Core)
        ensures
            c.view().is_empty(),
    {
        Core { graph: Graph::new() }
    }

    fn take(&mut self) -> (g: Graph)
        ensures
            g.view() == old(self).view(),
            g.view().wf(),
    {
        proof { use_type_invariant(&*self); }
        let mut g = Graph::new();
        std::mem::swap(&mut g, &mut self.graph);
        g
    }

    pub fn reset(&mut self)
        ensures
            final(self).view().is_empty(),
    {
        let mut g = self.take();
        g.reset();
        self.graph = g;
    }

    /// The graph is always well formed.
    pub fn check_wf(&self)
        ensures
            self.view().wf(),
    {
        proof { use_type_invariant(self); }
    }

    pub fn next_effect_id(&self) -> (n: EffectId)
        ensures
            n == self.view().next_effect_id,
    {
        self.graph.next_effect_id
    }

    pub fn next_signal_id(&self) -> (n: SignalId)
        ensures
            n == self.view().next_signal_id,
    {
        self.graph.next_signal_id
    }

    pub fn create_signal(&mut self, value: Value) -> (id: SignalId)
        requires
            old(self).view().next_signal_id < usize::MAX,
        ensures
            id == old(self).view().next_signal_id,
            final(self).view() == (ReactiveView {
                values: old(self).view().values.insert(id, value),
                next_signal_id: old(self).view().next_signal_id + 1,
                scopes: match old(self).view().current_scope {
                    Some(c) => if old(self).view().scopes.contains_key(c) {
                        old(self).view().scopes.insert(c, ScopeView {
                            signals: old(self).view().scopes[c].signals.push(id),
                            ..old(self).view().scopes[c]
                        })
                    } else {
                        old(self).view().scopes
                    },
                    None => old(self).view().scopes,
                },
                ..old(self).view()
            }),
    {
        let mut g = self.take();
        let id = g.create_signal(value);
        self.graph = g;
        id
    }

    pub fn read(&mut self, id: SignalId) -> (r: Option<Value>)
        ensures
            r == old(self).view().values.get(id),
            final(self).view() == (match (old(self).view().current_effect, old(self).view().values.contains_key(id)) {
                (Some(e), true) => ReactiveView {
                    subscribers: subscribe(old(self).view().subscribers, id, e),
                    dependencies: subscribe(old(self).view().dependencies, e, id),
                    ..old(self).view()
                },
                _ => old(self).view(),
            }),
    {
        let mut g = self.take();
        let r = g.read(id);
        self.graph = g;
        r
    }

    pub fn peek(&self, id: SignalId) -> (r: Option<Value>)
        ensures
            r == self.view().values.get(id),
    {
        self.graph.peek(id)
    }

    pub fn write(&mut self, id: SignalId, value: Value) -> (to_run: Vec<EffectId>)
        requires
            old(self).view().values.contains_key(id) || id < old(self).view().next_signal_id,
        ensures
            final(self).view() == (ReactiveView {
                values: old(self).view().values.insert(id, value),
                ..old(self).view()
            }),
            to_run@.to_set() == old(self).view().subscribers_of(id),
            to_run@.no_duplicates(),
    {
        let mut g = self.take();
        let r = g.write(id, value);
        self.graph = g;
        r
    }

    pub fn create_effect_entry(&mut self) -> (id: EffectId)
        requires
            old(self).view().next_effect_id < usize::MAX,
        ensures
            id == old(self).view().next_effect_id,
            final(self).view() == (match old(self).view().current_scope {
                Some(c) => if old(self).view().scopes.contains_key(c) {
                    ReactiveView {
                        next_effect_id: old(self).view().next_effect_id + 1,
                        scopes: old(self).view().scopes.insert(c, ScopeView {
                            effects: old(self).view().scopes[c].effects.push(id),
                            ..old(self).view().scopes[c]
                        }),
                        effect_scopes: old(self).view().effect_scopes.insert(id, c),
                        ..old(self).view()
                    }
                } else {
                    ReactiveView { next_effect_id: old(self).view().next_effect_id + 1, ..old(self).view() }
                },
                None => ReactiveView { next_effect_id: old(self).view().next_effect_id + 1, ..old(self).view() },
            }),
    {
        let mut g = self.take();
        let r = g.create_effect_entry();
        self.graph = g;
        r
    }

    pub fn begin_effect(&mut self, id: EffectId) -> (prev: (Option<EffectId>, Option<ScopeId>))
        requires
            id < old(self).view().next_effect_id,
        ensures
            final(self).view().unsubscribed(id),
            prev == (old(self).view().current_effect, old(self).view().current_scope),
            final(self).view() == (ReactiveView {
                current_effect: Some(id),
                current_scope: if old(self).view().effect_scopes.contains_key(id) {
                    Some(old(self).view().effect_scopes[id])
                } else {
                    old(self).view().current_scope
                },
                subscribers: without_effect(old(self).view().subscribers, id),
                dependencies: old(self).view().dependencies.remove(id),
                ..old(self).view()
            }),
    {
        let mut g = self.take();
        let r = g.begin_effect(id);
        self.graph = g;
        r
    }

    pub fn end_effect(&mut self, prev: (Option<EffectId>, Option<ScopeId>))
        ensures
            final(self).view() == (ReactiveView {
                current_effect: match prev.0 {
                    Some(e) => if e < old(self).view().next_effect_id { Some(e) } else { None },
                    None => None,
                },
                current_scope: prev.1,
                ..old(self).view()
            }),
    {
        let mut g = self.take();
        g.end_effect(prev);
        self.graph = g;
    }

    pub fn enter_scope(&mut self) -> (r: (ScopeId, Option<ScopeId>))
        requires
            old(self).view().next_scope_id < usize::MAX,
        ensures
            r.0 == old(self).view().next_scope_id,
            r.1 == old(self).view().current_scope,
            final(self).view() == (ReactiveView {
                current_scope: Some(r.0),
                next_scope_id: old(self).view().next_scope_id + 1,
                scopes: with_child(old(self).view().scopes, old(self).view().current_scope, r.0),
                ..old(self).view()
            }),
    {
        let mut g = self.take();
        let r = g.enter_scope();
        self.graph = g;
        r
    }

    pub fn leave_scope(&mut self, prev: Option<ScopeId>)
        ensures
            final(self).view() == (ReactiveView { current_scope: prev, ..old(self).view() }),
    {
        let mut g = self.take();
        g.leave_scope(prev);
        self.graph = g;
    }

    pub fn dispose_scope(&mut self, id: ScopeId, out: &mut Vec<(ScopeId, Vec<EffectId>)>) -> (r: Ghost<Set<ScopeId>>)
        ensures
            disposal(old(self).view().scopes, id, r@),
            final(self).view() == removed(
                old(self).view(),
                r@,
                effects_of(old(self).view().scopes, r@),
                signals_of(old(self).view().scopes, r@),
            ),
            final(out)@.len() >= old(out)@.len(),
            final(out)@.subrange(0, old(out)@.len() as int) == old(out)@,
            forall|j: int| old(out)@.len() <= j < final(out)@.len() ==> r@.contains(#[trigger] final(out)@[j].0)
                && final(out)@[j].1@ == old(self).view().scopes[final(out)@[j].0].effects,
            forall|d: ScopeId| #[trigger] r@.contains(d) ==> exists|j: int|
                old(out)@.len() <= j < final(out)@.len() && #[trigger] final(out)@[j].0 == d,
            old(self).view().scopes.contains_key(id) ==> {
                &&& final(out)@.len() > old(out)@.len()
                &&& final(out)@.last().0 == id
                &&& forall|j: int| old(out)@.len() <= j < final(out)@.len() - 1 ==> (#[trigger] final(out)@[j]).0 != id
            },
            scopes_ordered(old(self).view().scopes) ==> forall|j: int, c: ScopeId|
                #![trigger old(self).view().scopes[final(out)@[j].0].sub_scopes.contains(c)]
                old(out)@.len() <= j < final(out)@.len() && old(self).view().scopes[final(out)@[j].0].sub_scopes.contains(c)
                    && r@.contains(c) ==> exists|i: int| old(out)@.len() <= i < j && #[trigger] final(out)@[i].0 == c,
    {
        let mut g = self.take();
        let r = g.dispose_scope(id, out);
        self.graph = g;
        r
    }

    pub fn subscriber_count(&self) -> (n: usize)
        ensures
            n == self.view().subscribers.dom().len(),
    {
        self.graph.subscriber_count()
    }

    pub fn current_scope(&self) -> (c: Option<ScopeId>)
        ensures
            c == self.view().current_scope,
    {
        self.graph.current_scope
    }

    pub fn has_scope(&self, id: ScopeId) -> (b: bool)
        ensures
            b == self.view().scopes.contains_key(id),
    {
        self.graph.scopes.contains_key(&id)
    }
}


/// The graph after a tracked read of signal `id`.
pub open spec fn after_read(v: ReactiveView, id: SignalId) -> ReactiveView {
    match (v.current_effect, v.values.contains_key(id)) {
        (Some(e), true) => ReactiveView {
            subscribers: subscribe(v.subscribers, id, e),
            dependencies: subscribe(v.dependencies, e, id),
            ..v
        },
        _ => v,
    }
}

/// The graph after signal `id` is created holding `value`.
pub open spec fn after_new_signal(v: ReactiveView, id: SignalId, value: Value) -> ReactiveView {
    ReactiveView {
        values: v.values.insert(id, value),
        next_signal_id: v.next_signal_id + 1,
        scopes: match v.current_scope {
            Some(c) => if v.scopes.contains_key(c) {
                v.scopes.insert(c, ScopeView { signals: v.scopes[c].signals.push(id), ..v.scopes[c] })
            } else {
                v.scopes
            },
            None => v.scopes,
        },
        ..v
    }
}

/// The graph after effect `id` is registered.
pub open spec fn after_new_effect(v: ReactiveView, id: EffectId) -> ReactiveView {
    match v.current_scope {
        Some(c) => if v.scopes.contains_key(c) {
            ReactiveView {
                next_effect_id: v.next_effect_id + 1,
                scopes: v.scopes.insert(c, ScopeView { effects: v.scopes[c].effects.push(id), ..v.scopes[c] }),
                effect_scopes: v.effect_scopes.insert(id, c),
                ..v
            }
        } else {
            ReactiveView { next_effect_id: v.next_effect_id + 1, ..v }
        },
        None => ReactiveView { next_effect_id: v.next_effect_id + 1, ..v },
    }
}

/// The graph after scope `id` is opened.
pub open spec fn after_enter_scope(v: ReactiveView, id: ScopeId) -> ReactiveView {
    ReactiveView {
        current_scope: Some(id),
        next_scope_id: v.next_scope_id + 1,
        scopes: with_child(v.scopes, v.current_scope, id),
        ..v
    }
}

/// The graph after disposing scope `id` took away the scopes `r`.
pub open spec fn after_dispose(v: ReactiveView, id: ScopeId, r: Set<ScopeId>) -> ReactiveView {
    removed(v, r, effects_of(v.scopes, r), signals_of(v.scopes, r))
}

/// How many cleanups `m` holds for scope `c` (none when it has no entry).
pub open spec fn cleanups_in(m: Map<ScopeId, nat>, c: ScopeId) -> nat {
    if m.contains_key(c) {
        m[c]
    } else {
        0
    }
}

/// `m` after one more cleanup is registered with the current scope of `v`,
/// when that scope is live; otherwise `m`.
pub open spec fn with_cleanup(m: Map<ScopeId, nat>, v: ReactiveView) -> Map<ScopeId, nat> {
    match v.current_scope {
        Some(c) => if v.scopes.contains_key(c) {
            m.insert(c, cleanups_in(m, c) + 1)
        } else {
            m
        },
        None => m,
    }
}

/// The state in which effect `id` runs: it is the current effect, it is
/// subscribed to nothing, and its own scope (if it has one) is current.
pub open spec fn entered(v: ReactiveView, id: EffectId) -> ReactiveView {
    ReactiveView {
        current_effect: Some(id),
        current_scope: if v.effect_scopes.contains_key(id) {
            Some(v.effect_scopes[id])
        } else {
            v.current_scope
        },
        subscribers: without_effect(v.subscribers, id),
        dependencies: v.dependencies.remove(id),
        ..v
    }
}

/// How a write of `value` to signal `id`, from the graph `v` with the
/// effect bodies `held` and a run log of length `base`, shows in the run
/// log `log` and the bodies `end_held` held afterwards: the subscribers of
/// the signal are taken in turn (in the order `order`); each is either
/// skipped (its body is not held: it is running, or was disposed
/// meanwhile, and then it is not held at the end either; one not held when
/// the write starts is always skipped) or run once, at a
/// position `marks[k]` of the log after the runs of those before it.  So a
/// subscriber whose body is still held at the end has run.  The first, when
/// its body is held, runs from the graph with the value written.
pub open spec fn write_runs(
    v: ReactiveView,
    id: SignalId,
    value: Value,
    held: Set<EffectId>,
    base: nat,
    log: Seq<(EffectId, ReactiveView)>,
    end_held: Set<EffectId>,
    order: Seq<EffectId>,
    marks: Seq<int>,
) -> bool {
    &&& order.to_set() == v.subscribers_of(id)
    &&& order.no_duplicates()
    &&& marks.len() == order.len()
    &&& forall|k: int| 0 <= k < marks.len() && marks[k] != -1 ==>
        base <= #[trigger] marks[k] < log.len() && log[marks[k]].0 == order[k]
    &&& forall|j: int, k: int| 0 <= j < k < marks.len() && marks[j] != -1 && marks[k] != -1 ==>
        #[trigger] marks[j] < #[trigger] marks[k]
    &&& forall|k: int| 0 <= k < marks.len() && end_held.contains(#[trigger] order[k]) && order[k] < v.next_effect_id ==>
        marks[k] != -1
    &&& forall|k: int| 0 <= k < marks.len() && !held.contains(#[trigger] order[k]) ==> marks[k] == -1
    &&& order.len() > 0 && held.contains(order[0]) && order[0] < v.next_effect_id ==> {
        &&& marks[0] == base
        &&& log[base as int] == (order[0], entered(ReactiveView { values: v.values.insert(id, value), ..v }, order[0]))
    }
}

/// The calls of the `n` cleanups of scope `c`, in registration order, each
/// leaving its cleanup spent.
pub open spec fn scope_cleanup_calls(c: ScopeId, n: nat) -> Seq<(ScopeId, nat, bool)> {
    Seq::new(n, |k: int| (c, k as nat, true))
}

/// The cleanup calls made when the scopes `ord` are disposed in turn, from
/// the cleanup counts `m`: each scope's cleanups in registration order (a
/// scope met again has none left).
pub open spec fn cleanup_calls(m: Map<ScopeId, nat>, ord: Seq<ScopeId>) -> Seq<(ScopeId, nat, bool)>
    decreases ord.len(),
{
    if ord.len() == 0 {
        Seq::empty()
    } else {
        let rest = ord.drop_last();
        cleanup_calls(m, rest) + scope_cleanup_calls(
            ord.last(),
            cleanups_in(m.remove_keys(rest.to_set()), ord.last()),
        )
    }
}

/// Everything the contracts of a host speak of.
pub struct HostView {
    pub reactive: ReactiveView,
    pub effect_ids: Set<EffectId>,
    pub run_log: Seq<(EffectId, ReactiveView)>,
    pub cleanups: Map<ScopeId, nat>,
    pub cleanup_log: Seq<(ScopeId, nat, bool)>,
}

/// The view of a host.
pub open spec fn view_of<H: Host + ?Sized>(h: &H) -> HostView {
    HostView {
        reactive: h.reactive(),
        effect_ids: h.effect_ids(),
        run_log: h.run_log(),
        cleanups: h.cleanups(),
        cleanup_log: h.cleanup_log(),
    }
}

/// Two hosts agree on everything their contracts speak of.
pub open spec fn same_state<A: Host + ?Sized, B: Host + ?Sized>(a: &A, b: &B) -> bool {
    view_of(a) == view_of(b)
}

/// The state in which the body of effect `id` starts to run, from `v`:
/// the graph as `entered` gives it, the body taken out (a running body is
/// not held), and the run logged.
pub open spec fn entered_view(v: HostView, id: EffectId) -> HostView {
    HostView {
        reactive: entered(v.reactive, id),
        effect_ids: v.effect_ids.remove(id),
        run_log: v.run_log.push((id, entered(v.reactive, id))),
        ..v
    }
}

/// What every operation that the methods of `Host` offer keeps, from the
/// state `a` to the state `b`: the logs are only extended, each run logged
/// meanwhile is of an effect whose body `a` held, no effect body becomes
/// held that was not, and no effect is created.
pub open spec fn keeps(a: HostView, b: HostView) -> bool {
    &&& a.run_log.is_prefix_of(b.run_log)
    &&& a.cleanup_log.is_prefix_of(b.cleanup_log)
    &&& b.effect_ids.subset_of(a.effect_ids)
    &&& b.reactive.next_effect_id == a.reactive.next_effect_id
    &&& forall|j: int| a.run_log.len() <= j < b.run_log.len() ==> a.effect_ids.contains(#[trigger] b.run_log[j].0)
}

/// A callback run when a scope is disposed.
pub trait Cleanup {
    /// The callback has been run (it is not run again).
    spec fn spent(&self) -> bool;

    fn cleanup(&mut self)
        ensures
            final(self).spent(),
    ;
}

/// A runtime as seen by the code it runs: effects and scope bodies.
pub trait Host {
    /// The reactive graph.
    spec fn reactive(&self) -> ReactiveView;

    /// The effects whose bodies are held (an effect's body is not held
    /// while it runs).
    spec fn effect_ids(&self) -> Set<EffectId>;

    /// Every run of an effect body so far, in order: the effect and the
    /// state its body was handed.
    spec fn run_log(&self) -> Seq<(EffectId, ReactiveView)>;

    /// How many cleanups are registered with each scope.
    spec fn cleanups(&self) -> Map<ScopeId, nat>;

    /// Every cleanup called so far, in order: its scope, its position among
    /// that scope's cleanups, and whether the call left it spent.
    spec fn cleanup_log(&self) -> Seq<(ScopeId, nat, bool)>;

    /// Reads a signal; inside an effect the effect becomes a subscriber.
    fn read_value(&mut self, id: SignalId) -> (r: Option<Value>)
        ensures
            old(self).run_log().is_prefix_of(final(self).run_log()),
            old(self).cleanup_log().is_prefix_of(final(self).cleanup_log()),
            final(self).effect_ids().subset_of(old(self).effect_ids()),
            final(self).reactive().next_effect_id == old(self).reactive().next_effect_id,
            forall|j: int| old(self).run_log().len() <= j < final(self).run_log().len()
                ==> old(self).effect_ids().contains(#[trigger] final(self).run_log()[j].0),
            r == old(self).reactive().values.get(id),
            final(self).reactive() == after_read(old(self).reactive(), id),
            final(self).effect_ids() == old(self).effect_ids(),
            final(self).run_log() == old(self).run_log(),
            final(self).cleanups() == old(self).cleanups(),
            final(self).cleanup_log() == old(self).cleanup_log(),
    ;

    /// Reads a signal without subscribing.
    fn peek_value(&self, id: SignalId) -> (r: Option<Value>)
        ensures
            r == self.reactive().values.get(id),
    ;

    /// Stores a value and runs the signal's subscribers.  With no
    /// subscribers nothing else changes.  A signal that is no longer live
    /// (its scope was disposed) gets the value stored again.
    fn write_value(&mut self, id: SignalId, value: Value)
        requires
            old(self).reactive().values.contains_key(id) || id < old(self).reactive().next_signal_id,
        ensures
            old(self).run_log().is_prefix_of(final(self).run_log()),
            old(self).cleanup_log().is_prefix_of(final(self).cleanup_log()),
            final(self).effect_ids().subset_of(old(self).effect_ids()),
            final(self).reactive().next_effect_id == old(self).reactive().next_effect_id,
            forall|j: int| old(self).run_log().len() <= j < final(self).run_log().len()
                ==> old(self).effect_ids().contains(#[trigger] final(self).run_log()[j].0),
            old(self).run_log().is_prefix_of(final(self).run_log()),
            old(self).cleanup_log().is_prefix_of(final(self).cleanup_log()),
            exists|order: Seq<EffectId>, marks: Seq<int>| write_runs(
                old(self).reactive(),
                id,
                value,
                old(self).effect_ids(),
                old(self).run_log().len(),
                final(self).run_log(),
                final(self).effect_ids(),
                order,
                marks,
            ),
            old(self).reactive().subscribers_of(id) == Set::<EffectId>::empty() ==> {
                &&& final(self).reactive() == (ReactiveView {
                    values: old(self).reactive().values.insert(id, value),
                    ..old(self).reactive()
                })
                &&& final(self).effect_ids() == old(self).effect_ids()
                &&& final(self).run_log() == old(self).run_log()
                &&& final(self).cleanups() == old(self).cleanups()
                &&& final(self).cleanup_log() == old(self).cleanup_log()
            },
    ;

    /// Creates a signal in the current scope.
    fn new_signal(&mut self, value: Value) -> (id: SignalId)
        requires
            old(self).reactive().next_signal_id < usize::MAX,
        ensures
            old(self).run_log().is_prefix_of(final(self).run_log()),
            old(self).cleanup_log().is_prefix_of(final(self).cleanup_log()),
            final(self).effect_ids().subset_of(old(self).effect_ids()),
            final(self).reactive().next_effect_id == old(self).reactive().next_effect_id,
            forall|j: int| old(self).run_log().len() <= j < final(self).run_log().len()
                ==> old(self).effect_ids().contains(#[trigger] final(self).run_log()[j].0),
            id == old(self).reactive().next_signal_id,
            !old(self).reactive().values.contains_key(id),
            final(self).reactive() == after_new_signal(old(self).reactive(), id, value),
            final(self).effect_ids() == old(self).effect_ids(),
            final(self).run_log() == old(self).run_log(),
            final(self).cleanups() == old(self).cleanups(),
            final(self).cleanup_log() == old(self).cleanup_log(),
    ;

    /// Opens a child scope of the current one and makes it current;
    /// returns it and the scope to restore.
    fn enter_scope(&mut self) -> (r: (ScopeId, Option<ScopeId>))
        requires
            old(self).reactive().next_scope_id < usize::MAX,
        ensures
            old(self).run_log().is_prefix_of(final(self).run_log()),
            old(self).cleanup_log().is_prefix_of(final(self).cleanup_log()),
            final(self).effect_ids().subset_of(old(self).effect_ids()),
            final(self).reactive().next_effect_id == old(self).reactive().next_effect_id,
            forall|j: int| old(self).run_log().len() <= j < final(self).run_log().len()
                ==> old(self).effect_ids().contains(#[trigger] final(self).run_log()[j].0),
            r.0 == old(self).reactive().next_scope_id,
            r.1 == old(self).reactive().current_scope,
            final(self).reactive() == after_enter_scope(old(self).reactive(), r.0),
            final(self).effect_ids() == old(self).effect_ids(),
            final(self).run_log() == old(self).run_log(),
            final(self).cleanups() == old(self).cleanups(),
            final(self).cleanup_log() == old(self).cleanup_log(),
    ;

    /// Makes `prev` the current scope.
    fn leave_scope(&mut self, prev: Option<ScopeId>)
        ensures
            old(self).run_log().is_prefix_of(final(self).run_log()),
            old(self).cleanup_log().is_prefix_of(final(self).cleanup_log()),
            final(self).effect_ids().subset_of(old(self).effect_ids()),
            final(self).reactive().next_effect_id == old(self).reactive().next_effect_id,
            forall|j: int| old(self).run_log().len() <= j < final(self).run_log().len()
                ==> old(self).effect_ids().contains(#[trigger] final(self).run_log()[j].0),
            final(self).reactive() == (ReactiveView { current_scope: prev, ..old(self).reactive() }),
            final(self).effect_ids() == old(self).effect_ids(),
            final(self).run_log() == old(self).run_log(),
            final(self).cleanups() == old(self).cleanups(),
            final(self).cleanup_log() == old(self).cleanup_log(),
    ;

    /// Disposes a scope and its sub-scopes, running their cleanups: scope
    /// by scope, each scope's cleanups once, in registration order; the
    /// scope itself comes last and, where no scope lists an older one among
    /// its sub-scopes, every scope comes after its sub-scopes.
    fn dispose_scope(&mut self, id: ScopeId)
        ensures
            old(self).run_log().is_prefix_of(final(self).run_log()),
            old(self).cleanup_log().is_prefix_of(final(self).cleanup_log()),
            final(self).effect_ids().subset_of(old(self).effect_ids()),
            final(self).reactive().next_effect_id == old(self).reactive().next_effect_id,
            forall|j: int| old(self).run_log().len() <= j < final(self).run_log().len()
                ==> old(self).effect_ids().contains(#[trigger] final(self).run_log()[j].0),
            exists|r: Set<ScopeId>| {
                &&& disposal(old(self).reactive().scopes, id, r)
                &&& final(self).reactive() == after_dispose(old(self).reactive(), id, r)
                &&& final(self).effect_ids() == old(self).effect_ids().difference(effects_of(old(self).reactive().scopes, r))
                &&& final(self).cleanups() == old(self).cleanups().remove_keys(r)
                &&& exists|ord: Seq<ScopeId>| {
                    &&& ord.to_set() == r
                    &&& final(self).cleanup_log() == old(self).cleanup_log() + cleanup_calls(old(self).cleanups(), ord)
                    &&& scopes_ordered(old(self).reactive().scopes) ==> children_first(old(self).reactive().scopes, ord, r)
                    &&& old(self).reactive().scopes.contains_key(id) ==> {
                        &&& ord.len() > 0
                        &&& ord.last() == id
                        &&& !ord.drop_last().contains(id)
                    }
                }
            },
            final(self).run_log() == old(self).run_log(),
    ;

    /// Registers a cleanup with the current scope, after those already
    /// there; outside any live scope it is dropped.
    fn add_cleanup(&mut self, f: Box<dyn Cleanup>)
        ensures
            old(self).run_log().is_prefix_of(final(self).run_log()),
            old(self).cleanup_log().is_prefix_of(final(self).cleanup_log()),
            final(self).effect_ids().subset_of(old(self).effect_ids()),
            final(self).reactive().next_effect_id == old(self).reactive().next_effect_id,
            forall|j: int| old(self).run_log().len() <= j < final(self).run_log().len()
                ==> old(self).effect_ids().contains(#[trigger] final(self).run_log()[j].0),
            final(self).reactive() == old(self).reactive(),
            final(self).effect_ids() == old(self).effect_ids(),
            final(self).run_log() == old(self).run_log(),
            final(self).cleanups() == with_cleanup(old(self).cleanups(), old(self).reactive()),
            final(self).cleanup_log() == old(self).cleanup_log(),
    ;
}

/// What an effect body is handed: the runtime that runs it.
pub struct HostRef<'a> {
    pub host: &'a mut dyn Host,
}

/// The body of an effect.
pub trait Effect {
    /// A run of the body on `host` (which holds the host's state when the
    /// run starts and when it ends) may have come out so.
    spec fn ran(&self, host: HostRef<'_>) -> bool;

    /// Runs the body on `host`.  A body reaches the host only through the
    /// methods of `Host`, so what they all keep is kept.
    fn run(&mut self, host: HostRef<'_>)
        ensures
            old(self).ran(host),
            keeps(view_of(&*old(host.host)), view_of(&*final(host.host))),
    ;
}

/// An effect body made from a closure that may be called on any host.
struct ClosureEffect<F: FnMut(HostRef<'_>)> {
    f: F,
}

impl<F: FnMut(HostRef<'_>)> ClosureEffect<F> {
    #[verifier::type_invariant]
    spec fn inv(self) -> bool {
        forall|h: HostRef<'_>| call_requires(self.f, (h,))
    }

    /// The closure.
    pub closed spec fn function(&self) -> F {
        self.f
    }
}

/// Calls the closure of an effect body (`FnMut::call_mut`), which may be
/// called on any host: what comes of the call is one that the closure, as
/// it was, allows for `host`.  The closure reaches the host only through
/// the methods of `Host`, each of which keeps what `keeps` names.
#[verifier::external_body]
fn call_effect_body<F: FnMut(HostRef<'_>)>(c: &mut ClosureEffect<F>, host: HostRef<'_>)
    ensures
        call_ensures(old(c).function(), (host,), ()) && keeps(view_of(&*old(host.host)), view_of(&*final(host.host))),
{
    (c.f)(host)
}

impl<F: FnMut(HostRef<'_>)> Effect for ClosureEffect<F> {
    open spec fn ran(&self, host: HostRef<'_>) -> bool {
        call_ensures(self.function(), (host,), ())
    }

    /// Calls the closure on `host`.
    fn run(&mut self, host: HostRef<'_>) {
        call_effect_body(self, host)
    }
}

/// The runtime seen as a `dyn Host`: an unsizing coercion, which verified
/// code cannot write.  It is the same runtime, so the two agree on their
/// views, before and after.
#[verifier::external_body]
fn as_host(rt: &mut Runtime) -> (h: HostRef<'_>)
    ensures
        view_of(&*h.host) == old(rt).host_view(),
        view_of(&*final(h.host)) == final(rt).host_view(),
{
    HostRef { host: rt }
}

/// A stored effect body.
struct EffectSlot {
    body: Box<dyn Effect>,
}

/// A cleanup made from a closure that is called at most once.
pub struct OnceCleanup<F> {
    f: Option<F>,
}

/// Calls a cleanup closure (`FnOnce::call_once`); nothing is known of it.
#[verifier::external_body]
fn call_cleanup_body<F: FnOnce()>(f: F) {
    f()
}

impl<F> OnceCleanup<F> {
    /// The closure still to be called, if any.
    pub closed spec fn pending(&self) -> Option<F> {
        self.f
    }
}

impl<F: FnOnce()> Cleanup for OnceCleanup<F> {
    open spec fn spent(&self) -> bool {
        self.pending() is None
    }

    /// Calls the closure if it has not been called yet; afterwards none is
    /// pending, so it is never called twice.
    fn cleanup(&mut self)
        ensures
            final(self).pending() is None,
    {
        if let Some(f) = self.f.take() {
            call_cleanup_body(f);
        }
    }
}

/// The reactive runtime: the graph, the effect bodies and the cleanups.
pub struct Runtime {
    core: Core,
    effects: HashMap<EffectId, EffectSlot>,
    cleanups: HashMap<ScopeId, Vec<Box<dyn Cleanup>>>,
    log: Ghost<Seq<(EffectId, ReactiveView)>>,
    cleanup_calls: Ghost<Seq<(ScopeId, nat, bool)>>,
}

impl Runtime {
    pub fn new() -> (rt: Runtime)
        ensures
            rt.reactive().is_empty(),
            rt.effect_ids() == Set::<EffectId>::empty(),
            rt.cleanups() == Map::<ScopeId, nat>::empty(),
            rt.run_log() == Seq::<(EffectId, ReactiveView)>::empty(),
    {
        Runtime { core: Core::new(), effects: HashMap::new(), cleanups: HashMap::new(), log: Ghost(Seq::empty()), cleanup_calls: Ghost(Seq::empty()) }
    }

    /// Clears everything: no signals, effects, scopes or cleanups remain
    /// (pending cleanups are dropped without being called), and ids start
    /// again from zero.
    pub fn reset(&mut self)
        ensures
            final(self).reactive().is_empty(),
            final(self).effect_ids() == Set::<EffectId>::empty(),
            final(self).cleanups() == Map::<ScopeId, nat>::empty(),
            final(self).run_log() == old(self).run_log(),
            final(self).cleanup_log() == old(self).cleanup_log(),
    {
        self.core.reset();
        self.effects.clear();
        self.cleanups.clear();
        assert(self.cleanups() =~= Map::<ScopeId, nat>::empty());
    }

    /// Registers an effect body without running it; returns its id.
    pub fn register_effect(&mut self, f: Box<dyn Effect>) -> (id: EffectId)
        requires
            old(self).reactive().next_effect_id < usize::MAX,
        ensures
            id == old(self).reactive().next_effect_id,
            final(self).reactive() == after_new_effect(old(self).reactive(), id),
            final(self).effect_ids() == old(self).effect_ids().insert(id),
            final(self).run_log() == old(self).run_log(),
            final(self).cleanups() == old(self).cleanups(),
    {
        let ghost e0 = self.effects@;
        let id = self.core.create_effect_entry();
        let slot = EffectSlot { body: f };
        let ghost gs = slot;
        self.effects.insert(id, slot);
        proof {
            vstd::map::axiom_map_insert_domain(e0, id, gs);
            assert(self.effects@.dom() == e0.dom().insert(id));
        }
        id
    }

    /// Runs effect `id`: its old dependencies are forgotten, its body runs
    /// once as the current effect (in its own scope), and the previous
    /// context is restored.  While it runs its body is not held, so every
    /// other run logged meanwhile is of another effect: it is not run again
    /// from inside.  An effect whose body is not held (unknown, or running)
    /// is skipped.
    pub fn run_effect(&mut self, id: EffectId)
        ensures
            old(self).run_log().is_prefix_of(final(self).run_log()),
            old(self).cleanup_log().is_prefix_of(final(self).cleanup_log()),
            !old(self).effect_ids().contains(id) ==> {
                &&& final(self).reactive() == old(self).reactive()
                &&& final(self).effect_ids() == old(self).effect_ids()
                &&& final(self).run_log() == old(self).run_log()
                &&& final(self).cleanups() == old(self).cleanups()
                &&& final(self).cleanup_log() == old(self).cleanup_log()
            },
            old(self).effect_ids().contains(id) ==> final(self).effect_ids().contains(id),
            final(self).effect_ids().subset_of(old(self).effect_ids()),
            final(self).reactive().next_effect_id == old(self).reactive().next_effect_id,
            forall|j: int| old(self).run_log().len() <= j < final(self).run_log().len()
                ==> old(self).effect_ids().contains(#[trigger] final(self).run_log()[j].0),
            old(self).effect_ids().contains(id) && id < old(self).reactive().next_effect_id ==> exists|h: HostRef<'_>| {
                let mid = view_of(&*final(h.host));
                &&& #[trigger] old(self).effect_ran(id, h)
                &&& view_of(&*h.host) == entered_view(old(self).host_view(), id)
                &&& final(self).reactive() == (ReactiveView {
                    current_effect: match old(self).reactive().current_effect {
                        Some(e) => if e < mid.reactive.next_effect_id { Some(e) } else { None },
                        None => None,
                    },
                    current_scope: old(self).reactive().current_scope,
                    ..mid.reactive
                })
                &&& final(self).effect_ids() == mid.effect_ids.insert(id)
                &&& final(self).run_log() == mid.run_log
                &&& final(self).cleanups() == mid.cleanups
                &&& final(self).cleanup_log() == mid.cleanup_log
            },
            old(self).effect_ids().contains(id) && id < old(self).reactive().next_effect_id ==> {
                &&& final(self).run_log().len() > old(self).run_log().len()
                &&& final(self).run_log()[old(self).run_log().len() as int] == (id, entered(old(self).reactive(), id))
                &&& forall|j: int| old(self).run_log().len() < j < final(self).run_log().len()
                    ==> old(self).effect_ids().remove(id).contains(#[trigger] final(self).run_log()[j].0)
                &&& final(self).reactive().current_scope == old(self).reactive().current_scope
                &&& final(self).reactive().current_effect == match old(self).reactive().current_effect {
                    Some(e) => if e < final(self).reactive().next_effect_id { Some(e) } else { None },
                    None => None,
                }
            },
    {
        match self.effects.remove(&id) {
            None => {
                proof {
                    assert(self.effects@.dom() =~= old(self).effects@.dom());
                }
            },
            Some(mut slot) => {
                assert(old(self).effects@[id].body == slot.body);
                if id < self.core.next_effect_id() {
                    let prev = self.core.begin_effect(id);
                    proof {
                        self.log@ = self.log@.push((id, self.reactive()));
                    }
                    let ghost pushed = self.log@;
                    let ghost start = self.host_view();
                    assert(start == entered_view(old(self).host_view(), id));
                    let hr = as_host(self);
                    let ghost gh = hr;
                    slot.body.run(hr);
                    let ghost mid = self.host_view();
                    assert(old(self).effect_ran(id, gh));
                    assert(view_of(&*final(gh.host)) == mid);
                    proof {
                        assert(pushed[old(self).log@.len() as int] == (id, entered(old(self).reactive(), id)));
                        assert(self.log@[old(self).log@.len() as int] == pushed[old(self).log@.len() as int]) by {
                            assert(self.log@.subrange(0, pushed.len() as int) == pushed);
                        }
                        assert(old(self).log@.is_prefix_of(self.log@)) by {
                            assert(self.log@.subrange(0, old(self).log@.len() as int)
                                =~= pushed.subrange(0, old(self).log@.len() as int));
                        }
                    }
                    self.core.end_effect(prev);
                }
                let ghost before = self.effects@;
                self.effects.insert(id, slot);
                proof {
                    vstd::map::axiom_map_insert_domain(before, id, slot);
                }
                assert(self.effects@.dom().contains(id));
            },
        }
    }

    /// Everything the contracts of a host speak of, for this runtime.
    pub open spec fn host_view(&self) -> HostView {
        HostView {
            reactive: self.reactive(),
            effect_ids: self.effect_ids(),
            run_log: self.run_log(),
            cleanups: self.cleanups(),
            cleanup_log: self.cleanup_log(),
        }
    }

    /// A run of the stored body of effect `id` on `h` may have come out so.
    pub closed spec fn effect_ran(&self, id: EffectId, h: HostRef<'_>) -> bool {
        self.effects@[id].body.ran(h)
    }

    /// The id the next signal will get.
    pub fn next_signal_id(&self) -> (n: SignalId)
        ensures
            n == self.reactive().next_signal_id,
    {
        self.core.next_signal_id()
    }

    /// The id the next effect will get.
    pub fn next_effect_id(&self) -> (n: EffectId)
        ensures
            n == self.reactive().next_effect_id,
    {
        self.core.next_effect_id()
    }

    /// The number of signals that have subscribers.
    pub fn subscriber_count(&self) -> (n: usize)
        ensures
            n == self.reactive().subscribers.dom().len(),
    {
        self.core.subscriber_count()
    }
}

impl Host for Runtime {
    closed spec fn reactive(&self) -> ReactiveView {
        self.core.view()
    }

    closed spec fn effect_ids(&self) -> Set<EffectId> {
        self.effects@.dom()
    }

    closed spec fn run_log(&self) -> Seq<(EffectId, ReactiveView)> {
        self.log@
    }

    closed spec fn cleanup_log(&self) -> Seq<(ScopeId, nat, bool)> {
        self.cleanup_calls@
    }

    closed spec fn cleanups(&self) -> Map<ScopeId, nat> {
        Map::new(|c: ScopeId| self.cleanups@.contains_key(c), |c: ScopeId| self.cleanups@[c]@.len())
    }

    fn read_value(&mut self, id: SignalId) -> (r: Option<Value>) {
        self.core.read(id)
    }

    fn peek_value(&self, id: SignalId) -> (r: Option<Value>) {
        self.core.peek(id)
    }

    fn write_value(&mut self, id: SignalId, value: Value) {
        let to_run = self.core.write(id, value);
        proof {
            if old(self).reactive().subscribers_of(id) == Set::<EffectId>::empty() {
                assert(to_run@.len() == 0) by {
                    if to_run@.len() > 0 {
                        assert(to_run@.to_set().contains(to_run@[0]));
                    }
                }
            }
        }
        let ghost after_write = self.reactive();
        let ghost base = old(self).run_log().len();
        let ghost mut marks: Seq<int> = Seq::empty();
        let mut i: usize = 0;
        while i < to_run.len()
            invariant
                i <= to_run.len(),
                i == 0 ==> self.reactive() == after_write && self.effect_ids() == old(self).effect_ids()
                    && self.run_log() == old(self).run_log() && self.cleanups() == old(self).cleanups()
                    && self.cleanup_log() == old(self).cleanup_log(),
                old(self).run_log().is_prefix_of(self.run_log()),
                old(self).cleanup_log().is_prefix_of(self.cleanup_log()),
                self.effect_ids().subset_of(old(self).effect_ids()),
                self.reactive().next_effect_id == old(self).reactive().next_effect_id,
                base == old(self).run_log().len(),
                after_write == (ReactiveView { values: old(self).reactive().values.insert(id, value), ..old(self).reactive() }),
                marks.len() == i,
                forall|k: int| 0 <= k < marks.len() && marks[k] != -1 ==>
                    base <= #[trigger] marks[k] < self.run_log().len() && self.run_log()[marks[k]].0 == to_run@[k],
                forall|j: int, k: int| 0 <= j < k < marks.len() && marks[j] != -1 && marks[k] != -1 ==>
                    #[trigger] marks[j] < #[trigger] marks[k],
                forall|k: int| 0 <= k < marks.len() && marks[k] == -1 ==>
                    !(self.effect_ids().contains(#[trigger] to_run@[k]) && to_run@[k] < old(self).reactive().next_effect_id),
                forall|k: int| 0 <= k < marks.len() && !old(self).effect_ids().contains(#[trigger] to_run@[k]) ==> marks[k] == -1,
                forall|j: int| base <= j < self.run_log().len() ==> old(self).effect_ids().contains(#[trigger] self.run_log()[j].0),
                i > 0 && old(self).effect_ids().contains(to_run@[0]) && to_run@[0] < old(self).reactive().next_effect_id ==> {
                    &&& marks[0] == base
                    &&& self.run_log()[base as int] == (to_run@[0], entered(after_write, to_run@[0]))
                },
            decreases to_run.len() - i,
        {
            let ghost before = self.run_log();
            let ghost cbefore = self.cleanup_log();
            let ghost ran = self.effect_ids().contains(to_run@[i as int]) && to_run@[i as int] < self.reactive().next_effect_id;
            let ghost held_before = self.effect_ids();
            self.run_effect(to_run[i]);
            proof {
                assert forall|j: int| base <= j < self.run_log().len() implies old(self).effect_ids().contains(#[trigger] self.run_log()[j].0) by {
                    if j < before.len() {
                        assert(before.is_prefix_of(self.run_log()));
                        assert(self.run_log().subrange(0, before.len() as int)[j] == before[j]);
                    } else {
                        assert(held_before.contains(self.run_log()[j].0));
                    }
                }
                lemma_prefix_trans(old(self).run_log(), before, self.run_log());
                lemma_prefix_trans(old(self).cleanup_log(), cbefore, self.cleanup_log());
                assert forall|k: int| 0 <= k < marks.len() && marks[k] != -1 implies
                    self.run_log()[#[trigger] marks[k]] == before[marks[k]] by {
                    assert(before.is_prefix_of(self.run_log()));
                    assert(self.run_log().subrange(0, before.len() as int)[marks[k]] == before[marks[k]]);
                }
                if ran {
                    marks = marks.push(before.len() as int);
                } else {
                    marks = marks.push(-1);
                }
            }
            i = i + 1;
        }
        proof {
            assert(write_runs(old(self).reactive(), id, value, old(self).effect_ids(), base, self.run_log(), self.effect_ids(), to_run@, marks));
        }
    }

    fn new_signal(&mut self, value: Value) -> (id: SignalId) {
        self.core.check_wf();
        self.core.create_signal(value)
    }

    fn enter_scope(&mut self) -> (r: (ScopeId, Option<ScopeId>)) {
        self.core.enter_scope()
    }

    fn leave_scope(&mut self, prev: Option<ScopeId>) {
        self.core.leave_scope(prev)
    }

    #[verifier::spinoff_prover]
    #[verifier::rlimit(60)]
    fn dispose_scope(&mut self, id: ScopeId) {
        let mut out: Vec<(ScopeId, Vec<EffectId>)> = Vec::new();
        let ghost ov = self.reactive();
        let r = self.core.dispose_scope(id, &mut out);
        let ghost gone = effects_of(ov.scopes, r@);
        let mut i: usize = 0;
        let ghost mut dropped: Set<EffectId> = Set::empty();
        let ghost mut ord: Seq<ScopeId> = Seq::empty();
        while i < out.len()
            invariant
                i <= out.len(),
                ord.len() == i,
                forall|j: int| 0 <= j < i ==> ord[j] == #[trigger] out@[j].0,
                self.cleanups() == old(self).cleanups().remove_keys(ord.to_set()),
                self.cleanup_log() == old(self).cleanup_log() + cleanup_calls(old(self).cleanups(), ord),
                self.reactive() == after_dispose(ov, id, r@),
                forall|j: int| 0 <= j < out@.len() ==> r@.contains(#[trigger] out@[j].0)
                    && out@[j].1@ == ov.scopes[out@[j].0].effects,
                forall|d: ScopeId| #[trigger] r@.contains(d) ==> exists|j: int| 0 <= j < out@.len() && #[trigger] out@[j].0 == d,
                dropped == Set::new(|e: EffectId| exists|j: int| 0 <= j < i && #[trigger] out@[j].1@.contains(e)),
                self.effect_ids() == old(self).effect_ids().difference(dropped),
                self.run_log() == old(self).run_log(),
            decreases out.len() - i,
        {
            let scope = out[i].0;
            let ghost m = self.cleanups();
            let ghost log0 = self.cleanup_log();
            let ghost n = cleanups_in(m, scope);
            let ghost before = self.cleanups@;
            match self.cleanups.remove(&scope) {
                Some(mut list) => {
                    assert(list@.len() == n);
                    let ghost after_rm = self.cleanups@;
                    assert(after_rm == before.remove(scope));
                    let mut k: usize = 0;
                    while k < list.len()
                        invariant
                            k <= list.len(),
                            list@.len() == n,
                            self.cleanups@ == after_rm,
                            self.cleanup_log() == log0 + scope_cleanup_calls(scope, k as nat),
                            self.reactive() == after_dispose(ov, id, r@),
                            self.effect_ids() == old(self).effect_ids().difference(dropped),
                            self.run_log() == old(self).run_log(),
                        decreases list.len() - k,
                    {
                        list[k].cleanup();
                        proof {
                            assert(list@[k as int].spent());
                            self.cleanup_calls@ = self.cleanup_calls@.push((scope, k as nat, list@[k as int].spent()));
                            assert(scope_cleanup_calls(scope, (k + 1) as nat)
                                =~= scope_cleanup_calls(scope, k as nat).push((scope, k as nat, true)));
                        }
                        k = k + 1;
                    }
                },
                None => {
                    assert(scope_cleanup_calls(scope, n) =~= Seq::<(ScopeId, nat, bool)>::empty());
                    assert(self.cleanup_log() =~= log0 + scope_cleanup_calls(scope, n));
                },
            }
            proof {
                let next = ord.push(scope);
                assert(next.drop_last() =~= ord);
                lemma_push_to_set(ord, scope);
                assert(self.cleanups@ == before.remove(scope));
                let goal = old(self).cleanups().remove_keys(next.to_set());
                assert(m == old(self).cleanups().remove_keys(ord.to_set()));
                assert forall|c: ScopeId| #[trigger] self.cleanups().contains_key(c) <==> goal.contains_key(c) by {
                    assert(m.contains_key(c) == before.contains_key(c));
                }
                assert forall|c: ScopeId| #[trigger] goal.contains_key(c) implies self.cleanups()[c] == goal[c] by {
                    assert(m.contains_key(c) == before.contains_key(c));
                    assert(self.cleanups@[c] == before[c]);
                    assert(m[c] == before[c]@.len());
                }
                assert(self.cleanups() =~= goal);
                assert(self.cleanup_log() =~= old(self).cleanup_log() + cleanup_calls(old(self).cleanups(), next));
                ord = next;
            }
            let effs = &out[i].1;
            let ghost cm = self.cleanups();
            let ghost cl = self.cleanup_log();
            let mut k: usize = 0;
            while k < effs.len()
                invariant
                    k <= effs.len(),
                    self.cleanups() == cm,
                    self.cleanup_log() == cl,
                    self.reactive() == after_dispose(ov, id, r@),
                    self.effect_ids() == old(self).effect_ids().difference(dropped + effs@.take(k as int).to_set()),
                    self.run_log() == old(self).run_log(),
                decreases effs.len() - k,
            {
                self.effects.remove(&effs[k]);
                proof {
                    assert(effs@.take(k + 1) =~= effs@.take(k as int).push(effs@[k as int]));
                    lemma_push_to_set(effs@.take(k as int), effs@[k as int]);
                    assert(self.effect_ids() =~= old(self).effect_ids().difference(dropped + effs@.take(k + 1).to_set()));
                }
                k = k + 1;
            }
            proof {
                assert(effs@.take(effs@.len() as int) =~= effs@);
                let nd = Set::new(|e: EffectId| exists|j: int| 0 <= j < i + 1 && #[trigger] out@[j].1@.contains(e));
                assert forall|e: EffectId| nd.contains(e) <==> (dropped + effs@.to_set()).contains(e) by {
                    if nd.contains(e) {
                        let j = choose|j: int| 0 <= j < i + 1 && #[trigger] out@[j].1@.contains(e);
                        if j < i { assert(dropped.contains(e)); }
                    }
                    if effs@.contains(e) {
                        assert(out@[i as int].1@.contains(e));
                    }
                }
                assert(nd =~= dropped + effs@.to_set());
                dropped = nd;
            }
            i = i + 1;
        }
        proof {
            assert forall|e: EffectId| dropped.contains(e) <==> gone.contains(e) by {
                if dropped.contains(e) {
                    let j = choose|j: int| 0 <= j < out@.len() && #[trigger] out@[j].1@.contains(e);
                    assert(r@.contains(out@[j].0));
                }
                if gone.contains(e) {
                    let d = choose|d: ScopeId| #[trigger] r@.contains(d) && ov.scopes[d].effects.contains(e);
                    let j = choose|j: int| 0 <= j < out@.len() && #[trigger] out@[j].0 == d;
                    assert(out@[j].1@.contains(e));
                }
            }
            assert(dropped =~= gone);
            assert forall|d: ScopeId| ord.to_set().contains(d) <==> r@.contains(d) by {
                if ord.to_set().contains(d) {
                    let j = choose|j: int| 0 <= j < ord.len() && ord[j] == d;
                    assert(out@[j].0 == d);
                }
                if r@.contains(d) {
                    let j = choose|j: int| 0 <= j < out@.len() && #[trigger] out@[j].0 == d;
                    assert(ord[j] == d);
                    assert(ord.contains(d));
                }
            }
            assert(ord.to_set() =~= r@);
            if scopes_ordered(ov.scopes) {
                assert forall|j: int, c: ScopeId|
                    0 <= j < ord.len() && #[trigger] ov.scopes[ord[j]].sub_scopes.contains(c) && r@.contains(c)
                    implies exists|ii: int| 0 <= ii < j && ord[ii] == c by {
                    assert(ord[j] == out@[j].0);
                    assert(ov.scopes[out@[j].0].sub_scopes.contains(c));
                    let ii = choose|ii: int| 0 <= ii < j && #[trigger] out@[ii].0 == c;
                    assert(ord[ii] == c);
                }
            }
            if old(self).reactive().scopes.contains_key(id) {
                assert(ord.last() == out@.last().0);
                assert forall|j: int| 0 <= j < ord.drop_last().len() implies ord.drop_last()[j] != id by {
                    assert(ord.drop_last()[j] == out@[j].0);
                    assert(out@[j].0 != id);
                }
            }
        }
    }

    fn add_cleanup(&mut self, f: Box<dyn Cleanup>) {
        self.core.check_wf();
        if let Some(scope_id) = self.core.current_scope() {
            if self.core.has_scope(scope_id) {
                let ghost before = self.cleanups@;
                let mut list = match self.cleanups.remove(&scope_id) {
                    Some(l) => l,
                    None => Vec::new(),
                };
                let ghost l0 = list@;
                let ghost gf = f;
                list.push(f);
                proof {
                    // the length law of `push`, which is not applied on its own
                    // to sequences of boxed trait objects
                    vstd::seq::axiom_seq_push_len(l0, gf);
                }
                let ghost n = list@.len();
                self.cleanups.insert(scope_id, list);
                proof {
                    let w = with_cleanup(old(self).cleanups(), old(self).reactive());
                    assert(n == cleanups_in(old(self).cleanups(), scope_id) + 1);
                    assert forall|k: ScopeId| #[trigger] w.contains_key(k) implies self.cleanups()[k] == w[k] by {
                        if k != scope_id {
                            assert(self.cleanups@[k] == before[k]);
                        }
                    }
                    assert(self.cleanups() =~= w);
                }
            }
        }
    }
}


/// A type that signals can hold.
pub trait SignalValue: Sized {
    spec fn spec_to_value(self) -> Value;

    spec fn spec_from_value(v: Value) -> Option<Self>;

    proof fn lemma_round_trip(x: Self)
        ensures
            Self::spec_from_value(x.spec_to_value()) == Some(x),
    ;

    fn to_value(self) -> (v: Value)
        ensures
            v == self.spec_to_value(),
    ;

    fn from_value(v: &Value) -> (r: Option<Self>)
        ensures
            r == Self::spec_from_value(*v),
    ;
}

impl SignalValue for bool {
    open spec fn spec_to_value(self) -> Value { Value::Bool(self) }
    open spec fn spec_from_value(v: Value) -> Option<Self> { match v { Value::Bool(x) => Some(x), _ => None } }
    proof fn lemma_round_trip(x: Self) {}
    fn to_value(self) -> (v: Value) { Value::Bool(self) }
    fn from_value(v: &Value) -> (r: Option<Self>) { match v { Value::Bool(x) => Some(*x), _ => None } }
}

impl SignalValue for i32 {
    open spec fn spec_to_value(self) -> Value { Value::I32(self) }
    open spec fn spec_from_value(v: Value) -> Option<Self> { match v { Value::I32(x) => Some(x), _ => None } }
    proof fn lemma_round_trip(x: Self) {}
    fn to_value(self) -> (v: Value) { Value::I32(self) }
    fn from_value(v: &Value) -> (r: Option<Self>) { match v { Value::I32(x) => Some(*x), _ => None } }
}

impl SignalValue for u32 {
    open spec fn spec_to_value(self) -> Value { Value::U32(self) }
    open spec fn spec_from_value(v: Value) -> Option<Self> { match v { Value::U32(x) => Some(x), _ => None } }
    proof fn lemma_round_trip(x: Self) {}
    fn to_value(self) -> (v: Value) { Value::U32(self) }
    fn from_value(v: &Value) -> (r: Option<Self>) { match v { Value::U32(x) => Some(*x), _ => None } }
}

impl SignalValue for i64 {
    open spec fn spec_to_value(self) -> Value { Value::I64(self) }
    open spec fn spec_from_value(v: Value) -> Option<Self> { match v { Value::I64(x) => Some(x), _ => None } }
    proof fn lemma_round_trip(x: Self) {}
    fn to_value(self) -> (v: Value) { Value::I64(self) }
    fn from_value(v: &Value) -> (r: Option<Self>) { match v { Value::I64(x) => Some(*x), _ => None } }
}

impl SignalValue for u64 {
    open spec fn spec_to_value(self) -> Value { Value::U64(self) }
    open spec fn spec_from_value(v: Value) -> Option<Self> { match v { Value::U64(x) => Some(x), _ => None } }
    proof fn lemma_round_trip(x: Self) {}
    fn to_value(self) -> (v: Value) { Value::U64(self) }
    fn from_value(v: &Value) -> (r: Option<Self>) { match v { Value::U64(x) => Some(*x), _ => None } }
}

impl SignalValue for usize {
    open spec fn spec_to_value(self) -> Value { Value::Usize(self) }
    open spec fn spec_from_value(v: Value) -> Option<Self> { match v { Value::Usize(x) => Some(x), _ => None } }
    proof fn lemma_round_trip(x: Self) {}
    fn to_value(self) -> (v: Value) { Value::Usize(self) }
    fn from_value(v: &Value) -> (r: Option<Self>) { match v { Value::Usize(x) => Some(*x), _ => None } }
}

impl SignalValue for String {
    open spec fn spec_to_value(self) -> Value { Value::Text(self) }
    open spec fn spec_from_value(v: Value) -> Option<Self> { match v { Value::Text(x) => Some(x), _ => None } }
    proof fn lemma_round_trip(x: Self) {}
    fn to_value(self) -> (v: Value) { Value::Text(self) }
    fn from_value(v: &Value) -> (r: Option<Self>) { match v { Value::Text(x) => Some(x.clone()), _ => None } }
}

/// The identity of a signal.
pub struct Signal<T> {
    pub id: SignalId,
    pub _marker: std::marker::PhantomData<T>,
}

impl<T> Clone for Signal<T> {
    fn clone(&self) -> (r: Self)
        ensures
            r == *self,
    {
        Signal { id: self.id, _marker: std::marker::PhantomData }
    }
}

impl<T> Copy for Signal<T> {}

/// The reading end of a signal.
pub struct ReadSignal<T> {
    pub id: SignalId,
    pub _marker: std::marker::PhantomData<T>,
}

impl<T> Clone for ReadSignal<T> {
    fn clone(&self) -> (r: Self)
        ensures
            r == *self,
    {
        ReadSignal { id: self.id, _marker: std::marker::PhantomData }
    }
}

impl<T> Copy for ReadSignal<T> {}

/// The writing end of a signal.
pub struct WriteSignal<T> {
    pub id: SignalId,
    pub _marker: std::marker::PhantomData<T>,
}

impl<T> Clone for WriteSignal<T> {
    fn clone(&self) -> (r: Self)
        ensures
            r == *self,
    {
        WriteSignal { id: self.id, _marker: std::marker::PhantomData }
    }
}

impl<T> Copy for WriteSignal<T> {}

/// A handle on a reactive scope.
pub struct Scope {
    pub id: ScopeId,
}

/// Clears the runtime: no signals, effects, scopes or cleanups remain and
/// ids start again from zero.
pub fn reset_runtime(rt: &mut Runtime)
    ensures
        final(rt).reactive().is_empty(),
        final(rt).effect_ids() == Set::<EffectId>::empty(),
        final(rt).cleanups() == Map::<ScopeId, nat>::empty(),
        final(rt).run_log() == old(rt).run_log(),
        final(rt).cleanup_log() == old(rt).cleanup_log(),
{
    rt.reset();
}

/// Creates a signal holding `initial_value`, owned by the current scope.
pub fn create_signal<T: SignalValue, H: Host + ?Sized>(h: &mut H, initial_value: T) -> (r: (ReadSignal<T>, WriteSignal<T>))
    requires
        old(h).reactive().next_signal_id < usize::MAX,
    ensures
        r.0.id == old(h).reactive().next_signal_id,
        r.1.id == r.0.id,
        !old(h).reactive().values.contains_key(r.0.id),
        final(h).reactive() == after_new_signal(old(h).reactive(), r.0.id, initial_value.spec_to_value()),
        final(h).effect_ids() == old(h).effect_ids(),
        final(h).run_log() == old(h).run_log(),
        final(h).cleanups() == old(h).cleanups(),
{
    let id = h.new_signal(initial_value.to_value());
    (ReadSignal { id, _marker: std::marker::PhantomData }, WriteSignal { id, _marker: std::marker::PhantomData })
}

/// Creates an effect in the current scope and runs it once: its body is
/// called once before the call returns (the one outcome `h` below), as the
/// current effect, in the scope it was created in, and the previous context
/// is restored afterwards.  The run log gains that run, and every other run
/// logged meanwhile is of an effect already held before the call.
pub fn create_effect<F: FnMut(HostRef<'_>) + 'static>(rt: &mut Runtime, effect_fn: F)
    requires
        old(rt).reactive().next_effect_id < usize::MAX,
        forall|h: HostRef<'_>| call_requires(effect_fn, (h,)),
    ensures
        exists|h: HostRef<'_>| {
            let id = old(rt).reactive().next_effect_id as EffectId;
            let start = after_new_effect(old(rt).reactive(), id);
            let mid = view_of(&*final(h.host));
            &&& #[trigger] call_ensures(effect_fn, (h,), ())
            &&& view_of(&*h.host) == (HostView {
                reactive: entered(start, id),
                run_log: old(rt).run_log().push((id, entered(start, id))),
                ..old(rt).host_view()
            })
            &&& final(rt).reactive() == (ReactiveView {
                current_effect: match old(rt).reactive().current_effect {
                    Some(e) => if e < mid.reactive.next_effect_id { Some(e) } else { None },
                    None => None,
                },
                current_scope: old(rt).reactive().current_scope,
                ..mid.reactive
            })
            &&& final(rt).effect_ids() == mid.effect_ids.insert(id)
            &&& final(rt).run_log() == mid.run_log
            &&& final(rt).cleanups() == mid.cleanups
            &&& final(rt).cleanup_log() == mid.cleanup_log
        },
        final(rt).effect_ids().contains(old(rt).reactive().next_effect_id as EffectId),
        old(rt).run_log().is_prefix_of(final(rt).run_log()),
        forall|j: int| old(rt).run_log().len() < j < final(rt).run_log().len()
            ==> old(rt).effect_ids().contains(#[trigger] final(rt).run_log()[j].0),
        final(rt).run_log().len() > old(rt).run_log().len(),
        final(rt).run_log()[old(rt).run_log().len() as int] == ({
            let id = old(rt).reactive().next_effect_id as EffectId;
            (id, entered(after_new_effect(old(rt).reactive(), id), id))
        }),
        final(rt).reactive().current_scope == old(rt).reactive().current_scope,
        final(rt).reactive().current_effect == match old(rt).reactive().current_effect {
            Some(e) => if e < final(rt).reactive().next_effect_id { Some(e) } else { None },
            None => None,
        },
{
    let id = rt.core.create_effect_entry();
    let prev = rt.core.begin_effect(id);
    proof {
        rt.log@ = rt.log@.push((id, rt.reactive()));
    }
    let ghost pushed = rt.log@;
    let mut body = ClosureEffect { f: effect_fn };
    let hr = as_host(rt);
    let ghost gh = hr;
    call_effect_body(&mut body, hr);
    proof {
        assert(pushed.is_prefix_of(rt.log@));
        assert(rt.log@[old(rt).log@.len() as int] == pushed[old(rt).log@.len() as int]) by {
            assert(rt.log@.subrange(0, pushed.len() as int) == pushed);
        }
        assert(old(rt).log@.is_prefix_of(rt.log@)) by {
            assert(rt.log@.subrange(0, old(rt).log@.len() as int) =~= pushed.subrange(0, old(rt).log@.len() as int));
        }
    }
    rt.core.end_effect(prev);
    let ghost before = rt.effects@;
    let slot = EffectSlot { body: Box::new(body) };
    rt.effects.insert(id, slot);
    proof {
        vstd::map::axiom_map_insert_domain(before, id, slot);
        assert(call_ensures(effect_fn, (gh,), ()));
    }
}

/// Calls the body of a root scope (`FnOnce::call_once`) on `h`: the result
/// and the state it leaves are an outcome that `f` allows for the host as
/// it was and `scope`.
#[verifier::external_body]
fn call_root_body<H: Host + ?Sized, T, F: FnOnce(&mut H, Scope) -> T>(f: F, h: &mut H, scope: Scope) -> (r: T)
    requires
        forall|m: &mut H, s: Scope| call_requires(f, (m, s)),
    ensures
        exists|m: &mut H| {
            &&& #[trigger] call_ensures(f, (m, scope), r)
            &&& same_state(&*m, &*old(h))
            &&& same_state(&*final(m), &*final(h))
        },
{
    f(h, scope)
}

/// Runs `f` in a new scope, a child of the current one, and returns what
/// `f` returns; afterwards the current scope is what it was before.
pub fn create_root<H: Host + ?Sized, T, F: FnOnce(&mut H, Scope) -> T>(h: &mut H, f: F) -> (r: T)
    requires
        old(h).reactive().next_scope_id < usize::MAX,
        forall|m: &mut H, s: Scope| call_requires(f, (m, s)),
    ensures
        final(h).reactive().current_scope == old(h).reactive().current_scope,
        exists|m: &mut H| {
            &&& #[trigger] call_ensures(f, (m, (Scope { id: old(h).reactive().next_scope_id as ScopeId })), r)
            &&& m.reactive() == after_enter_scope(old(h).reactive(), old(h).reactive().next_scope_id as ScopeId)
            &&& m.effect_ids() == old(h).effect_ids()
            &&& m.run_log() == old(h).run_log()
            &&& m.cleanups() == old(h).cleanups()
            &&& final(h).reactive() == (ReactiveView {
                current_scope: old(h).reactive().current_scope,
                ..final(m).reactive()
            })
            &&& final(h).effect_ids() == final(m).effect_ids()
            &&& final(h).run_log() == final(m).run_log()
            &&& final(h).cleanups() == final(m).cleanups()
        },
{
    let (id, prev) = h.enter_scope();
    let ghost gf = f;
    let ghost before = (h.reactive(), h.effect_ids(), h.run_log(), h.cleanups());
    let result = call_root_body(f, h, Scope { id });
    let ghost after = (h.reactive(), h.effect_ids(), h.run_log(), h.cleanups());
    h.leave_scope(prev);
    proof {
        let m = choose|m: &mut H| {
            &&& #[trigger] call_ensures(gf, (m, Scope { id }), result)
            &&& (m.reactive(), m.effect_ids(), m.run_log(), m.cleanups()) == before
            &&& (final(m).reactive(), final(m).effect_ids(), final(m).run_log(), final(m).cleanups()) == after
        };
        assert(call_ensures(f, (m, (Scope { id: old(h).reactive().next_scope_id as ScopeId })), result));
    }
    result
}

impl Scope {
    /// Disposes this scope and its sub-scopes, running their cleanups:
    /// scope by scope, each scope's cleanups once, in registration order;
    /// this scope comes last and, where no scope lists an older one among
    /// its sub-scopes, every scope comes after its sub-scopes.
    pub fn dispose<H: Host + ?Sized>(self, h: &mut H)
        ensures
            exists|r: Set<ScopeId>| {
                &&& disposal(old(h).reactive().scopes, self.id, r)
                &&& final(h).reactive() == after_dispose(old(h).reactive(), self.id, r)
                &&& final(h).effect_ids() == old(h).effect_ids().difference(effects_of(old(h).reactive().scopes, r))
                &&& final(h).cleanups() == old(h).cleanups().remove_keys(r)
                &&& exists|ord: Seq<ScopeId>| {
                    &&& ord.to_set() == r
                    &&& final(h).cleanup_log() == old(h).cleanup_log() + cleanup_calls(old(h).cleanups(), ord)
                    &&& scopes_ordered(old(h).reactive().scopes) ==> children_first(old(h).reactive().scopes, ord, r)
                    &&& old(h).reactive().scopes.contains_key(self.id) ==> {
                        &&& ord.len() > 0
                        &&& ord.last() == self.id
                        &&& !ord.drop_last().contains(self.id)
                    }
                }
            },
            final(h).run_log() == old(h).run_log(),
    {
        h.dispose_scope(self.id);
    }
}

/// Registers `f` to run when the current scope is disposed; outside any
/// scope it is dropped and never runs.
pub fn on_cleanup<H: Host + ?Sized, F: FnOnce() + 'static>(h: &mut H, f: F)
    ensures
        final(h).reactive() == old(h).reactive(),
        final(h).effect_ids() == old(h).effect_ids(),
        final(h).run_log() == old(h).run_log(),
        final(h).cleanups() == with_cleanup(old(h).cleanups(), old(h).reactive()),
        final(h).cleanup_log() == old(h).cleanup_log(),
{
    h.add_cleanup(Box::new(OnceCleanup { f: Some(f) }));
}

/// Calls a memo's function on the runtime that runs the memo
/// (`Fn::call`): the value and the state left are an outcome that `f`
/// allows for the host as it was; `f` reaches the host only through the
/// methods of `Host`, which keep what `keeps` names.
#[verifier::external_body]
fn call_memo_fn<T, F: Fn(HostRef<'_>) -> T>(f: &F, host: &mut HostRef<'_>) -> (r: T)
    requires
        forall|m: HostRef<'_>| call_requires(*f, (m,)),
    ensures
        exists|m: HostRef<'_>| {
            &&& #[trigger] call_ensures(*f, (m,), r)
            &&& same_state(&*m.host, &*old(host).host)
            &&& same_state(&*final(m.host), &*final(host).host)
            &&& keeps(view_of(&*m.host), view_of(&*final(m.host)))
        },
        same_state(&*final(final(host).host), &*final(old(host).host)),
{
    f(HostRef { host: &mut *host.host })
}

/// What refreshing a memo leaves in `end`, from the state `s` after its
/// function computed `value`: the value is written to signal `id` (and its
/// subscribers run) when the signal is live, and nothing changes otherwise.
pub open spec fn memo_refresh(s: HostView, id: SignalId, value: Value, end: HostView) -> bool {
    if s.reactive.values.contains_key(id) {
        &&& s.run_log.is_prefix_of(end.run_log)
        &&& s.reactive.subscribers_of(id) == Set::<EffectId>::empty() ==> {
            &&& end.reactive == (ReactiveView { values: s.reactive.values.insert(id, value), ..s.reactive })
            &&& end.effect_ids == s.effect_ids
            &&& end.run_log == s.run_log
            &&& end.cleanups == s.cleanups
        }
    } else {
        s == end
    }
}

/// What creating a memo leaves in `end`, from the state `s` after its
/// function first computed `value`: unless ids are exhausted, a signal
/// holding `value` is created, then the effect that refreshes it is
/// registered and run once, from the state that the run log records.
pub open spec fn memo_created<A: Host + ?Sized, B: Host + ?Sized, T>(s: &A, value: Value, r: Option<ReadSignal<T>>, end: &B) -> bool {
    let v = s.reactive();
    if v.next_signal_id == usize::MAX || v.next_effect_id == usize::MAX {
        r is None && same_state(s, end)
    } else {
        let sig = v.next_signal_id as SignalId;
        let eff = v.next_effect_id as EffectId;
        let ready = after_new_effect(after_new_signal(v, sig, value), eff);
        &&& r is Some
        &&& r.unwrap().id == sig
        &&& end.effect_ids().contains(eff)
        &&& s.run_log().is_prefix_of(end.run_log())
        &&& end.run_log().len() > s.run_log().len()
        &&& end.run_log()[s.run_log().len() as int] == (eff, entered(ready, eff))
    }
}

/// The effect that keeps a memo's signal up to date.
#[verifier::reject_recursive_types(T)]
struct MemoEffect<T, F: Fn(HostRef<'_>) -> T> {
    f: F,
    write: WriteSignal<T>,
}

impl<T, F: Fn(HostRef<'_>) -> T> MemoEffect<T, F> {
    #[verifier::type_invariant]
    spec fn inv(self) -> bool {
        forall|m: HostRef<'_>| call_requires(self.f, (m,))
    }
}

impl<T, F: Fn(HostRef<'_>) -> T> MemoEffect<T, F> {
    /// The memo's function.
    pub closed spec fn function(&self) -> F {
        self.f
    }

    /// The signal that holds the memo's value.
    pub closed spec fn signal(&self) -> SignalId {
        self.write.id
    }
}

impl<T: SignalValue, F: Fn(HostRef<'_>) -> T> Effect for MemoEffect<T, F> {
    open spec fn ran(&self, host: HostRef<'_>) -> bool {
        exists|m: HostRef<'_>, v: T| {
            &&& #[trigger] call_ensures(self.function(), (m,), v)
            &&& view_of(&*m.host) == view_of(&*host.host)
        }
    }

    /// Recomputes the memo's value on `host` and writes it to the memo's
    /// signal, when that signal is still live.
    fn run(&mut self, host: HostRef<'_>)
        ensures
            exists|m: HostRef<'_>, v: T| {
                &&& #[trigger] call_ensures(old(self).function(), (m,), v)
                &&& same_state(&*m.host, &*old(host.host))
                &&& memo_refresh(view_of(&*final(m.host)), old(self).signal(), v.spec_to_value(), view_of(&*final(host.host)))
            },
    {
        let mut hr = host;
        proof {
            use_type_invariant(&*self);
        }
        let value = call_memo_fn(&self.f, &mut hr);
        let hh = hr.host;
        let ghost mid = (hh.reactive(), hh.effect_ids(), hh.run_log(), hh.cleanups());
        let ghost mid_log = hh.run_log();
        let ghost mid_held = hh.effect_ids();
        let ghost gv = value;
        if hh.peek_value(self.write.id).is_some() {
            self.write.set(hh, value);
        }
        proof {
            let a = view_of(&*old(host.host));
            let b = view_of(&*final(host.host));
            assert forall|j: int| a.run_log.len() <= j < b.run_log.len() implies a.effect_ids.contains(#[trigger] b.run_log[j].0) by {
                if j < mid_log.len() {
                    assert(mid_log.is_prefix_of(b.run_log));
                    assert(b.run_log.subrange(0, mid_log.len() as int)[j] == mid_log[j]);
                    assert(a.effect_ids.contains(mid_log[j].0));
                } else {
                    assert(mid_held.contains(b.run_log[j].0));
                }
            }
            let m = choose|m: HostRef<'_>| {
                &&& #[trigger] call_ensures(self.f, (m,), gv)
                &&& same_state(&*m.host, &*old(host.host))
                &&& (final(m.host).reactive(), final(m.host).effect_ids(), final(m.host).run_log(), final(m.host).cleanups()) == mid
            };
            assert(call_ensures(old(self).function(), (m,), gv));
        }
    }
}

/// What the first refresh of a memo leaves once the memo is created, from
/// the state `mid` after its function computed `value`: the run log goes
/// on from `mid`'s, and the memo's signal `id` holds `value` when it is
/// live and no effect subscribed to it; a signal that is not live keeps the
/// values as they were.
pub open spec fn memo_settled(mid: HostView, id: SignalId, value: Value, end: HostView) -> bool {
    &&& mid.run_log.is_prefix_of(end.run_log)
    &&& mid.reactive.values.contains_key(id) && mid.reactive.subscribers_of(id) == Set::<EffectId>::empty()
        ==> end.reactive.values == mid.reactive.values.insert(id, value)
    &&& !mid.reactive.values.contains_key(id) ==> end.reactive.values == mid.reactive.values
}

/// A signal whose value is `f`, recomputed whenever a signal `f` reads
/// changes.  `None` when signal or effect ids are exhausted once `f` has
/// first been computed.  Otherwise the memo's effect runs once before the
/// call returns: `f` is computed again as that effect, from the state the
/// run log records, and its result is written to the memo's signal.
pub fn create_memo<T: SignalValue + 'static, F: Fn(HostRef<'_>) -> T + 'static>(rt: &mut Runtime, f: F) -> (r: Option<ReadSignal<T>>)
    requires
        forall|m: HostRef<'_>| call_requires(f, (m,)),
    ensures
        exists|m: HostRef<'_>, v: T| {
            &&& #[trigger] call_ensures(f, (m,), v)
            &&& same_state(&*m.host, &*old(rt))
            &&& memo_created(&*final(m.host), v.spec_to_value(), r, &*final(rt))
            &&& r matches Some(sig) ==> exists|m2: HostRef<'_>, v2: T| {
                let eff = final(m.host).reactive().next_effect_id as EffectId;
                let ready = after_new_effect(after_new_signal(final(m.host).reactive(), sig.id, v.spec_to_value()), eff);
                &&& #[trigger] call_ensures(f, (m2,), v2)
                &&& view_of(&*m2.host).reactive == entered(ready, eff)
                &&& memo_settled(view_of(&*final(m2.host)), sig.id, v2.spec_to_value(), final(rt).host_view())
            }
        },
{
    let initial = call_memo_top(&f, rt);
    let ghost first = rt.host_view();
    if rt.next_signal_id() == usize::MAX || rt.next_effect_id() == usize::MAX {
        return None;
    }
    let (read, write) = create_signal(rt, initial);
    let mut memo = MemoEffect { f, write };
    let id = rt.core.create_effect_entry();
    let prev = rt.core.begin_effect(id);
    proof {
        rt.log@ = rt.log@.push((id, rt.reactive()));
    }
    let ghost pushed = rt.log@;
    let ghost start = rt.host_view();
    let hr = as_host(rt);
    memo.run(hr);
    let ghost after = rt.host_view();
    proof {
        assert(pushed.is_prefix_of(rt.log@));
        assert(rt.log@[first.run_log.len() as int] == pushed[first.run_log.len() as int]) by {
            assert(rt.log@.subrange(0, pushed.len() as int) == pushed);
        }
        assert(first.run_log.is_prefix_of(rt.log@)) by {
            assert(rt.log@.subrange(0, first.run_log.len() as int) =~= pushed.subrange(0, first.run_log.len() as int));
        }
    }
    rt.core.end_effect(prev);
    let ghost before = rt.effects@;
    let slot = EffectSlot { body: Box::new(memo) };
    rt.effects.insert(id, slot);
    proof {
        vstd::map::axiom_map_insert_domain(before, id, slot);
    }
    Some(read)
}

/// Calls a memo's function once on the runtime itself (`Fn::call`): the
/// value and the state left are an outcome that `f` allows for the runtime
/// as it was; `f` reaches the runtime only through the methods of `Host`,
/// which keep what `keeps` names.
#[verifier::external_body]
fn call_memo_top<T, F: Fn(HostRef<'_>) -> T>(f: &F, rt: &mut Runtime) -> (r: T)
    requires
        forall|m: HostRef<'_>| call_requires(*f, (m,)),
    ensures
        exists|m: HostRef<'_>| {
            &&& #[trigger] call_ensures(*f, (m,), r)
            &&& same_state(&*m.host, &*old(rt))
            &&& same_state(&*final(m.host), &*final(rt))
            &&& keeps(view_of(&*m.host), view_of(&*final(m.host)))
        },
{
    f(HostRef { host: rt })
}

impl<T: SignalValue> ReadSignal<T> {
    /// The signal's value; inside an effect, the effect subscribes to it.
    pub fn get<H: Host + ?Sized>(&self, h: &mut H) -> (r: T)
        requires
            old(h).reactive().values.contains_key(self.id),
            T::spec_from_value(old(h).reactive().values[self.id]) is Some,
        ensures
            Some(r) == T::spec_from_value(old(h).reactive().values[self.id]),
            final(h).reactive() == after_read(old(h).reactive(), self.id),
            final(h).effect_ids() == old(h).effect_ids(),
    {
        let v = h.read_value(self.id);
        match v {
            Some(v) => {
                match T::from_value(&v) {
                    Some(x) => x,
                    None => vstd::pervasive::unreached(),
                }
            },
            None => vstd::pervasive::unreached(),
        }
    }
}

impl<T: SignalValue> WriteSignal<T> {
    /// Stores `new_value` and runs the signal's subscribers.
    pub fn set<H: Host + ?Sized>(&self, h: &mut H, new_value: T)
        requires
            old(h).reactive().values.contains_key(self.id) || self.id < old(h).reactive().next_signal_id,
        ensures
            old(h).run_log().is_prefix_of(final(h).run_log()),
            old(h).cleanup_log().is_prefix_of(final(h).cleanup_log()),
            final(h).effect_ids().subset_of(old(h).effect_ids()),
            final(h).reactive().next_effect_id == old(h).reactive().next_effect_id,
            forall|j: int| old(h).run_log().len() <= j < final(h).run_log().len()
                ==> old(h).effect_ids().contains(#[trigger] final(h).run_log()[j].0),
            exists|order: Seq<EffectId>, marks: Seq<int>| write_runs(
                old(h).reactive(),
                self.id,
                new_value.spec_to_value(),
                old(h).effect_ids(),
                old(h).run_log().len(),
                final(h).run_log(),
                final(h).effect_ids(),
                order,
                marks,
            ),
            old(h).reactive().subscribers_of(self.id) == Set::<EffectId>::empty() ==> {
                &&& final(h).reactive() == (ReactiveView {
                    values: old(h).reactive().values.insert(self.id, new_value.spec_to_value()),
                    ..old(h).reactive()
                })
                &&& final(h).effect_ids() == old(h).effect_ids()
                &&& final(h).run_log() == old(h).run_log()
                &&& final(h).cleanups() == old(h).cleanups()
            },
    {
        h.write_value(self.id, new_value.to_value());
    }
}


/// Calls an update function on the current value (`FnOnce::call_once`):
/// the new value is one that `f` allows for it.
#[verifier::external_body]
fn call_update_fn<T, F: FnOnce(&T) -> T>(f: F, current: &T) -> (r: T)
    requires
        call_requires(f, (current,)),
    ensures
        call_ensures(f, (current,), r),
{
    f(current)
}

impl<T: SignalValue> WriteSignal<T> {
    /// Replaces the value by `f` of the current one (read without
    /// subscribing) and runs the signal's subscribers.
    pub fn update<H: Host + ?Sized, F: FnOnce(&T) -> T>(&self, h: &mut H, f: F)
        requires
            old(h).reactive().values.contains_key(self.id),
            T::spec_from_value(old(h).reactive().values[self.id]) is Some,
            call_requires(f, (&T::spec_from_value(old(h).reactive().values[self.id]).unwrap(),)),
        ensures
            exists|x: T| {
                &&& #[trigger] call_ensures(f, (&T::spec_from_value(old(h).reactive().values[self.id]).unwrap(),), x)
                &&& old(h).run_log().is_prefix_of(final(h).run_log())
                &&& exists|order: Seq<EffectId>, marks: Seq<int>| write_runs(
                    old(h).reactive(),
                    self.id,
                    x.spec_to_value(),
                    old(h).effect_ids(),
                    old(h).run_log().len(),
                    final(h).run_log(),
                    final(h).effect_ids(),
                    order,
                    marks,
                )
                &&& old(h).reactive().subscribers_of(self.id) == Set::<EffectId>::empty() ==> {
                    &&& final(h).reactive() == (ReactiveView {
                        values: old(h).reactive().values.insert(self.id, x.spec_to_value()),
                        ..old(h).reactive()
                    })
                    &&& final(h).effect_ids() == old(h).effect_ids()
                    &&& final(h).run_log() == old(h).run_log()
                    &&& final(h).cleanups() == old(h).cleanups()
                }
            },
    {
        let current = match h.peek_value(self.id) {
            Some(v) => match T::from_value(&v) {
                Some(x) => x,
                None => vstd::pervasive::unreached(),
            },
            None => vstd::pervasive::unreached(),
        };
        let new_value = call_update_fn(f, &current);
        let ghost x = new_value;
        self.set(h, new_value);
    }
}

/// Plain values that have a text form.
pub trait Render {
    fn render(&self) -> String;
}

impl Render for String {
    fn render(&self) -> (r: String)
        ensures
            r@ == self@,
    {
        self.clone()
    }
}

impl Render for i32 {
    fn render(&self) -> (r: String)
        ensures
            vstd::string::to_string_from_display_ensures::<i32>(self, r),
    {
        self.to_string()
    }
}

impl Render for u32 {
    fn render(&self) -> (r: String)
        ensures
            vstd::string::to_string_from_display_ensures::<u32>(self, r),
    {
        self.to_string()
    }
}

impl Render for bool {
    fn render(&self) -> (r: String)
        ensures
            vstd::string::to_string_from_display_ensures::<bool>(self, r),
    {
        self.to_string()
    }
}

/// Values, plain or reactive, that can be shown as text.
pub trait ToReactiveString {
    /// Whether `to_reactive_string` can be called on this graph.
    spec fn renderable(&self, v: ReactiveView) -> bool;

    fn to_reactive_string<H: Host + ?Sized>(&self, h: &mut H) -> String
        requires
            self.renderable(old(h).reactive()),
    ;
}

impl ToReactiveString for String {
    open spec fn renderable(&self, v: ReactiveView) -> bool { true }

    fn to_reactive_string<H: Host + ?Sized>(&self, h: &mut H) -> (r: String)
        ensures
            r@ == self@,
            final(h).reactive() == old(h).reactive(),
            final(h).effect_ids() == old(h).effect_ids(),
    {
        self.clone()
    }
}

impl ToReactiveString for &str {
    open spec fn renderable(&self, v: ReactiveView) -> bool { true }

    fn to_reactive_string<H: Host + ?Sized>(&self, h: &mut H) -> (r: String)
        ensures
            r@ == self@,
            final(h).reactive() == old(h).reactive(),
            final(h).effect_ids() == old(h).effect_ids(),
    {
        let s: &str = *self;
        s.to_owned()
    }
}

impl ToReactiveString for i32 {
    open spec fn renderable(&self, v: ReactiveView) -> bool { true }

    fn to_reactive_string<H: Host + ?Sized>(&self, h: &mut H) -> (r: String)
        ensures
            vstd::string::to_string_from_display_ensures::<i32>(self, r),
            final(h).reactive() == old(h).reactive(),
            final(h).effect_ids() == old(h).effect_ids(),
    {
        self.to_string()
    }
}

impl<T: SignalValue + Render> ToReactiveString for ReadSignal<T> {
    open spec fn renderable(&self, v: ReactiveView) -> bool {
        v.values.contains_key(self.id) && T::spec_from_value(v.values[self.id]) is Some
    }

    /// The text form of the signal's current value; inside an effect, the
    /// effect subscribes to the signal.
    fn to_reactive_string<H: Host + ?Sized>(&self, h: &mut H) -> (r: String)
        ensures
            final(h).reactive() == after_read(old(h).reactive(), self.id),
    {
        self.get(h).render()
    }
}

/// Values, plain or reactive, that can be used as a condition.
pub trait ToBool {
    /// Whether `to_bool` can be called on this graph.
    spec fn readable(&self, v: ReactiveView) -> bool;

    fn to_bool<H: Host + ?Sized>(&self, h: &mut H) -> bool
        requires
            self.readable(old(h).reactive()),
    ;
}

impl ToBool for bool {
    open spec fn readable(&self, v: ReactiveView) -> bool { true }

    fn to_bool<H: Host + ?Sized>(&self, h: &mut H) -> (r: bool)
        ensures
            r == *self,
            final(h).reactive() == old(h).reactive(),
            final(h).effect_ids() == old(h).effect_ids(),
    {
        *self
    }
}

impl ToBool for ReadSignal<bool> {
    open spec fn readable(&self, v: ReactiveView) -> bool {
        v.values.contains_key(self.id) && bool::spec_from_value(v.values[self.id]) is Some
    }

    /// The signal's current value; inside an effect, the effect subscribes.
    fn to_bool<H: Host + ?Sized>(&self, h: &mut H) -> (r: bool)
        ensures
            Some(r) == bool::spec_from_value(old(h).reactive().values[self.id]),
            final(h).reactive() == after_read(old(h).reactive(), self.id),
    {
        self.get(h)
    }
}

/// A signal read right after a write gives back the written value.
pub proof fn law_get_after_set<T: SignalValue>(v: ReactiveView, id: SignalId, x: T)
    ensures
        ({
            let w = ReactiveView { values: v.values.insert(id, x.spec_to_value()), ..v };
            &&& w.values.contains_key(id)
            &&& T::spec_from_value(w.values[id]) == Some(x)
        }),
{
    T::lemma_round_trip(x);
}

/// A new signal gets an id no live signal has, and creating it keeps the
/// graph well formed.
pub proof fn law_new_signal_is_fresh(v: ReactiveView, value: Value)
    requires
        v.wf(),
        v.next_signal_id < usize::MAX,
    ensures
        !v.values.contains_key(v.next_signal_id as SignalId),
        after_new_signal(v, v.next_signal_id as SignalId, value).wf(),
{
}

/// After a scope is disposed, no effect it (or a sub-scope) owned is
/// subscribed to anything, and none of its signals is left.
pub proof fn law_dispose_releases(v: ReactiveView, id: ScopeId, r: Set<ScopeId>)
    requires
        v.wf(),
        disposal(v.scopes, id, r),
    ensures
        after_dispose(v, id, r).wf(),
        forall|e: EffectId| #[trigger] effects_of(v.scopes, r).contains(e) ==> after_dispose(v, id, r).unsubscribed(e),
        forall|s: SignalId| #[trigger] signals_of(v.scopes, r).contains(s) ==> !after_dispose(v, id, r).values.contains_key(s)
            && !after_dispose(v, id, r).subscribers.contains_key(s),
        !after_dispose(v, id, r).scopes.contains_key(id),
{
    lemma_removed_wf(v, r, effects_of(v.scopes, r), signals_of(v.scopes, r));
}

/// When an effect starts again it holds no subscription, so it ends up
/// subscribed exactly to the signals it reads this time.
pub proof fn law_rerun_starts_unsubscribed(v: ReactiveView, e: EffectId)
    requires
        v.wf(),
    ensures
        (ReactiveView {
            subscribers: without_effect(v.subscribers, e),
            dependencies: v.dependencies.remove(e),
            ..v
        }).unsubscribed(e),
        !v.dependencies.remove(e).contains_key(e),
{
    lemma_without_effect_wf(v, e);
}

/// A tracked read inside effect `e` subscribes `e` to the signal.
pub proof fn law_read_subscribes(v: ReactiveView, id: SignalId, e: EffectId)
    requires
        v.wf(),
        v.current_effect == Some(e),
        v.values.contains_key(id),
    ensures
        after_read(v, id).subscribers_of(id).contains(e),
        after_read(v, id).dependencies[e].contains(id),
{
}

/// While an effect runs its body is not held (`entered_view` takes it out
/// and no operation of a host gives it back), so a write it makes, even to
/// a signal it has just read, does not run it again.
pub proof fn law_running_effect_not_rerun(
    start: HostView,
    e: EffectId,
    v: ReactiveView,
    id: SignalId,
    value: Value,
    held: Set<EffectId>,
    base: nat,
    log: Seq<(EffectId, ReactiveView)>,
    end_held: Set<EffectId>,
    order: Seq<EffectId>,
    marks: Seq<int>,
)
    requires
        held.subset_of(entered_view(start, e).effect_ids),
        write_runs(v, id, value, held, base, log, end_held, order, marks),
    ensures
        forall|k: int| 0 <= k < order.len() && order[k] == e ==> marks[k] == -1,
{
    assert forall|k: int| 0 <= k < order.len() && order[k] == e implies marks[k] == -1 by {
        assert(!held.contains(order[k]));
    }
}

/// Opening a scope keeps sub-scopes younger than their parents, unless the
/// current scope is the very id the new scope gets (a scope left for one
/// not yet created), which would list the new scope under itself.
pub proof fn law_enter_keeps_scopes_ordered(v: ReactiveView)
    requires
        v.wf(),
        scopes_ordered(v.scopes),
        v.next_scope_id < usize::MAX,
        v.current_scope != Some(v.next_scope_id as ScopeId),
    ensures
        scopes_ordered(with_child(v.scopes, v.current_scope, v.next_scope_id as ScopeId)),
{
    let id = v.next_scope_id as ScopeId;
    let w = with_child(v.scopes, v.current_scope, id);
    assert forall|d: ScopeId, c: ScopeId| w.contains_key(d) && #[trigger] w[d].sub_scopes.contains(c) implies d < c by {
        if d == id {
            assert(!v.scopes.contains_key(id));
            assert(w[d].sub_scopes.len() == 0);
        } else if v.current_scope == Some(d) && v.scopes.contains_key(d) {
            let k = w[d].sub_scopes.index_of(c);
            if k < v.scopes[d].sub_scopes.len() {
                assert(v.scopes[d].sub_scopes[k] == c);
                assert(v.scopes[d].sub_scopes.contains(c));
            } else {
                assert(c == id);
                assert(d < v.next_scope_id);
            }
        } else {
            assert(w[d] == v.scopes[d]);
            assert(v.scopes[d].sub_scopes.contains(c));
        }
    }
}

} // verus!
