//! Reachability over an arbitrary step relation, measured in bounded walks.
use vstd::prelude::*;

verus! {

/// `t` can be reached from `s` by a walk of at most `k` steps.
pub open spec fn reach_in<V>(step: spec_fn(V, V) -> bool, s: V, t: V, k: nat) -> bool
    decreases k,
{
    s == t || (k > 0 && exists|u: V|
        #![trigger step(u, t)]
        reach_in(step, s, u, (k - 1) as nat) && step(u, t))
}

/// `t` can be reached from `s` by some finite walk.
pub open spec fn reachable<V>(step: spec_fn(V, V) -> bool, s: V, t: V) -> bool {
    exists|k: nat| reach_in(step, s, t, k)
}

/// Every step that leaves a member of `set` lands in `set`.
pub open spec fn closed<V>(step: spec_fn(V, V) -> bool, set: Set<V>) -> bool {
    forall|u: V, v: V| #[trigger] set.contains(u) && #[trigger] step(u, v) ==> set.contains(v)
}

/// The step relation goes both ways.
pub open spec fn symmetric<V>(step: spec_fn(V, V) -> bool) -> bool {
    forall|u: V, v: V| #[trigger] step(u, v) ==> step(v, u)
}

/// Everything reachable from `s`.
pub open spec fn reach_set<V>(step: spec_fn(V, V) -> bool, s: V) -> Set<V> {
    Set::new(|t: V| reachable(step, s, t))
}

/// A bound on walk length can always be raised.
pub proof fn lemma_reach_mono<V>(step: spec_fn(V, V) -> bool, s: V, t: V, j: nat, k: nat)
    requires
        reach_in(step, s, t, j),
        j <= k,
    ensures
        reach_in(step, s, t, k),
    decreases j,
{
    if s != t {
        let u = choose|u: V| #[trigger] step(u, t) && reach_in(step, s, u, (j - 1) as nat);
        lemma_reach_mono(step, s, u, (j - 1) as nat, (k - 1) as nat);
    }
}

/// One more step extends a walk.
pub proof fn lemma_reach_step<V>(step: spec_fn(V, V) -> bool, s: V, u: V, t: V, k: nat)
    requires
        reach_in(step, s, u, k),
        step(u, t),
    ensures
        reach_in(step, s, t, k + 1),
{
    assert(reach_in(step, s, u, ((k + 1) - 1) as nat));
}

/// Two walks joined end to end make one, their lengths added.
pub proof fn lemma_reach_trans<V>(step: spec_fn(V, V) -> bool, s: V, m: V, t: V, j: nat, k: nat)
    requires
        reach_in(step, s, m, j),
        reach_in(step, m, t, k),
    ensures
        reach_in(step, s, t, j + k),
    decreases k,
{
    if m == t {
        lemma_reach_mono(step, s, t, j, j + k);
    } else {
        let u = choose|u: V| #[trigger] step(u, t) && reach_in(step, m, u, (k - 1) as nat);
        lemma_reach_trans(step, s, m, u, j, (k - 1) as nat);
        lemma_reach_step(step, s, u, t, (j + k - 1) as nat);
    }
}

/// Reachability is transitive.
pub proof fn lemma_reachable_trans<V>(step: spec_fn(V, V) -> bool, s: V, m: V, t: V)
    requires
        reachable(step, s, m),
        reachable(step, m, t),
    ensures
        reachable(step, s, t),
{
    let j = choose|j: nat| reach_in(step, s, m, j);
    let k = choose|k: nat| reach_in(step, m, t, k);
    lemma_reach_trans(step, s, m, t, j, k);
}

/// A name reachable from a neighbor of `s` is reachable from `s`.
pub proof fn lemma_reachable_step<V>(step: spec_fn(V, V) -> bool, s: V, n: V, t: V)
    requires
        step(s, n),
        reachable(step, n, t),
    ensures
        reachable(step, s, t),
{
    assert(reach_in(step, s, s, 0));
    lemma_reach_step(step, s, s, n, 0);
    lemma_reachable_trans(step, s, n, t);
}

/// Every name reaches itself.
pub proof fn lemma_reachable_refl<V>(step: spec_fn(V, V) -> bool, s: V)
    ensures
        reachable(step, s, s),
{
    assert(reach_in(step, s, s, 0));
}

/// A closed set that holds `s` holds every name within `k` steps of it.
pub proof fn lemma_closed_reach<V>(step: spec_fn(V, V) -> bool, set: Set<V>, s: V, t: V, k: nat)
    requires
        closed(step, set),
        set.contains(s),
        reach_in(step, s, t, k),
    ensures
        set.contains(t),
    decreases k,
{
    if s != t {
        let u = choose|u: V| #[trigger] step(u, t) && reach_in(step, s, u, (k - 1) as nat);
        lemma_closed_reach(step, set, s, u, (k - 1) as nat);
    }
}

/// A closed set that holds `s` holds everything reachable from `s`.
pub proof fn lemma_closed_reachable<V>(step: spec_fn(V, V) -> bool, set: Set<V>, s: V, t: V)
    requires
        closed(step, set),
        set.contains(s),
        reachable(step, s, t),
    ensures
        set.contains(t),
{
    let k = choose|k: nat| reach_in(step, s, t, k);
    lemma_closed_reach(step, set, s, t, k);
}

/// Over a symmetric step relation, a walk can be taken backwards.
pub proof fn lemma_reach_symmetric<V>(step: spec_fn(V, V) -> bool, s: V, t: V, k: nat)
    requires
        symmetric(step),
        reach_in(step, s, t, k),
    ensures
        reach_in(step, t, s, k),
    decreases k,
{
    if s != t {
        let u = choose|u: V| #[trigger] step(u, t) && reach_in(step, s, u, (k - 1) as nat);
        lemma_reach_symmetric(step, s, u, (k - 1) as nat);
        assert(step(t, u));
        assert(reach_in(step, t, t, 0));
        lemma_reach_step(step, t, t, u, 0);
        lemma_reach_trans(step, t, u, s, 1, (k - 1) as nat);
    }
}

/// A walk over one step relation is a walk over any relation that allows
/// at least the same steps.
pub proof fn lemma_reach_sub<V>(
    small: spec_fn(V, V) -> bool,
    large: spec_fn(V, V) -> bool,
    s: V,
    t: V,
    k: nat,
)
    requires
        forall|u: V, v: V| #[trigger] small(u, v) ==> large(u, v),
        reach_in(small, s, t, k),
    ensures
        reach_in(large, s, t, k),
    decreases k,
{
    if s != t {
        let u = choose|u: V| #[trigger] small(u, t) && reach_in(small, s, u, (k - 1) as nat);
        lemma_reach_sub(small, large, s, u, (k - 1) as nat);
        lemma_reach_step(large, s, u, t, (k - 1) as nat);
    }
}

pub proof fn lemma_reachable_sub<V>(small: spec_fn(V, V) -> bool, large: spec_fn(V, V) -> bool, s: V, t: V)
    requires
        forall|u: V, v: V| #[trigger] small(u, v) ==> large(u, v),
        reachable(small, s, t),
    ensures
        reachable(large, s, t),
{
    let k = choose|k: nat| reach_in(small, s, t, k);
    lemma_reach_sub(small, large, s, t, k);
}

/// Marking one more element of a finite universe shrinks what is left of it.
pub proof fn lemma_unmarked_shrinks<V>(universe: Set<V>, before: Set<V>, now: Set<V>, x: V)
    requires
        universe.finite(),
        universe.contains(x),
        !before.contains(x),
        before.insert(x).subset_of(now),
    ensures
        universe.difference(now).len() < universe.difference(before).len(),
{
    let rest = universe.difference(before);
    vstd::set_lib::lemma_len_subset(rest, universe);
    assert(universe.difference(now).subset_of(rest.remove(x)));
    vstd::set_lib::lemma_len_subset(universe.difference(now), rest.remove(x));
}

} // verus!
