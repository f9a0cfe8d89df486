//! Connected components: how many there are, and how large the largest is.
use vstd::prelude::*;
use crate::graph::{Graph, GraphView, lemma_universe};
use crate::names::NameSet;
use crate::reach;
use crate::traversal::{walk_done, lemma_key_in_universe};

verus! {

impl GraphView {
    /// The names reachable from some key before position `i`.
    pub open spec fn claimed(self, i: int) -> Set<Seq<char>> {
        Set::new(|v: Seq<char>| exists|j: int| 0 <= j < i && #[trigger] self.reachable(self.key(j), v))
    }

    /// The key at position `i` is reached from no earlier key: it starts a component.
    pub open spec fn is_seed(self, i: int) -> bool {
        !self.claimed(i).contains(self.key(i))
    }

    pub open spec fn seeds_upto(self, m: nat) -> nat
        decreases m,
    {
        if m == 0 {
            0
        } else {
            self.seeds_upto((m - 1) as nat) + if self.is_seed(m - 1) {
                1nat
            } else {
                0nat
            }
        }
    }

    /// The number of components: keys, in key order, that no earlier key reaches.
    pub open spec fn component_count(self) -> nat {
        self.seeds_upto(self.nodes.len())
    }

    /// The names that the key at position `i` reaches and no earlier key does.
    pub open spec fn fresh(self, i: int) -> Set<Seq<char>> {
        reach::reach_set(self.step(), self.key(i)).difference(self.claimed(i))
    }

    pub open spec fn largest_upto(self, m: nat) -> nat
        decreases m,
    {
        if m == 0 {
            0
        } else {
            let rest = self.largest_upto((m - 1) as nat);
            let here = self.fresh(m - 1).len();
            if here > rest {
                here
            } else {
                rest
            }
        }
    }

    /// The size of the largest component: the most names that one key adds
    /// to those reached from the keys before it.
    pub open spec fn largest_component(self) -> nat {
        self.largest_upto(self.nodes.len())
    }
}

/// A walk from the key at position `i`, started on the names claimed by the
/// earlier keys, leaves the names claimed by the keys up to `i`.
proof fn lemma_after_walk(g: GraphView, i: int, before: Set<Seq<char>>, after: Set<Seq<char>>)
    requires
        0 <= i < g.nodes.len(),
        before == g.claimed(i),
        reach::closed(g.step(), before),
        before.finite(),
        after.finite(),
        walk_done(g, g.key(i), before, after),
    ensures
        after == g.claimed(i + 1),
        reach::closed(g.step(), after),
        after.len() - before.len() == g.fresh(i).len(),
        g.is_seed(i) <==> after.len() > before.len(),
{
    let s = g.key(i);
    assert(reach::closed(g.step(), after));
    assert forall|v: Seq<char>| after.contains(v) <==> g.claimed(i + 1).contains(v) by {
        if after.contains(v) && !before.contains(v) {
            assert(g.reachable(g.key(i), v));
        }
        if g.claimed(i + 1).contains(v) && !before.contains(v) {
            let j = choose|j: int| 0 <= j < i + 1 && #[trigger] g.reachable(g.key(j), v);
            assert(j == i);
            reach::lemma_closed_reachable(g.step(), after, s, v);
        }
    }
    assert(after =~= g.claimed(i + 1));
    assert forall|v: Seq<char>| after.difference(before).contains(v) <==> g.fresh(i).contains(v) by {
        if g.fresh(i).contains(v) {
            assert(g.reachable(s, v));
            reach::lemma_closed_reachable(g.step(), after, s, v);
        }
    }
    assert(after.difference(before) =~= g.fresh(i));
    vstd::set_lib::lemma_set_difference_len(after, before);
    assert(after.intersect(before) =~= before);
    if g.is_seed(i) {
        assert(after.difference(before).contains(s));
    } else {
        assert forall|v: Seq<char>| !after.difference(before).contains(v) by {
            if after.contains(v) && !before.contains(v) {
                reach::lemma_closed_reachable(g.step(), before, s, v);
            }
        }
        assert(after.difference(before) =~= Set::<Seq<char>>::empty());
    }
}

proof fn lemma_claimed_empty(g: GraphView)
    ensures
        g.claimed(0) == Set::<Seq<char>>::empty(),
        reach::closed(g.step(), Set::<Seq<char>>::empty()),
{
    assert(g.claimed(0) =~= Set::<Seq<char>>::empty());
}

/// Each component's fresh names are names of the graph, so the largest
/// component holds no more names than the graph.
pub proof fn lemma_largest_within_names(g: GraphView)
    requires
        crate::graph::unique_keys(g.nodes),
    ensures
        g.largest_component() <= g.universe().len(),
{
    lemma_largest_upto_within(g, g.nodes.len());
}

proof fn lemma_largest_upto_within(g: GraphView, m: nat)
    requires
        crate::graph::unique_keys(g.nodes),
        m <= g.nodes.len(),
    ensures
        g.largest_upto(m) <= g.universe().len(),
    decreases m,
{
    if m > 0 {
        lemma_largest_upto_within(g, (m - 1) as nat);
        let i = m - 1;
        let s = g.key(i);
        lemma_universe(g);
        crate::graph::lemma_names_in(g.nodes);
        assert(g.universe().contains(g.nodes[i].0));
        let u = g.universe();
        assert forall|v: Seq<char>| g.fresh(i).contains(v) implies u.contains(v) by {
            let k = choose|k: nat| reach::reach_in(g.step(), s, v, k);
            lemma_reach_in_names(g, s, v, k);
        }
        vstd::set_lib::lemma_len_subset(g.fresh(i), u);
    }
}

proof fn lemma_reach_in_names(g: GraphView, s: Seq<char>, v: Seq<char>, k: nat)
    requires
        crate::graph::unique_keys(g.nodes),
        g.universe().contains(s),
        reach::reach_in(g.step(), s, v, k),
    ensures
        g.universe().contains(v),
    decreases k,
{
    lemma_universe(g);
    if s != v {
        let u = choose|u: Seq<char>| #[trigger] (g.step())(u, v) && reach::reach_in(g.step(), s, u, (k - 1) as nat);
        assert(g.edge(u, v));
    }
}

impl Graph {
    /// Counts the components, each found by a depth-first walk from a key
    /// that no earlier walk reached.
    pub fn connected_components_count(&self) -> (count: usize)
        requires
            self.wf(),
        ensures
            count == self@.component_count(),
    {
        let mut visited = NameSet::new();
        let mut count: usize = 0;
        let n = self.key_count();
        let mut i: usize = 0;
        proof {
            lemma_claimed_empty(self@);
        }
        while i < n
            invariant
                self.wf(),
                n == self@.nodes.len(),
                i <= n,
                visited.wf(),
                visited@.finite(),
                visited@ == self@.claimed(i as int),
                reach::closed(self@.step(), visited@),
                count == self@.seeds_upto(i as nat),
                count <= i,
            decreases n - i,
        {
            let key = self.key_at(i);
            let ghost before = visited@;
            if !visited.contains(key) {
                self.depth_first_visit(key, &mut visited);
                proof {
                    lemma_after_walk(self@, i as int, before, visited@);
                }
                count = count + 1;
            } else {
                proof {
                    walk_unchanged(self@, i as int, before);
                }
            }
            i = i + 1;
        }
        count
    }

    /// Counts the components by breadth-first walks from every key, counting
    /// a walk when it marked anything new.
    pub fn breadth_first_components_count(&self) -> (count: usize)
        requires
            self.wf(),
        ensures
            count == self@.component_count(),
    {
        let mut visited = NameSet::new();
        let mut count: usize = 0;
        let n = self.key_count();
        let mut i: usize = 0;
        proof {
            lemma_claimed_empty(self@);
        }
        while i < n
            invariant
                self.wf(),
                n == self@.nodes.len(),
                i <= n,
                visited.wf(),
                visited@.finite(),
                visited@ == self@.claimed(i as int),
                reach::closed(self@.step(), visited@),
                count == self@.seeds_upto(i as nat),
                count <= i,
            decreases n - i,
        {
            let key = self.key_at(i);
            let ghost before = visited@;
            let added = self.breadth_first_visit(key, &mut visited);
            proof {
                lemma_after_walk(self@, i as int, before, visited@);
            }
            if added > 0 {
                count = count + 1;
            }
            i = i + 1;
        }
        count
    }

    /// The size of the largest component, measured by depth-first walks from the keys that no earlier walk reached.
    pub fn depth_first_largest_component(&self) -> (r: i32)
        requires
            self.wf(),
            self@.universe().len() <= i32::MAX,
        ensures
            r >= 0,
            r as int == self@.largest_component(),
    {
        let mut visited = NameSet::new();
        let mut largest: usize = 0;
        let n = self.key_count();
        let mut i: usize = 0;
        proof {
            lemma_claimed_empty(self@);
        }
        while i < n
            invariant
                self.wf(),
                n == self@.nodes.len(),
                i <= n,
                visited.wf(),
                visited@.finite(),
                visited@ == self@.claimed(i as int),
                reach::closed(self@.step(), visited@),
                largest == self@.largest_upto(i as nat),
            decreases n - i,
        {
            let key = self.key_at(i);
            let ghost before = visited@;
            let size: usize = if !visited.contains(key) {
                let added = self.depth_first_visit(key, &mut visited);
                proof {
                    lemma_after_walk(self@, i as int, before, visited@);
                }
                added
            } else {
                proof {
                    walk_unchanged(self@, i as int, before);
                }
                0
            };
            if size > largest {
                largest = size;
            }
            i = i + 1;
        }
        proof {
            lemma_largest_within_names(self@);
        }
        largest as i32
    }

    /// The size of the largest component, measured by breadth-first walks from every key.
    pub fn breadth_first_largest_component(&self) -> (r: i32)
        requires
            self.wf(),
            self@.universe().len() <= i32::MAX,
        ensures
            r >= 0,
            r as int == self@.largest_component(),
    {
        let mut visited = NameSet::new();
        let mut largest: usize = 0;
        let n = self.key_count();
        let mut i: usize = 0;
        proof {
            lemma_claimed_empty(self@);
        }
        while i < n
            invariant
                self.wf(),
                n == self@.nodes.len(),
                i <= n,
                visited.wf(),
                visited@.finite(),
                visited@ == self@.claimed(i as int),
                reach::closed(self@.step(), visited@),
                largest == self@.largest_upto(i as nat),
            decreases n - i,
        {
            let key = self.key_at(i);
            let ghost before = visited@;
            let size = self.breadth_first_visit(key, &mut visited);
            proof {
                lemma_after_walk(self@, i as int, before, visited@);
            }
            if size > largest {
                largest = size;
            }
            i = i + 1;
        }
        proof {
            lemma_largest_within_names(self@);
        }
        largest as i32
    }
}

/// A key already claimed adds nothing.
proof fn walk_unchanged(g: GraphView, i: int, before: Set<Seq<char>>)
    requires
        0 <= i < g.nodes.len(),
        before == g.claimed(i),
        reach::closed(g.step(), before),
        before.finite(),
        before.contains(g.key(i)),
    ensures
        before == g.claimed(i + 1),
        !g.is_seed(i),
        g.fresh(i).len() == 0,
{
    assert(walk_done(g, g.key(i), before, before));
    lemma_after_walk(g, i, before, before);
}

} // verus!
