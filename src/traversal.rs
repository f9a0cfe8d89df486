//! Visited-set guarded walks over a graph: the depth-first and breadth-first
//! primitives that the component algorithms are built on.
use vstd::prelude::*;
use crate::graph::{Graph, GraphView, lemma_universe, lemma_names_in};
use crate::names::{NameSet, string_views};
use crate::reach;

verus! {

/// What a walk from `src` did to the visited set: it only grew; it now holds
/// `src`; a start already marked changes nothing; otherwise the names it
/// added are exactly those reachable from `src` through unmarked names; and
/// every edge leaving an added name ends in the set.
pub open spec fn walk_done(
    g: GraphView,
    src: Seq<char>,
    before: Set<Seq<char>>,
    after: Set<Seq<char>>,
) -> bool {
    &&& before.subset_of(after)
    &&& after.contains(src)
    &&& before.contains(src) ==> after == before
    &&& forall|v: Seq<char>|
        #![trigger after.contains(v)]
        after.contains(v) && !before.contains(v) ==> reach::reachable(g.avoiding(before), src, v)
            && g.reachable(src, v)
    &&& forall|v: Seq<char>|
        #![trigger reach::reachable(g.avoiding(before), src, v)]
        !before.contains(src) && reach::reachable(g.avoiding(before), src, v) ==> after.contains(v)
    &&& forall|v: Seq<char>, w: Seq<char>|
        #![trigger after.contains(v), g.edge(v, w)]
        after.contains(v) && !before.contains(v) && g.edge(v, w) ==> after.contains(w)
}

/// Steps avoiding a larger marked set avoid a smaller one too.
proof fn lemma_avoiding_sub(g: GraphView, small: Set<Seq<char>>, large: Set<Seq<char>>)
    requires
        small.subset_of(large),
    ensures
        forall|u: Seq<char>, v: Seq<char>| #[trigger] (g.avoiding(large))(u, v) ==> (g.avoiding(small))(u, v),
{
}

/// A walk whose added names have all their edges inside the set holds every
/// name reachable from its start through unmarked names.
proof fn lemma_walk_complete(g: GraphView, src: Seq<char>, before: Set<Seq<char>>, after: Set<Seq<char>>)
    requires
        after.contains(src),
        !before.contains(src),
        forall|v: Seq<char>, w: Seq<char>|
            #![trigger after.contains(v), g.edge(v, w)]
            after.contains(v) && !before.contains(v) && g.edge(v, w) ==> after.contains(w),
    ensures
        forall|v: Seq<char>|
            #![trigger reach::reachable(g.avoiding(before), src, v)]
            reach::reachable(g.avoiding(before), src, v) ==> after.contains(v),
{
    assert forall|u: Seq<char>, v: Seq<char>|
        #[trigger] after.contains(u) && #[trigger] (g.avoiding(before))(u, v) implies after.contains(v) by {
        assert(g.edge(u, v));
    }
    assert forall|v: Seq<char>| reach::reachable(g.avoiding(before), src, v) implies after.contains(v) by {
        reach::lemma_closed_reachable(g.avoiding(before), after, src, v);
    }
}

/// A name reachable from a neighbor through unmarked names, where the
/// neighbor and the start are unmarked, is reachable from the start too.
proof fn lemma_avoiding_step(
    g: GraphView,
    before: Set<Seq<char>>,
    mid: Set<Seq<char>>,
    src: Seq<char>,
    n: Seq<char>,
    v: Seq<char>,
)
    requires
        before.subset_of(mid),
        !before.contains(src),
        !mid.contains(n),
        g.edge(src, n),
        reach::reachable(g.avoiding(mid), n, v),
    ensures
        reach::reachable(g.avoiding(before), src, v),
{
    lemma_avoiding_sub(g, before, mid);
    reach::lemma_reachable_sub(g.avoiding(mid), g.avoiding(before), n, v);
    assert((g.avoiding(before))(src, n));
    reach::lemma_reachable_step(g.avoiding(before), src, n, v);
}

/// A key of the graph is one of its names.
pub proof fn lemma_key_in_universe(g: GraphView, u: Seq<char>)
    requires
        g.has_key(u),
    ensures
        g.universe().contains(u),
{
    lemma_names_in(g.nodes);
    let i = choose|i: int| crate::graph::has_key_at(g.nodes, u, i);
    assert(g.universe().contains(g.nodes[i].0));
}

/// A walk from `src` started on a closed set leaves exactly that set and
/// everything reachable from `src`.
pub proof fn lemma_walk_result(
    g: GraphView,
    src: Seq<char>,
    before: Set<Seq<char>>,
    after: Set<Seq<char>>,
)
    requires
        reach::closed(g.step(), before),
        walk_done(g, src, before, after),
    ensures
        reach::closed(g.step(), after),
        after == before.union(reach::reach_set(g.step(), src)),
{
    assert(reach::closed(g.step(), after));
    assert forall|v: Seq<char>| #[trigger] after.contains(v) <==> before.union(
        reach::reach_set(g.step(), src),
    ).contains(v) by {
        if reach::reachable(g.step(), src, v) {
            reach::lemma_closed_reachable(g.step(), after, src, v);
        }
    }
    assert(after =~= before.union(reach::reach_set(g.step(), src)));
}

/// Any two walks from one start on one closed set, depth first or breadth
/// first, mark the same names; so the component algorithms built on them
/// agree.
pub proof fn lemma_walks_agree(
    g: GraphView,
    src: Seq<char>,
    before: Set<Seq<char>>,
    after_depth: Set<Seq<char>>,
    after_breadth: Set<Seq<char>>,
)
    requires
        reach::closed(g.step(), before),
        walk_done(g, src, before, after_depth),
        walk_done(g, src, before, after_breadth),
    ensures
        after_depth == after_breadth,
{
    lemma_walk_result(g, src, before, after_depth);
    lemma_walk_result(g, src, before, after_breadth);
}

/// Every queued name is one of `names` and reachable from `src`.
pub open spec fn queue_within(
    g: GraphView,
    names: Set<Seq<char>>,
    src: Seq<char>,
    queue: Seq<String>,
) -> bool {
    forall|j: int|
        0 <= j < queue.len() ==> #[trigger] names.contains(queue[j]@) && g.reachable(
            src,
            queue[j]@,
        )
}

/// Every queued name is marked from the start or reachable from `src`
/// through unmarked names.
pub open spec fn queue_avoiding(
    g: GraphView,
    before: Set<Seq<char>>,
    src: Seq<char>,
    queue: Seq<String>,
) -> bool {
    forall|j: int|
        0 <= j < queue.len() ==> before.contains(#[trigger] queue[j]@) || reach::reachable(
            g.avoiding(before),
            src,
            queue[j]@,
        )
}

/// After the neighbors of `u` were appended to the queue, each of them waits in it.
proof fn lemma_pending_neighbors(
    g: GraphView,
    u: Seq<char>,
    list: Seq<String>,
    queue: Seq<String>,
    start: int,
    head: int,
)
    requires
        string_views(list) == g.neighbors(u),
        head <= start,
        queue.len() == start + list.len(),
        forall|j: int| 0 <= j < list.len() ==> #[trigger] queue[start + j]@ == list[j]@,
    ensures
        forall|w: Seq<char>|
            g.edge(u, w) ==> exists|j: int| head <= j < queue.len() && #[trigger] queue[j]@ == w,
{
    assert forall|w: Seq<char>| g.edge(u, w) implies exists|j: int|
        head <= j < queue.len() && #[trigger] queue[j]@ == w by {
        let j = choose|j: int| 0 <= j < string_views(list).len() && string_views(list)[j] == w;
        assert(queue[start + j]@ == list[j]@);
    }
}

impl Graph {
    /// Marks, depth first, every name reachable from `src` through unmarked
    /// names, and returns how many names it marked.
    pub fn depth_first_visit(&self, src: &String, visited: &mut NameSet) -> (added: usize)
        requires
            self.wf(),
            old(visited).wf(),
        ensures
            final(visited).wf(),
            walk_done(self@, src@, old(visited)@, final(visited)@),
            final(visited)@.finite(),
            added == final(visited)@.len() - old(visited)@.len(),
        decreases self@.universe().difference(old(visited)@).len(),
    {
        let ghost before = visited@;
        proof {
            visited.lemma_size();
        }
        if visited.contains(src) {
            assert(visited@ == before);
            return 0;
        }
        visited.insert(src.clone());
        let mut added: usize = 1;
        proof {
            visited.lemma_size();
            reach::lemma_reachable_refl(self@.step(), src@);
            reach::lemma_reachable_refl(self@.avoiding(before), src@);
        }
        match self.neighbor_list(src) {
            Some(list) => {
                proof {
                    lemma_universe(self@);
                    lemma_key_in_universe(self@, src@);
                }
                let mut i: usize = 0;
                while i < list.len()
                    invariant
                        self.wf(),
                        visited.wf(),
                        visited@.finite(),
                        self@.universe().finite(),
                        self@.universe().contains(src@),
                        i <= list@.len(),
                        string_views(list@) == self@.neighbors(src@),
                        !before.contains(src@),
                        before == old(visited)@,
                        before.insert(src@).subset_of(visited@),
                        forall|j: int| 0 <= j < i ==> visited@.contains(#[trigger] list@[j]@),
                        forall|v: Seq<char>|
                            #![trigger visited@.contains(v)]
                            visited@.contains(v) && !before.contains(v) ==> self@.reachable(
                                src@,
                                v,
                            ) && reach::reachable(self@.avoiding(before), src@, v),
                        forall|v: Seq<char>, w: Seq<char>|
                            #![trigger visited@.contains(v), self@.edge(v, w)]
                            visited@.contains(v) && !before.contains(v) && v != src@ && self@.edge(
                                v,
                                w,
                            ) ==> visited@.contains(w),
                        before.finite(),
                        added == visited@.len() - before.len(),
                    decreases list@.len() - i,
                {
                    let ghost mid = visited@;
                    proof {
                        reach::lemma_unmarked_shrinks(self@.universe(), before, mid, src@);
                    }
                    let n = self.depth_first_visit(&list[i], visited);
                    proof {
                        visited.lemma_size();
                        vstd::set_lib::lemma_len_subset(before, visited@);
                        assert(string_views(list@)[i as int] == list@[i as int]@);
                        assert(self@.edge(src@, list@[i as int]@));
                        assert forall|v: Seq<char>|
                            visited@.contains(v) && !before.contains(
                                v,
                            ) implies #[trigger] self@.reachable(src@, v) && reach::reachable(
                                self@.avoiding(before),
                                src@,
                                v,
                            ) by {
                            if !mid.contains(v) {
                                reach::lemma_reachable_step(self@.step(), src@, list@[i as int]@, v);
                                lemma_avoiding_step(self@, before, mid, src@, list@[i as int]@, v);
                            }
                        }
                    }
                    added = added + n;
                    i = i + 1;
                }
                proof {
                    assert forall|w: Seq<char>| self@.edge(src@, w) implies visited@.contains(w) by {
                        let j = choose|j: int|
                            0 <= j < string_views(list@).len() && string_views(list@)[j] == w;
                        assert(visited@.contains(list@[j]@));
                    }
                }
            },
            None => {},
        }
        proof {
            lemma_walk_complete(self@, src@, before, visited@);
        }
        added
    }

    /// Searches depth first from `src` for `dst`, marking what it passes,
    /// and stops as soon as it meets `dst`. Where it does not meet `dst`, it
    /// has done a whole walk from `src`.
    pub fn depth_first_search(&self, src: &String, dst: &String, visited: &mut NameSet) -> (found: bool)
        requires
            self.wf(),
            old(visited).wf(),
            !old(visited)@.contains(dst@),
        ensures
            final(visited).wf(),
            final(visited)@.finite(),
            found ==> self@.reachable(src@, dst@),
            !found ==> walk_done(self@, src@, old(visited)@, final(visited)@),
            !found ==> !final(visited)@.contains(dst@),
        decreases self@.universe().difference(old(visited)@).len(),
    {
        let ghost before = visited@;
        proof {
            visited.lemma_size();
        }
        if *src == *dst {
            proof {
                reach::lemma_reachable_refl(self@.step(), src@);
            }
            return true;
        }
        if visited.contains(src) {
            assert(visited@ == before);
            return false;
        }
        visited.insert(src.clone());
        proof {
            visited.lemma_size();
            reach::lemma_reachable_refl(self@.step(), src@);
            reach::lemma_reachable_refl(self@.avoiding(before), src@);
        }
        match self.neighbor_list(src) {
            Some(list) => {
                proof {
                    lemma_universe(self@);
                    lemma_key_in_universe(self@, src@);
                }
                let mut i: usize = 0;
                while i < list.len()
                    invariant
                        self.wf(),
                        visited.wf(),
                        visited@.finite(),
                        self@.universe().finite(),
                        self@.universe().contains(src@),
                        i <= list@.len(),
                        string_views(list@) == self@.neighbors(src@),
                        !before.contains(src@),
                        before == old(visited)@,
                        before.insert(src@).subset_of(visited@),
                        forall|j: int| 0 <= j < i ==> visited@.contains(#[trigger] list@[j]@),
                        forall|v: Seq<char>|
                            #![trigger visited@.contains(v)]
                            visited@.contains(v) && !before.contains(v) ==> self@.reachable(
                                src@,
                                v,
                            ) && reach::reachable(self@.avoiding(before), src@, v),
                        forall|v: Seq<char>, w: Seq<char>|
                            #![trigger visited@.contains(v), self@.edge(v, w)]
                            visited@.contains(v) && !before.contains(v) && v != src@ && self@.edge(
                                v,
                                w,
                            ) ==> visited@.contains(w),
                        before.finite(),
                        !visited@.contains(dst@),
                    decreases list@.len() - i,
                {
                    let ghost mid = visited@;
                    proof {
                        reach::lemma_unmarked_shrinks(self@.universe(), before, mid, src@);
                    }
                    if self.depth_first_search(&list[i], dst, visited) {
                        proof {
                            assert(string_views(list@)[i as int] == list@[i as int]@);
                            assert(self@.edge(src@, list@[i as int]@));
                            reach::lemma_reachable_step(self@.step(), src@, list@[i as int]@, dst@);
                        }
                        return true;
                    }
                    proof {
                        visited.lemma_size();
                        vstd::set_lib::lemma_len_subset(before, visited@);
                        assert(string_views(list@)[i as int] == list@[i as int]@);
                        assert(self@.edge(src@, list@[i as int]@));
                        assert forall|v: Seq<char>|
                            visited@.contains(v) && !before.contains(
                                v,
                            ) implies #[trigger] self@.reachable(src@, v) && reach::reachable(
                                self@.avoiding(before),
                                src@,
                                v,
                            ) by {
                            if !mid.contains(v) {
                                reach::lemma_reachable_step(self@.step(), src@, list@[i as int]@, v);
                                lemma_avoiding_step(self@, before, mid, src@, list@[i as int]@, v);
                            }
                        }
                    }
                    i = i + 1;
                }
                proof {
                    assert forall|w: Seq<char>| self@.edge(src@, w) implies visited@.contains(w) by {
                        let j = choose|j: int|
                            0 <= j < string_views(list@).len() && string_views(list@)[j] == w;
                        assert(visited@.contains(list@[j]@));
                    }
                }
            },
            None => {},
        }
        proof {
            lemma_walk_complete(self@, src@, before, visited@);
        }
        false
    }

    /// Marks, breadth first, every name reachable from `src` through
    /// unmarked names, and returns how many names it marked.
    pub fn breadth_first_visit(&self, src: &String, visited: &mut NameSet) -> (added: usize)
        requires
            self.wf(),
            old(visited).wf(),
        ensures
            final(visited).wf(),
            walk_done(self@, src@, old(visited)@, final(visited)@),
            final(visited)@.finite(),
            added == final(visited)@.len() - old(visited)@.len(),
    {
        let ghost before = visited@;
        let ghost names = self@.universe().insert(src@);
        proof {
            visited.lemma_size();
            lemma_universe(self@);
            reach::lemma_reachable_refl(self@.step(), src@);
            reach::lemma_reachable_refl(self@.avoiding(before), src@);
        }
        if visited.contains(src) {
            assert(visited@ == before);
            return 0;
        }
        let mut queue: Vec<String> = Vec::new();
        queue.push(src.clone());
        let mut head: usize = 0;
        let mut added: usize = 0;
        while head < queue.len()
            invariant
                self.wf(),
                visited.wf(),
                visited@.finite(),
                before.finite(),
                names.finite(),
                self@.universe().finite(),
                names == self@.universe().insert(src@),
                before.subset_of(visited@),
                head <= queue@.len(),
                queue@.len() >= 1,
                queue@[0]@ == src@,
                head >= 1 ==> visited@.contains(src@),
                queue_within(self@, names, src@, queue@),
                queue_avoiding(self@, before, src@, queue@),
                !before.contains(src@),
                forall|v: Seq<char>|
                    #![trigger visited@.contains(v)]
                    visited@.contains(v) && !before.contains(v) ==> self@.reachable(src@, v)
                        && reach::reachable(self@.avoiding(before), src@, v),
                forall|v: Seq<char>, w: Seq<char>|
                    #![trigger visited@.contains(v), self@.edge(v, w)]
                    visited@.contains(v) && !before.contains(v) && self@.edge(v, w)
                        ==> visited@.contains(w) || exists|j: int|
                        head <= j < queue@.len() && #[trigger] queue@[j]@ == w,
                added == visited@.len() - before.len(),
            decreases names.difference(visited@).len(), queue@.len() - head,
        {
            let current = queue[head].clone();
            proof {
                assert(names.contains(queue@[head as int]@));
            }
            let ghost mid = visited@;
            let ghost old_queue = queue@;
            let ghost old_head = head;
            head = head + 1;
            if visited.contains(&current) {
                proof {
                    assert forall|v: Seq<char>, w: Seq<char>|
                        visited@.contains(v) && !before.contains(v) && self@.edge(
                            v,
                            w,
                        ) implies visited@.contains(w) || exists|j: int|
                        head <= j < queue@.len() && #[trigger] queue@[j]@ == w by {
                        if !visited@.contains(w) {
                            let j = choose|j: int|
                                old_head <= j < queue@.len() && #[trigger] queue@[j]@ == w;
                            assert(j != old_head);
                        }
                    }
                }
                continue;
            }
            proof {
                assert(queue@[old_head as int]@ == current@);
                assert(before.contains(queue@[old_head as int]@) || reach::reachable(
                    self@.avoiding(before),
                    src@,
                    queue@[old_head as int]@,
                ));
            }
            visited.insert(current.clone());
            proof {
                visited.lemma_size();
                vstd::set_lib::lemma_len_subset(before, visited@);
                reach::lemma_unmarked_shrinks(names, mid, visited@, current@);
            }
            added = added + 1;
            match self.neighbor_list(&current) {
                Some(list) => {
                    let mut k: usize = 0;
                    while k < list.len()
                        invariant
                            self.wf(),
                            names == self@.universe().insert(src@),
                            self@.universe().finite(),
                            self@.has_key(current@),
                            self@.reachable(src@, current@),
                            string_views(list@) == self@.neighbors(current@),
                            k <= list@.len(),
                            head <= queue@.len(),
                            queue@.len() == old_queue.len() + k,
                            forall|j: int| 0 <= j < old_queue.len() ==> queue@[j] == old_queue[j],
                            forall|j: int|
                                0 <= j < k ==> #[trigger] queue@[old_queue.len() + j]@
                                    == list@[j]@,
                            queue_within(self@, names, src@, queue@),
                            queue_avoiding(self@, before, src@, queue@),
                            !before.contains(current@),
                            reach::reachable(self@.avoiding(before), src@, current@),
                        decreases list@.len() - k,
                    {
                        let n = list[k].clone();
                        proof {
                            assert(string_views(list@)[k as int] == n@);
                            assert(self@.edge(current@, n@));
                            lemma_universe(self@);
                            reach::lemma_reachable_refl(self@.step(), n@);
                            reach::lemma_reachable_step(self@.step(), current@, n@, n@);
                            reach::lemma_reachable_trans(self@.step(), src@, current@, n@);
                            if !before.contains(n@) {
                                assert((self@.avoiding(before))(current@, n@));
                                reach::lemma_reachable_refl(self@.avoiding(before), n@);
                                reach::lemma_reachable_step(self@.avoiding(before), current@, n@, n@);
                                reach::lemma_reachable_trans(self@.avoiding(before), src@, current@, n@);
                            }
                        }
                        queue.push(n);
                        k = k + 1;
                    }
                    proof {
                        lemma_pending_neighbors(self@, current@, list@, queue@, old_queue.len() as int, head as int);
                    }
                },
                None => {},
            }
            proof {
                assert forall|v: Seq<char>, w: Seq<char>|
                    visited@.contains(v) && !before.contains(v) && self@.edge(
                        v,
                        w,
                    ) implies visited@.contains(w) || exists|j: int|
                    head <= j < queue@.len() && #[trigger] queue@[j]@ == w by {
                    if !visited@.contains(w) && v != current@ {
                        let j = choose|j: int|
                            old_head <= j < old_queue.len() && #[trigger] old_queue[j]@ == w;
                        assert(j != old_head);
                        assert(queue@[j] == old_queue[j]);
                    }
                }
            }
        }
        proof {
            lemma_walk_complete(self@, src@, before, visited@);
        }
        added
    }

    /// Searches breadth first from `src` for `dst`, marking what it
    /// dequeues, and stops as soon as it dequeues `dst`. Where it does not
    /// meet `dst`, it has done a whole walk from `src`.
    pub fn breadth_first_search(&self, src: &String, dst: &String, visited: &mut NameSet) -> (found: bool)
        requires
            self.wf(),
            old(visited).wf(),
            !old(visited)@.contains(dst@),
        ensures
            final(visited).wf(),
            final(visited)@.finite(),
            found ==> self@.reachable(src@, dst@),
            !found ==> walk_done(self@, src@, old(visited)@, final(visited)@),
            !found ==> !final(visited)@.contains(dst@),
    {
        let ghost before = visited@;
        let ghost names = self@.universe().insert(src@);
        proof {
            visited.lemma_size();
            lemma_universe(self@);
            reach::lemma_reachable_refl(self@.step(), src@);
            reach::lemma_reachable_refl(self@.avoiding(before), src@);
        }
        if visited.contains(src) {
            assert(visited@ == before);
            return false;
        }
        let mut queue: Vec<String> = Vec::new();
        queue.push(src.clone());
        let mut head: usize = 0;
        while head < queue.len()
            invariant
                self.wf(),
                visited.wf(),
                visited@.finite(),
                before.finite(),
                names.finite(),
                self@.universe().finite(),
                names == self@.universe().insert(src@),
                before.subset_of(visited@),
                head <= queue@.len(),
                queue@.len() >= 1,
                queue@[0]@ == src@,
                head >= 1 ==> visited@.contains(src@),
                queue_within(self@, names, src@, queue@),
                queue_avoiding(self@, before, src@, queue@),
                !before.contains(src@),
                forall|v: Seq<char>|
                    #![trigger visited@.contains(v)]
                    visited@.contains(v) && !before.contains(v) ==> self@.reachable(src@, v)
                        && reach::reachable(self@.avoiding(before), src@, v),
                forall|v: Seq<char>, w: Seq<char>|
                    #![trigger visited@.contains(v), self@.edge(v, w)]
                    visited@.contains(v) && !before.contains(v) && self@.edge(v, w)
                        ==> visited@.contains(w) || exists|j: int|
                        head <= j < queue@.len() && #[trigger] queue@[j]@ == w,
                !visited@.contains(dst@),
            decreases names.difference(visited@).len(), queue@.len() - head,
        {
            let current = queue[head].clone();
            proof {
                assert(names.contains(queue@[head as int]@));
            }
            if current == *dst {
                return true;
            }
            let ghost mid = visited@;
            let ghost old_queue = queue@;
            let ghost old_head = head;
            head = head + 1;
            if visited.contains(&current) {
                proof {
                    assert forall|v: Seq<char>, w: Seq<char>|
                        visited@.contains(v) && !before.contains(v) && self@.edge(
                            v,
                            w,
                        ) implies visited@.contains(w) || exists|j: int|
                        head <= j < queue@.len() && #[trigger] queue@[j]@ == w by {
                        if !visited@.contains(w) {
                            let j = choose|j: int|
                                old_head <= j < queue@.len() && #[trigger] queue@[j]@ == w;
                            assert(j != old_head);
                        }
                    }
                }
                continue;
            }
            proof {
                assert(queue@[old_head as int]@ == current@);
                assert(before.contains(queue@[old_head as int]@) || reach::reachable(
                    self@.avoiding(before),
                    src@,
                    queue@[old_head as int]@,
                ));
            }
            visited.insert(current.clone());
            proof {
                visited.lemma_size();
                vstd::set_lib::lemma_len_subset(before, visited@);
                reach::lemma_unmarked_shrinks(names, mid, visited@, current@);
            }
            match self.neighbor_list(&current) {
                Some(list) => {
                    let mut k: usize = 0;
                    while k < list.len()
                        invariant
                            self.wf(),
                            names == self@.universe().insert(src@),
                            self@.universe().finite(),
                            self@.has_key(current@),
                            self@.reachable(src@, current@),
                            string_views(list@) == self@.neighbors(current@),
                            k <= list@.len(),
                            head <= queue@.len(),
                            queue@.len() == old_queue.len() + k,
                            forall|j: int| 0 <= j < old_queue.len() ==> queue@[j] == old_queue[j],
                            forall|j: int|
                                0 <= j < k ==> #[trigger] queue@[old_queue.len() + j]@
                                    == list@[j]@,
                            queue_within(self@, names, src@, queue@),
                            queue_avoiding(self@, before, src@, queue@),
                            !before.contains(current@),
                            reach::reachable(self@.avoiding(before), src@, current@),
                        decreases list@.len() - k,
                    {
                        let n = list[k].clone();
                        proof {
                            assert(string_views(list@)[k as int] == n@);
                            assert(self@.edge(current@, n@));
                            lemma_universe(self@);
                            reach::lemma_reachable_refl(self@.step(), n@);
                            reach::lemma_reachable_step(self@.step(), current@, n@, n@);
                            reach::lemma_reachable_trans(self@.step(), src@, current@, n@);
                            if !before.contains(n@) {
                                assert((self@.avoiding(before))(current@, n@));
                                reach::lemma_reachable_refl(self@.avoiding(before), n@);
                                reach::lemma_reachable_step(self@.avoiding(before), current@, n@, n@);
                                reach::lemma_reachable_trans(self@.avoiding(before), src@, current@, n@);
                            }
                        }
                        queue.push(n);
                        k = k + 1;
                    }
                    proof {
                        lemma_pending_neighbors(self@, current@, list@, queue@, old_queue.len() as int, head as int);
                    }
                },
                None => {},
            }
            proof {
                assert forall|v: Seq<char>, w: Seq<char>|
                    visited@.contains(v) && !before.contains(v) && self@.edge(
                        v,
                        w,
                    ) implies visited@.contains(w) || exists|j: int|
                    head <= j < queue@.len() && #[trigger] queue@[j]@ == w by {
                    if !visited@.contains(w) && v != current@ {
                        let j = choose|j: int|
                            old_head <= j < old_queue.len() && #[trigger] old_queue[j]@ == w;
                        assert(j != old_head);
                        assert(queue@[j] == old_queue[j]);
                    }
                }
            }
        }
        proof {
            lemma_walk_complete(self@, src@, before, visited@);
        }
        false
    }
}

} // verus!
