//! Path queries: whether one name reaches another, and how far it is.
use vstd::prelude::*;
use crate::graph::{Graph, GraphView, lemma_universe};
use crate::names::string_views;
use crate::names::NameSet;
use crate::reach;
use crate::traversal::lemma_walk_result;

verus! {

impl GraphView {
    /// `b` is `d` steps from `a`, and no fewer.
    pub open spec fn is_distance(self, a: Seq<char>, b: Seq<char>, d: nat) -> bool {
        &&& reach::reach_in(self.step(), a, b, d)
        &&& forall|k: nat| k < d ==> !#[trigger] reach::reach_in(self.step(), a, b, k)
    }

    /// The names within `d` steps of `a`.
    pub open spec fn within(self, a: Seq<char>, d: nat) -> Set<Seq<char>> {
        Set::new(|v: Seq<char>| reach::reach_in(self.step(), a, v, d))
    }
}

/// The first `d` at which `b` is within reach is its distance.
proof fn lemma_first_level(g: GraphView, a: Seq<char>, b: Seq<char>, d: nat)
    requires
        reach::reach_in(g.step(), a, b, d),
        d > 0 ==> !reach::reach_in(g.step(), a, b, (d - 1) as nat),
    ensures
        g.is_distance(a, b, d),
{
    assert forall|k: nat| k < d implies !#[trigger] reach::reach_in(g.step(), a, b, k) by {
        if reach::reach_in(g.step(), a, b, k) {
            reach::lemma_reach_mono(g.step(), a, b, k, (d - 1) as nat);
        }
    }
}

/// When one more step reaches nothing new, the names within reach are closed.
proof fn lemma_level_closed(g: GraphView, a: Seq<char>, d: nat)
    requires
        g.within(a, d + 1) == g.within(a, d),
    ensures
        reach::closed(g.step(), g.within(a, d)),
{
    assert forall|u: Seq<char>, v: Seq<char>|
        #[trigger] g.within(a, d).contains(u) && #[trigger] (g.step())(u, v) implies g.within(
        a,
        d,
    ).contains(v) by {
        reach::lemma_reach_step(g.step(), a, u, v, d);
        assert(g.within(a, d + 1).contains(v));
    }
}

/// The stack as names with distances.
pub open spec fn stack_view(stack: Seq<(String, usize)>) -> Seq<(Seq<char>, int)> {
    stack.map_values(|e: (String, usize)| (e.0@, e.1 as int))
}

/// Pushes, in list order, each name of `list` that is not marked yet, at
/// distance `d`, marking it.
pub open spec fn push_unmarked(
    stack: Seq<(Seq<char>, int)>,
    marked: Set<Seq<char>>,
    list: Seq<Seq<char>>,
    d: int,
) -> (Seq<(Seq<char>, int)>, Set<Seq<char>>)
    decreases list.len(),
{
    if list.len() == 0 {
        (stack, marked)
    } else {
        let (s, m) = push_unmarked(stack, marked, list.drop_last(), d);
        if m.contains(list.last()) {
            (s, m)
        } else {
            (s.push((list.last(), d)), m.insert(list.last()))
        }
    }
}

/// The depth-first search for `dst`: pop the top name; if it is `dst`, its
/// distance is the answer; otherwise push its unmarked neighbors one step
/// further. An empty stack gives -1; `fuel` bounds the number of pops.
pub open spec fn stack_search(
    g: GraphView,
    dst: Seq<char>,
    stack: Seq<(Seq<char>, int)>,
    marked: Set<Seq<char>>,
    fuel: nat,
) -> int
    decreases fuel,
{
    if fuel == 0 || stack.len() == 0 {
        -1
    } else if stack.last().0 == dst {
        stack.last().1
    } else {
        let (s, m) = push_unmarked(
            stack.drop_last(),
            marked,
            g.neighbors(stack.last().0),
            stack.last().1 + 1,
        );
        stack_search(g, dst, s, m, (fuel - 1) as nat)
    }
}

/// The distance at which the depth-first search from `a` first pops `b`,
/// or -1. Each name is pushed at most once, so as many pops as there are
/// names, and one more, always suffice.
pub open spec fn depth_first_distance(g: GraphView, a: Seq<char>, b: Seq<char>) -> int {
    stack_search(g, b, seq![(a, 0int)], set![a], g.universe().insert(a).len() + 1)
}

/// `p` is a walk from `a` to `b` along edges that repeats no name.
pub open spec fn is_simple_path(g: GraphView, p: Seq<Seq<char>>, a: Seq<char>, b: Seq<char>) -> bool {
    &&& p.len() >= 1
    &&& p[0] == a
    &&& p.last() == b
    &&& p.no_duplicates()
    &&& forall|i: int| 0 <= i < p.len() - 1 ==> g.edge(p[i], #[trigger] p[i + 1])
}

/// Each stack entry comes with a simple path from `a` to it, one name longer
/// than its distance, through marked names only.
pub open spec fn paths_ok(
    g: GraphView,
    a: Seq<char>,
    stack: Seq<(String, usize)>,
    paths: Seq<Seq<Seq<char>>>,
    marked: Set<Seq<char>>,
) -> bool {
    &&& paths.len() == stack.len()
    &&& forall|j: int|
        0 <= j < paths.len() ==> is_simple_path(g, #[trigger] paths[j], a, stack[j].0@)
            && paths[j].len() == stack[j].1 + 1 && forall|k: int|
            0 <= k < paths[j].len() ==> marked.contains(paths[j][k])
}

/// A simple path extended by an edge to an unmarked name stays simple.
proof fn lemma_extend_path(
    g: GraphView,
    p: Seq<Seq<char>>,
    a: Seq<char>,
    u: Seq<char>,
    n: Seq<char>,
    marked: Set<Seq<char>>,
)
    requires
        is_simple_path(g, p, a, u),
        g.edge(u, n),
        !marked.contains(n),
        forall|k: int| 0 <= k < p.len() ==> marked.contains(p[k]),
    ensures
        is_simple_path(g, p.push(n), a, n),
        forall|k: int| 0 <= k < p.push(n).len() ==> marked.insert(n).contains(p.push(n)[k]),
{
    let q = p.push(n);
    assert forall|i: int, j: int| 0 <= i < q.len() && 0 <= j < q.len() && i != j implies q[i] != q[j] by {
        if i == p.len() {
            assert(marked.contains(p[j]));
        } else if j == p.len() {
            assert(marked.contains(p[i]));
        } else {
            assert(p[i] != p[j]);
        }
    }
    assert forall|i: int| 0 <= i < q.len() - 1 implies g.edge(q[i], #[trigger] q[i + 1]) by {
        if i < p.len() - 1 {
            assert(q[i] == p[i] && q[i + 1] == p[i + 1]);
        }
    }
}

/// `v` waits on the stack.
pub open spec fn on_stack(stack: Seq<(String, usize)>, v: Seq<char>) -> bool {
    exists|j: int| 0 <= j < stack.len() && #[trigger] stack[j].0@ == v
}

/// Breadth-first search finds the distance, depth-first search the length
/// of some walk: the first is never longer than the second.
pub proof fn lemma_breadth_first_not_longer(
    g: GraphView,
    a: Seq<char>,
    b: Seq<char>,
    breadth: nat,
    depth: nat,
)
    requires
        g.is_distance(a, b, breadth),
        reach::reach_in(g.step(), a, b, depth),
    ensures
        breadth <= depth,
{
}

proof fn lemma_empty_closed(g: GraphView)
    ensures
        reach::closed(g.step(), Set::<Seq<char>>::empty()),
{
}

impl Graph {
    /// Whether `dst` can be reached from `src`, by a visited-guarded
    /// depth-first search that stops when it meets `dst`.
    pub fn depth_first_has_path(&self, src: &str, dst: &str) -> (r: bool)
        requires
            self.wf(),
        ensures
            r == self@.reachable(src@, dst@),
    {
        let src = src.to_string();
        let dst = dst.to_string();
        let mut visited = NameSet::new();
        proof {
            lemma_empty_closed(self@);
        }
        let found = self.depth_first_search(&src, &dst, &mut visited);
        proof {
            if !found {
                lemma_walk_result(self@, src@, Set::empty(), visited@);
            }
        }
        found
    }

    /// Whether `dst` can be reached from `src`, by a visited-guarded
    /// breadth-first search that stops when it meets `dst`.
    pub fn breadth_first_has_path(&self, src: &str, dst: &str) -> (r: bool)
        requires
            self.wf(),
        ensures
            r == self@.reachable(src@, dst@),
    {
        let src = src.to_string();
        let dst = dst.to_string();
        let mut visited = NameSet::new();
        proof {
            lemma_empty_closed(self@);
        }
        let found = self.breadth_first_search(&src, &dst, &mut visited);
        proof {
            if !found {
                lemma_walk_result(self@, src@, Set::empty(), visited@);
            }
        }
        found
    }

    /// Whether `node_a` and `node_b` are joined, on a graph whose edges go
    /// both ways, by a depth-first walk.
    pub fn undirected_path_depth_first(&self, node_a: &str, node_b: &str) -> (r: bool)
        requires
            self.wf(),
        ensures
            r == self@.reachable(node_a@, node_b@),
    {
        self.depth_first_has_path(node_a, node_b)
    }

    /// Whether `node_a` and `node_b` are joined, on a graph whose edges go
    /// both ways, by a breadth-first walk.
    pub fn undirected_path_breadth_first(&self, node_a: &str, node_b: &str) -> (r: bool)
        requires
            self.wf(),
        ensures
            r == self@.reachable(node_a@, node_b@),
    {
        self.breadth_first_has_path(node_a, node_b)
    }

    /// The number of steps from `node_a` to `node_b` along a shortest walk,
    /// found level by level; -1 where `node_b` cannot be reached.
    pub fn breadth_first_shortest_path(&self, node_a: &str, node_b: &str) -> (r: i32)
        requires
            self.wf(),
            self@.universe().len() < i32::MAX,
        ensures
            r >= 0 ==> self@.is_distance(node_a@, node_b@, r as nat),
            r < 0 ==> r == -1 && !self@.reachable(node_a@, node_b@),
    {
        let src = node_a.to_string();
        let dst = node_b.to_string();
        let ghost a = src@;
        let ghost b = dst@;
        let ghost names = self@.universe().insert(a);
        proof {
            lemma_universe(self@);
            assert(self@.within(a, 0) =~= Set::<Seq<char>>::empty().insert(a));
        }
        let mut visited = NameSet::new();
        visited.insert(src.clone());
        let mut frontier = NameSet::new();
        frontier.insert(src);
        let mut d: usize = 0;
        loop
            invariant
                self.wf(),
                self@.universe().finite(),
                self@.universe().len() < i32::MAX,
                names == self@.universe().insert(a),
                a == node_a@,
                b == node_b@,
                b == dst@,
                visited.wf(),
                frontier.wf(),
                visited@.finite(),
                visited@ == self@.within(a, d as nat),
                visited@.subset_of(names),
                d < visited@.len(),
                forall|v: Seq<char>|
                    #[trigger] frontier@.contains(v) <==> visited@.contains(v) && !(d > 0
                        && reach::reach_in(self@.step(), a, v, (d - 1) as nat)),
                d > 0 ==> !reach::reach_in(self@.step(), a, b, (d - 1) as nat),
            decreases names.difference(visited@).len(),
        {
            if visited.contains(&dst) {
                proof {
                    lemma_first_level(self@, a, b, d as nat);
                    vstd::set_lib::lemma_len_subset(visited@, names);
                }
                return d as i32;
            }
            let ghost level = visited@;
            let mut next = NameSet::new();
            let mut fi: usize = 0;
            proof {
                frontier.lemma_items();
            }
            while fi < frontier.len()
                invariant
                    self.wf(),
                    self@.universe().finite(),
                    names == self@.universe().insert(a),
                    visited.wf(),
                    next.wf(),
                    frontier.wf(),
                    fi <= frontier.size(),
                    level.finite(),
                    level.subset_of(names),
                    forall|i: int| 0 <= i < frontier.size() ==> level.contains(#[trigger] frontier.item(i)),
                    visited@ == level.union(next@),
                    forall|v: Seq<char>| #[trigger] next@.contains(v) ==> !level.contains(v)
                        && names.contains(v)
                        && reach::reach_in(self@.step(), a, v, (d + 1) as nat),
                    forall|j: int, w: Seq<char>|
                        0 <= j < fi && #[trigger] self@.edge(frontier.item(j), w)
                            ==> visited@.contains(w),
                    level == self@.within(a, d as nat),
                decreases frontier.size() - fi,
            {
                let u = frontier.get(fi);
                let ghost vis_before = visited@;
                match self.neighbor_list(u) {
                    Some(list) => {
                        let mut k: usize = 0;
                        while k < list.len()
                            invariant
                                self.wf(),
                                self@.universe().finite(),
                                names == self@.universe().insert(a),
                                visited.wf(),
                                next.wf(),
                                k <= list@.len(),
                                string_views(list@) == self@.neighbors(u@),
                                level.contains(u@),
                                level == self@.within(a, d as nat),
                                visited@ == level.union(next@),
                                forall|v: Seq<char>| #[trigger] next@.contains(v) ==> !level.contains(v)
                                    && names.contains(v)
                                    && reach::reach_in(self@.step(), a, v, (d + 1) as nat),
                                forall|j: int| 0 <= j < k ==> visited@.contains(#[trigger] list@[j]@),
                                vis_before.subset_of(visited@),
                            decreases list@.len() - k,
                        {
                            let n = &list[k];
                            proof {
                                assert(string_views(list@)[k as int] == n@);
                                assert(self@.edge(u@, n@));
                                reach::lemma_reach_step(self@.step(), a, u@, n@, d as nat);
                                lemma_universe(self@);
                            }
                            if !visited.contains(n) {
                                visited.insert(n.clone());
                                next.insert(n.clone());
                            }
                            k = k + 1;
                        }
                        proof {
                            assert forall|w: Seq<char>| self@.edge(u@, w) implies visited@.contains(w) by {
                                let j = choose|j: int|
                                    0 <= j < string_views(list@).len() && string_views(list@)[j] == w;
                                assert(visited@.contains(list@[j]@));
                            }
                        }
                    },
                    None => {},
                }
                proof {
                    assert forall|j: int, w: Seq<char>|
                        0 <= j < fi + 1 && #[trigger] self@.edge(frontier.item(j), w) implies visited@.contains(w) by {
                        if j == fi {
                            assert(frontier.item(j) == u@);
                        } else {
                            assert(vis_before.contains(w));
                        }
                    }
                }
                fi = fi + 1;
            }
            proof {
                visited.lemma_size();
                next.lemma_size();
                next.lemma_items();
                assert forall|v: Seq<char>| #[trigger] visited@.contains(v) <==> self@.within(
                    a,
                    (d + 1) as nat,
                ).contains(v) by {
                    if level.contains(v) {
                        reach::lemma_reach_mono(self@.step(), a, v, d as nat, (d + 1) as nat);
                    }
                    if reach::reach_in(self@.step(), a, v, (d + 1) as nat) && !level.contains(v) {
                        let u = choose|u: Seq<char>|
                            #[trigger] (self@.step())(u, v) && reach::reach_in(
                                self@.step(),
                                a,
                                u,
                                d as nat,
                            );
                        if d > 0 && reach::reach_in(self@.step(), a, u, (d - 1) as nat) {
                            reach::lemma_reach_step(self@.step(), a, u, v, (d - 1) as nat);
                        }
                        assert(frontier@.contains(u));
                        frontier.lemma_items();
                        let j = choose|j: int| 0 <= j < frontier.size() && #[trigger] frontier.item(j) == u;
                        assert(self@.edge(frontier.item(j), v));
                    }
                }
                assert(visited@ =~= self@.within(a, (d + 1) as nat));
            }
            if next.len() == 0 {
                proof {
                    assert(next@ =~= Set::<Seq<char>>::empty());
                    assert(visited@ =~= level);
                    lemma_level_closed(self@, a, d as nat);
                    if reach::reachable(self@.step(), a, b) {
                        reach::lemma_closed_reachable(self@.step(), level, a, b);
                    }
                }
                return -1;
            }
            proof {
                let x = next.item(0);
                assert(next@.contains(x));
                assert(visited@.contains(x));
                assert(level.subset_of(visited@.remove(x)));
                vstd::set_lib::lemma_len_subset(level, visited@.remove(x));
                assert(visited@.subset_of(names));
                vstd::set_lib::lemma_len_subset(visited@, names);
                reach::lemma_unmarked_shrinks(names, level, visited@, x);
                assert forall|v: Seq<char>| #[trigger] next@.contains(v) <==> visited@.contains(v) && !(
                (d + 1) > 0 && reach::reach_in(self@.step(), a, v, d as nat)) by {
                    assert(level.contains(v) <==> reach::reach_in(self@.step(), a, v, d as nat));
                }
            }
            frontier = next;
            d = d + 1;
        }
    }

    /// The number of steps along the walk from `node_a` to `node_b` that a
    /// depth-first search meets first; not always the shortest. -1 where
    /// `node_b` cannot be reached.
    pub fn depth_first_shortest_path(&self, node_a: &str, node_b: &str) -> (r: i32)
        requires
            self.wf(),
            self@.universe().len() < i32::MAX,
        ensures
            r as int == depth_first_distance(self@, node_a@, node_b@),
            node_a@ == node_b@ ==> r == 0,
            r >= 0 ==> exists|p: Seq<Seq<char>>|
                is_simple_path(self@, p, node_a@, node_b@) && p.len() == r + 1,
            r >= 0 ==> reach::reach_in(self@.step(), node_a@, node_b@, r as nat),
            r >= 0 ==> r < self@.universe().insert(node_a@).len(),
            r < 0 ==> r == -1 && !self@.reachable(node_a@, node_b@),
    {
        let src = node_a.to_string();
        let dst = node_b.to_string();
        let ghost a = src@;
        let ghost b = dst@;
        let ghost names = self@.universe().insert(a);
        proof {
            lemma_universe(self@);
            assert(reach::reach_in(self@.step(), a, a, 0));
        }
        let mut visited = NameSet::new();
        visited.insert(src.clone());
        let mut stack: Vec<(String, usize)> = Vec::new();
        stack.push((src, 0));
        assert(stack@[0].0@ == a);
        let ghost mut pops: nat = 0;
        let ghost mut paths: Seq<Seq<Seq<char>>> = seq![seq![a]];
        proof {
            assert(is_simple_path(self@, paths[0], a, stack@[0].0@));
            visited.lemma_size();
            assert(visited@ == set![a]);
            assert(stack_view(stack@) =~= seq![(a, 0int)]);
            vstd::set_lib::lemma_len_subset(visited@, names);
        }
        loop
            invariant
                self.wf(),
                self@.universe().finite(),
                self@.universe().len() < i32::MAX,
                names == self@.universe().insert(a),
                a == node_a@,
                b == node_b@,
                b == dst@,
                visited.wf(),
                visited@.finite(),
                visited@.subset_of(names),
                visited@.contains(a),
                visited@.len() == stack@.len() + pops,
                visited@.len() <= names.len(),
                paths_ok(self@, a, stack@, paths, visited@),
                stack_search(
                    self@,
                    b,
                    stack_view(stack@),
                    visited@,
                    (names.len() + 1 - pops) as nat,
                ) == depth_first_distance(self@, a, b),
                forall|j: int|
                    0 <= j < stack@.len() ==> reach::reach_in(
                        self@.step(),
                        a,
                        #[trigger] stack@[j].0@,
                        stack@[j].1 as nat,
                    ) && stack@[j].1 < visited@.len() && visited@.contains(stack@[j].0@),
                forall|v: Seq<char>|
                    #[trigger] visited@.contains(v) ==> on_stack(stack@, v) || (v != b && forall|
                        w: Seq<char>,
                    | #[trigger] self@.edge(v, w) ==> visited@.contains(w)),
            decreases names.difference(visited@).len(), stack@.len(),
        {
            let ghost old_stack = stack@;
            match stack.pop() {
                None => {
                    proof {
                        assert forall|u: Seq<char>, w: Seq<char>|
                            #[trigger] visited@.contains(u) && #[trigger] (self@.step())(
                                u,
                                w,
                            ) implies visited@.contains(w) by {
                            assert(!on_stack(stack@, u));
                        }
                        if reach::reachable(self@.step(), a, b) {
                            reach::lemma_closed_reachable(self@.step(), visited@, a, b);
                            assert(!on_stack(stack@, b));
                        }
                    }
                    return -1;
                },
                Some(entry) => {
                    let (current, distance) = entry;
                    let ghost top = old_stack.len() - 1;
                    proof {
                        assert(old_stack[top] == (current, distance));
                        assert(stack@ =~= old_stack.drop_last());
                        vstd::set_lib::lemma_len_subset(visited@, names);
                    }
                    proof {
                        assert(stack_view(old_stack).last() == (current@, distance as int));
                        assert(stack_view(old_stack).drop_last() =~= stack_view(stack@));
                    }
                    let ghost old_paths = paths;
                    let ghost path = paths.last();
                    proof {
                        assert(is_simple_path(self@, old_paths[top], a, old_stack[top].0@));
                        assert(old_paths[top] == path);
                        assert(path.len() == distance + 1);
                        assert(forall|k: int| 0 <= k < path.len() ==> visited@.contains(path[k]));
                        paths = paths.drop_last();
                        assert forall|j: int| 0 <= j < paths.len() implies paths[j] == old_paths[j]
                            && stack@[j] == old_stack[j] by {}
                        assert(paths_ok(self@, a, stack@, paths, visited@));
                    }
                    if current == dst {
                        return distance as i32;
                    }
                    let ghost mid = visited@;
                    let ghost rest = stack_view(stack@);
                    let ghost fuel = (names.len() + 1 - pops) as nat;
                    proof {
                        pops = pops + 1;
                    }
                    match self.neighbor_list(&current) {
                        Some(list) => {
                            let mut k: usize = 0;
                            while k < list.len()
                                invariant
                                    self.wf(),
                                    self@.universe().finite(),
                                    self@.universe().len() < i32::MAX,
                                    names == self@.universe().insert(a),
                                    visited.wf(),
                                    visited@.finite(),
                                    visited@.subset_of(names),
                                    mid.subset_of(visited@),
                                    mid.finite(),
                                    k <= list@.len(),
                                    string_views(list@) == self@.neighbors(current@),
                                    reach::reach_in(self@.step(), a, current@, distance as nat),
                                    distance < mid.len(),
                                    stack@.len() >= old_stack.len() - 1,
                                    forall|j: int| 0 <= j < old_stack.len() - 1 ==> stack@[j] == old_stack[j],
                                    forall|j: int|
                                        0 <= j < stack@.len() ==> reach::reach_in(
                                            self@.step(),
                                            a,
                                            #[trigger] stack@[j].0@,
                                            stack@[j].1 as nat,
                                        ) && stack@[j].1 < visited@.len() && visited@.contains(
                                            stack@[j].0@,
                                        ),
                                    forall|j: int| 0 <= j < k ==> visited@.contains(#[trigger] list@[j]@),
                                    forall|v: Seq<char>|
                                        #[trigger] visited@.contains(v) && !mid.contains(v)
                                            ==> on_stack(stack@, v),
                                    names.difference(visited@).len() <= names.difference(mid).len(),
                                    stack@.len() > old_stack.len() - 1 ==> names.difference(visited@).len()
                                        < names.difference(mid).len(),
                                    visited@.len() == stack@.len() + pops,
                                    paths_ok(self@, a, stack@, paths, visited@),
                                    is_simple_path(self@, path, a, current@),
                                    path.len() == distance + 1,
                                    forall|k: int| 0 <= k < path.len() ==> visited@.contains(path[k]),
                                    (stack_view(stack@), visited@) == push_unmarked(
                                        rest,
                                        mid,
                                        string_views(list@).take(k as int),
                                        distance + 1,
                                    ),
                                decreases list@.len() - k,
                            {
                                let n = &list[k];
                                let ghost taken = string_views(list@).take(k + 1);
                                proof {
                                    assert(taken.drop_last() =~= string_views(list@).take(k as int));
                                    assert(taken.last() == n@);
                                    assert(string_views(list@)[k as int] == n@);
                                    assert(self@.edge(current@, n@));
                                    reach::lemma_reach_step(self@.step(), a, current@, n@, distance as nat);
                                    lemma_universe(self@);
                                    visited.lemma_size();
                                    vstd::set_lib::lemma_len_subset(mid, visited@);
                                }
                                if !visited.contains(n) {
                                    let ghost pre = visited@;
                                    let ghost pre_stack = stack@;
                                    let ghost pre_paths = paths;
                                    visited.insert(n.clone());
                                    stack.push((n.clone(), distance + 1));
                                    proof {
                                        visited.lemma_size();
                                        reach::lemma_unmarked_shrinks(names, pre, visited@, n@);
                                        assert(stack@[stack@.len() - 1].0@ == n@);
                                        assert(stack_view(stack@) =~= stack_view(pre_stack).push((n@, distance + 1)));
                                        lemma_extend_path(self@, path, a, current@, n@, pre);
                                        paths = paths.push(path.push(n@));
                                        assert forall|j: int| 0 <= j < paths.len() implies is_simple_path(
                                            self@,
                                            #[trigger] paths[j],
                                            a,
                                            stack@[j].0@,
                                        ) && paths[j].len() == stack@[j].1 + 1 && forall|k: int|
                                            0 <= k < paths[j].len() ==> visited@.contains(paths[j][k]) by {
                                            if j < pre_paths.len() {
                                                assert(paths[j] == pre_paths[j]);
                                                assert(stack@[j] == pre_stack[j]);
                                            }
                                        }
                                        assert forall|v: Seq<char>|
                                            #[trigger] visited@.contains(v) && !mid.contains(v) implies on_stack(stack@, v) by {
                                            if v == n@ {
                                                assert(stack@[stack@.len() - 1].0@ == v);
                                            } else {
                                                assert(pre.contains(v));
                                                let j = choose|j: int| 0 <= j < pre_stack.len() && #[trigger] pre_stack[j].0@ == v;
                                                assert(stack@[j] == pre_stack[j]);
                                            }
                                        }
                                    }
                                }
                                k = k + 1;
                            }
                            proof {
                                assert(string_views(list@).take(k as int) =~= self@.neighbors(current@));
                                assert forall|w: Seq<char>| self@.edge(current@, w) implies visited@.contains(w) by {
                                    let j = choose|j: int|
                                        0 <= j < string_views(list@).len() && string_views(list@)[j] == w;
                                    assert(visited@.contains(list@[j]@));
                                }
                            }
                        },
                        None => {
                            assert(self@.neighbors(current@) =~= Seq::<Seq<char>>::empty());
                        },
                    }
                    proof {
                        visited.lemma_size();
                        vstd::set_lib::lemma_len_subset(visited@, names);
                        assert(fuel >= 1);
                        assert(stack_search(self@, b, stack_view(old_stack), mid, fuel) == stack_search(
                            self@,
                            b,
                            stack_view(stack@),
                            visited@,
                            (fuel - 1) as nat,
                        ));
                        assert forall|v: Seq<char>|
                            #[trigger] visited@.contains(v) implies on_stack(stack@, v) || (v != b && forall|
                                w: Seq<char>,
                            | #[trigger] self@.edge(v, w) ==> visited@.contains(w)) by {
                            if mid.contains(v) && v != current@ {
                                if on_stack(old_stack, v) {
                                    let j = choose|j: int| 0 <= j < old_stack.len() && #[trigger] old_stack[j].0@ == v;
                                    if j != top {
                                        assert(stack@[j] == old_stack[j]);
                                    }
                                }
                            }
                        }
                    }
                },
            }
        }
    }
}

} // verus!
