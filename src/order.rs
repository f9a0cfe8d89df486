//! Visiting orders of the unguarded walks: depth first by recursion, depth
//! first with a stack, and breadth first with a queue. Nothing stops these
//! walks from visiting a name twice, so they are given only a start from
//! which every walk is bounded in length (no cycle can be reached).
use vstd::prelude::*;
use crate::graph::{Graph, GraphView, copy_strings};
use crate::names::string_views;

verus! {

/// There is a walk of `k` steps from `u`.
pub open spec fn has_walk(g: GraphView, u: Seq<char>, k: nat) -> bool
    decreases k,
{
    k == 0 || exists|v: Seq<char>| #[trigger] g.edge(u, v) && has_walk(g, v, (k - 1) as nat)
}

/// Every walk from `u` is shorter than some bound.
pub open spec fn walks_bounded(g: GraphView, u: Seq<char>) -> bool {
    exists|n: nat| !has_walk(g, u, n)
}

/// A length that no walk from `u` reaches.
pub open spec fn walk_bound(g: GraphView, u: Seq<char>) -> nat {
    choose|n: nat| !has_walk(g, u, n)
}

/// Depth-first order from `u`: `u`, then the order of each neighbor in turn;
/// `n` bounds the depth.
pub open spec fn preorder(g: GraphView, u: Seq<char>, n: nat) -> Seq<Seq<char>>
    decreases n, 0nat,
{
    if n == 0 {
        seq![u]
    } else {
        seq![u] + preorder_list(g, g.neighbors(u), (n - 1) as nat)
    }
}

pub open spec fn preorder_list(g: GraphView, list: Seq<Seq<char>>, n: nat) -> Seq<Seq<char>>
    decreases n, list.len() + 1,
{
    if list.len() == 0 {
        seq![]
    } else {
        preorder_list(g, list.drop_last(), n) + preorder(g, list.last(), n)
    }
}

/// The order of a depth-first walk with a stack: `u`, then the order of each
/// neighbor, the last listed first.
pub open spec fn stack_preorder(g: GraphView, u: Seq<char>, n: nat) -> Seq<Seq<char>>
    decreases n, 0nat,
{
    if n == 0 {
        seq![u]
    } else {
        seq![u] + stack_preorder_list(g, g.neighbors(u), (n - 1) as nat)
    }
}

pub open spec fn stack_preorder_list(g: GraphView, list: Seq<Seq<char>>, n: nat) -> Seq<
    Seq<char>,
>
    decreases n, list.len() + 1,
{
    if list.len() == 0 {
        seq![]
    } else {
        stack_preorder(g, list.last(), n) + stack_preorder_list(g, list.drop_last(), n)
    }
}

/// What is still to come out of a stack of names, each with its depth bound.
pub open spec fn stack_order(g: GraphView, stack: Seq<(Seq<char>, nat)>) -> Seq<Seq<char>>
    decreases stack.len(),
{
    if stack.len() == 0 {
        seq![]
    } else {
        stack_preorder(g, stack.last().0, stack.last().1) + stack_order(g, stack.drop_last())
    }
}

pub open spec fn with_bound(list: Seq<Seq<char>>, n: nat) -> Seq<(Seq<char>, nat)> {
    list.map_values(|v: Seq<char>| (v, n))
}

/// The names a neighbor of `u` is queued with, one level deeper.
pub open spec fn children(g: GraphView, u: Seq<char>, n: nat) -> Seq<(Seq<char>, nat)> {
    if n == 0 {
        seq![]
    } else {
        with_bound(g.neighbors(u), (n - 1) as nat)
    }
}

/// Breadth-first order of a queue: its head, then the order of the rest with
/// the head's neighbors queued behind; `steps` bounds the names that come out.
pub open spec fn queue_order(g: GraphView, queue: Seq<(Seq<char>, nat)>, steps: nat) -> Seq<
    Seq<char>,
>
    decreases steps,
{
    if steps == 0 || queue.len() == 0 {
        seq![]
    } else {
        seq![queue[0].0] + queue_order(
            g,
            queue.drop_first() + children(g, queue[0].0, queue[0].1),
            (steps - 1) as nat,
        )
    }
}

/// How many names a queue still puts out.
pub open spec fn queue_weight(g: GraphView, queue: Seq<(Seq<char>, nat)>) -> nat
    decreases queue.len(),
{
    if queue.len() == 0 {
        0
    } else {
        queue_weight(g, queue.drop_last()) + preorder(g, queue.last().0, queue.last().1).len()
    }
}

/// The depth-first order of a name from which every walk is bounded.
pub open spec fn depth_first_order(g: GraphView, u: Seq<char>) -> Seq<Seq<char>> {
    preorder(g, u, walk_bound(g, u))
}

/// The order of a stack-driven depth-first walk from `u`.
pub open spec fn stack_order_from(g: GraphView, u: Seq<char>) -> Seq<Seq<char>> {
    stack_preorder(g, u, walk_bound(g, u))
}

/// The order of a queue-driven breadth-first walk from `u`.
pub open spec fn breadth_first_order(g: GraphView, u: Seq<char>) -> Seq<Seq<char>> {
    let n = walk_bound(g, u);
    queue_order(g, seq![(u, n)], preorder(g, u, n).len())
}

proof fn lemma_walk_bound(g: GraphView, u: Seq<char>)
    requires
        walks_bounded(g, u),
    ensures
        !has_walk(g, u, walk_bound(g, u)),
        walk_bound(g, u) > 0,
{
}

/// A neighbor of a name whose walks stay under `n` has walks under `n - 1`.
proof fn lemma_neighbor_bound(g: GraphView, u: Seq<char>, v: Seq<char>, n: nat)
    requires
        !has_walk(g, u, n),
        g.edge(u, v),
    ensures
        n > 0,
        !has_walk(g, v, (n - 1) as nat),
{
}

/// Pushing a list of names, each with bound `m`, on a stack puts their
/// stack order in front of what was there.
proof fn lemma_stack_push(
    g: GraphView,
    stack: Seq<(Seq<char>, nat)>,
    list: Seq<Seq<char>>,
    m: nat,
)
    ensures
        stack_order(g, stack + with_bound(list, m)) == stack_preorder_list(g, list, m)
            + stack_order(g, stack),
    decreases list.len(),
{
    if list.len() > 0 {
        let whole = stack + with_bound(list, m);
        assert(whole.last() == (list.last(), m));
        assert(whole.drop_last() =~= stack + with_bound(list.drop_last(), m));
        lemma_stack_push(g, stack, list.drop_last(), m);
    } else {
        assert(stack + with_bound(list, m) =~= stack);
    }
}

proof fn lemma_weight_append(g: GraphView, a: Seq<(Seq<char>, nat)>, b: Seq<(Seq<char>, nat)>)
    ensures
        queue_weight(g, a + b) == queue_weight(g, a) + queue_weight(g, b),
    decreases b.len(),
{
    if b.len() > 0 {
        assert((a + b).drop_last() =~= a + b.drop_last());
        assert((a + b).last() == b.last());
        lemma_weight_append(g, a, b.drop_last());
    } else {
        assert(a + b =~= a);
    }
}

proof fn lemma_weight_bound(g: GraphView, list: Seq<Seq<char>>, m: nat)
    ensures
        queue_weight(g, with_bound(list, m)) == preorder_list(g, list, m).len(),
    decreases list.len(),
{
    if list.len() > 0 {
        assert(with_bound(list, m).drop_last() =~= with_bound(list.drop_last(), m));
        lemma_weight_bound(g, list.drop_last(), m);
    }
}

/// Taking the head off a queue and queuing its neighbors leaves one name
/// less to come out.
proof fn lemma_weight_step(g: GraphView, queue: Seq<(Seq<char>, nat)>)
    requires
        queue.len() > 0,
        queue[0].1 > 0,
    ensures
        queue_weight(g, queue) == 1 + queue_weight(
            g,
            queue.drop_first() + children(g, queue[0].0, queue[0].1),
        ),
{
    let head = seq![queue[0]];
    assert(queue =~= head + queue.drop_first());
    lemma_weight_append(g, head, queue.drop_first());
    assert(head.drop_last() =~= Seq::<(Seq<char>, nat)>::empty());
    lemma_weight_append(g, queue.drop_first(), children(g, queue[0].0, queue[0].1));
    lemma_weight_bound(g, g.neighbors(queue[0].0), (queue[0].1 - 1) as nat);
    assert(preorder(g, queue[0].0, queue[0].1) == seq![queue[0].0] + preorder_list(
        g,
        g.neighbors(queue[0].0),
        (queue[0].1 - 1) as nat,
    ));
    assert(head.last() == queue[0]);
    assert(queue_weight(g, head.drop_last()) == 0);
    assert(queue_weight(g, head) == preorder(g, queue[0].0, queue[0].1).len());
}

/// The names of `queue` from `head` on, each with its bound.
pub open spec fn window(queue: Seq<String>, bounds: Seq<nat>, head: int) -> Seq<(Seq<char>, nat)> {
    Seq::new((queue.len() - head) as nat, |i: int| (queue[head + i]@, bounds[head + i]))
}

impl Graph {
    fn preorder_into(&self, u: &String, out: &mut Vec<String>, Ghost(n): Ghost<nat>)
        requires
            self.wf(),
            !has_walk(self@, u@, n),
        ensures
            string_views(final(out)@) == string_views(old(out)@) + preorder(self@, u@, n),
        decreases n,
    {
        let ghost start = string_views(out@);
        out.push(u.clone());
        assert(string_views(out@) =~= start + seq![u@]);
        match self.neighbor_list(u) {
            Some(list) => {
                let mut i: usize = 0;
                while i < list.len()
                    invariant
                        self.wf(),
                        n > 0,
                        !has_walk(self@, u@, n),
                        i <= list@.len(),
                        string_views(list@) == self@.neighbors(u@),
                        string_views(out@) == start + seq![u@] + preorder_list(
                            self@,
                            string_views(list@).take(i as int),
                            (n - 1) as nat,
                        ),
                    decreases list@.len() - i,
                {
                    let ghost before = string_views(out@);
                    proof {
                        assert(string_views(list@)[i as int] == list@[i as int]@);
                        lemma_neighbor_bound(self@, u@, list@[i as int]@, n);
                    }
                    self.preorder_into(&list[i], out, Ghost((n - 1) as nat));
                    proof {
                        let taken = string_views(list@).take(i + 1);
                        assert(taken.drop_last() =~= string_views(list@).take(i as int));
                        assert(taken.last() == list@[i as int]@);
                    }
                    i = i + 1;
                }
                assert(string_views(list@).take(i as int) =~= self@.neighbors(u@));
            },
            None => {
                assert(preorder_list(self@, self@.neighbors(u@), (n - 1) as nat) =~= seq![]);
            },
        }
    }

    /// Appends to `r_list` the names in the order a recursive depth-first
    /// walk from `src` meets them, neighbors in the order listed, and returns
    /// a copy of the whole list.
    pub fn depth_first_print_recursive(&self, src: &str, r_list: &mut Vec<String>) -> (r: Vec<String>)
        requires
            self.wf(),
            walks_bounded(self@, src@),
        ensures
            string_views(final(r_list)@) == string_views(old(r_list)@) + depth_first_order(self@, src@),
            string_views(r@) == string_views(final(r_list)@),
    {
        let start = src.to_string();
        proof {
            lemma_walk_bound(self@, src@);
        }
        self.preorder_into(&start, r_list, Ghost(walk_bound(self@, src@)));
        copy_strings(r_list)
    }

    /// The names in the order a depth-first walk with a stack meets them
    /// from `src`: the last-listed neighbor first.
    pub fn depth_first_print_iterative(&self, src: &str) -> (r: Vec<String>)
        requires
            self.wf(),
            walks_bounded(self@, src@),
        ensures
            string_views(r@) == stack_order_from(self@, src@),
    {
        let ghost g = self@;
        let ghost total = stack_order_from(g, src@);
        proof {
            lemma_walk_bound(g, src@);
        }
        let mut stack: Vec<String> = Vec::new();
        stack.push(src.to_string());
        let ghost mut bounds: Seq<nat> = seq![walk_bound(g, src@)];
        let mut out: Vec<String> = Vec::new();
        proof {
            let pairs = Seq::new(1, |i: int| (stack@[i]@, bounds[i]));
            assert(stack@[0]@ == src@);
            assert(pairs.last() == (src@, walk_bound(g, src@)));
            assert(pairs.drop_last() =~= Seq::<(Seq<char>, nat)>::empty());
            assert(stack_order(g, pairs.drop_last()) == Seq::<Seq<char>>::empty());
            assert(stack_order(g, pairs) =~= total);
            assert(string_views(out@) =~= Seq::<Seq<char>>::empty());
            assert(string_views(out@) + stack_order(g, pairs) =~= total);
        }
        while stack.len() > 0
            invariant
                self.wf(),
                g == self@,
                stack@.len() == bounds.len(),
                forall|i: int| 0 <= i < bounds.len() ==> !has_walk(g, #[trigger] stack@[i]@, bounds[i]),
                string_views(out@) + stack_order(
                    g,
                    Seq::new(stack@.len(), |i: int| (stack@[i]@, bounds[i])),
                ) == total,
            decreases total.len() - out@.len(),
        {
            let ghost pairs = Seq::new(stack@.len(), |i: int| (stack@[i]@, bounds[i]));
            let ghost f = bounds.last();
            let current = stack.pop().unwrap();
            let ghost rest = pairs.drop_last();
            proof {
                assert(pairs.last() == (current@, f));
                assert(!has_walk(g, current@, f));
                assert(f > 0);
                bounds = bounds.drop_last();
                assert(rest =~= Seq::new(stack@.len(), |i: int| (stack@[i]@, bounds[i])));
            }
            let ghost out_before = string_views(out@);
            out.push(current.clone());
            assert(string_views(out@) =~= out_before + seq![current@]);
            match self.neighbor_list(&current) {
                Some(list) => {
                    let mut k: usize = 0;
                    while k < list.len()
                        invariant
                            self.wf(),
                            g == self@,
                            f > 0,
                            !has_walk(g, current@, f),
                            k <= list@.len(),
                            string_views(list@) == g.neighbors(current@),
                            stack@.len() == bounds.len(),
                            forall|i: int| 0 <= i < bounds.len() ==> !has_walk(g, #[trigger] stack@[i]@, bounds[i]),
                            Seq::new(stack@.len(), |i: int| (stack@[i]@, bounds[i])) == rest
                                + with_bound(string_views(list@).take(k as int), (f - 1) as nat),
                        decreases list@.len() - k,
                    {
                        let ghost before = Seq::new(stack@.len(), |i: int| (stack@[i]@, bounds[i]));
                        proof {
                            assert(string_views(list@)[k as int] == list@[k as int]@);
                            lemma_neighbor_bound(g, current@, list@[k as int]@, f);
                        }
                        let next = list[k].clone();
                        stack.push(next);
                        proof {
                            bounds = bounds.push((f - 1) as nat);
                            let now = Seq::new(stack@.len(), |i: int| (stack@[i]@, bounds[i]));
                            let want = rest + with_bound(string_views(list@).take(k + 1), (f - 1) as nat);
                            assert(before.len() == rest.len() + k);
                            assert(stack@.len() == before.len() + 1);
                            assert(bounds.len() == stack@.len());
                            assert(want.len() == rest.len() + k + 1);
                            assert(now.len() == want.len());
                            assert forall|i: int| 0 <= i < now.len() implies now[i] == want[i] by {
                                if i < now.len() - 1 {
                                    assert(now[i] == before[i]);
                                } else {
                                    assert(string_views(list@).take(k + 1)[k as int] == list@[k as int]@);
                                }
                            }
                            assert(Seq::new(stack@.len(), |i: int| (stack@[i]@, bounds[i])) =~= rest
                                + with_bound(string_views(list@).take(k + 1), (f - 1) as nat));
                        }
                        k = k + 1;
                    }
                    proof {
                        assert(string_views(list@).take(k as int) =~= g.neighbors(current@));
                        lemma_stack_push(g, rest, g.neighbors(current@), (f - 1) as nat);
                    }
                },
                None => {
                    proof {
                        assert(stack_preorder_list(g, g.neighbors(current@), (f - 1) as nat) =~= seq![]);
                    }
                },
            }
            assert(string_views(out@) + stack_order(
                g,
                Seq::new(stack@.len(), |i: int| (stack@[i]@, bounds[i])),
            ) =~= total);
        }
        proof {
            assert(Seq::new(stack@.len(), |i: int| (stack@[i]@, bounds[i])) =~= Seq::<(Seq<char>, nat)>::empty());
            assert(string_views(out@) =~= total);
        }
        out
    }

    /// The names in the order a breadth-first walk with a queue meets them
    /// from `src`, level by level, neighbors in the order listed.
    pub fn breadth_first_print_iterative(&self, src: &str) -> (r: Vec<String>)
        requires
            self.wf(),
            walks_bounded(self@, src@),
        ensures
            string_views(r@) == breadth_first_order(self@, src@),
    {
        let ghost g = self@;
        let ghost n0 = walk_bound(g, src@);
        let ghost total = preorder(g, src@, n0).len();
        let ghost result = breadth_first_order(g, src@);
        proof {
            lemma_walk_bound(g, src@);
        }
        let mut queue: Vec<String> = Vec::new();
        queue.push(src.to_string());
        let ghost mut bounds: Seq<nat> = seq![n0];
        let mut head: usize = 0;
        let mut out: Vec<String> = Vec::new();
        proof {
            let w = window(queue@, bounds, 0);
            assert(w =~= seq![(src@, n0)]);
            assert(w.drop_last() =~= Seq::<(Seq<char>, nat)>::empty());
            assert(queue_weight(g, w.drop_last()) == 0);
            assert(string_views(out@) =~= Seq::<Seq<char>>::empty());
            assert(string_views(out@) + queue_order(g, w, total) =~= result);
        }
        while head < queue.len()
            invariant
                self.wf(),
                g == self@,
                queue@.len() == bounds.len(),
                head <= queue@.len(),
                forall|i: int| head <= i < bounds.len() ==> !has_walk(g, #[trigger] queue@[i]@, bounds[i]),
                out@.len() <= total,
                queue_weight(g, window(queue@, bounds, head as int)) == total - out@.len(),
                string_views(out@) + queue_order(
                    g,
                    window(queue@, bounds, head as int),
                    (total - out@.len()) as nat,
                ) == result,
            decreases total - out@.len(),
        {
            let ghost pending = window(queue@, bounds, head as int);
            let current = queue[head].clone();
            let ghost f = bounds[head as int];
            proof {
                assert(pending[0] == (current@, f));
                assert(!has_walk(g, current@, f));
                lemma_weight_step(g, pending);
            }
            head = head + 1;
            let ghost out_before = string_views(out@);
            out.push(current.clone());
            assert(string_views(out@) =~= out_before + seq![current@]);
            let ghost rest = pending.drop_first();
            assert(window(queue@, bounds, head as int) =~= rest);
            match self.neighbor_list(&current) {
                Some(list) => {
                    let mut k: usize = 0;
                    while k < list.len()
                        invariant
                            self.wf(),
                            g == self@,
                            f > 0,
                            !has_walk(g, current@, f),
                            k <= list@.len(),
                            head <= queue@.len(),
                            string_views(list@) == g.neighbors(current@),
                            queue@.len() == bounds.len(),
                            forall|i: int| head <= i < bounds.len() ==> !has_walk(g, #[trigger] queue@[i]@, bounds[i]),
                            window(queue@, bounds, head as int) == rest + with_bound(
                                string_views(list@).take(k as int),
                                (f - 1) as nat,
                            ),
                        decreases list@.len() - k,
                    {
                        let ghost before = window(queue@, bounds, head as int);
                        proof {
                            assert(string_views(list@)[k as int] == list@[k as int]@);
                            lemma_neighbor_bound(g, current@, list@[k as int]@, f);
                        }
                        let next = list[k].clone();
                        queue.push(next);
                        proof {
                            bounds = bounds.push((f - 1) as nat);
                            let now = window(queue@, bounds, head as int);
                            let want = rest + with_bound(string_views(list@).take(k + 1), (f - 1) as nat);
                            assert(before.len() == rest.len() + k);
                            assert(want.len() == rest.len() + k + 1);
                            assert(now.len() == want.len());
                            assert forall|i: int| 0 <= i < now.len() implies now[i] == want[i] by {
                                if i < now.len() - 1 {
                                    assert(now[i] == before[i]);
                                } else {
                                    assert(string_views(list@).take(k + 1)[k as int] == list@[k as int]@);
                                }
                            }
                            assert(now =~= want);
                        }
                        k = k + 1;
                    }
                    proof {
                        assert(string_views(list@).take(k as int) =~= g.neighbors(current@));
                    }
                },
                None => {
                    proof {
                        assert(with_bound(g.neighbors(current@), (f - 1) as nat) =~= seq![]);
                        assert(rest + with_bound(g.neighbors(current@), (f - 1) as nat) =~= rest);
                    }
                },
            }
            proof {
                assert(window(queue@, bounds, head as int) == rest + children(g, current@, f));
            }
        }
        proof {
            assert(window(queue@, bounds, head as int) =~= Seq::<(Seq<char>, nat)>::empty());
            assert(string_views(out@) =~= result);
        }
        out
    }
}

} // verus!
