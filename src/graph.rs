//! A string-keyed adjacency list, built node by node or from a list of edges.
use vstd::prelude::*;
use crate::error::ValidationError;
use crate::names::string_views;
use crate::reach;
use crate::grid::copy_row;

verus! {

/// One adjacency entry: a node and the names it points to, in order.
pub type Entry = (Seq<char>, Seq<Seq<char>>);

/// The mathematical value of a graph.
pub struct GraphView {
    /// Adjacency entries, in the order their keys were first added.
    pub nodes: Seq<Entry>,
    /// Stored edges, each a pair of names.
    pub edges: Seq<(Seq<char>, Seq<char>)>,
}

/// Index of the entry whose key is `u`, if any.
pub open spec fn has_key_at(nodes: Seq<Entry>, u: Seq<char>, i: int) -> bool {
    0 <= i < nodes.len() && nodes[i].0 == u
}

pub open spec fn has_key(nodes: Seq<Entry>, u: Seq<char>) -> bool {
    exists|i: int| has_key_at(nodes, u, i)
}

pub open spec fn unique_keys(nodes: Seq<Entry>) -> bool {
    forall|i: int, j: int|
        0 <= i < nodes.len() && 0 <= j < nodes.len() && i != j ==> nodes[i].0 != nodes[j].0
}

/// The neighbor list of `u`; empty where `u` is no key.
pub open spec fn neighbors_in(nodes: Seq<Entry>, u: Seq<char>) -> Seq<Seq<char>> {
    if has_key(nodes, u) {
        nodes[choose|i: int| has_key_at(nodes, u, i)].1
    } else {
        Seq::empty()
    }
}

/// `nodes` with the entry of `u` set to `list`: replaced in place, or appended.
pub open spec fn with_node(nodes: Seq<Entry>, u: Seq<char>, list: Seq<Seq<char>>) -> Seq<Entry> {
    if has_key(nodes, u) {
        nodes.update(choose|i: int| has_key_at(nodes, u, i), (u, list))
    } else {
        nodes.push((u, list))
    }
}

/// `nodes` with `v` appended to the list of `u` (a new entry where `u` is no key).
pub open spec fn with_neighbor(nodes: Seq<Entry>, u: Seq<char>, v: Seq<char>) -> Seq<Entry> {
    with_node(nodes, u, neighbors_in(nodes, u).push(v))
}

/// The adjacency entries that the edges give, each edge read both ways, in order.
pub open spec fn entries_of_edges(edges: Seq<(Seq<char>, Seq<char>)>) -> Seq<Entry>
    decreases edges.len(),
{
    if edges.len() == 0 {
        Seq::empty()
    } else {
        let (a, b) = edges.last();
        with_neighbor(with_neighbor(entries_of_edges(edges.drop_last()), a, b), b, a)
    }
}

/// Every name of the graph: each key and each name in a neighbor list.
pub open spec fn names_in(nodes: Seq<Entry>) -> Set<Seq<char>>
    decreases nodes.len(),
{
    if nodes.len() == 0 {
        Set::empty()
    } else {
        names_in(nodes.drop_last()).insert(nodes.last().0).union(nodes.last().1.to_set())
    }
}

impl GraphView {
    pub open spec fn has_key(self, u: Seq<char>) -> bool {
        has_key(self.nodes, u)
    }

    pub open spec fn key(self, i: int) -> Seq<char> {
        self.nodes[i].0
    }

    pub open spec fn neighbors(self, u: Seq<char>) -> Seq<Seq<char>> {
        neighbors_in(self.nodes, u)
    }

    /// There is an edge from `u` to `v`.
    pub open spec fn edge(self, u: Seq<char>, v: Seq<char>) -> bool {
        self.neighbors(u).contains(v)
    }

    pub open spec fn step(self) -> spec_fn(Seq<char>, Seq<char>) -> bool {
        |u: Seq<char>, v: Seq<char>| self.edge(u, v)
    }

    /// Steps between names that are both outside `marked`.
    pub open spec fn avoiding(self, marked: Set<Seq<char>>) -> spec_fn(Seq<char>, Seq<char>) -> bool {
        |u: Seq<char>, v: Seq<char>| self.edge(u, v) && !marked.contains(u) && !marked.contains(v)
    }

    pub open spec fn reachable(self, s: Seq<char>, t: Seq<char>) -> bool {
        reach::reachable(self.step(), s, t)
    }

    pub open spec fn universe(self) -> Set<Seq<char>> {
        names_in(self.nodes)
    }

    /// Every edge has its reverse.
    pub open spec fn is_undirected(self) -> bool {
        reach::symmetric(self.step())
    }
}

pub proof fn lemma_names_in(nodes: Seq<Entry>)
    ensures
        names_in(nodes).finite(),
        forall|i: int| 0 <= i < nodes.len() ==> #[trigger] names_in(nodes).contains(nodes[i].0),
        forall|i: int, j: int|
            0 <= i < nodes.len() && 0 <= j < nodes[i].1.len() ==> #[trigger] names_in(
                nodes,
            ).contains(nodes[i].1[j]),
    decreases nodes.len(),
{
    if nodes.len() > 0 {
        let rest = nodes.drop_last();
        lemma_names_in(rest);
        assert forall|i: int, j: int|
            0 <= i < nodes.len() && 0 <= j < nodes[i].1.len() implies #[trigger] names_in(
                nodes,
            ).contains(nodes[i].1[j]) by {
            if i < rest.len() {
                assert(rest[i] == nodes[i]);
                assert(names_in(rest).contains(rest[i].1[j]));
            } else {
                assert(nodes.last().1.to_set().contains(nodes[i].1[j]));
            }
        }
        assert forall|i: int| 0 <= i < nodes.len() implies #[trigger] names_in(nodes).contains(
            nodes[i].0,
        ) by {
            if i < rest.len() {
                assert(rest[i] == nodes[i]);
            }
        }
    }
}

/// With distinct keys, the neighbor list of a key is that of its entry.
pub proof fn lemma_neighbors_at(nodes: Seq<Entry>, i: int)
    requires
        unique_keys(nodes),
        0 <= i < nodes.len(),
    ensures
        neighbors_in(nodes, nodes[i].0) == nodes[i].1,
{
    assert(has_key_at(nodes, nodes[i].0, i));
}

/// The names the graph holds are finite, and hold each key and neighbor.
pub proof fn lemma_universe(g: GraphView)
    requires
        unique_keys(g.nodes),
    ensures
        g.universe().finite(),
        forall|u: Seq<char>, v: Seq<char>| #[trigger] g.edge(u, v) ==> g.universe().contains(u)
            && g.universe().contains(v),
{
    lemma_names_in(g.nodes);
    assert forall|u: Seq<char>, v: Seq<char>| #[trigger] g.edge(u, v) implies g.universe().contains(
        u,
    ) && g.universe().contains(v) by {
        let i = choose|i: int| has_key_at(g.nodes, u, i);
        lemma_neighbors_at(g.nodes, i);
        let j = choose|j: int| 0 <= j < g.nodes[i].1.len() && g.nodes[i].1[j] == v;
        assert(names_in(g.nodes).contains(g.nodes[i].1[j]));
    }
}

/// Setting the entry of `u` keeps the keys distinct and changes the
/// neighbors of `u` alone.
pub proof fn lemma_with_node(nodes: Seq<Entry>, u: Seq<char>, list: Seq<Seq<char>>, x: Seq<char>)
    requires
        unique_keys(nodes),
    ensures
        unique_keys(with_node(nodes, u, list)),
        neighbors_in(with_node(nodes, u, list), x) == if x == u {
            list
        } else {
            neighbors_in(nodes, x)
        },
{
    let after = with_node(nodes, u, list);
    if has_key(nodes, u) {
        let i = choose|i: int| has_key_at(nodes, u, i);
        assert(after == nodes.update(i, (u, list)));
        assert(unique_keys(after));
        assert(has_key_at(after, u, i));
        if x == u {
            lemma_neighbors_at(after, i);
        } else if has_key(nodes, x) {
            let k = choose|k: int| has_key_at(nodes, x, k);
            lemma_neighbors_at(nodes, k);
            assert(after[k] == nodes[k]);
            lemma_neighbors_at(after, k);
        } else {
            assert(!has_key(after, x)) by {
                if has_key(after, x) {
                    let k = choose|k: int| has_key_at(after, x, k);
                    assert(has_key_at(nodes, x, k));
                }
            }
        }
    } else {
        assert(after == nodes.push((u, list)));
        assert forall|a: int, b: int|
            0 <= a < after.len() && 0 <= b < after.len() && a != b implies after[a].0
            != after[b].0 by {
            if a == nodes.len() {
                assert(!has_key_at(nodes, u, b));
            }
            if b == nodes.len() {
                assert(!has_key_at(nodes, u, a));
            }
        }
        if x == u {
            lemma_neighbors_at(after, nodes.len() as int);
        } else if has_key(nodes, x) {
            let k = choose|k: int| has_key_at(nodes, x, k);
            lemma_neighbors_at(nodes, k);
            assert(after[k] == nodes[k]);
            lemma_neighbors_at(after, k);
        } else {
            assert(!has_key(after, x)) by {
                if has_key(after, x) {
                    let k = choose|k: int| has_key_at(after, x, k);
                    assert(has_key_at(nodes, x, k));
                }
            }
        }
    }
}

/// In the entries built from edges, `y` follows `x` exactly when some edge
/// joins them, read either way.
pub proof fn lemma_entries_of_edges(edges: Seq<(Seq<char>, Seq<char>)>, x: Seq<char>, y: Seq<char>)
    ensures
        unique_keys(entries_of_edges(edges)),
        neighbors_in(entries_of_edges(edges), x).contains(y) <==> exists|i: int|
            0 <= i < edges.len() && (#[trigger] edges[i] == (x, y) || edges[i] == (y, x)),
    decreases edges.len(),
{
    if edges.len() > 0 {
        let rest = edges.drop_last();
        let (a, b) = edges.last();
        let n0 = entries_of_edges(rest);
        lemma_entries_of_edges(rest, x, y);
        let n1 = with_neighbor(n0, a, b);
        lemma_with_node(n0, a, neighbors_in(n0, a).push(b), x);
        lemma_with_node(n0, a, neighbors_in(n0, a).push(b), b);
        lemma_with_node(n1, b, neighbors_in(n1, b).push(a), x);
        let found = exists|i: int| 0 <= i < edges.len() && (#[trigger] edges[i] == (x, y) || edges[i] == (y, x));
        let found_rest = exists|i: int| 0 <= i < rest.len() && (#[trigger] rest[i] == (x, y) || rest[i] == (y, x));
        if found_rest {
            let i = choose|i: int| 0 <= i < rest.len() && (#[trigger] rest[i] == (x, y) || rest[i] == (y, x));
            assert(edges[i] == rest[i]);
        }
        if found && !found_rest {
            let i = choose|i: int| 0 <= i < edges.len() && (#[trigger] edges[i] == (x, y) || edges[i] == (y, x));
            if i < rest.len() {
                assert(edges[i] == rest[i]);
            }
        }
        let l0 = neighbors_in(n0, x);
        if x == b {
            let l1 = neighbors_in(n1, b);
            assert(neighbors_in(entries_of_edges(edges), x) == l1.push(a));
            if x == a {
                assert(l1 == l0.push(b));
                assert(l1.push(a).contains(y) <==> l0.contains(y) || y == b || y == a) by {
                    if l1.push(a).contains(y) {
                        let k = choose|k: int| 0 <= k < l1.push(a).len() && l1.push(a)[k] == y;
                        if k < l0.len() { assert(l0[k] == y); }
                    }
                    if l0.contains(y) {
                        let k = choose|k: int| 0 <= k < l0.len() && l0[k] == y;
                        assert(l1.push(a)[k] == y);
                    }
                    if y == b { assert(l1.push(a)[l0.len() as int] == y); }
                    if y == a { assert(l1.push(a)[l1.len() as int] == y); }
                }
            } else {
                assert(l1 == l0);
                assert(l1.push(a).contains(y) <==> l0.contains(y) || y == a) by {
                    if l1.push(a).contains(y) {
                        let k = choose|k: int| 0 <= k < l1.push(a).len() && l1.push(a)[k] == y;
                        if k < l0.len() { assert(l0[k] == y); }
                    }
                    if l0.contains(y) {
                        let k = choose|k: int| 0 <= k < l0.len() && l0[k] == y;
                        assert(l1.push(a)[k] == y);
                    }
                    if y == a { assert(l1.push(a)[l1.len() as int] == y); }
                }
            }
        } else if x == a {
            assert(neighbors_in(entries_of_edges(edges), x) == l0.push(b));
            assert(l0.push(b).contains(y) <==> l0.contains(y) || y == b) by {
                if l0.push(b).contains(y) {
                    let k = choose|k: int| 0 <= k < l0.push(b).len() && l0.push(b)[k] == y;
                    if k < l0.len() { assert(l0[k] == y); }
                }
                if l0.contains(y) {
                    let k = choose|k: int| 0 <= k < l0.len() && l0[k] == y;
                    assert(l0.push(b)[k] == y);
                }
                if y == b { assert(l0.push(b)[l0.len() as int] == y); }
            }
        } else {
            assert(neighbors_in(entries_of_edges(edges), x) == l0);
        }
        assert(edges[rest.len() as int] == (a, b));
    }
}

/// A graph whose entries were built from its edges has every edge both ways,
/// so reachability in it is symmetric.
pub proof fn lemma_built_reach_symmetric(g: GraphView, a: Seq<char>, b: Seq<char>)
    requires
        g.nodes == entries_of_edges(g.edges),
    ensures
        g.is_undirected(),
        g.reachable(a, b) == g.reachable(b, a),
{
    assert forall|u: Seq<char>, v: Seq<char>| #[trigger] (g.step())(u, v) implies (g.step())(v, u) by {
        lemma_entries_of_edges(g.edges, u, v);
        lemma_entries_of_edges(g.edges, v, u);
        let i = choose|i: int| 0 <= i < g.edges.len() && (#[trigger] g.edges[i] == (u, v) || g.edges[i] == (v, u));
        assert(g.edges[i] == (v, u) || g.edges[i] == (u, v));
    }
    if g.reachable(a, b) {
        let k = choose|k: nat| reach::reach_in(g.step(), a, b, k);
        reach::lemma_reach_symmetric(g.step(), a, b, k);
    }
    if g.reachable(b, a) {
        let k = choose|k: nat| reach::reach_in(g.step(), b, a, k);
        reach::lemma_reach_symmetric(g.step(), b, a, k);
    }
}

/// A string-keyed adjacency list.
#[derive(Clone)]
pub struct Graph {
    nodes: Vec<(String, Vec<String>)>,
    edges: Vec<(String, String)>,
}

pub open spec fn entry_view(p: (String, Vec<String>)) -> Entry {
    (p.0@, string_views(p.1@))
}

impl View for Graph {
    type V = GraphView;

    closed spec fn view(&self) -> GraphView {
        GraphView {
            nodes: self.nodes@.map_values(|p: (String, Vec<String>)| entry_view(p)),
            edges: self.edges@.map_values(|e: (String, String)| (e.0@, e.1@)),
        }
    }
}

pub(crate) fn copy_strings(names: &Vec<String>) -> (r: Vec<String>)
    ensures
        string_views(r@) == string_views(names@),
{
    let mut r: Vec<String> = Vec::new();
    let mut i: usize = 0;
    while i < names.len()
        invariant
            i <= names@.len(),
            string_views(r@) == string_views(names@.subrange(0, i as int)),
        decreases names@.len() - i,
    {
        let name = names[i].clone();
        r.push(name);
        i = i + 1;
        assert(string_views(names@.subrange(0, i as int)) =~= string_views(
            names@.subrange(0, i - 1 as int),
        ).push(name@));
        assert(string_views(r@) =~= string_views(names@.subrange(0, i as int)));
    }
    assert(names@.subrange(0, i as int) =~= names@);
    r
}

impl Graph {
    /// The keys are distinct.
    pub open spec fn wf(&self) -> bool {
        unique_keys(self@.nodes)
    }

    pub fn new() -> (r: Graph)
        ensures
            r.wf(),
            r@.nodes == Seq::<Entry>::empty(),
            r@.edges == Seq::<(Seq<char>, Seq<char>)>::empty(),
    {
        let r = Graph { nodes: Vec::new(), edges: Vec::new() };
        assert(r@.nodes =~= Seq::<Entry>::empty());
        assert(r@.edges =~= Seq::<(Seq<char>, Seq<char>)>::empty());
        r
    }

    /// The number of keys.
    pub fn key_count(&self) -> (n: usize)
        ensures
            n == self@.nodes.len(),
    {
        self.nodes.len()
    }

    /// The key at position `i`, in the order keys were first added.
    pub fn key_at(&self, i: usize) -> (k: &String)
        requires
            i < self@.nodes.len(),
        ensures
            k@ == self@.key(i as int),
    {
        assert(self@.nodes[i as int] == entry_view(self.nodes@[i as int]));
        &self.nodes[i].0
    }

    /// The number of stored edges.
    pub fn edge_count(&self) -> (n: usize)
        ensures
            n == self@.edges.len(),
    {
        self.edges.len()
    }

    /// The stored edge at position `i`, in the order edges were added.
    pub fn edge_at(&self, i: usize) -> (e: &(String, String))
        requires
            i < self@.edges.len(),
        ensures
            (e.0@, e.1@) == self@.edges[i as int],
    {
        &self.edges[i]
    }

    /// Position of the entry keyed `u`.
    fn find_key(&self, u: &String) -> (r: Option<usize>)
        requires
            self.wf(),
        ensures
            r matches Some(i) ==> has_key_at(self@.nodes, u@, i as int),
            r is None ==> !self@.has_key(u@),
    {
        let mut i: usize = 0;
        while i < self.nodes.len()
            invariant
                i <= self.nodes@.len(),
                self@.nodes.len() == self.nodes@.len(),
                forall|j: int| 0 <= j < i ==> self@.nodes[j].0 != u@,
            decreases self.nodes@.len() - i,
        {
            assert(self@.nodes[i as int] == entry_view(self.nodes@[i as int]));
            if self.nodes[i].0 == *u {
                return Some(i);
            }
            i = i + 1;
        }
        None
    }

    /// The neighbor list of `u`, where `u` is a key.
    pub(crate) fn neighbor_list(&self, u: &String) -> (r: Option<&Vec<String>>)
        requires
            self.wf(),
        ensures
            r matches Some(l) ==> self@.has_key(u@) && string_views(l@) == self@.neighbors(u@),
            r is None ==> !self@.has_key(u@) && self@.neighbors(u@) == Seq::<Seq<char>>::empty(),
    {
        match self.find_key(u) {
            Some(i) => {
                proof {
                    lemma_neighbors_at(self@.nodes, i as int);
                    assert(self@.nodes[i as int] == entry_view(self.nodes@[i as int]));
                }
                Some(&self.nodes[i].1)
            },
            None => None,
        }
    }

    /// A copy of the neighbor list of `node`, where `node` is a key.
    pub fn neighbors(&self, node: &str) -> (r: Option<Vec<String>>)
        requires
            self.wf(),
        ensures
            r is Some <==> self@.has_key(node@),
            r matches Some(l) ==> string_views(l@) == self@.neighbors(node@),
    {
        let key = node.to_string();
        match self.neighbor_list(&key) {
            Some(list) => Some(copy_strings(list)),
            None => None,
        }
    }

    /// Sets the neighbor list of `node`, replacing any earlier one.
    pub fn add_node(&mut self, node: &str, connections: &[&str])
        requires
            old(self).wf(),
        ensures
            final(self).wf(),
            final(self)@.nodes == with_node(
                old(self)@.nodes,
                node@,
                connections@.map_values(|s: &str| s@),
            ),
            final(self)@.edges == old(self)@.edges,
    {
        let key = node.to_string();
        let list = copy_row(connections);
        self.set_entry(key, list);
    }

    fn set_entry(&mut self, key: String, list: Vec<String>)
        requires
            old(self).wf(),
        ensures
            final(self).wf(),
            final(self)@.nodes == with_node(old(self)@.nodes, key@, string_views(list@)),
            final(self)@.edges == old(self)@.edges,
    {
        let ghost k = key@;
        let ghost l = string_views(list@);
        match self.find_key(&key) {
            Some(i) => {
                proof {
                    assert(has_key_at(old(self)@.nodes, k, i as int));
                }
                self.nodes.set(i, (key, list));
                proof {
                    let c = choose|c: int| has_key_at(old(self)@.nodes, k, c);
                    assert(c == i);
                    assert(self@.nodes =~= old(self)@.nodes.update(i as int, (k, l)));
                    assert(unique_keys(self@.nodes));
                }
            },
            None => {
                self.nodes.push((key, list));
                assert(self@.nodes =~= old(self)@.nodes.push((k, l)));
                assert forall|a: int, b: int|
                    0 <= a < self@.nodes.len() && 0 <= b < self@.nodes.len() && a != b implies self@.nodes[a].0
                    != self@.nodes[b].0 by {
                    if a == old(self)@.nodes.len() {
                        assert(!has_key_at(old(self)@.nodes, k, b));
                    }
                    if b == old(self)@.nodes.len() {
                        assert(!has_key_at(old(self)@.nodes, k, a));
                    }
                }
            },
        }
        assert(self@.edges =~= old(self)@.edges);
    }

    /// Stores an edge given as a pair of names.
    pub fn add_edge(&mut self, edge: &[&str]) -> (r: Result<(), ValidationError>)
        requires
            old(self).wf(),
        ensures
            final(self).wf(),
            edge@.len() == 2 ==> r is Ok && final(self)@.nodes == old(self)@.nodes
                && final(self)@.edges == old(self)@.edges.push((edge@[0]@, edge@[1]@)),
            edge@.len() != 2 ==> r == Err::<(), ValidationError>(
                ValidationError::Arity { expected: 2, actual: edge@.len() as usize },
            ) && final(self)@ == old(self)@,
    {
        if edge.len() != 2 {
            return Err(ValidationError::Arity { expected: 2, actual: edge.len() });
        }
        let a = edge[0].to_string();
        let b = edge[1].to_string();
        self.edges.push((a, b));
        assert(self@.edges =~= old(self)@.edges.push((edge@[0]@, edge@[1]@)));
        assert(self@.nodes =~= old(self)@.nodes);
        Ok(())
    }

    fn append_neighbor(&mut self, u: String, v: String)
        requires
            old(self).wf(),
        ensures
            final(self).wf(),
            final(self)@.nodes == with_neighbor(old(self)@.nodes, u@, v@),
            final(self)@.edges == old(self)@.edges,
    {
        let mut list: Vec<String> = Vec::new();
        match self.find_key(&u) {
            Some(i) => {
                proof {
                    lemma_neighbors_at(self@.nodes, i as int);
                    assert(self@.nodes[i as int] == entry_view(self.nodes@[i as int]));
                }
                list = copy_strings(&self.nodes[i].1);
            },
            None => {
                assert(string_views(list@) =~= Seq::<Seq<char>>::empty());
            },
        }
        let ghost old_list = string_views(list@);
        assert(old_list == neighbors_in(old(self)@.nodes, u@));
        list.push(v);
        assert(string_views(list@) =~= old_list.push(v@));
        self.set_entry(u, list);
    }

    /// Rebuilds the adjacency entries from the stored edges, each edge read both ways.
    pub fn build_graph_from_edges(&mut self)
        requires
            old(self).wf(),
        ensures
            final(self).wf(),
            final(self)@.nodes == entries_of_edges(old(self)@.edges),
            final(self)@.edges == old(self)@.edges,
    {
        self.nodes = Vec::new();
        assert(self@.nodes =~= entries_of_edges(old(self)@.edges.take(0)));
        let mut i: usize = 0;
        while i < self.edges.len()
            invariant
                self.wf(),
                i <= self.edges@.len(),
                self@.edges == old(self)@.edges,
                self@.nodes == entries_of_edges(old(self)@.edges.take(i as int)),
            decreases self.edges@.len() - i,
        {
            let a = self.edges[i].0.clone();
            let b = self.edges[i].1.clone();
            let a2 = a.clone();
            let b2 = b.clone();
            proof {
                let es = old(self)@.edges.take(i + 1 as int);
                assert(es.drop_last() =~= old(self)@.edges.take(i as int));
                assert(es.last() == (a@, b@));
            }
            self.append_neighbor(a, b);
            self.append_neighbor(b2, a2);
            i = i + 1;
        }
        assert(old(self)@.edges.take(i as int) =~= old(self)@.edges);
    }
}

impl Default for Graph {
    fn default() -> (r: Graph)
        ensures
            r.wf(),
            r@.nodes == Seq::<Entry>::empty(),
            r@.edges == Seq::<(Seq<char>, Seq<char>)>::empty(),
    {
        Graph::new()
    }
}

} // verus!
