//! Islands on a grid: regions of land cells joined up, down, left or right.
use vstd::prelude::*;
use crate::cells::CellSet;
use crate::grid::{Grid, GridView};
use crate::reach;

verus! {

pub type Cell = (int, int);

/// The label that marks water; every other label is land.
pub open spec fn water() -> Seq<char> {
    seq!['W']
}

/// `p` and `q` are side by side, horizontally or vertically.
pub open spec fn adjacent(p: Cell, q: Cell) -> bool {
    (p.0 == q.0 && (p.1 == q.1 + 1 || q.1 == p.1 + 1)) || (p.1 == q.1 && (p.0 == q.0 + 1 || q.0
        == p.0 + 1))
}

/// The land cells among `set`.
pub open spec fn land_of(g: GridView, set: Set<Cell>) -> Set<Cell> {
    Set::new(|v: Cell| set.contains(v) && g.is_land(v))
}

impl GridView {
    pub open spec fn in_bounds(self, p: Cell) -> bool {
        0 <= p.0 < self.rows.len() && 0 <= p.1 < self.width
    }

    pub open spec fn is_land(self, p: Cell) -> bool {
        self.in_bounds(p) && self.rows[p.0][p.1] != water()
    }

    /// A step from a land cell to a land cell beside it.
    pub open spec fn land_step(self) -> spec_fn(Cell, Cell) -> bool {
        |p: Cell, q: Cell| self.is_land(p) && self.is_land(q) && adjacent(p, q)
    }

    /// A land step between cells that are both outside `marked`.
    pub open spec fn land_avoiding(self, marked: Set<Cell>) -> spec_fn(Cell, Cell) -> bool {
        |p: Cell, q: Cell| (self.land_step())(p, q) && !marked.contains(p) && !marked.contains(q)
    }

    /// The island of `p`: every cell reachable from it over land.
    pub open spec fn island(self, p: Cell) -> Set<Cell> {
        reach::reach_set(self.land_step(), p)
    }
}

/// What a flood fill from `seed` did to the visited set: it only grew, by
/// positions inside the grid; it holds `seed` where `seed` is inside; the
/// land cells it added are exactly those joined to `seed` through unvisited
/// land, each with every cell beside it in the set; and where `seed` was
/// outside, visited or water, it added no more than `seed`.
pub open spec fn explored(g: GridView, seed: Cell, before: Set<Cell>, after: Set<Cell>) -> bool {
    &&& before.subset_of(after)
    &&& g.in_bounds(seed) ==> after.contains(seed)
    &&& forall|v: Cell| #[trigger] after.contains(v) && !before.contains(v) ==> g.in_bounds(v)
    &&& forall|v: Cell|
        #[trigger] after.contains(v) && !before.contains(v) && g.is_land(v) ==> reach::reachable(
            g.land_avoiding(before),
            seed,
            v,
        )
    &&& forall|v: Cell|
        #![trigger reach::reachable(g.land_avoiding(before), seed, v)]
        g.is_land(seed) && !before.contains(seed) && reach::reachable(
            g.land_avoiding(before),
            seed,
            v,
        ) ==> after.contains(v)
    &&& forall|v: Cell, w: Cell|
        #![trigger after.contains(v), adjacent(v, w)]
        after.contains(v) && !before.contains(v) && g.is_land(v) && g.in_bounds(w) && adjacent(
            v,
            w,
        ) ==> after.contains(w)
    &&& (!g.in_bounds(seed) || before.contains(seed)) ==> after == before
    &&& (g.in_bounds(seed) && !before.contains(seed) && !g.is_land(seed)) ==> after == before.insert(
        seed,
    )
}

/// The partial result inside a flood fill from the land cell `seed`, after
/// some of its neighbors were explored.
spec fn filling(g: GridView, seed: Cell, before: Set<Cell>, now: Set<Cell>) -> bool {
    &&& before.insert(seed).subset_of(now)
    &&& !before.contains(seed)
    &&& g.is_land(seed)
    &&& forall|v: Cell| #[trigger] now.contains(v) && !before.contains(v) ==> g.in_bounds(v)
    &&& forall|v: Cell|
        #[trigger] now.contains(v) && !before.contains(v) && g.is_land(v) ==> reach::reachable(
            g.land_avoiding(before),
            seed,
            v,
        )
    &&& forall|v: Cell, w: Cell|
        #![trigger now.contains(v), adjacent(v, w)]
        now.contains(v) && !before.contains(v) && v != seed && g.is_land(v) && g.in_bounds(w)
            && adjacent(v, w) ==> now.contains(w)
}

proof fn lemma_filling_step(
    g: GridView,
    seed: Cell,
    before: Set<Cell>,
    mid: Set<Cell>,
    after: Set<Cell>,
    nb: Cell,
)
    requires
        filling(g, seed, before, mid),
        explored(g, nb, mid, after),
        g.in_bounds(nb),
        adjacent(seed, nb),
    ensures
        filling(g, seed, before, after),
        after.contains(nb),
{
    assert forall|v: Cell|
        #[trigger] after.contains(v) && !before.contains(v) && g.is_land(v) implies reach::reachable(
        g.land_avoiding(before),
        seed,
        v,
    ) by {
        if !mid.contains(v) {
            assert(!mid.contains(nb));
            assert forall|p: Cell, q: Cell| #[trigger] (g.land_avoiding(mid))(p, q) implies (g.land_avoiding(before))(p, q) by {}
            reach::lemma_reachable_sub(g.land_avoiding(mid), g.land_avoiding(before), nb, v);
            assert((g.land_avoiding(before))(seed, nb));
            reach::lemma_reachable_step(g.land_avoiding(before), seed, nb, v);
        }
    }
}

/// A fill whose added land cells have every cell beside them in the set
/// holds every cell joined to the seed through unvisited land.
proof fn lemma_fill_complete(g: GridView, seed: Cell, before: Set<Cell>, after: Set<Cell>)
    requires
        after.contains(seed),
        forall|v: Cell, w: Cell|
            #![trigger after.contains(v), adjacent(v, w)]
            after.contains(v) && !before.contains(v) && g.is_land(v) && g.in_bounds(w) && adjacent(
                v,
                w,
            ) ==> after.contains(w),
    ensures
        forall|v: Cell|
            #![trigger reach::reachable(g.land_avoiding(before), seed, v)]
            reach::reachable(g.land_avoiding(before), seed, v) ==> after.contains(v),
{
    assert forall|u: Cell, v: Cell|
        #[trigger] after.contains(u) && #[trigger] (g.land_avoiding(before))(u, v) implies after.contains(v) by {
        assert(adjacent(u, v));
    }
    assert forall|v: Cell| reach::reachable(g.land_avoiding(before), seed, v) implies after.contains(v) by {
        reach::lemma_closed_reachable(g.land_avoiding(before), after, seed, v);
    }
}

/// Land joined through unvisited land is joined over land.
proof fn lemma_land_avoiding_sub(g: GridView, before: Set<Cell>, seed: Cell, v: Cell)
    requires
        reach::reachable(g.land_avoiding(before), seed, v),
    ensures
        reach::reachable(g.land_step(), seed, v),
{
    assert forall|p: Cell, q: Cell| #[trigger] (g.land_avoiding(before))(p, q) implies (g.land_step())(p, q) by {}
    reach::lemma_reachable_sub(g.land_avoiding(before), g.land_step(), seed, v);
}

/// `q` comes before `p` in row-major order.
pub open spec fn before_cell(q: Cell, p: Cell) -> bool {
    q.0 < p.0 || (q.0 == p.0 && q.1 < p.1)
}

/// The smaller of two sizes, where 0 stands for none.
pub open spec fn pick_min(m: nat, s: nat) -> nat {
    if s == 0 {
        m
    } else if m == 0 || s < m {
        s
    } else {
        m
    }
}

impl GridView {
    /// The cells on the islands of the land cells before `p`.
    pub open spec fn claimed(self, p: Cell) -> Set<Cell> {
        Set::new(
            |v: Cell|
                exists|q: Cell|
                    self.is_land(q) && before_cell(q, p) && #[trigger] reach::reachable(
                        self.land_step(),
                        q,
                        v,
                    ),
        )
    }

    /// `p` is the first cell of its island in row-major order.
    pub open spec fn is_seed(self, p: Cell) -> bool {
        self.is_land(p) && !self.claimed(p).contains(p)
    }

    /// The number of islands whose first cell comes before row `r`, column `c`.
    pub open spec fn seeds_before(self, r: nat, c: nat) -> nat
        decreases r, c,
    {
        if c > 0 {
            self.seeds_before(r, (c - 1) as nat) + if self.is_seed((r as int, c - 1)) {
                1nat
            } else {
                0nat
            }
        } else if r > 0 {
            self.seeds_before((r - 1) as nat, self.width)
        } else {
            0
        }
    }

    /// The number of islands.
    pub open spec fn island_count(self) -> nat {
        self.seeds_before(self.rows.len(), 0)
    }

    /// The size of the island that starts at `p`; 0 where none starts there.
    pub open spec fn seed_size(self, p: Cell) -> nat {
        if self.is_seed(p) {
            self.island(p).len()
        } else {
            0
        }
    }

    /// The size of the smallest island whose first cell comes before row
    /// `r`, column `c`; 0 where there is none.
    pub open spec fn smallest_before(self, r: nat, c: nat) -> nat
        decreases r, c,
    {
        if c > 0 {
            pick_min(self.smallest_before(r, (c - 1) as nat), self.seed_size((r as int, c - 1)))
        } else if r > 0 {
            self.smallest_before((r - 1) as nat, self.width)
        } else {
            0
        }
    }

    /// The size of the smallest island; 0 where the grid has no land.
    pub open spec fn minimum_island(self) -> nat {
        self.smallest_before(self.rows.len(), 0)
    }
}

/// Every land cell in `set` has each cell beside it in `set`.
pub open spec fn scan_closed(g: GridView, set: Set<Cell>) -> bool {
    forall|v: Cell, w: Cell|
        #![trigger set.contains(v), adjacent(v, w)]
        set.contains(v) && g.is_land(v) && g.in_bounds(w) && adjacent(v, w) ==> set.contains(w)
}

proof fn lemma_reach_land(g: GridView, q: Cell, v: Cell)
    requires
        g.is_land(q),
        reach::reachable(g.land_step(), q, v),
    ensures
        g.is_land(v),
{
    let lands = Set::new(|x: Cell| g.is_land(x));
    reach::lemma_closed_reachable(g.land_step(), lands, q, v);
}

proof fn lemma_land_step_symmetric(g: GridView)
    ensures
        reach::symmetric(g.land_step()),
{
}

proof fn lemma_land_closed(g: GridView, set: Set<Cell>)
    requires
        scan_closed(g, set),
    ensures
        reach::closed(g.land_step(), land_of(g, set)),
{
    assert forall|u: Cell, v: Cell|
        #[trigger] land_of(g, set).contains(u) && #[trigger] (g.land_step())(u, v) implies land_of(
        g,
        set,
    ).contains(v) by {
        assert(set.contains(u) && adjacent(u, v));
    }
}

/// One position of the row-major scan: the fill from `p` extends the claimed
/// land to the cells before the next position, and starts an island exactly
/// when `p` is a seed, adding the whole island.
proof fn lemma_scan_step(g: GridView, p: Cell, before: Set<Cell>, after: Set<Cell>)
    requires
        g.in_bounds(p),
        land_of(g, before) == g.claimed(p),
        scan_closed(g, before),
        explored(g, p, before, after),
        before.finite(),
        after.finite(),
    ensures
        land_of(g, after) == g.claimed((p.0, p.1 + 1)),
        scan_closed(g, after),
        g.is_seed(p) <==> (!before.contains(p) && g.is_land(p)),
        land_of(g, before).subset_of(land_of(g, after)),
        land_of(g, after).finite(),
        g.is_seed(p) ==> land_of(g, after).len() - land_of(g, before).len() == g.island(p).len(),
        !g.is_seed(p) ==> land_of(g, after) == land_of(g, before),
{
    let next = (p.0, p.1 + 1);
    assert(scan_closed(g, after));
    lemma_land_closed(g, after);
    lemma_land_closed(g, before);
    vstd::set_lib::lemma_len_subset(land_of(g, after), after);
    assert forall|v: Cell| land_of(g, after).contains(v) <==> g.claimed(next).contains(v) by {
        if land_of(g, after).contains(v) {
            if before.contains(v) {
                assert(g.claimed(p).contains(v));
                let q = choose|q: Cell|
                    g.is_land(q) && before_cell(q, p) && #[trigger] reach::reachable(
                        g.land_step(),
                        q,
                        v,
                    );
                assert(before_cell(q, next));
            } else {
                assert(g.is_land(p));
                lemma_land_avoiding_sub(g, before, p, v);
            }
        }
        if g.claimed(next).contains(v) {
            let q = choose|q: Cell|
                g.is_land(q) && before_cell(q, next) && #[trigger] reach::reachable(
                    g.land_step(),
                    q,
                    v,
                );
            lemma_reach_land(g, q, v);
            if q == p {
                assert(land_of(g, after).contains(p));
                reach::lemma_closed_reachable(g.land_step(), land_of(g, after), p, v);
            } else {
                assert(before_cell(q, p));
                assert(g.claimed(p).contains(v));
            }
        }
    }
    assert(land_of(g, after) =~= g.claimed(next));
    if g.is_seed(p) {
        let grown = land_of(g, after).difference(land_of(g, before));
        assert forall|v: Cell| grown.contains(v) <==> g.island(p).contains(v) by {
            if g.island(p).contains(v) {
                assert(land_of(g, after).contains(p));
                reach::lemma_closed_reachable(g.land_step(), land_of(g, after), p, v);
                if land_of(g, before).contains(v) {
                    let k = choose|k: nat| reach::reach_in(g.land_step(), p, v, k);
                    lemma_land_step_symmetric(g);
                    reach::lemma_reach_symmetric(g.land_step(), p, v, k);
                    reach::lemma_closed_reachable(g.land_step(), land_of(g, before), v, p);
                }
            }
        }
        assert(grown =~= g.island(p));
        vstd::set_lib::lemma_len_subset(land_of(g, before), land_of(g, after));
        vstd::set_lib::lemma_set_difference_len(land_of(g, after), land_of(g, before));
        assert(land_of(g, after).intersect(land_of(g, before)) =~= land_of(g, before));
    } else {
        assert(land_of(g, after) =~= land_of(g, before));
    }
}

/// Past the last column, the scan goes on at the start of the next row.
proof fn lemma_row_end(g: GridView, r: int)
    ensures
        g.claimed((r, g.width as int)) == g.claimed((r + 1, 0)),
{
    assert forall|v: Cell| g.claimed((r, g.width as int)).contains(v) <==> g.claimed((r + 1, 0)).contains(v) by {
        if g.claimed((r, g.width as int)).contains(v) {
            let q = choose|q: Cell|
                g.is_land(q) && before_cell(q, (r, g.width as int)) && #[trigger] reach::reachable(
                    g.land_step(),
                    q,
                    v,
                );
            assert(before_cell(q, (r + 1, 0)));
        }
        if g.claimed((r + 1, 0)).contains(v) {
            let q = choose|q: Cell|
                g.is_land(q) && before_cell(q, (r + 1, 0)) && #[trigger] reach::reachable(
                    g.land_step(),
                    q,
                    v,
                );
            assert(before_cell(q, (r, g.width as int)));
        }
    }
    assert(g.claimed((r, g.width as int)) =~= g.claimed((r + 1, 0)));
}

proof fn lemma_scan_start(g: GridView)
    ensures
        land_of(g, Set::<Cell>::empty()) == g.claimed((0, 0)),
        scan_closed(g, Set::<Cell>::empty()),
{
    assert(land_of(g, Set::<Cell>::empty()) =~= g.claimed((0, 0)));
}

impl Grid {
    /// Flood-fills from `row`, `col`, marking each position it reaches, and
    /// returns how many land cells it marked.
    pub fn explore_count(&self, row: usize, col: usize, visited: &mut CellSet) -> (count: usize)
        requires
            self.wf(),
            old(visited).wf(),
        ensures
            final(visited).wf(),
            explored(self@, (row as int, col as int), old(visited)@, final(visited)@),
            final(visited)@.finite(),
            count == land_of(self@, final(visited)@).len() - land_of(self@, old(visited)@).len(),
        decreases usize::MAX - old(visited)@.len(),
    {
        let ghost before = visited@;
        let ghost seed = (row as int, col as int);
        let ghost g = self@;
        proof {
            visited.lemma_size();
        }
        let rows = self.row_count();
        let width = self.width();
        if row >= rows || col >= width {
            return 0;
        }
        if visited.contains(row, col) {
            return 0;
        }
        visited.insert(row, col);
        proof {
            visited.lemma_size();
            vstd::set_lib::lemma_len_subset(before, visited@);
            assert(land_of(g, before).subset_of(land_of(g, visited@)));
        }
        let water_label = "W".to_string();
        proof {
            reveal_strlit("W");
            assert(water_label@ == water());
        }
        if *self.label(row, col) == water_label {
            assert(land_of(g, visited@) =~= land_of(g, before));
            return 0;
        }
        proof {
            assert(land_of(g, visited@) =~= land_of(g, before).insert(seed));
            vstd::set_lib::lemma_len_subset(land_of(g, before), before);
            reach::lemma_reachable_refl(g.land_avoiding(before), seed);
        }
        let mut count: usize = 1;
        proof {
            vstd::set_lib::lemma_len_subset(before.insert(seed), visited@);
        }
        if row > 0 {
            let ghost mid = visited@;
            let n = self.explore_count(row - 1, col, visited);
            proof {
                lemma_filling_step(g, seed, before, mid, visited@, (row - 1, col as int));
                visited.lemma_size();
                vstd::set_lib::lemma_len_subset(land_of(g, visited@), visited@);
                vstd::set_lib::lemma_len_subset(before.insert(seed), visited@);
            }
            count = count + n;
        }
        if row + 1 < rows {
            let ghost mid = visited@;
            let n = self.explore_count(row + 1, col, visited);
            proof {
                lemma_filling_step(g, seed, before, mid, visited@, (row + 1, col as int));
                visited.lemma_size();
                vstd::set_lib::lemma_len_subset(land_of(g, visited@), visited@);
                vstd::set_lib::lemma_len_subset(before.insert(seed), visited@);
            }
            count = count + n;
        }
        if col > 0 {
            let ghost mid = visited@;
            let n = self.explore_count(row, col - 1, visited);
            proof {
                lemma_filling_step(g, seed, before, mid, visited@, (row as int, col - 1));
                visited.lemma_size();
                vstd::set_lib::lemma_len_subset(land_of(g, visited@), visited@);
                vstd::set_lib::lemma_len_subset(before.insert(seed), visited@);
            }
            count = count + n;
        }
        if col + 1 < width {
            let ghost mid = visited@;
            let n = self.explore_count(row, col + 1, visited);
            proof {
                lemma_filling_step(g, seed, before, mid, visited@, (row as int, col + 1));
                visited.lemma_size();
                vstd::set_lib::lemma_len_subset(land_of(g, visited@), visited@);
                vstd::set_lib::lemma_len_subset(before.insert(seed), visited@);
            }
            count = count + n;
        }
        proof {
            assert forall|v: Cell, w: Cell|
                #![trigger visited@.contains(v), adjacent(v, w)]
                visited@.contains(v) && !before.contains(v) && g.is_land(v) && g.in_bounds(w)
                    && adjacent(v, w) implies visited@.contains(w) by {
                if v == seed {
                    assert(w == (row - 1, col as int) || w == (row + 1, col as int) || w == (
                        row as int,
                        col - 1,
                    ) || w == (row as int, col + 1));
                }
            }
        }
        proof {
            lemma_fill_complete(g, seed, before, visited@);
        }
        count
    }

    /// Flood-fills from `row`, `col`; true when that position is a land cell
    /// that no earlier fill reached, so that it starts an island.
    pub fn explore(&self, row: usize, col: usize, visited: &mut CellSet) -> (found: bool)
        requires
            self.wf(),
            old(visited).wf(),
        ensures
            final(visited).wf(),
            explored(self@, (row as int, col as int), old(visited)@, final(visited)@),
            final(visited)@.finite(),
            found == (self@.in_bounds((row as int, col as int)) && !old(visited)@.contains(
                (row as int, col as int),
            ) && self@.is_land((row as int, col as int))),
    {
        let ghost before = visited@;
        let ghost seed = (row as int, col as int);
        proof {
            visited.lemma_size();
        }
        let n = self.explore_count(row, col, visited);
        proof {
            let g = self@;
            if g.in_bounds(seed) && !before.contains(seed) && g.is_land(seed) {
                assert(land_of(g, visited@).contains(seed));
                assert(!land_of(g, before).contains(seed));
                assert(land_of(g, before).insert(seed).subset_of(land_of(g, visited@)));
                vstd::set_lib::lemma_len_subset(land_of(g, visited@), visited@);
                vstd::set_lib::lemma_len_subset(land_of(g, before).insert(seed), land_of(g, visited@));
                vstd::set_lib::lemma_len_subset(land_of(g, before), before);
            } else {
                assert(land_of(g, visited@) =~= land_of(g, before));
            }
        }
        n > 0
    }

    /// Counts the islands: scanning in row-major order, a fill from a land
    /// cell that no earlier fill reached finds a new island.
    pub fn island_count(&self) -> (count: usize)
        requires
            self.wf(),
        ensures
            count == self@.island_count(),
    {
        let ghost g = self@;
        let mut visited = CellSet::new();
        let mut count: usize = 0;
        let rows = self.row_count();
        let width = self.width();
        let mut i: usize = 0;
        proof {
            lemma_scan_start(g);
        }
        while i < rows
            invariant
                self.wf(),
                g == self@,
                rows == g.rows.len(),
                width == g.width,
                i <= rows,
                visited.wf(),
                visited@.finite(),
                land_of(g, visited@) == g.claimed((i as int, 0)),
                scan_closed(g, visited@),
                count == g.seeds_before(i as nat, 0),
                count <= land_of(g, visited@).len(),
            decreases rows - i,
        {
            let mut c: usize = 0;
            while c < width
                invariant
                    self.wf(),
                    g == self@,
                    rows == g.rows.len(),
                    width == g.width,
                    i < rows,
                    c <= width,
                    visited.wf(),
                    visited@.finite(),
                    land_of(g, visited@) == g.claimed((i as int, c as int)),
                    scan_closed(g, visited@),
                    count == g.seeds_before(i as nat, c as nat),
                    count <= land_of(g, visited@).len(),
                decreases width - c,
            {
                let ghost before = visited@;
                let found = self.explore(i, c, &mut visited);
                proof {
                    lemma_scan_step(g, (i as int, c as int), before, visited@);
                    visited.lemma_size();
                    vstd::set_lib::lemma_len_subset(land_of(g, visited@), visited@);
                    if found {
                        assert(land_of(g, before).insert((i as int, c as int)).subset_of(land_of(g, visited@)));
                        vstd::set_lib::lemma_len_subset(land_of(g, before), before);
                        vstd::set_lib::lemma_len_subset(land_of(g, before).insert((i as int, c as int)), land_of(g, visited@));
                    }
                }
                if found {
                    count = count + 1;
                }
                c = c + 1;
            }
            proof {
                lemma_row_end(g, i as int);
            }
            i = i + 1;
        }
        count
    }

    /// The size of the smallest island, or 0 where the grid has no land.
    pub fn minimum_island_count(&self) -> (smallest: usize)
        requires
            self.wf(),
        ensures
            smallest == self@.minimum_island(),
    {
        let ghost g = self@;
        let mut visited = CellSet::new();
        let mut smallest: usize = 0;
        let rows = self.row_count();
        let width = self.width();
        let mut i: usize = 0;
        proof {
            lemma_scan_start(g);
        }
        while i < rows
            invariant
                self.wf(),
                g == self@,
                rows == g.rows.len(),
                width == g.width,
                i <= rows,
                visited.wf(),
                visited@.finite(),
                land_of(g, visited@) == g.claimed((i as int, 0)),
                scan_closed(g, visited@),
                smallest == g.smallest_before(i as nat, 0),
            decreases rows - i,
        {
            let mut c: usize = 0;
            while c < width
                invariant
                    self.wf(),
                    g == self@,
                    rows == g.rows.len(),
                    width == g.width,
                    i < rows,
                    c <= width,
                    visited.wf(),
                    visited@.finite(),
                    land_of(g, visited@) == g.claimed((i as int, c as int)),
                    scan_closed(g, visited@),
                    smallest == g.smallest_before(i as nat, c as nat),
                decreases width - c,
            {
                let ghost before = visited@;
                let size = self.explore_count(i, c, &mut visited);
                proof {
                    lemma_scan_step(g, (i as int, c as int), before, visited@);
                    if !g.is_seed((i as int, c as int)) {
                        assert(size == 0);
                    }
                }
                if size > 0 && (smallest == 0 || size < smallest) {
                    smallest = size;
                }
                c = c + 1;
            }
            proof {
                lemma_row_end(g, i as int);
            }
            i = i + 1;
        }
        smallest
    }
}

} // verus!
