//! A set of grid positions, kept as a vector of distinct pairs.
use vstd::prelude::*;

verus! {

pub open spec fn cell_views(items: Seq<(usize, usize)>) -> Seq<(int, int)> {
    items.map_values(|p: (usize, usize)| (p.0 as int, p.1 as int))
}

/// The grid positions that a flood fill has already reached.
pub struct CellSet {
    cells: Vec<(usize, usize)>,
}

impl View for CellSet {
    type V = Set<(int, int)>;

    closed spec fn view(&self) -> Set<(int, int)> {
        cell_views(self.cells@).to_set()
    }
}

impl CellSet {
    pub closed spec fn wf(&self) -> bool {
        cell_views(self.cells@).no_duplicates()
    }

    pub proof fn lemma_size(&self)
        requires
            self.wf(),
        ensures
            self@.finite(),
            self@.len() <= usize::MAX,
    {
        cell_views(self.cells@).unique_seq_to_set();
        assert(self.cells.len() == self.cells@.len());
    }

    pub fn new() -> (r: CellSet)
        ensures
            r.wf(),
            r@ == Set::<(int, int)>::empty(),
    {
        let r = CellSet { cells: Vec::new() };
        assert(r@ =~= Set::<(int, int)>::empty());
        r
    }

    pub fn contains(&self, row: usize, col: usize) -> (r: bool)
        requires
            self.wf(),
        ensures
            r == self@.contains((row as int, col as int)),
    {
        let mut i: usize = 0;
        while i < self.cells.len()
            invariant
                i <= self.cells@.len(),
                forall|j: int| 0 <= j < i ==> self.cells@[j] != (row, col),
            decreases self.cells@.len() - i,
        {
            if self.cells[i].0 == row && self.cells[i].1 == col {
                assert(cell_views(self.cells@)[i as int] == (row as int, col as int));
                return true;
            }
            i = i + 1;
        }
        proof {
            if self@.contains((row as int, col as int)) {
                let j = choose|j: int|
                    0 <= j < self.cells@.len() && cell_views(self.cells@)[j] == (
                        row as int,
                        col as int,
                    );
                assert(self.cells@[j] == (row, col));
            }
        }
        false
    }

    /// Adds a position that the set does not hold yet.
    pub fn insert(&mut self, row: usize, col: usize)
        requires
            old(self).wf(),
            !old(self)@.contains((row as int, col as int)),
        ensures
            final(self).wf(),
            final(self)@ == old(self)@.insert((row as int, col as int)),
    {
        let ghost x = (row as int, col as int);
        self.cells.push((row, col));
        let ghost before = cell_views(old(self).cells@);
        let ghost after = cell_views(self.cells@);
        assert(after =~= before.push(x));
        assert forall|v: (int, int)| after.contains(v) <==> before.contains(v) || v == x by {
            if after.contains(v) {
                let j = choose|j: int| 0 <= j < after.len() && after[j] == v;
                if j < before.len() {
                    assert(before[j] == v);
                }
            }
            if before.contains(v) {
                let j = choose|j: int| 0 <= j < before.len() && before[j] == v;
                assert(after[j] == v);
            }
            if v == x {
                assert(after[before.len() as int] == v);
            }
        }
        assert(self@ =~= old(self)@.insert(x));
    }
}

} // verus!
