//! A fixed-width grid of cell labels, and the edge table that shares its
//! row-length rule.
use vstd::prelude::*;
use crate::error::ValidationError;
use crate::names::string_views;
use crate::graph::copy_strings;

verus! {

/// The mathematical value of a grid: its width and its rows of labels.
pub struct GridView {
    pub width: nat,
    pub rows: Seq<Seq<Seq<char>>>,
}

/// A grid whose rows all hold `width` labels.
pub struct Grid {
    width: usize,
    grid: Vec<Vec<String>>,
}

impl View for Grid {
    type V = GridView;

    closed spec fn view(&self) -> GridView {
        GridView {
            width: self.width as nat,
            rows: self.grid@.map_values(|row: Vec<String>| string_views(row@)),
        }
    }
}

pub(crate) fn copy_row(row: &[&str]) -> (r: Vec<String>)
    ensures
        string_views(r@) == row@.map_values(|s: &str| s@),
{
    let mut r: Vec<String> = Vec::new();
    let mut i: usize = 0;
    while i < row.len()
        invariant
            i <= row@.len(),
            string_views(r@) == row@.subrange(0, i as int).map_values(|s: &str| s@),
        decreases row@.len() - i,
    {
        let label = row[i].to_string();
        assert(label@ == row@[i as int]@);
        r.push(label);
        i = i + 1;
        assert(row@.subrange(0, i as int).map_values(|s: &str| s@) =~= row@.subrange(
            0,
            i - 1 as int,
        ).map_values(|s: &str| s@).push(label@));
        assert(string_views(r@) =~= row@.subrange(0, i as int).map_values(|s: &str| s@));
    }
    assert(row@.subrange(0, i as int) =~= row@);
    r
}

impl Grid {
    /// Every row holds `width` labels.
    pub open spec fn wf(&self) -> bool {
        forall|r: int| 0 <= r < self@.rows.len() ==> (#[trigger] self@.rows[r]).len() == self@.width
    }

    /// A grid of the given width with no rows.
    pub fn new(width: usize) -> (g: Grid)
        ensures
            g.wf(),
            g@.width == width,
            g@.rows == Seq::<Seq<Seq<char>>>::empty(),
    {
        let g = Grid { width, grid: Vec::new() };
        assert(g@.rows =~= Seq::<Seq<Seq<char>>>::empty());
        g
    }

    pub fn width(&self) -> (w: usize)
        ensures
            w == self@.width,
    {
        self.width
    }

    pub fn row_count(&self) -> (n: usize)
        ensures
            n == self@.rows.len(),
    {
        self.grid.len()
    }

    /// A copy of the row at position `i`.
    pub fn row(&self, i: usize) -> (r: Vec<String>)
        requires
            i < self@.rows.len(),
        ensures
            string_views(r@) == self@.rows[i as int],
    {
        assert(self@.rows[i as int] == string_views(self.grid@[i as int]@));
        copy_strings(&self.grid[i])
    }

    /// The label at `row`, `col`.
    pub fn label(&self, row: usize, col: usize) -> (l: &String)
        requires
            self.wf(),
            row < self@.rows.len(),
            col < self@.width,
        ensures
            l@ == self@.rows[row as int][col as int],
    {
        assert(self@.rows[row as int] == string_views(self.grid@[row as int]@));
        assert(string_views(self.grid@[row as int]@)[col as int] == self.grid@[row as int]@[col as int]@);
        &self.grid[row][col]
    }

    /// Appends a row; a row whose length is not the width is refused.
    pub fn add_row(&mut self, row: &[&str]) -> (r: Result<(), ValidationError>)
        requires
            old(self).wf(),
        ensures
            final(self).wf(),
            row@.len() == old(self)@.width ==> r is Ok && final(self)@ == (GridView {
                width: old(self)@.width,
                rows: old(self)@.rows.push(row@.map_values(|s: &str| s@)),
            }),
            row@.len() != old(self)@.width ==> r == Err::<(), ValidationError>(
                ValidationError::RowLength { expected: old(self)@.width as usize, actual: row@.len() as usize },
            ) && final(self)@ == old(self)@,
    {
        if row.len() != self.width {
            return Err(ValidationError::RowLength { expected: self.width, actual: row.len() });
        }
        let cells = copy_row(row);
        self.grid.push(cells);
        assert(self@.rows =~= old(self)@.rows.push(row@.map_values(|s: &str| s@)));
        Ok(())
    }
}

/// The mathematical value of an edge table: its width and its rows of names.
pub struct EdgesView {
    pub width: nat,
    pub rows: Seq<Seq<Seq<char>>>,
}

/// A table of edges, each row holding `width` names.
pub struct Edges {
    width: usize,
    edges: Vec<Vec<String>>,
}

impl View for Edges {
    type V = EdgesView;

    closed spec fn view(&self) -> EdgesView {
        EdgesView {
            width: self.width as nat,
            rows: self.edges@.map_values(|row: Vec<String>| string_views(row@)),
        }
    }
}

impl Edges {
    pub open spec fn wf(&self) -> bool {
        forall|r: int| 0 <= r < self@.rows.len() ==> (#[trigger] self@.rows[r]).len() == self@.width
    }

    /// An edge table of the given width with no rows.
    pub fn new(width: usize) -> (e: Edges)
        ensures
            e.wf(),
            e@.width == width,
            e@.rows == Seq::<Seq<Seq<char>>>::empty(),
    {
        let e = Edges { width, edges: Vec::new() };
        assert(e@.rows =~= Seq::<Seq<Seq<char>>>::empty());
        e
    }

    pub fn row_count(&self) -> (n: usize)
        ensures
            n == self@.rows.len(),
    {
        self.edges.len()
    }

    pub fn width(&self) -> (w: usize)
        ensures
            w == self@.width,
    {
        self.width
    }

    /// A copy of the row at position `i`.
    pub fn row(&self, i: usize) -> (r: Vec<String>)
        requires
            i < self@.rows.len(),
        ensures
            string_views(r@) == self@.rows[i as int],
    {
        assert(self@.rows[i as int] == string_views(self.edges@[i as int]@));
        copy_strings(&self.edges[i])
    }

    /// Appends a row; a row whose length is not the width is refused.
    pub fn add_row(&mut self, row: &[&str]) -> (r: Result<(), ValidationError>)
        requires
            old(self).wf(),
        ensures
            final(self).wf(),
            row@.len() == old(self)@.width ==> r is Ok && final(self)@ == (EdgesView {
                width: old(self)@.width,
                rows: old(self)@.rows.push(row@.map_values(|s: &str| s@)),
            }),
            row@.len() != old(self)@.width ==> r == Err::<(), ValidationError>(
                ValidationError::RowLength { expected: old(self)@.width as usize, actual: row@.len() as usize },
            ) && final(self)@ == old(self)@,
    {
        if row.len() != self.width {
            return Err(ValidationError::RowLength { expected: self.width, actual: row.len() });
        }
        let cells = copy_row(row);
        self.edges.push(cells);
        assert(self@.rows =~= old(self)@.rows.push(row@.map_values(|s: &str| s@)));
        Ok(())
    }
}

impl Default for Grid {
    fn default() -> (g: Grid)
        ensures
            g.wf(),
            g@.width == 0,
            g@.rows == Seq::<Seq<Seq<char>>>::empty(),
    {
        Grid::new(0)
    }
}

impl Default for Edges {
    fn default() -> (e: Edges)
        ensures
            e.wf(),
            e@.width == 0,
            e@.rows == Seq::<Seq<Seq<char>>>::empty(),
    {
        Edges::new(0)
    }
}

} // verus!
