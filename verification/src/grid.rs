//! The occupancy grid and its monotone visitation mask.

use vstd::prelude::*;

verus! {

/// Error produced when a grid description is rejected at construction.
#[derive(Clone, Copy, Debug, PartialEq, Eq, Structural)]
pub enum GridError {
    /// The rows have unequal lengths, or the grid is empty.
    MalformedGrid,
}

/// A rectangular occupancy grid (fixed at construction) together with a
/// visitation mask of the same dimensions. Cells are addressed as `(x, y)`
/// with `x` the column and `y` the row. The mask is monotone: a cell can be
/// marked visited, never unmarked, and only fillable cells can be marked.
pub struct Grid {
    occ: Vec<Vec<bool>>,
    visited: Vec<Vec<bool>>,
}

/// True when the rows form a non-empty rectangle.
pub open spec fn rows_rectangular(rows: Seq<Vec<i32>>) -> bool {
    &&& rows.len() > 0
    &&& rows[0]@.len() > 0
    &&& forall|y: int| 0 <= y < rows.len() ==> (#[trigger] rows[y])@.len() == rows[0]@.len()
}

impl Grid {
    /// Number of rows.
    pub closed spec fn height(self) -> int {
        self.occ@.len() as int
    }

    /// Number of columns.
    pub closed spec fn width(self) -> int {
        self.occ@[0]@.len() as int
    }

    pub open spec fn in_bounds(self, x: int, y: int) -> bool {
        0 <= x < self.width() && 0 <= y < self.height()
    }

    /// The fixed occupancy: true when the cell may be drawn through.
    pub closed spec fn fillable(self, x: int, y: int) -> bool {
        self.occ@[y]@[x]
    }

    /// The mutable mask: true once a walk has claimed the cell.
    pub closed spec fn visited(self, x: int, y: int) -> bool {
        self.visited@[y]@[x]
    }

    /// Internal invariant: a non-empty rectangle, a congruent mask, and the
    /// mask set only on fillable cells.
    pub closed spec fn wf(self) -> bool {
        &&& self.occ@.len() > 0
        &&& self.occ@[0]@.len() > 0
        &&& self.occ@.len() <= usize::MAX
        &&& self.occ@[0]@.len() <= usize::MAX
        &&& self.visited@.len() == self.occ@.len()
        &&& forall|y: int| 0 <= y < self.occ@.len() ==> (#[trigger] self.occ@[y])@.len() == self.occ@[0]@.len()
        &&& forall|y: int| 0 <= y < self.visited@.len() ==> (#[trigger] self.visited@[y])@.len() == self.occ@[0]@.len()
        &&& forall|x: int, y: int| self.in_bounds(x, y) && #[trigger] self.visited(x, y) ==> self.fillable(x, y)
    }

    /// Number of fillable, unvisited cells in row `y` among columns `0..upto`.
    pub closed spec fn row_unvisited(self, y: int, upto: int) -> nat
        decreases upto,
    {
        if upto <= 0 {
            0
        } else {
            self.row_unvisited(y, upto - 1) + (if self.fillable(upto - 1, y) && !self.visited(
                upto - 1,
                y,
            ) {
                1nat
            } else {
                0nat
            })
        }
    }

    /// Number of fillable, unvisited cells in rows `0..upto_y`.
    pub closed spec fn unvisited_upto(self, upto_y: int) -> nat
        decreases upto_y,
    {
        if upto_y <= 0 {
            0
        } else {
            self.unvisited_upto(upto_y - 1) + self.row_unvisited(upto_y - 1, self.width())
        }
    }

    /// Number of fillable cells not yet visited; the measure that walk
    /// generation strictly shrinks.
    pub open spec fn unvisited_count(self) -> nat {
        self.unvisited_upto(self.height())
    }
}

impl Grid {
    /// Builds a grid from rows of cell codes: `1` is fillable, any other
    /// value is blocked. Rejects an empty grid and rows of unequal length.
    pub fn new(cells: &Vec<Vec<i32>>) -> (r: Result<Grid, GridError>)
        ensures
            r is Ok <==> rows_rectangular(cells@),
            r matches Ok(g) ==> {
                &&& g.wf()
                &&& g.height() == cells@.len()
                &&& g.width() == cells@[0]@.len()
                &&& forall|x: int, y: int|
                    g.in_bounds(x, y) ==> (#[trigger] g.fillable(x, y) <==> cells@[y]@[x] == 1)
                &&& forall|x: int, y: int| g.in_bounds(x, y) ==> !(#[trigger] g.visited(x, y))
            },
            r matches Err(e) ==> e == GridError::MalformedGrid,
    {
        let h = cells.len();
        if h == 0 {
            return Err(GridError::MalformedGrid);
        }
        let w = cells[0].len();
        if w == 0 {
            return Err(GridError::MalformedGrid);
        }
        let mut y: usize = 0;
        while y < h
            invariant
                h == cells@.len(),
                w == cells@[0]@.len(),
                y <= h,
                forall|j: int| 0 <= j < y ==> (#[trigger] cells@[j])@.len() == w,
            decreases h - y,
        {
            if cells[y].len() != w {
                return Err(GridError::MalformedGrid);
            }
            y = y + 1;
        }
        let mut occ: Vec<Vec<bool>> = Vec::new();
        let mut visited: Vec<Vec<bool>> = Vec::new();
        let mut y: usize = 0;
        while y < h
            invariant
                h == cells@.len(),
                w == cells@[0]@.len(),
                w > 0,
                y <= h,
                forall|j: int| 0 <= j < h ==> (#[trigger] cells@[j])@.len() == w,
                occ@.len() == y,
                visited@.len() == y,
                forall|j: int| 0 <= j < y ==> (#[trigger] occ@[j])@.len() == w,
                forall|j: int| 0 <= j < y ==> (#[trigger] visited@[j])@.len() == w,
                forall|i: int, j: int|
                    0 <= j < y && 0 <= i < w ==> ((#[trigger] occ@[j]@[i]) <==> cells@[j]@[i] == 1),
                forall|i: int, j: int| 0 <= j < y && 0 <= i < w ==> !(#[trigger] visited@[j]@[i]),
            decreases h - y,
        {
            let mut occ_row: Vec<bool> = Vec::new();
            let mut vis_row: Vec<bool> = Vec::new();
            let mut x: usize = 0;
            while x < w
                invariant
                    h == cells@.len(),
                    w == cells@[0]@.len(),
                    y < h,
                    forall|j: int| 0 <= j < h ==> (#[trigger] cells@[j])@.len() == w,
                    x <= w,
                    occ_row@.len() == x,
                    vis_row@.len() == x,
                    forall|i: int|
                        0 <= i < x ==> ((#[trigger] occ_row@[i]) <==> cells@[y as int]@[i] == 1),
                    forall|i: int| 0 <= i < x ==> !(#[trigger] vis_row@[i]),
                decreases w - x,
            {
                occ_row.push(cells[y][x] == 1);
                vis_row.push(false);
                x = x + 1;
            }
            occ.push(occ_row);
            visited.push(vis_row);
            y = y + 1;
        }
        Ok(Grid { occ, visited })
    }

    /// Number of rows.
    pub fn num_rows(&self) -> (h: usize)
        requires
            self.wf(),
        ensures
            h == self.height(),
    {
        self.occ.len()
    }

    /// Number of columns.
    pub fn num_cols(&self) -> (w: usize)
        requires
            self.wf(),
        ensures
            w == self.width(),
    {
        self.occ[0].len()
    }

    /// Occupancy lookup, bounds-checked by the precondition.
    pub fn is_fillable(&self, x: usize, y: usize) -> (r: bool)
        requires
            self.wf(),
            self.in_bounds(x as int, y as int),
        ensures
            r == self.fillable(x as int, y as int),
    {
        self.occ[y][x]
    }

    /// Visitation lookup, bounds-checked by the precondition.
    pub fn is_visited(&self, x: usize, y: usize) -> (r: bool)
        requires
            self.wf(),
            self.in_bounds(x as int, y as int),
        ensures
            r == self.visited(x as int, y as int),
    {
        self.visited[y][x]
    }

    /// Marks a fillable, unvisited cell as visited. This is the only
    /// operation that changes the mask, and it never unmarks a cell.
    pub fn mark(&mut self, x: usize, y: usize)
        requires
            old(self).wf(),
            old(self).in_bounds(x as int, y as int),
            old(self).fillable(x as int, y as int),
            !old(self).visited(x as int, y as int),
        ensures
            final(self).wf(),
            marks_one(*old(self), *final(self), x as int, y as int),
            final(self).unvisited_count() + 1 == old(self).unvisited_count(),
    {
        let row = &mut self.visited[y];
        row[x] = true;
        proof {
            assert(same_occupancy(*old(self), *self));
            assert(marks_one(*old(self), *self, x as int, y as int));
            lemma_count_after_mark(*old(self), *self, x as int, y as int);
        }
    }
}

/// Two grids that agree pointwise on a prefix of a row count its unvisited
/// cells identically.
proof fn lemma_row_count_congruent(g1: Grid, g2: Grid, y: int, upto: int)
    requires
        forall|x: int|
            0 <= x < upto ==> #[trigger] g1.fillable(x, y) == g2.fillable(x, y) && g1.visited(x, y)
                == g2.visited(x, y),
    ensures
        g1.row_unvisited(y, upto) == g2.row_unvisited(y, upto),
    decreases upto,
{
    if upto > 0 {
        lemma_row_count_congruent(g1, g2, y, upto - 1);
        assert(g1.fillable(upto - 1, y) == g2.fillable(upto - 1, y));
        assert(g1.visited(upto - 1, y) == g2.visited(upto - 1, y));
    }
}

/// Marking one cell of a row lowers that row's count by one.
proof fn lemma_row_count_mark(g1: Grid, g2: Grid, y: int, x0: int, upto: int)
    requires
        0 <= x0 < upto,
        forall|x: int| 0 <= x < upto ==> #[trigger] g1.fillable(x, y) == g2.fillable(x, y),
        forall|x: int|
            0 <= x < upto && x != x0 ==> #[trigger] g1.visited(x, y) == g2.visited(x, y),
        g1.fillable(x0, y),
        !g1.visited(x0, y),
        g2.visited(x0, y),
    ensures
        g2.row_unvisited(y, upto) + 1 == g1.row_unvisited(y, upto),
    decreases upto,
{
    if x0 == upto - 1 {
        lemma_row_count_congruent(g1, g2, y, upto - 1);
    } else {
        lemma_row_count_mark(g1, g2, y, x0, upto - 1);
    }
}

/// Marking one cell lowers the whole grid's unvisited count by one.
proof fn lemma_count_mark_upto(g1: Grid, g2: Grid, x0: int, y0: int, upto_y: int)
    requires
        same_dims(g1, g2),
        marks_one(g1, g2, x0, y0),
        g1.fillable(x0, y0),
        y0 < upto_y <= g1.height(),
    ensures
        g2.unvisited_upto(upto_y) + 1 == g1.unvisited_upto(upto_y),
    decreases upto_y,
{
    assert forall|x: int| 0 <= x < g1.width() implies #[trigger] g1.fillable(x, upto_y - 1)
        == g2.fillable(x, upto_y - 1) by {
        assert(g1.in_bounds(x, upto_y - 1));
    }
    if y0 == upto_y - 1 {
        lemma_count_same_upto(g1, g2, upto_y - 1);
        lemma_row_count_mark(g1, g2, y0, x0, g1.width());
    } else {
        lemma_count_mark_upto(g1, g2, x0, y0, upto_y - 1);
        assert forall|x: int| 0 <= x < g1.width() implies #[trigger] g1.visited(x, upto_y - 1)
            == g2.visited(x, upto_y - 1) by {
            assert(g1.in_bounds(x, upto_y - 1));
        }
        lemma_row_count_congruent(g1, g2, upto_y - 1, g1.width());
    }
}

/// Rows on which two grids agree pointwise contribute equal counts.
proof fn lemma_count_same_upto(g1: Grid, g2: Grid, upto_y: int)
    requires
        same_dims(g1, g2),
        upto_y <= g1.height(),
        forall|x: int, y: int|
            0 <= x < g1.width() && 0 <= y < upto_y ==> #[trigger] g1.fillable(x, y) == g2.fillable(
                x,
                y,
            ) && g1.visited(x, y) == g2.visited(x, y),
    ensures
        g2.unvisited_upto(upto_y) == g1.unvisited_upto(upto_y),
    decreases upto_y,
{
    if upto_y > 0 {
        lemma_count_same_upto(g1, g2, upto_y - 1);
        lemma_row_count_congruent(g1, g2, upto_y - 1, g1.width());
    }
}

/// Marking one fillable cell lowers the unvisited count by exactly one.
pub proof fn lemma_count_after_mark(g1: Grid, g2: Grid, x0: int, y0: int)
    requires
        marks_one(g1, g2, x0, y0),
        g1.fillable(x0, y0),
    ensures
        g2.unvisited_count() + 1 == g1.unvisited_count(),
{
    lemma_count_mark_upto(g1, g2, x0, y0, g1.height());
    assert(same_dims(g1, g2));
}

/// A well-formed grid's dimensions fit the machine: its rows and columns
/// are held in vectors.
pub proof fn lemma_wf_dims(g: Grid)
    requires
        g.wf(),
    ensures
        0 < g.width() <= usize::MAX,
        0 < g.height() <= usize::MAX,
{
}

/// Occupancy agreement is transitive.
pub proof fn lemma_same_occupancy_trans(g1: Grid, g2: Grid, g3: Grid)
    requires
        same_occupancy(g1, g2),
        same_occupancy(g2, g3),
    ensures
        same_occupancy(g1, g3),
{
    assert forall|x: int, y: int| g1.in_bounds(x, y) implies g1.fillable(x, y)
        == #[trigger] g3.fillable(x, y) by {
        assert(g2.in_bounds(x, y));
        assert(g2.fillable(x, y) == g1.fillable(x, y));
    }
}

/// Monotone growth of the mask is transitive.
pub proof fn lemma_visited_monotone_trans(g1: Grid, g2: Grid, g3: Grid)
    requires
        same_dims(g1, g2),
        visited_monotone(g1, g2),
        visited_monotone(g2, g3),
    ensures
        visited_monotone(g1, g3),
{
    assert forall|x: int, y: int|
        g1.in_bounds(x, y) && #[trigger] g1.visited(x, y) implies g3.visited(x, y) by {
        assert(g2.in_bounds(x, y));
        assert(g2.visited(x, y));
    }
}

/// Pointwise agreement is transitive.
pub proof fn lemma_same_grid_trans(g1: Grid, g2: Grid, g3: Grid)
    requires
        same_grid(g1, g2),
        same_grid(g2, g3),
    ensures
        same_grid(g1, g3),
{
    lemma_same_occupancy_trans(g1, g2, g3);
    assert forall|x: int, y: int| g1.in_bounds(x, y) implies g1.visited(x, y)
        == #[trigger] g3.visited(x, y) by {
        assert(g2.in_bounds(x, y));
        assert(g2.visited(x, y) == g1.visited(x, y));
    }
}

/// Pointwise agreement is symmetric.
pub proof fn lemma_same_grid_sym(g1: Grid, g2: Grid)
    requires
        same_grid(g1, g2),
    ensures
        same_grid(g2, g1),
{
    assert forall|x: int, y: int| g2.in_bounds(x, y) implies g2.fillable(x, y)
        == #[trigger] g1.fillable(x, y) && g2.visited(x, y) == #[trigger] g1.visited(x, y) by {
        assert(g1.in_bounds(x, y));
        assert(g2.fillable(x, y) == g1.fillable(x, y));
        assert(g2.visited(x, y) == g1.visited(x, y));
    }
}

/// Pointwise agreement gives, in particular, equal occupancy and a (weakly)
/// grown mask.
pub proof fn lemma_same_grid_parts(g1: Grid, g2: Grid)
    requires
        same_grid(g1, g2),
    ensures
        same_occupancy(g1, g2),
        visited_monotone(g1, g2),
{
    assert forall|x: int, y: int|
        g1.in_bounds(x, y) && #[trigger] g1.visited(x, y) implies g2.visited(x, y) by {
        assert(g2.visited(x, y) == g1.visited(x, y));
    }
}

/// Full visitation carries over to a pointwise-equal grid.
pub proof fn lemma_all_visited_same_grid(g1: Grid, g2: Grid)
    requires
        same_grid(g1, g2),
        all_fillable_visited(g1),
    ensures
        all_fillable_visited(g2),
{
    assert forall|x: int, y: int|
        g2.in_bounds(x, y) && #[trigger] g2.fillable(x, y) implies g2.visited(x, y) by {
        assert(g1.in_bounds(x, y));
        assert(g1.fillable(x, y));
        assert(g1.visited(x, y));
    }
}

/// Both grids have the same dimensions.
pub open spec fn same_dims(g1: Grid, g2: Grid) -> bool {
    g1.width() == g2.width() && g1.height() == g2.height()
}

/// Both grids have the same dimensions and the same occupancy.
pub open spec fn same_occupancy(g1: Grid, g2: Grid) -> bool {
    &&& same_dims(g1, g2)
    &&& forall|x: int, y: int| g1.in_bounds(x, y) ==> g1.fillable(x, y) == #[trigger] g2.fillable(
        x,
        y,
    )
}

/// Both grids agree everywhere: dimensions, occupancy and visitation.
pub open spec fn same_grid(g1: Grid, g2: Grid) -> bool {
    &&& same_occupancy(g1, g2)
    &&& forall|x: int, y: int| g1.in_bounds(x, y) ==> g1.visited(x, y) == #[trigger] g2.visited(
        x,
        y,
    )
}

/// `g2` is `g1` with exactly the cell `(x0, y0)` newly marked visited.
pub open spec fn marks_one(g1: Grid, g2: Grid, x0: int, y0: int) -> bool {
    &&& same_occupancy(g1, g2)
    &&& g1.in_bounds(x0, y0)
    &&& !g1.visited(x0, y0)
    &&& forall|x: int, y: int|
        g1.in_bounds(x, y) ==> #[trigger] g2.visited(x, y) == (g1.visited(x, y) || (x == x0 && y
            == y0))
}

/// The visitation mask of `g2` covers that of `g1`.
pub open spec fn visited_monotone(g1: Grid, g2: Grid) -> bool {
    forall|x: int, y: int| g1.in_bounds(x, y) && #[trigger] g1.visited(x, y) ==> g2.visited(x, y)
}

/// Every fillable cell has been visited.
pub open spec fn all_fillable_visited(g: Grid) -> bool {
    forall|x: int, y: int| g.in_bounds(x, y) && #[trigger] g.fillable(x, y) ==> g.visited(x, y)
}

} // verus!
