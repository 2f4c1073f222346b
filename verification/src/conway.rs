//! A grid of cells and the classic birth/survival evolution rule on it.
use vstd::prelude::*;

verus! {

/// A rectangular grid stored row major in one vector.
#[verifier::ext_equal]
#[derive(PartialEq, Eq)]
pub struct Grid<T> {
    pub rows: usize,
    pub cols: usize,
    pub grid: Vec<T>,
}

/// Whether `(row, col)` lies on a `rows` by `cols` grid.
pub open spec fn on_grid(rows: int, cols: int, row: int, col: int) -> bool {
    0 <= row < rows && 0 <= col < cols
}

/// The fixed order in which a cell's eight neighbours are visited.
pub open spec fn neighbour_offsets() -> Seq<(int, int)> {
    seq![(-1int, -1int), (-1int, 0int), (-1int, 1int), (0int, -1int), (0int, 1int), (1int, -1int),
        (1int, 0int), (1int, 1int)]
}

/// The first `k` of a cell's eight neighbours that lie on the grid, in
/// visiting order.
pub open spec fn spec_neighbours(rows: int, cols: int, row: int, col: int, k: int) -> Seq<
    (usize, usize),
>
    decreases k,
{
    if k <= 0 {
        Seq::empty()
    } else {
        let prev = spec_neighbours(rows, cols, row, col, k - 1);
        let off = neighbour_offsets()[k - 1];
        if on_grid(rows, cols, row + off.0, col + off.1) {
            prev.push((((row + off.0) as usize), ((col + off.1) as usize)))
        } else {
            prev
        }
    }
}

impl<T: Copy + core::default::Default> Grid<T> {
    /// The grid's backing vector covers it exactly and its sides fit in the
    /// coordinate arithmetic.
    pub open spec fn wf(self) -> bool {
        self.grid@.len() == self.rows * self.cols && self.rows <= 0x7fffffff && self.cols
            <= 0x7fffffff
    }

    /// The cell at `(row, col)`.
    pub open spec fn cell(self, row: int, col: int) -> T {
        self.grid@[row * self.cols + col]
    }

    /// A grid whose every cell was produced by the element type's `default`.
    pub fn new(rows: usize, cols: usize) -> (r: Self)
        requires
            rows * cols <= usize::MAX,
            rows <= 0x7fffffff,
            cols <= 0x7fffffff,
        ensures
            r.wf(),
            r.rows == rows,
            r.cols == cols,
            forall|i: int|
                0 <= i < r.grid@.len() ==> call_ensures(T::default, (), #[trigger] r.grid@[i]),
    {
        let mut obj = Self { rows, cols, grid: Vec::new() };
        let n = proof_mul_bound(rows, cols);
        let mut i: usize = 0;
        while i < n
            invariant
                obj.grid@.len() == i,
                i <= n,
                obj.rows == rows,
                obj.cols == cols,
                forall|j: int|
                    0 <= j < i ==> call_ensures(T::default, (), #[trigger] obj.grid@[j]),
            decreases n - i,
        {
            obj.grid.push(T::default());
            i = i + 1;
        }
        obj
    }

    /// A grid copied from a row-major slice.
    pub fn from_slice(grid: &[T], rows: usize, cols: usize) -> (r: Self)
        requires
            grid@.len() == rows * cols,
            rows <= 0x7fffffff,
            cols <= 0x7fffffff,
        ensures
            r.wf(),
            r.rows == rows,
            r.cols == cols,
            r.grid@ == grid@,
    {
        let mut obj = Self { rows, cols, grid: Vec::new() };
        let mut i: usize = 0;
        let n = grid.len();
        while i < n
            invariant
                n == grid@.len(),
                i <= n,
                obj.grid@ == grid@.take(i as int),
                obj.rows == rows,
                obj.cols == cols,
            decreases n - i,
        {
            obj.grid.push(grid[i]);
            i = i + 1;
            proof {
                assert(obj.grid@ =~= grid@.take(i as int));
            }
        }
        proof {
            assert(obj.grid@ =~= grid@);
        }
        obj
    }

    pub fn size(&self) -> (r: (usize, usize))
        ensures
            r.0 == self.rows,
            r.1 == self.cols,
    {
        (self.rows, self.cols)
    }

    pub fn get(&self, row: usize, col: usize) -> (r: &T)
        requires
            self.wf(),
            row < self.rows,
            col < self.cols,
        ensures
            *r == self.cell(row as int, col as int),
    {
        let n = self.grid.len();
        proof {
            lemma_row_major_index(self.rows as int, self.cols as int, row as int, col as int);
        }
        &self.grid[row * self.cols + col]
    }

    pub fn set(&mut self, value: T, row: usize, col: usize)
        requires
            old(self).wf(),
            row < old(self).rows,
            col < old(self).cols,
        ensures
            final(self).wf(),
            final(self).rows == old(self).rows,
            final(self).cols == old(self).cols,
            final(self).grid@ == old(self).grid@.update(
                row as int * old(self).cols + col as int,
                value,
            ),
    {
        let n = self.grid.len();
        proof {
            lemma_row_major_index(self.rows as int, self.cols as int, row as int, col as int);
        }
        self.grid[row * self.cols + col] = value;
    }

    /// The coordinates of the on-grid neighbours of `(row, col)`, in the
    /// fixed visiting order.
    pub fn neighbours(&self, row: usize, col: usize) -> (r: Vec<(usize, usize)>)
        requires
            self.wf(),
            row < self.rows,
            col < self.cols,
        ensures
            r@ == spec_neighbours(self.rows as int, self.cols as int, row as int, col as int, 8),
    {
        let mut neighbours: Vec<(usize, usize)> = Vec::new();
        let mut positions: Vec<(i32, i32)> = Vec::new();
        positions.push((-1, -1));
        positions.push((-1, 0));
        positions.push((-1, 1));
        positions.push((0, -1));
        positions.push((0, 1));
        positions.push((1, -1));
        positions.push((1, 0));
        positions.push((1, 1));
        proof {
            assert forall|k: int| 0 <= k < 8 implies (#[trigger] positions@[k]).0
                == neighbour_offsets()[k].0 && positions@[k].1 == neighbour_offsets()[k].1 by {
                assert(neighbour_offsets()[k] == neighbour_offsets()[k]);
            }
        }
        let mut k: usize = 0;
        while k < 8
            invariant
                self.wf(),
                row < self.rows,
                col < self.cols,
                k <= 8,
                positions@.len() == 8,
                forall|m: int|
                    0 <= m < 8 ==> (#[trigger] positions@[m]).0 == neighbour_offsets()[m].0
                        && positions@[m].1 == neighbour_offsets()[m].1,
                neighbours@ == spec_neighbours(
                    self.rows as int,
                    self.cols as int,
                    row as int,
                    col as int,
                    k as int,
                ),
            decreases 8 - k,
        {
            let pos = positions[k];
            let i: i32 = pos.0 + row as i32;
            let j: i32 = pos.1 + col as i32;
            if self.is_valid(i, j) {
                neighbours.push((i as usize, j as usize));
            }
            k = k + 1;
        }
        neighbours
    }

    /// Whether `(row, col)` lies on the grid.
    pub fn is_valid(&self, row: i32, col: i32) -> (r: bool)
        requires
            self.wf(),
        ensures
            r == on_grid(self.rows as int, self.cols as int, row as int, col as int),
    {
        row >= 0 && row < self.rows as i32 && col >= 0 && col < self.cols as i32
    }

    pub fn get_grid(&self) -> (r: &Vec<T>)
        ensures
            r@ == self.grid@,
    {
        &self.grid
    }
}

/// A row-major index stays inside the backing vector.
proof fn lemma_row_major_index(rows: int, cols: int, row: int, col: int)
    by (nonlinear_arith)
    requires
        0 <= row < rows,
        0 <= col < cols,
    ensures
        0 <= row * cols + col < rows * cols,
        row * cols + col <= (rows - 1) * cols + (cols - 1),
{
}

/// Multiplies grid sides, staying within the machine bound assumed by the
/// caller.
fn proof_mul_bound(rows: usize, cols: usize) -> (r: usize)
    requires
        rows * cols <= usize::MAX,
    ensures
        r == rows * cols,
{
    rows * cols
}

/// One cell of the game: dead or alive.
#[derive(Clone, Copy, Debug, PartialEq, Eq, Structural)]
pub enum Cell {
    Dead,
    Alive,
}

impl core::default::Default for Cell {
    /// Cells start out dead.
    fn default() -> (r: Self)
        ensures
            r == Cell::Dead,
    {
        Self::Dead
    }
}

/// How many of the listed cells are alive.
pub open spec fn count_alive(g: Grid<Cell>, list: Seq<(usize, usize)>) -> int
    decreases list.len(),
{
    if list.len() == 0 {
        0
    } else {
        count_alive(g, list.drop_last()) + if g.cell(
            list.last().0 as int,
            list.last().1 as int,
        ) == Cell::Alive {
            1int
        } else {
            0int
        }
    }
}

/// The next state of a cell: an alive cell survives with two or three alive
/// neighbours, a dead cell becomes alive with exactly three.
pub open spec fn spec_new_status(g: Grid<Cell>, row: int, col: int) -> Cell {
    let count = count_alive(g, spec_neighbours(g.rows as int, g.cols as int, row, col, 8));
    if g.cell(row, col) == Cell::Alive && (count == 2 || count == 3) {
        Cell::Alive
    } else if g.cell(row, col) == Cell::Dead && count == 3 {
        Cell::Alive
    } else {
        Cell::Dead
    }
}

/// The game state: a grid of cells evolving in steps.
#[derive(PartialEq, Eq)]
pub struct GameOfLife {
    pub grid: Grid<Cell>,
}

impl GameOfLife {
    pub fn from_grid(grid: Grid<Cell>) -> (r: Self)
        ensures
            r.grid == grid,
    {
        Self { grid }
    }

    pub fn get_grid(&self) -> (r: &Grid<Cell>)
        ensures
            *r == self.grid,
    {
        &self.grid
    }

    /// Advances the whole grid by one generation.
    pub fn step(&mut self)
        requires
            old(self).grid.wf(),
        ensures
            final(self).grid.wf(),
            final(self).grid.rows == old(self).grid.rows,
            final(self).grid.cols == old(self).grid.cols,
            forall|r: int, c: int|
                on_grid(old(self).grid.rows as int, old(self).grid.cols as int, r, c)
                    ==> #[trigger] final(self).grid.cell(r, c) == spec_new_status(
                    old(self).grid,
                    r,
                    c,
                ),
    {
        let (rows, cols) = self.grid.size();
        let tmp_grid = Grid::<Cell>::from_slice(self.grid.get_grid().as_slice(), rows, cols);
        let ghost g0 = tmp_grid;
        let ghost orig = self.grid;
        proof {
            lemma_new_status_congruence(g0, orig);
        }
        let mut row: usize = 0;
        while row < rows
            invariant
                self.grid.wf(),
                tmp_grid == g0,
                g0.wf(),
                rows == g0.rows,
                cols == g0.cols,
                orig == old(self).grid,
                forall|r: int, c: int| spec_new_status(g0, r, c) == spec_new_status(orig, r, c),
                self.grid.rows == rows,
                self.grid.cols == cols,
                row <= rows,
                forall|r: int, c: int|
                    on_grid(rows as int, cols as int, r, c) && (r < row) ==> #[trigger] self.grid.cell(
                        r,
                        c,
                    ) == spec_new_status(g0, r, c),
                forall|r: int, c: int|
                    on_grid(rows as int, cols as int, r, c) && (r >= row) ==> #[trigger] self.grid.cell(
                        r,
                        c,
                    ) == g0.cell(r, c),
            decreases rows - row,
        {
            let mut col: usize = 0;
            while col < cols
                invariant
                    self.grid.wf(),
                    tmp_grid == g0,
                    g0.wf(),
                    rows == g0.rows,
                    cols == g0.cols,
                    self.grid.rows == rows,
                    self.grid.cols == cols,
                    row < rows,
                    col <= cols,
                    forall|r: int, c: int|
                        on_grid(rows as int, cols as int, r, c) && (r < row || (r == row && c
                            < col)) ==> #[trigger] self.grid.cell(r, c) == spec_new_status(g0, r, c),
                    forall|r: int, c: int|
                        on_grid(rows as int, cols as int, r, c) && (r > row || (r == row && c
                            >= col)) ==> #[trigger] self.grid.cell(r, c) == g0.cell(r, c),
                decreases cols - col,
            {
                let status = GameOfLife::new_status(&tmp_grid, row, col);
                let ghost prev_grid = self.grid;
                self.grid.set(status, row, col);
                col = col + 1;
                proof {
                    assert forall|r: int, c: int|
                        on_grid(rows as int, cols as int, r, c) && (r < row || (r == row && c
                            < col)) implies #[trigger] self.grid.cell(r, c) == spec_new_status(
                        g0,
                        r,
                        c,
                    ) by {
                        assert(prev_grid.cell(r, c) == prev_grid.cell(r, c));
                        lemma_row_major_index(rows as int, cols as int, r, c);
                        lemma_row_major_index(rows as int, cols as int, row as int, col - 1);
                        if r == row && c == col - 1 {
                            assert(self.grid.grid@ == prev_grid.grid@.update(
                                (row as int) * (cols as int) + (col - 1),
                                status,
                            ));
                            assert(self.grid.cell(r, c) == status);
                            assert(status == spec_new_status(g0, r, c));
                        } else {
                            lemma_row_major_distinct(cols as int, r, c, row as int, col - 1);
                            assert(self.grid.cell(r, c) == prev_grid.cell(r, c));
                            assert(prev_grid.cell(r, c) == spec_new_status(g0, r, c));
                        }
                    }
                    assert forall|r: int, c: int|
                        on_grid(rows as int, cols as int, r, c) && (r > row || (r == row && c
                            >= col)) implies #[trigger] self.grid.cell(r, c) == g0.cell(r, c) by {
                        lemma_row_major_index(rows as int, cols as int, r, c);
                        lemma_row_major_index(rows as int, cols as int, row as int, col - 1);
                        lemma_row_major_distinct(cols as int, r, c, row as int, col - 1);
                        assert(self.grid.cell(r, c) == prev_grid.cell(r, c));
                        assert(prev_grid.cell(r, c) == g0.cell(r, c));
                    }
                }
            }
            row = row + 1;
        }
    }

    /// The next state of one cell, read from `grid`.
    pub fn new_status(grid: &Grid<Cell>, row: usize, col: usize) -> (r: Cell)
        requires
            grid.wf(),
            row < grid.rows,
            col < grid.cols,
        ensures
            r == spec_new_status(*grid, row as int, col as int),
    {
        let neighbours = grid.neighbours(row, col);
        proof {
            lemma_spec_neighbours_valid(
                grid.rows as int,
                grid.cols as int,
                row as int,
                col as int,
                8,
            );
        }
        let alive_count = Self::get_alive_count(grid, neighbours.as_slice());
        let here = *grid.get(row, col);
        match (here, alive_count) {
            (Cell::Alive, 2) => Cell::Alive,
            (Cell::Alive, 3) => Cell::Alive,
            (Cell::Dead, 3) => Cell::Alive,
            (_, _) => Cell::Dead,
        }
    }

    /// Counts the alive cells among the listed coordinates.
    pub fn get_alive_count(grid: &Grid<Cell>, neighbours: &[(usize, usize)]) -> (r: usize)
        requires
            grid.wf(),
            forall|m: int|
                0 <= m < neighbours@.len() ==> on_grid(
                    grid.rows as int,
                    grid.cols as int,
                    (#[trigger] neighbours@[m]).0 as int,
                    neighbours@[m].1 as int,
                ),
        ensures
            r == count_alive(*grid, neighbours@),
    {
        let mut count: usize = 0;
        let mut m: usize = 0;
        let nn = neighbours.len();
        while m < nn
            invariant
                grid.wf(),
                m <= neighbours@.len(),
                nn == neighbours@.len(),
                neighbours@.len() <= usize::MAX,
                count == count_alive(*grid, neighbours@.take(m as int)),
                count <= m,
                forall|j: int|
                    0 <= j < neighbours@.len() ==> on_grid(
                        grid.rows as int,
                        grid.cols as int,
                        (#[trigger] neighbours@[j]).0 as int,
                        neighbours@[j].1 as int,
                    ),
            decreases neighbours@.len() - m,
        {
            assert(m < neighbours@.len());
            let coords = neighbours[m];
            let is_alive = *grid.get(coords.0, coords.1) == Cell::Alive;
            if is_alive {
                count = count + 1;
            }
            m = m + 1;
            proof {
                assert(neighbours@.take(m as int).drop_last() =~= neighbours@.take(m - 1));
                assert(neighbours@.take(m as int).last() == neighbours@[m - 1]);
            }
        }
        proof {
            assert(neighbours@.take(neighbours@.len() as int) =~= neighbours@);
        }
        count
    }
}

/// Every listed neighbour lies on the grid.
proof fn lemma_spec_neighbours_valid(rows: int, cols: int, row: int, col: int, k: int)
    requires
        0 <= row < rows,
        0 <= col < cols,
        k <= 8,
    ensures
        forall|m: int|
            0 <= m < spec_neighbours(rows, cols, row, col, k).len() ==> on_grid(
                rows,
                cols,
                (#[trigger] spec_neighbours(rows, cols, row, col, k)[m]).0 as int,
                spec_neighbours(rows, cols, row, col, k)[m].1 as int,
            ),
    decreases k,
{
    if k > 0 {
        lemma_spec_neighbours_valid(rows, cols, row, col, k - 1);
        let prev = spec_neighbours(rows, cols, row, col, k - 1);
        let off = neighbour_offsets()[k - 1];
        if on_grid(rows, cols, row + off.0, col + off.1) {
            let cur = spec_neighbours(rows, cols, row, col, k);
            assert(cur == prev.push((((row + off.0) as usize), ((col + off.1) as usize))));
            assert forall|m: int| 0 <= m < cur.len() implies on_grid(
                rows,
                cols,
                (#[trigger] cur[m]).0 as int,
                cur[m].1 as int,
            ) by {
                if m < prev.len() {
                    assert(cur[m] == prev[m]);
                }
            }
        }
    }
}

/// The next-state rule depends only on a grid's sides and cells.
proof fn lemma_count_alive_congruence(a: Grid<Cell>, b: Grid<Cell>, list: Seq<(usize, usize)>)
    requires
        a.rows == b.rows,
        a.cols == b.cols,
        a.grid@ == b.grid@,
    ensures
        count_alive(a, list) == count_alive(b, list),
    decreases list.len(),
{
    if list.len() > 0 {
        lemma_count_alive_congruence(a, b, list.drop_last());
    }
}

proof fn lemma_new_status_congruence(a: Grid<Cell>, b: Grid<Cell>)
    requires
        a.rows == b.rows,
        a.cols == b.cols,
        a.grid@ == b.grid@,
    ensures
        forall|r: int, c: int| spec_new_status(a, r, c) == spec_new_status(b, r, c),
{
    assert forall|r: int, c: int| spec_new_status(a, r, c) == spec_new_status(b, r, c) by {
        lemma_count_alive_congruence(
            a,
            b,
            spec_neighbours(a.rows as int, a.cols as int, r, c, 8),
        );
    }
}

/// Two distinct on-grid coordinates have distinct row-major indices.
proof fn lemma_row_major_distinct(cols: int, r1: int, c1: int, r2: int, c2: int)
    by (nonlinear_arith)
    requires
        cols > 0,
        0 <= c1 < cols,
        0 <= c2 < cols,
        (r1, c1) != (r2, c2),
    ensures
        r1 * cols + c1 != r2 * cols + c2,
{
}

} // verus!
