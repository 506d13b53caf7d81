//! The board on which Game of Life is played.
//!
//! A board is a fixed-size, row-major grid of cells.  One generation advance
//! runs in two phases: first every cell decides its pending next state from
//! the count of its live neighbours in the current generation, and only after
//! every cell has decided does every cell latch the pending state.  The two
//! phases keep the rule evaluated against the entire previous generation
//! simultaneously.

use vstd::prelude::*;

use crate::cell::{next_state, Cell};
use vstd::arithmetic::mul::{lemma_mul_inequality, lemma_mul_is_distributive_add_other_way};

verus! {

/// 1 if `(r, c)` lies on the grid and that cell is alive, else 0.
pub open spec fn occupied(g: Seq<Seq<bool>>, r: int, c: int) -> int {
    if 0 <= r < g.len() && 0 <= c < g[r].len() && g[r][c] {
        1
    } else {
        0
    }
}

/// How many of the up-to-8 cells adjacent to `(r, c)` are alive.  Positions
/// outside the grid contribute nothing: the board has edges, not a wrap.
pub open spec fn neighbor_count(g: Seq<Seq<bool>>, r: int, c: int) -> int {
    occupied(g, r - 1, c - 1) + occupied(g, r - 1, c) + occupied(g, r - 1, c + 1) + occupied(
        g,
        r,
        c - 1,
    ) + occupied(g, r, c + 1) + occupied(g, r + 1, c - 1) + occupied(g, r + 1, c) + occupied(
        g,
        r + 1,
        c + 1,
    )
}

/// The grid after one generation: every cell's next state is decided by the
/// rule from its own state and its neighbour count in `g`.
pub open spec fn step_grid(g: Seq<Seq<bool>>) -> Seq<Seq<bool>> {
    Seq::new(
        g.len(),
        |r: int| Seq::new(g[r].len(), |c: int| next_state(g[r][c], neighbor_count(g, r, c))),
    )
}

/// Number of `true` entries among the first `n` of `row`.
pub open spec fn count_row(row: Seq<bool>, n: int) -> int
    decreases n,
{
    if n <= 0 {
        0
    } else {
        count_row(row, n - 1) + if row[n - 1] {
            1int
        } else {
            0int
        }
    }
}

/// Number of alive cells in the first `n` rows of `g`.
pub open spec fn count_grid(g: Seq<Seq<bool>>, n: int) -> int
    decreases n,
{
    if n <= 0 {
        0
    } else {
        count_grid(g, n - 1) + count_row(g[n - 1], g[n - 1].len() as int)
    }
}

/// Number of alive cells in the whole grid.
pub open spec fn alive_total(g: Seq<Seq<bool>>) -> int {
    count_grid(g, g.len() as int)
}

pub struct Board {
    pub rows: usize,
    pub cols: usize,
    /// Dense row-major storage: `grid[r][c]` is the cell in row `r`,
    /// column `c`.
    pub grid: Vec<Vec<Cell>>,
}

impl Board {
    /// A board is well formed when it holds exactly `rows` rows of exactly
    /// `cols` cells each, and its area fits a `usize` so that cell counts
    /// cannot overflow.
    pub open spec fn wf(self) -> bool {
        &&& self.grid@.len() == self.rows
        &&& forall|r: int|
            0 <= r < self.rows ==> (#[trigger] self.grid@[r])@.len() == self.cols
        &&& self.rows * self.cols <= usize::MAX
    }

    /// The cell at row `r`, column `c`.
    pub open spec fn cell_at(self, r: int, c: int) -> Cell {
        self.grid@[r]@[c]
    }

    /// The published (alive) states of all cells, row-major.
    pub open spec fn alive_view(self) -> Seq<Seq<bool>> {
        Seq::new(
            self.grid@.len(),
            |r: int| Seq::new(self.grid@[r]@.len(), |c: int| self.grid@[r]@[c].is_alive),
        )
    }

    /// Initializes a new board of the given dimensions, all cells dead.
    pub fn new(rows: usize, cols: usize) -> (b: Board)
        requires
            rows * cols <= usize::MAX,
        ensures
            b.wf(),
            b.rows == rows,
            b.cols == cols,
            forall|r: int, c: int|
                0 <= r < rows && 0 <= c < cols
                    ==> !(#[trigger] b.cell_at(r, c)).is_alive
                        && !b.cell_at(r, c).pending_state,
    {
        let mut grid: Vec<Vec<Cell>> = Vec::new();
        for r in 0..rows
            invariant
                grid@.len() == r,
                forall|i: int| 0 <= i < r ==> (#[trigger] grid@[i])@.len() == cols,
                forall|i: int, j: int|
                    0 <= i < r && 0 <= j < cols ==> !(#[trigger] grid@[i]@[j]).is_alive
                        && !grid@[i]@[j].pending_state,
        {
            let mut row: Vec<Cell> = Vec::new();
            for c in 0..cols
                invariant
                    row@.len() == c,
                    forall|j: int|
                        0 <= j < c ==> !(#[trigger] row@[j]).is_alive && !row@[j].pending_state,
            {
                row.push(Cell::new());
            }
            grid.push(row);
        }
        Board { rows, cols, grid }
    }

    /// Sets the published state of the cell at `(r, c)`, leaving every other
    /// cell and every pending state untouched.
    pub fn set_alive(&mut self, r: usize, c: usize, alive: bool)
        requires
            old(self).wf(),
            r < old(self).rows,
            c < old(self).cols,
        ensures
            final(self).wf(),
            final(self).rows == old(self).rows,
            final(self).cols == old(self).cols,
            forall|i: int, j: int|
                0 <= i < old(self).rows && 0 <= j < old(self).cols
                    ==> (#[trigger] final(self).cell_at(i, j)) == (if i == r && j == c {
                        (Cell {
                            is_alive: alive,
                            pending_state: old(self).cell_at(i, j).pending_state,
                        })
                    } else {
                        old(self).cell_at(i, j)
                    }),
    {
        let cell = &mut self.grid[r][c];
        cell.is_alive = alive;
    }

    /// Sets all cells in the board to dead.  Pending states are irrelevant at
    /// rest and are not touched.
    pub fn clear(&mut self)
        requires
            old(self).wf(),
        ensures
            final(self).wf(),
            final(self).rows == old(self).rows,
            final(self).cols == old(self).cols,
            forall|i: int, j: int|
                0 <= i < old(self).rows && 0 <= j < old(self).cols
                    ==> !(#[trigger] final(self).cell_at(i, j)).is_alive
                        && final(self).cell_at(i, j).pending_state
                            == old(self).cell_at(i, j).pending_state,
            alive_total(final(self).alive_view()) == 0,
    {
        let rows = self.rows;
        let cols = self.cols;
        for r in 0..rows
            invariant
                self.wf(),
                rows == self.rows,
                cols == self.cols,
                self.rows == old(self).rows,
                self.cols == old(self).cols,
                forall|i: int, j: int|
                    0 <= i < self.rows && 0 <= j < self.cols && i < r
                        ==> !(#[trigger] self.cell_at(i, j)).is_alive,
                forall|i: int, j: int|
                    0 <= i < self.rows && 0 <= j < self.cols
                        ==> (#[trigger] self.cell_at(i, j)).pending_state
                            == old(self).cell_at(i, j).pending_state,
                forall|i: int, j: int|
                    0 <= i < self.rows && 0 <= j < self.cols && i >= r
                        ==> (#[trigger] self.cell_at(i, j)).is_alive
                            == old(self).cell_at(i, j).is_alive,
        {
            for c in 0..cols
                invariant
                    self.wf(),
                    rows == self.rows,
                    cols == self.cols,
                    self.rows == old(self).rows,
                    self.cols == old(self).cols,
                    r < self.rows,
                    forall|i: int, j: int|
                        0 <= i < self.rows && 0 <= j < self.cols && (i < r || (i == r && j < c))
                            ==> !(#[trigger] self.cell_at(i, j)).is_alive,
                    forall|i: int, j: int|
                        0 <= i < self.rows && 0 <= j < self.cols
                            ==> (#[trigger] self.cell_at(i, j)).pending_state
                                == old(self).cell_at(i, j).pending_state,
                    forall|i: int, j: int|
                        0 <= i < self.rows && 0 <= j < self.cols && (i > r || (i == r && j >= c))
                            ==> (#[trigger] self.cell_at(i, j)).is_alive
                                == old(self).cell_at(i, j).is_alive,
            {
                self.set_alive(r, c, false);
            }
        }
        proof {
            let g = self.alive_view();
            assert forall|i: int, j: int| 0 <= i < g.len() && 0 <= j < g[i].len() implies !(#[trigger] g[i][j]) by {
                assert(g[i][j] == self.cell_at(i, j).is_alive);
            }
            lemma_count_grid_all_dead(g, g.len() as int);
        }
    }
    /// Counts the alive neighbours of `(r, c)` in the current generation.
    fn count_alive_neighbors(&self, r: usize, c: usize) -> (n: u32)
        requires
            self.wf(),
            r < self.rows,
            c < self.cols,
        ensures
            n as int == neighbor_count(self.alive_view(), r as int, c as int),
    {
        proof {
            let g = self.alive_view();
            assert forall|i: int, j: int|
                0 <= i < g.len() && 0 <= j < g[i].len() implies (#[trigger] g[i][j])
                == self.cell_at(i, j).is_alive by {}
        }
        let mut n: u32 = 0;
        if r > 0 {
            if c > 0 && self.grid[r - 1][c - 1].is_alive {
                n += 1;
            }
            if self.grid[r - 1][c].is_alive {
                n += 1;
            }
            if c + 1 < self.cols && self.grid[r - 1][c + 1].is_alive {
                n += 1;
            }
        }
        if c > 0 && self.grid[r][c - 1].is_alive {
            n += 1;
        }
        if c + 1 < self.cols && self.grid[r][c + 1].is_alive {
            n += 1;
        }
        if r + 1 < self.rows {
            if c > 0 && self.grid[r + 1][c - 1].is_alive {
                n += 1;
            }
            if self.grid[r + 1][c].is_alive {
                n += 1;
            }
            if c + 1 < self.cols && self.grid[r + 1][c + 1].is_alive {
                n += 1;
            }
        }
        n
    }

    /// First phase, one cell: decide the pending state of `(r, c)` from its
    /// neighbour count.  No published state changes.
    fn decide_cell(&mut self, r: usize, c: usize, n: u32)
        requires
            old(self).wf(),
            r < old(self).rows,
            c < old(self).cols,
        ensures
            final(self).wf(),
            final(self).rows == old(self).rows,
            final(self).cols == old(self).cols,
            forall|i: int, j: int|
                0 <= i < old(self).rows && 0 <= j < old(self).cols
                    ==> (#[trigger] final(self).cell_at(i, j)) == (if i == r && j == c {
                        (Cell {
                            is_alive: old(self).cell_at(i, j).is_alive,
                            pending_state: next_state(old(self).cell_at(i, j).is_alive, n as int),
                        })
                    } else {
                        old(self).cell_at(i, j)
                    }),
    {
        let cell = &mut self.grid[r][c];
        cell.update(n);
    }

    /// Second phase, one cell: latch the pending state of `(r, c)`.
    fn latch_cell(&mut self, r: usize, c: usize)
        requires
            old(self).wf(),
            r < old(self).rows,
            c < old(self).cols,
        ensures
            final(self).wf(),
            final(self).rows == old(self).rows,
            final(self).cols == old(self).cols,
            forall|i: int, j: int|
                0 <= i < old(self).rows && 0 <= j < old(self).cols
                    ==> (#[trigger] final(self).cell_at(i, j)) == (if i == r && j == c {
                        (Cell {
                            is_alive: old(self).cell_at(i, j).pending_state,
                            pending_state: false,
                        })
                    } else {
                        old(self).cell_at(i, j)
                    }),
    {
        let cell = &mut self.grid[r][c];
        cell.latch_state();
    }

    /// Advances the whole board by one generation.
    ///
    /// Every cell's next state is decided against the previous generation
    /// before any cell's state changes: the first pass only stores pending
    /// states, and only the second pass latches them.
    pub fn update(&mut self)
        requires
            old(self).wf(),
        ensures
            final(self).wf(),
            final(self).rows == old(self).rows,
            final(self).cols == old(self).cols,
            forall|r: int, c: int|
                0 <= r < old(self).rows && 0 <= c < old(self).cols
                    ==> (#[trigger] final(self).cell_at(r, c)).is_alive == next_state(
                        old(self).cell_at(r, c).is_alive,
                        neighbor_count(old(self).alive_view(), r, c),
                    ) && !final(self).cell_at(r, c).pending_state,
            final(self).alive_view() == step_grid(old(self).alive_view()),
    {
        let rows = self.rows;
        let cols = self.cols;
        let ghost g0 = self.alive_view();
        proof {
            assert forall|i: int, j: int|
                0 <= i < rows && 0 <= j < cols implies #[trigger] g0[i][j] == self.cell_at(
                i,
                j,
            ).is_alive by {}
        }
        for r in 0..rows
            invariant
                self.wf(),
                rows == self.rows,
                cols == self.cols,
                self.rows == old(self).rows,
                self.cols == old(self).cols,
                g0 == old(self).alive_view(),
                self.alive_view() == g0,
                forall|i: int, j: int|
                    0 <= i < rows && 0 <= j < cols && i < r
                        ==> (#[trigger] self.cell_at(i, j)).pending_state == next_state(
                            g0[i][j],
                            neighbor_count(g0, i, j),
                        ),
        {
            for c in 0..cols
                invariant
                    self.wf(),
                    rows == self.rows,
                    cols == self.cols,
                    self.rows == old(self).rows,
                    self.cols == old(self).cols,
                    r < rows,
                    g0 == old(self).alive_view(),
                    self.alive_view() == g0,
                    forall|i: int, j: int|
                        0 <= i < rows && 0 <= j < cols && (i < r || (i == r && j < c))
                            ==> (#[trigger] self.cell_at(i, j)).pending_state == next_state(
                                g0[i][j],
                                neighbor_count(g0, i, j),
                            ),
            {
                let ghost pre = *self;
                let n = self.count_alive_neighbors(r, c);
                self.decide_cell(r, c, n);
                proof {
                    assert forall|i: int, j: int|
                        0 <= i < rows && 0 <= j < cols implies (#[trigger] self.cell_at(
                        i,
                        j,
                    )).is_alive == pre.cell_at(i, j).is_alive by {}
                    lemma_alive_view_eq(*self, pre);
                    assert(g0[r as int][c as int] == pre.cell_at(r as int, c as int).is_alive);
                }
            }
        }
        let ghost mid = *self;
        for r in 0..rows
            invariant
                self.wf(),
                rows == self.rows,
                cols == self.cols,
                self.rows == old(self).rows,
                self.cols == old(self).cols,
                mid.wf(),
                mid.rows == rows,
                mid.cols == cols,
                g0 == old(self).alive_view(),
                mid.alive_view() == g0,
                forall|i: int, j: int|
                    0 <= i < rows && 0 <= j < cols
                        ==> (#[trigger] mid.cell_at(i, j)).pending_state == next_state(
                            g0[i][j],
                            neighbor_count(g0, i, j),
                        ),
                forall|i: int, j: int|
                    0 <= i < rows && 0 <= j < cols && i < r
                        ==> (#[trigger] self.cell_at(i, j)) == (Cell {
                            is_alive: mid.cell_at(i, j).pending_state,
                            pending_state: false,
                        }),
                forall|i: int, j: int|
                    0 <= i < rows && 0 <= j < cols && i >= r
                        ==> (#[trigger] self.cell_at(i, j)) == mid.cell_at(i, j),
        {
            for c in 0..cols
                invariant
                    self.wf(),
                    rows == self.rows,
                    cols == self.cols,
                    self.rows == old(self).rows,
                    self.cols == old(self).cols,
                    r < rows,
                    mid.wf(),
                    mid.rows == rows,
                    mid.cols == cols,
                    g0 == old(self).alive_view(),
                    mid.alive_view() == g0,
                    forall|i: int, j: int|
                        0 <= i < rows && 0 <= j < cols
                            ==> (#[trigger] mid.cell_at(i, j)).pending_state == next_state(
                                g0[i][j],
                                neighbor_count(g0, i, j),
                            ),
                    forall|i: int, j: int|
                        0 <= i < rows && 0 <= j < cols && (i < r || (i == r && j < c))
                            ==> (#[trigger] self.cell_at(i, j)) == (Cell {
                                is_alive: mid.cell_at(i, j).pending_state,
                                pending_state: false,
                            }),
                    forall|i: int, j: int|
                        0 <= i < rows && 0 <= j < cols && (i > r || (i == r && j >= c))
                            ==> (#[trigger] self.cell_at(i, j)) == mid.cell_at(i, j),
            {
                self.latch_cell(r, c);
            }
        }
        proof {
            assert forall|i: int, j: int|
                0 <= i < rows && 0 <= j < cols implies #[trigger] g0[i][j] == old(self).cell_at(
                i,
                j,
            ).is_alive by {}
            let gs = step_grid(g0);
            assert(gs.len() == rows);
            assert(self.alive_view().len() == rows);
            assert forall|i: int, j: int|
                0 <= i < rows && 0 <= j < cols implies #[trigger] self.alive_view()[i][j]
                == gs[i][j] by {
                assert(self.alive_view()[i][j] == self.cell_at(i, j).is_alive);
                assert(gs[i][j] == next_state(g0[i][j], neighbor_count(g0, i, j)));
            }
            assert forall|i: int| 0 <= i < rows implies #[trigger] self.alive_view()[i].len()
                == gs[i].len() by {
                assert(self.alive_view()[i].len() == self.grid@[i]@.len());
                assert(gs[i].len() == g0[i].len());
            }
            assert(self.alive_view() =~~= gs);
        }
    }

    /// Returns the number of alive cells on the board.
    pub fn get_num_alive_cells(&self) -> (cnt: usize)
        requires
            self.wf(),
        ensures
            cnt as int == alive_total(self.alive_view()),
    {
        let rows = self.rows;
        let cols = self.cols;
        let ghost g = self.alive_view();
        proof {
            assert forall|i: int, j: int|
                0 <= i < rows && 0 <= j < cols implies #[trigger] g[i][j] == self.cell_at(
                i,
                j,
            ).is_alive by {}
        }
        let mut cnt: usize = 0;
        for r in 0..rows
            invariant
                self.wf(),
                rows == self.rows,
                cols == self.cols,
                g == self.alive_view(),
                cnt as int == count_grid(g, r as int),
                cnt as int <= r * cols,
        {
            for c in 0..cols
                invariant
                    self.wf(),
                    rows == self.rows,
                    cols == self.cols,
                    r < rows,
                    g == self.alive_view(),
                    cnt as int == count_grid(g, r as int) + count_row(g[r as int], c as int),
                    cnt as int <= r * cols + c,
            {
                if self.grid[r][c].is_alive {
                    proof {
                        lemma_row_major_in_area(r as int, c as int, rows as int, cols as int);
                    }
                    cnt += 1;
                }
            }
            proof {
                lemma_mul_is_distributive_add_other_way(cols as int, r as int, 1);
                lemma_mul_inequality(r as int + 1, rows as int, cols as int);
            }
        }
        cnt
    }

    /// Returns every cell's coordinates and alive flag, row-major.
    pub fn iter_cells(&self) -> (cells: Vec<((usize, usize), bool)>)
        requires
            self.wf(),
        ensures
            cells@.len() == self.rows * self.cols,
            forall|r: int, c: int|
                0 <= r < self.rows && 0 <= c < self.cols ==> #[trigger] cells@[r * self.cols + c]
                    == ((r as usize, c as usize), self.cell_at(r, c).is_alive),
    {
        let rows = self.rows;
        let cols = self.cols;
        let mut cells: Vec<((usize, usize), bool)> = Vec::new();
        for r in 0..rows
            invariant
                self.wf(),
                rows == self.rows,
                cols == self.cols,
                cells@.len() == r * cols,
                forall|i: int, j: int|
                    0 <= i < r && 0 <= j < cols ==> #[trigger] cells@[i * cols + j] == (
                    (i as usize, j as usize),
                    self.cell_at(i, j).is_alive,
                ),
        {
            for c in 0..cols
                invariant
                    self.wf(),
                    rows == self.rows,
                    cols == self.cols,
                    r < rows,
                    cells@.len() == r * cols + c,
                    forall|i: int, j: int|
                        0 <= i < rows && 0 <= j < cols && (i < r || (i == r && j < c))
                            ==> #[trigger] cells@[i * cols + j] == (
                            (i as usize, j as usize),
                            self.cell_at(i, j).is_alive,
                        ),
            {
                proof {
                    lemma_row_major_in_area(r as int, c as int, rows as int, cols as int);
                }
                cells.push(((r, c), self.grid[r][c].is_alive));
                proof {
                    assert forall|i: int, j: int|
                        0 <= i < rows && 0 <= j < cols && (i < r || (i == r && j < c + 1)) implies #[trigger] cells@[i
                        * cols + j] == ((i as usize, j as usize), self.cell_at(i, j).is_alive) by {
                        if i < r || (i == r && j < c) {
                            lemma_row_major_order(i, j, r as int, c as int, cols as int);
                        }
                    }
                }
            }
            proof {
                lemma_mul_is_distributive_add_other_way(cols as int, r as int, 1);
                lemma_mul_inequality(r as int + 1, rows as int, cols as int);
            }
        }
        cells
    }
}

/// A cell never counts a position outside the board as a neighbour: every
/// cell has at most 8 alive neighbours, an edge cell at most 5, and a corner
/// cell at most 3.
pub proof fn lemma_neighbor_bounds(g: Seq<Seq<bool>>, rows: int, cols: int, r: int, c: int)
    requires
        g.len() == rows,
        forall|i: int| 0 <= i < rows ==> (#[trigger] g[i]).len() == cols,
        0 <= r < rows,
        0 <= c < cols,
    ensures
        0 <= neighbor_count(g, r, c) <= 8,
        r == 0 || r == rows - 1 || c == 0 || c == cols - 1 ==> neighbor_count(g, r, c) <= 5,
        (r == 0 || r == rows - 1) && (c == 0 || c == cols - 1) ==> neighbor_count(g, r, c) <= 3,
{
}

/// Two boards of the same shape whose cells agree on the published state
/// have the same alive view, whatever their pending states.
proof fn lemma_alive_view_eq(a: Board, b: Board)
    requires
        a.wf(),
        b.wf(),
        a.rows == b.rows,
        a.cols == b.cols,
        forall|i: int, j: int|
            0 <= i < a.rows && 0 <= j < a.cols ==> (#[trigger] a.cell_at(i, j)).is_alive
                == b.cell_at(i, j).is_alive,
    ensures
        a.alive_view() == b.alive_view(),
{
    assert forall|i: int, j: int|
        0 <= i < a.rows && 0 <= j < a.cols implies #[trigger] a.alive_view()[i][j]
        == b.alive_view()[i][j] by {
        assert(a.alive_view()[i][j] == a.cell_at(i, j).is_alive);
        assert(b.alive_view()[i][j] == b.cell_at(i, j).is_alive);
    }
    assert(a.alive_view() =~~= b.alive_view());
}

/// Row-major positions grow with the coordinates: `(i, j)` strictly before
/// `(r, c)` lies at a strictly smaller flat index.
proof fn lemma_row_major_order(i: int, j: int, r: int, c: int, cols: int)
    requires
        0 <= i,
        0 <= j < cols,
        0 <= c,
        i < r || (i == r && j < c),
    ensures
        i * cols + j < r * cols + c,
{
    if i < r {
        lemma_mul_is_distributive_add_other_way(cols, i, 1);
        lemma_mul_inequality(i + 1, r, cols);
    }
}

/// A cell's flat index lies within the board's area.
proof fn lemma_row_major_in_area(r: int, c: int, rows: int, cols: int)
    requires
        0 <= r < rows,
        0 <= c < cols,
    ensures
        r * cols + c + 1 <= rows * cols,
{
    lemma_mul_is_distributive_add_other_way(cols, r, 1);
    lemma_mul_inequality(r + 1, rows, cols);
}

/// A grid with no alive cell counts zero: the total of `clear` is always 0.
pub proof fn lemma_count_grid_all_dead(g: Seq<Seq<bool>>, n: int)
    requires
        n <= g.len(),
        forall|r: int, c: int| 0 <= r < g.len() && 0 <= c < g[r].len() ==> !(#[trigger] g[r][c]),
    ensures
        count_grid(g, n) == 0,
    decreases n,
{
    if n > 0 {
        lemma_count_grid_all_dead(g, n - 1);
        lemma_count_row_all_dead(g, n - 1, g[n - 1].len() as int);
    }
}

proof fn lemma_count_row_all_dead(g: Seq<Seq<bool>>, r: int, n: int)
    requires
        0 <= r < g.len(),
        n <= g[r].len(),
        forall|i: int, c: int| 0 <= i < g.len() && 0 <= c < g[i].len() ==> !(#[trigger] g[i][c]),
    ensures
        count_row(g[r], n) == 0,
    decreases n,
{
    if n > 0 {
        lemma_count_row_all_dead(g, r, n - 1);
    }
}

} // verus!
