//! The grid: a row-major sequence of cells with symmetric connection flags.

use vstd::prelude::*;
use vstd::arithmetic::div_mod::{lemma_fundamental_div_mod, lemma_fundamental_div_mod_converse};

verus! {

/// The four connection flags of one cell.
#[derive(Copy, Clone, Debug)]
pub struct Cell {
    pub north_connected: bool,
    pub south_connected: bool,
    pub east_connected: bool,
    pub west_connected: bool,
}

/// Number of set flags of a cell.
pub open spec fn degree(c: Cell) -> nat {
    (if c.north_connected { 1nat } else { 0nat }) + (if c.south_connected { 1nat } else { 0nat })
        + (if c.east_connected { 1nat } else { 0nat }) + (if c.west_connected { 1nat } else { 0nat })
}

/// A cell with no connection.
pub open spec fn closed_cell() -> Cell {
    Cell { north_connected: false, south_connected: false, east_connected: false, west_connected: false }
}

impl Cell {
    pub fn num_connections(self) -> (r: u8)
        ensures
            r == degree(self),
    {
        self.north_connected as u8 + self.south_connected as u8 + self.east_connected as u8
            + self.west_connected as u8
    }
}

impl Default for Cell {
    fn default() -> (r: Cell)
        ensures
            r == closed_cell(),
    {
        Cell { north_connected: false, south_connected: false, east_connected: false, west_connected: false }
    }
}

pub struct Grid {
    pub inner: Vec<Cell>,
    pub width: usize,
    pub height: usize,
}

// ---------------------------------------------------------------------------
// Positional facts (row-major layout with `w` columns)

/// `i` has a row above it.
pub open spec fn north_of(i: int, w: int) -> bool {
    i >= w
}

/// `i` has a row below it, in a grid of `h` rows.
pub open spec fn south_of(i: int, w: int, h: int) -> bool {
    i < w * (h - 1)
}

/// `i` is not in the last column.
pub open spec fn east_of(i: int, w: int) -> bool {
    i % w != w - 1
}

/// `i` is not in the first column.
pub open spec fn west_of(i: int, w: int) -> bool {
    i % w != 0
}

pub proof fn lemma_div_mod(i: int, w: int)
    requires
        0 <= i,
        0 < w,
    ensures
        i == w * (i / w) + i % w,
        0 <= i % w < w,
        0 <= i / w,
{
    lemma_fundamental_div_mod(i, w);
    assert(0 <= i % w < w);
    assert(0 <= i / w) by (nonlinear_arith)
        requires
            i == w * (i / w) + i % w,
            0 <= i % w < w,
            0 <= i,
            0 < w,
    ;
}

pub proof fn lemma_row_col(i: int, w: int, q: int, r: int)
    requires
        0 < w,
        0 <= r < w,
        i == q * w + r,
    ensures
        i / w == q,
        i % w == r,
{
    lemma_fundamental_div_mod_converse(i, w, q, r);
}

/// Moving one column east or west, or one row north or south, keeps or shifts
/// the column and row as expected.
pub proof fn lemma_steps(i: int, w: int, h: int)
    requires
        0 <= i < w * h,
        0 < w,
        0 < h,
    ensures
        east_of(i, w) ==> i + 1 < w * h && (i + 1) % w == i % w + 1 && (i + 1) / w == i / w,
        west_of(i, w) ==> i >= 1 && (i - 1) % w == i % w - 1 && (i - 1) / w == i / w,
        north_of(i, w) ==> (i - w) % w == i % w && (i - w) / w == i / w - 1,
        south_of(i, w, h) ==> i + w < w * h && (i + w) % w == i % w && (i + w) / w == i / w + 1,
        i / w < h,
        south_of(i, w, h) <==> i / w < h - 1,
        north_of(i, w) <==> i / w > 0,
{
    lemma_div_mod(i, w);
    let q = i / w;
    let r = i % w;
    assert(q < h) by (nonlinear_arith)
        requires
            i == w * q + r,
            0 <= r < w,
            i < w * h,
    ;
    assert(w * (h - 1) == w * h - w) by (nonlinear_arith);
    assert(w * q == q * w) by (nonlinear_arith);
    assert((q - 1) * w == q * w - w) by (nonlinear_arith);
    assert((q + 1) * w == q * w + w) by (nonlinear_arith);
    if east_of(i, w) {
        lemma_row_col(i + 1, w, q, r + 1);
        assert(w * (q + 1) <= w * h) by (nonlinear_arith)
            requires
                0 < w,
                q < h,
        ;
        assert(w * (q + 1) == w * q + w) by (nonlinear_arith);
    }
    if west_of(i, w) {
        lemma_row_col(i - 1, w, q, r - 1);
    }
    if north_of(i, w) {
        lemma_row_col(i - w, w, q - 1, r);
    }
    lemma_row_col(i + w, w, q + 1, r);
    assert(south_of(i, w, h) <==> q < h - 1) by (nonlinear_arith)
        requires
            i == w * q + r,
            0 <= r < w,
            w * (h - 1) == w * h - w,
    ;
    assert(north_of(i, w) <==> q > 0) by (nonlinear_arith)
        requires
            i == w * q + r,
            0 <= r < w,
            q >= 0,
    ;
}

/// The cell in row `r`, column `c`.
pub proof fn lemma_index(r: int, c: int, w: int, h: int)
    requires
        0 <= r < h,
        0 <= c < w,
    ensures
        0 <= r * w + c < w * h,
        (r * w + c) / w == r,
        (r * w + c) % w == c,
        r * w + c >= w <==> r >= 1,
{
    lemma_row_col(r * w + c, w, r, c);
    assert(0 <= r * w + c < w * h) by (nonlinear_arith)
        requires
            0 <= r < h,
            0 <= c < w,
    ;
    assert(r * w + c >= w <==> r >= 1) by (nonlinear_arith)
        requires
            0 <= r,
            0 <= c < w,
    ;
}

// ---------------------------------------------------------------------------
// Flag updates on a cell

pub open spec fn with_north(c: Cell, b: bool) -> Cell {
    Cell { north_connected: b, ..c }
}

pub open spec fn with_south(c: Cell, b: bool) -> Cell {
    Cell { south_connected: b, ..c }
}

pub open spec fn with_east(c: Cell, b: bool) -> Cell {
    Cell { east_connected: b, ..c }
}

pub open spec fn with_west(c: Cell, b: bool) -> Cell {
    Cell { west_connected: b, ..c }
}

/// The four directions, in the order the grid lists neighbours.
#[derive(Copy, Clone, PartialEq, Eq, Structural)]
pub enum Dir {
    North,
    South,
    East,
    West,
}

pub open spec fn opposite(d: Dir) -> Dir {
    match d {
        Dir::North => Dir::South,
        Dir::South => Dir::North,
        Dir::East => Dir::West,
        Dir::West => Dir::East,
    }
}

/// The index one step from `i` in direction `d`.
pub open spec fn step(i: int, d: Dir, w: int) -> int {
    match d {
        Dir::North => i - w,
        Dir::South => i + w,
        Dir::East => i + 1,
        Dir::West => i - 1,
    }
}

/// A cell of `h` rows by `w` columns has a neighbour in direction `d`.
pub open spec fn has_dir(i: int, d: Dir, w: int, h: int) -> bool {
    match d {
        Dir::North => north_of(i, w),
        Dir::South => south_of(i, w, h),
        Dir::East => east_of(i, w),
        Dir::West => west_of(i, w),
    }
}

pub open spec fn flag(c: Cell, d: Dir) -> bool {
    match d {
        Dir::North => c.north_connected,
        Dir::South => c.south_connected,
        Dir::East => c.east_connected,
        Dir::West => c.west_connected,
    }
}

pub open spec fn with_flag(c: Cell, d: Dir, b: bool) -> Cell {
    match d {
        Dir::North => with_north(c, b),
        Dir::South => with_south(c, b),
        Dir::East => with_east(c, b),
        Dir::West => with_west(c, b),
    }
}

/// Every flag of cell `k` points at an existing cell whose opposite flag is set.
pub open spec fn cell_ok(cells: Seq<Cell>, w: int, h: int, k: int) -> bool {
    forall|d: Dir|
        #[trigger] flag(cells[k], d) ==> has_dir(k, d, w, h) && flag(cells[step(k, d, w)], opposite(d))
}

pub open spec fn cells_wf(cells: Seq<Cell>, w: int, h: int) -> bool {
    &&& w >= 1
    &&& h >= 1
    &&& cells.len() == w * h
    &&& w * h <= usize::MAX
    &&& forall|k: int| 0 <= k < w * h ==> #[trigger] cell_ok(cells, w, h, k)
}

/// `cells` with the passage between `i` and its neighbour in direction `d` opened
/// (`b`) or closed (`!b`), on both sides.
pub open spec fn with_link(cells: Seq<Cell>, w: int, i: int, d: Dir, b: bool) -> Seq<Cell> {
    let j = step(i, d, w);
    cells.update(i, with_flag(cells[i], d, b)).update(j, with_flag(cells[j], opposite(d), b))
}

pub proof fn lemma_step_in_grid(i: int, d: Dir, w: int, h: int)
    requires
        0 <= i < w * h,
        0 < w,
        0 < h,
        has_dir(i, d, w, h),
    ensures
        0 <= step(i, d, w) < w * h,
        step(i, d, w) != i,
        has_dir(step(i, d, w), opposite(d), w, h),
        step(step(i, d, w), opposite(d), w) == i,
{
    lemma_steps(i, w, h);
    let j = step(i, d, w);
    if 0 <= j < w * h {
        lemma_steps(j, w, h);
    }
    match d {
        Dir::North => {
            assert(w * (h - 1) == w * h - w) by (nonlinear_arith);
        },
        Dir::South => {
            assert(w * (h - 1) == w * h - w) by (nonlinear_arith);
        },
        _ => {},
    }
}

/// Exactly the two flags of the passage change.
pub proof fn lemma_with_link_flags(cells: Seq<Cell>, w: int, h: int, i: int, d: Dir, b: bool)
    requires
        cells_wf(cells, w, h),
        0 <= i < w * h,
        has_dir(i, d, w, h),
    ensures
        with_link(cells, w, i, d, b).len() == cells.len(),
        forall|k: int, e: Dir|
            0 <= k < w * h ==> #[trigger] flag(with_link(cells, w, i, d, b)[k], e) == if (k == i && e == d) || (
            k == step(i, d, w) && e == opposite(d)) {
                b
            } else {
                flag(cells[k], e)
            },
{
    lemma_step_in_grid(i, d, w, h);
}

/// Opening or closing a passage on both sides keeps the grid well formed.
pub proof fn lemma_with_link_wf(cells: Seq<Cell>, w: int, h: int, i: int, d: Dir, b: bool)
    requires
        cells_wf(cells, w, h),
        0 <= i < w * h,
        has_dir(i, d, w, h),
    ensures
        cells_wf(with_link(cells, w, i, d, b), w, h),
{
    let j = step(i, d, w);
    lemma_step_in_grid(i, d, w, h);
    let new = with_link(cells, w, i, d, b);
    assert forall|k: int| 0 <= k < w * h implies #[trigger] cell_ok(new, w, h, k) by {
        assert(cell_ok(cells, w, h, k));
        assert forall|e: Dir| #[trigger] flag(new[k], e) implies has_dir(k, e, w, h) && flag(
            new[step(k, e, w)],
            opposite(e),
        ) by {
            lemma_steps(k, w, h);
            if has_dir(k, e, w, h) {
                lemma_step_in_grid(k, e, w, h);
            }
            if k == i && e == d {
            } else if k == j && e == opposite(d) {
            } else {
                assert(flag(cells[k], e));
                let m = step(k, e, w);
                lemma_step_in_grid(k, e, w, h);
                if m == i && opposite(e) == d {
                    assert(k == j);
                    assert(e == opposite(d));
                } else if m == j && opposite(e) == opposite(d) {
                    assert(e == d);
                    assert(k == i);
                }
            }
        }
    }
}

impl Grid {
    pub open spec fn n(&self) -> int {
        self.width * self.height
    }

    pub open spec fn cell(&self, i: int) -> Cell {
        self.inner@[i]
    }

    pub open spec fn has_north(&self, i: int) -> bool {
        north_of(i, self.width as int)
    }

    pub open spec fn has_south(&self, i: int) -> bool {
        south_of(i, self.width as int, self.height as int)
    }

    pub open spec fn has_east(&self, i: int) -> bool {
        east_of(i, self.width as int)
    }

    pub open spec fn has_west(&self, i: int) -> bool {
        west_of(i, self.width as int)
    }

    /// The grid invariant: dimensions match the cell count, and connectivity is symmetric.
    pub open spec fn wf(&self) -> bool {
        cells_wf(self.inner@, self.width as int, self.height as int)
    }

    /// `i` and `j` are 4-neighbours by position.
    pub open spec fn adjacent(&self, i: int, j: int) -> bool {
        let w = self.width as int;
        &&& 0 <= i < self.n()
        &&& 0 <= j < self.n()
        &&& {
            ||| self.has_north(i) && j == i - w
            ||| self.has_south(i) && j == i + w
            ||| self.has_east(i) && j == i + 1
            ||| self.has_west(i) && j == i - 1
        }
    }

    /// `i` and `j` are joined by a passage (the flag of `i` toward `j` is set).
    pub open spec fn linked(&self, i: int, j: int) -> bool {
        let w = self.width as int;
        &&& 0 <= i < self.n()
        &&& 0 <= j < self.n()
        &&& {
            ||| j == i - w && self.inner@[i].north_connected
            ||| j == i + w && self.inner@[i].south_connected
            ||| j == i + 1 && self.inner@[i].east_connected
            ||| j == i - 1 && self.inner@[i].west_connected
        }
    }

    /// The 4-neighbours of `i`, north, south, east, west.
    pub open spec fn neighbor_seq(&self, i: int) -> Seq<usize> {
        let w = self.width as int;
        (if self.has_north(i) { seq![(i - w) as usize] } else { seq![] })
            + (if self.has_south(i) { seq![(i + w) as usize] } else { seq![] })
            + (if self.has_east(i) { seq![(i + 1) as usize] } else { seq![] })
            + (if self.has_west(i) { seq![(i - 1) as usize] } else { seq![] })
    }

    pub open spec fn same_shape(&self, other: &Grid) -> bool {
        self.width == other.width && self.height == other.height && self.inner@.len()
            == other.inner@.len()
    }

    /// Positional facts about cell `i` of a well-formed grid.
    pub proof fn lemma_cell(&self, i: int)
        requires
            self.wf(),
            0 <= i < self.n(),
        ensures
            self.has_east(i) ==> i + 1 < self.n(),
            self.has_south(i) ==> i + self.width < self.n(),
            self.has_west(i) ==> i >= 1,
            self.has_north(i) ==> i >= self.width,
            self.cell(i).north_connected ==> self.has_north(i),
            self.cell(i).south_connected ==> self.has_south(i),
            self.cell(i).east_connected ==> self.has_east(i),
            self.cell(i).west_connected ==> self.has_west(i),
            self.width == 1 ==> !self.has_east(i) && !self.has_west(i),
    {
        lemma_steps(i, self.width as int, self.height as int);
        assert(cell_ok(self.inner@, self.width as int, self.height as int, i));
        assert(flag(self.inner@[i], Dir::North) == self.inner@[i].north_connected);
        assert(flag(self.inner@[i], Dir::South) == self.inner@[i].south_connected);
        assert(flag(self.inner@[i], Dir::East) == self.inner@[i].east_connected);
        assert(flag(self.inner@[i], Dir::West) == self.inner@[i].west_connected);
    }

    /// In a well-formed grid, passages go both ways and join adjacent cells.
    pub proof fn lemma_linked_symmetric(&self, i: int, j: int)
        requires
            self.wf(),
        ensures
            self.linked(i, j) == self.linked(j, i),
            self.linked(i, j) ==> self.adjacent(i, j),
    {
        let w = self.width as int;
        let h = self.height as int;
        if 0 <= i < self.n() {
            assert(cell_ok(self.inner@, w, h, i));
            lemma_steps(i, w, h);
            assert(flag(self.inner@[i], Dir::North) == self.inner@[i].north_connected);
            assert(flag(self.inner@[i], Dir::South) == self.inner@[i].south_connected);
            assert(flag(self.inner@[i], Dir::East) == self.inner@[i].east_connected);
            assert(flag(self.inner@[i], Dir::West) == self.inner@[i].west_connected);
        }
        if 0 <= j < self.n() {
            assert(cell_ok(self.inner@, w, h, j));
            lemma_steps(j, w, h);
            assert(flag(self.inner@[j], Dir::North) == self.inner@[j].north_connected);
            assert(flag(self.inner@[j], Dir::South) == self.inner@[j].south_connected);
            assert(flag(self.inner@[j], Dir::East) == self.inner@[j].east_connected);
            assert(flag(self.inner@[j], Dir::West) == self.inner@[j].west_connected);
        }
    }

    pub fn new(width: usize, height: usize) -> (g: Grid)
        requires
            width >= 1,
            height >= 1,
            width * height <= usize::MAX,
        ensures
            g.wf(),
            g.width == width,
            g.height == height,
            forall|k: int| 0 <= k < g.n() ==> #[trigger] g.cell(k) == closed_cell(),
    {
        let n = width * height;
        let mut inner: Vec<Cell> = Vec::with_capacity(n);
        let mut k: usize = 0;
        while k < n
            invariant
                k <= n,
                inner@.len() == k,
                forall|j: int| 0 <= j < k ==> #[trigger] inner@[j] == closed_cell(),
            decreases n - k,
        {
            inner.push(Cell::default());
            k = k + 1;
        }
        let g = Grid { inner, width, height };
        assert forall|j: int| 0 <= j < g.n() implies #[trigger] cell_ok(g.inner@, width as int, height as int, j) by {
            assert(g.inner@[j] == closed_cell());
            assert forall|d: Dir| !#[trigger] flag(g.inner@[j], d) by {}
        }
        g
    }

    /// Clears every flag, keeping the dimensions.
    pub fn reset(&mut self)
        requires
            old(self).wf(),
        ensures
            final(self).wf(),
            final(self).same_shape(old(self)),
            forall|k: int| 0 <= k < final(self).n() ==> #[trigger] final(self).cell(k) == closed_cell(),
    {
        let n = self.inner.len();
        let mut k: usize = 0;
        while k < n
            invariant
                k <= n,
                n == self.inner@.len(),
                self.same_shape(old(self)),
                forall|j: int| 0 <= j < k ==> #[trigger] self.inner@[j] == closed_cell(),
            decreases n - k,
        {
            self.inner.set(k, Cell::default());
            k = k + 1;
        }
        assert forall|j: int| 0 <= j < self.n() implies #[trigger] cell_ok(self.inner@, self.width as int, self.height as int, j) by {
            assert(self.inner@[j] == closed_cell());
            assert forall|d: Dir| !#[trigger] flag(self.inner@[j], d) by {}
        }
    }

    pub fn size(&self) -> (r: usize)
        ensures
            r == self.inner@.len(),
    {
        self.inner.len()
    }

    pub fn has_neighbor_north(&self, index: usize) -> (r: bool)
        requires
            self.wf(),
        ensures
            r == self.has_north(index as int),
    {
        index >= self.width
    }

    pub fn has_neighbor_south(&self, index: usize) -> (r: bool)
        requires
            self.wf(),
        ensures
            r == self.has_south(index as int),
    {
        proof {
            assert(0 <= self.width * (self.height - 1) <= self.width * self.height) by (nonlinear_arith)
                requires
                    self.width >= 1,
                    self.height >= 1,
            ;
        }
        index < (self.width * (self.height - 1))
    }

    pub fn has_neighbor_east(&self, index: usize) -> (r: bool)
        requires
            self.wf(),
        ensures
            r == self.has_east(index as int),
    {
        index % self.width != (self.width - 1)
    }

    pub fn has_neighbor_west(&self, index: usize) -> (r: bool)
        requires
            self.wf(),
        ensures
            r == self.has_west(index as int),
    {
        index % self.width != 0
    }
}

impl Grid {
    /// Connectivity is symmetric: in a well-formed grid, a cell has its flag
    /// toward direction `d` set exactly when that neighbour exists and has
    /// the opposite flag set.
    pub proof fn lemma_flags_symmetric(&self, i: int, d: Dir)
        requires
            self.wf(),
            0 <= i < self.n(),
        ensures
            flag(self.cell(i), d) <==> has_dir(i, d, self.width as int, self.height as int) && flag(
                self.cell(step(i, d, self.width as int)),
                opposite(d),
            ),
    {
        let w = self.width as int;
        let h = self.height as int;
        assert(cell_ok(self.inner@, w, h, i));
        if has_dir(i, d, w, h) {
            lemma_step_in_grid(i, d, w, h);
            let j = step(i, d, w);
            assert(cell_ok(self.inner@, w, h, j));
            assert(flag(self.inner@[j], opposite(d)) ==> has_dir(j, opposite(d), w, h) && flag(
                self.inner@[step(j, opposite(d), w)],
                opposite(opposite(d)),
            ));
            assert(opposite(opposite(d)) == d);
        }
    }
}

/// `q` leads from `a` to `b` through open passages (cells may repeat).
pub open spec fn is_route(grid: &Grid, q: Seq<usize>, a: int, b: int) -> bool {
    &&& q.len() >= 1
    &&& q[0] == a
    &&& q.last() == b
    &&& forall|k: int| 0 <= k < q.len() - 1 ==> #[trigger] grid.linked(q[k] as int, q[k + 1] as int)
}

/// Some route leads from `a` to `b`.
pub open spec fn reachable(grid: &Grid, a: int, b: int) -> bool {
    exists|q: Seq<usize>| #[trigger] is_route(grid, q, a, b)
}

/// A set of cells (`region[c]`) that holds `a` and every cell one passage away from one of
/// its cells holds every cell reachable from `a`.
pub proof fn lemma_closed_region(grid: &Grid, region: Seq<bool>, q: Seq<usize>, a: int, b: int)
    requires
        region.len() == grid.n(),
        is_route(grid, q, a, b),
        region[a],
        forall|c: int, j: int| 0 <= c < grid.n() && region[c] && #[trigger] grid.linked(c, j) ==> region[j],
    ensures
        region[b],
    decreases q.len(),
{
    if q.len() > 1 {
        let p = q.drop_last();
        assert forall|k: int| 0 <= k < p.len() - 1 implies #[trigger] grid.linked(p[k] as int, p[k + 1] as int) by {
            assert(grid.linked(q[k] as int, q[k + 1] as int));
        }
        lemma_closed_region(grid, region, p, a, p.last() as int);
        let k = q.len() - 2;
        assert(grid.linked(q[k] as int, q[k + 1] as int));
        assert(p.last() == q[k]);
    }
}

/// The direction from `i` toward its neighbour `j`, tested in the order north,
/// south, east, west.
pub open spec fn dir_between(i: int, j: int, w: int) -> Dir {
    if j + w == i {
        Dir::North
    } else if j == i + w {
        Dir::South
    } else if j == i + 1 {
        Dir::East
    } else {
        Dir::West
    }
}

impl Grid {
    pub proof fn lemma_dir_between(&self, i: int, j: int)
        requires
            self.wf(),
            self.adjacent(i, j),
        ensures
            has_dir(i, dir_between(i, j, self.width as int), self.width as int, self.height as int),
            step(i, dir_between(i, j, self.width as int), self.width as int) == j,
    {
        lemma_steps(i, self.width as int, self.height as int);
    }

    pub proof fn lemma_nonempty(&self)
        requires
            self.wf(),
        ensures
            self.n() >= 1,
            self.inner@.len() == self.n(),
    {
        assert(self.width * self.height >= 1) by (nonlinear_arith)
            requires
                self.width >= 1,
                self.height >= 1,
        ;
    }

    /// The listed neighbours are adjacent, and a grid of two or more cells
    /// gives every cell at least one.
    pub proof fn lemma_neighbor_seq(&self, i: int)
        requires
            self.wf(),
            0 <= i < self.n(),
        ensures
            forall|k: int| 0 <= k < self.neighbor_seq(i).len() ==> #[trigger] self.adjacent(i, self.neighbor_seq(i)[k] as int),
            forall|j: int| #[trigger] self.neighbor_seq(i).contains(j as usize) && 0 <= j < self.n() ==> self.adjacent(i, j),
            self.n() >= 2 ==> self.neighbor_seq(i).len() >= 1,
            forall|j: int| #[trigger] self.adjacent(i, j) ==> self.neighbor_seq(i).contains(j as usize),
    {
        let w = self.width as int;
        let h = self.height as int;
        lemma_steps(i, w, h);
        let ns = self.neighbor_seq(i);
        assert forall|k: int| 0 <= k < ns.len() implies #[trigger] self.adjacent(i, ns[k] as int) by {}
        assert forall|j: int| #[trigger] ns.contains(j as usize) && 0 <= j < self.n() implies self.adjacent(i, j) by {
            let k = choose|k: int| 0 <= k < ns.len() && ns[k] == j as usize;
            assert(self.adjacent(i, ns[k] as int));
        }
        if self.n() >= 2 {
            if w == 1 {
                assert(w * (h - 1) == h - 1);
            }
        }
        let sn = if self.has_north(i) { seq![(i - w) as usize] } else { seq![] };
        let ss = if self.has_south(i) { seq![(i + w) as usize] } else { seq![] };
        let se = if self.has_east(i) { seq![(i + 1) as usize] } else { seq![] };
        let sw = if self.has_west(i) { seq![(i - 1) as usize] } else { seq![] };
        assert(ns == sn + ss + se + sw);
        assert forall|j: int| #[trigger] self.adjacent(i, j) implies ns.contains(j as usize) by {
            if self.has_north(i) && j == i - w {
                assert(ns[0] == j as usize);
            } else if self.has_south(i) && j == i + w {
                assert(ns[sn.len() as int] == j as usize);
            } else if self.has_east(i) && j == i + 1 {
                assert(ns[(sn.len() + ss.len()) as int] == j as usize);
            } else {
                assert(ns[(sn.len() + ss.len() + se.len()) as int] == j as usize);
            }
        }
    }

    fn set_link(&mut self, index: usize, d: Dir, b: bool)
        requires
            old(self).wf(),
            index < old(self).n(),
            has_dir(index as int, d, old(self).width as int, old(self).height as int),
        ensures
            final(self).wf(),
            final(self).same_shape(old(self)),
            final(self).inner@ == with_link(old(self).inner@, old(self).width as int, index as int, d, b),
    {
        proof {
            lemma_step_in_grid(index as int, d, self.width as int, self.height as int);
            lemma_with_link_wf(self.inner@, self.width as int, self.height as int, index as int, d, b);
        }
        let j = match d {
            Dir::North => index - self.width,
            Dir::South => index + self.width,
            Dir::East => index + 1,
            Dir::West => index - 1,
        };
        let mut c = self.inner[index];
        match d {
            Dir::North => c.north_connected = b,
            Dir::South => c.south_connected = b,
            Dir::East => c.east_connected = b,
            Dir::West => c.west_connected = b,
        }
        self.inner.set(index, c);
        let mut e = self.inner[j];
        match d {
            Dir::North => e.south_connected = b,
            Dir::South => e.north_connected = b,
            Dir::East => e.west_connected = b,
            Dir::West => e.east_connected = b,
        }
        self.inner.set(j, e);
    }

    pub fn connect_cell_north(&mut self, index: usize)
        requires
            old(self).wf(),
            index < old(self).n(),
            old(self).has_north(index as int),
        ensures
            final(self).wf(),
            final(self).same_shape(old(self)),
            final(self).inner@ == with_link(old(self).inner@, old(self).width as int, index as int, Dir::North, true),
    {
        self.set_link(index, Dir::North, true);
    }

    pub fn connect_cell_south(&mut self, index: usize)
        requires
            old(self).wf(),
            index < old(self).n(),
            old(self).has_south(index as int),
        ensures
            final(self).wf(),
            final(self).same_shape(old(self)),
            final(self).inner@ == with_link(old(self).inner@, old(self).width as int, index as int, Dir::South, true),
    {
        self.set_link(index, Dir::South, true);
    }

    pub fn connect_cell_west(&mut self, index: usize)
        requires
            old(self).wf(),
            index < old(self).n(),
            old(self).has_west(index as int),
        ensures
            final(self).wf(),
            final(self).same_shape(old(self)),
            final(self).inner@ == with_link(old(self).inner@, old(self).width as int, index as int, Dir::West, true),
    {
        self.set_link(index, Dir::West, true);
    }

    pub fn connect_cell_east(&mut self, index: usize)
        requires
            old(self).wf(),
            index < old(self).n(),
            old(self).has_east(index as int),
        ensures
            final(self).wf(),
            final(self).same_shape(old(self)),
            final(self).inner@ == with_link(old(self).inner@, old(self).width as int, index as int, Dir::East, true),
    {
        self.set_link(index, Dir::East, true);
    }

    pub fn disconnect_cell_north(&mut self, index: usize)
        requires
            old(self).wf(),
            index < old(self).n(),
            old(self).has_north(index as int),
        ensures
            final(self).wf(),
            final(self).same_shape(old(self)),
            final(self).inner@ == with_link(old(self).inner@, old(self).width as int, index as int, Dir::North, false),
    {
        self.set_link(index, Dir::North, false);
    }

    pub fn disconnect_cell_south(&mut self, index: usize)
        requires
            old(self).wf(),
            index < old(self).n(),
            old(self).has_south(index as int),
        ensures
            final(self).wf(),
            final(self).same_shape(old(self)),
            final(self).inner@ == with_link(old(self).inner@, old(self).width as int, index as int, Dir::South, false),
    {
        self.set_link(index, Dir::South, false);
    }

    pub fn disconnect_cell_west(&mut self, index: usize)
        requires
            old(self).wf(),
            index < old(self).n(),
            old(self).has_west(index as int),
        ensures
            final(self).wf(),
            final(self).same_shape(old(self)),
            final(self).inner@ == with_link(old(self).inner@, old(self).width as int, index as int, Dir::West, false),
    {
        self.set_link(index, Dir::West, false);
    }

    pub fn disconnect_cell_east(&mut self, index: usize)
        requires
            old(self).wf(),
            index < old(self).n(),
            old(self).has_east(index as int),
        ensures
            final(self).wf(),
            final(self).same_shape(old(self)),
            final(self).inner@ == with_link(old(self).inner@, old(self).width as int, index as int, Dir::East, false),
    {
        self.set_link(index, Dir::East, false);
    }

    /// Opens the passage between two adjacent cells. The cells must be
    /// 4-neighbours.
    pub fn connect_neighbors(&mut self, i1: usize, i2: usize)
        requires
            old(self).wf(),
            old(self).adjacent(i1 as int, i2 as int),
        ensures
            final(self).wf(),
            final(self).same_shape(old(self)),
            final(self).inner@ == with_link(
                old(self).inner@,
                old(self).width as int,
                i1 as int,
                dir_between(i1 as int, i2 as int, old(self).width as int),
                true,
            ),
    {
        proof {
            self.lemma_dir_between(i1 as int, i2 as int);
        }
        if i1 >= self.width && i2 == i1 - self.width {
            self.connect_cell_north(i1);
        } else if i2 >= self.width && i2 - self.width == i1 {
            self.connect_cell_south(i1);
        } else if i2 == i1 + 1 {
            self.connect_cell_east(i1);
        } else {
            self.connect_cell_west(i1);
        }
    }

    pub fn check_if_neighbors_and_connected(&self, i1: usize, i2: usize) -> (r: bool)
        requires
            self.wf(),
            i1 < self.n(),
            i2 < self.n(),
        ensures
            r == self.linked(i1 as int, i2 as int),
    {
        proof {
            self.lemma_cell(i1 as int);
        }
        if i1 >= self.width && i2 == i1 - self.width {
            self.inner[i1].north_connected
        } else if i2 >= self.width && i2 - self.width == i1 {
            self.inner[i1].south_connected
        } else if i2 == i1 + 1 {
            self.inner[i1].east_connected
        } else if i2 + 1 == i1 {
            self.inner[i1].west_connected
        } else {
            false
        }
    }

    /// Appends the existing 4-neighbours of `index` to `buf`: north, south, east, west.
    pub fn neighbors(&self, index: usize, buf: &mut Vec<usize>)
        requires
            self.wf(),
            index < self.n(),
        ensures
            final(buf)@ == old(buf)@ + self.neighbor_seq(index as int),
    {
        proof {
            self.lemma_cell(index as int);
        }
        let ghost b0 = buf@;
        if self.has_neighbor_north(index) {
            buf.push(index - self.width);
        }
        let ghost b1 = buf@;
        if self.has_neighbor_south(index) {
            buf.push(index + self.width);
        }
        let ghost b2 = buf@;
        if self.has_neighbor_east(index) {
            buf.push(index + 1);
        }
        let ghost b3 = buf@;
        if self.has_neighbor_west(index) {
            buf.push(index - 1);
        }
        proof {
            let w = self.width as int;
            let i = index as int;
            let sn = if self.has_north(i) { seq![(i - w) as usize] } else { seq![] };
            let ss = if self.has_south(i) { seq![(i + w) as usize] } else { seq![] };
            let se = if self.has_east(i) { seq![(i + 1) as usize] } else { seq![] };
            let sw = if self.has_west(i) { seq![(i - 1) as usize] } else { seq![] };
            assert(b1 =~= b0 + sn);
            assert(b2 =~= b0 + sn + ss);
            assert(b3 =~= b0 + sn + ss + se);
            assert(buf@ =~= b0 + sn + ss + se + sw);
            assert(b0 + (sn + ss + se + sw) =~= b0 + sn + ss + se + sw);
        }
    }

    /// The cells with exactly one passage, in grid order.
    pub fn dead_ends(&self) -> (r: Vec<Cell>)
        ensures
            r@ == self.inner@.filter(|c: Cell| degree(c) == 1),
    {
        let mut r: Vec<Cell> = Vec::new();
        let mut k: usize = 0;
        while k < self.inner.len()
            invariant
                k <= self.inner@.len(),
                r@ == self.inner@.subrange(0, k as int).filter(|c: Cell| degree(c) == 1),
            decreases self.inner@.len() - k,
        {
            let c = self.inner[k];
            proof {
                let s = self.inner@.subrange(0, k as int + 1);
                assert(s.drop_last() =~= self.inner@.subrange(0, k as int));
                assert(s.last() == c);
                reveal(Seq::filter);
            }
            if c.num_connections() == 1 {
                r.push(c);
            }
            k = k + 1;
        }
        assert(self.inner@.subrange(0, self.inner@.len() as int) =~= self.inner@);
        r
    }

    pub fn get_mut(&mut self, index: usize) -> (r: Option<&mut Cell>)
        ensures
            index < old(self).inner@.len() ==> r is Some && *r->0 == old(self).inner@[index as int]
                && final(self).inner@ == old(self).inner@.update(index as int, *final(r->0)),
            index >= old(self).inner@.len() ==> r is None && final(self).inner@ == old(self).inner@,
            final(self).width == old(self).width,
            final(self).height == old(self).height,
    {
        if index < self.inner.len() {
            Some(&mut self.inner[index])
        } else {
            None
        }
    }

    pub fn get(&self, index: usize) -> (r: Option<&Cell>)
        ensures
            index < self.inner@.len() ==> r == Some(&self.inner@[index as int]),
            index >= self.inner@.len() ==> r.is_none(),
    {
        if index < self.inner.len() {
            Some(&self.inner[index])
        } else {
            None
        }
    }
}

} // verus!
