//! The maze generators. Each carves passages into a grid, drawing its random
//! choices from the caller's generator.

use vstd::prelude::*;
use rand_xorshift::XorShiftRng;
use crate::disjoint_set::DisjointSet;
use crate::perfect::{open_on, tree_on, lemma_link_cut, lemma_tree_on_frame, lemma_tree_join, lemma_tree_on_all, region_witness, lemma_forest_view, uf_forest, lemma_forest_join, lemma_forest_single, grown_tree_except, lemma_lay_pointer, is_partial_tree, is_perfect_maze, tree_witness, grown_tree, lemma_grow, lemma_link_added, lemma_grown_tree_perfect, lemma_region_covers_grid, lemma_region_covers_grid_from};
use crate::grid::{Cell, degree, closed_cell, with_link, dir_between, north_of, east_of, lemma_div_mod, lemma_row_col, Grid, Dir, flag, has_dir, step, opposite, lemma_with_link_flags, lemma_step_in_grid, lemma_index, lemma_steps};
use crate::random::{random_ratio, random_range, choose_in_range, choose_item, shuffle, sample_uniform_u8};

verus! {

/// The generators, and the fully connected baseline.
#[derive(Copy, Clone, Debug, PartialEq, Eq, Structural)]
pub enum Algo {
    BinaryTree,
    Sidewinder,
    AldousBroder,
    Wilson,
    HuntAndKill,
    RecursiveBacktracker,
    Kruskal,
    Eller,
    RecursiveDivision,
    PrimSimplified,
    PrimTrue,
    Empty,
}

// ---------------------------------------------------------------------------
// Counting, for termination

pub open spec fn count_where<A>(s: Seq<A>, p: spec_fn(A) -> bool) -> nat
    decreases s.len(),
{
    if s.len() == 0 {
        0
    } else {
        count_where(s.drop_last(), p) + if p(s.last()) {
            1nat
        } else {
            0nat
        }
    }
}

/// Where every item that meets `p` in `t` meets it in `s` too, `t` counts no
/// more; and fewer if some item of `s` meets `p` while its place in `t` does not.
pub proof fn lemma_count_mono<A>(s: Seq<A>, t: Seq<A>, p: spec_fn(A) -> bool, k0: int)
    requires
        s.len() == t.len(),
        forall|k: int| 0 <= k < s.len() && p(#[trigger] t[k]) ==> p(s[k]),
    ensures
        count_where(t, p) <= count_where(s, p),
        0 <= k0 < s.len() && p(s[k0]) && !p(t[k0]) ==> count_where(t, p) < count_where(s, p),
    decreases s.len(),
{
    if s.len() > 0 {
        let s1 = s.drop_last();
        let t1 = t.drop_last();
        assert forall|k: int| 0 <= k < s1.len() && p(#[trigger] t1[k]) implies p(s1[k]) by {
            assert(t1[k] == t[k]);
        }
        lemma_count_mono(s1, t1, p, k0);
        assert(p(t.last()) ==> p(s.last()));
    }
}

/// Changing one item from meeting `p` to not meeting it lowers the count by one.
pub proof fn lemma_count_update<A>(s: Seq<A>, p: spec_fn(A) -> bool, k: int, v: A)
    requires
        0 <= k < s.len(),
        p(s[k]),
        !p(v),
    ensures
        count_where(s.update(k, v), p) + 1 == count_where(s, p),
    decreases s.len(),
{
    let t = s.update(k, v);
    if k == s.len() - 1 {
        assert(t.drop_last() =~= s.drop_last());
    } else {
        assert(t.drop_last() =~= s.drop_last().update(k, v));
        lemma_count_update(s.drop_last(), p, k, v);
    }
}

pub open spec fn unvisited(b: bool) -> bool {
    !b
}

proof fn lemma_count_bound<A>(s: Seq<A>, p: spec_fn(A) -> bool)
    ensures
        count_where(s, p) <= s.len(),
    decreases s.len(),
{
    if s.len() > 0 {
        lemma_count_bound(s.drop_last(), p);
    }
}

proof fn lemma_count_zero<A>(s: Seq<A>, p: spec_fn(A) -> bool)
    ensures
        count_where(s, p) == 0 <==> forall|k: int| 0 <= k < s.len() ==> !p(#[trigger] s[k]),
    decreases s.len(),
{
    if s.len() > 0 {
        lemma_count_zero(s.drop_last(), p);
        if count_where(s, p) == 0 {
            assert forall|k: int| 0 <= k < s.len() implies !p(#[trigger] s[k]) by {
                if k < s.len() - 1 {
                    assert(s[k] == s.drop_last()[k]);
                }
            }
        }
        if forall|k: int| 0 <= k < s.len() ==> !p(#[trigger] s[k]) {
            assert forall|k: int| 0 <= k < s.drop_last().len() implies !p(#[trigger] s.drop_last()[k]) by {
                assert(s[k] == s.drop_last()[k]);
            }
            assert(!p(s[s.len() - 1]));
        }
    }
}

/// A fresh list of `n` unvisited flags.
fn unvisited_flags(n: usize) -> (v: Vec<bool>)
    ensures
        v@.len() == n,
        forall|k: int| 0 <= k < n ==> !#[trigger] v@[k],
        count_where(v@, |b: bool| unvisited(b)) == n,
{
    let mut v: Vec<bool> = Vec::with_capacity(n);
    let mut i: usize = 0;
    while i < n
        invariant
            i <= n,
            v@.len() == i,
            forall|k: int| 0 <= k < i ==> !#[trigger] v@[k],
            count_where(v@, |b: bool| unvisited(b)) == i,
        decreases n - i,
    {
        proof {
            assert(v@.push(false).drop_last() =~= v@);
        }
        v.push(false);
        i = i + 1;
    }
    v
}

/// Marks `i` visited, keeping `remaining` equal to the number of unvisited cells.
fn visit(visited: &mut Vec<bool>, remaining: &mut usize, i: usize)
    requires
        i < old(visited)@.len(),
        *old(remaining) == count_where(old(visited)@, |b: bool| unvisited(b)),
    ensures
        final(visited)@ == old(visited)@.update(i as int, true),
        *final(remaining) == count_where(final(visited)@, |b: bool| unvisited(b)),
        !old(visited)@[i as int] ==> *final(remaining) + 1 == *old(remaining),
{
    if !visited[i] {
        proof {
            lemma_count_update(visited@, |b: bool| unvisited(b), i as int, true);
            lemma_count_bound(visited@, |b: bool| unvisited(b));
        }
        visited.set(i, true);
        *remaining = *remaining - 1;
    } else {
        proof {
            assert(visited@.update(i as int, true) =~= visited@);
        }
    }
}

// ---------------------------------------------------------------------------
// Generators

/// The cell whose turn it is to open the passage from `k` in direction `d`
/// when the grid is filled in index order.
pub open spec fn owner(k: int, d: Dir, w: int) -> int {
    match d {
        Dir::South | Dir::East => k,
        _ => step(k, d, w),
    }
}

/// Opens every passage of the grid: not a maze, a baseline.
pub fn empty(grid: &mut Grid)
    requires
        old(grid).wf(),
    ensures
        final(grid).wf(),
        final(grid).same_shape(old(grid)),
        forall|k: int, d: Dir|
            0 <= k < final(grid).n() ==> #[trigger] flag(final(grid).cell(k), d) == has_dir(
                k,
                d,
                final(grid).width as int,
                final(grid).height as int,
            ),
{
    let ghost g0 = *grid;
    let n = grid.size();
    let ghost w = grid.width as int;
    let ghost h = grid.height as int;
    let mut i: usize = 0;
    proof {
        assert forall|k: int, d: Dir| 0 <= k < n && has_dir(k, d, w, h) implies owner(k, d, w) >= 0 by {
            lemma_step_in_grid(k, d, w, h);
        }
    }
    while i < n
        invariant
            i <= n,
            grid.wf(),
            grid.same_shape(&g0),
            n == grid.n(),
            w == grid.width,
            h == grid.height,
            forall|k: int, d: Dir|
                0 <= k < n && has_dir(k, d, w, h) && owner(k, d, w) < i ==> #[trigger] flag(grid.inner@[k], d),
        decreases n - i,
    {
        let ghost before = grid.inner@;
        if grid.has_neighbor_south(i) {
            proof {
                lemma_with_link_flags(grid.inner@, w, h, i as int, Dir::South, true);
            }
            grid.connect_cell_south(i);
        }
        let ghost mid = grid.inner@;
        if grid.has_neighbor_east(i) {
            proof {
                lemma_with_link_flags(grid.inner@, w, h, i as int, Dir::East, true);
            }
            grid.connect_cell_east(i);
        }
        proof {
            assert forall|k: int, d: Dir|
                0 <= k < n && has_dir(k, d, w, h) && owner(k, d, w) < i + 1 implies #[trigger] flag(grid.inner@[k], d) by {
                lemma_step_in_grid(k, d, w, h);
                assert(flag(before[k], d) ==> flag(mid[k], d));
                assert(flag(mid[k], d) ==> flag(grid.inner@[k], d));
                if d == Dir::North || d == Dir::West {
                    if step(k, d, w) == i {
                        lemma_step_in_grid(i as int, opposite(d), w, h);
                    }
                }
            }
        }
        i = i + 1;
    }
    proof {
        assert forall|k: int, d: Dir| 0 <= k < grid.n() implies #[trigger] flag(grid.cell(k), d) == has_dir(k, d, w, h) by {
            assert(crate::grid::cell_ok(grid.inner@, w, h, k));
            if has_dir(k, d, w, h) {
                lemma_step_in_grid(k, d, w, h);
            }
        }
    }
}

/// After `empty` on a grid of at least two rows and two columns, every cell
/// has two or more passages, so the grid has no dead ends.
pub proof fn lemma_empty_has_no_dead_ends(grid: &Grid)
    requires
        grid.wf(),
        grid.width >= 2,
        grid.height >= 2,
        forall|k: int, d: Dir|
            0 <= k < grid.n() ==> #[trigger] flag(grid.cell(k), d) == has_dir(k, d, grid.width as int, grid.height as int),
    ensures
        forall|k: int| 0 <= k < grid.n() ==> degree(#[trigger] grid.cell(k)) >= 2,
        grid.inner@.filter(|c: Cell| degree(c) == 1).len() == 0,
{
    let w = grid.width as int;
    let h = grid.height as int;
    assert forall|k: int| 0 <= k < grid.n() implies degree(#[trigger] grid.cell(k)) >= 2 by {
        lemma_steps(k, w, h);
        assert(flag(grid.cell(k), Dir::North) == has_dir(k, Dir::North, w, h));
        assert(flag(grid.cell(k), Dir::South) == has_dir(k, Dir::South, w, h));
        assert(flag(grid.cell(k), Dir::East) == has_dir(k, Dir::East, w, h));
        assert(flag(grid.cell(k), Dir::West) == has_dir(k, Dir::West, w, h));
    }
    let f = grid.inner@.filter(|c: Cell| degree(c) == 1);
    if f.len() > 0 {
        broadcast use vstd::seq_lib::group_filter_ensures;
        assert(degree(f[0]) == 1);
        assert(f.contains(f[0]));
        grid.inner@.lemma_filter_contains_rev(|c: Cell| degree(c) == 1, f[0]);
        assert(grid.inner@.contains(f[0]));
        let k = choose|k: int| 0 <= k < grid.inner@.len() && grid.inner@[k] == f[0];
        assert(degree(grid.cell(k)) >= 2);
    }
}

/// Each cell opens north or east on a fair coin; cells on the north or east
/// border take the only way they have. From a closed grid the result is a
/// perfect maze.
pub fn binary_tree(grid: &mut Grid, rng: &mut XorShiftRng)
    requires
        old(grid).wf(),
    ensures
        final(grid).wf(),
        final(grid).same_shape(old(grid)),
        all_closed(old(grid)) ==> is_perfect_maze(final(grid)),
        all_closed(old(grid)) ==> binary_tree_shape(final(grid)),
{
    let ghost g0 = *grid;
    let ghost w = grid.width as int;
    let ghost h = grid.height as int;
    let n = grid.size();
    // the way each visited cell opened: 1 north, 2 east, 0 neither
    let ghost mut choice: Seq<int> = Seq::empty();
    let mut i: usize = 0;
    proof {
        if all_closed(&g0) {
            assert forall|k: int| 0 <= k < n implies #[trigger] binary_tree_cell(grid, choice, 0, k) by {
                assert(g0.cell(k) == closed_cell());
            }
        }
    }
    while i < n
        invariant
            i <= n,
            grid.wf(),
            grid.same_shape(&g0),
            n == grid.n(),
            w == grid.width,
            h == grid.height,
            choice.len() == i,
            all_closed(&g0) ==> binary_tree_state(grid, choice, i as int),
        decreases n - i,
    {
        let ghost before = grid.inner@;
        let ghost gb = *grid;
        let ghost c: int;
        if grid.has_neighbor_north(i) && grid.has_neighbor_east(i) {
            if random_ratio(rng, 1, 2) {
                proof { lemma_with_link_flags(grid.inner@, w, h, i as int, Dir::North, true); }
                grid.connect_cell_north(i);
                proof { c = 1; }
            } else {
                proof { lemma_with_link_flags(grid.inner@, w, h, i as int, Dir::East, true); }
                grid.connect_cell_east(i);
                proof { c = 2; }
            }
        } else if grid.has_neighbor_north(i) {
            proof { lemma_with_link_flags(grid.inner@, w, h, i as int, Dir::North, true); }
            grid.connect_cell_north(i);
            proof { c = 1; }
        } else if grid.has_neighbor_east(i) {
            proof { lemma_with_link_flags(grid.inner@, w, h, i as int, Dir::East, true); }
            grid.connect_cell_east(i);
            proof { c = 2; }
        } else {
            proof { c = 0; }
        }
        proof {
            let ch = choice.push(c);
            if all_closed(&g0) {
                lemma_binary_tree_step(&gb, grid, choice, i as int, c);
            }
            choice = ch;
        }
        i = i + 1;
    }
    proof {
        if all_closed(&g0) {
            lemma_binary_tree_perfect(grid, choice);
            lemma_binary_tree_shape(grid, choice);
        }
    }
}

/// The cells of a binary-tree maze: the north-east corner opens neither north
/// nor east; every other cell opens exactly one of the two, east on the top
/// row and north in the last column.
pub open spec fn binary_tree_shape(g: &Grid) -> bool {
    let w = g.width as int;
    forall|k: int|
        0 <= k < g.n() ==> {
            let c = #[trigger] g.cell(k);
            &&& k == w - 1 ==> !c.north_connected && !c.east_connected
            &&& k != w - 1 ==> c.north_connected != c.east_connected
            &&& k != w - 1 && !g.has_north(k) ==> c.east_connected
            &&& k != w - 1 && !g.has_east(k) ==> c.north_connected
        }
}

proof fn lemma_binary_tree_shape(g: &Grid, choice: Seq<int>)
    requires
        g.wf(),
        choice.len() == g.n(),
        binary_tree_state(g, choice, g.n()),
    ensures
        binary_tree_shape(g),
{
    let w = g.width as int;
    let h = g.height as int;
    assert forall|k: int| 0 <= k < g.n() implies {
        let c = #[trigger] g.cell(k);
        &&& k == w - 1 ==> !c.north_connected && !c.east_connected
        &&& k != w - 1 ==> c.north_connected != c.east_connected
        &&& k != w - 1 && !g.has_north(k) ==> c.east_connected
        &&& k != w - 1 && !g.has_east(k) ==> c.north_connected
    } by {
        assert(binary_tree_cell(g, choice, g.n(), k));
        lemma_steps(k, w, h);
        lemma_div_mod(k, w);
        if k == w - 1 {
            lemma_row_col(k, w, 0, k);
        }
        if choice[k] == 0 {
            assert(k < w);
            lemma_row_col(k, w, 0, k);
        }
    }
}

/// Every cell of the grid is closed.
pub open spec fn all_closed(g: &Grid) -> bool {
    forall|k: int| 0 <= k < g.n() ==> #[trigger] g.cell(k) == closed_cell()
}

/// Cell `k` of `cells` after the binary-tree pass has handled cells `0..i`,
/// choosing `choice[c]` for each (1 north, 2 east, 0 neither).
pub open spec fn binary_tree_cell_at(cells: Seq<Cell>, w: int, h: int, choice: Seq<int>, i: int, k: int) -> bool {
    let c = cells[k];
    &&& k < i ==> (choice[k] == 1 ==> north_of(k, w)) && (choice[k] == 2 ==> east_of(k, w)) && (choice[k] == 0 ==> !north_of(k, w)
        && !east_of(k, w)) && 0 <= choice[k] <= 2
    &&& c.north_connected == (k < i && choice[k] == 1)
    &&& c.east_connected == (k < i && choice[k] == 2)
    &&& c.south_connected == (k + w < i && choice[k + w] == 1)
    &&& c.west_connected == (1 <= k && k - 1 < i && east_of(k - 1, w) && choice[k - 1] == 2)
}

pub open spec fn binary_tree_cell(g: &Grid, choice: Seq<int>, i: int, k: int) -> bool {
    binary_tree_cell_at(g.inner@, g.width as int, g.height as int, choice, i, k)
}

pub open spec fn binary_tree_state(g: &Grid, choice: Seq<int>, i: int) -> bool {
    forall|k: int| 0 <= k < g.n() ==> #[trigger] binary_tree_cell(g, choice, i, k)
}

/// One step of the binary-tree pass keeps the description of every cell.
proof fn lemma_binary_tree_step(gb: &Grid, g: &Grid, choice: Seq<int>, i: int, c: int)
    requires
        gb.wf(),
        0 <= i < gb.n(),
        choice.len() == i,
        g.same_shape(gb),
        binary_tree_state(gb, choice, i),
        c == 1 ==> gb.has_north(i) && g.inner@ == with_link(gb.inner@, gb.width as int, i, Dir::North, true),
        c == 2 ==> gb.has_east(i) && g.inner@ == with_link(gb.inner@, gb.width as int, i, Dir::East, true),
        c == 0 ==> !gb.has_north(i) && !gb.has_east(i) && g.inner@ == gb.inner@,
        0 <= c <= 2,
    ensures
        binary_tree_state(g, choice.push(c), i + 1),
{
    let w = gb.width as int;
    let h = gb.height as int;
    let ch = choice.push(c);
    let before = gb.inner@;
    let after = g.inner@;
    if c == 1 {
        lemma_with_link_flags(before, w, h, i, Dir::North, true);
    } else if c == 2 {
        lemma_with_link_flags(before, w, h, i, Dir::East, true);
    }
    assert forall|k: int| 0 <= k < g.n() implies #[trigger] binary_tree_cell(g, ch, i + 1, k) by {
        assert(binary_tree_cell(gb, choice, i, k));
        assert(flag(after[k], Dir::North) == after[k].north_connected);
        assert(flag(after[k], Dir::South) == after[k].south_connected);
        assert(flag(after[k], Dir::East) == after[k].east_connected);
        assert(flag(after[k], Dir::West) == after[k].west_connected);
        assert(flag(before[k], Dir::North) == before[k].north_connected);
        assert(flag(before[k], Dir::South) == before[k].south_connected);
        assert(flag(before[k], Dir::East) == before[k].east_connected);
        assert(flag(before[k], Dir::West) == before[k].west_connected);
        if k < i {
            assert(ch[k] == choice[k]);
        }
        if k + w < i + 1 && k + w >= 0 {
            assert(ch[k + w] == if k + w < i { choice[k + w] } else { c });
        }
        if 1 <= k && k - 1 < i + 1 {
            assert(ch[k - 1] == if k - 1 < i { choice[k - 1] } else { c });
        }
        assert(ch[i] == c);
    }
}

proof fn lemma_binary_tree_perfect(g: &Grid, choice: Seq<int>)
    requires
        g.wf(),
        choice.len() == g.n(),
        binary_tree_state(g, choice, g.n()),
    ensures
        is_perfect_maze(g),
{
    let w = g.width as int;
    let h = g.height as int;
    let n = g.n();
    let root = w - 1;
    let parent = Seq::new(n as nat, |c: int| if choice[c] == 1 { c - w } else if choice[c] == 2 { c + 1 } else { c });
    let rank = Seq::new(n as nat, |c: int| (c / w + (w - 1 - c % w)) as nat);
    g.lemma_nonempty();
    assert(0 <= root < n) by {
        assert(w <= w * h) by (nonlinear_arith)
            requires
                h >= 1,
                w >= 1,
        ;
    }
    lemma_index(0, root, w, h);
    assert(binary_tree_cell(g, choice, n, root));
    assert(choice[root] == 0);
    assert forall|v: int| 0 <= v < n && v != root implies 0 <= #[trigger] parent[v] < n && g.linked(v, parent[v]) && rank[parent[v]]
        < rank[v] by {
        assert(binary_tree_cell(g, choice, n, v));
        lemma_steps(v, w, h);
        lemma_div_mod(v, w);
        if choice[v] == 0 {
            // only the north-east corner has neither way
            assert(v < w);
            lemma_row_col(v, w, 0, v);
            assert(v % w == w - 1);
        }
    }
    assert forall|u: int, v: int| #[trigger] g.linked(u, v) implies parent[u] == v || parent[v] == u by {
        assert(binary_tree_cell(g, choice, n, u));
        lemma_steps(u, w, h);
        if 0 <= v < n {
            assert(binary_tree_cell(g, choice, n, v));
        }
    }
    assert(tree_witness(g, parent, rank, root));
}

/// Row by row: a run of cells grows eastward; on a fair coin (or at the east
/// border) the run closes and one of its cells, chosen uniformly, opens north.
/// The top row is one corridor. From a closed grid the result is a perfect
/// maze.
pub fn sidewinder(grid: &mut Grid, rng: &mut XorShiftRng)
    requires
        old(grid).wf(),
    ensures
        final(grid).wf(),
        final(grid).same_shape(old(grid)),
        all_closed(old(grid)) ==> is_perfect_maze(final(grid)),
{
    let ghost g0 = *grid;
    let ghost fresh = all_closed(&g0);
    let ghost w = grid.width as int;
    let ghost h = grid.height as int;
    let n = grid.size();
    let mut cur_run: Vec<usize> = Vec::new();
    let ghost mut par: Seq<int> = Seq::new(n as nat, |k: int| k);
    let ghost mut rk: Seq<nat> = Seq::new(n as nat, |k: int| 0nat);
    let ghost mut s: int = 0;
    proof {
        if fresh {
            assert forall|u: int, v: int| #[trigger] grid.linked(u, v) implies false by {
                assert(g0.cell(u) == closed_cell());
            }
        }
    }
    let mut i: usize = 0;
    while i < n
        invariant
            i <= n,
            grid.wf(),
            grid.same_shape(&g0),
            n == grid.n(),
            w == grid.width,
            h == grid.height,
            forall|k: int| 0 <= k < cur_run@.len() ==> #[trigger] cur_run@[k] < n && grid.has_north(cur_run@[k] as int),
            fresh == all_closed(&g0),
            fresh ==> side_state(grid, par, rk, s, i as int),
            fresh ==> (s > 0 ==> cur_run@ == Seq::new((i - s) as nat, |t: int| (s + t) as usize)),
            fresh ==> (s == 0 ==> cur_run@.len() == 0),
        decreases n - i,
    {
        let ghost gb = *grid;
        proof {
            lemma_steps(i as int, w, h);
        }
        if grid.has_neighbor_north(i) && grid.has_neighbor_east(i) {
            let ghost rb = cur_run@;
            cur_run.push(i);
            if random_ratio(rng, 1, 2) {
                if let Some(c) = choose_item(rng, &cur_run) {
                    proof {
                        if fresh {
                            let k = choose|k: int| 0 <= k < cur_run@.len() && cur_run@[k] == c;
                            assert(s > 0) by {
                                if s == 0 {
                                    assert(i < w);
                                }
                            }
                            assert(cur_run@[k] == (s + k) as usize) by {
                                if k < rb.len() {
                                    assert(rb[k] == (s + k) as usize);
                                }
                            }
                        }
                    }
                    grid.connect_cell_north(c);
                    proof {
                        if fresh {
                            let (p2, r2) = lemma_side_close(&gb, grid, par, rk, s, i as int, c as int);
                            par = p2;
                            rk = r2;
                            s = i + 1;
                        }
                    }
                }
                cur_run.clear();
            } else {
                grid.connect_cell_east(i);
                proof {
                    if fresh {
                        lemma_side_extend(&gb, grid, par, rk, s, i as int);
                        assert(s > 0) by {
                            if s == 0 {
                                assert(i < w);
                            }
                        }
                        assert(cur_run@ =~= Seq::new((i + 1 - s) as nat, |t: int| (s + t) as usize));
                    }
                }
            }
        } else if grid.has_neighbor_north(i) {
            let ghost rb = cur_run@;
            cur_run.push(i);
            if let Some(c) = choose_item(rng, &cur_run) {
                proof {
                    if fresh {
                        let k = choose|k: int| 0 <= k < cur_run@.len() && cur_run@[k] == c;
                        assert(s > 0) by {
                            if s == 0 {
                                assert(i < w);
                            }
                        }
                        assert(cur_run@[k] == (s + k) as usize) by {
                            if k < rb.len() {
                                assert(rb[k] == (s + k) as usize);
                            }
                        }
                    }
                }
                grid.connect_cell_north(c);
                proof {
                    if fresh {
                        let (p2, r2) = lemma_side_close(&gb, grid, par, rk, s, i as int, c as int);
                        par = p2;
                        rk = r2;
                        s = i + 1;
                    }
                }
            }
            cur_run.clear();
        } else if grid.has_neighbor_east(i) {
            grid.connect_cell_east(i);
            proof {
                if fresh {
                    lemma_side_extend(&gb, grid, par, rk, s, i as int);
                }
            }
        } else {
            proof {
                if fresh {
                    let (p2, r2) = lemma_side_close_top(grid, par, rk, s, i as int);
                    par = p2;
                    rk = r2;
                    s = i + 1;
                }
            }
        }
        i = i + 1;
    }
    proof {
        if fresh {
            lemma_side_done(grid, par, rk, s);
        }
    }
}

/// The sidewinder pass before cell `i`: cells before `s` carry a tree rooted at
/// the north-east corner (`par`, falling `rk`); cells `s..=i` are one open
/// corridor of `i`'s row; no other passage exists; and every finished row is
/// closed.
pub open spec fn side_state(g: &Grid, par: Seq<int>, rk: Seq<nat>, s: int, i: int) -> bool {
    let w = g.width as int;
    &&& par.len() == g.n()
    &&& rk.len() == g.n()
    &&& 0 <= s <= i <= g.n()
    &&& s == 0 ==> i < w
    &&& s > 0 ==> s >= w && par[w - 1] == w - 1
    &&& forall|v: int| 0 <= v < s && v != w - 1 ==> 0 <= #[trigger] par[v] < s && g.linked(v, par[v]) && rk[par[v]] < rk[v]
    &&& forall|u: int, v: int| #[trigger] g.linked(u, v) ==> (u < s && v < s && (par[u] == v || par[v] == u)) || (s <= u <= i && s
        <= v <= i && (v == u + 1 || u == v + 1))
    &&& forall|k: int| s <= k < i ==> #[trigger] g.linked(k, k + 1)
    &&& forall|k: int| s <= k <= i && k < g.n() ==> #[trigger] (k / w) == i / w
    &&& i > 0 && (i - 1) % w == w - 1 ==> s == i
}

proof fn lemma_side_extend(gb: &Grid, g: &Grid, par: Seq<int>, rk: Seq<nat>, s: int, i: int)
    requires
        gb.wf(),
        side_state(gb, par, rk, s, i),
        0 <= i < gb.n(),
        gb.has_east(i),
        g.same_shape(gb),
        g.inner@ == with_link(gb.inner@, gb.width as int, i, Dir::East, true),
    ensures
        side_state(g, par, rk, s, i + 1),
{
    let w = gb.width as int;
    let h = gb.height as int;
    lemma_steps(i, w, h);
    assert(gb.adjacent(i, i + 1));
    assert(dir_between(i, i + 1, w) == Dir::East);
    lemma_link_added(gb, g, i, i + 1);
    assert forall|k: int| s <= k <= i + 1 && k < g.n() implies #[trigger] (k / w) == (i + 1) / w by {
        if k <= i {
            assert(k / w == i / w);
        }
    }
    assert forall|v: int| 0 <= v < s && v != w - 1 implies 0 <= #[trigger] par[v] < s && g.linked(v, par[v]) && rk[par[v]] < rk[v] by {
        assert(gb.linked(v, par[v]));
    }
    assert forall|k: int| s <= k < i + 1 implies #[trigger] g.linked(k, k + 1) by {
        if k < i {
            assert(gb.linked(k, k + 1));
        }
    }
    if s == 0 {
        lemma_row_col(i, w, 0, i);
    }
    assert(s == 0 ==> i + 1 < w);
    assert forall|u: int, v: int| #[trigger] g.linked(u, v) implies (u < s && v < s && (par[u] == v || par[v] == u)) || (s <= u <= i + 1 && s
        <= v <= i + 1 && (v == u + 1 || u == v + 1)) by {
        if gb.linked(u, v) {
        }
    }
    assert(i + 1 > 0 && i % w == w - 1 ==> s == i + 1);
}

proof fn lemma_side_close(gb: &Grid, g: &Grid, par: Seq<int>, rk: Seq<nat>, s: int, i: int, c: int) -> (r: (Seq<int>, Seq<nat>))
    requires
        gb.wf(),
        side_state(gb, par, rk, s, i),
        s > 0,
        0 <= i < gb.n(),
        s <= c <= i,
        gb.has_north(c),
        g.same_shape(gb),
        g.inner@ == with_link(gb.inner@, gb.width as int, c, Dir::North, true),
    ensures
        side_state(g, r.0, r.1, i + 1, i + 1),
{
    let w = gb.width as int;
    let h = gb.height as int;
    lemma_steps(c, w, h);
    lemma_steps(i, w, h);
    assert(c / w == i / w);
    assert(s / w == i / w);
    lemma_div_mod(s, w);
    lemma_div_mod(c, w);
    assert(c - w < s) by (nonlinear_arith)
        requires
            s == w * (s / w) + s % w,
            c == w * (c / w) + c % w,
            c / w == s / w,
            0 <= s % w < w,
            0 <= c % w < w,
    ;
    assert(gb.adjacent(c, c - w));
    assert(dir_between(c, c - w, w) == Dir::North);
    lemma_link_added(gb, g, c, c - w);
    let base = rk[c - w] + 1;
    let p2 = Seq::new(par.len(), |k: int| if s <= k <= i { if k < c { k + 1 } else if k > c { k - 1 } else { c - w } } else { par[k] });
    let r2 = Seq::new(rk.len(), |k: int| if s <= k <= i { (base + if k >= c { k - c } else { c - k }) as nat } else { rk[k] });
    assert forall|v: int| 0 <= v < i + 1 && v != w - 1 implies 0 <= #[trigger] p2[v] < i + 1 && g.linked(v, p2[v]) && r2[p2[v]] < r2[v] by {
        if v < s {
            assert(gb.linked(v, par[v]));
        } else if v < c {
            assert(gb.linked(v, v + 1));
        } else if v > c {
            assert(gb.linked(v - 1, v));
            gb.lemma_linked_symmetric(v - 1, v);
        }
    }
    assert forall|u: int, v: int| #[trigger] g.linked(u, v) implies (u < i + 1 && v < i + 1 && (p2[u] == v || p2[v] == u)) || (i + 1 <= u <= i + 1
        && i + 1 <= v <= i + 1 && (v == u + 1 || u == v + 1)) by {
        if gb.linked(u, v) {
            if u < s && v < s {
            } else {
            }
        }
    }
    assert forall|k: int| i + 1 <= k <= i + 1 && k < g.n() implies #[trigger] (k / w) == (i + 1) / w by {}
    (p2, r2)
}

proof fn lemma_side_close_top(g: &Grid, par: Seq<int>, rk: Seq<nat>, s: int, i: int) -> (r: (Seq<int>, Seq<nat>))
    requires
        g.wf(),
        side_state(g, par, rk, s, i),
        0 <= i < g.n(),
        !g.has_north(i),
        !g.has_east(i),
    ensures
        side_state(g, r.0, r.1, i + 1, i + 1),
{
    let w = g.width as int;
    let h = g.height as int;
    lemma_steps(i, w, h);
    lemma_div_mod(i, w);
    assert(i == w - 1) by {
        assert(i / w == 0);
    }
    assert(s == 0) by {
        if s > 0 {
            assert(s >= w);
        }
    }
    let p2 = Seq::new(par.len(), |k: int| if k < w - 1 { k + 1 } else if k == w - 1 { k } else { par[k] });
    let r2 = Seq::new(rk.len(), |k: int| if k < w { (w - 1 - k) as nat } else { rk[k] });
    assert forall|v: int| 0 <= v < i + 1 && v != w - 1 implies 0 <= #[trigger] p2[v] < i + 1 && g.linked(v, p2[v]) && r2[p2[v]] < r2[v] by {
        assert(g.linked(v, v + 1));
    }
    (p2, r2)
}

proof fn lemma_side_done(g: &Grid, par: Seq<int>, rk: Seq<nat>, s: int)
    requires
        g.wf(),
        side_state(g, par, rk, s, g.n()),
    ensures
        is_perfect_maze(g),
{
    let w = g.width as int;
    let h = g.height as int;
    g.lemma_nonempty();
    lemma_div_mod(g.n() - 1, w);
    lemma_steps(g.n() - 1, w, h);
    assert((g.n() - 1) % w == w - 1) by {
        assert((h - 1) * w + (w - 1) == w * h - 1) by (nonlinear_arith);
        lemma_row_col(g.n() - 1, w, h - 1, w - 1);
    }
    assert(s == g.n());
    assert(w - 1 < g.n()) by {
        assert(w <= w * h) by (nonlinear_arith)
            requires
                h >= 1,
                w >= 1,
        ;
    }
    assert forall|u: int, v: int| #[trigger] g.linked(u, v) implies par[u] == v || par[v] == u by {}
    assert(tree_witness(g, par, rk, w - 1));
}

/// The neighbours of `i` whose visited flag equals `want`, in neighbour order.
fn neighbors_with(grid: &Grid, i: usize, visited: &Vec<bool>, want: bool, buf: &mut Vec<usize>)
    requires
        grid.wf(),
        i < grid.n(),
        visited@.len() == grid.n(),
    ensures
        final(buf)@ == grid.neighbor_seq(i as int).filter(|j: usize| visited@[j as int] == want),
        forall|k: int| 0 <= k < final(buf)@.len() ==> #[trigger] grid.adjacent(i as int, final(buf)@[k] as int) && visited@[final(buf)@[k] as int] == want,
{
    let mut all: Vec<usize> = Vec::with_capacity(4);
    grid.neighbors(i, &mut all);
    proof {
        grid.lemma_neighbor_seq(i as int);
        assert(all@ =~= grid.neighbor_seq(i as int));
    }
    buf.clear();
    let mut k: usize = 0;
    while k < all.len()
        invariant
            k <= all@.len(),
            all@ == grid.neighbor_seq(i as int),
            grid.wf(),
            i < grid.n(),
            visited@.len() == grid.n(),
            forall|m: int| 0 <= m < all@.len() ==> #[trigger] grid.adjacent(i as int, all@[m] as int),
            buf@ == all@.subrange(0, k as int).filter(|j: usize| visited@[j as int] == want),
            forall|m: int| 0 <= m < buf@.len() ==> #[trigger] grid.adjacent(i as int, buf@[m] as int) && visited@[buf@[m] as int] == want,
        decreases all@.len() - k,
    {
        let j = all[k];
        proof {
            let s = all@.subrange(0, k as int + 1);
            assert(s.drop_last() =~= all@.subrange(0, k as int));
            reveal(Seq::filter);
            assert(grid.adjacent(i as int, all@[k as int] as int));
        }
        if visited[j] == want {
            buf.push(j);
        }
        k = k + 1;
    }
    proof {
        assert(all@.subrange(0, all@.len() as int) =~= all@);
    }
}

/// Depth-first carving with an explicit stack from cell 0: open a passage to
/// a uniformly chosen unvisited neighbour and push it, or pop when there is
/// none. From a closed grid the result is a perfect maze.
pub fn recursive_backtracker(grid: &mut Grid, rng: &mut XorShiftRng)
    requires
        old(grid).wf(),
    ensures
        final(grid).wf(),
        final(grid).same_shape(old(grid)),
        all_closed(old(grid)) ==> is_perfect_maze(final(grid)),
{
    let ghost g0 = *grid;
    let ghost fresh = all_closed(&g0);
    let n = grid.size();
    let mut neighbors: Vec<usize> = Vec::with_capacity(4);
    let mut stack: Vec<usize> = vec![0];
    let mut visited = unvisited_flags(n);
    let mut remaining: usize = n;
    proof {
        grid.lemma_nonempty();
    }
    visit(&mut visited, &mut remaining, 0);
    let ghost mut parent: Seq<int> = Seq::new(n as nat, |k: int| k);
    let ghost mut rank: Seq<nat> = Seq::new(n as nat, |k: int| 0nat);
    proof {
        if fresh {
            assert forall|u: int, v: int| #[trigger] grid.linked(u, v) implies visited@[u] && visited@[v] && (parent[u] == v || parent[v] == u) by {
                assert(g0.cell(u) == closed_cell());
            }
        }
        assert(stack@[0] == 0);
    }
    while stack.len() > 0
        invariant
            grid.wf(),
            grid.same_shape(&g0),
            n == grid.n(),
            visited@.len() == n,
            remaining == count_where(visited@, |b: bool| unvisited(b)),
            forall|k: int| 0 <= k < stack@.len() ==> #[trigger] stack@[k] < n && visited@[stack@[k] as int],
            fresh == all_closed(&g0),
            fresh ==> grown_tree(grid, visited@, parent, rank, 0),
            forall|v: int| 0 <= v < n && #[trigger] visited@[v] ==> stack@.contains(v as usize) || (forall|j: int|
                #[trigger] grid.adjacent(v, j) ==> visited@[j]),
        decreases 2 * remaining + stack@.len(),
    {
        let top = stack[stack.len() - 1];
        neighbors_with(grid, top, &visited, false, &mut neighbors);
        if neighbors.len() == 0 {
            let ghost s0 = stack@;
            stack.pop();
            proof {
                assert(s0[s0.len() - 1] == top);
                grid.lemma_neighbor_seq(top as int);
                assert forall|j: int| #[trigger] grid.adjacent(top as int, j) implies visited@[j] by {
                    let ns = grid.neighbor_seq(top as int);
                    assert(ns.contains(j as usize));
                    let k = choose|k: int| 0 <= k < ns.len() && ns[k] == j as usize;
                    if !visited@[j] {
                        ns.lemma_filter_contains(|x: usize| visited@[x as int] == false, k);
                    }
                }
                assert forall|v: int| 0 <= v < n && #[trigger] visited@[v] implies stack@.contains(v as usize) || (forall|j: int|
                    #[trigger] grid.adjacent(v, j) ==> visited@[j]) by {
                    if v != top && s0.contains(v as usize) {
                        let k = choose|k: int| 0 <= k < s0.len() && s0[k] == v as usize;
                        assert(k < s0.len() - 1);
                        assert(stack@[k] == v as usize);
                    }
                }
            }
        } else {
            match choose_item(rng, &neighbors) {
                Some(target) => {
                    proof {
                        let k = choose|k: int| 0 <= k < neighbors@.len() && neighbors@[k] == target;
                        assert(grid.adjacent(top as int, neighbors@[k] as int));
                        assert(!visited@[neighbors@[k] as int]);
                        assert(stack@[stack@.len() - 1] == top);
                    }
                    let ghost gb = *grid;
                    let ghost vb = visited@;
                    let ghost sb = stack@;
                    grid.connect_neighbors(top, target);
                    stack.push(target);
                    visit(&mut visited, &mut remaining, target);
                    proof {
                        if fresh {
                            lemma_grow(&gb, grid, vb, parent, rank, 0, top as int, target as int);
                        }
                        parent = parent.update(target as int, top as int);
                        rank = rank.update(target as int, rank[top as int] + 1);
                        assert(stack@[stack@.len() - 1] == target);
                        assert forall|k: int| 0 <= k < stack@.len() implies #[trigger] stack@[k] < n && visited@[stack@[k] as int] by {
                            if k < sb.len() {
                                assert(stack@[k] == sb[k]);
                            }
                        }
                        assert forall|v: int| 0 <= v < n && #[trigger] visited@[v] implies stack@.contains(v as usize) || (forall|j: int|
                            #[trigger] grid.adjacent(v, j) ==> visited@[j]) by {
                            if v == target {
                                assert(stack@[stack@.len() - 1] == target);
                            } else {
                                assert(vb[v]);
                                if sb.contains(v as usize) {
                                    let k = choose|k: int| 0 <= k < sb.len() && sb[k] == v as usize;
                                    assert(stack@[k] == v as usize);
                                } else {
                                    assert forall|j: int| #[trigger] grid.adjacent(v, j) implies visited@[j] by {
                                        assert(gb.adjacent(v, j));
                                    }
                                }
                            }
                        }
                    }
                },
                None => {},
            }
        }
    }
    proof {
        if fresh {
            assert forall|c: int, j: int| 0 <= c < grid.n() && visited@[c] && #[trigger] grid.adjacent(c, j) implies visited@[j] by {
                assert(!stack@.contains(c as usize));
            }
            lemma_region_covers_grid(grid, visited@);
            lemma_grown_tree_perfect(grid, visited@, parent, rank, 0);
        }
    }
}

/// Finds the first unvisited cell with a visited neighbour, opens a passage
/// from it to one of those neighbours chosen uniformly, and marks it visited.
/// `None` when there is no such cell.
fn hunt(
    grid: &mut Grid,
    rng: &mut XorShiftRng,
    visited: &mut Vec<bool>,
    remaining: &mut usize,
    neighbors: &mut Vec<usize>,
) -> (r: Option<(usize, usize)>)
    requires
        old(grid).wf(),
        old(visited)@.len() == old(grid).n(),
        *old(remaining) == count_where(old(visited)@, |b: bool| unvisited(b)),
    ensures
        final(grid).wf(),
        final(grid).same_shape(old(grid)),
        final(visited)@.len() == old(visited)@.len(),
        *final(remaining) == count_where(final(visited)@, |b: bool| unvisited(b)),
        r matches Some((i, t)) ==> *final(remaining) + 1 == *old(remaining) && i < old(grid).n(),
        r is None ==> *final(remaining) == *old(remaining),
        r is None ==> *final(grid) == *old(grid) && final(visited)@ == old(visited)@,
        r is None ==> forall|c: int, j: int|
            0 <= c < old(grid).n() && old(visited)@[c] && #[trigger] old(grid).adjacent(c, j) ==> old(visited)@[j],
        r matches Some((i, t)) ==> !old(visited)@[i as int] && final(visited)@ == old(visited)@.update(i as int, true)
            && old(grid).adjacent(i as int, t as int) && old(visited)@[t as int] && final(grid).inner@ == with_link(
            old(grid).inner@,
            old(grid).width as int,
            i as int,
            dir_between(i as int, t as int, old(grid).width as int),
            true,
        ),
{
    let n = grid.size();
    let mut i: usize = 0;
    while i < n
        invariant
            grid.wf(),
            grid.same_shape(old(grid)),
            n == grid.n(),
            visited@ == old(visited)@,
            visited@.len() == n,
            *remaining == *old(remaining),
            *remaining == count_where(visited@, |b: bool| unvisited(b)),
            *grid == *old(grid),
            i <= n,
            forall|c: int, j: int| 0 <= c < n && 0 <= j < i && visited@[c] && #[trigger] grid.adjacent(c, j) ==> visited@[j],
        decreases n - i,
    {
        if !visited[i] {
            neighbors_with(grid, i, visited, true, neighbors);
            if neighbors.len() > 0 {
                if let Some(target) = choose_item(rng, neighbors) {
                    proof {
                        let k = choose|k: int| 0 <= k < neighbors@.len() && neighbors@[k] == target;
                        assert(grid.adjacent(i as int, neighbors@[k] as int));
                        assert(visited@[neighbors@[k] as int]);
                    }
                    grid.connect_neighbors(i, target);
                    visit(visited, remaining, i);
                    proof {
                        let t = target as int;
                        assert(old(grid).adjacent(i as int, t));
                        assert(old(visited)@[t]);
                        assert(grid.inner@ == with_link(old(grid).inner@, old(grid).width as int, i as int, dir_between(i as int, t, old(grid).width as int), true));
                    }
                    return Some((i, target));
                }
            } else {
                proof {
                    grid.lemma_neighbor_seq(i as int);
                    assert forall|c: int| 0 <= c < n && visited@[c] && #[trigger] grid.adjacent(c, i as int) implies false by {
                        grid.lemma_linked_symmetric(c, i as int);
                        assert(grid.adjacent(i as int, c)) by {
                            lemma_steps(c, grid.width as int, grid.height as int);
                            lemma_steps(i as int, grid.width as int, grid.height as int);
                        }
                        let ns = grid.neighbor_seq(i as int);
                        assert(ns.contains(c as usize));
                        let k = choose|k: int| 0 <= k < ns.len() && ns[k] == c as usize;
                        ns.lemma_filter_contains(|x: usize| visited@[x as int] == true, k);
                    }
                }
            }
        }
        i = i + 1;
    }
    None
}

/// A random walk until stuck, then a hunt for the first unvisited cell next to
/// the visited region, joined to it; ends when the hunt finds nothing. From a
/// closed grid the result is a perfect maze.
pub fn hunt_and_kill(grid: &mut Grid, rng: &mut XorShiftRng)
    requires
        old(grid).wf(),
    ensures
        final(grid).wf(),
        final(grid).same_shape(old(grid)),
        all_closed(old(grid)) ==> is_perfect_maze(final(grid)),
{
    let ghost g0 = *grid;
    let ghost fresh = all_closed(&g0);
    let n = grid.size();
    let mut neighbors: Vec<usize> = Vec::with_capacity(4);
    let mut visited = unvisited_flags(n);
    let mut remaining: usize = n;
    proof {
        grid.lemma_nonempty();
    }
    visit(&mut visited, &mut remaining, 0);
    let ghost mut parent: Seq<int> = Seq::new(n as nat, |k: int| k);
    let ghost mut rank: Seq<nat> = Seq::new(n as nat, |k: int| 0nat);
    proof {
        if fresh {
            assert forall|u: int, v: int| #[trigger] grid.linked(u, v) implies visited@[u] && visited@[v] && (parent[u] == v || parent[v] == u) by {
                assert(g0.cell(u) == closed_cell());
            }
        }
    }
    let mut cur_index: usize = 0;
    let mut done = false;
    while !done
        invariant
            grid.wf(),
            grid.same_shape(&g0),
            n == grid.n(),
            visited@.len() == n,
            remaining == count_where(visited@, |b: bool| unvisited(b)),
            cur_index < n,
            visited@[cur_index as int],
            fresh == all_closed(&g0),
            fresh ==> grown_tree(grid, visited@, parent, rank, 0),
            done ==> forall|c: int, j: int| 0 <= c < n && visited@[c] && #[trigger] grid.adjacent(c, j) ==> visited@[j],
        decreases remaining + if done { 0int } else { 1int },
    {
        neighbors_with(grid, cur_index, &visited, false, &mut neighbors);
        if neighbors.len() == 0 {
            let ghost gb = *grid;
            let ghost vb = visited@;
            match hunt(grid, rng, &mut visited, &mut remaining, &mut neighbors) {
                Some((i, target)) => {
                    proof {
                        let t = target as int;
                        if fresh {
                            gb.lemma_linked_symmetric(i as int, t);
                            assert(gb.adjacent(t, i as int)) by {
                                lemma_steps(t, gb.width as int, gb.height as int);
                                lemma_steps(i as int, gb.width as int, gb.height as int);
                            }
                            lemma_grow(&gb, grid, vb, parent, rank, 0, t, i as int);
                        }
                        parent = parent.update(i as int, t);
                        rank = rank.update(i as int, rank[t] + 1);
                    }
                    cur_index = i;
                },
                None => {
                    done = true;
                },
            }
        } else {
            match choose_item(rng, &neighbors) {
                Some(target) => {
                    proof {
                        let k = choose|k: int| 0 <= k < neighbors@.len() && neighbors@[k] == target;
                        assert(grid.adjacent(cur_index as int, neighbors@[k] as int));
                        assert(!visited@[neighbors@[k] as int]);
                    }
                    let ghost gb = *grid;
                    let ghost vb = visited@;
                    grid.connect_neighbors(cur_index, target);
                    proof {
                        if fresh {
                            lemma_grow(&gb, grid, vb, parent, rank, 0, cur_index as int, target as int);
                        }
                        parent = parent.update(target as int, cur_index as int);
                        rank = rank.update(target as int, rank[cur_index as int] + 1);
                    }
                    cur_index = target;
                    visit(&mut visited, &mut remaining, target);
                },
                None => {},
            }
        }
    }
    proof {
        if fresh {
            lemma_region_covers_grid(grid, visited@);
            lemma_grown_tree_perfect(grid, visited@, parent, rank, 0);
        }
    }
}

/// Every potential passage, shuffled, opened when its two cells are not yet
/// joined.
pub fn kruskal(grid: &mut Grid, rng: &mut XorShiftRng)
    requires
        old(grid).wf(),
    ensures
        final(grid).wf(),
        final(grid).same_shape(old(grid)),
        all_closed(old(grid)) ==> is_perfect_maze(final(grid)),
{
    let ghost g0 = *grid;
    let ghost fresh = all_closed(&g0);
    let ghost w = grid.width as int;
    let ghost h = grid.height as int;
    let n = grid.size();
    let mut disjoint_set = DisjointSet::new(n);
    let mut edges: Vec<(usize, usize)> = Vec::new();
    let mut i: usize = 0;
    while i < n
        invariant
            i <= n,
            grid.wf(),
            *grid == g0,
            n == grid.n(),
            w == grid.width,
            forall|k: int| 0 <= k < edges@.len() ==> #[trigger] grid.adjacent(edges@[k].0 as int, edges@[k].1 as int),
            forall|u: int| 0 <= u < i && #[trigger] grid.has_south(u) ==> edges@.contains((u as usize, (u + w) as usize)),
            forall|u: int| 0 <= u < i && #[trigger] grid.has_east(u) ==> edges@.contains((u as usize, (u + 1) as usize)),
        decreases n - i,
    {
        proof {
            grid.lemma_cell(i as int);
        }
        let ghost e0 = edges@;
        if grid.has_neighbor_south(i) {
            edges.push((i, i + grid.width));
        }
        let ghost e1 = edges@;
        if grid.has_neighbor_east(i) {
            edges.push((i, i + 1));
        }
        proof {
            let e2 = edges@;
            assert forall|x: (usize, usize)| e0.contains(x) implies e2.contains(x) by {
                let m = choose|m: int| 0 <= m < e0.len() && e0[m] == x;
                assert(e2[m] == x);
            }
            assert forall|x: (usize, usize)| e1.contains(x) implies e2.contains(x) by {
                let m = choose|m: int| 0 <= m < e1.len() && e1[m] == x;
                assert(e2[m] == x);
            }
            if grid.has_south(i as int) {
                assert(e1[e0.len() as int] == (i, (i + w) as usize));
            }
            if grid.has_east(i as int) {
                assert(e2[e1.len() as int] == (i, (i + 1) as usize));
            }
        }
        i = i + 1;
    }
    let ghost before = edges@;
    shuffle(rng, &mut edges);
    proof {
        broadcast use vstd::seq_lib::group_to_multiset_ensures;
        assert forall|k: int| 0 <= k < edges@.len() implies #[trigger] grid.adjacent(edges@[k].0 as int, edges@[k].1 as int) by {
            assert(edges@.to_multiset().count(edges@[k]) > 0);
            assert(before.contains(edges@[k]));
            let m = choose|m: int| 0 <= m < before.len() && before[m] == edges@[k];
            assert(grid.adjacent(before[m].0 as int, before[m].1 as int));
        }
        assert forall|x: (usize, usize)| before.contains(x) implies edges@.contains(x) by {
            assert(before.to_multiset().count(x) > 0);
        }
    }
    let ghost mut par: Seq<int> = Seq::new(n as nat, |k: int| k);
    let ghost mut rk: Seq<nat> = Seq::new(n as nat, |k: int| 0nat);
    proof {
        if fresh {
            assert forall|u: int, v: int| #[trigger] grid.linked(u, v) implies par[u] == v || par[v] == u by {
                assert(g0.cell(u) == closed_cell());
            }
        }
    }
    let mut k: usize = 0;
    while k < edges.len()
        invariant
            grid.wf(),
            grid.same_shape(&g0),
            n == grid.n(),
            disjoint_set.wf(),
            disjoint_set@.len() == n,
            forall|m: int| 0 <= m < edges@.len() ==> #[trigger] g0.adjacent(edges@[m].0 as int, edges@[m].1 as int),
            k <= edges@.len(),
            forall|m: int| 0 <= m < k ==> #[trigger] disjoint_set.same(edges@[m].0 as int, edges@[m].1 as int),
            fresh == all_closed(&g0),
            fresh ==> uf_forest(grid, &disjoint_set, par, rk),
        decreases edges@.len() - k,
    {
        let (a, b) = edges[k];
        proof {
            assert(g0.adjacent(edges@[k as int].0 as int, edges@[k as int].1 as int));
            assert(grid.adjacent(a as int, b as int));
        }
        let ghost e = edges@;
        let ghost d0 = disjoint_set;
        let ra = disjoint_set.find(a);
        let rb = disjoint_set.find(b);
        proof {
            if fresh {
                lemma_forest_view(grid, &d0, &disjoint_set, par, rk);
            }
            assert forall|m: int| 0 <= m < k implies #[trigger] disjoint_set.same(e[m].0 as int, e[m].1 as int) by {
                assert(d0.same(e[m].0 as int, e[m].1 as int));
            }
        }
        if ra != rb {
            let ghost ufb = disjoint_set;
            let ghost gb = *grid;
            disjoint_set.union(a, b);
            grid.connect_neighbors(a, b);
            proof {
                if fresh {
                    let (p2, r2) = lemma_forest_join(&gb, grid, &ufb, &disjoint_set, par, rk, a as int, b as int);
                    par = p2;
                    rk = r2;
                }
                assert forall|m: int| 0 <= m < k + 1 implies #[trigger] disjoint_set.same(e[m].0 as int, e[m].1 as int) by {
                    assert(0 <= e[m].0 < n && 0 <= e[m].1 < n) by {
                        assert(g0.adjacent(e[m].0 as int, e[m].1 as int));
                    }
                    if m < k {
                        assert(ufb.same(e[m].0 as int, e[m].1 as int));
                    }
                }
            }
        } else {
            proof {
                assert(disjoint_set.same(e[k as int].0 as int, e[k as int].1 as int));
            }
        }
        k = k + 1;
    }
    proof {
        if fresh {
            let region = Seq::new(n as nat, |v: int| disjoint_set.same(0, v));
            grid.lemma_nonempty();
            assert forall|x: int, y: int| 0 <= x < n && 0 <= y < n && #[trigger] g0.adjacent(x, y) implies disjoint_set.same(x, y) by {
                lemma_steps(x, w, h);
                lemma_steps(y, w, h);
                if y == x + w && g0.has_south(x) {
                    assert(before.contains((x as usize, y as usize)));
                } else if y == x - w && g0.has_north(x) {
                    assert(g0.has_south(y));
                    assert(before.contains((y as usize, x as usize)));
                } else if y == x + 1 && g0.has_east(x) {
                    assert(before.contains((x as usize, y as usize)));
                } else {
                    assert(g0.has_east(y));
                    assert(before.contains((y as usize, x as usize)));
                }
                let pair = if before.contains((x as usize, y as usize)) { (x as usize, y as usize) } else { (y as usize, x as usize) };
                assert(edges@.contains(pair));
                let m = choose|m: int| 0 <= m < edges@.len() && edges@[m] == pair;
                assert(disjoint_set.same(edges@[m].0 as int, edges@[m].1 as int));
            }
            assert forall|c: int, j: int| 0 <= c < grid.n() && region[c] && #[trigger] grid.adjacent(c, j) implies region[j] by {
                assert(g0.adjacent(c, j));
            }
            lemma_region_covers_grid(grid, region);
            assert forall|v: int| 0 <= v < grid.n() implies #[trigger] disjoint_set.same(0, v) by {
                assert(region[v]);
            }
            lemma_forest_single(grid, &disjoint_set, par, rk);
        }
    }
}

/// A random walk from a uniformly chosen cell, opening a passage whenever it
/// steps onto a cell it has not visited; ends when every cell is visited. The
/// walk is cut off after `u64::MAX` steps, which no grid that fits in memory
/// needs. Returns whether every cell was reached. From a closed grid the
/// passages form a tree over the visited cells, a perfect maze when every cell
/// was reached.
pub fn aldous_broder(grid: &mut Grid, rng: &mut XorShiftRng) -> (covered: bool)
    requires
        old(grid).wf(),
    ensures
        final(grid).wf(),
        final(grid).same_shape(old(grid)),
        all_closed(old(grid)) ==> is_partial_tree(final(grid)),
        all_closed(old(grid)) && covered ==> is_perfect_maze(final(grid)),
{
    let ghost g0 = *grid;
    let ghost fresh = all_closed(&g0);
    let n = grid.size();
    let mut neighbors: Vec<usize> = Vec::with_capacity(4);
    let mut visited = unvisited_flags(n);
    let mut remaining: usize = n;
    proof {
        grid.lemma_nonempty();
    }
    let mut cur_index: usize = match choose_in_range(rng, 0, n) {
        Some(c) => c,
        None => 0,
    };
    visit(&mut visited, &mut remaining, cur_index);
    let ghost root = cur_index as int;
    let ghost mut parent: Seq<int> = Seq::new(n as nat, |k: int| k);
    let ghost mut rank: Seq<nat> = Seq::new(n as nat, |k: int| 0nat);
    proof {
        if fresh {
            assert forall|u: int, v: int| #[trigger] grid.linked(u, v) implies visited@[u] && visited@[v] && (parent[u] == v || parent[v] == u) by {
                assert(g0.cell(u) == closed_cell());
            }
        }
    }
    let mut fuel: u64 = u64::MAX;
    while remaining > 0 && fuel > 0
        invariant
            grid.wf(),
            grid.same_shape(&g0),
            n == grid.n(),
            visited@.len() == n,
            remaining == count_where(visited@, |b: bool| unvisited(b)),
            cur_index < n,
            visited@[cur_index as int],
            fresh == all_closed(&g0),
            fresh ==> grown_tree(grid, visited@, parent, rank, root),
        decreases fuel,
    {
        fuel = fuel - 1;
        neighbors.clear();
        grid.neighbors(cur_index, &mut neighbors);
        proof {
            grid.lemma_neighbor_seq(cur_index as int);
            assert(neighbors@ =~= grid.neighbor_seq(cur_index as int));
        }
        match choose_item(rng, &neighbors) {
            Some(target) => {
                proof {
                    let k = choose|k: int| 0 <= k < neighbors@.len() && neighbors@[k] == target;
                    assert(grid.adjacent(cur_index as int, neighbors@[k] as int));
                }
                let ghost gb = *grid;
                let ghost vb = visited@;
                if !visited[target] {
                    grid.connect_neighbors(cur_index, target);
                    proof {
                        if fresh {
                            lemma_grow(&gb, grid, vb, parent, rank, root, cur_index as int, target as int);
                        }
                        parent = parent.update(target as int, cur_index as int);
                        rank = rank.update(target as int, rank[cur_index as int] + 1);
                    }
                } else {
                    proof {
                        assert(vb.update(target as int, true) =~= vb);
                    }
                }
                cur_index = target;
                visit(&mut visited, &mut remaining, cur_index);
            },
            None => {
                fuel = 0;
            },
        }
    }
    proof {
        if fresh && remaining == 0 {
            lemma_count_zero(visited@, |b: bool| unvisited(b));
            assert forall|v: int| 0 <= v < grid.n() implies #[trigger] visited@[v] by {
                assert(!unvisited(visited@[v]));
            }
            lemma_grown_tree_perfect(grid, visited@, parent, rank, root);
        }
    }
    remaining == 0
}

/// Loop-erased random walks: from a uniformly chosen cell, walk until the walk
/// reaches a visited cell, cutting out any loop the walk closes; then join the
/// whole walk to the maze. The walk is cut off after `u64::MAX` steps, which no
/// grid that fits in memory needs. Returns whether every cell was visited.
/// From a closed grid the passages form a tree over the visited cells, a
/// perfect maze when every cell was visited.
pub fn wilson(grid: &mut Grid, rng: &mut XorShiftRng) -> (covered: bool)
    requires
        old(grid).wf(),
    ensures
        final(grid).wf(),
        final(grid).same_shape(old(grid)),
        all_closed(old(grid)) ==> is_partial_tree(final(grid)),
        all_closed(old(grid)) && covered ==> is_perfect_maze(final(grid)),
{
    let ghost g0 = *grid;
    let ghost fresh = all_closed(&g0);
    let n = grid.size();
    let mut neighbors: Vec<usize> = Vec::with_capacity(4);
    let mut visited = unvisited_flags(n);
    let mut remaining: usize = n;
    proof {
        grid.lemma_nonempty();
    }
    let first = match choose_in_range(rng, 0, n) {
        Some(c) => c,
        None => 0,
    };
    let mut walker_path: Vec<usize> = vec![first];
    visit(&mut visited, &mut remaining, 0);
    let ghost mut parent: Seq<int> = Seq::new(n as nat, |k: int| k);
    let ghost mut rank: Seq<nat> = Seq::new(n as nat, |k: int| 0nat);
    proof {
        if fresh {
            assert forall|u: int, v: int| #[trigger] grid.linked(u, v) implies visited@[u] && visited@[v] && (parent[u] == v || parent[v] == u) by {
                assert(g0.cell(u) == closed_cell());
            }
        }
    }
    let mut fuel: u64 = u64::MAX;
    while remaining > 0 && fuel > 0
        invariant
            grid.wf(),
            grid.same_shape(&g0),
            n == grid.n(),
            visited@.len() == n,
            remaining == count_where(visited@, |b: bool| unvisited(b)),
            walker_path@.len() >= 1,
            forall|k: int| 0 <= k < walker_path@.len() ==> #[trigger] walker_path@[k] < n,
            forall|k: int|
                0 <= k < walker_path@.len() - 1 ==> #[trigger] g0.adjacent(walker_path@[k] as int, walker_path@[k + 1] as int),
            fresh == all_closed(&g0),
            fresh ==> grown_tree(grid, visited@, parent, rank, 0),
            parent.len() == n,
            rank.len() == n,
            visited@[0],
            walker_path@.no_duplicates(),
            forall|t: int| 0 <= t < walker_path@.len() - 1 ==> !visited@[#[trigger] walker_path@[t] as int],
        decreases fuel,
    {
        fuel = fuel - 1;
        let last = walker_path[walker_path.len() - 1];
        if visited[last] {
            let ghost p = walker_path@;
            let ghost len = p.len() as int;
            let ghost v0 = visited@;
            let ghost par1 = chain_parent(parent, p);
            let ghost rk1 = chain_rank(rank, p);
            proof {
                lemma_chain(parent, rank, p, n as int);
                assert forall|t: int| 0 <= t < len - 1 implies #[trigger] p[t] != 0 by {
                    assert(!visited@[p[t] as int]);
                }
                if fresh {
                    assert forall|v: int|
                        0 <= v < n && v0[v] && v != 0 && v != (if 0 < len - 1 { p[0] as int } else { -1 }) implies 0 <= #[trigger] par1[v] < n && v0[par1[v]]
                            && grid.linked(v, par1[v]) && rk1[par1[v]] < rk1[v] by {
                        assert(!chain_holds(p, v));
                        assert(!chain_holds(p, parent[v]));
                    }
                    assert(!chain_holds(p, 0)) by {
                        if chain_holds(p, 0) {
                            let t = choose|t: int| 0 <= t < p.len() - 1 && #[trigger] p[t] as int == 0;
                        }
                    }
                    assert forall|u: int, v: int| #[trigger] grid.linked(u, v) implies v0[u] && v0[v] && (par1[u] == v || par1[v] == u) by {
                        assert(!chain_holds(p, u));
                        assert(!chain_holds(p, v));
                    }
                }
            }
            let mut j: usize = 0;
            while j < walker_path.len() - 1
                invariant
                    grid.wf(),
                    grid.same_shape(&g0),
                    n == grid.n(),
                    visited@.len() == n,
                    remaining == count_where(visited@, |b: bool| unvisited(b)),
                    j < walker_path@.len(),
                    walker_path@.len() >= 1,
                    forall|k: int| 0 <= k < walker_path@.len() ==> #[trigger] walker_path@[k] < n,
                    forall|k: int|
                        0 <= k < walker_path@.len() - 1 ==> #[trigger] g0.adjacent(walker_path@[k] as int, walker_path@[k + 1] as int),
                    walker_path@ == p,
                    len == p.len(),
                    fresh == all_closed(&g0),
                    fresh ==> grown_tree_except(grid, visited@, par1, rk1, 0, if j < len - 1 { p[j as int] as int } else { -1 }),
                    forall|t: int| j < t < len - 1 ==> !visited@[#[trigger] p[t] as int],
                    visited@[p[len - 1] as int],
                    visited@[0],
                    p.no_duplicates(),
                    forall|t: int| 0 <= t < len - 1 ==> #[trigger] par1[p[t] as int] == p[t + 1] as int,
                    forall|t: int| 0 <= t < len - 1 ==> #[trigger] rk1[p[t + 1] as int] < rk1[p[t] as int],
                    forall|t: int| 0 <= t < len - 1 ==> #[trigger] p[t] != 0,
                decreases walker_path@.len() - j,
            {
                let a = walker_path[j];
                let b = walker_path[j + 1];
                proof {
                    assert(g0.adjacent(walker_path@[j as int] as int, walker_path@[j + 1] as int));
                    assert(grid.adjacent(a as int, b as int));
                }
                let ghost gb = *grid;
                let ghost vb = visited@;
                visit(&mut visited, &mut remaining, a);
                visit(&mut visited, &mut remaining, b);
                grid.connect_neighbors(a, b);
                proof {
                    if fresh {
                        assert(par1[p[j as int] as int] == p[j + 1] as int);
                        assert(rk1[p[j + 1] as int] < rk1[p[j as int] as int]);
                        assert(p[j as int] != 0);
                        lemma_lay_pointer(&gb, grid, vb, par1, rk1, 0, a as int, b as int);
                        if j + 1 < len - 1 {
                            assert(!vb[p[j + 1] as int]);
                        }
                        assert(visited@ == vb.update(a as int, true).update(b as int, true));
                    }
                    assert forall|t: int| j + 1 < t < len - 1 implies !visited@[#[trigger] p[t] as int] by {
                        assert(p[t] != p[j as int]);
                        assert(p[t] != p[j + 1]);
                    }
                }
                j = j + 1;
            }
            proof {
                if fresh {
                    assert(grown_tree(grid, visited@, par1, rk1, 0));
                }
                parent = par1;
                rank = rk1;
            }
            walker_path.clear();
            let next = match choose_in_range(rng, 0, n) {
                Some(c) => c,
                None => 0,
            };
            walker_path.push(next);
        } else {
            neighbors.clear();
            grid.neighbors(last, &mut neighbors);
            proof {
                grid.lemma_neighbor_seq(last as int);
                assert(neighbors@ =~= grid.neighbor_seq(last as int));
            }
            match choose_item(rng, &neighbors) {
                Some(target) => {
                    proof {
                        let k = choose|k: int| 0 <= k < neighbors@.len() && neighbors@[k] == target;
                        assert(grid.adjacent(last as int, neighbors@[k] as int));
                        assert(g0.adjacent(last as int, target as int));
                    }
                    // the last position of `target` on the walk, if any
                    let mut pos: usize = walker_path.len();
                    let mut found = false;
                    while pos > 0 && !found
                        invariant
                            pos <= walker_path@.len(),
                            found ==> pos < walker_path@.len() && walker_path@[pos as int] == target,
                            !found ==> forall|k: int| pos <= k < walker_path@.len() ==> walker_path@[k] != target,
                        decreases pos + if found { 0int } else { 1int },
                    {
                        if walker_path[pos - 1] == target {
                            found = true;
                        }
                        pos = pos - 1;
                    }
                    if found {
                        let ghost wp = walker_path@;
                        walker_path.truncate(pos + 1);
                        proof {
                            assert(walker_path@ =~= wp.subrange(0, pos + 1));
                            assert forall|t: int| 0 <= t < walker_path@.len() - 1 implies !visited@[#[trigger] walker_path@[t] as int] by {
                                assert(walker_path@[t] == wp[t]);
                            }
                        }
                    } else {
                        let ghost wp = walker_path@;
                        walker_path.push(target);
                        proof {
                            assert forall|a: int, b: int| 0 <= a < walker_path@.len() && 0 <= b < walker_path@.len() && a != b implies walker_path@[a] != walker_path@[b] by {
                                if a < wp.len() && b < wp.len() {
                                    assert(wp[a] != wp[b]);
                                }
                            }
                            assert forall|t: int| 0 <= t < walker_path@.len() - 1 implies !visited@[#[trigger] walker_path@[t] as int] by {
                                assert(walker_path@[t] == wp[t]);
                            }
                            assert forall|k: int| 0 <= k < walker_path@.len() - 1 implies #[trigger] g0.adjacent(
                                walker_path@[k] as int,
                                walker_path@[k + 1] as int,
                            ) by {
                                if k < wp.len() - 1 {
                                    assert(g0.adjacent(wp[k] as int, wp[k + 1] as int));
                                }
                            }
                        }
                    }
                },
                None => {
                    fuel = 0;
                },
            }
        }
    }
    proof {
        if fresh && remaining == 0 {
            lemma_count_zero(visited@, |b: bool| unvisited(b));
            assert forall|v: int| 0 <= v < grid.n() implies #[trigger] visited@[v] by {
                assert(!unvisited(visited@[v]));
            }
            lemma_grown_tree_perfect(grid, visited@, parent, rank, 0);
        }
    }
    remaining == 0
}

/// Some walk position before the last holds cell `k`.
pub open spec fn chain_holds(p: Seq<usize>, k: int) -> bool {
    exists|t: int| 0 <= t < p.len() - 1 && #[trigger] p[t] as int == k
}

/// The pointers after joining the walk `p`: each cell of it points to the
/// next one.
pub open spec fn chain_parent(parent: Seq<int>, p: Seq<usize>) -> Seq<int> {
    Seq::new(
        parent.len(),
        |k: int|
            if chain_holds(p, k) {
                p[(choose|t: int| 0 <= t < p.len() - 1 && #[trigger] p[t] as int == k) + 1] as int
            } else {
                parent[k]
            },
    )
}

/// The ranks after joining the walk `p`: one more per step back from its end.
pub open spec fn chain_rank(rank: Seq<nat>, p: Seq<usize>) -> Seq<nat> {
    Seq::new(
        rank.len(),
        |k: int|
            if chain_holds(p, k) {
                (rank[p[p.len() - 1] as int] + (p.len() - 1 - (choose|t: int| 0 <= t < p.len() - 1 && #[trigger] p[t] as int == k))) as nat
            } else {
                rank[k]
            },
    )
}

proof fn lemma_chain(parent: Seq<int>, rank: Seq<nat>, p: Seq<usize>, n: int)
    requires
        parent.len() == n,
        rank.len() == n,
        p.len() >= 1,
        p.no_duplicates(),
        forall|k: int| 0 <= k < p.len() ==> #[trigger] p[k] < n,
    ensures
        forall|t: int| 0 <= t < p.len() - 1 ==> #[trigger] chain_parent(parent, p)[p[t] as int] == p[t + 1] as int,
        forall|t: int| 0 <= t < p.len() - 1 ==> #[trigger] chain_rank(rank, p)[p[t + 1] as int] < chain_rank(rank, p)[p[t] as int],
        forall|k: int| 0 <= k < n && !chain_holds(p, k) ==> #[trigger] chain_parent(parent, p)[k] == parent[k] && chain_rank(rank, p)[k] == rank[k],
        chain_parent(parent, p).len() == n,
        chain_rank(rank, p).len() == n,
{
    let par1 = chain_parent(parent, p);
    let rk1 = chain_rank(rank, p);
    let l = p.len();
    assert forall|t: int| 0 <= t < l - 1 implies #[trigger] par1[p[t] as int] == p[t + 1] as int by {
        assert(chain_holds(p, p[t] as int));
        let c = choose|c: int| 0 <= c < l - 1 && #[trigger] p[c] as int == p[t] as int;
        assert(c == t);
    }
    assert forall|t: int| 0 <= t < l - 1 implies #[trigger] rk1[p[t + 1] as int] < rk1[p[t] as int] by {
        assert(chain_holds(p, p[t] as int));
        let c = choose|c: int| 0 <= c < l - 1 && #[trigger] p[c] as int == p[t] as int;
        assert(c == t);
        if t + 1 < l - 1 {
            assert(chain_holds(p, p[t + 1] as int));
            let d = choose|d: int| 0 <= d < l - 1 && #[trigger] p[d] as int == p[t + 1] as int;
            assert(d == t + 1);
        } else {
            assert(!chain_holds(p, p[t + 1] as int)) by {
                if chain_holds(p, p[t + 1] as int) {
                    let d = choose|d: int| 0 <= d < l - 1 && #[trigger] p[d] as int == p[t + 1] as int;
                    assert(d == t + 1);
                }
            }
        }
    }
}

/// Opens the passage south of cell `c` when `c` and the cell below are in
/// different sets, merging them; in Eller's pass the cell below is always
/// still on its own, so the passage is always opened.
fn join_south(
    disjoint_set: &mut DisjointSet,
    grid: &mut Grid,
    c: usize,
    Ghost(par): Ghost<Seq<int>>,
    Ghost(rk): Ghost<Seq<nat>>,
    Ghost(fresh): Ghost<bool>,
) -> (r: Ghost<(Seq<int>, Seq<nat>)>)
    requires
        old(grid).wf(),
        old(disjoint_set).wf(),
        old(disjoint_set)@.len() == old(grid).n(),
        c < old(grid).n(),
        old(grid).has_south(c as int),
        fresh ==> uf_forest(old(grid), old(disjoint_set), par, rk),
    ensures
        final(grid).wf(),
        final(grid).same_shape(old(grid)),
        final(disjoint_set).wf(),
        final(disjoint_set)@.len() == old(grid).n(),
        final(disjoint_set).same(c as int, c + old(grid).width),
        forall|x: int, y: int|
            0 <= x < old(grid).n() && 0 <= y < old(grid).n() && #[trigger] old(disjoint_set).same(x, y) ==> final(disjoint_set).same(x, y),
        fresh ==> uf_forest(final(grid), final(disjoint_set), r@.0, r@.1),
{
    let w = grid.width;
    proof {
        grid.lemma_cell(c as int);
    }
    let ghost d0 = *disjoint_set;
    let a = disjoint_set.find(c);
    let b = disjoint_set.find(c + w);
    proof {
        if fresh {
            lemma_forest_view(grid, &d0, disjoint_set, par, rk);
        }
    }
    if a != b {
        let ghost ufb = *disjoint_set;
        let ghost gb = *grid;
        disjoint_set.union(c, c + w);
        grid.connect_cell_south(c);
        let ghost mut res = (par, rk);
        proof {
            lemma_steps(c as int, w as int, gb.height as int);
            assert(gb.adjacent(c as int, c + w));
            assert(dir_between(c as int, c + w, w as int) == Dir::South);
            if fresh {
                res = lemma_forest_join(&gb, grid, &ufb, disjoint_set, par, rk, c as int, c + w);
            }
        }
        Ghost(res)
    } else {
        Ghost((par, rk))
    }
}

/// Row by row with a union-find: join adjacent cells of different sets on a
/// fair coin (always on the last row); then, for each set in the row, in
/// increasing order of representative, open south from one member chosen by
/// shuffling, and from each other member with chance 333 in 1000. From a
/// closed grid the result is a perfect maze.
pub fn eller(grid: &mut Grid, rng: &mut XorShiftRng)
    requires
        old(grid).wf(),
    ensures
        final(grid).wf(),
        final(grid).same_shape(old(grid)),
        all_closed(old(grid)) ==> is_perfect_maze(final(grid)),
{
    let ghost g0 = *grid;
    let ghost fresh = all_closed(&g0);
    let n = grid.size();
    let w = grid.width;
    let h = grid.height;
    let mut disjoint_set = DisjointSet::new(n);
    let mut row_roots: Vec<usize> = Vec::with_capacity(w);
    let mut in_row: Vec<bool> = unvisited_flags(n);
    let mut members: Vec<usize> = Vec::with_capacity(w);
    let ghost mut par: Seq<int> = Seq::new(n as nat, |k: int| k);
    let ghost mut rk: Seq<nat> = Seq::new(n as nat, |k: int| 0nat);
    proof {
        grid.lemma_nonempty();
        if fresh {
            assert forall|u: int, v: int| #[trigger] grid.linked(u, v) implies par[u] == v || par[v] == u by {
                assert(g0.cell(u) == closed_cell());
            }
        }
    }
    let mut r: usize = 0;
    while r < h
        invariant
            r <= h,
            grid.wf(),
            grid.same_shape(&g0),
            n == grid.n(),
            w == grid.width,
            h == grid.height,
            disjoint_set.wf(),
            disjoint_set@.len() == n,
            in_row@.len() == n,
            forall|k: int| 0 <= k < n ==> !#[trigger] in_row@[k],
            fresh == all_closed(&g0),
            fresh ==> uf_forest(grid, &disjoint_set, par, rk),
            r < h ==> forall|c: int| 0 <= c < r * w ==> #[trigger] reaches_row(&disjoint_set, c, r as int, w as int),
            r == h ==> forall|v: int| 0 <= v < n ==> #[trigger] disjoint_set.same(0, v),
        decreases h - r,
    {
        proof {
            lemma_index(r as int, 0, w as int, h as int);
            lemma_index(r as int, w - 1, w as int, h as int);
        }
        let start_of_row = r * w;
        let end_of_row = start_of_row + (w - 1);
        let ghost above = disjoint_set;
        // join within the row
        let mut i = start_of_row;
        while i < end_of_row
            invariant
                start_of_row <= i <= end_of_row,
                start_of_row == r * w,
                end_of_row == start_of_row + (w - 1),
                r < h,
                end_of_row < n,
                grid.wf(),
                grid.same_shape(&g0),
                n == grid.n(),
                w == grid.width,
                h == grid.height,
                disjoint_set.wf(),
                disjoint_set@.len() == n,
                above@.len() == n,
                fresh == all_closed(&g0),
                fresh ==> uf_forest(grid, &disjoint_set, par, rk),
                forall|x: int, y: int| 0 <= x < n && 0 <= y < n && #[trigger] above.same(x, y) ==> disjoint_set.same(x, y),
                r == h - 1 ==> forall|c: int| start_of_row <= c <= i ==> #[trigger] disjoint_set.same(start_of_row as int, c),
            decreases end_of_row - i,
        {
            proof {
                lemma_index(r as int, i - start_of_row, w as int, h as int);
                lemma_steps(i as int, w as int, h as int);
            }
            let ghost d0 = disjoint_set;
            let a = disjoint_set.find(i);
            let b = disjoint_set.find(i + 1);
            proof {
                if fresh {
                    lemma_forest_view(grid, &d0, &disjoint_set, par, rk);
                }
            }
            if a != b {
                if r == h - 1 || random_ratio(rng, 1, 2) {
                    let ghost ufb = disjoint_set;
                    let ghost gb = *grid;
                    disjoint_set.union(i, i + 1);
                    grid.connect_cell_east(i);
                    proof {
                        assert(gb.adjacent(i as int, i + 1));
                        assert(dir_between(i as int, i + 1, w as int) == Dir::East);
                        if fresh {
                            let (p2, r2) = lemma_forest_join(&gb, grid, &ufb, &disjoint_set, par, rk, i as int, i + 1);
                            par = p2;
                            rk = r2;
                        }
                        assert forall|x: int, y: int| 0 <= x < n && 0 <= y < n && #[trigger] above.same(x, y) implies disjoint_set.same(x, y) by {
                            assert(ufb.same(x, y));
                        }
                        assert forall|x: int, y: int| 0 <= x < n && 0 <= y < n && #[trigger] d0.same(x, y) implies disjoint_set.same(x, y) by {
                            assert(ufb.same(x, y));
                        }
                    }
                }
            }
            proof {
                if r == h - 1 {
                    assert(disjoint_set.same(i as int, i + 1));
                    assert(d0.same(start_of_row as int, i as int));
                    assert(disjoint_set.same(start_of_row as int, i as int));
                    assert forall|c: int| start_of_row <= c <= i + 1 implies #[trigger] disjoint_set.same(start_of_row as int, c) by {
                        if c <= i {
                            assert(d0.same(start_of_row as int, c));
                        }
                    }
                }
            }
            i = i + 1;
        }
        if r + 1 < h {
            // the representative of each cell of the row
            row_roots.clear();
            let mut t: usize = 0;
            while t < w
                invariant
                    t <= w,
                    row_roots@.len() == t,
                    start_of_row == r * w,
                    end_of_row == start_of_row + (w - 1),
                    end_of_row < n,
                    n == grid.n(),
                    disjoint_set.wf(),
                    disjoint_set@.len() == n,
                    above@.len() == n,
                    fresh ==> uf_forest(grid, &disjoint_set, par, rk),
                    forall|x: int, y: int| 0 <= x < n && 0 <= y < n && #[trigger] above.same(x, y) ==> disjoint_set.same(x, y),
                    forall|k: int| 0 <= k < t ==> #[trigger] row_roots@[k] < n && disjoint_set.same(start_of_row + k, row_roots@[k] as int),
                decreases w - t,
            {
                let ghost d0 = disjoint_set;
                let root = disjoint_set.find(start_of_row + t);
                proof {
                    disjoint_set.lemma_view_len();
                    if fresh {
                        lemma_forest_view(grid, &d0, &disjoint_set, par, rk);
                    }
                }
                row_roots.push(root);
                t = t + 1;
            }
            t = 0;
            while t < w
                invariant
                    t <= w,
                    row_roots@.len() == w,
                    in_row@.len() == n,
                    forall|k: int| 0 <= k < w ==> #[trigger] row_roots@[k] < n,
                    forall|x: int| 0 <= x < n ==> (#[trigger] in_row@[x] <==> exists|k: int| 0 <= k < t && row_roots@[k] == x),
                decreases w - t,
            {
                let ghost i0 = in_row@;
                in_row.set(row_roots[t], true);
                proof {
                    assert forall|x: int| 0 <= x < n implies (#[trigger] in_row@[x] <==> exists|k: int| 0 <= k < t + 1 && row_roots@[k] == x) by {
                        if x == row_roots@[t as int] {
                            assert(row_roots@[t as int] == x);
                        } else if exists|k: int| 0 <= k < t + 1 && row_roots@[k] == x {
                            let k = choose|k: int| 0 <= k < t + 1 && row_roots@[k] == x;
                            assert(k < t);
                        }
                    }
                }
                t = t + 1;
            }
            // each set present in the row, by increasing representative
            let mut id: usize = 0;
            while id < n
                invariant
                    id <= n,
                    r + 1 < h,
                    start_of_row == r * w,
                    grid.wf(),
                    grid.same_shape(&g0),
                    n == grid.n(),
                    w == grid.width,
                    h == grid.height,
                    disjoint_set.wf(),
                    disjoint_set@.len() == n,
                    in_row@.len() == n,
                    forall|k: int| 0 <= k < id ==> !#[trigger] in_row@[k],
                    forall|x: int| id <= x < n ==> (#[trigger] in_row@[x] <==> exists|k: int| 0 <= k < w && row_roots@[k] == x),
                    row_roots@.len() == w,
                    forall|k: int| 0 <= k < w ==> #[trigger] row_roots@[k] < n && disjoint_set.same(start_of_row + k, row_roots@[k] as int),
                    forall|k: int| 0 <= k < w && row_roots@[k] < id ==> #[trigger] reaches_row(&disjoint_set, start_of_row + k, r + 1, w as int),
                    above@.len() == n,
                    fresh == all_closed(&g0),
                    fresh ==> uf_forest(grid, &disjoint_set, par, rk),
                    forall|x: int, y: int| 0 <= x < n && 0 <= y < n && #[trigger] above.same(x, y) ==> disjoint_set.same(x, y),
                decreases n - id,
            {
                if in_row[id] {
                    proof {
                        assert(in_row@[id as int]);
                        assert(exists|k: int| 0 <= k < w && row_roots@[k] == id);
                    }
                    let ghost some_member = choose|k: int| 0 <= k < w && row_roots@[k] == id;
                    in_row.set(id, false);
                    members.clear();
                    let mut t: usize = 0;
                    while t < w
                        invariant
                            t <= w,
                            r + 1 < h,
                            start_of_row == r * w,
                            row_roots@.len() == w,
                            grid.wf(),
                            n == grid.n(),
                            w == grid.width,
                            h == grid.height,
                            forall|k: int| 0 <= k < members@.len() ==> #[trigger] members@[k] < n && grid.has_south(members@[k] as int),
                            forall|k: int| 0 <= k < members@.len() ==> start_of_row <= #[trigger] members@[k] < start_of_row + w && row_roots@[members@[k] - start_of_row] == id,
                            forall|u: int| 0 <= u < t && row_roots@[u] == id ==> #[trigger] members@.contains((start_of_row + u) as usize),
                        decreases w - t,
                    {
                        let ghost m0 = members@;
                        if row_roots[t] == id {
                            proof {
                                lemma_index(r as int, t as int, w as int, h as int);
                                lemma_steps(start_of_row + t, w as int, h as int);
                            }
                            members.push(start_of_row + t);
                        }
                        proof {
                            assert forall|k: int| 0 <= k < members@.len() implies start_of_row <= #[trigger] members@[k] < start_of_row + w && row_roots@[members@[k] - start_of_row] == id by {
                                if k < m0.len() {
                                    assert(members@[k] == m0[k]);
                                } else {
                                    assert(members@[k] == start_of_row + t);
                                }
                            }
                            assert forall|u: int| 0 <= u < t + 1 && row_roots@[u] == id implies #[trigger] members@.contains((start_of_row + u) as usize) by {
                                if u < t {
                                    assert(m0.contains((start_of_row + u) as usize));
                                    let k = choose|k: int| 0 <= k < m0.len() && m0[k] == (start_of_row + u) as usize;
                                    assert(members@[k] == m0[k]);
                                } else {
                                    assert(members@[members@.len() - 1] == (start_of_row + u) as usize);
                                }
                            }
                        }
                        t = t + 1;
                    }
                    let ghost before = members@;
                    shuffle(rng, &mut members);
                    proof {
                        broadcast use vstd::seq_lib::group_to_multiset_ensures;
                        assert forall|k: int| 0 <= k < members@.len() implies #[trigger] members@[k] < n && grid.has_south(members@[k] as int) by {
                            assert(members@.to_multiset().count(members@[k]) > 0);
                            assert(before.contains(members@[k]));
                        }
                        let u0 = some_member;
                        assert(before.contains((start_of_row + u0) as usize));
                        assert(before.to_multiset().count((start_of_row + u0) as usize) > 0);
                        assert(members@.len() > 0);
                    }
                    if members.len() > 0 {
                        let chosen_rep = members[0];
                        let ghost rep_u: int;
                        proof {
                            broadcast use vstd::seq_lib::group_to_multiset_ensures;
                            assert(members@.to_multiset().count(members@[0]) > 0);
                            assert(before.contains(members@[0]));
                            let k = choose|k: int| 0 <= k < before.len() && before[k] == members@[0];
                            rep_u = before[k] - start_of_row;
                            assert(row_roots@[rep_u] == id);
                        }
                        let ghost ds_before = disjoint_set;
                        let Ghost(pr) = join_south(&mut disjoint_set, grid, chosen_rep, Ghost(par), Ghost(rk), Ghost(fresh));
                        proof {
                            par = pr.0;
                            rk = pr.1;
                            lemma_index(r as int + 1, rep_u, w as int, h as int);
                            assert((r + 1) * w + rep_u == start_of_row + rep_u + w) by (nonlinear_arith)
                                requires
                                    start_of_row == r * w,
                            ;
                            assert forall|k: int| 0 <= k < w && row_roots@[k] < id + 1 implies #[trigger] reaches_row(&disjoint_set, start_of_row + k, r + 1, w as int) by {
                                if row_roots@[k] < id {
                                    assert(reaches_row(&ds_before, start_of_row + k, r + 1, w as int));
                                    let u = choose|u: int| 0 <= u < w && #[trigger] ds_before.same(start_of_row + k, (r + 1) * w + u);
                                    lemma_index(r as int + 1, u, w as int, h as int);
                                    lemma_index(r as int, k, w as int, h as int);
                                    assert(disjoint_set.same(start_of_row + k, (r + 1) * w + u));
                                } else {
                                    lemma_index(r as int, k, w as int, h as int);
                                    lemma_index(r as int, rep_u, w as int, h as int);
                                    assert(ds_before.same(start_of_row + k, row_roots@[k] as int));
                                    assert(ds_before.same(start_of_row + rep_u, row_roots@[rep_u] as int));
                                    assert(disjoint_set.same(start_of_row + k, start_of_row + rep_u));
                                    assert(disjoint_set.same(start_of_row + k, (r + 1) * w + rep_u));
                                }
                            }
                            assert forall|k: int| 0 <= k < w implies #[trigger] row_roots@[k] < n && disjoint_set.same(start_of_row + k, row_roots@[k] as int) by {
                                lemma_index(r as int, k, w as int, h as int);
                                assert(ds_before.same(start_of_row + k, row_roots@[k] as int));
                            }
                        }
                        let mut m: usize = 1;
                        while m < members.len()
                            invariant
                                grid.wf(),
                                grid.same_shape(&g0),
                                n == grid.n(),
                                w == grid.width,
                                h == grid.height,
                                disjoint_set.wf(),
                                disjoint_set@.len() == n,
                                forall|k: int| 0 <= k < members@.len() ==> #[trigger] members@[k] < n && g0.has_south(members@[k] as int),
                                row_roots@.len() == w,
                                start_of_row == r * w,
                                r + 1 < h,
                                forall|k: int| 0 <= k < w ==> #[trigger] row_roots@[k] < n && disjoint_set.same(start_of_row + k, row_roots@[k] as int),
                                forall|k: int| 0 <= k < w && row_roots@[k] < id + 1 ==> #[trigger] reaches_row(&disjoint_set, start_of_row + k, r + 1, w as int),
                                above@.len() == n,
                                fresh == all_closed(&g0),
                                fresh ==> uf_forest(grid, &disjoint_set, par, rk),
                                forall|x: int, y: int| 0 <= x < n && 0 <= y < n && #[trigger] above.same(x, y) ==> disjoint_set.same(x, y),
                            decreases members@.len() - m,
                        {
                            let elem = members[m];
                            proof {
                                assert(members@[m as int] < n && g0.has_south(members@[m as int] as int));
                                grid.lemma_cell(elem as int);
                            }
                            if random_ratio(rng, 333, 1000) {
                                let ghost ds_before = disjoint_set;
                                let Ghost(pr) = join_south(&mut disjoint_set, grid, elem, Ghost(par), Ghost(rk), Ghost(fresh));
                                proof {
                                    par = pr.0;
                                    rk = pr.1;
                                    assert forall|k: int| 0 <= k < w && row_roots@[k] < id + 1 implies #[trigger] reaches_row(&disjoint_set, start_of_row + k, r + 1, w as int) by {
                                        lemma_index(r as int, k, w as int, h as int);
                                        assert(reaches_row(&ds_before, start_of_row + k, r + 1, w as int));
                                        let u = choose|u: int| 0 <= u < w && #[trigger] ds_before.same(start_of_row + k, (r + 1) * w + u);
                                        lemma_index(r as int + 1, u, w as int, h as int);
                                        assert(disjoint_set.same(start_of_row + k, (r + 1) * w + u));
                                    }
                                    assert forall|k: int| 0 <= k < w implies #[trigger] row_roots@[k] < n && disjoint_set.same(start_of_row + k, row_roots@[k] as int) by {
                                        lemma_index(r as int, k, w as int, h as int);
                                        assert(ds_before.same(start_of_row + k, row_roots@[k] as int));
                                    }
                                }
                            }
                            m = m + 1;
                        }
                    }
                }
                id = id + 1;
            }
            proof {
                // every cell so far reaches the next row
                assert forall|c: int| 0 <= c < (r + 1) * w implies #[trigger] reaches_row(&disjoint_set, c, r + 1, w as int) by {
                    if c < r * w {
                        assert(reaches_row(&above, c, r as int, w as int));
                        let u = choose|u: int| 0 <= u < w && #[trigger] above.same(c, r * w + u);
                        lemma_index(r as int, u, w as int, h as int);
                        assert(disjoint_set.same(c, r * w + u));
                        assert(reaches_row(&disjoint_set, r * w + u, r + 1, w as int));
                        let v = choose|v: int| 0 <= v < w && #[trigger] disjoint_set.same(r * w + u, (r + 1) * w + v);
                        assert(disjoint_set.same(c, (r + 1) * w + v));
                    } else {
                        let k = c - r * w;
                        assert(0 <= k < w) by (nonlinear_arith)
                            requires
                                r * w <= c < (r + 1) * w,
                                k == c - r * w,
                        ;
                        assert(row_roots@[k] < n);
                        assert(!in_row@[row_roots@[k] as int]);
                        assert(reaches_row(&disjoint_set, start_of_row + k, r + 1, w as int));
                    }
                }
            }
        } else {
            proof {
                assert(r * w + w == w * h) by (nonlinear_arith)
                    requires
                        r == h - 1,
                ;
                assert forall|v: int| 0 <= v < n implies #[trigger] disjoint_set.same(start_of_row as int, v) by {
                    if v < r * w {
                        assert(reaches_row(&above, v, r as int, w as int));
                        let u = choose|u: int| 0 <= u < w && #[trigger] above.same(v, r * w + u);
                        lemma_index(r as int, u, w as int, h as int);
                        assert(disjoint_set.same(v, r * w + u));
                        assert(disjoint_set.same(start_of_row as int, r * w + u));
                    } else {
                        assert(v <= end_of_row);
                    }
                }
                assert forall|v: int| 0 <= v < n implies #[trigger] disjoint_set.same(0, v) by {
                    assert(disjoint_set.same(start_of_row as int, 0));
                    assert(disjoint_set.same(start_of_row as int, v));
                }
            }
        }
        r = r + 1;
    }
    proof {
        if fresh {
            lemma_forest_single(grid, &disjoint_set, par, rk);
        }
    }
}

/// Cell `c` is in the same set as some cell of row `row`.
pub open spec fn reaches_row(uf: &DisjointSet, c: int, row: int, w: int) -> bool {
    exists|u: int| 0 <= u < w && #[trigger] uf.same(c, row * w + u)
}

/// Cell `c` lies in the rectangle at column `x`, row `y`, of `rw` columns and
/// `rh` rows, in a grid `w` columns wide.
pub open spec fn in_rect(w: int, x: int, y: int, rw: int, rh: int, c: int) -> bool {
    0 <= c && x <= c % w < x + rw && y <= c / w < y + rh
}

pub open spec fn rect(w: int, x: int, y: int, rw: int, rh: int) -> spec_fn(int) -> bool {
    |c: int| in_rect(w, x, y, rw, rh, c)
}

/// The passages of the first `i - y` rows of a vertical wall west of column
/// `m` (rows `y..i`).
pub open spec fn vcut(w: int, m: int, y: int, i: int, p: int, q: int) -> bool {
    ||| 0 <= p && p % w == m - 1 && q == p + 1 && y <= p / w < i
    ||| 0 <= q && q % w == m - 1 && p == q + 1 && y <= q / w < i
}

/// The passages of the first `i - x` columns of a horizontal wall north of
/// row `m` (columns `x..i`).
pub open spec fn hcut(w: int, m: int, x: int, i: int, p: int, q: int) -> bool {
    ||| 0 <= p && p / w == m - 1 && q == p + w && x <= p % w < i
    ||| 0 <= q && q / w == m - 1 && p == q + w && x <= q % w < i
}

/// A rectangle inside the grid holds only cells of the grid.
proof fn lemma_rect_cell(g: &Grid, x: int, y: int, rw: int, rh: int, c: int)
    requires
        g.wf(),
        0 <= x,
        0 <= y,
        x + rw <= g.width,
        y + rh <= g.height,
        in_rect(g.width as int, x, y, rw, rh, c),
    ensures
        c < g.n(),
        c == (c / (g.width as int)) * (g.width as int) + c % (g.width as int),
{
    let w = g.width as int;
    lemma_div_mod(c, w);
    lemma_index(c / w, c % w, w, g.height as int);
    assert(c == (c / w) * w + c % w) by (nonlinear_arith)
        requires
            c == w * (c / w) + c % w,
    ;
}

/// The passages of a split rectangle after its wall: each half stays open,
/// only the gap joins them, and nothing outside changes.
proof fn lemma_split(
    gs: &Grid,
    g: &Grid,
    l: spec_fn(int) -> bool,
    rr: spec_fn(int) -> bool,
    r: spec_fn(int) -> bool,
    wall: spec_fn(int, int) -> bool,
    a: int,
    b: int,
)
    requires
        gs.wf(),
        g.same_shape(gs),
        open_on(gs, r),
        forall|c: int| #[trigger] r(c) == (l(c) || rr(c)),
        forall|c: int| !(#[trigger] l(c) && rr(c)),
        forall|p: int, q: int| #[trigger] g.linked(p, q) == ((gs.linked(p, q) && !wall(p, q)) || (p == a && q == b) || (p == b && q == a)),
        forall|p: int, q: int| #[trigger] wall(p, q) ==> (l(p) && rr(q)) || (rr(p) && l(q)),
        forall|p: int, q: int| l(p) && rr(q) && #[trigger] gs.adjacent(p, q) ==> wall(p, q),
        l(a),
        rr(b),
        gs.adjacent(a, b),
    ensures
        open_on(g, l),
        open_on(g, rr),
        forall|p: int, q: int| l(p) && rr(q) && #[trigger] g.linked(p, q) ==> p == a && q == b,
        forall|p: int, q: int| !(r(p) && r(q)) ==> #[trigger] g.linked(p, q) == gs.linked(p, q),
        g.linked(a, b),
{
    assert forall|c: int, j: int| l(c) && l(j) && #[trigger] g.adjacent(c, j) implies g.linked(c, j) by {
        assert(gs.adjacent(c, j));
        assert(r(c) && r(j));
        if wall(c, j) {
            assert(!(rr(c) && l(c)));
        }
    }
    assert forall|c: int, j: int| rr(c) && rr(j) && #[trigger] g.adjacent(c, j) implies g.linked(c, j) by {
        assert(gs.adjacent(c, j));
        assert(r(c) && r(j));
        if wall(c, j) {
            assert(!(rr(c) && l(c)));
        }
    }
    assert forall|p: int, q: int| l(p) && rr(q) && #[trigger] g.linked(p, q) implies p == a && q == b by {
        if gs.linked(p, q) && !wall(p, q) {
            gs.lemma_linked_symmetric(p, q);
        }
        assert(!(l(b) && rr(b)));
    }
    assert forall|p: int, q: int| !(r(p) && r(q)) implies #[trigger] g.linked(p, q) == gs.linked(p, q) by {
        if wall(p, q) {
        }
        assert(r(a) && r(b));
    }
}

/// A rectangle one cell wide or high whose passages are all open is a tree
/// that can be rooted anywhere: every cell points toward the root.
proof fn lemma_strip_tree(g: &Grid, x: int, y: int, rw: int, rh: int)
    requires
        g.wf(),
        0 <= x,
        0 <= y,
        rw >= 1,
        rh >= 1,
        x + rw <= g.width,
        y + rh <= g.height,
        rw <= 1 || rh <= 1,
        open_on(g, rect(g.width as int, x, y, rw, rh)),
    ensures
        tree_on(g, rect(g.width as int, x, y, rw, rh)),
{
    let w = g.width as int;
    let h = g.height as int;
    let s = rect(w, x, y, rw, rh);
    assert forall|root: int| 0 <= root < g.n() && #[trigger] s(root) implies exists|par: Seq<int>, rk: Seq<nat>| region_witness(g, s, par, rk, root) by {
        lemma_steps(root, w, h);
        if rh <= 1 {
            let par = Seq::new(g.n() as nat, |v: int| if v < root { v + 1 } else if v > root { v - 1 } else { v });
            let rk = Seq::new(g.n() as nat, |v: int| (if v < root { root - v } else { v - root }) as nat);
            assert forall|v: int| 0 <= v < g.n() && s(v) && v != root implies 0 <= #[trigger] par[v] < g.n() && s(par[v]) && g.linked(v, par[v])
                && rk[par[v]] < rk[v] by {
                lemma_steps(v, w, h);
                lemma_rect_cell(g, x, y, rw, rh, v);
                lemma_rect_cell(g, x, y, rw, rh, root);
                assert(v / w == root / w);
                if v < root {
                    assert(v % w < root % w) by (nonlinear_arith)
                        requires
                            v == (v / w) * w + v % w,
                            root == (root / w) * w + root % w,
                            v / w == root / w,
                            v < root,
                    ;
                    assert(g.adjacent(v, v + 1));
                } else {
                    assert(v % w > root % w) by (nonlinear_arith)
                        requires
                            v == (v / w) * w + v % w,
                            root == (root / w) * w + root % w,
                            v / w == root / w,
                            v > root,
                    ;
                    assert(g.adjacent(v, v - 1));
                }
            }
            assert forall|u: int, v: int| s(u) && s(v) && #[trigger] g.linked(u, v) implies par[u] == v || par[v] == u by {
                g.lemma_linked_symmetric(u, v);
                lemma_steps(u, w, h);
                assert(u / w == v / w);
            }
            assert(region_witness(g, s, par, rk, root));
        } else {
            let par = Seq::new(g.n() as nat, |v: int| if v / w < root / w { v + w } else if v / w > root / w { v - w } else { v });
            let rk = Seq::new(g.n() as nat, |v: int| (if v / w < root / w { root / w - v / w } else { v / w - root / w }) as nat);
            assert forall|v: int| 0 <= v < g.n() && s(v) && v != root implies 0 <= #[trigger] par[v] < g.n() && s(par[v]) && g.linked(v, par[v])
                && rk[par[v]] < rk[v] by {
                lemma_steps(v, w, h);
                lemma_rect_cell(g, x, y, rw, rh, v);
                lemma_rect_cell(g, x, y, rw, rh, root);
                assert(v % w == root % w);
                if v / w == root / w {
                    assert(v == root);
                }
                if v / w < root / w {
                    assert(g.adjacent(v, v + w));
                } else {
                    assert(g.adjacent(v, v - w));
                }
            }
            assert forall|u: int, v: int| s(u) && s(v) && #[trigger] g.linked(u, v) implies par[u] == v || par[v] == u by {
                g.lemma_linked_symmetric(u, v);
                lemma_steps(u, w, h);
                assert(u % w == v % w);
            }
            assert(region_witness(g, s, par, rk, root));
        }
    }
}

/// After the wall, the east (or south) half `rr` is split first: the west
/// (or north) half `l` is still open.
proof fn lemma_open_after(g_gap: &Grid, g1: &Grid, l: spec_fn(int) -> bool, rr: spec_fn(int) -> bool)
    requires
        g1.same_shape(g_gap),
        open_on(g_gap, l),
        forall|c: int| !(#[trigger] l(c) && rr(c)),
        forall|p: int, q: int| !(rr(p) && rr(q)) ==> #[trigger] g1.linked(p, q) == g_gap.linked(p, q),
    ensures
        open_on(g1, l),
{
    assert forall|c: int, j: int| l(c) && l(j) && #[trigger] g1.adjacent(c, j) implies g1.linked(c, j) by {
        assert(g_gap.adjacent(c, j));
        assert(!(rr(c) && rr(j)));
    }
}

/// With both halves split into trees, the rectangle is one tree, and nothing
/// outside it changed.
proof fn lemma_divide_finish(
    g0: &Grid,
    g_gap: &Grid,
    g1: &Grid,
    g2: &Grid,
    l: spec_fn(int) -> bool,
    rr: spec_fn(int) -> bool,
    r: spec_fn(int) -> bool,
    a: int,
    b: int,
)
    requires
        g2.wf(),
        g1.n() == g2.n(),
        forall|c: int| #[trigger] r(c) == (l(c) || rr(c)),
        forall|c: int| !(#[trigger] l(c) && rr(c)),
        0 <= a < g2.n(),
        0 <= b < g2.n(),
        l(a),
        rr(b),
        g_gap.linked(a, b),
        forall|p: int, q: int| l(p) && rr(q) && #[trigger] g_gap.linked(p, q) ==> p == a && q == b,
        forall|p: int, q: int| !(r(p) && r(q)) ==> #[trigger] g_gap.linked(p, q) == g0.linked(p, q),
        tree_on(g1, rr),
        forall|p: int, q: int| !(rr(p) && rr(q)) ==> #[trigger] g1.linked(p, q) == g_gap.linked(p, q),
        tree_on(g2, l),
        forall|p: int, q: int| !(l(p) && l(q)) ==> #[trigger] g2.linked(p, q) == g1.linked(p, q),
    ensures
        tree_on(g2, r),
        forall|p: int, q: int| !(r(p) && r(q)) ==> #[trigger] g2.linked(p, q) == g0.linked(p, q),
{
    assert forall|p: int, q: int| rr(p) && rr(q) implies (#[trigger] g1.linked(p, q) == g2.linked(p, q)) by {
        assert(!(l(p) && l(q)));
    }
    lemma_tree_on_frame(g1, g2, rr);
    assert(g2.linked(a, b)) by {
        assert(!(l(a) && l(b)));
        assert(!(rr(a) && rr(b)));
    }
    assert forall|p: int, q: int| l(p) && rr(q) && #[trigger] g2.linked(p, q) implies p == a && q == b by {
        assert(!(l(p) && l(q)));
        assert(!(rr(p) && rr(q)));
        assert(g_gap.linked(p, q));
    }
    lemma_tree_join(g2, l, rr, r, a, b);
    assert forall|p: int, q: int| !(r(p) && r(q)) implies #[trigger] g2.linked(p, q) == g0.linked(p, q) by {
        assert(!(l(p) && l(q)));
        assert(!(rr(p) && rr(q)));
        assert(g1.linked(p, q) == g_gap.linked(p, q));
    }
}

/// Splits the rectangle at column `x`, row `y`, of `rw` columns and `rh` rows:
/// across its longer side (vertically on a tie) with a wall that has one gap
/// at a uniformly chosen place, then splits the two halves, the east or south
/// half first. Rectangles one cell wide or high are left as they are. An open
/// rectangle ends as a tree, and no passage with an end outside it changes.
fn divide(grid: &mut Grid, rng: &mut XorShiftRng, x: usize, y: usize, rw: usize, rh: usize)
    requires
        old(grid).wf(),
        x + rw <= old(grid).width,
        y + rh <= old(grid).height,
        rw >= 1,
        rh >= 1,
        open_on(old(grid), rect(old(grid).width as int, x as int, y as int, rw as int, rh as int)),
    ensures
        final(grid).wf(),
        final(grid).same_shape(old(grid)),
        tree_on(final(grid), rect(old(grid).width as int, x as int, y as int, rw as int, rh as int)),
        forall|p: int, q: int|
            !(rect(old(grid).width as int, x as int, y as int, rw as int, rh as int)(p) && rect(
                old(grid).width as int,
                x as int,
                y as int,
                rw as int,
                rh as int,
            )(q)) ==> #[trigger] final(grid).linked(p, q) == old(grid).linked(p, q),
    decreases rw + rh,
{
    let ghost wi = grid.width as int;
    let ghost hi = grid.height as int;
    let ghost r = rect(wi, x as int, y as int, rw as int, rh as int);
    if rw <= 1 || rh <= 1 {
        proof {
            lemma_strip_tree(grid, x as int, y as int, rw as int, rh as int);
        }
        return;
    }
    let gw = grid.width;
    let gh = grid.height;
    let ghost g0 = *grid;
    if rh <= rw {
        let mid_x = x + rw / 2;
        let mut i = y;
        while i < y + rh
            invariant
                y <= i <= y + rh,
                y + rh <= gh,
                mid_x < gw,
                mid_x >= 1,
                grid.wf(),
                grid.same_shape(&g0),
                gw == grid.width,
                gh == grid.height,
                wi == gw,
                forall|p: int, q: int| #[trigger] grid.linked(p, q) == (g0.linked(p, q) && !vcut(wi, mid_x as int, y as int, i as int, p, q)),
            decreases y + rh - i,
        {
            proof {
                lemma_index(i as int, mid_x as int, gw as int, gh as int);
                lemma_index(i as int, mid_x - 1, gw as int, gh as int);
            }
            let ghost gb = *grid;
            let c = i * gw + mid_x;
            grid.disconnect_cell_west(c);
            proof {
                lemma_link_cut(&gb, grid, c as int, Dir::West);
                assert forall|p: int, q: int| #[trigger] grid.linked(p, q) == (g0.linked(p, q) && !vcut(wi, mid_x as int, y as int, i + 1, p, q)) by {
                    if 0 <= p {
                        lemma_div_mod(p, wi);
                        if p % wi == mid_x - 1 && p / wi == i {
                            assert(p == c - 1) by (nonlinear_arith)
                                requires
                                    p == wi * (p / wi) + p % wi,
                                    p / wi == i,
                                    p % wi == mid_x - 1,
                                    c == i * wi + mid_x,
                            ;
                        }
                    }
                    if 0 <= q {
                        lemma_div_mod(q, wi);
                        if q % wi == mid_x - 1 && q / wi == i {
                            assert(q == c - 1) by (nonlinear_arith)
                                requires
                                    q == wi * (q / wi) + q % wi,
                                    q / wi == i,
                                    q % wi == mid_x - 1,
                                    c == i * wi + mid_x,
                            ;
                        }
                    }
                }
            }
            i = i + 1;
        }
        let ghost gwall = *grid;
        let random_i = match choose_in_range(rng, y, y + rh) {
            Some(v) => v,
            None => y,
        };
        proof {
            lemma_index(random_i as int, mid_x as int, gw as int, gh as int);
            lemma_index(random_i as int, mid_x - 1, gw as int, gh as int);
        }
        let c = random_i * gw + mid_x;
        grid.connect_cell_west(c);
        let ghost a = c - 1;
        let ghost b = c as int;
        let ghost l = rect(wi, x as int, y as int, (rw / 2) as int, rh as int);
        let ghost rr = rect(wi, mid_x as int, y as int, rw - rw / 2, rh as int);
        proof {
            assert(gwall.adjacent(b, a));
            assert(dir_between(b, a, wi) == Dir::West);
            lemma_link_added(&gwall, grid, b, a);
            let wall = |p: int, q: int| vcut(wi, mid_x as int, y as int, y + rh, p, q);
            assert forall|cc: int| #[trigger] r(cc) == (l(cc) || rr(cc)) by {}
            assert forall|cc: int| !(#[trigger] l(cc) && rr(cc)) by {}
            assert forall|p: int, q: int| #[trigger] wall(p, q) implies (l(p) && rr(q)) || (rr(p) && l(q)) by {
                if 0 <= p && p % wi == mid_x - 1 && q == p + 1 && y <= p / wi < y + rh {
                    lemma_rect_cell(&g0, x as int, y as int, rw as int, rh as int, p);
                    lemma_steps(p, wi, hi);
                } else {
                    lemma_rect_cell(&g0, x as int, y as int, rw as int, rh as int, q);
                    lemma_steps(q, wi, hi);
                }
            }
            assert forall|p: int, q: int| l(p) && rr(q) && #[trigger] g0.adjacent(p, q) implies wall(p, q) by {
                lemma_rect_cell(&g0, x as int, y as int, (rw / 2) as int, rh as int, p);
                lemma_steps(p, wi, hi);
            }
            assert(g0.adjacent(a, b));
            lemma_split(&g0, grid, l, rr, r, wall, a, b);
        }
        let ghost g_gap = *grid;
        divide(grid, rng, x + rw / 2, y, (rw / 2) + (rw % 2), rh);
        let ghost g_right = *grid;
        proof {
            assert(rect(wi, (x + rw / 2) as int, y as int, ((rw / 2) + (rw % 2)) as int, rh as int) == rr);
            lemma_open_after(&g_gap, &g_right, l, rr);
        }
        divide(grid, rng, x, y, rw / 2, rh);
        proof {
            lemma_divide_finish(&g0, &g_gap, &g_right, grid, l, rr, r, a, b);
        }
    } else {
        let mid_y = y + rh / 2;
        let mut i = x;
        while i < x + rw
            invariant
                x <= i <= x + rw,
                x + rw <= gw,
                mid_y < gh,
                mid_y >= 1,
                grid.wf(),
                grid.same_shape(&g0),
                gw == grid.width,
                gh == grid.height,
                wi == gw,
                forall|p: int, q: int| #[trigger] grid.linked(p, q) == (g0.linked(p, q) && !hcut(wi, mid_y as int, x as int, i as int, p, q)),
            decreases x + rw - i,
        {
            proof {
                lemma_index(mid_y as int, i as int, gw as int, gh as int);
                lemma_index(mid_y - 1, i as int, gw as int, gh as int);
            }
            let ghost gb = *grid;
            let c = mid_y * gw + i;
            grid.disconnect_cell_north(c);
            proof {
                assert((mid_y - 1) * wi + i == c - wi) by (nonlinear_arith)
                    requires
                        c == mid_y * wi + i,
                ;
                lemma_link_cut(&gb, grid, c as int, Dir::North);
                assert forall|p: int, q: int| #[trigger] grid.linked(p, q) == (g0.linked(p, q) && !hcut(wi, mid_y as int, x as int, i + 1, p, q)) by {
                    if 0 <= p {
                        lemma_div_mod(p, wi);
                        if p / wi == mid_y - 1 && p % wi == i {
                            assert(p == c - wi) by (nonlinear_arith)
                                requires
                                    p == wi * (p / wi) + p % wi,
                                    p / wi == mid_y - 1,
                                    p % wi == i,
                                    c == mid_y * wi + i,
                            ;
                        }
                    }
                    if 0 <= q {
                        lemma_div_mod(q, wi);
                        if q / wi == mid_y - 1 && q % wi == i {
                            assert(q == c - wi) by (nonlinear_arith)
                                requires
                                    q == wi * (q / wi) + q % wi,
                                    q / wi == mid_y - 1,
                                    q % wi == i,
                                    c == mid_y * wi + i,
                            ;
                        }
                    }
                }
            }
            i = i + 1;
        }
        let ghost gwall = *grid;
        let random_i = match choose_in_range(rng, x, x + rw) {
            Some(v) => v,
            None => x,
        };
        proof {
            lemma_index(mid_y as int, random_i as int, gw as int, gh as int);
            lemma_index(mid_y - 1, random_i as int, gw as int, gh as int);
        }
        let c = mid_y * gw + random_i;
        grid.connect_cell_north(c);
        let ghost a = c - wi;
        let ghost b = c as int;
        let ghost l = rect(wi, x as int, y as int, rw as int, (rh / 2) as int);
        let ghost rr = rect(wi, x as int, mid_y as int, rw as int, rh - rh / 2);
        proof {
            assert(gwall.adjacent(b, a));
            assert(dir_between(b, a, wi) == Dir::North);
            lemma_link_added(&gwall, grid, b, a);
            let wall = |p: int, q: int| hcut(wi, mid_y as int, x as int, x + rw, p, q);
            assert forall|cc: int| #[trigger] r(cc) == (l(cc) || rr(cc)) by {}
            assert forall|cc: int| !(#[trigger] l(cc) && rr(cc)) by {}
            assert forall|p: int, q: int| #[trigger] wall(p, q) implies (l(p) && rr(q)) || (rr(p) && l(q)) by {
                if 0 <= p && p / wi == mid_y - 1 && q == p + wi && x <= p % wi < x + rw {
                    lemma_rect_cell(&g0, x as int, y as int, rw as int, rh as int, p);
                    lemma_steps(p, wi, hi);
                } else {
                    lemma_rect_cell(&g0, x as int, y as int, rw as int, rh as int, q);
                    lemma_steps(q, wi, hi);
                }
            }
            assert forall|p: int, q: int| l(p) && rr(q) && #[trigger] g0.adjacent(p, q) implies wall(p, q) by {
                lemma_rect_cell(&g0, x as int, y as int, rw as int, (rh / 2) as int, p);
                lemma_steps(p, wi, hi);
            }
            assert((mid_y - 1) * wi + random_i == c - wi) by (nonlinear_arith)
                requires
                    c == mid_y * wi + random_i,
            ;
            lemma_steps(a, wi, hi);
            assert(g0.adjacent(a, b));
            lemma_split(&g0, grid, l, rr, r, wall, a, b);
        }
        let ghost g_gap = *grid;
        divide(grid, rng, x, y + rh / 2, rw, (rh / 2) + (rh % 2));
        let ghost g_right = *grid;
        proof {
            assert(rect(wi, x as int, (y + rh / 2) as int, rw as int, ((rh / 2) + (rh % 2)) as int) == rr);
            lemma_open_after(&g_gap, &g_right, l, rr);
        }
        divide(grid, rng, x, y, rw, rh / 2);
        proof {
            lemma_divide_finish(&g0, &g_gap, &g_right, grid, l, rr, r, a, b);
        }
    }
}

/// Opens every passage, then splits the whole grid recursively with walls
/// that each keep one gap. The result is a perfect maze.
pub fn recursive_division(grid: &mut Grid, rng: &mut XorShiftRng)
    requires
        old(grid).wf(),
    ensures
        final(grid).wf(),
        final(grid).same_shape(old(grid)),
        is_perfect_maze(final(grid)),
{
    empty(grid);
    let w = grid.width;
    let h = grid.height;
    let ghost whole = rect(w as int, 0, 0, w as int, h as int);
    proof {
        assert forall|c: int, j: int| whole(c) && whole(j) && #[trigger] grid.adjacent(c, j) implies grid.linked(c, j) by {
            lemma_rect_cell(grid, 0, 0, w as int, h as int, c);
            lemma_steps(c, w as int, h as int);
            assert(flag(grid.cell(c), Dir::North) == has_dir(c, Dir::North, w as int, h as int));
            assert(flag(grid.cell(c), Dir::South) == has_dir(c, Dir::South, w as int, h as int));
            assert(flag(grid.cell(c), Dir::East) == has_dir(c, Dir::East, w as int, h as int));
            assert(flag(grid.cell(c), Dir::West) == has_dir(c, Dir::West, w as int, h as int));
        }
    }
    divide(grid, rng, 0, 0, w, h);
    proof {
        assert forall|v: int| 0 <= v < grid.n() implies #[trigger] whole(v) by {
            lemma_steps(v, w as int, h as int);
            lemma_div_mod(v, w as int);
        }
        lemma_tree_on_all(grid, whole);
    }
}

pub open spec fn is_closed(c: Cell) -> bool {
    degree(c) == 0
}

/// The neighbours of `i` that have no passage yet, in neighbour order.
fn closed_neighbors(grid: &Grid, i: usize, buf: &mut Vec<usize>)
    requires
        grid.wf(),
        i < grid.n(),
    ensures
        forall|k: int| 0 <= k < final(buf)@.len() ==> #[trigger] grid.adjacent(i as int, final(buf)@[k] as int) && is_closed(grid.cell(final(buf)@[k] as int)),
        forall|j: int| #[trigger] grid.adjacent(i as int, j) && is_closed(grid.cell(j)) ==> final(buf)@.contains(j as usize),
{
    let mut all: Vec<usize> = Vec::with_capacity(4);
    grid.neighbors(i, &mut all);
    proof {
        grid.lemma_neighbor_seq(i as int);
        assert(all@ =~= grid.neighbor_seq(i as int));
    }
    buf.clear();
    let mut k: usize = 0;
    while k < all.len()
        invariant
            k <= all@.len(),
            grid.wf(),
            i < grid.n(),
            forall|m: int| 0 <= m < all@.len() ==> #[trigger] grid.adjacent(i as int, all@[m] as int),
            forall|m: int| 0 <= m < buf@.len() ==> #[trigger] grid.adjacent(i as int, buf@[m] as int),
            forall|m: int| 0 <= m < buf@.len() ==> is_closed(#[trigger] grid.inner@[buf@[m] as int]),
            all@ == grid.neighbor_seq(i as int),
            forall|m: int| 0 <= m < k && is_closed(grid.cell(all@[m] as int)) ==> buf@.contains(#[trigger] all@[m]),
        decreases all@.len() - k,
    {
        let j = all[k];
        proof {
            assert(grid.adjacent(i as int, all@[k as int] as int));
        }
        let c = grid.inner[j];
        let num = c.num_connections();
        let ghost b0 = buf@;
        if num == 0 {
            assert(is_closed(grid.cell(j as int)));
            buf.push(j);
        }
        proof {
            crate::pathfinding::diagnostic_map::lemma_push_contains(b0, j);
        }
        k = k + 1;
    }
    proof {
        grid.lemma_neighbor_seq(i as int);
        assert forall|j: int| #[trigger] grid.adjacent(i as int, j) && is_closed(grid.cell(j)) implies buf@.contains(j as usize) by {
            assert(all@.contains(j as usize));
            let m = choose|m: int| 0 <= m < all@.len() && all@[m] == j as usize;
            assert(buf@.contains(all@[m]));
        }
    }
}

/// Opening a passage to a closed cell leaves fewer closed cells.
proof fn lemma_open_to_closed(grid: &Grid, after: &Grid, i: int, j: int)
    requires
        grid.wf(),
        grid.adjacent(i, j),
        is_closed(grid.cell(j)),
        after.inner@ == crate::grid::with_link(grid.inner@, grid.width as int, i, crate::grid::dir_between(i, j, grid.width as int), true),
    ensures
        count_where(after.inner@, |c: Cell| is_closed(c)) < count_where(grid.inner@, |c: Cell| is_closed(c)),
{
    let w = grid.width as int;
    let h = grid.height as int;
    let d = crate::grid::dir_between(i, j, w);
    grid.lemma_dir_between(i, j);
    lemma_with_link_flags(grid.inner@, w, h, i, d, true);
    assert forall|k: int| 0 <= k < grid.inner@.len() && is_closed(#[trigger] after.inner@[k]) implies is_closed(grid.inner@[k]) by {
        assert(flag(after.inner@[k], Dir::North) == after.inner@[k].north_connected);
        assert(flag(after.inner@[k], Dir::South) == after.inner@[k].south_connected);
        assert(flag(after.inner@[k], Dir::East) == after.inner@[k].east_connected);
        assert(flag(after.inner@[k], Dir::West) == after.inner@[k].west_connected);
    }
    assert(flag(after.inner@[j], opposite(d)));
    assert(!is_closed(after.inner@[j])) by {
        assert(flag(after.inner@[j], Dir::North) == after.inner@[j].north_connected);
        assert(flag(after.inner@[j], Dir::South) == after.inner@[j].south_connected);
        assert(flag(after.inner@[j], Dir::East) == after.inner@[j].east_connected);
        assert(flag(after.inner@[j], Dir::West) == after.inner@[j].west_connected);
    }
    lemma_count_mono(grid.inner@, after.inner@, |c: Cell| is_closed(c), j);
}

/// The cells of a Prim pass so far: the start and every cell with a passage.
pub open spec fn in_tree(g: &Grid, start: int) -> Seq<bool> {
    Seq::new(g.n() as nat, |k: int| k == start || degree(g.cell(k)) > 0)
}

/// What a Prim pass keeps from a closed grid: the reached cells carry a tree
/// rooted at the start; a frontier entry is a reached cell; a reached cell off
/// the frontier has no closed neighbour; and the start stays closed only while
/// the whole grid is.
pub open spec fn prim_state(g: &Grid, frontier: Seq<usize>, parent: Seq<int>, rank: Seq<nat>, start: int) -> bool {
    let v = in_tree(g, start);
    &&& grown_tree(g, v, parent, rank, start)
    &&& forall|k: int| 0 <= k < frontier.len() ==> #[trigger] frontier[k] < g.n() && v[frontier[k] as int]
    &&& forall|c: int, j: int|
        0 <= c < g.n() && v[c] && !frontier.contains(c as usize) && #[trigger] g.adjacent(c, j) ==> !is_closed(g.cell(j))
    &&& degree(g.cell(start)) == 0 ==> all_closed(g)
}

/// Opening a passage from a reached cell `i` to its closed neighbour `t`
/// keeps the Prim state, with `t` added to the frontier.
proof fn lemma_prim_grow(gb: &Grid, g: &Grid, frontier: Seq<usize>, parent: Seq<int>, rank: Seq<nat>, start: int, i: int, t: int)
    requires
        gb.wf(),
        prim_state(gb, frontier, parent, rank, start),
        0 <= i < gb.n(),
        in_tree(gb, start)[i],
        gb.adjacent(i, t),
        is_closed(gb.cell(t)),
        i == start || degree(gb.cell(i)) > 0,
        degree(gb.cell(start)) == 0 ==> i == start,
        g.same_shape(gb),
        g.inner@ == with_link(gb.inner@, gb.width as int, i, dir_between(i, t, gb.width as int), true),
    ensures
        prim_state(g, frontier.push(t as usize), parent.update(t, i), rank.update(t, rank[i] + 1), start),
{
    let w = gb.width as int;
    let h = gb.height as int;
    let d = dir_between(i, t, w);
    gb.lemma_dir_between(i, t);
    lemma_with_link_flags(gb.inner@, w, h, i, d, true);
    crate::grid::lemma_with_link_wf(gb.inner@, w, h, i, d, true);
    lemma_step_in_grid(i, d, w, h);
    let vb = in_tree(gb, start);
    let v = in_tree(g, start);
    assert(t != start) by {
        if t == start {
            assert(degree(gb.cell(start)) == 0);
            assert(i == start);
        }
    }
    assert(!vb[t]);
    // degrees only grow, and the two ends of the new passage are open
    assert forall|k: int| 0 <= k < g.n() implies (#[trigger] degree(g.cell(k)) > 0) == (degree(gb.cell(k)) > 0 || k == i || k == t) by {
        assert(flag(g.inner@[k], Dir::North) == g.inner@[k].north_connected);
        assert(flag(g.inner@[k], Dir::South) == g.inner@[k].south_connected);
        assert(flag(g.inner@[k], Dir::East) == g.inner@[k].east_connected);
        assert(flag(g.inner@[k], Dir::West) == g.inner@[k].west_connected);
        assert(flag(gb.inner@[k], Dir::North) == gb.inner@[k].north_connected);
        assert(flag(gb.inner@[k], Dir::South) == gb.inner@[k].south_connected);
        assert(flag(gb.inner@[k], Dir::East) == gb.inner@[k].east_connected);
        assert(flag(gb.inner@[k], Dir::West) == gb.inner@[k].west_connected);
    }
    assert(v =~= vb.update(t, true));
    lemma_grow(gb, g, vb, parent, rank, start, i, t);
    let f2 = frontier.push(t as usize);
    assert forall|k: int| 0 <= k < f2.len() implies #[trigger] f2[k] < g.n() && v[f2[k] as int] by {
        if k < frontier.len() {
            assert(frontier[k] < gb.n() && vb[frontier[k] as int]);
        }
    }
    assert forall|c: int, j: int| 0 <= c < g.n() && v[c] && !f2.contains(c as usize) && #[trigger] g.adjacent(c, j) implies !is_closed(g.cell(j)) by {
        assert(f2[frontier.len() as int] == t as usize);
        assert(c != t);
        if !frontier.contains(c as usize) {
            assert(vb[c]);
            assert(gb.adjacent(c, j));
            assert(!is_closed(gb.cell(j)));
            assert(degree(gb.cell(j)) > 0);
        } else {
            let k = choose|k: int| 0 <= k < frontier.len() && frontier[k] == c as usize;
            assert(f2[k] == c as usize);
        }
    }
    assert(degree(g.cell(start)) > 0) by {
        if i != start {
            assert(degree(gb.cell(start)) > 0);
        }
    }
}

/// From a uniformly chosen cell: repeatedly take a uniformly chosen entry of
/// the frontier; open a passage to one of its closed neighbours (chosen
/// uniformly) and add that neighbour, or drop the entry if it has none. From a
/// closed grid the result is a perfect maze.
pub fn prim_simplified(grid: &mut Grid, rng: &mut XorShiftRng)
    requires
        old(grid).wf(),
    ensures
        final(grid).wf(),
        final(grid).same_shape(old(grid)),
        all_closed(old(grid)) ==> is_perfect_maze(final(grid)),
{
    let ghost g0 = *grid;
    let ghost fresh = all_closed(&g0);
    let n = grid.size();
    proof {
        grid.lemma_nonempty();
    }
    let mut frontier: Vec<usize> = Vec::new();
    let start = random_range(rng, 0, n);
    frontier.push(start);
    let ghost mut parent: Seq<int> = Seq::new(n as nat, |k: int| k);
    let ghost mut rank: Seq<nat> = Seq::new(n as nat, |k: int| 0nat);
    proof {
        if fresh {
            lemma_prim_start(grid, frontier@, parent, rank, start as int);
        }
    }
    let mut available_neighbors: Vec<usize> = Vec::with_capacity(4);
    while frontier.len() > 0
        invariant
            grid.wf(),
            grid.same_shape(&g0),
            n == grid.n(),
            start < n,
            forall|k: int| 0 <= k < frontier@.len() ==> #[trigger] frontier@[k] < n,
            fresh == all_closed(&g0),
            fresh ==> prim_state(grid, frontier@, parent, rank, start as int),
        decreases 2 * count_where(grid.inner@, |c: Cell| is_closed(c)) + frontier@.len(),
    {
        let frontier_index = random_range(rng, 0, frontier.len());
        let i = frontier[frontier_index];
        closed_neighbors(grid, i, &mut available_neighbors);
        if available_neighbors.len() == 0 {
            let ghost f = frontier@;
            frontier.swap_remove(frontier_index);
            proof {
                assert forall|k: int| 0 <= k < frontier@.len() implies #[trigger] frontier@[k] < n by {
                    if k == frontier_index {
                        assert(frontier@[k] == f[f.len() - 1]);
                    } else {
                        assert(frontier@[k] == f[k]);
                    }
                }
                if fresh {
                    lemma_removed_entries(f, frontier@, frontier_index as int);
                    lemma_prim_drop(grid, f, frontier@, parent, rank, start as int, frontier_index as int, available_neighbors@);
                }
            }
        } else {
            match choose_item(rng, &available_neighbors) {
                Some(chosen) => {
                    let ghost before = *grid;
                    proof {
                        let k = choose|k: int| 0 <= k < available_neighbors@.len() && available_neighbors@[k] == chosen;
                        assert(grid.adjacent(i as int, available_neighbors@[k] as int));
                        assert(is_closed(grid.inner@[available_neighbors@[k] as int]));
                    }
                    grid.connect_neighbors(i, chosen);
                    proof {
                        lemma_open_to_closed(&before, grid, i as int, chosen as int);
                        if fresh {
                            let f = frontier@;
                            assert(f[frontier_index as int] == i);
                            assert(in_tree(&before, start as int)[i as int]);
                            lemma_prim_grow(&before, grid, f, parent, rank, start as int, i as int, chosen as int);
                        }
                        parent = parent.update(chosen as int, i as int);
                        rank = rank.update(chosen as int, rank[i as int] + 1);
                    }
                    frontier.push(chosen);
                },
                None => {},
            }
        }
    }
    proof {
        if fresh {
            let v = in_tree(grid, start as int);
            assert forall|c: int, j: int| 0 <= c < grid.n() && v[c] && #[trigger] grid.adjacent(c, j) implies v[j] by {
                assert(!is_closed(grid.cell(j)));
            }
            lemma_region_covers_grid_from(grid, v, start as int);
            lemma_grown_tree_perfect(grid, v, parent, rank, start as int);
        }
    }
}

proof fn lemma_prim_start(g: &Grid, frontier: Seq<usize>, parent: Seq<int>, rank: Seq<nat>, start: int)
    requires
        g.wf(),
        all_closed(g),
        0 <= start < g.n(),
        frontier == seq![start as usize],
        parent == Seq::new(g.n() as nat, |k: int| k),
        rank == Seq::new(g.n() as nat, |k: int| 0nat),
    ensures
        prim_state(g, frontier, parent, rank, start),
{
    let v = in_tree(g, start);
    assert forall|k: int| 0 <= k < g.n() implies #[trigger] v[k] == (k == start) by {
        assert(g.cell(k) == closed_cell());
    }
    assert forall|u: int, w: int| #[trigger] g.linked(u, w) implies v[u] && v[w] && (parent[u] == w || parent[w] == u) by {
        assert(g.cell(u) == closed_cell());
    }
    assert forall|c: int, j: int| 0 <= c < g.n() && v[c] && !frontier.contains(c as usize) && #[trigger] g.adjacent(c, j) implies !is_closed(g.cell(j)) by {
        assert(c == start);
        assert(frontier[0] == start as usize);
    }
}

/// Dropping a frontier entry without closed neighbours keeps the Prim state.
proof fn lemma_prim_drop(g: &Grid, f: Seq<usize>, f2: Seq<usize>, parent: Seq<int>, rank: Seq<nat>, start: int, idx: int, avail: Seq<usize>)
    requires
        g.wf(),
        prim_state(g, f, parent, rank, start),
        0 <= idx < f.len(),
        forall|k: int| 0 <= k < f2.len() ==> f.contains(#[trigger] f2[k]),
        forall|x: usize| #[trigger] f.contains(x) && x != f[idx] ==> f2.contains(x),
        avail.len() == 0,
        forall|j: int| #[trigger] g.adjacent(f[idx] as int, j) && is_closed(g.cell(j)) ==> avail.contains(j as usize),
    ensures
        prim_state(g, f2, parent, rank, start),
{
    let v = in_tree(g, start);
    assert forall|k: int| 0 <= k < f2.len() implies #[trigger] f2[k] < g.n() && v[f2[k] as int] by {
        assert(f.contains(f2[k]));
        let m = choose|m: int| 0 <= m < f.len() && f[m] == f2[k];
        assert(f[m] < g.n() && v[f[m] as int]);
    }
    assert forall|c: int, j: int| 0 <= c < g.n() && v[c] && !f2.contains(c as usize) && #[trigger] g.adjacent(c, j) implies !is_closed(g.cell(j)) by {
        if c != f[idx] as int && f.contains(c as usize) {
            assert(f2.contains(c as usize));
        }
    }
}

/// Removing one entry, by swapping in the last or by shifting the rest, keeps
/// every other entry.
proof fn lemma_removed_entries(f: Seq<usize>, f2: Seq<usize>, idx: int)
    requires
        0 <= idx < f.len(),
        f2 == f.update(idx, f.last()).drop_last() || f2 == f.remove(idx),
    ensures
        forall|k: int| 0 <= k < f2.len() ==> f.contains(#[trigger] f2[k]),
        forall|x: usize| #[trigger] f.contains(x) && x != f[idx] ==> f2.contains(x),
{
    assert forall|k: int| 0 <= k < f2.len() implies f.contains(#[trigger] f2[k]) by {
        if f2 == f.update(idx, f.last()).drop_last() {
            if k == idx {
                assert(f2[k] == f[f.len() - 1]);
            } else {
                assert(f2[k] == f[k]);
            }
        } else {
            if k < idx {
                assert(f2[k] == f[k]);
            } else {
                assert(f2[k] == f[k + 1]);
            }
        }
    }
    assert forall|x: usize| #[trigger] f.contains(x) && x != f[idx] implies f2.contains(x) by {
        let m = choose|m: int| 0 <= m < f.len() && f[m] == x;
        if f2 == f.update(idx, f.last()).drop_last() {
            if m == f.len() - 1 {
                assert(f2[idx] == x);
            } else {
                assert(f2[m] == x);
            }
        } else {
            if m < idx {
                assert(f2[m] == x);
            } else {
                assert(f2[m - 1] == x);
            }
        }
    }
}

/// The first frontier entry of least cost.
fn cheapest(frontier: &Vec<(usize, u8)>) -> (r: usize)
    requires
        frontier@.len() > 0,
    ensures
        r < frontier@.len(),
        forall|k: int| 0 <= k < frontier@.len() ==> frontier@[r as int].1 <= (#[trigger] frontier@[k]).1,
        forall|k: int| 0 <= k < r ==> frontier@[r as int].1 < (#[trigger] frontier@[k]).1,
{
    let mut best: usize = 0;
    let mut k: usize = 1;
    while k < frontier.len()
        invariant
            1 <= k <= frontier@.len(),
            best < k,
            forall|m: int| 0 <= m < k ==> frontier@[best as int].1 <= (#[trigger] frontier@[m]).1,
            forall|m: int| 0 <= m < best ==> frontier@[best as int].1 < (#[trigger] frontier@[m]).1,
        decreases frontier@.len() - k,
    {
        if frontier[k].1 < frontier[best].1 {
            best = k;
        }
        k = k + 1;
    }
    best
}

/// Prim's algorithm on random weights: every cell gets a cost drawn uniformly
/// from `0..100`; from a uniformly chosen cell, the cheapest frontier entry
/// (the earliest among equals) opens a passage to its cheapest closed
/// neighbour (the first among equals), which joins the frontier; an entry with
/// no closed neighbour leaves it. From a closed grid the result is a perfect
/// maze.
pub fn prim_true(grid: &mut Grid, rng: &mut XorShiftRng)
    requires
        old(grid).wf(),
    ensures
        final(grid).wf(),
        final(grid).same_shape(old(grid)),
        all_closed(old(grid)) ==> is_perfect_maze(final(grid)),
{
    let ghost g0 = *grid;
    let ghost fresh = all_closed(&g0);
    let n = grid.size();
    proof {
        grid.lemma_nonempty();
    }
    let mut costs: Vec<u8> = Vec::with_capacity(n);
    let mut k: usize = 0;
    while k < n
        invariant
            k <= n,
            costs@.len() == k,
        decreases n - k,
    {
        costs.push(sample_uniform_u8(rng, 0, 100));
        k = k + 1;
    }
    let mut frontier: Vec<(usize, u8)> = Vec::new();
    let start = random_range(rng, 0, n);
    frontier.push((start, costs[start]));
    let ghost mut parent: Seq<int> = Seq::new(n as nat, |k: int| k);
    let ghost mut rank: Seq<nat> = Seq::new(n as nat, |k: int| 0nat);
    proof {
        if fresh {
            assert(cells_of(frontier@) =~= seq![start]);
            lemma_prim_start(grid, cells_of(frontier@), parent, rank, start as int);
        }
    }
    let mut available_neighbors: Vec<usize> = Vec::with_capacity(4);
    while frontier.len() > 0
        invariant
            grid.wf(),
            grid.same_shape(&g0),
            n == grid.n(),
            costs@.len() == n,
            start < n,
            fresh == all_closed(&g0),
            fresh ==> prim_state(grid, cells_of(frontier@), parent, rank, start as int),
            forall|k: int| 0 <= k < frontier@.len() ==> #[trigger] frontier@[k].0 < n,
        decreases 2 * count_where(grid.inner@, |c: Cell| is_closed(c)) + frontier@.len(),
    {
        let top = cheapest(&frontier);
        let i = frontier[top].0;
        proof {
            assert(frontier@[top as int].0 < n);
        }
        closed_neighbors(grid, i, &mut available_neighbors);
        if available_neighbors.len() == 0 {
            let ghost f = frontier@;
            frontier.remove(top);
            proof {
                if fresh {
                    assert(cells_of(frontier@) =~= cells_of(f).remove(top as int));
                    assert(cells_of(f)[top as int] == i);
                    lemma_removed_entries(cells_of(f), cells_of(frontier@), top as int);
                    lemma_prim_drop(grid, cells_of(f), cells_of(frontier@), parent, rank, start as int, top as int, available_neighbors@);
                }
                assert forall|k: int| 0 <= k < frontier@.len() implies #[trigger] frontier@[k].0 < n by {
                    if k < top {
                        assert(frontier@[k] == f[k]);
                    } else {
                        assert(frontier@[k] == f[k + 1]);
                    }
                }
            }
        } else {
            proof {
                assert forall|j: int| 0 <= j < available_neighbors@.len() implies #[trigger] available_neighbors@[j] < n by {
                    assert(grid.adjacent(i as int, available_neighbors@[j] as int));
                }
                assert(available_neighbors@.contains(available_neighbors@[0]));
            }
            let mut chosen = available_neighbors[0];
            let mut m: usize = 1;
            while m < available_neighbors.len()
                invariant
                    1 <= m <= available_neighbors@.len(),
                    costs@.len() == n,
                    n == grid.n(),
                    available_neighbors@.contains(chosen),
                    forall|j: int| 0 <= j < available_neighbors@.len() ==> #[trigger] available_neighbors@[j] < n,
                decreases available_neighbors@.len() - m,
            {
                let cand = available_neighbors[m];
                proof {
                    assert(available_neighbors@[m as int] < n);
                    let j = choose|j: int| 0 <= j < available_neighbors@.len() && available_neighbors@[j] == chosen;
                    assert(available_neighbors@[j] < n);
                }
                if costs[cand] < costs[chosen] {
                    chosen = cand;
                }
                m = m + 1;
            }
            let ghost before = *grid;
            proof {
                let j = choose|j: int| 0 <= j < available_neighbors@.len() && available_neighbors@[j] == chosen;
                assert(grid.adjacent(i as int, available_neighbors@[j] as int));
                assert(is_closed(grid.inner@[available_neighbors@[j] as int]));
            }
            grid.connect_neighbors(i, chosen);
            proof {
                lemma_open_to_closed(&before, grid, i as int, chosen as int);
                if fresh {
                    let f = cells_of(frontier@);
                    assert(f[top as int] == i);
                    assert(in_tree(&before, start as int)[i as int]);
                    lemma_prim_grow(&before, grid, f, parent, rank, start as int, i as int, chosen as int);
                }
                parent = parent.update(chosen as int, i as int);
                rank = rank.update(chosen as int, rank[i as int] + 1);
            }
            let ghost fb = frontier@;
            frontier.push((chosen, costs[chosen]));
            proof {
                assert(cells_of(frontier@) =~= cells_of(fb).push(chosen));
            }
        }
    }
    proof {
        if fresh {
            let v = in_tree(grid, start as int);
            assert forall|c: int, j: int| 0 <= c < grid.n() && v[c] && #[trigger] grid.adjacent(c, j) implies v[j] by {
                assert(!is_closed(grid.cell(j)));
            }
            lemma_region_covers_grid_from(grid, v, start as int);
            lemma_grown_tree_perfect(grid, v, parent, rank, start as int);
        }
    }
}

/// The cells of the frontier entries, in order.
pub open spec fn cells_of(frontier: Seq<(usize, u8)>) -> Seq<usize> {
    frontier.map_values(|e: (usize, u8)| e.0)
}

/// The generators whose result from a closed grid is a perfect maze (for
/// the random walks, when they reached every cell): all but the baseline.
pub open spec fn carves_perfect(algo: Algo) -> bool {
    match algo {
        Algo::Empty => false,
        _ => true,
    }
}

/// Carves a maze with the given algorithm. Returns `false` only when a random
/// walk (Aldous-Broder, Wilson) was cut off before reaching every cell.
pub fn carve_maze(grid: &mut Grid, rng: &mut XorShiftRng, algo: Algo) -> (finished: bool)
    requires
        old(grid).wf(),
    ensures
        final(grid).wf(),
        final(grid).same_shape(old(grid)),
        algo != Algo::AldousBroder && algo != Algo::Wilson ==> finished,
        all_closed(old(grid)) && carves_perfect(algo) && finished ==> is_perfect_maze(final(grid)),
        all_closed(old(grid)) && (algo == Algo::AldousBroder || algo == Algo::Wilson) ==> is_partial_tree(final(grid)),
        algo == Algo::Empty ==> forall|k: int, d: Dir|
            0 <= k < final(grid).n() ==> #[trigger] flag(final(grid).cell(k), d) == has_dir(
                k,
                d,
                final(grid).width as int,
                final(grid).height as int,
            ),
{
    match algo {
        Algo::BinaryTree => {
            binary_tree(grid, rng);
            true
        },
        Algo::Sidewinder => {
            sidewinder(grid, rng);
            true
        },
        Algo::AldousBroder => aldous_broder(grid, rng),
        Algo::Wilson => wilson(grid, rng),
        Algo::HuntAndKill => {
            hunt_and_kill(grid, rng);
            true
        },
        Algo::RecursiveBacktracker => {
            recursive_backtracker(grid, rng);
            true
        },
        Algo::Kruskal => {
            kruskal(grid, rng);
            true
        },
        Algo::Eller => {
            eller(grid, rng);
            true
        },
        Algo::RecursiveDivision => {
            recursive_division(grid, rng);
            true
        },
        Algo::PrimSimplified => {
            prim_simplified(grid, rng);
            true
        },
        Algo::PrimTrue => {
            prim_true(grid, rng);
            true
        },
        Algo::Empty => {
            empty(grid);
            true
        },
    }
}

} // verus!
