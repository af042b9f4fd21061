//! Perfect mazes: the passages form a spanning tree of the grid. A maze is
//! shown perfect by a certificate that points every cell but a root at a
//! neighbour it is joined to, with a rank that falls toward the root, such
//! that every passage is one of those pointers.

use vstd::prelude::*;
use crate::disjoint_set::DisjointSet;
use crate::grid::{Grid, is_route, reachable, with_link, dir_between, flag, Dir, step, has_dir, lemma_with_link_flags, lemma_steps, lemma_index, lemma_div_mod};

verus! {

pub open spec fn tree_witness(g: &Grid, parent: Seq<int>, rank: Seq<nat>, root: int) -> bool {
    &&& parent.len() == g.n()
    &&& rank.len() == g.n()
    &&& 0 <= root < g.n()
    &&& parent[root] == root
    &&& forall|v: int|
        0 <= v < g.n() && v != root ==> 0 <= #[trigger] parent[v] < g.n() && g.linked(v, parent[v]) && rank[parent[v]]
            < rank[v]
    &&& forall|u: int, v: int| #[trigger] g.linked(u, v) ==> parent[u] == v || parent[v] == u
}

/// The grid's passages form a spanning tree.
pub open spec fn is_perfect_maze(g: &Grid) -> bool {
    &&& g.wf()
    &&& exists|parent: Seq<int>, rank: Seq<nat>, root: int| tree_witness(g, parent, rank, root)
}

/// Three or more distinct cells, each joined to the next and the last to the
/// first.
pub open spec fn is_cycle(g: &Grid, q: Seq<usize>) -> bool {
    &&& q.len() >= 3
    &&& q.no_duplicates()
    &&& forall|k: int| 0 <= k < q.len() - 1 ==> #[trigger] g.linked(q[k] as int, q[k + 1] as int)
    &&& g.linked(q.last() as int, q[0] as int)
}

/// A route from `v` to the root, following the pointers.
proof fn lemma_route_to_root(g: &Grid, parent: Seq<int>, rank: Seq<nat>, root: int, v: int) -> (q: Seq<usize>)
    requires
        g.wf(),
        tree_witness(g, parent, rank, root),
        0 <= v < g.n(),
    ensures
        is_route(g, q, v, root),
    decreases rank[v],
{
    assert(g.n() <= usize::MAX);
    if v == root {
        seq![v as usize]
    } else {
        let p = parent[v];
        let rest = lemma_route_to_root(g, parent, rank, root, p);
        let q = seq![v as usize] + rest;
        assert forall|k: int| 0 <= k < q.len() - 1 implies #[trigger] g.linked(q[k] as int, q[k + 1] as int) by {
            if k == 0 {
                assert(q[1] == rest[0]);
                assert(g.linked(v, p));
            } else {
                assert(q[k] == rest[k - 1]);
                assert(q[k + 1] == rest[k]);
                assert(g.linked(rest[k - 1] as int, rest[(k - 1) + 1] as int));
            }
        }
        q
    }
}

/// A route read backwards is a route.
proof fn lemma_route_reverse(g: &Grid, q: Seq<usize>, a: int, b: int) -> (r: Seq<usize>)
    requires
        g.wf(),
        is_route(g, q, a, b),
    ensures
        is_route(g, r, b, a),
{
    let r = Seq::new(q.len(), |k: int| q[q.len() - 1 - k]);
    assert forall|k: int| 0 <= k < r.len() - 1 implies #[trigger] g.linked(r[k] as int, r[k + 1] as int) by {
        let j = q.len() - 2 - k;
        assert(g.linked(q[j] as int, q[j + 1] as int));
        g.lemma_linked_symmetric(q[j] as int, q[j + 1] as int);
    }
    r
}

/// The first cell of `q` of greatest rank.
proof fn lemma_argmax(q: Seq<usize>, rank: Seq<nat>) -> (m: int)
    requires
        q.len() >= 1,
        forall|k: int| 0 <= k < q.len() ==> (#[trigger] q[k]) < rank.len(),
    ensures
        0 <= m < q.len(),
        forall|k: int| 0 <= k < q.len() ==> rank[#[trigger] q[k] as int] <= rank[q[m] as int],
    decreases q.len(),
{
    if q.len() == 1 {
        0
    } else {
        let p = q.drop_last();
        assert forall|k: int| 0 <= k < p.len() implies (#[trigger] p[k]) < rank.len() by {
            assert(p[k] == q[k]);
        }
        let m = lemma_argmax(p, rank);
        assert forall|k: int| 0 <= k < p.len() implies rank[#[trigger] q[k] as int] <= rank[q[m] as int] by {
            assert(p[k] == q[k]);
            assert(rank[p[k] as int] <= rank[p[m] as int]);
        }
        if rank[q.last() as int] > rank[q[m] as int] {
            q.len() - 1
        } else {
            m
        }
    }
}

/// The passages of the grid, each once, as (cell, its south or east
/// neighbour).
pub open spec fn passages(g: &Grid) -> Set<(int, int)> {
    Set::new(
        |e: (int, int)|
            0 <= e.0 < g.n() && ((e.1 == e.0 + g.width && g.cell(e.0).south_connected) || (e.1 == e.0 + 1 && g.cell(
                e.0,
            ).east_connected)),
    )
}

/// A perfect maze has one passage fewer than cells.
pub proof fn lemma_perfect_maze_edge_count(g: &Grid)
    requires
        is_perfect_maze(g),
    ensures
        passages(g).finite(),
        passages(g).len() == g.n() - 1,
{
    let (par, rk, root) = choose|parent: Seq<int>, rank: Seq<nat>, root: int| tree_witness(g, parent, rank, root);
    let n = g.n();
    g.lemma_nonempty();
    let all = vstd::set_lib::set_int_range(0, n);
    vstd::set_lib::lemma_int_range(0, n);
    let c = all.remove(root);
    assert(all.contains(root));
    assert(c.len() == n - 1);
    let f = |v: int| if v < par[v] { (v, par[v]) } else { (par[v], v) };
    assert forall|v1: int, v2: int| c.contains(v1) && c.contains(v2) && #[trigger] f(v1) == #[trigger] f(v2) implies v1 == v2 by {
        if v1 != v2 {
            assert(g.linked(v1, par[v1]));
            assert(g.linked(v2, par[v2]));
            g.lemma_linked_symmetric(v1, par[v1]);
            assert(v1 == par[v2] && v2 == par[v1]);
            assert(rk[par[v1]] < rk[v1]);
            assert(rk[par[v2]] < rk[v2]);
        }
    }
    assert(vstd::relations::injective_on(f, c));
    let p = passages(g);
    assert forall|e: (int, int)| c.map(f).contains(e) <==> p.contains(e) by {
        if c.map(f).contains(e) {
            let v = choose|v: int| c.contains(v) && f(v) == e;
            assert(g.linked(v, par[v]));
            g.lemma_linked_symmetric(v, par[v]);
            let a = e.0;
            let b = e.1;
            assert(v != par[v]);
            if v < par[v] {
                assert(a == v && b == par[v]);
            } else {
                assert(a == par[v] && b == v);
            }
            assert(g.linked(a, b));
            assert(a < b);
            g.lemma_cell(a);
        }
        if p.contains(e) {
            let a = e.0;
            let b = e.1;
            g.lemma_cell(a);
            assert(g.linked(a, b));
            g.lemma_linked_symmetric(a, b);
            if par[a] == b {
                assert(a != root);
                assert(c.contains(a));
                assert(f(a) == e);
            } else {
                assert(par[b] == a);
                assert(b != root);
                assert(0 <= b < n);
                assert(c.contains(b));
                assert(f(b) == e);
            }
        }
    }
    assert(c.map(f) =~= p);
    vstd::set_lib::lemma_map_size(c, p, f);
}

/// A perfect maze is connected: a route joins any two cells.
pub proof fn lemma_perfect_maze_connected(g: &Grid, a: int, b: int)
    requires
        is_perfect_maze(g),
        0 <= a < g.n(),
        0 <= b < g.n(),
    ensures
        reachable(g, a, b),
{
    let (parent, rank, root) = choose|parent: Seq<int>, rank: Seq<nat>, root: int| tree_witness(g, parent, rank, root);
    let up = lemma_route_to_root(g, parent, rank, root, a);
    let from_b = lemma_route_to_root(g, parent, rank, root, b);
    let down = lemma_route_reverse(g, from_b, b, root);
    let q = up + down.drop_first();
    assert forall|k: int| 0 <= k < q.len() - 1 implies #[trigger] g.linked(q[k] as int, q[k + 1] as int) by {
        if k < up.len() - 1 {
            assert(g.linked(up[k] as int, up[k + 1] as int));
        } else if k == up.len() - 1 {
            assert(q[k] == root);
            assert(down[0] == root);
            assert(g.linked(down[0int] as int, down[0int + 1] as int));
        } else {
            let j = k - up.len() + 1;
            assert(q[k] == down[j]);
            assert(q[k + 1] == down[j + 1]);
            assert(g.linked(down[j] as int, down[j + 1] as int));
        }
    }
    if down.len() == 1 {
        assert(q.last() == up.last());
    } else {
        assert(q.last() == down.last());
    }
    assert(is_route(g, q, a, b));
}

/// A perfect maze has no cycle.
pub proof fn lemma_perfect_maze_acyclic(g: &Grid, q: Seq<usize>)
    requires
        is_perfect_maze(g),
    ensures
        !is_cycle(g, q),
{
    if is_cycle(g, q) {
        let (parent, rank, root) = choose|parent: Seq<int>, rank: Seq<nat>, root: int| tree_witness(g, parent, rank, root);
        let len = q.len();
        assert forall|k: int| 0 <= k < len implies (#[trigger] q[k]) < rank.len() by {
            if k < len - 1 {
                assert(g.linked(q[k] as int, q[k + 1] as int));
            } else {
                assert(g.linked(q.last() as int, q[0] as int));
            }
        }
        let m = lemma_argmax(q, rank);
        let a_idx = if m == 0 { len - 1 } else { m - 1 };
        let b_idx = if m == len - 1 { 0 } else { m + 1 };
        let c = q[m] as int;
        let a = q[a_idx] as int;
        let b = q[b_idx] as int;
        assert(g.linked(a, c)) by {
            if m == 0 {
                assert(g.linked(q.last() as int, q[0] as int));
            } else {
                assert(g.linked(q[m - 1] as int, q[(m - 1) + 1] as int));
            }
        }
        assert(g.linked(c, b)) by {
            if m == len - 1 {
            } else {
                assert(g.linked(q[m] as int, q[m + 1] as int));
            }
        }
        g.lemma_linked_symmetric(a, c);
        assert(a != c && b != c && a != b);
        // a passage from the cell of greatest rank leads to its parent
        assert(parent[c] == a) by {
            if parent[a] == c {
                if a == root {
                    assert(parent[root] == root);
                } else {
                    assert(rank[parent[a]] < rank[a]);
                    assert(rank[q[a_idx] as int] <= rank[q[m] as int]);
                }
            }
        }
        assert(parent[c] == b) by {
            if parent[b] == c {
                if b == root {
                    assert(parent[root] == root);
                } else {
                    assert(rank[parent[b]] < rank[b]);
                    assert(rank[q[b_idx] as int] <= rank[q[m] as int]);
                }
            }
        }
    }
}

/// A route that starts at or before `k` and ends after it has a step from a
/// cell at or before `k` to one after it.
proof fn lemma_crossing(q: Seq<usize>, k: int) -> (m: int)
    requires
        q.len() >= 2,
        q[0] <= k,
        q.last() > k,
    ensures
        0 <= m < q.len() - 1,
        q[m] <= k < q[m + 1],
    decreases q.len(),
{
    if q[q.len() - 2] <= k {
        q.len() - 2
    } else {
        lemma_crossing(q.drop_last(), k)
    }
}

/// In a perfect maze of a single row every passage along the row is open:
/// the maze is one corridor.
pub proof fn lemma_single_row_corridor(g: &Grid, k: int)
    requires
        is_perfect_maze(g),
        g.height == 1,
        0 <= k,
        k + 1 < g.n(),
    ensures
        g.linked(k, k + 1),
        g.cell(k).east_connected,
        g.cell(k + 1).west_connected,
{
    let n = g.n();
    lemma_perfect_maze_connected(g, 0, n - 1);
    let q = choose|q: Seq<usize>| #[trigger] is_route(g, q, 0, n - 1);
    let m = lemma_crossing(q, k);
    let x = q[m] as int;
    let y = q[m + 1] as int;
    assert(g.linked(x, y));
    g.lemma_linked_symmetric(x, y);
    g.lemma_cell(x);
    assert(g.width * (g.height - 1) == 0);
    assert(g.n() == g.width);
    assert(x == k && y == k + 1);
    g.lemma_linked_symmetric(k, k + 1);
    g.lemma_cell(k + 1);
}

/// The visited cells carry a tree rooted at `root`, and every passage joins
/// two visited cells as one of its pointers.
pub open spec fn grown_tree(g: &Grid, visited: Seq<bool>, parent: Seq<int>, rank: Seq<nat>, root: int) -> bool {
    &&& visited.len() == g.n()
    &&& parent.len() == g.n()
    &&& rank.len() == g.n()
    &&& 0 <= root < g.n()
    &&& visited[root]
    &&& parent[root] == root
    &&& forall|v: int|
        0 <= v < g.n() && visited[v] && v != root ==> 0 <= #[trigger] parent[v] < g.n() && visited[parent[v]] && g.linked(
            v,
            parent[v],
        ) && rank[parent[v]] < rank[v]
    &&& forall|u: int, v: int| #[trigger] g.linked(u, v) ==> visited[u] && visited[v] && (parent[u] == v || parent[v] == u)
}

/// `grown_tree`, except that the visited cell `x` may still lack the passage
/// to its parent.
pub open spec fn grown_tree_except(g: &Grid, visited: Seq<bool>, parent: Seq<int>, rank: Seq<nat>, root: int, x: int) -> bool {
    &&& visited.len() == g.n()
    &&& parent.len() == g.n()
    &&& rank.len() == g.n()
    &&& 0 <= root < g.n()
    &&& visited[root]
    &&& parent[root] == root
    &&& forall|v: int|
        0 <= v < g.n() && visited[v] && v != root && v != x ==> 0 <= #[trigger] parent[v] < g.n() && visited[parent[v]]
            && g.linked(v, parent[v]) && rank[parent[v]] < rank[v]
    &&& forall|u: int, v: int| #[trigger] g.linked(u, v) ==> visited[u] && visited[v] && (parent[u] == v || parent[v] == u)
}

/// Marking `a` and `b` visited and opening the passage from `a` to its
/// parent `b` lays `a`'s pointer; `b` becomes the loose end unless it was
/// already in the tree.
pub proof fn lemma_lay_pointer(
    gb: &Grid,
    g: &Grid,
    visited: Seq<bool>,
    parent: Seq<int>,
    rank: Seq<nat>,
    root: int,
    a: int,
    b: int,
)
    requires
        gb.wf(),
        grown_tree_except(gb, visited, parent, rank, root, a),
        gb.adjacent(a, b),
        parent[a] == b,
        rank[b] < rank[a],
        a != root,
        !visited[a] ==> forall|j: int| !#[trigger] gb.linked(a, j),
        g.same_shape(gb),
        g.inner@ == with_link(gb.inner@, gb.width as int, a, dir_between(a, b, gb.width as int), true),
    ensures
        grown_tree_except(g, visited.update(a, true).update(b, true), parent, rank, root, if visited[b] { -1 } else { b }),
{
    lemma_link_added(gb, g, a, b);
    let v2 = visited.update(a, true).update(b, true);
    let x2 = if visited[b] { -1 } else { b };
    assert forall|v: int|
        0 <= v < g.n() && v2[v] && v != root && v != x2 implies 0 <= #[trigger] parent[v] < g.n() && v2[parent[v]] && g.linked(v, parent[v])
        && rank[parent[v]] < rank[v] by {
        if v != a {
            assert(visited[v]);
            assert(gb.linked(v, parent[v]));
        }
    }
    assert forall|u: int, v: int| #[trigger] g.linked(u, v) implies v2[u] && v2[v] && (parent[u] == v || parent[v] == u) by {
        if gb.linked(u, v) {
            assert(visited[u] && visited[v]);
        }
    }
}

/// Opening the passage between neighbours `u` and `t`, from either side, adds
/// exactly that passage.
pub proof fn lemma_link_added(g: &Grid, g2: &Grid, u: int, t: int)
    requires
        g.wf(),
        g.adjacent(u, t),
        g2.same_shape(g),
        g2.inner@ == with_link(g.inner@, g.width as int, u, dir_between(u, t, g.width as int), true) || g2.inner@
            == with_link(g.inner@, g.width as int, t, dir_between(t, u, g.width as int), true),
    ensures
        forall|a: int, b: int| #[trigger] g2.linked(a, b) == (g.linked(a, b) || (a == u && b == t) || (a == t && b == u)),
{
    if g2.inner@ == with_link(g.inner@, g.width as int, u, dir_between(u, t, g.width as int), true) {
        lemma_link_added_from(g, g2, u, t);
    } else {
        g.lemma_linked_symmetric(u, t);
        assert(g.adjacent(t, u)) by {
            lemma_steps(u, g.width as int, g.height as int);
            lemma_steps(t, g.width as int, g.height as int);
        }
        lemma_link_added_from(g, g2, t, u);
    }
}

proof fn lemma_link_added_from(g: &Grid, g2: &Grid, u: int, t: int)
    requires
        g.wf(),
        g.adjacent(u, t),
        g2.same_shape(g),
        g2.inner@ == with_link(g.inner@, g.width as int, u, dir_between(u, t, g.width as int), true),
    ensures
        forall|a: int, b: int| #[trigger] g2.linked(a, b) == (g.linked(a, b) || (a == u && b == t) || (a == t && b == u)),
{
    let w = g.width as int;
    let h = g.height as int;
    let d = dir_between(u, t, w);
    g.lemma_dir_between(u, t);
    lemma_with_link_flags(g.inner@, w, h, u, d, true);
    crate::grid::lemma_with_link_wf(g.inner@, w, h, u, d, true);
    assert(g2.wf());
    assert forall|a: int, b: int| #[trigger] g2.linked(a, b) == (g.linked(a, b) || (a == u && b == t) || (a == t && b == u)) by {
        if 0 <= a < g.n() {
            let c1 = g.inner@[a];
            let c2 = g2.inner@[a];
            assert(flag(c2, Dir::North) == c2.north_connected);
            assert(flag(c2, Dir::South) == c2.south_connected);
            assert(flag(c2, Dir::East) == c2.east_connected);
            assert(flag(c2, Dir::West) == c2.west_connected);
            assert(flag(c1, Dir::North) == c1.north_connected);
            assert(flag(c1, Dir::South) == c1.south_connected);
            assert(flag(c1, Dir::East) == c1.east_connected);
            assert(flag(c1, Dir::West) == c1.west_connected);
            g.lemma_cell(a);
            g2.lemma_cell(a);
            lemma_steps(a, w, h);
        }
        if 0 <= b < g.n() {
            lemma_steps(b, w, h);
        }
        lemma_steps(u, w, h);
    }
}

/// Closing the passage from `u` in direction `d` removes exactly that
/// passage, both ways.
pub proof fn lemma_link_cut(g: &Grid, g2: &Grid, u: int, d: Dir)
    requires
        g.wf(),
        0 <= u < g.n(),
        has_dir(u, d, g.width as int, g.height as int),
        g2.same_shape(g),
        g2.inner@ == with_link(g.inner@, g.width as int, u, d, false),
    ensures
        forall|a: int, b: int| #[trigger] g2.linked(a, b) == (g.linked(a, b) && !((a == u && b == step(u, d, g.width as int)) || (
        a == step(u, d, g.width as int) && b == u))),
{
    let w = g.width as int;
    let h = g.height as int;
    let t = step(u, d, w);
    lemma_with_link_flags(g.inner@, w, h, u, d, false);
    crate::grid::lemma_with_link_wf(g.inner@, w, h, u, d, false);
    crate::grid::lemma_step_in_grid(u, d, w, h);
    assert(g2.wf());
    assert forall|a: int, b: int| #[trigger] g2.linked(a, b) == (g.linked(a, b) && !((a == u && b == t) || (a == t && b == u))) by {
        if 0 <= a < g.n() {
            let c1 = g.inner@[a];
            let c2 = g2.inner@[a];
            assert(flag(c2, Dir::North) == c2.north_connected);
            assert(flag(c2, Dir::South) == c2.south_connected);
            assert(flag(c2, Dir::East) == c2.east_connected);
            assert(flag(c2, Dir::West) == c2.west_connected);
            assert(flag(c1, Dir::North) == c1.north_connected);
            assert(flag(c1, Dir::South) == c1.south_connected);
            assert(flag(c1, Dir::East) == c1.east_connected);
            assert(flag(c1, Dir::West) == c1.west_connected);
            g.lemma_cell(a);
            g2.lemma_cell(a);
            lemma_steps(a, w, h);
        }
        if 0 <= b < g.n() {
            lemma_steps(b, w, h);
        }
        lemma_steps(u, w, h);
    }
}

/// A tree over the cells of `s` rooted at `root`: each other cell of `s`
/// points inside `s` to a cell it is joined to, with a lower rank, and every
/// passage between cells of `s` is a pointer.
pub open spec fn region_witness(g: &Grid, s: spec_fn(int) -> bool, par: Seq<int>, rk: Seq<nat>, root: int) -> bool {
    &&& par.len() == g.n()
    &&& rk.len() == g.n()
    &&& 0 <= root < g.n()
    &&& s(root)
    &&& par[root] == root
    &&& forall|v: int|
        0 <= v < g.n() && s(v) && v != root ==> 0 <= #[trigger] par[v] < g.n() && s(par[v]) && g.linked(v, par[v]) && rk[par[v]]
            < rk[v]
    &&& forall|u: int, v: int| s(u) && s(v) && #[trigger] g.linked(u, v) ==> par[u] == v || par[v] == u
}

/// The passages between cells of `s` form a tree over `s`, which can be
/// rooted at any of its cells.
pub open spec fn tree_on(g: &Grid, s: spec_fn(int) -> bool) -> bool {
    forall|root: int|
        0 <= root < g.n() && #[trigger] s(root) ==> exists|par: Seq<int>, rk: Seq<nat>| region_witness(g, s, par, rk, root)
}

/// Every pair of neighbouring cells of `s` is joined.
pub open spec fn open_on(g: &Grid, s: spec_fn(int) -> bool) -> bool {
    forall|c: int, j: int| s(c) && s(j) && #[trigger] g.adjacent(c, j) ==> g.linked(c, j)
}

/// A tree over `s` depends only on the passages between cells of `s`.
pub proof fn lemma_tree_on_frame(g1: &Grid, g2: &Grid, s: spec_fn(int) -> bool)
    requires
        tree_on(g1, s),
        g1.n() == g2.n(),
        forall|a: int, b: int| s(a) && s(b) ==> (#[trigger] g1.linked(a, b) == g2.linked(a, b)),
    ensures
        tree_on(g2, s),
{
    assert forall|root: int| 0 <= root < g2.n() && #[trigger] s(root) implies exists|par: Seq<int>, rk: Seq<nat>| region_witness(g2, s, par, rk, root) by {
        let (par, rk) = choose|par: Seq<int>, rk: Seq<nat>| region_witness(g1, s, par, rk, root);
        assert forall|v: int| 0 <= v < g2.n() && s(v) && v != root implies 0 <= #[trigger] par[v] < g2.n() && s(par[v]) && g2.linked(v, par[v])
            && rk[par[v]] < rk[v] by {
            assert(g1.linked(v, par[v]));
        }
        assert forall|u: int, v: int| s(u) && s(v) && #[trigger] g2.linked(u, v) implies par[u] == v || par[v] == u by {
            assert(g1.linked(u, v));
        }
        assert(region_witness(g2, s, par, rk, root));
    }
}

/// Two trees over disjoint sets joined by a single passage form a tree over
/// their union.
pub proof fn lemma_tree_join(g: &Grid, s1: spec_fn(int) -> bool, s2: spec_fn(int) -> bool, s: spec_fn(int) -> bool, a: int, b: int)
    requires
        g.wf(),
        tree_on(g, s1),
        tree_on(g, s2),
        forall|x: int| #[trigger] s(x) == (s1(x) || s2(x)),
        forall|x: int| !(#[trigger] s1(x) && s2(x)),
        0 <= a < g.n(),
        0 <= b < g.n(),
        s1(a),
        s2(b),
        g.linked(a, b),
        forall|u: int, v: int| s1(u) && s2(v) && #[trigger] g.linked(u, v) ==> u == a && v == b,
    ensures
        tree_on(g, s),
{
    g.lemma_linked_symmetric(a, b);
    assert forall|root: int| 0 <= root < g.n() && #[trigger] s(root) implies exists|par: Seq<int>, rk: Seq<nat>| region_witness(g, s, par, rk, root) by {
        if s1(root) {
            assert(s1(root));
            assert(s2(b));
            let (p1, r1) = choose|par: Seq<int>, rk: Seq<nat>| region_witness(g, s1, par, rk, root);
            let (p2, r2) = choose|par: Seq<int>, rk: Seq<nat>| region_witness(g, s2, par, rk, b);
            let par = Seq::new(g.n() as nat, |v: int| if s2(v) { if v == b { a } else { p2[v] } } else { p1[v] });
            let rk = Seq::new(g.n() as nat, |v: int| if s2(v) { r2[v] + r1[a] + 1 } else { r1[v] });
            assert forall|v: int| 0 <= v < g.n() && s(v) && v != root implies 0 <= #[trigger] par[v] < g.n() && s(par[v]) && g.linked(v, par[v])
                && rk[par[v]] < rk[v] by {
                if s2(v) && v != b {
                    assert(s2(p2[v]));
                }
            }
            assert forall|u: int, v: int| s(u) && s(v) && #[trigger] g.linked(u, v) implies par[u] == v || par[v] == u by {
                g.lemma_linked_symmetric(u, v);
                if s1(u) && s2(v) {
                    assert(u == a && v == b);
                } else if s2(u) && s1(v) {
                    assert(g.linked(v, u));
                    assert(v == a && u == b);
                } else if s1(u) && s1(v) {
                    assert(p1[u] == v || p1[v] == u);
                } else {
                    assert(p2[u] == v || p2[v] == u);
                }
            }
            assert(region_witness(g, s, par, rk, root));
        } else {
            assert(s2(root));
            let (p1, r1) = choose|par: Seq<int>, rk: Seq<nat>| region_witness(g, s1, par, rk, a);
            let (p2, r2) = choose|par: Seq<int>, rk: Seq<nat>| region_witness(g, s2, par, rk, root);
            let par = Seq::new(g.n() as nat, |v: int| if s1(v) { if v == a { b } else { p1[v] } } else { p2[v] });
            let rk = Seq::new(g.n() as nat, |v: int| if s1(v) { r1[v] + r2[b] + 1 } else { r2[v] });
            assert forall|v: int| 0 <= v < g.n() && s(v) && v != root implies 0 <= #[trigger] par[v] < g.n() && s(par[v]) && g.linked(v, par[v])
                && rk[par[v]] < rk[v] by {
                if s1(v) && v != a {
                    assert(s1(p1[v]));
                }
            }
            assert forall|u: int, v: int| s(u) && s(v) && #[trigger] g.linked(u, v) implies par[u] == v || par[v] == u by {
                g.lemma_linked_symmetric(u, v);
                if s1(u) && s2(v) {
                    assert(u == a && v == b);
                } else if s2(u) && s1(v) {
                    assert(g.linked(v, u));
                    assert(v == a && u == b);
                } else if s1(u) && s1(v) {
                    assert(p1[u] == v || p1[v] == u);
                } else {
                    assert(p2[u] == v || p2[v] == u);
                }
            }
            assert(region_witness(g, s, par, rk, root));
        }
    }
}

/// A tree over every cell is a perfect maze.
pub proof fn lemma_tree_on_all(g: &Grid, s: spec_fn(int) -> bool)
    requires
        g.wf(),
        tree_on(g, s),
        forall|v: int| 0 <= v < g.n() ==> #[trigger] s(v),
    ensures
        is_perfect_maze(g),
{
    g.lemma_nonempty();
    assert(s(0));
    let (par, rk) = choose|par: Seq<int>, rk: Seq<nat>| region_witness(g, s, par, rk, 0);
    let par2 = par.update(0, 0);
    assert forall|v: int| 0 <= v < g.n() && v != 0 implies 0 <= #[trigger] par2[v] < g.n() && g.linked(v, par2[v]) && rk[par2[v]] < rk[v] by {
        assert(s(v));
    }
    assert forall|u: int, v: int| #[trigger] g.linked(u, v) implies par2[u] == v || par2[v] == u by {
        g.lemma_linked_symmetric(u, v);
        assert(s(u) && s(v));
        assert(u != v);
        if u == 0 {
            assert(par[v] == u);
        } else if v == 0 {
            assert(par[u] == v);
        }
    }
    assert(tree_witness(g, par2, rk, 0));
}

/// Joining an unvisited neighbour `t` of the visited cell `u` grows the tree.
pub proof fn lemma_grow(
    g: &Grid,
    g2: &Grid,
    visited: Seq<bool>,
    parent: Seq<int>,
    rank: Seq<nat>,
    root: int,
    u: int,
    t: int,
)
    requires
        g.wf(),
        grown_tree(g, visited, parent, rank, root),
        g.adjacent(u, t),
        visited[u],
        !visited[t],
        g2.same_shape(g),
        g2.inner@ == with_link(g.inner@, g.width as int, u, dir_between(u, t, g.width as int), true) || g2.inner@
            == with_link(g.inner@, g.width as int, t, dir_between(t, u, g.width as int), true),
    ensures
        grown_tree(g2, visited.update(t, true), parent.update(t, u), rank.update(t, rank[u] + 1), root),
{
    lemma_link_added(g, g2, u, t);
    let v2 = visited.update(t, true);
    let p2 = parent.update(t, u);
    let r2 = rank.update(t, rank[u] + 1);
    assert forall|v: int|
        0 <= v < g2.n() && v2[v] && v != root implies 0 <= #[trigger] p2[v] < g2.n() && v2[p2[v]] && g2.linked(v, p2[v]) && r2[p2[v]]
        < r2[v] by {
        if v != t {
            assert(parent[v] != t);
            assert(g.linked(v, parent[v]));
        }
    }
    assert forall|a: int, b: int| #[trigger] g2.linked(a, b) implies v2[a] && v2[b] && (p2[a] == b || p2[b] == a) by {
        if g.linked(a, b) {
            assert(visited[a] && visited[b]);
        }
    }
}

/// The passages form a tree over some of the cells; the other cells have no
/// passage.
pub open spec fn is_partial_tree(g: &Grid) -> bool {
    exists|visited: Seq<bool>, parent: Seq<int>, rank: Seq<nat>, root: int| grown_tree(g, visited, parent, rank, root)
}

/// A tree over some cells in which every cell has a passage is a perfect
/// maze.
pub proof fn lemma_partial_tree_complete(g: &Grid)
    requires
        g.wf(),
        is_partial_tree(g),
        forall|k: int| 0 <= k < g.n() ==> crate::grid::degree(#[trigger] g.cell(k)) > 0,
    ensures
        is_perfect_maze(g),
{
    let (visited, parent, rank, root) = choose|visited: Seq<bool>, parent: Seq<int>, rank: Seq<nat>, root: int|
        grown_tree(g, visited, parent, rank, root);
    let w = g.width as int;
    assert forall|v: int| 0 <= v < g.n() implies #[trigger] visited[v] by {
        g.lemma_cell(v);
        let c = g.cell(v);
        if c.north_connected {
            assert(g.linked(v, v - w));
        } else if c.south_connected {
            assert(g.linked(v, v + w));
        } else if c.east_connected {
            assert(g.linked(v, v + 1));
        } else {
            assert(g.linked(v, v - 1));
        }
    }
    lemma_grown_tree_perfect(g, visited, parent, rank, root);
}

/// A tree over every cell is a perfect maze.
pub proof fn lemma_grown_tree_perfect(g: &Grid, visited: Seq<bool>, parent: Seq<int>, rank: Seq<nat>, root: int)
    requires
        g.wf(),
        grown_tree(g, visited, parent, rank, root),
        forall|v: int| 0 <= v < g.n() ==> #[trigger] visited[v],
    ensures
        is_perfect_maze(g),
{
    assert(tree_witness(g, parent, rank, root));
}

/// A set of cells that holds cell 0 and every 4-neighbour of its cells holds
/// every cell.
pub proof fn lemma_region_covers_grid(g: &Grid, region: Seq<bool>)
    requires
        g.wf(),
        region.len() == g.n(),
        region[0],
        forall|c: int, j: int| 0 <= c < g.n() && region[c] && #[trigger] g.adjacent(c, j) ==> region[j],
    ensures
        forall|v: int| 0 <= v < g.n() ==> #[trigger] region[v],
{
    let w = g.width as int;
    let h = g.height as int;
    assert forall|col: int| 0 <= col < w implies #[trigger] region[col] by {
        lemma_first_row(g, region, col);
    }
    assert forall|v: int| 0 <= v < g.n() implies #[trigger] region[v] by {
        lemma_div_mod(v, w);
        lemma_steps(v, w, h);
        lemma_column(g, region, v / w, v % w);
        lemma_index(v / w, v % w, w, h);
        assert(v / w * w + v % w == v) by (nonlinear_arith)
            requires
                v == w * (v / w) + v % w,
        ;
    }
}

/// A set of cells closed under 4-neighbours that holds some cell holds every
/// cell.
pub proof fn lemma_region_covers_grid_from(g: &Grid, region: Seq<bool>, s: int)
    requires
        g.wf(),
        region.len() == g.n(),
        0 <= s < g.n(),
        region[s],
        forall|c: int, j: int| 0 <= c < g.n() && region[c] && #[trigger] g.adjacent(c, j) ==> region[j],
    ensures
        forall|v: int| 0 <= v < g.n() ==> #[trigger] region[v],
{
    if !region[0] {
        let other = Seq::new(region.len(), |k: int| !region[k]);
        assert forall|c: int, j: int| 0 <= c < g.n() && other[c] && #[trigger] g.adjacent(c, j) implies other[j] by {
            lemma_steps(c, g.width as int, g.height as int);
            lemma_steps(j, g.width as int, g.height as int);
            assert(g.adjacent(j, c));
        }
        lemma_region_covers_grid(g, other);
        assert(other[s]);
    } else {
        lemma_region_covers_grid(g, region);
    }
}

proof fn lemma_first_row(g: &Grid, region: Seq<bool>, col: int)
    requires
        g.wf(),
        region.len() == g.n(),
        region[0],
        forall|c: int, j: int| 0 <= c < g.n() && region[c] && #[trigger] g.adjacent(c, j) ==> region[j],
        0 <= col < g.width,
    ensures
        region[col],
    decreases col,
{
    if col > 0 {
        lemma_first_row(g, region, col - 1);
        lemma_index(0, col - 1, g.width as int, g.height as int);
        lemma_index(0, col, g.width as int, g.height as int);
        assert(g.adjacent(col - 1, col));
    }
}

proof fn lemma_column(g: &Grid, region: Seq<bool>, row: int, col: int)
    requires
        g.wf(),
        region.len() == g.n(),
        forall|c: int| 0 <= c < g.width ==> #[trigger] region[c],
        forall|c: int, j: int| 0 <= c < g.n() && region[c] && #[trigger] g.adjacent(c, j) ==> region[j],
        0 <= row < g.height,
        0 <= col < g.width,
    ensures
        region[row * g.width + col],
    decreases row,
{
    let w = g.width as int;
    let h = g.height as int;
    lemma_index(row, col, w, h);
    if row > 0 {
        lemma_column(g, region, row - 1, col);
        lemma_index(row - 1, col, w, h);
        let above = (row - 1) * w + col;
        lemma_steps(above, w, h);
        assert((row - 1) * w + col + w == row * w + col) by (nonlinear_arith);
        assert(g.adjacent(above, above + w));
    } else {
        assert(row * w + col == col) by (nonlinear_arith)
            requires
                row == 0,
        ;
    }
}

/// A forest whose trees are the sets of `uf`: each cell points to a cell it
/// is joined to, with a lower rank, or is the one root of its set; every
/// passage is a pointer.
pub open spec fn uf_forest(g: &Grid, uf: &DisjointSet, par: Seq<int>, rk: Seq<nat>) -> bool {
    &&& par.len() == g.n()
    &&& rk.len() == g.n()
    &&& uf@.len() == g.n()
    &&& forall|v: int|
        0 <= v < g.n() ==> 0 <= #[trigger] par[v] < g.n() && (par[v] == v || (g.linked(v, par[v]) && rk[par[v]] < rk[v]))
    &&& forall|u: int, v: int| #[trigger] g.linked(u, v) ==> par[u] == v || par[v] == u
    &&& forall|v: int| 0 <= v < g.n() ==> #[trigger] uf.same(v, par[v])
    &&& forall|x: int, y: int|
        0 <= x < g.n() && 0 <= y < g.n() && #[trigger] uf.same(x, y) && par[x] == x && par[y] == y ==> x == y
}

/// The forest depends on the sets only through the view.
pub proof fn lemma_forest_view(g: &Grid, u1: &DisjointSet, u2: &DisjointSet, par: Seq<int>, rk: Seq<nat>)
    requires
        uf_forest(g, u1, par, rk),
        u1@ == u2@,
    ensures
        uf_forest(g, u2, par, rk),
{
    assert forall|v: int| 0 <= v < g.n() implies #[trigger] u2.same(v, par[v]) by {
        assert(u1.same(v, par[v]));
    }
    assert forall|x: int, y: int| 0 <= x < g.n() && 0 <= y < g.n() && #[trigger] u2.same(x, y) && par[x] == x && par[y] == y implies x == y by {
        assert(u1.same(x, y));
    }
}

/// The pointers from `v` up to its root.
proof fn lemma_forest_chain(g: &Grid, uf: &DisjointSet, par: Seq<int>, rk: Seq<nat>, v: int) -> (q: Seq<int>)
    requires
        uf_forest(g, uf, par, rk),
        uf.wf(),
        0 <= v < g.n(),
    ensures
        q.len() >= 1,
        q[0] == v,
        par[q.last()] == q.last(),
        forall|j: int| 0 <= j < q.len() ==> 0 <= #[trigger] q[j] < g.n() && uf.same(v, q[j]),
        forall|j: int| 0 <= j < q.len() - 1 ==> #[trigger] par[q[j]] == q[j + 1] && par[q[j]] != q[j],
        forall|j: int, k: int| 0 <= j < k < q.len() ==> #[trigger] rk[q[k]] < #[trigger] rk[q[j]],
    decreases rk[v],
{
    uf.lemma_view_len();
    if par[v] == v {
        seq![v]
    } else {
        let rest = lemma_forest_chain(g, uf, par, rk, par[v]);
        let q = seq![v] + rest;
        assert forall|j: int| 0 <= j < q.len() implies 0 <= #[trigger] q[j] < g.n() && uf.same(v, q[j]) by {
            if j > 0 {
                assert(q[j] == rest[j - 1]);
                assert(uf.same(par[v], rest[j - 1]));
                assert(uf.same(v, par[v]));
            }
        }
        assert forall|j: int| 0 <= j < q.len() - 1 implies #[trigger] par[q[j]] == q[j + 1] && par[q[j]] != q[j] by {
            if j > 0 {
                assert(q[j] == rest[j - 1]);
                assert(q[j + 1] == rest[j]);
                assert(par[rest[j - 1]] == rest[(j - 1) + 1]);
            }
        }
        assert forall|j: int, k: int| 0 <= j < k < q.len() implies #[trigger] rk[q[k]] < #[trigger] rk[q[j]] by {
            assert(q[k] == rest[k - 1]);
            if j > 0 {
                assert(q[j] == rest[j - 1]);
            } else if k > 1 {
                assert(rk[rest[k - 1]] < rk[rest[0]]);
            }
        }
        q
    }
}

/// Cell `x` lies on the chain `q`.
pub open spec fn on_chain(q: Seq<int>, x: int) -> bool {
    exists|j: int| 0 <= j < q.len() && #[trigger] q[j] == x
}

pub open spec fn chain_index(q: Seq<int>, x: int) -> int {
    choose|j: int| 0 <= j < q.len() && #[trigger] q[j] == x
}

/// The pointers after the passage from `a` to `b` joins two trees: the
/// chain from `b` to its root is turned round and `b` points to `a`.
pub open spec fn joined_par(par: Seq<int>, q: Seq<int>, a: int) -> Seq<int> {
    Seq::new(par.len(), |x: int| if on_chain(q, x) { if chain_index(q, x) == 0 { a } else { q[chain_index(q, x) - 1] } } else { par[x] })
}

pub open spec fn joined_rk(rk: Seq<nat>, uf: &DisjointSet, q: Seq<int>, a: int, b: int) -> Seq<nat> {
    Seq::new(
        rk.len(),
        |x: int|
            if !uf.same(x, b) {
                rk[x]
            } else if on_chain(q, x) {
                (rk[a] + 1 + chain_index(q, x)) as nat
            } else {
                (rk[x] + rk[a] + 1 + q.len()) as nat
            },
    )
}

/// Opening the passage between cells of two different trees and merging
/// their sets keeps a forest.
pub proof fn lemma_forest_join(
    gb: &Grid,
    g: &Grid,
    ufb: &DisjointSet,
    uf: &DisjointSet,
    par: Seq<int>,
    rk: Seq<nat>,
    a: int,
    b: int,
) -> (r: (Seq<int>, Seq<nat>))
    requires
        gb.wf(),
        ufb.wf(),
        uf_forest(gb, ufb, par, rk),
        gb.adjacent(a, b),
        !ufb.same(a, b),
        uf.merged(ufb, a, b),
        g.same_shape(gb),
        g.inner@ == with_link(gb.inner@, gb.width as int, a, dir_between(a, b, gb.width as int), true) || g.inner@
            == with_link(gb.inner@, gb.width as int, b, dir_between(b, a, gb.width as int), true),
    ensures
        uf_forest(g, uf, r.0, r.1),
{
    ufb.lemma_view_len();
    let n = gb.n();
    lemma_link_added(gb, g, a, b);
    let q = lemma_forest_chain(gb, ufb, par, rk, b);
    let p2 = joined_par(par, q, a);
    let r2 = joined_rk(rk, ufb, q, a, b);
    let d = q.len() - 1;
    // chain facts
    assert forall|j: int| 0 <= j < q.len() implies chain_index(q, #[trigger] q[j]) == j by {
        assert(on_chain(q, q[j]));
        let c = chain_index(q, q[j]);
        if c != j {
            if c < j {
                assert(rk[q[j]] < rk[q[c]]);
            } else {
                assert(rk[q[c]] < rk[q[j]]);
            }
        }
    }
    assert forall|x: int| 0 <= x < n && on_chain(q, x) implies ufb.same(x, b) by {
        let j = chain_index(q, x);
        assert(ufb.same(b, q[j]));
    }
    assert(!ufb.same(a, b));
    assert(!on_chain(q, a));
    // a root of b's set lies at the end of the chain
    assert forall|x: int| 0 <= x < n && ufb.same(x, b) && par[x] == x implies x == q[d] by {
        assert(ufb.same(b, q[d]));
        assert(ufb.same(x, q[d]));
    }
    assert forall|v: int| 0 <= v < n implies 0 <= #[trigger] p2[v] < n && (p2[v] == v || (g.linked(v, p2[v]) && r2[p2[v]] < r2[v])) by {
        if on_chain(q, v) {
            let j = chain_index(q, v);
            assert(q[j] == v);
            if j == 0 {
                assert(g.linked(b, a));
            } else {
                assert(par[q[j - 1]] == q[(j - 1) + 1]);
                assert(gb.linked(q[j - 1], par[q[j - 1]]));
                gb.lemma_linked_symmetric(q[j - 1], q[j]);
                assert(ufb.same(q[j - 1], b));
                assert(chain_index(q, q[j - 1]) == j - 1);
            }
        } else {
            assert(par[v] == v || (gb.linked(v, par[v]) && rk[par[v]] < rk[v]));
            assert(ufb.same(v, par[v]));
            if par[v] != v && ufb.same(v, b) {
                assert(ufb.same(par[v], b));
                if on_chain(q, par[v]) {
                    let j = chain_index(q, par[v]);
                    assert(j <= d);
                }
            }
            if par[v] != v && !ufb.same(v, b) {
                assert(!ufb.same(par[v], b));
            }
        }
    }
    assert forall|u: int, v: int| #[trigger] g.linked(u, v) implies p2[u] == v || p2[v] == u by {
        if gb.linked(u, v) {
            gb.lemma_linked_symmetric(u, v);
            if par[u] == v {
                if on_chain(q, u) {
                    let j = chain_index(q, u);
                    assert(q[j] == u);
                    if j < d {
                        assert(par[q[j]] == q[j + 1]);
                        assert(chain_index(q, q[j + 1]) == j + 1);
                    } else {
                        assert(par[q[d]] == q[d]);
                    }
                }
            } else {
                assert(par[v] == u);
                if on_chain(q, v) {
                    let j = chain_index(q, v);
                    assert(q[j] == v);
                    if j < d {
                        assert(par[q[j]] == q[j + 1]);
                        assert(chain_index(q, q[j + 1]) == j + 1);
                    } else {
                        assert(par[q[d]] == q[d]);
                    }
                }
            }
        } else {
            assert(chain_index(q, q[0]) == 0);
        }
    }
    assert forall|v: int| 0 <= v < n implies #[trigger] uf.same(v, p2[v]) by {
        if on_chain(q, v) {
            let j = chain_index(q, v);
            if j > 0 {
                assert(ufb.same(q[j - 1], b));
                assert(ufb.same(v, b));
            }
        } else {
            assert(ufb.same(v, par[v]));
        }
    }
    assert forall|x: int, y: int| 0 <= x < n && 0 <= y < n && #[trigger] uf.same(x, y) && p2[x] == x && p2[y] == y implies x == y by {
        if on_chain(q, x) {
            let j = chain_index(q, x);
            if j > 0 {
                assert(q[j - 1] != q[j]);
            }
        }
        if on_chain(q, y) {
            let j = chain_index(q, y);
            if j > 0 {
                assert(q[j - 1] != q[j]);
            }
        }
        assert(par[x] == x && par[y] == y);
        assert(!ufb.same(x, b)) by {
            if ufb.same(x, b) {
                assert(x == q[d]);
            }
        }
        assert(!ufb.same(y, b)) by {
            if ufb.same(y, b) {
                assert(y == q[d]);
            }
        }
        if ufb.same(x, a) {
            assert(!ufb.same(y, b));
        }
        assert(ufb.same(x, y));
    }
    (p2, r2)
}

/// A forest whose sets are all one is a perfect maze.
pub proof fn lemma_forest_single(g: &Grid, uf: &DisjointSet, par: Seq<int>, rk: Seq<nat>)
    requires
        g.wf(),
        uf.wf(),
        uf_forest(g, uf, par, rk),
        forall|v: int| 0 <= v < g.n() ==> #[trigger] uf.same(0, v),
    ensures
        is_perfect_maze(g),
{
    g.lemma_nonempty();
    let q = lemma_forest_chain(g, uf, par, rk, 0);
    let root = q.last();
    assert forall|v: int| 0 <= v < g.n() && v != root implies 0 <= #[trigger] par[v] < g.n() && g.linked(v, par[v]) && rk[par[v]] < rk[v] by {
        if par[v] == v {
            assert(uf.same(0, v));
            assert(uf.same(0, root));
            assert(uf.same(v, root));
        }
    }
    assert(tree_witness(g, par, rk, root));
}

} // verus!
