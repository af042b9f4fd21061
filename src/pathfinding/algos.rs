//! The search strategies: A* (uniform-cost and greedy best-first as special
//! cases), depth-first search, and single-source shortest path lengths.

use vstd::prelude::*;
use crate::grid::{Grid, is_route, reachable, lemma_closed_region};
use crate::mazegen::{count_where, lemma_count_mono, lemma_count_update};
use crate::pathfinding::diagnostic_map::{DiagMap, DiagStatus, FinalizedDiagMap, sum, lemma_push_contains};
use crate::pathfinding::heuristics::{manhattan, manhattan_h, null_h};

verus! {

/// A search's result: the path from start to goal inclusive, the diagnostic
/// map, and the number of generation and expansion events.
pub struct PathData {
    pub path: Vec<usize>,
    pub diag: FinalizedDiagMap,
    pub nodes_generated: usize,
    pub nodes_expanded: usize,
}

/// `q` starts at `start`, steps only through open passages, and visits no
/// cell twice.
pub open spec fn is_walk(grid: &Grid, q: Seq<usize>, start: int) -> bool {
    &&& q.len() >= 1
    &&& q[0] == start
    &&& forall|k: int| 0 <= k < q.len() ==> (#[trigger] q[k]) < grid.n()
    &&& forall|k: int| 0 <= k < q.len() - 1 ==> #[trigger] grid.linked(q[k] as int, q[k + 1] as int)
    &&& q.no_duplicates()
}

/// `q` is a path of the grid from `start` to `goal`, both included.
pub open spec fn is_path(grid: &Grid, q: Seq<usize>, start: int, goal: int) -> bool {
    is_walk(grid, q, start) && q.last() == goal
}

/// Distinct cell indices number at most the cells.
pub proof fn lemma_distinct_len(q: Seq<usize>, n: int)
    requires
        q.no_duplicates(),
        n >= 0,
        forall|k: int| 0 <= k < q.len() ==> (#[trigger] q[k]) < n,
    ensures
        q.len() <= n,
{
    let qi = q.map_values(|x: usize| x as int);
    assert forall|a: int, b: int| 0 <= a < qi.len() && 0 <= b < qi.len() && a != b implies qi[a] != qi[b] by {
        assert(q[a] != q[b]);
    }
    assert(qi.no_duplicates());
    qi.unique_seq_to_set();
    if q.len() > 0 {
        assert(q[0] < n);
        let r = vstd::set_lib::set_int_range(0, n);
        vstd::set_lib::lemma_int_range(0, n);
        assert forall|x: int| qi.to_set().contains(x) implies r.contains(x) by {
            let k = choose|k: int| 0 <= k < qi.len() && qi[k] == x;
            assert(q[k] < n);
        }
        vstd::set_lib::lemma_len_subset(qi.to_set(), r);
    }
}

/// The counters and the diagnostic map of a result agree.
pub open spec fn counts_agree(d: &PathData, n: int) -> bool {
    &&& d.diag.consistent()
    &&& d.nodes_generated == sum(d.diag.num_generated_history@)
    &&& d.nodes_generated == d.diag.generated_history@.len()
    &&& d.nodes_expanded == d.diag.expanded_history@.len()
    &&& d.diag.inner@.len() == n
    &&& d.diag.num_generated_history@.len() == d.diag.expanded_history@.len()
}

/// Among the routes from `a` to `b`, one is shortest.
pub proof fn lemma_shortest_route(grid: &Grid, q: Seq<usize>, a: int, b: int) -> (r: Seq<usize>)
    requires
        is_route(grid, q, a, b),
    ensures
        is_route(grid, r, a, b),
        r.len() <= q.len(),
        forall|q2: Seq<usize>| #[trigger] is_route(grid, q2, a, b) ==> r.len() <= q2.len(),
    decreases q.len(),
{
    if exists|q2: Seq<usize>| #[trigger] is_route(grid, q2, a, b) && q2.len() < q.len() {
        let q2 = choose|q2: Seq<usize>| #[trigger] is_route(grid, q2, a, b) && q2.len() < q.len();
        lemma_shortest_route(grid, q2, a, b)
    } else {
        q
    }
}

/// The tail of a route from its `j`-th cell is a route.
proof fn lemma_route_suffix(grid: &Grid, x: Seq<usize>, a: int, b: int, j: int)
    requires
        is_route(grid, x, a, b),
        0 <= j < x.len(),
    ensures
        is_route(grid, x.subrange(j, x.len() as int), x[j] as int, b),
{
    let t = x.subrange(j, x.len() as int);
    assert forall|k: int| 0 <= k < t.len() - 1 implies #[trigger] grid.linked(t[k] as int, t[k + 1] as int) by {
        assert(t[k] == x[j + k]);
        assert(t[k + 1] == x[j + k + 1]);
        assert(grid.linked(x[j + k] as int, x[(j + k) + 1] as int));
    }
}

/// A route to the `j`-th cell of another route, followed by the rest of it,
/// is a route.
proof fn lemma_route_splice(grid: &Grid, wk: Seq<usize>, x: Seq<usize>, a: int, b: int, j: int)
    requires
        is_route(grid, x, a, b),
        0 <= j < x.len(),
        is_route(grid, wk, a, x[j] as int),
    ensures
        is_route(grid, wk + x.subrange(j + 1, x.len() as int), a, b),
{
    let t = x.subrange(j + 1, x.len() as int);
    let r = wk + t;
    assert forall|k: int| 0 <= k < r.len() - 1 implies #[trigger] grid.linked(r[k] as int, r[k + 1] as int) by {
        if k < wk.len() - 1 {
            assert(grid.linked(wk[k] as int, wk[k + 1] as int));
        } else if k == wk.len() - 1 {
            assert(r[k] == x[j]);
            assert(r[k + 1] == x[j + 1]);
            assert(grid.linked(x[j] as int, x[j + 1] as int));
        } else {
            let m = k - wk.len() + j + 1;
            assert(r[k] == x[m]);
            assert(r[k + 1] == x[m + 1]);
            assert(grid.linked(x[m] as int, x[m + 1] as int));
        }
    }
    if t.len() == 0 {
        assert(x.last() == x[j]);
    } else {
        assert(r.last() == x.last());
    }
}

/// The first cell of `x`, from index `i` on, not expanded at its place on
/// the route.
proof fn lemma_first_unsettled(x: Seq<usize>, exp: Seq<int>, i: int) -> (j: int)
    requires
        0 <= i < x.len(),
        forall|t: int| 0 <= t < x.len() ==> (#[trigger] x[t]) < exp.len(),
        forall|t: int| 0 <= t < i ==> exp[#[trigger] x[t] as int] == t + 1,
        exp[x[x.len() - 1] as int] != x.len(),
    ensures
        i <= j < x.len(),
        exp[x[j] as int] != j + 1,
        forall|t: int| 0 <= t < j ==> exp[#[trigger] x[t] as int] == t + 1,
    decreases x.len() - i,
{
    if exp[x[i] as int] != i + 1 {
        i
    } else {
        lemma_first_unsettled(x, exp, i + 1)
    }
}

/// A walk without repeated cells has at most one entry per cell.
pub proof fn lemma_walk_len(grid: &Grid, q: Seq<usize>, start: int)
    requires
        is_walk(grid, q, start),
    ensures
        q.len() <= grid.n(),
{
    let qi = q.map_values(|x: usize| x as int);
    assert forall|a: int, b: int| 0 <= a < qi.len() && 0 <= b < qi.len() && a != b implies qi[a] != qi[b] by {
        assert(q[a] != q[b]);
    }
    assert(qi.no_duplicates());
    qi.unique_seq_to_set();
    let r = vstd::set_lib::set_int_range(0, grid.n());
    assert(grid.n() >= 0) by {
        assert(q[0] < grid.n());
    }
    vstd::set_lib::lemma_int_range(0, grid.n());
    assert forall|x: int| qi.to_set().contains(x) implies r.contains(x) by {
        let k = choose|k: int| 0 <= k < qi.len() && qi[k] == x;
        assert(q[k] < grid.n());
    }
    vstd::set_lib::lemma_len_subset(qi.to_set(), r);
}

pub proof fn lemma_sum_update(s: Seq<usize>, k: int, v: usize)
    requires
        0 <= k < s.len(),
    ensures
        sum(s.update(k, v)) == sum(s) - s[k] + v,
        sum(s) >= 0,
    decreases s.len(),
{
    let t = s.update(k, v);
    if k == s.len() - 1 {
        assert(t.drop_last() =~= s.drop_last());
        lemma_sum_nonneg(s.drop_last());
    } else {
        assert(t.drop_last() =~= s.drop_last().update(k, v));
        lemma_sum_update(s.drop_last(), k, v);
    }
}

pub proof fn lemma_sum_nonneg(s: Seq<usize>)
    ensures
        sum(s) >= 0,
    decreases s.len(),
{
    if s.len() > 0 {
        lemma_sum_nonneg(s.drop_last());
    }
}

fn copy_path(v: &Vec<usize>) -> (r: Vec<usize>)
    ensures
        r@ == v@,
{
    let mut r: Vec<usize> = Vec::with_capacity(v.len());
    let mut k: usize = 0;
    while k < v.len()
        invariant
            k <= v@.len(),
            r@ == v@.subrange(0, k as int),
        decreases v@.len() - k,
    {
        r.push(v[k]);
        k = k + 1;
        assert(r@ =~= v@.subrange(0, k as int));
    }
    assert(v@.subrange(0, v@.len() as int) =~= v@);
    r
}

struct PriorityNode {
    priority: usize,
    i: usize,
    /// The cells before `i`, from the start.
    path: Vec<usize>,
}

/// A frontier entry of A*: its walk is valid, and every cell on it, `i`
/// included, has a best known length no worse than its place on the walk.
spec fn entry_ok(grid: &Grid, closed: Seq<usize>, e: PriorityNode, start: int) -> bool {
    let q = e.path@.push(e.i);
    &&& is_walk(grid, q, start)
    &&& forall|p: int| 0 <= p < q.len() ==> closed[#[trigger] q[p] as int] <= p + 1
}

proof fn lemma_entry_ok_mono(grid: &Grid, c1: Seq<usize>, c2: Seq<usize>, e: PriorityNode, start: int)
    requires
        entry_ok(grid, c1, e, start),
        c1.len() == grid.n(),
        c2.len() == c1.len(),
        forall|x: int| 0 <= x < c1.len() ==> #[trigger] c2[x] <= c1[x],
    ensures
        entry_ok(grid, c2, e, start),
{
    let q = e.path@.push(e.i);
    assert forall|p: int| 0 <= p < q.len() implies c2[#[trigger] q[p] as int] <= p + 1 by {
        assert(q[p] < grid.n());
        assert(c1[q[p] as int] <= p + 1);
    }
}

/// The estimate `h` never exceeds the steps of a route to the goal.
pub open spec fn admissible<F: Fn(usize, usize, usize) -> usize>(grid: &Grid, h: F, goal: int) -> bool {
    forall|i: usize, v: usize, q: Seq<usize>|
        i < grid.n() && #[trigger] h.ensures((i, goal as usize, grid.width), v) && #[trigger] is_route(grid, q, i as int, goal) ==> v < q.len()
}

/// One step through a passage changes the Manhattan distance to the goal by
/// at most one.
proof fn lemma_manhattan_step(grid: &Grid, u: int, v: int, goal: int)
    requires
        grid.wf(),
        grid.linked(u, v),
        0 <= goal < grid.n(),
    ensures
        manhattan(u, goal, grid.width as int) <= manhattan(v, goal, grid.width as int) + 1,
{
    let w = grid.width as int;
    let h = grid.height as int;
    grid.lemma_linked_symmetric(u, v);
    grid.lemma_cell(u);
    crate::grid::lemma_steps(u, w, h);
}

/// The Manhattan distance never exceeds the steps of a route.
pub proof fn lemma_manhattan_route(grid: &Grid, q: Seq<usize>, i: int, goal: int)
    requires
        grid.wf(),
        0 <= goal < grid.n(),
        is_route(grid, q, i, goal),
    ensures
        manhattan(i, goal, grid.width as int) < q.len(),
    decreases q.len(),
{
    if q.len() == 1 {
        assert(i == goal);
    } else {
        let t = q.drop_first();
        assert forall|k: int| 0 <= k < t.len() - 1 implies #[trigger] grid.linked(t[k] as int, t[k + 1] as int) by {
            assert(grid.linked(q[k + 1] as int, q[(k + 1) + 1] as int));
        }
        lemma_manhattan_route(grid, t, t[0] as int, goal);
        assert(grid.linked(q[0int] as int, q[0int + 1] as int));
        lemma_manhattan_step(grid, i, q[1] as int, goal);
    }
}

/// The Manhattan estimate is admissible: A* with it returns a shortest path.
pub proof fn lemma_manhattan_h_admissible(grid: &Grid, goal: int)
    requires
        grid.wf(),
        0 <= goal < grid.n(),
    ensures
        admissible(grid, manhattan_h, goal),
{
    assert forall|i: usize, v: usize, q: Seq<usize>|
        i < grid.n() && #[trigger] manhattan_h.ensures((i, goal as usize, grid.width), v) && #[trigger] is_route(grid, q, i as int, goal) implies v < q.len() by {
        lemma_manhattan_route(grid, q, i as int, goal);
    }
}

/// The zero estimate is admissible: uniform-cost search returns a shortest
/// path.
pub proof fn lemma_null_h_admissible(grid: &Grid, goal: int)
    ensures
        admissible(grid, null_h, goal),
{
    assert forall|i: usize, v: usize, q: Seq<usize>|
        i < grid.n() && #[trigger] null_h.ensures((i, goal as usize, grid.width), v) && #[trigger] is_route(grid, q, i as int, goal) implies v < q.len() by {
    }
}

/// Two paths from `start` to `goal` that are each no longer than any route
/// (as uniform-cost search and A* return) have the same length.
pub proof fn lemma_shortest_paths_same_length(grid: &Grid, p1: Seq<usize>, p2: Seq<usize>, start: int, goal: int)
    requires
        is_path(grid, p1, start, goal),
        is_path(grid, p2, start, goal),
        forall|q: Seq<usize>| #[trigger] is_route(grid, q, start, goal) ==> p1.len() <= q.len(),
        forall|q: Seq<usize>| #[trigger] is_route(grid, q, start, goal) ==> p2.len() <= q.len(),
    ensures
        p1.len() == p2.len(),
{
    assert(is_route(grid, p1, start, goal));
    assert(is_route(grid, p2, start, goal));
}

/// The priority of an A* entry: its walk length in cells (0 for the start
/// entry) plus an estimate `h` gave for its cell.
spec fn prio_ok<F: Fn(usize, usize, usize) -> usize>(grid: &Grid, h: F, goal: int, e: PriorityNode) -> bool {
    exists|v: usize|
        #[trigger] h.ensures((e.i, goal as usize, grid.width), v) && e.priority == (if e.path@.len() == 0 {
            0
        } else {
            e.path@.len() + 1
        }) + v
}

/// What A* keeps for its optimality: each best known length has a walk; a
/// cell is expanded at its best known length or waits in the frontier at it;
/// an expanded cell's neighbours are at most one cell further; the goal is
/// never expanded; the start is expanded first, at length 1.
spec fn opt_inv<F: Fn(usize, usize, usize) -> usize>(
    grid: &Grid,
    h: F,
    greedy: bool,
    start: int,
    goal: int,
    closed: Seq<usize>,
    open: Seq<PriorityNode>,
    exp: Seq<int>,
    wit: Map<int, Seq<usize>>,
) -> bool {
    &&& exp.len() == grid.n()
    &&& forall|v: int| 0 <= v < grid.n() ==> #[trigger] exp[v] <= grid.n()
    &&& forall|v: int|
        0 <= v < grid.n() && #[trigger] closed[v] < usize::MAX ==> wit.contains_key(v) && is_walk(grid, wit[v], start) && wit[v].last()
            == v && wit[v].len() == closed[v]
    &&& forall|v: int|
        0 <= v < grid.n() && #[trigger] closed[v] < usize::MAX ==> exp[v] == closed[v] || exists|k: int|
            0 <= k < open.len() && (#[trigger] open[k]).i == v && open[k].path@.len() + 1 == closed[v]
    &&& forall|v: int, j: int| 0 <= v < grid.n() && exp[v] >= 1 && #[trigger] grid.linked(v, j) ==> closed[j] <= exp[v] + 1
    &&& exp[goal] == -1
    &&& exp[start] == 1 || (open.len() == 1 && open[0].i == start && open[0].path@.len() == 0)
    &&& forall|k: int| 0 <= k < open.len() && (#[trigger] open[k]).i == start ==> open[k].path@.len() == 0
    &&& !greedy ==> forall|k: int| 0 <= k < open.len() ==> prio_ok(grid, h, goal, #[trigger] open[k])
}

/// `opt_inv` while cell `i` is being expanded: `i` may lack its frontier
/// entry, and the start is expanded or is `i`.
spec fn opt_mid<F: Fn(usize, usize, usize) -> usize>(
    grid: &Grid,
    h: F,
    greedy: bool,
    start: int,
    goal: int,
    closed: Seq<usize>,
    open: Seq<PriorityNode>,
    exp: Seq<int>,
    wit: Map<int, Seq<usize>>,
    i: int,
) -> bool {
    &&& exp.len() == grid.n()
    &&& forall|v: int| 0 <= v < grid.n() ==> #[trigger] exp[v] <= grid.n()
    &&& forall|v: int|
        0 <= v < grid.n() && #[trigger] closed[v] < usize::MAX ==> wit.contains_key(v) && is_walk(grid, wit[v], start) && wit[v].last()
            == v && wit[v].len() == closed[v]
    &&& forall|v: int|
        0 <= v < grid.n() && v != i && #[trigger] closed[v] < usize::MAX ==> exp[v] == closed[v] || exists|k: int|
            0 <= k < open.len() && (#[trigger] open[k]).i == v && open[k].path@.len() + 1 == closed[v]
    &&& forall|v: int, j: int| 0 <= v < grid.n() && exp[v] >= 1 && #[trigger] grid.linked(v, j) ==> closed[j] <= exp[v] + 1
    &&& exp[goal] == -1
    &&& exp[start] == 1 || i == start
    &&& forall|k: int| 0 <= k < open.len() && (#[trigger] open[k]).i == start ==> open[k].path@.len() == 0
    &&& !greedy ==> forall|k: int| 0 <= k < open.len() ==> prio_ok(grid, h, goal, #[trigger] open[k])
}

proof fn lemma_opt_pop<F: Fn(usize, usize, usize) -> usize>(
    grid: &Grid,
    h: F,
    greedy: bool,
    start: int,
    goal: int,
    closed: Seq<usize>,
    before: Seq<PriorityNode>,
    open: Seq<PriorityNode>,
    exp: Seq<int>,
    wit: Map<int, Seq<usize>>,
    idx: int,
)
    requires
        opt_inv(grid, h, greedy, start, goal, closed, before, exp, wit),
        0 <= idx < before.len(),
        open == before.update(idx, before.last()).drop_last(),
        0 <= start < closed.len(),
        closed[start] == 1,
    ensures
        opt_mid(grid, h, greedy, start, goal, closed, open, exp, wit, before[idx].i as int),
        closed[before[idx].i as int] <= before[idx].path@.len() && closed[before[idx].i as int] < usize::MAX
            ==> opt_inv(grid, h, greedy, start, goal, closed, open, exp, wit),
{
    let c = before[idx].i as int;
    assert forall|k: int| 0 <= k < open.len() implies open[k] == before[k] || (k == idx && open[k] == before[before.len() - 1]) by {}
    assert forall|v: int|
        0 <= v < grid.n() && (v != c || closed[v] <= before[idx].path@.len()) && #[trigger] closed[v] < usize::MAX implies exp[v] == closed[v]
            || exists|k: int| 0 <= k < open.len() && (#[trigger] open[k]).i == v && open[k].path@.len() + 1 == closed[v] by {
        if exp[v] != closed[v] {
            let k = choose|k: int| 0 <= k < before.len() && (#[trigger] before[k]).i == v && before[k].path@.len() + 1 == closed[v];
            if k == before.len() - 1 {
                if k != idx {
                    assert(open[idx] == before[k]);
                }
            } else {
                assert(k != idx);
                assert(open[k] == before[k]);
            }
        }
    }
    assert forall|k: int| 0 <= k < open.len() && (#[trigger] open[k]).i == start implies open[k].path@.len() == 0 by {
        if k == idx {
            assert(open[k] == before[before.len() - 1]);
        } else {
            assert(open[k] == before[k]);
        }
    }
    if !greedy {
        assert forall|k: int| 0 <= k < open.len() implies prio_ok(grid, h, goal, #[trigger] open[k]) by {
            if k == idx {
                assert(open[k] == before[before.len() - 1]);
            } else {
                assert(open[k] == before[k]);
            }
        }
    }
    if !(exp[start] == 1) {
        assert(before[0].i == start);
        assert(idx == 0);
    }
    if closed[c] <= before[idx].path@.len() && closed[c] < usize::MAX {
        if !(exp[start] == 1) {
            assert(before[0].path@.len() == 0);
        }
    }
}

/// Generating `nb` from the walk `q` of cell `i` keeps `opt_mid`.
proof fn lemma_opt_gen<F: Fn(usize, usize, usize) -> usize>(
    grid: &Grid,
    h: F,
    greedy: bool,
    start: int,
    goal: int,
    c0: Seq<usize>,
    o0: Seq<PriorityNode>,
    exp: Seq<int>,
    wit: Map<int, Seq<usize>>,
    i: int,
    nb: int,
    q: Seq<usize>,
    e: PriorityNode,
    npl: int,
    hv: usize,
)
    requires
        opt_mid(grid, h, greedy, start, goal, c0, o0, exp, wit, i),
        c0.len() == grid.n(),
        0 <= nb < grid.n(),
        nb != i,
        c0[start] == 1,
        npl >= 2,
        c0[nb] > npl,
        npl < usize::MAX,
        is_walk(grid, q.push(nb as usize), start),
        q.len() + 1 == npl,
        e.i == nb,
        e.path@ == q,
        q.len() >= 1,
        h.ensures((nb as usize, goal as usize, grid.width), hv),
        !greedy ==> e.priority == npl + hv,
    ensures
        opt_mid(grid, h, greedy, start, goal, c0.update(nb, npl as usize), o0.push(e), exp, wit.insert(nb, q.push(nb as usize)), i),
{
    let c1 = c0.update(nb, npl as usize);
    let o1 = o0.push(e);
    let w1 = wit.insert(nb, q.push(nb as usize));
    assert(nb != start);
    assert forall|v: int|
        0 <= v < grid.n() && #[trigger] c1[v] < usize::MAX implies w1.contains_key(v) && is_walk(grid, w1[v], start) && w1[v].last() == v
            && w1[v].len() == c1[v] by {
        if v != nb {
            assert(c0[v] < usize::MAX);
        }
    }
    assert forall|v: int|
        0 <= v < grid.n() && v != i && #[trigger] c1[v] < usize::MAX implies exp[v] == c1[v] || exists|k: int|
            0 <= k < o1.len() && (#[trigger] o1[k]).i == v && o1[k].path@.len() + 1 == c1[v] by {
        if v == nb {
            assert(o1[o0.len() as int] == e);
        } else if exp[v] != c1[v] {
            assert(c0[v] < usize::MAX);
            let k = choose|k: int| 0 <= k < o0.len() && (#[trigger] o0[k]).i == v && o0[k].path@.len() + 1 == c0[v];
            assert(o1[k] == o0[k]);
        }
    }
    assert forall|v: int, j: int| 0 <= v < grid.n() && exp[v] >= 1 && #[trigger] grid.linked(v, j) implies c1[j] <= exp[v] + 1 by {
        assert(c0[j] <= exp[v] + 1);
    }
    assert forall|k: int| 0 <= k < o1.len() && (#[trigger] o1[k]).i == start implies o1[k].path@.len() == 0 by {
        if k < o0.len() {
            assert(o1[k] == o0[k]);
        }
    }
    if !greedy {
        assert forall|k: int| 0 <= k < o1.len() implies prio_ok(grid, h, goal, #[trigger] o1[k]) by {
            if k < o0.len() {
                assert(o1[k] == o0[k]);
            } else {
                assert(o1[k] == e);
                assert(h.ensures((e.i, goal as usize, grid.width), hv));
            }
        }
    }
}

/// Finishing the expansion of `i` (expanded at its best known length, every
/// neighbour at most one cell further) restores `opt_inv`.
proof fn lemma_opt_expand<F: Fn(usize, usize, usize) -> usize>(
    grid: &Grid,
    h: F,
    greedy: bool,
    start: int,
    goal: int,
    closed: Seq<usize>,
    open: Seq<PriorityNode>,
    exp: Seq<int>,
    wit: Map<int, Seq<usize>>,
    i: int,
)
    requires
        opt_mid(grid, h, greedy, start, goal, closed, open, exp, wit, i),
        0 <= i < grid.n(),
        0 <= start < grid.n(),
        0 <= goal < grid.n(),
        i != goal,
        1 <= closed[i] <= grid.n(),
        closed[start] == 1,
        forall|j: int| #[trigger] grid.linked(i, j) ==> closed[j] <= closed[i] + 1,
    ensures
        opt_inv(grid, h, greedy, start, goal, closed, open, exp.update(i, closed[i] as int), wit),
{
    let e2 = exp.update(i, closed[i] as int);
    assert forall|v: int|
        0 <= v < grid.n() && #[trigger] closed[v] < usize::MAX implies e2[v] == closed[v] || exists|k: int|
            0 <= k < open.len() && (#[trigger] open[k]).i == v && open[k].path@.len() + 1 == closed[v] by {
        if v != i {
            assert(e2[v] == exp[v]);
        }
    }
    assert forall|v: int, j: int| 0 <= v < grid.n() && e2[v] >= 1 && #[trigger] grid.linked(v, j) implies closed[j] <= e2[v] + 1 by {}
    assert forall|v: int| 0 <= v < grid.n() implies #[trigger] e2[v] <= grid.n() by {}
    assert(e2.len() == grid.n());
    assert(e2[goal] == -1);
    assert(e2[start] == 1);
    assert forall|v: int|
        0 <= v < grid.n() && #[trigger] closed[v] < usize::MAX implies wit.contains_key(v) && is_walk(grid, wit[v], start)
            && wit[v].last() == v && wit[v].len() == closed[v] by {}
}

/// When A* (not greedy, with an admissible estimate) takes the goal from the
/// frontier, its walk is no longer than any route.
proof fn lemma_astar_optimal<F: Fn(usize, usize, usize) -> usize>(
    grid: &Grid,
    h: F,
    start: int,
    goal: int,
    closed: Seq<usize>,
    open: Seq<PriorityNode>,
    exp: Seq<int>,
    wit: Map<int, Seq<usize>>,
    idx: int,
    q0: Seq<usize>,
)
    requires
        grid.wf(),
        grid.n() < usize::MAX / 2,
        0 <= start < grid.n(),
        0 <= goal < grid.n(),
        closed.len() == grid.n(),
        closed[start] == 1,
        opt_inv(grid, h, false, start, goal, closed, open, exp, wit),
        forall|k: int| 0 <= k < open.len() ==> #[trigger] entry_ok(grid, closed, open[k], start),
        0 <= idx < open.len(),
        open[idx].i == goal,
        forall|k: int| 0 <= k < open.len() ==> open[idx].priority <= (#[trigger] open[k]).priority,
        admissible(grid, h, goal),
        is_route(grid, q0, start, goal),
    ensures
        open[idx].path@.len() + 1 <= q0.len(),
{
    let e = open[idx];
    assert(entry_ok(grid, closed, e, start));
    let qe = e.path@.push(e.i);
    if e.path@.len() == 0 {
        return;
    }
    if start == goal {
        assert(e.path@.len() == 0);
        return;
    }
    let x = lemma_shortest_route(grid, q0, start, goal);
    let k = x.len() - 1;
    assert forall|t: int| 0 <= t < x.len() implies (#[trigger] x[t]) < exp.len() by {
        if t < x.len() - 1 {
            assert(grid.linked(x[t] as int, x[t + 1] as int));
        } else {
            assert(x[t] == goal);
        }
    }
    assert(exp[start] == 1) by {
        if !(exp[start] == 1) {
            assert(open[0].i == start);
        }
    }
    assert(x[0] == start);
    assert(exp[x[x.len() - 1] as int] != x.len());
    let j = lemma_first_unsettled(x, exp, 0);
    assert(j >= 1);
    // the cell before x_j was expanded at its place, so x_j is reached at j + 1
    assert(grid.linked(x[j - 1] as int, x[(j - 1) + 1] as int));
    assert(exp[x[j - 1] as int] == j);
    assert(closed[x[j] as int] <= j + 1);
    let xj = x[j] as int;
    assert(exp[x[j - 1] as int] <= grid.n());
    assert(closed[xj] < usize::MAX);
    assert(wit.contains_key(xj) && is_walk(grid, wit[xj], start) && wit[xj].last() == xj && wit[xj].len() == closed[xj]);
    let wk = wit[xj];
    assert(is_route(grid, wk, start, xj)) by {
        assert forall|t: int| 0 <= t < wk.len() - 1 implies #[trigger] grid.linked(wk[t] as int, wk[t + 1] as int) by {}
    }
    lemma_route_splice(grid, wk, x, start, goal, j);
    let spliced = wk + x.subrange(j + 1, x.len() as int);
    assert(spliced.len() >= x.len());
    assert(closed[xj] == j + 1);
    // x_j waits in the frontier at length j
    assert(exp[xj] != j + 1);
    let m = choose|m: int| 0 <= m < open.len() && (#[trigger] open[m]).i == xj && open[m].path@.len() + 1 == closed[xj];
    assert(prio_ok(grid, h, goal, open[m]));
    let v2 = choose|v: usize|
        #[trigger] h.ensures((open[m].i, goal as usize, grid.width), v) && open[m].priority == (if open[m].path@.len() == 0 {
            0
        } else {
            open[m].path@.len() + 1
        }) + v;
    lemma_route_suffix(grid, x, start, goal, j);
    assert(is_route(grid, x.subrange(j, x.len() as int), xj, goal));
    assert(v2 < x.len() - j);
    assert(prio_ok(grid, h, goal, e));
    let v1 = choose|v: usize|
        #[trigger] h.ensures((e.i, goal as usize, grid.width), v) && e.priority == (if e.path@.len() == 0 {
            0
        } else {
            e.path@.len() + 1
        }) + v;
    assert(open[idx].priority <= open[m].priority);
}

/// The first entry with the least priority, a shorter walk breaking ties.
fn pick_min(open: &Vec<PriorityNode>) -> (r: usize)
    requires
        open@.len() > 0,
    ensures
        r < open@.len(),
        forall|k: int| 0 <= k < open@.len() ==> open@[r as int].priority <= (#[trigger] open@[k]).priority,
{
    let mut best: usize = 0;
    let mut k: usize = 1;
    while k < open.len()
        invariant
            1 <= k <= open@.len(),
            best < k,
            forall|m: int| 0 <= m < k ==> open@[best as int].priority <= (#[trigger] open@[m]).priority,
        decreases open@.len() - k,
    {
        if open[k].priority < open[best].priority || (open[k].priority == open[best].priority
            && open[k].path.len() < open[best].path.len()) {
            best = k;
        }
        k = k + 1;
    }
    best
}

/// A* from `start` to `goal` with the estimate `h` (called as `h(cell, goal,
/// width)`). The priority of an entry is its walk length plus the estimate, or
/// the estimate alone when `greedy`. A cell is generated again only when it is
/// reached by a strictly shorter walk. With `null_h` this is uniform-cost
/// search; with `manhattan_h` and `greedy`, greedy best-first search.
pub fn a_star<F>(grid: &Grid, h: F, start: usize, goal: usize, greedy: bool) -> (r: Option<PathData>)
    where
        F: Fn(usize, usize, usize) -> usize,
    requires
        grid.wf(),
        start < grid.n(),
        goal < grid.n(),
        grid.n() < usize::MAX / 2,
        forall|i: usize| i < grid.n() ==> h.requires((i, goal, grid.width)),
        forall|i: usize, v: usize| i < grid.n() && #[trigger] h.ensures((i, goal, grid.width), v) ==> v <= grid.n(),
    ensures
        r matches Some(d) ==> is_path(grid, d.path@, start as int, goal as int) && counts_agree(&d, grid.n()),
        r is None <==> !reachable(grid, start as int, goal as int),
        start == goal ==> (r matches Some(d) && d.path@ == seq![start] && d.nodes_generated == 0 && d.nodes_expanded == 0),
        !greedy && admissible(grid, h, goal as int) ==> (r matches Some(d) ==> forall|q: Seq<usize>|
            #[trigger] is_route(grid, q, start as int, goal as int) ==> d.path@.len() <= q.len()),
{
    let n = grid.size();
    let w = grid.width;
    proof {
        grid.lemma_nonempty();
    }
    let mut diag_map = DiagMap::new(n);
    let mut closed: Vec<usize> = Vec::with_capacity(n);
    let mut k: usize = 0;
    while k < n
        invariant
            k <= n,
            closed@.len() == k,
            forall|j: int| 0 <= j < k ==> #[trigger] closed@[j] == usize::MAX,
        decreases n - k,
    {
        closed.push(usize::MAX);
        k = k + 1;
    }
    closed.set(start, 1);
    let mut open: Vec<PriorityNode> = Vec::new();
    let p0 = h(start, goal, w);
    open.push(PriorityNode { priority: p0, i: start, path: Vec::new() });
    proof {
        let q = open@[0].path@.push(start);
        assert(q =~= seq![start]);
        assert(q.no_duplicates());
        assert forall|v: int| 0 <= v < n && #[trigger] closed@[v] < usize::MAX implies diag_map.inner@[v] == DiagStatus::Expanded
            || exists|k: int| 0 <= k < open@.len() && (#[trigger] open@[k]).i == v && open@[k].path@.len() + 1 == closed@[v] by {
            assert(v == start);
            assert(open@[0].i == v);
        }
    }
    let ghost mut exp: Seq<int> = Seq::new(n as nat, |v: int| -1int);
    let ghost mut wit: Map<int, Seq<usize>> = Map::empty().insert(start as int, seq![start]);
    proof {
        assert forall|v: int| 0 <= v < n && #[trigger] closed@[v] < usize::MAX implies wit.contains_key(v) && is_walk(grid, wit[v], start as int)
            && wit[v].last() == v && wit[v].len() == closed@[v] by {
            assert(v == start);
            assert(seq![start].no_duplicates());
        }
        assert forall|v: int|
            0 <= v < n && #[trigger] closed@[v] < usize::MAX implies exp[v] == closed@[v] || exists|k: int|
                0 <= k < open@.len() && (#[trigger] open@[k]).i == v && open@[k].path@.len() + 1 == closed@[v] by {
            assert(open@[0].i == v);
        }
        if !greedy {
            assert forall|k: int| 0 <= k < open@.len() implies prio_ok(grid, h, goal as int, #[trigger] open@[k]) by {
                assert(h.ensures((start, goal, w), p0));
            }
        }
        assert(opt_inv(grid, h, greedy, start as int, goal as int, closed@, open@, exp, wit));
    }
    let mut neighbors_to_generate: Vec<usize> = Vec::with_capacity(4);
    while open.len() > 0
        invariant
            grid.wf(),
            n == grid.n(),
            w == grid.width,
            start < n,
            goal < n,
            n < usize::MAX / 2,
            forall|i: usize| i < grid.n() ==> h.requires((i, goal, grid.width)),
            forall|i: usize, v: usize| i < grid.n() && #[trigger] h.ensures((i, goal, grid.width), v) ==> v <= grid.n(),
            closed@.len() == n,
            diag_map.wf(),
            diag_map.consistent(),
            diag_map.inner@.len() == n,
            forall|k: int| 0 <= k < open@.len() ==> #[trigger] entry_ok(grid, closed@, open@[k], start as int),
            forall|v: int|
                0 <= v < n && #[trigger] closed@[v] < usize::MAX ==> diag_map.inner@[v] == DiagStatus::Expanded || exists|k: int|
                    0 <= k < open@.len() && (#[trigger] open@[k]).i == v && open@[k].path@.len() + 1 == closed@[v],
            forall|c: int, j: int|
                0 <= c < n && diag_map.inner@[c] == DiagStatus::Expanded && #[trigger] grid.linked(c, j) ==> closed@[j] < usize::MAX,
            diag_map.inner@[goal as int] != DiagStatus::Expanded,
            closed@[start as int] == 1,
            opt_inv(grid, h, greedy, start as int, goal as int, closed@, open@, exp, wit),
            diag_map.last_generated_len == diag_map.generated_history@.len(),
            start == goal ==> open@.len() == 1 && open@[0].i == start && open@[0].path@.len() == 0
                && diag_map.generated_history@.len() == 0 && diag_map.expanded_history@.len() == 0,
        decreases 2 * sum(closed@) + open@.len(),
    {
        let ghost top_measure = 2 * sum(closed@) + open@.len();
        let idx = pick_min(&open);
        let ghost before_pop = open@;
        let cur = open.swap_remove(idx);
        proof {
            assert(entry_ok(grid, closed@, before_pop[idx as int], start as int));
            assert forall|k: int| 0 <= k < open@.len() implies #[trigger] entry_ok(grid, closed@, open@[k], start as int) by {
                if k == idx {
                    assert(open@[k] == before_pop[before_pop.len() - 1]);
                    assert(entry_ok(grid, closed@, before_pop[before_pop.len() - 1], start as int));
                } else {
                    assert(open@[k] == before_pop[k]);
                }
            }
            lemma_sum_nonneg(closed@);
            assert forall|v: int|
                0 <= v < n && v != cur.i && #[trigger] closed@[v] < usize::MAX implies diag_map.inner@[v] == DiagStatus::Expanded || exists|k: int|
                    0 <= k < open@.len() && (#[trigger] open@[k]).i == v && open@[k].path@.len() + 1 == closed@[v] by {
                if diag_map.inner@[v] != DiagStatus::Expanded {
                    let k = choose|k: int| 0 <= k < before_pop.len() && (#[trigger] before_pop[k]).i == v && before_pop[k].path@.len() + 1 == closed@[v];
                    if k == before_pop.len() - 1 {
                        assert(open@[idx as int] == before_pop[k]);
                    } else {
                        assert(open@[k] == before_pop[k]);
                    }
                }
            }
        }
        proof {
            lemma_opt_pop(grid, h, greedy, start as int, goal as int, closed@, before_pop, open@, exp, wit, idx as int);
        }
        let ghost q = cur.path@.push(cur.i);
        let ghost measure = 2 * sum(closed@) + open@.len();
        if cur.i == goal {
            proof {
                assert(is_route(grid, q, start as int, goal as int));
                if !greedy && admissible(grid, h, goal as int) {
                    assert forall|q0: Seq<usize>| #[trigger] is_route(grid, q0, start as int, goal as int) implies cur.path@.len() + 1 <= q0.len() by {
                        lemma_astar_optimal(grid, h, start as int, goal as int, closed@, before_pop, exp, wit, idx as int, q0);
                    }
                }
            }
            let mut final_path = cur.path;
            final_path.push(goal);
            let nodes_generated = diag_map.generated_history.len();
            let nodes_expanded = diag_map.expanded_history.len();
            return Some(PathData { path: final_path, diag: diag_map.finalize(), nodes_generated, nodes_expanded });
        }
        proof {
            assert(q[q.len() - 1] == cur.i);
            assert(closed@[cur.i as int] <= cur.path@.len() + 1);
        }
        if closed[cur.i] > cur.path.len() {
            proof {
                lemma_walk_len(grid, q, start as int);
            }
            let i = cur.i;
            let new_path_len = cur.path.len() + 2;
            let mut path = cur.path;
            path.push(i);
            proof {
                assert(path@ == q);
                grid.lemma_cell(i as int);
                assert(entry_ok(grid, closed@, cur, start as int));
                assert forall|p: int| 0 <= p < q.len() implies closed@[#[trigger] q[p] as int] <= p + 1 by {}
                assert forall|p: int| 0 <= p < q.len() implies closed@[#[trigger] q[p] as int] < new_path_len by {}
            }
            candidates(grid, i, &closed, new_path_len, &mut neighbors_to_generate);
            let ghost c_cand = closed@;
            let ghost d_exp = diag_map.inner@;
            proof {
                assert forall|t: int| 0 <= t < neighbors_to_generate@.len() implies closed@[#[trigger] neighbors_to_generate@[t] as int] > new_path_len by {
                    assert(grid.linked(i as int, neighbors_to_generate@[t] as int));
                }
            }
            let g = if greedy {
                0
            } else {
                new_path_len
            };
            let len = neighbors_to_generate.len();
            assert(len <= 4);
            let mut m: usize = 1;
            while m <= len
                invariant
                    grid.wf(),
                    n == grid.n(),
                    w == grid.width,
                    start < n,
                    goal < n,
                    n < usize::MAX / 2,
                    forall|i: usize| i < grid.n() ==> h.requires((i, goal, grid.width)),
                    forall|i: usize, v: usize| i < grid.n() && #[trigger] h.ensures((i, goal, grid.width), v) ==> v <= grid.n(),
                    1 <= m <= len + 1,
                    len <= 4,
                    len == neighbors_to_generate@.len(),
                    new_path_len <= n + 1,
                    g <= new_path_len,
                    path@ == q,
                    is_walk(grid, q, start as int),
                    q.last() == i,
                    i < n,
                    q.len() + 1 == new_path_len,
                    forall|p: int| 0 <= p < q.len() ==> closed@[#[trigger] q[p] as int] < new_path_len,
                    forall|p: int| 0 <= p < q.len() ==> closed@[#[trigger] q[p] as int] <= p + 1,
                    neighbors_to_generate@.no_duplicates(),
                    forall|t: int| 0 <= t < len ==> grid.linked(i as int, #[trigger] neighbors_to_generate@[t] as int)
                        && neighbors_to_generate@[t] < n,
                    forall|t: int| m <= t < len || (t == 0 && m <= len) ==> closed@[#[trigger] neighbors_to_generate@[t] as int] > new_path_len,
                    closed@.len() == n,
                    diag_map.wf(),
                    diag_map.consistent(),
                    diag_map.inner@.len() == n,
                    forall|k: int| 0 <= k < open@.len() ==> #[trigger] entry_ok(grid, closed@, open@[k], start as int),
                    2 * sum(closed@) + open@.len() <= measure,
                    forall|t: int| 0 <= t < len && !(m <= t < len || (t == 0 && m <= len)) ==> closed@[#[trigger] neighbors_to_generate@[t] as int] <= new_path_len,
                    forall|j: int| #[trigger] grid.linked(i as int, j) && c_cand[j] > new_path_len ==> neighbors_to_generate@.contains(j as usize),
                    c_cand.len() == n,
                    forall|x: int| 0 <= x < n ==> #[trigger] closed@[x] <= c_cand[x],
                    d_exp.len() == n,
                    forall|c: int| 0 <= c < n ==> (#[trigger] diag_map.inner@[c] == DiagStatus::Expanded) == (d_exp[c] == DiagStatus::Expanded),
                    forall|v: int|
                        0 <= v < n && v != i && #[trigger] closed@[v] < usize::MAX ==> diag_map.inner@[v] == DiagStatus::Expanded || exists|k: int|
                            0 <= k < open@.len() && (#[trigger] open@[k]).i == v && open@[k].path@.len() + 1 == closed@[v],
                    forall|c: int, j: int|
                        0 <= c < n && diag_map.inner@[c] == DiagStatus::Expanded && #[trigger] grid.linked(c, j) ==> closed@[j] < usize::MAX,
                    closed@[start as int] == 1,
                    opt_mid(grid, h, greedy, start as int, goal as int, closed@, open@, exp, wit, i as int),
                    greedy ==> g == 0,
                    !greedy ==> g == new_path_len,
                    closed@[i as int] + 1 == new_path_len,
                decreases len + 1 - m,
            {
                // every neighbour but the first, then the first
                let t = if m < len {
                    m
                } else {
                    0
                };
                let nb = neighbors_to_generate[t];
                proof {
                    assert(0 <= t < len);
                    assert(grid.linked(i as int, neighbors_to_generate@[t as int] as int) && neighbors_to_generate@[t as int] < n);
                    assert(closed@[neighbors_to_generate@[t as int] as int] > new_path_len);
                }
                let hv = h(nb, goal, w);
                let child = copy_path(&path);
                let ghost c0 = closed@;
                let ghost o0 = open@;
                let ghost d_gen = diag_map.inner@;
                open.push(PriorityNode { priority: g + hv, i: nb, path: child });
                diag_map.mark_generated(nb);
                closed.set(nb, new_path_len);
                proof {
                    grid.lemma_linked_symmetric(i as int, nb as int);
                    lemma_sum_update(c0, nb as int, new_path_len);
                    let e = open@[open@.len() - 1];
                    let q2 = e.path@.push(e.i);
                    assert(q2 == q.push(nb));
                    assert(!q.contains(nb)) by {
                        if q.contains(nb) {
                            let p = choose|p: int| 0 <= p < q.len() && q[p] == nb;
                            assert(c0[q[p] as int] < new_path_len);
                        }
                    }
                    assert forall|a: int, b: int| 0 <= a < q2.len() && 0 <= b < q2.len() && a != b implies q2[a] != q2[b] by {
                        if a < q.len() && b < q.len() {
                            assert(q[a] != q[b]);
                        } else if a < q.len() {
                            assert(q.contains(q[a]));
                        } else if b < q.len() {
                            assert(q.contains(q[b]));
                        }
                    }
                    assert forall|k: int| 0 <= k < q2.len() - 1 implies #[trigger] grid.linked(q2[k] as int, q2[k + 1] as int) by {
                        if k < q.len() - 1 {
                            assert(grid.linked(q[k] as int, q[k + 1] as int));
                        }
                    }
                    assert forall|p: int| 0 <= p < q2.len() implies closed@[#[trigger] q2[p] as int] <= p + 1 by {
                        if p < q.len() {
                            assert(q[p] != nb);
                            assert(c0[q[p] as int] <= p + 1);
                            assert(q2[p] == q[p]);
                        }
                    }
                    assert forall|p: int| 0 <= p < q.len() implies closed@[#[trigger] q[p] as int] <= p + 1 by {
                        assert(q[p] != nb);
                        assert(c0[q[p] as int] <= p + 1);
                    }
                    assert(entry_ok(grid, closed@, e, start as int));
                    assert forall|x: int| 0 <= x < c0.len() implies #[trigger] closed@[x] <= c0[x] by {}
                    assert forall|k: int| 0 <= k < open@.len() implies #[trigger] entry_ok(grid, closed@, open@[k], start as int) by {
                        if k < o0.len() {
                            assert(open@[k] == o0[k]);
                            assert(entry_ok(grid, c0, o0[k], start as int));
                            lemma_entry_ok_mono(grid, c0, closed@, o0[k], start as int);
                        }
                    }
                    assert forall|p: int| 0 <= p < q.len() implies closed@[#[trigger] q[p] as int] < new_path_len by {
                        assert(q[p] != nb);
                    }
                    assert forall|u: int| m + 1 <= u < len || (u == 0 && m + 1 <= len) implies closed@[#[trigger] neighbors_to_generate@[u] as int] > new_path_len by {
                        assert(u != t);
                        assert(grid.linked(i as int, neighbors_to_generate@[u] as int));
                        assert(neighbors_to_generate@[u] != neighbors_to_generate@[t as int]);
                        assert(c0[neighbors_to_generate@[u] as int] > new_path_len);
                        assert(closed@ == c0.update(nb as int, new_path_len));
                        assert(closed@[neighbors_to_generate@[u] as int] == c0[neighbors_to_generate@[u] as int]);
                    }
                    assert forall|u: int| 0 <= u < len && !(m + 1 <= u < len || (u == 0 && m + 1 <= len)) implies closed@[#[trigger] neighbors_to_generate@[u] as int] <= new_path_len by {
                        assert(grid.linked(i as int, neighbors_to_generate@[u] as int));
                        if u != t {
                            assert(c0[neighbors_to_generate@[u] as int] <= new_path_len);
                        }
                    }
                    assert forall|x: int| 0 <= x < n implies #[trigger] closed@[x] <= c_cand[x] by {
                        assert(c0[x] <= c_cand[x]);
                    }
                    assert forall|c: int| 0 <= c < n implies (#[trigger] diag_map.inner@[c] == DiagStatus::Expanded) == (d_exp[c] == DiagStatus::Expanded) by {
                        assert((d_gen[c] == DiagStatus::Expanded) == (d_exp[c] == DiagStatus::Expanded));
                    }
                    assert forall|v: int|
                        0 <= v < n && v != i && #[trigger] closed@[v] < usize::MAX implies diag_map.inner@[v] == DiagStatus::Expanded || exists|k: int|
                            0 <= k < open@.len() && (#[trigger] open@[k]).i == v && open@[k].path@.len() + 1 == closed@[v] by {
                        if v == nb {
                            assert(open@[open@.len() - 1].i == v);
                        } else {
                            assert(c0[v] == closed@[v]);
                            assert((d_gen[v] == DiagStatus::Expanded) == (diag_map.inner@[v] == DiagStatus::Expanded));
                            if d_gen[v] != DiagStatus::Expanded {
                                let k = choose|k: int| 0 <= k < o0.len() && (#[trigger] o0[k]).i == v && o0[k].path@.len() + 1 == c0[v];
                                assert(open@[k] == o0[k]);
                            }
                        }
                    }
                    assert forall|c: int, j: int|
                        0 <= c < n && diag_map.inner@[c] == DiagStatus::Expanded && #[trigger] grid.linked(c, j) implies closed@[j] < usize::MAX by {
                        assert(d_gen[c] == DiagStatus::Expanded);
                        assert(c0[j] < usize::MAX);
                    }
                }
                proof {
                    let e = open@[open@.len() - 1];
                    assert(e.path@.push(e.i) == q.push(nb));
                    lemma_opt_gen(grid, h, greedy, start as int, goal as int, c0, o0, exp, wit, i as int, nb as int, q, e, new_path_len as int, hv);
                    wit = wit.insert(nb as int, q.push(nb));
                    assert(open@ == o0.push(e));
                    assert(nb != i);
                }
                m = m + 1;
            }
            let ghost d_pre = diag_map.inner@;
            diag_map.mark_expanded(i);
            proof {
                lemma_sum_nonneg(closed@);
                let d = diag_map.inner@;
                assert forall|j: int| #[trigger] grid.linked(i as int, j) implies closed@[j] < usize::MAX by {
                    if c_cand[j] > new_path_len {
                        assert(neighbors_to_generate@.contains(j as usize));
                        let t = choose|t: int| 0 <= t < len && neighbors_to_generate@[t] == j as usize;
                        assert(closed@[neighbors_to_generate@[t] as int] <= new_path_len);
                    }
                }
                assert forall|c: int, j: int|
                    0 <= c < n && d[c] == DiagStatus::Expanded && #[trigger] grid.linked(c, j) implies closed@[j] < usize::MAX by {
                    if c != i {
                        assert(d_pre[c] == DiagStatus::Expanded);
                    }
                }
                assert forall|v: int|
                    0 <= v < n && #[trigger] closed@[v] < usize::MAX implies d[v] == DiagStatus::Expanded || exists|k: int|
                        0 <= k < open@.len() && (#[trigger] open@[k]).i == v && open@[k].path@.len() + 1 == closed@[v] by {
                    if v != i && d_pre[v] == DiagStatus::Expanded {
                        assert(d[v] == DiagStatus::Expanded);
                    }
                }
                assert(d_pre[goal as int] != DiagStatus::Expanded);
                assert forall|j: int| #[trigger] grid.linked(i as int, j) implies closed@[j] <= closed@[i as int] + 1 by {
                    if c_cand[j] > new_path_len {
                        assert(neighbors_to_generate@.contains(j as usize));
                        let t = choose|t: int| 0 <= t < len && neighbors_to_generate@[t] == j as usize;
                        assert(closed@[neighbors_to_generate@[t] as int] <= new_path_len);
                    } else {
                        assert(closed@[j] <= c_cand[j]);
                    }
                }
                lemma_opt_expand(grid, h, greedy, start as int, goal as int, closed@, open@, exp, wit, i as int);
                exp = exp.update(i as int, closed@[i as int] as int);
            }
            assert(2 * sum(closed@) + open@.len() < top_measure);
        } else {
            proof {
                assert forall|v: int|
                    0 <= v < n && #[trigger] closed@[v] < usize::MAX implies diag_map.inner@[v] == DiagStatus::Expanded || exists|k: int|
                        0 <= k < open@.len() && (#[trigger] open@[k]).i == v && open@[k].path@.len() + 1 == closed@[v] by {
                    if v == cur.i && diag_map.inner@[v] != DiagStatus::Expanded {
                        let k = choose|k: int| 0 <= k < before_pop.len() && (#[trigger] before_pop[k]).i == v && before_pop[k].path@.len() + 1 == closed@[v];
                        assert(k != idx);
                        if k == before_pop.len() - 1 {
                            assert(open@[idx as int] == before_pop[k]);
                        } else {
                            assert(open@[k] == before_pop[k]);
                        }
                    }
                }
            }
            assert(2 * sum(closed@) + open@.len() < top_measure);
        }
    }
    proof {
        let d = diag_map.inner@;
        assert forall|c: int, j: int| 0 <= c < grid.n() && d[c] == DiagStatus::Expanded && #[trigger] grid.linked(c, j) implies d[j] == DiagStatus::Expanded by {
            grid.lemma_linked_symmetric(c, j);
            assert(closed@[j] < usize::MAX);
        }
        assert(closed@[start as int] < usize::MAX);
        if reachable(grid, start as int, goal as int) {
            let q = choose|q: Seq<usize>| #[trigger] is_route(grid, q, start as int, goal as int);
            let region = d.map_values(|s: DiagStatus| s == DiagStatus::Expanded);
            assert forall|c: int, j: int| 0 <= c < grid.n() && region[c] && #[trigger] grid.linked(c, j) implies region[j] by {
                grid.lemma_linked_symmetric(c, j);
                assert(d[c] == DiagStatus::Expanded);
            }
            lemma_closed_region(grid, region, q, start as int, goal as int);
        }
    }
    None
}

#[derive(Copy, Clone)]
struct DfsNode {
    i: usize,
    /// The number of cells before `i` on its walk.
    path_len: usize,
}

/// Some entry of the stack is for cell `c`.
spec fn holds(stack: Seq<DfsNode>, c: usize) -> bool {
    exists|k: int| 0 <= k < stack.len() && (#[trigger] stack[k]).i == c
}

pub open spec fn is_unexplored(s: DiagStatus) -> bool {
    s == DiagStatus::Unexplored
}

/// The depth-first stack, over the current walk `path`: walk lengths grow
/// toward the top, each entry extends a prefix of the walk by an open passage,
/// no cell is on it twice, and only a lone bottom entry, the start, has an
/// empty walk.
spec fn stack_ok(grid: &Grid, stack: Seq<DfsNode>, path: Seq<usize>, diag: Seq<DiagStatus>, start: int) -> bool {
    &&& forall|a: int, b: int| 0 <= a < b < stack.len() ==> stack[a].path_len <= stack[b].path_len
    &&& forall|a: int, b: int| 0 <= a < b < stack.len() ==> stack[a].i != stack[b].i
    &&& forall|k: int|
        0 <= k < stack.len() ==> {
            &&& (#[trigger] stack[k]).path_len <= path.len()
            &&& stack[k].i < grid.n()
            &&& diag[stack[k].i as int] != DiagStatus::Expanded
            &&& stack[k].path_len == 0 ==> k == 0 && stack[k].i == start && stack.len() == 1 && path.len() == 0
            &&& stack[k].path_len >= 1 ==> diag[stack[k].i as int] == DiagStatus::Generated && grid.linked(
                path[stack[k].path_len - 1] as int,
                stack[k].i as int,
            )
        }
}

/// Swapping two entries of equal walk length keeps the stack in order.
proof fn lemma_swap_ok(grid: &Grid, stack: Seq<DfsNode>, path: Seq<usize>, diag: Seq<DiagStatus>, start: int, a: int, b: int)
    requires
        stack_ok(grid, stack, path, diag, start),
        0 <= a < stack.len(),
        0 <= b < stack.len(),
        stack[a].path_len == stack[b].path_len,
    ensures
        stack_ok(grid, stack.update(a, stack[b]).update(b, stack[a]), path, diag, start),
{
    let t = stack.update(a, stack[b]).update(b, stack[a]);
    assert forall|x: int, y: int| 0 <= x < y < t.len() implies t[x].path_len <= t[y].path_len by {
        let sx = if x == a { b } else if x == b { a } else { x };
        let sy = if y == a { b } else if y == b { a } else { y };
        assert(t[x] == stack[sx]);
        assert(t[y] == stack[sy]);
        if sx < sy {
        } else if sx > sy {
            assert(stack[sy].path_len <= stack[sx].path_len);
            if a < b {
                assert(stack[a].path_len <= stack[sx].path_len);
            }
        }
        let lo = if a < b { a } else { b };
        let hi = if a < b { b } else { a };
        assert(stack[lo].path_len <= stack[hi].path_len);
        if lo < x && x < hi {
            assert(stack[lo].path_len <= stack[x].path_len);
            assert(stack[x].path_len <= stack[hi].path_len);
        }
        if lo < y && y < hi {
            assert(stack[lo].path_len <= stack[y].path_len);
            assert(stack[y].path_len <= stack[hi].path_len);
        }
    }
    assert forall|x: int, y: int| 0 <= x < y < t.len() implies t[x].i != t[y].i by {
        let sx = if x == a { b } else if x == b { a } else { x };
        let sy = if y == a { b } else if y == b { a } else { y };
        assert(t[x] == stack[sx]);
        assert(t[y] == stack[sy]);
        if sx < sy {
        } else {
            assert(stack[sy].i != stack[sx].i);
        }
    }
    assert forall|k: int| 0 <= k < t.len() implies {
        &&& (#[trigger] t[k]).path_len <= path.len()
        &&& t[k].i < grid.n()
        &&& diag[t[k].i as int] != DiagStatus::Expanded
        &&& t[k].path_len == 0 ==> k == 0 && t[k].i == start && t.len() == 1 && path.len() == 0
        &&& t[k].path_len >= 1 ==> diag[t[k].i as int] == DiagStatus::Generated && grid.linked(
            path[t[k].path_len - 1] as int,
            t[k].i as int,
        )
    } by {
        let sk = if k == a { b } else if k == b { a } else { k };
        assert(t[k] == stack[sk]);
        assert(stack_ok(grid, stack, path, diag, start));
        let e = stack[sk];
        assert(e == stack[sk]);
        if e.path_len == 0 {
            assert(sk == 0 && stack.len() == 1);
        }
    }
}

/// Orders the entries from `from` to the top so that the one whose cell is
/// nearest the goal ends on top (a stable insertion sort, farthest first).
fn sort_batch(stack: &mut Vec<DfsNode>, from: usize, goal: usize, width: usize, Ghost(grid): Ghost<&Grid>, Ghost(path): Ghost<Seq<usize>>, Ghost(diag): Ghost<Seq<DiagStatus>>, Ghost(start): Ghost<int>)
    requires
        grid.wf(),
        width == grid.width,
        goal < grid.n(),
        from <= old(stack)@.len(),
        stack_ok(grid, old(stack)@, path, diag, start),
        forall|k: int| from <= k < old(stack)@.len() ==> (#[trigger] old(stack)@[k]).path_len == old(stack)@[from as int].path_len,
    ensures
        stack_ok(grid, final(stack)@, path, diag, start),
        final(stack)@.len() == old(stack)@.len(),
        forall|k: int| 0 <= k < from ==> #[trigger] final(stack)@[k] == old(stack)@[k],
        forall|c: usize| #[trigger] holds(final(stack)@, c) == holds(old(stack)@, c),
{
    let len = stack.len();
    if from >= len {
        return;
    }
    let mut a = from + 1;
    while a < len
        invariant
            grid.wf(),
            width == grid.width,
            goal < grid.n(),
            from < a <= len,
            old(stack)@.len() == len,
            len == stack@.len(),
            stack_ok(grid, stack@, path, diag, start),
            forall|k: int| from <= k < len ==> (#[trigger] stack@[k]).path_len == stack@[from as int].path_len,
            forall|k: int| 0 <= k < from ==> #[trigger] stack@[k] == old(stack)@[k],
            forall|c: usize| #[trigger] holds(stack@, c) == holds(old(stack)@, c),
        decreases len - a,
    {
        let mut b = a;
        while b > from
            invariant
                grid.wf(),
                width == grid.width,
                goal < grid.n(),
                from <= b <= a < len,
                old(stack)@.len() == len,
                len == stack@.len(),
                stack_ok(grid, stack@, path, diag, start),
                forall|k: int| from <= k < len ==> (#[trigger] stack@[k]).path_len == stack@[from as int].path_len,
                forall|k: int| 0 <= k < from ==> #[trigger] stack@[k] == old(stack)@[k],
                forall|c: usize| #[trigger] holds(stack@, c) == holds(old(stack)@, c),
            decreases b,
        {
            proof {
                assert(stack@[b as int].i < grid.n());
                assert(stack@[b - 1].i < grid.n());
                crate::pathfinding::heuristics::lemma_manhattan_bound(stack@[b as int].i as int, goal as int, grid.width as int, grid.height as int);
                crate::pathfinding::heuristics::lemma_manhattan_bound(stack@[b - 1].i as int, goal as int, grid.width as int, grid.height as int);
            }
            let hb = manhattan_h(stack[b].i, goal, width);
            let hp = manhattan_h(stack[b - 1].i, goal, width);
            if hb > hp {
                let ghost s0 = stack@;
                let ghost same = s0[from as int].path_len;
                proof {
                    assert(s0[b as int].path_len == same);
                    assert(s0[b - 1].path_len == same);
                    lemma_swap_ok(grid, s0, path, diag, start, b - 1, b as int);
                }
                let lower = stack[b - 1];
                let upper = stack[b];
                stack.set(b - 1, upper);
                stack.set(b, lower);
                proof {
                    assert(stack@ =~= s0.update(b - 1, s0[b as int]).update(b as int, s0[b - 1]));
                    assert forall|c: usize| #[trigger] holds(stack@, c) == holds(s0, c) by {
                        if holds(stack@, c) {
                            let k = choose|k: int| 0 <= k < stack@.len() && (#[trigger] stack@[k]).i == c;
                            let j = if k == b - 1 { b as int } else if k == b { b - 1 } else { k };
                            assert(s0[j].i == c);
                        }
                        if holds(s0, c) {
                            let k = choose|k: int| 0 <= k < s0.len() && (#[trigger] s0[k]).i == c;
                            let j = if k == b - 1 { b as int } else if k == b { b - 1 } else { k };
                            assert(stack@[j].i == c);
                        }
                    }
                }
                b = b - 1;
            } else {
                b = from;
            }
        }
        a = a + 1;
    }
}

/// Generates `nb` from the walk's last cell: pushes it with walk length
/// `path_len` and marks it generated.
fn dfs_generate(
    stack: &mut Vec<DfsNode>,
    diag_map: &mut DiagMap,
    nb: usize,
    path_len: usize,
    Ghost(grid): Ghost<&Grid>,
    Ghost(path): Ghost<Seq<usize>>,
    Ghost(start): Ghost<int>,
)
    requires
        grid.wf(),
        old(diag_map).wf(),
        old(diag_map).consistent(),
        old(diag_map).inner@.len() == grid.n(),
        nb < grid.n(),
        old(diag_map).inner@[nb as int] == DiagStatus::Unexplored,
        path_len == path.len(),
        path_len >= 1,
        grid.linked(path[path_len - 1] as int, nb as int),
        stack_ok(grid, old(stack)@, path, old(diag_map).inner@, start),
        forall|k: int| 0 <= k < old(stack)@.len() ==> (#[trigger] old(stack)@[k]).path_len >= 1,
    ensures
        final(diag_map).wf(),
        final(diag_map).consistent(),
        final(diag_map).inner@ == old(diag_map).inner@.update(nb as int, DiagStatus::Generated),
        final(diag_map).generated_history@ == old(diag_map).generated_history@.push(nb),
        final(diag_map).expanded_history@ == old(diag_map).expanded_history@,
        final(diag_map).num_generated_history@ == old(diag_map).num_generated_history@,
        final(stack)@ == old(stack)@.push(DfsNode { i: nb, path_len }),
        stack_ok(grid, final(stack)@, path, final(diag_map).inner@, start),
        count_where(final(diag_map).inner@, |s: DiagStatus| is_unexplored(s)) + 1 == count_where(
            old(diag_map).inner@,
            |s: DiagStatus| is_unexplored(s),
        ),
{
    stack.push(DfsNode { i: nb, path_len });
    diag_map.mark_generated(nb);
    proof {
        let d0 = old(diag_map).inner@;
        let d1 = diag_map.inner@;
        let s0 = old(stack)@;
        let s1 = stack@;
        lemma_count_update(d0, |s: DiagStatus| is_unexplored(s), nb as int, DiagStatus::Generated);
        assert forall|a: int, b: int| 0 <= a < b < s1.len() implies s1[a].path_len <= s1[b].path_len by {
            if b < s0.len() {
                assert(s0[a].path_len <= s0[b].path_len);
            } else {
                assert(s0[a].path_len <= path.len());
            }
        }
        assert forall|a: int, b: int| 0 <= a < b < s1.len() implies s1[a].i != s1[b].i by {
            if b < s0.len() {
                assert(s0[a].i != s0[b].i);
            } else {
                assert(s0[a].path_len >= 1);
                assert(d0[s0[a].i as int] == DiagStatus::Generated);
            }
        }
        assert forall|k: int| 0 <= k < s1.len() implies {
            &&& (#[trigger] s1[k]).path_len <= path.len()
            &&& s1[k].i < grid.n()
            &&& d1[s1[k].i as int] != DiagStatus::Expanded
            &&& s1[k].path_len == 0 ==> k == 0 && s1[k].i == start && s1.len() == 1 && path.len() == 0
            &&& s1[k].path_len >= 1 ==> d1[s1[k].i as int] == DiagStatus::Generated && grid.linked(
                path[s1[k].path_len - 1] as int,
                s1[k].i as int,
            )
        } by {
            if k < s0.len() {
                assert(s1[k] == s0[k]);
                assert(s0[k].path_len >= 1);
                assert(d0[s0[k].i as int] == DiagStatus::Generated);
                assert(s0[k].i != nb);
            }
        }
    }
}

/// Takes the top entry and makes the walk end at its cell.
fn dfs_take(
    stack: &mut Vec<DfsNode>,
    path: &mut Vec<usize>,
    Ghost(grid): Ghost<&Grid>,
    Ghost(diag): Ghost<Seq<DiagStatus>>,
    Ghost(start): Ghost<int>,
) -> (cur: DfsNode)
    requires
        grid.wf(),
        0 <= start < grid.n(),
        diag.len() == grid.n(),
        old(stack)@.len() > 0,
        stack_ok(grid, old(stack)@, old(path)@, diag, start),
        old(path)@.len() >= 1 ==> is_walk(grid, old(path)@, start),
        forall|k: int| 0 <= k < old(path)@.len() ==> diag[#[trigger] old(path)@[k] as int] == DiagStatus::Expanded,
    ensures
        cur == old(stack)@.last(),
        final(stack)@ == old(stack)@.drop_last(),
        final(path)@ == old(path)@.subrange(0, cur.path_len as int).push(cur.i),
        is_walk(grid, final(path)@, start),
        stack_ok(grid, final(stack)@, final(path)@, diag, start),
        diag[cur.i as int] != DiagStatus::Expanded,
        cur.i < grid.n(),
        forall|k: int| 0 <= k < final(stack)@.len() ==> (#[trigger] final(stack)@[k]).path_len >= 1 && final(stack)@[k].i != cur.i,
        forall|k: int| 0 <= k < final(path)@.len() - 1 ==> diag[#[trigger] final(path)@[k] as int] == DiagStatus::Expanded,
{
    let ghost s0 = stack@;
    let ghost p0 = path@;
    let cur = stack[stack.len() - 1];
    stack.pop();
    proof {
        assert(s0[s0.len() - 1] == cur);
        assert(cur.path_len <= p0.len());
    }
    path.truncate(cur.path_len);
    path.push(cur.i);
    proof {
        let p1 = path@;
        assert(p1 == p0.subrange(0, cur.path_len as int).push(cur.i));
        assert(diag[cur.i as int] != DiagStatus::Expanded);
        assert forall|a: int, b: int| 0 <= a < p1.len() && 0 <= b < p1.len() && a != b implies p1[a] != p1[b] by {
            if a < p1.len() - 1 && b < p1.len() - 1 {
                assert(p0[a] != p0[b]);
            } else if a < p1.len() - 1 {
                assert(diag[p0[a] as int] == DiagStatus::Expanded);
            } else if b < p1.len() - 1 {
                assert(diag[p0[b] as int] == DiagStatus::Expanded);
            }
        }
        assert forall|k: int| 0 <= k < p1.len() - 1 implies #[trigger] grid.linked(p1[k] as int, p1[k + 1] as int) by {
            if k < p1.len() - 2 {
                assert(grid.linked(p0[k] as int, p0[k + 1] as int));
            }
        }
        if cur.path_len == 0 {
            assert(p1 =~= seq![cur.i]);
        } else {
            assert(p0[0] == start);
        }
        assert forall|k: int| 0 <= k < p1.len() implies (#[trigger] p1[k]) < grid.n() by {
            if k < p1.len() - 1 {
                assert(p0[k] < grid.n());
            }
        }
        assert(is_walk(grid, p1, start));
        let s1 = stack@;
        assert(s1 =~= s0.drop_last());
        assert forall|k: int| 0 <= k < s1.len() implies (#[trigger] s1[k]).path_len >= 1 && s1[k].path_len <= cur.path_len by {
            assert(s0[k].path_len <= s0[s0.len() - 1].path_len);
            assert(s0[k] == s1[k]);
            if s0[k].path_len == 0 {
                assert(k == 0 && s0.len() == 1);
            }
        }
        assert(stack_ok(grid, s1, p1, diag, start)) by {
            assert forall|k: int| 0 <= k < s1.len() implies {
                &&& (#[trigger] s1[k]).path_len <= p1.len()
                &&& s1[k].i < grid.n()
                &&& diag[s1[k].i as int] != DiagStatus::Expanded
                &&& s1[k].path_len == 0 ==> k == 0 && s1[k].i == start && s1.len() == 1 && p1.len() == 0
                &&& s1[k].path_len >= 1 ==> diag[s1[k].i as int] == DiagStatus::Generated && grid.linked(
                    p1[s1[k].path_len - 1] as int,
                    s1[k].i as int,
                )
            } by {
                assert(s0[k] == s1[k]);
                assert(s1[k].path_len >= 1 && s1[k].path_len <= cur.path_len);
                assert(p1[s1[k].path_len - 1] == p0[s1[k].path_len - 1]);
            }
            assert forall|a: int, b: int| 0 <= a < b < s1.len() implies s1[a].i != s1[b].i by {
                assert(s0[a].i != s0[b].i);
            }
            assert forall|a: int, b: int| 0 <= a < b < s1.len() implies s1[a].path_len <= s1[b].path_len by {
                assert(s0[a].path_len <= s0[b].path_len);
            }
        }
        assert forall|k: int| 0 <= k < s1.len() implies (#[trigger] s1[k]).path_len >= 1 && s1[k].i != cur.i by {
            assert(s0[k].i != s0[s0.len() - 1].i);
        }
        assert forall|k: int| 0 <= k < p1.len() - 1 implies diag[#[trigger] p1[k] as int] == DiagStatus::Expanded by {
            assert(p1[k] == p0[k]);
        }
    }
    cur
}

/// No cell is generated twice, each generated cell has left the unexplored
/// state, and the start is never generated.
spec fn gen_ok(d: &DiagMap, start: int) -> bool {
    &&& d.generated_history@.no_duplicates()
    &&& forall|k: int|
        0 <= k < d.generated_history@.len() ==> d.inner@[#[trigger] d.generated_history@[k] as int] != DiagStatus::Unexplored
            && d.generated_history@[k] != start
}

/// Distinct cells other than `s` number fewer than the cells.
proof fn lemma_distinct_len_without(q: Seq<usize>, n: int, s: int)
    requires
        q.no_duplicates(),
        0 <= s < n,
        forall|k: int| 0 <= k < q.len() ==> (#[trigger] q[k]) < n && q[k] != s,
    ensures
        q.len() <= n - 1,
{
    let m = q.map_values(|x: usize| if x as int > s { (x - 1) as usize } else { x });
    assert forall|a: int, b: int| 0 <= a < m.len() && 0 <= b < m.len() && a != b implies m[a] != m[b] by {
        assert(q[a] != q[b]);
    }
    assert forall|k: int| 0 <= k < m.len() implies (#[trigger] m[k]) < n - 1 by {
        assert(q[k] < n && q[k] != s);
    }
    lemma_distinct_len(m, n - 1);
}

/// Generates `nb` when `open` (a passage leads from `i` to it) and it is
/// still unexplored.
fn dfs_consider(
    stack: &mut Vec<DfsNode>,
    diag_map: &mut DiagMap,
    grid: &Grid,
    i: usize,
    nb: usize,
    open: bool,
    path_len: usize,
    Ghost(path): Ghost<Seq<usize>>,
    Ghost(start): Ghost<int>,
)
    requires
        grid.wf(),
        i < grid.n(),
        old(diag_map).wf(),
        old(diag_map).consistent(),
        old(diag_map).inner@.len() == grid.n(),
        open ==> grid.linked(i as int, nb as int),
        path_len == path.len(),
        path_len >= 1,
        path[path_len - 1] == i,
        stack_ok(grid, old(stack)@, path, old(diag_map).inner@, start),
        forall|k: int| 0 <= k < old(stack)@.len() ==> (#[trigger] old(stack)@[k]).path_len >= 1 && old(stack)@[k].i != i,
        gen_ok(old(diag_map), start),
        open && old(diag_map).inner@[nb as int] == DiagStatus::Unexplored ==> nb != start,
    ensures
        final(diag_map).wf(),
        final(diag_map).consistent(),
        final(diag_map).inner@.len() == grid.n(),
        gen_ok(final(diag_map), start),
        stack_ok(grid, final(stack)@, path, final(diag_map).inner@, start),
        forall|k: int| 0 <= k < final(stack)@.len() ==> (#[trigger] final(stack)@[k]).path_len >= 1 && final(stack)@[k].i != i,
        open && old(diag_map).inner@[nb as int] == DiagStatus::Unexplored ==> {
            &&& final(diag_map).inner@ == old(diag_map).inner@.update(nb as int, DiagStatus::Generated)
            &&& final(stack)@ == old(stack)@.push(DfsNode { i: nb, path_len })
            &&& count_where(final(diag_map).inner@, |s: DiagStatus| is_unexplored(s)) + 1 == count_where(
                old(diag_map).inner@,
                |s: DiagStatus| is_unexplored(s),
            )
        },
        !(open && old(diag_map).inner@[nb as int] == DiagStatus::Unexplored) ==> final(diag_map).inner@ == old(diag_map).inner@
            && final(stack)@ == old(stack)@,
        final(diag_map).expanded_history@ == old(diag_map).expanded_history@,
        open ==> final(diag_map).inner@[nb as int] != DiagStatus::Unexplored,
        nb != i || !open,
{
    proof {
        if open {
            grid.lemma_linked_symmetric(i as int, nb as int);
        }
    }
    if open && diag_map.status(nb) == DiagStatus::Unexplored {
        let ghost d0 = *diag_map;
        dfs_generate(stack, diag_map, nb, path_len, Ghost(grid), Ghost(path), Ghost(start));
        proof {
            let g0 = d0.generated_history@;
            let g1 = diag_map.generated_history@;
            assert(!g0.contains(nb)) by {
                if g0.contains(nb) {
                    let k = choose|k: int| 0 <= k < g0.len() && g0[k] == nb;
                    assert(d0.inner@[g0[k] as int] != DiagStatus::Unexplored);
                }
            }
            assert forall|a: int, b: int| 0 <= a < g1.len() && 0 <= b < g1.len() && a != b implies g1[a] != g1[b] by {
                if a < g0.len() && b < g0.len() {
                    assert(g0[a] != g0[b]);
                } else if a < g0.len() {
                    assert(g0.contains(g0[a]));
                } else if b < g0.len() {
                    assert(g0.contains(g0[b]));
                }
            }
            assert forall|k: int| 0 <= k < g1.len() implies diag_map.inner@[#[trigger] g1[k] as int] != DiagStatus::Unexplored && g1[k] != start by {
                if k < g0.len() {
                    assert(g1[k] == g0[k]);
                    assert(d0.inner@[g0[k] as int] != DiagStatus::Unexplored);
                }
            }
        }
    }
}

/// The place of the direction from `i` to `j` in the order north, south,
/// east, west.
spec fn dir_rank(i: int, j: int, w: int) -> int {
    if j + w == i {
        0
    } else if j == i + w {
        1
    } else if j == i + 1 {
        2
    } else {
        3
    }
}

/// Generates, in the order north, south, east, west, each neighbour of `i`
/// joined to it by a passage that is still unexplored.
fn dfs_expand(
    stack: &mut Vec<DfsNode>,
    diag_map: &mut DiagMap,
    grid: &Grid,
    i: usize,
    path_len: usize,
    Ghost(path): Ghost<Seq<usize>>,
    Ghost(start): Ghost<int>,
)
    requires
        grid.wf(),
        i < grid.n(),
        old(diag_map).wf(),
        old(diag_map).consistent(),
        old(diag_map).inner@.len() == grid.n(),
        path_len == path.len(),
        path_len >= 1,
        path[path_len - 1] == i,
        stack_ok(grid, old(stack)@, path, old(diag_map).inner@, start),
        forall|k: int| 0 <= k < old(stack)@.len() ==> (#[trigger] old(stack)@[k]).path_len >= 1 && old(stack)@[k].i != i,
        old(diag_map).inner@[i as int] != DiagStatus::Expanded,
        gen_ok(old(diag_map), start),
        0 <= start < grid.n(),
        old(diag_map).inner@[start] != DiagStatus::Unexplored || i == start,
    ensures
        gen_ok(final(diag_map), start),
        final(diag_map).wf(),
        final(diag_map).consistent(),
        final(diag_map).inner@.len() == grid.n(),
        final(diag_map).inner@[i as int] == old(diag_map).inner@[i as int],
        forall|c: int| 0 <= c < grid.n() ==> #[trigger] final(diag_map).inner@[c] == old(diag_map).inner@[c] || (
            old(diag_map).inner@[c] == DiagStatus::Unexplored && final(diag_map).inner@[c] == DiagStatus::Generated),
        count_where(final(diag_map).inner@, |s: DiagStatus| is_unexplored(s)) + (final(stack)@.len() - old(stack)@.len())
            == count_where(old(diag_map).inner@, |s: DiagStatus| is_unexplored(s)),
        final(stack)@.len() >= old(stack)@.len(),
        forall|k: int| 0 <= k < old(stack)@.len() ==> #[trigger] final(stack)@[k] == old(stack)@[k],
        forall|k: int| old(stack)@.len() <= k < final(stack)@.len() ==> (#[trigger] final(stack)@[k]).path_len == path_len && final(stack)@[k].i != i,
        stack_ok(grid, final(stack)@, path, final(diag_map).inner@, start),
        forall|j: int| #[trigger] grid.linked(i as int, j) ==> final(diag_map).inner@[j] != DiagStatus::Unexplored,
        forall|c: usize|
            c < grid.n() && old(diag_map).inner@[c as int] == DiagStatus::Unexplored && #[trigger] final(diag_map).inner@[c as int]
                == DiagStatus::Generated ==> exists|k: int| old(stack)@.len() <= k < final(stack)@.len() && (#[trigger] final(stack)@[k]).i == c,
        final(diag_map).expanded_history@ == old(diag_map).expanded_history@,
{
    let w = grid.width;
    proof {
        grid.lemma_cell(i as int);
        lemma_count_bound(old(diag_map).inner@);
    }
    let ghost d0 = diag_map.inner@;
    let ghost s0 = stack@;
    let mut t: usize = 0;
    while t < 4
        invariant
            grid.wf(),
            w == grid.width,
            i < grid.n(),
            t <= 4,
            diag_map.wf(),
            diag_map.consistent(),
            diag_map.inner@.len() == grid.n(),
            diag_map.expanded_history@ == old(diag_map).expanded_history@,
            d0.len() == grid.n(),
            path_len == path.len(),
            path_len >= 1,
            path[path_len - 1] == i,
            grid.cell(i as int).north_connected ==> grid.has_north(i as int),
            grid.cell(i as int).south_connected ==> grid.has_south(i as int),
            grid.cell(i as int).east_connected ==> grid.has_east(i as int),
            grid.cell(i as int).west_connected ==> grid.has_west(i as int),
            grid.has_east(i as int) ==> i + 1 < grid.n(),
            grid.has_south(i as int) ==> i + w < grid.n(),
            grid.has_west(i as int) ==> i >= 1,
            grid.has_north(i as int) ==> i >= w,
            w == 1 ==> !grid.has_east(i as int) && !grid.has_west(i as int),
            stack_ok(grid, stack@, path, diag_map.inner@, start),
            forall|k: int| 0 <= k < stack@.len() ==> (#[trigger] stack@[k]).path_len >= 1 && stack@[k].i != i,
            diag_map.inner@[i as int] == d0[i as int],
            forall|c: int| 0 <= c < grid.n() ==> #[trigger] diag_map.inner@[c] == d0[c] || (
                d0[c] == DiagStatus::Unexplored && diag_map.inner@[c] == DiagStatus::Generated),
            count_where(diag_map.inner@, |s: DiagStatus| is_unexplored(s)) + (stack@.len() - s0.len())
                == count_where(d0, |s: DiagStatus| is_unexplored(s)),
            stack@.len() >= s0.len(),
            forall|k: int| 0 <= k < s0.len() ==> #[trigger] stack@[k] == s0[k],
            forall|k: int| s0.len() <= k < stack@.len() ==> (#[trigger] stack@[k]).path_len == path_len && stack@[k].i != i,
            forall|j: int| #[trigger] grid.linked(i as int, j) && dir_rank(i as int, j, w as int) < t ==> diag_map.inner@[j] != DiagStatus::Unexplored,
            forall|c: usize|
                c < grid.n() && d0[c as int] == DiagStatus::Unexplored && #[trigger] diag_map.inner@[c as int]
                    == DiagStatus::Generated ==> exists|k: int| s0.len() <= k < stack@.len() && (#[trigger] stack@[k]).i == c,
            gen_ok(diag_map, start),
            0 <= start < grid.n(),
            d0[start] != DiagStatus::Unexplored || i == start,
        decreases 4 - t,
    {
        let c = grid.inner[i];
        let (open, nb) = if t == 0 {
            (c.north_connected, if c.north_connected { i - w } else { i })
        } else if t == 1 {
            (c.south_connected, if c.south_connected { i + w } else { i })
        } else if t == 2 {
            (c.east_connected, if c.east_connected { i + 1 } else { i })
        } else {
            (c.west_connected, if c.west_connected { i - 1 } else { i })
        };
        let ghost dp = diag_map.inner@;
        let ghost sp = stack@;
        proof {
            if open && dp[nb as int] == DiagStatus::Unexplored && i != start {
                assert(dp[start] == d0[start] || (d0[start] == DiagStatus::Unexplored && dp[start] == DiagStatus::Generated));
            }
            if open {
                grid.lemma_linked_symmetric(i as int, nb as int);
            }
        }
        dfs_consider(stack, diag_map, grid, i, nb, open, path_len, Ghost(path), Ghost(start));
        proof {
            let dn = diag_map.inner@;
            let sn = stack@;
            assert forall|x: int| 0 <= x < grid.n() implies #[trigger] dn[x] == d0[x] || (
                d0[x] == DiagStatus::Unexplored && dn[x] == DiagStatus::Generated) by {
                assert(dp[x] == d0[x] || (d0[x] == DiagStatus::Unexplored && dp[x] == DiagStatus::Generated));
            }
            assert forall|k: int| 0 <= k < s0.len() implies #[trigger] sn[k] == s0[k] by {
                assert(sp[k] == s0[k]);
            }
            assert forall|k: int| s0.len() <= k < sn.len() implies (#[trigger] sn[k]).path_len == path_len && sn[k].i != i by {
                if k < sp.len() {
                    assert(sp[k].path_len == path_len);
                }
            }
            assert forall|j: int| #[trigger] grid.linked(i as int, j) && dir_rank(i as int, j, w as int) < t + 1 implies dn[j] != DiagStatus::Unexplored by {
                if dir_rank(i as int, j, w as int) < t {
                    assert(dp[j] != DiagStatus::Unexplored);
                } else {
                    assert(open && j == nb);
                }
            }
            assert forall|x: usize| x < grid.n() && d0[x as int] == DiagStatus::Unexplored && #[trigger] dn[x as int] == DiagStatus::Generated
                implies exists|k: int| s0.len() <= k < sn.len() && (#[trigger] sn[k]).i == x by {
                if dp[x as int] == DiagStatus::Generated {
                    let k = choose|k: int| s0.len() <= k < sp.len() && (#[trigger] sp[k]).i == x;
                    assert(sn[k] == sp[k]);
                } else {
                    assert(sn[sp.len() as int].i == x);
                }
            }
        }
        t = t + 1;
    }
}

proof fn lemma_count_bound(s: Seq<DiagStatus>)
    ensures
        count_where(s, |x: DiagStatus| is_unexplored(x)) <= s.len(),
    decreases s.len(),
{
    if s.len() > 0 {
        lemma_count_bound(s.drop_last());
    }
}

/// Depth-first search from `start` to `goal`: a cell is generated only while
/// unexplored, so each cell is expanded at most once. The cells pushed by one
/// expansion are ordered so that the one nearest the goal (Manhattan distance)
/// is taken first.
pub fn dfs(grid: &Grid, start: usize, goal: usize) -> (r: Option<PathData>)
    requires
        grid.wf(),
        start < grid.n(),
        goal < grid.n(),
    ensures
        r matches Some(d) ==> {
            &&& is_path(grid, d.path@, start as int, goal as int)
            &&& counts_agree(&d, grid.n())
            &&& d.diag.expanded_history@.no_duplicates()
            &&& d.nodes_expanded <= grid.n()
            &&& d.diag.generated_history@.no_duplicates()
            &&& d.nodes_generated < grid.n()
        },
        r is None <==> !reachable(grid, start as int, goal as int),
        start == goal ==> (r matches Some(d) && d.path@ == seq![start] && d.nodes_generated == 0 && d.nodes_expanded == 0),
{
    let n = grid.size();
    let w = grid.width;
    proof {
        grid.lemma_nonempty();
    }
    let mut diag_map = DiagMap::new(n);
    let mut path: Vec<usize> = Vec::new();
    let mut stack: Vec<DfsNode> = Vec::new();
    stack.push(DfsNode { i: start, path_len: 0 });
    proof {
        assert(diag_map.inner@[start as int] == DiagStatus::Unexplored);
        assert(stack@[0].i == start);
        assert(holds(stack@, start));
    }
    while stack.len() > 0
        invariant
            grid.wf(),
            n == grid.n(),
            w == grid.width,
            start < n,
            goal < n,
            diag_map.wf(),
            diag_map.consistent(),
            diag_map.inner@.len() == n,
            stack_ok(grid, stack@, path@, diag_map.inner@, start as int),
            path@.len() >= 1 ==> is_walk(grid, path@, start as int),
            forall|k: int| 0 <= k < path@.len() ==> diag_map.inner@[#[trigger] path@[k] as int] == DiagStatus::Expanded,
            forall|c: usize| c < n && #[trigger] diag_map.inner@[c as int] == DiagStatus::Generated ==> holds(stack@, c),
            forall|c: int, j: int|
                0 <= c < n && diag_map.inner@[c] == DiagStatus::Expanded && #[trigger] grid.linked(c, j) ==> diag_map.inner@[j]
                    != DiagStatus::Unexplored,
            diag_map.inner@[goal as int] != DiagStatus::Expanded,
            diag_map.inner@[start as int] == DiagStatus::Expanded || holds(stack@, start),
            diag_map.expanded_history@.no_duplicates(),
            diag_map.last_generated_len == diag_map.generated_history@.len(),
            gen_ok(&diag_map, start as int),
            diag_map.inner@[start as int] == DiagStatus::Unexplored ==> stack@.len() == 1 && stack@[0].i == start,
            start == goal ==> stack@.len() == 1 && stack@[0].i == start && stack@[0].path_len == 0 && path@.len() == 0
                && diag_map.generated_history@.len() == 0 && diag_map.expanded_history@.len() == 0,
        decreases 2 * count_where(diag_map.inner@, |s: DiagStatus| is_unexplored(s)) + stack@.len(),
    {
        let ghost s_top = stack@;
        let ghost d_top = diag_map.inner@;
        let ghost e_top = diag_map.expanded_history@;
        let cur = dfs_take(&mut stack, &mut path, Ghost(grid), Ghost(diag_map.inner@), Ghost(start as int));
        if cur.i == goal {
            let nodes_generated = diag_map.generated_history.len();
            let nodes_expanded = diag_map.expanded_history.len();
            proof {
                lemma_distinct_len(diag_map.expanded_history@, n as int);
                lemma_distinct_len_without(diag_map.generated_history@, n as int, start as int);
                assert(reachable(grid, start as int, goal as int)) by {
                    assert(is_route(grid, path@, start as int, goal as int));
                }
            }
            return Some(PathData { path, diag: diag_map.finalize(), nodes_generated, nodes_expanded });
        }
        let ghost s_taken = stack@;
        let i = cur.i;
        proof {
            if diag_map.inner@[start as int] == DiagStatus::Unexplored {
                assert(s_top[s_top.len() - 1].i == start);
            }
        }
        let stack_size_before_expansion = stack.len();
        let path_len = path.len();
        let ghost d0 = diag_map.inner@;
        dfs_expand(&mut stack, &mut diag_map, grid, i, path_len, Ghost(path@), Ghost(start as int));
        let ghost d_before = diag_map.inner@;
        let ghost s_mid = stack@;
        diag_map.mark_expanded(i);
        proof {
            lemma_count_mono(d_before, diag_map.inner@, |s: DiagStatus| is_unexplored(s), 0);
            let d1 = diag_map.inner@;
            assert forall|k: int| 0 <= k < path@.len() implies d1[#[trigger] path@[k] as int] == DiagStatus::Expanded by {
                if k < path@.len() - 1 {
                    assert(d0[path@[k] as int] == DiagStatus::Expanded);
                    assert(d_before[path@[k] as int] == DiagStatus::Expanded);
                }
            }
            assert(stack_ok(grid, s_mid, path@, d1, start as int)) by {
                assert forall|k: int| 0 <= k < s_mid.len() implies (#[trigger] s_mid[k]).i != i by {
                    if k >= stack_size_before_expansion {
                        assert(s_mid[k].i != i);
                    }
                }
                assert forall|k: int| 0 <= k < s_mid.len() implies {
                    &&& (#[trigger] s_mid[k]).path_len <= path@.len()
                    &&& s_mid[k].i < grid.n()
                    &&& d1[s_mid[k].i as int] != DiagStatus::Expanded
                    &&& s_mid[k].path_len == 0 ==> k == 0 && s_mid[k].i == start && s_mid.len() == 1 && path@.len() == 0
                    &&& s_mid[k].path_len >= 1 ==> d1[s_mid[k].i as int] == DiagStatus::Generated && grid.linked(
                        path@[s_mid[k].path_len - 1] as int,
                        s_mid[k].i as int,
                    )
                } by {
                    assert(s_mid[k].i != i);
                }
            }
        }
        sort_batch(&mut stack, stack_size_before_expansion, goal, w, Ghost(grid), Ghost(path@), Ghost(diag_map.inner@), Ghost(start as int));
        proof {
            let d_end = diag_map.inner@;
            let top = s_top.len() - 1;
            assert(s_top[top] == cur);
            assert forall|x: usize| #[trigger] holds(s_taken, x) implies holds(stack@, x) by {
                let k = choose|k: int| 0 <= k < s_taken.len() && (#[trigger] s_taken[k]).i == x;
                assert(s_mid[k] == s_taken[k]);
                assert(holds(s_mid, x));
            }
            assert forall|x: usize| #[trigger] holds(s_top, x) && x != i implies holds(stack@, x) by {
                let k = choose|k: int| 0 <= k < s_top.len() && (#[trigger] s_top[k]).i == x;
                assert(k != top);
                assert(s_taken[k] == s_top[k]);
                assert(holds(s_taken, x));
            }
            assert forall|c: usize| c < n && #[trigger] d_end[c as int] == DiagStatus::Generated implies holds(stack@, c) by {
                assert(c != i);
                assert(d_before[c as int] == DiagStatus::Generated);
                if d0[c as int] == DiagStatus::Generated {
                    assert(holds(s_top, c));
                } else {
                    let k = choose|k: int| stack_size_before_expansion <= k < s_mid.len() && (#[trigger] s_mid[k]).i == c;
                    assert(holds(s_mid, c));
                }
            }
            assert forall|c: int, j: int|
                0 <= c < n && d_end[c] == DiagStatus::Expanded && #[trigger] grid.linked(c, j) implies d_end[j] != DiagStatus::Unexplored by {
                grid.lemma_linked_symmetric(c, j);
                if c != i {
                    assert(d_before[c] == DiagStatus::Expanded);
                    assert(d0[c] == DiagStatus::Expanded);
                    assert(d0[j] != DiagStatus::Unexplored);
                    assert(d_before[j] != DiagStatus::Unexplored);
                } else {
                    assert(d_before[j] != DiagStatus::Unexplored);
                }
            }
            assert(d_before[goal as int] != DiagStatus::Expanded);
            if d0[start as int] != DiagStatus::Expanded && start != i {
                assert(holds(s_top, start));
            }
            assert(!e_top.contains(i)) by {
                assert(d0[i as int] != DiagStatus::Expanded);
            }
            assert(diag_map.expanded_history@ == e_top.push(i));
            assert forall|a: int, b: int| 0 <= a < diag_map.expanded_history@.len() && 0 <= b < diag_map.expanded_history@.len() && a != b
                implies diag_map.expanded_history@[a] != diag_map.expanded_history@[b] by {
                if a < e_top.len() && b < e_top.len() {
                } else if a < e_top.len() {
                    assert(e_top.contains(e_top[a]));
                } else if b < e_top.len() {
                    assert(e_top.contains(e_top[b]));
                }
            }
        }
    }
    proof {
        let d = diag_map.inner@;
        assert forall|c: int, j: int| 0 <= c < grid.n() && d[c] == DiagStatus::Expanded && #[trigger] grid.linked(c, j) implies d[j] == DiagStatus::Expanded by {
            grid.lemma_linked_symmetric(c, j);
            assert(d[j] != DiagStatus::Unexplored);
            if d[j] == DiagStatus::Generated {
                assert(holds(stack@, j as usize));
            }
        }
        assert(d[start as int] == DiagStatus::Expanded) by {
            if d[start as int] != DiagStatus::Expanded {
                assert(holds(stack@, start));
            }
        }
        if reachable(grid, start as int, goal as int) {
            let q = choose|q: Seq<usize>| #[trigger] is_route(grid, q, start as int, goal as int);
            let region = d.map_values(|s: DiagStatus| s == DiagStatus::Expanded);
            assert forall|c: int, j: int| 0 <= c < grid.n() && region[c] && #[trigger] grid.linked(c, j) implies region[j] by {
                grid.lemma_linked_symmetric(c, j);
                assert(d[c] == DiagStatus::Expanded);
            }
            lemma_closed_region(grid, region, q, start as int, goal as int);
        }
    }
    None
}

/// The cells joined to `i` by a passage whose best known walk length exceeds
/// `limit`, in the order north, south, east, west.
fn candidates(grid: &Grid, i: usize, best: &Vec<usize>, limit: usize, buf: &mut Vec<usize>)
    requires
        grid.wf(),
        i < grid.n(),
        best@.len() == grid.n(),
    ensures
        final(buf)@.len() <= 4,
        final(buf)@.no_duplicates(),
        forall|t: int| 0 <= t < final(buf)@.len() ==> #[trigger] grid.linked(i as int, final(buf)@[t] as int) && final(buf)@[t] < grid.n()
            && best@[final(buf)@[t] as int] > limit,
        forall|j: int| #[trigger] grid.linked(i as int, j) && best@[j] > limit ==> final(buf)@.contains(j as usize),
{
    let w = grid.width;
    proof {
        grid.lemma_cell(i as int);
    }
    buf.clear();
    let ghost b0 = buf@;
    if grid.inner[i].north_connected && best[i - w] > limit {
        buf.push(i - w);
    }
    let ghost b1 = buf@;
    if grid.inner[i].south_connected && best[i + w] > limit {
        buf.push(i + w);
    }
    let ghost b2 = buf@;
    if grid.inner[i].east_connected && best[i + 1] > limit {
        buf.push(i + 1);
    }
    let ghost b3 = buf@;
    if grid.inner[i].west_connected && best[i - 1] > limit {
        buf.push(i - 1);
    }
    proof {
        let b = buf@;
        lemma_push_contains(b0, (i - w) as usize);
        lemma_push_contains(b1, (i + w) as usize);
        lemma_push_contains(b2, (i + 1) as usize);
        lemma_push_contains(b3, (i - 1) as usize);
        assert forall|j: int| #[trigger] grid.linked(i as int, j) && best@[j] > limit implies b.contains(j as usize) by {
            if j == i - w && grid.inner@[i as int].north_connected {
                assert(b1.contains(j as usize));
            }
            if j == i + w && grid.inner@[i as int].south_connected {
                assert(b2.contains(j as usize));
            }
            if j == i + 1 && grid.inner@[i as int].east_connected {
                assert(b3.contains(j as usize));
            }
            assert(b1.contains(j as usize) ==> b2.contains(j as usize));
            assert(b2.contains(j as usize) ==> b3.contains(j as usize));
            assert(b3.contains(j as usize) ==> b.contains(j as usize));
        }
    }
}

/// Every passage out of `v` leads to a cell whose best walk is at most one
/// cell longer.
pub open spec fn settled(grid: &Grid, best: Seq<usize>, v: int) -> bool {
    forall|j: int| #[trigger] grid.linked(v, j) ==> best[j] <= best[v] + 1
}

/// Each reached cell has a walk of its recorded length, and is settled or
/// waits in the frontier at that length.
spec fn dijkstra_ok(grid: &Grid, best: Seq<usize>, open: Seq<PriorityNode>, wit: Map<int, Seq<usize>>, start: int) -> bool {
    &&& forall|k: int| 0 <= k < open.len() ==> #[trigger] entry_ok(grid, best, open[k], start)
    &&& forall|k: int| 0 <= k < open.len() ==> (#[trigger] open[k]).priority == open[k].path@.len()
    &&& forall|v: int|
        0 <= v < grid.n() && #[trigger] best[v] < usize::MAX ==> wit.contains_key(v) && is_walk(grid, wit[v], start)
            && wit[v].last() == v && wit[v].len() == best[v]
    &&& forall|v: int|
        0 <= v < grid.n() && #[trigger] best[v] < usize::MAX ==> settled(grid, best, v) || exists|k: int|
            0 <= k < open.len() && (#[trigger] open[k]).i == v && open[k].path@.len() + 1 == best[v]
}

/// Shortest walk lengths from `start`, counted in cells (the start itself is
/// 1); `usize::MAX` for cells that cannot be reached. The frontier is taken
/// shortest first, and a cell is accepted again only on a strictly shorter walk.
fn shortest_walk_cells(grid: &Grid, start: usize) -> (r: Vec<usize>)
    requires
        grid.wf(),
        start < grid.n(),
        grid.n() < usize::MAX,
    ensures
        r@.len() == grid.n(),
        r@[start as int] == 1,
        forall|u: int, v: int| #[trigger] grid.linked(u, v) && r@[u] < usize::MAX ==> r@[v] <= r@[u] + 1,
        forall|v: int| 0 <= v < grid.n() && r@[v] < usize::MAX ==> exists|q: Seq<usize>| is_path(grid, q, start as int, v) && q.len() == r@[v],
{
    let n = grid.size();
    proof {
        grid.lemma_nonempty();
    }
    let mut best_paths: Vec<usize> = Vec::with_capacity(n);
    let mut k: usize = 0;
    while k < n
        invariant
            k <= n,
            best_paths@.len() == k,
            forall|j: int| 0 <= j < k ==> #[trigger] best_paths@[j] == usize::MAX,
        decreases n - k,
    {
        best_paths.push(usize::MAX);
        k = k + 1;
    }
    best_paths.set(start, 1);
    let ghost mut wit: Map<int, Seq<usize>> = Map::empty().insert(start as int, seq![start]);
    let mut open: Vec<PriorityNode> = Vec::new();
    open.push(PriorityNode { priority: 0, i: start, path: Vec::new() });
    proof {
        let q = open@[0].path@.push(start);
        assert(q =~= seq![start]);
        assert(entry_ok(grid, best_paths@, open@[0], start as int));
        assert forall|v: int| 0 <= v < grid.n() && #[trigger] best_paths@[v] < usize::MAX implies settled(grid, best_paths@, v) || exists|k: int|
            0 <= k < open@.len() && (#[trigger] open@[k]).i == v && open@[k].path@.len() + 1 == best_paths@[v] by {
            assert(v == start);
            assert(open@[0].i == v);
        }
    }
    let mut neighbors_to_generate: Vec<usize> = Vec::with_capacity(4);
    while open.len() > 0
        invariant
            grid.wf(),
            n == grid.n(),
            n < usize::MAX,
            start < n,
            best_paths@.len() == n,
            best_paths@[start as int] == 1,
            dijkstra_ok(grid, best_paths@, open@, wit, start as int),
        decreases 2 * sum(best_paths@) + open@.len(),
    {
        let ghost top_measure = 2 * sum(best_paths@) + open@.len();
        let idx = pick_min(&open);
        let ghost o0 = open@;
        let cur = open.swap_remove(idx);
        let ghost q = cur.path@.push(cur.i);
        proof {
            lemma_sum_nonneg(best_paths@);
            assert(entry_ok(grid, best_paths@, o0[idx as int], start as int));
            assert(q[q.len() - 1] == cur.i);
            assert forall|k: int| 0 <= k < open@.len() implies #[trigger] entry_ok(grid, best_paths@, open@[k], start as int)
                && open@[k].priority == open@[k].path@.len() by {
                if k == idx {
                    assert(open@[k] == o0[o0.len() - 1]);
                    assert(entry_ok(grid, best_paths@, o0[o0.len() - 1], start as int));
                } else {
                    assert(open@[k] == o0[k]);
                }
            }
        }
        let ghost pending_other = (forall|v: int|
            0 <= v < grid.n() && v != cur.i && #[trigger] best_paths@[v] < usize::MAX ==> settled(grid, best_paths@, v) || exists|k: int|
                0 <= k < open@.len() && (#[trigger] open@[k]).i == v && open@[k].path@.len() + 1 == best_paths@[v]);
        proof {
            assert forall|v: int|
                0 <= v < grid.n() && v != cur.i && #[trigger] best_paths@[v] < usize::MAX implies settled(grid, best_paths@, v) || exists|k: int|
                    0 <= k < open@.len() && (#[trigger] open@[k]).i == v && open@[k].path@.len() + 1 == best_paths@[v] by {
                if !settled(grid, best_paths@, v) {
                    let k = choose|k: int| 0 <= k < o0.len() && (#[trigger] o0[k]).i == v && o0[k].path@.len() + 1 == best_paths@[v];
                    if k == o0.len() - 1 {
                        assert(open@[idx as int] == o0[k]);
                    } else {
                        assert(open@[k] == o0[k]);
                    }
                }
            }
        }
        proof {
            lemma_walk_len(grid, q, start as int);
        }
        let cur_path_len = cur.path.len() + 1;
        if best_paths[cur.i] >= cur_path_len {
            let i = cur.i;
            let new_path_len = cur_path_len + 1;
            let mut path = cur.path;
            path.push(i);
            proof {
                assert(path@ == q);
                assert(entry_ok(grid, best_paths@, cur, start as int));
                assert forall|p: int| 0 <= p < q.len() implies best_paths@[#[trigger] q[p] as int] <= p + 1 by {}
                assert forall|p: int| 0 <= p < q.len() implies best_paths@[#[trigger] q[p] as int] < new_path_len by {}
            }
            candidates(grid, i, &best_paths, new_path_len, &mut neighbors_to_generate);
            let ghost b_cand = best_paths@;
            let len = neighbors_to_generate.len();
            proof {
                assert forall|t: int| 0 <= t < len implies best_paths@[#[trigger] neighbors_to_generate@[t] as int] > new_path_len by {
                    assert(grid.linked(i as int, neighbors_to_generate@[t] as int));
                }
                assert forall|t: int| 0 <= t < len implies grid.linked(i as int, #[trigger] neighbors_to_generate@[t] as int)
                    && neighbors_to_generate@[t] < n by {
                    assert(grid.linked(i as int, neighbors_to_generate@[t] as int));
                }
            }
            let mut m: usize = 1;
            while m <= len
                invariant
                    grid.wf(),
                    n == grid.n(),
                    start < n,
                    1 <= m <= len + 1,
                    len <= 4,
                    len == neighbors_to_generate@.len(),
                    new_path_len <= n + 1,
                    new_path_len == cur_path_len + 1,
                    path@ == q,
                    is_walk(grid, q, start as int),
                    q.last() == i,
                    i < n,
                    q.len() + 1 == new_path_len,
                    best_paths@[i as int] == cur_path_len,
                    forall|p: int| 0 <= p < q.len() ==> best_paths@[#[trigger] q[p] as int] < new_path_len,
                    forall|p: int| 0 <= p < q.len() ==> best_paths@[#[trigger] q[p] as int] <= p + 1,
                    neighbors_to_generate@.no_duplicates(),
                    forall|t: int| 0 <= t < len ==> grid.linked(i as int, #[trigger] neighbors_to_generate@[t] as int)
                        && neighbors_to_generate@[t] < n,
                    forall|t: int| m <= t < len || (t == 0 && m <= len) ==> best_paths@[#[trigger] neighbors_to_generate@[t] as int] > new_path_len,
                    forall|t: int| 0 <= t < len && !(m <= t < len || (t == 0 && m <= len)) ==> best_paths@[#[trigger] neighbors_to_generate@[t] as int] <= new_path_len,
                    forall|j: int| #[trigger] grid.linked(i as int, j) && b_cand[j] > new_path_len ==> neighbors_to_generate@.contains(j as usize),
                    b_cand.len() == n,
                    forall|x: int| 0 <= x < n ==> #[trigger] best_paths@[x] <= b_cand[x],
                    best_paths@.len() == n,
                    best_paths@[start as int] == 1,
                    forall|k: int| 0 <= k < open@.len() ==> #[trigger] entry_ok(grid, best_paths@, open@[k], start as int),
                    forall|k: int| 0 <= k < open@.len() ==> (#[trigger] open@[k]).priority == open@[k].path@.len(),
                    forall|v: int|
                        0 <= v < grid.n() && #[trigger] best_paths@[v] < usize::MAX ==> wit.contains_key(v) && is_walk(grid, wit[v], start as int)
                            && wit[v].last() == v && wit[v].len() == best_paths@[v],
                    forall|v: int|
                        0 <= v < grid.n() && v != i && #[trigger] best_paths@[v] < usize::MAX ==> settled(grid, best_paths@, v) || exists|k: int|
                            0 <= k < open@.len() && (#[trigger] open@[k]).i == v && open@[k].path@.len() + 1 == best_paths@[v],
                    2 * sum(best_paths@) + open@.len() < top_measure,
                decreases len + 1 - m,
            {
                let t = if m < len {
                    m
                } else {
                    0
                };
                let nb = neighbors_to_generate[t];
                proof {
                    assert(0 <= t < len);
                    assert(grid.linked(i as int, neighbors_to_generate@[t as int] as int) && neighbors_to_generate@[t as int] < n);
                    assert(best_paths@[neighbors_to_generate@[t as int] as int] > new_path_len);
                }
                let child = copy_path(&path);
                let ghost c0 = best_paths@;
                let ghost o1 = open@;
                open.push(PriorityNode { priority: child.len(), i: nb, path: child });
                best_paths.set(nb, new_path_len);
                proof {
                    lemma_sum_update(c0, nb as int, new_path_len);
                    let q2 = q.push(nb);
                    wit = wit.insert(nb as int, q2);
                    let e = open@[open@.len() - 1];
                    assert(e.path@.push(e.i) == q2);
                    assert(!q.contains(nb)) by {
                        if q.contains(nb) {
                            let p = choose|p: int| 0 <= p < q.len() && q[p] == nb;
                            assert(c0[q[p] as int] < new_path_len);
                        }
                    }
                    assert forall|a: int, b: int| 0 <= a < q2.len() && 0 <= b < q2.len() && a != b implies q2[a] != q2[b] by {
                        if a < q.len() && b < q.len() {
                            assert(q[a] != q[b]);
                        } else if a < q.len() {
                            assert(q.contains(q[a]));
                        } else if b < q.len() {
                            assert(q.contains(q[b]));
                        }
                    }
                    assert forall|k: int| 0 <= k < q2.len() - 1 implies #[trigger] grid.linked(q2[k] as int, q2[k + 1] as int) by {
                        if k < q.len() - 1 {
                            assert(grid.linked(q[k] as int, q[k + 1] as int));
                        }
                    }
                    assert forall|k: int| 0 <= k < q2.len() implies (#[trigger] q2[k]) < grid.n() by {
                        if k < q.len() {
                            assert(q[k] < grid.n());
                        }
                    }
                    assert(is_walk(grid, q2, start as int));
                    assert forall|p: int| 0 <= p < q2.len() implies best_paths@[#[trigger] q2[p] as int] <= p + 1 by {
                        if p < q.len() {
                            assert(q[p] != nb);
                            assert(c0[q[p] as int] <= p + 1);
                            assert(q2[p] == q[p]);
                        }
                    }
                    assert(entry_ok(grid, best_paths@, e, start as int));
                    assert forall|x: int| 0 <= x < c0.len() implies #[trigger] best_paths@[x] <= c0[x] by {}
                    assert forall|k: int| 0 <= k < open@.len() implies #[trigger] entry_ok(grid, best_paths@, open@[k], start as int) by {
                        if k < o1.len() {
                            assert(open@[k] == o1[k]);
                            assert(entry_ok(grid, c0, o1[k], start as int));
                            lemma_entry_ok_mono(grid, c0, best_paths@, o1[k], start as int);
                        }
                    }
                    assert forall|k: int| 0 <= k < open@.len() implies (#[trigger] open@[k]).priority == open@[k].path@.len() by {
                        if k < o1.len() {
                            assert(open@[k] == o1[k]);
                        }
                    }
                    assert forall|p: int| 0 <= p < q.len() implies best_paths@[#[trigger] q[p] as int] < new_path_len by {
                        assert(q[p] != nb);
                    }
                    assert forall|p: int| 0 <= p < q.len() implies best_paths@[#[trigger] q[p] as int] <= p + 1 by {
                        assert(q[p] != nb);
                        assert(c0[q[p] as int] <= p + 1);
                    }
                    assert forall|u: int| m + 1 <= u < len || (u == 0 && m + 1 <= len) implies best_paths@[#[trigger] neighbors_to_generate@[u] as int] > new_path_len by {
                        assert(u != t);
                        assert(grid.linked(i as int, neighbors_to_generate@[u] as int));
                        assert(neighbors_to_generate@[u] != neighbors_to_generate@[t as int]);
                        assert(c0[neighbors_to_generate@[u] as int] > new_path_len);
                    }
                    assert forall|u: int| 0 <= u < len && !(m + 1 <= u < len || (u == 0 && m + 1 <= len)) implies best_paths@[#[trigger] neighbors_to_generate@[u] as int] <= new_path_len by {
                        assert(grid.linked(i as int, neighbors_to_generate@[u] as int));
                        if u != t {
                            assert(c0[neighbors_to_generate@[u] as int] <= new_path_len);
                        }
                    }
                    assert(i != nb);
                    assert forall|v: int|
                        0 <= v < grid.n() && #[trigger] best_paths@[v] < usize::MAX implies wit.contains_key(v) && is_walk(grid, wit[v], start as int)
                            && wit[v].last() == v && wit[v].len() == best_paths@[v] by {
                        if v != nb {
                            assert(c0[v] == best_paths@[v]);
                        }
                    }
                    assert forall|v: int|
                        0 <= v < grid.n() && v != i && #[trigger] best_paths@[v] < usize::MAX implies settled(grid, best_paths@, v) || exists|k: int|
                            0 <= k < open@.len() && (#[trigger] open@[k]).i == v && open@[k].path@.len() + 1 == best_paths@[v] by {
                        if v == nb {
                            assert(open@[open@.len() - 1].i == v);
                        } else {
                            assert(c0[v] == best_paths@[v]);
                            if settled(grid, c0, v) {
                                assert forall|j: int| #[trigger] grid.linked(v, j) implies best_paths@[j] <= best_paths@[v] + 1 by {
                                    assert(c0[j] <= c0[v] + 1);
                                }
                            } else {
                                let k = choose|k: int| 0 <= k < o1.len() && (#[trigger] o1[k]).i == v && o1[k].path@.len() + 1 == c0[v];
                                assert(open@[k] == o1[k]);
                            }
                        }
                    }
                }
                m = m + 1;
            }
            proof {
                lemma_sum_nonneg(best_paths@);
                assert(settled(grid, best_paths@, i as int)) by {
                    assert forall|j: int| #[trigger] grid.linked(i as int, j) implies best_paths@[j] <= best_paths@[i as int] + 1 by {
                        if b_cand[j] > new_path_len {
                            assert(neighbors_to_generate@.contains(j as usize));
                            let t = choose|t: int| 0 <= t < len && neighbors_to_generate@[t] == j as usize;
                            grid.lemma_linked_symmetric(i as int, j);
                        }
                    }
                }
            }
        } else {
            proof {
                assert(best_paths@[cur.i as int] < cur_path_len);
                assert forall|v: int|
                    0 <= v < grid.n() && #[trigger] best_paths@[v] < usize::MAX implies settled(grid, best_paths@, v) || exists|k: int|
                        0 <= k < open@.len() && (#[trigger] open@[k]).i == v && open@[k].path@.len() + 1 == best_paths@[v] by {
                    if v == cur.i && !settled(grid, best_paths@, v) {
                        let k = choose|k: int| 0 <= k < o0.len() && (#[trigger] o0[k]).i == v && o0[k].path@.len() + 1 == best_paths@[v];
                        assert(k != idx);
                        if k == o0.len() - 1 {
                            assert(open@[idx as int] == o0[k]);
                        } else {
                            assert(open@[k] == o0[k]);
                        }
                    }
                }
            }
        }
    }
    proof {
        assert forall|u: int, v: int| #[trigger] grid.linked(u, v) && best_paths@[u] < usize::MAX implies best_paths@[v] <= best_paths@[u] + 1 by {
            assert(settled(grid, best_paths@, u));
        }
        assert forall|v: int| 0 <= v < grid.n() && best_paths@[v] < usize::MAX implies exists|q: Seq<usize>| is_path(grid, q, start as int, v) && q.len() == best_paths@[v] by {
            assert(is_path(grid, wit[v], start as int, v));
        }
    }
    best_paths
}

/// Each route from the start is at least as long as the recorded distance of
/// its end.
proof fn lemma_route_dist(grid: &Grid, r: Seq<usize>, start: int, q: Seq<usize>, v: int)
    requires
        grid.wf(),
        grid.n() < usize::MAX,
        r.len() == grid.n(),
        0 <= start < grid.n(),
        r[start] == 0,
        forall|u: int, x: int| #[trigger] grid.linked(u, x) && r[u] < usize::MAX ==> r[x] <= r[u] + 1,
        forall|x: int| 0 <= x < grid.n() && r[x] < usize::MAX ==> r[x] < grid.n(),
        is_route(grid, q, start, v),
    ensures
        r[v] < usize::MAX,
        r[v] <= q.len() - 1,
    decreases q.len(),
{
    if q.len() > 1 {
        let p = q.drop_last();
        let k = q.len() - 2;
        assert forall|j: int| 0 <= j < p.len() - 1 implies #[trigger] grid.linked(p[j] as int, p[j + 1] as int) by {
            assert(grid.linked(q[j] as int, q[j + 1] as int));
        }
        lemma_route_dist(grid, r, start, p, p.last() as int);
        assert(grid.linked(q[k] as int, q[k + 1] as int));
        assert(p.last() == q[k]);
        grid.lemma_linked_symmetric(q[k] as int, q[k + 1] as int);
    }
}

/// Single-source shortest distances: for each cell, the number of steps on a
/// shortest route from `start` through open passages (0 at the start), or
/// `usize::MAX` where no route leads.
pub fn djikstra(grid: &Grid, start: usize) -> (r: Vec<usize>)
    requires
        grid.wf(),
        start < grid.n(),
        grid.n() < usize::MAX - 1,
    ensures
        r@.len() == grid.n(),
        r@[start as int] == 0,
        forall|u: int, v: int| #[trigger] grid.linked(u, v) && r@[u] < usize::MAX ==> r@[v] <= r@[u] + 1,
        forall|v: int|
            0 <= v < grid.n() && r@[v] < usize::MAX ==> exists|q: Seq<usize>| is_path(grid, q, start as int, v) && q.len() == r@[v] + 1,
        forall|v: int, q: Seq<usize>| #[trigger] is_route(grid, q, start as int, v) ==> r@[v] < usize::MAX && r@[v] <= q.len() - 1,
{
    let cells = shortest_walk_cells(grid, start);
    let n = cells.len();
    let mut r: Vec<usize> = Vec::with_capacity(n);
    let mut k: usize = 0;
    while k < n
        invariant
            k <= n,
            n == cells@.len(),
            n == grid.n(),
            r@.len() == k,
            forall|v: int| 0 <= v < grid.n() && cells@[v] < usize::MAX ==> exists|q: Seq<usize>| is_path(grid, q, start as int, v) && q.len() == cells@[v],
            forall|j: int| 0 <= j < k ==> #[trigger] r@[j] == if cells@[j] == usize::MAX { usize::MAX } else { (cells@[j] - 1) as usize },
        decreases n - k,
    {
        let c = cells[k];
        if c == usize::MAX {
            r.push(usize::MAX);
        } else {
            proof {
                let q = choose|q: Seq<usize>| is_path(grid, q, start as int, k as int) && q.len() == cells@[k as int];
            }
            r.push(c - 1);
        }
        k = k + 1;
    }
    proof {
        let rr = r@;
        assert forall|v: int| 0 <= v < grid.n() && rr[v] < usize::MAX implies rr[v] < grid.n() by {
            let q = choose|q: Seq<usize>| is_path(grid, q, start as int, v) && q.len() == cells@[v];
            lemma_walk_len(grid, q, start as int);
        }
        assert(rr[start as int] == 0);
        assert forall|u: int, v: int| #[trigger] grid.linked(u, v) && rr[u] < usize::MAX implies rr[v] <= rr[u] + 1 by {
            assert(cells@[v] <= cells@[u] + 1);
            assert(0 <= v < grid.n()) by {
                grid.lemma_linked_symmetric(u, v);
            }
            let qu = choose|q: Seq<usize>| is_path(grid, q, start as int, u) && q.len() == cells@[u];
            lemma_walk_len(grid, qu, start as int);
            if cells@[v] < usize::MAX {
                let q = choose|q: Seq<usize>| is_path(grid, q, start as int, v) && q.len() == cells@[v];
            }
        }
        assert forall|v: int| 0 <= v < grid.n() && rr[v] < usize::MAX implies exists|q: Seq<usize>| is_path(grid, q, start as int, v) && q.len() == rr[v] + 1 by {
            let q = choose|q: Seq<usize>| is_path(grid, q, start as int, v) && q.len() == cells@[v];
            assert(is_path(grid, q, start as int, v) && q.len() == rr[v] + 1);
        }
        assert forall|v: int, q: Seq<usize>| #[trigger] is_route(grid, q, start as int, v) implies rr[v] < usize::MAX && rr[v] <= q.len() - 1 by {
            lemma_route_dist(grid, rr, start as int, q, v);
        }
    }
    r
}

} // verus!
