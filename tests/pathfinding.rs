use maze_lib::grid::Grid;
use maze_lib::mazegen::{self, Algo};
use maze_lib::pathfinding::algos::{a_star, dfs, djikstra};
use maze_lib::pathfinding::diagnostic_map::{DiagMap, DiagStatus};
use maze_lib::pathfinding::heuristics::{manhattan_h, null_h};
use rand::SeedableRng;
use rand_xorshift::XorShiftRng;

fn is_valid_path(g: &Grid, path: &[usize], start: usize, goal: usize) -> bool {
    path.first() == Some(&start)
        && path.last() == Some(&goal)
        && path.windows(2).all(|w| g.check_if_neighbors_and_connected(w[0], w[1]))
}

fn maze(algo: Algo, w: usize, h: usize, seed: u64) -> Grid {
    let mut rng = XorShiftRng::seed_from_u64(seed);
    let mut g = Grid::new(w, h);
    mazegen::carve_maze(&mut g, &mut rng, algo);
    g
}

#[test]
fn heuristics_values() {
    assert_eq!(null_h(3, 17, 5), 0);
    assert_eq!(manhattan_h(0, 8, 3), 4);
    assert_eq!(manhattan_h(8, 0, 3), 4);
    assert_eq!(manhattan_h(7, 7, 4), 0);
    assert_eq!(manhattan_h(2, 9, 5), 2 + 1);
    assert_eq!(manhattan_h(13, 1, 4), 0 + 3);
}

#[test]
fn a_star_on_open_three_by_three() {
    let mut g = Grid::new(3, 3);
    mazegen::empty(&mut g);
    let d = a_star(&g, manhattan_h, 0, 8, false).unwrap();
    assert_eq!(d.path.len(), 5);
    assert!(is_valid_path(&g, &d.path, 0, 8));
    assert!(d.nodes_expanded <= 9);
    assert_eq!(d.nodes_generated, d.diag.generated_history.len());
    assert_eq!(d.nodes_expanded, d.diag.expanded_history.len());
    assert_eq!(d.diag.num_generated_history.len(), d.nodes_expanded);
    assert_eq!(d.diag.num_generated_history.iter().sum::<usize>(), d.nodes_generated);
    assert_eq!(d.diag.inner[0], DiagStatus::Expanded);
}

#[test]
fn ucs_and_a_star_agree_on_length() {
    for (k, algo) in [Algo::Kruskal, Algo::RecursiveBacktracker, Algo::Wilson, Algo::PrimTrue].iter().enumerate() {
        let g = maze(*algo, 15, 11, 5 + k as u64);
        for (s, t) in [(0, 164), (3, 100), (80, 2), (7, 7)] {
            let ucs = a_star(&g, null_h, s, t, false).unwrap();
            let astar = a_star(&g, manhattan_h, s, t, false).unwrap();
            assert_eq!(ucs.path.len(), astar.path.len());
            assert!(is_valid_path(&g, &astar.path, s, t));
        }
    }
}

#[test]
fn every_strategy_finds_the_unique_path_in_a_perfect_maze() {
    for seed in 0..4 {
        let g = maze(Algo::HuntAndKill, 13, 9, seed);
        let (s, t) = (0, 13 * 9 - 1);
        let ucs = a_star(&g, null_h, s, t, false).unwrap();
        let astar = a_star(&g, manhattan_h, s, t, false).unwrap();
        let greedy = a_star(&g, manhattan_h, s, t, true).unwrap();
        let depth = dfs(&g, s, t).unwrap();
        assert_eq!(ucs.path, astar.path);
        assert_eq!(ucs.path, greedy.path);
        assert_eq!(ucs.path, depth.path);
        for d in [&ucs, &astar, &greedy, &depth] {
            assert!(d.nodes_expanded <= 13 * 9);
            let mut seen = vec![false; 13 * 9];
            for &c in d.diag.expanded_history.iter() {
                assert!(!seen[c]);
                seen[c] = true;
            }
        }
    }
}

#[test]
fn greedy_and_dfs_are_never_shorter_than_ucs() {
    let mut g = Grid::new(8, 8);
    mazegen::empty(&mut g);
    let ucs = a_star(&g, null_h, 0, 63, false).unwrap();
    let greedy = a_star(&g, manhattan_h, 0, 63, true).unwrap();
    let depth = dfs(&g, 0, 63).unwrap();
    assert_eq!(ucs.path.len(), 15);
    assert!(greedy.path.len() >= ucs.path.len());
    assert!(depth.path.len() >= ucs.path.len());
    assert!(is_valid_path(&g, &greedy.path, 0, 63));
    assert!(is_valid_path(&g, &depth.path, 0, 63));
}

#[test]
fn single_row_search_walks_the_row() {
    let g = maze(Algo::Sidewinder, 7, 1, 1);
    let d = dfs(&g, 0, 6).unwrap();
    assert_eq!(d.path, vec![0, 1, 2, 3, 4, 5, 6]);
    assert_eq!(d.nodes_expanded, 6);
    let d = a_star(&g, manhattan_h, 6, 0, false).unwrap();
    assert_eq!(d.path, vec![6, 5, 4, 3, 2, 1, 0]);
    assert_eq!(d.nodes_expanded, 6);
}

#[test]
fn start_equal_to_goal() {
    let g = maze(Algo::Kruskal, 4, 4, 2);
    let d = a_star(&g, manhattan_h, 5, 5, false).unwrap();
    assert_eq!(d.path, vec![5]);
    assert_eq!(d.nodes_expanded, 0);
    assert_eq!(d.nodes_generated, 0);
    let d = dfs(&g, 5, 5).unwrap();
    assert_eq!(d.path, vec![5]);
    assert_eq!(d.nodes_expanded, 0);
    assert_eq!(d.nodes_generated, 0);
}

#[test]
fn unreachable_goal_gives_none() {
    let mut g = Grid::new(3, 1);
    g.connect_cell_east(0);
    assert!(a_star(&g, manhattan_h, 0, 2, false).is_none());
    assert!(dfs(&g, 0, 2).is_none());
    let best = djikstra(&g, 0);
    assert_eq!(best, vec![0, 1, usize::MAX]);
}

#[test]
fn dijkstra_gives_shortest_distances() {
    let mut g = Grid::new(3, 3);
    mazegen::empty(&mut g);
    let best = djikstra(&g, 0);
    assert_eq!(best, vec![0, 1, 2, 1, 2, 3, 2, 3, 4]);
    let g = maze(Algo::Eller, 9, 7, 4);
    let best = djikstra(&g, 10);
    for t in 0..63 {
        let d = a_star(&g, null_h, 10, t, false).unwrap();
        assert_eq!(best[t], d.path.len() - 1);
    }
}

#[test]
fn dfs_pushes_the_nearest_cell_last() {
    let mut g = Grid::new(3, 3);
    mazegen::empty(&mut g);
    // from the centre, 1 (north) and 5 (east) are both one step from the
    // goal 2; the sort keeps their order, so 5, pushed later, is on top
    let d = dfs(&g, 4, 2).unwrap();
    assert_eq!(d.path, vec![4, 5, 2]);
    assert_eq!(d.diag.expanded_history, vec![4, 5]);
    assert_eq!(d.diag.generated_history, vec![1, 7, 5, 3, 2, 8]);
    assert_eq!(d.diag.num_generated_history, vec![4, 2]);
    assert_eq!(d.nodes_generated, 6);
}

#[test]
fn diag_map_histories() {
    let mut m = DiagMap::new(4);
    m.mark_generated(1);
    m.mark_generated(2);
    m.mark_generated(1);
    m.mark_expanded(1);
    m.mark_generated(3);
    m.mark_expanded(3);
    m.mark_generated(1);
    assert_eq!(m.status(0), DiagStatus::Unexplored);
    assert_eq!(m.status(1), DiagStatus::Expanded);
    assert_eq!(m.status(2), DiagStatus::Generated);
    assert_eq!(m.status(3).code(), 0x03);
    assert_eq!(m.status(2).code(), 0x01);
    assert_eq!(m.status(0).code(), 0x00);
    let f = m.finalize();
    assert_eq!(f.generated_history, vec![1, 2, 1, 3, 1]);
    assert_eq!(f.expanded_history, vec![1, 3]);
    assert_eq!(f.num_generated_history, vec![3, 1]);
}
