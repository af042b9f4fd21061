use maze_lib::grid::Grid;
use maze_lib::mazegen::{self, Algo};
use rand::SeedableRng;
use rand_xorshift::XorShiftRng;

const PERFECT: [Algo; 11] = [
    Algo::BinaryTree,
    Algo::Sidewinder,
    Algo::AldousBroder,
    Algo::Wilson,
    Algo::HuntAndKill,
    Algo::RecursiveBacktracker,
    Algo::Kruskal,
    Algo::Eller,
    Algo::RecursiveDivision,
    Algo::PrimSimplified,
    Algo::PrimTrue,
];

fn edge_count(g: &Grid) -> usize {
    g.inner.iter().map(|c| c.south_connected as usize + c.east_connected as usize).sum()
}

fn reached_from_zero(g: &Grid) -> usize {
    let mut seen = vec![false; g.size()];
    let mut stack = vec![0usize];
    seen[0] = true;
    let mut count = 1;
    while let Some(i) = stack.pop() {
        for j in 0..g.size() {
            if !seen[j] && g.check_if_neighbors_and_connected(i, j) {
                seen[j] = true;
                count += 1;
                stack.push(j);
            }
        }
    }
    count
}

fn symmetric(g: &Grid) -> bool {
    let w = g.width;
    (0..g.size()).all(|i| {
        let c = g.inner[i];
        (!c.north_connected || (i >= w && g.inner[i - w].south_connected))
            && (!c.south_connected || (i + w < g.size() && g.inner[i + w].north_connected))
            && (!c.east_connected || (i % w != w - 1 && g.inner[i + 1].west_connected))
            && (!c.west_connected || (i % w != 0 && g.inner[i - 1].east_connected))
    })
}

#[test]
fn every_generator_makes_a_spanning_tree() {
    for (k, algo) in PERFECT.iter().enumerate() {
        for (w, h) in [(10, 10), (7, 4), (1, 6), (6, 1), (2, 2), (1, 1)] {
            let mut rng = XorShiftRng::seed_from_u64(1000 + k as u64);
            let mut g = Grid::new(w, h);
            assert!(mazegen::carve_maze(&mut g, &mut rng, *algo));
            assert_eq!(edge_count(&g), w * h - 1, "algorithm {} on {}x{}", k, w, h);
            assert_eq!(reached_from_zero(&g), w * h, "algorithm {} on {}x{}", k, w, h);
            assert!(symmetric(&g));
        }
    }
}

#[test]
fn connectivity_is_symmetric_for_every_generator() {
    for algo in PERFECT.iter().chain([Algo::Empty].iter()) {
        let mut rng = XorShiftRng::seed_from_u64(7);
        let mut g = Grid::new(9, 6);
        assert!(mazegen::carve_maze(&mut g, &mut rng, *algo));
        assert!(symmetric(&g));
    }
}

#[test]
fn empty_connects_everything_and_has_no_dead_ends() {
    let mut g = Grid::new(4, 3);
    mazegen::empty(&mut g);
    assert_eq!(g.dead_ends().len(), 0);
    assert_eq!(edge_count(&g), 3 * 3 + 4 * 2);
    assert_eq!(g.inner[0].num_connections(), 2);
    assert_eq!(g.inner[5].num_connections(), 4);
    assert_eq!(g.inner[1].num_connections(), 3);
    let mut g = Grid::new(2, 2);
    mazegen::empty(&mut g);
    assert_eq!(g.dead_ends().len(), 0);
}

#[test]
fn same_seed_same_maze() {
    for algo in PERFECT.iter() {
        let mut g = Grid::new(12, 9);
        let mut rng = XorShiftRng::seed_from_u64(42);
        assert!(mazegen::carve_maze(&mut g, &mut rng, *algo));
        let first: Vec<(bool, bool, bool, bool)> = g
            .inner
            .iter()
            .map(|c| (c.north_connected, c.south_connected, c.east_connected, c.west_connected))
            .collect();
        g.reset();
        let mut rng = XorShiftRng::seed_from_u64(42);
        assert!(mazegen::carve_maze(&mut g, &mut rng, *algo));
        let second: Vec<(bool, bool, bool, bool)> = g
            .inner
            .iter()
            .map(|c| (c.north_connected, c.south_connected, c.east_connected, c.west_connected))
            .collect();
        assert_eq!(first, second);
    }
}

#[test]
fn single_row_is_one_corridor() {
    for algo in PERFECT.iter().chain([Algo::Empty].iter()) {
        let mut rng = XorShiftRng::seed_from_u64(3);
        let mut g = Grid::new(8, 1);
        assert!(mazegen::carve_maze(&mut g, &mut rng, *algo));
        for i in 0..7 {
            assert!(g.inner[i].east_connected && g.inner[i + 1].west_connected);
        }
        for c in g.inner.iter() {
            assert!(!c.north_connected && !c.south_connected);
        }
    }
}

#[test]
fn binary_tree_leaves_the_north_east_corner_closed_toward_the_border() {
    let mut rng = XorShiftRng::seed_from_u64(11);
    let mut g = Grid::new(6, 6);
    mazegen::binary_tree(&mut g, &mut rng);
    // the top row is one corridor running east
    for i in 0..5 {
        assert!(g.inner[i].east_connected);
    }
    // the last column is one corridor running north
    for r in 1..6 {
        assert!(g.inner[r * 6 + 5].north_connected);
    }
    assert!(!g.inner[5].north_connected && !g.inner[5].east_connected);
}

#[test]
fn backtracker_has_fewer_dead_ends_than_binary_tree_on_average() {
    let mut rng = XorShiftRng::seed_from_u64(99);
    let mut g = Grid::new(20, 20);
    let mut backtracker = 0;
    let mut binary = 0;
    for _ in 0..20 {
        g.reset();
        mazegen::recursive_backtracker(&mut g, &mut rng);
        backtracker += g.dead_ends().len();
        g.reset();
        mazegen::binary_tree(&mut g, &mut rng);
        binary += g.dead_ends().len();
    }
    assert!(backtracker < binary);
}

#[test]
fn different_seeds_give_different_mazes() {
    for (k, algo) in PERFECT.iter().enumerate() {
        let cells = |seed: u64| -> Vec<(bool, bool)> {
            let mut rng = XorShiftRng::seed_from_u64(seed);
            let mut g = Grid::new(10, 10);
            assert!(mazegen::carve_maze(&mut g, &mut rng, *algo));
            g.inner.iter().map(|c| (c.south_connected, c.east_connected)).collect()
        };
        assert_ne!(cells(1), cells(2), "algorithm {}", k);
    }
}

#[test]
fn recursive_division_on_a_two_by_two_grid() {
    let mut rng = XorShiftRng::seed_from_u64(8);
    let mut g = Grid::new(2, 2);
    mazegen::recursive_division(&mut g, &mut rng);
    assert_eq!(edge_count(&g), 3);
    assert_eq!(reached_from_zero(&g), 4);
}

#[test]
fn binary_tree_opens_one_way_per_cell() {
    let mut rng = XorShiftRng::seed_from_u64(21);
    let mut g = Grid::new(5, 4);
    mazegen::binary_tree(&mut g, &mut rng);
    for k in 0..20 {
        let c = g.inner[k];
        if k == 4 {
            assert!(!c.north_connected && !c.east_connected);
        } else {
            assert!(c.north_connected != c.east_connected);
        }
    }
}

#[test]
fn walks_report_coverage() {
    let mut rng = XorShiftRng::seed_from_u64(5);
    let mut g = Grid::new(6, 5);
    assert!(mazegen::aldous_broder(&mut g, &mut rng));
    g.reset();
    assert!(mazegen::wilson(&mut g, &mut rng));
    assert_eq!(edge_count(&g), 29);
}
