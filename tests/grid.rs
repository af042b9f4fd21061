use maze_lib::grid::{Cell, Grid};

#[test]
fn grid_has_neighbor() {
    let g = Grid::new(5, 5);
    assert_eq!(g.has_neighbor_north(0), false);
    assert_eq!(g.has_neighbor_south(0), true);
    assert_eq!(g.has_neighbor_east(0), true);
    assert_eq!(g.has_neighbor_west(0), false);
    assert_eq!(g.has_neighbor_north(4), false);
    assert_eq!(g.has_neighbor_south(4), true);
    assert_eq!(g.has_neighbor_east(4), false);
    assert_eq!(g.has_neighbor_west(4), true);
    assert_eq!(g.has_neighbor_north(45), true);
    assert_eq!(g.has_neighbor_south(45), false);
    assert_eq!(g.has_neighbor_east(45), true);
    assert_eq!(g.has_neighbor_west(45), false);
    assert_eq!(g.has_neighbor_north(49), true);
    assert_eq!(g.has_neighbor_south(49), false);
    assert_eq!(g.has_neighbor_east(49), false);
    assert_eq!(g.has_neighbor_west(49), true);
    assert_eq!(g.has_neighbor_north(7), true);
    assert_eq!(g.has_neighbor_south(7), true);
    assert_eq!(g.has_neighbor_east(7), true);
    assert_eq!(g.has_neighbor_west(7), true);
}

#[test]
fn new_grid_is_closed() {
    let g = Grid::new(4, 3);
    assert_eq!(g.size(), 12);
    assert_eq!(g.width, 4);
    assert_eq!(g.height, 3);
    for c in g.inner.iter() {
        assert_eq!(c.num_connections(), 0);
    }
}

#[test]
fn neighbors_in_order() {
    let g = Grid::new(3, 3);
    let mut buf = vec![];
    g.neighbors(4, &mut buf);
    assert_eq!(buf, vec![1, 7, 5, 3]);
    buf.clear();
    g.neighbors(0, &mut buf);
    assert_eq!(buf, vec![3, 1]);
    buf.clear();
    g.neighbors(8, &mut buf);
    assert_eq!(buf, vec![5, 7]);
    // appends to what is there
    g.neighbors(2, &mut buf);
    assert_eq!(buf, vec![5, 7, 5, 1]);
}

#[test]
fn connect_sets_both_sides() {
    let mut g = Grid::new(3, 3);
    g.connect_cell_north(4);
    assert!(g.inner[4].north_connected && g.inner[1].south_connected);
    g.connect_cell_south(4);
    assert!(g.inner[4].south_connected && g.inner[7].north_connected);
    g.connect_cell_east(4);
    assert!(g.inner[4].east_connected && g.inner[5].west_connected);
    g.connect_cell_west(4);
    assert!(g.inner[4].west_connected && g.inner[3].east_connected);
    assert_eq!(g.inner[4].num_connections(), 4);
    g.disconnect_cell_north(4);
    assert!(!g.inner[4].north_connected && !g.inner[1].south_connected);
    g.disconnect_cell_south(4);
    assert!(!g.inner[4].south_connected && !g.inner[7].north_connected);
    g.disconnect_cell_east(4);
    assert!(!g.inner[4].east_connected && !g.inner[5].west_connected);
    g.disconnect_cell_west(4);
    assert!(!g.inner[4].west_connected && !g.inner[3].east_connected);
    for c in g.inner.iter() {
        assert_eq!(c.num_connections(), 0);
    }
}

#[test]
fn connect_neighbors_picks_direction() {
    let mut g = Grid::new(3, 3);
    g.connect_neighbors(4, 1);
    assert!(g.inner[4].north_connected && g.inner[1].south_connected);
    g.connect_neighbors(4, 7);
    assert!(g.inner[4].south_connected);
    g.connect_neighbors(4, 5);
    assert!(g.inner[4].east_connected);
    g.connect_neighbors(4, 3);
    assert!(g.inner[4].west_connected);
    assert!(g.check_if_neighbors_and_connected(4, 1));
    assert!(g.check_if_neighbors_and_connected(1, 4));
    assert!(g.check_if_neighbors_and_connected(5, 4));
    assert!(!g.check_if_neighbors_and_connected(0, 1));
    assert!(!g.check_if_neighbors_and_connected(0, 8));
}

#[test]
fn single_column_uses_north_and_south() {
    let mut g = Grid::new(1, 3);
    g.connect_neighbors(0, 1);
    assert!(g.inner[0].south_connected && g.inner[1].north_connected);
    assert!(!g.inner[0].east_connected);
    assert!(g.check_if_neighbors_and_connected(1, 0));
}

#[test]
fn dead_ends_and_reset() {
    let mut g = Grid::new(3, 1);
    g.connect_cell_east(0);
    g.connect_cell_east(1);
    let d = g.dead_ends();
    assert_eq!(d.len(), 2);
    assert!(d[0].east_connected && !d[0].west_connected);
    assert!(d[1].west_connected && !d[1].east_connected);
    g.reset();
    assert_eq!(g.dead_ends().len(), 0);
    assert_eq!(g.size(), 3);
    for c in g.inner.iter() {
        assert_eq!(c.num_connections(), 0);
    }
}

#[test]
fn get_and_get_mut() {
    let mut g = Grid::new(2, 2);
    assert!(g.get(4).is_none());
    assert_eq!(g.get(3).unwrap().num_connections(), 0);
    if let Some(c) = g.get_mut(3) {
        c.north_connected = true;
    }
    assert!(g.inner[3].north_connected);
    assert!(g.get_mut(9).is_none());
    let c = Cell::default();
    assert_eq!(c.num_connections(), 0);
}
