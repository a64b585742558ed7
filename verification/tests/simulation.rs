use conway::cells::Cells;
use conway::game::Game;
use conway::snapshot::Snapshot;

#[test]
fn birth_then_alive_then_kill() {
    let mut cells = Cells::new(10);
    assert!(!cells.is_alive(3, 4));
    cells.birth(3, 4);
    assert!(cells.is_alive(3, 4));
    cells.birth(3, 4);
    assert!(cells.is_alive(3, 4));
    assert_eq!(cells.num_living_cells(), 1);
    cells.kill(3, 4);
    assert!(!cells.is_alive(3, 4));
    cells.kill(3, 4);
    assert!(!cells.is_alive(3, 4));
    assert_eq!(cells.num_living_cells(), 0);
}

#[test]
fn birth_multiple_marks_each() {
    let mut cells = Cells::new(10);
    cells.birth_multiple(&[(5, 5), (6, 6), (5, 5)]);
    assert!(cells.is_alive(5, 5));
    assert!(cells.is_alive(6, 6));
    assert_eq!(cells.num_living_cells(), 2);
}

#[test]
fn neighbors_interior_has_eight() {
    let cells = Cells::new(10);
    let n = cells.neighbors(4, 7);
    assert_eq!(n.len(), 8);
    assert_eq!(
        n,
        vec![(3, 6), (3, 7), (3, 8), (4, 6), (4, 8), (5, 6), (5, 7), (5, 8)]
    );
}

#[test]
fn neighbors_at_far_interior_edge_still_eight() {
    // row and column equal to size - 1 are still interior
    let cells = Cells::new(10);
    assert_eq!(cells.neighbors(9, 9).len(), 8);
    assert_eq!(cells.neighbors(9, 1).len(), 8);
    assert_eq!(cells.neighbors(1, 9).len(), 8);
}

#[test]
fn neighbors_border_and_beyond_are_empty() {
    let cells = Cells::new(10);
    assert!(cells.neighbors(0, 5).is_empty());
    assert!(cells.neighbors(5, 0).is_empty());
    assert!(cells.neighbors(10, 5).is_empty());
    assert!(cells.neighbors(5, 10).is_empty());
    assert!(cells.neighbors(0, 0).is_empty());
    assert!(cells.neighbors(25, 25).is_empty());
}

#[test]
fn num_living_neighbors_counts_only_live_ones() {
    let mut cells = Cells::new(10);
    cells.birth(3, 3);
    cells.birth(3, 4);
    cells.birth(5, 5);
    assert_eq!(cells.num_living_neighbors(4, 4), 3);
    assert_eq!(cells.num_living_neighbors(3, 3), 1);
    assert_eq!(cells.num_living_neighbors(8, 8), 0);
    // border cells read zero whatever stands next to them
    cells.birth(1, 5);
    assert_eq!(cells.num_living_neighbors(0, 5), 0);
}

#[test]
fn living_cells_and_neighbors_covers_active_region() {
    let mut cells = Cells::new(10);
    cells.birth(4, 4);
    let active = cells.living_cells_and_neighbors();
    assert_eq!(active.len(), 9);
    assert!(active.contains(&(4, 4)));
    assert!(active.contains(&(3, 3)));
    assert!(active.contains(&(5, 5)));
    assert!(!active.contains(&(6, 6)));
    // a border cell contributes no neighbors, only itself
    let mut edge = Cells::new(10);
    edge.birth(0, 4);
    let active_edge = edge.living_cells_and_neighbors();
    assert_eq!(active_edge, vec![(0, 4)]);
}

#[test]
fn signatures_ignore_insertion_order() {
    let mut snapshot = Snapshot::new(10);
    snapshot.add_cell(1, 1);
    snapshot.add_cell(2, 2);
    snapshot.add_cell(3, 3);
    snapshot.commit_cells();
    assert!(!snapshot.has_repeat());
    snapshot.add_cell(3, 3);
    snapshot.add_cell(1, 1);
    snapshot.add_cell(2, 2);
    snapshot.add_cell(1, 1);
    snapshot.commit_cells();
    assert!(snapshot.has_repeat());
}

#[test]
fn different_sets_do_not_repeat() {
    let mut snapshot = Snapshot::new(10);
    snapshot.add_cell(1, 1);
    snapshot.commit_cells();
    snapshot.add_cell(1, 2);
    snapshot.commit_cells();
    snapshot.add_cell(1, 1);
    snapshot.add_cell(1, 2);
    snapshot.commit_cells();
    assert!(!snapshot.has_repeat());
}

#[test]
fn blinker_repeats_with_period_two() {
    let mut cells = Cells::new(5);
    cells.birth_multiple(&[(1, 2), (2, 2), (3, 2)]);
    let snapshot = Snapshot::new(5);
    let mut game = Game::new(Some(snapshot), cells);

    game.step();
    // the vertical bar fell over
    assert!(game.cells.is_alive(2, 1));
    assert!(game.cells.is_alive(2, 2));
    assert!(game.cells.is_alive(2, 3));
    assert_eq!(game.cells.num_living_cells(), 3);
    assert!(!game.snapshot.as_ref().unwrap().has_repeat());

    game.step();
    assert!(!game.snapshot.as_ref().unwrap().has_repeat());

    game.step();
    let snap = game.snapshot.as_ref().unwrap();
    assert!(snap.has_repeat());
    assert_eq!(snap.period(), 2);
}

#[test]
fn lone_cell_goes_extinct() {
    let mut cells = Cells::new(10);
    cells.birth(5, 5);
    let mut game = Game::new(None, cells);
    game.step();
    assert_eq!(game.cells.num_living_cells(), 0);
}

#[test]
fn lone_border_cell_goes_extinct() {
    let mut cells = Cells::new(10);
    cells.birth(0, 3);
    let mut game = Game::new(None, cells);
    game.step();
    assert_eq!(game.cells.num_living_cells(), 0);
}

#[test]
fn packed_block_golden_step() {
    // a full 3x3 block: corners survive with three neighbors, edges die of
    // overcrowding with five, the center dies with eight, and the four cells
    // over the edge midpoints are born with three
    let mut cells = Cells::new(10);
    cells.birth_multiple(&[
        (2, 2),
        (2, 3),
        (2, 4),
        (3, 2),
        (3, 3),
        (3, 4),
        (4, 2),
        (4, 3),
        (4, 4),
    ]);
    assert_eq!(cells.num_living_neighbors(3, 3), 8);
    let mut game = Game::new(None, cells);
    game.step();
    let expected = [
        (1, 3),
        (2, 2),
        (2, 4),
        (3, 1),
        (3, 5),
        (4, 2),
        (4, 4),
        (5, 3),
    ];
    for (i, j) in expected {
        assert!(game.cells.is_alive(i, j), "expected ({i},{j}) alive");
    }
    assert_eq!(game.cells.num_living_cells(), 8);
    assert!(!game.cells.is_alive(3, 3));
}

#[test]
fn out_of_range_cell_reads_isolated_and_dies() {
    let mut cells = Cells::new(10);
    cells.birth(20, 20);
    assert!(cells.is_alive(20, 20));
    assert_eq!(cells.num_living_neighbors(20, 20), 0);
    let mut game = Game::new(None, cells);
    game.step();
    assert!(!game.cells.is_alive(20, 20));
}

#[test]
fn stepping_without_tracker_leaves_none() {
    let mut cells = Cells::new(6);
    cells.birth(2, 2);
    cells.birth(2, 3);
    cells.birth(3, 2);
    cells.birth(3, 3);
    let mut game = Game::new(None, cells);
    game.step();
    // a 2x2 block is still: every member keeps three neighbors
    assert_eq!(game.cells.num_living_cells(), 4);
    assert!(game.snapshot.is_none());
}

#[test]
fn still_block_repeats_immediately() {
    let mut cells = Cells::new(6);
    cells.birth_multiple(&[(2, 2), (2, 3), (3, 2), (3, 3)]);
    let mut game = Game::new(Some(Snapshot::new(6)), cells);
    game.step();
    assert!(!game.snapshot.as_ref().unwrap().has_repeat());
    game.step();
    let snap = game.snapshot.as_ref().unwrap();
    assert!(snap.has_repeat());
    assert_eq!(snap.period(), 2);
}
