use conway::board::Board;
use conway::codec::deserialize_cells;
use conway::codec::serialize_cells;

#[test]
fn cells_serialize_to_dashed_pairs() {
    let cells = vec![(1u32, 1u32), (2, 2), (3, 3)];
    let bytes = serialize_cells(&cells);
    assert_eq!(bytes, b"1-1,2-2,3-3".to_vec());
}

#[test]
fn single_cell_has_no_separator() {
    let cells = vec![(12u32, 340u32)];
    assert_eq!(serialize_cells(&cells), b"12-340".to_vec());
}

#[test]
fn empty_list_serializes_to_empty_bytes() {
    let cells: Vec<(u32, u32)> = vec![];
    assert_eq!(serialize_cells(&cells), Vec::<u8>::new());
}

#[test]
fn round_trip_preserves_cells() {
    let cells = vec![(1u32, 1u32), (2, 2), (3, 3)];
    let bytes = serialize_cells(&cells);
    let back = deserialize_cells(&bytes).expect("canonical bytes must decode");
    assert_eq!(back, cells);
}

#[test]
fn round_trip_preserves_extreme_values() {
    let cells = vec![(0u32, u32::MAX), (4294967294, 0), (10, 100000)];
    let bytes = serialize_cells(&cells);
    let back = deserialize_cells(&bytes).expect("canonical bytes must decode");
    assert_eq!(back, cells);
}

#[test]
fn malformed_text_is_rejected() {
    assert!(deserialize_cells(&Vec::new()).is_none());
    assert!(deserialize_cells(&b"1-".to_vec()).is_none());
    assert!(deserialize_cells(&b"-1".to_vec()).is_none());
    assert!(deserialize_cells(&b"1-2,".to_vec()).is_none());
    assert!(deserialize_cells(&b"1,2".to_vec()).is_none());
    assert!(deserialize_cells(&b"01-2".to_vec()).is_none());
    assert!(deserialize_cells(&b"1-2 ".to_vec()).is_none());
    assert!(deserialize_cells(&b"4294967296-1".to_vec()).is_none());
    assert!(deserialize_cells(&b"12345678901-1".to_vec()).is_none());
}

#[test]
fn zero_alone_is_canonical() {
    let bytes = b"0-0,0-7".to_vec();
    let cells = deserialize_cells(&bytes).unwrap();
    assert_eq!(cells, vec![(0u32, 0u32), (0, 7)]);
    assert_eq!(serialize_cells(&cells), bytes);
}

#[test]
fn board_reseeds_a_grid() {
    let board = Board {
        size: 10,
        cells: vec![(1, 1), (2, 2), (3, 3)],
        period: Some(10),
        iterations: 100,
    };
    let grid = board.seed_grid();
    assert!(grid.is_alive(1, 1));
    assert!(grid.is_alive(2, 2));
    assert!(grid.is_alive(3, 3));
    assert_eq!(grid.num_living_cells(), 3);
    assert_eq!(grid.size(), 10);
}

#[test]
fn saved_record_round_trips_through_text() {
    // the persisted record: size, cells, period, iterations; its cell list
    // goes through the textual codec and back unchanged
    let board = Board {
        size: 10,
        cells: vec![(1, 1), (2, 2), (3, 3)],
        period: Some(10),
        iterations: 100,
    };
    let stored = serialize_cells(&board.cells);
    let restored = Board {
        size: board.size,
        cells: deserialize_cells(&stored).expect("stored text must decode"),
        period: board.period,
        iterations: board.iterations,
    };
    assert_eq!(restored.size, board.size);
    assert_eq!(restored.cells, board.cells);
    assert_eq!(restored.period, board.period);
    assert_eq!(restored.iterations, board.iterations);
}
