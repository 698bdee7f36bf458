use scrabble_cfr::scrabble::util::{
    coord_to_index, dim_to_stride, index_to_coord, Direction, Letter, Move, NextPositionIter,
    Position, PrevPositionIter,
};

#[test]
fn test_coord_to_index() {
    let coords: Vec<&[usize]> = vec![
        &[1, 5], // random position in the middle
        &[2, 2], // Last index
        &[0, 0, 1],
        &[7, 7, 4],
    ];
    let stride: Vec<&[usize]> = vec![
        &[15, 15], // 15x15 grid
        &[3, 3],   // 9x9 grid
        &[3, 3, 3],
        &[15, 15, 7],
    ];

    let expected = vec![20, 8, 1, 788];

    for i in 0..coords.len() {
        let actual = coord_to_index(coords[i], stride[i]);
        assert_eq!(actual, expected[i]);
    }
}

#[test]
fn test_coord_index_invertible() {
    let coords = vec![
        vec![0, 1, 3],
        vec![1, 5], // random position in the middle
        vec![2, 2], // Last index
    ];
    let dims: Vec<&[usize]> = vec![
        &[15, 15, 5],
        &[15, 15], // 15x15 grid
        &[3, 3],   // 9x9 grid
    ];

    for i in 0..coords.len() {
        let idx = coord_to_index(&coords[i], dims[i]);
        let actual = index_to_coord(idx, dims[i]);
        assert_eq!(actual, coords[i]);
    }
}

#[test]
fn strides_are_products_of_the_later_dimensions() {
    assert_eq!(dim_to_stride(&[15, 15, 7]), vec![105, 7, 1]);
    assert_eq!(dim_to_stride(&[4]), vec![1]);
    assert_eq!(dim_to_stride(&[]), Vec::<usize>::new());
    assert_eq!(dim_to_stride(&[3, 0, 5]), vec![0, 5, 1]);
}

#[test]
fn every_index_of_a_grid_round_trips() {
    let dims = [15usize, 15, 7];
    for idx in 0..(15 * 15 * 7) {
        let coord = index_to_coord(idx, &dims);
        assert!(coord[0] < 15 && coord[1] < 15 && coord[2] < 7);
        assert_eq!(coord_to_index(&coord, &dims), idx);
    }
}

#[test]
fn flip_is_an_involution() {
    for d in Direction::iter() {
        assert_ne!(d.flip(), d);
        assert_eq!(d.flip().flip(), d);
    }
    assert_eq!(Direction::iter(), [Direction::Across, Direction::Down]);
    assert_eq!(Direction::Across.flip(), Direction::Down);
}

#[test]
fn stepping_off_any_edge_gives_none() {
    for k in 0..15 {
        assert_eq!(Position { row: k, col: 14 }.next(Direction::Across), None);
        assert_eq!(Position { row: 14, col: k }.next(Direction::Down), None);
        assert_eq!(Position { row: k, col: 0 }.prev(Direction::Across), None);
        assert_eq!(Position { row: 0, col: k }.prev(Direction::Down), None);
    }
    let p = Position { row: 3, col: 4 };
    assert_eq!(p.next(Direction::Across), Some(Position { row: 3, col: 5 }));
    assert_eq!(p.next(Direction::Down), Some(Position { row: 4, col: 4 }));
    assert_eq!(p.prev(Direction::Across), Some(Position { row: 3, col: 3 }));
    assert_eq!(p.prev(Direction::Down), Some(Position { row: 2, col: 4 }));
}

#[test]
fn adjacent_lists_the_neighbours_on_the_board() {
    let middle = Position { row: 7, col: 7 }.adjacent();
    assert_eq!(
        middle,
        vec![
            Position { row: 7, col: 8 },
            Position { row: 7, col: 6 },
            Position { row: 8, col: 7 },
            Position { row: 6, col: 7 },
        ]
    );
    let corner = Position { row: 0, col: 0 }.adjacent();
    assert_eq!(corner, vec![Position { row: 0, col: 1 }, Position { row: 1, col: 0 }]);
    let last = Position { row: 14, col: 14 }.adjacent();
    assert_eq!(last, vec![Position { row: 14, col: 13 }, Position { row: 13, col: 14 }]);
}

#[test]
fn step_n_stops_at_the_edge() {
    let p = Position { row: 2, col: 10 };
    assert_eq!(p.step_n(0, Direction::Across), Some(p));
    assert_eq!(p.step_n(4, Direction::Across), Some(Position { row: 2, col: 14 }));
    assert_eq!(p.step_n(5, Direction::Across), None);
    assert_eq!(p.step_n(12, Direction::Down), Some(Position { row: 14, col: 10 }));
    assert_eq!(p.step_n(13, Direction::Down), None);
    assert_eq!(p.as_index(), 40);
}

#[test]
fn position_walks_go_to_the_edge_and_stay_there() {
    let mut forward: NextPositionIter = Position { row: 5, col: 12 }.iter_next(Direction::Across);
    assert_eq!(forward.next(), Some(Position { row: 5, col: 13 }));
    assert_eq!(forward.next(), Some(Position { row: 5, col: 14 }));
    assert_eq!(forward.next(), None);
    assert_eq!(forward.next(), None);
    let mut backward: PrevPositionIter = Position { row: 1, col: 9 }.iter_prev(Direction::Down);
    assert_eq!(backward.next(), Some(Position { row: 0, col: 9 }));
    assert_eq!(backward.next(), None);
    let mut p = Position { row: 1, col: 2 };
    assert_eq!(p.get(Direction::Across), 2);
    assert_eq!(p.get(Direction::Down), 1);
    p.set(Direction::Down, 9);
    assert_eq!(p, Position { row: 9, col: 2 });
}

#[test]
fn a_move_is_walked_cell_by_cell() {
    let m = Move {
        word: b"CAT".to_vec(),
        pos: Position { row: 3, col: 13 },
        dir: Direction::Across,
        score: 0,
    };
    let mut cells = m.iter();
    assert_eq!(cells.next(), Some((Position { row: 3, col: 13 }, b'C')));
    assert_eq!(cells.next(), Some((Position { row: 3, col: 14 }, b'A')));
    // the third letter would fall off the board
    assert_eq!(cells.next(), None);
    let down = Move { word: b"AT".to_vec(), pos: Position { row: 0, col: 0 }, dir: Direction::Down, score: 0 };
    let mut cells = down.iter();
    assert_eq!(cells.next(), Some((Position { row: 0, col: 0 }, b'A')));
    assert_eq!(cells.next(), Some((Position { row: 1, col: 0 }, b'T')));
    assert_eq!(cells.next(), None);
}

#[test]
fn letters_have_an_index_and_an_order() {
    assert_eq!(Letter::Letter(b'A').as_index(), 0);
    assert_eq!(Letter::Letter(b'Z').as_index(), 25);
    assert_eq!(Letter::Blank.as_index(), 27);
    assert!(Letter::Blank < Letter::Letter(b'A'));
    assert!(Letter::Letter(b'A') < Letter::Letter(b'B'));
    assert_eq!(Letter::from(b'?'), Letter::Blank);
    assert_eq!(Letter::from(b'Q'), Letter::Letter(b'Q'));
}
