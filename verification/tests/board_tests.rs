use scrabble_cfr::scrabble::bag::Bag;
use scrabble_cfr::scrabble::board::{
    is_lower_case, premium_layout, tile_from_label, to_upper, ScrabbleBoard, Tile,
};
use scrabble_cfr::scrabble::util::{Direction, Letter, Move, Position, SquareEffect};

fn at(row: usize, col: usize) -> Position {
    Position { row, col }
}

#[test]
fn the_empty_board_has_the_standard_premium_squares() {
    let board = ScrabbleBoard::empty();
    let tw = [(0, 0), (0, 7), (0, 14), (7, 0), (7, 14), (14, 0), (14, 7), (14, 14)];
    let dw = [
        (1, 1), (2, 2), (3, 3), (4, 4), (10, 10), (11, 11), (12, 12), (13, 13),
        (1, 13), (2, 12), (3, 11), (4, 10), (10, 4), (11, 3), (12, 2), (13, 1),
    ];
    let tl = [
        (1, 5), (1, 9), (5, 1), (5, 5), (5, 9), (5, 13), (9, 1), (9, 5), (9, 9), (9, 13),
        (13, 5), (13, 9),
    ];
    let dl = [
        (0, 3), (0, 11), (2, 6), (2, 8), (3, 0), (3, 7), (3, 14), (6, 2), (6, 6), (6, 8),
        (6, 12), (7, 3), (7, 11), (8, 2), (8, 6), (8, 8), (8, 12), (11, 0), (11, 7), (11, 14),
        (12, 6), (12, 8), (14, 3), (14, 11),
    ];
    for row in 0..15 {
        for col in 0..15 {
            let expected = if (row, col) == (7, 7) {
                Tile::Special(SquareEffect::Center)
            } else if tw.contains(&(row, col)) {
                Tile::Special(SquareEffect::TripleWord)
            } else if dw.contains(&(row, col)) {
                Tile::Special(SquareEffect::DoubleWord)
            } else if tl.contains(&(row, col)) {
                Tile::Special(SquareEffect::TripleLetter)
            } else if dl.contains(&(row, col)) {
                Tile::Special(SquareEffect::DoubleLetter)
            } else {
                Tile::Empty
            };
            assert_eq!(board.tile(at(row, col)), expected, "at {} {}", row, col);
            assert_eq!(premium_layout(row, col), expected);
            assert!(!board.is_letter(at(row, col)));
            assert!(!board.is_anchor(at(row, col)));
            assert!(!board.is_blank(at(row, col)));
        }
    }
    assert!(board.placements().is_empty());
}

#[test]
fn placing_a_word_costs_a_tile_for_each_free_cell() {
    let mut board = ScrabbleBoard::empty();
    let used = board.place_word(b"HELL", at(7, 2), Direction::Across);
    assert_eq!(
        used,
        vec![Letter::Letter(b'H'), Letter::Letter(b'E'), Letter::Letter(b'L'), Letter::Letter(b'L')]
    );
    assert_eq!(board.tile(at(7, 2)), Tile::Letter(Letter::Letter(b'H')));
    assert_eq!(board.tile(at(7, 5)), Tile::Letter(Letter::Letter(b'L')));
    assert_eq!(board.tile(at(7, 6)), Tile::Empty);
    assert_eq!(board.tile(at(7, 7)), Tile::Special(SquareEffect::Center));
    // four letters were there before, one tile comes from the rack
    let used = board.place_word(b"HELLo", at(7, 2), Direction::Across);
    assert_eq!(used, vec![Letter::Blank]);
    assert_eq!(used.len() + 4, 5);
    assert_eq!(board.tile(at(7, 6)), Tile::Letter(Letter::Letter(b'O')));
    assert!(board.is_blank(at(7, 6)));
    assert!(!board.is_blank(at(7, 5)));
    // a crossing word keeps the letter it crosses
    let used = board.place_word(b"LOW", at(6, 6), Direction::Down);
    assert_eq!(used, vec![Letter::Letter(b'L'), Letter::Letter(b'W')]);
    assert_eq!(board.tile(at(8, 6)), Tile::Letter(Letter::Letter(b'W')));
    assert!(board.is_blank(at(7, 6)));
    let log = board.placements();
    assert_eq!(log.len(), 3);
    assert_eq!(log[1].word, b"HELLo".to_vec());
    assert_eq!(log[2].pos, at(6, 6));
    assert_eq!(log[2].dir, Direction::Down);
}

#[test]
fn placing_a_word_twice_changes_nothing_the_second_time() {
    let mut board = ScrabbleBoard::empty();
    let first = board.place_word(b"CaGE", at(7, 7), Direction::Across);
    assert_eq!(first.len(), 4);
    let before = board.duplicate();
    let second = board.place_word(b"CaGE", at(7, 7), Direction::Across);
    assert!(second.is_empty());
    for row in 0..15 {
        for col in 0..15 {
            assert_eq!(board.tile(at(row, col)), before.tile(at(row, col)));
            assert_eq!(board.is_blank(at(row, col)), before.is_blank(at(row, col)));
        }
    }
}

#[test]
fn anchors_are_the_free_cells_next_to_letters() {
    let mut board = ScrabbleBoard::empty();
    board.place_word(b"AT", at(7, 7), Direction::Across);
    let anchors = [(6, 7), (6, 8), (8, 7), (8, 8), (7, 6), (7, 9)];
    for row in 0..15 {
        for col in 0..15 {
            assert_eq!(board.is_anchor(at(row, col)), anchors.contains(&(row, col)));
        }
    }
    assert!(board.is_letter(at(7, 7)));
    assert!(!board.is_anchor(at(7, 7)));
}

#[test]
fn case_of_ascii_letters() {
    assert_eq!(to_upper(b'a'), b'A');
    assert_eq!(to_upper(b'z'), b'Z');
    assert_eq!(to_upper(b'Q'), b'Q');
    assert_eq!(to_upper(b'?'), b'?');
    assert!(is_lower_case(b'm'));
    assert!(!is_lower_case(b'M'));
    assert!(!is_lower_case(b'{'));
    assert!(!is_lower_case(b'`'));
}

#[test]
fn cross_sums_add_the_letters_that_touch_a_cell() {
    let bag = Bag::new_with_order(&vec![]);
    let mut board = ScrabbleBoard::empty();
    let sums = board.calculate_cross_sums(&bag);
    for d in 0..2 {
        for i in 0..225 {
            assert_eq!(sums[d][i], -1);
        }
    }
    board.place_word(b"HELL", at(7, 2), Direction::Across);
    board.place_word(b"Zq", at(9, 4), Direction::Across);
    let sums = board.calculate_cross_sums(&bag);
    // along the row: everything that hangs together with the cell
    assert_eq!(sums[0][at(7, 6).as_index()], 7);
    assert_eq!(sums[0][at(7, 1).as_index()], 7);
    assert_eq!(sums[0][at(7, 3).as_index()], 4 + 1 + 1);
    assert_eq!(sums[0][at(7, 0).as_index()], -1);
    assert_eq!(sums[0][at(7, 7).as_index()], -1);
    // along the column
    assert_eq!(sums[1][at(6, 2).as_index()], 4);
    assert_eq!(sums[1][at(8, 3).as_index()], 1);
    assert_eq!(sums[1][at(7, 2).as_index()], -1);
    // a gap of one free cell between two letters
    assert_eq!(sums[1][at(8, 4).as_index()], 1 + 10);
    // a blank tile counts nothing, but it is a neighbour
    assert_eq!(sums[1][at(8, 5).as_index()], 1);
    assert_eq!(sums[1][at(10, 5).as_index()], 0);
    assert_eq!(sums[0][at(9, 6).as_index()], 10);
    assert_eq!(sums[0][at(9, 3).as_index()], 10);
}

#[test]
fn score_of_an_opening_word_doubles_on_the_centre() {
    let bag = Bag::new_with_order(&vec![]);
    let board = ScrabbleBoard::empty();
    let sums = board.calculate_cross_sums(&bag);
    let cage = Move { word: b"CAGE".to_vec(), pos: at(7, 7), dir: Direction::Across, score: 0 };
    assert_eq!(board.score(&cage, &sums[0], &bag), 14);
    let beat = Move { word: b"BEAT".to_vec(), pos: at(7, 4), dir: Direction::Across, score: 0 };
    assert_eq!(board.score(&beat, &sums[0], &bag), 12);
    // a blank counts nothing, the centre still doubles
    let blank = Move { word: b"aT".to_vec(), pos: at(7, 7), dir: Direction::Across, score: 0 };
    assert_eq!(board.score(&blank, &sums[0], &bag), 2);
    // double letter under the first letter, centre under the last
    let quiz = Move { word: b"QUIZZ".to_vec(), pos: at(7, 3), dir: Direction::Across, score: 0 };
    assert_eq!(board.score(&quiz, &sums[0], &bag), 2 * (20 + 1 + 1 + 10 + 10));
}

#[test]
fn score_counts_premiums_crossings_and_the_bonus() {
    let bag = Bag::new_with_order(&vec![]);
    let mut board = ScrabbleBoard::empty();
    board.place_word(b"HELL", at(7, 2), Direction::Across);
    let sums = board.calculate_cross_sums(&bag);
    // the letters that lay there count once, the new one counts twice:
    // once in the word and once with the letters that it touches
    let hello = Move { word: b"HELLO".to_vec(), pos: at(7, 2), dir: Direction::Across, score: 0 };
    assert_eq!(board.score(&hello, &sums[0], &bag), 8 + (1 + 7));
    // without neighbours along the sums that are given, only the word counts
    assert_eq!(board.score(&hello, &sums[1], &bag), 8);
    // seven tiles from the rack: triple word, double letter, and the bonus
    let seven = Move { word: b"AAAAAAA".to_vec(), pos: at(0, 0), dir: Direction::Across, score: 0 };
    assert_eq!(board.score(&seven, &sums[0], &bag), 3 * (6 + 2) + 50);
    // eight cells of which one held a letter: a double word and a double
    // letter on the way, and seven tiles from the rack
    let eight = Move { word: b"AAAAAAAH".to_vec(), pos: at(0, 2), dir: Direction::Down, score: 0 };
    let empty = [-1i32; 225];
    assert_eq!(board.score(&eight, &empty, &bag), 2 * (6 + 2 + 4) + 50);
    // a word that runs off the board is scored as far as it goes
    let off = Move { word: b"AAAA".to_vec(), pos: at(14, 13), dir: Direction::Across, score: 0 };
    assert_eq!(board.score(&off, &empty, &bag), 3 * 2);
}

#[test]
fn sums_of_a_line_are_the_same_before_and_after_a_word_is_laid_elsewhere() {
    let bag = Bag::new_with_order(&vec![]);
    let mut board = ScrabbleBoard::empty();
    board.place_word(b"HELL", at(7, 2), Direction::Across);
    let before = board.calculate_cross_sums(&bag);
    let mut later = board.duplicate();
    later.place_word(b"LOW", at(7, 5), Direction::Down);
    let after = later.calculate_cross_sums(&bag);
    // a move along row 3 reads the sums of row 3 along the row, and the
    // word laid down column 5 left row 3 alone
    let m = Move { word: b"QUIZ".to_vec(), pos: at(3, 4), dir: Direction::Across, score: 0 };
    assert_eq!(board.score(&m, &before[0], &bag), board.score(&m, &after[0], &bag));
    for col in 0..15 {
        assert_eq!(before[0][at(3, col).as_index()], after[0][at(3, col).as_index()]);
    }
    // row 8 got a letter: the sums along it changed next to the letter
    assert_eq!(before[0][at(8, 4).as_index()], -1);
    assert_eq!(after[0][at(8, 4).as_index()], 1);
    // and so did the sums down the column below the new letters
    assert_eq!(before[1][at(10, 5).as_index()], -1);
    assert_eq!(after[1][at(10, 5).as_index()], 1 + 1 + 4);
}

#[test]
fn a_board_is_read_from_labels() {
    assert_eq!(tile_from_label(b""), Tile::Empty);
    assert_eq!(tile_from_label(b"?"), Tile::Letter(Letter::Blank));
    assert_eq!(tile_from_label(b"TL"), Tile::Special(SquareEffect::TripleLetter));
    assert_eq!(tile_from_label(b"TW"), Tile::Special(SquareEffect::TripleWord));
    assert_eq!(tile_from_label(b"DL"), Tile::Special(SquareEffect::DoubleLetter));
    assert_eq!(tile_from_label(b"DW"), Tile::Special(SquareEffect::DoubleWord));
    assert_eq!(tile_from_label(b"CN"), Tile::Special(SquareEffect::Center));
    assert_eq!(tile_from_label(b"Q"), Tile::Letter(Letter::Letter(b'Q')));
    assert_eq!(tile_from_label(b"T"), Tile::Letter(Letter::Letter(b'T')));
    assert_eq!(tile_from_label(b"TX"), Tile::Letter(Letter::Letter(b'T')));

    let mut cells: Vec<Vec<Tile>> =
        (0..15).map(|r| (0..15).map(|c| premium_layout(r, c)).collect()).collect();
    cells[7][7] = Tile::Letter(Letter::Letter(b'A'));
    cells[0][0] = Tile::Letter(Letter::Blank);
    let board = ScrabbleBoard::from_tiles(&cells).unwrap();
    assert_eq!(board.tile(at(7, 7)), Tile::Letter(Letter::Letter(b'A')));
    assert_eq!(board.tile(at(0, 0)), Tile::Letter(Letter::Blank));
    assert_eq!(board.tile(at(0, 7)), Tile::Special(SquareEffect::TripleWord));
    assert!(!board.is_blank(at(0, 0)));
    assert!(board.placements().is_empty());
    // a premium square where the layout has none
    cells[7][8] = Tile::Special(SquareEffect::DoubleWord);
    assert!(ScrabbleBoard::from_tiles(&cells).is_none());
    cells[7][8] = Tile::Empty;
    // a plain square where the layout has a premium square
    cells[1][1] = Tile::Empty;
    assert!(ScrabbleBoard::from_tiles(&cells).is_none());
    cells[1][1] = Tile::Special(SquareEffect::DoubleWord);
    assert!(ScrabbleBoard::from_tiles(&cells).is_some());
    cells[3].pop();
    assert!(ScrabbleBoard::from_tiles(&cells).is_none());
    cells.pop();
    assert!(ScrabbleBoard::from_tiles(&cells).is_none());
}
