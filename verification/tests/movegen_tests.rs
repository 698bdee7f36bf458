use fst::{IntoStreamer, Streamer};
use scrabble_cfr::scrabble::bag::Bag;
use scrabble_cfr::scrabble::board::{ScrabbleBoard, Tile};
use scrabble_cfr::scrabble::constraint::grid::{ConstraintGrid, ConstraintIndex};
use scrabble_cfr::scrabble::constraint::letter_set::LetterSet;
use scrabble_cfr::scrabble::constraint::searcher::{ConstraintSearcher, ConstraintSearcherState};
use scrabble_cfr::scrabble::constraint::Constraint;
use scrabble_cfr::scrabble::lexicon::{Driver, LineMatcher};
use scrabble_cfr::scrabble::rack::Rack;
use scrabble_cfr::scrabble::state::MoveGrid;
use scrabble_cfr::scrabble::util::{Direction, Letter, Move, Position};
use scrabble_cfr::scrabble::word_search::{BlankAssignmentList, WordSearcher};

fn at(row: usize, col: usize) -> Position {
    Position { row, col }
}

fn lexicon(words: &[&str]) -> fst::Set<Vec<u8>> {
    let mut sorted: Vec<&str> = words.to_vec();
    sorted.sort_unstable();
    fst::Set::from_iter(sorted).unwrap()
}

fn find<'a>(moves: &'a [Move], word: &[u8], pos: Position, dir: Direction) -> Option<&'a Move> {
    moves.iter().find(|m| m.word == word && m.pos == pos && m.dir == dir)
}

#[test]
fn test() {
    let dict = lexicon(&["lore", "love", "elle", "bles"]);

    let line = [
        Tile::Letter(Letter::Blank),
        Tile::Empty,
        Tile::Empty,
        Tile::Letter(Letter::Blank),
        Tile::Letter(Letter::Letter(b'l')),
        Tile::Letter(Letter::Letter(b'e')),
        Tile::Empty,
        Tile::Empty,
        Tile::Empty,
        Tile::Letter(Letter::Letter(b'l')),
        Tile::Letter(Letter::Letter(b'o')),
        Tile::Empty,
        Tile::Letter(Letter::Letter(b'e')),
    ];

    let mut restr = [
        Constraint::Empty(LetterSet::empty()),
        Constraint::Empty(LetterSet::empty()),
        Constraint::Empty(LetterSet::empty()),
        Constraint::Empty(LetterSet::empty()),
        Constraint::Empty(LetterSet::empty()),
        Constraint::Empty(LetterSet::empty()),
        Constraint::Empty(LetterSet::empty()),
        Constraint::Empty(LetterSet::empty()),
        Constraint::Empty(LetterSet::empty()),
        Constraint::Empty(LetterSet::empty()),
        Constraint::Empty(LetterSet::empty()),
        Constraint::Empty(LetterSet::empty()),
        Constraint::Empty(LetterSet::empty()),
    ];

    ConstraintGrid::fill_constraints(&line, &mut restr, &dict);

    assert_eq!(
        restr,
        [
            Constraint::Filled(Letter::Blank),
            Constraint::Empty(LetterSet::empty()),
            Constraint::Empty(LetterSet::from_many(b"e")),
            Constraint::Filled(Letter::Blank),
            Constraint::Filled(Letter::Letter(b'l')),
            Constraint::Filled(Letter::Letter(b'e')),
            Constraint::Empty(LetterSet::from_many(b"s")),
            Constraint::Empty(LetterSet::any()),
            Constraint::Empty(LetterSet::empty()),
            Constraint::Filled(Letter::Letter(b'l')),
            Constraint::Filled(Letter::Letter(b'o')),
            Constraint::Empty(LetterSet::from_many(b"vr")),
            Constraint::Filled(Letter::Letter(b'e')),
        ]
    );
}

#[test]
fn test_build_board() {
    let vocab = lexicon(&["lore", "love", "elle", "bles"]);

    let board = ScrabbleBoard::empty();

    let constrained_board = ConstraintGrid::build(&board, Direction::Across, &vocab);
    assert_eq!(constrained_board.direction(), Direction::Across);
    assert!(constrained_board.is_empty());
    for row in 0..15 {
        for col in 0..15 {
            assert_eq!(constrained_board.get(at(row, col)), Constraint::Empty(LetterSet::any()));
            assert!(!constrained_board.is_filled(at(row, col)));
        }
    }
}

#[test]
fn test_simple_search() {
    let line = [
        Constraint::Empty(LetterSet::from_many(b"abdfghklmopqstx")),
        Constraint::Empty(LetterSet::from_many(b"abdefghijklmnopqrstuwxyz")),
        Constraint::Empty(LetterSet::from_many(b"a")),
        Constraint::Empty(LetterSet::any()),
        Constraint::Empty(LetterSet::any()),
        Constraint::Empty(LetterSet::any()),
    ];

    let automaton = WordSearcher {
        line: &line[..],
        rack: Rack {
            letters: [1; 256],
            n_blanks: 1,
            n_total: 257,
        },
        min_length: 0,
    };

    let dict = lexicon(&["tepa"]);

    let mut x = dict.search_with_state(Driver(automaton)).into_stream();

    let mut acc = vec![];

    while let Some(w) = x.next() {
        acc.push((
            std::str::from_utf8(w.0).unwrap().to_string(),
            w.1.expect("reached valid state"),
        ))
    }

    assert_eq!(acc.len(), 1);

    assert_eq!(acc[0].0, "tepa");
    assert_eq!(acc[0].1.position, 4);
    assert_eq!(acc[0].1.rack.n_total, 253);
    assert_eq!(acc[0].1.blank_assignments, BlankAssignmentList::Empty);
}

#[test]
fn cross_check_matcher_runs_through_prefix_cell_and_suffix() {
    let prefix = [Letter::Letter(b'l'), Letter::Blank];
    let suffix = [Letter::Letter(b'e')];
    let m = ConstraintSearcher { prefix: &prefix, suffix: &suffix };
    let mut s = m.start();
    assert!(matches!(s, Some(ConstraintSearcherState::Prefix(0))));
    s = m.accept(&s, b'l');
    assert!(matches!(s, Some(ConstraintSearcherState::Prefix(1))));
    s = m.accept(&s, b'q');
    assert!(matches!(s, Some(ConstraintSearcherState::Mid)));
    s = m.accept(&s, b'v');
    assert!(matches!(s, Some(ConstraintSearcherState::Suffix(0, b'v'))));
    assert!(!m.is_match(&s));
    assert!(m.can_match(&s));
    s = m.accept(&s, b'e');
    assert!(matches!(s, Some(ConstraintSearcherState::Done(b'v'))));
    assert!(m.is_match(&s));
    s = m.accept(&s, b'e');
    assert!(s.is_none());
    assert!(!m.can_match(&s));
    let wrong = m.accept(&m.start(), b'x');
    assert!(wrong.is_none());
    let bare = ConstraintSearcher { prefix: &[], suffix: &[] };
    assert!(matches!(bare.start(), Some(ConstraintSearcherState::Mid)));
    assert!(matches!(bare.accept(&bare.start(), b'k'), Some(ConstraintSearcherState::Done(b'k'))));
}

#[test]
fn word_matcher_takes_letters_then_blanks_from_the_rack() {
    let line = [
        Constraint::Empty(LetterSet::any()),
        Constraint::Filled(Letter::Letter(b'A')),
        Constraint::Empty(LetterSet::from_many(b"T")),
        Constraint::Filled(Letter::Blank),
        Constraint::Empty(LetterSet::empty()),
    ];
    let m = WordSearcher { line: &line, rack: Rack::from_tiles(b"C-"), min_length: 2 };
    let s0 = m.start();
    assert!(!m.is_match(&s0));
    let s1 = m.accept(&s0, b'C');
    let st = s1.as_ref().unwrap();
    assert_eq!((st.position, st.rack.n_total, st.rack.n_blanks), (1, 1, 1));
    // stops in front of a letter: no word yet
    assert!(!m.is_match(&s1));
    assert!(m.accept(&s1, b'O').is_none());
    let s2 = m.accept(&s1, b'A');
    assert_eq!(s2.as_ref().unwrap().rack.n_total, 1);
    assert!(m.is_match(&s2));
    // no T on the rack: the blank stands in, at place 2
    let s3 = m.accept(&s2, b'T');
    let st = s3.as_ref().unwrap();
    assert_eq!((st.position, st.rack.n_total, st.rack.n_blanks), (3, 0, 0));
    match &st.blank_assignments {
        BlankAssignmentList::Elem(e, rest) => {
            assert_eq!((e.letter, e.position), (b'T', 2));
            assert_eq!(**rest, BlankAssignmentList::Empty);
        }
        BlankAssignmentList::Empty => panic!("a blank was laid"),
    }
    assert!(!m.is_match(&s3));
    // the blank on the board takes any letter and costs nothing
    let s4 = m.accept(&s3, b'S');
    assert_eq!(s4.as_ref().unwrap().rack.n_total, 0);
    assert!(m.is_match(&s4));
    // a cell that takes no letter
    assert!(m.accept(&s4, b'E').is_none());
    // nothing left on the rack
    let poor = WordSearcher { line: &line, rack: Rack::empty(), min_length: 2 };
    assert!(poor.accept(&poor.start(), b'C').is_none());
    // too short
    let long = WordSearcher { line: &line, rack: Rack::from_tiles(b"C-"), min_length: 3 };
    let two = long.accept(&long.accept(&long.start(), b'C'), b'A');
    assert!(!long.is_match(&two));
}

#[test]
fn opening_moves_cover_the_centre() {
    let vocab = lexicon(&["CABBAGE", "CAGE", "BEAT"]);
    let bag = Bag::new_with_order(&vec![]);
    let board = ScrabbleBoard::empty();
    let rack = Rack::from_tiles(b"CABGEAT");
    let moves = board.calculate_moves(&rack, &vocab, &bag);
    // four letters cover the centre from four starts, in two directions
    assert_eq!(moves.len(), 16);
    for m in &moves {
        let start = if m.dir == Direction::Across { m.pos.col } else { m.pos.row };
        let line = if m.dir == Direction::Across { m.pos.row } else { m.pos.col };
        assert_eq!(line, 7);
        assert!(start <= 7 && 7 < start + 4);
        assert!(m.word == b"CAGE".to_vec() || m.word == b"BEAT".to_vec());
        assert_eq!(m.score, if m.word == b"CAGE".to_vec() { 14 } else { 12 });
    }
    assert_eq!(find(&moves, b"CAGE", at(7, 7), Direction::Across).unwrap().score, 14);
    assert_eq!(find(&moves, b"BEAT", at(7, 7), Direction::Across).unwrap().score, 12);
    assert!(find(&moves, b"CAGE", at(4, 7), Direction::Down).is_some());
    assert!(find(&moves, b"CAGE", at(7, 8), Direction::Across).is_none());
    assert!(find(&moves, b"CAGE", at(7, 3), Direction::Across).is_none());
    assert!(board.is_move_possible(&rack, &vocab));

    let grid = MoveGrid::build(&bag, &board, &vocab, &rack);
    assert_eq!(grid.moves().len(), 16);
    assert!(!grid.is_empty());
    // action 0 is the best move of all
    let best = grid.get_move(0);
    assert_eq!(best.word, b"CAGE".to_vec());
    assert_eq!(best.score, 14);
    // one bucket for each start, whatever the direction: all words here
    // have four letters, and the centre starts one across and one down
    let valid = grid.get_valid_moves();
    assert_eq!(valid.len(), 7);
    let action = 1 + (7 * 15 + 7) * 7 + 2;
    assert!(valid.contains(&action));
    assert!(grid.is_valid_action(action));
    assert!(grid.is_valid_action(0));
    assert!(!grid.is_valid_action(1));
    assert!(!grid.is_valid_action(1576));
    let m = grid.get_move(action);
    assert_eq!((m.pos, m.word.clone(), m.score), (at(7, 7), b"CAGE".to_vec(), 14));
    for a in valid {
        let m = grid.get_move(a);
        assert_eq!(a, 1 + (m.pos.row * 15 + m.pos.col) * 7 + m.word.len() - 2);
        assert_eq!(m.word, b"CAGE".to_vec());
    }
}

#[test]
fn a_word_is_extended_by_the_letters_that_the_vocabulary_allows() {
    let vocab = lexicon(&["HELLO", "HELLS", "HELP"]);
    let bag = Bag::new_with_order(&vec![]);
    let mut board = ScrabbleBoard::empty();
    board.place_word(b"HELL", at(7, 2), Direction::Across);
    let grid = ConstraintGrid::build(&board, Direction::Across, &vocab);
    assert!(!grid.is_empty());
    assert_eq!(grid.get(at(7, 6)), Constraint::Empty(LetterSet::from_many(b"OS")));
    assert_eq!(grid.get(at(7, 1)), Constraint::Empty(LetterSet::empty()));
    assert_eq!(grid.get(at(7, 2)), Constraint::Filled(Letter::Letter(b'H')));
    assert_eq!(grid.get(at(6, 2)), Constraint::Empty(LetterSet::any()));
    assert!(grid.is_filled(at(7, 5)));
    let down = ConstraintGrid::build(&board, Direction::Down, &vocab);
    assert_eq!(down.get(at(7, 6)), Constraint::Empty(LetterSet::any()));
    assert_eq!(down.get(at(6, 2)), Constraint::Empty(LetterSet::empty()));

    let rack = Rack::from_tiles(b"OS");
    let moves = board.calculate_moves(&rack, &vocab, &bag);
    assert_eq!(moves.len(), 2);
    let hello = find(&moves, b"HELLO", at(7, 2), Direction::Across).unwrap();
    let hells = find(&moves, b"HELLS", at(7, 2), Direction::Across).unwrap();
    assert_eq!(hello.score, 16);
    assert_eq!(hells.score, 16);
    assert!(hello.score >= 4 + 1 + 1 + 1 + 1);
    assert!(board.is_move_possible(&rack, &vocab));
    assert!(!board.is_move_possible(&Rack::from_tiles(b"XY"), &vocab));
    assert!(!board.is_move_possible(&Rack::empty(), &vocab));
    assert!(board.calculate_moves(&Rack::empty(), &vocab, &bag).is_empty());
    assert!(MoveGrid::build(&bag, &board, &vocab, &Rack::empty()).is_empty());
}

#[test]
fn a_blank_is_handed_out_in_lower_case_and_counts_nothing() {
    let bag = Bag::new_with_order(&vec![]);
    let board = ScrabbleBoard::empty();
    // one letter is no word: nothing can be laid
    let single = lexicon(&["A"]);
    let blank = Rack::from_tiles(b"-");
    assert!(board.calculate_moves(&blank, &single, &bag).is_empty());
    assert!(!board.is_move_possible(&blank, &single));

    let vocab = lexicon(&["AT"]);
    let rack = Rack::from_tiles(b"-T");
    let moves = board.calculate_moves(&rack, &vocab, &bag);
    assert_eq!(moves.len(), 4);
    for m in &moves {
        assert_eq!(m.word, b"aT".to_vec());
        assert_eq!(m.score, 2);
    }
    assert!(find(&moves, b"aT", at(7, 7), Direction::Across).is_some());
    assert!(find(&moves, b"aT", at(6, 7), Direction::Down).is_some());
    let two_blanks = board.calculate_moves(&Rack::from_tiles(b"--"), &vocab, &bag);
    assert_eq!(two_blanks.len(), 4);
    for m in &two_blanks {
        assert_eq!(m.word, b"at".to_vec());
        assert_eq!(m.score, 0);
    }
    // the tiles that a move costs are those that left the rack
    let mut after = board.duplicate();
    let used = after.place_word(&moves[0].word, moves[0].pos, moves[0].dir);
    assert_eq!(used, vec![Letter::Blank, Letter::Letter(b'T')]);
}

#[test]
fn words_that_are_not_in_capital_letters_are_passed_over() {
    let bag = Bag::new_with_order(&vec![]);
    let board = ScrabbleBoard::empty();
    let vocab = lexicon(&["at", "AT", "A-"]);
    let mut letters = [0u8; 256];
    letters[b'a' as usize] = 1;
    letters[b't' as usize] = 1;
    letters[b'A' as usize] = 1;
    letters[b'T' as usize] = 1;
    letters[b'-' as usize] = 1;
    let rack = Rack::new(letters, 0);
    let moves = board.calculate_moves(&rack, &vocab, &bag);
    assert_eq!(moves.len(), 4);
    for m in &moves {
        assert_eq!(m.word, b"AT".to_vec());
    }
}

#[test]
fn searches_start_where_no_letter_precedes_and_reach_a_closing_cell() {
    let vocab = lexicon(&["HELLO", "HELLS"]);
    let mut board = ScrabbleBoard::empty();
    // a bare board: only the line through the centre is searched
    let bare = ConstraintGrid::build(&board, Direction::Down, &vocab);
    let queries = bare.compute_queries();
    assert_eq!(queries.len(), 8);
    for (i, q) in queries.iter().enumerate() {
        assert_eq!(q.dir, Direction::Across);
        assert_eq!(q.pos, at(7, i));
        assert_eq!(q.constraints.len(), 15 - i);
        assert_eq!(q.min_length, if i == 7 { 2 } else { 8 - i });
    }

    board.place_word(b"HELL", at(7, 2), Direction::Across);
    let grid = ConstraintGrid::build(&board, Direction::Down, &vocab);
    let queries = grid.compute_queries();
    for q in &queries {
        assert!(q.min_length >= 2);
        assert_eq!(q.dir, Direction::Across);
        let start = q.pos.col;
        assert_eq!(q.constraints.len(), 15 - start);
        // no search starts right after a letter
        assert!(start == 0 || !board.is_letter(at(q.pos.row, start - 1)));
    }
    let row7: Vec<(usize, usize)> =
        queries.iter().filter(|q| q.pos.row == 7).map(|q| (q.pos.col, q.min_length)).collect();
    assert_eq!(row7, vec![(0, 3), (1, 2), (2, 2)]);
    let row6: Vec<(usize, usize)> =
        queries.iter().filter(|q| q.pos.row == 6).map(|q| (q.pos.col, q.min_length)).collect();
    assert_eq!(row6, vec![(0, 3), (1, 2), (2, 2), (3, 2), (4, 2), (5, 2)]);
    assert!(queries.iter().all(|q| (6..=8).contains(&q.pos.row)));
    // a line that is filled throughout asks for nothing
    let mut full = ScrabbleBoard::empty();
    full.place_word(b"ABCDEFGHIJKLMNO", at(3, 0), Direction::Across);
    let grid = ConstraintGrid::build(&full, Direction::Down, &vocab);
    assert!(grid.compute_queries().iter().all(|q| q.pos.row != 3));
}

#[test]
fn the_best_move_of_a_bucket_is_the_first_of_the_highest_score() {
    let mv = |word: &[u8], row: usize, col: usize, score: i32| Move {
        word: word.to_vec(),
        pos: at(row, col),
        dir: Direction::Across,
        score,
    };
    let grid = MoveGrid::from_moves(vec![
        mv(b"AB", 0, 0, 3),
        mv(b"CD", 0, 0, 5),
        mv(b"EF", 0, 0, 5),
        mv(b"GHI", 0, 0, 9),
        mv(b"ABCDEFGHI", 2, 2, 40),
        mv(b"ABCDEFGH", 14, 14, 1),
        mv(b"ZZ", 3, 1, 40),
    ]);
    assert_eq!(grid.get_valid_moves(), vec![1, 2, 1 + (3 * 15 + 1) * 7, 1575]);
    assert_eq!(grid.get_move(1).word, b"CD".to_vec());
    assert_eq!(grid.get_move(2).word, b"GHI".to_vec());
    assert_eq!(grid.get_move(1575).word, b"ABCDEFGH".to_vec());
    // the best of all may be too long for any bucket
    assert_eq!(grid.get_move(0).word, b"ABCDEFGHI".to_vec());
    let none = MoveGrid::from_moves(vec![]);
    assert!(none.is_empty());
    assert!(none.get_valid_moves().is_empty());
    assert!(!none.is_valid_action(0));
}

#[test]
fn a_constraint_index_moves_along_its_direction() {
    let start = ConstraintIndex(at(3, 0), Direction::Across);
    let next = start.next();
    assert_eq!((next.0, next.1), (at(3, 1), Direction::Across));
    let back = start.back();
    assert_eq!((back.0, back.1), (Position { row: 3, col: usize::MAX }, Direction::Across));
    assert_eq!(back.next().0, Position { row: 3, col: usize::MAX });
    let turned = next.perp();
    assert_eq!((turned.0, turned.1), (at(3, 1), Direction::Down));
    assert_eq!(turned.next().0, at(4, 1));
    assert_eq!(turned.back().back().0, at(1, 1));
}
