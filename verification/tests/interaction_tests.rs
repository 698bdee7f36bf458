use scrabble_cfr::scrabble::ui::interaction::ClickData;
use scrabble_cfr::scrabble::util::{Direction, Position};

#[test]
fn typing_starts_at_a_cell_and_runs_to_the_edge() {
    let mut click = ClickData::new();
    assert!(!click.is_typing());
    assert!(click.is_at(Position { row: 0, col: 0 }));
    assert_eq!(click.dir_str(), "Across");
    click.start(Position { row: 3, col: 13 });
    assert!(click.is_typing());
    assert_eq!(click.start_pos, Position { row: 3, col: 13 });
    assert!(click.is_at(Position { row: 3, col: 13 }));
    click.push('C');
    assert!(click.tick());
    click.push('A');
    assert!(click.is_at(Position { row: 3, col: 14 }));
    // the edge of the board: the cursor stays
    assert!(!click.tick());
    assert!(click.is_at(Position { row: 3, col: 14 }));
    assert_eq!(click.word, vec!['C', 'A']);
    click.flip();
    assert_eq!(click.dir_str(), "Down");
    assert_eq!(click.direction, Direction::Down);
    assert!(click.tick());
    assert!(click.is_at(Position { row: 4, col: 14 }));
    click.flip();
    assert_eq!(click.dir_str(), "Across");
    click.start(Position { row: 0, col: 0 });
    assert!(click.word.is_empty());
    assert_eq!(click.direction, Direction::Across);
}
