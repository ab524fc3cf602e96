use connect_four::board::{Board, Effect};
use connect_four::color::Color;
use connect_four::walk::Walk;

#[test]
fn insert_fills_lowest_empty_row() {
    let mut board = Board::new();

    assert_eq!(board.get((2, 0)), Some(&None));
    assert_eq!(board.insert(2, Color::Blue), Ok(None));
    assert_eq!(board.get((2, 0)), Some(&Some(Color::Blue)));
    assert_eq!(board.get((2, 1)), Some(&None));
    assert_eq!(board.insert(2, Color::Red), Ok(None));
    assert_eq!(board.get((2, 1)), Some(&Some(Color::Red)));
    assert_eq!(board.get((2, 2)), Some(&None));
}

#[test]
fn failed_insert_changes_nothing() {
    let mut board = Board::new();

    for turn in 0..6 {
        let color = if turn % 2 == 0 { Color::Red } else { Color::Blue };
        assert_eq!(board.insert(5, color), Ok(None));
    }
    let before = board.render();
    assert_eq!(board.insert(5, Color::Red), Err(5));
    assert_eq!(board.render(), before);
    // the board still takes moves elsewhere
    assert_eq!(board.insert(4, Color::Red), Ok(None));
}

#[test]
fn full_column_reports_its_index() {
    let mut board = Board::new();

    assert_eq!(board.insert(4, Color::Red), Ok(None));
    assert_eq!(board.insert(4, Color::Blue), Ok(None));
    assert_eq!(board.insert(4, Color::Red), Ok(None));
    assert_eq!(board.insert(4, Color::Blue), Ok(None));
    assert_eq!(board.insert(4, Color::Red), Ok(None));
    assert_eq!(board.insert(4, Color::Blue), Ok(None));
    assert_eq!(board.insert(4, Color::Blue), Err(4));
}

#[test]
fn horizontal_segment_completed_in_middle() {
    let mut board = Board::new();

    assert_eq!(board.insert(0, Color::Blue), Ok(None));
    assert_eq!(board.insert(1, Color::Blue), Ok(None));
    assert_eq!(board.insert(3, Color::Blue), Ok(None));
    assert_eq!(board.insert(2, Color::Blue), Ok(Some(Effect::CompleteSegment)));
}

#[test]
fn get_tells_out_of_bounds_from_empty() {
    let board = Board::new();

    assert_eq!(board.get((7, 0)), None);
    assert_eq!(board.get((0, 6)), None);
    assert_eq!(board.get((usize::MAX, 0)), None);
    assert_eq!(board.get((6, 5)), Some(&None));
}

#[test]
fn color_default_and_invert() {
    let mut color = Color::default();
    assert_eq!(color, Color::Red);
    color.invert();
    assert_eq!(color, Color::Blue);
    color.invert();
    assert_eq!(color, Color::Red);
}

#[test]
fn color_names() {
    assert_eq!(Color::Red.name(), "Red");
    assert_eq!(Color::Blue.name(), "Blue");
}

#[test]
fn render_empty_board() {
    let board = Board::new();
    let row = "⚫ ⚫ ⚫ ⚫ ⚫ ⚫ ⚫";
    let expected = vec![row; 6].join("\n");
    assert_eq!(board.render(), expected);
}

#[test]
fn render_shows_placed_disks_floor_last() {
    let mut board = Board::new();
    assert_eq!(board.insert(3, Color::Red), Ok(None));
    assert_eq!(board.insert(3, Color::Blue), Ok(None));

    let mut expected = vec!["⚫ ⚫ ⚫ ⚫ ⚫ ⚫ ⚫".to_string(); 4];
    expected.push("⚫ ⚫ ⚫ 🔵 ⚫ ⚫ ⚫".to_string());
    expected.push("⚫ ⚫ ⚫ 🔴 ⚫ ⚫ ⚫".to_string());
    assert_eq!(board.render(), expected.join("\n"));
}

#[test]
fn walk_yields_each_matching_cell() {
    let mut board = Board::new();
    assert_eq!(board.insert(0, Color::Red), Ok(None));
    assert_eq!(board.insert(1, Color::Blue), Ok(None));
    assert_eq!(board.insert(1, Color::Red), Ok(None));

    let mut walk = Walk::new(&board, Color::Red, (0, 0), (1, 1));
    assert_eq!(walk.next(), Some(Color::Red));
    assert_eq!(walk.next(), None);
    assert_eq!(walk.next(), None);
}

#[test]
fn walk_stops_on_mismatch_or_edge() {
    let mut board = Board::new();
    assert_eq!(board.insert(0, Color::Red), Ok(None));
    assert_eq!(board.insert(1, Color::Blue), Ok(None));

    // the neighboring disk belongs to the other player
    let mut walk = Walk::new(&board, Color::Red, (0, 0), (1, 0));
    assert_eq!(walk.next(), None);

    // the walk leaves the board at once
    let mut edge = Walk::new(&board, Color::Red, (0, 0), (-1, 0));
    assert_eq!(edge.next(), None);

    // the next cell is in bounds but empty
    let mut empty = Walk::new(&board, Color::Red, (0, 0), (0, 1));
    assert_eq!(empty.next(), None);
}
