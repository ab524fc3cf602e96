use connect_four::board::{Board, Effect};
use connect_four::color::Color;

#[test]
fn horizontal_segment_at_left_edge() {
    let mut board = Board::new();

    assert_eq!(board.insert(0, Color::Red), Ok(None));
    assert_eq!(board.insert(3, Color::Red), Ok(None));
    assert_eq!(board.insert(1, Color::Red), Ok(None));
    assert_eq!(board.insert(2, Color::Red), Ok(Some(Effect::CompleteSegment)));
}

#[test]
fn horizontal_segment_at_right_edge() {
    let mut board = Board::new();

    assert_eq!(board.insert(5, Color::Red), Ok(None));
    assert_eq!(board.insert(4, Color::Red), Ok(None));
    assert_eq!(board.insert(3, Color::Red), Ok(None));
    assert_eq!(board.insert(6, Color::Red), Ok(Some(Effect::CompleteSegment)));
}

#[test]
fn vertical_segment_at_bottom() {
    let mut board = Board::new();

    assert_eq!(board.insert(0, Color::Red), Ok(None));
    assert_eq!(board.insert(0, Color::Red), Ok(None));
    assert_eq!(board.insert(0, Color::Red), Ok(None));
    assert_eq!(board.insert(0, Color::Red), Ok(Some(Effect::CompleteSegment)));
}

#[test]
fn vertical_segment_at_top() {
    let mut board = Board::new();

    assert_eq!(board.insert(0, Color::Blue), Ok(None));
    assert_eq!(board.insert(0, Color::Blue), Ok(None));
    assert_eq!(board.insert(0, Color::Red), Ok(None));
    assert_eq!(board.insert(0, Color::Red), Ok(None));
    assert_eq!(board.insert(0, Color::Red), Ok(None));
    assert_eq!(board.insert(0, Color::Red), Ok(Some(Effect::CompleteSegment)));
}

#[test]
fn ascending_diagonal_segment() {
    let mut board = Board::new();

    assert_eq!(board.insert(3, Color::Blue), Ok(None));
    assert_eq!(board.insert(4, Color::Blue), Ok(None));
    assert_eq!(board.insert(4, Color::Blue), Ok(None));
    assert_eq!(board.insert(5, Color::Blue), Ok(None));
    assert_eq!(board.insert(5, Color::Blue), Ok(None));
    assert_eq!(board.insert(5, Color::Blue), Ok(None));
    assert_eq!(board.insert(2, Color::Red), Ok(None));
    assert_eq!(board.insert(3, Color::Red), Ok(None));
    assert_eq!(board.insert(5, Color::Red), Ok(None));
    assert_eq!(board.insert(4, Color::Red), Ok(Some(Effect::CompleteSegment)));
}

#[test]
fn descending_diagonal_segment() {
    let mut board = Board::new();

    assert_eq!(board.insert(5, Color::Blue), Ok(None));
    assert_eq!(board.insert(4, Color::Blue), Ok(None));
    assert_eq!(board.insert(4, Color::Blue), Ok(None));
    assert_eq!(board.insert(3, Color::Blue), Ok(None));
    assert_eq!(board.insert(3, Color::Blue), Ok(None));
    assert_eq!(board.insert(3, Color::Blue), Ok(None));

    assert_eq!(board.insert(4, Color::Red), Ok(None));
    assert_eq!(board.insert(5, Color::Red), Ok(None));
    assert_eq!(board.insert(6, Color::Red), Ok(None));
    assert_eq!(board.insert(3, Color::Red), Ok(Some(Effect::CompleteSegment)));
}

#[test]
fn unnecessarily_long_segment() {
    let mut board = Board::new();

    assert_eq!(board.insert(1, Color::Red), Ok(None));
    assert_eq!(board.insert(2, Color::Red), Ok(None));
    assert_eq!(board.insert(4, Color::Red), Ok(None));
    assert_eq!(board.insert(5, Color::Red), Ok(None));
    assert_eq!(board.insert(3, Color::Red), Ok(Some(Effect::CompleteSegment)));
}

#[test]
fn full_column() {
    let mut board = Board::new();

    assert_eq!(board.insert(0, Color::Red), Ok(None));
    assert_eq!(board.insert(0, Color::Blue), Ok(None));
    assert_eq!(board.insert(0, Color::Red), Ok(None));
    assert_eq!(board.insert(0, Color::Blue), Ok(None));
    assert_eq!(board.insert(0, Color::Red), Ok(None));
    assert_eq!(board.insert(0, Color::Blue), Ok(None));
    assert_eq!(board.insert(0, Color::Red), Err(0));
}

#[test]
fn full_board() {
    let mut board = Board::new();

    for &x in [0, 1, 2, 4, 5, 6].iter() {
        assert_eq!(board.insert(x, Color::Red), Ok(None));
        assert_eq!(board.insert(x, Color::Blue), Ok(None));
        assert_eq!(board.insert(x, Color::Red), Ok(None));
        assert_eq!(board.insert(x, Color::Blue), Ok(None));
        assert_eq!(board.insert(x, Color::Red), Ok(None));
        assert_eq!(board.insert(x, Color::Blue), Ok(None));
    }

    assert_eq!(board.insert(3, Color::Blue), Ok(None));
    assert_eq!(board.insert(3, Color::Red), Ok(None));
    assert_eq!(board.insert(3, Color::Blue), Ok(None));
    assert_eq!(board.insert(3, Color::Red), Ok(None));
    assert_eq!(board.insert(3, Color::Blue), Ok(None));
    assert_eq!(board.insert(3, Color::Red), Ok(Some(Effect::FullBoard)));
}
