use smartgameviewer::board_view::BoardView;
use smartgameviewer::game::Board;
use smartgameviewer::parser::Color;

#[test]
fn test_rotation_0_degrees() {
    let mut board = Board::new(19);
    board.set(0, 0, Color::Black);
    board.set(18, 18, Color::White);

    let view = BoardView::new(&board, 0);

    assert_eq!(view.get(0, 0), Some(Color::Black));
    assert_eq!(view.get(18, 18), Some(Color::White));
}

#[test]
fn test_rotation_180_degrees() {
    let mut board = Board::new(19);
    board.set(0, 0, Color::Black);
    board.set(5, 10, Color::White);

    let view = BoardView::new(&board, 2);

    assert_eq!(view.get(18, 18), Some(Color::Black));
    assert_eq!(view.get(13, 8), Some(Color::White));
}

#[test]
fn test_rotation_normalization() {
    let mut board = Board::new(19);
    board.set(0, 0, Color::Black);

    let view4 = BoardView::new(&board, 4);
    assert_eq!(view4.get(0, 0), Some(Color::Black));

    let view5 = BoardView::new(&board, 5);
    assert_eq!(view5.get(18, 0), Some(Color::Black));
}

fn sample_board() -> Board {
    let mut board = Board::new(5);
    board.set(0, 1, Color::Black);
    board.set(2, 4, Color::White);
    board.set(4, 0, Color::Black);
    board.set(3, 3, Color::White);
    board
}

#[test]
fn identity_view_matches_board_everywhere() {
    let board = sample_board();
    let view = BoardView::new(&board, 0);
    for r in 0..5u8 {
        for c in 0..5u8 {
            assert_eq!(view.get(r, c), board.get(r, c));
        }
    }
}

#[test]
fn rotation_plus_four_is_the_same_view() {
    let board = sample_board();
    for r in 0..8u8 {
        let a = BoardView::new(&board, r);
        let b = BoardView::new(&board, r + 4);
        assert_eq!(a.rotation, r % 4);
        for vr in 0..5u8 {
            for vc in 0..5u8 {
                assert_eq!(a.get(vr, vc), b.get(vr, vc));
            }
        }
    }
}

#[test]
fn quarter_turn_formulas() {
    let board = sample_board();
    // rotation 1: board (view_col, size-1-view_row)
    let v1 = BoardView::new(&board, 1);
    assert_eq!(v1.get(3, 0), Some(Color::Black));
    assert_eq!(v1.get(0, 2), Some(Color::White));
    // rotation 3: board (size-1-view_col, view_row)
    let v3 = BoardView::new(&board, 3);
    assert_eq!(v3.get(1, 4), Some(Color::Black));
    assert_eq!(v3.get(4, 2), Some(Color::White));
    assert_eq!(v3.get(0, 0), Some(Color::Black));
    assert_eq!(v1.size(), 5);
}

#[test]
fn two_half_turns_restore_the_board() {
    let board = sample_board();
    let half = BoardView::new(&board, 2);
    let mut turned = Board::new(5);
    for r in 0..5u8 {
        for c in 0..5u8 {
            if let Some(color) = half.get(r, c) {
                turned.set(r, c, color);
            }
        }
    }
    let again = BoardView::new(&turned, 2);
    for r in 0..5u8 {
        for c in 0..5u8 {
            assert_eq!(again.get(r, c), board.get(r, c));
        }
    }
}
