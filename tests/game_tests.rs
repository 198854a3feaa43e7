use smartgameviewer::game::{Board, GameState};
use smartgameviewer::parser::{parse_sgf, Color, Move};

#[test]
fn test_empty_board() {
    let board = Board::new(19);
    assert_eq!(board.size, 19);
    assert_eq!(board.get(0, 0), None);
    assert_eq!(board.get(18, 18), None);
}

#[test]
fn test_coordinate_system_correctness() {
    let sgf = "(;GM[1]SZ[19];B[aa];W[ba];B[ab];W[sa])";
    let parsed = parse_sgf(sgf).unwrap();

    let mut game = GameState::new(19, parsed.moves);

    game.next();
    assert_eq!(game.board.get(0, 0), Some(Color::Black));

    game.next();
    assert_eq!(game.board.get(0, 1), Some(Color::White));

    game.next();
    assert_eq!(game.board.get(1, 0), Some(Color::Black));

    game.next();
    assert_eq!(game.board.get(0, 18), Some(Color::White));
}

#[test]
fn test_game_looping_enabled() {
    let moves = vec![
        Move {
            color: Color::Black,
            position: Some((3, 3)),
            comment: None,
        },
        Move {
            color: Color::White,
            position: Some((3, 15)),
            comment: None,
        },
    ];

    let mut game = GameState::new(19, moves);

    assert_eq!(game.is_looping_enabled(), true);

    game.next();
    assert_eq!(game.current_move, 1);
    game.next();
    assert_eq!(game.current_move, 2);

    let result = game.next();
    assert_eq!(result, true);
    assert_eq!(game.current_move, 0);
    assert_eq!(game.board.get(3, 3), None);
    assert_eq!(game.board.get(3, 15), None);
}

#[test]
fn test_game_looping_disabled() {
    let moves = vec![
        Move {
            color: Color::Black,
            position: Some((3, 3)),
            comment: None,
        },
        Move {
            color: Color::White,
            position: Some((3, 15)),
            comment: None,
        },
    ];

    let mut game = GameState::new(19, moves);

    game.set_looping(false);
    assert_eq!(game.is_looping_enabled(), false);

    game.next();
    game.next();

    let result = game.next();
    assert_eq!(result, false);
    assert_eq!(game.current_move, 2);
}

#[test]
fn test_toggle_looping() {
    let moves = vec![Move {
        color: Color::Black,
        position: Some((3, 3)),
        comment: None,
    }];

    let mut game = GameState::new(19, moves);

    assert_eq!(game.is_looping_enabled(), true);

    game.toggle_looping();
    assert_eq!(game.is_looping_enabled(), false);

    game.toggle_looping();
    assert_eq!(game.is_looping_enabled(), true);
}

fn mv(color: Color, position: Option<(u8, u8)>) -> Move {
    Move {
        color,
        position,
        comment: None,
    }
}

fn sample_moves() -> Vec<Move> {
    vec![
        mv(Color::Black, Some((3, 3))),
        mv(Color::White, Some((15, 3))),
        mv(Color::Black, None),
        mv(Color::White, Some((3, 15))),
        mv(Color::Black, Some((15, 3))),
    ]
}

fn snapshot(board: &Board) -> Vec<Option<Color>> {
    let mut cells = Vec::new();
    for r in 0..board.size {
        for c in 0..board.size {
            cells.push(board.get(r, c));
        }
    }
    cells
}

#[test]
fn stone_goes_to_its_row_and_column() {
    let mut game = GameState::new(19, vec![mv(Color::White, Some((15, 3)))]);
    assert!(game.next());
    assert_eq!(game.board.get(3, 15), Some(Color::White));
    assert_eq!(game.board.get(15, 3), None);
}

#[test]
fn forward_k_equals_end_then_back() {
    let n = sample_moves().len();
    for k in 0..=n {
        let mut forward = GameState::new(19, sample_moves());
        for _ in 0..k {
            assert!(forward.next());
        }
        let mut backward = GameState::new(19, sample_moves());
        backward.jump_to_end();
        assert_eq!(backward.current_move, n);
        for _ in 0..(n - k) {
            assert!(backward.previous());
        }
        assert_eq!(forward.current_move, k);
        assert_eq!(backward.current_move, k);
        assert_eq!(snapshot(&forward.board), snapshot(&backward.board));
    }
}

#[test]
fn previous_undoes_next() {
    let n = sample_moves().len();
    for c in 1..n {
        let mut game = GameState::new(19, sample_moves());
        for _ in 0..c {
            game.next();
        }
        let before = snapshot(&game.board);
        assert!(game.next());
        assert!(game.previous());
        assert_eq!(game.current_move, c);
        assert_eq!(snapshot(&game.board), before);
    }
}

#[test]
fn wrap_clears_the_two_stones() {
    let moves = vec![mv(Color::Black, Some((3, 3))), mv(Color::White, Some((15, 3)))];
    let mut game = GameState::new(19, moves);
    assert!(game.next());
    assert!(game.next());
    assert_eq!(game.current_move, 2);
    assert!(game.next());
    assert_eq!(game.current_move, 0);
    assert_eq!(game.board.get(3, 3), None);
    assert_eq!(game.board.get(3, 15), None);
}

#[test]
fn without_looping_the_end_keeps_both_stones() {
    let moves = vec![mv(Color::Black, Some((3, 3))), mv(Color::White, Some((15, 3)))];
    let mut game = GameState::new(19, moves);
    game.set_looping(false);
    assert!(game.next());
    assert!(game.next());
    assert!(!game.next());
    assert_eq!(game.current_move, 2);
    assert_eq!(game.board.get(3, 3), Some(Color::Black));
    assert_eq!(game.board.get(3, 15), Some(Color::White));
}

#[test]
fn previous_at_start_does_nothing() {
    let mut game = GameState::new(19, sample_moves());
    assert!(!game.previous());
    assert_eq!(game.current_move, 0);
}

#[test]
fn jump_to_end_ignores_looping_and_start_clears() {
    let mut game = GameState::new(19, sample_moves());
    game.jump_to_end();
    assert_eq!(game.current_move, 5);
    assert_eq!(game.board.get(3, 3), Some(Color::Black));
    assert_eq!(game.board.get(15, 3), Some(Color::White));
    assert_eq!(game.board.get(3, 15), Some(Color::Black));
    game.jump_to_start();
    assert_eq!(game.current_move, 0);
    assert_eq!(snapshot(&game.board), snapshot(&Board::new(19)));
}

#[test]
fn later_move_on_the_same_point_replaces_the_stone() {
    let mut game = GameState::new(9, vec![mv(Color::Black, Some((2, 4))), mv(Color::White, Some((2, 4)))]);
    game.next();
    game.next();
    assert_eq!(game.board.get(4, 2), Some(Color::White));
    game.previous();
    assert_eq!(game.board.get(4, 2), Some(Color::Black));
}

#[test]
fn property_lookup_gives_the_first_value() {
    let tree = parse_sgf("(;PB[Lee Sedol]AB[aa][bb]GN[];B[cc])").unwrap();
    let game = GameState::with_properties(19, tree.moves, tree.properties);
    assert_eq!(game.get_property("PB"), Some("Lee Sedol"));
    assert_eq!(game.get_property("AB"), Some("aa"));
    assert_eq!(game.get_property("GN"), Some(""));
    assert_eq!(game.get_property("PW"), None);
    assert_eq!(game.moves.len(), 1);
}

#[test]
fn clear_empties_a_point() {
    let mut board = Board::new(3);
    board.set(1, 2, Color::Black);
    assert_eq!(board.get(1, 2), Some(Color::Black));
    board.clear(1, 2);
    assert_eq!(board.get(1, 2), None);
}

#[test]
fn record_size_comes_from_sz() {
    let tree = parse_sgf("(;SZ[9];B[ee];W[ii])").unwrap();
    let mut game = GameState::from_record(tree).unwrap();
    assert_eq!(game.board.size, 9);
    assert!(game.is_looping_enabled());
    game.jump_to_end();
    assert_eq!(game.board.get(4, 4), Some(Color::Black));
    assert_eq!(game.board.get(8, 8), Some(Color::White));
}

#[test]
fn record_without_usable_size_uses_nineteen() {
    let tree = parse_sgf("(;GM[1];B[ss])").unwrap();
    assert_eq!(smartgameviewer::game::board_size_of(&tree.properties), 19);
    let tree = parse_sgf("(;SZ[nineteen])").unwrap();
    assert_eq!(smartgameviewer::game::board_size_of(&tree.properties), 19);
    let tree = parse_sgf("(;SZ[300])").unwrap();
    assert_eq!(smartgameviewer::game::board_size_of(&tree.properties), 19);
    let tree = parse_sgf("(;SZ[+13])").unwrap();
    assert_eq!(smartgameviewer::game::board_size_of(&tree.properties), 13);
    let tree = parse_sgf("(;SZ[])").unwrap();
    assert_eq!(smartgameviewer::game::board_size_of(&tree.properties), 19);
}

#[test]
fn record_with_a_move_off_its_board_is_refused() {
    let tree = parse_sgf("(;SZ[9];B[ee];W[pd])").unwrap();
    assert!(smartgameviewer::game::moves_fit_board(&tree.moves, 19));
    assert!(!smartgameviewer::game::moves_fit_board(&tree.moves, 9));
    assert!(GameState::from_record(tree).is_none());
}
