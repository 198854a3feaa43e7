use smartgameviewer::parser::{parse_sgf, Color, ParseError};

#[test]
fn test_parse_empty_game() {
    let sgf = "(;)";
    let result = parse_sgf(sgf);
    assert!(result.is_ok());
    let game = result.unwrap();
    assert_eq!(game.moves.len(), 0);
}

#[test]
fn test_parse_game_properties() {
    let sgf = "(;GM[1]FF[4]SZ[19]PB[Lee Sedol]PW[AlphaGo])";
    let result = parse_sgf(sgf);
    assert!(result.is_ok());
    let game = result.unwrap();
    assert_eq!(game.properties.get("SZ").unwrap()[0], "19");
    assert_eq!(game.properties.get("PB").unwrap()[0], "Lee Sedol");
    assert_eq!(game.properties.get("PW").unwrap()[0], "AlphaGo");
}

#[test]
fn test_parse_simple_moves() {
    let sgf = "(;GM[1]SZ[19];B[dd];W[pd];B[dp];W[pp])";
    let result = parse_sgf(sgf);
    assert!(result.is_ok());
    let game = result.unwrap();
    assert_eq!(game.moves.len(), 4);
    assert_eq!(game.moves[0].color, Color::Black);
    assert_eq!(game.moves[0].position, Some((3, 3)));
    assert_eq!(game.moves[1].color, Color::White);
    assert_eq!(game.moves[1].position, Some((15, 3)));
}

#[test]
fn test_parse_pass_move() {
    let sgf = "(;GM[1];B[];W[dd])";
    let result = parse_sgf(sgf);
    assert!(result.is_ok());
    let game = result.unwrap();
    assert_eq!(game.moves.len(), 2);
    assert_eq!(game.moves[0].position, None);
}

fn message(r: Result<smartgameviewer::parser::GameTree, ParseError>) -> String {
    match r {
        Err(ParseError::InvalidFormat(m)) => m,
        Ok(_) => panic!("expected an error"),
    }
}

#[test]
fn empty_record_has_no_properties() {
    let game = parse_sgf("(;)").unwrap();
    assert_eq!(game.moves.len(), 0);
    assert!(game.properties.is_empty());
}

#[test]
fn empty_brackets_are_a_black_pass() {
    let game = parse_sgf("(;B[])").unwrap();
    assert_eq!(game.moves.len(), 1);
    assert_eq!(game.moves[0].color, Color::Black);
    assert_eq!(game.moves[0].position, None);
    assert!(game.moves[0].comment.is_none());
}

#[test]
fn root_size_and_two_moves() {
    let game = parse_sgf("(;GM[1]SZ[19];B[dd];W[pd])").unwrap();
    assert_eq!(game.properties.get("SZ").unwrap().clone(), vec!["19".to_string()]);
    assert_eq!(game.properties.len(), 2);
    assert_eq!(game.moves.len(), 2);
    assert_eq!(game.moves[0].color, Color::Black);
    assert_eq!(game.moves[0].position, Some((3, 3)));
    assert_eq!(game.moves[1].color, Color::White);
    assert_eq!(game.moves[1].position, Some((15, 3)));
}

#[test]
fn missing_parentheses_is_refused() {
    assert_eq!(message(parse_sgf(";B[aa])")), "Missing outer parentheses");
    assert_eq!(message(parse_sgf("(;B[aa]")), "Missing outer parentheses");
    assert_eq!(message(parse_sgf("")), "Missing outer parentheses");
    assert_eq!(message(parse_sgf("(")), "Missing outer parentheses");
}

#[test]
fn missing_semicolon_is_refused() {
    assert_eq!(message(parse_sgf("(B[aa])")), "Missing initial semicolon");
    assert_eq!(message(parse_sgf("()")), "Missing initial semicolon");
}

#[test]
fn surrounding_white_space_is_ignored() {
    let game = parse_sgf("  \n\t(;B[aa])\r\n ").unwrap();
    assert_eq!(game.moves.len(), 1);
    assert_eq!(game.moves[0].position, Some((0, 0)));
}

#[test]
fn bad_coordinates_become_passes() {
    let game = parse_sgf("(;B[zz];W[abc];B[a];W[sa];B[Aa];W[ss];B[ta])").unwrap();
    let positions: Vec<Option<(u8, u8)>> = game.moves.iter().map(|m| m.position).collect();
    assert_eq!(
        positions,
        vec![None, None, None, Some((18, 0)), None, Some((18, 18)), None]
    );
}

#[test]
fn only_root_properties_are_kept() {
    let game = parse_sgf("(;PB[x]GN[first];PB[y]C[note];W[cd])").unwrap();
    assert_eq!(game.properties.get("PB").unwrap()[0], "x");
    assert_eq!(game.properties.get("GN").unwrap()[0], "first");
    assert!(game.properties.get("C").is_none());
    assert_eq!(game.moves.len(), 1);
    assert_eq!(game.moves[0].position, Some((2, 3)));
}

#[test]
fn repeated_root_key_keeps_the_later_values() {
    let game = parse_sgf("(;PB[a]PB[b])").unwrap();
    assert_eq!(game.properties.get("PB").unwrap().clone(), vec!["b".to_string()]);
}

#[test]
fn several_values_and_keys_without_values() {
    let game = parse_sgf("(;AB[aa][bb][]XY KM[6.5])").unwrap();
    assert_eq!(
        game.properties.get("AB").unwrap().clone(),
        vec!["aa".to_string(), "bb".to_string(), String::new()]
    );
    assert!(game.properties.get("XY").is_none());
    assert_eq!(game.properties.get("KM").unwrap()[0], "6.5");
}

#[test]
fn move_uses_its_first_value_and_keys_need_capitals() {
    let game = parse_sgf("(;B[cd][ef];b[aa];BW[aa])").unwrap();
    assert_eq!(game.moves.len(), 1);
    assert_eq!(game.moves[0].position, Some((2, 3)));
}

#[test]
fn separators_split_nodes_even_inside_brackets() {
    let game = parse_sgf("(;C[a;b]GN[g];;B[bb)").unwrap();
    assert_eq!(game.properties.get("C").unwrap()[0], "a");
    assert!(game.properties.get("GN").is_none());
    assert_eq!(game.moves.len(), 1);
    assert_eq!(game.moves[0].position, Some((1, 1)));
}

#[test]
fn leading_empty_nodes_do_not_hide_the_root() {
    let game = parse_sgf("(;;;GN[x];B[aa])").unwrap();
    assert_eq!(game.properties.get("GN").unwrap()[0], "x");
    assert_eq!(game.moves.len(), 1);
}
