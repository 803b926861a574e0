use filler::{classify_line, Game, InputError, Message};

fn rows(lines: &[&str]) -> Vec<String> {
    lines.iter().map(|l| l.to_string()).collect()
}

fn labelled(lines: &[&str]) -> Vec<String> {
    lines.iter().enumerate().map(|(i, l)| format!("{:03} {}", i, l)).collect()
}

fn game_with(grid: &[&str], piece: &[&str]) -> Game {
    let mut game = Game::new();
    game.parse_grid(&labelled(grid)).unwrap();
    game.parse_piece(&rows(piece));
    game
}

#[test]
fn empty_board_has_no_legal_anchor() {
    let mut game = game_with(&["...", "...", "..."], &["X"]);
    game.update_player_info("$$$ exec p1 : [solution]").unwrap();
    assert_eq!(game.find_best_positions('s', '$'), vec![]);
    assert_eq!(game.get_best_position('s', '$'), None);
    assert_eq!(game.find_best_piece_position(), (0, 0));
}

#[test]
fn single_contact_without_enemy_takes_first_anchor() {
    let game = game_with(&["a..", "...", "..."], &["X"]);
    assert_eq!(game.find_best_positions('s', '$'), vec![(0, 0)]);
    assert_eq!(game.get_best_position('s', '$'), Some((0, 0)));
}

#[test]
fn ties_without_enemy_keep_row_major_order() {
    let game = game_with(&["..a", "a..", "..."], &["X"]);
    assert_eq!(game.find_best_positions('s', '$'), vec![(0, 2), (1, 0)]);
    assert_eq!(game.get_best_position('s', '$'), Some((0, 2)));
}

#[test]
fn nearest_to_enemy_wins() {
    let mut game = game_with(&["a.a", "...", "..s"], &["X"]);
    game.update_player_info("$$$ exec p1 : [solution]").unwrap();
    assert_eq!(game.find_best_positions('s', '$'), vec![(0, 0), (0, 2)]);
    assert_eq!(game.get_best_position('s', '$'), Some((0, 2)));
    assert_eq!(game.find_best_piece_position(), (2, 0));
}

#[test]
fn equal_distance_keeps_first_anchor() {
    let game = game_with(&["a.a", "...", ".s."], &["X"]);
    assert_eq!(game.get_best_position('s', '$'), Some((0, 0)));
}

#[test]
fn enemy_cell_blocks_placement() {
    let game = game_with(&["a..", "...", "..s"], &["XX"]);
    assert_eq!(game.find_best_positions('s', '$'), vec![(0, 0)]);
    let blocked = game_with(&["as.", "...", "..."], &["XX"]);
    assert_eq!(blocked.find_best_positions('s', '$'), vec![]);
}

#[test]
fn two_contacts_disqualify() {
    let game = game_with(&["aa.", "...", "..."], &["XX"]);
    assert_eq!(game.find_best_positions('s', '$'), vec![(0, 1)]);
}

#[test]
fn piece_must_stay_on_board() {
    let game = game_with(&["...", "...", "..a"], &["XX"]);
    assert_eq!(game.find_best_positions('s', '$'), vec![(2, 1)]);
}

#[test]
fn empty_piece_cells_neither_block_nor_count() {
    let game = game_with(&["..", ".a"], &["X."]);
    assert_eq!(game.find_best_positions('s', '$'), vec![(1, 1)]);
    let over_own = game_with(&["a.", ".."], &[".X"]);
    assert_eq!(over_own.find_best_positions('s', '$'), vec![]);
}

#[test]
fn taller_piece_counts_across_rows() {
    let game = game_with(&["....", ".a..", "...."], &["X.", ".X"]);
    assert_eq!(game.find_best_positions('s', '$'), vec![(0, 0), (1, 1)]);
}

#[test]
fn same_input_same_reply() {
    let a = game_with(&["a.a", "...", "..s"], &["X"]);
    let b = game_with(&["a.a", "...", "..s"], &["X"]);
    assert_eq!(a.get_best_position('s', '$'), b.get_best_position('s', '$'));
    assert_eq!(a.get_best_position('s', '$'), a.get_best_position('s', '$'));
}

#[test]
fn grid_block_round_trip() {
    let lines = vec!["000 .a..".to_string(), "001 ..s.".to_string()];
    let mut game = Game::new();
    assert_eq!(game.parse_grid(&lines), Ok(()));
    for (line, row) in lines.iter().zip(game.grid.iter()) {
        let rebuilt: String = line.chars().take(4).chain(row.iter().cloned()).collect();
        assert_eq!(&rebuilt, line);
    }
    assert_eq!(game.grid, vec![vec!['.', 'a', '.', '.'], vec!['.', '.', 's', '.']]);
}

#[test]
fn ragged_grid_is_refused() {
    let mut game = game_with(&["a.."], &["X"]);
    let before = game.grid.clone();
    assert_eq!(game.parse_grid(&rows(&["000 ...", "001 .."])), Err(InputError::RaggedGrid));
    assert_eq!(game.grid, before);
}

#[test]
fn short_grid_lines_become_empty_rows() {
    let mut game = Game::new();
    assert_eq!(game.parse_grid(&rows(&["00", "01 "])), Ok(()));
    assert_eq!(game.grid, vec![Vec::<char>::new(), Vec::new()]);
}

#[test]
fn dimensions_and_cells() {
    let game = game_with(&["a..", "..s"], &["XX.", "..."]);
    assert_eq!(game.dimensions(), ((2, 3), (2, 3)));
    assert_eq!(game.cell(0, 0), 'a');
    assert_eq!(game.cell(1, 2), 's');
    assert_eq!(Game::new().dimensions(), ((0, 0), (0, 0)));
}

#[test]
fn player_info_picks_enemy_markers() {
    let mut game = Game::new();
    assert_eq!(game.get_enemy_chars(), (' ', ' '));
    game.update_player_info("$$$ exec p1 : [robots/solution]").unwrap();
    assert_eq!(game.player_id, vec!['p', '1']);
    assert_eq!(game.get_enemy_chars(), ('s', '$'));
    game.update_player_info("$$$ exec p2 : [robots/solution]").unwrap();
    assert_eq!(game.get_enemy_chars(), ('a', '@'));
    game.update_player_info("$$$ exec p1 : [robots/bender]").unwrap();
    assert_eq!(game.get_enemy_chars(), ('a', '@'));
    game.update_player_info("$$$ exec p2 : [robots/bender]").unwrap();
    assert_eq!(game.get_enemy_chars(), ('s', '$'));
    game.update_player_info("exec  x   p3").unwrap();
    assert_eq!(game.get_enemy_chars(), (' ', ' '));
}

#[test]
fn short_player_info_is_refused() {
    let mut game = Game::new();
    game.update_player_info("$$$ exec p1").unwrap();
    assert_eq!(game.update_player_info("$$$ exec"), Err(InputError::MissingPlayerId));
    assert_eq!(game.player_id, vec!['p', '1']);
}

#[test]
fn headers_name_row_counts() {
    assert!(matches!(classify_line("Anfield 20 15:"), Ok(Message::GridHeader(15))));
    assert!(matches!(classify_line("Piece 4 1:"), Ok(Message::PieceHeader(1))));
    assert!(matches!(classify_line("  Piece\t+7::  x"), Ok(Message::PieceHeader(7))));
    assert!(matches!(classify_line("Anfield 3: 9:"), Ok(Message::GridHeader(3))));
    assert!(matches!(classify_line("$$$ exec p1 : [x]"), Ok(Message::PlayerInfo)));
    assert!(matches!(classify_line("exec p2"), Ok(Message::PlayerInfo)));
    assert!(matches!(classify_line("    0123"), Ok(Message::Other)));
    assert!(matches!(classify_line(""), Ok(Message::Other)));
}

#[test]
fn bad_headers_are_refused() {
    assert!(matches!(classify_line("Anfield 20 15"), Err(InputError::BadHeader)));
    assert!(matches!(classify_line("Piece x:"), Err(InputError::BadHeader)));
    assert!(matches!(classify_line("Piece -3:"), Err(InputError::BadHeader)));
    assert!(matches!(classify_line("Piece :"), Err(InputError::BadHeader)));
    assert!(matches!(
        classify_line("Anfield 99999999999999999999999:"),
        Err(InputError::BadHeader)
    ));
}
