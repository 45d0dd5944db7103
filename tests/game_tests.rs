use connect_four::game::{
    check_board_for_win, get_bit, get_winning_squares, set_bit, stable_sort_moves, Game,
    GameStatus, Slot, BOARD_MASK, BOTTOM_ROW, WIN_MASKS, WIN_MASK_OFFSET,
};

fn play_columns(moves: &[u8]) -> Game {
    let mut game = Game::new();
    for &c in moves {
        let (ok, _) = game.make_move(c);
        assert!(ok, "illegal move {}", c);
    }
    game
}

#[test]
fn new_game_is_empty() {
    let g = Game::new();
    assert_eq!(g.board_set, 0);
    assert_eq!(g.board_p1, 0);
    assert!(g.player_one_turn);
    assert_eq!(g.game_status, GameStatus::InProgress);
    assert_eq!(g.moves_made, 0);
    assert_eq!(g.get_hash(), 0);
}

#[test]
fn stones_land_on_the_lowest_empty_row() {
    let mut g = Game::new();
    assert_eq!(g.make_move(3), (true, 0));
    assert_eq!(g.make_move(3), (true, 1));
    assert_eq!(g.make_move(4), (true, 0));
    assert_eq!(g.get_slot(3, 0), Slot::Player1);
    assert_eq!(g.get_slot(3, 1), Slot::Player2);
    assert_eq!(g.get_slot(4, 0), Slot::Player1);
    assert_eq!(g.get_slot(4, 1), Slot::Empty);
    assert_eq!(g.moves_made, 3);
    assert!(!g.player_one_turn);
}

#[test]
fn full_column_is_refused() {
    let mut g = play_columns(&[0, 0, 0, 0, 0, 0]);
    let before = (g.board_set, g.board_p1, g.position_hash, g.moves_made);
    assert_eq!(g.make_move(0), (false, 0));
    assert_eq!((g.board_set, g.board_p1, g.position_hash, g.moves_made), before);
}

#[test]
fn out_of_range_column_is_refused() {
    let mut g = Game::new();
    assert_eq!(g.make_move(7), (false, 0));
    assert_eq!(g.make_move(200), (false, 0));
    assert_eq!(g.moves_made, 0);
}

#[test]
fn vertical_four_ends_the_game() {
    let mut g = play_columns(&[3, 2, 3, 2, 3, 2, 3]);
    assert_eq!(g.game_status, GameStatus::Player1Win);
    assert_eq!(g.moves_made, 7);
    assert_eq!(g.make_move(4), (false, 0));
}

#[test]
fn horizontal_four_for_player_two() {
    let g = play_columns(&[6, 0, 6, 1, 5, 2, 6, 3]);
    assert_eq!(g.game_status, GameStatus::Player2Win);
}

#[test]
fn stone_count_matches_moves() {
    let g = play_columns(&[3, 3, 4, 2, 2, 5, 0, 6, 1]);
    assert_eq!(g.board_set.count_ones(), g.moves_made as u32);
    assert_eq!((g.board_set & g.board_p1).count_ones(), 5);
    assert_eq!(g.board_p1 & !g.board_set, 0);
    assert_eq!(g.game_status, GameStatus::InProgress);
}

#[test]
fn unmake_then_remake_is_identity() {
    let mut g = play_columns(&[3, 4, 4, 2, 5]);
    let (ok, row) = g.make_move(4);
    assert!(ok);
    assert_eq!(row, 2);
    let after = (g.board_set, g.board_p1, g.position_hash, g.moves_made, g.player_one_turn, g.game_status);
    assert!(g.unmake_move(4, row));
    assert_eq!(g.moves_made, 5);
    assert_eq!(g.get_slot(4, 2), Slot::Empty);
    assert_eq!(g.make_move(4), (true, 2));
    let again = (g.board_set, g.board_p1, g.position_hash, g.moves_made, g.player_one_turn, g.game_status);
    assert_eq!(after, again);
}

#[test]
fn unmake_restores_a_won_position() {
    let mut g = play_columns(&[3, 2, 3, 2, 3, 2]);
    let before = (g.board_set, g.board_p1, g.position_hash, g.moves_made, g.player_one_turn);
    let (ok, row) = g.make_move(3);
    assert!(ok);
    assert_eq!(g.game_status, GameStatus::Player1Win);
    assert!(g.unmake_move(3, row));
    assert_eq!(g.game_status, GameStatus::InProgress);
    assert_eq!((g.board_set, g.board_p1, g.position_hash, g.moves_made, g.player_one_turn), before);
}

#[test]
fn unmake_on_empty_column_changes_nothing() {
    let mut g = play_columns(&[3]);
    assert!(!g.unmake_move(0, 0));
    assert_eq!(g.moves_made, 1);
}

#[test]
fn hash_does_not_depend_on_move_order() {
    let a = play_columns(&[3, 4, 2]);
    let b = play_columns(&[2, 4, 3]);
    assert_eq!(a.board_set, b.board_set);
    assert_eq!(a.board_p1, b.board_p1);
    assert_eq!(a.get_hash(), b.get_hash());
    assert_ne!(a.get_hash(), 0);
    let c = play_columns(&[3, 2, 4]);
    assert_ne!(a.get_hash(), c.get_hash());
}

#[test]
fn hash_of_one_stone_is_its_zobrist_word() {
    let g = play_columns(&[0]);
    assert_eq!(g.get_hash(), 13486662071293341567);
    let g = play_columns(&[0, 0]);
    assert_eq!(g.get_hash(), 13486662071293341567 ^ 10775836403224147664);
}

#[test]
fn winning_squares_of_three_in_a_row() {
    let p: u64 = (1 << 0) | (1 << 8) | (1 << 16);
    assert_eq!(get_winning_squares(p, p), 1 << 24);
    let v: u64 = 0b111;
    assert_eq!(get_winning_squares(v, v), 1 << 3);
    let gap: u64 = (1 << 8) | (1 << 16) | (1 << 32);
    assert_eq!(get_winning_squares(gap, gap), 1 << 24);
}

#[test]
fn winning_squares_are_empty_board_cells() {
    let p: u64 = (1 << 0) | (1 << 8) | (1 << 16);
    let occupied = p | (1 << 24);
    assert_eq!(get_winning_squares(p, occupied), 0);
    let top: u64 = (0b111 << 3) | (0b111 << 11);
    let w = get_winning_squares(top, top);
    assert_eq!(w & (top | !BOARD_MASK), 0);
    assert_eq!(w & (1 << 6), 0);
}

#[test]
fn four_in_a_row_detection() {
    assert!(check_board_for_win((1 << 0) | (1 << 8) | (1 << 16) | (1 << 24)));
    assert!(check_board_for_win(0b1111));
    assert!(check_board_for_win((1 << 0) | (1 << 9) | (1 << 18) | (1 << 27)));
    assert!(check_board_for_win((1 << 3) | (1 << 10) | (1 << 17) | (1 << 24)));
    assert!(!check_board_for_win((1 << 0) | (1 << 8) | (1 << 16)));
    assert!(!check_board_for_win(0b0111 | (1 << 9)));
    assert!(!check_board_for_win(0));
}

#[test]
fn bits_read_and_write() {
    let b = set_bit(0, 2, 3, true);
    assert_eq!(b, 1 << 19);
    assert!(get_bit(b, 2, 3));
    assert!(!get_bit(b, 3, 2));
    assert_eq!(set_bit(b, 2, 3, false), 0);
    assert_eq!(set_bit(b, 6, 5, true), (1 << 19) | (1 << 53));
}

#[test]
fn slots_read_and_write() {
    let mut g = Game::new();
    g.set_slot(1, 0, Slot::Player2);
    g.set_slot(2, 0, Slot::Player1);
    assert_eq!(g.get_slot(1, 0), Slot::Player2);
    assert_eq!(g.get_slot(2, 0), Slot::Player1);
    assert_eq!(g.board_set, (1 << 8) | (1 << 16));
    assert_eq!(g.board_p1, 1 << 16);
    g.set_slot(2, 0, Slot::Empty);
    assert_eq!(g.get_slot(2, 0), Slot::Empty);
    assert_eq!(Slot::Player1.symbol(), 'X');
    assert_eq!(Slot::Player2.symbol(), 'O');
    assert_eq!(Slot::Empty.symbol(), '.');
}

#[test]
fn playable_cells() {
    assert_eq!(Game::new().get_board_playable(), BOTTOM_ROW);
    let g = play_columns(&[0, 0, 0, 0, 0, 0, 3]);
    assert_eq!(g.get_board_playable(), (BOTTOM_ROW & !1 & !(1 << 24)) | (1 << 25));
}

#[test]
fn check_win_follows_move_parity() {
    let mut g = play_columns(&[3, 2, 3, 2, 3, 2, 3]);
    assert!(g.check_win(3, 3));
    let mut h = play_columns(&[3, 2, 3, 2, 3, 2]);
    assert!(!h.check_win(2, 2));
}

#[test]
fn winning_move_is_found() {
    let g = play_columns(&[0, 1, 0, 1, 0, 2]);
    assert_eq!(g.get_winning_move(), Some(0));
    let h = play_columns(&[0, 0, 1, 1, 2, 2]);
    assert_eq!(h.get_winning_move(), Some(3));
    assert_eq!(Game::new().get_winning_move(), None);
    let k = play_columns(&[3, 3]);
    assert_eq!(k.get_winning_move(), None);
}

#[test]
fn candidate_moves_on_empty_board_are_centre_out() {
    let mut g = Game::new();
    assert_eq!(g.get_candidate_moves(), [3, 4, 2, 5, 1, 6, 0]);
    assert_eq!(g.moves_made, 0);
    assert_eq!(g.board_set, 0);
}

#[test]
fn candidate_moves_prefer_threats() {
    let mut g = play_columns(&[1, 1, 2, 2]);
    let before = (g.board_set, g.board_p1, g.position_hash, g.moves_made);
    let order = g.get_candidate_moves();
    assert_eq!(order, [3, 4, 0, 2, 5, 1, 6]);
    assert_eq!((g.board_set, g.board_p1, g.position_hash, g.moves_made), before);
}

#[test]
fn candidate_moves_skip_full_columns() {
    let mut g = play_columns(&[3, 3, 3, 3, 3, 3]);
    let order = g.get_candidate_moves();
    assert_eq!(order[6], 255);
    assert!(!order[..6].contains(&3));
}

#[test]
fn stable_sort_keeps_order_of_ties() {
    let scores = [(3, 1), (4, 2), (2, 2), (5, 0), (1, 1), (6, 0), (0, 0)];
    assert_eq!(stable_sort_moves(scores, 7), [4, 2, 3, 1, 5, 6, 0]);
    assert_eq!(stable_sort_moves(scores, 4), [4, 2, 3, 5, 255, 255, 255]);
    assert_eq!(stable_sort_moves(scores, 0), [255; 7]);
}

#[test]
fn win_masks_are_fours_through_the_centre() {
    assert_eq!(WIN_MASK_OFFSET, 27);
    for &m in WIN_MASKS.iter() {
        assert_eq!(m.count_ones(), 4);
        assert!(check_board_for_win(m));
        assert_ne!(m & (1 << WIN_MASK_OFFSET), 0);
    }
    assert_eq!(WIN_MASKS[3], 0b1111 << 27);
}
