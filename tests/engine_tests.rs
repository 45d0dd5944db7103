use connect_four::book::OpeningBook;
use connect_four::c4engine;
use connect_four::engine::{
    calculate_tree_width, negamax, negamax_wrapper, search, Eval, TranspositionTable,
    TranspositionTableEntry, ValueType,
};
use connect_four::game::Game;
use std::collections::HashSet;

fn game_after(moves: &[u8]) -> Game {
    let mut game = Game::new();
    for &c in moves {
        assert!(game.make_move(c).0, "illegal move {}", c);
    }
    game
}

fn digits(s: &str) -> Vec<u8> {
    s.bytes().map(|b| b - b'0').collect()
}

fn no_book() -> OpeningBook {
    OpeningBook::from_records(&[]).expect("empty book")
}

fn solve(moves: &[u8]) -> i8 {
    let mut game = game_after(moves);
    let mut table = TranspositionTable::new(20);
    let mut nodes = 0;
    search(&mut game, &mut table, &no_book(), &mut nodes)
}

#[test]
fn table_reads_back_what_was_stored() {
    let mut table = TranspositionTable::new(10);
    let key: u64 = 0xdead_beef_1234_5678;
    assert!(table.get(key).is_none());
    table.insert(key, Eval { value: 7, value_type: ValueType::Exact });
    let e = table.get(key).expect("stored");
    assert_eq!(e, Eval { value: 7, value_type: ValueType::Exact });
    table.insert(key, Eval { value: -20, value_type: ValueType::LowerBound });
    assert_eq!(table.get(key), Some(Eval { value: -20, value_type: ValueType::LowerBound }));
    table.insert(key, Eval { value: 13, value_type: ValueType::UpperBound });
    assert_eq!(table.get(key), Some(Eval { value: 13, value_type: ValueType::UpperBound }));
    table.insert(key, Eval { value: -25, value_type: ValueType::Exact });
    assert_eq!(table.get(key), Some(Eval { value: -25, value_type: ValueType::Exact }));
}

#[test]
fn table_ignores_key_zero_and_other_keys() {
    let mut table = TranspositionTable::new(8);
    assert!(table.get(0).is_none());
    let key: u64 = 0x0100_0000_0000_0042;
    table.insert(key, Eval { value: 3, value_type: ValueType::Exact });
    let other = key ^ (1 << 20);
    assert!(table.get(other).is_none());
    table.insert(other, Eval { value: 4, value_type: ValueType::Exact });
    assert!(table.get(key).is_none());
    assert_eq!(table.get(other).map(|e| e.value), Some(4));
    let entry = TranspositionTableEntry { key, eval: Eval { value: 1, value_type: ValueType::Exact } };
    assert_eq!(entry.key, key);
}

#[test]
fn fresh_table_reads_the_empty_slot_as_exact_zero() {
    let mut table = TranspositionTable::new(4);
    assert_eq!(table.get(0x10), Some(Eval { value: 0, value_type: ValueType::Exact }));
}

#[test]
fn decided_game_scores_by_win_distance() {
    let moves = [3, 2, 3, 2, 3, 2, 3];
    let mut game = game_after(&moves);
    let mut table = TranspositionTable::new(10);
    let mut nodes = 0;
    assert_eq!(negamax(&mut game, -5, 5, &mut table, &no_book(), &mut nodes), -18);
    assert_eq!(solve(&moves), -17);
    assert_eq!(nodes, 1);
}

#[test]
fn immediate_win_scores_the_maximum() {
    let moves = [3, 2, 3, 2, 3, 2];
    let mut game = game_after(&moves);
    let mut table = TranspositionTable::new(10);
    let mut nodes = 0;
    assert_eq!(negamax(&mut game, 0, 1, &mut table, &no_book(), &mut nodes), 18);
    assert_eq!(solve(&moves), 18);
}

#[test]
fn late_positions_are_solved_exactly() {
    assert_eq!(solve(&digits("41106326014044230442310503211556")), -4);
    assert_eq!(solve(&digits("056055613340323566233665522001")), 3);
    assert_eq!(solve(&digits("0316220216112545614400160356")), -2);
    assert_eq!(solve(&digits("3635332550606256410326062300")), 6);
    assert_eq!(solve(&digits("56164210266453305522534006623511")), 1);
}

#[test]
fn deeper_positions_are_solved_exactly() {
    assert_eq!(solve(&digits("52656554063615010041051321")), -1);
    assert_eq!(solve(&digits("16601443551151302202235434")), 1);
    assert_eq!(solve(&digits("002431036634455365651236")), 0);
}

#[test]
fn mirrored_positions_score_the_same() {
    for s in ["0316220216112545614400160356", "52656554063615010041051321"] {
        let moves = digits(s);
        let mirrored: Vec<u8> = moves.iter().map(|c| 6 - c).collect();
        assert_eq!(solve(&moves), solve(&mirrored));
    }
}

#[test]
fn score_is_best_negated_child_score() {
    let moves = digits("16601443551151302202235434");
    let parent = solve(&moves);
    let mut best = i8::MIN;
    for c in 0..7u8 {
        let mut child = moves.clone();
        child.push(c);
        let mut g = game_after(&moves);
        if g.make_move(c).0 {
            best = best.max(-solve(&child));
        }
    }
    assert_eq!(parent, best);
    assert_eq!(parent, 1);
}

#[test]
fn search_restores_the_position() {
    let moves = digits("0316220216112545614400160356");
    let mut game = game_after(&moves);
    let before = (game.board_set, game.board_p1, game.position_hash, game.moves_made, game.player_one_turn);
    let mut table = TranspositionTable::new(16);
    let mut nodes = 0;
    search(&mut game, &mut table, &no_book(), &mut nodes);
    assert!(nodes > 0);
    assert_eq!((game.board_set, game.board_p1, game.position_hash, game.moves_made, game.player_one_turn), before);
}

#[test]
fn book_hit_at_twelve_plies_gives_the_book_score() {
    let mut game = game_after(&[2, 3, 3, 3, 3, 2, 2, 1, 1, 0, 4, 5]);
    let mut bytes = (-591799144i32).to_be_bytes().to_vec();
    bytes.push(90);
    let book = OpeningBook::from_records(&bytes).expect("one record");
    let mut table = TranspositionTable::new(16);
    let mut nodes = 0;
    assert_eq!(search(&mut game, &mut table, &book, &mut nodes), 10);
}

#[test]
fn wrapper_searches_without_book() {
    let mut game = game_after(&digits("3635332550606256410326062300"));
    let mut table = TranspositionTable::new(16);
    assert_eq!(negamax_wrapper(&mut game, &mut table), 6);
}

#[test]
fn host_entry_plays_digits_and_searches() {
    let book = no_book();
    assert_eq!(c4engine(b"3232323", &book), -17);
    assert_eq!(c4engine(b"3,2,3,2,3,2", &book), 18);
    assert_eq!(c4engine(b"00000000", &book), i8::MIN);
    assert_eq!(c4engine(b"37", &book), i8::MIN);
    assert_eq!(c4engine(b"32323233", &book), i8::MIN);
    assert_eq!(c4engine(b"056055613340323566233665522001", &book), 3);
}

#[test]
fn tree_width_counts_distinct_positions() {
    let mut game = Game::new();
    let mut seen = HashSet::new();
    assert_eq!(calculate_tree_width(&mut game, 0, &mut seen), 1);
    assert_eq!(calculate_tree_width(&mut game, 1, &mut seen), 7);
    assert_eq!(seen.len(), 7);
    let mut seen = HashSet::new();
    assert_eq!(calculate_tree_width(&mut game, 2, &mut seen), 49);
    let mut seen = HashSet::new();
    assert_eq!(calculate_tree_width(&mut game, 3, &mut seen), 238);
    assert_eq!(game.moves_made, 0);
}
