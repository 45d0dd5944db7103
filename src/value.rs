//! The game-theoretic value of a position, and the facts about it that the search relies
//! on: bounds by ply, immediate wins, forced replies and double threats.

use vstd::prelude::*;
use crate::engine::{has_winning_move, max_possible, min_possible, threat_count, threats_upto};
use crate::game::{
    bit, cell_index, column_height, has_four, lemma_after_move_wf, lemma_count_mono, lemma_board_count,
    lemma_has_move, lemma_move_facts, lemma_new_four, lemma_other_stripe, lemma_playable_cell,
    lemma_run, lemma_single_bit, lemma_winning_square_wins, playable_word, popcount, stripe,
    winning_playable, winning_square, Game, GameStatus, BOARD_MASK,
};

verus! {

/// The score of a position under perfect play, for the side to move: 0 for a draw, the
/// loss by distance for a decided game (the side to move has lost), otherwise the best
/// negated value over the legal moves.
pub open spec fn game_value(g: Game) -> int
    decreases 42 - g.moves_made, 8int,
{
    if g.game_status == GameStatus::Draw {
        0
    } else if g.game_status != GameStatus::InProgress {
        -22 + (g.moves_made + 1) / 2
    } else {
        best_move_value(g, 7)
    }
}

/// The best negated value over the legal moves into columns below `c`, or -100 when
/// there is none.
pub open spec fn best_move_value(g: Game, c: nat) -> int
    decreases 42 - g.moves_made, c,
{
    if c == 0 {
        -100
    } else {
        let rest = best_move_value(g, (c - 1) as nat);
        let col = (c - 1) as u8;
        if g.moves_made < 42 && g.can_make(col) {
            let v = -game_value(g.after_move(col));
            if v > rest {
                v
            } else {
                rest
            }
        } else {
            rest
        }
    }
}

/// A cell where the opponent of the side to move would complete a four-in-a-row now.
pub open spec fn is_threat(g: Game, k: u64) -> bool {
    winning_square(g.opponent_stones(), g.board_set, k) && bit(playable_word(g.board_set), k)
}

/// The value of a position is at least the negated value after each legal move.
pub proof fn lemma_best_ge(g: Game, c: nat, col: u8)
    requires
        c <= 7,
        col < c,
        g.moves_made < 42,
        g.can_make(col),
    ensures
        best_move_value(g, c) >= -game_value(g.after_move(col)),
    decreases c,
{
    if (col as int) < c - 1 {
        lemma_best_ge(g, (c - 1) as nat, col);
    }
}

/// A bound on the negated value after every legal move bounds the best of them.
pub proof fn lemma_best_le(g: Game, c: nat, x: int)
    requires
        x >= -100,
        forall|col: u8|
            (col as int) < c && g.moves_made < 42 && #[trigger] g.can_make(col) ==> -game_value(
                g.after_move(col),
            ) <= x,
    ensures
        best_move_value(g, c) <= x,
    decreases c,
{
    if c > 0 {
        lemma_best_le(g, (c - 1) as nat, x);
        assert(g.moves_made < 42 && g.can_make((c - 1) as u8) ==> -game_value(
            g.after_move((c - 1) as u8),
        ) <= x);
    }
}

/// The value of a game in progress lies between the fastest loss and the fastest win
/// still possible.
pub proof fn lemma_value_bounds(g: Game)
    requires
        g.wf(),
        g.game_status == GameStatus::InProgress,
    ensures
        min_possible(g.moves_made as int) <= game_value(g) <= max_possible(g.moves_made as int),
    decreases 42 - g.moves_made,
{
    let p = g.moves_made as int;
    assert forall|col: u8| col < 7 && #[trigger] g.can_make(col) implies min_possible(p)
        <= -game_value(g.after_move(col)) <= max_possible(p) by {
        lemma_after_move_wf(g, col);
        let g1 = g.after_move(col);
        if g1.game_status == GameStatus::InProgress {
            lemma_value_bounds(g1);
        }
    }
    lemma_best_le(g, 7, max_possible(p));
    lemma_has_move(g);
    let col = choose|c: u8| c < 7 && #[trigger] g.can_make(c);
    lemma_best_ge(g, 7, col);
}

proof fn lemma_stone_bits(set: u64, p1: u64, b: u64, k: u64)
    by (bit_vector)
    requires
        set & b == 0,
        p1 & b == 0,
    ensures
        (set | b) & (p1 | b) == (set & p1) | b,
        (set | b) & !(p1 & !b) == (set & !p1) | b,
        (set | b) & !(p1 | b) == set & !p1,
        (set | b) & (p1 & !b) == set & p1,
        (set & p1) & !set == 0,
        (set & !p1) & !set == 0,
        set & !BOARD_MASK == 0 ==> ((set >> k) & 1 == 1 ==> (BOARD_MASK >> k) & 1 == 1),
{
}

/// After a legal move, the side that moved holds its old stones and the new one, and the
/// side to move holds what the opponent held.
pub proof fn lemma_move_stones(g: Game, col: u8)
    requires
        g.wf(),
        g.can_make(col),
    ensures
        ({
            let k = cell_index(col as int, column_height(g.board_set, col as u64));
            let g1 = g.after_move(col);
            &&& g1.opponent_stones() == g.mover_stones() | (1u64 << k)
            &&& g1.mover_stones() == g.opponent_stones()
            &&& g1.game_status != GameStatus::Draw && g1.game_status != GameStatus::InProgress
                <==> has_four(g.mover_stones() | (1u64 << k))
        }),
{
    lemma_move_facts(g, col);
    let k = cell_index(col as int, column_height(g.board_set, col as u64));
    lemma_stone_bits(g.board_set, g.board_p1, 1u64 << k, 0);
}

/// When the side to move can complete a four-in-a-row, the position is worth the fastest
/// win.
pub proof fn lemma_immediate_win(g: Game, k: u64)
    requires
        g.wf(),
        g.game_status == GameStatus::InProgress,
        winning_playable(g, k),
    ensures
        game_value(g) == max_possible(g.moves_made as int),
{
    lemma_playable_cell(g.board_set, k);
    let col = (k / 8) as u8;
    assert(g.can_make(col));
    lemma_move_stones(g, col);
    lemma_winning_square_wins(g.mover_stones(), g.board_set, k);
    lemma_best_ge(g, 7, col);
    lemma_value_bounds(g);
}

/// Without an immediate win, no legal move wins.
pub proof fn lemma_quiet_move(g: Game, col: u8)
    requires
        g.wf(),
        g.game_status == GameStatus::InProgress,
        !has_winning_move(g),
        g.can_make(col),
    ensures
        g.after_move(col).game_status == GameStatus::InProgress || g.after_move(
            col,
        ).game_status == GameStatus::Draw,
{
    lemma_move_facts(g, col);
    lemma_move_stones(g, col);
    let h = column_height(g.board_set, col as u64);
    let k = cell_index(col as int, h);
    let m = g.mover_stones();
    lemma_playable_cell(g.board_set, k);
    lemma_stone_bits(g.board_set, g.board_p1, 1u64 << k, 0);
    crate::game::lemma_bit_or_and(g.board_set, g.board_p1);
    crate::game::lemma_bit_or_and(g.board_set, !g.board_p1);
    if has_four(m | (1u64 << k)) {
        assert(!bit(m, (k + 1) as u64));
        lemma_new_four(m, g.board_set, k);
        assert(winning_playable(g, k));
    }
}

/// Without an immediate win, a move away from a column that holds an opponent's threat
/// loses at once.
pub proof fn lemma_reply_wins(g: Game, col: u8, k: u64)
    requires
        g.wf(),
        g.game_status == GameStatus::InProgress,
        !has_winning_move(g),
        g.can_make(col),
        is_threat(g, k),
        k / 8 != col,
    ensures
        -game_value(g.after_move(col)) == min_possible(g.moves_made as int),
{
    let g1 = g.after_move(col);
    lemma_after_move_wf(g, col);
    lemma_quiet_move(g, col);
    lemma_move_facts(g, col);
    lemma_move_stones(g, col);
    let h = column_height(g.board_set, col as u64);
    let landing = cell_index(col as int, h);
    lemma_single_bit(g.board_set, landing);
    lemma_playable_cell(g.board_set, k);
    assert(k != landing);
    assert(!bit(g1.board_set, k));
    if g1.game_status == GameStatus::Draw {
        assert forall|j: u64| #[trigger] bit(g1.board_set, j) implies bit(BOARD_MASK, j) by {
            lemma_stone_bits(g.board_set, g.board_p1, 1u64 << landing, j);
        }
        lemma_count_mono(g1.board_set, BOARD_MASK, 64);
        lemma_board_count();
        assert(bit(BOARD_MASK, k) && !bit(g1.board_set, k));
    }
    let kc = k / 8;
    lemma_other_stripe(g.board_set, col as u64, h as u64, kc);
    assert(cell_index(col as int, h) == (8 * col + h) as u64);
    assert(stripe(g1.board_set, kc) == stripe(g.board_set, kc));
    lemma_playable_cell(g1.board_set, k);
    assert(winning_playable(g1, k));
    lemma_immediate_win(g1, k);
}

/// With an opponent's threat in column `k / 8` and no immediate win, that column is the
/// only move that does not lose at once, and the position is worth the negated value
/// after it.
pub proof fn lemma_forced_value(g: Game, k: u64)
    requires
        g.wf(),
        g.game_status == GameStatus::InProgress,
        !has_winning_move(g),
        is_threat(g, k),
    ensures
        g.can_make((k / 8) as u8),
        game_value(g) == -game_value(g.after_move((k / 8) as u8)),
{
    lemma_playable_cell(g.board_set, k);
    let i = (k / 8) as u8;
    assert(g.can_make(i));
    let p = g.moves_made as int;
    lemma_after_move_wf(g, i);
    lemma_quiet_move(g, i);
    let gi = g.after_move(i);
    if gi.game_status == GameStatus::InProgress {
        lemma_value_bounds(gi);
    }
    let x = -game_value(gi);
    assert forall|col: u8| col < 7 && #[trigger] g.can_make(col) implies -game_value(
        g.after_move(col),
    ) <= x by {
        if col != i {
            lemma_reply_wins(g, col, k);
        }
    }
    lemma_best_le(g, 7, x);
    lemma_best_ge(g, 7, i);
}

proof fn lemma_threat_cell(g: Game, n: nat)
    requires
        threats_upto(g, n) >= 1,
        n <= 64,
    ensures
        exists|k: u64| (k as int) < n && #[trigger] is_threat(g, k),
    decreases n,
{
    if threats_upto(g, (n - 1) as nat) >= 1 {
        lemma_threat_cell(g, (n - 1) as nat);
        let k = choose|k: u64| (k as int) < n - 1 && #[trigger] is_threat(g, k);
        assert(is_threat(g, k));
    } else {
        assert(is_threat(g, (n - 1) as u64));
    }
}

proof fn lemma_two_threat_cells(g: Game, n: nat)
    requires
        threats_upto(g, n) >= 2,
        n <= 64,
    ensures
        exists|k1: u64, k2: u64|
            k1 < k2 && (k2 as int) < n && #[trigger] is_threat(g, k1) && #[trigger] is_threat(
                g,
                k2,
            ),
    decreases n,
{
    if threats_upto(g, (n - 1) as nat) >= 2 {
        lemma_two_threat_cells(g, (n - 1) as nat);
        let (k1, k2) = choose|k1: u64, k2: u64|
            k1 < k2 && (k2 as int) < n - 1 && #[trigger] is_threat(g, k1) && #[trigger] is_threat(
                g,
                k2,
            );
        assert(is_threat(g, k1) && is_threat(g, k2));
    } else {
        lemma_threat_cell(g, (n - 1) as nat);
        let k1 = choose|k: u64| (k as int) < n - 1 && #[trigger] is_threat(g, k);
        let k2 = (n - 1) as u64;
        assert(is_threat(g, k1) && is_threat(g, k2));
        assert(k1 < k2 && (k2 as int) < n);
    }
}

/// Two threats that the side to move cannot both block, and no immediate win: the
/// position is lost at the opponent's next stone.
pub proof fn lemma_two_threats(g: Game)
    requires
        g.wf(),
        g.game_status == GameStatus::InProgress,
        !has_winning_move(g),
        threat_count(g) >= 2,
    ensures
        game_value(g) == min_possible(g.moves_made as int),
{
    lemma_two_threat_cells(g, 64);
    let (k1, k2) = choose|k1: u64, k2: u64|
        k1 < k2 && (k2 as int) < 64 && #[trigger] is_threat(g, k1) && #[trigger] is_threat(g, k2);
    lemma_playable_cell(g.board_set, k1);
    lemma_playable_cell(g.board_set, k2);
    assert(k1 / 8 != k2 / 8);
    let p = g.moves_made as int;
    assert forall|col: u8| col < 7 && #[trigger] g.can_make(col) implies -game_value(
        g.after_move(col),
    ) <= min_possible(p) by {
        if k1 / 8 != col {
            lemma_reply_wins(g, col, k1);
        } else {
            lemma_reply_wins(g, col, k2);
        }
    }
    lemma_best_le(g, 7, min_possible(p));
    lemma_value_bounds(g);
}

} // verus!

verus! {

proof fn lemma_best_witness(g: Game, c: nat)
    requires
        c <= 7,
        best_move_value(g, c) > -100,
    ensures
        exists|col: u8|
            (col as int) < c && g.moves_made < 42 && #[trigger] g.can_make(col) && best_move_value(
                g,
                c,
            ) == -game_value(g.after_move(col)),
    decreases c,
{
    let col = (c - 1) as u8;
    if g.moves_made < 42 && g.can_make(col) && -game_value(g.after_move(col))
        >= best_move_value(g, (c - 1) as nat) {
        assert(best_move_value(g, c) == -game_value(g.after_move(col)));
    } else {
        lemma_best_witness(g, (c - 1) as nat);
        let w = choose|w: u8|
            (w as int) < c - 1 && g.moves_made < 42 && #[trigger] g.can_make(w) && best_move_value(
                g,
                (c - 1) as nat,
            ) == -game_value(g.after_move(w));
        assert(g.can_make(w));
    }
}

/// The value of a game in progress is the best negated value over its legal moves: at
/// least the negated value after each of them, and equal to it after one.
pub proof fn lemma_value_recurrence(g: Game)
    requires
        g.wf(),
        g.game_status == GameStatus::InProgress,
    ensures
        forall|c: u8| #[trigger] g.can_make(c) ==> game_value(g) >= -game_value(g.after_move(c)),
        exists|c: u8| #[trigger] g.can_make(c) && game_value(g) == -game_value(g.after_move(c)),
{
    assert forall|c: u8| #[trigger] g.can_make(c) implies game_value(g) >= -game_value(
        g.after_move(c),
    ) by {
        lemma_best_ge(g, 7, c);
    }
    lemma_value_bounds(g);
    lemma_best_witness(g, 7);
}

} // verus!
