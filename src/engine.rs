//! The search: a direct-mapped transposition table, negamax with alpha-beta pruning and
//! the null-window driver that narrows in on the exact score.

use vstd::prelude::*;
use std::collections::HashSet;
use crate::book::OpeningBook;
use crate::value::{
    game_value, is_threat, lemma_best_ge, lemma_best_le, lemma_forced_value, lemma_immediate_win,
    lemma_two_threats, lemma_value_bounds,
};
use crate::game::{
    bit, count_bits, count_ones, get_winning_squares, playable_word, winning_playable,
    winning_square, Game, GameStatus, COLS, COLUMN_MASK,
};

verus! {

/// How a stored score bounds the true value of a position.
#[derive(Debug, Clone, Copy, PartialEq, Eq, Structural)]
pub enum ValueType {
    Exact,
    UpperBound,
    LowerBound,
}

/// A score with the kind of bound it is.
#[derive(Debug, Clone, Copy, PartialEq, Eq, Structural)]
pub struct Eval {
    pub value: i8,
    pub value_type: ValueType,
}

/// A key with its evaluation.
#[derive(Debug, Clone, Copy)]
pub struct TranspositionTableEntry {
    pub key: u64,
    pub eval: Eval,
}

/// The value byte of an entry: the score, moved up by 50 for an upper bound and down by
/// 50 for a lower bound.
pub open spec fn stored_byte(e: Eval) -> int {
    match e.value_type {
        ValueType::LowerBound => e.value - 50,
        ValueType::UpperBound => e.value + 50,
        ValueType::Exact => e.value as int,
    }
}

/// The value byte fits in a signed byte.
pub open spec fn storable(e: Eval) -> bool {
    -128 <= stored_byte(e) <= 127
}

/// The value byte reads back as the same evaluation: exact scores in -25..=25, lower
/// bounds in -78..25, upper bounds in -24..=77.
pub open spec fn recoverable(e: Eval) -> bool {
    match e.value_type {
        ValueType::Exact => -25 <= e.value <= 25,
        ValueType::LowerBound => -78 <= e.value < 25,
        ValueType::UpperBound => -25 < e.value <= 77,
    }
}

/// A 64-bit entry: the top 56 bits of the key above the value byte.
pub open spec fn pack_entry(key: u64, e: Eval) -> u64 {
    ((key >> 8u64) << 8u64) | (((stored_byte(e) as i8) as u8) as u64)
}

/// The evaluation that a value byte encodes.
pub open spec fn unpack_value(b: i8) -> Eval {
    if b < -25 {
        Eval { value: (b + 50) as i8, value_type: ValueType::LowerBound }
    } else if b > 25 {
        Eval { value: (b - 50) as i8, value_type: ValueType::UpperBound }
    } else {
        Eval { value: b, value_type: ValueType::Exact }
    }
}

/// What a table with these slots holds for `key`: nothing for the key 0 or when the
/// slot's top 56 bits differ from the key's.
pub open spec fn probe(slots: Seq<u64>, mask: u64, key: u64) -> Option<Eval> {
    if key == 0 {
        None
    } else {
        let entry = slots[(key & mask) as int];
        if key >> 8u64 == entry >> 8u64 {
            Some(unpack_value(entry as i8))
        } else {
            None
        }
    }
}

/// A direct-mapped table of packed 64-bit entries, addressed by the low bits of the key.
pub struct TranspositionTable {
    address_mask: u64,
    entries: Vec<u64>,
}

impl TranspositionTable {
    /// The mask that selects a key's slot.
    pub closed spec fn mask(&self) -> u64 {
        self.address_mask
    }

    /// The stored entries.
    pub closed spec fn slots(&self) -> Seq<u64> {
        self.entries@
    }

    /// There is a slot for every masked key.
    pub open spec fn wf(&self) -> bool {
        self.slots().len() == self.mask() as int + 1
    }

    /// A table of `2^n` empty slots.
    pub fn new(n: usize) -> (r: Self)
        requires
            n < 32,
        ensures
            r.wf(),
            r.mask() == ((1u64 << n) - 1) as u64,
            forall|i: int| 0 <= i < r.slots().len() ==> #[trigger] r.slots()[i] == 0,
    {
        let size: usize = 1usize << n;
        assert(size >= 1 && size <= 0x8000_0000 && (size - 1) as u64 == ((1u64 << n) - 1) as u64)
            by (bit_vector)
            requires
                n < 32,
                size == 1usize << n,
        ;
        let mut entries: Vec<u64> = Vec::with_capacity(size);
        while entries.len() < size
            invariant
                entries@.len() <= size,
                forall|i: int| 0 <= i < entries@.len() ==> #[trigger] entries@[i] == 0,
            decreases size - entries@.len(),
        {
            entries.push(0);
        }
        Self { address_mask: (size - 1) as u64, entries }
    }

    /// Overwrites the slot of `key` with `key` and `value`.
    pub fn insert(&mut self, key: u64, value: Eval)
        requires
            old(self).wf(),
            storable(value),
        ensures
            final(self).wf(),
            final(self).mask() == old(self).mask(),
            final(self).slots() == old(self).slots().update(
                (key & old(self).mask()) as int,
                pack_entry(key, value),
            ),
    {
        let mask = self.address_mask;
        let position = key & mask;
        assert(position <= mask) by (bit_vector)
            requires
                position == key & mask,
        ;
        let len = self.entries.len();
        assert(position < len);
        let entry_val: i8 = match value.value_type {
            ValueType::LowerBound => value.value - 50,
            ValueType::UpperBound => value.value + 50,
            ValueType::Exact => value.value,
        };
        let entry = ((key >> 8u64) << 8u64) | ((#[verifier::truncate] (entry_val as u8)) as u64);
        self.entries.set(position as usize, entry);
    }

    /// The evaluation stored for `key`, if its slot holds it.
    pub fn get(&mut self, key: u64) -> (r: Option<Eval>)
        requires
            old(self).wf(),
        ensures
            *final(self) == *old(self),
            r == probe(old(self).slots(), old(self).mask(), key),
    {
        if key == 0 {
            return None;
        }
        let mask = self.address_mask;
        let position = key & mask;
        assert(position <= mask) by (bit_vector)
            requires
                position == key & mask,
        ;
        let len = self.entries.len();
        assert(position < len);
        let entry = self.entries[position as usize];
        if key >> 8u64 == entry >> 8u64 {
            let entry_val: i8 = #[verifier::truncate] (entry as i8);
            if entry_val < -25 {
                return Some(Eval { value: entry_val + 50, value_type: ValueType::LowerBound });
            }
            if entry_val > 25 {
                return Some(Eval { value: entry_val - 50, value_type: ValueType::UpperBound });
            }
            return Some(Eval { value: entry_val, value_type: ValueType::Exact });
        }
        None
    }
}

/// After an evaluation is stored under a nonzero key, the table reads it back for that
/// key, as long as its value byte is unambiguous.
pub proof fn lemma_insert_then_get(slots: Seq<u64>, mask: u64, key: u64, e: Eval)
    requires
        key != 0,
        (key & mask) < slots.len(),
        recoverable(e),
    ensures
        probe(slots.update((key & mask) as int, pack_entry(key, e)), mask, key) == Some(e),
{
    lemma_pack_bits(key, stored_byte(e) as i8);
}

proof fn lemma_pack_bits(key: u64, b: i8)
    by (bit_vector)
    ensures
        (((key >> 8u64) << 8u64) | ((b as u8) as u64)) >> 8u64 == key >> 8u64,
        (((key >> 8u64) << 8u64) | ((b as u8) as u64)) as i8 == b,
{
}

proof fn lemma_mask_index(k: u64, mask: u64)
    by (bit_vector)
    ensures
        k & mask <= mask,
        (0u64 >> 8u64) == 0u64,
{
}

/// The best score still possible for the side to move after `ply` moves: a win with its
/// next stone.
pub open spec fn max_possible(ply: int) -> int {
    21 - ply / 2
}

/// The worst score possible for the side to move after `ply` moves: a loss to the
/// opponent's next stone.
pub open spec fn min_possible(ply: int) -> int {
    -21 + (ply + 1) / 2
}

/// The side to move can complete a four-in-a-row with its next stone.
pub open spec fn has_winning_move(g: Game) -> bool {
    exists|k: u64| #[trigger] winning_playable(g, k)
}

/// Playable cells below index `n` where the opponent would complete a four-in-a-row.
pub open spec fn threats_upto(g: Game, n: nat) -> nat
    decreases n,
{
    if n == 0 {
        0
    } else {
        threats_upto(g, (n - 1) as nat) + if winning_square(
            g.opponent_stones(),
            g.board_set,
            (n - 1) as u64,
        ) && bit(playable_word(g.board_set), (n - 1) as u64) {
            1nat
        } else {
            0nat
        }
    }
}

/// Number of playable cells where the opponent would complete a four-in-a-row.
pub open spec fn threat_count(g: Game) -> nat {
    threats_upto(g, 64)
}

/// The score that negamax returns before it probes the table or searches: for a decided
/// game, a window that the bounds of the ply already settle, an immediate win, a book
/// hit at ply 12, or two threats that cannot both be blocked.
pub open spec fn early_value(g: Game, alpha: int, beta: int, book: OpeningBook) -> Option<int> {
    let ply = g.moves_made as int;
    if g.game_status == GameStatus::Draw {
        Some(0)
    } else if g.game_status != GameStatus::InProgress {
        Some(-22 + (ply + 1) / 2)
    } else if max_possible(ply) <= alpha {
        Some(max_possible(ply))
    } else if min_possible(ply) >= beta {
        Some(min_possible(ply))
    } else if has_winning_move(g) {
        Some(max_possible(ply))
    } else if ply == 12 && book.lookup_spec(g.board_set, g.board_p1) is Some {
        Some(book.lookup_spec(g.board_set, g.board_p1)->Some_0 as int)
    } else if threat_count(g) >= 2 {
        Some(min_possible(ply))
    } else {
        None
    }
}

proof fn lemma_threats(w: u64, g: Game, n: nat)
    requires
        forall|k: u64|
            k < 64 ==> (#[trigger] bit(w, k) == (winning_square(
                g.opponent_stones(),
                g.board_set,
                k,
            ) && bit(playable_word(g.board_set), k))),
        n <= 64,
    ensures
        count_bits(w, n) == threats_upto(g, n),
    decreases n,
{
    if n > 0 {
        lemma_threats(w, g, (n - 1) as nat);
    }
}

/// Every evaluation read from the table lies within -78..=77.
proof fn lemma_probe_range(slots: Seq<u64>, mask: u64, key: u64)
    ensures
        probe(slots, mask, key) matches Some(e) ==> -78 <= e.value <= 77,
{
}

/// A stored evaluation bounds a score as its kind says.
pub open spec fn bound_holds(e: Eval, v: int) -> bool {
    match e.value_type {
        ValueType::Exact => v == e.value,
        ValueType::LowerBound => v >= e.value,
        ValueType::UpperBound => v <= e.value,
    }
}

/// Every evaluation that these slots give for the hash of a position bounds the value of
/// that position.
pub open spec fn slots_sound(slots: Seq<u64>, mask: u64) -> bool {
    forall|g: Game|
        g.wf() ==> (#[trigger] probe(slots, mask, g.position_hash) matches Some(e) ==> bound_holds(
            e,
            game_value(g),
        ))
}

/// The table holds only sound bounds.
pub open spec fn table_sound(t: TranspositionTable) -> bool {
    slots_sound(t.slots(), t.mask())
}

/// The top 56 bits of a position's hash, which the table compares.
pub open spec fn hash_key(g: Game) -> u64 {
    g.position_hash >> 8u64
}

/// Positions with different stones differ in the top 56 bits of their hashes.
pub open spec fn hashes_distinct() -> bool {
    forall|g1: Game, g2: Game|
        g1.wf() && g2.wf() && #[trigger] hash_key(g1) == #[trigger] hash_key(g2) ==> g1.board_set
            == g2.board_set && g1.board_p1 == g2.board_p1
}

/// Every book hit for a position at ply 12 is its value.
pub open spec fn book_sound(book: OpeningBook) -> bool {
    forall|g: Game|
        g.wf() && g.game_status == GameStatus::InProgress && g.moves_made == 12 ==> (
        #[trigger] book.lookup_spec(g.board_set, g.board_p1) matches Some(e) ==> e == game_value(g))
}

/// What the search's results are proved against: a sound book, hashes that tell
/// positions apart, and a table of sound bounds.
pub open spec fn search_sound(book: OpeningBook, t: TranspositionTable) -> bool {
    book_sound(book) && hashes_distinct() && table_sound(t)
}

/// A fail-hard result `r` of the window `alpha..beta` for a position of value `v`: at or
/// below `alpha` it bounds `v` from above, at or above `beta` from below, and inside the
/// window it is `v`.
pub open spec fn fail_hard(r: int, alpha: int, beta: int, v: int) -> bool {
    &&& r <= alpha ==> v <= r
    &&& r >= beta ==> v >= r
    &&& alpha < r < beta ==> r == v
}

/// Two positions with the same stones are the same position.
pub proof fn lemma_same_position(g1: Game, g2: Game)
    requires
        g1.wf(),
        g2.wf(),
        g1.board_set == g2.board_set,
        g1.board_p1 == g2.board_p1,
    ensures
        g1 == g2,
{
}

/// Storing a sound bound for a position keeps the table sound.
pub proof fn lemma_insert_sound(slots: Seq<u64>, mask: u64, g0: Game, e: Eval)
    requires
        slots_sound(slots, mask),
        hashes_distinct(),
        g0.wf(),
        bound_holds(e, game_value(g0)),
        recoverable(e),
        slots.len() == mask as int + 1,
    ensures
        slots_sound(slots.update((g0.position_hash & mask) as int, pack_entry(g0.position_hash, e)), mask),
{
    let key = g0.position_hash;
    lemma_mask_index(key, mask);
    let idx = (key & mask) as int;
    let s2 = slots.update(idx, pack_entry(key, e));
    lemma_pack_bits(key, stored_byte(e) as i8);
    assert forall|g: Game| g.wf() implies (#[trigger] probe(s2, mask, g.position_hash) matches Some(
        e2,
    ) ==> bound_holds(e2, game_value(g))) by {
        lemma_mask_index(g.position_hash, mask);
        if (g.position_hash & mask) as int == idx {
            if probe(s2, mask, g.position_hash) is Some {
                assert(hash_key(g) == hash_key(g0));
                lemma_same_position(g, g0);
                lemma_insert_then_get(slots, mask, key, e);
            }
        } else {
            assert(probe(s2, mask, g.position_hash) == probe(slots, mask, g.position_hash));
        }
    }
}

/// A table of empty slots is sound when hashes tell positions apart.
pub proof fn lemma_fresh_table_sound(slots: Seq<u64>, mask: u64)
    requires
        hashes_distinct(),
        forall|i: int| 0 <= i < slots.len() ==> #[trigger] slots[i] == 0,
        slots.len() == mask as int + 1,
    ensures
        slots_sound(slots, mask),
{
    lemma_mask_index(0, mask);
    crate::game::lemma_empty_game_wf();
    let g0 = crate::game::empty_game();
    assert forall|g: Game| g.wf() implies (#[trigger] probe(slots, mask, g.position_hash) matches Some(
        e,
    ) ==> bound_holds(e, game_value(g))) by {
        lemma_mask_index(g.position_hash, mask);
        if probe(slots, mask, g.position_hash) is Some {
            assert(slots[(g.position_hash & mask) as int] == 0);
            assert(hash_key(g) == hash_key(g0));
            lemma_same_position(g, g0);
        }
    }
}

/// Column `col` stands among the first `idx` entries of a move order.
pub open spec fn seen_before(order: [u8; 7], idx: int, col: u8) -> bool {
    exists|t: int| 0 <= t < idx && order[t] == col
}

/// Alpha-beta negamax with fail-hard cutoffs: the score of `game` for the side to move,
/// searched within the window `alpha..beta`. The position is restored before it returns.
/// The table's signed value byte holds bounds within -24..=24 unambiguously, hence the
/// window; scores read back from the table lie within -78..=78.
pub fn negamax(
    game: &mut Game,
    alpha: i8,
    beta: i8,
    transposition_table: &mut TranspositionTable,
    book: &OpeningBook,
    nodes: &mut u64,
) -> (r: i8)
    requires
        old(game).wf(),
        old(transposition_table).wf(),
        book.wf(),
        -24 <= alpha < beta <= 24,
    ensures
        *final(game) == *old(game),
        final(transposition_table).wf(),
        final(transposition_table).mask() == old(transposition_table).mask(),
        *final(nodes) >= *old(nodes),
        *old(nodes) < u64::MAX ==> *final(nodes) > *old(nodes),
        -78 <= r <= 78,
        early_value(*old(game), alpha as int, beta as int, *book) matches Some(v) ==> r == v,
        early_value(*old(game), alpha as int, beta as int, *book) is Some
            ==> *final(transposition_table) == *old(transposition_table),
        search_sound(*book, *old(transposition_table)) ==> table_sound(*final(transposition_table))
            && fail_hard(r as int, alpha as int, beta as int, game_value(*old(game))),
    decreases 42 - old(game).moves_made,
{
    let ghost g0 = *game;
    let ghost a0 = alpha as int;
    let ghost b0 = beta as int;
    let ghost sound = search_sound(*book, *old(transposition_table));
    *nodes = (*nodes).saturating_add(1);
    match game.game_status {
        GameStatus::InProgress => {},
        GameStatus::Draw => {
            return 0;
        },
        _ => {
            return -22 + (game.moves_made + 1) / 2;
        },
    }
    proof {
        lemma_value_bounds(g0);
    }
    let max_possible: i8 = 21 - game.moves_made / 2;
    if max_possible <= alpha {
        return max_possible;
    }
    let min_possible: i8 = -21 + (game.moves_made + 1) / 2;
    if min_possible >= beta {
        return min_possible;
    }
    let player_slots = if game.player_one_turn {
        game.board_set & game.board_p1
    } else {
        game.board_set & !game.board_p1
    };
    let player_winning_squares = get_winning_squares(player_slots, game.board_set);
    let board_playable = game.get_board_playable();
    let wins = board_playable & player_winning_squares;
    proof {
        crate::game::lemma_bit_or_and(board_playable, player_winning_squares);
        crate::game::lemma_nonzero_has_bit(wins);
        assert forall|k: u64| #[trigger] bit(wins, k) == winning_playable(g0, k) by {
            if k >= 64 {
                assert(!bit(wins, k));
            }
        }
    }
    if wins != 0 {
        proof {
            let k = choose|k: u64| k < 64 && #[trigger] bit(wins, k);
            assert(winning_playable(g0, k));
            lemma_immediate_win(g0, k);
        }
        return max_possible;
    }
    proof {
        assert forall|k: u64| !#[trigger] winning_playable(g0, k) by {
            if k < 64 {
                assert(!bit(wins, k));
            } else {
                assert(!bit(playable_word(g0.board_set), k));
            }
        }
    }
    if game.moves_made == 12 {
        if let Some(eval) = book.lookup(game.board_set, game.board_p1) {
            return eval;
        }
    }
    let opponent_slots = if game.player_one_turn {
        game.board_set & !game.board_p1
    } else {
        game.board_set & game.board_p1
    };
    let opponent_winning_squares = get_winning_squares(opponent_slots, game.board_set);
    let threats = board_playable & opponent_winning_squares;
    let n_threats = count_ones(threats);
    proof {
        crate::game::lemma_bit_or_and(board_playable, opponent_winning_squares);
        lemma_threats(threats, g0, 64);
        assert forall|k: u64| #[trigger] bit(threats, k) ==> is_threat(g0, k) by {
        }
    }
    if n_threats >= 2 {
        proof {
            lemma_two_threats(g0);
        }
        return min_possible;
    }
    assert(early_value(g0, a0, b0, *book) is None);
    if n_threats == 1 {
        let mut i: u8 = 0;
        while i < COLS
            invariant
                *game == g0,
                g0 == *old(game),
                g0.wf(),
                g0.game_status == GameStatus::InProgress,
                forall|k: u64| !#[trigger] winning_playable(g0, k),
                forall|k: u64| #[trigger] bit(threats, k) ==> is_threat(g0, k),
                book.wf(),
                -24 <= alpha < beta <= 24,
                a0 == alpha,
                b0 == beta,
                early_value(g0, a0, b0, *book) is None,
                transposition_table.wf(),
                *transposition_table == *old(transposition_table),
                *nodes >= *old(nodes),
                *old(nodes) < u64::MAX ==> *nodes > *old(nodes),
                i <= 7,
            decreases 7 - i,
        {
            let column = threats & (COLUMN_MASK << (i as u64 * 8));
            if column != 0 {
                let (ok, row_number) = game.make_move(i);
                if ok {
                    proof {
                        crate::game::lemma_nonzero_has_bit(column);
                        let k = choose|k: u64| k < 64 && #[trigger] bit(column, k);
                        crate::game::lemma_bit_or_and(threats, COLUMN_MASK << (i as u64 * 8));
                        lemma_column_cell(i as u64, k);
                        lemma_forced_value(g0, k);
                    }
                    let val = negamax(game, -beta, -alpha, transposition_table, book, nodes);
                    proof {
                        crate::game::lemma_make_unmake(g0, i);
                    }
                    game.unmake_move(i, row_number);
                    return -val;
                }
            }
            i = i + 1;
        }
    }
    let mut window_alpha = alpha;
    let mut window_beta = beta;
    let pos = game.get_hash();
    let probed = transposition_table.get(pos);
    proof {
        lemma_probe_range(transposition_table.slots(), transposition_table.mask(), pos);
    }
    if let Some(eval) = probed {
        match eval.value_type {
            ValueType::Exact => {
                return eval.value;
            },
            ValueType::LowerBound => {
                if eval.value >= window_beta {
                    return eval.value;
                }
                if eval.value > window_alpha {
                    window_alpha = eval.value;
                }
            },
            ValueType::UpperBound => {
                if eval.value <= window_alpha {
                    return eval.value;
                }
                if eval.value < window_beta {
                    window_beta = eval.value;
                }
            },
        }
    }
    let mut value: i8 = -128;
    let move_order = game.get_candidate_moves();
    let mut idx: usize = 0;
    while idx < 7
        invariant
            *game == g0,
            g0 == *old(game),
            g0.wf(),
            g0.game_status == GameStatus::InProgress,
            g0.moves_made < 42,
            book.wf(),
            transposition_table.wf(),
            transposition_table.mask() == old(transposition_table).mask(),
            *nodes >= *old(nodes),
            *old(nodes) < u64::MAX ==> *nodes > *old(nodes),
            idx <= 7,
            early_value(g0, a0, b0, *book) is None,
            a0 == alpha,
            b0 == beta,
            sound == search_sound(*book, *old(transposition_table)),
            pos == g0.position_hash,
            alpha <= window_alpha,
            window_beta <= beta,
            -24 <= window_alpha < window_beta <= 24,
            -128 <= value <= 78,
            value <= window_alpha,
            forall|c: u8| #[trigger] g0.can_make(c) ==> exists|t: int| 0 <= t < 7 && move_order[t] == c,
            sound ==> search_sound(*book, *transposition_table),
            sound && window_alpha > alpha ==> game_value(g0) >= window_alpha,
            sound && window_beta < beta ==> game_value(g0) <= window_beta,
            sound ==> forall|c: u8|
                #[trigger] g0.can_make(c) && seen_before(move_order, idx as int, c) ==> -game_value(
                    g0.after_move(c),
                ) <= window_alpha,
        decreases 7 - idx,
    {
        let col_num = move_order[idx];
        let ghost alpha_before = window_alpha;
        let (ok, row_number) = game.make_move(col_num);
        if ok {
            let child = negamax(game, -window_beta, -window_alpha, transposition_table, book, nodes);
            if -child > value {
                value = -child;
            }
            proof {
                crate::game::lemma_make_unmake(g0, col_num);
            }
            game.unmake_move(col_num, row_number);
            if value > window_alpha {
                window_alpha = value;
            }
            proof {
                if sound {
                    let vc = game_value(g0.after_move(col_num));
                    lemma_best_ge(g0, 7, col_num);
                    if window_alpha < window_beta {
                        assert(-vc <= window_alpha);
                    } else {
                        assert(game_value(g0) >= window_beta);
                    }
                }
            }
            if window_alpha >= window_beta {
                proof {
                    if sound {
                        lemma_insert_sound(
                            transposition_table.slots(),
                            transposition_table.mask(),
                            g0,
                            Eval { value: window_beta, value_type: ValueType::LowerBound },
                        );
                    }
                }
                transposition_table.insert(
                    pos,
                    Eval { value: window_beta, value_type: ValueType::LowerBound },
                );
                return window_beta;
            }
        }
        proof {
            assert forall|c: u8|
                #[trigger] g0.can_make(c) && seen_before(move_order, idx + 1, c) implies (sound
                ==> -game_value(g0.after_move(c)) <= window_alpha) by {
                if c != col_num {
                    let t = choose|t: int| 0 <= t < idx + 1 && move_order[t] == c;
                    assert(seen_before(move_order, idx as int, c));
                }
            }
        }
        idx = idx + 1;
    }
    proof {
        if sound {
            assert forall|c: u8| c < 7 && #[trigger] g0.can_make(c) implies -game_value(
                g0.after_move(c),
            ) <= window_alpha by {
                assert(seen_before(move_order, 7, c));
            }
            lemma_best_le(g0, 7, window_alpha as int);
            lemma_insert_sound(
                transposition_table.slots(),
                transposition_table.mask(),
                g0,
                Eval { value: window_alpha, value_type: ValueType::UpperBound },
            );
        }
    }
    transposition_table.insert(pos, Eval { value: window_alpha, value_type: ValueType::UpperBound });
    window_alpha
}

proof fn lemma_column_cell(i: u64, k: u64)
    by (bit_vector)
    requires
        i < 7,
        k < 64,
        ((COLUMN_MASK << (i * 8) as u64) >> k) & 1 == 1,
    ensures
        k / 8 == i,
{
}

/// The score of a game in progress that negamax settles before any search, whatever the
/// window: an immediate win, a book hit at ply 12, or two threats that cannot both be
/// blocked.
pub open spec fn settled_score(g: Game, book: OpeningBook) -> Option<int> {
    let ply = g.moves_made as int;
    if has_winning_move(g) {
        Some(max_possible(ply))
    } else if ply == 12 && book.lookup_spec(g.board_set, g.board_p1) is Some {
        Some(book.lookup_spec(g.board_set, g.board_p1)->Some_0 as int)
    } else if threat_count(g) >= 2 {
        Some(min_possible(ply))
    } else {
        None
    }
}

/// `v` brought into `lo..=hi`.
pub open spec fn clamp(v: int, lo: int, hi: int) -> int {
    if v < lo {
        lo
    } else if v > hi {
        hi
    } else {
        v
    }
}

/// The exact score of `game` for the side to move, found by a sequence of null-window
/// searches that narrow the range of possible scores. The position is restored.
pub fn search(
    game: &mut Game,
    transposition_table: &mut TranspositionTable,
    book: &OpeningBook,
    nodes: &mut u64,
) -> (r: i8)
    requires
        old(game).wf(),
        old(transposition_table).wf(),
        book.wf(),
    ensures
        *final(game) == *old(game),
        final(transposition_table).wf(),
        final(transposition_table).mask() == old(transposition_table).mask(),
        *final(nodes) >= *old(nodes),
        min_possible(old(game).moves_made as int) <= r <= max_possible(
            old(game).moves_made as int,
        ),
        old(game).game_status == GameStatus::Player1Win || old(game).game_status
            == GameStatus::Player2Win ==> r == min_possible(old(game).moves_made as int),
        old(game).game_status == GameStatus::Draw ==> r == 0,
        old(game).game_status == GameStatus::InProgress ==> (settled_score(*old(game), *book) matches Some(t)
            ==> r == clamp(
            t,
            min_possible(old(game).moves_made as int),
            max_possible(old(game).moves_made as int),
        )),
        search_sound(*book, *old(transposition_table)) ==> table_sound(*final(transposition_table))
            && (old(game).game_status == GameStatus::InProgress ==> r == game_value(*old(game))),
{
    let ghost g0 = *game;
    let ghost sound = search_sound(*book, *old(transposition_table));
    proof {
        if g0.game_status == GameStatus::InProgress {
            lemma_value_bounds(g0);
        }
    }
    let mut maximum_possible: i8 = 21 - game.moves_made / 2;
    let mut minimum_possible: i8 = -21 + (game.moves_made + 1) / 2;
    while minimum_possible < maximum_possible
        invariant
            *game == g0,
            g0 == *old(game),
            g0.wf(),
            book.wf(),
            transposition_table.wf(),
            transposition_table.mask() == old(transposition_table).mask(),
            *nodes >= *old(nodes),
            min_possible(g0.moves_made as int) <= minimum_possible,
            minimum_possible <= maximum_possible,
            maximum_possible <= max_possible(g0.moves_made as int),
            g0.game_status == GameStatus::Player1Win || g0.game_status == GameStatus::Player2Win
                ==> minimum_possible == min_possible(g0.moves_made as int),
            g0.game_status == GameStatus::InProgress ==> (settled_score(g0, *book) matches Some(t)
                ==> minimum_possible <= clamp(
                t,
                min_possible(g0.moves_made as int),
                max_possible(g0.moves_made as int),
            ) <= maximum_possible),
            sound == search_sound(*book, *old(transposition_table)),
            sound ==> search_sound(*book, *transposition_table),
            sound && g0.game_status == GameStatus::InProgress ==> minimum_possible <= game_value(g0)
                <= maximum_possible,
        decreases maximum_possible - minimum_possible,
    {
        let mut window: i8 = minimum_possible + (maximum_possible - minimum_possible) / 2;
        if window >= 0 && maximum_possible / 2 > window {
            window = maximum_possible / 2;
        } else if window <= 0 && minimum_possible / 2 < window {
            window = minimum_possible / 2;
        }
        let result = negamax(game, window, window + 1, transposition_table, book, nodes);
        if result <= window {
            maximum_possible = window;
        } else {
            minimum_possible = window + 1;
        }
    }
    minimum_possible
}

/// The exact score of `game` for the side to move, searched without an opening book.
pub fn negamax_wrapper(game: &mut Game, transposition_table: &mut TranspositionTable) -> (r: i8)
    requires
        old(game).wf(),
        old(transposition_table).wf(),
    ensures
        *final(game) == *old(game),
        final(transposition_table).wf(),
        final(transposition_table).mask() == old(transposition_table).mask(),
        min_possible(old(game).moves_made as int) <= r <= max_possible(
            old(game).moves_made as int,
        ),
        hashes_distinct() && table_sound(*old(transposition_table)) ==> table_sound(
            *final(transposition_table),
        ) && (old(game).game_status == GameStatus::InProgress ==> r == game_value(*old(game))),
{
    let book = OpeningBook { positions: Vec::new(), evals: Vec::new() };
    assert(book_sound(book));
    let mut nodes: u64 = 0;
    search(game, transposition_table, &book, &mut nodes)
}

/// The number of distinct positions `plies` moves deep below `game` (told apart by their
/// hash), counting each hash once over the whole walk; `seen` collects the hashes met.
pub fn calculate_tree_width(game: &mut Game, plies: i8, seen: &mut HashSet<u64>) -> (r: u64)
    requires
        old(game).wf(),
    ensures
        *final(game) == *old(game),
        old(seen)@.subset_of(final(seen)@),
        old(game).moves_made == plies ==> r == 1,
        old(game).moves_made != plies && old(game).game_status != GameStatus::InProgress ==> r
            == 0,
    decreases 42 - old(game).moves_made,
{
    broadcast use vstd::std_specs::hash::group_hash_axioms;

    if game.moves_made == plies {
        return 1;
    }
    let ghost g0 = *game;
    let mut positions: u64 = 0;
    let mut col_number: u8 = 0;
    while col_number < COLS
        invariant
            *game == g0,
            g0 == *old(game),
            g0.wf(),
            old(seen)@.subset_of(seen@),
            col_number <= 7,
            g0.game_status != GameStatus::InProgress ==> positions == 0,
        decreases 7 - col_number,
    {
        let (ok, row_number) = game.make_move(col_number);
        if ok {
            proof {
                crate::game::lemma_make_unmake(g0, col_number);
            }
            let pos = game.get_hash();
            if seen.contains(&pos) {
                game.unmake_move(col_number, row_number);
            } else {
                seen.insert(pos);
                let width = calculate_tree_width(game, plies, seen);
                positions = positions.saturating_add(width);
                game.unmake_move(col_number, row_number);
            }
        }
        col_number = col_number + 1;
    }
    positions
}

} // verus!
