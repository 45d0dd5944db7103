//! A strong Connect-Four solver: bitboard positions, a transposition table,
//! an opening book and a null-window negamax search.

pub mod book;
pub mod engine;
pub mod game;
pub mod value;

use vstd::prelude::*;
use crate::book::OpeningBook;
use crate::engine::{
    book_sound, hashes_distinct, lemma_fresh_table_sound, max_possible, min_possible, search,
    TranspositionTable,
};
use crate::value::game_value;
use crate::game::{empty_game, Game, GameStatus};

verus! {

/// Address bits of the transposition table that `c4engine` allocates.
pub const HOST_TABLE_BITS: usize = 20;

/// Plays the decimal digits of `moves` from index `i` on, each as a zero-based column,
/// skipping every other byte: `None` as soon as a move is illegal.
pub open spec fn play_digits(g: Game, moves: Seq<u8>, i: nat) -> Option<Game>
    decreases moves.len() - i,
{
    if i >= moves.len() {
        Some(g)
    } else if 0x30 <= moves[i as int] <= 0x39 {
        let col = (moves[i as int] - 0x30) as u8;
        if g.can_make(col) {
            play_digits(g.after_move(col), moves, i + 1)
        } else {
            None
        }
    } else {
        play_digits(g, moves, i + 1)
    }
}

/// The score of the position that the digits of `pos` (zero-based columns, other bytes
/// ignored) reach from the empty board, for the side to move there; `i8::MIN` when one
/// of the moves is illegal.
pub fn c4engine(pos: &[u8], book: &OpeningBook) -> (r: i8)
    requires
        book.wf(),
    ensures
        play_digits(empty_game(), pos@, 0) is None ==> r == i8::MIN,
        play_digits(empty_game(), pos@, 0) matches Some(g) ==> {
            &&& min_possible(g.moves_made as int) <= r <= max_possible(g.moves_made as int)
            &&& g.game_status == GameStatus::Draw ==> r == 0
            &&& (g.game_status == GameStatus::Player1Win || g.game_status
                == GameStatus::Player2Win) ==> r == min_possible(g.moves_made as int)
            &&& (book_sound(*book) && hashes_distinct() && g.game_status
                == GameStatus::InProgress) ==> r == game_value(g)
        },
{
    let mut game = Game::new();
    let mut i: usize = 0;
    while i < pos.len()
        invariant
            game.wf(),
            i <= pos@.len(),
            play_digits(empty_game(), pos@, 0) == play_digits(game, pos@, i as nat),
        decreases pos@.len() - i,
    {
        let c = pos[i];
        if 0x30 <= c && c <= 0x39 {
            let (ok, _) = game.make_move(c - 0x30);
            if !ok {
                return i8::MIN;
            }
        }
        i = i + 1;
    }
    let mut table = TranspositionTable::new(HOST_TABLE_BITS);
    proof {
        if hashes_distinct() {
            lemma_fresh_table_sound(table.slots(), table.mask());
        }
    }
    let mut nodes: u64 = 0;
    search(&mut game, &mut table, book, &mut nodes)
}

} // verus!
