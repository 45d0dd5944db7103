//! Bitboard positions: seven 8-bit column stripes in a 64-bit word, six rows each, the
//! seventh row of every stripe always empty.

use vstd::prelude::*;

verus! {

/// Columns in the order in which moves are tried: centre first, then outwards.
pub const MOVE_ORDER: [u8; 7] = [3, 4, 2, 5, 1, 6, 0];

pub const ROWS: u8 = 6;

pub const COLS: u8 = 7;

/// The six playable cells of the lowest column stripe.
pub const COLUMN_MASK: u64 = 0x3f;

/// Every playable cell: six rows in each of the seven 8-bit column stripes.
pub const BOARD_MASK: u64 = 0x003f_3f3f_3f3f_3f3f;

/// The cell of row 0 in each column.
pub const BOTTOM_ROW: u64 = 0x0001_0101_0101_0101;

/// Index of the cell (3, 3), around which the win masks are centred.
pub const WIN_MASK_OFFSET: u8 = 3 * 8 + 3;

/// The four-cell lines through (3, 3) along the four directions, four placements each,
/// shifted so that (3, 3) is bit `WIN_MASK_OFFSET`; some run off the board at its edges.
pub const WIN_MASKS: [u64; 16] = [
    251658240,
    503316480,
    1006632960,
    2013265920,
    135274560,
    17315143680,
    2216338391040,
    283691314053120,
    134744072,
    34494482432,
    8830587502592,
    2260630400663552,
    134480385,
    68853957120,
    35253226045440,
    18049651735265280,
];

/// Bit `i` of the word `x` (false for `i >= 64`).
pub open spec fn bit(x: u64, i: u64) -> bool {
    i < 64 && (x >> i) & 1 == 1
}

/// Index of the cell (column, row) in a bitboard.
pub open spec fn cell_index(column: int, row: int) -> u64 {
    (column * 8 + row) as u64
}

/// Four cells of `b` ending at index `i` along stride `d` (downwards).
pub open spec fn four_from(b: u64, i: u64, d: u64) -> bool {
    i >= 3 * d && bit(b, i) && bit(b, (i - d) as u64) && bit(b, (i - 2 * d) as u64) && bit(
        b,
        (i - 3 * d) as u64,
    )
}

/// Four in a row that ends at index `i`: vertical (stride 1), horizontal (stride 8)
/// or one of the diagonals (strides 9 and 7).
pub open spec fn four_at(b: u64, i: u64) -> bool {
    four_from(b, i, 1) || four_from(b, i, 8) || four_from(b, i, 9) || four_from(b, i, 7)
}

/// The stones of `b` hold a four-in-a-row somewhere.
pub open spec fn has_four(b: u64) -> bool {
    exists|i: u64| i < 64 && #[trigger] four_at(b, i)
}

/// The empty cell `i` completes a line of stride `d` whose three other cells are in `p`,
/// with `i` at either end or in one of the two middle places.
pub open spec fn completes_line(p: u64, i: u64, d: u64) -> bool {
    (i >= 3 * d && bit(p, (i - d) as u64) && bit(p, (i - 2 * d) as u64) && bit(
        p,
        (i - 3 * d) as u64,
    )) || (i >= 2 * d && bit(p, (i + d) as u64) && bit(p, (i - d) as u64) && bit(
        p,
        (i - 2 * d) as u64,
    )) || (i >= d && bit(p, (i + 2 * d) as u64) && bit(p, (i + d) as u64) && bit(
        p,
        (i - d) as u64,
    )) || (bit(p, (i + 3 * d) as u64) && bit(p, (i + 2 * d) as u64) && bit(p, (i + d) as u64))
}

/// Cell `i` is a winning square for the stones `p` on the occupancy `s`: an empty board
/// cell that completes a line, vertically on top of three stones or along a row or a
/// diagonal in any place.
pub open spec fn winning_square(p: u64, s: u64, i: u64) -> bool {
    &&& bit(BOARD_MASK, i)
    &&& !bit(s, i)
    &&& {
        ||| (i >= 3 && bit(p, (i - 1) as u64) && bit(p, (i - 2) as u64) && bit(p, (i - 3) as u64))
        ||| completes_line(p, i, 8)
        ||| completes_line(p, i, 9)
        ||| completes_line(p, i, 7)
    }
}

proof fn lemma_xor(a: u64, t: u64, z: u64)
    by (bit_vector)
    ensures
        (a ^ z) ^ t == (a ^ t) ^ z,
        (a ^ z) ^ z == a,
        a ^ 0u64 == a,
{
}

proof fn lemma_zero_word_at(k: u64, c: u64)
    by (bit_vector)
    ensures
        (0u64 >> k) & 1 != 1,
        (0u64 >> (8 * c) as u64) & 0xff == 0,
{
}

proof fn lemma_cell_shift(column_number: u8, row_number: u8)
    by (bit_vector)
    requires
        column_number * 8 + row_number < 64,
    ensures
        ((column_number << 3u8) as int) == column_number * 8,
{
}

proof fn lemma_mask_bit(x: u64, index: u64)
    by (bit_vector)
    requires
        index < 64,
    ensures
        (x & (1u64 << index)) == 0 <==> !((x >> index) & 1 == 1),
        (!x & (1u64 << index)) == 0 <==> ((x >> index) & 1 == 1),
{
}

proof fn lemma_single_bit_at(x: u64, i: u64, k: u64)
    by (bit_vector)
    requires
        i < 64,
    ensures
        (k < 64 && ((x | (1u64 << i)) >> k) & 1 == 1) == (k == i || (k < 64 && (x >> k) & 1 == 1)),
        (k < 64 && ((x & !(1u64 << i)) >> k) & 1 == 1) == (k != i && (k < 64 && (x >> k) & 1
            == 1)),
{
}

proof fn lemma_or_and_at(a: u64, b: u64, i: u64)
    by (bit_vector)
    ensures
        i < 64 ==> ((((a | b) >> i) & 1 == 1) == (((a >> i) & 1 == 1) || ((b >> i) & 1 == 1))),
        i < 64 ==> ((((a & b) >> i) & 1 == 1) == (((a >> i) & 1 == 1) && ((b >> i) & 1 == 1))),
{
}

proof fn lemma_four_word(b: u64, d: u64, i: u64)
    by (bit_vector)
    requires
        1 <= d <= 9,
        i < 64,
    ensures
        (((b & (b << d) & (b << (2 * d) as u64) & (b << (3 * d) as u64)) >> i) & 1 == 1) == (i
            >= 3 * d && (b >> i) & 1 == 1 && (b >> ((i - d) as u64)) & 1 == 1 && (b >> ((i - 2
            * d) as u64)) & 1 == 1 && (b >> ((i - 3 * d) as u64)) & 1 == 1),
{
}

/// A nonzero word has a set bit, and a word with a set bit is nonzero.
pub proof fn lemma_nonzero_has_bit(x: u64)
    ensures
        x != 0 <==> exists|i: u64| i < 64 && #[trigger] bit(x, i),
    decreases x,
{
    if x != 0 {
        if x & 1 == 1 {
            assert((x >> 0u64) & 1 == 1) by (bit_vector)
                requires
                    x & 1 == 1,
            ;
            assert(bit(x, 0));
        } else {
            let y = x >> 1;
            assert(y < x && y != 0) by (bit_vector)
                requires
                    x != 0,
                    x & 1 != 1,
                    y == x >> 1,
            ;
            lemma_nonzero_has_bit(y);
            let j = choose|j: u64| j < 64 && #[trigger] bit(y, j);
            assert(j < 63 && bit(x, (j + 1) as u64)) by (bit_vector)
                requires
                    j < 64,
                    (y >> j) & 1 == 1,
                    y == x >> 1,
            ;
        }
    } else {
        assert forall|i: u64| i < 64 implies !#[trigger] bit(x, i) by {
            lemma_zero_word_at(i, 0);
        }
    }
}

pub(crate) proof fn lemma_bit_or_and(a: u64, b: u64)
    ensures
        forall|i: u64| #[trigger] bit(a | b, i) == (bit(a, i) || bit(b, i)),
        forall|i: u64| #[trigger] bit(a & b, i) == (bit(a, i) && bit(b, i)),
{
    assert forall|i: u64| #[trigger] bit(a | b, i) == (bit(a, i) || bit(b, i)) by {
        lemma_or_and_at(a, b, i);
    }
    assert forall|i: u64| #[trigger] bit(a & b, i) == (bit(a, i) && bit(b, i)) by {
        lemma_or_and_at(a, b, i);
    }
}

/// Reads the cell (column, row) of a bitboard.
pub fn get_bit(board: u64, column_number: u8, row_number: u8) -> (r: bool)
    requires
        column_number * 8 + row_number < 64,
    ensures
        r == bit(board, cell_index(column_number as int, row_number as int)),
{
    proof {
        lemma_cell_shift(column_number, row_number);
    }
    let index: u8 = (column_number << 3u8) + row_number;
    let mask: u64 = 1u64 << index;
    proof {
        lemma_mask_bit(board, index as u64);
    }
    if board & mask == 0 {
        false
    } else {
        true
    }
}

/// Sets (`set == true`) or clears the cell (column, row) of a bitboard.
pub fn set_bit(board: u64, column_number: u8, row_number: u8, set: bool) -> (r: u64)
    requires
        column_number * 8 + row_number < 64,
    ensures
        forall|i: u64| #[trigger]
            bit(r, i) == if i == cell_index(column_number as int, row_number as int) {
                i < 64 && set
            } else {
                bit(board, i)
            },
        r == if set {
            board | (1u64 << cell_index(column_number as int, row_number as int))
        } else {
            board & !(1u64 << cell_index(column_number as int, row_number as int))
        },
{
    proof {
        lemma_cell_shift(column_number, row_number);
    }
    let index: u8 = (column_number << 3u8) + row_number;
    let mask: u64 = 1u64 << index;
    let r = if set {
        board | mask
    } else {
        board & !mask
    };
    assert forall|i: u64| #[trigger]
        bit(r, i) == if i == index as u64 {
            i < 64 && set
        } else {
            bit(board, i)
        } by {
        lemma_single_bit_at(board, index as u64, i);
    }
    r
}

/// True when the stones `board` hold a four-in-a-row.
pub fn check_board_for_win(board: u64) -> (r: bool)
    ensures
        r == has_four(board),
{
    let v = board & (board << 1u64) & (board << 2u64) & (board << 3u64);
    let h = board & (board << 8u64) & (board << 16u64) & (board << 24u64);
    let d1 = board & (board << 9u64) & (board << 18u64) & (board << 27u64);
    let d2 = board & (board << 7u64) & (board << 14u64) & (board << 21u64);
    proof {
        assert forall|i: u64| #[trigger] bit(v, i) == four_from(board, i, 1) by {
            if i < 64 {
                lemma_four_word(board, 1, i);
            }
        }
        assert forall|i: u64| #[trigger] bit(h, i) == four_from(board, i, 8) by {
            if i < 64 {
                lemma_four_word(board, 8, i);
            }
        }
        assert forall|i: u64| #[trigger] bit(d1, i) == four_from(board, i, 9) by {
            if i < 64 {
                lemma_four_word(board, 9, i);
            }
        }
        assert forall|i: u64| #[trigger] bit(d2, i) == four_from(board, i, 7) by {
            if i < 64 {
                lemma_four_word(board, 7, i);
            }
        }
        lemma_nonzero_has_bit(v);
        lemma_nonzero_has_bit(h);
        lemma_nonzero_has_bit(d1);
        lemma_nonzero_has_bit(d2);
        if has_four(board) {
            let i = choose|i: u64| i < 64 && #[trigger] four_at(board, i);
            assert(bit(v, i) || bit(h, i) || bit(d1, i) || bit(d2, i));
        }
    }
    if v != 0 {
        proof {
            let i = choose|i: u64| i < 64 && #[trigger] bit(v, i);
            assert(four_at(board, i));
        }
        return true;
    }
    if h != 0 {
        proof {
            let i = choose|i: u64| i < 64 && #[trigger] bit(h, i);
            assert(four_at(board, i));
        }
        return true;
    }
    if d1 != 0 {
        proof {
            let i = choose|i: u64| i < 64 && #[trigger] bit(d1, i);
            assert(four_at(board, i));
        }
        return true;
    }
    if d2 != 0 {
        proof {
            let i = choose|i: u64| i < 64 && #[trigger] bit(d2, i);
            assert(four_at(board, i));
        }
        return true;
    }
    false
}

/// The cells that complete a line of stride `d` for the stones `p`, at each of the four
/// places of the missing cell.
pub open spec fn line_word(p: u64, d: u64) -> u64 {
    ((p << d) & (p << (2 * d) as u64) & (p << (3 * d) as u64)) | ((p >> d) & (p << d) & (p << (2
        * d) as u64)) | ((p >> (2 * d) as u64) & (p >> d) & (p << d)) | ((p >> (3 * d) as u64) & (p
        >> (2 * d) as u64) & (p >> d))
}

proof fn lemma_line_word(p: u64, d: u64, i: u64)
    requires
        7 <= d <= 9,
        i < 64,
    ensures
        bit(line_word(p, d), i) == completes_line(p, i, d),
{
    assert(bit(line_word(p, d), i) == completes_line(p, i, d)) by (bit_vector)
        requires
            7 <= d <= 9,
            i < 64,
    ;
}

proof fn lemma_vertical_word(p: u64, i: u64)
    requires
        i < 64,
    ensures
        bit((p << 1u64) & (p << 2u64) & (p << 3u64), i) == (i >= 3 && bit(p, (i - 1) as u64) && bit(
            p,
            (i - 2) as u64,
        ) && bit(p, (i - 3) as u64)),
{
    assert(bit((p << 1u64) & (p << 2u64) & (p << 3u64), i) == (i >= 3 && bit(p, (i - 1) as u64)
        && bit(p, (i - 2) as u64) && bit(p, (i - 3) as u64))) by (bit_vector)
        requires
            i < 64,
    ;
}

/// The winning squares of the stones `player_squares` on the occupancy `played`: the empty
/// board cells that would complete a four-in-a-row.
pub fn get_winning_squares(player_squares: u64, played: u64) -> (r: u64)
    ensures
        forall|i: u64| i < 64 ==> (#[trigger] bit(r, i) == winning_square(player_squares, played, i)),
        r & played == 0,
        r & !BOARD_MASK == 0,
{
    let p = player_squares;
    let mut winning_squares: u64 = 0;
    winning_squares = winning_squares | ((p << 1u64) & (p << 2u64) & (p << 3u64));

    winning_squares = winning_squares | ((p << 8u64) & (p << 16u64) & (p << 24u64));
    winning_squares = winning_squares | ((p >> 8u64) & (p << 8u64) & (p << 16u64));
    winning_squares = winning_squares | ((p >> 16u64) & (p >> 8u64) & (p << 8u64));
    winning_squares = winning_squares | ((p >> 24u64) & (p >> 16u64) & (p >> 8u64));

    winning_squares = winning_squares | ((p << 9u64) & (p << 18u64) & (p << 27u64));
    winning_squares = winning_squares | ((p >> 9u64) & (p << 9u64) & (p << 18u64));
    winning_squares = winning_squares | ((p >> 18u64) & (p >> 9u64) & (p << 9u64));
    winning_squares = winning_squares | ((p >> 27u64) & (p >> 18u64) & (p >> 9u64));

    winning_squares = winning_squares | ((p << 7u64) & (p << 14u64) & (p << 21u64));
    winning_squares = winning_squares | ((p >> 7u64) & (p << 7u64) & (p << 14u64));
    winning_squares = winning_squares | ((p >> 14u64) & (p >> 7u64) & (p << 7u64));
    winning_squares = winning_squares | ((p >> 21u64) & (p >> 14u64) & (p >> 7u64));

    let r = winning_squares & !played & BOARD_MASK;
    proof {
        let wv = (p << 1u64) & (p << 2u64) & (p << 3u64);
        let all = wv | line_word(p, 8) | line_word(p, 9) | line_word(p, 7);
        assert(winning_squares == all) by (bit_vector)
            requires
                winning_squares == 0u64 | ((p << 1u64) & (p << 2u64) & (p << 3u64)) | ((p << 8u64)
                    & (p << 16u64) & (p << 24u64)) | ((p >> 8u64) & (p << 8u64) & (p << 16u64)) | ((
                p >> 16u64) & (p >> 8u64) & (p << 8u64)) | ((p >> 24u64) & (p >> 16u64) & (p
                    >> 8u64)) | ((p << 9u64) & (p << 18u64) & (p << 27u64)) | ((p >> 9u64) & (p
                    << 9u64) & (p << 18u64)) | ((p >> 18u64) & (p >> 9u64) & (p << 9u64)) | ((p
                    >> 27u64) & (p >> 18u64) & (p >> 9u64)) | ((p << 7u64) & (p << 14u64) & (p
                    << 21u64)) | ((p >> 7u64) & (p << 7u64) & (p << 14u64)) | ((p >> 14u64) & (p
                    >> 7u64) & (p << 7u64)) | ((p >> 21u64) & (p >> 14u64) & (p >> 7u64)),
                all == ((p << 1u64) & (p << 2u64) & (p << 3u64)) | line_word(p, 8) | line_word(
                    p,
                    9,
                ) | line_word(p, 7),
        ;
        assert forall|i: u64| i < 64 implies (#[trigger] bit(r, i) == winning_square(
            player_squares,
            played,
            i,
        )) by {
            lemma_vertical_word(p, i);
            lemma_line_word(p, 8, i);
            lemma_line_word(p, 9, i);
            lemma_line_word(p, 7, i);
            lemma_bit_or_and(wv, line_word(p, 8));
            lemma_bit_or_and(wv | line_word(p, 8), line_word(p, 9));
            lemma_bit_or_and(wv | line_word(p, 8) | line_word(p, 9), line_word(p, 7));
            lemma_bit_or_and(all, !played);
            lemma_bit_or_and(all & !played, BOARD_MASK);
            assert(bit(!played, i) == !bit(played, i)) by (bit_vector)
                requires
                    i < 64,
            ;
        }
        assert(r & played == 0 && r & !BOARD_MASK == 0) by (bit_vector)
            requires
                r == winning_squares & !played & BOARD_MASK,
        ;
    }
    r
}

/// Contents of a board cell.
#[derive(Debug, Clone, Copy, PartialEq, Eq, Structural)]
pub enum Slot {
    Empty,
    Player1,
    Player2,
}

impl Slot {
    /// The character that shows the cell on a printed board.
    pub fn symbol(&self) -> (r: char)
        ensures
            r == match self {
                Slot::Empty => '.',
                Slot::Player1 => 'X',
                Slot::Player2 => 'O',
            },
    {
        match self {
            Slot::Empty => '.',
            Slot::Player1 => 'X',
            Slot::Player2 => 'O',
        }
    }
}

#[derive(Debug, Clone, Copy, PartialEq, Eq, Structural)]
pub enum GameStatus {
    InProgress,
    Draw,
    Player1Win,
    Player2Win,
}

/// Zobrist words, indexed by column, row and player (0: player one, 1: player two).
pub const ZOBRIST_TABLE: [[[u64; 2]; 6]; 7] = [
    [
        [13486662071293341567, 14267822071968393595],
        [476749353381333526, 10775836403224147664],
        [4836194562707913489, 14240644878566540322],
        [4034245940868249875, 14641429003034911175],
        [13822854226189844396, 17873746660756568148],
        [18378811288308973438, 2571041345280940032],
    ],
    [
        [2081991766370990011, 17798077224538474069],
        [911270161334080496, 7852817067965929122],
        [8496195056663868058, 17049636688255558440],
        [4188160672033754810, 10317859705648061693],
        [2866423651167070955, 15412246435463340132],
        [3773745558899871665, 9281097119192530675],
    ],
    [
        [11764400380872380045, 8833212576626574552],
        [16160770233226465839, 16060849457396786474],
        [1166414886245368150, 18204917730788549397],
        [3999209161427211123, 18023453960276049415],
        [16923851123973672050, 12492199290193748133],
        [277162762454329748, 1276913683495316119],
    ],
    [
        [11402939609628147171, 11322043496214927533],
        [14485078758298599057, 12283475703381346152],
        [1557023758451509646, 1548872206668257607],
        [9568545136467229806, 13889253708667780310],
        [16007610384802464451, 1616024275245806917],
        [6477059765713880219, 3456035645780891832],
    ],
    [
        [9637356963291065104, 18016506439157543517],
        [4866586054261033474, 4614537122530110518],
        [18169378760006086094, 12285771362002754265],
        [12397446915914977917, 14605913234854054098],
        [5396821311736564615, 11703901243574474657],
        [633023744645866795, 1541945846486539002],
    ],
    [
        [3570480779374616615, 12098669816568457471],
        [10726039375878796842, 3445177694277077909],
        [3988822730944742006, 5877373309857078506],
        [6513088322503808376, 10270951229125481792],
        [11704238683667819069, 333050225838729137],
        [1534449671101557606, 5974225086358546710],
    ],
    [
        [4534981736771311996, 715464899421040780],
        [16886102838072778695, 8151272330276635535],
        [11253119520865801504, 878298192290245089],
        [14774028818590389215, 15011644926525101193],
        [15517538549265922993, 16895078448774206442],
        [14122809469390707297, 16228097447854870605],
    ],
];

pub open spec fn zobrist_word(column: int, row: int, player: int) -> u64 {
    ZOBRIST_TABLE[column][row][player]
}

/// Number of set bits of `x` below index `n`.
pub open spec fn count_bits(x: u64, n: nat) -> nat
    decreases n,
{
    if n == 0 {
        0
    } else {
        count_bits(x, (n - 1) as nat) + if bit(x, (n - 1) as u64) {
            1nat
        } else {
            0nat
        }
    }
}

/// Number of set bits of `x`.
pub open spec fn popcount(x: u64) -> nat {
    count_bits(x, 64)
}

/// The Zobrist word that an occupied cell `k` contributes (0 for an empty cell).
pub open spec fn zobrist_term(set: u64, p1: u64, k: u64) -> u64 {
    if bit(BOARD_MASK, k) && bit(set, k) {
        zobrist_word((k / 8) as int, (k % 8) as int, if bit(p1, k) { 0 } else { 1 })
    } else {
        0
    }
}

/// XOR of the Zobrist words of the occupied cells below index `n`.
pub open spec fn zobrist_upto(set: u64, p1: u64, n: nat) -> u64
    decreases n,
{
    if n == 0 {
        0
    } else {
        zobrist_upto(set, p1, (n - 1) as nat) ^ zobrist_term(set, p1, (n - 1) as u64)
    }
}

/// The Zobrist hash of a placement: the XOR of the word of every (column, row, owner).
pub open spec fn zobrist_of(set: u64, p1: u64) -> u64 {
    zobrist_upto(set, p1, 64)
}

/// The 8-bit stripe of column `c`.
pub open spec fn stripe(set: u64, c: u64) -> u64 {
    (set >> (8 * c) as u64) & 0xff
}

/// Number of stones in a column, or -1 when the column's stones do not stand on one
/// another from row 0 upwards.
pub open spec fn height_of_stripe(x: u64) -> int {
    if x == 0 {
        0
    } else if x == 1 {
        1
    } else if x == 3 {
        2
    } else if x == 7 {
        3
    } else if x == 15 {
        4
    } else if x == 31 {
        5
    } else if x == 63 {
        6
    } else {
        -1
    }
}

pub open spec fn column_height(set: u64, c: u64) -> int {
    height_of_stripe(stripe(set, c))
}

/// The outcome that a placement determines.
pub open spec fn status_of(set: u64, p1: u64, ply: int) -> GameStatus {
    if has_four(set & p1) {
        GameStatus::Player1Win
    } else if has_four(set & !p1) {
        GameStatus::Player2Win
    } else if ply >= 42 {
        GameStatus::Draw
    } else {
        GameStatus::InProgress
    }
}

pub(crate) proof fn lemma_single_bit(x: u64, i: u64)
    requires
        i < 64,
    ensures
        forall|k: u64| #[trigger] bit(x | (1u64 << i), k) == (k == i || bit(x, k)),
        forall|k: u64| #[trigger] bit(x & !(1u64 << i), k) == (k != i && bit(x, k)),
{
    assert forall|k: u64| #[trigger] bit(x | (1u64 << i), k) == (k == i || bit(x, k)) by {
        lemma_single_bit_at(x, i, k);
    }
    assert forall|k: u64| #[trigger] bit(x & !(1u64 << i), k) == (k != i && bit(x, k)) by {
        lemma_single_bit_at(x, i, k);
    }
}

/// Two words that differ in bit `j` alone, which only the second has, differ by one in
/// their count.
proof fn lemma_count_update(s1: u64, s2: u64, j: u64, n: nat)
    requires
        forall|k: u64| k != j ==> #[trigger] bit(s1, k) == bit(s2, k),
        !bit(s1, j),
        bit(s2, j),
        n <= 64,
    ensures
        count_bits(s2, n) == count_bits(s1, n) + if (j as int) < n {
            1int
        } else {
            0int
        },
    decreases n,
{
    if n > 0 {
        lemma_count_update(s1, s2, j, (n - 1) as nat);
    }
}

/// Two placements that agree away from the cell `j`, which only the second occupies,
/// differ in their hash by the word of that cell.
proof fn lemma_zobrist_update(s1: u64, q1: u64, s2: u64, q2: u64, j: u64, n: nat)
    requires
        forall|k: u64| k != j ==> #[trigger] bit(s1, k) == bit(s2, k),
        forall|k: u64| k != j ==> #[trigger] bit(q1, k) == bit(q2, k),
        !bit(s1, j),
        n <= 64,
    ensures
        zobrist_upto(s2, q2, n) == zobrist_upto(s1, q1, n) ^ if (j as int) < n {
            zobrist_term(s2, q2, j)
        } else {
            0u64
        },
    decreases n,
{
    if n > 0 {
        lemma_zobrist_update(s1, q1, s2, q2, j, (n - 1) as nat);
        let a = zobrist_upto(s1, q1, (n - 1) as nat);
        let t1 = zobrist_term(s1, q1, (n - 1) as u64);
        let t2 = zobrist_term(s2, q2, (n - 1) as u64);
        let z = zobrist_term(s2, q2, j);
        if (n - 1) as u64 == j {
            assert(t1 == 0);
            lemma_xor(a, t2, 0u64);
        } else {
            assert(t1 == t2);
            if (j as int) < n - 1 {
                lemma_xor(a, t1, z);
            } else {
                lemma_xor(a, t1, 0u64);
            }
        }
    } else {
        lemma_xor(0u64, 0u64, 0u64);
    }
}

/// A column stripe with `h` stones is the run of `h` low ones.
pub(crate) proof fn lemma_run(x: u64, h: u64)
    requires
        h <= 6,
    ensures
        (height_of_stripe(x) == h) <==> (x == (1u64 << h) - 1),
{
    assert(h <= 6 ==> (1u64 << h) - 1 == if h == 0 {
        0u64
    } else if h == 1 {
        1u64
    } else if h == 2 {
        3u64
    } else if h == 3 {
        7u64
    } else if h == 4 {
        15u64
    } else if h == 5 {
        31u64
    } else {
        63u64
    }) by (bit_vector);
}

/// The cell above a column of height `h < 6`.
proof fn lemma_landing(set: u64, c: u64, h: u64)
    requires
        c < 7,
        h < 6,
        set & !BOARD_MASK == 0,
        (set >> (8 * c) as u64) & 0xff == (1u64 << h) - 1,
    ensures
        set & (1u64 << (8 * c + h) as u64) == 0,
        (set | (1u64 << (8 * c + h) as u64)) & !BOARD_MASK == 0,
        ((set | (1u64 << (8 * c + h) as u64)) >> (8 * c) as u64) & 0xff == (1u64 << (h + 1) as u64)
            - 1,
        (set | (1u64 << (8 * c + h) as u64)) & !((set | (1u64 << (8 * c + h) as u64)) >> 1u64) & (
        COLUMN_MASK << (8 * c) as u64) == (1u64 << (8 * c + h) as u64),
{
    assert(set & (1u64 << (8 * c + h) as u64) == 0) by (bit_vector)
        requires
            c < 7,
            h < 6,
            (set >> (8 * c) as u64) & 0xff == (1u64 << h) - 1,
    ;
    assert((set | (1u64 << (8 * c + h) as u64)) & !BOARD_MASK == 0) by (bit_vector)
        requires
            c < 7,
            h < 6,
            set & !BOARD_MASK == 0,
    ;
    assert(((set | (1u64 << (8 * c + h) as u64)) >> (8 * c) as u64) & 0xff == (1u64 << (h
        + 1) as u64) - 1) by (bit_vector)
        requires
            c < 7,
            h < 6,
            (set >> (8 * c) as u64) & 0xff == (1u64 << h) - 1,
    ;
    assert((set | (1u64 << (8 * c + h) as u64)) & !((set | (1u64 << (8 * c + h) as u64))
        >> 1u64) & (COLUMN_MASK << (8 * c) as u64) == (1u64 << (8 * c + h) as u64))
        by (bit_vector)
        requires
            c < 7,
            h < 6,
            (set >> (8 * c) as u64) & 0xff == (1u64 << h) - 1,
    ;
}

/// Setting a cell of column `c` leaves the stripes of the other columns as they were.
pub(crate) proof fn lemma_other_stripe(set: u64, c: u64, h: u64, k: u64)
    requires
        c < 7,
        h < 6,
        k < 7,
        k != c,
    ensures
        ((set | (1u64 << (8 * c + h) as u64)) >> (8 * k) as u64) & 0xff == (set >> (8 * k) as u64)
            & 0xff,
{
    assert(((set | (1u64 << (8 * c + h) as u64)) >> (8 * k) as u64) & 0xff == (set >> (8
        * k) as u64) & 0xff) by (bit_vector)
        requires
            c < 7,
            h < 6,
            k < 7,
            k != c,
    ;
}

/// A position: the occupied cells, player one's cells, the side to move, the outcome,
/// the number of moves made and the Zobrist hash.
pub struct Game {
    pub board_set: u64,
    pub board_p1: u64,
    pub player_one_turn: bool,
    pub game_status: GameStatus,
    pub moves_made: i8,
    pub position_hash: u64,
}

impl Game {
    /// The invariant of every position reached from the empty board by moves.
    pub open spec fn wf(&self) -> bool {
        &&& self.board_set & !BOARD_MASK == 0
        &&& forall|c: u64| c < 7 ==> #[trigger] column_height(self.board_set, c) >= 0
        &&& self.board_p1 & !self.board_set == 0
        &&& 0 <= self.moves_made <= 42
        &&& popcount(self.board_set) == self.moves_made
        &&& popcount(self.board_p1) == (self.moves_made + 1) / 2
        &&& self.player_one_turn == (self.moves_made % 2 == 0)
        &&& self.game_status == status_of(self.board_set, self.board_p1, self.moves_made as int)
        &&& self.position_hash == zobrist_of(self.board_set, self.board_p1)
    }

    /// The stones of the side to move.
    pub open spec fn mover_stones(&self) -> u64 {
        if self.player_one_turn {
            self.board_set & self.board_p1
        } else {
            self.board_set & !self.board_p1
        }
    }

    /// The stones of the side that is not to move.
    pub open spec fn opponent_stones(&self) -> u64 {
        if self.player_one_turn {
            self.board_set & !self.board_p1
        } else {
            self.board_set & self.board_p1
        }
    }

    /// A stone can be dropped into `col`.
    pub open spec fn can_make(&self, col: u8) -> bool {
        &&& self.game_status == GameStatus::InProgress
        &&& col < 7
        &&& 0 <= column_height(self.board_set, col as u64) < 6
    }

    /// The position after dropping a stone into `col` (where `can_make`).
    pub open spec fn after_move(&self, col: u8) -> Game {
        let h = column_height(self.board_set, col as u64);
        let b = 1u64 << cell_index(col as int, h);
        let set = self.board_set | b;
        let p1 = if self.player_one_turn {
            self.board_p1 | b
        } else {
            self.board_p1 & !b
        };
        let mover = if self.player_one_turn {
            set & p1
        } else {
            set & !p1
        };
        let ply = self.moves_made + 1;
        Game {
            board_set: set,
            board_p1: p1,
            player_one_turn: !self.player_one_turn,
            game_status: if has_four(mover) {
                if self.player_one_turn {
                    GameStatus::Player1Win
                } else {
                    GameStatus::Player2Win
                }
            } else if ply == 42 {
                GameStatus::Draw
            } else {
                GameStatus::InProgress
            },
            moves_made: ply as i8,
            position_hash: self.position_hash ^ zobrist_word(
                col as int,
                h,
                if self.player_one_turn {
                    0
                } else {
                    1
                },
            ),
        }
    }

    /// The topmost occupied cell of column `col`, as a one-bit mask (0 when it is empty).
    pub open spec fn top_cell(&self, col: u8) -> u64 {
        self.board_set & !(self.board_set >> 1u64) & (COLUMN_MASK << (8 * col) as u64)
    }

    /// The position after taking back the stone on top of `col`, played at `row`.
    pub open spec fn after_unmake(&self, col: u8, row: u8) -> Game {
        let top = self.top_cell(col);
        Game {
            board_set: self.board_set & !top,
            board_p1: self.board_p1 & !top,
            player_one_turn: !self.player_one_turn,
            game_status: GameStatus::InProgress,
            moves_made: (self.moves_made - 1) as i8,
            position_hash: self.position_hash ^ zobrist_word(
                col as int,
                row as int,
                if !self.player_one_turn {
                    0
                } else {
                    1
                },
            ),
        }
    }
}

/// Facts about the landing cell of a legal move, shared by the proofs below.
pub(crate) proof fn lemma_move_facts(g: Game, col: u8)
    requires
        g.wf(),
        g.can_make(col),
    ensures
        ({
            let h = column_height(g.board_set, col as u64);
            let i = cell_index(col as int, h);
            let b = 1u64 << i;
            &&& i < 64
            &&& i / 8 == col
            &&& i % 8 == h
            &&& bit(BOARD_MASK, i)
            &&& !bit(g.board_set, i)
            &&& !bit(g.board_p1, i)
            &&& g.board_set & b == 0
            &&& g.board_p1 & b == 0
            &&& (g.board_set | b) & !BOARD_MASK == 0
            &&& stripe(g.board_set | b, col as u64) == (1u64 << (h + 1) as u64) - 1
            &&& after_top(g.board_set | b, col) == b
        }),
{
    let c = col as u64;
    let hh = column_height(g.board_set, c);
    assert(c < 7);
    let h = hh as u64;
    lemma_run(stripe(g.board_set, c), h);
    lemma_landing(g.board_set, c, h);
    let set = g.board_set;
    let p1 = g.board_p1;
    let i = (8 * c + h) as u64;
    assert(cell_index(col as int, hh) == i);
    assert(i < 64 && i / 8 == c && i % 8 == h && bit(BOARD_MASK, i)) by (bit_vector)
        requires
            c < 7,
            h < 6,
            i == 8 * c + h,
    ;
    assert(!bit(set, i) && !bit(p1, i) && p1 & (1u64 << i) == 0) by (bit_vector)
        requires
            set & (1u64 << i) == 0,
            p1 & !set == 0,
            i < 64,
    ;
}

/// The topmost cell of column `col` in the occupancy `set`.
pub open spec fn after_top(set: u64, col: u8) -> u64 {
    set & !(set >> 1u64) & (COLUMN_MASK << (8 * col) as u64)
}

/// Every legal move keeps the invariant.
pub proof fn lemma_after_move_wf(g: Game, col: u8)
    requires
        g.wf(),
        g.can_make(col),
    ensures
        g.after_move(col).wf(),
{
    lemma_move_facts(g, col);
    let c = col as u64;
    let h = column_height(g.board_set, c);
    let i = cell_index(col as int, h);
    let b = 1u64 << i;
    let set = g.board_set;
    let p1 = g.board_p1;
    let g2 = g.after_move(col);
    let set2 = g2.board_set;
    let p12 = g2.board_p1;
    lemma_single_bit(set, i);
    lemma_single_bit(p1, i);
    assert(g2.board_set & !BOARD_MASK == 0);
    assert forall|k: u64| k < 7 implies #[trigger] column_height(set2, k) >= 0 by {
        assert(set2 == set | b);
        if k == c {
            assert(stripe(set2, c) == (1u64 << (h + 1) as u64) - 1);
            lemma_run(stripe(set2, c), (h + 1) as u64);
            assert(height_of_stripe(stripe(set2, c)) == h + 1);
        } else {
            lemma_other_stripe(set, c, h as u64, k);
            assert(cell_index(col as int, h) == (8 * c + h) as u64);
            assert(stripe(set2, k) == stripe(set, k));
            assert(column_height(set, k) >= 0);
        }
    }
    assert((p1 | b) & !(set | b) == 0 && (p1 & !b) & !(set | b) == 0 && (p1 & !b) == p1 && (set | b) & !(p1 | b) == set & !p1
        && (set | b) & p1 == set & p1) by (bit_vector)
        requires
            set & b == 0,
            p1 & !set == 0,
    ;
    lemma_count_update(set, set2, i, 64);
    if g.player_one_turn {
        lemma_count_update(p1, p12, i, 64);
    }
    lemma_zobrist_update(set, p1, set2, p12, i, 64);
    assert(zobrist_term(set2, p12, i) == zobrist_word(
        col as int,
        h,
        if g.player_one_turn {
            0
        } else {
            1
        },
    ));
}

/// Taking back a legal move restores the position it was made in.
pub proof fn lemma_make_unmake(g: Game, col: u8)
    requires
        g.wf(),
        g.can_make(col),
    ensures
        g.after_move(col).top_cell(col) != 0,
        g.after_move(col).after_unmake(col, column_height(g.board_set, col as u64) as u8) == g,
{
    lemma_move_facts(g, col);
    let h = column_height(g.board_set, col as u64);
    let i = cell_index(col as int, h);
    let b = 1u64 << i;
    let set = g.board_set;
    let p1 = g.board_p1;
    let g2 = g.after_move(col);
    assert(g2.top_cell(col) == b);
    assert(b != 0 && (set | b) & !b == set && (p1 | b) & !b == p1 && (p1 & !b) & !b == p1)
        by (bit_vector)
        requires
            set & b == 0,
            p1 & b == 0,
            i < 64,
            b == 1u64 << i,
    ;
    let z = zobrist_word(
        col as int,
        h,
        if g.player_one_turn {
            0
        } else {
            1
        },
    );
    let hash = g.position_hash;
    lemma_xor(hash, z, z);
    let g3 = g2.after_unmake(col, h as u8);
    assert(g3.board_set == g.board_set);
    assert(g3.board_p1 == g.board_p1);
    assert(g3.position_hash == g.position_hash);
    assert(g3.moves_made == g.moves_made);
}

pub(crate) proof fn lemma_zero_word()
    ensures
        forall|k: u64| !#[trigger] bit(0u64, k),
        !has_four(0u64),
        forall|n: nat| n <= 64 ==> #[trigger] count_bits(0u64, n) == 0,
        forall|n: nat| n <= 64 ==> #[trigger] zobrist_upto(0u64, 0u64, n) == 0,
        forall|c: u64| c < 7 ==> #[trigger] column_height(0u64, c) == 0,
{
    assert forall|k: u64| !#[trigger] bit(0u64, k) by {
        lemma_zero_word_at(k, 0);
    }
    assert forall|c: u64| c < 7 implies #[trigger] column_height(0u64, c) == 0 by {
        lemma_zero_word_at(0, c);
    }
    assert forall|n: nat| n <= 64 implies #[trigger] count_bits(0u64, n) == 0 by {
        lemma_count_zero(n);
    }
    assert forall|n: nat| n <= 64 implies #[trigger] zobrist_upto(0u64, 0u64, n) == 0 by {
        lemma_zobrist_zero(n);
    }
}

proof fn lemma_count_zero(n: nat)
    requires
        n <= 64,
    ensures
        count_bits(0u64, n) == 0,
    decreases n,
{
    if n > 0 {
        lemma_count_zero((n - 1) as nat);
        let k = (n - 1) as u64;
        lemma_zero_word_at(k, 0);
    }
}

proof fn lemma_zobrist_zero(n: nat)
    requires
        n <= 64,
    ensures
        zobrist_upto(0u64, 0u64, n) == 0,
    decreases n,
{
    if n > 0 {
        lemma_zobrist_zero((n - 1) as nat);
        let k = (n - 1) as u64;
        lemma_zero_word_at(k, 0);
        lemma_xor(0u64, 0u64, 0u64);
    }
}

/// The playable cells: the lowest empty cell of every column that is not full.
pub open spec fn playable_word(set: u64) -> u64 {
    ((set << 1u64) | BOTTOM_ROW) & !set & BOARD_MASK
}

/// The cells where the side to move of `g` would complete a four-in-a-row now.
pub open spec fn winning_playable(g: Game, k: u64) -> bool {
    winning_square(g.mover_stones(), g.board_set, k) && bit(playable_word(g.board_set), k)
}

impl Game {
    /// The empty board, player one to move.
    pub fn new() -> (r: Self)
        ensures
            r.wf(),
            r.board_set == 0,
            r.board_p1 == 0,
            r.moves_made == 0,
            r.player_one_turn,
            r.game_status == GameStatus::InProgress,
            r.position_hash == 0,
    {
        proof {
            lemma_zero_word();
            assert(0u64 & 0u64 == 0u64 && 0u64 & !0u64 == 0u64 && 0u64 & !BOARD_MASK == 0u64)
                by (bit_vector);
        }
        Self {
            board_set: 0,
            board_p1: 0,
            player_one_turn: true,
            game_status: GameStatus::InProgress,
            moves_made: 0,
            position_hash: 0,
        }
    }

    /// Writes a cell directly, without any check of the rules.
    pub fn set_slot(&mut self, column_number: u8, row_number: u8, value: Slot)
        requires
            column_number * 8 + row_number < 64,
        ensures
            ({
                let b = 1u64 << cell_index(column_number as int, row_number as int);
                &&& final(self).board_set == if value == Slot::Empty {
                    old(self).board_set & !b
                } else {
                    old(self).board_set | b
                }
                &&& final(self).board_p1 == if value == Slot::Player1 {
                    old(self).board_p1 | b
                } else if value == Slot::Player2 {
                    old(self).board_p1 & !b
                } else {
                    old(self).board_p1
                }
            }),
            final(self).player_one_turn == old(self).player_one_turn,
            final(self).game_status == old(self).game_status,
            final(self).moves_made == old(self).moves_made,
            final(self).position_hash == old(self).position_hash,
    {
        proof {
            lemma_cell_shift(column_number, row_number);
        }
        let index: u8 = (column_number << 3u8) + row_number;
        let mask: u64 = 1u64 << index;
        if value == Slot::Empty {
            self.board_set = self.board_set & !mask;
            return ;
        }
        self.board_set = self.board_set | mask;
        if value == Slot::Player1 {
            self.board_p1 = self.board_p1 | mask;
        } else {
            self.board_p1 = self.board_p1 & !mask;
        }
    }

    /// Reads a cell.
    pub fn get_slot(&self, column_number: u8, row_number: u8) -> (r: Slot)
        requires
            column_number * 8 + row_number < 64,
        ensures
            ({
                let i = cell_index(column_number as int, row_number as int);
                r == if !bit(self.board_set, i) {
                    Slot::Empty
                } else if bit(self.board_p1, i) {
                    Slot::Player1
                } else {
                    Slot::Player2
                }
            }),
    {
        proof {
            lemma_cell_shift(column_number, row_number);
        }
        let index: u8 = (column_number << 3u8) + row_number;
        let mask: u64 = 1u64 << index;
        let set = self.board_set;
        let p1 = self.board_p1;
        proof {
            lemma_mask_bit(set, index as u64);
        }
        proof {
            lemma_mask_bit(p1, index as u64);
        }
        if set & mask == 0 {
            Slot::Empty
        } else if !p1 & mask == 0 {
            Slot::Player1
        } else {
            Slot::Player2
        }
    }

    /// Drops a stone of the side to move into `column_number`. Returns `(true, row)` with
    /// the row it landed on, or `(false, 0)` with the position unchanged when the game is
    /// decided, the column is out of range or the column is full.
    pub fn make_move(&mut self, column_number: u8) -> (r: (bool, u8))
        requires
            old(self).moves_made < 127,
        ensures
            r.0 == old(self).can_make(column_number),
            r.0 ==> r.1 == column_height(old(self).board_set, column_number as u64) && *final(self)
                == old(self).after_move(column_number),
            !r.0 ==> r.1 == 0 && *final(self) == *old(self),
            old(self).wf() ==> final(self).wf(),
    {
        if self.game_status != GameStatus::InProgress || column_number >= COLS {
            return (false, 0);
        }
        let shift: u64 = 8 * column_number as u64;
        let column: u64 = (self.board_set >> shift) & 0xff;
        let row_number: u8 = if column == 0 {
            0
        } else if column == 1 {
            1
        } else if column == 3 {
            2
        } else if column == 7 {
            3
        } else if column == 15 {
            4
        } else if column == 31 {
            5
        } else {
            return (false, 0);
        };
        proof {
            if old(self).wf() {
                lemma_after_move_wf(*old(self), column_number);
            }
        }
        let slot: u64 = 1u64 << (shift + row_number as u64);
        let player: usize = if self.player_one_turn {
            0
        } else {
            1
        };
        self.board_set = self.board_set | slot;
        if self.player_one_turn {
            self.board_p1 = self.board_p1 | slot;
        } else {
            self.board_p1 = self.board_p1 & !slot;
        }
        self.position_hash = self.position_hash
            ^ ZOBRIST_TABLE[column_number as usize][row_number as usize][player];
        self.moves_made = self.moves_made + 1;
        let mover = if self.player_one_turn {
            self.board_set & self.board_p1
        } else {
            self.board_set & !self.board_p1
        };
        if check_board_for_win(mover) {
            if self.player_one_turn {
                self.game_status = GameStatus::Player1Win;
            } else {
                self.game_status = GameStatus::Player2Win;
            }
        } else if self.moves_made == 42 {
            self.game_status = GameStatus::Draw;
        }
        self.player_one_turn = !self.player_one_turn;
        (true, row_number)
    }

    /// Takes back the stone on top of `column_number`, which the caller pledges was the
    /// last move and landed on `row_number`: the cell is cleared in both boards, the move
    /// count drops by one, the turn passes back, the game is in progress again and the
    /// cell's Zobrist word leaves the hash. Returns false, changing nothing, when the
    /// column is empty.
    pub fn unmake_move(&mut self, column_number: u8, row_number: u8) -> (r: bool)
        requires
            column_number < 7,
            row_number < 6,
            old(self).top_cell(column_number) != 0 ==> old(self).moves_made > -128,
        ensures
            r == (old(self).top_cell(column_number) != 0),
            r ==> *final(self) == old(self).after_unmake(column_number, row_number),
            !r ==> *final(self) == *old(self),
    {
        let slot = (self.board_set & !(self.board_set >> 1u64)) & (COLUMN_MASK << (8
            * column_number as u64));
        if slot == 0 {
            false
        } else {
            self.board_set = self.board_set & !slot;
            self.board_p1 = self.board_p1 & !slot;
            self.moves_made = self.moves_made - 1;
            self.game_status = GameStatus::InProgress;
            self.player_one_turn = !self.player_one_turn;
            let player: usize = if self.player_one_turn {
                0
            } else {
                1
            };
            self.position_hash = self.position_hash
                ^ ZOBRIST_TABLE[column_number as usize][row_number as usize][player];
            true
        }
    }

    /// Whether the player who made the last move, judged by the number of moves (odd and
    /// positive: player one), holds a four-in-a-row.
    pub fn check_win(&mut self, column_number: u8, row_number: u8) -> (r: bool)
        ensures
            r == has_four(
                if old(self).moves_made > 0 && old(self).moves_made % 2 == 1 {
                    old(self).board_set & old(self).board_p1
                } else {
                    old(self).board_set & !old(self).board_p1
                },
            ),
            *final(self) == *old(self),
    {
        let board = if self.moves_made % 2 == 1 {
            self.board_set & self.board_p1
        } else {
            self.board_set & !self.board_p1
        };
        check_board_for_win(board)
    }

    /// The cells where a stone can be dropped now.
    pub fn get_board_playable(&self) -> (r: u64)
        ensures
            r == playable_word(self.board_set),
    {
        ((self.board_set << 1u64) | BOTTOM_ROW) & !self.board_set & BOARD_MASK
    }

    pub fn get_hash(&self) -> (r: u64)
        ensures
            r == self.position_hash,
    {
        self.position_hash
    }
}

/// In every position reached by moves, the number of stones equals the number of moves,
/// and the game is in progress exactly when neither player holds a four-in-a-row and the
/// board is not full.
pub proof fn lemma_status_in_progress(g: Game)
    requires
        g.wf(),
    ensures
        popcount(g.board_set) == g.moves_made,
        (g.game_status == GameStatus::InProgress) <==> (!has_four(g.board_set & g.board_p1)
            && !has_four(g.board_set & !g.board_p1) && g.moves_made < 42),
{
}

/// Taking back a legal move and playing it again gives the same position as playing it
/// once.
pub proof fn lemma_unmake_remake(g: Game, col: u8)
    requires
        g.wf(),
        g.can_make(col),
    ensures
        ({
            let g1 = g.after_move(col);
            let row = column_height(g.board_set, col as u64) as u8;
            let g2 = g1.after_unmake(col, row);
            &&& g1.top_cell(col) != 0
            &&& g2.can_make(col)
            &&& column_height(g2.board_set, col as u64) == row
            &&& g2.after_move(col) == g1
        }),
{
    lemma_make_unmake(g, col);
}

/// The hash depends on the placement of the stones alone: two positions reached by moves
/// (in any order) that hold the same stones of each player have the same hash.
pub proof fn lemma_hash_path_independent(g1: Game, g2: Game)
    requires
        g1.wf(),
        g2.wf(),
        g1.board_set == g2.board_set,
        g1.board_p1 == g2.board_p1,
    ensures
        g1.position_hash == g2.position_hash,
{
}

/// Relies on `u64::count_ones`: the number of ones in the binary representation.
#[verifier::external_body]
pub(crate) fn count_ones(x: u64) -> (r: u32)
    ensures
        r == popcount(x),
{
    x.count_ones()
}

pub(crate) proof fn lemma_count_bits_bound(x: u64, n: nat)
    ensures
        count_bits(x, n) <= n,
    decreases n,
{
    if n > 0 {
        lemma_count_bits_bound(x, (n - 1) as nat);
    }
}

/// A column stripe of `w` is zero exactly when `w` has no bit in that column.
proof fn lemma_stripe_bits(w: u64, c: u64)
    requires
        c < 8,
    ensures
        ((w >> (8 * c) as u64) & 0xff == 0) <==> (forall|k: u64|
            8 * c <= k < 8 * c + 8 ==> !#[trigger] bit(w, k)),
{
    let x = (w >> (8 * c) as u64) & 0xff;
    assert forall|k: u64| 8 * c <= k < 8 * c + 8 implies #[trigger] bit(w, k) == bit(
        x,
        (k - 8 * c) as u64,
    ) by {
        assert(((w >> k) & 1 == 1) == ((((w >> (8 * c) as u64) & 0xff) >> ((k - 8 * c) as u64))
            & 1 == 1)) by (bit_vector)
            requires
                c < 8,
                8 * c <= k < 8 * c + 8,
        ;
    }
    lemma_nonzero_has_bit(x);
    if x != 0 {
        let j = choose|j: u64| j < 64 && #[trigger] bit(x, j);
        assert(j < 8) by (bit_vector)
            requires
                x == (w >> (8 * c) as u64) & 0xff,
                (x >> j) & 1 == 1,
                j < 64,
        ;
        assert(bit(w, (8 * c + j) as u64));
    }
}

impl Game {
    /// A column where the side to move completes a four-in-a-row now: the leftmost one,
    /// or `None` when there is none.
    pub fn get_winning_move(&self) -> (r: Option<u8>)
        ensures
            r is None <==> (forall|k: u64| !#[trigger] winning_playable(*self, k)),
            r matches Some(c) ==> {
                &&& c < 7
                &&& exists|k: u64| 8 * c <= k < 8 * c + 8 && #[trigger] winning_playable(*self, k)
                &&& forall|k: u64| k < 8 * c ==> !#[trigger] winning_playable(*self, k)
            },
    {
        let player_squares = if self.player_one_turn {
            self.board_set & self.board_p1
        } else {
            self.board_set & !self.board_p1
        };
        let winning_squares = get_winning_squares(player_squares, self.board_set);
        let board_playable = self.get_board_playable();
        let w = winning_squares & board_playable;
        proof {
            lemma_bit_or_and(winning_squares, board_playable);
            assert forall|k: u64| #[trigger] bit(w, k) == winning_playable(*self, k) by {
                if k >= 64 {
                    assert(!bit(w, k));
                }
            }
            assert forall|k: u64| k >= 56 implies !#[trigger] bit(w, k) by {
                assert(k >= 56 ==> !(k < 64 && ((w >> k) & 1 == 1))) by (bit_vector)
                    requires
                        w == winning_squares & board_playable,
                        winning_squares & !BOARD_MASK == 0,
                ;
            }
        }
        let mut c: u8 = 0;
        while c < COLS
            invariant
                c <= 7,
                w == winning_squares & board_playable,
                forall|k: u64| #[trigger] bit(w, k) == winning_playable(*self, k),
                forall|k: u64| k < 8 * c ==> !#[trigger] bit(w, k),
            decreases 7 - c,
        {
            proof {
                lemma_stripe_bits(w, c as u64);
            }
            if (w >> (8 * c as u64)) & 0xff != 0 {
                proof {
                    let k = choose|k: u64| 8 * c <= k < 8 * c + 8 && #[trigger] bit(w, k);
                    assert(winning_playable(*self, k));
                    assert forall|k: u64| k < 8 * c implies !#[trigger] winning_playable(*self, k) by {
                        assert(!bit(w, k));
                    }
                }
                return Some(c);
            }
            c = c + 1;
        }
        proof {
            assert forall|k: u64| !#[trigger] winning_playable(*self, k) by {
                assert(!bit(w, k));
            }
        }
        None
    }
}

/// Entry `k` comes before entry `j` in the move order: a higher score, or an equal score
/// and an earlier place.
pub open spec fn outranks(e: Seq<(usize, i32)>, k: int, j: int) -> bool {
    e[k].1 > e[j].1 || (e[k].1 == e[j].1 && k < j)
}

/// The place of entry `j` among the first `m` entries sorted by descending score, equal
/// scores keeping their order: the number of entries among them that come before it.
pub open spec fn rank(e: Seq<(usize, i32)>, j: int, m: nat) -> nat
    decreases m,
{
    if m == 0 {
        0
    } else {
        rank(e, j, (m - 1) as nat) + if outranks(e, m - 1, j) {
            1nat
        } else {
            0nat
        }
    }
}

proof fn lemma_rank_bound(e: Seq<(usize, i32)>, j: int, m: nat)
    requires
        0 <= j,
    ensures
        rank(e, j, m) + (if j < m {
            1int
        } else {
            0int
        }) <= m,
    decreases m,
{
    if m > 0 {
        lemma_rank_bound(e, j, (m - 1) as nat);
    }
}

proof fn lemma_rank_step(e: Seq<(usize, i32)>, j1: int, j2: int, m: nat)
    requires
        0 <= j1,
        0 <= j2,
        outranks(e, j1, j2),
    ensures
        rank(e, j2, m) >= rank(e, j1, m) + if j1 < m {
            1int
        } else {
            0int
        },
    decreases m,
{
    if m > 0 {
        lemma_rank_step(e, j1, j2, (m - 1) as nat);
    }
}

/// Distinct entries have distinct places.
proof fn lemma_rank_distinct(e: Seq<(usize, i32)>, j1: int, j2: int, n: nat)
    requires
        0 <= j1 < n,
        0 <= j2 < n,
        j1 != j2,
    ensures
        rank(e, j1, n) != rank(e, j2, n),
{
    if outranks(e, j1, j2) {
        lemma_rank_step(e, j1, j2, n);
    } else {
        lemma_rank_step(e, j2, j1, n);
    }
}

/// Orders the first `playable_cols` entries (column, score) by descending score, equal
/// scores in their given order, and returns their columns, padded with 255.
pub fn stable_sort_moves(col_scores: [(usize, i32); 7], playable_cols: usize) -> (r: [usize; 7])
    requires
        playable_cols <= 7,
    ensures
        forall|j: int|
            0 <= j < playable_cols ==> r[rank(col_scores@, j, playable_cols as nat) as int]
                == #[trigger] col_scores@[j].0,
        forall|t: int| playable_cols <= t < 7 ==> r[t] == 255,
{
    let ghost e = col_scores@;
    let ghost n = playable_cols as nat;
    let mut move_order: [usize; 7] = [255usize; 7];
    let mut j: usize = 0;
    while j < playable_cols
        invariant
            j <= playable_cols <= 7,
            e == col_scores@,
            n == playable_cols,
            forall|i: int| 0 <= i < j ==> #[trigger] rank(e, i, n) < n,
            forall|i: int| 0 <= i < j ==> move_order[rank(e, i, n) as int] == #[trigger] e[i].0,
            forall|t: int|
                0 <= t < 7 && (forall|i: int| 0 <= i < j ==> rank(e, i, n) != t) ==> move_order[t]
                    == 255,
        decreases playable_cols - j,
    {
        let mut rk: usize = 0;
        let mut k: usize = 0;
        while k < playable_cols
            invariant
                k <= playable_cols <= 7,
                j < playable_cols,
                e == col_scores@,
                rk == rank(e, j as int, k as nat),
                rk <= k,
            decreases playable_cols - k,
        {
            if col_scores[k].1 > col_scores[j].1 || (col_scores[k].1 == col_scores[j].1 && k < j) {
                rk = rk + 1;
            }
            k = k + 1;
        }
        proof {
            lemma_rank_bound(e, j as int, n);
            assert forall|i: int| 0 <= i < j implies rank(e, i, n) != rank(e, j as int, n) by {
                lemma_rank_distinct(e, i, j as int, n);
            }
        }
        let ghost before = move_order;
        move_order[rk] = col_scores[j].0;
        proof {
            assert forall|i: int| 0 <= i < j + 1 implies move_order[rank(e, i, n) as int]
                == #[trigger] e[i].0 by {
                if i < j {
                    lemma_rank_distinct(e, i, j as int, n);
                    assert(move_order[rank(e, i, n) as int] == before[rank(e, i, n) as int]);
                }
            }
            assert forall|t: int|
                0 <= t < 7 && (forall|i: int| 0 <= i < j + 1 ==> rank(e, i, n) != t) implies move_order[t]
                    == 255 by {
                assert(rank(e, j as int, n) != t);
                assert(move_order[t] == before[t]);
            }
        }
        j = j + 1;
    }
    proof {
        assert forall|t: int| playable_cols <= t < 7 implies move_order[t] == 255 by {
            assert forall|i: int| 0 <= i < j implies rank(e, i, n) != t by {
                lemma_rank_bound(e, i, n);
            }
        }
    }
    move_order
}

/// Number of winning squares of the stones `p` on the occupancy `s` below index `n`.
pub open spec fn winning_count(p: u64, s: u64, n: nat) -> nat
    decreases n,
{
    if n == 0 {
        0
    } else {
        winning_count(p, s, (n - 1) as nat) + if winning_square(p, s, (n - 1) as u64) {
            1nat
        } else {
            0nat
        }
    }
}

proof fn lemma_winning_count(r: u64, p: u64, s: u64, n: nat)
    requires
        forall|i: u64| i < 64 ==> (#[trigger] bit(r, i) == winning_square(p, s, i)),
        n <= 64,
    ensures
        count_bits(r, n) == winning_count(p, s, n),
    decreases n,
{
    if n > 0 {
        lemma_winning_count(r, p, s, (n - 1) as nat);
    }
}

/// The score of a move for ordering: how many winning squares the player who makes it
/// holds afterwards.
pub open spec fn move_score(g: Game, col: u8) -> i32 {
    let g1 = g.after_move(col);
    winning_count(g1.opponent_stones(), g1.board_set, 64) as i32
}

/// The legal moves among the first `m` of the fixed order, each with its score.
pub open spec fn candidate_entries(g: Game, m: nat) -> Seq<(usize, i32)>
    decreases m,
{
    if m == 0 {
        Seq::empty()
    } else {
        let prev = candidate_entries(g, (m - 1) as nat);
        let col = MOVE_ORDER[m - 1];
        if g.can_make(col) {
            prev.push((col as usize, move_score(g, col)))
        } else {
            prev
        }
    }
}

impl Game {
    /// The legal moves, centre-out, ordered by descending score with ties kept in the
    /// centre-out order, padded with 255. The position is left as it was.
    pub fn get_candidate_moves(&mut self) -> (r: [u8; 7])
        requires
            old(self).wf(),
        ensures
            *final(self) == *old(self),
            ({
                let e = candidate_entries(*old(self), 7);
                &&& forall|j: int|
                    0 <= j < e.len() ==> r[rank(e, j, e.len()) as int] == (#[trigger] e[j]).0 as u8
                &&& forall|t: int| e.len() <= t < 7 ==> r[t] == 255
            }),
            forall|c: u8| #[trigger] old(self).can_make(c) ==> exists|t: int| 0 <= t < 7 && r[t] == c,
    {
        let ghost g0 = *self;
        let mut col_scores: [(usize, i32); 7] = [(0usize, 0i32); 7];
        let mut playable_cols: usize = 0;
        let mut m: usize = 0;
        while m < 7
            invariant
                *self == g0,
                g0.wf(),
                m <= 7,
                playable_cols <= m,
                playable_cols == candidate_entries(g0, m as nat).len(),
                col_scores@.take(playable_cols as int) == candidate_entries(g0, m as nat),
            decreases 7 - m,
        {
            let col_number = MOVE_ORDER[m];
            let (ok, row_number) = self.make_move(col_number);
            if ok {
                let player_squares = if self.player_one_turn {
                    self.board_set & !self.board_p1
                } else {
                    self.board_set & self.board_p1
                };
                let winning = get_winning_squares(player_squares, self.board_set);
                let col_score = count_ones(winning);
                proof {
                    lemma_winning_count(winning, player_squares, self.board_set, 64);
                    lemma_count_bits_bound(winning, 64);
                }
                let ghost before = col_scores@;
                col_scores[playable_cols] = (col_number as usize, col_score as i32);
                proof {
                    assert(col_scores@.take(playable_cols + 1) =~= before.take(
                        playable_cols as int,
                    ).push((col_number as usize, col_score as i32)));
                    lemma_make_unmake(g0, col_number);
                }
                playable_cols = playable_cols + 1;
                self.unmake_move(col_number, row_number);
            }
            m = m + 1;
        }
        let order = stable_sort_moves(col_scores, playable_cols);
        proof {
            assert(col_scores@.take(playable_cols as int) == candidate_entries(g0, 7));
        }
        let mut move_order: [u8; 7] = [255u8; 7];
        let mut i: usize = 0;
        while i < 7
            invariant
                i <= 7,
                forall|t: int| 0 <= t < i ==> move_order[t] == order[t] as u8,
            decreases 7 - i,
        {
            move_order[i] = order[i] as u8;
            i = i + 1;
        }
        proof {
            let e = candidate_entries(g0, 7);
            assert forall|j: int| 0 <= j < e.len() implies move_order[rank(e, j, e.len()) as int]
                == (#[trigger] e[j]).0 as u8 by {
                assert(e[j] == col_scores@[j]);
                lemma_rank_bound(e, j, e.len());
                assert forall|k: int| 0 <= k < e.len() implies outranks(e, k, j) == outranks(
                    col_scores@,
                    k,
                    j,
                ) by {
                    assert(e[k] == col_scores@[k]);
                }
                lemma_rank_prefix(e, col_scores@, j, e.len());
            }
            assert forall|c: u8| #[trigger] g0.can_make(c) implies exists|t: int|
                0 <= t < 7 && move_order[t] == c by {
                lemma_order_covers(g0, move_order, c);
            }
        }
        move_order
    }
}

proof fn lemma_rank_prefix(e: Seq<(usize, i32)>, f: Seq<(usize, i32)>, j: int, m: nat)
    requires
        forall|k: int| 0 <= k < m ==> outranks(e, k, j) == outranks(f, k, j),
    ensures
        rank(e, j, m) == rank(f, j, m),
    decreases m,
{
    if m > 0 {
        lemma_rank_prefix(e, f, j, (m - 1) as nat);
    }
}

} // verus!

verus! {

/// The playable cell of a column is the cell on top of its stones.
proof fn lemma_playable_bits(set: u64, c: u64, h: u64, r: u64)
    by (bit_vector)
    requires
        c < 7,
        h <= 6,
        r < 8,
        (set >> (8 * c) as u64) & 0xff == (1u64 << h) - 1,
    ensures
        (((((set << 1u64) | BOTTOM_ROW) & !set & BOARD_MASK) >> (8 * c + r) as u64) & 1 == 1)
            == (r == h && h < 6),
        h < 6 ==> (set >> (8 * c + h + 1) as u64) & 1 != 1,
{
}

/// In a position whose columns stack from row 0, a cell is playable exactly when it is
/// the landing cell of a column that is not full.
pub(crate) proof fn lemma_playable_cell(set: u64, k: u64)
    requires
        set & !BOARD_MASK == 0,
        forall|c: u64| c < 7 ==> #[trigger] column_height(set, c) >= 0,
        k < 64,
    ensures
        bit(playable_word(set), k) <==> (k / 8 < 7 && column_height(set, k / 8) < 6 && k
            == cell_index((k / 8) as int, column_height(set, k / 8))),
        bit(playable_word(set), k) ==> !bit(set, (k + 1) as u64),
{
    let c = k / 8;
    let r = k % 8;
    assert(k == 8 * c + r);
    if c < 7 {
        let h = column_height(set, c) as u64;
        lemma_run(stripe(set, c), h);
        lemma_playable_bits(set, c, h, r);
    } else {
        assert(!bit(playable_word(set), k)) by (bit_vector)
            requires
                k < 64,
                k / 8 >= 7,
        ;
    }
}

/// A winning square completes a four-in-a-row along stride `d`.
proof fn lemma_line_completes(p: u64, k: u64, d: u64)
    by (bit_vector)
    requires
        7 <= d <= 9,
        k < 64,
        completes_line(p, k, d),
    ensures
        four_from(p | (1u64 << k), k, d) || four_from(p | (1u64 << k), (k + d) as u64, d)
            || four_from(p | (1u64 << k), (k + 2 * d) as u64, d) || four_from(
            p | (1u64 << k),
            (k + 3 * d) as u64,
            d,
        ),
{
}

proof fn lemma_vertical_completes(p: u64, k: u64)
    by (bit_vector)
    requires
        k < 64,
        k >= 3,
        (p >> (k - 1) as u64) & 1 == 1,
        (p >> (k - 2) as u64) & 1 == 1,
        (p >> (k - 3) as u64) & 1 == 1,
    ensures
        four_from(p | (1u64 << k), k, 1),
{
}

/// A stone on a winning square makes a four-in-a-row.
pub proof fn lemma_winning_square_wins(p: u64, s: u64, k: u64)
    requires
        winning_square(p, s, k),
    ensures
        has_four(p | (1u64 << k)),
{
    let q = p | (1u64 << k);
    assert(k < 64);
    if k >= 3 && bit(p, (k - 1) as u64) && bit(p, (k - 2) as u64) && bit(p, (k - 3) as u64) {
        lemma_vertical_completes(p, k);
        assert(four_at(q, k));
    } else {
        let d: u64 = if completes_line(p, k, 8) {
            8
        } else if completes_line(p, k, 9) {
            9
        } else {
            7
        };
        lemma_line_completes(p, k, d);
        if four_from(q, k, d) {
            assert(four_at(q, k));
        } else if four_from(q, (k + d) as u64, d) {
            assert(four_at(q, (k + d) as u64));
        } else if four_from(q, (k + 2 * d) as u64, d) {
            assert(four_at(q, (k + 2 * d) as u64));
        } else {
            assert(four_at(q, (k + 3 * d) as u64));
        }
    }
}

/// A four-in-a-row that a stone on `k` creates runs through `k`, and the other three
/// cells complete a line there.
proof fn lemma_new_line(p: u64, k: u64, i: u64, d: u64)
    by (bit_vector)
    requires
        7 <= d <= 9,
        k < 64,
        i < 64,
        four_from(p | (1u64 << k), i, d),
        !four_from(p, i, d),
    ensures
        completes_line(p, k, d),
{
}

proof fn lemma_new_vertical(p: u64, k: u64, i: u64)
    by (bit_vector)
    requires
        k < 64,
        i < 64,
        !bit(p, (k + 1) as u64),
        four_from(p | (1u64 << k), i, 1),
        !four_from(p, i, 1),
    ensures
        k >= 3 && (p >> (k - 1) as u64) & 1 == 1 && (p >> (k - 2) as u64) & 1 == 1 && (p >> (k
            - 3) as u64) & 1 == 1,
{
}

/// A stone that creates a four-in-a-row, on a board cell that is empty and has an empty
/// cell above it, stands on a winning square.
pub proof fn lemma_new_four(p: u64, s: u64, k: u64)
    requires
        bit(BOARD_MASK, k),
        !bit(s, k),
        !bit(p, (k + 1) as u64),
        has_four(p | (1u64 << k)),
        !has_four(p),
    ensures
        winning_square(p, s, k),
{
    let q = p | (1u64 << k);
    let i = choose|i: u64| i < 64 && #[trigger] four_at(q, i);
    assert(!four_at(p, i));
    if four_from(q, i, 1) && !four_from(p, i, 1) {
        lemma_new_vertical(p, k, i);
    } else if four_from(q, i, 8) && !four_from(p, i, 8) {
        lemma_new_line(p, k, i, 8);
    } else if four_from(q, i, 9) && !four_from(p, i, 9) {
        lemma_new_line(p, k, i, 9);
    } else {
        lemma_new_line(p, k, i, 7);
    }
}

} // verus!

verus! {

/// A word whose set bits all lie in `y` counts no more bits than `y`, and fewer when `y`
/// has a bit below `n` that it lacks.
pub(crate) proof fn lemma_count_mono(x: u64, y: u64, n: nat)
    requires
        forall|k: u64| #[trigger] bit(x, k) ==> bit(y, k),
        n <= 64,
    ensures
        count_bits(x, n) <= count_bits(y, n),
        (exists|k: u64| (k as int) < n && #[trigger] bit(y, k) && !bit(x, k)) ==> count_bits(x, n)
            < count_bits(y, n),
    decreases n,
{
    if n > 0 {
        lemma_count_mono(x, y, (n - 1) as nat);
        if exists|k: u64| (k as int) < n && #[trigger] bit(y, k) && !bit(x, k) {
            let k = choose|k: u64| (k as int) < n && #[trigger] bit(y, k) && !bit(x, k);
            if (k as int) < n - 1 {
                assert(bit(y, k) && !bit(x, k));
            }
        }
    }
}

proof fn lemma_board_bit(k: u64)
    by (bit_vector)
    ensures
        ((k < 64 && (BOARD_MASK >> k) & 1 == 1) == (k < 56 && k % 8 < 6)),
{
}

proof fn lemma_board_count_upto(n: nat)
    requires
        n <= 64,
    ensures
        count_bits(BOARD_MASK, n) == if n >= 56 {
            42
        } else {
            6 * (n / 8) + if n % 8 < 6 {
                n % 8
            } else {
                6
            }
        },
    decreases n,
{
    if n > 0 {
        lemma_board_count_upto((n - 1) as nat);
        lemma_board_bit((n - 1) as u64);
    }
}

/// The board has 42 cells.
pub(crate) proof fn lemma_board_count()
    ensures
        popcount(BOARD_MASK) == 42,
{
    lemma_board_count_upto(64);
}

proof fn lemma_full_board(set: u64)
    by (bit_vector)
    requires
        set & !BOARD_MASK == 0,
        (set >> 0u64) & 0xff == 63,
        (set >> 8u64) & 0xff == 63,
        (set >> 16u64) & 0xff == 63,
        (set >> 24u64) & 0xff == 63,
        (set >> 32u64) & 0xff == 63,
        (set >> 40u64) & 0xff == 63,
        (set >> 48u64) & 0xff == 63,
    ensures
        set == BOARD_MASK,
{
}

/// A game in progress has a legal move.
pub proof fn lemma_has_move(g: Game)
    requires
        g.wf(),
        g.game_status == GameStatus::InProgress,
    ensures
        exists|c: u8| c < 7 && #[trigger] g.can_make(c),
{
    if forall|c: u8| c < 7 ==> !#[trigger] g.can_make(c) {
        assert forall|c: u64| c < 7 implies stripe(g.board_set, c) == 63 by {
            assert(!g.can_make(c as u8));
            assert(column_height(g.board_set, c) >= 0);
        }
        assert(stripe(g.board_set, 0) == 63);
        assert(stripe(g.board_set, 1) == 63);
        assert(stripe(g.board_set, 2) == 63);
        assert(stripe(g.board_set, 3) == 63);
        assert(stripe(g.board_set, 4) == 63);
        assert(stripe(g.board_set, 5) == 63);
        assert(stripe(g.board_set, 6) == 63);
        lemma_full_board(g.board_set);
        lemma_board_count();
    }
}

/// Every legal move of the fixed order has an entry among the candidates.
proof fn lemma_entries_cover(g: Game, m: nat, m2: int)
    requires
        m <= 7,
        0 <= m2 < m,
        g.can_make(MOVE_ORDER[m2]),
    ensures
        exists|j: int|
            0 <= j < candidate_entries(g, m).len() && (#[trigger] candidate_entries(g, m)[j]).0
                == MOVE_ORDER[m2] as usize,
    decreases m,
{
    let prev = candidate_entries(g, (m - 1) as nat);
    if m2 < m - 1 {
        lemma_entries_cover(g, (m - 1) as nat, m2);
        let j = choose|j: int|
            0 <= j < prev.len() && (#[trigger] prev[j]).0 == MOVE_ORDER[m2] as usize;
        assert(candidate_entries(g, m)[j] == prev[j]);
    } else {
        assert(candidate_entries(g, m)[prev.len() as int].0 == MOVE_ORDER[m2] as usize);
    }
}

proof fn lemma_entries_len(g: Game, m: nat)
    ensures
        candidate_entries(g, m).len() <= m,
    decreases m,
{
    if m > 0 {
        lemma_entries_len(g, (m - 1) as nat);
    }
}

/// Every legal column stands somewhere in a candidate order with these entries.
proof fn lemma_order_covers(g: Game, r: [u8; 7], c: u8)
    requires
        g.can_make(c),
        forall|j: int|
            0 <= j < candidate_entries(g, 7).len() ==> r[rank(
                candidate_entries(g, 7),
                j,
                candidate_entries(g, 7).len(),
            ) as int] == (#[trigger] candidate_entries(g, 7)[j]).0 as u8,
    ensures
        exists|t: int| 0 <= t < 7 && r[t] == c,
{
    let m2: int = if c == 3 {
        0
    } else if c == 4 {
        1
    } else if c == 2 {
        2
    } else if c == 5 {
        3
    } else if c == 1 {
        4
    } else if c == 6 {
        5
    } else {
        6
    };
    assert(MOVE_ORDER[m2] == c);
    lemma_entries_cover(g, 7, m2);
    let e = candidate_entries(g, 7);
    let j = choose|j: int| 0 <= j < e.len() && (#[trigger] e[j]).0 == MOVE_ORDER[m2] as usize;
    lemma_entries_len(g, 7);
    lemma_rank_bound(e, j, e.len());
    assert(r[rank(e, j, e.len()) as int] == c);
}

} // verus!

verus! {

/// The empty board, player one to move.
pub open spec fn empty_game() -> Game {
    Game {
        board_set: 0,
        board_p1: 0,
        player_one_turn: true,
        game_status: GameStatus::InProgress,
        moves_made: 0,
        position_hash: 0,
    }
}

/// The empty board is a position.
pub proof fn lemma_empty_game_wf()
    ensures
        empty_game().wf(),
{
    lemma_zero_word();
    lemma_xor(0u64, 0u64, 0u64);
    assert(0u64 & 0u64 == 0u64 && 0u64 & !0u64 == 0u64 && 0u64 & !BOARD_MASK == 0u64)
        by (bit_vector);
}

} // verus!
