//! The opening book: 12-ply positions keyed by a prefix code of their columns, found by
//! binary search, with the mirror image tried when a position is missing.

use vstd::prelude::*;
use crate::game::{bit, cell_index, set_bit};
use vstd::arithmetic::div_mod::{lemma_add_mod_noop, lemma_mul_mod_noop_left};

verus! {

/// Number of records in the complete book of 12-ply positions.
pub const BOOK_ENTRIES: usize = 4200899;

/// Bytes in one record: a big-endian 32-bit key and a raw evaluation byte.
pub const RECORD_BYTES: usize = 5;

pub open spec fn code_modulus() -> int {
    0x1_0000_0000
}

/// The bits of one column, from row `row` upwards: `1` and the owner bit (0 for player
/// one) for each stone, then a closing `0` at the first empty cell.
pub open spec fn column_code(set: u64, p1: u64, c: u64, row: nat) -> Seq<bool>
    decreases 7 - row,
{
    if row >= 7 {
        Seq::empty()
    } else if bit(set, cell_index(c as int, row as int)) {
        seq![true, !bit(p1, cell_index(c as int, row as int))] + column_code(
            set,
            p1,
            c,
            row + 1,
        )
    } else {
        seq![false]
    }
}

/// The column visited `k`-th: left to right, or right to left for the mirrored code.
pub open spec fn column_at(reverse: bool, k: int) -> u64 {
    (if reverse {
        6 - k
    } else {
        k
    }) as u64
}

/// The codes of the first `k` columns visited.
pub open spec fn columns_code(set: u64, p1: u64, reverse: bool, k: nat) -> Seq<bool>
    decreases k,
{
    if k == 0 {
        Seq::empty()
    } else {
        columns_code(set, p1, reverse, (k - 1) as nat) + column_code(
            set,
            p1,
            column_at(reverse, k - 1),
            0,
        )
    }
}

/// A bit string read as a binary number, first bit most significant.
pub open spec fn bits_value(s: Seq<bool>) -> int
    decreases s.len(),
{
    if s.len() == 0 {
        0
    } else {
        bits_value(s.drop_last()) * 2 + if s.last() {
            1int
        } else {
            0int
        }
    }
}

/// The book key of a position: the column codes followed by one `0`, the last 32 bits
/// read as a signed integer.
pub open spec fn book_code(set: u64, p1: u64, reverse: bool) -> i32 {
    ((bits_value(columns_code(set, p1, reverse, 7).push(false)) % code_modulus()) as u32) as i32
}

proof fn lemma_bits_push(s: Seq<bool>, a: bool)
    ensures
        bits_value(s.push(a)) == bits_value(s) * 2 + if a {
            1int
        } else {
            0int
        },
{
    assert(s.push(a).drop_last() =~= s);
}

proof fn lemma_bits_nonneg(s: Seq<bool>)
    ensures
        bits_value(s) >= 0,
    decreases s.len(),
{
    if s.len() > 0 {
        lemma_bits_nonneg(s.drop_last());
    }
}

/// Appending one bit to a code kept modulo 2^32.
proof fn lemma_shift_in(c: u32, v: int, a: bool)
    requires
        v >= 0,
        c as int == v % code_modulus(),
    ensures
        ((c << 1u32) | if a {
            1u32
        } else {
            0u32
        }) as int == (v * 2 + if a {
            1int
        } else {
            0int
        }) % code_modulus(),
{
    let t: u32 = if a {
        1
    } else {
        0
    };
    assert(((c << 1u32) | t) as int == (c as int * 2 + t as int) % 0x1_0000_0000)
        by (bit_vector)
        requires
            t < 2,
    ;
    lemma_mul_mod_noop_left(v, 2, code_modulus());
    lemma_add_mod_noop(v * 2, t as int, code_modulus());
    lemma_add_mod_noop((v % code_modulus()) * 2, t as int, code_modulus());
    lemma_mul_mod_noop_left(v % code_modulus(), 2, code_modulus());
}

/// The book key of a position (`reverse`: of its mirror image).
pub fn huffman_code(board_set: u64, board_p1: u64, reverse: bool) -> (r: i32)
    ensures
        r == book_code(board_set, board_p1, reverse),
{
    let mut code: u32 = 0;
    let ghost mut emitted: Seq<bool> = Seq::empty();
    let mut k: u64 = 0;
    while k < 7
        invariant
            k <= 7,
            emitted == columns_code(board_set, board_p1, reverse, k as nat),
            code as int == bits_value(emitted) % code_modulus(),
        decreases 7 - k,
    {
        let col_num: u64 = if reverse {
            6 - k
        } else {
            k
        };
        let ghost start = emitted;
        let mut row: u64 = 0;
        let mut done = false;
        while row < 7 && !done
            invariant
                k < 7,
                col_num == column_at(reverse, k as int),
                row <= 7,
                start == columns_code(board_set, board_p1, reverse, k as nat),
                code as int == bits_value(emitted) % code_modulus(),
                done ==> emitted == start + column_code(board_set, board_p1, col_num, 0),
                !done ==> emitted + column_code(board_set, board_p1, col_num, row as nat) == start
                    + column_code(board_set, board_p1, col_num, 0),
            decreases 7 - row + if done {
                0int
            } else {
                1int
            },
        {
            proof {
                lemma_bits_nonneg(emitted);
            }
            let i: u64 = 8 * col_num + row;
            assert(cell_index(col_num as int, row as int) == i);
            if (board_set >> i) & 1 == 1 {
                let owner = (board_p1 >> i) & 1 == 1;
                let ghost e1 = emitted.push(true);
                proof {
                    lemma_shift_in(code, bits_value(emitted), true);
                    lemma_bits_push(emitted, true);
                    lemma_bits_nonneg(e1);
                    lemma_shift_in((code << 1u32) | 1u32, bits_value(e1), !owner);
                    lemma_bits_push(e1, !owner);
                }
                code = (((code << 1u32) | 1u32) << 1u32) | if owner {
                    0u32
                } else {
                    1u32
                };
                proof {
                    let tail = column_code(board_set, board_p1, col_num, (row + 1) as nat);
                    assert(column_code(board_set, board_p1, col_num, row as nat) == seq![
                        true,
                        !owner,
                    ] + tail);
                    assert(emitted + (seq![true, !owner] + tail) =~= e1.push(!owner) + tail);
                    emitted = e1.push(!owner);
                }
            } else {
                proof {
                    lemma_shift_in(code, bits_value(emitted), false);
                    lemma_bits_push(emitted, false);
                    emitted = emitted.push(false);
                }
                code = (code << 1u32) | 0u32;
                done = true;
            }
            row = row + 1;
        }
        proof {
            if !done {
                assert(column_code(board_set, board_p1, col_num, 7) =~= Seq::<bool>::empty());
                assert(emitted + Seq::<bool>::empty() =~= emitted);
            }
        }
        k = k + 1;
    }
    proof {
        lemma_bits_nonneg(emitted);
        lemma_shift_in(code, bits_value(emitted), false);
        lemma_bits_push(emitted, false);
    }
    let r = (code << 1u32) | 0u32;
    r as i32
}

/// Bit `b` of a key.
pub open spec fn code_bit(c: u32, b: int) -> bool {
    0 <= b < 32 && (c >> (b as u32)) & 1 == 1
}

/// Reading a key from bit `b` downwards, in column `col` at row `row`, with the cells
/// found so far: a `0` closes the column, a `1` places a stone whose owner is the next
/// bit (`0`: player one; a missing bit after bit 0 counts as player two).
pub open spec fn decode_from(c: u32, b: int, col: int, row: int, set: u64, p1: u64) -> (u64, u64)
    decreases b + 2,
{
    if b < 0 || col >= 7 {
        (set, p1)
    } else if !code_bit(c, b) {
        decode_from(c, b - 1, col + 1, 0, set, p1)
    } else {
        let cell = 1u64 << cell_index(col, row);
        let p1n = if b >= 1 && !code_bit(c, b - 1) {
            p1 | cell
        } else {
            p1
        };
        decode_from(c, b - 2, col, row + 1, set | cell, p1n)
    }
}

/// The position (occupied cells, player one's cells) that a key describes.
pub open spec fn decode_spec(code: i32) -> (u64, u64) {
    decode_from(code as u32, 31, 0, 0, 0, 0)
}

/// The position (occupied cells, player one's cells) that a book key describes.
pub fn decode(code: i32) -> (r: (u64, u64))
    ensures
        r == decode_spec(code),
{
    let c: u32 = #[verifier::truncate] (code as u32);
    let mut bit: i32 = 31;
    let mut board_set: u64 = 0;
    let mut board_p1: u64 = 0;
    let mut col: u8 = 0;
    let mut row: u8 = 0;
    while bit >= 0 && col < 7
        invariant
            -2 <= bit <= 31,
            col <= 7,
            2 * row <= 31 - bit,
            decode_from(c, bit as int, col as int, row as int, board_set, board_p1)
                == decode_spec(code),
        decreases bit + 2,
    {
        let sh: u32 = bit as u32;
        assert((c >> sh) & 1 == 0 <==> !((c >> sh) & 1 == 1)) by (bit_vector);
        assert(bit >= 1 ==> ((c >> ((bit - 1) as u32)) & 1 == 0 <==> !code_bit(c, bit - 1))) by {
            if bit >= 1 {
                let sh1: u32 = (bit - 1) as u32;
                assert((c >> sh1) & 1 == 0 <==> !((c >> sh1) & 1 == 1)) by (bit_vector);
            }
        }
        if (c >> (bit as u32)) & 1 == 0 {
            col = col + 1;
            row = 0;
            bit = bit - 1;
        } else {
            board_set = set_bit(board_set, col, row, true);
            if bit >= 1 && (c >> ((bit - 1) as u32)) & 1 == 0 {
                board_p1 = set_bit(board_p1, col, row, true);
            }
            bit = bit - 2;
            row = row + 1;
        }
    }
    (board_set, board_p1)
}

/// `(s2, p2)` is `(s, p1)` reflected across the vertical axis: column `c` of the one is
/// column `6 - c` of the other.
pub open spec fn mirrored(s: u64, p1: u64, s2: u64, p2: u64) -> bool {
    forall|c: u64, r: u64|
        c < 7 && r < 7 ==> {
            &&& #[trigger] bit(s2, cell_index(c as int, r as int)) == bit(
                s,
                cell_index(6 - c, r as int),
            )
            &&& bit(p2, cell_index(c as int, r as int)) == bit(p1, cell_index(6 - c, r as int))
        }
}

proof fn lemma_mirror_column(s: u64, p1: u64, s2: u64, p2: u64, c: u64, r: nat)
    requires
        mirrored(s, p1, s2, p2),
        c < 7,
    ensures
        column_code(s2, p2, c, r) == column_code(s, p1, (6 - c) as u64, r),
    decreases 7 - r,
{
    if r < 7 {
        assert(bit(s2, cell_index(c as int, r as int)) == bit(s, cell_index(6 - c, r as int)));
        lemma_mirror_column(s, p1, s2, p2, c, r + 1);
    }
}

proof fn lemma_mirror_columns(s: u64, p1: u64, s2: u64, p2: u64, k: nat)
    requires
        mirrored(s, p1, s2, p2),
        k <= 7,
    ensures
        columns_code(s, p1, true, k) == columns_code(s2, p2, false, k),
    decreases k,
{
    if k > 0 {
        lemma_mirror_columns(s, p1, s2, p2, (k - 1) as nat);
        lemma_mirror_column(s, p1, s2, p2, (k - 1) as u64, 0);
    }
}

/// The mirrored key of a position is the key of its mirror image, so a book of keys
/// finds a position through its mirror image.
pub proof fn lemma_mirror_code(s: u64, p1: u64, s2: u64, p2: u64)
    requires
        mirrored(s, p1, s2, p2),
    ensures
        book_code(s, p1, true) == book_code(s2, p2, false),
{
    lemma_mirror_columns(s, p1, s2, p2, 7);
}

/// Why a book blob was refused.
#[derive(Debug, Clone, Copy, PartialEq, Eq, Structural)]
pub enum BookError {
    /// The blob is not a whole number of records (or not the complete book).
    WrongLength,
    /// The keys are not in strictly ascending order.
    Unsorted,
}

/// The key of record `i`: four bytes, big-endian, read as a signed integer.
pub open spec fn record_key(bytes: Seq<u8>, i: int) -> i32 {
    (bytes[5 * i] as int * 0x100_0000 + bytes[5 * i + 1] as int * 0x1_0000 + bytes[5 * i + 2] as int
        * 0x100 + bytes[5 * i + 3] as int) as i32
}

/// `x / 2` rounded towards zero.
pub open spec fn half_toward_zero(x: int) -> int {
    if x >= 0 {
        x / 2
    } else {
        -((-x) / 2)
    }
}

/// The solver's score for a raw book byte (plies to mate).
pub open spec fn book_score(raw: i8) -> int {
    if raw > 0 {
        15 - half_toward_zero(100 - raw)
    } else if raw < 0 {
        -15 - half_toward_zero(-99 - raw)
    } else {
        0
    }
}

/// Three keys whose stored evaluations are known to be wrong get their true score.
pub open spec fn corrected_eval(key: i32, score: int) -> int {
    if key == -689592004 {
        7
    } else if key == 2101158888 {
        4
    } else if key == 1599634104 {
        2
    } else {
        score
    }
}

/// The raw evaluation byte of record `i`, read as a signed byte.
pub open spec fn record_raw(bytes: Seq<u8>, i: int) -> i8 {
    #[verifier::truncate]
    (bytes[5 * i + 4] as i8)
}

/// The score that record `i` of a blob stands for.
pub open spec fn record_eval(bytes: Seq<u8>, i: int) -> int {
    corrected_eval(record_key(bytes, i), book_score(record_raw(bytes, i)))
}

/// The book holds, in order, the key and the score of every record of the blob.
pub open spec fn holds_records(b: OpeningBook, bytes: Seq<u8>) -> bool {
    &&& b.positions@.len() == bytes.len() / 5
    &&& forall|i: int|
        0 <= i < b.positions@.len() ==> #[trigger] b.positions@[i] == record_key(bytes, i)
            && b.evals@[i] == record_eval(bytes, i)
}

/// The first `n` keys of a blob rise strictly.
pub open spec fn keys_ascending(bytes: Seq<u8>, n: int) -> bool {
    forall|i: int| 0 < i < n ==> #[trigger] record_key(bytes, i - 1) < record_key(bytes, i)
}

fn read_key(bytes: &[u8], base: usize, i: Ghost<int>) -> (r: i32)
    requires
        base == 5 * i@,
        base + 4 < bytes@.len(),
    ensures
        r == record_key(bytes@, i@),
{
    let k: u32 = bytes[base] as u32 * 0x100_0000 + bytes[base + 1] as u32 * 0x1_0000
        + bytes[base + 2] as u32 * 0x100 + bytes[base + 3] as u32;
    #[verifier::truncate]
    (k as i32)
}

fn translate_eval(raw: i8) -> (r: i8)
    ensures
        r == book_score(raw),
        -34 <= r <= 34,
{
    if raw > 0 {
        let n: i8 = 100 - raw;
        if n >= 0 {
            15 - n / 2
        } else {
            15 + (-n) / 2
        }
    } else if raw < 0 {
        let m: i8 = -99 - raw;
        if m >= 0 {
            -15 - m / 2
        } else {
            -15 + (-m) / 2
        }
    } else {
        0
    }
}

fn correct_eval(key: i32, score: i8) -> (r: i8)
    ensures
        r == corrected_eval(key, score as int),
{
    if key == -689592004 {
        7
    } else if key == 2101158888 {
        4
    } else if key == 1599634104 {
        2
    } else {
        score
    }
}

/// The opening book: keys of 12-ply positions in ascending order, with their scores.
pub struct OpeningBook {
    pub positions: Vec<i32>,
    pub evals: Vec<i8>,
}

impl OpeningBook {
    /// Keys and scores pair up, the keys rise strictly, and every score lies in -34..=34.
    pub open spec fn wf(&self) -> bool {
        &&& self.positions@.len() == self.evals@.len()
        &&& forall|i: int| 0 <= i < self.evals@.len() ==> -34 <= #[trigger] self.evals@[i] <= 34
        &&& forall|i: int, j: int|
            0 <= i < j < self.positions@.len() ==> #[trigger] self.positions@[i]
                < #[trigger] self.positions@[j]
    }

    /// The score stored under `code`, if any.
    pub open spec fn eval_of(&self, code: i32) -> Option<i8> {
        if exists|i: int| 0 <= i < self.positions@.len() && #[trigger] self.positions@[i] == code {
            Some(
                self.evals@[choose|i: int|
                    0 <= i < self.positions@.len() && #[trigger] self.positions@[i] == code],
            )
        } else {
            None
        }
    }

    /// The score of a position: under its own key, else under its mirror image's.
    pub open spec fn lookup_spec(&self, board_set: u64, board_p1: u64) -> Option<i8> {
        let direct = self.eval_of(book_code(board_set, board_p1, false));
        if direct is Some {
            direct
        } else {
            self.eval_of(book_code(board_set, board_p1, true))
        }
    }

    /// Reads a blob of records of any number: keys must rise strictly.
    pub fn from_records(bytes: &[u8]) -> (r: Result<OpeningBook, BookError>)
        ensures
            bytes@.len() % 5 != 0 ==> r == Err::<OpeningBook, BookError>(BookError::WrongLength),
            bytes@.len() % 5 == 0 && !keys_ascending(bytes@, bytes@.len() as int / 5) ==> r == Err::<
                OpeningBook,
                BookError,
            >(BookError::Unsorted),
            bytes@.len() % 5 == 0 && keys_ascending(bytes@, bytes@.len() as int / 5) ==> r is Ok,
            r matches Ok(b) ==> b.wf() && holds_records(b, bytes@),
    {
        if bytes.len() % RECORD_BYTES != 0 {
            return Err(BookError::WrongLength);
        }
        let len: usize = bytes.len();
        let n: usize = len / RECORD_BYTES;
        proof {
            vstd::arithmetic::div_mod::lemma_fundamental_div_mod(bytes@.len() as int, 5);
        }
        let mut positions: Vec<i32> = Vec::with_capacity(n);
        let mut evals: Vec<i8> = Vec::with_capacity(n);
        let mut i: usize = 0;
        let mut base: usize = 0;
        while i < n
            invariant
                base == 5 * i,
                len == bytes@.len(),
                n == bytes@.len() / 5,
                bytes@.len() == 5 * n,
                bytes@.len() % 5 == 0,
                i <= n,
                positions@.len() == i,
                evals@.len() == i,
                keys_ascending(bytes@, i as int),
                forall|a: int| 0 <= a < evals@.len() ==> -34 <= #[trigger] evals@[a] <= 34,
                forall|a: int, b: int|
                    0 <= a < b < positions@.len() ==> #[trigger] positions@[a]
                        < #[trigger] positions@[b],
                forall|a: int|
                    0 <= a < i ==> #[trigger] positions@[a] == record_key(bytes@, a) && evals@[a]
                        == record_eval(bytes@, a),
            decreases n - i,
        {
            let key = read_key(bytes, base, Ghost(i as int));
            if i > 0 && key <= positions[i - 1] {
                proof {
                    let a = i as int;
                    assert(positions@[a - 1] == record_key(bytes@, a - 1));
                    assert(!(record_key(bytes@, a - 1) < record_key(bytes@, a)));
                    assert(0 < a < bytes@.len() as int / 5);
                }
                return Err(BookError::Unsorted);
            }
            let score = translate_eval(#[verifier::truncate] (bytes[base + 4] as i8));
            let corrected = correct_eval(key, score);
            assert(score == book_score(record_raw(bytes@, i as int)));
            assert(corrected == record_eval(bytes@, i as int));
            let ghost old_positions = positions@;
            let ghost old_evals = evals@;
            positions.push(key);
            evals.push(corrected);
            proof {
                assert forall|a: int| 0 <= a < i + 1 implies #[trigger] positions@[a] == record_key(
                    bytes@,
                    a,
                ) && evals@[a] == record_eval(bytes@, a) by {
                    if a < i {
                        assert(positions@[a] == old_positions[a]);
                        assert(evals@[a] == old_evals[a]);
                    }
                }
                assert forall|a: int| 0 < a < i + 1 implies #[trigger] record_key(bytes@, a - 1)
                    < record_key(bytes@, a) by {
                    if a == i {
                        assert(positions@[a - 1] == record_key(bytes@, a - 1));
                    }
                }
            }
            i = i + 1;
            base = base + 5;
        }
        let b = OpeningBook { positions, evals };
        assert(holds_records(b, bytes@));
        Ok(b)
    }

    /// Reads the complete book: exactly `BOOK_ENTRIES` records, keys rising strictly.
    pub fn new(bytes: &[u8]) -> (r: Result<OpeningBook, BookError>)
        ensures
            bytes@.len() != 5 * BOOK_ENTRIES ==> r == Err::<OpeningBook, BookError>(
                BookError::WrongLength,
            ),
            bytes@.len() == 5 * BOOK_ENTRIES && !keys_ascending(bytes@, BOOK_ENTRIES as int)
                ==> r == Err::<OpeningBook, BookError>(BookError::Unsorted),
            bytes@.len() == 5 * BOOK_ENTRIES && keys_ascending(bytes@, BOOK_ENTRIES as int)
                ==> r is Ok,
            r matches Ok(b) ==> b.wf() && holds_records(b, bytes@) && b.positions@.len()
                == BOOK_ENTRIES,
    {
        if bytes.len() != RECORD_BYTES * BOOK_ENTRIES {
            return Err(BookError::WrongLength);
        }
        OpeningBook::from_records(bytes)
    }

    /// Binary search of the keys at indices `start..=end` for `pos`.
    pub fn search(&self, pos: i32, start: usize, end: usize) -> (r: Option<i8>)
        requires
            self.wf(),
            start <= end ==> end < self.positions@.len(),
        ensures
            r is Some <==> exists|i: int|
                start <= i <= end && #[trigger] self.positions@[i] == pos,
            r matches Some(e) ==> exists|i: int|
                start <= i <= end && #[trigger] self.positions@[i] == pos && self.evals@[i] == e,
        decreases end - start + 1,
    {
        if start > end {
            None
        } else {
            let mid = start + (end - start) / 2;
            let key = self.positions[mid];
            if pos < key {
                if mid == 0 {
                    None
                } else {
                    let r = self.search(pos, start, mid - 1);
                    proof {
                        assert forall|i: int| mid <= i <= end implies self.positions@[i] != pos by {
                            if i > mid {
                                assert(self.positions@[mid as int] < self.positions@[i]);
                            }
                        }
                    }
                    r
                }
            } else if pos == key {
                Some(self.evals[mid])
            } else if mid >= end {
                None
            } else {
                let r = self.search(pos, mid + 1, end);
                proof {
                    assert forall|i: int| start <= i <= mid implies self.positions@[i] != pos by {
                        if i < mid {
                            assert(self.positions@[i] < self.positions@[mid as int]);
                        }
                    }
                }
                r
            }
        }
    }

    fn find(&self, code: i32) -> (r: Option<i8>)
        requires
            self.wf(),
        ensures
            r == self.eval_of(code),
    {
        if self.positions.len() == 0 {
            return None;
        }
        let r = self.search(code, 0, self.positions.len() - 1);
        proof {
            if let Some(e) = r {
                let i = choose|i: int|
                    0 <= i <= self.positions@.len() - 1 && #[trigger] self.positions@[i] == code
                        && self.evals@[i] == e;
                let j = choose|j: int|
                    0 <= j < self.positions@.len() && #[trigger] self.positions@[j] == code;
                if i < j {
                    assert(self.positions@[i] < self.positions@[j]);
                } else if j < i {
                    assert(self.positions@[j] < self.positions@[i]);
                }
            }
        }
        r
    }

    /// The book's score of a position, looked up under its key and then under its mirror
    /// image's key.
    pub fn lookup(&self, board_set: u64, board_p1: u64) -> (r: Option<i8>)
        requires
            self.wf(),
        ensures
            r == self.lookup_spec(board_set, board_p1),
    {
        let code = huffman_code(board_set, board_p1, false);
        let eval = self.find(code);
        if eval.is_some() {
            return eval;
        }
        let code_reverse = huffman_code(board_set, board_p1, true);
        self.find(code_reverse)
    }
}

} // verus!
