use connect_four::book::{decode, huffman_code, BookError, OpeningBook, BOOK_ENTRIES};
use connect_four::game::Game;

fn position_of(moves: &[u8]) -> Game {
    let mut game = Game::new();
    for &c in moves {
        assert!(game.make_move(c).0);
    }
    game
}

fn record(key: i32, raw: i8) -> Vec<u8> {
    let mut bytes = key.to_be_bytes().to_vec();
    bytes.push(raw as u8);
    bytes
}

fn book_of(records: &[(i32, i8)]) -> OpeningBook {
    let mut bytes = Vec::new();
    for &(k, e) in records {
        bytes.extend(record(k, e));
    }
    OpeningBook::from_records(&bytes).expect("valid records")
}

#[test]
fn code_of_empty_board_is_zero() {
    assert_eq!(huffman_code(0, 0, false), 0);
    assert_eq!(huffman_code(0, 0, true), 0);
}

#[test]
fn code_of_one_stone() {
    let g = position_of(&[0]);
    assert_eq!(huffman_code(g.board_set, g.board_p1, false), 512);
    assert_eq!(huffman_code(g.board_set, g.board_p1, true), 8);
}

#[test]
fn code_of_twelve_ply_position() {
    let g = position_of(&[2, 3, 3, 3, 3, 2, 2, 1, 1, 0, 4, 5]);
    assert_eq!(g.board_set, 1104058712833);
    assert_eq!(g.board_p1, 4463067648);
    assert_eq!(huffman_code(g.board_set, g.board_p1, false), -591799144);
    assert_eq!(huffman_code(g.board_set, g.board_p1, true), 1776073164);
}

#[test]
fn decode_inverts_the_code() {
    let (set, p1) = decode(-591799144);
    assert_eq!(set, 1104058712833);
    assert_eq!(p1, 4463067648);
    assert_eq!(decode(0), (0, 0));
    assert_eq!(decode(512), (0, 0));
    for key in [-689592004, 2101158888, 1599634104] {
        let (set, p1) = decode(key);
        assert_eq!(set.count_ones(), 12);
        assert_eq!(huffman_code(set, p1, false), key);
    }
}

#[test]
fn raw_scores_are_translated() {
    let book = book_of(&[(10, 100), (20, 1), (30, -99), (40, -1), (50, 0), (60, 99), (70, 127)]);
    assert_eq!(book.evals, vec![15, -34, -15, 34, 0, 15, 28]);
    assert_eq!(book.positions, vec![10, 20, 30, 40, 50, 60, 70]);
}

#[test]
fn known_errors_are_corrected() {
    let book = book_of(&[(-689592004, 1), (1599634104, 1), (2101158888, 1)]);
    assert_eq!(book.evals, vec![7, 2, 4]);
    let (set, p1) = decode(-689592004);
    assert_eq!(book.lookup(set, p1), Some(7));
}

#[test]
fn lookup_finds_a_position_and_its_mirror() {
    let g = position_of(&[2, 3, 3, 3, 3, 2, 2, 1, 1, 0, 4, 5]);
    let direct = book_of(&[(-700000000, 5), (-591799144, 90), (5, 3)]);
    assert_eq!(direct.lookup(g.board_set, g.board_p1), Some(10));
    let mirrored = book_of(&[(-700000000, 5), (1776073164, 80)]);
    assert_eq!(mirrored.lookup(g.board_set, g.board_p1), Some(5));
    let other = book_of(&[(-700000000, 5), (5, 3)]);
    assert_eq!(other.lookup(g.board_set, g.board_p1), None);
    let empty = book_of(&[]);
    assert_eq!(empty.lookup(g.board_set, g.board_p1), None);
}

#[test]
fn binary_search_over_ranges() {
    let book = book_of(&[(-5, 100), (0, 98), (7, 96), (9, 94), (40, 92)]);
    assert_eq!(book.search(-5, 0, 4), Some(15));
    assert_eq!(book.search(40, 0, 4), Some(11));
    assert_eq!(book.search(9, 0, 4), Some(12));
    assert_eq!(book.search(-6, 0, 4), None);
    assert_eq!(book.search(41, 0, 4), None);
    assert_eq!(book.search(8, 0, 4), None);
    assert_eq!(book.search(-5, 1, 4), None);
    assert_eq!(book.search(0, 3, 2), None);
}

#[test]
fn blob_of_partial_record_is_refused() {
    let mut bytes = record(1, 1);
    bytes.push(0);
    assert!(matches!(OpeningBook::from_records(&bytes), Err(BookError::WrongLength)));
}

#[test]
fn unsorted_blob_is_refused() {
    let mut bytes = record(5, 1);
    bytes.extend(record(5, 2));
    assert!(matches!(OpeningBook::from_records(&bytes), Err(BookError::Unsorted)));
    let mut bytes = record(5, 1);
    bytes.extend(record(-3, 2));
    assert!(matches!(OpeningBook::from_records(&bytes), Err(BookError::Unsorted)));
}

#[test]
fn complete_book_needs_every_record() {
    let bytes = record(1, 1);
    assert!(matches!(OpeningBook::new(&bytes), Err(BookError::WrongLength)));
    assert_eq!(BOOK_ENTRIES, 4200899);
}
