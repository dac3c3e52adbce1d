use movegen::attacks::hyperbola_quintessence;
use movegen::fen::{parse_fen, san_to_int, BoardState};
use movegen::piece::{Piece, PieceTypes};
use movegen::util::{
    coord_to_idx, mask_diag, mask_file, mask_rank, opp, pop_bit, sq_to_file, sq_to_rank, Color,
};

#[test]
pub fn use_hyperbola_quintessence_correctly() {
    let bb = hyperbola_quintessence(0b00010000, 0b11010011, 0b11111111);
    assert!(bb == 0b01101110);

    let bb = hyperbola_quintessence(0b00000001, 0b01000000, 0b111111111);
    assert!(bb == 0b01111110);

    let _bb = hyperbola_quintessence(1 << 18, 1 << 9 | 1 << 45, mask_diag(18));
}

#[test]
fn parse_fen_correctly() {
    let res = match parse_fen("rnbqkbnr/pp1ppppp/8/2p5/4P3/5N2/PPPP1PPP/RNBQKB1R b KQkq - 1 2") {
        Ok(res) => res,
        Err(error) => panic!("{}", error),
    };

    let BoardState(
        mailbox,
        active_color,
        castling_rights,
        en_passant_square,
        halfmove_clock,
        fullmove_number,
    ) = res;

    assert!(mailbox[0].unwrap() == Piece::new(Color::White, PieceTypes::ROOK));
    assert!(mailbox[1].unwrap() == Piece::new(Color::White, PieceTypes::KNIGHT));
    assert!(mailbox[6] == None);
    assert!(mailbox[63].unwrap() == Piece::new(Color::Black, PieceTypes::ROOK));

    assert!(active_color == Color::Black);

    assert!(castling_rights.bits() == 0b1111);

    assert!(en_passant_square == None);

    assert!(halfmove_clock == 1);

    assert!(fullmove_number == 2);
}

#[test]
fn parse_san_to_index_correctly() {
    match san_to_int("a1") {
        Some(number) => assert!(number == 0),
        None => panic!("SAN e3 parsing failed"),
    };

    match san_to_int("h8") {
        Some(number) => assert!(number == 63),
        None => panic!("SAN d6 parsing failed"),
    }
}

#[test]
fn parse_coord_to_idx_correctly() {
    let idx = coord_to_idx(0, 0);
    assert!(idx == 0);

    let idx = coord_to_idx(4, 3);
    assert!(idx == 28);
}

#[test]
fn parse_sq_to_file_correctly() {
    let file = sq_to_file(28);
    assert!(file == 4);
}

#[test]
fn parse_sq_to_rank_correctly() {
    let rank = sq_to_rank(28);
    assert!(rank == 3)
}

#[test]
fn mask_rank_correctly() {
    let rank_mask = mask_rank(28);
    assert!(rank_mask == 0xff000000);

    let rank_mask = mask_rank(44);
    assert!(rank_mask == 0xff0000000000);
}

#[test]
fn mask_file_correctly() {
    let file_mask = mask_file(34);
    assert!(file_mask == 0x404040404040404);

    let file_mask = mask_file(12);
    assert!(file_mask == 0x1010101010101010);
}

#[test]
fn pop_bit_correctly() {
    let mut bb: u64 = 0b1111;
    pop_bit(&mut bb, 2);
    assert!(bb == 0b1011);
    pop_bit(&mut bb, 0);
    assert!(bb == 0b1010);
}

#[test]
fn calculate_opponent_color_correctly() {
    assert!(opp(Color::White) == Color::Black);
    assert!(opp(Color::Black) == Color::White);
}
