use movegen::attacks::{bishop_att, king_att, knight_att, pawn_att, rook_att};
use movegen::fen::parse_fen;
use movegen::magic_numbers::{
    calculate_hash_index, enumerate_subsets, verify_candidate, SLIDER_TABLE_SIZE,
};
use movegen::position::Position;
use movegen::tables::{
    init_tables, lookup_bishop_att, lookup_king_att, lookup_knight_att, lookup_pawn_att,
    lookup_queen_att, lookup_rook_att,
};
use movegen::util::{
    bb_from_square, count_bits, edges, enumerate_bits, is_on_board, mask_anti_diag, mask_diag,
    relative_rank, rev64, Color,
};

// Every rank mask and every file mask holds exactly eight squares.
#[test]
fn rank_and_file_masks_have_eight_squares() {
    for s in 0u8..64 {
        assert_eq!(count_bits(movegen::util::mask_rank(s)), 8);
        assert_eq!(count_bits(movegen::util::mask_file(s)), 8);
    }
}

// A rook on a1 of an empty board attacks its whole file and rank.
#[test]
fn rook_attacks_match_ray_walk() {
    assert_eq!(rook_att(0, 0), 0x01010101010101fe);
    // A blocker on a4 cuts the a-file ray at a4.
    let occupancy: u64 = 1 << 24;
    assert_eq!(rook_att(0, occupancy), 0x00000000010101fe);
    // A rook in the middle of an empty board.
    assert_eq!(rook_att(28, 0), 0x10101010ef101010);
}

// Table/formula equivalence over every occupancy subset of every relevant
// mask, for both slider types.
#[test]
fn table_matches_formula_on_all_subsets() {
    let tables = init_tables().expect("table initialization failed");
    for s in 0u8..64 {
        let bishop_mask = tables.bishop_magics[s as usize].mask;
        for subset in enumerate_subsets(bishop_mask) {
            assert_eq!(lookup_bishop_att(&tables, s, subset), bishop_att(s, subset));
        }
        let rook_mask = tables.rook_magics[s as usize].mask;
        for subset in enumerate_subsets(rook_mask) {
            assert_eq!(lookup_rook_att(&tables, s, subset), rook_att(s, subset));
        }
    }
}

// The starting position yields exactly 20 pseudo-legal moves: 8 single
// pushes, 8 double pushes and 4 knight moves, no captures, no promotions.
#[test]
fn starting_position_has_twenty_moves() {
    let tables = init_tables().expect("table initialization failed");
    let position = Position::from_fen("rnbqkbnr/pppppppp/8/8/8/8/PPPPPPPP/RNBQKBNR w KQkq - 0 1")
        .expect("parsing failed");
    let moves = position.generate_moves(&tables);
    assert_eq!(moves.len(), 20);
    let singles = moves.iter().filter(|m| m.get_flags() == 0b0000).count();
    let doubles = moves.iter().filter(|m| m.get_flags() == 0b0001).count();
    let captures = moves.iter().filter(|m| m.get_flags() & 0b0100 != 0).count();
    let promotions = moves.iter().filter(|m| m.get_flags() & 0b1000 != 0).count();
    assert_eq!(singles, 12);
    assert_eq!(doubles, 8);
    assert_eq!(captures, 0);
    assert_eq!(promotions, 0);
}

// A knight in the corner attacks two squares, a king in the corner three.
#[test]
fn corner_leaper_attack_counts() {
    assert_eq!(count_bits(knight_att(0)), 2);
    assert_eq!(count_bits(king_att(0)), 3);
}

// A pawn on its seventh rank with a free promotion square generates exactly
// the four promotion moves and no plain quiet move.
#[test]
fn pawn_on_seventh_promotes_four_ways() {
    let tables = init_tables().expect("table initialization failed");
    let position = Position::from_fen("8/P7/8/8/8/8/8/8 w - - 0 1").expect("parsing failed");
    let moves = position.generate_moves(&tables);
    assert_eq!(moves.len(), 4);
    let mut flags: Vec<u8> = moves.iter().map(|m| m.get_flags()).collect();
    flags.sort();
    assert_eq!(flags, vec![0b1000, 0b1001, 0b1010, 0b1011]);
    for m in &moves {
        assert_eq!(m.get_from(), 48);
        assert_eq!(m.get_to(), 56);
    }
    // The same pawn for black.
    let position = Position::from_fen("8/8/8/8/8/8/p7/8 b - - 0 1").expect("parsing failed");
    let moves = position.generate_moves(&tables);
    assert_eq!(moves.len(), 4);
    for m in &moves {
        assert_eq!(m.get_from(), 8);
        assert_eq!(m.get_to(), 0);
        assert!(m.get_flags() & 0b1000 != 0);
    }
}

// Two independent initializations on the precomputed-constant path build
// byte-identical tables.
#[test]
fn init_tables_is_deterministic() {
    let a = init_tables().expect("table initialization failed");
    let b = init_tables().expect("table initialization failed");
    assert!(a == b);
    assert_eq!(a.slider.len(), SLIDER_TABLE_SIZE);
}

#[test]
fn slider_lookups_honor_blockers() {
    let tables = init_tables().expect("table initialization failed");
    // Rook on d4, blockers on d6 and f4.
    let occupancy: u64 = (1 << 43) | (1 << 29);
    let attacks = lookup_rook_att(&tables, 27, occupancy);
    assert_eq!(attacks, rook_att(27, occupancy));
    assert!(attacks & (1 << 43) != 0); // the blocker square is attacked
    assert!(attacks & (1 << 51) == 0); // nothing beyond it
    // Queen = bishop | rook.
    assert_eq!(
        lookup_queen_att(&tables, 27, occupancy),
        lookup_bishop_att(&tables, 27, occupancy) | lookup_rook_att(&tables, 27, occupancy)
    );
    // Off-board square yields the empty bitboard.
    assert_eq!(lookup_rook_att(&tables, 64, occupancy), 0);
    // Leaper lookups equal the formulas.
    assert_eq!(lookup_knight_att(&tables, 12), knight_att(12));
    assert_eq!(lookup_king_att(&tables, 12), king_att(12));
    assert_eq!(lookup_pawn_att(&tables, 12, Color::White), pawn_att(12, Color::White));
    assert_eq!(lookup_pawn_att(&tables, 12, Color::Black), pawn_att(12, Color::Black));
}

#[test]
fn bit_utilities_behave() {
    assert_eq!(bb_from_square(0), 1);
    assert_eq!(bb_from_square(63), 1u64 << 63);
    assert_eq!(bb_from_square(64), 0);
    assert!(is_on_board(63));
    assert!(!is_on_board(64));
    assert_eq!(rev64(1), 1u64 << 63);
    assert_eq!(rev64(0xff), 0xff00000000000000);
    assert_eq!(mask_diag(0), 0x8040201008040201);
    assert_eq!(mask_anti_diag(7), 0x0102040810204080);
    assert_eq!(edges(27), 0xff818181818181ff);
    assert_eq!(edges(0), 0xff80808080808080);
    assert_eq!(relative_rank(1, Color::White), 0xff00);
    assert_eq!(relative_rank(1, Color::Black), 0x00ff000000000000);
    assert_eq!(enumerate_bits(0b1011), vec![0u8, 1, 3]);
    assert_eq!(enumerate_bits(0), Vec::<u8>::new());
    let subsets = enumerate_subsets(0b101);
    assert_eq!(subsets, vec![0b001u64, 0b100, 0b101, 0b000]);
    assert_eq!(enumerate_subsets(0).len(), 1);
}

#[test]
fn hashing_and_candidate_filter() {
    assert_eq!(calculate_hash_index(1, 0xff, 56), 0);
    assert_eq!(calculate_hash_index(1u64 << 60, 0b1010, 60), 10);
    assert!(!verify_candidate(0, 0xff));
}

#[test]
fn parse_fen_rejects_malformed_fields() {
    assert!(parse_fen("ppppppppp/8/8/8/8/8/8/8 w - - 0 1").is_err()); // nine pieces on a rank
    assert!(parse_fen("8/8/8/8/8/8/8/8 x - - 0 1").is_err()); // bad color
    assert!(parse_fen("8/8/8/8/8/8/8/8 w ? - 0 1").is_err()); // bad castling char
    assert!(parse_fen("8/8/8/8/8/8/8/8 w - - x 1").is_err()); // bad halfmove clock
    assert!(parse_fen("8/8/8/8/8/8/8/8 w - - 0 x").is_err()); // bad fullmove number
    assert!(parse_fen("8/8/8/8/8/8/8/8 w - - 0 1").is_ok());
}

#[test]
fn capture_generation_points_at_enemies() {
    let tables = init_tables().expect("table initialization failed");
    // A white rook on a1 facing a black pawn on a4.
    let position = Position::from_fen("8/8/8/8/p7/8/8/R7 w - - 0 1").expect("parsing failed");
    let moves = position.generate_moves(&tables);
    // Rook moves: a2, a3 (quiet), a4 (capture), b1..h1 (quiet).
    assert_eq!(moves.len(), 10);
    let captures: Vec<_> = moves.iter().filter(|m| m.get_flags() == 0b0100).collect();
    assert_eq!(captures.len(), 1);
    assert_eq!(captures[0].get_to(), 24);
}
