//! Position snapshot and the pseudo-legal move generator.

use vstd::prelude::*;

use crate::attacks::{spec_bishop_reach, spec_king_att, spec_knight_att, spec_pawn_att, spec_rook_reach};
use crate::cmove::{spec_flag_bits, Move, MoveFlags};
use crate::fen::BoardState;
use crate::piece::{Piece, PieceTypes};
use crate::tables::{
    lookup_bishop_att, lookup_king_att, lookup_knight_att, lookup_pawn_att, lookup_queen_att,
    lookup_rook_att, AttackTables,
};
use crate::util::{
    bit64, enumerate_bits, lemma_bit64_and, lemma_bit64_not, lemma_bit64_or, opp, relative_rank,
    Bitboard, Color,
};

verus! {

/// The moves in `s` include one with this origin, destination and flag.
pub open spec fn moves_contain(s: Seq<Move>, f: u64, t: u64, l: u16) -> bool {
    exists|i: int|
        0 <= i < s.len() && (#[trigger] s[i]).spec_from() == f && s[i].spec_to() == t
            && s[i].spec_flags() == l
}

/// No two entries of `s` are the same move.
pub open spec fn moves_distinct(s: Seq<Move>) -> bool {
    forall|i: int, j: int| 0 <= i < j < s.len() ==> s[i] != s[j]
}

/// The opposite color.
pub open spec fn spec_opp(c: Color) -> Color {
    if c == Color::White {
        Color::Black
    } else {
        Color::White
    }
}

/// A position snapshot: the parsed board state and one bitboard for each of
/// the twelve piece kinds.
pub struct Position {
    pub board_state: BoardState,
    pub pieces: [Bitboard; 12],
}

impl Position {
    /// The side to move.
    pub open spec fn spec_side(&self) -> Color {
        self.board_state.1
    }

    /// Union of the six piece bitboards of one color.
    pub open spec fn spec_all_pieces(&self, c: Color) -> u64 {
        if c == Color::White {
            self.pieces@[0] | self.pieces@[1] | self.pieces@[2] | self.pieces@[3] | self.pieces@[4]
                | self.pieces@[5]
        } else {
            self.pieces@[6] | self.pieces@[7] | self.pieces@[8] | self.pieces@[9] | self.pieces@[10]
                | self.pieces@[11]
        }
    }

    /// Every occupied square of either color.
    pub open spec fn spec_occupied(&self) -> u64 {
        self.spec_all_pieces(self.spec_side()) | self.spec_all_pieces(spec_opp(self.spec_side()))
    }

    /// Bitboard index of the given piece type for the side to move.
    pub open spec fn spec_piece_idx(&self, kind: u8) -> int {
        if self.spec_side() == Color::White {
            kind as int
        } else {
            kind + 6
        }
    }

    /// The twelve piece bitboards are pairwise disjoint: each square holds at
    /// most one piece. Every position built from parsed board notation
    /// satisfies this.
    pub open spec fn wf_pieces(&self) -> bool {
        forall|i: int, j: int, t: u64|
            #![trigger bit64(self.pieces@[i], t), bit64(self.pieces@[j], t)]
            0 <= i < j < 12 ==> !(bit64(self.pieces@[i], t) && bit64(self.pieces@[j], t))
    }

    /// A pseudo-legal knight move of the side to move: from a knight square
    /// to a knight-attack square not held by an ally, flagged as a capture
    /// exactly when an enemy piece stands there.
    pub open spec fn ok_knight(&self, f: u64, t: u64, l: u16) -> bool {
        let ally = self.spec_all_pieces(self.spec_side());
        let enemy = self.spec_all_pieces(spec_opp(self.spec_side()));
        &&& bit64(self.pieces@[self.spec_piece_idx(1)], f)
        &&& bit64(spec_knight_att(f), t)
        &&& !bit64(ally, t)
        &&& l == (if bit64(enemy, t) {
            spec_flag_bits(MoveFlags::CAPTURE)
        } else {
            spec_flag_bits(MoveFlags::QUIET)
        })
    }

    /// A pseudo-legal king move of the side to move: from a king square to a
    /// king-attack square not held by an ally, flagged as a capture exactly
    /// when an enemy piece stands there.
    pub open spec fn ok_king(&self, f: u64, t: u64, l: u16) -> bool {
        let ally = self.spec_all_pieces(self.spec_side());
        let enemy = self.spec_all_pieces(spec_opp(self.spec_side()));
        &&& bit64(self.pieces@[self.spec_piece_idx(5)], f)
        &&& bit64(spec_king_att(f), t)
        &&& !bit64(ally, t)
        &&& l == (if bit64(enemy, t) {
            spec_flag_bits(MoveFlags::CAPTURE)
        } else {
            spec_flag_bits(MoveFlags::QUIET)
        })
    }

    /// A pseudo-legal move of a slider kind (`kind` is the piece-type code)
    /// whose reach predicate is `reach`: from a square of that piece to a
    /// reachable square not held by an ally.
    pub open spec fn ok_slider(&self, kind: u8, f: u64, t: u64, l: u16, diag: bool, ortho: bool) -> bool {
        let ally = self.spec_all_pieces(self.spec_side());
        let enemy = self.spec_all_pieces(spec_opp(self.spec_side()));
        let occ = self.spec_occupied();
        &&& bit64(self.pieces@[self.spec_piece_idx(kind)], f)
        &&& ((diag && spec_bishop_reach(f, occ, t)) || (ortho && spec_rook_reach(f, occ, t)))
        &&& !bit64(ally, t)
        &&& l == (if bit64(enemy, t) {
            spec_flag_bits(MoveFlags::CAPTURE)
        } else {
            spec_flag_bits(MoveFlags::QUIET)
        })
    }

    /// A pseudo-legal pawn move of the side to move: a single push (turning
    /// into the four promotions on the final rank), a double push from the
    /// start rank across two empty squares, or a diagonal capture (turning
    /// into the four promotion captures on the final rank).
    pub open spec fn ok_pawn(&self, f: u64, t: u64, l: u16) -> bool {
        let side = self.spec_side();
        let enemy = self.spec_all_pieces(spec_opp(side));
        let occ = self.spec_occupied();
        let white = side == Color::White;
        &&& bit64(self.pieces@[self.spec_piece_idx(0)], f)
        &&& ({
            ||| ((if white {
                t == f + 8
            } else {
                f >= 8 && t == f - 8
            }) && t < 64 && !bit64(occ, t) && (if (if white {
                t / 8 == 7
            } else {
                t / 8 == 0
            }) {
                l == spec_flag_bits(MoveFlags::KNIGHT_PROM) || l == spec_flag_bits(
                    MoveFlags::BISHOP_PROM,
                ) || l == spec_flag_bits(MoveFlags::ROOK_PROM) || l == spec_flag_bits(
                    MoveFlags::QUEEN_PROM,
                )
            } else {
                l == spec_flag_bits(MoveFlags::QUIET)
            }))
            ||| ((if white {
                f / 8 == 1 && t == f + 16 && !bit64(occ, (f + 8) as u64)
            } else {
                f / 8 == 6 && f >= 16 && t == f - 16 && !bit64(occ, (f - 8) as u64)
            }) && !bit64(occ, t) && l == spec_flag_bits(MoveFlags::DOUBLE_PAWN_PUSH))
            ||| (bit64(spec_pawn_att(f, side), t) && bit64(enemy, t) && (if (if white {
                t / 8 == 7
            } else {
                t / 8 == 0
            }) {
                l == spec_flag_bits(MoveFlags::KNIGHT_PROM_CAPTURE) || l == spec_flag_bits(
                    MoveFlags::BISHOP_PROM_CAPTURE,
                ) || l == spec_flag_bits(MoveFlags::ROOK_PROM_CAPTURE) || l == spec_flag_bits(
                    MoveFlags::QUEEN_PROM_CAPTURE,
                )
            } else {
                l == spec_flag_bits(MoveFlags::CAPTURE)
            }))
        })
    }

    /// A pseudo-legal move of the side to move, as the generator emits them.
    pub open spec fn spec_gen_move_ok(&self, f: u64, t: u64, l: u16) -> bool {
        ||| self.ok_knight(f, t, l)
        ||| self.ok_pawn(f, t, l)
        ||| self.ok_slider(4, f, t, l, true, true)
        ||| self.ok_slider(2, f, t, l, true, false)
        ||| self.ok_slider(3, f, t, l, false, true)
        ||| self.ok_king(f, t, l)
    }
}

/// With pairwise-disjoint piece bitboards, no square carries two different
/// piece kinds of the side to move.
proof fn lemma_kinds_exclusive(pos: &Position, ka: u8, kb: u8, f: u64)
    requires
        pos.wf_pieces(),
        ka < 6,
        kb < 6,
        ka != kb,
        bit64(pos.pieces@[pos.spec_piece_idx(ka)], f),
    ensures
        !bit64(pos.pieces@[pos.spec_piece_idx(kb)], f),
{
    let ia = pos.spec_piece_idx(ka);
    let ib = pos.spec_piece_idx(kb);
    if bit64(pos.pieces@[ib], f) {
        if ia < ib {
            assert(!(bit64(pos.pieces@[ia], f) && bit64(pos.pieces@[ib], f)));
        } else {
            assert(!(bit64(pos.pieces@[ib], f) && bit64(pos.pieces@[ia], f)));
        }
    }
}

/// Appends one move and notes exactly which triple became contained.
fn push_move(moves: &mut Vec<Move>, from: u8, to: u8, flag: MoveFlags)
    requires
        from < 64,
        to < 64,
    ensures
        final(moves)@.len() == old(moves)@.len() + 1,
        forall|i: int| 0 <= i < old(moves)@.len() ==> final(moves)@[i] == old(moves)@[i],
        forall|f: u64, t: u64, l: u16|
            #[trigger] moves_contain(final(moves)@, f, t, l) <==> moves_contain(old(moves)@, f, t, l)
                || (f == from as u64 && t == to as u64 && l == spec_flag_bits(flag)),
        moves_distinct(old(moves)@) && !moves_contain(
            old(moves)@,
            from as u64,
            to as u64,
            spec_flag_bits(flag),
        ) ==> moves_distinct(final(moves)@),
{
    let ghost old_moves = moves@;
    let m = Move::new(from as u16, to as u16, flag);
    moves.push(m);
    proof {
        assert forall|f: u64, t: u64, l: u16|
            #[trigger] moves_contain(moves@, f, t, l) <==> moves_contain(old_moves, f, t, l) || (f
                == from as u64 && t == to as u64 && l == spec_flag_bits(flag)) by {
            if moves_contain(old_moves, f, t, l) {
                let i = choose|i: int|
                    0 <= i < old_moves.len() && (#[trigger] old_moves[i]).spec_from() == f
                        && old_moves[i].spec_to() == t && old_moves[i].spec_flags() == l;
                assert(moves@[i].spec_from() == f && moves@[i].spec_to() == t
                    && moves@[i].spec_flags() == l);
            }
            if f == from as u64 && t == to as u64 && l == spec_flag_bits(flag) {
                assert(moves@[moves@.len() - 1].spec_from() == f && moves@[moves@.len()
                    - 1].spec_to() == t && moves@[moves@.len() - 1].spec_flags() == l);
            }
            if moves_contain(moves@, f, t, l) {
                let i = choose|i: int|
                    0 <= i < moves@.len() && (#[trigger] moves@[i]).spec_from() == f
                        && moves@[i].spec_to() == t && moves@[i].spec_flags() == l;
                if i < old_moves.len() {
                    assert(old_moves[i].spec_from() == f && old_moves[i].spec_to() == t
                        && old_moves[i].spec_flags() == l);
                }
            }
        }
        if moves_distinct(old_moves) && !moves_contain(
            old_moves,
            from as u64,
            to as u64,
            spec_flag_bits(flag),
        ) {
            assert forall|i: int, j: int| 0 <= i < j < moves@.len() implies moves@[i]
                != moves@[j] by {
                if j == moves@.len() - 1 && moves@[i] == moves@[j] {
                    assert((#[trigger] old_moves[i]).spec_from() == from as u64
                        && old_moves[i].spec_to() == to as u64 && old_moves[i].spec_flags()
                        == spec_flag_bits(flag));
                }
            }
        }
    }
}

/// Appends one move per set bit of `targets`, all from the same origin and
/// with the same flag.
fn emit_targets(moves: &mut Vec<Move>, from: u8, targets: Bitboard, flag: MoveFlags)
    requires
        from < 64,
    ensures
        final(moves)@.len() >= old(moves)@.len(),
        forall|i: int| 0 <= i < old(moves)@.len() ==> final(moves)@[i] == old(moves)@[i],
        forall|f: u64, t: u64, l: u16|
            #[trigger] moves_contain(final(moves)@, f, t, l) <==> moves_contain(old(moves)@, f, t, l)
                || (f == from as u64 && bit64(targets, t) && l == spec_flag_bits(flag)),
        moves_distinct(old(moves)@) && (forall|t: u64|
            #[trigger] bit64(targets, t) ==> !moves_contain(
                old(moves)@,
                from as u64,
                t,
                spec_flag_bits(flag),
            )) ==> moves_distinct(final(moves)@),
{
    let ghost old_moves = moves@;
    let list = enumerate_bits(targets);
    let mut k: usize = 0;
    while k < list.len()
        invariant
            from < 64,
            k <= list@.len(),
            forall|j: int| 0 <= j < list@.len() ==> list@[j] < 64 && bit64(targets, list@[j] as u64),
            forall|t: u8| t < 64 && bit64(targets, t as u64) ==> list@.contains(t),
            moves@.len() >= old_moves.len(),
            forall|i: int| 0 <= i < old_moves.len() ==> moves@[i] == old_moves[i],
            forall|f: u64, t: u64, l: u16|
                #[trigger] moves_contain(moves@, f, t, l) <==> moves_contain(old_moves, f, t, l) || (
                f == from as u64 && l == spec_flag_bits(flag) && exists|j: int|
                    0 <= j < k && #[trigger] list@[j] as u64 == t),
            forall|k2: int, j2: int| 0 <= k2 < j2 < list@.len() ==> list@[k2] < list@[j2],
            moves_distinct(old_moves) && (forall|t: u64|
                #[trigger] bit64(targets, t) ==> !moves_contain(
                    old_moves,
                    from as u64,
                    t,
                    spec_flag_bits(flag),
                )) ==> moves_distinct(moves@),
        decreases list@.len() - k,
    {
        let t = list[k];
        let ghost pre = moves@;
        push_move(moves, from, t, flag);
        proof {
            if moves_distinct(old_moves) && (forall|t2: u64|
                #[trigger] bit64(targets, t2) ==> !moves_contain(
                    old_moves,
                    from as u64,
                    t2,
                    spec_flag_bits(flag),
                )) {
                assert(!moves_contain(pre, from as u64, t as u64, spec_flag_bits(flag))) by {
                    if moves_contain(pre, from as u64, t as u64, spec_flag_bits(flag)) {
                        assert(bit64(targets, t as u64));
                        let j = choose|j: int|
                            0 <= j < k && #[trigger] list@[j] as u64 == t as u64;
                        assert(list@[j] < list@[k as int]);
                    }
                }
                assert(moves_distinct(moves@));
            }
        }
        k = k + 1;
    }
    proof {
        assert forall|f: u64, t: u64, l: u16|
            #[trigger] moves_contain(moves@, f, t, l) <==> moves_contain(old_moves, f, t, l) || (f
                == from as u64 && bit64(targets, t) && l == spec_flag_bits(flag)) by {
            if f == from as u64 && bit64(targets, t) && l == spec_flag_bits(flag) {
                assert(list@.contains(t as u8));
                let j = choose|j: int| 0 <= j < list@.len() && list@[j] == t as u8;
                assert(list@[j] as u64 == t);
            }
        }
    }
}

impl Position {
    /// Union of the piece bitboards of one color, or of both with `None`.
    pub fn all_pieces_bb(&self, color: Option<Color>) -> (r: Bitboard)
        ensures
            r == (match color {
                Some(c) => self.spec_all_pieces(c),
                None => self.spec_all_pieces(Color::White) | self.spec_all_pieces(Color::Black),
            }),
    {
        match color {
            Some(Color::White) => self.pieces[0] | self.pieces[1] | self.pieces[2] | self.pieces[3]
                | self.pieces[4] | self.pieces[5],
            Some(Color::Black) => self.pieces[6] | self.pieces[7] | self.pieces[8] | self.pieces[9]
                | self.pieces[10] | self.pieces[11],
            None => (self.pieces[0] | self.pieces[1] | self.pieces[2] | self.pieces[3]
                | self.pieces[4] | self.pieces[5]) | (self.pieces[6] | self.pieces[7]
                | self.pieces[8] | self.pieces[9] | self.pieces[10] | self.pieces[11]),
        }
    }

    /// Generates the pseudo-legal moves of the side to move, in the order
    /// knights, pawns, queens, bishops, rooks, king. A triple of origin,
    /// destination and flag appears in the output exactly when it is a
    /// pseudo-legal move of the position.
    pub fn generate_moves(&self, tables: &AttackTables) -> (moves: Vec<Move>)
        requires
            tables.wf(),
        ensures
            forall|f: u64, t: u64, l: u16|
                #[trigger] moves_contain(moves@, f, t, l) <==> self.spec_gen_move_ok(f, t, l),
            self.wf_pieces() ==> moves_distinct(moves@),
    {
        let mut moves: Vec<Move> = Vec::new();
        let ghost m0 = moves@;
        self.gen_knight_moves(tables, &mut moves);
        let ghost m1 = moves@;
        self.gen_pawn_moves(tables, &mut moves);
        let ghost m2 = moves@;
        self.gen_slider_moves(tables, &mut moves, 4);
        let ghost m3 = moves@;
        self.gen_slider_moves(tables, &mut moves, 2);
        let ghost m4 = moves@;
        self.gen_slider_moves(tables, &mut moves, 3);
        let ghost m5 = moves@;
        self.gen_king_moves(tables, &mut moves);
        proof {
            if self.wf_pieces() {
                assert(moves_distinct(m1));
                assert forall|f: u64, t: u64, l: u16|
                    self.ok_pawn(f, t, l) implies !moves_contain(m1, f, t, l) by {
                    if moves_contain(m1, f, t, l) {
                        lemma_kinds_exclusive(self, 0, 1, f);
                    }
                }
                assert(moves_distinct(m2));
                assert forall|f: u64, t: u64, l: u16|
                    self.ok_slider(4, f, t, l, true, true) implies !moves_contain(m2, f, t, l) by {
                    if moves_contain(m2, f, t, l) {
                        lemma_kinds_exclusive(self, 4, 1, f);
                        lemma_kinds_exclusive(self, 4, 0, f);
                    }
                }
                assert(moves_distinct(m3));
                assert forall|f: u64, t: u64, l: u16|
                    self.ok_slider(2, f, t, l, true, false) implies !moves_contain(m3, f, t, l) by {
                    if moves_contain(m3, f, t, l) {
                        lemma_kinds_exclusive(self, 2, 1, f);
                        lemma_kinds_exclusive(self, 2, 0, f);
                        lemma_kinds_exclusive(self, 2, 4, f);
                    }
                }
                assert(moves_distinct(m4));
                assert forall|f: u64, t: u64, l: u16|
                    self.ok_slider(3, f, t, l, false, true) implies !moves_contain(m4, f, t, l) by {
                    if moves_contain(m4, f, t, l) {
                        lemma_kinds_exclusive(self, 3, 1, f);
                        lemma_kinds_exclusive(self, 3, 0, f);
                        lemma_kinds_exclusive(self, 3, 4, f);
                        lemma_kinds_exclusive(self, 3, 2, f);
                    }
                }
                assert(moves_distinct(m5));
                assert forall|f: u64, t: u64, l: u16|
                    self.ok_king(f, t, l) implies !moves_contain(m5, f, t, l) by {
                    if moves_contain(m5, f, t, l) {
                        lemma_kinds_exclusive(self, 5, 1, f);
                        lemma_kinds_exclusive(self, 5, 0, f);
                        lemma_kinds_exclusive(self, 5, 4, f);
                        lemma_kinds_exclusive(self, 5, 2, f);
                        lemma_kinds_exclusive(self, 5, 3, f);
                    }
                }
                assert(moves_distinct(moves@));
            }
        }
        moves
    }

    /// Emits the knight moves: for each knight, captures first, then the
    /// quiet moves.
    fn gen_knight_moves(&self, tables: &AttackTables, moves: &mut Vec<Move>)
        requires
            tables.wf(),
        ensures
            final(moves)@.len() >= old(moves)@.len(),
            forall|i: int| 0 <= i < old(moves)@.len() ==> final(moves)@[i] == old(moves)@[i],
            forall|f: u64, t: u64, l: u16|
                #[trigger] moves_contain(final(moves)@, f, t, l) <==> moves_contain(
                    old(moves)@,
                    f,
                    t,
                    l,
                ) || self.ok_knight(f, t, l),
            moves_distinct(old(moves)@) && (forall|f: u64, t: u64, l: u16|
                self.ok_knight(f, t, l) ==> !#[trigger] moves_contain(old(moves)@, f, t, l)) ==>
                moves_distinct(final(moves)@),
    {
        let ghost entry = moves@;
        let side = self.board_state.1;
        let ally = self.all_pieces_bb(Some(side));
        let enemy = self.all_pieces_bb(Some(opp(side)));
        let knight = Piece::new(side, PieceTypes::KNIGHT);
        let kbb = self.pieces[knight.get_index()];
        let list = enumerate_bits(kbb);
        let ghost ki = self.spec_piece_idx(1);
        let mut k: usize = 0;
        while k < list.len()
            invariant
                tables.wf(),
                k <= list@.len(),
                side == self.spec_side(),
                ally == self.spec_all_pieces(side),
                enemy == self.spec_all_pieces(spec_opp(side)),
                kbb == self.pieces@[self.spec_piece_idx(1)],
                forall|j: int| 0 <= j < list@.len() ==> list@[j] < 64 && bit64(kbb, list@[j] as u64),
                forall|t: u8| t < 64 && bit64(kbb, t as u64) ==> list@.contains(t),
                moves@.len() >= entry.len(),
                forall|i: int| 0 <= i < entry.len() ==> moves@[i] == entry[i],
                forall|f: u64, t: u64, l: u16|
                    #[trigger] moves_contain(moves@, f, t, l) <==> moves_contain(entry, f, t, l) || (
                    self.ok_knight(f, t, l) && exists|j: int|
                        0 <= j < k && #[trigger] list@[j] as u64 == f),
                forall|k2: int, j2: int| 0 <= k2 < j2 < list@.len() ==> list@[k2] < list@[j2],
                moves_distinct(entry) && (forall|f: u64, t: u64, l: u16|
                    self.ok_knight(f, t, l) ==> !#[trigger] moves_contain(entry, f, t, l)) ==>
                    moves_distinct(moves@),
            decreases list@.len() - k,
        {
            let from = list[k];
            let att = lookup_knight_att(tables, from) & !ally;
            let captures = att & enemy;
            let quiet = att & !enemy;
            let ghost mid0 = moves@;
            emit_targets(moves, from, captures, MoveFlags::CAPTURE);
            let ghost mid1 = moves@;
            emit_targets(moves, from, quiet, MoveFlags::QUIET);
            proof {
                let from_sq = from as u64;
                assert forall|t: u64| #[trigger]
                    bit64(captures, t) <==> (bit64(spec_knight_att(from_sq), t) && !bit64(ally, t)
                        && bit64(enemy, t)) by {
                    lemma_bit64_and(att, enemy, t);
                    lemma_bit64_and(spec_knight_att(from_sq), !ally, t);
                    lemma_bit64_not(ally, t);
                }
                assert forall|t: u64| #[trigger]
                    bit64(quiet, t) <==> (bit64(spec_knight_att(from_sq), t) && !bit64(ally, t)
                        && t < 64 && !bit64(enemy, t)) by {
                    lemma_bit64_and(att, !enemy, t);
                    lemma_bit64_and(spec_knight_att(from_sq), !ally, t);
                    lemma_bit64_not(ally, t);
                    lemma_bit64_not(enemy, t);
                }
                assert forall|f: u64, t: u64, l: u16|
                    #[trigger] moves_contain(moves@, f, t, l) <==> moves_contain(entry, f, t, l)
                        || (self.ok_knight(f, t, l) && exists|j: int|
                        0 <= j < k + 1 && #[trigger] list@[j] as u64 == f) by {
                    if moves_contain(entry, f, t, l) || (self.ok_knight(f, t, l) && exists|j: int|
                        0 <= j < k + 1 && #[trigger] list@[j] as u64 == f) {
                        if self.ok_knight(f, t, l) && (exists|j: int|
                            0 <= j < k + 1 && #[trigger] list@[j] as u64 == f) {
                            let j = choose|j: int| 0 <= j < k + 1 && #[trigger] list@[j] as u64 == f;
                            if j == k {
                                assert(f == from_sq);
                            }
                        }
                    }
                }
                if moves_distinct(entry) && (forall|f2: u64, t2: u64, l2: u16|
                    self.ok_knight(f2, t2, l2) ==> !#[trigger] moves_contain(entry, f2, t2, l2)) {
                    assert forall|t: u64| #[trigger] bit64(captures, t) implies !moves_contain(
                        mid0,
                        from as u64,
                        t,
                        spec_flag_bits(MoveFlags::CAPTURE),
                    ) by {
                        assert(self.ok_knight(from as u64, t, spec_flag_bits(MoveFlags::CAPTURE)));
                        if moves_contain(mid0, from as u64, t, spec_flag_bits(MoveFlags::CAPTURE)) {
                            let j = choose|j: int|
                                0 <= j < k && #[trigger] list@[j] as u64 == from as u64;
                            assert(list@[j] < list@[k as int]);
                        }
                    }
                    assert(moves_distinct(mid1));
                    assert forall|t: u64| #[trigger] bit64(quiet, t) implies !moves_contain(
                        mid1,
                        from as u64,
                        t,
                        spec_flag_bits(MoveFlags::QUIET),
                    ) by {
                        assert(self.ok_knight(from as u64, t, spec_flag_bits(MoveFlags::QUIET)));
                        if moves_contain(mid1, from as u64, t, spec_flag_bits(MoveFlags::QUIET)) {
                            if moves_contain(
                                mid0,
                                from as u64,
                                t,
                                spec_flag_bits(MoveFlags::QUIET),
                            ) {
                                let j = choose|j: int|
                                    0 <= j < k && #[trigger] list@[j] as u64 == from as u64;
                                assert(list@[j] < list@[k as int]);
                            }
                        }
                    }
                    assert(moves_distinct(moves@));
                }
            }
            k = k + 1;
        }
        proof {
            assert forall|f: u64, t: u64, l: u16|
                #[trigger] moves_contain(moves@, f, t, l) <==> moves_contain(entry, f, t, l)
                    || self.ok_knight(f, t, l) by {
                if self.ok_knight(f, t, l) {
                    assert(bit64(kbb, f));
                    assert(list@.contains(f as u8));
                    let j = choose|j: int| 0 <= j < list@.len() && list@[j] == f as u8;
                    assert(list@[j] as u64 == f);
                }
            }
        }
    }

    /// Emits the king moves: for each ally king, captures first, then the
    /// quiet moves.
    fn gen_king_moves(&self, tables: &AttackTables, moves: &mut Vec<Move>)
        requires
            tables.wf(),
        ensures
            final(moves)@.len() >= old(moves)@.len(),
            forall|i: int| 0 <= i < old(moves)@.len() ==> final(moves)@[i] == old(moves)@[i],
            forall|f: u64, t: u64, l: u16|
                #[trigger] moves_contain(final(moves)@, f, t, l) <==> moves_contain(
                    old(moves)@,
                    f,
                    t,
                    l,
                ) || self.ok_king(f, t, l),
            moves_distinct(old(moves)@) && (forall|f: u64, t: u64, l: u16|
                self.ok_king(f, t, l) ==> !#[trigger] moves_contain(old(moves)@, f, t, l)) ==>
                moves_distinct(final(moves)@),
    {
        let ghost entry = moves@;
        let side = self.board_state.1;
        let ally = self.all_pieces_bb(Some(side));
        let enemy = self.all_pieces_bb(Some(opp(side)));
        let king = Piece::new(side, PieceTypes::KING);
        let kbb = self.pieces[king.get_index()];
        let list = enumerate_bits(kbb);
        let ghost ki = self.spec_piece_idx(5);
        let mut k: usize = 0;
        while k < list.len()
            invariant
                tables.wf(),
                k <= list@.len(),
                side == self.spec_side(),
                ally == self.spec_all_pieces(side),
                enemy == self.spec_all_pieces(spec_opp(side)),
                kbb == self.pieces@[self.spec_piece_idx(5)],
                forall|j: int| 0 <= j < list@.len() ==> list@[j] < 64 && bit64(kbb, list@[j] as u64),
                forall|t: u8| t < 64 && bit64(kbb, t as u64) ==> list@.contains(t),
                moves@.len() >= entry.len(),
                forall|i: int| 0 <= i < entry.len() ==> moves@[i] == entry[i],
                forall|f: u64, t: u64, l: u16|
                    #[trigger] moves_contain(moves@, f, t, l) <==> moves_contain(entry, f, t, l) || (
                    self.ok_king(f, t, l) && exists|j: int|
                        0 <= j < k && #[trigger] list@[j] as u64 == f),
                forall|k2: int, j2: int| 0 <= k2 < j2 < list@.len() ==> list@[k2] < list@[j2],
                moves_distinct(entry) && (forall|f: u64, t: u64, l: u16|
                    self.ok_king(f, t, l) ==> !#[trigger] moves_contain(entry, f, t, l)) ==>
                    moves_distinct(moves@),
            decreases list@.len() - k,
        {
            let from = list[k];
            let att = lookup_king_att(tables, from) & !ally;
            let captures = att & enemy;
            let quiet = att & !enemy;
            let ghost mid0 = moves@;
            emit_targets(moves, from, captures, MoveFlags::CAPTURE);
            let ghost mid1 = moves@;
            emit_targets(moves, from, quiet, MoveFlags::QUIET);
            proof {
                let from_sq = from as u64;
                assert forall|t: u64| #[trigger]
                    bit64(captures, t) <==> (bit64(spec_king_att(from_sq), t) && !bit64(ally, t)
                        && bit64(enemy, t)) by {
                    lemma_bit64_and(att, enemy, t);
                    lemma_bit64_and(spec_king_att(from_sq), !ally, t);
                    lemma_bit64_not(ally, t);
                }
                assert forall|t: u64| #[trigger]
                    bit64(quiet, t) <==> (bit64(spec_king_att(from_sq), t) && !bit64(ally, t)
                        && t < 64 && !bit64(enemy, t)) by {
                    lemma_bit64_and(att, !enemy, t);
                    lemma_bit64_and(spec_king_att(from_sq), !ally, t);
                    lemma_bit64_not(ally, t);
                    lemma_bit64_not(enemy, t);
                }
                assert forall|f: u64, t: u64, l: u16|
                    #[trigger] moves_contain(moves@, f, t, l) <==> moves_contain(entry, f, t, l)
                        || (self.ok_king(f, t, l) && exists|j: int|
                        0 <= j < k + 1 && #[trigger] list@[j] as u64 == f) by {
                    if moves_contain(entry, f, t, l) || (self.ok_king(f, t, l) && exists|j: int|
                        0 <= j < k + 1 && #[trigger] list@[j] as u64 == f) {
                        if self.ok_king(f, t, l) && (exists|j: int|
                            0 <= j < k + 1 && #[trigger] list@[j] as u64 == f) {
                            let j = choose|j: int| 0 <= j < k + 1 && #[trigger] list@[j] as u64 == f;
                            if j == k {
                                assert(f == from_sq);
                            }
                        }
                    }
                }
                if moves_distinct(entry) && (forall|f2: u64, t2: u64, l2: u16|
                    self.ok_king(f2, t2, l2) ==> !#[trigger] moves_contain(entry, f2, t2, l2)) {
                    assert forall|t: u64| #[trigger] bit64(captures, t) implies !moves_contain(
                        mid0,
                        from as u64,
                        t,
                        spec_flag_bits(MoveFlags::CAPTURE),
                    ) by {
                        assert(self.ok_king(from as u64, t, spec_flag_bits(MoveFlags::CAPTURE)));
                        if moves_contain(mid0, from as u64, t, spec_flag_bits(MoveFlags::CAPTURE)) {
                            let j = choose|j: int|
                                0 <= j < k && #[trigger] list@[j] as u64 == from as u64;
                            assert(list@[j] < list@[k as int]);
                        }
                    }
                    assert(moves_distinct(mid1));
                    assert forall|t: u64| #[trigger] bit64(quiet, t) implies !moves_contain(
                        mid1,
                        from as u64,
                        t,
                        spec_flag_bits(MoveFlags::QUIET),
                    ) by {
                        assert(self.ok_king(from as u64, t, spec_flag_bits(MoveFlags::QUIET)));
                        if moves_contain(mid1, from as u64, t, spec_flag_bits(MoveFlags::QUIET)) {
                            if moves_contain(
                                mid0,
                                from as u64,
                                t,
                                spec_flag_bits(MoveFlags::QUIET),
                            ) {
                                let j = choose|j: int|
                                    0 <= j < k && #[trigger] list@[j] as u64 == from as u64;
                                assert(list@[j] < list@[k as int]);
                            }
                        }
                    }
                    assert(moves_distinct(moves@));
                }
            }
            k = k + 1;
        }
        proof {
            assert forall|f: u64, t: u64, l: u16|
                #[trigger] moves_contain(moves@, f, t, l) <==> moves_contain(entry, f, t, l)
                    || self.ok_king(f, t, l) by {
                if self.ok_king(f, t, l) {
                    assert(bit64(kbb, f));
                    assert(list@.contains(f as u8));
                    let j = choose|j: int| 0 <= j < list@.len() && list@[j] == f as u8;
                    assert(list@[j] as u64 == f);
                }
            }
        }
    }
}

} // verus!

use crate::util::lemma_bit64_test;

verus! {

impl Position {
    /// Emits the moves of one slider kind (queen, bishop or rook): for each
    /// such piece, quiet moves first, then captures.
    fn gen_slider_moves(&self, tables: &AttackTables, moves: &mut Vec<Move>, kind: u8)
        requires
            tables.wf(),
            kind == 2 || kind == 3 || kind == 4,
        ensures
            final(moves)@.len() >= old(moves)@.len(),
            forall|i: int| 0 <= i < old(moves)@.len() ==> final(moves)@[i] == old(moves)@[i],
            forall|f: u64, t: u64, l: u16|
                #[trigger] moves_contain(final(moves)@, f, t, l) <==> moves_contain(
                    old(moves)@,
                    f,
                    t,
                    l,
                ) || self.ok_slider(kind, f, t, l, kind == 4 || kind == 2, kind == 4 || kind == 3),
            moves_distinct(old(moves)@) && (forall|f: u64, t: u64, l: u16|
                self.ok_slider(kind, f, t, l, kind == 4 || kind == 2, kind == 4 || kind == 3) ==>
                    !#[trigger] moves_contain(old(moves)@, f, t, l)) ==> moves_distinct(
                final(moves)@,
            ),
    {
        let ghost entry = moves@;
        let ghost diag = kind == 4 || kind == 2;
        let ghost ortho = kind == 4 || kind == 3;
        let side = self.board_state.1;
        let ally = self.all_pieces_bb(Some(side));
        let enemy = self.all_pieces_bb(Some(opp(side)));
        let all = ally | enemy;
        let piece = Piece::new(
            side,
            if kind == 2 {
                PieceTypes::BISHOP
            } else if kind == 3 {
                PieceTypes::ROOK
            } else {
                PieceTypes::QUEEN
            },
        );
        let pbb = self.pieces[piece.get_index()];
        let list = enumerate_bits(pbb);
        let mut k: usize = 0;
        proof {
            assert(all == self.spec_occupied());
        }
        while k < list.len()
            invariant
                tables.wf(),
                kind == 2 || kind == 3 || kind == 4,
                diag == (kind == 4 || kind == 2),
                ortho == (kind == 4 || kind == 3),
                k <= list@.len(),
                side == self.spec_side(),
                ally == self.spec_all_pieces(side),
                enemy == self.spec_all_pieces(spec_opp(side)),
                all == self.spec_occupied(),
                pbb == self.pieces@[self.spec_piece_idx(kind)],
                forall|j: int| 0 <= j < list@.len() ==> list@[j] < 64 && bit64(pbb, list@[j] as u64),
                forall|t: u8| t < 64 && bit64(pbb, t as u64) ==> list@.contains(t),
                moves@.len() >= entry.len(),
                forall|i: int| 0 <= i < entry.len() ==> moves@[i] == entry[i],
                forall|f: u64, t: u64, l: u16|
                    #[trigger] moves_contain(moves@, f, t, l) <==> moves_contain(entry, f, t, l) || (
                    self.ok_slider(kind, f, t, l, diag, ortho) && exists|j: int|
                        0 <= j < k && #[trigger] list@[j] as u64 == f),
                forall|k2: int, j2: int| 0 <= k2 < j2 < list@.len() ==> list@[k2] < list@[j2],
                moves_distinct(entry) && (forall|f: u64, t: u64, l: u16|
                    self.ok_slider(kind, f, t, l, diag, ortho) ==> !#[trigger] moves_contain(
                        entry,
                        f,
                        t,
                        l,
                    )) ==> moves_distinct(moves@),
            decreases list@.len() - k,
        {
            let from = list[k];
            let raw = if kind == 2 {
                lookup_bishop_att(tables, from, all)
            } else if kind == 3 {
                lookup_rook_att(tables, from, all)
            } else {
                lookup_queen_att(tables, from, all)
            };
            let att = raw & !ally;
            let quiet = att & !enemy;
            let captures = att & enemy;
            let ghost mid0 = moves@;
            emit_targets(moves, from, quiet, MoveFlags::QUIET);
            let ghost mid1 = moves@;
            emit_targets(moves, from, captures, MoveFlags::CAPTURE);
            proof {
                let from_sq = from as u64;
                assert forall|t: u64| #[trigger]
                    bit64(captures, t) <==> (((diag && spec_bishop_reach(from_sq, all, t)) || (ortho
                        && spec_rook_reach(from_sq, all, t))) && !bit64(ally, t) && bit64(
                        enemy,
                        t,
                    )) by {
                    lemma_bit64_and(att, enemy, t);
                    lemma_bit64_and(raw, !ally, t);
                    lemma_bit64_not(ally, t);
                }
                assert forall|t: u64| #[trigger]
                    bit64(quiet, t) <==> (((diag && spec_bishop_reach(from_sq, all, t)) || (ortho
                        && spec_rook_reach(from_sq, all, t))) && !bit64(ally, t) && t < 64 && !bit64(
                        enemy,
                        t,
                    )) by {
                    lemma_bit64_and(att, !enemy, t);
                    lemma_bit64_and(raw, !ally, t);
                    lemma_bit64_not(ally, t);
                    lemma_bit64_not(enemy, t);
                }
                assert forall|f: u64, t: u64, l: u16|
                    #[trigger] moves_contain(moves@, f, t, l) <==> moves_contain(entry, f, t, l)
                        || (self.ok_slider(kind, f, t, l, diag, ortho) && exists|j: int|
                        0 <= j < k + 1 && #[trigger] list@[j] as u64 == f) by {
                    if self.ok_slider(kind, f, t, l, diag, ortho) && (exists|j: int|
                        0 <= j < k + 1 && #[trigger] list@[j] as u64 == f) {
                        let j = choose|j: int| 0 <= j < k + 1 && #[trigger] list@[j] as u64 == f;
                        if j == k {
                            assert(f == from_sq);
                            assert(t < 64);
                        }
                    }
                }
                if moves_distinct(entry) && (forall|f2: u64, t2: u64, l2: u16|
                    self.ok_slider(kind, f2, t2, l2, diag, ortho) ==> !#[trigger] moves_contain(
                        entry,
                        f2,
                        t2,
                        l2,
                    )) {
                    assert forall|t: u64| #[trigger] bit64(quiet, t) implies !moves_contain(
                        mid0,
                        from as u64,
                        t,
                        spec_flag_bits(MoveFlags::QUIET),
                    ) by {
                        assert(self.ok_slider(
                            kind,
                            from as u64,
                            t,
                            spec_flag_bits(MoveFlags::QUIET),
                            diag,
                            ortho,
                        ));
                        if moves_contain(mid0, from as u64, t, spec_flag_bits(MoveFlags::QUIET)) {
                            let j = choose|j: int|
                                0 <= j < k && #[trigger] list@[j] as u64 == from as u64;
                            assert(list@[j] < list@[k as int]);
                        }
                    }
                    assert(moves_distinct(mid1));
                    assert forall|t: u64| #[trigger] bit64(captures, t) implies !moves_contain(
                        mid1,
                        from as u64,
                        t,
                        spec_flag_bits(MoveFlags::CAPTURE),
                    ) by {
                        assert(self.ok_slider(
                            kind,
                            from as u64,
                            t,
                            spec_flag_bits(MoveFlags::CAPTURE),
                            diag,
                            ortho,
                        ));
                        if moves_contain(mid1, from as u64, t, spec_flag_bits(MoveFlags::CAPTURE)) {
                            if moves_contain(
                                mid0,
                                from as u64,
                                t,
                                spec_flag_bits(MoveFlags::CAPTURE),
                            ) {
                                let j = choose|j: int|
                                    0 <= j < k && #[trigger] list@[j] as u64 == from as u64;
                                assert(list@[j] < list@[k as int]);
                            }
                        }
                    }
                    assert(moves_distinct(moves@));
                }
            }
            k = k + 1;
        }
        proof {
            assert forall|f: u64, t: u64, l: u16|
                #[trigger] moves_contain(moves@, f, t, l) <==> moves_contain(entry, f, t, l)
                    || self.ok_slider(kind, f, t, l, diag, ortho) by {
                if self.ok_slider(kind, f, t, l, diag, ortho) {
                    assert(bit64(pbb, f));
                    assert(list@.contains(f as u8));
                    let j = choose|j: int| 0 <= j < list@.len() && list@[j] == f as u8;
                    assert(list@[j] as u64 == f);
                }
            }
        }
    }

    /// Emits the pawn moves: for each pawn the single push (or the four
    /// promotions), the double push, then plain captures and promotion
    /// captures.
    fn gen_pawn_moves(&self, tables: &AttackTables, moves: &mut Vec<Move>)
        requires
            tables.wf(),
        ensures
            final(moves)@.len() >= old(moves)@.len(),
            forall|i: int| 0 <= i < old(moves)@.len() ==> final(moves)@[i] == old(moves)@[i],
            forall|f: u64, t: u64, l: u16|
                #[trigger] moves_contain(final(moves)@, f, t, l) <==> moves_contain(
                    old(moves)@,
                    f,
                    t,
                    l,
                ) || self.ok_pawn(f, t, l),
            moves_distinct(old(moves)@) && (forall|f: u64, t: u64, l: u16|
                self.ok_pawn(f, t, l) ==> !#[trigger] moves_contain(old(moves)@, f, t, l)) ==>
                moves_distinct(final(moves)@),
    {
        let ghost entry = moves@;
        let side = self.board_state.1;
        let white = match side {
            Color::White => true,
            Color::Black => false,
        };
        let ally = self.all_pieces_bb(Some(side));
        let enemy = self.all_pieces_bb(Some(opp(side)));
        let all = ally | enemy;
        let pawn = Piece::new(side, PieceTypes::PAWN);
        let pbb = self.pieces[pawn.get_index()];
        let prom_rank = relative_rank(7, side);
        let list = enumerate_bits(pbb);
        let mut k: usize = 0;
        proof {
            assert(all == self.spec_occupied());
        }
        while k < list.len()
            invariant
                tables.wf(),
                k <= list@.len(),
                side == self.spec_side(),
                white == (side == Color::White),
                ally == self.spec_all_pieces(side),
                enemy == self.spec_all_pieces(spec_opp(side)),
                all == self.spec_occupied(),
                pbb == self.pieces@[self.spec_piece_idx(0)],
                forall|t: u64|
                    #[trigger] bit64(prom_rank, t) <==> t < 64 && t / 8 == (if white {
                        7u64
                    } else {
                        0u64
                    }),
                forall|j: int| 0 <= j < list@.len() ==> list@[j] < 64 && bit64(pbb, list@[j] as u64),
                forall|t: u8| t < 64 && bit64(pbb, t as u64) ==> list@.contains(t),
                moves@.len() >= entry.len(),
                forall|i: int| 0 <= i < entry.len() ==> moves@[i] == entry[i],
                forall|f: u64, t: u64, l: u16|
                    #[trigger] moves_contain(moves@, f, t, l) <==> moves_contain(entry, f, t, l) || (
                    self.ok_pawn(f, t, l) && exists|j: int|
                        0 <= j < k && #[trigger] list@[j] as u64 == f),
                forall|k2: int, j2: int| 0 <= k2 < j2 < list@.len() ==> list@[k2] < list@[j2],
                moves_distinct(entry) && (forall|f: u64, t: u64, l: u16|
                    self.ok_pawn(f, t, l) ==> !#[trigger] moves_contain(entry, f, t, l)) ==>
                    moves_distinct(moves@),
            decreases list@.len() - k,
        {
            let from = list[k];
            let ghost from_sq = from as u64;
            let ghost before_from = moves@;
            let ghost dh = moves_distinct(entry) && (forall|f2: u64, t2: u64, l2: u16|
                self.ok_pawn(f2, t2, l2) ==> !#[trigger] moves_contain(entry, f2, t2, l2));
            proof {
                if dh {
                    assert forall|t2: u64, l2: u16|
                        self.ok_pawn(from_sq, t2, l2) implies !moves_contain(
                        before_from,
                        from_sq,
                        t2,
                        l2,
                    ) by {
                        if moves_contain(before_from, from_sq, t2, l2) {
                            let j = choose|j: int|
                                0 <= j < k && #[trigger] list@[j] as u64 == from_sq;
                            assert(list@[j] < list@[k as int]);
                        }
                    }
                }
            }

            // Single and double pushes.
            let push_on_board: bool = if white {
                from < 56
            } else {
                from >= 8
            };
            if push_on_board {
                let to_sq = if white {
                    from + 8
                } else {
                    from - 8
                };
                let empty_to = all & (1u64 << (to_sq as u64)) == 0;
                proof {
                    lemma_bit64_test(all, to_sq as u64);
                }
                if empty_to {
                    let prom = if white {
                        to_sq / 8 == 7
                    } else {
                        to_sq / 8 == 0
                    };
                    if prom {
                        push_move(moves, from, to_sq, MoveFlags::KNIGHT_PROM);
                        let ghost sp1 = moves@;
                        push_move(moves, from, to_sq, MoveFlags::BISHOP_PROM);
                        let ghost sp2 = moves@;
                        push_move(moves, from, to_sq, MoveFlags::ROOK_PROM);
                        let ghost sp3 = moves@;
                        push_move(moves, from, to_sq, MoveFlags::QUEEN_PROM);
                        proof {
                            if dh {
                                assert(self.ok_pawn(
                                    from_sq,
                                    to_sq as u64,
                                    spec_flag_bits(MoveFlags::KNIGHT_PROM),
                                ));
                                assert(self.ok_pawn(
                                    from_sq,
                                    to_sq as u64,
                                    spec_flag_bits(MoveFlags::BISHOP_PROM),
                                ));
                                assert(self.ok_pawn(
                                    from_sq,
                                    to_sq as u64,
                                    spec_flag_bits(MoveFlags::ROOK_PROM),
                                ));
                                assert(self.ok_pawn(
                                    from_sq,
                                    to_sq as u64,
                                    spec_flag_bits(MoveFlags::QUEEN_PROM),
                                ));
                                assert(moves_distinct(sp1));
                                assert(moves_distinct(sp2));
                                assert(moves_distinct(sp3));
                                assert(moves_distinct(moves@));
                            }
                        }
                    } else {
                        push_move(moves, from, to_sq, MoveFlags::QUIET);
                        proof {
                            if dh {
                                assert(self.ok_pawn(
                                    from_sq,
                                    to_sq as u64,
                                    spec_flag_bits(MoveFlags::QUIET),
                                ));
                                assert(moves_distinct(moves@));
                            }
                        }
                    }
                    let start_rank: bool = if white {
                        from / 8 == 1
                    } else {
                        from / 8 == 6
                    };
                    if start_rank {
                        let to2 = if white {
                            from + 16
                        } else {
                            from - 16
                        };
                        let empty_to2 = all & (1u64 << (to2 as u64)) == 0;
                        proof {
                            lemma_bit64_test(all, to2 as u64);
                        }
                        if empty_to2 {
                            let ghost spd = moves@;
                            push_move(moves, from, to2, MoveFlags::DOUBLE_PAWN_PUSH);
                            proof {
                                if dh {
                                    assert(self.ok_pawn(
                                        from_sq,
                                        to2 as u64,
                                        spec_flag_bits(MoveFlags::DOUBLE_PAWN_PUSH),
                                    ));
                                    assert(!moves_contain(
                                        spd,
                                        from_sq,
                                        to2 as u64,
                                        spec_flag_bits(MoveFlags::DOUBLE_PAWN_PUSH),
                                    ));
                                    assert(moves_distinct(moves@));
                                }
                            }
                        }
                    }
                }
            }

            // Captures, plain and promoting.
            let ghost after_pushes = moves@;
            let att = lookup_pawn_att(tables, from, side) & enemy;
            let captures = att & !prom_rank;
            let prom_captures = att & prom_rank;
            emit_targets(moves, from, captures, MoveFlags::CAPTURE);
            let ghost e1 = moves@;
            emit_targets(moves, from, prom_captures, MoveFlags::BISHOP_PROM_CAPTURE);
            let ghost e2 = moves@;
            emit_targets(moves, from, prom_captures, MoveFlags::ROOK_PROM_CAPTURE);
            let ghost e3 = moves@;
            emit_targets(moves, from, prom_captures, MoveFlags::QUEEN_PROM_CAPTURE);
            let ghost e4 = moves@;
            emit_targets(moves, from, prom_captures, MoveFlags::KNIGHT_PROM_CAPTURE);
            proof {
                assert forall|t: u64| #[trigger]
                    bit64(captures, t) <==> (bit64(spec_pawn_att(from_sq, side), t) && bit64(enemy, t)
                        && !(t / 8 == (if white {
                        7u64
                    } else {
                        0u64
                    }))) by {
                    lemma_bit64_and(att, !prom_rank, t);
                    lemma_bit64_and(spec_pawn_att(from_sq, side), enemy, t);
                    lemma_bit64_not(prom_rank, t);
                }
                assert forall|t: u64| #[trigger]
                    bit64(prom_captures, t) <==> (bit64(spec_pawn_att(from_sq, side), t) && bit64(
                        enemy,
                        t,
                    ) && t / 8 == (if white {
                        7u64
                    } else {
                        0u64
                    })) by {
                    lemma_bit64_and(att, prom_rank, t);
                    lemma_bit64_and(spec_pawn_att(from_sq, side), enemy, t);
                }
                assert forall|f: u64, t: u64, l: u16|
                    #[trigger] moves_contain(moves@, f, t, l) <==> moves_contain(entry, f, t, l)
                        || (self.ok_pawn(f, t, l) && exists|j: int|
                        0 <= j < k + 1 && #[trigger] list@[j] as u64 == f) by {
                    if self.ok_pawn(f, t, l) && (exists|j: int|
                        0 <= j < k + 1 && #[trigger] list@[j] as u64 == f) {
                        let j = choose|j: int| 0 <= j < k + 1 && #[trigger] list@[j] as u64 == f;
                        if j == k {
                            assert(f == from_sq);
                        }
                    }
                    if moves_contain(moves@, f, t, l) && !moves_contain(entry, f, t, l)
                        && !moves_contain(before_from, f, t, l) {
                        assert(f == from_sq);
                    }
                }
                if dh {
                    assert(moves_distinct(after_pushes));
                    assert forall|t: u64| #[trigger] bit64(captures, t) implies !moves_contain(
                        after_pushes,
                        from_sq,
                        t,
                        spec_flag_bits(MoveFlags::CAPTURE),
                    ) by {
                        assert(self.ok_pawn(from_sq, t, spec_flag_bits(MoveFlags::CAPTURE)));
                    }
                    assert(moves_distinct(e1));
                    assert forall|t: u64| #[trigger] bit64(prom_captures, t) implies !moves_contain(
                        e1,
                        from_sq,
                        t,
                        spec_flag_bits(MoveFlags::BISHOP_PROM_CAPTURE),
                    ) by {
                        assert(self.ok_pawn(
                            from_sq,
                            t,
                            spec_flag_bits(MoveFlags::BISHOP_PROM_CAPTURE),
                        ));
                    }
                    assert(moves_distinct(e2));
                    assert forall|t: u64| #[trigger] bit64(prom_captures, t) implies !moves_contain(
                        e2,
                        from_sq,
                        t,
                        spec_flag_bits(MoveFlags::ROOK_PROM_CAPTURE),
                    ) by {
                        assert(self.ok_pawn(
                            from_sq,
                            t,
                            spec_flag_bits(MoveFlags::ROOK_PROM_CAPTURE),
                        ));
                    }
                    assert(moves_distinct(e3));
                    assert forall|t: u64| #[trigger] bit64(prom_captures, t) implies !moves_contain(
                        e3,
                        from_sq,
                        t,
                        spec_flag_bits(MoveFlags::QUEEN_PROM_CAPTURE),
                    ) by {
                        assert(self.ok_pawn(
                            from_sq,
                            t,
                            spec_flag_bits(MoveFlags::QUEEN_PROM_CAPTURE),
                        ));
                    }
                    assert(moves_distinct(e4));
                    assert forall|t: u64| #[trigger] bit64(prom_captures, t) implies !moves_contain(
                        e4,
                        from_sq,
                        t,
                        spec_flag_bits(MoveFlags::KNIGHT_PROM_CAPTURE),
                    ) by {
                        assert(self.ok_pawn(
                            from_sq,
                            t,
                            spec_flag_bits(MoveFlags::KNIGHT_PROM_CAPTURE),
                        ));
                    }
                    assert(moves_distinct(moves@));
                }
            }
            k = k + 1;
        }
        proof {
            assert forall|f: u64, t: u64, l: u16|
                #[trigger] moves_contain(moves@, f, t, l) <==> moves_contain(entry, f, t, l)
                    || self.ok_pawn(f, t, l) by {
                if self.ok_pawn(f, t, l) {
                    assert(bit64(pbb, f));
                    assert(list@.contains(f as u8));
                    let j = choose|j: int| 0 <= j < list@.len() && list@[j] == f as u8;
                    assert(list@[j] as u64 == f);
                }
            }
        }
    }
}

} // verus!

use crate::fen::parse_fen;
use crate::util::mailbox_to_bb;

verus! {

/// Two well-formed piece encodings with the same bitboard index are the same
/// piece.
proof fn lemma_piece_index_injective(a: crate::piece::Piece, b: crate::piece::Piece)
    requires
        a.wf(),
        b.wf(),
        a.spec_index() == b.spec_index(),
    ensures
        a == b,
{
    crate::piece::lemma_piece_encoding(a, b);
}

impl Position {
    /// Builds a position from six-field board notation: the parsed board
    /// state plus one bitboard per piece kind, where bit `t` of bitboard
    /// `idx` is set exactly when the well-formed piece with index `idx`
    /// stands on square `t`.
    pub fn from_fen(fen: &str) -> (r: Result<Position, &'static str>)
        ensures
            r is Ok ==> forall|idx: int, t: u64|
                0 <= idx < 12 && t < 64 ==> (#[trigger] bit64(r.unwrap().pieces@[idx], t) <==> (
                r.unwrap().board_state.0@[t as int] is Some
                    && r.unwrap().board_state.0@[t as int].unwrap().spec_index() == idx)),
            r is Ok ==> r.unwrap().wf_pieces(),
    {
        let board_state = match parse_fen(fen) {
            Ok(bs) => bs,
            Err(e) => {
                return Err(e);
            },
        };
        let mailbox = &board_state.0;
        let pieces: [Bitboard; 12] = [
            mailbox_to_bb(mailbox, Piece::new(Color::White, PieceTypes::PAWN)),
            mailbox_to_bb(mailbox, Piece::new(Color::White, PieceTypes::KNIGHT)),
            mailbox_to_bb(mailbox, Piece::new(Color::White, PieceTypes::BISHOP)),
            mailbox_to_bb(mailbox, Piece::new(Color::White, PieceTypes::ROOK)),
            mailbox_to_bb(mailbox, Piece::new(Color::White, PieceTypes::QUEEN)),
            mailbox_to_bb(mailbox, Piece::new(Color::White, PieceTypes::KING)),
            mailbox_to_bb(mailbox, Piece::new(Color::Black, PieceTypes::PAWN)),
            mailbox_to_bb(mailbox, Piece::new(Color::Black, PieceTypes::KNIGHT)),
            mailbox_to_bb(mailbox, Piece::new(Color::Black, PieceTypes::BISHOP)),
            mailbox_to_bb(mailbox, Piece::new(Color::Black, PieceTypes::ROOK)),
            mailbox_to_bb(mailbox, Piece::new(Color::Black, PieceTypes::QUEEN)),
            mailbox_to_bb(mailbox, Piece::new(Color::Black, PieceTypes::KING)),
        ];
        let r = Position { board_state, pieces };
        proof {
            assert forall|idx: int, t: u64|
                0 <= idx < 12 && t < 64 implies (#[trigger] bit64(r.pieces@[idx], t) <==> (
            r.board_state.0@[t as int] is Some && r.board_state.0@[t as int].unwrap().spec_index()
                == idx)) by {
                if bit64(r.pieces@[idx], t) {
                    assert(r.board_state.0@[t as int] is Some);
                }
                if r.board_state.0@[t as int] is Some
                    && r.board_state.0@[t as int].unwrap().spec_index() == idx {
                    let p = r.board_state.0@[t as int].unwrap();
                    let q = choose|q: crate::piece::Piece|
                        q.wf() && q.spec_index() == idx && (forall|u: u64|
                            #[trigger] bit64(r.pieces@[idx], u) <==> u < 64
                                && r.board_state.0@[u as int] == Some(q));
                    lemma_piece_index_injective(p, q);
                }
            }
            assert(r.wf_pieces()) by {
                assert forall|i: int, j: int, t: u64| 0 <= i < j < 12 implies !(bit64(
                    r.pieces@[i],
                    t,
                ) && bit64(r.pieces@[j], t)) by {
                    if t < 64 && bit64(r.pieces@[i], t) && bit64(r.pieces@[j], t) {
                        assert(r.board_state.0@[t as int].unwrap().spec_index() == i);
                        assert(r.board_state.0@[t as int].unwrap().spec_index() == j);
                    }
                }
            }
        }
        Ok(r)
    }
}

} // verus!

verus! {

impl Position {
    /// A pawn on its seventh rank relative to its color, with the promotion
    /// square empty, has exactly the four promotion pushes as pseudo-legal
    /// moves to that square — and no plain quiet push.
    pub proof fn lemma_pawn_promotions(&self, f: u64, t: u64)
        requires
            self.wf_pieces(),
            bit64(self.pieces@[self.spec_piece_idx(0)], f),
            if self.spec_side() == Color::White {
                f / 8 == 6 && t == f + 8
            } else {
                f / 8 == 1 && t == f - 8
            },
            !bit64(self.spec_occupied(), t),
        ensures
            self.spec_gen_move_ok(f, t, spec_flag_bits(MoveFlags::KNIGHT_PROM)),
            self.spec_gen_move_ok(f, t, spec_flag_bits(MoveFlags::BISHOP_PROM)),
            self.spec_gen_move_ok(f, t, spec_flag_bits(MoveFlags::ROOK_PROM)),
            self.spec_gen_move_ok(f, t, spec_flag_bits(MoveFlags::QUEEN_PROM)),
            !self.spec_gen_move_ok(f, t, spec_flag_bits(MoveFlags::QUIET)),
    {
        let side = self.spec_side();
        let ally = self.spec_all_pieces(side);
        let enemy = self.spec_all_pieces(spec_opp(side));
        assert(!bit64(enemy, t)) by {
            lemma_bit64_or(ally, enemy, t);
        }
        assert(self.ok_pawn(f, t, spec_flag_bits(MoveFlags::KNIGHT_PROM)));
        assert(self.ok_pawn(f, t, spec_flag_bits(MoveFlags::BISHOP_PROM)));
        assert(self.ok_pawn(f, t, spec_flag_bits(MoveFlags::ROOK_PROM)));
        assert(self.ok_pawn(f, t, spec_flag_bits(MoveFlags::QUEEN_PROM)));
        let quiet = spec_flag_bits(MoveFlags::QUIET);
        if self.spec_gen_move_ok(f, t, quiet) {
            if self.ok_knight(f, t, quiet) {
                lemma_kinds_exclusive(self, 0, 1, f);
            }
            if self.ok_king(f, t, quiet) {
                lemma_kinds_exclusive(self, 0, 5, f);
            }
            if self.ok_slider(4, f, t, quiet, true, true) {
                lemma_kinds_exclusive(self, 0, 4, f);
            }
            if self.ok_slider(2, f, t, quiet, true, false) {
                lemma_kinds_exclusive(self, 0, 2, f);
            }
            if self.ok_slider(3, f, t, quiet, false, true) {
                lemma_kinds_exclusive(self, 0, 3, f);
            }
            assert(!self.ok_pawn(f, t, quiet));
        }
    }
}

} // verus!
