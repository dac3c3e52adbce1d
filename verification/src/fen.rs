//! Board-state record produced from the six-field board notation, and the
//! notation parsers that fill it.

use vstd::prelude::*;

use crate::castling_rights::CastlingRights;
use crate::piece::Piece;
use crate::util::Color;

verus! {

pub type Squares = [Option<Piece>; 64];

pub type EnPassantSquare = Option<u8>;

pub type HalfMoveClock = usize;

pub type FullMoveNumber = usize;

/// A full board state: piece placement, active color, castling rights,
/// en-passant target square, halfmove clock and fullmove number.
pub struct BoardState(
    pub Squares,
    pub Color,
    pub CastlingRights,
    pub EnPassantSquare,
    pub HalfMoveClock,
    pub FullMoveNumber,
);

/// The square index that a two-character algebraic square name denotes, if
/// the name is well formed.
pub open spec fn spec_san_to_int(s: Seq<char>) -> Option<u8> {
    if s.len() == 2 && 'a' <= s[0] <= 'h' && '1' <= s[1] <= '8' {
        Some((((s[1] as u8) - ('1' as u8)) * 8 + ((s[0] as u8) - ('a' as u8))) as u8)
    } else {
        None
    }
}

/// Translates the algebraic name of a square ("a1" to "h8") to the
/// corresponding index (0-63); any other string yields `None`.
pub fn san_to_int(san: &str) -> (r: Option<u8>)
    ensures
        r == spec_san_to_int(san@),
        r is Some ==> r.unwrap() < 64,
{
    if san.unicode_len() != 2 {
        return None;
    }
    let file = san.get_char(0);
    let rank = san.get_char(1);
    if file < 'a' || file > 'h' || rank < '1' || rank > '8' {
        return None;
    }
    let file_value = (file as u8) - ('a' as u8);
    let rank_value = (rank as u8) - ('1' as u8);
    Some(rank_value * 8 + file_value)
}

} // verus!

use vstd::string::StrSliceExecFns;

use crate::castling_rights::{
    BLACK_KING_SIDE, BLACK_QUEEN_SIDE, WHITE_KING_SIDE, WHITE_QUEEN_SIDE,
};
use vstd::array::ArrayAdditionalExecFns;

verus! {

/// Translates six-field board notation to a full board state. The notation
/// text is the external collaborator's input: it is validated dynamically,
/// and every stored piece is a well-formed encoding.
pub fn parse_fen(fen: &str) -> (r: Result<BoardState, &'static str>)
    ensures
        r is Ok ==> forall|i: int|
            0 <= i < 64 && (#[trigger] r.unwrap().0@[i]) is Some ==> r.unwrap().0@[i].unwrap().wf(),
        r is Ok ==> (r.unwrap().3 is Some ==> r.unwrap().3.unwrap() < 64),
{
    if !fen.is_ascii() {
        return Err("Invalid piece placement in FEN");
    }
    let bytes = fen.as_bytes();
    let n = bytes.len();
    let mut mailbox: [Option<Piece>; 64] = [None;64];
    let mut castling_rights = CastlingRights::empty();
    let mut i: usize = 0;

    // Field 1: piece placement, ranks from the eighth down, separated by '/'.
    let mut rank_idx: usize = 0;
    let mut file_idx: usize = 0;
    while i < n && bytes[i] != 32
        invariant
            i <= n,
            n == bytes@.len(),
            rank_idx <= 7,
            file_idx <= 8,
            forall|k: int|
                0 <= k < 64 && (#[trigger] mailbox@[k]) is Some ==> mailbox@[k].unwrap().wf(),
        decreases n - i,
    {
        let c = bytes[i];
        if c == 47 {
            // '/': next rank down.
            if rank_idx >= 7 {
                return Err("Invalid piece placement in FEN");
            }
            rank_idx = rank_idx + 1;
            file_idx = 0;
        } else if 49 <= c && c <= 56 {
            // '1'..='8': that many empty squares.
            file_idx = file_idx + ((c - 48) as usize);
            if file_idx > 8 {
                return Err("Invalid piece placement in FEN");
            }
        } else {
            if file_idx > 7 {
                return Err("Invalid piece placement in FEN");
            }
            match Piece::from_char(c as char) {
                Some(piece) => {
                    mailbox.set((7 - rank_idx) * 8 + file_idx, Some(piece));
                    file_idx = file_idx + 1;
                },
                None => {
                    return Err("Invalid piece placement in FEN");
                },
            }
        }
        i = i + 1;
    }
    if i >= n {
        return Err("Invalid active color in FEN");
    }
    i = i + 1;

    // Field 2: active color.
    if i >= n {
        return Err("Invalid active color in FEN");
    }
    let active_color = if bytes[i] == 119 {
        Color::White
    } else if bytes[i] == 98 {
        Color::Black
    } else {
        return Err("Invalid active color in FEN");
    };
    i = i + 1;
    if i >= n || bytes[i] != 32 {
        return Err("Invalid castling rights in FEN");
    }
    i = i + 1;

    // Field 3: castling rights.
    while i < n && bytes[i] != 32
        invariant
            i <= n,
            n == bytes@.len(),
        decreases n - i,
    {
        let c = bytes[i];
        if c == 45 {
            // '-': no castling rights.
        } else if c == 81 {
            castling_rights.insert(WHITE_QUEEN_SIDE);
        } else if c == 75 {
            castling_rights.insert(WHITE_KING_SIDE);
        } else if c == 113 {
            castling_rights.insert(BLACK_QUEEN_SIDE);
        } else if c == 107 {
            castling_rights.insert(BLACK_KING_SIDE);
        } else {
            return Err("Invalid castling rights in FEN");
        }
        i = i + 1;
    }
    if i >= n {
        return Err("Invalid halfmove clock in FEN");
    }
    i = i + 1;

    // Field 4: en-passant target square, or '-'.
    let ep_start = i;
    while i < n && bytes[i] != 32
        invariant
            ep_start <= i <= n,
            n == bytes@.len(),
        decreases n - i,
    {
        i = i + 1;
    }
    let en_passant_square: Option<u8> = if i - ep_start == 1 && bytes[ep_start] == 45 {
        None
    } else {
        proof {
            vstd::string::is_ascii_spec_bytes(fen);
        }
        let field = fen.substring_ascii(ep_start, i);
        san_to_int(field)
    };
    if i >= n {
        return Err("Invalid halfmove clock in FEN");
    }
    i = i + 1;

    // Field 5: halfmove clock.
    let mut halfmove_clock: usize = 0;
    let hm_start = i;
    while i < n && bytes[i] != 32
        invariant
            hm_start <= i <= n,
            n == bytes@.len(),
            halfmove_clock < 100000000,
        decreases n - i,
    {
        let c = bytes[i];
        if c < 48 || c > 57 {
            return Err("Invalid halfmove clock in FEN");
        }
        if halfmove_clock >= 10000000 {
            return Err("Invalid halfmove clock in FEN");
        }
        halfmove_clock = halfmove_clock * 10 + ((c - 48) as usize);
        i = i + 1;
    }
    if i == hm_start {
        return Err("Invalid halfmove clock in FEN");
    }
    if i >= n {
        return Err("Invalid fullmove number in FEN");
    }
    i = i + 1;

    // Field 6: fullmove number.
    let mut fullmove_number: usize = 0;
    let fm_start = i;
    while i < n
        invariant
            fm_start <= i <= n,
            n == bytes@.len(),
            fullmove_number < 100000000,
        decreases n - i,
    {
        let c = bytes[i];
        if c < 48 || c > 57 {
            return Err("Invalid fullmove number in FEN");
        }
        if fullmove_number >= 10000000 {
            return Err("Invalid fullmove number in FEN");
        }
        fullmove_number = fullmove_number * 10 + ((c - 48) as usize);
        i = i + 1;
    }
    if i == fm_start {
        return Err("Invalid fullmove number in FEN");
    }

    Ok(
        BoardState(
            mailbox,
            active_color,
            castling_rights,
            en_passant_square,
            halfmove_clock,
            fullmove_number,
        ),
    )
}

} // verus!
