//! Piece and piece-type encoding: a piece is a color bit and a 3-bit type.

use vstd::prelude::*;

use crate::util::Color;

verus! {

/// The six piece types with their 3-bit encodings.
#[allow(non_camel_case_types)]
#[derive(PartialEq, Eq, Structural, Clone, Copy, Debug)]
pub enum PieceTypes {
    PAWN,
    KNIGHT,
    BISHOP,
    ROOK,
    QUEEN,
    KING,
}

/// The 3-bit encoding of each piece type.
pub open spec fn spec_piece_type_bits(t: PieceTypes) -> u8 {
    match t {
        PieceTypes::PAWN => 0b000,
        PieceTypes::KNIGHT => 0b001,
        PieceTypes::BISHOP => 0b010,
        PieceTypes::ROOK => 0b011,
        PieceTypes::QUEEN => 0b100,
        PieceTypes::KING => 0b101,
    }
}

impl PieceTypes {
    /// The 3-bit value of this piece type.
    pub fn bits(&self) -> (r: u8)
        ensures
            r == spec_piece_type_bits(*self),
    {
        match self {
            PieceTypes::PAWN => 0b000,
            PieceTypes::KNIGHT => 0b001,
            PieceTypes::BISHOP => 0b010,
            PieceTypes::ROOK => 0b011,
            PieceTypes::QUEEN => 0b100,
            PieceTypes::KING => 0b101,
        }
    }
}

/// A piece: bit 3 holds the color, bits 0..3 the piece type.
#[derive(PartialEq, Eq, Structural, Copy, Clone, Debug)]
pub struct Piece(u8);

impl Piece {
    /// The encoding holds a real color bit and one of the six piece types.
    pub closed spec fn wf(&self) -> bool {
        self.0 & 0b111 <= 5 && self.0 >> 3u8 <= 1
    }

    /// The color encoded in bit 3.
    pub closed spec fn spec_color(&self) -> Color {
        if self.0 >> 3u8 == 0 {
            Color::White
        } else {
            Color::Black
        }
    }

    /// The piece-type bits.
    pub closed spec fn spec_type_bits(&self) -> u8 {
        self.0 & 0b111
    }

    /// Index of this piece's bitboard: white pieces 0..6, black pieces 6..12.
    pub open spec fn spec_index(&self) -> int {
        if self.spec_color() == Color::White {
            self.spec_type_bits() as int
        } else {
            self.spec_type_bits() + 6
        }
    }

    /// Builds the piece with the given color and type.
    pub fn new(color: Color, piece_type: PieceTypes) -> (p: Piece)
        ensures
            p.wf(),
            p.spec_color() == color,
            p.spec_type_bits() == spec_piece_type_bits(piece_type),
    {
        let c: u8 = match color {
            Color::White => 0,
            Color::Black => 1,
        };
        let b = piece_type.bits();
        let p = Piece((c << 3u8) | b);
        proof {
            assert(c <= 1 && b <= 5 ==> (((c << 3u8) | b) & 0b111 == b && ((c << 3u8) | b) >> 3u8
                == c)) by (bit_vector);
        }
        p
    }

    /// The piece denoted by the given character in board notation, upper case
    /// for white and lower case for black.
    pub fn from_char(ch: char) -> (r: Option<Piece>)
        ensures
            r is Some ==> r.unwrap().wf(),
            r is Some <==> spec_piece_char_type(ch) is Some,
            r is Some ==> r.unwrap().spec_type_bits() == spec_piece_type_bits(
                spec_piece_char_type(ch).unwrap(),
            ) && r.unwrap().spec_color() == spec_piece_char_color(ch),
    {
        match ch {
            'P' => Some(Piece::new(Color::White, PieceTypes::PAWN)),
            'N' => Some(Piece::new(Color::White, PieceTypes::KNIGHT)),
            'B' => Some(Piece::new(Color::White, PieceTypes::BISHOP)),
            'R' => Some(Piece::new(Color::White, PieceTypes::ROOK)),
            'Q' => Some(Piece::new(Color::White, PieceTypes::QUEEN)),
            'K' => Some(Piece::new(Color::White, PieceTypes::KING)),
            'p' => Some(Piece::new(Color::Black, PieceTypes::PAWN)),
            'n' => Some(Piece::new(Color::Black, PieceTypes::KNIGHT)),
            'b' => Some(Piece::new(Color::Black, PieceTypes::BISHOP)),
            'r' => Some(Piece::new(Color::Black, PieceTypes::ROOK)),
            'q' => Some(Piece::new(Color::Black, PieceTypes::QUEEN)),
            'k' => Some(Piece::new(Color::Black, PieceTypes::KING)),
            _ => None,
        }
    }

    /// The color of this piece.
    pub fn get_color(&self) -> (r: Color)
        requires
            self.wf(),
        ensures
            r == self.spec_color(),
    {
        if self.0 >> 3u8 == 0 {
            Color::White
        } else {
            Color::Black
        }
    }

    /// Index of this piece's bitboard in a position: white pieces use 0..6,
    /// black pieces 6..12, ordered pawn, knight, bishop, rook, queen, king.
    pub fn get_index(&self) -> (r: usize)
        requires
            self.wf(),
        ensures
            r == self.spec_index(),
            r < 12,
    {
        let piece_type = self.0 & 0b111;
        proof {
            let x = self.0;
            assert(x & 0b111 < 8) by (bit_vector);
        }
        match self.get_color() {
            Color::White => piece_type as usize,
            Color::Black => (piece_type + 6) as usize,
        }
    }
}

/// Which piece type, if any, the given notation character denotes.
pub open spec fn spec_piece_char_type(ch: char) -> Option<PieceTypes> {
    if ch == 'P' || ch == 'p' {
        Some(PieceTypes::PAWN)
    } else if ch == 'N' || ch == 'n' {
        Some(PieceTypes::KNIGHT)
    } else if ch == 'B' || ch == 'b' {
        Some(PieceTypes::BISHOP)
    } else if ch == 'R' || ch == 'r' {
        Some(PieceTypes::ROOK)
    } else if ch == 'Q' || ch == 'q' {
        Some(PieceTypes::QUEEN)
    } else if ch == 'K' || ch == 'k' {
        Some(PieceTypes::KING)
    } else {
        None
    }
}

/// The color a notation character denotes: upper case is white.
pub open spec fn spec_piece_char_color(ch: char) -> Color {
    if ch == 'P' || ch == 'N' || ch == 'B' || ch == 'R' || ch == 'Q' || ch == 'K' {
        Color::White
    } else {
        Color::Black
    }
}

/// The twelve notation characters in bitboard-index order.
pub const PIECE_CHARS: [char; 12] = ['P', 'N', 'B', 'R', 'Q', 'K', 'p', 'n', 'b', 'r', 'q', 'k'];

} // verus!

verus! {

/// Two well-formed encodings with equal type bits and equal color are equal.
pub proof fn lemma_piece_encoding(a: Piece, b: Piece)
    requires
        a.wf(),
        b.wf(),
        a.spec_index() == b.spec_index(),
    ensures
        a == b,
{
    let x = a.0;
    let y = b.0;
    assert((x & 0b111 <= 5 && x >> 3u8 <= 1 && y & 0b111 <= 5 && y >> 3u8 <= 1) ==> ((x >> 3u8 == y
        >> 3u8 && x & 0b111 == y & 0b111) ==> x == y)) by (bit_vector);
}

} // verus!
