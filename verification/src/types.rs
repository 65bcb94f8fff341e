//! Core value types shared across the whole engine: colors, pieces, squares,
//! step directions and packed moves.

use vstd::prelude::*;
use crate::geometry;
use crate::text;
use std::ops::Not;

verus! {

// ---------------------------------------------------------------------------
// Color
// ---------------------------------------------------------------------------

/// The side to move, or the owner of a piece.
#[derive(Clone, Copy, PartialEq, Eq, Debug, Hash, Structural)]
pub enum Color {
    White,
    Black,
}

impl Color {
    /// Number of colors, handy for sizing arrays.
    pub const NUM: usize = 2;

    /// White is 0, Black is 1.
    pub open spec fn index_spec(self) -> usize {
        match self {
            Color::White => 0,
            Color::Black => 1,
        }
    }

    /// Use as an array index.
    #[verifier::when_used_as_spec(index_spec)]
    pub fn index(self) -> (r: usize)
        ensures
            r == self.index_spec(),
    {
        match self {
            Color::White => 0,
            Color::Black => 1,
        }
    }

    /// The other color.
    pub open spec fn flip_spec(self) -> Color {
        match self {
            Color::White => Color::Black,
            Color::Black => Color::White,
        }
    }

    /// The opposite color.
    #[verifier::when_used_as_spec(flip_spec)]
    pub fn flip(self) -> (r: Color)
        ensures
            r == self.flip_spec(),
    {
        match self {
            Color::White => Color::Black,
            Color::Black => Color::White,
        }
    }

    /// The rank step of a pawn of this color: White pushes up, Black down.
    pub open spec fn forward(self) -> int {
        match self {
            Color::White => 1,
            Color::Black => -1,
        }
    }
}

impl Not for Color {
    type Output = Color;

    fn not(self) -> (r: Color) {
        self.flip()
    }
}

impl vstd::std_specs::ops::NotSpecImpl for Color {
    open spec fn obeys_not_spec() -> bool {
        true
    }

    open spec fn not_req(self) -> bool {
        true
    }

    open spec fn not_spec(self) -> Color {
        self.flip_spec()
    }
}

// ---------------------------------------------------------------------------
// PieceType
// ---------------------------------------------------------------------------

/// Pawn to king, without a color.
#[derive(Clone, Copy, PartialEq, Eq, Debug, Hash, Structural)]
pub enum PieceType {
    Pawn,
    Knight,
    Bishop,
    Rook,
    Queen,
    King,
}

impl PieceType {
    /// Number of piece types.
    pub const NUM: usize = 6;

    /// Every piece type, in the order of their indices.
    pub fn all() -> (r: [PieceType; 6])
        ensures
            r@ == seq![
                PieceType::Pawn,
                PieceType::Knight,
                PieceType::Bishop,
                PieceType::Rook,
                PieceType::Queen,
                PieceType::King,
            ],
    {
        let r: [PieceType; 6] = [
            PieceType::Pawn,
            PieceType::Knight,
            PieceType::Bishop,
            PieceType::Rook,
            PieceType::Queen,
            PieceType::King,
        ];
        assert(r@ =~= seq![
            PieceType::Pawn,
            PieceType::Knight,
            PieceType::Bishop,
            PieceType::Rook,
            PieceType::Queen,
            PieceType::King,
        ]);
        r
    }

    /// Pawn is 0, and so on up to the king, which is 5.
    pub open spec fn index_spec(self) -> usize {
        match self {
            PieceType::Pawn => 0,
            PieceType::Knight => 1,
            PieceType::Bishop => 2,
            PieceType::Rook => 3,
            PieceType::Queen => 4,
            PieceType::King => 5,
        }
    }

    /// Use as an array index.
    #[verifier::when_used_as_spec(index_spec)]
    pub fn index(self) -> (r: usize)
        ensures
            r == self.index_spec(),
            r < 6,
    {
        match self {
            PieceType::Pawn => 0,
            PieceType::Knight => 1,
            PieceType::Bishop => 2,
            PieceType::Rook => 3,
            PieceType::Queen => 4,
            PieceType::King => 5,
        }
    }

    /// The piece type with the given index.
    pub fn from_index(i: usize) -> (r: Option<PieceType>)
        ensures
            r is Some <==> i < 6,
            r matches Some(pt) ==> pt.index() == i,
    {
        if i == 0 {
            Some(PieceType::Pawn)
        } else if i == 1 {
            Some(PieceType::Knight)
        } else if i == 2 {
            Some(PieceType::Bishop)
        } else if i == 3 {
            Some(PieceType::Rook)
        } else if i == 4 {
            Some(PieceType::Queen)
        } else if i == 5 {
            Some(PieceType::King)
        } else {
            None
        }
    }
}

// ---------------------------------------------------------------------------
// Piece
// ---------------------------------------------------------------------------

/// A colored piece. The board mailbox stores `Option<Piece>`, so a `Piece` is
/// always a real piece.
#[derive(Clone, Copy, PartialEq, Eq, Debug, Hash, Structural)]
pub struct Piece {
    pub color: Color,
    pub piece_type: PieceType,
}

impl Piece {
    /// The piece of the given color and type.
    pub fn new(color: Color, piece_type: PieceType) -> (r: Piece)
        ensures
            r == (Piece { color, piece_type }),
    {
        Piece { color, piece_type }
    }

    /// White pieces are 0..6, black pieces 6..12.
    pub open spec fn index_spec(self) -> usize {
        (self.color.index() * 6 + self.piece_type.index()) as usize
    }

    /// A dense 0..12 index: white pieces 0..6, black pieces 6..12.
    #[verifier::when_used_as_spec(index_spec)]
    pub fn index(self) -> (r: usize)
        ensures
            r == self.index_spec(),
            r == self.color.index() * 6 + self.piece_type.index(),
            r < 12,
    {
        self.color.index() * PieceType::NUM + self.piece_type.index()
    }

    /// The letter of a piece: uppercase for White, lowercase for Black.
    pub open spec fn to_char_spec(self) -> char {
        match (self.color, self.piece_type) {
            (Color::White, PieceType::Pawn) => 'P',
            (Color::White, PieceType::Knight) => 'N',
            (Color::White, PieceType::Bishop) => 'B',
            (Color::White, PieceType::Rook) => 'R',
            (Color::White, PieceType::Queen) => 'Q',
            (Color::White, PieceType::King) => 'K',
            (Color::Black, PieceType::Pawn) => 'p',
            (Color::Black, PieceType::Knight) => 'n',
            (Color::Black, PieceType::Bishop) => 'b',
            (Color::Black, PieceType::Rook) => 'r',
            (Color::Black, PieceType::Queen) => 'q',
            (Color::Black, PieceType::King) => 'k',
        }
    }

    /// The FEN character for this piece (uppercase = white, lowercase = black).
    #[verifier::when_used_as_spec(to_char_spec)]
    pub fn to_char(self) -> (r: char)
        ensures
            r == self.to_char_spec(),
    {
        match self.color {
            Color::White => match self.piece_type {
                PieceType::Pawn => 'P',
                PieceType::Knight => 'N',
                PieceType::Bishop => 'B',
                PieceType::Rook => 'R',
                PieceType::Queen => 'Q',
                PieceType::King => 'K',
            },
            Color::Black => match self.piece_type {
                PieceType::Pawn => 'p',
                PieceType::Knight => 'n',
                PieceType::Bishop => 'b',
                PieceType::Rook => 'r',
                PieceType::Queen => 'q',
                PieceType::King => 'k',
            },
        }
    }

    /// Whether `c` is one of the twelve piece letters.
    pub open spec fn is_letter(c: char) -> bool {
        exists|p: Piece| #[trigger] p.to_char() == c
    }

    /// Parse a FEN piece character (e.g. `N` = white knight, `q` = black queen).
    /// Succeeds exactly on the twelve letters that `to_char` produces, and
    /// inverts it there.
    pub fn from_char(c: char) -> (r: Option<Piece>)
        ensures
            r is Some <==> Piece::is_letter(c),
            r matches Some(p) ==> p.to_char() == c,
            forall|p: Piece| #[trigger] p.to_char() == c ==> r == Some(p),
    {
        let color: Color = if c == 'P' || c == 'N' || c == 'B' || c == 'R' || c == 'Q'
            || c == 'K' {
            Color::White
        } else {
            Color::Black
        };
        let piece_type: PieceType = if c == 'p' || c == 'P' {
            PieceType::Pawn
        } else if c == 'n' || c == 'N' {
            PieceType::Knight
        } else if c == 'b' || c == 'B' {
            PieceType::Bishop
        } else if c == 'r' || c == 'R' {
            PieceType::Rook
        } else if c == 'q' || c == 'Q' {
            PieceType::Queen
        } else if c == 'k' || c == 'K' {
            PieceType::King
        } else {
            return None;
        };
        let piece = Piece { color, piece_type };
        assert(piece.to_char() == c);
        Some(piece)
    }

    /// The FEN character, as a string.
    pub fn to_string(&self) -> (r: String)
        ensures
            r@ == seq![self.to_char()],
    {
        let mut r: String = String::new();
        r.push(self.to_char());
        assert(r@ =~= seq![self.to_char()]);
        r
    }
}

// ---------------------------------------------------------------------------
// Square
// ---------------------------------------------------------------------------

/// One of the 64 board squares, 0 = a1 .. 63 = h8 (rank-major).
#[derive(Clone, Copy, PartialEq, Eq, PartialOrd, Ord, Debug, Hash, Structural)]
pub struct Square(pub u8);

/// The raw indices of all 64 squares (rank-major: a1..h1, a2..h2, ...).
impl Square {
    pub const A1: u8 = 0;
    pub const B1: u8 = 1;
    pub const C1: u8 = 2;
    pub const D1: u8 = 3;
    pub const E1: u8 = 4;
    pub const F1: u8 = 5;
    pub const G1: u8 = 6;
    pub const H1: u8 = 7;
    pub const A2: u8 = 8;
    pub const B2: u8 = 9;
    pub const C2: u8 = 10;
    pub const D2: u8 = 11;
    pub const E2: u8 = 12;
    pub const F2: u8 = 13;
    pub const G2: u8 = 14;
    pub const H2: u8 = 15;
    pub const A3: u8 = 16;
    pub const B3: u8 = 17;
    pub const C3: u8 = 18;
    pub const D3: u8 = 19;
    pub const E3: u8 = 20;
    pub const F3: u8 = 21;
    pub const G3: u8 = 22;
    pub const H3: u8 = 23;
    pub const A4: u8 = 24;
    pub const B4: u8 = 25;
    pub const C4: u8 = 26;
    pub const D4: u8 = 27;
    pub const E4: u8 = 28;
    pub const F4: u8 = 29;
    pub const G4: u8 = 30;
    pub const H4: u8 = 31;
    pub const A5: u8 = 32;
    pub const B5: u8 = 33;
    pub const C5: u8 = 34;
    pub const D5: u8 = 35;
    pub const E5: u8 = 36;
    pub const F5: u8 = 37;
    pub const G5: u8 = 38;
    pub const H5: u8 = 39;
    pub const A6: u8 = 40;
    pub const B6: u8 = 41;
    pub const C6: u8 = 42;
    pub const D6: u8 = 43;
    pub const E6: u8 = 44;
    pub const F6: u8 = 45;
    pub const G6: u8 = 46;
    pub const H6: u8 = 47;
    pub const A7: u8 = 48;
    pub const B7: u8 = 49;
    pub const C7: u8 = 50;
    pub const D7: u8 = 51;
    pub const E7: u8 = 52;
    pub const F7: u8 = 53;
    pub const G7: u8 = 54;
    pub const H7: u8 = 55;
    pub const A8: u8 = 56;
    pub const B8: u8 = 57;
    pub const C8: u8 = 58;
    pub const D8: u8 = 59;
    pub const E8: u8 = 60;
    pub const F8: u8 = 61;
    pub const G8: u8 = 62;
    pub const H8: u8 = 63;
}

impl Square {
    /// Number of squares.
    pub const NUM: usize = 64;

    /// The index is one of the 64 board squares.
    pub open spec fn valid(self) -> bool {
        self.0 < 64
    }

    /// Build a square from file (0..7) and rank (0..7).
    pub fn make(file: u8, rank: u8) -> (r: Square)
        ensures
            r.0 == (rank << 3u8) | file,
            file < 8 && rank < 8 ==> r.0 == rank * 8 + file,
    {
        assert(file < 8 && rank < 8 ==> (rank << 3u8) | file == rank * 8 + file) by (bit_vector);
        Square((rank << 3u8) | file)
    }

    /// Build a square from a raw 0..63 index, checking the range.
    pub fn from_index(i: usize) -> (r: Option<Square>)
        ensures
            i < 64 ==> r == Some(Square(i as u8)),
            i >= 64 ==> r is None,
    {
        if i < 64 {
            Some(Square(i as u8))
        } else {
            None
        }
    }

    pub open spec fn index_spec(self) -> usize {
        self.0 as usize
    }

    /// Use as an array index.
    #[verifier::when_used_as_spec(index_spec)]
    pub fn index(self) -> (r: usize)
        ensures
            r == self.0,
    {
        self.0 as usize
    }

    pub open spec fn file_spec(self) -> u8 {
        self.0 % 8
    }

    /// File 0..7 (a..h).
    #[verifier::when_used_as_spec(file_spec)]
    pub fn file(self) -> (r: u8)
        ensures
            r == self.0 % 8,
    {
        assert(forall|x: u8| #[trigger] (x & 7) == x % 8) by (bit_vector);
        self.0 & 7
    }

    pub open spec fn rank_spec(self) -> u8 {
        self.0 / 8
    }

    /// Rank 0..7 (1..8).
    #[verifier::when_used_as_spec(rank_spec)]
    pub fn rank(self) -> (r: u8)
        ensures
            r == self.0 / 8,
    {
        assert(forall|x: u8| #[trigger] (x >> 3u8) == x / 8) by (bit_vector);
        self.0 >> 3u8
    }

    pub open spec fn flip_rank_spec(self) -> Square {
        Square(self.0 ^ 56)
    }

    /// Mirroring vertically keeps the file and reverses the ranks.
    pub proof fn lemma_flip_rank(self)
        requires
            self.valid(),
        ensures
            self.flip_rank_spec().0 == (7 - self.rank()) * 8 + self.file(),
    {
        let x: u8 = self.0;
        assert(x < 64 ==> (x ^ 56u8) == (7 - x / 8) * 8 + x % 8) by (bit_vector);
    }

    /// Mirror vertically (a1 <-> a8). Used to view the board from Black's side.
    #[verifier::when_used_as_spec(flip_rank_spec)]
    pub fn flip_rank(self) -> (r: Square)
        ensures
            r == self.flip_rank_spec(),
            self.valid() ==> r.0 == (7 - self.rank()) * 8 + self.file(),
    {
        proof {
            if self.valid() {
                self.lemma_flip_rank();
            }
        }
        Square(self.0 ^ 56)
    }

    pub open spec fn flip_file_spec(self) -> Square {
        Square(self.0 ^ 7)
    }

    /// Mirror horizontally (a1 <-> h1).
    #[verifier::when_used_as_spec(flip_file_spec)]
    pub fn flip_file(self) -> (r: Square)
        ensures
            r == self.flip_file_spec(),
            self.valid() ==> r.0 == self.rank() * 8 + (7 - self.file()),
    {
        let x: u8 = self.0;
        assert(x < 64 ==> (x ^ 7u8) == (x / 8) * 8 + (7 - x % 8)) by (bit_vector);
        Square(self.0 ^ 7)
    }

    /// One step in direction `d`, or `None` if that would leave the board.
    pub fn offset(self, d: Direction) -> (r: Option<Square>)
        requires
            self.valid(),
        ensures
            r is Some <==> geometry::valid(
                geometry::file(self.0 as int) + d.df(),
                geometry::rank(self.0 as int) + d.dr(),
            ),
            r matches Some(s) ==> s.valid() && geometry::file(s.0 as int) == geometry::file(
                self.0 as int,
            ) + d.df() && geometry::rank(s.0 as int) == geometry::rank(self.0 as int) + d.dr(),
    {
        let target: i8 = self.0 as i8 + d.delta();
        if target < 0 || target >= 64 {
            return None;
        }
        let target: u8 = target as u8;
        // A single step never changes the file by more than one column.
        let df: i8 = Square(target).file() as i8 - self.file() as i8;
        if df > 2 || df < -2 {
            None
        } else {
            Some(Square(target))
        }
    }

    /// The name of a square: its file letter and its rank digit.
    pub open spec fn name(self) -> Seq<char> {
        seq![(97 + self.file()) as char, (49 + self.rank()) as char]
    }

    /// Algebraic notation, e.g. "e4".
    pub fn to_string(&self) -> (r: String)
        ensures
            r@ == self.name(),
    {
        let mut r: String = String::new();
        r.push((97 + self.file()) as char);
        r.push((49 + self.rank()) as char);
        assert(r@ =~= self.name());
        r
    }
}

/// Mirroring twice changes nothing.
pub proof fn law_mirrors_undo_themselves(c: Color, sq: Square)
    ensures
        c.flip().flip() == c,
        sq.flip_rank().flip_rank() == sq,
        sq.flip_file().flip_file() == sq,
{
    let x: u8 = sq.0;
    assert((x ^ 56) ^ 56 == x && (x ^ 7) ^ 7 == x) by (bit_vector);
}

// ---------------------------------------------------------------------------
// Direction
// ---------------------------------------------------------------------------

/// A step on the board, also used to shift bitboards.
#[derive(Clone, Copy, PartialEq, Eq, Debug, Structural)]
pub enum Direction {
    North,
    South,
    East,
    West,
    NorthEast,
    NorthWest,
    SouthEast,
    SouthWest,
}

impl Direction {
    /// The change of file.
    pub open spec fn df(self) -> int {
        match self {
            Direction::North | Direction::South => 0,
            Direction::East | Direction::NorthEast | Direction::SouthEast => 1,
            Direction::West | Direction::NorthWest | Direction::SouthWest => -1,
        }
    }

    /// The change of rank.
    pub open spec fn dr(self) -> int {
        match self {
            Direction::East | Direction::West => 0,
            Direction::North | Direction::NorthEast | Direction::NorthWest => 1,
            Direction::South | Direction::SouthEast | Direction::SouthWest => -1,
        }
    }

    /// The change of square index.
    pub fn delta(self) -> (r: i8)
        ensures
            r == self.dr() * 8 + self.df(),
    {
        match self {
            Direction::North => 8,
            Direction::South => -8,
            Direction::East => 1,
            Direction::West => -1,
            Direction::NorthEast => 9,
            Direction::NorthWest => 7,
            Direction::SouthEast => -7,
            Direction::SouthWest => -9,
        }
    }
}

// ---------------------------------------------------------------------------
// Move
// ---------------------------------------------------------------------------

/// The kind of a move.
#[derive(Clone, Copy, PartialEq, Eq, Debug, Structural)]
pub enum MoveType {
    Normal,
    Promotion,
    EnPassant,
    Castling,
}

impl MoveType {
    /// The two-bit code of a move type.
    pub open spec fn code_spec(self) -> u16 {
        match self {
            MoveType::Normal => 0,
            MoveType::Promotion => 1,
            MoveType::EnPassant => 2,
            MoveType::Castling => 3,
        }
    }

    /// The two-bit code of a move type.
    #[verifier::when_used_as_spec(code_spec)]
    pub fn code(self) -> (r: u16)
        ensures
            r == self.code_spec(),
    {
        match self {
            MoveType::Normal => 0,
            MoveType::Promotion => 1,
            MoveType::EnPassant => 2,
            MoveType::Castling => 3,
        }
    }
}

/// A packed 16-bit move.
///
/// * bits  0..6  : destination square (0..63)
/// * bits  6..12 : origin square (0..63)
/// * bits 12..14 : promotion piece: 0 = Knight, 1 = Bishop, 2 = Rook, 3 = Queen
/// * bits 14..16 : move type: 0 = Normal, 1 = Promotion, 2 = EnPassant, 3 = Castling
#[derive(Clone, Copy, PartialEq, Eq, Hash, Structural)]
pub struct Move(u16);

impl Move {
    pub closed spec fn raw_spec(self) -> u16 {
        self.0
    }

    /// The raw 16-bit encoding.
    #[verifier::when_used_as_spec(raw_spec)]
    pub fn raw(self) -> (r: u16)
        ensures
            r == self.raw_spec(),
    {
        self.0
    }

    /// The move with the given encoding.
    pub closed spec fn of_raw(raw: u16) -> Move {
        Move(raw)
    }

    /// The destination square.
    pub open spec fn to_sq_spec(self) -> Square {
        Square((self.raw() % 64) as u8)
    }

    /// The origin square.
    pub open spec fn from_sq_spec(self) -> Square {
        Square((self.raw() / 64 % 64) as u8)
    }

    /// The move type.
    pub open spec fn move_type_spec(self) -> MoveType {
        let code = self.raw() / 16384;
        if code == 0 {
            MoveType::Normal
        } else if code == 1 {
            MoveType::Promotion
        } else if code == 2 {
            MoveType::EnPassant
        } else {
            MoveType::Castling
        }
    }

    /// The piece that a promotion produces.
    pub open spec fn promotion_type_spec(self) -> PieceType {
        let code = self.raw() / 4096 % 4;
        if code == 0 {
            PieceType::Knight
        } else if code == 1 {
            PieceType::Bishop
        } else if code == 2 {
            PieceType::Rook
        } else {
            PieceType::Queen
        }
    }

    /// The encoding of a move from its parts.
    pub open spec fn encoding(from: Square, to: Square, promo_code: u16, ty: MoveType) -> u16 {
        (to.0 as u16) | ((from.0 as u16) << 6u16) | (promo_code << 12u16) | (ty.code() << 14u16)
    }

    /// The parts of an encoded move can be read back, and they determine it.
    pub proof fn lemma_parts(from: Square, to: Square, promo_code: u16, ty: MoveType)
        requires
            from.valid(),
            to.valid(),
            promo_code < 4,
        ensures
            ({
                let m = Move::of_raw(Move::encoding(from, to, promo_code, ty));
                &&& m.raw() == to.0 + 64 * from.0 + 4096 * promo_code + 16384 * ty.code()
                &&& m.raw() == Move::encoding(from, to, promo_code, ty)
                &&& m.to_sq() == to
                &&& m.from_sq() == from
                &&& m.move_type() == ty
                &&& m.promotion_type().index() == promo_code + 1
            }),
    {
        let t: u16 = to.0 as u16;
        let f: u16 = from.0 as u16;
        let c: u16 = ty.code();
        let x: u16 = Move::encoding(from, to, promo_code, ty);
        assert(x == t + 64 * f + 4096 * promo_code + 16384 * c && x % 64 == t && x / 64 % 64 == f
            && x / 4096 % 4 == promo_code && x / 16384 == c) by (bit_vector)
            requires
                x == t | (f << 6u16) | (promo_code << 12u16) | (c << 14u16),
                t < 64,
                f < 64,
                promo_code < 4,
                c < 4,
        ;
    }

    /// A move is determined by its four parts.
    pub proof fn lemma_ext(a: Move, b: Move)
        requires
            a.from_sq() == b.from_sq(),
            a.to_sq() == b.to_sq(),
            a.move_type() == b.move_type(),
            a.promotion_type() == b.promotion_type(),
        ensures
            a == b,
    {
        assert(a.raw() == b.raw());
    }

    fn encode(from: Square, to: Square, promo_code: u16, ty: MoveType) -> (r: Move)
        ensures
            r == Move::of_raw(Move::encoding(from, to, promo_code, ty)),
    {
        Move(
            (to.0 as u16) | ((from.0 as u16) << 6u16) | (promo_code << 12u16) | (ty.code()
                << 14u16),
        )
    }

    pub open spec fn none_spec() -> Move {
        Move::of_raw(0)
    }

    /// The "no move" sentinel (from == to == a1).
    #[verifier::when_used_as_spec(none_spec)]
    pub fn none() -> (r: Move)
        ensures
            r == Move::none_spec(),
            r.raw() == 0,
            r.from_sq().0 == Square::A1 && r.to_sq().0 == Square::A1,
    {
        Move(0)
    }

    /// The null move (a distinct impossible move; from == to == b1).
    pub fn null() -> (r: Move)
        ensures
            r.raw() == 65,
            r.from_sq().0 == Square::B1 && r.to_sq().0 == Square::B1,
    {
        Move(65)
    }

    pub open spec fn normal_spec(from: Square, to: Square) -> Move {
        Move::of_raw(Move::encoding(from, to, 0, MoveType::Normal))
    }

    /// A normal (non-special) move.
    #[verifier::when_used_as_spec(normal_spec)]
    pub fn normal(from: Square, to: Square) -> (r: Move)
        ensures
            r == Move::normal_spec(from, to),
            r.raw() == Move::encoding(from, to, 0, MoveType::Normal),
            from.valid() && to.valid() ==> r.from_sq() == from && r.to_sq() == to && r.move_type()
                == MoveType::Normal,
    {
        proof {
            if from.valid() && to.valid() {
                Move::lemma_parts(from, to, 0, MoveType::Normal);
            }
        }
        Move::encode(from, to, 0, MoveType::Normal)
    }

    pub open spec fn promotion_spec(from: Square, to: Square, promo: PieceType) -> Move {
        Move::of_raw(
            Move::encoding(from, to, (promo.index() - 1) as u16, MoveType::Promotion),
        )
    }

    /// A promotion move; `promo` must be Knight, Bishop, Rook or Queen.
    #[verifier::when_used_as_spec(promotion_spec)]
    pub fn promotion(from: Square, to: Square, promo: PieceType) -> (r: Move)
        requires
            promo != PieceType::Pawn,
            promo != PieceType::King,
        ensures
            r == Move::promotion_spec(from, to, promo),
            r.raw() == Move::encoding(
                from,
                to,
                (promo.index() - 1) as u16,
                MoveType::Promotion,
            ),
            from.valid() && to.valid() ==> r.from_sq() == from && r.to_sq() == to && r.move_type()
                == MoveType::Promotion && r.promotion_type() == promo,
    {
        proof {
            if from.valid() && to.valid() {
                Move::lemma_parts(from, to, (promo.index() - 1) as u16, MoveType::Promotion);
            }
        }
        Move::encode(from, to, promo.index() as u16 - 1, MoveType::Promotion)
    }

    pub open spec fn en_passant_spec(from: Square, to: Square) -> Move {
        Move::of_raw(Move::encoding(from, to, 0, MoveType::EnPassant))
    }

    /// An en-passant capture; `to` is the square the capturing pawn lands on.
    #[verifier::when_used_as_spec(en_passant_spec)]
    pub fn en_passant(from: Square, to: Square) -> (r: Move)
        ensures
            r == Move::en_passant_spec(from, to),
            r.raw() == Move::encoding(from, to, 0, MoveType::EnPassant),
            from.valid() && to.valid() ==> r.from_sq() == from && r.to_sq() == to && r.move_type()
                == MoveType::EnPassant,
    {
        proof {
            if from.valid() && to.valid() {
                Move::lemma_parts(from, to, 0, MoveType::EnPassant);
            }
        }
        Move::encode(from, to, 0, MoveType::EnPassant)
    }

    pub open spec fn castling_spec(from: Square, rook: Square) -> Move {
        Move::of_raw(Move::encoding(from, rook, 0, MoveType::Castling))
    }

    /// Castling, encoded as "king moves to the rook's square".
    #[verifier::when_used_as_spec(castling_spec)]
    pub fn castling(from: Square, rook: Square) -> (r: Move)
        ensures
            r == Move::castling_spec(from, rook),
            r.raw() == Move::encoding(from, rook, 0, MoveType::Castling),
            from.valid() && rook.valid() ==> r.from_sq() == from && r.to_sq() == rook
                && r.move_type() == MoveType::Castling,
    {
        proof {
            if from.valid() && rook.valid() {
                Move::lemma_parts(from, rook, 0, MoveType::Castling);
            }
        }
        Move::encode(from, rook, 0, MoveType::Castling)
    }

    /// The destination square (for castling, the rook's square).
    #[verifier::when_used_as_spec(to_sq_spec)]
    pub fn to_sq(self) -> (r: Square)
        ensures
            r == self.to_sq_spec(),
            r.valid(),
    {
        let x: u16 = self.0;
        assert(x & 0x3f == x % 64) by (bit_vector);
        Square((self.0 & 0x3f) as u8)
    }

    /// The origin square.
    #[verifier::when_used_as_spec(from_sq_spec)]
    pub fn from_sq(self) -> (r: Square)
        ensures
            r == self.from_sq_spec(),
            r.valid(),
    {
        let x: u16 = self.0;
        assert((x >> 6u16) & 0x3f == x / 64 % 64) by (bit_vector);
        Square(((self.0 >> 6u16) & 0x3f) as u8)
    }

    /// The kind of move.
    #[verifier::when_used_as_spec(move_type_spec)]
    pub fn move_type(self) -> (r: MoveType)
        ensures
            r == self.move_type_spec(),
    {
        let x: u16 = self.0;
        assert((x >> 14u16) & 3 == x / 16384) by (bit_vector);
        let code: u16 = (self.0 >> 14u16) & 3;
        if code == 0 {
            MoveType::Normal
        } else if code == 1 {
            MoveType::Promotion
        } else if code == 2 {
            MoveType::EnPassant
        } else {
            MoveType::Castling
        }
    }

    /// The promotion piece type, only meaningful when the move is a promotion.
    #[verifier::when_used_as_spec(promotion_type_spec)]
    pub fn promotion_type(self) -> (r: PieceType)
        ensures
            r == self.promotion_type_spec(),
            r != PieceType::Pawn && r != PieceType::King,
    {
        let x: u16 = self.0;
        assert((x >> 12u16) & 3 == x / 4096 % 4) by (bit_vector);
        let code: usize = ((self.0 >> 12u16) & 3) as usize;
        match PieceType::from_index(code + 1) {
            Some(pt) => pt,
            None => PieceType::Knight,
        }
    }

    /// Whether this is the "no move" sentinel.
    pub fn is_none(self) -> (r: bool)
        ensures
            r == (self.raw() == 0),
    {
        self.0 == 0
    }

    /// Where the moving piece lands: for castling, the king's target on the g- or
    /// c-file; for any other move, the destination square.
    pub open spec fn landing(self) -> Square {
        if self.move_type() == MoveType::Castling {
            Square(
                (self.from_sq().rank() * 8 + if self.to_sq().file() > self.from_sq().file() {
                    6int
                } else {
                    2int
                }) as u8,
            )
        } else {
            self.to_sq()
        }
    }

    /// The UCI notation of a move.
    pub open spec fn notation(self) -> Seq<char> {
        if self.raw() == 0 {
            "0000"@
        } else {
            self.from_sq().name() + self.landing().name() + if self.move_type()
                == MoveType::Promotion {
                seq![
                    Piece { color: Color::Black, piece_type: self.promotion_type() }.to_char(),
                ]
            } else {
                Seq::empty()
            }
        }
    }

    /// UCI long-algebraic notation, e.g. "e2e4", "e7e8q", or "e1g1" (castling).
    pub fn to_string(&self) -> (r: String)
        ensures
            r@ == self.notation(),
    {
        let mut r: String = String::new();
        if self.is_none() {
            text::push_text(&mut r, "0000");
            assert(r@ =~= "0000"@);
            return r;
        }
        let from: Square = self.from_sq();
        // Castling is stored king -> rook; the notation wants the king's landing
        // square (g-file for O-O, c-file for O-O-O).
        let to: Square = if self.move_type() == MoveType::Castling {
            let king_to_file: u8 = if self.to_sq().file() > from.file() {
                6
            } else {
                2
            };
            Square::make(king_to_file, from.rank())
        } else {
            self.to_sq()
        };
        text::push_text(&mut r, from.to_string().as_str());
        text::push_text(&mut r, to.to_string().as_str());
        if self.move_type() == MoveType::Promotion {
            r.push(Piece::new(Color::Black, self.promotion_type()).to_char());
        }
        assert(r@ =~= self.notation());
        r
    }

    /// The text that `{:?}` prints: `Move(..)` around the notation.
    pub fn debug_string(&self) -> (r: String)
        ensures
            r@ == "Move("@ + self.notation() + ")"@,
    {
        let mut r: String = String::new();
        text::push_text(&mut r, "Move(");
        text::push_text(&mut r, self.to_string().as_str());
        text::push_text(&mut r, ")");
        assert(r@ =~= "Move("@ + self.notation() + ")"@);
        r
    }
}

/// Prints [`Move::debug_string`].
impl core::fmt::Debug for Move {
    fn fmt(&self, f: &mut core::fmt::Formatter<'_>) -> (r: Result<(), core::fmt::Error>) {
        f.write_str(self.debug_string().as_str())
    }
}

// ---------------------------------------------------------------------------
// What the encoding and the notation of a move say.
// ---------------------------------------------------------------------------

/// The encoding of a move, as a number: the destination, 64 times the origin, 4096
/// times the number of the promotion piece from knight to queen, and 16384 times
/// the number of the kind, which is 0 for a normal move, 1 for a promotion, 2 for
/// en passant and 3 for castling.
pub proof fn law_move_encoding(from: Square, to: Square)
    requires
        from.0 < 64,
        to.0 < 64,
    ensures
        Move::normal(from, to).raw() == to.0 + 64 * from.0,
        Move::promotion(from, to, PieceType::Knight).raw() == to.0 + 64 * from.0 + 16384,
        Move::promotion(from, to, PieceType::Bishop).raw() == to.0 + 64 * from.0 + 20480,
        Move::promotion(from, to, PieceType::Rook).raw() == to.0 + 64 * from.0 + 24576,
        Move::promotion(from, to, PieceType::Queen).raw() == to.0 + 64 * from.0 + 28672,
        Move::en_passant(from, to).raw() == to.0 + 64 * from.0 + 32768,
        Move::castling(from, to).raw() == to.0 + 64 * from.0 + 49152,
{
    Move::lemma_parts(from, to, 0, MoveType::Normal);
    Move::lemma_parts(from, to, 0, MoveType::Promotion);
    Move::lemma_parts(from, to, 1, MoveType::Promotion);
    Move::lemma_parts(from, to, 2, MoveType::Promotion);
    Move::lemma_parts(from, to, 3, MoveType::Promotion);
    Move::lemma_parts(from, to, 0, MoveType::EnPassant);
    Move::lemma_parts(from, to, 0, MoveType::Castling);
}

/// The notation of a move names the origin and the square that the piece lands on,
/// each by the letter of its file and the digit of its rank, and the promotion
/// piece by its small letter. A king that castles lands on the g- or the c-file,
/// on the rook's side. No move is four zeros.
pub proof fn law_move_notation(m: Move)
    ensures
        ({
            let f = m.from_sq().0 as int;
            let t = m.to_sq().0 as int;
            let text = m.notation();
            let file = if m.move_type() == MoveType::Castling {
                if t % 8 > f % 8 {
                    6
                } else {
                    2
                }
            } else {
                t % 8
            };
            let rank = if m.move_type() == MoveType::Castling {
                f / 8
            } else {
                t / 8
            };
            &&& m.raw() == 0 ==> text == seq!['0', '0', '0', '0']
            &&& m.raw() != 0 ==> {
                &&& text.len() == (if m.move_type() == MoveType::Promotion {
                    5int
                } else {
                    4int
                })
                &&& text[0] as int == 'a' as int + f % 8
                &&& text[1] as int == '1' as int + f / 8
                &&& text[2] as int == 'a' as int + file
                &&& text[3] as int == '1' as int + rank
                &&& m.move_type() == MoveType::Promotion ==> text[4] == (match m.promotion_type() {
                    PieceType::Knight => 'n',
                    PieceType::Bishop => 'b',
                    PieceType::Rook => 'r',
                    _ => 'q',
                })
            }
        }),
{
    reveal_strlit("0000");
    assert("0000"@ =~= seq!['0', '0', '0', '0']);
}

/// A move's kind, squares and promotion piece are read off its encoding as they
/// were put in.
pub proof fn law_move_parts(m: Move)
    ensures
        m.raw() as int == m.to_sq().0 + 64 * m.from_sq().0 + 4096 * (match m.promotion_type() {
            PieceType::Knight => 0int,
            PieceType::Bishop => 1int,
            PieceType::Rook => 2int,
            _ => 3int,
        }) + 16384 * (match m.move_type() {
            MoveType::Normal => 0int,
            MoveType::Promotion => 1int,
            MoveType::EnPassant => 2int,
            MoveType::Castling => 3int,
        }),
        m.to_sq().0 < 64,
        m.from_sq().0 < 64,
{
}

} // verus!
