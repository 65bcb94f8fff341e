//! The board: a full chess position, with make and undo of moves.
//!
//! A position keeps three views of where the pieces are, all in step:
//!
//! * a **mailbox** for "what is on this square?" lookups,
//! * **occupancy bitboards per color** for "all white pieces" queries,
//! * **occupancy bitboards per piece type** for "all rooks" queries.
//!
//! The hash is maintained incrementally: every piece that comes or goes XORs its
//! key in or out, and side, castling and en-passant changes are folded in as they
//! happen. `compute_key` recomputes the same value from scratch.

use vstd::prelude::*;
use crate::attacks::{bishop_attacks, king_attacks, knight_attacks, pawn_attacks, rook_attacks};
use crate::bitboard;
use crate::bitboard::Bitboard;
use crate::geometry;
use crate::state;
use crate::state::State;
use crate::types::{Color, Move, MoveType, Piece, PieceType, Square};
use crate::zobrist;

verus! {

broadcast use bitboard::group_bitboard;

/// White may castle king-side (short, O-O).
pub const WHITE_OO: u8 = 1;

/// White may castle queen-side (long, O-O-O).
pub const WHITE_OOO: u8 = 2;

/// Black may castle king-side (short, O-O).
pub const BLACK_OO: u8 = 4;

/// Black may castle queen-side (long, O-O-O).
pub const BLACK_OOO: u8 = 8;

/// The information needed to reverse a move: the pieces and state it destroyed
/// that cannot be recovered from the move alone.
#[derive(Clone, Copy, PartialEq, Eq, Debug, Structural)]
pub struct Undo {
    /// The piece captured by the move (including the pawn removed by en passant),
    /// or `None` if the move was not a capture.
    pub captured: Option<Piece>,
    /// The castling rights *before* the move.
    pub castling_rights: u8,
    /// The en-passant square *before* the move.
    pub en_passant: Option<Square>,
    /// The halfmove clock *before* the move.
    pub halfmove_clock: u16,
    /// The hash *before* the move.
    pub key: u64,
}

impl Undo {
    /// The rights are a mask of the four rights, and the target is a square.
    pub open spec fn valid(self) -> bool {
        self.castling_rights < 16 && (self.en_passant matches Some(q) ==> q.valid())
    }
}

/// A complete chess position: piece placement plus all the state the rules of
/// chess need (side to move, castling rights, en-passant square, move clocks)
/// and a hash of the whole thing.
#[derive(Clone, Copy)]
pub struct Position {
    /// Mailbox: what piece (if any) sits on each square.
    board: [Option<Piece>; 64],
    /// Occupancy per color, indexed by `Color::index()`.
    by_color: [Bitboard; 2],
    /// Occupancy per piece type, indexed by `PieceType::index()`.
    by_type: [Bitboard; 6],
    /// Whose turn it is.
    side_to_move: Color,
    /// Castling rights, as a mask.
    castling_rights: u8,
    /// The square a pawn could be captured on by en passant (the target square
    /// behind a pawn that just made a double push), or `None`.
    en_passant: Option<Square>,
    /// Plies since the last capture or pawn move (for the 50-move rule).
    halfmove_clock: u16,
    /// The move number, incremented after each Black move; starts at 1.
    fullmove_number: u16,
    /// The hash of this position, maintained incrementally.
    key: u64,
}

impl View for Position {
    type V = State;

    closed spec fn view(&self) -> State {
        State {
            board: self.board@,
            side: self.side_to_move,
            castling: self.castling_rights,
            ep: self.en_passant,
            half: self.halfmove_clock,
            full: self.fullmove_number,
        }
    }
}

impl Position {
    /// The occupancy bitboards agree with the mailbox.
    pub closed spec fn synced(self) -> bool {
        &&& forall|c: Color|
            #![trigger c.index_spec()]
            self.by_color@[c.index_spec() as int]@ == self@.of_color(c)
        &&& forall|pt: PieceType|
            #![trigger pt.index_spec()]
            self.by_type@[pt.index_spec() as int]@ == self@.of_type(pt)
    }

    /// The position is valid and its three views of the board agree.
    pub open spec fn wf(self) -> bool {
        self@.valid() && self.synced()
    }

    pub closed spec fn key_spec(&self) -> u64 {
        self.key
    }

    /// How far the maintained hash is off the hash of the position.
    pub open spec fn drift(self) -> u64 {
        self.key_spec() ^ self@.hash()
    }

    /// The maintained hash is the hash of the position.
    pub open spec fn keyed(self) -> bool {
        self.key_spec() == self@.hash()
    }

    /// The hash is right exactly if it has not drifted.
    pub proof fn lemma_drift(self)
        ensures
            self.keyed() <==> self.drift() == 0,
    {
        let a = self.key_spec();
        let b = self@.hash();
        assert(a ^ b == 0 <==> a == b) by (bit_vector);
    }

    /// A position is determined by its view and its hash.
    pub proof fn lemma_ext(a: Position, b: Position)
        requires
            a.wf(),
            b.wf(),
            a@ == b@,
            a.key_spec() == b.key_spec(),
        ensures
            a == b,
    {
        assert forall|i: int| 0 <= i < 2 implies a.by_color@[i] == b.by_color@[i] by {
            let c = if i == 0 {
                Color::White
            } else {
                Color::Black
            };
            assert(c.index_spec() == i);
            bitboard::lemma_ext(a.by_color@[i], b.by_color@[i]);
        }
        assert forall|i: int| 0 <= i < 6 implies a.by_type@[i] == b.by_type@[i] by {
            let pt = if i == 0 {
                PieceType::Pawn
            } else if i == 1 {
                PieceType::Knight
            } else if i == 2 {
                PieceType::Bishop
            } else if i == 3 {
                PieceType::Rook
            } else if i == 4 {
                PieceType::Queen
            } else {
                PieceType::King
            };
            assert(pt.index_spec() == i);
            bitboard::lemma_ext(a.by_type@[i], b.by_type@[i]);
        }
        assert(a.board =~= b.board);
        assert(a.by_color =~= b.by_color);
        assert(a.by_type =~= b.by_type);
    }

    // -----------------------------------------------------------------------
    // Construction.
    // -----------------------------------------------------------------------
    /// An empty board with White to move and no rights. Its hash is still to be
    /// folded in.
    pub(crate) fn empty() -> (r: Position)
        ensures
            r.wf(),
            r@ == (State {
                board: Seq::new(64, |i: int| None),
                side: Color::White,
                castling: 0,
                ep: None,
                half: 0,
                full: 1,
            }),
            r.key_spec() == state::board_hash(r@.board, 64),
    {
        let r = Position {
            board: [None;64],
            by_color: [Bitboard(0);2],
            by_type: [Bitboard(0);6],
            side_to_move: Color::White,
            castling_rights: 0,
            en_passant: None,
            halfmove_clock: 0,
            fullmove_number: 1,
            key: 0,
        };
        proof {
            bitboard::lemma_empty();
            assert(r.board@ =~= Seq::new(64, |i: int| None));
            state::lemma_empty_hash(r@.board, 64);
            assert forall|c: Color|
                #![trigger c.index_spec()]
                r.by_color@[c.index_spec() as int]@ == r@.of_color(c) by {
                assert(r@.of_color(c) =~= Set::<int>::empty());
            }
            assert forall|pt: PieceType|
                #![trigger pt.index_spec()]
                r.by_type@[pt.index_spec() as int]@ == r@.of_type(pt) by {
                assert(r@.of_type(pt) =~= Set::<int>::empty());
            }
        }
        r
    }

    /// Complete a position whose pieces stand but whose other fields are those of
    /// the empty board: set them, and fold them into the hash.
    pub(crate) fn complete(
        &mut self,
        side: Color,
        castling: u8,
        ep: Option<Square>,
        half: u16,
        full: u16,
    )
        requires
            old(self).wf(),
            old(self).key_spec() == state::board_hash(old(self)@.board, 64),
            castling < 16,
            ep matches Some(q) ==> q.valid(),
        ensures
            final(self).wf(),
            final(self)@ == (State { board: old(self)@.board, side, castling, ep, half, full }),
            final(self).keyed(),
    {
        self.side_to_move = side;
        self.castling_rights = castling;
        self.en_passant = ep;
        self.halfmove_clock = half;
        self.fullmove_number = full;
        self.key = self.key ^ zobrist::castle(castling);
        proof {
            state::lemma_xor(self.key, 0, 0);
        }
        if let Some(ep_sq) = ep {
            self.key = self.key ^ zobrist::ep(ep_sq.file());
        }
        proof {
            state::lemma_xor(self.key, 0, 0);
        }
        if side == Color::Black {
            self.key = self.key ^ zobrist::side();
        }
        proof {
            lemma_synced_same(*old(self), *self);
        }
    }

    // -----------------------------------------------------------------------
    // Piece bookkeeping: the three board views and the hash, kept in step.
    // -----------------------------------------------------------------------
    /// Put `piece` on `sq`, which must be empty.
    pub(crate) fn add_piece(&mut self, sq: Square, piece: Piece)
        requires
            old(self).wf(),
            sq.valid(),
            old(self)@.at(sq) is None,
        ensures
            final(self).wf(),
            final(self)@ == (State {
                board: old(self)@.board.update(sq.0 as int, Some(piece)),
                ..old(self)@
            }),
            final(self).key_spec() == old(self).key_spec() ^ zobrist::piece(piece, sq),
            final(self).drift() == old(self).drift(),
            old(self).key_spec() == state::board_hash(old(self)@.board, 64)
                ==> final(self).key_spec() == state::board_hash(final(self)@.board, 64),
    {
        let c: usize = piece.color.index();
        let t: usize = piece.piece_type.index();
        self.board[sq.index()] = Some(piece);
        let mut of_color: Bitboard = self.by_color[c];
        of_color.set(sq);
        self.by_color[c] = of_color;
        let mut of_type: Bitboard = self.by_type[t];
        of_type.set(sq);
        self.by_type[t] = of_type;
        self.key = self.key ^ zobrist::piece(piece, sq);
        proof {
            lemma_added(*old(self), *self, sq, piece);
            lemma_hash_step(old(self)@, sq, Some(piece), old(self).key);
            state::lemma_board_hash_update(old(self)@.board, sq.0 as int, Some(piece), 64);
            state::lemma_xor(zobrist::piece(piece, sq), 0, 0);
            state::lemma_xor(state::board_hash(old(self)@.board, 64), 0, 0);
        }
    }

    /// Take the piece off `sq` (which must be occupied) and return it.
    fn remove_piece(&mut self, sq: Square) -> (r: Piece)
        requires
            old(self).wf(),
            sq.valid(),
            old(self)@.at(sq) is Some,
        ensures
            final(self).wf(),
            old(self)@.at(sq) == Some(r),
            final(self)@ == (State {
                board: old(self)@.board.update(sq.0 as int, None),
                ..old(self)@
            }),
            final(self).key_spec() == old(self).key_spec() ^ zobrist::piece(r, sq),
            final(self).drift() == old(self).drift(),
    {
        let piece: Piece = self.board[sq.index()].unwrap();
        let c: usize = piece.color.index();
        let t: usize = piece.piece_type.index();
        self.board[sq.index()] = None;
        let mut of_color: Bitboard = self.by_color[c];
        of_color.clear(sq);
        self.by_color[c] = of_color;
        let mut of_type: Bitboard = self.by_type[t];
        of_type.clear(sq);
        self.by_type[t] = of_type;
        self.key = self.key ^ zobrist::piece(piece, sq);
        proof {
            lemma_removed(*old(self), *self, sq, piece);
            lemma_hash_step(old(self)@, sq, None, old(self).key);
            state::lemma_xor(zobrist::piece(piece, sq), 0, 0);
        }
        piece
    }

    /// Move the piece on `from` to `to` (which must be empty).
    fn move_piece(&mut self, from: Square, to: Square)
        requires
            old(self).wf(),
            from.valid(),
            to.valid(),
            old(self)@.at(from) is Some,
            old(self)@.at(to) is None,
        ensures
            final(self).wf(),
            final(self)@ == (State {
                board: state::relocated(old(self)@.board, from, to),
                ..old(self)@
            }),
            final(self).drift() == old(self).drift(),
    {
        let piece: Piece = self.board[from.index()].unwrap();
        let c: usize = piece.color.index();
        let t: usize = piece.piece_type.index();
        self.board[from.index()] = None;
        self.board[to.index()] = Some(piece);
        let mask: Bitboard = Bitboard::from_square(from) | Bitboard::from_square(to);
        let of_color: Bitboard = self.by_color[c];
        let of_type: Bitboard = self.by_type[t];
        self.by_color[c] = of_color ^ mask;
        self.by_type[t] = of_type ^ mask;
        self.key = self.key ^ (zobrist::piece(piece, from) ^ zobrist::piece(piece, to));
        proof {
            let i = from.0 as int;
            let j = to.0 as int;
            assert(old(self).by_color@[piece.color.index_spec() as int]@ == old(self)@.of_color(
                piece.color,
            ));
            assert(old(self).by_type@[piece.piece_type.index_spec() as int]@ == old(
                self,
            )@.of_type(piece.piece_type));
            assert(Bitboard(of_color.0 ^ mask.0)@ =~= of_color@.remove(i).insert(j));
            assert(Bitboard(of_type.0 ^ mask.0)@ =~= of_type@.remove(i).insert(j));
            lemma_moved(*old(self), *self, from, to, piece);
            let x = zobrist::piece(piece, from);
            let y = zobrist::piece(piece, to);
            let halfway = State { board: old(self)@.board.update(i, None), ..old(self)@ };
            lemma_hash_step(old(self)@, from, None, old(self).key);
            lemma_hash_step(halfway, to, Some(piece), old(self).key ^ x);
            state::lemma_xor(x, 0, 0);
            state::lemma_xor(y, 0, 0);
            state::lemma_xor(old(self).key, x, y);
        }
    }

    // -----------------------------------------------------------------------
    // Accessors.
    // -----------------------------------------------------------------------
    /// Whose turn it is to move.
    pub fn side_to_move(&self) -> (r: Color)
        ensures
            r == self@.side,
    {
        self.side_to_move
    }

    /// The piece on `sq`, or `None` if the square is empty.
    pub fn piece_at(&self, sq: Square) -> (r: Option<Piece>)
        requires
            self.wf(),
            sq.valid(),
        ensures
            r == self@.at(sq),
    {
        self.board[sq.index()]
    }

    /// Every occupied square, regardless of color.
    pub fn occupied(&self) -> (r: Bitboard)
        requires
            self.wf(),
        ensures
            r@ == self@.occupied(),
    {
        let r: Bitboard = self.by_color[0] | self.by_color[1];
        proof {
            assert(self.by_color@[Color::White.index_spec() as int]@ == self@.of_color(
                Color::White,
            ));
            assert(self.by_color@[Color::Black.index_spec() as int]@ == self@.of_color(
                Color::Black,
            ));
            assert(r@ =~= self@.occupied());
        }
        r
    }

    /// All pieces of color `c`.
    pub fn pieces(&self, c: Color) -> (r: Bitboard)
        requires
            self.wf(),
        ensures
            r@ == self@.of_color(c),
    {
        self.by_color[c.index()]
    }

    /// All pieces of type `pt`, both colors.
    pub fn pieces_type(&self, pt: PieceType) -> (r: Bitboard)
        requires
            self.wf(),
        ensures
            r@ == self@.of_type(pt),
    {
        self.by_type[pt.index()]
    }

    /// All pieces of color `c` and type `pt` (e.g. the white rooks).
    pub fn pieces_cp(&self, c: Color, pt: PieceType) -> (r: Bitboard)
        requires
            self.wf(),
        ensures
            r@ == self@.of(c, pt),
    {
        let r: Bitboard = self.by_color[c.index()] & self.by_type[pt.index()];
        proof {
            assert(self.by_color@[c.index_spec() as int]@ == self@.of_color(c));
            assert(self.by_type@[pt.index_spec() as int]@ == self@.of_type(pt));
            assert(r@ =~= self@.of(c, pt));
        }
        r
    }

    /// Where color `c`'s king stands (on the lowest square, should there be more
    /// than one king).
    pub fn king_square(&self, c: Color) -> (r: Square)
        requires
            self.wf(),
            self@.has_king(c),
        ensures
            r.valid(),
            r.0 == self@.king(c),
            self@.at(r) == Some(Piece { color: c, piece_type: PieceType::King }),
    {
        let kings: Bitboard = self.pieces_cp(c, PieceType::King);
        proof {
            let i = choose|i: int| self@.holds(i, c, PieceType::King);
            assert(kings@.contains(i));
            bitboard::lemma_empty();
        }
        let r: Square = kings.lsb();
        proof {
            assert forall|i: int| #[trigger] self@.holds(i, c, PieceType::King) implies r.0 <= i by {
                assert(kings@.contains(i));
            }
            state::lemma_king(self@, c, r.0 as int);
        }
        r
    }

    /// The current castling-rights mask.
    pub fn castling_rights(&self) -> (r: u8)
        ensures
            r == self@.castling,
    {
        self.castling_rights
    }

    /// The current en-passant target square, if any.
    pub fn en_passant(&self) -> (r: Option<Square>)
        ensures
            r == self@.ep,
    {
        self.en_passant
    }

    /// The maintained hash of this position.
    #[verifier::when_used_as_spec(key_spec)]
    pub fn key(&self) -> (r: u64)
        ensures
            r == self.key_spec(),
    {
        self.key
    }

    /// Plies since the last capture or pawn move (the 50-move rule counter).
    pub fn halfmove_clock(&self) -> (r: u16)
        ensures
            r == self@.half,
    {
        self.halfmove_clock
    }

    /// The full-move number (increments after each Black move).
    pub fn fullmove_number(&self) -> (r: u16)
        ensures
            r == self@.full,
    {
        self.fullmove_number
    }

    // -----------------------------------------------------------------------
    // Attack queries.
    // -----------------------------------------------------------------------
    /// Every piece (both colors) that attacks `sq`, given the supplied `occupied`
    /// set (so callers can query attacks through a hypothetical occupancy).
    ///
    /// A square is attacked by a *white* pawn exactly when a *black* pawn placed
    /// on it would attack that pawn's square, so the pawn attacks are looked up
    /// from `sq` with the opposite color.
    pub fn attackers_to(&self, sq: Square, occupied: Bitboard) -> (r: Bitboard)
        requires
            self.wf(),
            sq.valid(),
        ensures
            r@ == self@.attackers(sq.0 as int, occupied@),
    {
        let pawns: Bitboard = self.pieces_type(PieceType::Pawn);
        let knights: Bitboard = self.pieces_type(PieceType::Knight);
        let kings: Bitboard = self.pieces_type(PieceType::King);
        let queens: Bitboard = self.pieces_type(PieceType::Queen);
        let bishops_queens: Bitboard = self.pieces_type(PieceType::Bishop) | queens;
        let rooks_queens: Bitboard = self.pieces_type(PieceType::Rook) | queens;

        let white_pawns: Bitboard = pawn_attacks(Color::Black, sq) & self.pieces(Color::White)
            & pawns;
        let black_pawns: Bitboard = pawn_attacks(Color::White, sq) & self.pieces(Color::Black)
            & pawns;

        let r: Bitboard = white_pawns | black_pawns | (knight_attacks(sq) & knights) | (
        king_attacks(sq) & kings) | (bishop_attacks(sq, occupied) & bishops_queens) | (
        rook_attacks(sq, occupied) & rooks_queens);
        proof {
            let t = sq.0 as int;
            assert forall|s: int| #[trigger] r@.contains(s) == self@.attackers(
                t,
                occupied@,
            ).contains(s) by {
                geometry::lemma_between_symmetric(s, t);
            }
            assert(r@ =~= self@.attackers(t, occupied@));
        }
        r
    }

    /// Is `sq` attacked by any piece of color `by`, on the current board?
    pub fn is_attacked(&self, sq: Square, by: Color) -> (r: bool)
        requires
            self.wf(),
            sq.valid(),
        ensures
            r == self@.attacked(sq.0 as int, by),
    {
        let attackers: Bitboard = self.attackers_to(sq, self.occupied()) & self.pieces(by);
        proof {
            let t = sq.0 as int;
            bitboard::lemma_empty();
            if self@.attacked(t, by) {
                let s = choose|s: int|
                    #![trigger self@.board[s]]
                    geometry::on_board(s) && (self@.board[s] matches Some(p) && p.color == by
                        && geometry::attacks(p, s, t, self@.occupied()));
                assert(attackers@.contains(s));
            }
            assert forall|s: int| #[trigger] attackers@.contains(s) implies self@.attacked(t, by) by {
                assert(self@.board[s] is Some);
            }
        }
        attackers.any()
    }

    /// Is the side-to-move's king currently attacked (i.e. in check)?
    pub fn in_check(&self) -> (r: bool)
        requires
            self.wf(),
            self@.has_king(self@.side),
        ensures
            r == self@.checked(self@.side),
    {
        let us: Color = self.side_to_move;
        self.is_attacked(self.king_square(us), us.flip())
    }

    // -----------------------------------------------------------------------
    // The hash from scratch.
    // -----------------------------------------------------------------------
    /// Recompute the hash from scratch.
    pub fn compute_key(&self) -> (r: u64)
        requires
            self.wf(),
        ensures
            r == self@.hash(),
    {
        let mut key: u64 = 0;
        let mut i: u8 = 0;
        while i < 64
            invariant
                self.wf(),
                i <= 64,
                key == state::board_hash(self@.board, i as int),
            decreases 64 - i,
        {
            let sq: Square = Square(i);
            proof {
                state::lemma_xor(key, 0, 0);
            }
            if let Some(piece) = self.board[sq.index()] {
                key = key ^ zobrist::piece(piece, sq);
            }
            i = i + 1;
        }
        key = key ^ zobrist::castle(self.castling_rights);
        proof {
            state::lemma_xor(key, 0, 0);
        }
        if let Some(ep_sq) = self.en_passant {
            key = key ^ zobrist::ep(ep_sq.file());
        }
        proof {
            state::lemma_xor(key, 0, 0);
        }
        if self.side_to_move == Color::Black {
            key = key ^ zobrist::side();
        }
        key
    }

    // -----------------------------------------------------------------------
    // make / undo.
    // -----------------------------------------------------------------------
    /// Forget the en-passant target.
    fn clear_en_passant(&mut self)
        requires
            old(self).wf(),
        ensures
            final(self).wf(),
            final(self)@ == (State { ep: None, ..old(self)@ }),
            final(self).drift() == old(self).drift(),
    {
        proof {
            state::lemma_xor(self.key, 0, 0);
            state::lemma_xor(self.key ^ state::ep_hash(self.en_passant), 0, 0);
            lemma_hash_ep(self@, State { ep: None, ..self@ }, self.key);
        }
        if let Some(ep_sq) = self.en_passant {
            self.key = self.key ^ zobrist::ep(ep_sq.file());
        }
        self.en_passant = None;
        proof {
            lemma_synced_same(*old(self), *self);
        }
    }

    /// Set the en-passant target, where there was none.
    fn set_en_passant(&mut self, sq: Square)
        requires
            old(self).wf(),
            old(self)@.ep is None,
            sq.valid(),
        ensures
            final(self).wf(),
            final(self)@ == (State { ep: Some(sq), ..old(self)@ }),
            final(self).drift() == old(self).drift(),
    {
        proof {
            state::lemma_xor(self.key, 0, 0);
            lemma_hash_ep(self@, State { ep: Some(sq), ..self@ }, self.key);
        }
        self.en_passant = Some(sq);
        self.key = self.key ^ zobrist::ep(sq.file());
        proof {
            lemma_synced_same(*old(self), *self);
        }
    }

    /// Keep only the castling rights in `mask`.
    fn restrict_castling(&mut self, mask: u8)
        requires
            old(self).wf(),
            old(self)@.castling & mask < 16,
        ensures
            final(self).wf(),
            final(self)@ == (State { castling: old(self)@.castling & mask, ..old(self)@ }),
            final(self).drift() == old(self).drift(),
    {
        self.key = self.key ^ zobrist::castle(self.castling_rights);
        self.castling_rights = self.castling_rights & mask;
        self.key = self.key ^ zobrist::castle(self.castling_rights);
        proof {
            lemma_hash_castle(old(self)@, self@, old(self).key);
            lemma_synced_same(*old(self), *self);
        }
    }

    /// Hand over the turn, counting the full moves.
    fn flip_side(&mut self)
        requires
            old(self).wf(),
            old(self)@.side == Color::Black ==> old(self)@.full < u16::MAX,
        ensures
            final(self).wf(),
            final(self)@ == (State {
                side: old(self)@.side.flip(),
                full: if old(self)@.side == Color::Black {
                    (old(self)@.full + 1) as u16
                } else {
                    old(self)@.full
                },
                ..old(self)@
            }),
            final(self).drift() == old(self).drift(),
    {
        // The fullmove number bumps after Black completes a move.
        if self.side_to_move == Color::Black {
            self.fullmove_number = self.fullmove_number + 1;
        }
        self.side_to_move = self.side_to_move.flip();
        self.key = self.key ^ zobrist::side();
        proof {
            lemma_hash_side(old(self)@, self@, old(self).key);
            lemma_synced_same(*old(self), *self);
        }
    }

    /// Set the halfmove clock.
    fn set_halfmove_clock(&mut self, clock: u16)
        requires
            old(self).wf(),
        ensures
            final(self).wf(),
            final(self)@ == (State { half: clock, ..old(self)@ }),
            final(self).drift() == old(self).drift(),
    {
        self.halfmove_clock = clock;
        proof {
            lemma_synced_same(*old(self), *self);
        }
    }

    /// Carry out a move on the board alone, and return what it captured.
    fn displace(&mut self, m: Move) -> (r: Option<Piece>)
        requires
            old(self).wf(),
            old(self)@.movable(m),
        ensures
            final(self).wf(),
            final(self)@ == (State { board: old(self)@.board_after(m), ..old(self)@ }),
            final(self).drift() == old(self).drift(),
            r == old(self)@.captured(m),
    {
        let from: Square = m.from_sq();
        let to: Square = m.to_sq();  // the rook's square for castling
        let mut captured: Option<Piece> = None;
        match m.move_type() {
            MoveType::Castling => {
                let (king_to, rook_to) = castling_targets(from, to);
                self.move_piece(from, king_to);
                self.move_piece(to, rook_to);
            },
            MoveType::EnPassant => {
                // The captured pawn is directly behind the target from the mover's
                // perspective (same file as `to`, same rank as `from`).
                let cap_sq: Square = Square::make(to.file(), from.rank());
                captured = Some(self.remove_piece(cap_sq));
                self.move_piece(from, to);
            },
            MoveType::Promotion => {
                if self.board[to.index()].is_some() {
                    captured = Some(self.remove_piece(to));
                }
                // Replace the pawn with the promoted piece.
                self.remove_piece(from);
                self.add_piece(to, Piece::new(self.side_to_move, m.promotion_type()));
            },
            MoveType::Normal => {
                if self.board[to.index()].is_some() {
                    captured = Some(self.remove_piece(to));
                }
                self.move_piece(from, to);
            },
        }
        proof {
            assert(self@.board =~= old(self)@.board_after(m));
        }
        captured
    }

    /// Apply a move, returning the [`Undo`] needed to reverse it.
    ///
    /// Handles all move kinds: normal moves and captures, double pawn pushes
    /// (which set the en-passant target), en-passant captures (which remove the
    /// captured pawn from *behind* the target square), castling (moving both the
    /// king and rook), and promotions. A hash that is right stays right.
    pub fn make_move(&mut self, m: Move) -> (r: Undo)
        requires
            old(self).wf(),
            old(self)@.movable(m),
            old(self)@.clocks_fit(m),
        ensures
            final(self).wf(),
            final(self)@ == old(self)@.make(m),
            final(self).drift() == old(self).drift(),
            old(self).keyed() ==> final(self).keyed(),
            old(self)@.remembers(m, r),
            r.key == old(self).key(),
            r.valid(),
    {
        let from: Square = m.from_sq();
        let to: Square = m.to_sq();
        let undo: Undo = Undo {
            captured: None,
            castling_rights: self.castling_rights,
            en_passant: self.en_passant,
            halfmove_clock: self.halfmove_clock,
            key: self.key,
        };

        // The moving piece (read before the board changes).
        let moving: Piece = self.board[from.index()].unwrap();
        self.clear_en_passant();
        let captured: Option<Piece> = self.displace(m);

        // A double pawn push exposes an en-passant target on the square it jumped
        // over.
        if m.move_type() == MoveType::Normal && moving.piece_type == PieceType::Pawn {
            let from_rank: u8 = from.rank();
            let to_rank: u8 = to.rank();
            if to_rank == from_rank + 2 || from_rank == to_rank + 2 {
                self.set_en_passant(Square::make(from.file(), (from_rank + to_rank) / 2));
            }
        }

        // Castling rights: revoked on king or rook departure or rook capture.
        proof {
            state::lemma_make_valid(old(self)@, m);
            let r: u8 = old(self)@.castling;
            let a: u8 = state::castling_mask_spec(from);
            let b: u8 = state::castling_mask_spec(to);
            assert(r < 16 ==> r & a < 16) by (bit_vector);
        }
        self.restrict_castling(castling_mask(from));
        self.restrict_castling(castling_mask(to));

        // 50-move clock: reset on a pawn move or any capture.
        if moving.piece_type == PieceType::Pawn || captured.is_some() {
            self.set_halfmove_clock(0);
        } else {
            self.set_halfmove_clock(self.halfmove_clock + 1);
        }
        self.flip_side();
        proof {
            assert(self@ =~= old(self)@.make(m));
            old(self).lemma_drift();
            self.lemma_drift();
        }
        Undo { captured, ..undo }
    }

    /// Reverse a [`make_move`](Position::make_move). `m` must be the exact move
    /// that was made and `undo` the value it returned; the position is restored
    /// exactly, including its hash.
    pub fn undo_move(&mut self, m: Move, undo: Undo)
        requires
            old(self).wf(),
            undo.valid(),
            old(self)@.unmovable(m, undo.captured),
            old(self)@.side == Color::White ==> old(self)@.full > 0,
        ensures
            final(self).wf(),
            final(self)@ == old(self)@.unmake(m, undo),
            final(self).key() == undo.key,
    {
        // The side that made the move is the opposite of the current one.
        let us: Color = self.side_to_move.flip();
        let from: Square = m.from_sq();
        let to: Square = m.to_sq();  // the rook's square for castling
        match m.move_type() {
            MoveType::Castling => {
                let (king_to, rook_to) = castling_targets(from, to);
                self.move_piece(king_to, from);
                self.move_piece(rook_to, to);
            },
            MoveType::EnPassant => {
                // Put the moving pawn back, then restore the captured pawn on the
                // square it actually stood on.
                self.move_piece(to, from);
                let cap_sq: Square = Square::make(to.file(), from.rank());
                self.add_piece(cap_sq, undo.captured.unwrap());
            },
            MoveType::Promotion => {
                // Remove the promoted piece and restore the pawn on `from`.
                self.remove_piece(to);
                self.add_piece(from, Piece::new(us, PieceType::Pawn));
                if let Some(captured) = undo.captured {
                    self.add_piece(to, captured);
                }
            },
            MoveType::Normal => {
                self.move_piece(to, from);
                if let Some(captured) = undo.captured {
                    self.add_piece(to, captured);
                }
            },
        }
        proof {
            assert(self@.board =~= old(self)@.board_before(m, undo.captured));
        }
        let ghost before = *self;
        self.side_to_move = us;
        self.castling_rights = undo.castling_rights;
        self.en_passant = undo.en_passant;
        self.halfmove_clock = undo.halfmove_clock;
        if us == Color::Black {
            self.fullmove_number = self.fullmove_number - 1;
        }
        self.key = undo.key;
        proof {
            lemma_synced_same(before, *self);
            assert(self@ =~= old(self)@.unmake(m, undo));
        }
    }

    // -----------------------------------------------------------------------
    // Null move: "pass the turn" without moving a piece.
    // -----------------------------------------------------------------------
    /// Hand the turn to the opponent without moving any piece, returning the
    /// [`Undo`] needed to reverse it.
    ///
    /// The en-passant right is cleared, the side to move flips, the clocks
    /// advance, and a hash that is right stays right.
    pub fn make_null_move(&mut self) -> (r: Undo)
        requires
            old(self).wf(),
            old(self)@.half < u16::MAX,
            old(self)@.side == Color::Black ==> old(self)@.full < u16::MAX,
        ensures
            final(self).wf(),
            final(self)@ == old(self)@.pass(),
            final(self).drift() == old(self).drift(),
            old(self).keyed() ==> final(self).keyed(),
            r == (Undo {
                captured: None,
                castling_rights: old(self)@.castling,
                en_passant: old(self)@.ep,
                halfmove_clock: old(self)@.half,
                key: old(self).key(),
            }),
    {
        let undo: Undo = Undo {
            captured: None,
            castling_rights: self.castling_rights,
            en_passant: self.en_passant,
            halfmove_clock: self.halfmove_clock,
            key: self.key,
        };
        self.clear_en_passant();
        // A passed turn is reversible: bump the 50-move clock.
        self.set_halfmove_clock(self.halfmove_clock + 1);
        self.flip_side();
        proof {
            old(self).lemma_drift();
            self.lemma_drift();
        }
        undo
    }

    /// Reverse a [`make_null_move`](Position::make_null_move), restoring the side
    /// to move, en-passant square, clocks and hash from the snapshot in `undo`.
    pub fn undo_null_move(&mut self, undo: Undo)
        requires
            old(self).wf(),
            undo.valid(),
            old(self)@.side == Color::White ==> old(self)@.full > 0,
        ensures
            final(self).wf(),
            final(self)@ == old(self)@.unpass(undo),
            final(self).key() == undo.key,
    {
        // The side that passed is the opposite of the current one.
        let us: Color = self.side_to_move.flip();
        self.side_to_move = us;
        self.castling_rights = undo.castling_rights;
        self.en_passant = undo.en_passant;
        self.halfmove_clock = undo.halfmove_clock;
        if us == Color::Black {
            self.fullmove_number = self.fullmove_number - 1;
        }
        self.key = undo.key;
        proof {
            lemma_synced_same(*old(self), *self);
        }
    }
}

/// Where the king and the rook land when castling from `king` with the rook on
/// `rook`: g- and f-file on the king's side, c- and d-file on the queen's.
pub(crate) fn castling_targets(king: Square, rook: Square) -> (r: (Square, Square))
    requires
        king.valid(),
    ensures
        r.0 == state::king_target(king, rook),
        r.1 == state::rook_target(king, rook),
{
    if rook.file() > king.file() {
        (Square::make(6, king.rank()), Square::make(5, king.rank()))
    } else {
        (Square::make(2, king.rank()), Square::make(3, king.rank()))
    }
}

/// The castling-rights mask that survives a piece leaving or arriving on `sq`.
///
/// A king or rook moving *from* its home square, or an enemy capturing a rook
/// *on* its home square, revokes the matching right.
fn castling_mask(sq: Square) -> (r: u8)
    ensures
        r == state::castling_mask_spec(sq),
{
    assert(!(1u8 | 2u8) == 0xfc && !1u8 == 0xfe && !2u8 == 0xfd && !(4u8 | 8u8) == 0xf3 && !4u8
        == 0xfb && !8u8 == 0xf7) by (bit_vector);
    if sq.0 == Square::E1 {
        !(WHITE_OO | WHITE_OOO)
    } else if sq.0 == Square::H1 {
        !WHITE_OO
    } else if sq.0 == Square::A1 {
        !WHITE_OOO
    } else if sq.0 == Square::E8 {
        !(BLACK_OO | BLACK_OOO)
    } else if sq.0 == Square::H8 {
        !BLACK_OO
    } else if sq.0 == Square::A8 {
        !BLACK_OOO
    } else {
        0xff
    }
}

/// The bitboards still agree with the mailbox if neither changed.
proof fn lemma_synced_same(before: Position, after: Position)
    requires
        before.synced(),
        after.board == before.board,
        after.by_color == before.by_color,
        after.by_type == before.by_type,
    ensures
        after.synced(),
{
    assert forall|c: Color|
        #![trigger c.index_spec()]
        after.by_color@[c.index_spec() as int]@ == after@.of_color(c) by {
        assert(after@.of_color(c) =~= before@.of_color(c));
    }
    assert forall|pt: PieceType|
        #![trigger pt.index_spec()]
        after.by_type@[pt.index_spec() as int]@ == after@.of_type(pt) by {
        assert(after@.of_type(pt) =~= before@.of_type(pt));
    }
}

/// Folding the old target out of the hash and the new one in follows a change of
/// the en-passant target.
proof fn lemma_hash_ep(s: State, t: State, key: u64)
    requires
        t.board == s.board,
        t.castling == s.castling,
        t.side == s.side,
    ensures
        ((key ^ state::ep_hash(s.ep)) ^ state::ep_hash(t.ep)) ^ t.hash() == key ^ s.hash(),
{
    let b = state::board_hash(s.board, 64) ^ zobrist::castle(s.castling);
    let e = state::ep_hash(s.ep);
    let f = state::ep_hash(t.ep);
    let x = state::side_hash(s.side);
    assert(((key ^ e) ^ f) ^ (b ^ f ^ x) == key ^ (b ^ e ^ x)) by (bit_vector);
}

/// Folding the old rights out of the hash and the new ones in follows a change
/// of the castling rights.
proof fn lemma_hash_castle(s: State, t: State, key: u64)
    requires
        t.board == s.board,
        t.ep == s.ep,
        t.side == s.side,
    ensures
        ((key ^ zobrist::castle(s.castling)) ^ zobrist::castle(t.castling)) ^ t.hash() == key
            ^ s.hash(),
{
    let b = state::board_hash(s.board, 64);
    let c = zobrist::castle(s.castling);
    let d = zobrist::castle(t.castling);
    let e = state::ep_hash(s.ep);
    let x = state::side_hash(s.side);
    assert(((key ^ c) ^ d) ^ (b ^ d ^ e ^ x) == key ^ (b ^ c ^ e ^ x)) by (bit_vector);
}

/// Folding the side key in or out follows a change of turn.
proof fn lemma_hash_side(s: State, t: State, key: u64)
    requires
        t.board == s.board,
        t.castling == s.castling,
        t.ep == s.ep,
        t.side == s.side.flip(),
    ensures
        (key ^ zobrist::side()) ^ t.hash() == key ^ s.hash(),
{
    let b = state::board_hash(s.board, 64) ^ zobrist::castle(s.castling) ^ state::ep_hash(s.ep);
    let z = zobrist::side();
    assert((key ^ z) ^ (b ^ z) == key ^ (b ^ 0) && (key ^ z) ^ (b ^ 0) == key ^ (b ^ z))
        by (bit_vector);
}

/// Only the bitboards of the color and of the type of `piece` differ.
spec fn one_changed(before: Position, after: Position, piece: Piece) -> bool {
    &&& forall|c: Color|
        #![trigger c.index_spec()]
        c != piece.color ==> after.by_color@[c.index_spec() as int]
            == before.by_color@[c.index_spec() as int]
    &&& forall|pt: PieceType|
        #![trigger pt.index_spec()]
        pt != piece.piece_type ==> after.by_type@[pt.index_spec() as int]
            == before.by_type@[pt.index_spec() as int]
}

/// Adding a piece to an empty square, in all views.
proof fn lemma_added(before: Position, after: Position, sq: Square, piece: Piece)
    requires
        before.wf(),
        sq.valid(),
        before@.at(sq) is None,
        after.board@ == before.board@.update(sq.0 as int, Some(piece)),
        one_changed(before, after, piece),
        after.by_color@[piece.color.index() as int]@
            == before.by_color@[piece.color.index() as int]@.insert(sq.0 as int),
        after.by_type@[piece.piece_type.index() as int]@
            == before.by_type@[piece.piece_type.index() as int]@.insert(sq.0 as int),
    ensures
        after.synced(),
{
    assert forall|c: Color|
        #![trigger c.index_spec()]
        after.by_color@[c.index_spec() as int]@ == after@.of_color(c) by {
        assert(before.by_color@[c.index_spec() as int]@ == before@.of_color(c));
        assert(after.by_color@[c.index_spec() as int]@ =~= after@.of_color(c));
    }
    assert forall|pt: PieceType|
        #![trigger pt.index_spec()]
        after.by_type@[pt.index_spec() as int]@ == after@.of_type(pt) by {
        assert(before.by_type@[pt.index_spec() as int]@ == before@.of_type(pt));
        assert(after.by_type@[pt.index_spec() as int]@ =~= after@.of_type(pt));
    }
}

/// Taking a piece off its square, in all views.
proof fn lemma_removed(before: Position, after: Position, sq: Square, piece: Piece)
    requires
        before.wf(),
        sq.valid(),
        before@.at(sq) == Some(piece),
        after.board@ == before.board@.update(sq.0 as int, None),
        one_changed(before, after, piece),
        after.by_color@[piece.color.index() as int]@
            == before.by_color@[piece.color.index() as int]@.remove(sq.0 as int),
        after.by_type@[piece.piece_type.index() as int]@
            == before.by_type@[piece.piece_type.index() as int]@.remove(sq.0 as int),
    ensures
        after.synced(),
{
    assert forall|c: Color|
        #![trigger c.index_spec()]
        after.by_color@[c.index_spec() as int]@ == after@.of_color(c) by {
        assert(before.by_color@[c.index_spec() as int]@ == before@.of_color(c));
        assert(after.by_color@[c.index_spec() as int]@ =~= after@.of_color(c));
    }
    assert forall|pt: PieceType|
        #![trigger pt.index_spec()]
        after.by_type@[pt.index_spec() as int]@ == after@.of_type(pt) by {
        assert(before.by_type@[pt.index_spec() as int]@ == before@.of_type(pt));
        assert(after.by_type@[pt.index_spec() as int]@ =~= after@.of_type(pt));
    }
}

/// Moving a piece to an empty square, in all views.
proof fn lemma_moved(before: Position, after: Position, from: Square, to: Square, piece: Piece)
    requires
        before.wf(),
        from.valid(),
        to.valid(),
        before@.at(from) == Some(piece),
        before@.at(to) is None,
        after.board@ == state::relocated(before.board@, from, to),
        one_changed(before, after, piece),
        after.by_color@[piece.color.index() as int]@
            == before.by_color@[piece.color.index() as int]@.remove(from.0 as int).insert(
            to.0 as int,
        ),
        after.by_type@[piece.piece_type.index() as int]@
            == before.by_type@[piece.piece_type.index() as int]@.remove(from.0 as int).insert(
            to.0 as int,
        ),
    ensures
        after.synced(),
{
    assert forall|c: Color|
        #![trigger c.index_spec()]
        after.by_color@[c.index_spec() as int]@ == after@.of_color(c) by {
        assert(before.by_color@[c.index_spec() as int]@ == before@.of_color(c));
        assert(after.by_color@[c.index_spec() as int]@ =~= after@.of_color(c));
    }
    assert forall|pt: PieceType|
        #![trigger pt.index_spec()]
        after.by_type@[pt.index_spec() as int]@ == after@.of_type(pt) by {
        assert(before.by_type@[pt.index_spec() as int]@ == before@.of_type(pt));
        assert(after.by_type@[pt.index_spec() as int]@ =~= after@.of_type(pt));
    }
}

/// Folding the keys of the two pieces into the hash follows a change of one
/// square.
proof fn lemma_hash_step(s: State, sq: Square, cell: Option<Piece>, key: u64)
    requires
        s.valid(),
        sq.valid(),
    ensures
        ({
            let after = State { board: s.board.update(sq.0 as int, cell), ..s };
            let x = state::cell_hash(s.at(sq), sq.0 as int) ^ state::cell_hash(cell, sq.0 as int);
            (key ^ x) ^ after.hash() == key ^ s.hash()
        }),
{
    let i = sq.0 as int;
    state::lemma_board_hash_update(s.board, i, cell, 64);
    let b = state::board_hash(s.board, 64);
    let p = state::cell_hash(s.at(sq), i);
    let q = state::cell_hash(cell, i);
    let c = zobrist::castle(s.castling);
    let e = state::ep_hash(s.ep);
    let d = state::side_hash(s.side);
    assert((key ^ (p ^ q)) ^ ((((b ^ p) ^ q) ^ c) ^ e ^ d) == key ^ (b ^ c ^ e ^ d)) by (bit_vector);
}

} // verus!
