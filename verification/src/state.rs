//! The mathematical model of a position, and what a move does to it.

use vstd::prelude::*;
use crate::geometry;
use crate::position::Undo;
use crate::types::{Color, Move, MoveType, Piece, PieceType, Square};
use crate::zobrist;

verus! {

/// Everything the rules of chess need to know of a position.
#[verifier::ext_equal]
pub struct State {
    /// What stands on each of the 64 squares.
    pub board: Seq<Option<Piece>>,
    /// Whose turn it is.
    pub side: Color,
    /// The castling rights, as a mask.
    pub castling: u8,
    /// The square a pawn can be captured on by en passant.
    pub ep: Option<Square>,
    /// Plies since the last capture or pawn move.
    pub half: u16,
    /// The move number.
    pub full: u16,
}

/// The board with the piece on `from` moved to `to`.
pub open spec fn relocated(board: Seq<Option<Piece>>, from: Square, to: Square) -> Seq<
    Option<Piece>,
> {
    board.update(from.0 as int, None).update(to.0 as int, board[from.0 as int])
}

/// The rights that survive a piece leaving or arriving on `sq`.
pub open spec fn castling_mask_spec(sq: Square) -> u8 {
    if sq.0 == Square::E1 {
        0xfc
    } else if sq.0 == Square::H1 {
        0xfe
    } else if sq.0 == Square::A1 {
        0xfd
    } else if sq.0 == Square::E8 {
        0xf3
    } else if sq.0 == Square::H8 {
        0xfb
    } else if sq.0 == Square::A8 {
        0xf7
    } else {
        0xff
    }
}

/// Where the king lands when castling from `king` with the rook on `rook`.
pub open spec fn king_target(king: Square, rook: Square) -> Square {
    if rook.file() > king.file() {
        Square((king.rank() * 8 + 6) as u8)
    } else {
        Square((king.rank() * 8 + 2) as u8)
    }
}

/// Where the rook lands when castling from `king` with the rook on `rook`.
pub open spec fn rook_target(king: Square, rook: Square) -> Square {
    if rook.file() > king.file() {
        Square((king.rank() * 8 + 5) as u8)
    } else {
        Square((king.rank() * 8 + 3) as u8)
    }
}

/// The square of the pawn that an en-passant capture removes.
pub open spec fn ep_victim(from: Square, to: Square) -> Square {
    Square((from.rank() * 8 + to.file()) as u8)
}

/// The square a double push jumps over.
pub open spec fn jumped(from: Square, to: Square) -> Square {
    Square(((from.rank() + to.rank()) / 2 * 8 + from.file()) as u8)
}

/// The hash of what stands on square `i`.
pub open spec fn cell_hash(cell: Option<Piece>, i: int) -> u64 {
    match cell {
        Some(p) => zobrist::piece(p, Square(i as u8)),
        None => 0,
    }
}

/// The hash of the pieces on the squares below `n`.
pub open spec fn board_hash(board: Seq<Option<Piece>>, n: int) -> u64
    decreases n,
{
    if n <= 0 {
        0
    } else {
        board_hash(board, n - 1) ^ cell_hash(board[n - 1], n - 1)
    }
}

/// The hash of an en-passant target.
pub open spec fn ep_hash(ep: Option<Square>) -> u64 {
    match ep {
        Some(q) => zobrist::ep(q.file()),
        None => 0,
    }
}

/// The hash of the side to move.
pub open spec fn side_hash(side: Color) -> u64 {
    match side {
        Color::White => 0,
        Color::Black => zobrist::side(),
    }
}

impl State {
    /// The board has 64 squares, the rights are a mask of the four rights, and
    /// the en-passant target is a square.
    pub open spec fn valid(self) -> bool {
        &&& self.board.len() == 64
        &&& self.castling < 16
        &&& self.ep matches Some(q) ==> q.valid()
    }

    /// What stands on a square.
    pub open spec fn at(self, sq: Square) -> Option<Piece> {
        self.board[sq.0 as int]
    }

    /// Square `i` holds a piece of the given color and type.
    pub open spec fn holds(self, i: int, color: Color, piece_type: PieceType) -> bool {
        geometry::on_board(i) && self.board[i] == Some(Piece { color, piece_type })
    }

    /// The squares of one color's pieces.
    pub open spec fn of_color(self, c: Color) -> Set<int> {
        Set::new(
            |i: int| geometry::on_board(i) && (self.board[i] matches Some(p) && p.color == c),
        )
    }

    /// The squares of the pieces of one type, of both colors.
    pub open spec fn of_type(self, pt: PieceType) -> Set<int> {
        Set::new(
            |i: int| geometry::on_board(i) && (self.board[i] matches Some(p) && p.piece_type == pt),
        )
    }

    /// The squares of one color's pieces of one type.
    pub open spec fn of(self, c: Color, pt: PieceType) -> Set<int> {
        Set::new(|i: int| self.holds(i, c, pt))
    }

    /// The occupied squares.
    pub open spec fn occupied(self) -> Set<int> {
        Set::new(|i: int| geometry::on_board(i) && self.board[i] is Some)
    }

    /// The squares of all pieces, of both colors, that attack `t` with `occ`
    /// occupied.
    pub open spec fn attackers(self, t: int, occ: Set<int>) -> Set<int> {
        Set::new(
            |s: int|
                geometry::on_board(s) && (self.board[s] matches Some(p) && geometry::attacks(
                    p,
                    s,
                    t,
                    occ,
                )),
        )
    }

    /// Some piece of color `c` attacks `t`.
    pub open spec fn attacked(self, t: int, c: Color) -> bool {
        exists|s: int|
            #![trigger self.board[s]]
            geometry::on_board(s) && (self.board[s] matches Some(p) && p.color == c
                && geometry::attacks(p, s, t, self.occupied()))
    }

    /// Color `c` has a king.
    pub open spec fn has_king(self, c: Color) -> bool {
        exists|i: int| self.holds(i, c, PieceType::King)
    }

    /// The square of color `c`'s king, the lowest one should there be several.
    pub open spec fn king(self, c: Color) -> int {
        choose|k: int|
            self.holds(k, c, PieceType::King) && (forall|i: int| #[trigger]
                self.holds(i, c, PieceType::King) ==> k <= i)
    }

    /// Color `c`'s king is attacked.
    pub open spec fn checked(self, c: Color) -> bool {
        self.attacked(self.king(c), c.flip())
    }

    /// The hash of the position.
    pub open spec fn hash(self) -> u64 {
        board_hash(self.board, 64) ^ zobrist::castle(self.castling) ^ ep_hash(self.ep) ^ side_hash(
            self.side,
        )
    }

    /// What the move `m` captures.
    pub open spec fn captured(self, m: Move) -> Option<Piece> {
        match m.move_type() {
            MoveType::Castling => None,
            MoveType::EnPassant => self.at(ep_victim(m.from_sq(), m.to_sq())),
            MoveType::Promotion | MoveType::Normal => self.at(m.to_sq()),
        }
    }

    /// The board after the move `m`.
    pub open spec fn board_after(self, m: Move) -> Seq<Option<Piece>> {
        let from = m.from_sq();
        let to = m.to_sq();
        match m.move_type() {
            MoveType::Castling => relocated(
                relocated(self.board, from, king_target(from, to)),
                to,
                rook_target(from, to),
            ),
            MoveType::EnPassant => relocated(
                self.board.update(ep_victim(from, to).0 as int, None),
                from,
                to,
            ),
            MoveType::Promotion => self.board.update(from.0 as int, None).update(
                to.0 as int,
                Some(Piece { color: self.side, piece_type: m.promotion_type() }),
            ),
            MoveType::Normal => relocated(self.board, from, to),
        }
    }

    /// The piece on the origin square is a pawn.
    pub open spec fn moves_pawn(self, m: Move) -> bool {
        self.at(m.from_sq()) matches Some(p) && p.piece_type == PieceType::Pawn
    }

    /// The move takes a pawn two ranks ahead.
    pub open spec fn double_push(self, m: Move) -> bool {
        &&& m.move_type() == MoveType::Normal
        &&& self.moves_pawn(m)
        &&& {
            ||| m.to_sq().rank() == m.from_sq().rank() + 2
            ||| m.from_sq().rank() == m.to_sq().rank() + 2
        }
    }

    /// The halfmove clock starts again with this move.
    pub open spec fn resets_clock(self, m: Move) -> bool {
        self.moves_pawn(m) || self.captured(m) is Some
    }

    /// The pieces stand so that the move `m` can be carried out: there is
    /// something to move, and what is moved lands on an empty square once the
    /// captured piece is gone.
    pub open spec fn movable(self, m: Move) -> bool {
        let from = m.from_sq();
        let to = m.to_sq();
        &&& self.at(from) is Some
        &&& match m.move_type() {
            MoveType::Castling => {
                let halfway = relocated(self.board, from, king_target(from, to));
                &&& self.at(king_target(from, to)) is None
                &&& halfway[to.0 as int] is Some
                &&& halfway[rook_target(from, to).0 as int] is None
            },
            MoveType::EnPassant => {
                &&& ep_victim(from, to) != from
                &&& self.at(ep_victim(from, to)) is Some
                &&& (to == ep_victim(from, to) || self.at(to) is None)
            },
            MoveType::Promotion | MoveType::Normal => from != to,
        }
    }

    /// The clocks can count one more move.
    pub open spec fn clocks_fit(self, m: Move) -> bool {
        &&& self.resets_clock(m) || self.half < u16::MAX
        &&& self.side == Color::Black ==> self.full < u16::MAX
    }

    /// The position after the move `m`.
    pub open spec fn make(self, m: Move) -> State {
        State {
            board: self.board_after(m),
            side: self.side.flip(),
            castling: self.castling & castling_mask_spec(m.from_sq()) & castling_mask_spec(
                m.to_sq(),
            ),
            ep: if self.double_push(m) {
                Some(jumped(m.from_sq(), m.to_sq()))
            } else {
                None
            },
            half: if self.resets_clock(m) {
                0
            } else {
                (self.half + 1) as u16
            },
            full: if self.side == Color::Black {
                (self.full + 1) as u16
            } else {
                self.full
            },
        }
    }

    /// What undoing the move `m` needs to know, beside the hash.
    pub open spec fn remembers(self, m: Move, undo: Undo) -> bool {
        &&& undo.captured == self.captured(m)
        &&& undo.castling_rights == self.castling
        &&& undo.en_passant == self.ep
        &&& undo.halfmove_clock == self.half
    }

    /// The board before the move `m`, which captured `captured`.
    pub open spec fn board_before(self, m: Move, captured: Option<Piece>) -> Seq<Option<Piece>> {
        let from = m.from_sq();
        let to = m.to_sq();
        match m.move_type() {
            MoveType::Castling => relocated(
                relocated(self.board, king_target(from, to), from),
                rook_target(from, to),
                to,
            ),
            MoveType::EnPassant => relocated(self.board, to, from).update(
                ep_victim(from, to).0 as int,
                captured,
            ),
            MoveType::Promotion => self.board.update(
                from.0 as int,
                Some(Piece { color: self.side.flip(), piece_type: PieceType::Pawn }),
            ).update(to.0 as int, captured),
            MoveType::Normal => relocated(self.board, to, from).update(to.0 as int, captured),
        }
    }

    /// The pieces stand so that the move `m`, which captured `captured`, can be
    /// taken back.
    pub open spec fn unmovable(self, m: Move, captured: Option<Piece>) -> bool {
        let from = m.from_sq();
        let to = m.to_sq();
        match m.move_type() {
            MoveType::Castling => {
                let halfway = relocated(self.board, king_target(from, to), from);
                &&& self.at(king_target(from, to)) is Some
                &&& self.at(from) is None
                &&& halfway[rook_target(from, to).0 as int] is Some
                &&& halfway[to.0 as int] is None
            },
            MoveType::EnPassant => {
                &&& self.at(to) is Some
                &&& self.at(from) is None
                &&& ep_victim(from, to) != from
                &&& (to == ep_victim(from, to) || self.at(ep_victim(from, to)) is None)
                &&& captured is Some
            },
            MoveType::Promotion | MoveType::Normal => self.at(to) is Some && self.at(from) is None,
        }
    }

    /// The position before the move `m`, given what it destroyed.
    pub open spec fn unmake(self, m: Move, undo: Undo) -> State {
        State {
            board: self.board_before(m, undo.captured),
            side: self.side.flip(),
            castling: undo.castling_rights,
            ep: undo.en_passant,
            half: undo.halfmove_clock,
            full: if self.side == Color::White {
                (self.full - 1) as u16
            } else {
                self.full
            },
        }
    }

    /// The position after a passed turn.
    pub open spec fn pass(self) -> State {
        State {
            side: self.side.flip(),
            ep: None,
            half: (self.half + 1) as u16,
            full: if self.side == Color::Black {
                (self.full + 1) as u16
            } else {
                self.full
            },
            ..self
        }
    }

    /// The position before a passed turn.
    pub open spec fn unpass(self, undo: Undo) -> State {
        State {
            side: self.side.flip(),
            castling: undo.castling_rights,
            ep: undo.en_passant,
            half: undo.halfmove_clock,
            full: if self.side == Color::White {
                (self.full - 1) as u16
            } else {
                self.full
            },
            ..self
        }
    }
}

// ---------------------------------------------------------------------------
// Hash algebra.
// ---------------------------------------------------------------------------

/// The rules of XOR that the hash bookkeeping needs.
pub proof fn lemma_xor(a: u64, b: u64, c: u64)
    by (bit_vector)
    ensures
        a ^ b == b ^ a,
        (a ^ b) ^ c == a ^ (b ^ c),
        (a ^ b) ^ c == (a ^ c) ^ b,
        (a ^ b) ^ b == a,
        a ^ a == 0,
        a ^ 0 == a,
        0u64 ^ a == a,
{
}

/// Changing one square changes the hash by the two pieces involved.
pub proof fn lemma_board_hash_update(
    board: Seq<Option<Piece>>,
    i: int,
    cell: Option<Piece>,
    n: int,
)
    requires
        0 <= i < board.len(),
        0 <= n <= board.len(),
    ensures
        i < n ==> board_hash(board.update(i, cell), n) == (board_hash(board, n) ^ cell_hash(
            board[i],
            i,
        )) ^ cell_hash(cell, i),
        i >= n ==> board_hash(board.update(i, cell), n) == board_hash(board, n),
    decreases n,
{
    if n > 0 {
        lemma_board_hash_update(board, i, cell, n - 1);
        let h = board_hash(board, n - 1);
        let x = cell_hash(board[i], i);
        let y = cell_hash(cell, i);
        if i == n - 1 {
            lemma_xor(h, x, y);
        } else if i < n - 1 {
            let z = cell_hash(board[n - 1], n - 1);
            // ((h ^ x) ^ y) ^ z == ((h ^ z) ^ x) ^ y
            lemma_xor(h ^ x, y, z);
            lemma_xor(h, x, z);
        }
    }
}

/// An empty board hashes to zero.
pub proof fn lemma_empty_hash(board: Seq<Option<Piece>>, n: int)
    requires
        forall|i: int| 0 <= i < n ==> #[trigger] board[i] is None,
    ensures
        board_hash(board, n) == 0,
    decreases n,
{
    if n > 0 {
        lemma_empty_hash(board, n - 1);
        lemma_xor(0, 0, 0);
    }
}

/// The lowest square of a king is where the king is.
pub proof fn lemma_king(s: State, c: Color, k: int)
    requires
        s.holds(k, c, PieceType::King),
        forall|i: int| #[trigger] s.holds(i, c, PieceType::King) ==> k <= i,
    ensures
        s.has_king(c),
        s.king(c) == k,
{
    let j = s.king(c);
    assert(s.holds(j, c, PieceType::King));
}

// ---------------------------------------------------------------------------
// Laws.
// ---------------------------------------------------------------------------

/// Every move leaves a valid position.
pub proof fn lemma_make_valid(s: State, m: Move)
    requires
        s.valid(),
        s.movable(m),
    ensures
        s.make(m).valid(),
{
    let r: u8 = s.castling;
    let a: u8 = castling_mask_spec(m.from_sq());
    let b: u8 = castling_mask_spec(m.to_sq());
    assert(r < 16 ==> r & a & b < 16) by (bit_vector);
}

/// A castling move as the rules know it: the king does not stand on its rook's
/// target square, and the rook is not on the king's.
pub open spec fn untangled(m: Move) -> bool {
    m.move_type() == MoveType::Castling ==> {
        &&& m.from_sq() != rook_target(m.from_sq(), m.to_sq())
        &&& m.to_sq() != king_target(m.from_sq(), m.to_sq())
    }
}

/// Undoing a move restores the position it was made in.
pub proof fn law_undo_restores(s: State, m: Move, undo: Undo)
    requires
        s.valid(),
        s.movable(m),
        s.clocks_fit(m),
        s.remembers(m, undo),
        untangled(m),
        m.move_type() == MoveType::Promotion ==> s.at(m.from_sq()) == Some(
            Piece { color: s.side, piece_type: PieceType::Pawn },
        ),
    ensures
        s.make(m).unmovable(m, undo.captured),
        s.make(m).side == Color::White ==> s.make(m).full > 0,
        s.make(m).unmake(m, undo) == s,
{
    assert(s.make(m).board_before(m, undo.captured) =~= s.board);
    assert(s.make(m).unmake(m, undo) =~= s);
}

/// Undoing a passed turn restores the position it was made in.
pub proof fn law_undo_null_restores(s: State, undo: Undo)
    requires
        s.valid(),
        s.half < u16::MAX,
        s.side == Color::Black ==> s.full < u16::MAX,
        undo.castling_rights == s.castling,
        undo.en_passant == s.ep,
        undo.halfmove_clock == s.half,
    ensures
        s.pass().side == Color::White ==> s.pass().full > 0,
        s.pass().unpass(undo) == s,
{
}

/// No move gains a castling right.
pub proof fn law_rights_never_return(s: State, m: Move, right: u8)
    requires
        s.castling & right == 0,
    ensures
        s.make(m).castling & right == 0,
{
    let r: u8 = s.castling;
    let a: u8 = castling_mask_spec(m.from_sq());
    let b: u8 = castling_mask_spec(m.to_sq());
    assert(r & right == 0 ==> r & a & b & right == 0) by (bit_vector);
}

/// A castling right is lost by exactly the moves that leave or enter the home
/// square of its king or of its rook: e1 and h1, e1 and a1, e8 and h8, e8 and a8.
pub proof fn law_rights_lost_at_home(s: State, m: Move)
    ensures
        ({
            let f = m.from_sq().0;
            let t = m.to_sq().0;
            let kept = s.make(m).castling;
            &&& kept & 1 != 0 <==> s.castling & 1 != 0 && f != 4 && t != 4 && f != 7 && t != 7
            &&& kept & 2 != 0 <==> s.castling & 2 != 0 && f != 4 && t != 4 && f != 0 && t != 0
            &&& kept & 4 != 0 <==> s.castling & 4 != 0 && f != 60 && t != 60 && f != 63 && t != 63
            &&& kept & 8 != 0 <==> s.castling & 8 != 0 && f != 60 && t != 60 && f != 56 && t != 56
        }),
{
    let r: u8 = s.castling;
    let a: u8 = castling_mask_spec(m.from_sq());
    let b: u8 = castling_mask_spec(m.to_sq());
    assert(((r & a & b) & 1 != 0 <==> r & 1 != 0 && a & 1 != 0 && b & 1 != 0) && ((r & a & b) & 2
        != 0 <==> r & 2 != 0 && a & 2 != 0 && b & 2 != 0) && ((r & a & b) & 4 != 0 <==> r & 4 != 0
        && a & 4 != 0 && b & 4 != 0) && ((r & a & b) & 8 != 0 <==> r & 8 != 0 && a & 8 != 0 && b
        & 8 != 0)) by (bit_vector);
    lemma_masks();
}

/// Which rights each of the masks keeps.
proof fn lemma_masks()
    by (bit_vector)
    ensures
        0xfcu8 & 1 == 0 && 0xfcu8 & 2 == 0 && 0xfcu8 & 4 != 0 && 0xfcu8 & 8 != 0,
        0xfeu8 & 1 == 0 && 0xfeu8 & 2 != 0 && 0xfeu8 & 4 != 0 && 0xfeu8 & 8 != 0,
        0xfdu8 & 1 != 0 && 0xfdu8 & 2 == 0 && 0xfdu8 & 4 != 0 && 0xfdu8 & 8 != 0,
        0xf3u8 & 1 != 0 && 0xf3u8 & 2 != 0 && 0xf3u8 & 4 == 0 && 0xf3u8 & 8 == 0,
        0xfbu8 & 1 != 0 && 0xfbu8 & 2 != 0 && 0xfbu8 & 4 == 0 && 0xfbu8 & 8 != 0,
        0xf7u8 & 1 != 0 && 0xf7u8 & 2 != 0 && 0xf7u8 & 4 != 0 && 0xf7u8 & 8 == 0,
        0xffu8 & 1 != 0 && 0xffu8 & 2 != 0 && 0xffu8 & 4 != 0 && 0xffu8 & 8 != 0,
{
}

/// A normal move carries its piece from the origin, which it leaves empty, to the
/// destination, and a promotion puts the new piece there; no other square changes.
pub proof fn law_plain_move_board(s: State, m: Move, i: int)
    requires
        s.valid(),
        s.movable(m),
        m.move_type() == MoveType::Normal || m.move_type() == MoveType::Promotion,
        0 <= i < 64,
    ensures
        i == m.from_sq().0 ==> s.make(m).board[i] is None,
        i == m.to_sq().0 && m.move_type() == MoveType::Normal ==> s.make(m).board[i]
            == s.board[m.from_sq().0 as int],
        i == m.to_sq().0 && m.move_type() == MoveType::Promotion ==> s.make(m).board[i] == Some(
            Piece { color: s.side, piece_type: m.promotion_type() },
        ),
        i != m.from_sq().0 && i != m.to_sq().0 ==> s.make(m).board[i] == s.board[i],
        s.captured(m) == s.board[m.to_sq().0 as int],
{
}

/// An en-passant capture carries the pawn to the target and empties the square
/// beside its origin, on the file of the target; no other square changes.
pub proof fn law_en_passant_board(s: State, m: Move, i: int)
    requires
        s.valid(),
        s.movable(m),
        m.move_type() == MoveType::EnPassant,
        m.from_sq().0 / 8 != m.to_sq().0 / 8,
        0 <= i < 64,
    ensures
        ({
            let f = m.from_sq().0 as int;
            let t = m.to_sq().0 as int;
            let victim = f - f % 8 + t % 8;
            &&& i == f || i == victim ==> s.make(m).board[i] is None
            &&& i == t ==> s.make(m).board[i] == s.board[f]
            &&& i != f && i != t && i != victim ==> s.make(m).board[i] == s.board[i]
            &&& s.captured(m) == s.board[victim]
        }),
{
}

/// Castling takes the king two squares towards the rook, to the g- or the c-file,
/// and the rook to the square that the king passed, the f- or the d-file, on the
/// king's rank; no other square changes, and nothing is captured.
pub proof fn law_castling_board(s: State, m: Move, i: int)
    requires
        s.valid(),
        s.movable(m),
        m.move_type() == MoveType::Castling,
        untangled(m),
        0 <= i < 64,
    ensures
        ({
            let f = m.from_sq().0 as int;
            let t = m.to_sq().0 as int;
            let short = t % 8 > f % 8;
            let king = f - f % 8 + if short {
                6int
            } else {
                2int
            };
            let rook = f - f % 8 + if short {
                5int
            } else {
                3int
            };
            &&& i == f || i == t ==> s.make(m).board[i] is None
            &&& i == king ==> s.make(m).board[i] == s.board[f]
            &&& i == rook ==> s.make(m).board[i] == s.board[t]
            &&& i != f && i != t && i != king && i != rook ==> s.make(m).board[i] == s.board[i]
            &&& s.captured(m) is None
        }),
{
}

/// After a pawn's double step the target is the square half way; after every other
/// move there is none.
pub proof fn law_double_step_target(s: State, m: Move)
    requires
        s.valid(),
    ensures
        ({
            let f = m.from_sq().0 as int;
            let t = m.to_sq().0 as int;
            let pawn = s.board[f] matches Some(p) && p.piece_type == PieceType::Pawn;
            &&& m.move_type() == MoveType::Normal && pawn && (t == f + 16 || t == f - 16)
                ==> s.make(m).ep == Some(Square(((f + t) / 2) as u8))
            &&& s.make(m).ep is Some ==> m.move_type() == MoveType::Normal && pawn && (t / 8 == f
                / 8 + 2 || t / 8 == f / 8 - 2)
        }),
{
}

/// The turn passes to the other side; the move number counts Black's moves; and the
/// halfmove clock starts again on a pawn's move or a capture, and counts otherwise.
pub proof fn law_turn_and_clocks(s: State, m: Move)
    requires
        s.valid(),
        s.clocks_fit(m),
    ensures
        ({
            let f = m.from_sq().0 as int;
            let t = m.to_sq().0 as int;
            let pawn = s.board[f] matches Some(p) && p.piece_type == PieceType::Pawn;
            let beside = s.board[f - f % 8 + t % 8];
            let taken = match m.move_type() {
                MoveType::Castling => false,
                MoveType::EnPassant => beside is Some,
                _ => s.board[t] is Some,
            };
            &&& s.side == Color::White ==> s.make(m).side == Color::Black && s.make(m).full == s.full
            &&& s.side == Color::Black ==> s.make(m).side == Color::White && s.make(m).full == s.full
                + 1
            &&& s.make(m).half == if pawn || taken {
                0
            } else {
                s.half + 1
            }
        }),
{
}

/// Passing changes the turn and the clocks as a quiet move does, takes the
/// en-passant target away, and leaves board and castling rights alone.
pub proof fn law_passed_turn(s: State)
    requires
        s.half < u16::MAX,
        s.side == Color::Black ==> s.full < u16::MAX,
    ensures
        s.pass().board == s.board,
        s.pass().castling == s.castling,
        s.pass().ep is None,
        s.pass().half == s.half + 1,
        s.side == Color::White ==> s.pass().side == Color::Black && s.pass().full == s.full,
        s.side == Color::Black ==> s.pass().side == Color::White && s.pass().full == s.full + 1,
{
}

/// XOR with a fixed number does not merge two different numbers.
proof fn lemma_xor_cancel(a: u64, b: u64, x: u64, y: u64)
    by (bit_vector)
    requires
        a != b,
    ensures
        a ^ x != b ^ x,
        x ^ a != x ^ b,
        (x ^ a) ^ y != (x ^ b) ^ y,
{
}

/// The keys of the features are not zero.
proof fn lemma_keys_nonzero(i: u64)
    requires
        i < u64::MAX,
    ensures
        zobrist::key_spec(i) != 0,
{
    zobrist::lemma_zero_key();
    if zobrist::key_spec(i) == 0 {
        zobrist::law_keys_distinct(i, u64::MAX);
    }
}

/// The hash tells apart positions that differ in the side to move alone, in the
/// castling rights alone, or in whether and on which file there is an en-passant
/// target alone.
pub proof fn law_hash_sees_rights_and_turn(s: State, t: State)
    requires
        s.valid(),
        t.valid(),
        s.board == t.board,
    ensures
        s.side != t.side && s.castling == t.castling && s.ep == t.ep ==> s.hash() != t.hash(),
        s.side == t.side && s.castling != t.castling && s.ep == t.ep ==> s.hash() != t.hash(),
        s.side == t.side && s.castling == t.castling && (s.ep is Some) != (t.ep is Some)
            ==> s.hash() != t.hash(),
        s.side == t.side && s.castling == t.castling && (s.ep matches Some(p) && t.ep matches Some(
            q,
        ) && p.0 % 8 != q.0 % 8) ==> s.hash() != t.hash(),
{
    let b = board_hash(s.board, 64);
    let c = zobrist::castle(s.castling);
    if s.side != t.side && s.castling == t.castling && s.ep == t.ep {
        lemma_keys_nonzero(792);
        lemma_xor_cancel(side_hash(s.side), side_hash(t.side), b ^ c ^ ep_hash(s.ep), 0);
    }
    if s.side == t.side && s.castling != t.castling && s.ep == t.ep {
        if c == zobrist::castle(t.castling) {
            zobrist::law_keys_distinct((768 + s.castling) as u64, (768 + t.castling) as u64);
        }
        lemma_xor_cancel(c, zobrist::castle(t.castling), b, ep_hash(s.ep));
        lemma_xor_cancel(
            (b ^ c) ^ ep_hash(s.ep),
            (b ^ zobrist::castle(t.castling)) ^ ep_hash(s.ep),
            side_hash(s.side),
            0,
        );
    }
    if s.side == t.side && s.castling == t.castling && s.ep != t.ep {
        if let Some(p) = s.ep {
            lemma_keys_nonzero((784 + p.file()) as u64);
        }
        if let Some(q) = t.ep {
            lemma_keys_nonzero((784 + q.file()) as u64);
        }
        if s.ep is Some && t.ep is Some {
            let p = s.ep->0;
            let q = t.ep->0;
            if p.file() != q.file() && zobrist::ep(p.file()) == zobrist::ep(q.file()) {
                zobrist::law_keys_distinct((784 + p.file()) as u64, (784 + q.file()) as u64);
            }
        }
        if ep_hash(s.ep) != ep_hash(t.ep) {
            lemma_xor_cancel(ep_hash(s.ep), ep_hash(t.ep), b ^ c, side_hash(s.side));
        }
    }
}

/// The hash tells apart positions that differ in what stands on one square alone.
pub proof fn law_hash_sees_every_square(s: State, i: int, cell: Option<Piece>)
    requires
        s.valid(),
        0 <= i < 64,
        cell != s.board[i],
    ensures
        (State { board: s.board.update(i, cell), ..s }).hash() != s.hash(),
{
    let t = State { board: s.board.update(i, cell), ..s };
    let h = board_hash(s.board, 64);
    let x = cell_hash(s.board[i], i);
    let y = cell_hash(cell, i);
    lemma_board_hash_update(s.board, i, cell, 64);
    if let Some(p) = s.board[i] {
        lemma_keys_nonzero((p.index() * 64 + i) as u64);
    }
    if let Some(q) = cell {
        lemma_keys_nonzero((q.index() * 64 + i) as u64);
    }
    if s.board[i] is Some && cell is Some {
        let p = s.board[i]->0;
        let q = cell->0;
        if x == y {
            zobrist::law_keys_distinct(
                (p.index() * 64 + i) as u64,
                (q.index() * 64 + i) as u64,
            );
            assert(p.index() == q.index());
            assert(p == q);
        }
    }
    assert(x != y);
    lemma_xor(h, x, x);
    lemma_xor_cancel(x, y, h ^ x, 0);
    let c = zobrist::castle(s.castling);
    lemma_xor_cancel(h, board_hash(t.board, 64), c, 0);
    lemma_xor_cancel(h ^ c, board_hash(t.board, 64) ^ c, ep_hash(s.ep), 0);
    lemma_xor_cancel(
        (h ^ c) ^ ep_hash(s.ep),
        (board_hash(t.board, 64) ^ c) ^ ep_hash(s.ep),
        side_hash(s.side),
        0,
    );
}

/// The hash does not depend on the clocks, nor on the rank of the en-passant target.
pub proof fn law_hash_ignores_clocks(s: State, t: State)
    requires
        s.board == t.board,
        s.side == t.side,
        s.castling == t.castling,
        (s.ep is Some) == (t.ep is Some),
        s.ep matches Some(p) ==> t.ep matches Some(q) && p.0 % 8 == q.0 % 8,
    ensures
        s.hash() == t.hash(),
{
}

/// What the sets of squares hold, square by square.
pub proof fn law_square_sets(s: State, i: int, c: Color, pt: PieceType)
    ensures
        s.occupied().contains(i) <==> 0 <= i < 64 && s.board[i] is Some,
        s.of_color(c).contains(i) <==> 0 <= i < 64 && s.board[i] is Some && s.board[i]->0.color
            == c,
        s.of_type(pt).contains(i) <==> 0 <= i < 64 && s.board[i] is Some
            && s.board[i]->0.piece_type == pt,
        s.of(c, pt).contains(i) <==> 0 <= i < 64 && s.board[i] is Some && s.board[i]->0.color == c
            && s.board[i]->0.piece_type == pt,
{
}

/// The attackers of a square are the pieces, of both colors, that attack it; and it
/// is attacked by a color that has one among them.
pub proof fn law_attackers(s: State, t: int, occ: Set<int>, q: int, c: Color)
    ensures
        s.attackers(t, occ).contains(q) <==> 0 <= q < 64 && s.board[q] is Some
            && geometry::attacks(s.board[q]->0, q, t, occ),
        s.attacked(t, c) <==> exists|x: int|
            0 <= x < 64 && #[trigger] s.board[x] is Some && s.board[x]->0.color == c
                && geometry::attacks(
                s.board[x]->0,
                x,
                t,
                Set::new(|i: int| 0 <= i < 64 && s.board[i] is Some),
            ),
{
    assert(Set::new(|i: int| 0 <= i < 64 && s.board[i] is Some) =~= s.occupied());
}

} // verus!
