//! Move generation: turn a position into the list of moves the side to move may
//! legally play.
//!
//! First every *pseudo-legal* move is generated (a move that obeys how the piece
//! steps and captures, but might leave the own king in check), then the legal
//! ones among them are picked out by looking at checkers and pinned pieces.
//! Castling is verified in full when it is generated.

use vstd::prelude::*;
use crate::attacks::{
    bishop_attacks,
    king_attacks,
    knight_attacks,
    pawn_attacks,
    queen_attacks,
    rook_attacks,
};
use crate::bitboard;
use crate::bitboard::Bitboard;
use crate::geometry;
use crate::legality;
use crate::position::{Position, Undo, BLACK_OO, BLACK_OOO, WHITE_OO, WHITE_OOO};
use crate::state;
use crate::state::State;
use crate::types::{Color, Direction, Move, MoveType, Piece, PieceType, Square};

verus! {

broadcast use bitboard::group_bitboard;

// ---------------------------------------------------------------------------
// MoveList.
// ---------------------------------------------------------------------------

/// A list of moves.
pub struct MoveList {
    moves: Vec<Move>,
}

impl View for MoveList {
    type V = Seq<Move>;

    closed spec fn view(&self) -> Seq<Move> {
        self.moves@
    }
}

impl MoveList {
    /// An empty list.
    pub fn new() -> (r: MoveList)
        ensures
            r@ == Seq::<Move>::empty(),
    {
        MoveList { moves: Vec::new() }
    }

    /// Append a move.
    pub fn push(&mut self, m: Move)
        ensures
            final(self)@ == old(self)@.push(m),
    {
        self.moves.push(m);
    }

    /// How many moves are stored.
    pub fn len(&self) -> (r: usize)
        ensures
            r == self@.len(),
    {
        self.moves.len()
    }

    /// Whether the list is empty.
    pub fn is_empty(&self) -> (r: bool)
        ensures
            r == (self@.len() == 0),
    {
        self.moves.len() == 0
    }

    /// The stored moves as a slice.
    pub fn as_slice(&self) -> (r: &[Move])
        ensures
            r@ == self@,
    {
        self.moves.as_slice()
    }

    /// Move `i` of the list.
    pub fn get(&self, i: usize) -> (r: Move)
        requires
            i < self@.len(),
        ensures
            r == self@[i as int],
    {
        self.moves[i]
    }

    /// Whether `m` is one of the stored moves.
    pub fn contains(&self, m: Move) -> (r: bool)
        ensures
            r == self@.contains(m),
    {
        let mut i: usize = 0;
        while i < self.moves.len()
            invariant
                i <= self@.len(),
                forall|j: int| 0 <= j < i ==> self@[j] != m,
            decreases self@.len() - i,
        {
            if self.moves[i] == m {
                assert(self@[i as int] == m);
                return true;
            }
            i = i + 1;
        }
        false
    }
}

impl Default for MoveList {
    fn default() -> (r: MoveList)
        ensures
            r@ == Seq::<Move>::empty(),
    {
        MoveList::new()
    }
}

impl std::ops::Index<usize> for MoveList {
    type Output = Move;

    fn index(&self, i: usize) -> (r: &Move)
        ensures
            *r == self@[i as int],
    {
        &self.moves[i]
    }
}

impl vstd::std_specs::core::IndexSpecImpl<usize> for MoveList {
    open spec fn index_req(&self, i: &usize) -> bool {
        *i < self@.len()
    }
}

// ---------------------------------------------------------------------------
// The pseudo-legal moves.
// ---------------------------------------------------------------------------

/// The rank a pawn promotes on.
pub open spec fn promotion_rank(c: Color) -> int {
    match c {
        Color::White => 7,
        Color::Black => 0,
    }
}

/// The rank a pawn may double-push from.
pub open spec fn pawn_rank(c: Color) -> int {
    match c {
        Color::White => 1,
        Color::Black => 6,
    }
}

/// The four promotions of a pawn going from `from` to `to`.
pub open spec fn promotions(from: Square, to: Square) -> Seq<Move> {
    seq![
        Move::promotion(from, to, PieceType::Queen),
        Move::promotion(from, to, PieceType::Rook),
        Move::promotion(from, to, PieceType::Bishop),
        Move::promotion(from, to, PieceType::Knight),
    ]
}

/// A pawn of color `c` going from `from` to `to`, promoting if it must.
pub open spec fn pawn_step(c: Color, from: Square, to: Square) -> Seq<Move> {
    if geometry::rank(to.0 as int) == promotion_rank(c) {
        promotions(from, to)
    } else {
        seq![Move::normal(from, to)]
    }
}

/// The square `n` pawn steps ahead.
pub open spec fn ahead(c: Color, from: Square, n: int) -> int {
    from.0 + 8 * n * c.forward()
}

/// The square is on the board and empty.
pub open spec fn vacant(s: State, i: int) -> bool {
    geometry::on_board(i) && s.board[i] is None
}

/// The pushes of the pawn on `from`.
pub open spec fn pawn_pushes(s: State, from: Square) -> Seq<Move> {
    let one = ahead(s.side, from, 1);
    let two = ahead(s.side, from, 2);
    if !vacant(s, one) {
        Seq::empty()
    } else {
        pawn_step(s.side, from, Square(one as u8)) + if geometry::rank(from.0 as int) == pawn_rank(
            s.side,
        ) && vacant(s, two) {
            seq![Move::normal(from, Square(two as u8))]
        } else {
            Seq::empty()
        }
    }
}

/// The captures of the pawn on `from` on the given squares.
pub open spec fn pawn_captures(c: Color, from: Square, targets: Seq<Square>) -> Seq<Move>
    decreases targets.len(),
{
    if targets.len() == 0 {
        Seq::empty()
    } else {
        pawn_step(c, from, targets[0]) + pawn_captures(c, from, targets.drop_first())
    }
}

/// The enemy squares that the pawn on `from` attacks.
pub open spec fn pawn_prey(s: State, from: Square) -> Set<int> {
    Set::new(
        |t: int|
            geometry::pawn_reaches(s.side, from.0 as int, t) && s.of_color(
                s.side.flip(),
            ).contains(t),
    )
}

/// The en-passant capture of the pawn on `from`, if it attacks the target.
pub open spec fn pawn_en_passant(s: State, from: Square) -> Seq<Move> {
    match s.ep {
        Some(t) => if geometry::pawn_reaches(s.side, from.0 as int, t.0 as int) {
            seq![Move::en_passant(from, t)]
        } else {
            Seq::empty()
        },
        None => Seq::empty(),
    }
}

/// The moves of the pawn on `from`.
pub open spec fn pawn_moves(s: State, from: Square) -> Seq<Move> {
    pawn_pushes(s, from) + pawn_captures(s.side, from, bitboard::listed(pawn_prey(s, from)))
        + pawn_en_passant(s, from)
}

/// The moves of the pawns on the given squares.
pub open spec fn all_pawn_moves(s: State, squares: Seq<Square>) -> Seq<Move>
    decreases squares.len(),
{
    if squares.len() == 0 {
        Seq::empty()
    } else {
        pawn_moves(s, squares[0]) + all_pawn_moves(s, squares.drop_first())
    }
}

/// The squares that a piece of the side to move attacks from `from` and that no
/// own piece occupies.
pub open spec fn reach(s: State, pt: PieceType, from: Square) -> Set<int> {
    Set::new(
        |t: int|
            geometry::attacks(
                Piece { color: s.side, piece_type: pt },
                from.0 as int,
                t,
                s.occupied(),
            ) && !s.of_color(s.side).contains(t),
    )
}

/// The normal moves from `from` to the given squares.
pub open spec fn steps(from: Square, targets: Seq<Square>) -> Seq<Move> {
    targets.map_values(|to: Square| Move::normal(from, to))
}

/// The moves of a piece of type `pt` on `from`.
pub open spec fn piece_moves(s: State, pt: PieceType, from: Square) -> Seq<Move> {
    steps(from, bitboard::listed(reach(s, pt, from)))
}

/// The moves of the pieces of type `pt` on the given squares.
pub open spec fn all_piece_moves(s: State, pt: PieceType, squares: Seq<Square>) -> Seq<Move>
    decreases squares.len(),
{
    if squares.len() == 0 {
        Seq::empty()
    } else {
        piece_moves(s, pt, squares[0]) + all_piece_moves(s, pt, squares.drop_first())
    }
}

/// The moves of all own pieces of type `pt`.
pub open spec fn moves_of(s: State, pt: PieceType) -> Seq<Move> {
    all_piece_moves(s, pt, bitboard::listed(s.of(s.side, pt)))
}

/// The own king's square.
pub open spec fn own_king(s: State) -> Square {
    Square(s.king(s.side) as u8)
}

/// The rank a side castles on.
pub open spec fn home_rank(c: Color) -> int {
    match c {
        Color::White => 0,
        Color::Black => 7,
    }
}

/// The right to castle king-side.
pub open spec fn short_right(c: Color) -> u8 {
    match c {
        Color::White => WHITE_OO,
        Color::Black => BLACK_OO,
    }
}

/// The right to castle queen-side.
pub open spec fn long_right(c: Color) -> u8 {
    match c {
        Color::White => WHITE_OOO,
        Color::Black => BLACK_OOO,
    }
}

/// King-side castling is open: the right is held, and the f- and g-squares are
/// empty and not attacked.
pub open spec fn may_castle_short(s: State) -> bool {
    let r = home_rank(s.side);
    let them = s.side.flip();
    &&& s.castling & short_right(s.side) != 0
    &&& vacant(s, geometry::at(5, r)) && vacant(s, geometry::at(6, r))
    &&& !s.attacked(geometry::at(5, r), them) && !s.attacked(geometry::at(6, r), them)
}

/// Queen-side castling is open: the right is held, the b-, c- and d-squares are
/// empty, and the c- and d-squares are not attacked.
pub open spec fn may_castle_long(s: State) -> bool {
    let r = home_rank(s.side);
    let them = s.side.flip();
    &&& s.castling & long_right(s.side) != 0
    &&& vacant(s, geometry::at(3, r)) && vacant(s, geometry::at(2, r)) && vacant(
        s,
        geometry::at(1, r),
    )
    &&& !s.attacked(geometry::at(3, r), them) && !s.attacked(geometry::at(2, r), them)
}

/// The castling moves; there are none out of check.
pub open spec fn castling_moves(s: State) -> Seq<Move> {
    let r = home_rank(s.side);
    if s.checked(s.side) {
        Seq::empty()
    } else {
        (if may_castle_short(s) {
            seq![Move::castling(own_king(s), Square(geometry::at(7, r) as u8))]
        } else {
            Seq::empty()
        }) + (if may_castle_long(s) {
            seq![Move::castling(own_king(s), Square(geometry::at(0, r) as u8))]
        } else {
            Seq::empty()
        })
    }
}

/// All pseudo-legal moves, in the order of their generation.
pub open spec fn pseudo_legal(s: State) -> Seq<Move> {
    all_pawn_moves(s, bitboard::listed(s.of(s.side, PieceType::Pawn))) + moves_of(
        s,
        PieceType::Knight,
    ) + moves_of(s, PieceType::Bishop) + moves_of(s, PieceType::Rook) + moves_of(
        s,
        PieceType::Queen,
    ) + piece_moves(s, PieceType::King, own_king(s)) + castling_moves(s)
}

// ---------------------------------------------------------------------------
// Generators.
// ---------------------------------------------------------------------------

/// The first of several squares, and the rest.
proof fn lemma_head(first: Square, rest: Seq<Square>)
    ensures
        (seq![first] + rest)[0] == first,
        (seq![first] + rest).drop_first() == rest,
        (seq![first] + rest).len() == rest.len() + 1,
{
    assert((seq![first] + rest).drop_first() =~= rest);
}

/// Emit the four promotion moves (Queen, Rook, Bishop, Knight) for a pawn going
/// from `from` to `to`.
fn push_promotions(list: &mut MoveList, from: Square, to: Square)
    ensures
        final(list)@ == old(list)@ + promotions(from, to),
{
    list.push(Move::promotion(from, to, PieceType::Queen));
    list.push(Move::promotion(from, to, PieceType::Rook));
    list.push(Move::promotion(from, to, PieceType::Bishop));
    list.push(Move::promotion(from, to, PieceType::Knight));
    assert(list@ =~= old(list)@ + promotions(from, to));
}

/// Emit the move or the promotions of a pawn going from `from` to `to`.
fn push_pawn_step(list: &mut MoveList, us: Color, from: Square, to: Square)
    requires
        to.valid(),
    ensures
        final(list)@ == old(list)@ + pawn_step(us, from, to),
{
    let promo_rank: u8 = match us {
        Color::White => 7,
        Color::Black => 0,
    };
    if to.rank() == promo_rank {
        push_promotions(list, from, to);
    } else {
        list.push(Move::normal(from, to));
        assert(list@ =~= old(list)@ + pawn_step(us, from, to));
    }
}

/// Single and double pushes (never captures).
fn push_pawn_pushes(pos: &Position, us: Color, from: Square, empty: Bitboard, list: &mut MoveList)
    requires
        pos.wf(),
        us == pos@.side,
        from.valid(),
        forall|i: int| #[trigger] empty@.contains(i) <==> vacant(pos@, i),
    ensures
        final(list)@ == old(list)@ + pawn_pushes(pos@, from),
{
    let (forward, start_rank): (Direction, u8) = match us {
        Color::White => (Direction::North, 1),
        Color::Black => (Direction::South, 6),
    };
    if let Some(one) = from.offset(forward) {
        proof {
            assert(one.0 == ahead(us, from, 1));
            assert(empty@.contains(one.0 as int) == vacant(pos@, one.0 as int));
        }
        if empty.contains(one) {
            push_pawn_step(list, us, from, one);
            // Double push only from the starting rank, both squares empty.
            if from.rank() == start_rank {
                if let Some(two) = one.offset(forward) {
                    proof {
                        assert(two.0 == ahead(us, from, 2));
                        assert(empty@.contains(two.0 as int) == vacant(pos@, two.0 as int));
                    }
                    if empty.contains(two) {
                        list.push(Move::normal(from, two));
                    }
                }
            }
        }
    }
    assert(list@ =~= old(list)@ + pawn_pushes(pos@, from));
}

/// Diagonal captures (including capture-promotions).
fn push_pawn_captures(us: Color, from: Square, targets: Bitboard, list: &mut MoveList)
    ensures
        final(list)@ == old(list)@ + pawn_captures(us, from, bitboard::listed(targets@)),
{
    let mut rest: Bitboard = targets;
    let ghost whole = old(list)@ + pawn_captures(us, from, bitboard::listed(targets@));
    while rest.any()
        invariant
            whole == list@ + pawn_captures(us, from, bitboard::listed(rest@)),
        decreases bitboard::listed(rest@).len(),
    {
        let ghost before = list@;
        let to: Square = rest.pop_lsb();
        proof {
            lemma_head(to, bitboard::listed(rest@));
        }
        push_pawn_step(list, us, from, to);
        assert(before + (pawn_step(us, from, to) + pawn_captures(
            us,
            from,
            bitboard::listed(rest@),
        )) =~= list@ + pawn_captures(us, from, bitboard::listed(rest@)));
    }
    proof {
        bitboard::lemma_listed_empty(rest@);
        assert(list@ + pawn_captures(us, from, bitboard::listed(rest@)) =~= list@);
    }
}

/// The moves of the pawns.
fn generate_pawn_moves(pos: &Position, us: Color, list: &mut MoveList)
    requires
        pos.wf(),
        us == pos@.side,
    ensures
        final(list)@ == old(list)@ + all_pawn_moves(
            pos@,
            bitboard::listed(pos@.of(us, PieceType::Pawn)),
        ),
{
    let occupied: Bitboard = pos.occupied();
    let empty: Bitboard = Bitboard(!occupied.0);
    let enemies: Bitboard = pos.pieces(us.flip());
    let mut rest: Bitboard = pos.pieces_cp(us, PieceType::Pawn);
    let ghost whole = old(list)@ + all_pawn_moves(pos@, bitboard::listed(rest@));
    proof {
        assert forall|i: int| #[trigger] empty@.contains(i) <==> vacant(pos@, i) by {
            assert(occupied@.contains(i) == bitboard::bit(occupied.0, i));
        }
    }
    while rest.any()
        invariant
            pos.wf(),
            us == pos@.side,
            enemies@ == pos@.of_color(us.flip()),
            forall|i: int| #[trigger] empty@.contains(i) <==> vacant(pos@, i),
            whole == list@ + all_pawn_moves(pos@, bitboard::listed(rest@)),
        decreases bitboard::listed(rest@).len(),
    {
        let ghost before = list@;
        let from: Square = rest.pop_lsb();
        proof {
            lemma_head(from, bitboard::listed(rest@));
        }
        push_pawn_pushes(pos, us, from, empty, list);
        let attacked: Bitboard = pawn_attacks(us, from);
        let targets: Bitboard = attacked & enemies;
        assert(targets@ =~= pawn_prey(pos@, from));
        push_pawn_captures(us, from, targets, list);
        let ghost after_captures = list@;
        if let Some(ep) = pos.en_passant() {
            assert(attacked@.contains(ep.0 as int) == geometry::pawn_reaches(
                us,
                from.0 as int,
                ep.0 as int,
            ));
            if attacked.contains(ep) {
                list.push(Move::en_passant(from, ep));
            }
        }
        proof {
            assert(list@ =~= after_captures + pawn_en_passant(pos@, from));
            assert(list@ =~= before + pawn_moves(pos@, from));
            assert(before + (pawn_moves(pos@, from) + all_pawn_moves(
                pos@,
                bitboard::listed(rest@),
            )) =~= list@ + all_pawn_moves(pos@, bitboard::listed(rest@)));
        }
    }
    proof {
        bitboard::lemma_listed_empty(rest@);
        assert(list@ + all_pawn_moves(pos@, bitboard::listed(rest@)) =~= list@);
    }
}

/// The normal moves from `from` to every square of `targets`.
fn push_steps(from: Square, targets: Bitboard, list: &mut MoveList)
    ensures
        final(list)@ == old(list)@ + steps(from, bitboard::listed(targets@)),
{
    let mut rest: Bitboard = targets;
    let ghost whole = old(list)@ + steps(from, bitboard::listed(targets@));
    while rest.any()
        invariant
            whole == list@ + steps(from, bitboard::listed(rest@)),
        decreases bitboard::listed(rest@).len(),
    {
        let ghost before = list@;
        let ghost old_rest = rest@;
        let to: Square = rest.pop_lsb();
        list.push(Move::normal(from, to));
        proof {
            let tail = bitboard::listed(rest@);
            assert(steps(from, seq![to] + tail) =~= seq![Move::normal(from, to)] + steps(
                from,
                tail,
            ));
            assert(before + (seq![Move::normal(from, to)] + steps(from, tail)) =~= list@ + steps(
                from,
                tail,
            ));
        }
    }
    proof {
        bitboard::lemma_listed_empty(rest@);
        assert(list@ + steps(from, bitboard::listed(rest@)) =~= list@);
    }
}

/// The attacks of a piece of type `pt` other than a pawn.
fn piece_attacks(pt: PieceType, from: Square, occupied: Bitboard) -> (r: Bitboard)
    requires
        from.valid(),
        pt != PieceType::Pawn,
    ensures
        forall|t: int, c: Color|
            r@.contains(t) <==> #[trigger] geometry::attacks(
                Piece { color: c, piece_type: pt },
                from.0 as int,
                t,
                occupied@,
            ),
{
    match pt {
        PieceType::Knight | PieceType::Pawn => knight_attacks(from),
        PieceType::Bishop => bishop_attacks(from, occupied),
        PieceType::Rook => rook_attacks(from, occupied),
        PieceType::Queen => queen_attacks(from, occupied),
        PieceType::King => king_attacks(from),
    }
}

/// The moves of the piece of type `pt` on `from`.
fn push_piece_moves(
    pos: &Position,
    us: Color,
    pt: PieceType,
    from: Square,
    occupied: Bitboard,
    not_ours: Bitboard,
    list: &mut MoveList,
)
    requires
        pos.wf(),
        us == pos@.side,
        from.valid(),
        pt != PieceType::Pawn,
        occupied@ == pos@.occupied(),
        forall|i: int| #[trigger]
            not_ours@.contains(i) <==> geometry::on_board(i) && !pos@.of_color(us).contains(i),
    ensures
        final(list)@ == old(list)@ + piece_moves(pos@, pt, from),
{
    let targets: Bitboard = piece_attacks(pt, from, occupied) & not_ours;
    assert(targets@ =~= reach(pos@, pt, from)) by {
        assert forall|t: int| #[trigger] targets@.contains(t) == reach(pos@, pt, from).contains(
            t,
        ) by {
            assert(not_ours@.contains(t) <==> geometry::on_board(t) && !pos@.of_color(us).contains(
                t,
            ));
            assert(geometry::attacks(
                Piece { color: us, piece_type: pt },
                from.0 as int,
                t,
                occupied@,
            ) ==> geometry::on_board(t));
        }
    }
    push_steps(from, targets, list);
}

/// The moves of all pieces of type `pt`.
fn generate_piece_moves(pos: &Position, us: Color, pt: PieceType, list: &mut MoveList)
    requires
        pos.wf(),
        us == pos@.side,
        pt != PieceType::Pawn,
    ensures
        final(list)@ == old(list)@ + moves_of(pos@, pt),
{
    let occupied: Bitboard = pos.occupied();
    let ours: Bitboard = pos.pieces(us);
    let not_ours: Bitboard = Bitboard(!ours.0);
    let mut rest: Bitboard = pos.pieces_cp(us, pt);
    let ghost whole = old(list)@ + all_piece_moves(pos@, pt, bitboard::listed(rest@));
    proof {
        lemma_complement(ours, not_ours, pos@.of_color(us));
    }
    while rest.any()
        invariant
            pos.wf(),
            us == pos@.side,
            pt != PieceType::Pawn,
            occupied@ == pos@.occupied(),
            forall|i: int| #[trigger]
                not_ours@.contains(i) <==> geometry::on_board(i) && !pos@.of_color(us).contains(i),
            whole == list@ + all_piece_moves(pos@, pt, bitboard::listed(rest@)),
        decreases bitboard::listed(rest@).len(),
    {
        let ghost before = list@;
        let from: Square = rest.pop_lsb();
        proof {
            lemma_head(from, bitboard::listed(rest@));
        }
        push_piece_moves(pos, us, pt, from, occupied, not_ours, list);
        assert(before + (piece_moves(pos@, pt, from) + all_piece_moves(
            pos@,
            pt,
            bitboard::listed(rest@),
        )) =~= list@ + all_piece_moves(pos@, pt, bitboard::listed(rest@)));
    }
    proof {
        bitboard::lemma_listed_empty(rest@);
        assert(list@ + all_piece_moves(pos@, pt, bitboard::listed(rest@)) =~= list@);
    }
}

/// The complement of a bitboard.
proof fn lemma_complement(a: Bitboard, b: Bitboard, set: Set<int>)
    requires
        b.0 == !a.0,
        a@ == set,
    ensures
        forall|i: int| #[trigger]
            b@.contains(i) <==> geometry::on_board(i) && !set.contains(i),
{
    assert forall|i: int| #[trigger]
        b@.contains(i) <==> geometry::on_board(i) && !set.contains(i) by {
        assert(Bitboard(!a.0)@.contains(i) == b@.contains(i));
        assert(a@.contains(i) == bitboard::bit(a.0, i));
    }
}

/// The moves of the knights.
fn generate_knight_moves(pos: &Position, us: Color, list: &mut MoveList)
    requires
        pos.wf(),
        us == pos@.side,
    ensures
        final(list)@ == old(list)@ + moves_of(pos@, PieceType::Knight),
{
    generate_piece_moves(pos, us, PieceType::Knight, list);
}

/// The moves of the bishops, rooks and queens.
fn generate_slider_moves(pos: &Position, us: Color, list: &mut MoveList)
    requires
        pos.wf(),
        us == pos@.side,
    ensures
        final(list)@ == old(list)@ + moves_of(pos@, PieceType::Bishop) + moves_of(
            pos@,
            PieceType::Rook,
        ) + moves_of(pos@, PieceType::Queen),
{
    generate_piece_moves(pos, us, PieceType::Bishop, list);
    generate_piece_moves(pos, us, PieceType::Rook, list);
    generate_piece_moves(pos, us, PieceType::Queen, list);
}

/// The moves of the king, castling aside.
fn generate_king_moves(pos: &Position, us: Color, list: &mut MoveList)
    requires
        pos.wf(),
        us == pos@.side,
        pos@.has_king(us),
    ensures
        final(list)@ == old(list)@ + piece_moves(pos@, PieceType::King, own_king(pos@)),
{
    let from: Square = pos.king_square(us);
    let ours: Bitboard = pos.pieces(us);
    let not_ours: Bitboard = Bitboard(!ours.0);
    proof {
        lemma_complement(ours, not_ours, pos@.of_color(us));
    }
    push_piece_moves(pos, us, PieceType::King, from, pos.occupied(), not_ours, list);
}

/// Castling, with its conditions verified in full.
fn generate_castling(pos: &Position, us: Color, list: &mut MoveList)
    requires
        pos.wf(),
        us == pos@.side,
        pos@.has_king(us),
    ensures
        final(list)@ == old(list)@ + castling_moves(pos@),
{
    let them: Color = us.flip();
    let rights: u8 = pos.castling_rights();
    let occ: Bitboard = pos.occupied();
    let king_from: Square = pos.king_square(us);

    // No castling while in check.
    if pos.is_attacked(king_from, them) {
        assert(list@ =~= old(list)@ + castling_moves(pos@));
        return;
    }

    // Per-color right bits and home rank.
    let (oo, ooo, rank): (u8, u8, u8) = match us {
        Color::White => (WHITE_OO, WHITE_OOO, 0),
        Color::Black => (BLACK_OO, BLACK_OOO, 7),
    };
    proof {
        assert forall|i: int| geometry::on_board(i) implies (!#[trigger] occ@.contains(i)
            <==> vacant(pos@, i)) by {}
    }

    // King-side: king e -> g, transit f,g must be empty and unattacked; rook on h
    // moves to f.
    if rights & oo != 0 {
        let f: Square = Square::make(5, rank);
        let g: Square = Square::make(6, rank);
        let rook: Square = Square::make(7, rank);
        let squares_empty: bool = !occ.contains(f) && !occ.contains(g);
        let path_safe: bool = !pos.is_attacked(f, them) && !pos.is_attacked(g, them);
        if squares_empty && path_safe {
            list.push(Move::castling(king_from, rook));
        }
    }

    // Queen-side: king e -> c, transit d,c must be empty and unattacked; b must be
    // empty (but need not be unattacked); rook on a moves to d.
    if rights & ooo != 0 {
        let d: Square = Square::make(3, rank);
        let c: Square = Square::make(2, rank);
        let b: Square = Square::make(1, rank);
        let rook: Square = Square::make(0, rank);
        let squares_empty: bool = !occ.contains(d) && !occ.contains(c) && !occ.contains(b);
        let path_safe: bool = !pos.is_attacked(d, them) && !pos.is_attacked(c, them);
        if squares_empty && path_safe {
            list.push(Move::castling(king_from, rook));
        }
    }
    assert(list@ =~= old(list)@ + castling_moves(pos@));
}

/// Generate every pseudo-legal move for the side to move (no king-safety filter,
/// except that castling is fully validated).
pub fn generate_pseudo_legal(pos: &Position) -> (r: MoveList)
    requires
        pos.wf(),
        pos@.has_king(pos@.side),
    ensures
        r@ == pseudo_legal(pos@),
{
    let mut list: MoveList = MoveList::new();
    let us: Color = pos.side_to_move();
    generate_pawn_moves(pos, us, &mut list);
    assert(list@ =~= all_pawn_moves(pos@, bitboard::listed(pos@.of(us, PieceType::Pawn))));
    generate_knight_moves(pos, us, &mut list);
    generate_slider_moves(pos, us, &mut list);
    generate_king_moves(pos, us, &mut list);
    generate_castling(pos, us, &mut list);
    list
}

// ---------------------------------------------------------------------------
// The legal moves.
// ---------------------------------------------------------------------------

/// An enemy piece on `q` gives check.
pub open spec fn is_checker(s: State, q: int) -> bool {
    &&& s.of_color(s.side.flip()).contains(q)
    &&& s.attackers(s.king(s.side), s.occupied()).contains(q)
}

/// Two enemy pieces give check.
pub open spec fn double_check(s: State) -> bool {
    exists|p: int, q: int| p != q && #[trigger] is_checker(s, p) && #[trigger] is_checker(s, q)
}

/// No enemy piece attacks `t` with the own king off the board (so that the king
/// does not shadow its own way out).
pub open spec fn sheltered(s: State, t: int) -> bool {
    forall|q: int| #[trigger]
        s.of_color(s.side.flip()).contains(q) ==> !geometry::attacks(
            s.board[q]->0,
            q,
            t,
            s.occupied().remove(s.king(s.side)),
        )
}

/// A piece landing on `t` deals with every check: it captures the checker or
/// steps in between.
pub open spec fn resolves(s: State, t: int) -> bool {
    forall|q: int| #[trigger]
        is_checker(s, q) ==> t == q || geometry::between(s.king(s.side), q, t)
}

/// The enemy piece on `q` would attack the own king on an otherwise empty board,
/// and it is a slider.
pub open spec fn is_sniper(s: State, q: int) -> bool {
    let k = s.king(s.side);
    &&& s.of_color(s.side.flip()).contains(q)
    &&& match s.board[q]->0.piece_type {
        PieceType::Rook => geometry::straight(k, q),
        PieceType::Bishop => geometry::diagonal(k, q),
        PieceType::Queen => geometry::aligned(k, q),
        _ => false,
    }
}

/// The piece on `x` is all that stands between the own king and `q`.
pub open spec fn sole_blocker(s: State, q: int, x: int) -> bool {
    let k = s.king(s.side);
    &&& geometry::between(k, q, x)
    &&& s.occupied().contains(x)
    &&& forall|y: int| #[trigger]
        geometry::between(k, q, y) && s.occupied().contains(y) ==> y == x
}

/// The own piece on `x` is pinned to the king.
pub open spec fn is_pinned(s: State, x: int) -> bool {
    &&& s.of_color(s.side).contains(x)
    &&& exists|q: int| #[trigger] is_sniper(s, q) && sole_blocker(s, q, x)
}

/// The pseudo-legal move `m` is found legal:
///
/// * in double check, only the king can move, to a square that is safe once it
///   has left its own;
/// * castling has been verified already;
/// * any king move must go to a safe square;
/// * an en-passant capture must not leave the king attacked;
/// * any other move must resolve a check, and a pinned piece must stay on the
///   line through it and the king.
pub open spec fn accepts(s: State, m: Move) -> bool {
    let k = s.king(s.side);
    let from = m.from_sq().0 as int;
    let to = m.to_sq().0 as int;
    if double_check(s) {
        from == k && sheltered(s, to)
    } else if m.move_type() == MoveType::Castling {
        true
    } else if from == k {
        sheltered(s, to)
    } else if m.move_type() == MoveType::EnPassant {
        !s.make(m).checked(s.side)
    } else {
        resolves(s, to) && (is_pinned(s, from) ==> geometry::on_line(k, from, to))
    }
}

/// The moves of a list that are found legal, in their order.
pub open spec fn accepted(s: State, moves: Seq<Move>) -> Seq<Move>
    decreases moves.len(),
{
    if moves.len() == 0 {
        moves
    } else {
        let rest = accepted(s, moves.drop_last());
        if accepts(s, moves.last()) {
            rest.push(moves.last())
        } else {
            rest
        }
    }
}

/// The legal moves, in the order of their generation.
pub open spec fn legal(s: State) -> Seq<Move> {
    accepted(s, pseudo_legal(s))
}

/// The en-passant captures that the target offers can be carried out, and leave
/// the own king on the board.
pub open spec fn ep_playable(s: State) -> bool {
    forall|m: Move| #[trigger]
        legality::is_pseudo_legal(s, m) && m.move_type() == MoveType::EnPassant ==> s.movable(m)
            && s.clocks_fit(m) && s.make(m).has_king(s.side)
}

/// Whether the king may step to `to`: no enemy piece attacks it once the king is
/// removed from the occupancy.
fn king_destination_safe(pos: &Position, them: Color, to: Square, occ_without_king: Bitboard) -> (r:
    bool)
    requires
        pos.wf(),
        to.valid(),
        them == pos@.side.flip(),
        occ_without_king@ == pos@.occupied().remove(pos@.king(pos@.side)),
    ensures
        r == sheltered(pos@, to.0 as int),
{
    let attackers: Bitboard = pos.attackers_to(to, occ_without_king) & pos.pieces(them);
    proof {
        bitboard::lemma_empty();
        if !sheltered(pos@, to.0 as int) {
            let q = choose|q: int| #[trigger]
                pos@.of_color(them).contains(q) && geometry::attacks(
                    pos@.board[q]->0,
                    q,
                    to.0 as int,
                    occ_without_king@,
                );
            assert(attackers@.contains(q));
        }
        assert forall|q: int| #[trigger] attackers@.contains(q) implies !sheltered(
            pos@,
            to.0 as int,
        ) by {
            assert(pos@.of_color(them).contains(q));
        }
    }
    !attackers.any()
}

/// The set of own pieces pinned to the king by an enemy slider.
fn compute_pinned(pos: &Position, us: Color, them: Color, ksq: Square, occupied: Bitboard) -> (r:
    Bitboard)
    requires
        pos.wf(),
        us == pos@.side,
        them == us.flip(),
        ksq.valid(),
        ksq.0 == pos@.king(us),
        occupied@ == pos@.occupied(),
    ensures
        forall|x: int| #[trigger] r@.contains(x) <==> is_pinned(pos@, x),
{
    let ghost s = pos@;
    let ghost k = ksq.0 as int;
    let their_pieces: Bitboard = pos.pieces(them);
    let queens: Bitboard = pos.pieces_type(PieceType::Queen);
    let their_rooks_queens: Bitboard = (pos.pieces_type(PieceType::Rook) | queens) & their_pieces;
    let their_bishops_queens: Bitboard = (pos.pieces_type(PieceType::Bishop) | queens)
        & their_pieces;

    // Enemy sliders that would hit the king if nothing were in the way.
    let snipers: Bitboard = (rook_attacks(ksq, Bitboard::empty()) & their_rooks_queens) | (
    bishop_attacks(ksq, Bitboard::empty()) & their_bishops_queens);
    let our_pieces: Bitboard = pos.pieces(us);
    let mut pinned: Bitboard = Bitboard::empty();
    let mut rest: Bitboard = snipers;
    proof {
        bitboard::lemma_empty();
        assert forall|q: int| #[trigger] snipers@.contains(q) <==> is_sniper(s, q) by {
            assert(geometry::clear(k, q, Set::empty()));
        }
    }
    while rest.any()
        invariant
            pos.wf(),
            s == pos@,
            us == s.side,
            k == s.king(us),
            k == ksq.0,
            ksq.valid(),
            occupied@ == s.occupied(),
            our_pieces@ == s.of_color(us),
            forall|q: int| #[trigger] snipers@.contains(q) <==> is_sniper(s, q),
            forall|q: int| #[trigger] rest@.contains(q) ==> snipers@.contains(q),
            forall|x: int| #[trigger]
                pinned@.contains(x) <==> s.of_color(us).contains(x) && exists|q: int|
                    #![trigger is_sniper(s, q)]
                    is_sniper(s, q) && !rest@.contains(q) && sole_blocker(s, q, x),
        decreases bitboard::listed(rest@).len(),
    {
        let ghost old_pinned = pinned@;
        let ghost old_rest = rest@;
        let sniper: Square = rest.pop_lsb();
        let ghost q0 = sniper.0 as int;
        assert(is_sniper(s, q0)) by {
            assert(old_rest.contains(q0));
            assert(snipers@.contains(q0));
        }
        // Everything sitting between the king and this sniper.
        let blockers: Bitboard = bitboard::between(ksq, sniper) & occupied;
        // Exactly one blocker, and it is ours: pinned.
        let ours: Bitboard = blockers & our_pieces;
        proof {
            bitboard::lemma_empty();
            assert forall|y: int| #[trigger] blockers@.contains(y) <==> geometry::between(k, q0, y)
                && s.occupied().contains(y) by {}
        }
        let several: bool = blockers.more_than_one();
        if !several && ours.any() {
            pinned = pinned | ours;
        }
        proof {
            assert forall|x: int| #[trigger] pinned@.contains(x) <==> old_pinned.contains(x) || (
            s.of_color(us).contains(x) && sole_blocker(s, q0, x)) by {
                if s.of_color(us).contains(x) && sole_blocker(s, q0, x) {
                    assert(blockers@.contains(x));
                    assert(ours@.contains(x));
                    if several {
                        let (i, j) = choose|i: int, j: int|
                            i != j && blockers@.contains(i) && blockers@.contains(j);
                        assert(geometry::between(k, q0, i) && geometry::between(k, q0, j));
                        assert(false);
                    }
                }
                if !several && ours@.contains(x) {
                    assert(blockers@.contains(x));
                    assert forall|y: int| #[trigger]
                        geometry::between(k, q0, y) && s.occupied().contains(y) implies y
                        == x by {
                        assert(blockers@.contains(y));
                    }
                }
            }
            assert forall|x: int| #[trigger] pinned@.contains(x) <==> s.of_color(us).contains(x)
                && exists|q: int|
                #![trigger is_sniper(s, q)]
                is_sniper(s, q) && !rest@.contains(q) && sole_blocker(s, q, x) by {
                if old_pinned.contains(x) {
                    let q = choose|q: int|
                        #![trigger is_sniper(s, q)]
                        is_sniper(s, q) && !old_rest.contains(q) && sole_blocker(s, q, x);
                    assert(is_sniper(s, q) && !rest@.contains(q));
                }
                if s.of_color(us).contains(x) && sole_blocker(s, q0, x) {
                    assert(is_sniper(s, q0) && !rest@.contains(q0));
                }
                if exists|q: int|
                    #![trigger is_sniper(s, q)]
                    is_sniper(s, q) && !rest@.contains(q) && sole_blocker(s, q, x) {
                    let q = choose|q: int|
                        #![trigger is_sniper(s, q)]
                        is_sniper(s, q) && !rest@.contains(q) && sole_blocker(s, q, x);
                    if q != q0 {
                        assert(!old_rest.contains(q));
                    }
                }
            }
        }
    }
    proof {
        bitboard::lemma_empty();
        assert forall|x: int| #[trigger] pinned@.contains(x) <==> is_pinned(s, x) by {
            if is_pinned(s, x) {
                let q = choose|q: int| #[trigger] is_sniper(s, q) && sole_blocker(s, q, x);
                assert(is_sniper(s, q) && !rest@.contains(q));
            }
        }
    }
    pinned
}

/// The next move of a list, added to what has been accepted so far.
proof fn lemma_accepted_step(s: State, moves: Seq<Move>, i: int)
    requires
        0 <= i < moves.len(),
    ensures
        accepted(s, moves.take(i + 1)) == (if accepts(s, moves[i]) {
            accepted(s, moves.take(i)).push(moves[i])
        } else {
            accepted(s, moves.take(i))
        }),
{
    assert(moves.take(i + 1).drop_last() =~= moves.take(i));
}

/// Generate every fully legal move for the side to move.
///
/// Rather than making and unmaking every pseudo-legal move to test king safety,
/// the checkers and the pinned own pieces are computed once, and each move's
/// legality is decided from them. Only en-passant captures, which can expose a
/// rare horizontal discovered check, are made and unmade. The position is
/// identical on return.
pub fn generate_legal(pos: &mut Position) -> (r: MoveList)
    requires
        old(pos).wf(),
        old(pos)@.has_king(old(pos)@.side),
        double_check(old(pos)@) || ep_playable(old(pos)@),
    ensures
        r@ == legal(old(pos)@),
        *final(pos) == *old(pos),
{
    let ghost s = pos@;
    let pseudo: MoveList = generate_pseudo_legal(pos);
    let us: Color = pos.side_to_move();
    let them: Color = us.flip();
    let ksq: Square = pos.king_square(us);
    let occupied: Bitboard = pos.occupied();
    let ghost k = ksq.0 as int;

    // Enemy pieces currently attacking our king.
    let checkers: Bitboard = pos.attackers_to(ksq, occupied) & pos.pieces(them);
    let pinned: Bitboard = compute_pinned(pos, us, them, ksq, occupied);
    let king_only: Bitboard = Bitboard::from_square(ksq);
    let occ_without_king: Bitboard = occupied ^ king_only;
    let mut legal: MoveList = MoveList::new();
    proof {
        assert(s.occupied().contains(k));
        assert(occ_without_king@ =~= s.occupied().remove(k));
        assert forall|q: int| #[trigger] checkers@.contains(q) <==> is_checker(s, q) by {}
        assert(accepted(s, pseudo@.take(0)) =~= Seq::<Move>::empty());
    }

    // Double check: only the king may move, and only to a square the enemy does
    // not attack once the king itself no longer blocks the incoming rays.
    if checkers.more_than_one() {
        proof {
            let (p, q) = choose|p: int, q: int|
                p != q && checkers@.contains(p) && checkers@.contains(q);
            assert(is_checker(s, p) && is_checker(s, q));
        }
        let mut i: usize = 0;
        while i < pseudo.len()
            invariant
                i <= pseudo@.len(),
                pos.wf(),
                *pos == *old(pos),
                pos@ == s,
                us == s.side,
                them == us.flip(),
                k == s.king(us),
                k == ksq.0,
                double_check(s),
                occ_without_king@ == s.occupied().remove(k),
                legal@ == accepted(s, pseudo@.take(i as int)),
            decreases pseudo@.len() - i,
        {
            let m: Move = pseudo.get(i);
            proof {
                lemma_accepted_step(s, pseudo@, i as int);
            }
            if m.from_sq() == ksq && king_destination_safe(
                pos,
                them,
                m.to_sq(),
                occ_without_king,
            ) {
                legal.push(m);
            }
            i = i + 1;
        }
        assert(pseudo@.take(i as int) =~= pseudo@);
        return legal;
    }
    proof {
        assert(!double_check(s)) by {
            if double_check(s) {
                let (p, q) = choose|p: int, q: int|
                    p != q && #[trigger] is_checker(s, p) && #[trigger] is_checker(s, q);
                assert(checkers@.contains(p) && checkers@.contains(q));
            }
        }
    }

    // Single check: the squares a non-king move may land on to resolve the check
    // (capture the checker, or block between it and the king).
    let check_mask: Bitboard = if checkers.any() {
        let checker_sq: Square = checkers.lsb();
        let between: Bitboard = bitboard::between(ksq, checker_sq);
        let mask: Bitboard = between | checkers;
        proof {
            let c = checker_sq.0 as int;
            assert(is_checker(s, c));
            assert forall|t: int| #[trigger] mask@.contains(t) <==> geometry::on_board(t)
                && resolves(s, t) by {
                if mask@.contains(t) {
                    assert forall|q: int| #[trigger] is_checker(s, q) implies t == q
                        || geometry::between(k, q, t) by {
                        assert(checkers@.contains(q) && checkers@.contains(c));
                    }
                    if checkers@.contains(t) {
                        assert(is_checker(s, t));
                    }
                }
                if resolves(s, t) {
                    assert(t == c || geometry::between(k, c, t));
                }
            }
        }
        mask
    } else {
        // Not in check: any target square is fine.
        let mask: Bitboard = Bitboard::full();
        proof {
            bitboard::lemma_empty();
            assert forall|t: int| #[trigger] mask@.contains(t) <==> geometry::on_board(t)
                && resolves(s, t) by {
                assert forall|q: int| #[trigger] is_checker(s, q) implies t == q
                    || geometry::between(k, q, t) by {
                    assert(checkers@.contains(q));
                }
            }
        }
        mask
    };

    let mut i: usize = 0;
    while i < pseudo.len()
        invariant
            i <= pseudo@.len(),
            pos.wf(),
            *pos == *old(pos),
            pos@ == s,
            us == s.side,
            them == us.flip(),
            k == s.king(us),
            k == ksq.0,
            ksq.valid(),
            s.has_king(us),
            !double_check(s),
            ep_playable(s),
            pseudo@ == pseudo_legal(s),
            occ_without_king@ == s.occupied().remove(k),
            forall|t: int| #[trigger]
                check_mask@.contains(t) <==> geometry::on_board(t) && resolves(s, t),
            forall|x: int| #[trigger] pinned@.contains(x) <==> is_pinned(s, x),
            legal@ == accepted(s, pseudo@.take(i as int)),
        decreases pseudo@.len() - i,
    {
        let m: Move = pseudo.get(i);
        let from: Square = m.from_sq();
        let to: Square = m.to_sq();
        proof {
            lemma_accepted_step(s, pseudo@, i as int);
        }
        i = i + 1;

        // Castling was fully verified during pseudo-legal generation.
        if m.move_type() == MoveType::Castling {
            legal.push(m);
            continue;
        }

        // King moves: legal iff the destination is not attacked with the king
        // lifted off the board.
        if from == ksq {
            if king_destination_safe(pos, them, to, occ_without_king) {
                legal.push(m);
            }
            continue;
        }

        // En passant is verified the slow, sure way: it can expose a rare
        // horizontal discovered check, and its destination can lie off the check
        // mask when the captured pawn is itself the checker.
        if m.move_type() == MoveType::EnPassant {
            proof {
                assert(pseudo@.contains(m));
                legality::law_pseudo_legal_moves(s, m);
                legality::lemma_en_passant(s, m);
            }
            let undo: Undo = pos.make_move(m);
            let ok: bool = !pos.is_attacked(pos.king_square(us), them);
            proof {
                state::law_undo_restores(s, m, undo);
            }
            pos.undo_move(m, undo);
            proof {
                Position::lemma_ext(*pos, *old(pos));
            }
            if ok {
                legal.push(m);
            }
            continue;
        }

        // Non-king moves must resolve any check: land on the check mask.
        assert(check_mask@.contains(to.0 as int) <==> resolves(s, to.0 as int));
        if !check_mask.contains(to) {
            continue;
        }

        // A pinned piece may only move along the line through it and the king.
        assert(pinned@.contains(from.0 as int) <==> is_pinned(s, from.0 as int));
        if pinned.contains(from) && !bitboard::line(ksq, from).contains(to) {
            continue;
        }
        legal.push(m);
    }
    assert(pseudo@.take(i as int) =~= pseudo@);
    legal
}

} // verus!
