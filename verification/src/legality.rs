//! What the generated moves are, as rules of chess.

use vstd::prelude::*;
use crate::bitboard;
use crate::geometry;
use crate::movegen;
use crate::position::{BLACK_OO, BLACK_OOO, WHITE_OO, WHITE_OOO};
use crate::state;
use crate::state::State;
use crate::types::{Color, Move, MoveType, Piece, PieceType, Square};

verus! {

// ---------------------------------------------------------------------------
// The pseudo-legal moves, one by one.
// ---------------------------------------------------------------------------

/// `m` takes a pawn of color `c` from `from` to `to`, promoting if it must.
pub open spec fn is_pawn_step(c: Color, from: Square, to: Square, m: Move) -> bool {
    &&& m.from_sq() == from
    &&& m.to_sq() == to
    &&& if geometry::rank(to.0 as int) == movegen::promotion_rank(c) {
        m.move_type() == MoveType::Promotion
    } else {
        m == Move::normal(from, to)
    }
}

/// `m` is a push, a double push, a capture or an en-passant capture of the pawn
/// on its origin square.
pub open spec fn is_pawn_move(s: State, m: Move) -> bool {
    let from = m.from_sq();
    let to = m.to_sq();
    let one = movegen::ahead(s.side, from, 1);
    let two = movegen::ahead(s.side, from, 2);
    ||| to.0 == one && movegen::vacant(s, one) && is_pawn_step(s.side, from, to, m)
    ||| to.0 == two && movegen::vacant(s, one) && movegen::vacant(s, two) && geometry::rank(
        from.0 as int,
    ) == movegen::pawn_rank(s.side) && m == Move::normal(from, to)
    ||| movegen::pawn_prey(s, from).contains(to.0 as int) && is_pawn_step(s.side, from, to, m)
    ||| s.ep == Some(to) && geometry::pawn_reaches(s.side, from.0 as int, to.0 as int) && m
        == Move::en_passant(from, to)
}

/// `m` is a castling move whose conditions hold.
pub open spec fn is_castling(s: State, m: Move) -> bool {
    let r = movegen::home_rank(s.side);
    &&& !s.checked(s.side)
    &&& m == Move::castling(movegen::own_king(s), m.to_sq())
    &&& {
        ||| m.to_sq().0 == geometry::at(7, r) && movegen::may_castle_short(s)
        ||| m.to_sq().0 == geometry::at(0, r) && movegen::may_castle_long(s)
    }
}

/// `m` moves a piece other than a pawn to a square it attacks that no own piece
/// occupies. (Of several kings, only the one on the lowest square moves.)
pub open spec fn is_piece_move(s: State, m: Move) -> bool {
    let from = m.from_sq();
    &&& m == Move::normal(from, m.to_sq())
    &&& s.at(from) matches Some(p) && {
        &&& p.color == s.side
        &&& p.piece_type != PieceType::Pawn
        &&& movegen::reach(s, p.piece_type, from).contains(m.to_sq().0 as int)
        &&& p.piece_type == PieceType::King ==> from == movegen::own_king(s)
    }
}

/// `m` obeys how its piece steps and captures.
pub open spec fn is_pseudo_legal(s: State, m: Move) -> bool {
    ||| s.holds(m.from_sq().0 as int, s.side, PieceType::Pawn) && is_pawn_move(s, m)
    ||| is_piece_move(s, m)
    ||| is_castling(s, m)
}

proof fn lemma_add_contains(a: Seq<Move>, b: Seq<Move>, m: Move)
    ensures
        (a + b).contains(m) <==> a.contains(m) || b.contains(m),
{
    if a.contains(m) {
        let i = choose|i: int| 0 <= i < a.len() && a[i] == m;
        assert((a + b)[i] == m);
    }
    if b.contains(m) {
        let i = choose|i: int| 0 <= i < b.len() && b[i] == m;
        assert((a + b)[a.len() + i] == m);
    }
    if (a + b).contains(m) {
        let i = choose|i: int| 0 <= i < (a + b).len() && (a + b)[i] == m;
        if i < a.len() {
            assert(a[i] == m);
        } else {
            assert(b[i - a.len()] == m);
        }
    }
}

proof fn lemma_one(a: Move, m: Move)
    ensures
        seq![a].contains(m) <==> m == a,
{
    assert(seq![a][0] == a);
}

proof fn lemma_normal(from: Square, to: Square)
    requires
        from.valid(),
        to.valid(),
    ensures
        Move::normal(from, to).from_sq() == from,
        Move::normal(from, to).to_sq() == to,
        Move::normal(from, to).move_type() == MoveType::Normal,
{
    Move::lemma_parts(from, to, 0, MoveType::Normal);
}

proof fn lemma_promotion(from: Square, to: Square, pt: PieceType)
    requires
        from.valid(),
        to.valid(),
        pt != PieceType::Pawn,
        pt != PieceType::King,
    ensures
        Move::promotion(from, to, pt).from_sq() == from,
        Move::promotion(from, to, pt).to_sq() == to,
        Move::promotion(from, to, pt).move_type() == MoveType::Promotion,
        Move::promotion(from, to, pt).promotion_type() == pt,
{
    Move::lemma_parts(from, to, (pt.index() - 1) as u16, MoveType::Promotion);
}

proof fn lemma_pawn_step_members(c: Color, from: Square, to: Square, m: Move)
    requires
        from.valid(),
        to.valid(),
    ensures
        movegen::pawn_step(c, from, to).contains(m) <==> is_pawn_step(c, from, to, m),
{
    let list = movegen::pawn_step(c, from, to);
    if geometry::rank(to.0 as int) == movegen::promotion_rank(c) {
        let q = Move::promotion(from, to, PieceType::Queen);
        let r = Move::promotion(from, to, PieceType::Rook);
        let b = Move::promotion(from, to, PieceType::Bishop);
        let n = Move::promotion(from, to, PieceType::Knight);
        lemma_promotion(from, to, PieceType::Queen);
        lemma_promotion(from, to, PieceType::Rook);
        lemma_promotion(from, to, PieceType::Bishop);
        lemma_promotion(from, to, PieceType::Knight);
        assert(list[0] == q && list[1] == r && list[2] == b && list[3] == n);
        if is_pawn_step(c, from, to, m) {
            if m.promotion_type() == PieceType::Queen {
                Move::lemma_ext(m, q);
            } else if m.promotion_type() == PieceType::Rook {
                Move::lemma_ext(m, r);
            } else if m.promotion_type() == PieceType::Bishop {
                Move::lemma_ext(m, b);
            } else {
                Move::lemma_ext(m, n);
            }
        }
    } else {
        lemma_one(Move::normal(from, to), m);
        lemma_normal(from, to);
    }
}

proof fn lemma_pawn_captures_members(c: Color, from: Square, targets: Seq<Square>, m: Move)
    requires
        from.valid(),
        forall|j: int| 0 <= j < targets.len() ==> (#[trigger] targets[j]).valid(),
    ensures
        movegen::pawn_captures(c, from, targets).contains(m) <==> targets.contains(m.to_sq())
            && is_pawn_step(c, from, m.to_sq(), m),
    decreases targets.len(),
{
    if targets.len() > 0 {
        let rest = targets.drop_first();
        assert forall|j: int| 0 <= j < rest.len() implies (#[trigger] rest[j]).valid() by {
            assert(rest[j] == targets[j + 1]);
        }
        lemma_pawn_captures_members(c, from, rest, m);
        lemma_pawn_step_members(c, from, targets[0], m);
        lemma_add_contains(
            movegen::pawn_step(c, from, targets[0]),
            movegen::pawn_captures(c, from, rest),
            m,
        );
        lemma_first_or_rest(targets, m.to_sq());
    }
}

proof fn lemma_first_or_rest(list: Seq<Square>, x: Square)
    requires
        list.len() > 0,
    ensures
        list.contains(x) <==> x == list[0] || list.drop_first().contains(x),
{
    let rest = list.drop_first();
    if rest.contains(x) {
        let i = choose|i: int| 0 <= i < rest.len() && rest[i] == x;
        assert(list[i + 1] == x);
    }
    if list.contains(x) {
        let i = choose|i: int| 0 <= i < list.len() && list[i] == x;
        if i > 0 {
            assert(rest[i - 1] == x);
        }
    }
}

proof fn lemma_pawn_moves_members(s: State, from: Square, m: Move)
    requires
        s.valid(),
        from.valid(),
    ensures
        movegen::pawn_moves(s, from).contains(m) <==> m.from_sq() == from && is_pawn_move(s, m),
{
    let one = movegen::ahead(s.side, from, 1);
    let two = movegen::ahead(s.side, from, 2);
    let prey = movegen::pawn_prey(s, from);
    let targets = bitboard::listed(prey);
    let to = m.to_sq();
    bitboard::lemma_ascending(prey, 64);
    lemma_pawn_captures_members(s.side, from, targets, m);
    let pushes = movegen::pawn_pushes(s, from);
    let captures = movegen::pawn_captures(s.side, from, targets);
    let ep = movegen::pawn_en_passant(s, from);
    lemma_add_contains(pushes + captures, ep, m);
    lemma_add_contains(pushes, captures, m);
    assert(targets.contains(to) <==> prey.contains(to.0 as int));
    // Pushes.
    if movegen::vacant(s, one) {
        let first = movegen::pawn_step(s.side, from, Square(one as u8));
        lemma_pawn_step_members(s.side, from, Square(one as u8), m);
        if geometry::rank(from.0 as int) == movegen::pawn_rank(s.side) && movegen::vacant(s, two) {
            let second = seq![Move::normal(from, Square(two as u8))];
            lemma_one(Move::normal(from, Square(two as u8)), m);
            lemma_normal(from, Square(two as u8));
            lemma_add_contains(first, second, m);
        } else {
            lemma_add_contains(first, Seq::empty(), m);
        }
    }
    // En passant.
    if let Some(t) = s.ep {
        Move::lemma_parts(from, t, 0, MoveType::EnPassant);
        lemma_one(Move::en_passant(from, t), m);
    }
}

proof fn lemma_all_pawn_moves_members(s: State, squares: Seq<Square>, m: Move)
    requires
        s.valid(),
        forall|j: int| 0 <= j < squares.len() ==> (#[trigger] squares[j]).valid(),
    ensures
        movegen::all_pawn_moves(s, squares).contains(m) <==> squares.contains(m.from_sq())
            && is_pawn_move(s, m),
    decreases squares.len(),
{
    if squares.len() > 0 {
        let rest = squares.drop_first();
        assert forall|j: int| 0 <= j < rest.len() implies (#[trigger] rest[j]).valid() by {
            assert(rest[j] == squares[j + 1]);
        }
        lemma_all_pawn_moves_members(s, rest, m);
        lemma_pawn_moves_members(s, squares[0], m);
        lemma_add_contains(
            movegen::pawn_moves(s, squares[0]),
            movegen::all_pawn_moves(s, rest),
            m,
        );
        lemma_first_or_rest(squares, m.from_sq());
    }
}

proof fn lemma_piece_moves_members(s: State, pt: PieceType, from: Square, m: Move)
    requires
        from.valid(),
    ensures
        movegen::piece_moves(s, pt, from).contains(m) <==> m == Move::normal(from, m.to_sq())
            && m.from_sq() == from && movegen::reach(s, pt, from).contains(m.to_sq().0 as int),
{
    let set = movegen::reach(s, pt, from);
    let targets = bitboard::listed(set);
    let list = movegen::piece_moves(s, pt, from);
    bitboard::lemma_ascending(set, 64);
    if list.contains(m) {
        let i = choose|i: int| 0 <= i < list.len() && list[i] == m;
        assert(m == Move::normal(from, targets[i]));
        lemma_normal(from, targets[i]);
    }
    if m == Move::normal(from, m.to_sq()) && set.contains(m.to_sq().0 as int) {
        assert(targets.contains(m.to_sq()));
        let i = choose|i: int| 0 <= i < targets.len() && targets[i] == m.to_sq();
        assert(list[i] == m);
        lemma_normal(from, m.to_sq());
    }
}

proof fn lemma_all_piece_moves_members(s: State, pt: PieceType, squares: Seq<Square>, m: Move)
    requires
        forall|j: int| 0 <= j < squares.len() ==> (#[trigger] squares[j]).valid(),
    ensures
        movegen::all_piece_moves(s, pt, squares).contains(m) <==> squares.contains(m.from_sq())
            && m == Move::normal(m.from_sq(), m.to_sq()) && movegen::reach(
            s,
            pt,
            m.from_sq(),
        ).contains(m.to_sq().0 as int),
    decreases squares.len(),
{
    if squares.len() > 0 {
        let rest = squares.drop_first();
        assert forall|j: int| 0 <= j < rest.len() implies (#[trigger] rest[j]).valid() by {
            assert(rest[j] == squares[j + 1]);
        }
        lemma_all_piece_moves_members(s, pt, rest, m);
        lemma_piece_moves_members(s, pt, squares[0], m);
        lemma_add_contains(
            movegen::piece_moves(s, pt, squares[0]),
            movegen::all_piece_moves(s, pt, rest),
            m,
        );
        lemma_first_or_rest(squares, m.from_sq());
    }
}

proof fn lemma_moves_of_members(s: State, pt: PieceType, m: Move)
    ensures
        movegen::moves_of(s, pt).contains(m) <==> s.holds(m.from_sq().0 as int, s.side, pt) && m
            == Move::normal(m.from_sq(), m.to_sq()) && movegen::reach(
            s,
            pt,
            m.from_sq(),
        ).contains(m.to_sq().0 as int),
{
    let set = s.of(s.side, pt);
    let squares = bitboard::listed(set);
    bitboard::lemma_ascending(set, 64);
    lemma_all_piece_moves_members(s, pt, squares, m);
    assert(squares.contains(m.from_sq()) <==> set.contains(m.from_sq().0 as int));
}

proof fn lemma_castling_members(s: State, m: Move)
    requires
        s.has_king(s.side),
    ensures
        movegen::castling_moves(s).contains(m) <==> is_castling(s, m),
{
    let k = movegen::own_king(s);
    lemma_king_exists(s, s.side);
    let r = movegen::home_rank(s.side);
    let short = Move::castling(k, Square(geometry::at(7, r) as u8));
    let long = Move::castling(k, Square(geometry::at(0, r) as u8));
    Move::lemma_parts(k, Square(geometry::at(7, r) as u8), 0, MoveType::Castling);
    Move::lemma_parts(k, Square(geometry::at(0, r) as u8), 0, MoveType::Castling);
    if !s.checked(s.side) {
        let a = if movegen::may_castle_short(s) {
            seq![short]
        } else {
            Seq::empty()
        };
        let b = if movegen::may_castle_long(s) {
            seq![long]
        } else {
            Seq::empty()
        };
        lemma_add_contains(a, b, m);
        lemma_one(short, m);
        lemma_one(long, m);
        assert(movegen::castling_moves(s) == a + b);
    }
}

/// A king that exists is somewhere, at its lowest square.
pub proof fn lemma_king_exists(s: State, c: Color)
    requires
        s.has_king(c),
    ensures
        s.holds(s.king(c), c, PieceType::King),
        forall|i: int| #[trigger] s.holds(i, c, PieceType::King) ==> s.king(c) <= i,
{
    let i = choose|i: int| s.holds(i, c, PieceType::King);
    lemma_least_king(s, c, i, 0);
}

proof fn lemma_least_king(s: State, c: Color, i: int, n: int)
    requires
        0 <= n <= i,
        s.holds(i, c, PieceType::King),
        forall|j: int| j < n ==> !#[trigger] s.holds(j, c, PieceType::King),
    ensures
        s.holds(s.king(c), c, PieceType::King),
        forall|j: int| #[trigger] s.holds(j, c, PieceType::King) ==> s.king(c) <= j,
    decreases i - n,
{
    if s.holds(n, c, PieceType::King) {
        state::lemma_king(s, c, n);
    } else {
        lemma_least_king(s, c, i, n + 1);
    }
}

/// The generated pseudo-legal moves are exactly the moves that obey how the
/// pieces step and capture.
pub proof fn law_pseudo_legal_moves(s: State, m: Move)
    requires
        s.valid(),
        s.has_king(s.side),
    ensures
        movegen::pseudo_legal(s).contains(m) <==> is_pseudo_legal(s, m),
{
    lemma_king_exists(s, s.side);
    let from = m.from_sq();
    let pawns = s.of(s.side, PieceType::Pawn);
    let squares = bitboard::listed(pawns);
    bitboard::lemma_ascending(pawns, 64);
    lemma_all_pawn_moves_members(s, squares, m);
    assert(squares.contains(from) <==> pawns.contains(from.0 as int));
    lemma_moves_of_members(s, PieceType::Knight, m);
    lemma_moves_of_members(s, PieceType::Bishop, m);
    lemma_moves_of_members(s, PieceType::Rook, m);
    lemma_moves_of_members(s, PieceType::Queen, m);
    lemma_piece_moves_members(s, PieceType::King, movegen::own_king(s), m);
    lemma_castling_members(s, m);
    let a = movegen::all_pawn_moves(s, squares);
    let b = movegen::moves_of(s, PieceType::Knight);
    let c = movegen::moves_of(s, PieceType::Bishop);
    let d = movegen::moves_of(s, PieceType::Rook);
    let e = movegen::moves_of(s, PieceType::Queen);
    let f = movegen::piece_moves(s, PieceType::King, movegen::own_king(s));
    let g = movegen::castling_moves(s);
    lemma_add_contains(a, b, m);
    lemma_add_contains(a + b, c, m);
    lemma_add_contains(a + b + c, d, m);
    lemma_add_contains(a + b + c + d, e, m);
    lemma_add_contains(a + b + c + d + e, f, m);
    lemma_add_contains(a + b + c + d + e + f, g, m);
    assert(is_piece_move(s, m) <==> b.contains(m) || c.contains(m) || d.contains(m) || e.contains(
        m,
    ) || f.contains(m));
}

/// An en-passant capture is made by a pawn that attacks the target.
pub proof fn lemma_en_passant(s: State, m: Move)
    requires
        s.valid(),
        s.has_king(s.side),
        is_pseudo_legal(s, m),
        m.move_type() == MoveType::EnPassant,
    ensures
        s.holds(m.from_sq().0 as int, s.side, PieceType::Pawn),
        s.ep == Some(m.to_sq()),
        geometry::pawn_reaches(s.side, m.from_sq().0 as int, m.to_sq().0 as int),
        m == Move::en_passant(m.from_sq(), m.to_sq()),
{
    lemma_king_exists(s, s.side);
    lemma_normal(m.from_sq(), m.to_sq());
    Move::lemma_parts(movegen::own_king(s), m.to_sq(), 0, MoveType::Castling);
}

// ---------------------------------------------------------------------------
// Legality: the own king is not left attacked.
// ---------------------------------------------------------------------------

/// Color `c` has exactly one king.
pub open spec fn one_king(s: State, c: Color) -> bool {
    &&& s.has_king(c)
    &&& forall|i: int, j: int| #[trigger]
        s.holds(i, c, PieceType::King) && #[trigger] s.holds(j, c, PieceType::King) ==> i == j
}

/// A castling right of color `c` is held only with the king and the rook on
/// `rook_file` on their home squares.
pub open spec fn right_backed(s: State, c: Color, right: u8, rook_file: int) -> bool {
    let r = movegen::home_rank(c);
    s.castling & right != 0 ==> {
        &&& s.holds(geometry::at(4, r), c, PieceType::King)
        &&& s.holds(geometry::at(rook_file, r), c, PieceType::Rook)
    }
}

/// The castling rights of color `c` are held only with king and rook at home.
pub open spec fn rights_backed(s: State, c: Color) -> bool {
    right_backed(s, c, movegen::short_right(c), 7) && right_backed(s, c, movegen::long_right(c), 0)
}

/// The en-passant target is an empty square that an enemy pawn has just passed.
pub open spec fn ep_backed(s: State) -> bool {
    s.ep matches Some(t) ==> {
        &&& movegen::vacant(s, t.0 as int)
        &&& s.holds(t.0 - 8 * s.side.forward(), s.side.flip(), PieceType::Pawn)
    }
}

/// The position makes sense for the side to move.
pub open spec fn sound(s: State) -> bool {
    &&& s.valid()
    &&& one_king(s, s.side)
    &&& rights_backed(s, s.side)
    &&& ep_backed(s)
}

/// What every normal move and promotion of a piece other than the king is like:
/// an own piece goes to a square that no own piece occupies, and it either jumps
/// like a knight or passes only empty squares.
pub proof fn lemma_move_shape(s: State, m: Move)
    requires
        s.valid(),
        s.has_king(s.side),
        is_pseudo_legal(s, m),
        m.move_type() == MoveType::Normal || m.move_type() == MoveType::Promotion,
    ensures
        s.of_color(s.side).contains(m.from_sq().0 as int),
        !s.of_color(s.side).contains(m.to_sq().0 as int),
        m.from_sq() != m.to_sq(),
        geometry::knight_reaches(m.from_sq().0 as int, m.to_sq().0 as int) || geometry::clear(
            m.from_sq().0 as int,
            m.to_sq().0 as int,
            s.occupied(),
        ),
{
    lemma_king_exists(s, s.side);
    let f = m.from_sq().0 as int;
    let t = m.to_sq().0 as int;
    Move::lemma_parts(movegen::own_king(s), m.to_sq(), 0, MoveType::Castling);
    Move::lemma_parts(m.from_sq(), m.to_sq(), 0, MoveType::EnPassant);
    if s.holds(f, s.side, PieceType::Pawn) && is_pawn_move(s, m) {
        assert forall|x: int| #[trigger] geometry::between(f, t, x) implies !s.occupied().contains(
            x,
        ) by {
            if x == movegen::ahead(s.side, m.from_sq(), 1) {
            }
        }
    } else {
        let pt = s.at(m.from_sq())->0.piece_type;
        if pt == PieceType::King {
            assert forall|x: int| #[trigger] geometry::between(f, t, x) implies false by {}
        }
    }
}

/// A normal move or a promotion of a piece other than the king leaves the king
/// safe exactly if it resolves every check and keeps to the pin.
proof fn lemma_piece_move_safe(s: State, m: Move)
    requires
        s.valid(),
        one_king(s, s.side),
        is_pseudo_legal(s, m),
        m.move_type() == MoveType::Normal || m.move_type() == MoveType::Promotion,
        m.from_sq().0 != s.king(s.side),
    ensures
        !s.make(m).checked(s.side) <==> movegen::resolves(s, m.to_sq().0 as int) && (
        movegen::is_pinned(s, m.from_sq().0 as int) ==> geometry::on_line(
            s.king(s.side),
            m.from_sq().0 as int,
            m.to_sq().0 as int,
        )),
{
    let us = s.side;
    let them = us.flip();
    let f = m.from_sq().0 as int;
    let t = m.to_sq().0 as int;
    let k = s.king(us);
    let after = s.make(m);
    let occ = s.occupied();
    let occ2 = after.occupied();
    lemma_move_shape(s, m);
    lemma_king_exists(s, us);
    assert(s.holds(k, us, PieceType::King));
    assert(after.board[f] is None);
    assert(after.board[t] is Some && after.board[t]->0.color == us);
    assert(forall|i: int|
        0 <= i < 64 && i != f && i != t ==> #[trigger] after.board[i] == s.board[i]);
    assert(occ2 =~= occ.remove(f).insert(t));
    assert(after.king(us) == k) by {
        assert(after.holds(k, us, PieceType::King));
        assert forall|i: int| #[trigger] after.holds(i, us, PieceType::King) implies k <= i by {
            if i == t {
                assert(s.holds(f, us, PieceType::King));
            } else {
                assert(s.holds(i, us, PieceType::King));
            }
        }
        state::lemma_king(after, us, k);
    }
    // An unresolved check stays a check.
    assert forall|q: int| #[trigger] movegen::is_checker(s, q) && q != t && !geometry::between(
        k,
        q,
        t,
    ) implies after.checked(us) by {
        let p = s.board[q]->0;
        assert(after.board[q] == s.board[q]);
        geometry::lemma_leap_or_slide(p, q, k, occ);
        geometry::lemma_leap_or_slide(p, q, k, occ2);
        geometry::lemma_between_symmetric(k, q);
        if !geometry::leaps(p, q, k) {
            assert forall|x: int| #[trigger] geometry::between(q, k, x) implies !occ2.contains(
                x,
            ) by {
                assert(!occ.contains(x));
                assert(geometry::between(k, q, x));
            }
        }
        assert(geometry::attacks(p, q, k, occ2));
    }
    // A pinned piece that leaves the line exposes the king.
    assert forall|q: int| #[trigger] movegen::is_sniper(s, q) && movegen::sole_blocker(s, q, f)
        && !geometry::on_line(k, f, t) implies after.checked(us) by {
        let p = s.board[q]->0;
        if t == q || geometry::between(k, q, t) {
            geometry::lemma_pin_line(k, q, f, t);
        }
        assert(after.board[q] == s.board[q]);
        geometry::lemma_leap_or_slide(p, q, k, occ2);
        geometry::lemma_between_symmetric(k, q);
        assert forall|x: int| #[trigger] geometry::between(q, k, x) implies !occ2.contains(x) by {
            assert(geometry::between(k, q, x));
        }
        assert(geometry::attacks(p, q, k, occ2));
    }
    // Whoever attacks the king afterwards was a checker or a pinner.
    if after.checked(us) {
        let q = choose|q: int|
            #![trigger after.board[q]]
            geometry::on_board(q) && (after.board[q] matches Some(p) && p.color == them
                && geometry::attacks(p, q, k, occ2));
        let p = after.board[q]->0;
        assert(q != f && q != t);
        assert(s.board[q] == Some(p));
        geometry::lemma_leap_or_slide(p, q, k, occ);
        geometry::lemma_leap_or_slide(p, q, k, occ2);
        geometry::lemma_between_symmetric(k, q);
        if geometry::leaps(p, q, k) {
            assert(movegen::is_checker(s, q));
            geometry::lemma_leap_passes_nothing(p, q, k, t);
            assert(!movegen::resolves(s, t));
        } else {
            assert(!geometry::between(q, k, t));
            assert(!geometry::between(k, q, t));
            if !geometry::between(k, q, f) {
                assert forall|x: int| #[trigger] geometry::between(q, k, x) implies !occ.contains(
                    x,
                ) by {
                    assert(!occ2.contains(x));
                    assert(geometry::between(k, q, x));
                }
                assert(movegen::is_checker(s, q));
                assert(!movegen::resolves(s, t));
            } else {
                assert forall|y: int| #[trigger] geometry::between(k, q, y) && occ.contains(
                    y,
                ) implies y == f by {
                    assert(geometry::between(q, k, y));
                    assert(!occ2.contains(y));
                }
                assert(movegen::sole_blocker(s, q, f));
                assert(movegen::is_sniper(s, q));
                assert(movegen::is_pinned(s, f));
                if geometry::on_line(k, f, t) {
                    geometry::lemma_along_the_pin(k, q, f, t);
                    if geometry::knight_reaches(f, t) {
                        geometry::lemma_knight_leaves_line(k, f, t);
                    }
                    assert(occ.contains(k) && occ.contains(q));
                    assert(false);
                }
            }
        }
    }
    if !movegen::resolves(s, t) {
        let q = choose|q: int| #[trigger]
            movegen::is_checker(s, q) && !(t == q || geometry::between(k, q, t));
        assert(movegen::is_checker(s, q));
    }
    if movegen::is_pinned(s, f) && !geometry::on_line(k, f, t) {
        let q = choose|q: int| #[trigger]
            movegen::is_sniper(s, q) && movegen::sole_blocker(s, q, f);
        assert(movegen::is_sniper(s, q));
    }
}

/// A king move leaves the king safe exactly if its target is safe once the king
/// has left its square.
proof fn lemma_king_move_safe(s: State, m: Move)
    requires
        s.valid(),
        one_king(s, s.side),
        is_pseudo_legal(s, m),
        m.move_type() == MoveType::Normal || m.move_type() == MoveType::Promotion,
        m.from_sq().0 == s.king(s.side),
    ensures
        !s.make(m).checked(s.side) <==> movegen::sheltered(s, m.to_sq().0 as int),
{
    let us = s.side;
    let them = us.flip();
    let t = m.to_sq().0 as int;
    let k = s.king(us);
    let after = s.make(m);
    let occ = s.occupied().remove(k);
    let occ2 = after.occupied();
    lemma_move_shape(s, m);
    lemma_king_exists(s, us);
    assert(s.holds(k, us, PieceType::King));
    lemma_normal(m.from_sq(), m.to_sq());
    Move::lemma_parts(m.from_sq(), m.to_sq(), 0, MoveType::Castling);
    assert(m.move_type() == MoveType::Normal);
    assert(after.board[k] is None);
    assert(after.board[t] == s.board[k]);
    assert(forall|i: int|
        0 <= i < 64 && i != k && i != t ==> #[trigger] after.board[i] == s.board[i]);
    assert(occ2 =~= occ.insert(t));
    assert(after.king(us) == t) by {
        assert(after.holds(t, us, PieceType::King));
        assert forall|i: int| #[trigger] after.holds(i, us, PieceType::King) implies t <= i by {
            if i != t {
                assert(s.holds(i, us, PieceType::King));
            }
        }
        state::lemma_king(after, us, t);
    }
    // The target itself is on no line that ends there.
    assert forall|p: Piece, q: int| #[trigger] geometry::attacks(p, q, t, occ2)
        == geometry::attacks(p, q, t, occ) by {
        geometry::lemma_leap_or_slide(p, q, t, occ);
        geometry::lemma_leap_or_slide(p, q, t, occ2);
        if geometry::clear(q, t, occ) {
            assert forall|x: int| #[trigger] geometry::between(q, t, x) implies !occ2.contains(
                x,
            ) by {
                assert(!occ.contains(x));
            }
        }
        if geometry::clear(q, t, occ2) {
            assert forall|x: int| #[trigger] geometry::between(q, t, x) implies !occ.contains(
                x,
            ) by {
                assert(!occ2.contains(x));
            }
        }
    }
    if after.checked(us) {
        let q = choose|q: int|
            #![trigger after.board[q]]
            geometry::on_board(q) && (after.board[q] matches Some(p) && p.color == them
                && geometry::attacks(p, q, t, occ2));
        assert(s.board[q] == after.board[q]);
        assert(geometry::attacks(s.board[q]->0, q, t, occ));
        assert(s.of_color(them).contains(q));
        assert(!movegen::sheltered(s, t));
    }
    if !movegen::sheltered(s, t) {
        let q = choose|q: int| #[trigger]
            s.of_color(them).contains(q) && geometry::attacks(s.board[q]->0, q, t, occ);
        geometry::lemma_no_self_attack(s.board[q]->0, q, occ);
        assert(after.board[q] == s.board[q]);
        assert(geometry::attacks(s.board[q]->0, q, t, occ2));
        assert(after.attacked(t, them));
    }
}

/// Two checks cannot both be resolved on one square.
proof fn lemma_double_check_unresolved(s: State, t: int)
    requires
        s.valid(),
        s.has_king(s.side),
        movegen::double_check(s),
    ensures
        !movegen::resolves(s, t),
{
    let k = s.king(s.side);
    lemma_king_exists(s, s.side);
    let (p, q) = choose|p: int, q: int|
        p != q && #[trigger] movegen::is_checker(s, p) && #[trigger] movegen::is_checker(s, q);
    if movegen::resolves(s, t) {
        assert(movegen::is_checker(s, p) && movegen::is_checker(s, q));
        geometry::lemma_two_lines_meet(k, p, q, t);
        lemma_checker_line(s, p, q);
        lemma_checker_line(s, q, p);
    }
}

/// Nothing stands between a checker and the king.
proof fn lemma_checker_line(s: State, q: int, x: int)
    requires
        s.valid(),
        s.has_king(s.side),
        movegen::is_checker(s, q),
        s.occupied().contains(x),
    ensures
        !geometry::between(s.king(s.side), q, x),
{
    let k = s.king(s.side);
    lemma_king_exists(s, s.side);
    let p = s.board[q]->0;
    geometry::lemma_leap_or_slide(p, q, k, s.occupied());
    geometry::lemma_between_symmetric(k, q);
    if geometry::leaps(p, q, k) {
        geometry::lemma_leap_passes_nothing(p, q, k, x);
    } else if geometry::between(k, q, x) {
        assert(geometry::between(q, k, x));
    }
}

/// The victim of an en-passant capture in a sound position.
pub proof fn lemma_ep_shape(s: State, m: Move)
    requires
        sound(s),
        is_pseudo_legal(s, m),
        m.move_type() == MoveType::EnPassant,
    ensures
        s.movable(m),
        s.holds(m.from_sq().0 as int, s.side, PieceType::Pawn),
        state::ep_victim(m.from_sq(), m.to_sq()).0 == m.to_sq().0 - 8 * s.side.forward(),
        s.holds(
            state::ep_victim(m.from_sq(), m.to_sq()).0 as int,
            s.side.flip(),
            PieceType::Pawn,
        ),
        movegen::vacant(s, m.to_sq().0 as int),
{
    lemma_en_passant(s, m);
}

/// In double check an en-passant capture leaves the king attacked.
proof fn lemma_ep_in_double_check(s: State, m: Move)
    requires
        sound(s),
        is_pseudo_legal(s, m),
        m.move_type() == MoveType::EnPassant,
        movegen::double_check(s),
    ensures
        s.make(m).checked(s.side),
{
    let us = s.side;
    let them = us.flip();
    let k = s.king(us);
    let f = m.from_sq().0 as int;
    let t = m.to_sq().0 as int;
    let v = state::ep_victim(m.from_sq(), m.to_sq()).0 as int;
    let after = s.make(m);
    let occ = s.occupied();
    let occ2 = after.occupied();
    lemma_en_passant(s, m);
    lemma_ep_shape(s, m);
    lemma_king_exists(s, us);
    assert(s.holds(k, us, PieceType::King));
    lemma_ep_king(s, m);
    assert(forall|i: int|
        0 <= i < 64 && i != f && i != t && i != v ==> #[trigger] after.board[i] == s.board[i]);
    assert(occ2 =~= occ.remove(f).remove(v).insert(t));
    lemma_double_check_unresolved(s, t);
    let q0 = choose|q: int| #[trigger]
        movegen::is_checker(s, q) && !(t == q || geometry::between(k, q, t));
    // One of the checkers is neither captured nor blocked.
    let q = if q0 != v {
        q0
    } else {
        let (a, b) = choose|a: int, b: int|
            a != b && #[trigger] movegen::is_checker(s, a) && #[trigger] movegen::is_checker(s, b);
        if a == v {
            b
        } else {
            a
        }
    };
    assert(movegen::is_checker(s, q) && q != v);
    assert(!geometry::between(k, q, t)) by {
        if q0 == v {
            // The victim attacks the king, so the target is a knight's move away
            // from the king.
            assert(geometry::pawn_reaches(them, v, k));
            assert(geometry::knight_reaches(k, t));
            geometry::lemma_knight_leaves_line(q, k, t);
        }
    }
    let p = s.board[q]->0;
    assert(after.board[q] == s.board[q]);
    geometry::lemma_leap_or_slide(p, q, k, occ);
    geometry::lemma_leap_or_slide(p, q, k, occ2);
    geometry::lemma_between_symmetric(k, q);
    if !geometry::leaps(p, q, k) {
        assert forall|x: int| #[trigger] geometry::between(q, k, x) implies !occ2.contains(x) by {
            assert(!occ.contains(x));
            assert(geometry::between(k, q, x));
        }
    }
    assert(geometry::attacks(p, q, k, occ2));
}

/// An en-passant capture leaves the own king where it is.
proof fn lemma_ep_king(s: State, m: Move)
    requires
        sound(s),
        is_pseudo_legal(s, m),
        m.move_type() == MoveType::EnPassant,
    ensures
        one_king(s.make(m), s.side),
        s.make(m).king(s.side) == s.king(s.side),
{
    let us = s.side;
    let k = s.king(us);
    let f = m.from_sq().0 as int;
    let t = m.to_sq().0 as int;
    let v = state::ep_victim(m.from_sq(), m.to_sq()).0 as int;
    let after = s.make(m);
    lemma_ep_shape(s, m);
    lemma_king_exists(s, us);
    assert(forall|i: int|
        0 <= i < 64 && i != f && i != t && i != v ==> #[trigger] after.board[i] == s.board[i]);
    assert(after.holds(k, us, PieceType::King));
    assert forall|i: int| #[trigger] after.holds(i, us, PieceType::King) implies i == k by {
        assert(s.holds(i, us, PieceType::King));
        assert(s.holds(k, us, PieceType::King));
    }
    state::lemma_king(after, us, k);
}

/// Castling in a sound position: king and rook are at home, the king lands on a
/// square that is not attacked, and the rook shields it.
proof fn lemma_castling_safe(s: State, m: Move)
    requires
        sound(s),
        is_castling(s, m),
    ensures
        s.movable(m),
        state::untangled(m),
        one_king(s.make(m), s.side),
        !s.make(m).checked(s.side),
{
    let us = s.side;
    let them = us.flip();
    let r = movegen::home_rank(us);
    let k = s.king(us);
    let after = s.make(m);
    lemma_king_exists(s, us);
    Move::lemma_parts(movegen::own_king(s), m.to_sq(), 0, MoveType::Castling);
    let short = m.to_sq().0 == geometry::at(7, r);
    assert(k == geometry::at(4, r)) by {
        assert(s.holds(geometry::at(4, r), us, PieceType::King));
        assert(s.holds(k, us, PieceType::King));
    }
    let rook = m.to_sq().0 as int;
    assert(s.holds(rook, us, PieceType::Rook));
    let g = if short {
        geometry::at(6, r)
    } else {
        geometry::at(2, r)
    };
    let h = if short {
        geometry::at(5, r)
    } else {
        geometry::at(3, r)
    };
    assert(state::king_target(m.from_sq(), m.to_sq()).0 == g);
    assert(state::rook_target(m.from_sq(), m.to_sq()).0 == h);
    assert(after.board[k] is None && after.board[rook] is None);
    assert(after.board[g] == s.board[k] && after.board[h] == s.board[rook]);
    assert(forall|i: int|
        0 <= i < 64 && i != k && i != rook && i != g && i != h ==> #[trigger] after.board[i]
            == s.board[i]);
    assert(after.holds(g, us, PieceType::King));
    assert forall|i: int| #[trigger] after.holds(i, us, PieceType::King) implies i == g by {
        if i != g {
            assert(s.holds(i, us, PieceType::King));
        }
    }
    state::lemma_king(after, us, g);
    if after.checked(us) {
        let occ = s.occupied();
        let occ2 = after.occupied();
        let q = choose|q: int|
            #![trigger after.board[q]]
            geometry::on_board(q) && (after.board[q] matches Some(p) && p.color == them
                && geometry::attacks(p, q, g, occ2));
        let p = after.board[q]->0;
        assert(s.board[q] == Some(p));
        geometry::lemma_leap_or_slide(p, q, g, occ);
        geometry::lemma_leap_or_slide(p, q, g, occ2);
        if !geometry::leaps(p, q, g) {
            assert(occ2.contains(h));
            assert forall|x: int| #[trigger] geometry::between(q, g, x) implies !occ.contains(
                x,
            ) by {
                assert(!occ2.contains(x));
                if x == k || x == rook {
                    // Only along the home rank, where the rook is in the way.
                    assert(geometry::between(q, g, h) || q == h || !geometry::on_board(q)
                        || s.board[q] is None || q == rook);
                }
            }
        }
        assert(geometry::attacks(p, q, g, occ));
        assert(s.attacked(g, them));
    }
}

/// A pseudo-legal move in a sound position is found legal exactly if it does not
/// leave the own king attacked.
pub proof fn law_accepted_means_safe(s: State, m: Move)
    requires
        sound(s),
        is_pseudo_legal(s, m),
    ensures
        movegen::accepts(s, m) <==> !s.make(m).checked(s.side),
{
    lemma_king_exists(s, s.side);
    lemma_normal(m.from_sq(), m.to_sq());
    if m.move_type() == MoveType::Castling {
        lemma_castling_kind(s, m);
        lemma_castling_safe(s, m);
        assert(!movegen::double_check(s)) by {
            if movegen::double_check(s) {
                let (p, q) = choose|p: int, q: int|
                    p != q && #[trigger] movegen::is_checker(s, p) && #[trigger] movegen::is_checker(
                        s,
                        q,
                    );
                assert(s.board[p] is Some);
                assert(s.attacked(s.king(s.side), s.side.flip()));
            }
        }
    } else if m.move_type() == MoveType::EnPassant {
        lemma_en_passant(s, m);
        assert(s.holds(s.king(s.side), s.side, PieceType::King));
        if movegen::double_check(s) {
            lemma_ep_in_double_check(s, m);
        }
    } else if m.from_sq().0 == s.king(s.side) {
        lemma_king_move_safe(s, m);
    } else {
        lemma_piece_move_safe(s, m);
        if movegen::double_check(s) {
            lemma_double_check_unresolved(s, m.to_sq().0 as int);
        }
    }
}

/// A castling move is one whose conditions hold.
pub proof fn lemma_castling_kind(s: State, m: Move)
    requires
        s.valid(),
        s.has_king(s.side),
        is_pseudo_legal(s, m),
        m.move_type() == MoveType::Castling,
    ensures
        is_castling(s, m),
{
    lemma_normal(m.from_sq(), m.to_sq());
    Move::lemma_parts(m.from_sq(), m.to_sq(), 0, MoveType::EnPassant);
}

/// The moves of a list that are found legal are just that.
pub proof fn lemma_accepted_members(s: State, moves: Seq<Move>, m: Move)
    ensures
        movegen::accepted(s, moves).contains(m) <==> moves.contains(m) && movegen::accepts(s, m),
    decreases moves.len(),
{
    if moves.len() > 0 {
        let rest = moves.drop_last();
        let last = moves.last();
        lemma_accepted_members(s, rest, m);
        assert(moves =~= rest + seq![last]);
        lemma_add_contains(rest, seq![last], m);
        lemma_one(last, m);
        let before = movegen::accepted(s, rest);
        assert(before.push(last) =~= before + seq![last]);
        lemma_add_contains(before, seq![last], m);
    }
}

/// The generated legal moves of a sound position are exactly the pseudo-legal
/// moves that do not leave the own king attacked.
pub proof fn law_legal_moves(s: State, m: Move)
    requires
        sound(s),
    ensures
        movegen::legal(s).contains(m) <==> is_pseudo_legal(s, m) && !s.make(m).checked(s.side),
{
    lemma_accepted_members(s, movegen::pseudo_legal(s), m);
    law_pseudo_legal_moves(s, m);
    if is_pseudo_legal(s, m) {
        law_accepted_means_safe(s, m);
    }
}

// ---------------------------------------------------------------------------
// No move is generated twice.
// ---------------------------------------------------------------------------

proof fn lemma_add_distinct(a: Seq<Move>, b: Seq<Move>)
    requires
        a.no_duplicates(),
        b.no_duplicates(),
        forall|m: Move| !(#[trigger] a.contains(m) && b.contains(m)),
    ensures
        (a + b).no_duplicates(),
{
    let c = a + b;
    assert forall|i: int, j: int| 0 <= i < c.len() && 0 <= j < c.len() && i != j implies c[i]
        != c[j] by {
        if i < a.len() {
            assert(a.contains(a[i]));
            if j >= a.len() {
                assert(b.contains(b[j - a.len()]));
            }
        } else if j < a.len() {
            assert(a.contains(a[j]));
            assert(b.contains(b[i - a.len()]));
        }
    }
}

proof fn lemma_pawn_step_distinct(c: Color, from: Square, to: Square)
    requires
        from.valid(),
        to.valid(),
    ensures
        movegen::pawn_step(c, from, to).no_duplicates(),
{
    lemma_promotion(from, to, PieceType::Queen);
    lemma_promotion(from, to, PieceType::Rook);
    lemma_promotion(from, to, PieceType::Bishop);
    lemma_promotion(from, to, PieceType::Knight);
}

proof fn lemma_pawn_captures_distinct(c: Color, from: Square, targets: Seq<Square>)
    requires
        from.valid(),
        forall|j: int| 0 <= j < targets.len() ==> (#[trigger] targets[j]).valid(),
        targets.no_duplicates(),
    ensures
        movegen::pawn_captures(c, from, targets).no_duplicates(),
    decreases targets.len(),
{
    if targets.len() > 0 {
        let rest = targets.drop_first();
        let a = movegen::pawn_step(c, from, targets[0]);
        let b = movegen::pawn_captures(c, from, rest);
        assert forall|j: int| 0 <= j < rest.len() implies (#[trigger] rest[j]).valid() by {
            assert(rest[j] == targets[j + 1]);
        }
        lemma_rest_distinct(targets);
        lemma_pawn_captures_distinct(c, from, rest);
        lemma_pawn_step_distinct(c, from, targets[0]);
        assert forall|m: Move| !(#[trigger] a.contains(m) && b.contains(m)) by {
            lemma_pawn_step_members(c, from, targets[0], m);
            lemma_pawn_captures_members(c, from, rest, m);
        }
        lemma_add_distinct(a, b);
    }
}

proof fn lemma_rest_distinct(list: Seq<Square>)
    requires
        list.len() > 0,
        list.no_duplicates(),
    ensures
        list.drop_first().no_duplicates(),
        !list.drop_first().contains(list[0]),
{
    let rest = list.drop_first();
    assert forall|i: int, j: int|
        0 <= i < rest.len() && 0 <= j < rest.len() && i != j implies rest[i] != rest[j] by {
        assert(list[i + 1] != list[j + 1]);
    }
    if rest.contains(list[0]) {
        let i = choose|i: int| 0 <= i < rest.len() && rest[i] == list[0];
        assert(list[i + 1] == list[0]);
    }
}

proof fn lemma_listed_distinct(set: Set<int>)
    ensures
        bitboard::listed(set).no_duplicates(),
        forall|j: int|
            0 <= j < bitboard::listed(set).len() ==> (#[trigger] bitboard::listed(set)[j]).valid(),
{
    bitboard::lemma_ascending(set, 64);
    let list = bitboard::listed(set);
    assert forall|i: int, j: int|
        0 <= i < list.len() && 0 <= j < list.len() && i != j implies list[i] != list[j] by {
        if i < j {
            assert(list[i].0 < list[j].0);
        } else {
            assert(list[j].0 < list[i].0);
        }
    }
}

proof fn lemma_pawn_moves_distinct(s: State, from: Square)
    requires
        s.valid(),
        from.valid(),
    ensures
        movegen::pawn_moves(s, from).no_duplicates(),
{
    let one = movegen::ahead(s.side, from, 1);
    let two = movegen::ahead(s.side, from, 2);
    let prey = movegen::pawn_prey(s, from);
    let targets = bitboard::listed(prey);
    let pushes = movegen::pawn_pushes(s, from);
    let captures = movegen::pawn_captures(s.side, from, targets);
    let ep = movegen::pawn_en_passant(s, from);
    lemma_listed_distinct(prey);
    bitboard::lemma_ascending(prey, 64);
    lemma_pawn_captures_distinct(s.side, from, targets);
    let first = movegen::pawn_step(s.side, from, Square(one as u8));
    let second = if geometry::rank(from.0 as int) == movegen::pawn_rank(s.side)
        && movegen::vacant(s, two) {
        seq![Move::normal(from, Square(two as u8))]
    } else {
        Seq::empty()
    };
    if movegen::vacant(s, one) {
        lemma_pawn_step_distinct(s.side, from, Square(one as u8));
        assert forall|m: Move| !(#[trigger] first.contains(m) && second.contains(m)) by {
            lemma_pawn_step_members(s.side, from, Square(one as u8), m);
            if second.len() > 0 {
                lemma_one(Move::normal(from, Square(two as u8)), m);
                lemma_normal(from, Square(two as u8));
            }
        }
        lemma_add_distinct(first, second);
    }
    assert forall|m: Move| #[trigger] pushes.contains(m) implies m.move_type()
        != MoveType::EnPassant && movegen::vacant(s, m.to_sq().0 as int) by {
        lemma_pawn_step_members(s.side, from, Square(one as u8), m);
        lemma_normal(from, Square(one as u8));
        lemma_add_contains(first, second, m);
        if second.len() > 0 {
            lemma_one(Move::normal(from, Square(two as u8)), m);
            lemma_normal(from, Square(two as u8));
        }
    }
    assert forall|m: Move| #[trigger] captures.contains(m) implies m.move_type()
        != MoveType::EnPassant && !movegen::vacant(s, m.to_sq().0 as int) by {
        lemma_pawn_captures_members(s.side, from, targets, m);
        lemma_normal(from, m.to_sq());
        assert(prey.contains(m.to_sq().0 as int));
    }
    assert forall|m: Move| #[trigger] ep.contains(m) implies m.move_type()
        == MoveType::EnPassant by {
        if let Some(t) = s.ep {
            lemma_one(Move::en_passant(from, t), m);
            Move::lemma_parts(from, t, 0, MoveType::EnPassant);
        }
    }
    lemma_add_distinct(pushes, captures);
    assert forall|m: Move| !(#[trigger] (pushes + captures).contains(m) && ep.contains(m)) by {
        lemma_add_contains(pushes, captures, m);
    }
    lemma_add_distinct(pushes + captures, ep);
}

proof fn lemma_all_pawn_moves_distinct(s: State, squares: Seq<Square>)
    requires
        s.valid(),
        forall|j: int| 0 <= j < squares.len() ==> (#[trigger] squares[j]).valid(),
        squares.no_duplicates(),
    ensures
        movegen::all_pawn_moves(s, squares).no_duplicates(),
    decreases squares.len(),
{
    if squares.len() > 0 {
        let rest = squares.drop_first();
        let a = movegen::pawn_moves(s, squares[0]);
        let b = movegen::all_pawn_moves(s, rest);
        assert forall|j: int| 0 <= j < rest.len() implies (#[trigger] rest[j]).valid() by {
            assert(rest[j] == squares[j + 1]);
        }
        lemma_rest_distinct(squares);
        lemma_all_pawn_moves_distinct(s, rest);
        lemma_pawn_moves_distinct(s, squares[0]);
        assert forall|m: Move| !(#[trigger] a.contains(m) && b.contains(m)) by {
            lemma_pawn_moves_members(s, squares[0], m);
            lemma_all_pawn_moves_members(s, rest, m);
        }
        lemma_add_distinct(a, b);
    }
}

proof fn lemma_piece_moves_distinct(s: State, pt: PieceType, from: Square)
    requires
        from.valid(),
    ensures
        movegen::piece_moves(s, pt, from).no_duplicates(),
{
    let targets = bitboard::listed(movegen::reach(s, pt, from));
    let list = movegen::piece_moves(s, pt, from);
    lemma_listed_distinct(movegen::reach(s, pt, from));
    assert forall|i: int, j: int|
        0 <= i < list.len() && 0 <= j < list.len() && i != j implies list[i] != list[j] by {
        assert(targets[i].valid() && targets[j].valid());
        lemma_normal(from, targets[i]);
        lemma_normal(from, targets[j]);
        assert(targets[i] != targets[j]);
    }
}

proof fn lemma_all_piece_moves_distinct(s: State, pt: PieceType, squares: Seq<Square>)
    requires
        forall|j: int| 0 <= j < squares.len() ==> (#[trigger] squares[j]).valid(),
        squares.no_duplicates(),
    ensures
        movegen::all_piece_moves(s, pt, squares).no_duplicates(),
    decreases squares.len(),
{
    if squares.len() > 0 {
        let rest = squares.drop_first();
        let a = movegen::piece_moves(s, pt, squares[0]);
        let b = movegen::all_piece_moves(s, pt, rest);
        assert forall|j: int| 0 <= j < rest.len() implies (#[trigger] rest[j]).valid() by {
            assert(rest[j] == squares[j + 1]);
        }
        lemma_rest_distinct(squares);
        lemma_all_piece_moves_distinct(s, pt, rest);
        lemma_piece_moves_distinct(s, pt, squares[0]);
        assert forall|m: Move| !(#[trigger] a.contains(m) && b.contains(m)) by {
            lemma_piece_moves_members(s, pt, squares[0], m);
            lemma_all_piece_moves_members(s, pt, rest, m);
        }
        lemma_add_distinct(a, b);
    }
}

/// No pseudo-legal move is generated twice.
pub proof fn law_pseudo_legal_distinct(s: State)
    requires
        s.valid(),
        s.has_king(s.side),
    ensures
        movegen::pseudo_legal(s).no_duplicates(),
{
    lemma_king_exists(s, s.side);
    let k = movegen::own_king(s);
    let pawns = bitboard::listed(s.of(s.side, PieceType::Pawn));
    lemma_listed_distinct(s.of(s.side, PieceType::Pawn));
    lemma_listed_distinct(s.of(s.side, PieceType::Knight));
    lemma_listed_distinct(s.of(s.side, PieceType::Bishop));
    lemma_listed_distinct(s.of(s.side, PieceType::Rook));
    lemma_listed_distinct(s.of(s.side, PieceType::Queen));
    let a = movegen::all_pawn_moves(s, pawns);
    let b = movegen::moves_of(s, PieceType::Knight);
    let c = movegen::moves_of(s, PieceType::Bishop);
    let d = movegen::moves_of(s, PieceType::Rook);
    let e = movegen::moves_of(s, PieceType::Queen);
    let f = movegen::piece_moves(s, PieceType::King, k);
    let g = movegen::castling_moves(s);
    lemma_all_pawn_moves_distinct(s, pawns);
    lemma_all_piece_moves_distinct(
        s,
        PieceType::Knight,
        bitboard::listed(s.of(s.side, PieceType::Knight)),
    );
    lemma_all_piece_moves_distinct(
        s,
        PieceType::Bishop,
        bitboard::listed(s.of(s.side, PieceType::Bishop)),
    );
    lemma_all_piece_moves_distinct(
        s,
        PieceType::Rook,
        bitboard::listed(s.of(s.side, PieceType::Rook)),
    );
    lemma_all_piece_moves_distinct(
        s,
        PieceType::Queen,
        bitboard::listed(s.of(s.side, PieceType::Queen)),
    );
    lemma_piece_moves_distinct(s, PieceType::King, k);
    let r = movegen::home_rank(s.side);
    Move::lemma_parts(k, Square(geometry::at(7, r) as u8), 0, MoveType::Castling);
    Move::lemma_parts(k, Square(geometry::at(0, r) as u8), 0, MoveType::Castling);
    assert(g.no_duplicates());
    // The piece on the origin square tells the lists apart.
    assert forall|m: Move| #[trigger] a.contains(m) implies s.holds(
        m.from_sq().0 as int,
        s.side,
        PieceType::Pawn,
    ) by {
        lemma_all_pawn_moves_members(s, pawns, m);
        bitboard::lemma_ascending(s.of(s.side, PieceType::Pawn), 64);
    }
    assert forall|m: Move| #[trigger] f.contains(m) implies s.holds(
        m.from_sq().0 as int,
        s.side,
        PieceType::King,
    ) && m.move_type() == MoveType::Normal by {
        lemma_piece_moves_members(s, PieceType::King, k, m);
        lemma_normal(k, m.to_sq());
    }
    assert forall|m: Move| #[trigger] g.contains(m) implies s.holds(
        m.from_sq().0 as int,
        s.side,
        PieceType::King,
    ) && m.move_type() == MoveType::Castling by {
        lemma_castling_members(s, m);
        Move::lemma_parts(k, m.to_sq(), 0, MoveType::Castling);
    }
    assert forall|m: Move, pt: PieceType| #[trigger] movegen::moves_of(s, pt).contains(
        m,
    ) implies s.holds(m.from_sq().0 as int, s.side, pt) by {
        lemma_moves_of_members(s, pt, m);
    }
    lemma_add_distinct(a, b);
    assert forall|m: Move| !(#[trigger] (a + b).contains(m) && c.contains(m)) by {
        lemma_add_contains(a, b, m);
    }
    lemma_add_distinct(a + b, c);
    assert forall|m: Move| !(#[trigger] (a + b + c).contains(m) && d.contains(m)) by {
        lemma_add_contains(a, b, m);
        lemma_add_contains(a + b, c, m);
    }
    lemma_add_distinct(a + b + c, d);
    assert forall|m: Move| !(#[trigger] (a + b + c + d).contains(m) && e.contains(m)) by {
        lemma_add_contains(a, b, m);
        lemma_add_contains(a + b, c, m);
        lemma_add_contains(a + b + c, d, m);
    }
    lemma_add_distinct(a + b + c + d, e);
    assert forall|m: Move| #[trigger] (a + b + c + d + e).contains(m) implies !s.holds(
        m.from_sq().0 as int,
        s.side,
        PieceType::King,
    ) by {
        lemma_add_contains(a, b, m);
        lemma_add_contains(a + b, c, m);
        lemma_add_contains(a + b + c, d, m);
        lemma_add_contains(a + b + c + d, e, m);
    }
    lemma_add_distinct(a + b + c + d + e, f);
    assert forall|m: Move| !(#[trigger] (a + b + c + d + e + f).contains(m) && g.contains(m)) by {
        lemma_add_contains(a + b + c + d + e, f, m);
    }
    lemma_add_distinct(a + b + c + d + e + f, g);
}

/// No legal move is generated twice.
pub proof fn law_legal_distinct(s: State)
    requires
        s.valid(),
        s.has_king(s.side),
    ensures
        movegen::legal(s).no_duplicates(),
{
    law_pseudo_legal_distinct(s);
    lemma_accepted_distinct(s, movegen::pseudo_legal(s));
}

proof fn lemma_accepted_distinct(s: State, moves: Seq<Move>)
    requires
        moves.no_duplicates(),
    ensures
        movegen::accepted(s, moves).no_duplicates(),
    decreases moves.len(),
{
    if moves.len() > 0 {
        let rest = moves.drop_last();
        let last = moves.last();
        assert(rest.no_duplicates());
        lemma_accepted_distinct(s, rest);
        let before = movegen::accepted(s, rest);
        lemma_accepted_members(s, rest, last);
        assert(!rest.contains(last)) by {
            if rest.contains(last) {
                let i = choose|i: int| 0 <= i < rest.len() && rest[i] == last;
                assert(moves[i] == moves[moves.len() - 1]);
            }
        }
        assert(before.push(last) =~= before + seq![last]);
        assert forall|m: Move| !(#[trigger] before.contains(m) && seq![last].contains(m)) by {
            lemma_one(last, m);
        }
        lemma_add_distinct(before, seq![last]);
    }
}

// ---------------------------------------------------------------------------
// Legal play stays regular.
// ---------------------------------------------------------------------------

/// A position that can arise in a game: one king each, castling rights and
/// en-passant target backed by the board, and the side that has just moved not
/// in check.
pub open spec fn regular(s: State) -> bool {
    &&& s.valid()
    &&& one_king(s, Color::White)
    &&& one_king(s, Color::Black)
    &&& rights_backed(s, Color::White)
    &&& rights_backed(s, Color::Black)
    &&& ep_backed(s)
    &&& !s.checked(s.side.flip())
}

/// `m` is a legal move.
pub open spec fn is_legal(s: State, m: Move) -> bool {
    is_pseudo_legal(s, m) && !s.make(m).checked(s.side)
}

pub proof fn lemma_regular_sound(s: State)
    requires
        regular(s),
    ensures
        sound(s),
        one_king(s, s.side.flip()),
{
}

/// A legal move of a regular position can be carried out and taken back.
pub proof fn lemma_legal_playable(s: State, m: Move)
    requires
        sound(s),
        is_pseudo_legal(s, m),
    ensures
        s.movable(m),
        state::untangled(m),
        m.move_type() == MoveType::Promotion ==> s.at(m.from_sq()) == Some(
            Piece { color: s.side, piece_type: PieceType::Pawn },
        ),
{
    lemma_king_exists(s, s.side);
    lemma_normal(m.from_sq(), m.to_sq());
    Move::lemma_parts(m.from_sq(), m.to_sq(), 0, MoveType::Castling);
    if m.move_type() == MoveType::Castling {
        lemma_castling_kind(s, m);
        lemma_castling_safe(s, m);
    } else if m.move_type() == MoveType::EnPassant {
        lemma_ep_shape(s, m);
    } else {
        lemma_move_shape(s, m);
    }
}

/// A legal move never captures the king.
pub proof fn lemma_king_not_captured(s: State, m: Move)
    requires
        regular(s),
        is_pseudo_legal(s, m),
        m.move_type() == MoveType::Normal || m.move_type() == MoveType::Promotion,
    ensures
        m.to_sq().0 != s.king(s.side.flip()),
{
    let us = s.side;
    let them = us.flip();
    let e = s.king(them);
    let f = m.from_sq().0 as int;
    lemma_king_exists(s, us);
    lemma_king_exists(s, them);
    assert(s.holds(e, them, PieceType::King));
    Move::lemma_parts(movegen::own_king(s), m.to_sq(), 0, MoveType::Castling);
    Move::lemma_parts(m.from_sq(), m.to_sq(), 0, MoveType::EnPassant);
    if m.to_sq().0 == e {
        assert(s.board[f] is Some);
        assert(geometry::attacks(s.board[f]->0, f, e, s.occupied()));
        assert(s.attacked(e, us));
    }
}

/// The squares a move does not touch.
proof fn lemma_untouched(s: State, m: Move, i: int)
    requires
        s.valid(),
        s.movable(m),
        0 <= i < 64,
        i != m.from_sq().0,
        i != m.to_sq().0,
        m.move_type() == MoveType::EnPassant ==> i != state::ep_victim(m.from_sq(), m.to_sq()).0,
        m.move_type() == MoveType::Castling ==> s.board[i] is Some && state::untangled(m),
    ensures
        s.make(m).board[i] == s.board[i],
{
}

/// Each side keeps exactly one king.
pub proof fn lemma_kings_preserved(s: State, m: Move)
    requires
        regular(s),
        is_pseudo_legal(s, m),
    ensures
        one_king(s.make(m), Color::White),
        one_king(s.make(m), Color::Black),
{
    let us = s.side;
    let them = us.flip();
    let k = s.king(us);
    let e = s.king(them);
    let f = m.from_sq().0 as int;
    let t = m.to_sq().0 as int;
    let after = s.make(m);
    lemma_regular_sound(s);
    lemma_legal_playable(s, m);
    lemma_king_exists(s, us);
    lemma_king_exists(s, them);
    assert(s.holds(k, us, PieceType::King));
    assert(s.holds(e, them, PieceType::King));
    lemma_normal(m.from_sq(), m.to_sq());
    Move::lemma_parts(movegen::own_king(s), m.to_sq(), 0, MoveType::Castling);
    // The other side's king stays where it is.
    assert(after.holds(e, them, PieceType::King)) by {
        if m.move_type() == MoveType::Castling {
            lemma_castling_kind(s, m);
            lemma_castling_safe(s, m);
            lemma_untouched(s, m, e);
        } else if m.move_type() == MoveType::EnPassant {
            lemma_en_passant(s, m);
            lemma_ep_shape(s, m);
            lemma_untouched(s, m, e);
        } else {
            lemma_king_not_captured(s, m);
            lemma_move_shape(s, m);
            lemma_untouched(s, m, e);
        }
    }
    assert forall|i: int| #[trigger] after.holds(i, them, PieceType::King) implies i == e by {
        if m.move_type() == MoveType::Castling {
            lemma_castling_kind(s, m);
        } else if m.move_type() == MoveType::EnPassant {
            lemma_en_passant(s, m);
            lemma_ep_shape(s, m);
        } else {
            lemma_move_shape(s, m);
        }
        assert(s.holds(i, them, PieceType::King));
    }
    // The own king stays or moves.
    if m.move_type() == MoveType::Castling {
        lemma_castling_kind(s, m);
        lemma_castling_safe(s, m);
    } else if m.move_type() == MoveType::EnPassant {
        lemma_ep_king(s, m);
    } else {
        lemma_move_shape(s, m);
        let k2 = if f == k {
            t
        } else {
            k
        };
        if f == k {
            assert(m.move_type() == MoveType::Normal);
        }
        assert(after.holds(k2, us, PieceType::King));
        assert forall|i: int| #[trigger] after.holds(i, us, PieceType::King) implies i == k2 by {
            if i == t {
                assert(s.holds(f, us, PieceType::King));
            } else {
                assert(s.holds(i, us, PieceType::King));
            }
        }
    }
}

/// A right that survives a move was held before, and the move touched neither the
/// king's nor the rook's home square.
proof fn lemma_right_survives(s: State, m: Move, c: Color, right: u8, rook_file: int)
    requires
        s.make(m).castling & right != 0,
        (right == movegen::short_right(c) && rook_file == 7) || (right == movegen::long_right(c)
            && rook_file == 0),
    ensures
        s.castling & right != 0,
        m.from_sq().0 != geometry::at(4, movegen::home_rank(c)),
        m.to_sq().0 != geometry::at(4, movegen::home_rank(c)),
        m.from_sq().0 != geometry::at(rook_file, movegen::home_rank(c)),
        m.to_sq().0 != geometry::at(rook_file, movegen::home_rank(c)),
{
    let r: u8 = s.castling;
    let a: u8 = state::castling_mask_spec(m.from_sq());
    let b: u8 = state::castling_mask_spec(m.to_sq());
    assert(r & right != 0 && a & right != 0 && b & right != 0) by (bit_vector)
        requires
            r & a & b & right != 0,
    ;
    assert(0xfcu8 & 1 == 0 && 0xfcu8 & 2 == 0 && 0xfeu8 & 1 == 0 && 0xfdu8 & 2 == 0 && 0xf3u8 & 4
        == 0 && 0xf3u8 & 8 == 0 && 0xfbu8 & 4 == 0 && 0xf7u8 & 8 == 0) by (bit_vector);
}

proof fn lemma_right_preserved(s: State, m: Move, c: Color, right: u8, rook_file: int)
    requires
        regular(s),
        is_pseudo_legal(s, m),
        right_backed(s, c, right, rook_file),
        (right == movegen::short_right(c) && rook_file == 7) || (right == movegen::long_right(c)
            && rook_file == 0),
    ensures
        right_backed(s.make(m), c, right, rook_file),
{
    if s.make(m).castling & right != 0 {
        lemma_right_survives(s, m, c, right, rook_file);
        lemma_regular_sound(s);
        lemma_legal_playable(s, m);
        if m.move_type() == MoveType::EnPassant {
            lemma_ep_shape(s, m);
        }
        let r = movegen::home_rank(c);
        assert(s.holds(geometry::at(4, r), c, PieceType::King));
        assert(s.holds(geometry::at(rook_file, r), c, PieceType::Rook));
        lemma_untouched(s, m, geometry::at(4, r));
        lemma_untouched(s, m, geometry::at(rook_file, r));
    }
}

/// The target that a double push leaves is backed.
proof fn lemma_ep_preserved(s: State, m: Move)
    requires
        regular(s),
        is_pseudo_legal(s, m),
    ensures
        ep_backed(s.make(m)),
{
    let f = m.from_sq().0 as int;
    let t = m.to_sq().0 as int;
    if s.double_push(m) {
        lemma_king_exists(s, s.side);
        lemma_normal(m.from_sq(), m.to_sq());
        Move::lemma_parts(movegen::own_king(s), m.to_sq(), 0, MoveType::Castling);
        Move::lemma_parts(m.from_sq(), m.to_sq(), 0, MoveType::EnPassant);
        assert(s.holds(f, s.side, PieceType::Pawn));
        assert(is_pawn_move(s, m));
        let one = movegen::ahead(s.side, m.from_sq(), 1);
        assert(t == movegen::ahead(s.side, m.from_sq(), 2));
        assert(state::jumped(m.from_sq(), m.to_sq()).0 == one);
    }
}

/// A legal move of a regular position can be carried out and taken back, and
/// leaves a regular position.
pub proof fn law_legal_play_stays_regular(s: State, m: Move)
    requires
        regular(s),
        is_legal(s, m),
    ensures
        s.movable(m),
        state::untangled(m),
        regular(s.make(m)),
{
    lemma_regular_sound(s);
    lemma_legal_playable(s, m);
    state::lemma_make_valid(s, m);
    lemma_kings_preserved(s, m);
    lemma_right_preserved(s, m, Color::White, WHITE_OO, 7);
    lemma_right_preserved(s, m, Color::White, WHITE_OOO, 0);
    lemma_right_preserved(s, m, Color::Black, BLACK_OO, 7);
    lemma_right_preserved(s, m, Color::Black, BLACK_OOO, 0);
    lemma_ep_preserved(s, m);
}

/// In a sound position every en-passant capture on offer can be tried, as long as
/// the move number can count on.
pub proof fn lemma_ep_playable(s: State)
    requires
        sound(s),
        s.side == Color::Black ==> s.full < u16::MAX,
    ensures
        movegen::ep_playable(s),
{
    assert forall|m: Move| #[trigger] is_pseudo_legal(s, m) && m.move_type()
        == MoveType::EnPassant implies s.movable(m) && s.clocks_fit(m) && s.make(m).has_king(
        s.side,
    ) by {
        lemma_ep_shape(s, m);
        lemma_ep_king(s, m);
    }
}

/// The start of a game is regular.
pub proof fn law_start_is_regular()
    ensures
        regular(crate::fen::start()),
{
    let s = crate::fen::start();
    assert(s.holds(4, Color::White, PieceType::King));
    assert(s.holds(60, Color::Black, PieceType::King));
    assert(s.holds(0, Color::White, PieceType::Rook));
    assert(s.holds(7, Color::White, PieceType::Rook));
    assert(s.holds(56, Color::Black, PieceType::Rook));
    assert(s.holds(63, Color::Black, PieceType::Rook));
    state::lemma_king(s, Color::Black, 60);
    if s.checked(Color::Black) {
        let occ = s.occupied();
        let q = choose|q: int|
            #![trigger s.board[q]]
            geometry::on_board(q) && (s.board[q] matches Some(p) && p.color == Color::White
                && geometry::attacks(p, q, 60, occ));
        let p = s.board[q]->0;
        geometry::lemma_leap_or_slide(p, q, 60, occ);
        assert(q < 16);
        // Every line from there to the king passes a black pawn.
        assert(occ.contains(51) && occ.contains(52) && occ.contains(53));
        assert(geometry::between(q, 60, 51) || geometry::between(q, 60, 52) || geometry::between(
            q,
            60,
            53,
        ) || !geometry::slides(p, q, 60));
    }
}

// ---------------------------------------------------------------------------
// The rules of chess, square by square.
// ---------------------------------------------------------------------------

/// A color's only king is in check exactly if some piece of the other color attacks
/// the square it stands on.
pub proof fn law_check(s: State, c: Color, k: int)
    requires
        s.valid(),
        one_king(s, c),
        0 <= k < 64,
        s.board[k] == Some(Piece { color: c, piece_type: PieceType::King }),
    ensures
        s.checked(c) <==> exists|q: int|
            0 <= q < 64 && #[trigger] s.board[q] is Some && s.board[q]->0.color != c
                && geometry::attacks(
                s.board[q]->0,
                q,
                k,
                Set::new(|i: int| 0 <= i < 64 && s.board[i] is Some),
            ),
{
    let occ = Set::new(|i: int| 0 <= i < 64 && s.board[i] is Some);
    assert(occ =~= s.occupied());
    lemma_king_exists(s, c);
    assert(s.holds(k, c, PieceType::King) && s.holds(s.king(c), c, PieceType::King));
    if s.checked(c) {
        let q = choose|q: int|
            #![trigger s.board[q]]
            geometry::on_board(q) && (s.board[q] matches Some(p) && p.color == c.flip()
                && geometry::attacks(p, q, k, s.occupied()));
        assert(s.board[q] is Some);
    }
}

/// Castling is legal exactly if the king stands on its home square with a rook of
/// its color on the h- or a-square of that rank and the right to castle with it,
/// every square between the two is empty, and no enemy piece attacks the king's
/// square, the square it passes or the square it lands on.
pub proof fn law_castling_moves(s: State, m: Move)
    requires
        sound(s),
        m.move_type() == MoveType::Castling,
    ensures
        ({
            let k = m.from_sq().0 as int;
            let r = m.to_sq().0 as int;
            movegen::legal(s).contains(m) <==> {
                &&& m == Move::castling(m.from_sq(), m.to_sq())
                &&& s.board[k] == Some(Piece { color: s.side, piece_type: PieceType::King })
                &&& s.board[r] == Some(Piece { color: s.side, piece_type: PieceType::Rook })
                &&& match s.side {
                    Color::White => k == 4 && ((r == 7 && s.castling & 1 != 0) || (r == 0
                        && s.castling & 2 != 0)),
                    Color::Black => k == 60 && ((r == 63 && s.castling & 4 != 0) || (r == 56
                        && s.castling & 8 != 0)),
                }
                &&& forall|x: int|
                    (k < x < r || r < x < k) ==> (#[trigger] s.board[x]) is None
                &&& forall|x: int|
                    (k < r && k <= x <= k + 2) || (r < k && k - 2 <= x <= k)
                        ==> !(#[trigger] s.attacked(x, s.side.flip()))
            }
        }),
{
    law_legal_moves(s, m);
    lemma_king_exists(s, s.side);
    let k = s.king(s.side);
    let own = movegen::own_king(s);
    let r = movegen::home_rank(s.side);
    let f = m.from_sq().0 as int;
    let t = m.to_sq().0 as int;
    Move::lemma_parts(own, m.to_sq(), 0, MoveType::Castling);
    assert(s.board[geometry::at(1, r)] is None <==> movegen::vacant(s, geometry::at(1, r)));
    assert(s.board[geometry::at(2, r)] is None <==> movegen::vacant(s, geometry::at(2, r)));
    assert(s.board[geometry::at(3, r)] is None <==> movegen::vacant(s, geometry::at(3, r)));
    assert(s.board[geometry::at(5, r)] is None <==> movegen::vacant(s, geometry::at(5, r)));
    assert(s.board[geometry::at(6, r)] is None <==> movegen::vacant(s, geometry::at(6, r)));
    if is_pseudo_legal(s, m) {
        lemma_castling_kind(s, m);
        lemma_castling_safe(s, m);
        assert(s.holds(k, s.side, PieceType::King));
        assert(s.holds(geometry::at(4, r), s.side, PieceType::King));
        assert(k == geometry::at(4, r));
        assert(s.attacked(k, s.side.flip()) == s.checked(s.side));
    } else if {
        &&& m == Move::castling(m.from_sq(), m.to_sq())
        &&& s.board[f] == Some(Piece { color: s.side, piece_type: PieceType::King })
        &&& match s.side {
            Color::White => f == 4 && ((t == 7 && s.castling & 1 != 0) || (t == 0 && s.castling & 2
                != 0)),
            Color::Black => f == 60 && ((t == 63 && s.castling & 4 != 0) || (t == 56 && s.castling
                & 8 != 0)),
        }
        &&& forall|x: int| (f < x < t || t < x < f) ==> (#[trigger] s.board[x]) is None
        &&& forall|x: int|
            (f < t && f <= x <= f + 2) || (t < f && f - 2 <= x <= f) ==> !(#[trigger] s.attacked(
                x,
                s.side.flip(),
            ))
    } {
        assert(s.holds(k, s.side, PieceType::King) && s.holds(f, s.side, PieceType::King));
        assert(!s.attacked(f, s.side.flip()));
        assert(!s.checked(s.side));
        if t > f {
            assert(!s.attacked(geometry::at(5, r), s.side.flip()));
            assert(!s.attacked(geometry::at(6, r), s.side.flip()));
        } else {
            assert(!s.attacked(geometry::at(3, r), s.side.flip()));
            assert(!s.attacked(geometry::at(2, r), s.side.flip()));
        }
        assert(is_castling(s, m));
    }
}

/// What the cases of a pawn move come to on the board.
proof fn lemma_pawn_geometry(c: Color, f: int, t: int)
    requires
        geometry::on_board(f),
        geometry::on_board(t),
    ensures
        c == Color::White ==> (geometry::pawn_reaches(c, f, t) <==> (t == f + 9 && f % 8 != 7) || (t
            == f + 7 && f % 8 != 0)),
        c == Color::Black ==> (geometry::pawn_reaches(c, f, t) <==> (t == f - 7 && f % 8 != 7) || (t
            == f - 9 && f % 8 != 0)),
        geometry::rank(t) == 7 <==> t >= 56,
        geometry::rank(t) == 0 <==> t < 8,
{
}

/// A pawn's pseudo-legal moves, by kind.
proof fn lemma_pawn_kinds(s: State, m: Move)
    requires
        s.valid(),
        s.has_king(s.side),
        s.holds(m.from_sq().0 as int, s.side, PieceType::Pawn),
    ensures
        is_pseudo_legal(s, m) <==> is_pawn_move(s, m),
        m.move_type() == MoveType::Castling ==> !is_pawn_move(s, m),
        m.move_type() == MoveType::EnPassant ==> (is_pawn_move(s, m) <==> s.ep == Some(m.to_sq())
            && geometry::pawn_reaches(s.side, m.from_sq().0 as int, m.to_sq().0 as int) && m
            == Move::en_passant(m.from_sq(), m.to_sq())),
{
    lemma_king_exists(s, s.side);
    lemma_normal(m.from_sq(), m.to_sq());
    Move::lemma_parts(m.from_sq(), m.to_sq(), 0, MoveType::EnPassant);
    Move::lemma_parts(movegen::own_king(s), m.to_sq(), 0, MoveType::Castling);
    assert(s.holds(s.king(s.side), s.side, PieceType::King));
}

/// A pawn's pseudo-legal moves other than en passant.
proof fn lemma_pawn_plain(s: State, m: Move, ahead: int, first: int, aslant: bool)
    requires
        s.valid(),
        m.move_type() == MoveType::Normal || m.move_type() == MoveType::Promotion,
        ahead == 8 * s.side.forward(),
        first == movegen::pawn_rank(s.side),
        aslant == geometry::pawn_reaches(s.side, m.from_sq().0 as int, m.to_sq().0 as int),
    ensures
        ({
            let f = m.from_sq().0 as int;
            let t = m.to_sq().0 as int;
            is_pawn_move(s, m) <==> {
                &&& {
                    ||| t == f + ahead && s.board[t] is None
                    ||| t == f + 2 * ahead && f / 8 == first && s.board[f + ahead] is None
                        && s.board[t] is None
                    ||| aslant && (s.board[t] matches Some(p) && p.color != s.side)
                }
                &&& if t < 8 || t >= 56 {
                    m.move_type() == MoveType::Promotion
                } else {
                    m == Move::normal(m.from_sq(), m.to_sq())
                }
            }
        }),
{
    let f = m.from_sq().0 as int;
    let t = m.to_sq().0 as int;
    lemma_normal(m.from_sq(), m.to_sq());
    Move::lemma_parts(m.from_sq(), m.to_sq(), 0, MoveType::EnPassant);
    lemma_pawn_geometry(s.side, f, t);
    let one = movegen::ahead(s.side, m.from_sq(), 1);
    let two = movegen::ahead(s.side, m.from_sq(), 2);
    assert(one == f + ahead && two == f + 2 * ahead);
    assert(movegen::pawn_prey(s, m.from_sq()).contains(t) <==> aslant && (s.board[t] matches Some(
        p,
    ) && p.color != s.side));
    assert(t == one ==> (movegen::vacant(s, one) <==> s.board[t] is None));
    assert(t == two ==> (movegen::vacant(s, two) <==> s.board[t] is None));
    assert(t == two ==> geometry::on_board(one));
}

/// A pawn move that does not leave the own king in check is legal exactly if the
/// pawn steps to the empty square ahead, or from its first square to the second
/// square ahead past an empty one, or captures an enemy piece diagonally ahead, or
/// captures en passant on the target diagonally ahead. A pawn that reaches the last
/// rank promotes, and no other does.
pub proof fn law_pawn_moves(s: State, m: Move)
    requires
        sound(s),
        s.board[m.from_sq().0 as int] == Some(
            Piece { color: s.side, piece_type: PieceType::Pawn },
        ),
    ensures
        ({
            let f = m.from_sq().0 as int;
            let t = m.to_sq().0 as int;
            let ahead: int = match s.side {
                Color::White => 8,
                Color::Black => -8,
            };
            let first: int = match s.side {
                Color::White => 1,
                Color::Black => 6,
            };
            let aslant = (t == f + ahead + 1 && f % 8 != 7) || (t == f + ahead - 1 && f % 8 != 0);
            movegen::legal(s).contains(m) <==> {
                &&& !s.make(m).checked(s.side)
                &&& match m.move_type() {
                    MoveType::EnPassant => m == Move::en_passant(m.from_sq(), m.to_sq()) && aslant
                        && s.ep == Some(m.to_sq()),
                    MoveType::Castling => false,
                    _ => {
                        &&& {
                            ||| t == f + ahead && s.board[t] is None
                            ||| t == f + 2 * ahead && f / 8 == first && s.board[f + ahead] is None
                                && s.board[t] is None
                            ||| aslant && (s.board[t] matches Some(p) && p.color != s.side)
                        }
                        &&& if t < 8 || t >= 56 {
                            m.move_type() == MoveType::Promotion
                        } else {
                            m == Move::normal(m.from_sq(), m.to_sq())
                        }
                    },
                }
            }
        }),
{
    law_legal_moves(s, m);
    let f = m.from_sq().0 as int;
    let t = m.to_sq().0 as int;
    let ahead: int = match s.side {
        Color::White => 8,
        Color::Black => -8,
    };
    let first: int = match s.side {
        Color::White => 1,
        Color::Black => 6,
    };
    let aslant = (t == f + ahead + 1 && f % 8 != 7) || (t == f + ahead - 1 && f % 8 != 0);
    assert(s.holds(f, s.side, PieceType::Pawn));
    lemma_pawn_geometry(s.side, f, t);
    lemma_pawn_kinds(s, m);
    if m.move_type() == MoveType::Normal || m.move_type() == MoveType::Promotion {
        lemma_pawn_plain(s, m, ahead, first, aslant);
    }
}

/// A move of a piece other than a pawn, castling aside, that does not leave the own
/// king in check is legal exactly if the piece attacks the destination and no piece
/// of its own color stands there.
pub proof fn law_piece_moves(s: State, m: Move, p: Piece)
    requires
        sound(s),
        s.board[m.from_sq().0 as int] == Some(p),
        p.color == s.side,
        p.piece_type != PieceType::Pawn,
        m.move_type() != MoveType::Castling,
    ensures
        movegen::legal(s).contains(m) <==> {
            &&& !s.make(m).checked(s.side)
            &&& m == Move::normal(m.from_sq(), m.to_sq())
            &&& geometry::attacks(
                p,
                m.from_sq().0 as int,
                m.to_sq().0 as int,
                Set::new(|i: int| 0 <= i < 64 && s.board[i] is Some),
            )
            &&& s.board[m.to_sq().0 as int] matches Some(q) ==> q.color != s.side
        },
{
    law_legal_moves(s, m);
    lemma_king_exists(s, s.side);
    lemma_normal(m.from_sq(), m.to_sq());
    Move::lemma_parts(movegen::own_king(s), m.to_sq(), 0, MoveType::Castling);
    assert(Set::new(|i: int| 0 <= i < 64 && s.board[i] is Some) =~= s.occupied());
    if p.piece_type == PieceType::King {
        assert(s.holds(m.from_sq().0 as int, s.side, PieceType::King));
        assert(s.holds(s.king(s.side), s.side, PieceType::King));
    }
}

/// Only pieces of the side to move are moved.
pub proof fn law_own_pieces_move(s: State, m: Move)
    requires
        sound(s),
        movegen::legal(s).contains(m),
    ensures
        s.board[m.from_sq().0 as int] matches Some(p) && p.color == s.side,
{
    law_legal_moves(s, m);
    lemma_king_exists(s, s.side);
    lemma_normal(m.from_sq(), m.to_sq());
    Move::lemma_parts(movegen::own_king(s), m.to_sq(), 0, MoveType::Castling);
}

/// The pseudo-legal moves of a pawn: the step to the empty square ahead, the double
/// step from its first square past an empty one, the captures of enemy pieces
/// diagonally ahead, and the en-passant capture on the target there. A pawn that
/// reaches the last rank promotes, and no other does.
pub proof fn law_pseudo_legal_pawn_moves(s: State, m: Move)
    requires
        s.valid(),
        s.has_king(s.side),
        s.board[m.from_sq().0 as int] == Some(
            Piece { color: s.side, piece_type: PieceType::Pawn },
        ),
    ensures
        ({
            let f = m.from_sq().0 as int;
            let t = m.to_sq().0 as int;
            let ahead: int = match s.side {
                Color::White => 8,
                Color::Black => -8,
            };
            let first: int = match s.side {
                Color::White => 1,
                Color::Black => 6,
            };
            let aslant = (t == f + ahead + 1 && f % 8 != 7) || (t == f + ahead - 1 && f % 8 != 0);
            movegen::pseudo_legal(s).contains(m) <==> match m.move_type() {
                MoveType::EnPassant => m == Move::en_passant(m.from_sq(), m.to_sq()) && aslant
                    && s.ep == Some(m.to_sq()),
                MoveType::Castling => false,
                _ => {
                    &&& {
                        ||| t == f + ahead && s.board[t] is None
                        ||| t == f + 2 * ahead && f / 8 == first && s.board[f + ahead] is None
                            && s.board[t] is None
                        ||| aslant && (s.board[t] matches Some(p) && p.color != s.side)
                    }
                    &&& if t < 8 || t >= 56 {
                        m.move_type() == MoveType::Promotion
                    } else {
                        m == Move::normal(m.from_sq(), m.to_sq())
                    }
                },
            }
        }),
{
    law_pseudo_legal_moves(s, m);
    let f = m.from_sq().0 as int;
    let t = m.to_sq().0 as int;
    let ahead: int = match s.side {
        Color::White => 8,
        Color::Black => -8,
    };
    let first: int = match s.side {
        Color::White => 1,
        Color::Black => 6,
    };
    let aslant = (t == f + ahead + 1 && f % 8 != 7) || (t == f + ahead - 1 && f % 8 != 0);
    assert(s.holds(f, s.side, PieceType::Pawn));
    lemma_pawn_geometry(s.side, f, t);
    lemma_pawn_kinds(s, m);
    if m.move_type() == MoveType::Normal || m.move_type() == MoveType::Promotion {
        lemma_pawn_plain(s, m, ahead, first, aslant);
    }
}

/// The pseudo-legal moves of the other pieces, castling aside: to every square that
/// the piece attacks and that no piece of its own color holds. Of several kings
/// only the one on the lowest square moves.
pub proof fn law_pseudo_legal_piece_moves(s: State, m: Move, p: Piece)
    requires
        s.valid(),
        s.has_king(s.side),
        s.board[m.from_sq().0 as int] == Some(p),
        p.color == s.side,
        p.piece_type != PieceType::Pawn,
        m.move_type() != MoveType::Castling,
    ensures
        movegen::pseudo_legal(s).contains(m) <==> {
            &&& m == Move::normal(m.from_sq(), m.to_sq())
            &&& geometry::attacks(
                p,
                m.from_sq().0 as int,
                m.to_sq().0 as int,
                Set::new(|i: int| 0 <= i < 64 && s.board[i] is Some),
            )
            &&& s.board[m.to_sq().0 as int] matches Some(q) ==> q.color != s.side
            &&& p.piece_type == PieceType::King ==> forall|i: int|
                0 <= i < m.from_sq().0 ==> #[trigger] s.board[i] != Some(p)
        },
{
    law_pseudo_legal_moves(s, m);
    lemma_king_exists(s, s.side);
    lemma_normal(m.from_sq(), m.to_sq());
    Move::lemma_parts(movegen::own_king(s), m.to_sq(), 0, MoveType::Castling);
    assert(Set::new(|i: int| 0 <= i < 64 && s.board[i] is Some) =~= s.occupied());
    if p.piece_type == PieceType::King {
        let f = m.from_sq().0 as int;
        let k = s.king(s.side);
        assert(s.holds(f, s.side, PieceType::King));
        assert(s.holds(k, s.side, PieceType::King));
        assert(s.board[k] == Some(p));
        assert forall|i: int| 0 <= i < k implies #[trigger] s.board[i] != Some(p) by {
            if s.board[i] == Some(p) {
                assert(s.holds(i, s.side, PieceType::King));
            }
        }
    }
}

/// Castling is generated, and found legal, exactly if the right is held, the squares
/// between e- and h-file, or between a- and e-file, of the home rank are empty, the
/// king is not in check, and no enemy piece attacks the two squares next to the
/// e-file on that side. It goes from the king to the corner of the rook.
pub proof fn law_castling_squares(s: State, m: Move)
    requires
        s.valid(),
        s.has_king(s.side),
        m.move_type() == MoveType::Castling,
    ensures
        ({
            let f = m.from_sq().0 as int;
            let t = m.to_sq().0 as int;
            let king = Some(Piece { color: s.side, piece_type: PieceType::King });
            let home: int = match s.side {
                Color::White => 0,
                Color::Black => 56,
            };
            let them = match s.side {
                Color::White => Color::Black,
                Color::Black => Color::White,
            };
            let short = match s.side {
                Color::White => s.castling & 1 != 0,
                Color::Black => s.castling & 4 != 0,
            };
            let long = match s.side {
                Color::White => s.castling & 2 != 0,
                Color::Black => s.castling & 8 != 0,
            };
            let allowed = {
                &&& m == Move::castling(m.from_sq(), m.to_sq())
                &&& s.board[f] == king
                &&& forall|i: int| 0 <= i < f ==> #[trigger] s.board[i] != king
                &&& !s.attacked(f, them)
                &&& {
                    ||| {
                        &&& t == home + 7
                        &&& short
                        &&& s.board[home + 5] is None && s.board[home + 6] is None
                        &&& !s.attacked(home + 5, them) && !s.attacked(home + 6, them)
                    }
                    ||| {
                        &&& t == home
                        &&& long
                        &&& s.board[home + 1] is None && s.board[home + 2] is None
                            && s.board[home + 3] is None
                        &&& !s.attacked(home + 2, them) && !s.attacked(home + 3, them)
                    }
                }
            };
            &&& movegen::pseudo_legal(s).contains(m) <==> allowed
            &&& movegen::legal(s).contains(m) <==> allowed
        }),
{
    law_pseudo_legal_moves(s, m);
    lemma_accepted_members(s, movegen::pseudo_legal(s), m);
    lemma_king_exists(s, s.side);
    let k = s.king(s.side);
    let f = m.from_sq().0 as int;
    let king = Some(Piece { color: s.side, piece_type: PieceType::King });
    lemma_normal(m.from_sq(), m.to_sq());
    Move::lemma_parts(m.from_sq(), m.to_sq(), 0, MoveType::EnPassant);
    Move::lemma_parts(movegen::own_king(s), m.to_sq(), 0, MoveType::Castling);
    assert(s.holds(k, s.side, PieceType::King));
    assert(s.board[k] == king);
    assert forall|i: int| 0 <= i < k implies #[trigger] s.board[i] != king by {
        if s.board[i] == king {
            assert(s.holds(i, s.side, PieceType::King));
        }
    }
    if s.board[f] == king {
        assert(s.holds(f, s.side, PieceType::King));
    }
    if is_pseudo_legal(s, m) {
        lemma_castling_kind(s, m);
        if movegen::double_check(s) {
            let (p, q) = choose|p: int, q: int|
                p != q && #[trigger] movegen::is_checker(s, p) && #[trigger] movegen::is_checker(
                    s,
                    q,
                );
            assert(s.board[p] is Some);
            assert(s.attacked(k, s.side.flip()));
        }
    }
}

/// The legal moves are among the pseudo-legal ones, in the same order.
pub proof fn law_legal_keeps_order(s: State) -> (at: Seq<int>)
    ensures
        at.len() == movegen::legal(s).len(),
        forall|i: int|
            #![trigger at[i]]
            0 <= i < at.len() ==> 0 <= at[i] < movegen::pseudo_legal(s).len()
                && movegen::pseudo_legal(s)[at[i]] == movegen::legal(s)[i],
        forall|i: int, j: int|
            #![trigger at[i], at[j]]
            0 <= i < j < at.len() ==> at[i] < at[j],
{
    lemma_accepted_order(s, movegen::pseudo_legal(s))
}

proof fn lemma_accepted_order(s: State, moves: Seq<Move>) -> (at: Seq<int>)
    ensures
        at.len() == movegen::accepted(s, moves).len(),
        forall|i: int|
            #![trigger at[i]]
            0 <= i < at.len() ==> 0 <= at[i] < moves.len() && moves[at[i]] == movegen::accepted(
                s,
                moves,
            )[i],
        forall|i: int, j: int|
            #![trigger at[i], at[j]]
            0 <= i < j < at.len() ==> at[i] < at[j],
    decreases moves.len(),
{
    if moves.len() == 0 {
        Seq::empty()
    } else {
        let before = lemma_accepted_order(s, moves.drop_last());
        if movegen::accepts(s, moves.last()) {
            before.push(moves.len() - 1)
        } else {
            before
        }
    }
}

// ---------------------------------------------------------------------------
// The order of generation.
// ---------------------------------------------------------------------------

/// The turn of a move in the list: pawns, knights, bishops, rooks, queens and the
/// king, and castling last, king-side first. Pieces of a type take turns from the
/// lowest square up, and a piece goes to its squares from the lowest up; but a
/// pawn's single step comes before its double step, then its captures, then en
/// passant. Promotions are to queen, rook, bishop and knight.
pub open spec fn turn(s: State, m: Move) -> int {
    let f = m.from_sq().0 as int;
    let t = m.to_sq().0 as int;
    if m.move_type() == MoveType::Castling {
        393216 + (if t % 8 == 7 {
            0int
        } else {
            1int
        })
    } else {
        let kind = match s.board[f] {
            Some(p) => match p.piece_type {
                PieceType::Pawn => 0int,
                PieceType::Knight => 1int,
                PieceType::Bishop => 2int,
                PieceType::Rook => 3int,
                PieceType::Queen => 4int,
                PieceType::King => 5int,
            },
            None => 7int,
        };
        let stage = if kind != 0 {
            0int
        } else if m.move_type() == MoveType::EnPassant {
            3int
        } else if t % 8 != f % 8 {
            2int
        } else if t - f == 16 || f - t == 16 {
            1int
        } else {
            0int
        };
        let piece = if m.move_type() != MoveType::Promotion {
            0int
        } else {
            match m.promotion_type() {
                PieceType::Queen => 0int,
                PieceType::Rook => 1int,
                PieceType::Bishop => 2int,
                _ => 3int,
            }
        };
        kind * 65536 + f * 1024 + stage * 256 + t * 4 + piece
    }
}

/// The moves take their turns.
spec fn in_turn(s: State, list: Seq<Move>) -> bool {
    forall|i: int, j: int|
        #![trigger list[i], list[j]]
        0 <= i < j < list.len() ==> turn(s, list[i]) < turn(s, list[j])
}

/// All turns in the list are from `lo` to below `hi`.
spec fn turns_within(s: State, list: Seq<Move>, lo: int, hi: int) -> bool {
    forall|i: int| #![trigger list[i]] 0 <= i < list.len() ==> lo <= turn(s, list[i]) < hi
}

proof fn lemma_add_in_turn(s: State, a: Seq<Move>, b: Seq<Move>, lo: int, mid: int, hi: int)
    requires
        in_turn(s, a),
        in_turn(s, b),
        turns_within(s, a, lo, mid),
        turns_within(s, b, mid, hi),
        lo <= mid <= hi,
    ensures
        in_turn(s, a + b),
        turns_within(s, a + b, lo, hi),
{
    let c = a + b;
    assert forall|i: int| #![trigger c[i]] 0 <= i < c.len() implies lo <= turn(s, c[i]) < hi by {
        if i < a.len() {
            assert(c[i] == a[i]);
        } else {
            assert(c[i] == b[i - a.len()]);
        }
    }
    assert forall|i: int, j: int|
        #![trigger c[i], c[j]]
        0 <= i < j < c.len() implies turn(s, c[i]) < turn(s, c[j]) by {
        if j < a.len() {
            assert(c[i] == a[i] && c[j] == a[j]);
        } else if i >= a.len() {
            assert(c[i] == b[i - a.len()] && c[j] == b[j - a.len()]);
        } else {
            assert(c[i] == a[i] && c[j] == b[j - a.len()]);
        }
    }
}

/// One step of a pawn, promoting or not.
proof fn lemma_pawn_step_turn(s: State, from: Square, to: Square, stage: int)
    requires
        from.valid(),
        to.valid(),
        s.holds(from.0 as int, s.side, PieceType::Pawn),
        stage == (if to.0 % 8 != from.0 % 8 {
            2int
        } else if to.0 - from.0 == 16 || from.0 - to.0 == 16 {
            1int
        } else {
            0int
        }),
    ensures
        in_turn(s, movegen::pawn_step(s.side, from, to)),
        turns_within(
            s,
            movegen::pawn_step(s.side, from, to),
            from.0 * 1024 + stage * 256 + to.0 * 4,
            from.0 * 1024 + stage * 256 + to.0 * 4 + 4,
        ),
{
    lemma_promotion(from, to, PieceType::Queen);
    lemma_promotion(from, to, PieceType::Rook);
    lemma_promotion(from, to, PieceType::Bishop);
    lemma_promotion(from, to, PieceType::Knight);
    lemma_normal(from, to);
}

proof fn lemma_pawn_captures_turn(s: State, from: Square, targets: Seq<Square>, lo: int)
    requires
        from.valid(),
        s.holds(from.0 as int, s.side, PieceType::Pawn),
        forall|j: int|
            0 <= j < targets.len() ==> (#[trigger] targets[j]).valid() && targets[j].0 % 8
                != from.0 % 8 && targets[j].0 >= lo,
        forall|i: int, j: int|
            #![trigger targets[i], targets[j]]
            0 <= i < j < targets.len() ==> targets[i].0 < targets[j].0,
        0 <= lo <= 64,
    ensures
        in_turn(s, movegen::pawn_captures(s.side, from, targets)),
        turns_within(
            s,
            movegen::pawn_captures(s.side, from, targets),
            from.0 * 1024 + 512 + lo * 4,
            from.0 * 1024 + 768,
        ),
    decreases targets.len(),
{
    if targets.len() > 0 {
        let rest = targets.drop_first();
        let t = targets[0].0 as int;
        assert forall|j: int| 0 <= j < rest.len() implies (#[trigger] rest[j]).valid() && rest[j].0
            % 8 != from.0 % 8 && rest[j].0 >= t + 1 by {
            assert(rest[j] == targets[j + 1]);
        }
        assert forall|i: int, j: int|
            #![trigger rest[i], rest[j]]
            0 <= i < j < rest.len() implies rest[i].0 < rest[j].0 by {
            assert(rest[i] == targets[i + 1] && rest[j] == targets[j + 1]);
        }
        lemma_pawn_captures_turn(s, from, rest, t + 1);
        lemma_pawn_step_turn(s, from, targets[0], 2);
        lemma_add_in_turn(
            s,
            movegen::pawn_step(s.side, from, targets[0]),
            movegen::pawn_captures(s.side, from, rest),
            from.0 * 1024 + 512 + t * 4,
            from.0 * 1024 + 512 + (t + 1) * 4,
            from.0 * 1024 + 768,
        );
    }
}

/// The squares ahead of a pawn.
proof fn lemma_ahead(c: Color, from: Square)
    ensures
        movegen::ahead(c, from, 1) == from.0 + (if c == Color::White {
            8int
        } else {
            -8int
        }),
        movegen::ahead(c, from, 2) == from.0 + (if c == Color::White {
            16int
        } else {
            -16int
        }),
{
    match c {
        Color::White => {
            assert(c.forward() == 1);
        },
        Color::Black => {
            assert(c.forward() == -1);
        },
    }
}

proof fn lemma_pawn_pushes_turn(s: State, from: Square)
    requires
        s.valid(),
        from.valid(),
        s.holds(from.0 as int, s.side, PieceType::Pawn),
    ensures
        in_turn(s, movegen::pawn_pushes(s, from)),
        turns_within(s, movegen::pawn_pushes(s, from), from.0 * 1024, from.0 * 1024 + 512),
{
    let base = from.0 * 1024;
    let one = movegen::ahead(s.side, from, 1);
    let two = movegen::ahead(s.side, from, 2);
    lemma_ahead(s.side, from);
    if movegen::vacant(s, one) {
        let first = movegen::pawn_step(s.side, from, Square(one as u8));
        lemma_pawn_step_turn(s, from, Square(one as u8), 0);
        assert(turns_within(s, first, base, base + 256));
        if geometry::rank(from.0 as int) == movegen::pawn_rank(s.side) && movegen::vacant(s, two) {
            let m = Move::normal(from, Square(two as u8));
            let second = seq![m];
            lemma_normal(from, Square(two as u8));
            assert(turn(s, m) == base + 256 + two * 4);
            assert(turns_within(s, second, base + 256, base + 512));
            lemma_add_in_turn(s, first, second, base, base + 256, base + 512);
            assert(movegen::pawn_pushes(s, from) == first + second);
        } else {
            assert(movegen::pawn_pushes(s, from) =~= first);
        }
    }
}

proof fn lemma_pawn_moves_turn(s: State, from: Square)
    requires
        s.valid(),
        from.valid(),
        s.holds(from.0 as int, s.side, PieceType::Pawn),
    ensures
        in_turn(s, movegen::pawn_moves(s, from)),
        turns_within(s, movegen::pawn_moves(s, from), from.0 * 1024, from.0 * 1024 + 1024),
{
    let base = from.0 * 1024;
    let prey = movegen::pawn_prey(s, from);
    let targets = bitboard::listed(prey);
    let pushes = movegen::pawn_pushes(s, from);
    let captures = movegen::pawn_captures(s.side, from, targets);
    let ep = movegen::pawn_en_passant(s, from);
    bitboard::lemma_ascending(prey, 64);
    assert forall|j: int| 0 <= j < targets.len() implies (#[trigger] targets[j]).valid()
        && targets[j].0 % 8 != from.0 % 8 && targets[j].0 >= 0 by {
        assert(prey.contains(targets[j].0 as int));
    }
    lemma_pawn_captures_turn(s, from, targets, 0);
    lemma_pawn_pushes_turn(s, from);
    assert(turns_within(s, ep, base + 768, base + 1024)) by {
        if let Some(t) = s.ep {
            Move::lemma_parts(from, t, 0, MoveType::EnPassant);
        }
    }
    lemma_add_in_turn(s, pushes, captures, base, base + 512, base + 768);
    lemma_add_in_turn(s, pushes + captures, ep, base, base + 768, base + 1024);
}

proof fn lemma_all_pawn_moves_turn(s: State, squares: Seq<Square>, lo: int)
    requires
        s.valid(),
        0 <= lo <= 64,
        forall|j: int|
            0 <= j < squares.len() ==> (#[trigger] squares[j]).valid() && squares[j].0 >= lo
                && s.holds(squares[j].0 as int, s.side, PieceType::Pawn),
        forall|i: int, j: int|
            #![trigger squares[i], squares[j]]
            0 <= i < j < squares.len() ==> squares[i].0 < squares[j].0,
    ensures
        in_turn(s, movegen::all_pawn_moves(s, squares)),
        turns_within(s, movegen::all_pawn_moves(s, squares), lo * 1024, 65536),
    decreases squares.len(),
{
    if squares.len() > 0 {
        let rest = squares.drop_first();
        let f = squares[0].0 as int;
        assert forall|j: int| 0 <= j < rest.len() implies (#[trigger] rest[j]).valid() && rest[j].0
            >= f + 1 && s.holds(rest[j].0 as int, s.side, PieceType::Pawn) by {
            assert(rest[j] == squares[j + 1]);
        }
        assert forall|i: int, j: int|
            #![trigger rest[i], rest[j]]
            0 <= i < j < rest.len() implies rest[i].0 < rest[j].0 by {
            assert(rest[i] == squares[i + 1] && rest[j] == squares[j + 1]);
        }
        lemma_all_pawn_moves_turn(s, rest, f + 1);
        lemma_pawn_moves_turn(s, squares[0]);
        lemma_add_in_turn(
            s,
            movegen::pawn_moves(s, squares[0]),
            movegen::all_pawn_moves(s, rest),
            f * 1024,
            (f + 1) * 1024,
            65536,
        );
    }
}

/// The number of a piece type other than the pawn.
spec fn kind_number(pt: PieceType) -> int {
    match pt {
        PieceType::Pawn => 0,
        PieceType::Knight => 1,
        PieceType::Bishop => 2,
        PieceType::Rook => 3,
        PieceType::Queen => 4,
        PieceType::King => 5,
    }
}

proof fn lemma_piece_moves_turn(s: State, pt: PieceType, from: Square)
    requires
        from.valid(),
        pt != PieceType::Pawn,
        s.holds(from.0 as int, s.side, pt),
    ensures
        in_turn(s, movegen::piece_moves(s, pt, from)),
        turns_within(
            s,
            movegen::piece_moves(s, pt, from),
            kind_number(pt) * 65536 + from.0 * 1024,
            kind_number(pt) * 65536 + from.0 * 1024 + 1024,
        ),
{
    let targets = bitboard::listed(movegen::reach(s, pt, from));
    let list = movegen::piece_moves(s, pt, from);
    bitboard::lemma_ascending(movegen::reach(s, pt, from), 64);
    assert forall|i: int| #![trigger list[i]] 0 <= i < list.len() implies turn(s, list[i])
        == kind_number(pt) * 65536 + from.0 * 1024 + targets[i].0 * 4 && targets[i].0 < 64 by {
        lemma_normal(from, targets[i]);
    }
    assert forall|i: int, j: int|
        #![trigger list[i], list[j]]
        0 <= i < j < list.len() implies turn(s, list[i]) < turn(s, list[j]) by {
        assert(targets[i].0 < targets[j].0);
    }
}

proof fn lemma_all_piece_moves_turn(s: State, pt: PieceType, squares: Seq<Square>, lo: int)
    requires
        pt != PieceType::Pawn,
        0 <= lo <= 64,
        forall|j: int|
            0 <= j < squares.len() ==> (#[trigger] squares[j]).valid() && squares[j].0 >= lo
                && s.holds(squares[j].0 as int, s.side, pt),
        forall|i: int, j: int|
            #![trigger squares[i], squares[j]]
            0 <= i < j < squares.len() ==> squares[i].0 < squares[j].0,
    ensures
        in_turn(s, movegen::all_piece_moves(s, pt, squares)),
        turns_within(
            s,
            movegen::all_piece_moves(s, pt, squares),
            kind_number(pt) * 65536 + lo * 1024,
            kind_number(pt) * 65536 + 65536,
        ),
    decreases squares.len(),
{
    if squares.len() > 0 {
        let rest = squares.drop_first();
        let f = squares[0].0 as int;
        let base = kind_number(pt) * 65536;
        assert forall|j: int| 0 <= j < rest.len() implies (#[trigger] rest[j]).valid() && rest[j].0
            >= f + 1 && s.holds(rest[j].0 as int, s.side, pt) by {
            assert(rest[j] == squares[j + 1]);
        }
        assert forall|i: int, j: int|
            #![trigger rest[i], rest[j]]
            0 <= i < j < rest.len() implies rest[i].0 < rest[j].0 by {
            assert(rest[i] == squares[i + 1] && rest[j] == squares[j + 1]);
        }
        lemma_all_piece_moves_turn(s, pt, rest, f + 1);
        lemma_piece_moves_turn(s, pt, squares[0]);
        lemma_add_in_turn(
            s,
            movegen::piece_moves(s, pt, squares[0]),
            movegen::all_piece_moves(s, pt, rest),
            base + f * 1024,
            base + (f + 1) * 1024,
            base + 65536,
        );
    }
}

proof fn lemma_moves_of_turn(s: State, pt: PieceType)
    requires
        pt != PieceType::Pawn,
    ensures
        in_turn(s, movegen::moves_of(s, pt)),
        turns_within(
            s,
            movegen::moves_of(s, pt),
            kind_number(pt) * 65536,
            kind_number(pt) * 65536 + 65536,
        ),
{
    bitboard::lemma_ascending(s.of(s.side, pt), 64);
    lemma_all_piece_moves_turn(s, pt, bitboard::listed(s.of(s.side, pt)), 0);
}

/// The pseudo-legal moves are generated in turn.
pub proof fn law_generation_order(s: State, i: int, j: int)
    requires
        s.valid(),
        s.has_king(s.side),
        0 <= i < j < movegen::pseudo_legal(s).len(),
    ensures
        turn(s, movegen::pseudo_legal(s)[i]) < turn(s, movegen::pseudo_legal(s)[j]),
{
    let list = movegen::pseudo_legal(s);
    lemma_in_turn(s);
    assert(turn(s, list[i]) < turn(s, list[j]));
}

proof fn lemma_in_turn(s: State)
    requires
        s.valid(),
        s.has_king(s.side),
    ensures
        in_turn(s, movegen::pseudo_legal(s)),
{
    let pawns = s.of(s.side, PieceType::Pawn);
    let k = movegen::own_king(s);
    let r = movegen::home_rank(s.side);
    lemma_king_exists(s, s.side);
    bitboard::lemma_ascending(pawns, 64);
    let a = movegen::all_pawn_moves(s, bitboard::listed(pawns));
    let b = movegen::moves_of(s, PieceType::Knight);
    let c = movegen::moves_of(s, PieceType::Bishop);
    let d = movegen::moves_of(s, PieceType::Rook);
    let e = movegen::moves_of(s, PieceType::Queen);
    let f = movegen::piece_moves(s, PieceType::King, k);
    let g = movegen::castling_moves(s);
    lemma_all_pawn_moves_turn(s, bitboard::listed(pawns), 0);
    lemma_moves_of_turn(s, PieceType::Knight);
    lemma_moves_of_turn(s, PieceType::Bishop);
    lemma_moves_of_turn(s, PieceType::Rook);
    lemma_moves_of_turn(s, PieceType::Queen);
    lemma_piece_moves_turn(s, PieceType::King, k);
    Move::lemma_parts(k, Square(geometry::at(7, r) as u8), 0, MoveType::Castling);
    Move::lemma_parts(k, Square(geometry::at(0, r) as u8), 0, MoveType::Castling);
    assert(in_turn(s, g) && turns_within(s, g, 393216, 458752));
    lemma_add_in_turn(s, a, b, 0, 65536, 131072);
    lemma_add_in_turn(s, a + b, c, 0, 131072, 196608);
    lemma_add_in_turn(s, a + b + c, d, 0, 196608, 262144);
    lemma_add_in_turn(s, a + b + c + d, e, 0, 262144, 327680);
    lemma_add_in_turn(s, a + b + c + d + e, f, 0, 327680, 393216);
    lemma_add_in_turn(s, a + b + c + d + e + f, g, 0, 393216, 458752);
}

/// The legal moves are generated in turn.
pub proof fn law_legal_order(s: State, i: int, j: int)
    requires
        s.valid(),
        s.has_king(s.side),
        0 <= i < j < movegen::legal(s).len(),
    ensures
        turn(s, movegen::legal(s)[i]) < turn(s, movegen::legal(s)[j]),
{
    let at = law_legal_keeps_order(s);
    assert(at[i] < at[j]);
    law_generation_order(s, at[i], at[j]);
}

} // verus!
