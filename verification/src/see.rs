//! Static Exchange Evaluation (SEE).
//!
//! SEE answers a single, purely material question about a capture: *if I make
//! this capture and then both sides keep recapturing on the destination square
//! with their least-valuable attacker until neither wants to continue, what is
//! the net material outcome for me?*
//!
//! It uses flat piece values. The king is given a large sentinel value so that it
//! is always the last resort as an attacker (and it may only recapture when the
//! square is otherwise safe).

use vstd::prelude::*;
use crate::attacks::{bishop_attacks, rook_attacks};
use crate::bitboard;
use crate::bitboard::Bitboard;
use crate::geometry;
use crate::position::Position;
use crate::state;
use crate::state::State;
use crate::types::{Color, Move, MoveType, Piece, PieceType, Square};

verus! {

broadcast use bitboard::group_bitboard;

/// The longest chain of captures that is looked at.
pub const MAX_CAPTURES: usize = 32;

pub open spec fn see_value_spec(pt: PieceType) -> i32 {
    match pt {
        PieceType::Pawn => 100,
        PieceType::Knight => 320,
        PieceType::Bishop => 330,
        PieceType::Rook => 500,
        PieceType::Queen => 900,
        PieceType::King => 10_000,
    }
}

/// The flat SEE value of a piece type, in centipawns.
#[verifier::when_used_as_spec(see_value_spec)]
pub fn see_value(pt: PieceType) -> (r: i32)
    ensures
        r == see_value_spec(pt),
{
    match pt {
        PieceType::Pawn => 100,
        PieceType::Knight => 320,
        PieceType::Bishop => 330,
        PieceType::Rook => 500,
        PieceType::Queen => 900,
        PieceType::King => 10_000,
    }
}

/// The values rise strictly from pawn to king, so that the least-valuable
/// attacker is well defined.
pub proof fn law_values_rise(a: PieceType, b: PieceType)
    requires
        a.index() < b.index(),
    ensures
        see_value(a) < see_value(b),
{
}

// ---------------------------------------------------------------------------
// The value of an exchange.
// ---------------------------------------------------------------------------

/// The pieces of color `c` on the squares of `occ` that attack `to`.
pub open spec fn capturers(s: State, to: int, occ: Set<int>, c: Color) -> Set<int> {
    s.attackers(to, occ).intersect(occ).intersect(s.of_color(c))
}

/// The piece on `a` is chosen before the piece on `b`: it is of a lesser type, or
/// of the same type on a lower square.
pub open spec fn chosen_before(s: State, a: int, b: int) -> bool {
    let p = s.board[a]->0.piece_type.index();
    let q = s.board[b]->0.piece_type.index();
    p < q || (p == q && a <= b)
}

/// `q` is the first choice among `set`.
pub open spec fn is_first_choice(s: State, set: Set<int>, q: int) -> bool {
    set.contains(q) && forall|x: int| #[trigger] set.contains(x) ==> chosen_before(s, q, x)
}

/// The first choice among `set`.
pub open spec fn first_choice(s: State, set: Set<int>) -> int {
    choose|q: int| is_first_choice(s, set, q)
}

/// What `side` wins by recapturing on `to`, where a piece worth `on` stands, with
/// the squares of `occ` occupied and `depth` captures made already.
///
/// It recaptures with its least-valuable attacker if that wins anything, given
/// the other side's best reply. A king does not recapture on a square that the
/// other side still attacks.
pub open spec fn recapture_gain(
    s: State,
    to: int,
    occ: Set<int>,
    side: Color,
    on: int,
    depth: int,
) -> int
    decreases MAX_CAPTURES - depth,
{
    let own = capturers(s, to, occ, side);
    let q = first_choice(s, own);
    let pt = s.board[q]->0.piece_type;
    let rest = occ.remove(q);
    if own == Set::<int>::empty() || depth >= MAX_CAPTURES {
        0
    } else if pt == PieceType::King && capturers(s, to, rest, side.flip()) != Set::<
        int,
    >::empty() {
        0
    } else {
        let net = on - recapture_gain(
            s,
            to,
            rest,
            side.flip(),
            see_value(pt) as int,
            depth + 1,
        );
        if net > 0 {
            net
        } else {
            0
        }
    }
}

/// The value of what stands on a square, 0 if nothing does.
pub open spec fn value_at(s: State, sq: Square) -> int {
    match s.at(sq) {
        Some(p) => see_value(p.piece_type) as int,
        None => 0,
    }
}

/// What the move itself wins: the victim, and for a promotion what the pawn gains.
pub open spec fn first_gain(s: State, m: Move) -> int {
    match m.move_type() {
        MoveType::EnPassant => 100,
        MoveType::Promotion => value_at(s, m.to_sq()) + see_value(m.promotion_type()) - 100,
        _ => value_at(s, m.to_sq()),
    }
}

/// The value of the piece that stands on the destination after the move.
pub open spec fn mover_value(s: State, m: Move) -> int {
    match m.move_type() {
        MoveType::EnPassant => 100,
        MoveType::Promotion => see_value(m.promotion_type()) as int,
        _ => match s.at(m.from_sq()) {
            Some(p) => see_value(p.piece_type) as int,
            None => 100,
        },
    }
}

/// The squares occupied after the move, the destination aside.
pub open spec fn occupied_after(s: State, m: Move) -> Set<int> {
    if m.move_type() == MoveType::EnPassant {
        s.occupied().remove(state::ep_victim(m.from_sq(), m.to_sq()).0 as int).remove(
            m.from_sq().0 as int,
        )
    } else {
        s.occupied().remove(m.from_sq().0 as int)
    }
}

/// A move that neither captures nor promotes.
pub open spec fn is_quiet(s: State, m: Move) -> bool {
    match m.move_type() {
        MoveType::EnPassant | MoveType::Promotion => false,
        MoveType::Castling => true,
        MoveType::Normal => s.at(m.to_sq()) is None,
    }
}

/// The net material outcome of the capture sequence that `m` starts.
pub open spec fn exchange(s: State, m: Move) -> int {
    if is_quiet(s, m) {
        0
    } else {
        first_gain(s, m) - recapture_gain(
            s,
            m.to_sq().0 as int,
            occupied_after(s, m),
            s.side.flip(),
            mover_value(s, m),
            1,
        )
    }
}

/// A recapture wins at most what stands on the square, and is never made at a
/// loss.
proof fn lemma_recapture_bounds(
    s: State,
    to: int,
    occ: Set<int>,
    side: Color,
    on: int,
    depth: int,
)
    requires
        on >= 0,
    ensures
        0 <= recapture_gain(s, to, occ, side, on, depth) <= on,
    decreases MAX_CAPTURES - depth,
{
    if depth < MAX_CAPTURES {
        let q = first_choice(s, capturers(s, to, occ, side));
        let pt = s.board[q]->0.piece_type;
        lemma_recapture_bounds(s, to, occ.remove(q), side.flip(), see_value(pt) as int, depth + 1);
    }
}

/// A capture is worth at most its victim, and at least its victim less the piece
/// that makes it.
pub proof fn law_exchange_bounds(s: State, m: Move)
    requires
        !is_quiet(s, m),
    ensures
        first_gain(s, m) - mover_value(s, m) <= exchange(s, m) <= first_gain(s, m),
{
    lemma_recapture_bounds(
        s,
        m.to_sq().0 as int,
        occupied_after(s, m),
        s.side.flip(),
        mover_value(s, m),
        1,
    );
}

/// A capture on a square that the other side does not attack wins its victim.
pub proof fn law_undefended_wins_victim(s: State, m: Move)
    requires
        !is_quiet(s, m),
        capturers(s, m.to_sq().0 as int, occupied_after(s, m), s.side.flip()) == Set::<
            int,
        >::empty(),
    ensures
        exchange(s, m) == first_gain(s, m),
{
}

// ---------------------------------------------------------------------------
// The swap-off.
// ---------------------------------------------------------------------------

/// There is only one first choice.
proof fn lemma_first_choice(s: State, set: Set<int>, q: int)
    requires
        is_first_choice(s, set, q),
    ensures
        first_choice(s, set) == q,
{
    let r = first_choice(s, set);
    assert(is_first_choice(s, set, r));
    assert(set.contains(r) && set.contains(q));
    assert(chosen_before(s, q, r) && chosen_before(s, r, q));
}

/// Find the least-valuable attacker in `attackers` and return its square and
/// piece type.
fn least_valuable_attacker(pos: &Position, attackers: Bitboard) -> (r: Option<(Square, PieceType)>)
    requires
        pos.wf(),
        forall|x: int| #[trigger] attackers@.contains(x) ==> pos@.occupied().contains(x),
    ensures
        r is None <==> attackers@ == Set::<int>::empty(),
        r matches Some((sq, pt)) ==> sq.valid() && is_first_choice(
            pos@,
            attackers@,
            sq.0 as int,
        ) && pos@.board[sq.0 as int]->0.piece_type == pt,
{
    let order: [PieceType; 6] = [
        PieceType::Pawn,
        PieceType::Knight,
        PieceType::Bishop,
        PieceType::Rook,
        PieceType::Queen,
        PieceType::King,
    ];
    let mut i: usize = 0;
    // Probe piece types cheapest-first; the first one that intersects wins.
    while i < 6
        invariant
            i <= 6,
            pos.wf(),
            forall|j: int| 0 <= j < 6 ==> (#[trigger] order@[j]).index() == j,
            forall|x: int| #[trigger] attackers@.contains(x) ==> pos@.occupied().contains(x),
            forall|x: int| #[trigger]
                attackers@.contains(x) ==> pos@.board[x]->0.piece_type.index() >= i,
        decreases 6 - i,
    {
        let pt: PieceType = order[i];
        let of_type: Bitboard = pos.pieces_type(pt);
        let bb: Bitboard = attackers & of_type;
        proof {
            bitboard::lemma_empty();
            assert(order@[i as int].index() == i);
        }
        if bb.any() {
            let sq: Square = bb.lsb();
            proof {
                let q = sq.0 as int;
                assert(bb@.contains(q));
                assert forall|x: int| #[trigger] attackers@.contains(x) implies chosen_before(
                    pos@,
                    q,
                    x,
                ) by {
                    assert(pos@.occupied().contains(x));
                    if pos@.board[x]->0.piece_type.index() == i {
                        lemma_same_index(pos@.board[x]->0.piece_type, pt);
                        assert(bb@.contains(x));
                    }
                }
            }
            return Some((sq, pt));
        }
        proof {
            assert forall|x: int| #[trigger]
                attackers@.contains(x) implies pos@.board[x]->0.piece_type.index() >= i + 1 by {
                assert(pos@.occupied().contains(x));
                if pos@.board[x]->0.piece_type.index() == i {
                    lemma_same_index(pos@.board[x]->0.piece_type, pt);
                    assert(bb@.contains(x));
                }
            }
        }
        i = i + 1;
    }
    proof {
        assert forall|x: int| !attackers@.contains(x) by {
            if attackers@.contains(x) {
                assert(pos@.board[x]->0.piece_type.index() >= 6);
            }
        }
        assert(attackers@ =~= Set::<int>::empty());
    }
    None
}

proof fn lemma_same_index(a: PieceType, b: PieceType)
    requires
        a.index() == b.index(),
    ensures
        a == b,
{
}

/// The attackers of `to` on the squares of `occ`, of both colors.
pub open spec fn standing_attackers(s: State, to: int, occ: Set<int>) -> Set<int> {
    s.attackers(to, occ).intersect(occ)
}

/// Recompute the attacker set of `to` after removing a piece from `occupied`.
///
/// Leapers and pawns can never be *uncovered* by removing a blocker, so only the
/// sliding attackers can change: the existing set (minus pieces no longer on the
/// board) is kept, and every bishop, rook or queen that now sees `to` through the
/// thinned occupancy is added.
fn refreshed_attackers(
    pos: &Position,
    to: Square,
    occupied: Bitboard,
    prev: Bitboard,
    Ghost(occ): Ghost<Set<int>>,
) -> (r: Bitboard)
    requires
        pos.wf(),
        to.valid(),
        forall|x: int| #[trigger] occupied@.contains(x) ==> occ.contains(x),
        prev@ == standing_attackers(pos@, to.0 as int, occ),
    ensures
        r@ == standing_attackers(pos@, to.0 as int, occupied@),
{
    let queens: Bitboard = pos.pieces_type(PieceType::Queen);
    let bishops_queens: Bitboard = pos.pieces_type(PieceType::Bishop) | queens;
    let rooks_queens: Bitboard = pos.pieces_type(PieceType::Rook) | queens;
    let diagonal: Bitboard = bishop_attacks(to, occupied) & bishops_queens;
    let straight: Bitboard = rook_attacks(to, occupied) & rooks_queens;
    let r: Bitboard = (prev | diagonal | straight) & occupied;
    proof {
        let t = to.0 as int;
        let s = pos@;
        let occ2 = occupied@;
        assert forall|q: int| #[trigger] r@.contains(q) == standing_attackers(
            s,
            t,
            occ2,
        ).contains(q) by {
            geometry::lemma_between_symmetric(q, t);
            if geometry::clear(q, t, occ) {
                assert forall|x: int| #[trigger] geometry::between(q, t, x) implies !occ2.contains(
                    x,
                ) by {
                    assert(!occ.contains(x));
                }
            }
            if geometry::on_board(q) && s.board[q] is Some {
                geometry::lemma_leap_or_slide(s.board[q]->0, q, t, occ);
                geometry::lemma_leap_or_slide(s.board[q]->0, q, t, occ2);
            }
        }
        assert(r@ =~= standing_attackers(s, t, occ2));
    }
    r
}

/// The value at the root of the first `n` recorded gains, if the exchange after
/// the last of them is worth `x` to the side that continues it.
spec fn folded(gain: Seq<i32>, n: int, x: int) -> int
    decreases n,
{
    if n <= 1 {
        gain[0] - x
    } else {
        let net = gain[n - 1] + gain[n - 2] - x;
        folded(
            gain,
            n - 1,
            if net > 0 {
                net
            } else {
                0
            },
        )
    }
}

/// Only the first `n` gains count.
proof fn lemma_folded_prefix(a: Seq<i32>, b: Seq<i32>, n: int, x: int)
    requires
        n >= 1,
        forall|i: int| 0 <= i < n ==> #[trigger] a[i] == b[i],
    ensures
        folded(a, n, x) == folded(b, n, x),
    decreases n,
{
    if n > 1 {
        let net = a[n - 1] + a[n - 2] - x;
        assert(a[n - 1] == b[n - 1] && a[n - 2] == b[n - 2]);
        lemma_folded_prefix(
            a,
            b,
            n - 1,
            if net > 0 {
                net
            } else {
                0
            },
        );
    }
}

/// What the exchange is worth after the last gain can be booked there.
proof fn lemma_folded_booked(a: Seq<i32>, b: Seq<i32>, n: int, x: int)
    requires
        n >= 1,
        forall|i: int| 0 <= i < n - 1 ==> #[trigger] a[i] == b[i],
        b[n - 1] == a[n - 1] - x,
    ensures
        folded(a, n, x) == folded(b, n, 0),
{
    if n > 1 {
        let net = a[n - 1] + a[n - 2] - x;
        assert(a[n - 2] == b[n - 2]);
        lemma_folded_prefix(
            a,
            b,
            n - 1,
            if net > 0 {
                net
            } else {
                0
            },
        );
    }
}

/// The shared swap-off core: the net material of the capture chain on
/// `m.to_sq()`, from the perspective of the side that plays `m`.
fn see_swap(pos: &Position, m: Move) -> (r: i32)
    requires
        pos.wf(),
    ensures
        r == exchange(pos@, m),
{
    let ghost s = pos@;
    let to: Square = m.to_sq();
    let from: Square = m.from_sq();
    let mut occupied: Bitboard = pos.occupied();

    // The value of whatever stands on `to` after the move: what the opponent wins
    // by recapturing.
    let mut on_square: i32;
    let mut gain: [i32; 32] = [0;32];

    // Book the first captured piece.
    match m.move_type() {
        MoveType::EnPassant => {
            gain[0] = see_value(PieceType::Pawn);
            let cap_sq: Square = Square::make(to.file(), from.rank());
            occupied.clear(cap_sq);
            on_square = see_value(PieceType::Pawn);
        },
        MoveType::Promotion => {
            let promo: i32 = see_value(m.promotion_type());
            let victim: i32 = match pos.piece_at(to) {
                Some(p) => see_value(p.piece_type),
                None => 0,
            };
            gain[0] = victim + promo - see_value(PieceType::Pawn);
            on_square = promo;
        },
        MoveType::Castling => {
            return 0;
        },
        MoveType::Normal => {
            let victim: i32 = match pos.piece_at(to) {
                Some(p) => see_value(p.piece_type),
                None => {
                    return 0;
                },
            };
            gain[0] = victim;
            on_square =
            match pos.piece_at(from) {
                Some(p) => see_value(p.piece_type),
                None => see_value(PieceType::Pawn),
            };
        },
    }

    // The attacker has moved from `from` onto `to`.
    occupied.clear(from);
    let mut side: Color = pos.side_to_move().flip();
    let mut depth: usize = 1;
    let mut attackers: Bitboard = pos.attackers_to(to, occupied) & occupied;
    let ghost t = to.0 as int;
    proof {
        assert(occupied@ == occupied_after(s, m));
        assert(attackers@ =~= standing_attackers(s, t, occupied@));
    }
    loop
        invariant_except_break
            exchange(s, m) == folded(
                gain@,
                depth as int,
                recapture_gain(s, t, occupied@, side, on_square as int, depth as int),
            ),
        invariant
            pos.wf(),
            s == pos@,
            to.valid(),
            t == to.0,
            1 <= depth <= 32,
            0 <= on_square <= 10_000,
            forall|i: int|
                0 <= i < depth ==> -10_900 - 10_000 * i <= #[trigger] gain@[i] <= 10_900 + 10_000
                    * i,
            attackers@ == standing_attackers(s, t, occupied@),
        ensures
            exchange(s, m) == folded(gain@, depth as int, 0),
        decreases 32 - depth,
    {
        // Restrict to the side that is on move to recapture.
        let side_attackers: Bitboard = attackers & pos.pieces(side);
        let ghost occ = occupied@;
        proof {
            assert(side_attackers@ =~= capturers(s, t, occ, side));
        }
        if side_attackers.is_empty() {
            break;
        }
        let (attacker_sq, attacker_pt): (Square, PieceType) = match least_valuable_attacker(
            pos,
            side_attackers,
        ) {
            Some(pair) => pair,
            None => {
                break;
            },
        };
        proof {
            lemma_first_choice(s, side_attackers@, attacker_sq.0 as int);
        }
        if depth >= MAX_CAPTURES {
            break;
        }
        // The recapturing side wins whatever stands on `to`, but now exposes its
        // own attacker to be captured in turn.
        let ghost before = gain@;
        let ghost on_before = on_square as int;
        assert(-10_900 - 10_000 * (depth - 1) <= gain@[depth - 1] <= 10_900 + 10_000 * (depth - 1));
        gain[depth] = on_square - gain[depth - 1];
        on_square = see_value(attacker_pt);

        // Remove the chosen attacker and re-derive the sliders, so that any piece
        // it was shielding now counts.
        occupied.clear(attacker_sq);
        attackers = refreshed_attackers(pos, to, occupied, attackers, Ghost(occ));

        // A king may only recapture if the square is not then defended by the other
        // side; otherwise the chain stops with the king's capture unplayed.
        let defenders: Bitboard = attackers & pos.pieces(side.flip());
        proof {
            assert(defenders@ =~= capturers(s, t, occupied@, side.flip()));
            lemma_folded_prefix(
                before,
                gain@,
                depth as int,
                recapture_gain(s, t, occ, side, on_before, depth as int),
            );
        }
        if attacker_pt == PieceType::King && defenders.any() {
            break;
        }
        side = side.flip();
        depth = depth + 1;
    }

    // Fold the gains back: each side takes the better of stopping and letting the
    // capture happen.
    while depth > 1
        invariant
            1 <= depth <= 32,
            exchange(s, m) == folded(gain@, depth as int, 0),
            forall|i: int|
                0 <= i < depth ==> -400_000 <= #[trigger] gain@[i] <= 400_000,
        decreases depth,
    {
        depth = depth - 1;
        let ghost before = gain@;
        let stop: i32 = -gain[depth - 1];
        let go: i32 = gain[depth];
        assert(-400_000 <= gain@[depth - 1] <= 400_000);
        assert(-400_000 <= gain@[depth as int] <= 400_000);
        let best: i32 = if stop >= go {
            stop
        } else {
            go
        };
        gain[depth - 1] = -best;
        proof {
            let net = before[depth as int] + before[depth - 1];
            lemma_folded_booked(
                before,
                gain@,
                depth as int,
                if net > 0 {
                    net
                } else {
                    0
                },
            );
        }
    }
    gain[0]
}

/// The full net material outcome (in centipawns, from the moving side's
/// perspective) of the capture sequence initiated by `m`.
///
/// A non-capturing, non-promoting move returns `0`.
pub fn see(pos: &Position, m: Move) -> (r: i32)
    requires
        pos.wf(),
    ensures
        r == exchange(pos@, m),
{
    see_swap(pos, m)
}

/// Is `see(pos, m)` at least `threshold`?
pub fn see_ge(pos: &Position, m: Move, threshold: i32) -> (r: bool)
    requires
        pos.wf(),
    ensures
        r == (exchange(pos@, m) >= threshold),
{
    see_swap(pos, m) >= threshold
}

// ---------------------------------------------------------------------------
// The exchange, played out on the board.
// ---------------------------------------------------------------------------

/// The squares that hold a piece.
pub open spec fn filled_squares(board: Seq<Option<Piece>>) -> Set<int> {
    Set::new(|i: int| 0 <= i < 64 && board[i] is Some)
}

/// What the pieces on the squares below `n` are worth: those of color `c` count for
/// it, the others against it.
pub open spec fn material(board: Seq<Option<Piece>>, c: Color, n: int) -> int
    decreases n,
{
    if n <= 0 {
        0
    } else {
        material(board, c, n - 1) + match board[n - 1] {
            Some(p) => if p.color == c {
                see_value(p.piece_type) as int
            } else {
                -(see_value(p.piece_type) as int)
            },
            None => 0,
        }
    }
}

/// A piece of color `side` stands on `q` and attacks `to`.
pub open spec fn can_take(board: Seq<Option<Piece>>, to: int, side: Color, q: int) -> bool {
    &&& 0 <= q < 64
    &&& board[q] is Some
    &&& board[q]->0.color == side
    &&& geometry::attacks(board[q]->0, q, to, filled_squares(board))
}

/// The piece on `q` is the cheapest that can take on `to`, and of several the one on
/// the lowest square.
pub open spec fn takes_first(board: Seq<Option<Piece>>, to: int, side: Color, q: int) -> bool {
    &&& can_take(board, to, side, q)
    &&& forall|x: int| #[trigger]
        can_take(board, to, side, x) ==> {
            let a = see_value(board[q]->0.piece_type);
            let b = see_value(board[x]->0.piece_type);
            a < b || (a == b && q <= x)
        }
}

/// The board after the piece on `q` has taken on `to`.
pub open spec fn taken(board: Seq<Option<Piece>>, q: int, to: int) -> Seq<Option<Piece>> {
    board.update(q, None).update(to, board[q])
}

/// The best material balance that `side` reaches by play on `to`: it lets the board
/// stand, or takes with its cheapest piece and faces the best reply, whichever is
/// better for it. A king does not take where it would be attacked. At most `left`
/// captures are looked at.
pub open spec fn best_balance(
    board: Seq<Option<Piece>>,
    to: int,
    side: Color,
    left: nat,
) -> int
    decreases left,
{
    let stand = material(board, side, 64);
    if left == 0 || !exists|q: int| can_take(board, to, side, q) {
        stand
    } else {
        let q = choose|q: int| takes_first(board, to, side, q);
        let next = taken(board, q, to);
        if board[q]->0.piece_type == PieceType::King && exists|x: int|
            can_take(next, to, side.flip(), x) {
            stand
        } else {
            let go = -best_balance(next, to, side.flip(), (left - 1) as nat);
            if go > stand {
                go
            } else {
                stand
            }
        }
    }
}

/// What one side is up, the other is down.
proof fn lemma_material_sides(board: Seq<Option<Piece>>, c: Color, n: int)
    ensures
        material(board, c.flip(), n) == -material(board, c, n),
    decreases n,
{
    if n > 0 {
        lemma_material_sides(board, c, n - 1);
    }
}

/// What a cell counts for color `c`.
spec fn worth(cell: Option<Piece>, c: Color) -> int {
    match cell {
        Some(p) => if p.color == c {
            see_value(p.piece_type) as int
        } else {
            -(see_value(p.piece_type) as int)
        },
        None => 0,
    }
}

proof fn lemma_material_update(
    board: Seq<Option<Piece>>,
    i: int,
    cell: Option<Piece>,
    c: Color,
    n: int,
)
    requires
        0 <= i < board.len(),
        0 <= n <= board.len(),
    ensures
        i < n ==> material(board.update(i, cell), c, n) == material(board, c, n) - worth(
            board[i],
            c,
        ) + worth(cell, c),
        i >= n ==> material(board.update(i, cell), c, n) == material(board, c, n),
    decreases n,
{
    if n > 0 {
        lemma_material_update(board, i, cell, c, n - 1);
    }
}

/// A set of occupied squares has a first choice.
proof fn lemma_first_choice_below(s: State, set: Set<int>, x: int, n: int) -> (q: int)
    requires
        0 <= x < n,
        set.contains(x),
        forall|y: int| #[trigger] set.contains(y) ==> y >= 0,
    ensures
        set.contains(q),
        q < n,
        forall|y: int| #[trigger] set.contains(y) && y < n ==> chosen_before(s, q, y),
    decreases n,
{
    if exists|y: int| #[trigger] set.contains(y) && y < n - 1 {
        let y = choose|y: int| #[trigger] set.contains(y) && y < n - 1;
        let q = lemma_first_choice_below(s, set, y, n - 1);
        if set.contains(n - 1) && !chosen_before(s, q, n - 1) {
            n - 1
        } else {
            q
        }
    } else {
        assert(x == n - 1);
        x
    }
}

/// The board is that of the position where the squares of `occ` are concerned, has
/// nothing elsewhere, and a piece of color `c` worth `on` on `to`.
spec fn plays_out(
    s: State,
    board: Seq<Option<Piece>>,
    to: int,
    occ: Set<int>,
    c: Color,
    on: int,
) -> bool {
    &&& s.valid()
    &&& board.len() == 64
    &&& geometry::on_board(to)
    &&& forall|i: int|
        #![trigger board[i]]
        0 <= i < 64 && i != to ==> board[i] == if occ.contains(i) {
            s.board[i]
        } else {
            None
        }
    &&& forall|i: int| #[trigger] occ.contains(i) ==> s.occupied().contains(i)
    &&& board[to] is Some && board[to]->0.color == c && see_value(board[to]->0.piece_type) == on
}

/// The same pieces attack the square on the board and in the model.
proof fn lemma_same_takers(
    s: State,
    board: Seq<Option<Piece>>,
    to: int,
    occ: Set<int>,
    side: Color,
    on: int,
    q: int,
)
    requires
        plays_out(s, board, to, occ, side.flip(), on),
    ensures
        can_take(board, to, side, q) <==> capturers(s, to, occ, side).contains(q),
        capturers(s, to, occ, side).contains(q) ==> q != to && board[q] == s.board[q],
{
    if geometry::on_board(q) {
        if q == to {
            geometry::lemma_no_self_attack(s.board[q]->0, q, occ);
        } else if occ.contains(q) {
            assert(s.occupied().contains(q));
            let p = s.board[q]->0;
            let now = filled_squares(board);
            assert forall|x: int| #[trigger] geometry::between(q, to, x) implies now.contains(x)
                == occ.contains(x) by {
                assert(x != to);
                assert(board[x] == if occ.contains(x) {
                    s.board[x]
                } else {
                    None
                });
                if occ.contains(x) {
                    assert(s.occupied().contains(x));
                }
            }
            assert(geometry::clear(q, to, now) == geometry::clear(q, to, occ)) by {
                if geometry::clear(q, to, occ) {
                    assert forall|x: int| #[trigger]
                        geometry::between(q, to, x) implies !now.contains(x) by {}
                }
                if geometry::clear(q, to, now) {
                    assert forall|x: int| #[trigger]
                        geometry::between(q, to, x) implies !occ.contains(x) by {}
                }
            }
            assert(geometry::attacks(p, q, to, now) == geometry::attacks(p, q, to, occ));
        }
    }
}

/// The first choice of the model takes first on the board.
proof fn lemma_same_choice(
    s: State,
    board: Seq<Option<Piece>>,
    to: int,
    occ: Set<int>,
    side: Color,
    on: int,
)
    requires
        plays_out(s, board, to, occ, side.flip(), on),
        capturers(s, to, occ, side) != Set::<int>::empty(),
    ensures
        exists|q: int| can_take(board, to, side, q),
        (choose|q: int| takes_first(board, to, side, q)) == first_choice(
            s,
            capturers(s, to, occ, side),
        ),
        capturers(s, to, occ, side).contains(first_choice(s, capturers(s, to, occ, side))),
{
    let own = capturers(s, to, occ, side);
    assert(exists|x: int| own.contains(x)) by {
        if forall|x: int| !own.contains(x) {
            assert(own =~= Set::<int>::empty());
        }
    }
    let x = choose|x: int| own.contains(x);
    let q = lemma_first_choice_below(s, own, x, 64);
    assert(is_first_choice(s, own, q));
    lemma_first_choice(s, own, q);
    lemma_same_takers(s, board, to, occ, side, on, q);
    assert(takes_first(board, to, side, q)) by {
        assert forall|y: int| #[trigger] can_take(board, to, side, y) implies {
            let a = see_value(board[q]->0.piece_type);
            let b = see_value(board[y]->0.piece_type);
            a < b || (a == b && q <= y)
        } by {
            lemma_same_takers(s, board, to, occ, side, on, y);
            assert(chosen_before(s, q, y));
        }
    }
    let r = choose|r: int| takes_first(board, to, side, r);
    assert(takes_first(board, to, side, r));
    assert(can_take(board, to, side, r) && can_take(board, to, side, q));
}

/// What a recapture wins in the model is what the best balance gains on the board.
proof fn lemma_played_out(
    s: State,
    board: Seq<Option<Piece>>,
    to: int,
    occ: Set<int>,
    side: Color,
    on: int,
    left: nat,
)
    requires
        plays_out(s, board, to, occ, side.flip(), on),
        left <= 31,
    ensures
        best_balance(board, to, side, left) == material(board, side, 64) + recapture_gain(
            s,
            to,
            occ,
            side,
            on,
            32 - left,
        ),
    decreases left,
{
    let own = capturers(s, to, occ, side);
    if left > 0 {
        if own == Set::<int>::empty() {
            assert forall|q: int| !can_take(board, to, side, q) by {
                lemma_same_takers(s, board, to, occ, side, on, q);
                assert(!own.contains(q));
            }
        } else {
            lemma_same_choice(s, board, to, occ, side, on);
            let q = first_choice(s, own);
            lemma_same_takers(s, board, to, occ, side, on, q);
            let pt = s.board[q]->0.piece_type;
            let rest = occ.remove(q);
            let next = taken(board, q, to);
            let them = side.flip();
            let now = see_value(pt) as int;
            assert(plays_out(s, next, to, rest, side, now)) by {
                assert forall|i: int|
                    #![trigger next[i]]
                    0 <= i < 64 && i != to implies next[i] == if rest.contains(i) {
                    s.board[i]
                } else {
                    None
                } by {
                    assert(board[i] == if occ.contains(i) {
                        s.board[i]
                    } else {
                        None
                    });
                }
            }
            assert(them.flip() == side);
            let replies = capturers(s, to, rest, them);
            assert((exists|x: int| can_take(next, to, them, x)) <==> replies != Set::<
                int,
            >::empty()) by {
                if exists|x: int| can_take(next, to, them, x) {
                    let x = choose|x: int| can_take(next, to, them, x);
                    lemma_same_takers(s, next, to, rest, them, now, x);
                    assert(replies.contains(x));
                }
                if replies != Set::<int>::empty() {
                    lemma_same_choice(s, next, to, rest, them, now);
                }
            }
            lemma_played_out(s, next, to, rest, them, now, (left - 1) as nat);
            lemma_material_update(board, q, None, side, 64);
            lemma_material_update(board.update(q, None), to, board[q], side, 64);
            lemma_material_sides(next, side, 64);
        }
    }
}

/// The value of a capture or a promotion is the material that it wins, when both
/// sides then play their best on its square: the best balance after the move, less
/// the balance before it.
pub proof fn law_exchange_played_out(s: State, m: Move)
    requires
        s.valid(),
        s.board[m.from_sq().0 as int] is Some,
        s.board[m.from_sq().0 as int]->0.color == s.side,
        m.from_sq() != m.to_sq(),
        s.board[m.to_sq().0 as int] matches Some(p) ==> p.color != s.side,
        match m.move_type() {
            MoveType::Normal => s.board[m.to_sq().0 as int] is Some,
            MoveType::Promotion => s.board[m.from_sq().0 as int]->0.piece_type == PieceType::Pawn,
            MoveType::EnPassant => {
                let victim = m.from_sq().0 - m.from_sq().0 % 8 + m.to_sq().0 % 8;
                &&& s.board[m.from_sq().0 as int]->0.piece_type == PieceType::Pawn
                &&& s.board[m.to_sq().0 as int] is None
                &&& victim != m.from_sq().0
                &&& s.board[victim] == Some(
                    Piece { color: s.side.flip(), piece_type: PieceType::Pawn },
                )
            },
            MoveType::Castling => false,
        },
    ensures
        exchange(s, m) == -best_balance(
            s.make(m).board,
            m.to_sq().0 as int,
            s.side.flip(),
            31,
        ) - material(s.board, s.side, 64),
{
    let f = m.from_sq().0 as int;
    let t = m.to_sq().0 as int;
    let us = s.side;
    let them = us.flip();
    let after = s.make(m).board;
    let occ = occupied_after(s, m);
    let on = mover_value(s, m);
    let victim = state::ep_victim(m.from_sq(), m.to_sq()).0 as int;
    assert(them.flip() == us);
    assert(after.len() == 64);
    assert(plays_out(s, after, t, occ, us, on)) by {
        assert forall|i: int|
            #![trigger after[i]]
            0 <= i < 64 && i != t implies after[i] == if occ.contains(i) {
            s.board[i]
        } else {
            None
        } by {}
    }
    lemma_played_out(s, after, t, occ, them, on, 31);
    lemma_material_sides(after, us, 64);
    let start = s.board;
    let cleared = if m.move_type() == MoveType::EnPassant {
        start.update(victim, None)
    } else {
        start
    };
    if m.move_type() == MoveType::EnPassant {
        lemma_material_update(start, victim, None, us, 64);
    }
    lemma_material_update(cleared, f, None, us, 64);
    lemma_material_update(cleared.update(f, None), t, after[t], us, 64);
    assert(after =~= cleared.update(f, None).update(t, after[t]));
}

/// A move that neither captures nor promotes is worth nothing, castling included.
pub proof fn law_quiet_moves_are_worth_nothing(s: State, m: Move)
    requires
        m.move_type() == MoveType::Castling || (m.move_type() == MoveType::Normal
            && s.board[m.to_sq().0 as int] is None),
    ensures
        exchange(s, m) == 0,
{
}

/// The exchange that any capture or promotion starts, whoever stands where: what it
/// takes outright, and for a promotion what the pawn gains, less what the other side
/// then wins by its best play against the piece that has arrived.
pub proof fn law_exchange_of_any_move(s: State, m: Move)
    requires
        s.valid(),
        m.move_type() != MoveType::Castling,
        m.move_type() == MoveType::Normal ==> s.board[m.to_sq().0 as int] is Some,
    ensures
        ({
            let f = m.from_sq().0 as int;
            let t = m.to_sq().0 as int;
            let there: int = match s.board[t] {
                Some(p) => see_value(p.piece_type) as int,
                None => 0,
            };
            let arrived = match m.move_type() {
                MoveType::EnPassant => PieceType::Pawn,
                MoveType::Promotion => m.promotion_type(),
                _ => match s.board[f] {
                    Some(p) => p.piece_type,
                    None => PieceType::Pawn,
                },
            };
            let won: int = match m.move_type() {
                MoveType::EnPassant => see_value(PieceType::Pawn) as int,
                MoveType::Promotion => there + see_value(m.promotion_type()) - see_value(
                    PieceType::Pawn,
                ),
                _ => there,
            };
            let open = if m.move_type() == MoveType::EnPassant {
                s.board.update(f - f % 8 + t % 8, None)
            } else {
                s.board
            };
            let board = open.update(f, None).update(
                t,
                Some(Piece { color: s.side, piece_type: arrived }),
            );
            exchange(s, m) == won - (best_balance(board, t, s.side.flip(), 31) - material(
                board,
                s.side.flip(),
                64,
            ))
        }),
{
    let f = m.from_sq().0 as int;
    let t = m.to_sq().0 as int;
    let arrived = match m.move_type() {
        MoveType::EnPassant => PieceType::Pawn,
        MoveType::Promotion => m.promotion_type(),
        _ => match s.board[f] {
            Some(p) => p.piece_type,
            None => PieceType::Pawn,
        },
    };
    let open = if m.move_type() == MoveType::EnPassant {
        s.board.update(f - f % 8 + t % 8, None)
    } else {
        s.board
    };
    let board = open.update(f, None).update(
        t,
        Some(Piece { color: s.side, piece_type: arrived }),
    );
    let occ = occupied_after(s, m);
    let on = mover_value(s, m);
    assert(s.side.flip().flip() == s.side);
    assert(plays_out(s, board, t, occ, s.side, on)) by {
        assert forall|i: int|
            #![trigger board[i]]
            0 <= i < 64 && i != t implies board[i] == if occ.contains(i) {
            s.board[i]
        } else {
            None
        } by {}
    }
    lemma_played_out(s, board, t, occ, s.side.flip(), on, 31);
}

} // verus!
