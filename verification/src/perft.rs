//! Perft: counting the leaves of the game tree.
//!
//! `perft(pos, depth)` counts the leaf nodes of the game tree of a given depth,
//! exploring only *legal* moves via make and undo.

use vstd::prelude::*;
use vstd::set_lib;
use crate::bitboard;
use crate::geometry;
use crate::legality;
use crate::movegen;
use crate::movegen::{generate_legal, MoveList};
use crate::position::{Position, Undo};
use crate::state;
use crate::state::State;
use crate::text;
use crate::types::{Color, Move, MoveType, Piece, PieceType, Square};

verus! {

/// The number of leaves of the game tree of the given depth.
pub open spec fn leaves(s: State, depth: nat) -> nat
    decreases depth, 0nat,
{
    if depth == 0 {
        1
    } else {
        leaves_below(s, movegen::legal(s), (depth - 1) as nat)
    }
}

/// The number of leaves below the given moves, each searched to `depth`.
pub open spec fn leaves_below(s: State, moves: Seq<Move>, depth: nat) -> nat
    decreases depth, moves.len() + 1,
{
    if moves.len() == 0 {
        0
    } else {
        leaves_below(s, moves.drop_last(), depth) + leaves(s.make(moves.last()), depth)
    }
}

/// The legal moves of the position can be generated.
pub open spec fn generable(s: State) -> bool {
    s.has_king(s.side) && (movegen::double_check(s) || movegen::ep_playable(s))
}

/// The move can be made and taken back.
pub open spec fn reversible(s: State, m: Move) -> bool {
    &&& s.movable(m)
    &&& s.clocks_fit(m)
    &&& state::untangled(m)
    &&& m.move_type() == MoveType::Promotion ==> s.at(m.from_sq()) == Some(
        Piece { color: s.side, piece_type: PieceType::Pawn },
    )
}

/// The whole game tree of the given depth can be walked.
pub open spec fn walkable(s: State, depth: nat) -> bool
    decreases depth,
{
    depth == 0 || {
        &&& generable(s)
        &&& depth >= 2 ==> forall|m: Move| #[trigger]
            movegen::legal(s).contains(m) ==> reversible(s, m) && walkable(
                s.make(m),
                (depth - 1) as nat,
            )
    }
}

/// How many of the first `depth` plies are Black's.
pub open spec fn black_plies(side: Color, depth: nat) -> nat {
    match side {
        Color::White => depth / 2,
        Color::Black => (depth + 1) / 2,
    }
}

/// The game tree of a regular position can be walked to any depth that its clocks
/// can count: the halfmove clock all moves but the last, which are not made, and
/// the move number Black's moves, the last of which may be tried.
pub proof fn law_regular_walkable(s: State, depth: nat)
    requires
        legality::regular(s),
        s.half + depth <= u16::MAX + 1,
        s.full + black_plies(s.side, depth) <= u16::MAX,
    ensures
        walkable(s, depth),
    decreases depth,
{
    if depth > 0 {
        legality::lemma_ep_playable(s);
        if depth >= 2 {
            assert forall|m: Move| #[trigger] movegen::legal(s).contains(m) implies reversible(s, m)
                && walkable(s.make(m), (depth - 1) as nat) by {
                legality::law_legal_moves(s, m);
                legality::law_legal_play_stays_regular(s, m);
                legality::lemma_legal_playable(s, m);
                law_regular_walkable(s.make(m), (depth - 1) as nat);
            }
        }
    }
}

/// The most moves that are ever generated (a generous bound).
pub const MOVE_BOUND: u64 = 1074;

/// A set of board squares has 64 at most, and lists all of them.
proof fn lemma_board_len(squares: Set<int>)
    requires
        forall|i: int| #[trigger] squares.contains(i) ==> geometry::on_board(i),
    ensures
        squares.finite(),
        squares.len() <= 64,
        bitboard::listed(squares).len() == squares.len(),
{
    bitboard::lemma_ascending_len(squares, 64);
    bitboard::lemma_ascending(squares, 64);
}

/// How many squares a piece goes to: at most 28, and none that an own piece holds.
proof fn lemma_reach_len(s: State, pt: PieceType, from: Square)
    requires
        from.valid(),
        pt != PieceType::Pawn,
    ensures
        bitboard::listed(movegen::reach(s, pt, from)).len() <= 28,
        bitboard::listed(movegen::reach(s, pt, from)).len() + s.of_color(s.side).len() <= 64,
{
    let f = from.0 as int;
    let reach = movegen::reach(s, pt, from);
    let own = s.of_color(s.side);
    lemma_board_len(reach);
    lemma_board_len(own);
    set_lib::lemma_set_disjoint_lens(reach, own);
    assert(reach.disjoint(own));
    lemma_board_len(reach + own);
    if pt == PieceType::Knight {
        let above = reach.filter(|t: int| geometry::rank(t) > geometry::rank(f));
        let below = reach.filter(|t: int| geometry::rank(t) < geometry::rank(f));
        // The file of a knight's move tells how far it goes up or down.
        let far = |g: int|
            if g - geometry::file(f) == 1 || geometry::file(f) - g == 1 {
                2int
            } else {
                1int
            };
        geometry::lemma_eight_at_most(
            above,
            |g: int| geometry::at(g, geometry::rank(f) + far(g)),
        );
        geometry::lemma_eight_at_most(
            below,
            |g: int| geometry::at(g, geometry::rank(f) - far(g)),
        );
        set_lib::lemma_set_disjoint_lens(above, below);
        assert(above.disjoint(below));
        assert(reach =~= above + below);
    } else {
        let lines = geometry::straights(f) + geometry::diagonals(f);
        geometry::lemma_lines_len(f);
        set_lib::lemma_set_disjoint_lens(geometry::straights(f), geometry::diagonals(f));
        assert(geometry::straights(f).disjoint(geometry::diagonals(f)));
        assert(reach.subset_of(lines));
        set_lib::lemma_len_subset(reach, lines);
    }
}

proof fn lemma_pawn_captures_len(c: Color, from: Square, targets: Seq<Square>)
    ensures
        movegen::pawn_captures(c, from, targets).len() <= 4 * targets.len(),
    decreases targets.len(),
{
    if targets.len() > 0 {
        lemma_pawn_captures_len(c, from, targets.drop_first());
    }
}

/// A pawn has five pushes and nine captures at most.
proof fn lemma_pawn_moves_len(s: State, from: Square)
    requires
        from.valid(),
    ensures
        movegen::pawn_moves(s, from).len() <= 14,
{
    let f = from.0 as int;
    let prey = movegen::pawn_prey(s, from);
    let r = geometry::rank(f) + s.side.forward();
    let pair = set![
        geometry::at(geometry::file(f) - 1, r),
        geometry::at(geometry::file(f) + 1, r),
    ];
    lemma_board_len(prey);
    assert(prey.subset_of(pair));
    set_lib::lemma_len_subset(prey, pair);
    assert(pair.len() <= 2);
    lemma_pawn_captures_len(s.side, from, bitboard::listed(prey));
}

proof fn lemma_all_pawn_moves_len(s: State, squares: Seq<Square>)
    requires
        forall|k: int| 0 <= k < squares.len() ==> (#[trigger] squares[k]).valid(),
    ensures
        movegen::all_pawn_moves(s, squares).len() <= 14 * squares.len(),
    decreases squares.len(),
{
    if squares.len() > 0 {
        lemma_pawn_moves_len(s, squares[0]);
        lemma_all_pawn_moves_len(s, squares.drop_first());
    }
}

proof fn lemma_all_piece_moves_len(s: State, pt: PieceType, squares: Seq<Square>, most: int)
    requires
        pt != PieceType::Pawn,
        forall|k: int| 0 <= k < squares.len() ==> (#[trigger] squares[k]).valid(),
        most >= 28 || most + s.of_color(s.side).len() >= 64,
    ensures
        movegen::all_piece_moves(s, pt, squares).len() <= squares.len() * most,
    decreases squares.len(),
{
    if squares.len() > 0 {
        lemma_reach_len(s, pt, squares[0]);
        lemma_all_piece_moves_len(s, pt, squares.drop_first(), most);
        let n = squares.len() as int;
        assert((n - 1) * most + most == n * most) by (nonlinear_arith);
    }
}

/// The moves of all own pieces of one type, and how many of these there are.
proof fn lemma_moves_of_len(s: State, pt: PieceType, most: int)
    requires
        pt != PieceType::Pawn,
        most >= 28 || most + s.of_color(s.side).len() >= 64,
    ensures
        movegen::moves_of(s, pt).len() <= s.of(s.side, pt).len() * most,
        s.of(s.side, pt).finite(),
{
    lemma_board_len(s.of(s.side, pt));
    bitboard::lemma_ascending(s.of(s.side, pt), 64);
    lemma_all_piece_moves_len(s, pt, bitboard::listed(s.of(s.side, pt)), most);
}

/// The pieces of the types that move in number are own pieces, each of one type.
proof fn lemma_piece_counts(s: State)
    ensures
        s.of(s.side, PieceType::Pawn).len() + s.of(s.side, PieceType::Knight).len() + s.of(
            s.side,
            PieceType::Bishop,
        ).len() + s.of(s.side, PieceType::Rook).len() + s.of(s.side, PieceType::Queen).len()
            <= s.of_color(s.side).len() <= 64,
{
    let own = s.of_color(s.side);
    let p = s.of(s.side, PieceType::Pawn);
    let n = s.of(s.side, PieceType::Knight);
    let b = s.of(s.side, PieceType::Bishop);
    let r = s.of(s.side, PieceType::Rook);
    let q = s.of(s.side, PieceType::Queen);
    lemma_board_len(own);
    lemma_board_len(p);
    lemma_board_len(n);
    lemma_board_len(b);
    lemma_board_len(r);
    lemma_board_len(q);
    assert(p.disjoint(n));
    set_lib::lemma_set_disjoint_lens(p, n);
    assert((p + n).disjoint(b));
    set_lib::lemma_set_disjoint_lens(p + n, b);
    assert((p + n + b).disjoint(r));
    set_lib::lemma_set_disjoint_lens(p + n + b, r);
    assert((p + n + b + r).disjoint(q));
    set_lib::lemma_set_disjoint_lens(p + n + b + r, q);
    assert((p + n + b + r + q).subset_of(own));
    set_lib::lemma_len_subset(p + n + b + r + q, own);
}

/// With few own pieces each has few squares to go to, and with many there are few
/// squares left.
proof fn lemma_crowd(own: int, most: int)
    by (nonlinear_arith)
    requires
        0 <= own <= 64,
        (most == 28 && own <= 36) || (most == 64 - own && own > 36 && most >= 14) || most == 14,
    ensures
        own * most <= 1008,
{
    if most == 64 - own && own > 36 {
        assert((own - 36) * (own - 28) >= 0);
    }
}

proof fn lemma_accepted_len(s: State, moves: Seq<Move>)
    ensures
        movegen::accepted(s, moves).len() <= moves.len(),
    decreases moves.len(),
{
    if moves.len() > 0 {
        lemma_accepted_len(s, moves.drop_last());
    }
}

/// No position has more legal moves than the bound.
proof fn lemma_legal_len(s: State)
    ensures
        movegen::legal(s).len() <= MOVE_BOUND,
{
    let own = s.of_color(s.side).len() as int;
    let pawns = s.of(s.side, PieceType::Pawn);
    let most = if own <= 36 {
        28
    } else if own <= 50 {
        64 - own
    } else {
        14
    };
    lemma_piece_counts(s);
    lemma_crowd(own, most);
    lemma_board_len(pawns);
    bitboard::lemma_ascending(pawns, 64);
    lemma_all_pawn_moves_len(s, bitboard::listed(pawns));
    lemma_moves_of_len(s, PieceType::Knight, most);
    lemma_moves_of_len(s, PieceType::Bishop, most);
    lemma_moves_of_len(s, PieceType::Rook, most);
    lemma_moves_of_len(s, PieceType::Queen, most);
    bitboard::lemma_ascending(
        movegen::reach(s, PieceType::King, movegen::own_king(s)),
        64,
    );
    let p = pawns.len() as int;
    let n = s.of(s.side, PieceType::Knight).len() as int;
    let b = s.of(s.side, PieceType::Bishop).len() as int;
    let r = s.of(s.side, PieceType::Rook).len() as int;
    let q = s.of(s.side, PieceType::Queen).len() as int;
    assert(14 * p + n * most + b * most + r * most + q * most <= own * most)
        by (nonlinear_arith)
        requires
            p >= 0,
            most >= 14,
            p + n + b + r + q <= own,
    ;
    lemma_accepted_len(s, movegen::pseudo_legal(s));
}

proof fn lemma_leaves_below_bound(s: State, moves: Seq<Move>, depth: nat, each: nat)
    requires
        forall|t: State| #[trigger] leaves(t, depth) <= each,
    ensures
        leaves_below(s, moves, depth) <= moves.len() * each,
    decreases moves.len(),
{
    if moves.len() > 0 {
        lemma_leaves_below_bound(s, moves.drop_last(), depth, each);
        let n = moves.len() as int;
        let e = each as int;
        assert(moves.drop_last().len() == n - 1);
        assert(leaves(s.make(moves.last()), depth) <= each);
        assert((n - 1) * e + e == n * e) by (nonlinear_arith);
    }
}

proof fn lemma_leaves_bound(s: State, depth: nat, each: nat)
    requires
        depth > 0,
        forall|t: State| #[trigger] leaves(t, (depth - 1) as nat) <= each,
    ensures
        leaves(s, depth) <= MOVE_BOUND * each,
{
    let moves = movegen::legal(s);
    lemma_legal_len(s);
    lemma_leaves_below_bound(s, moves, (depth - 1) as nat, each);
    let n = moves.len() as int;
    let e = each as int;
    let b = MOVE_BOUND as int;
    assert(n * e <= b * e) by (nonlinear_arith)
        requires
            n <= b,
            e >= 0,
    ;
}

/// The leaves of a tree of depth 6 or less can always be counted in 64 bits.
pub proof fn law_shallow_counts_fit(s: State, depth: nat)
    requires
        depth <= 6,
    ensures
        leaves(s, depth) <= u64::MAX,
{
    assert forall|t: State| #[trigger] leaves(t, 0) <= 1 by {}
    assert forall|t: State| #[trigger] leaves(t, 1) <= 1074 by {
        lemma_leaves_bound(t, 1, 1);
    }
    assert forall|t: State| #[trigger] leaves(t, 2) <= 1153476 by {
        lemma_leaves_bound(t, 2, 1074);
    }
    assert forall|t: State| #[trigger] leaves(t, 3) <= 1238833224 by {
        lemma_leaves_bound(t, 3, 1153476);
    }
    assert forall|t: State| #[trigger] leaves(t, 4) <= 1330506882576 by {
        lemma_leaves_bound(t, 4, 1238833224);
    }
    assert forall|t: State| #[trigger] leaves(t, 5) <= 1428964391886624 by {
        lemma_leaves_bound(t, 5, 1330506882576);
    }
    assert forall|t: State| #[trigger] leaves(t, 6) <= 1534707756886234176 by {
        lemma_leaves_bound(t, 6, 1428964391886624);
    }
    assert(leaves(s, depth) <= u64::MAX);
}

/// One ply below the given moves are as many leaves as there are moves.
proof fn lemma_leaves_of_moves(s: State, moves: Seq<Move>)
    ensures
        leaves_below(s, moves, 0) == moves.len(),
    decreases moves.len(),
{
    if moves.len() > 0 {
        lemma_leaves_of_moves(s, moves.drop_last());
        assert(leaves(s.make(moves.last()), 0) == 1);
    }
}

/// The leaves below one more move.
proof fn lemma_leaves_step(s: State, moves: Seq<Move>, i: int, depth: nat)
    requires
        0 <= i < moves.len(),
    ensures
        leaves_below(s, moves.take(i + 1), depth) == leaves_below(s, moves.take(i), depth) + leaves(
            s.make(moves[i]),
            depth,
        ),
        leaves_below(s, moves.take(i + 1), depth) <= leaves_below(s, moves, depth),
    decreases moves.len() - i,
{
    assert(moves.take(i + 1).drop_last() =~= moves.take(i));
    if i + 1 < moves.len() {
        lemma_leaves_step(s, moves, i + 1, depth);
    } else {
        assert(moves.take(i + 1) =~= moves);
    }
}

/// Make the move, count the leaves below it, and take it back.
fn perft_move(pos: &mut Position, m: Move, depth: u32) -> (r: u64)
    requires
        old(pos).wf(),
        reversible(old(pos)@, m),
        walkable(old(pos)@.make(m), depth as nat),
        leaves(old(pos)@.make(m), depth as nat) <= u64::MAX,
    ensures
        r == leaves(old(pos)@.make(m), depth as nat),
        *final(pos) == *old(pos),
    decreases depth, 1nat,
{
    let ghost s = pos@;
    let undo: Undo = pos.make_move(m);
    let count: u64 = perft(pos, depth);
    proof {
        state::law_undo_restores(s, m, undo);
    }
    pos.undo_move(m, undo);
    proof {
        Position::lemma_ext(*pos, *old(pos));
    }
    count
}

/// Count the leaf nodes reachable from `pos` in exactly `depth` plies, moving
/// through legal moves only.
///
/// Depth 0 is a single node (the position itself). At depth 1 the number of legal
/// moves is returned directly. `pos` is restored on return.
pub fn perft(pos: &mut Position, depth: u32) -> (r: u64)
    requires
        old(pos).wf(),
        walkable(old(pos)@, depth as nat),
        leaves(old(pos)@, depth as nat) <= u64::MAX,
    ensures
        r == leaves(old(pos)@, depth as nat),
        *final(pos) == *old(pos),
    decreases depth, 0nat,
{
    if depth == 0 {
        return 1;
    }
    let ghost s = pos@;
    let ghost below = (depth - 1) as nat;
    let moves: MoveList = generate_legal(pos);

    // Bulk-count the last ply: each legal move is exactly one leaf.
    if depth == 1 {
        proof {
            lemma_leaves_of_moves(s, moves@);
        }
        return moves.len() as u64;
    }
    let mut nodes: u64 = 0;
    let mut i: usize = 0;
    assert(moves@.take(0) =~= Seq::<Move>::empty());
    while i < moves.len()
        invariant
            i <= moves@.len(),
            depth >= 2,
            below == depth - 1,
            pos.wf(),
            *pos == *old(pos),
            pos@ == s,
            moves@ == movegen::legal(s),
            forall|m: Move| #[trigger]
                movegen::legal(s).contains(m) ==> reversible(s, m) && walkable(s.make(m), below),
            nodes == leaves_below(s, moves@.take(i as int), below),
            leaves_below(s, moves@, below) <= u64::MAX,
        decreases moves@.len() - i,
    {
        let m: Move = moves.get(i);
        proof {
            assert(movegen::legal(s).contains(m));
            lemma_leaves_step(s, moves@, i as int, below);
        }
        nodes = nodes + perft_move(pos, m, depth - 1);
        i = i + 1;
    }
    assert(moves@.take(i as int) =~= moves@);
    nodes
}

/// The depth that is left below a root move.
pub open spec fn below_root(depth: u32) -> nat {
    if depth <= 1 {
        0
    } else {
        (depth - 1) as nat
    }
}

/// The node count of every root move.
pub open spec fn divided(s: State, moves: Seq<Move>, depth: u32) -> Seq<(Move, u64)> {
    moves.map_values(|m: Move| (m, leaves(s.make(m), below_root(depth)) as u64))
}

/// Per-root-move node counts: for every legal move from `pos`, how many leaves its
/// subtree has at `depth`. `pos` is restored on return.
pub fn perft_divide(pos: &mut Position, depth: u32) -> (r: Vec<(Move, u64)>)
    requires
        old(pos).wf(),
        generable(old(pos)@),
        forall|m: Move| #[trigger]
            movegen::legal(old(pos)@).contains(m) ==> reversible(old(pos)@, m) && walkable(
                old(pos)@.make(m),
                below_root(depth),
            ) && leaves(old(pos)@.make(m), below_root(depth)) <= u64::MAX,
    ensures
        r@ == divided(old(pos)@, movegen::legal(old(pos)@), depth),
        *final(pos) == *old(pos),
{
    let ghost s = pos@;
    let moves: MoveList = generate_legal(pos);
    let mut out: Vec<(Move, u64)> = Vec::new();
    let below: u32 = if depth <= 1 {
        0
    } else {
        depth - 1
    };
    let mut i: usize = 0;
    while i < moves.len()
        invariant
            i <= moves@.len(),
            below == below_root(depth),
            pos.wf(),
            *pos == *old(pos),
            pos@ == s,
            moves@ == movegen::legal(s),
            forall|m: Move| #[trigger]
                movegen::legal(s).contains(m) ==> reversible(s, m) && walkable(
                    s.make(m),
                    below_root(depth),
                ) && leaves(s.make(m), below_root(depth)) <= u64::MAX,
            out@ == divided(s, moves@.take(i as int), depth),
        decreases moves@.len() - i,
    {
        let m: Move = moves.get(i);
        assert(movegen::legal(s).contains(m));
        let count: u64 = perft_move(pos, m, below);
        out.push((m, count));
        i = i + 1;
        assert(out@ =~= divided(s, moves@.take(i as int), depth));
    }
    assert(moves@.take(i as int) =~= moves@);
    out
}

/// The sum of the node counts.
pub open spec fn total(divide: Seq<(Move, u64)>) -> nat
    decreases divide.len(),
{
    if divide.len() == 0 {
        0
    } else {
        total(divide.drop_last()) + divide.last().1 as nat
    }
}

/// The node counts of the root moves sum up to the node count of the position.
pub proof fn law_divide_totals(s: State, depth: u32)
    requires
        depth >= 1,
        leaves(s, depth as nat) <= u64::MAX,
    ensures
        total(divided(s, movegen::legal(s), depth)) == leaves(s, depth as nat),
{
    lemma_divide_total(s, movegen::legal(s), depth);
}

proof fn lemma_divide_total(s: State, moves: Seq<Move>, depth: u32)
    requires
        depth >= 1,
        leaves_below(s, moves, (depth - 1) as nat) <= u64::MAX,
    ensures
        total(divided(s, moves, depth)) == leaves_below(s, moves, (depth - 1) as nat),
    decreases moves.len(),
{
    if moves.len() > 0 {
        lemma_divide_total(s, moves.drop_last(), depth);
        assert(divided(s, moves, depth).drop_last() =~= divided(s, moves.drop_last(), depth));
    }
}

/// The lines of a divide: one `<move>: <count>` per root move.
pub open spec fn divide_lines(divide: Seq<(Move, u64)>) -> Seq<char>
    decreases divide.len(),
{
    if divide.len() == 0 {
        Seq::empty()
    } else {
        divide_lines(divide.drop_last()) + (divide.last().0.notation() + ": "@ + text::decimal(
            divide.last().1 as nat,
        ) + "\n"@)
    }
}

/// More entries never have a smaller total.
proof fn lemma_total_monotonic(divide: Seq<(Move, u64)>, i: int)
    requires
        0 <= i <= divide.len(),
    ensures
        total(divide.take(i)) <= total(divide),
    decreases divide.len() - i,
{
    if i < divide.len() {
        lemma_total_monotonic(divide, i + 1);
        assert(divide.take(i + 1).drop_last() =~= divide.take(i));
    } else {
        assert(divide.take(i) =~= divide);
    }
}

/// Format a [`perft_divide`] result the way most engines print it: one
/// `<move>: <count>` line per root move, then the total.
pub fn format_divide(divide: &[(Move, u64)]) -> (r: String)
    requires
        total(divide@) <= u64::MAX,
    ensures
        r@ == divide_lines(divide@) + "\nNodes searched: "@ + text::decimal(total(divide@)) + "\n"@,
{
    let mut s: String = String::new();
    let mut sum: u64 = 0;
    let mut i: usize = 0;
    assert(divide@.take(0) =~= Seq::<(Move, u64)>::empty());
    assert(s@ =~= divide_lines(divide@.take(0)));
    while i < divide.len()
        invariant
            i <= divide@.len(),
            s@ == divide_lines(divide@.take(i as int)),
            sum == total(divide@.take(i as int)),
            total(divide@) <= u64::MAX,
        decreases divide@.len() - i,
    {
        let (m, count): (Move, u64) = divide[i];
        let ghost before = s@;
        text::push_text(&mut s, m.to_string().as_str());
        text::push_text(&mut s, ": ");
        text::push_decimal(&mut s, count);
        text::push_text(&mut s, "\n");
        proof {
            lemma_total_monotonic(divide@, i + 1);
            assert(divide@.take(i + 1).drop_last() =~= divide@.take(i as int));
            assert(s@ =~= before + (m.notation() + ": "@ + text::decimal(count as nat) + "\n"@));
        }
        sum = sum + count;
        i = i + 1;
    }
    assert(divide@.take(i as int) =~= divide@);
    text::push_text(&mut s, "\nNodes searched: ");
    text::push_decimal(&mut s, sum);
    text::push_text(&mut s, "\n");
    s
}

// ---------------------------------------------------------------------------
// What is counted.
// ---------------------------------------------------------------------------

proof fn lemma_leaves_fold(s: State, moves: Seq<Move>, depth: nat)
    ensures
        leaves_below(s, moves, depth) == moves.fold_left(
            0nat,
            |sum: nat, m: Move| sum + leaves(s.make(m), depth),
        ),
    decreases moves.len(),
{
    if moves.len() > 0 {
        lemma_leaves_fold(s, moves.drop_last(), depth);
    }
}

/// A tree of depth 0 is one leaf, and a deeper tree has the leaves of the trees
/// below its legal moves, one ply less deep each.
pub proof fn law_leaves(s: State, depth: nat)
    ensures
        leaves(s, 0) == 1,
        leaves(s, 1) == movegen::legal(s).len(),
        leaves(s, depth + 1) == movegen::legal(s).fold_left(
            0nat,
            |sum: nat, m: Move| sum + leaves(s.make(m), depth),
        ),
{
    lemma_leaves_fold(s, movegen::legal(s), depth);
    lemma_leaves_of_moves(s, movegen::legal(s));
}

/// A divide lists the legal moves in order, each with the leaves below it; a depth
/// of 0 counts as 1.
pub proof fn law_divide(s: State, depth: u32, i: int)
    requires
        0 <= i < movegen::legal(s).len(),
    ensures
        ({
            let m = movegen::legal(s)[i];
            let entry = divided(s, movegen::legal(s), depth)[i];
            let below = leaves(s.make(m), if depth == 0 {
                0
            } else {
                (depth - 1) as nat
            });
            &&& divided(s, movegen::legal(s), depth).len() == movegen::legal(s).len()
            &&& entry.0 == m
            &&& below <= u64::MAX ==> entry.1 == below
        }),
{
}

} // verus!
