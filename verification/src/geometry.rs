//! The geometry of the board, as mathematics on square indices.

use vstd::prelude::*;
use vstd::set_lib;
use crate::types::{Color, Direction, Piece, PieceType};

verus! {

/// The index of a board square.
pub open spec fn on_board(i: int) -> bool {
    0 <= i < 64
}

/// The file of a square, 0 (a) to 7 (h).
pub open spec fn file(i: int) -> int {
    i % 8
}

/// The rank of a square, 0 (first) to 7 (eighth).
pub open spec fn rank(i: int) -> int {
    i / 8
}

/// The coordinates name a board square.
pub open spec fn valid(f: int, r: int) -> bool {
    0 <= f < 8 && 0 <= r < 8
}

/// The square on the given file and rank.
pub open spec fn at(f: int, r: int) -> int {
    r * 8 + f
}

/// Two different squares on one file or one rank.
pub open spec fn straight(a: int, b: int) -> bool {
    a != b && (file(a) == file(b) || rank(a) == rank(b))
}

/// Two different squares on one diagonal.
pub open spec fn diagonal(a: int, b: int) -> bool {
    a != b && (file(b) - file(a) == rank(b) - rank(a) || file(b) - file(a) == rank(a) - rank(b))
}

/// Two different squares that share a file, a rank or a diagonal.
pub open spec fn aligned(a: int, b: int) -> bool {
    straight(a, b) || diagonal(a, b)
}

/// `x` lies strictly between 0 and `d`, on either side of 0.
pub open spec fn inside(d: int, x: int) -> bool {
    0 < x < d || d < x < 0
}

/// `x` lies strictly between `a` and `b` on their shared file, rank or diagonal.
pub open spec fn between(a: int, b: int, x: int) -> bool {
    let df = file(b) - file(a);
    let dr = rank(b) - rank(a);
    let xf = file(x) - file(a);
    let xr = rank(x) - rank(a);
    &&& on_board(x)
    &&& {
        ||| df == 0 && xf == 0 && inside(dr, xr)
        ||| dr == 0 && xr == 0 && inside(df, xf)
        ||| df == dr && xf == xr && inside(df, xf)
        ||| df == -dr && xf == -xr && inside(df, xf)
    }
}

/// `x` lies on the file, rank or diagonal that `a` and `b` share.
pub open spec fn on_line(a: int, b: int, x: int) -> bool {
    let df = file(b) - file(a);
    let dr = rank(b) - rank(a);
    let xf = file(x) - file(a);
    let xr = rank(x) - rank(a);
    &&& on_board(x)
    &&& a != b
    &&& {
        ||| df == 0 && xf == 0
        ||| dr == 0 && xr == 0
        ||| df == dr && xf == xr
        ||| df == -dr && xf == -xr
    }
}

/// `t` lies on the ray that leaves `s` in direction `d`.
pub open spec fn on_ray(d: Direction, s: int, t: int) -> bool {
    let f = file(t) - file(s);
    let r = rank(t) - rank(s);
    &&& on_board(t)
    &&& match d {
        Direction::North => f == 0 && r > 0,
        Direction::South => f == 0 && r < 0,
        Direction::East => r == 0 && f > 0,
        Direction::West => r == 0 && f < 0,
        Direction::NorthEast => f == r && f > 0,
        Direction::NorthWest => f == -r && f < 0,
        Direction::SouthEast => f == -r && f > 0,
        Direction::SouthWest => f == r && f < 0,
    }
}

/// No square strictly between `a` and `b` is in `occ`.
pub open spec fn clear(a: int, b: int, occ: Set<int>) -> bool {
    forall|x: int| #[trigger] between(a, b, x) ==> !occ.contains(x)
}

/// A slider on `s` reaches `t` along the ray `d`, where it stops at the first
/// square of `occ` (which it still reaches).
pub open spec fn ray_reaches(d: Direction, s: int, t: int, occ: Set<int>) -> bool {
    on_ray(d, s, t) && clear(s, t, occ)
}

/// A rook on `s` reaches `t`.
pub open spec fn rook_reaches(s: int, t: int, occ: Set<int>) -> bool {
    on_board(t) && straight(s, t) && clear(s, t, occ)
}

/// A bishop on `s` reaches `t`.
pub open spec fn bishop_reaches(s: int, t: int, occ: Set<int>) -> bool {
    on_board(t) && diagonal(s, t) && clear(s, t, occ)
}

/// A knight on `s` reaches `t`.
pub open spec fn knight_reaches(s: int, t: int) -> bool {
    let f = file(t) - file(s);
    let r = rank(t) - rank(s);
    &&& on_board(t)
    &&& {
        ||| (f == 1 || f == -1) && (r == 2 || r == -2)
        ||| (f == 2 || f == -2) && (r == 1 || r == -1)
    }
}

/// A king on `s` reaches `t` (castling aside).
pub open spec fn king_reaches(s: int, t: int) -> bool {
    let f = file(t) - file(s);
    let r = rank(t) - rank(s);
    on_board(t) && s != t && -1 <= f <= 1 && -1 <= r <= 1
}

/// A pawn of color `c` on `s` attacks `t`.
pub open spec fn pawn_reaches(c: Color, s: int, t: int) -> bool {
    let f = file(t) - file(s);
    let r = rank(t) - rank(s);
    on_board(t) && (f == 1 || f == -1) && r == c.forward()
}

/// The piece `p` standing on `s` attacks `t`, with `occ` occupied.
pub open spec fn attacks(p: Piece, s: int, t: int, occ: Set<int>) -> bool {
    match p.piece_type {
        PieceType::Pawn => pawn_reaches(p.color, s, t),
        PieceType::Knight => knight_reaches(s, t),
        PieceType::Bishop => bishop_reaches(s, t, occ),
        PieceType::Rook => rook_reaches(s, t, occ),
        PieceType::Queen => bishop_reaches(s, t, occ) || rook_reaches(s, t, occ),
        PieceType::King => king_reaches(s, t),
    }
}

/// Being between two squares does not depend on their order.
pub proof fn lemma_between_symmetric(a: int, b: int)
    ensures
        forall|x: int| #[trigger] between(a, b, x) == between(b, a, x),
        forall|occ: Set<int>| #[trigger] clear(a, b, occ) == clear(b, a, occ),
{
    assert forall|occ: Set<int>| #[trigger] clear(a, b, occ) == clear(b, a, occ) by {
        if clear(a, b, occ) {
            assert forall|x: int| #[trigger] between(b, a, x) implies !occ.contains(x) by {
                assert(between(a, b, x));
            }
        }
        if clear(b, a, occ) {
            assert forall|x: int| #[trigger] between(a, b, x) implies !occ.contains(x) by {
                assert(between(b, a, x));
            }
        }
    }
}

/// A line holds both of its squares and all between them; squares that are not
/// aligned have neither a line nor anything between them.
pub proof fn law_lines(a: int, b: int, x: int)
    requires
        on_board(a),
        on_board(b),
    ensures
        aligned(a, b) ==> on_line(a, b, a) && on_line(a, b, b),
        between(a, b, x) ==> on_line(a, b, x) && x != a && x != b,
        !aligned(a, b) ==> !on_line(a, b, x) && !between(a, b, x),
{
}

/// Being on a line, or between two squares, does not depend on which square is
/// named first.
pub proof fn law_line_symmetric(a: int, b: int, x: int)
    requires
        on_board(a),
        on_board(b),
    ensures
        on_line(a, b, x) == on_line(b, a, x),
        between(a, b, x) == between(b, a, x),
{
}

/// The squares that share a file or a rank with `s`.
pub open spec fn straights(s: int) -> Set<int> {
    Set::new(|t: int| on_board(t) && straight(s, t))
}

/// The squares that share a diagonal with `s`.
pub open spec fn diagonals(s: int) -> Set<int> {
    Set::new(|t: int| on_board(t) && diagonal(s, t))
}

/// A set of squares that lie on eight given places at most is as small as that.
pub proof fn lemma_eight_at_most(squares: Set<int>, place: spec_fn(int) -> int)
    requires
        forall|t: int| #[trigger]
            squares.contains(t) ==> 0 <= file(t) < 8 && place(file(t)) == t,
    ensures
        squares.finite(),
        squares.len() <= 8,
{
    let eight = set_lib::set_int_range(0, 8);
    set_lib::lemma_int_range(0, 8);
    set_lib::lemma_map_size_bound(eight, eight.map(place), place);
    assert forall|t: int| squares.contains(t) implies eight.map(place).contains(t) by {
        assert(eight.contains(file(t)) && place(file(t)) == t);
    }
    set_lib::lemma_len_subset(squares, eight.map(place));
}

/// A square shares files and ranks with exactly fourteen squares, and diagonals
/// with at most fourteen.
pub proof fn lemma_lines_len(s: int)
    requires
        on_board(s),
    ensures
        straights(s).finite(),
        straights(s).len() == 14,
        diagonals(s).finite(),
        diagonals(s).len() <= 14,
{
    let eight = set_lib::set_int_range(0, 8);
    let row = Set::new(|t: int| on_board(t) && rank(t) == rank(s));
    let column = Set::new(|t: int| on_board(t) && file(t) == file(s));
    let along = |f: int| at(f, rank(s));
    let up = |r: int| at(file(s), r);
    set_lib::lemma_int_range(0, 8);
    assert(eight.map(along) =~= row) by {
        assert forall|t: int| row.contains(t) implies eight.map(along).contains(t) by {
            assert(eight.contains(file(t)) && along(file(t)) == t);
        }
    }
    set_lib::lemma_map_size(eight, row, along);
    assert(eight.map(up) =~= column) by {
        assert forall|t: int| column.contains(t) implies eight.map(up).contains(t) by {
            assert(eight.contains(rank(t)) && up(rank(t)) == t);
        }
    }
    set_lib::lemma_map_size(eight, column, up);
    set_lib::lemma_set_disjoint_lens(row.remove(s), column.remove(s));
    assert(row.remove(s).disjoint(column.remove(s)));
    assert(straights(s) =~= row.remove(s) + column.remove(s));

    let rising = Set::new(
        |t: int| on_board(t) && file(t) - file(s) == rank(t) - rank(s),
    );
    let falling = Set::new(
        |t: int| on_board(t) && file(t) - file(s) == rank(s) - rank(t),
    );
    lemma_eight_at_most(rising, |f: int| at(f, rank(s) + f - file(s)));
    lemma_eight_at_most(falling, |f: int| at(f, rank(s) - f + file(s)));
    assert(rising.contains(s) && falling.contains(s));
    assert(rising.remove(s).disjoint(falling.remove(s)));
    set_lib::lemma_set_disjoint_lens(rising.remove(s), falling.remove(s));
    assert(diagonals(s) =~= rising.remove(s) + falling.remove(s));
}

/// A rook on an empty board attacks fourteen squares, wherever it stands.
pub proof fn law_rook_sees_fourteen(s: int)
    requires
        on_board(s),
    ensures
        Set::new(|t: int| rook_reaches(s, t, Set::empty())).len() == 14,
{
    lemma_lines_len(s);
    assert(Set::new(|t: int| rook_reaches(s, t, Set::empty())) =~= straights(s));
}

/// A pawn of one color attacks a square exactly if a pawn of the other color there
/// would attack it back; every other attack is mutual.
pub proof fn law_attacks_mutual(p: Piece, s: int, t: int, occ: Set<int>)
    requires
        on_board(s),
        on_board(t),
    ensures
        attacks(p, s, t, occ) == attacks(
            Piece {
                color: if p.piece_type == PieceType::Pawn {
                    p.color.flip()
                } else {
                    p.color
                },
                piece_type: p.piece_type,
            },
            t,
            s,
            occ,
        ),
{
    lemma_between_symmetric(s, t);
}

/// The piece `p` attacks `t` from `s` by a leap, whatever is occupied.
pub open spec fn leaps(p: Piece, s: int, t: int) -> bool {
    match p.piece_type {
        PieceType::Pawn => pawn_reaches(p.color, s, t),
        PieceType::Knight => knight_reaches(s, t),
        PieceType::King => king_reaches(s, t),
        _ => false,
    }
}

/// The piece `p` slides along the line that `s` and `t` share.
pub open spec fn slides(p: Piece, s: int, t: int) -> bool {
    match p.piece_type {
        PieceType::Rook => straight(s, t),
        PieceType::Bishop => diagonal(s, t),
        PieceType::Queen => aligned(s, t),
        _ => false,
    }
}

/// An attack is a leap, or a slide along a clear line.
pub proof fn lemma_leap_or_slide(p: Piece, s: int, t: int, occ: Set<int>)
    requires
        on_board(t),
    ensures
        attacks(p, s, t, occ) <==> leaps(p, s, t) || (slides(p, s, t) && clear(s, t, occ)),
{
}

/// A leap passes over nothing.
pub proof fn lemma_leap_passes_nothing(p: Piece, s: int, t: int, x: int)
    requires
        leaps(p, s, t),
    ensures
        !between(s, t, x),
        !between(t, s, x),
{
}

/// No piece attacks its own square.
pub proof fn lemma_no_self_attack(p: Piece, s: int, occ: Set<int>)
    ensures
        !attacks(p, s, s, occ),
{
}

/// A square on the way to both of two others: one of those is on the way to the
/// other.
pub proof fn lemma_two_lines_meet(k: int, p: int, q: int, t: int)
    requires
        on_board(k),
        on_board(p),
        on_board(q),
        p != q,
        t == p || between(k, p, t),
        t == q || between(k, q, t),
    ensures
        between(k, p, q) || between(k, q, p),
{
}

/// Whoever stands between `k` and `q` and stays on the line through `k`, without
/// jumping over either, ends between them or on `q`.
pub proof fn lemma_along_the_pin(k: int, q: int, f: int, t: int)
    requires
        on_board(k),
        on_board(q),
        on_board(t),
        between(k, q, f),
        t != k,
        t != f,
        on_line(k, f, t),
    ensures
        aligned(f, t),
        t == q || between(k, q, t) || between(f, t, k) || between(f, t, q),
{
}

/// The line through `k` and a square between `k` and `q` holds `q` and all
/// squares between.
pub proof fn lemma_pin_line(k: int, q: int, f: int, t: int)
    requires
        on_board(k),
        on_board(q),
        on_board(t),
        between(k, q, f),
        t == q || between(k, q, t),
    ensures
        on_line(k, f, t),
{
}

/// A knight's move shares no line with anything.
pub proof fn lemma_knight_leaves_line(k: int, f: int, t: int)
    requires
        knight_reaches(f, t),
    ensures
        !aligned(f, t),
        k != f && on_board(k) && on_board(f) ==> !on_line(k, f, t),
{
}

// ---------------------------------------------------------------------------
// Attacks, step by step.
// ---------------------------------------------------------------------------

/// -1, 0 or 1, as `x` is negative, zero or positive.
pub open spec fn sign(x: int) -> int {
    if x < 0 {
        -1
    } else if x > 0 {
        1
    } else {
        0
    }
}

/// The greater of two distances, each on either side of 0.
pub open spec fn farther(x: int, y: int) -> int {
    let a = if x < 0 {
        -x
    } else {
        x
    };
    let b = if y < 0 {
        -y
    } else {
        y
    };
    if a < b {
        b
    } else {
        a
    }
}

/// The square `k` steps from `a`, each `f` files and `r` ranks.
proof fn lemma_step(a: int, f: int, r: int, k: int, n: int)
    requires
        on_board(a),
        -1 <= f <= 1,
        -1 <= r <= 1,
        0 <= k <= n,
        valid(file(a) + n * f, rank(a) + n * r),
    ensures
        k * (f + 8 * r) == k * f + 8 * (k * r),
        on_board(a + k * (f + 8 * r)),
        file(a + k * (f + 8 * r)) == file(a) + k * f,
        rank(a + k * (f + 8 * r)) == rank(a) + k * r,
        k * f == (if f == 0 { 0 } else if f == 1 { k } else { -k }),
        k * r == (if r == 0 { 0 } else if r == 1 { k } else { -k }),
{
    assert(k * (f + 8 * r) == k * f + 8 * (k * r)) by (nonlinear_arith);
    assert(k * f == (if f == 0 { 0 } else if f == 1 { k } else { -k })) by (nonlinear_arith)
        requires
            -1 <= f <= 1,
    ;
    assert(k * r == (if r == 0 { 0 } else if r == 1 { k } else { -k })) by (nonlinear_arith)
        requires
            -1 <= r <= 1,
    ;
    assert(n * f == (if f == 0 { 0 } else if f == 1 { n } else { -n })) by (nonlinear_arith)
        requires
            -1 <= f <= 1,
    ;
    assert(n * r == (if r == 0 { 0 } else if r == 1 { n } else { -n })) by (nonlinear_arith)
        requires
            -1 <= r <= 1,
    ;
}

/// The way between two aligned squares is clear exactly if, going from one to the
/// other one step at a time, every square on the way is empty.
pub proof fn law_clear_step_by_step(a: int, b: int, occ: Set<int>)
    requires
        on_board(a),
        on_board(b),
        aligned(a, b),
    ensures
        ({
            let df = b % 8 - a % 8;
            let dr = b / 8 - a / 8;
            clear(a, b, occ) <==> forall|k: int|
                0 < k < farther(df, dr) ==> !(#[trigger] occ.contains(
                    a + k * (sign(df) + 8 * sign(dr)),
                ))
        }),
{
    let df = b % 8 - a % 8;
    let dr = b / 8 - a / 8;
    let f = sign(df);
    let r = sign(dr);
    let n = farther(df, dr);
    assert(n * f == df && n * r == dr) by (nonlinear_arith)
        requires
            n == farther(df, dr),
            f == sign(df),
            r == sign(dr),
            df == 0 || dr == 0 || df == dr || df == -dr,
    ;
    if clear(a, b, occ) {
        assert forall|k: int| 0 < k < n implies !(#[trigger] occ.contains(
            a + k * (f + 8 * r),
        )) by {
            lemma_step(a, f, r, k, n);
            assert(between(a, b, a + k * (f + 8 * r)));
        }
    }
    if forall|k: int| 0 < k < n ==> !(#[trigger] occ.contains(a + k * (f + 8 * r))) {
        assert forall|x: int| #[trigger] between(a, b, x) implies !occ.contains(x) by {
            let k = farther(x % 8 - a % 8, x / 8 - a / 8);
            lemma_step(a, f, r, k, n);
            assert(x == a + k * (f + 8 * r));
            assert(!occ.contains(a + k * (f + 8 * r)));
        }
    }
}

/// How the pieces attack: a pawn one square diagonally ahead, a knight one and two
/// squares at a right angle, a king every neighbour, a rook along files and ranks,
/// a bishop along diagonals and a queen along both, as far as the way is clear.
pub proof fn law_attack_shapes(p: Piece, a: int, b: int, occ: Set<int>)
    requires
        on_board(a),
        on_board(b),
    ensures
        ({
            let df = b % 8 - a % 8;
            let dr = b / 8 - a / 8;
            let way = forall|k: int|
                0 < k < farther(df, dr) ==> !(#[trigger] occ.contains(
                    a + k * (sign(df) + 8 * sign(dr)),
                ));
            attacks(p, a, b, occ) <==> match p.piece_type {
                PieceType::Pawn => (df == 1 || df == -1) && (if p.color == Color::White {
                    dr == 1
                } else {
                    dr == -1
                }),
                PieceType::Knight => df != 0 && dr != 0 && df != dr && df != -dr && -2 <= df <= 2
                    && -2 <= dr <= 2,
                PieceType::King => farther(df, dr) == 1,
                PieceType::Rook => (df == 0) != (dr == 0) && way,
                PieceType::Bishop => df != 0 && (df == dr || df == -dr) && way,
                PieceType::Queen => (df != 0 || dr != 0) && (df == 0 || dr == 0 || df == dr || df
                    == -dr) && way,
            }
        }),
{
    if aligned(a, b) {
        law_clear_step_by_step(a, b, occ);
    }
}

/// The line through two aligned squares holds the squares that are reached from one
/// of them by going any number of steps towards the other, or away from it.
pub proof fn law_line_step_by_step(a: int, b: int, x: int)
    requires
        on_board(a),
        on_board(b),
        aligned(a, b),
    ensures
        on_line(a, b, x) <==> on_board(x) && exists|k: int|
            -8 < k < 8 && x % 8 == a % 8 + #[trigger] (k * sign(b % 8 - a % 8)) && x / 8 == a / 8 + k
                * sign(b / 8 - a / 8),
{
    let f = sign(b % 8 - a % 8);
    let r = sign(b / 8 - a / 8);
    if on_line(a, b, x) {
        let k = if f != 0 {
            (x % 8 - a % 8) * f
        } else {
            (x / 8 - a / 8) * r
        };
        assert(k * f == x % 8 - a % 8 && k * r == x / 8 - a / 8 && -8 < k < 8) by {
            lemma_times_sign(x % 8 - a % 8, f);
            lemma_times_sign(x / 8 - a / 8, r);
            lemma_times_sign(k, f);
            lemma_times_sign(k, r);
        }
    }
    if on_board(x) && exists|k: int|
        -8 < k < 8 && x % 8 == a % 8 + #[trigger] (k * f) && x / 8 == a / 8 + k * r {
        let k = choose|k: int|
            -8 < k < 8 && x % 8 == a % 8 + #[trigger] (k * f) && x / 8 == a / 8 + k * r;
        lemma_times_sign(k, f);
        lemma_times_sign(k, r);
    }
}

proof fn lemma_times_sign(k: int, f: int)
    requires
        -1 <= f <= 1,
    ensures
        k * f == (if f == 0 { 0 } else if f == 1 { k } else { -k }),
{
    assert(k * f == (if f == 0 { 0 } else if f == 1 { k } else { -k })) by (nonlinear_arith)
        requires
            -1 <= f <= 1,
    ;
}

/// The eight directions, by file and rank: north is up the ranks, east is towards
/// the h-file.
pub proof fn law_directions(d: Direction)
    ensures
        d.df() + 8 * d.dr() == (match d {
            Direction::North => 8int,
            Direction::South => -8int,
            Direction::East => 1int,
            Direction::West => -1int,
            Direction::NorthEast => 9int,
            Direction::NorthWest => 7int,
            Direction::SouthEast => -7int,
            Direction::SouthWest => -9int,
        }),
        -1 <= d.df() <= 1,
        -1 <= d.dr() <= 1,
{
}

/// A ray holds the squares that are reached by going one or more steps in its
/// direction.
pub proof fn law_ray_step_by_step(d: Direction, s: int, t: int)
    requires
        on_board(s),
        on_board(t),
    ensures
        on_ray(d, s, t) <==> exists|k: int|
            0 < k < 8 && t % 8 == s % 8 + #[trigger] (k * d.df()) && t / 8 == s / 8 + k * d.dr(),
{
    if on_ray(d, s, t) {
        let k = farther(t % 8 - s % 8, t / 8 - s / 8);
        lemma_times_sign(k, d.df());
        lemma_times_sign(k, d.dr());
        assert(0 < k < 8 && t % 8 == s % 8 + k * d.df() && t / 8 == s / 8 + k * d.dr());
    }
    if exists|k: int|
        0 < k < 8 && t % 8 == s % 8 + #[trigger] (k * d.df()) && t / 8 == s / 8 + k * d.dr() {
        let k = choose|k: int|
            0 < k < 8 && t % 8 == s % 8 + #[trigger] (k * d.df()) && t / 8 == s / 8 + k * d.dr();
        lemma_times_sign(k, d.df());
        lemma_times_sign(k, d.dr());
    }
}

} // verus!
