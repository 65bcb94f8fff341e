//! Attack generation for every piece type.
//!
//! * **Leapers** (knight, king, pawn) always attack the same relative squares.
//! * **Sliders** (bishop, rook, queen) attack along rays that stop at the first
//!   blocker, so their attacks depend on the occupied squares.
//!
//! Every attack set can be computed directly, or looked up in an
//! [`AttackTables`] value. For sliders the lookup uses *magic bitboards*: for
//! each square the relevant occupancy bits are masked off, hashed with a "magic"
//! multiplier into a small dense index, and the answer is looked up in one flat
//! table. The multipliers are found by trial and error, and every table entry is
//! filled in from the ray walker [`slow_sliding_attacks`].

use vstd::prelude::*;
use crate::bitboard;
use crate::bitboard::Bitboard;
use crate::geometry;
use crate::magic::{build_slider_table, SliderTable};
use crate::types::{Color, Direction, Square};

verus! {

broadcast use bitboard::group_bitboard;

// ---------------------------------------------------------------------------
// Sliders, by walking the rays.
// ---------------------------------------------------------------------------

/// The squares reached from `s` along the given rays.
pub open spec fn slider_set(dirs: Seq<Direction>, s: int, occ: Set<int>) -> Set<int> {
    Set::new(
        |t: int|
            exists|k: int| 0 <= k < dirs.len() && #[trigger] geometry::ray_reaches(dirs[k], s, t, occ),
    )
}

/// The four rays of a rook.
pub fn rook_dirs() -> (r: [Direction; 4])
    ensures
        r@ == seq![Direction::North, Direction::South, Direction::East, Direction::West],
{
    [Direction::North, Direction::South, Direction::East, Direction::West]
}

/// The four rays of a bishop.
pub fn bishop_dirs() -> (r: [Direction; 4])
    ensures
        r@ == seq![
            Direction::NorthEast,
            Direction::NorthWest,
            Direction::SouthEast,
            Direction::SouthWest,
        ],
{
    [Direction::NorthEast, Direction::NorthWest, Direction::SouthEast, Direction::SouthWest]
}

/// Walk each ray from `sq` one step at a time, adding squares until it runs off
/// the board or hits a blocker. The blocker's own square is included: that is
/// the square the slider can capture on.
pub fn slow_sliding_attacks(sq: Square, occupied: Bitboard, directions: &[Direction]) -> (r:
    Bitboard)
    requires
        sq.valid(),
    ensures
        r@ == slider_set(directions@, sq.0 as int, occupied@),
{
    let mut attacks: Bitboard = Bitboard::empty();
    let mut i: usize = 0;
    assert(attacks@ =~= slider_set(directions@.take(0), sq.0 as int, occupied@));
    while i < directions.len()
        invariant
            sq.valid(),
            i <= directions@.len(),
            attacks@ == slider_set(directions@.take(i as int), sq.0 as int, occupied@),
        decreases directions@.len() - i,
    {
        let reach: Bitboard = bitboard::ray(sq, directions[i], occupied);
        let ghost before = attacks@;
        attacks = attacks | reach;
        proof {
            let s = sq.0 as int;
            let p = directions@.take(i as int);
            let q = directions@.take(i + 1);
            assert forall|t: int| attacks@.contains(t) == slider_set(q, s, occupied@).contains(
                t,
            ) by {
                if before.contains(t) {
                    let k = choose|k: int|
                        0 <= k < p.len() && #[trigger] geometry::ray_reaches(p[k], s, t, occupied@);
                    assert(q[k] == p[k]);
                    assert(geometry::ray_reaches(q[k], s, t, occupied@));
                }
                if reach@.contains(t) {
                    assert(geometry::ray_reaches(q[i as int], s, t, occupied@));
                }
                if slider_set(q, s, occupied@).contains(t) {
                    let k = choose|k: int|
                        0 <= k < q.len() && #[trigger] geometry::ray_reaches(q[k], s, t, occupied@);
                    if k < i {
                        assert(p[k] == q[k]);
                        assert(geometry::ray_reaches(p[k], s, t, occupied@));
                        assert(before.contains(t));
                    } else {
                        assert(q[k] == directions@[i as int]);
                        assert(reach@.contains(t));
                    }
                }
                assert(attacks@.contains(t) == (before.contains(t) || reach@.contains(t)));
            }
            assert(attacks@ =~= slider_set(q, s, occupied@));
        }
        i = i + 1;
    }
    assert(directions@.take(i as int) =~= directions@);
    attacks
}

/// The rook's rays reach what a rook reaches.
pub proof fn lemma_rook_set(s: int, occ: Set<int>)
    requires
        geometry::on_board(s),
    ensures
        slider_set(
            seq![Direction::North, Direction::South, Direction::East, Direction::West],
            s,
            occ,
        ) == Set::new(|t: int| geometry::rook_reaches(s, t, occ)),
{
    let dirs = seq![Direction::North, Direction::South, Direction::East, Direction::West];
    let goal = Set::new(|t: int| geometry::rook_reaches(s, t, occ));
    assert forall|t: int| slider_set(dirs, s, occ).contains(t) == goal.contains(t) by {
        if goal.contains(t) {
            assert(geometry::ray_reaches(dirs[0], s, t, occ) || geometry::ray_reaches(
                dirs[1],
                s,
                t,
                occ,
            ) || geometry::ray_reaches(dirs[2], s, t, occ) || geometry::ray_reaches(
                dirs[3],
                s,
                t,
                occ,
            ));
        }
    }
    assert(slider_set(dirs, s, occ) =~= goal);
}

/// The bishop's rays reach what a bishop reaches.
pub proof fn lemma_bishop_set(s: int, occ: Set<int>)
    requires
        geometry::on_board(s),
    ensures
        slider_set(
            seq![
                Direction::NorthEast,
                Direction::NorthWest,
                Direction::SouthEast,
                Direction::SouthWest,
            ],
            s,
            occ,
        ) == Set::new(|t: int| geometry::bishop_reaches(s, t, occ)),
{
    let dirs = seq![
        Direction::NorthEast,
        Direction::NorthWest,
        Direction::SouthEast,
        Direction::SouthWest,
    ];
    let goal = Set::new(|t: int| geometry::bishop_reaches(s, t, occ));
    assert forall|t: int| slider_set(dirs, s, occ).contains(t) == goal.contains(t) by {
        if goal.contains(t) {
            assert(geometry::ray_reaches(dirs[0], s, t, occ) || geometry::ray_reaches(
                dirs[1],
                s,
                t,
                occ,
            ) || geometry::ray_reaches(dirs[2], s, t, occ) || geometry::ray_reaches(
                dirs[3],
                s,
                t,
                occ,
            ));
        }
    }
    assert(slider_set(dirs, s, occ) =~= goal);
}

/// The squares a bishop on `sq` attacks, given the `occupied` squares. Rays stop
/// at (and include) the first blocker on each diagonal.
pub fn bishop_attacks(sq: Square, occupied: Bitboard) -> (r: Bitboard)
    requires
        sq.valid(),
    ensures
        r@ == Set::new(|t: int| geometry::bishop_reaches(sq.0 as int, t, occupied@)),
{
    proof {
        lemma_bishop_set(sq.0 as int, occupied@);
    }
    slow_sliding_attacks(sq, occupied, bishop_dirs().as_slice())
}

/// The squares a rook on `sq` attacks, given the `occupied` squares. Rays stop
/// at (and include) the first blocker along each file and rank.
pub fn rook_attacks(sq: Square, occupied: Bitboard) -> (r: Bitboard)
    requires
        sq.valid(),
    ensures
        r@ == Set::new(|t: int| geometry::rook_reaches(sq.0 as int, t, occupied@)),
{
    proof {
        lemma_rook_set(sq.0 as int, occupied@);
    }
    slow_sliding_attacks(sq, occupied, rook_dirs().as_slice())
}

/// The squares a queen on `sq` attacks: the union of a rook's and a bishop's
/// attacks from the same square.
pub fn queen_attacks(sq: Square, occupied: Bitboard) -> (r: Bitboard)
    requires
        sq.valid(),
    ensures
        r@ == Set::new(
            |t: int|
                geometry::bishop_reaches(sq.0 as int, t, occupied@) || geometry::rook_reaches(
                    sq.0 as int,
                    t,
                    occupied@,
                ),
        ),
{
    let r = bishop_attacks(sq, occupied) | rook_attacks(sq, occupied);
    assert(r@ =~= Set::new(
        |t: int|
            geometry::bishop_reaches(sq.0 as int, t, occupied@) || geometry::rook_reaches(
                sq.0 as int,
                t,
                occupied@,
            ),
    ));
    r
}

// ---------------------------------------------------------------------------
// Leapers: knight, king, pawn.
// ---------------------------------------------------------------------------

/// `t` is one of the `(file, rank)` steps away from `s`.
pub open spec fn stepped(steps: Seq<(i8, i8)>, s: int, t: int) -> bool {
    geometry::on_board(t) && exists|k: int|
        0 <= k < steps.len() && (#[trigger] steps[k]).0 == geometry::file(t) - geometry::file(s)
            && steps[k].1 == geometry::rank(t) - geometry::rank(s)
}

/// The squares one of the `(file, rank)` steps away from `sq` that are still on
/// the board.
fn leaper_attacks(sq: Square, steps: &[(i8, i8)]) -> (r: Bitboard)
    requires
        sq.valid(),
        forall|k: int| 0 <= k < steps@.len() ==> (#[trigger] steps@[k]).0 <= 120 && steps@[k].1 <= 120,
    ensures
        r@ == Set::new(|t: int| stepped(steps@, sq.0 as int, t)),
{
    let f: i8 = sq.file() as i8;
    let r: i8 = sq.rank() as i8;
    let mut bb: Bitboard = Bitboard::empty();
    let mut i: usize = 0;
    let ghost s = sq.0 as int;
    while i < steps.len()
        invariant
            sq.valid(),
            s == sq.0,
            f == geometry::file(s),
            r == geometry::rank(s),
            i <= steps@.len(),
            forall|k: int|
                0 <= k < steps@.len() ==> (#[trigger] steps@[k]).0 <= 120 && steps@[k].1 <= 120,
            forall|t: int| #[trigger] bb@.contains(t) <==> stepped(steps@.take(i as int), s, t),
        decreases steps@.len() - i,
    {
        let (df, dr): (i8, i8) = steps[i];
        let nf: i8 = f + df;
        let nr: i8 = r + dr;
        let ghost before = bb@;
        if 0 <= nf && nf < 8 && 0 <= nr && nr < 8 {
            let to: Square = Square::make(nf as u8, nr as u8);
            bb.set(to);
        }
        proof {
            let p = steps@.take(i as int);
            let q = steps@.take(i + 1);
            assert forall|t: int| #[trigger] bb@.contains(t) <==> stepped(q, s, t) by {
                if before.contains(t) {
                    let k = choose|k: int|
                        0 <= k < p.len() && (#[trigger] p[k]).0 == geometry::file(t)
                            - geometry::file(s) && p[k].1 == geometry::rank(t) - geometry::rank(s);
                    assert(q[k] == p[k]);
                } else if bb@.contains(t) {
                    assert(q[i as int].0 == geometry::file(t) - geometry::file(s));
                }
                if stepped(q, s, t) {
                    let k = choose|k: int|
                        0 <= k < q.len() && (#[trigger] q[k]).0 == geometry::file(t)
                            - geometry::file(s) && q[k].1 == geometry::rank(t) - geometry::rank(s);
                    if k < i {
                        assert(p[k] == q[k]);
                        assert(stepped(p, s, t));
                    }
                }
            }
        }
        i = i + 1;
    }
    assert(steps@.take(i as int) =~= steps@);
    assert(bb@ =~= Set::new(|t: int| stepped(steps@, s, t)));
    bb
}

/// Build a leaper table by applying a set of `(file, rank)` steps to every source
/// square, keeping only steps that stay on the board.
fn build_leaper_table(steps: &[(i8, i8)]) -> (r: [Bitboard; 64])
    requires
        forall|k: int| 0 <= k < steps@.len() ==> (#[trigger] steps@[k]).0 <= 120 && steps@[k].1 <= 120,
    ensures
        forall|s: int|
            #![trigger r@[s]]
            geometry::on_board(s) ==> r@[s]@ == Set::new(|t: int| stepped(steps@, s, t)),
{
    let mut table: [Bitboard; 64] = [Bitboard(0);64];
    let mut i: u8 = 0;
    while i < 64
        invariant
            i <= 64,
            forall|k: int|
                0 <= k < steps@.len() ==> (#[trigger] steps@[k]).0 <= 120 && steps@[k].1 <= 120,
            forall|s: int|
                #![trigger table@[s]]
                0 <= s < i ==> table@[s]@ == Set::new(|t: int| stepped(steps@, s, t)),
        decreases 64 - i,
    {
        table[i as usize] = leaper_attacks(Square(i), steps);
        i = i + 1;
    }
    table
}

fn knight_steps() -> (r: [(i8, i8); 8])
    ensures
        forall|k: int| 0 <= k < 8 ==> (#[trigger] r@[k]).0 <= 120 && r@[k].1 <= 120,
        forall|s: int, t: int|
            geometry::on_board(s) ==> (#[trigger] stepped(r@, s, t)
                == geometry::knight_reaches(s, t)),
{
    let r: [(i8, i8); 8] = [
        (1, 2),
        (2, 1),
        (2, -1),
        (1, -2),
        (-1, -2),
        (-2, -1),
        (-2, 1),
        (-1, 2),
    ];
    proof {
        assert(r@ =~= seq![
            (1i8, 2i8),
            (2i8, 1i8),
            (2i8, -1i8),
            (1i8, -2i8),
            (-1i8, -2i8),
            (-2i8, -1i8),
            (-2i8, 1i8),
            (-1i8, 2i8),
        ]);
        assert forall|s: int, t: int| geometry::on_board(s) implies (#[trigger] stepped(r@, s, t)
            == geometry::knight_reaches(s, t)) by {
            lemma_eight_steps(r@, s, t);
        }
    }
    r
}

fn king_steps() -> (r: [(i8, i8); 8])
    ensures
        forall|k: int| 0 <= k < 8 ==> (#[trigger] r@[k]).0 <= 120 && r@[k].1 <= 120,
        forall|s: int, t: int|
            geometry::on_board(s) ==> (#[trigger] stepped(r@, s, t) == geometry::king_reaches(
                s,
                t,
            )),
{
    let r: [(i8, i8); 8] = [
        (1, 0),
        (1, 1),
        (0, 1),
        (-1, 1),
        (-1, 0),
        (-1, -1),
        (0, -1),
        (1, -1),
    ];
    proof {
        assert(r@ =~= seq![
            (1i8, 0i8),
            (1i8, 1i8),
            (0i8, 1i8),
            (-1i8, 1i8),
            (-1i8, 0i8),
            (-1i8, -1i8),
            (0i8, -1i8),
            (1i8, -1i8),
        ]);
        assert forall|s: int, t: int| geometry::on_board(s) implies (#[trigger] stepped(r@, s, t)
            == geometry::king_reaches(s, t)) by {
            lemma_eight_steps(r@, s, t);
        }
    }
    r
}

proof fn lemma_eight_steps(r: Seq<(i8, i8)>, s: int, t: int)
    requires
        r.len() == 8,
    ensures
        stepped(r, s, t) == {
            let f = geometry::file(t) - geometry::file(s);
            let d = geometry::rank(t) - geometry::rank(s);
            &&& geometry::on_board(t)
            &&& {
                ||| r[0].0 == f && r[0].1 == d
                ||| r[1].0 == f && r[1].1 == d
                ||| r[2].0 == f && r[2].1 == d
                ||| r[3].0 == f && r[3].1 == d
                ||| r[4].0 == f && r[4].1 == d
                ||| r[5].0 == f && r[5].1 == d
                ||| r[6].0 == f && r[6].1 == d
                ||| r[7].0 == f && r[7].1 == d
            }
        },
{
}

fn pawn_steps(color: Color) -> (r: [(i8, i8); 2])
    ensures
        forall|k: int| 0 <= k < 2 ==> (#[trigger] r@[k]).0 <= 120 && r@[k].1 <= 120,
        forall|s: int, t: int|
            geometry::on_board(s) ==> (#[trigger] stepped(r@, s, t) == geometry::pawn_reaches(
                color,
                s,
                t,
            )),
{
    // White pawns attack one rank up; black pawns one rank down.
    let r: [(i8, i8); 2] = match color {
        Color::White => [(-1, 1), (1, 1)],
        Color::Black => [(-1, -1), (1, -1)],
    };
    proof {
        let d: i8 = color.forward() as i8;
        assert(r@ =~= seq![(-1i8, d), (1i8, d)]);
        assert forall|s: int, t: int| geometry::on_board(s) implies (#[trigger] stepped(r@, s, t)
            == geometry::pawn_reaches(color, s, t)) by {
            if geometry::pawn_reaches(color, s, t) {
                assert(r@[0].0 == geometry::file(t) - geometry::file(s) || r@[1].0
                    == geometry::file(t) - geometry::file(s));
            }
        }
    }
    r
}

/// The squares a knight on `sq` attacks (its eight L-shaped jumps that stay on
/// the board). Independent of any other pieces.
pub fn knight_attacks(sq: Square) -> (r: Bitboard)
    requires
        sq.valid(),
    ensures
        r@ == Set::new(|t: int| geometry::knight_reaches(sq.0 as int, t)),
{
    let r = leaper_attacks(sq, knight_steps().as_slice());
    assert(r@ =~= Set::new(|t: int| geometry::knight_reaches(sq.0 as int, t)));
    r
}

/// The squares a king on `sq` attacks (the up-to-eight adjacent squares).
pub fn king_attacks(sq: Square) -> (r: Bitboard)
    requires
        sq.valid(),
    ensures
        r@ == Set::new(|t: int| geometry::king_reaches(sq.0 as int, t)),
{
    let r = leaper_attacks(sq, king_steps().as_slice());
    assert(r@ =~= Set::new(|t: int| geometry::king_reaches(sq.0 as int, t)));
    r
}

/// The squares a pawn of `color` on `sq` attacks: the two forward diagonals only.
/// These are captures, not pushes: a pawn never captures straight ahead.
pub fn pawn_attacks(color: Color, sq: Square) -> (r: Bitboard)
    requires
        sq.valid(),
    ensures
        r@ == Set::new(|t: int| geometry::pawn_reaches(color, sq.0 as int, t)),
{
    let r = leaper_attacks(sq, pawn_steps(color).as_slice());
    assert(r@ =~= Set::new(|t: int| geometry::pawn_reaches(color, sq.0 as int, t)));
    r
}

// ---------------------------------------------------------------------------
// Precomputed tables.
// ---------------------------------------------------------------------------

/// Attack tables for every piece, computed once: lookups for the leapers, and
/// magic-bitboard tables for the sliders.
pub struct AttackTables {
    knight: [Bitboard; 64],
    king: [Bitboard; 64],
    white_pawn: [Bitboard; 64],
    black_pawn: [Bitboard; 64],
    rook: SliderTable,
    bishop: SliderTable,
}

impl AttackTables {
    /// The rook's table.
    pub closed spec fn rook_table(&self) -> SliderTable {
        self.rook
    }

    /// The bishop's table.
    pub closed spec fn bishop_table(&self) -> SliderTable {
        self.bishop
    }

    /// The tables hold the attacks of every piece from every square.
    pub closed spec fn wf(&self) -> bool {
        &&& forall|s: int|
            #![trigger self.knight@[s]]
            geometry::on_board(s) ==> self.knight@[s]@ == Set::new(
                |t: int| geometry::knight_reaches(s, t),
            )
        &&& forall|s: int|
            #![trigger self.king@[s]]
            geometry::on_board(s) ==> self.king@[s]@ == Set::new(
                |t: int| geometry::king_reaches(s, t),
            )
        &&& forall|s: int|
            #![trigger self.white_pawn@[s]]
            geometry::on_board(s) ==> self.white_pawn@[s]@ == Set::new(
                |t: int| geometry::pawn_reaches(Color::White, s, t),
            )
        &&& forall|s: int|
            #![trigger self.black_pawn@[s]]
            geometry::on_board(s) ==> self.black_pawn@[s]@ == Set::new(
                |t: int| geometry::pawn_reaches(Color::Black, s, t),
            )
        &&& self.rook.wf()
        &&& self.rook.dirs() == seq![
            Direction::North,
            Direction::South,
            Direction::East,
            Direction::West,
        ]
        &&& self.bishop.wf()
        &&& self.bishop.dirs() == seq![
            Direction::NorthEast,
            Direction::NorthWest,
            Direction::SouthEast,
            Direction::SouthWest,
        ]
    }

    /// The squares a knight on `sq` attacks.
    pub fn knight_attacks(&self, sq: Square) -> (r: Bitboard)
        requires
            self.wf(),
            sq.valid(),
        ensures
            r@ == Set::new(|t: int| geometry::knight_reaches(sq.0 as int, t)),
    {
        self.knight[sq.index()]
    }

    /// The squares a king on `sq` attacks.
    pub fn king_attacks(&self, sq: Square) -> (r: Bitboard)
        requires
            self.wf(),
            sq.valid(),
        ensures
            r@ == Set::new(|t: int| geometry::king_reaches(sq.0 as int, t)),
    {
        self.king[sq.index()]
    }

    /// The squares a pawn of `color` on `sq` attacks.
    pub fn pawn_attacks(&self, color: Color, sq: Square) -> (r: Bitboard)
        requires
            self.wf(),
            sq.valid(),
        ensures
            r@ == Set::new(|t: int| geometry::pawn_reaches(color, sq.0 as int, t)),
    {
        match color {
            Color::White => self.white_pawn[sq.index()],
            Color::Black => self.black_pawn[sq.index()],
        }
    }

    /// The squares a bishop on `sq` attacks, given the `occupied` squares.
    pub fn bishop_attacks(&self, sq: Square, occupied: Bitboard) -> (r: Bitboard)
        requires
            self.wf(),
            sq.valid(),
        ensures
            r@ == Set::new(|t: int| geometry::bishop_reaches(sq.0 as int, t, occupied@)),
    {
        proof {
            lemma_bishop_set(sq.0 as int, occupied@);
        }
        self.bishop.attacks(sq, occupied)
    }

    /// The squares a rook on `sq` attacks, given the `occupied` squares.
    pub fn rook_attacks(&self, sq: Square, occupied: Bitboard) -> (r: Bitboard)
        requires
            self.wf(),
            sq.valid(),
        ensures
            r@ == Set::new(|t: int| geometry::rook_reaches(sq.0 as int, t, occupied@)),
    {
        proof {
            lemma_rook_set(sq.0 as int, occupied@);
        }
        self.rook.attacks(sq, occupied)
    }

    /// The squares a queen on `sq` attacks: rook and bishop rays combined.
    pub fn queen_attacks(&self, sq: Square, occupied: Bitboard) -> (r: Bitboard)
        requires
            self.wf(),
            sq.valid(),
        ensures
            r@ == Set::new(
                |t: int|
                    geometry::bishop_reaches(sq.0 as int, t, occupied@) || geometry::rook_reaches(
                        sq.0 as int,
                        t,
                        occupied@,
                    ),
            ),
    {
        let r: Bitboard = self.bishop_attacks(sq, occupied) | self.rook_attacks(sq, occupied);
        assert(r@ =~= Set::new(
            |t: int|
                geometry::bishop_reaches(sq.0 as int, t, occupied@) || geometry::rook_reaches(
                    sq.0 as int,
                    t,
                    occupied@,
                ),
        ));
        r
    }
}

/// Compute every attack table.
pub fn init() -> (r: AttackTables)
    ensures
        r.wf(),
        r.rook_table().dirs() == seq![
            Direction::North,
            Direction::South,
            Direction::East,
            Direction::West,
        ],
        r.rook_table().filled(),
        r.bishop_table().dirs() == seq![
            Direction::NorthEast,
            Direction::NorthWest,
            Direction::SouthEast,
            Direction::SouthWest,
        ],
        r.bishop_table().filled(),
{
    let knight: [Bitboard; 64] = build_leaper_table(knight_steps().as_slice());
    let king: [Bitboard; 64] = build_leaper_table(king_steps().as_slice());
    let white_pawn: [Bitboard; 64] = build_leaper_table(pawn_steps(Color::White).as_slice());
    let black_pawn: [Bitboard; 64] = build_leaper_table(pawn_steps(Color::Black).as_slice());
    proof {
        assert forall|s: int|
            #![trigger knight@[s]]
            geometry::on_board(s) implies knight@[s]@ == Set::new(
            |t: int| geometry::knight_reaches(s, t),
        ) by {
            assert(knight@[s]@ =~= Set::new(|t: int| geometry::knight_reaches(s, t)));
        }
        assert forall|s: int|
            #![trigger king@[s]]
            geometry::on_board(s) implies king@[s]@ == Set::new(
            |t: int| geometry::king_reaches(s, t),
        ) by {
            assert(king@[s]@ =~= Set::new(|t: int| geometry::king_reaches(s, t)));
        }
        assert forall|s: int|
            #![trigger white_pawn@[s]]
            geometry::on_board(s) implies white_pawn@[s]@ == Set::new(
            |t: int| geometry::pawn_reaches(Color::White, s, t),
        ) by {
            assert(white_pawn@[s]@ =~= Set::new(
                |t: int| geometry::pawn_reaches(Color::White, s, t),
            ));
        }
        assert forall|s: int|
            #![trigger black_pawn@[s]]
            geometry::on_board(s) implies black_pawn@[s]@ == Set::new(
            |t: int| geometry::pawn_reaches(Color::Black, s, t),
        ) by {
            assert(black_pawn@[s]@ =~= Set::new(
                |t: int| geometry::pawn_reaches(Color::Black, s, t),
            ));
        }
    }
    AttackTables {
        knight,
        king,
        white_pawn,
        black_pawn,
        rook: build_slider_table(rook_dirs().as_slice()),
        bishop: build_slider_table(bishop_dirs().as_slice()),
    }
}

} // verus!
