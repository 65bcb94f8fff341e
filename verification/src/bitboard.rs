//! Bitboards: a 64-bit integer where bit `i` (i = 0..63) is set iff square `i`
//! is in the set being described (all white pawns, all squares a rook attacks,
//! and so on). Bit 0 = a1, bit 63 = h8.
//!
//! The mathematical model of a bitboard is the set of its square indices.

use vstd::prelude::*;
use vstd::std_specs::bits::axiom_u64_leading_zeros;
use vstd::std_specs::bits::axiom_u64_trailing_zeros;
use crate::geometry;
use crate::text;
use crate::types::{Direction, Square};
use std::ops::{BitAnd, BitAndAssign, BitOr, BitOrAssign, BitXor, BitXorAssign, Not, Shl, Shr};

verus! {

/// A set of squares.
#[derive(Clone, Copy, PartialEq, Eq, Default, Hash, Structural)]
pub struct Bitboard(pub u64);

// File masks (all 8 squares of a file).
pub const FILE_A_BB: u64 = 0x0101_0101_0101_0101;
pub const FILE_B_BB: u64 = FILE_A_BB << 1;
pub const FILE_C_BB: u64 = FILE_A_BB << 2;
pub const FILE_D_BB: u64 = FILE_A_BB << 3;
pub const FILE_E_BB: u64 = FILE_A_BB << 4;
pub const FILE_F_BB: u64 = FILE_A_BB << 5;
pub const FILE_G_BB: u64 = FILE_A_BB << 6;
pub const FILE_H_BB: u64 = FILE_A_BB << 7;

// Rank masks (all 8 squares of a rank).
pub const RANK_1_BB: u64 = 0xFF;
pub const RANK_2_BB: u64 = RANK_1_BB << 8;
pub const RANK_3_BB: u64 = RANK_1_BB << 16;
pub const RANK_4_BB: u64 = RANK_1_BB << 24;
pub const RANK_5_BB: u64 = RANK_1_BB << 32;
pub const RANK_6_BB: u64 = RANK_1_BB << 40;
pub const RANK_7_BB: u64 = RANK_1_BB << 48;
pub const RANK_8_BB: u64 = RANK_1_BB << 56;

// ---------------------------------------------------------------------------
// The set model.
// ---------------------------------------------------------------------------

/// Bit `i` of `x` is set.
pub open spec fn bit(x: u64, i: int) -> bool {
    0 <= i < 64 && (x >> (i as u64)) & 1 == 1
}

impl View for Bitboard {
    type V = Set<int>;

    open spec fn view(&self) -> Set<int> {
        Set::new(|i: int| bit(self.0, i))
    }
}

/// The squares of a set below index `n`, in ascending order.
pub open spec fn ascending(s: Set<int>, n: int) -> Seq<Square>
    decreases n,
{
    if n <= 0 {
        Seq::empty()
    } else if s.contains(n - 1) {
        ascending(s, n - 1).push(Square((n - 1) as u8))
    } else {
        ascending(s, n - 1)
    }
}

/// The board squares of a set, in ascending order.
pub open spec fn listed(s: Set<int>) -> Seq<Square> {
    ascending(s, 64)
}

/// The whole board.
pub open spec fn all_squares() -> Set<int> {
    Set::new(|i: int| geometry::on_board(i))
}

proof fn lemma_bit_ops(a: u64, b: u64, i: u64)
    by (bit_vector)
    requires
        i < 64,
    ensures
        ((a & b) >> i) & 1 == 1 <==> (a >> i) & 1 == 1 && (b >> i) & 1 == 1,
        ((a | b) >> i) & 1 == 1 <==> (a >> i) & 1 == 1 || (b >> i) & 1 == 1,
        ((a ^ b) >> i) & 1 == 1 <==> ((a >> i) & 1 == 1) != ((b >> i) & 1 == 1),
        ((!a) >> i) & 1 == 1 <==> !((a >> i) & 1 == 1),
        (0u64 >> i) & 1 != 1,
        (0xffff_ffff_ffff_ffffu64 >> i) & 1 == 1,
        b < 64 ==> (((1u64 << b) >> i) & 1 == 1 <==> i == b),
        b < 64 ==> ((a & (1u64 << b) != 0) <==> (a >> b) & 1 == 1),
{
}

pub broadcast proof fn lemma_and(a: u64, b: u64)
    ensures
        #[trigger] Bitboard(a & b)@ == Bitboard(a)@.intersect(Bitboard(b)@),
{
    assert forall|i: int| Bitboard(a & b)@.contains(i) == Bitboard(a)@.intersect(
        Bitboard(b)@,
    ).contains(i) by {
        if 0 <= i < 64 {
            lemma_bit_ops(a, b, i as u64);
        }
    }
    assert(Bitboard(a & b)@ =~= Bitboard(a)@.intersect(Bitboard(b)@));
}

pub broadcast proof fn lemma_or(a: u64, b: u64)
    ensures
        #[trigger] Bitboard(a | b)@ == Bitboard(a)@.union(Bitboard(b)@),
{
    assert forall|i: int| Bitboard(a | b)@.contains(i) == Bitboard(a)@.union(
        Bitboard(b)@,
    ).contains(i) by {
        if 0 <= i < 64 {
            lemma_bit_ops(a, b, i as u64);
        }
    }
    assert(Bitboard(a | b)@ =~= Bitboard(a)@.union(Bitboard(b)@));
}

pub broadcast proof fn lemma_xor(a: u64, b: u64)
    ensures
        #[trigger] Bitboard(a ^ b)@ == Bitboard(a)@.difference(Bitboard(b)@).union(
            Bitboard(b)@.difference(Bitboard(a)@),
        ),
{
    let r = Bitboard(a)@.difference(Bitboard(b)@).union(Bitboard(b)@.difference(Bitboard(a)@));
    assert forall|i: int| Bitboard(a ^ b)@.contains(i) == r.contains(i) by {
        if 0 <= i < 64 {
            lemma_bit_ops(a, b, i as u64);
        }
    }
    assert(Bitboard(a ^ b)@ =~= r);
}

pub broadcast proof fn lemma_not(a: u64)
    ensures
        #[trigger] Bitboard(!a)@ == all_squares().difference(Bitboard(a)@),
{
    assert forall|i: int| Bitboard(!a)@.contains(i) == all_squares().difference(
        Bitboard(a)@,
    ).contains(i) by {
        if 0 <= i < 64 {
            lemma_bit_ops(a, a, i as u64);
        }
    }
    assert(Bitboard(!a)@ =~= all_squares().difference(Bitboard(a)@));
}

pub proof fn lemma_empty()
    ensures
        Bitboard(0)@ == Set::<int>::empty(),
{
    assert forall|i: int| !Bitboard(0)@.contains(i) by {
        if 0 <= i < 64 {
            lemma_bit_ops(0, 0, i as u64);
        }
    }
    assert(Bitboard(0)@ =~= Set::empty());
}

/// The set-algebra reading of the bitwise operators.
pub broadcast group group_bitboard {
    lemma_and,
    lemma_or,
    lemma_xor,
    lemma_not,
}

/// A bitboard is determined by its set of squares.
pub proof fn lemma_ext(a: Bitboard, b: Bitboard)
    requires
        a@ == b@,
    ensures
        a == b,
{
    let x: u64 = a.0;
    let y: u64 = b.0;
    if x != y {
        let d: u64 = x ^ y;
        assert(d != 0) by (bit_vector)
            requires
                x != y,
                d == x ^ y,
        ;
        axiom_u64_trailing_zeros(d);
        let t: u64 = vstd::std_specs::bits::u64_trailing_zeros(d) as u64;
        assert((d >> t) & 1 == 1);
        lemma_bit_ops(x, y, t);
        assert(bit(x, t as int) != bit(y, t as int));
        assert(a@.contains(t as int) == bit(x, t as int));
        assert(b@.contains(t as int) == bit(y, t as int));
    }
}

/// A nonzero word has a least set bit, and clearing it is `x & (x - 1)`.
proof fn lemma_lowest(x: u64) -> (t: u64)
    requires
        x != 0,
    ensures
        t < 64,
        t == vstd::std_specs::bits::u64_trailing_zeros(x),
        Bitboard(x)@.contains(t as int),
        forall|i: int| #[trigger] Bitboard(x)@.contains(i) ==> t <= i,
        Bitboard(x & (x - 1) as u64)@ == Bitboard(x)@.remove(t as int),
{
    axiom_u64_trailing_zeros(x);
    let t: u64 = vstd::std_specs::bits::u64_trailing_zeros(x) as u64;
    let y: u64 = x & (x - 1) as u64;
    let z: u64 = (x - 1) as u64;
    assert forall|i: int| Bitboard(y)@.contains(i) == Bitboard(x)@.remove(t as int).contains(
        i,
    ) by {
        if 0 <= i < 64 {
            let j: u64 = i as u64;
            let s: u64 = ((64 - t) as u64);
            assert(((x & z) >> j) & 1 == 1 <==> (x >> j) & 1 == 1 && j != t) by (bit_vector)
                requires
                    j < 64,
                    t < 64,
                    z + 1 == x,
                    s + t == 64,
                    x << s == 0,
                    (x >> t) & 1 == 1,
            ;
        }
    }
    assert(Bitboard(y)@ =~= Bitboard(x)@.remove(t as int));
    t
}

/// Membership in the ascending list.
pub proof fn lemma_ascending(s: Set<int>, n: int)
    requires
        0 <= n <= 64,
    ensures
        forall|q: Square| #[trigger]
            ascending(s, n).contains(q) <==> (q.0 < n && s.contains(q.0 as int)),
        forall|k: int|
            #![trigger ascending(s, n)[k]]
            0 <= k < ascending(s, n).len() ==> ascending(s, n)[k].0 < n && s.contains(
                ascending(s, n)[k].0 as int,
            ),
        forall|j: int, k: int|
            #![trigger ascending(s, n)[j], ascending(s, n)[k]]
            0 <= j < k < ascending(s, n).len() ==> ascending(s, n)[j].0 < ascending(s, n)[k].0,
        ascending(s, n).len() <= n,
    decreases n,
{
    if n > 0 {
        lemma_ascending(s, n - 1);
        let p = ascending(s, n - 1);
        let q = ascending(s, n);
        if s.contains(n - 1) {
            assert forall|x: Square| #[trigger] q.contains(x) <==> (x.0 < n && s.contains(
                x.0 as int,
            )) by {
                if x.0 == n - 1 {
                    assert(q[p.len() as int] == x);
                }
                if p.contains(x) {
                    let k = choose|k: int| 0 <= k < p.len() && p[k] == x;
                    assert(q[k] == x);
                }
                if q.contains(x) {
                    let k = choose|k: int| 0 <= k < q.len() && q[k] == x;
                    if k < p.len() {
                        assert(p[k] == x);
                        assert(p.contains(x));
                    }
                }
            }
        } else {
            assert forall|x: Square| #[trigger] q.contains(x) <==> (x.0 < n && s.contains(
                x.0 as int,
            )) by {
                if x.0 < n && s.contains(x.0 as int) {
                    assert(x.0 < n - 1);
                }
            }
        }
    }
}

/// Taking the least element off a set takes the first off its ascending list.
pub proof fn lemma_ascending_pop(s: Set<int>, m: int, n: int)
    requires
        0 <= m < 64,
        0 <= n <= 64,
        s.contains(m),
        forall|i: int| #[trigger] s.contains(i) ==> m <= i,
    ensures
        m < n ==> ascending(s, n) == seq![Square(m as u8)] + ascending(s.remove(m), n),
        m >= n ==> ascending(s, n) == Seq::<Square>::empty(),
    decreases n,
{
    if n > 0 {
        lemma_ascending_pop(s, m, n - 1);
        if m == n - 1 {
            lemma_ascending(s.remove(m), n);
            assert(ascending(s.remove(m), n) =~= Seq::empty()) by {
                let a = ascending(s.remove(m), n);
                if a.len() > 0 {
                    assert(a.contains(a[0]));
                }
            }
        }
        if m < n {
            assert(ascending(s, n) =~= seq![Square(m as u8)] + ascending(s.remove(m), n));
        }
    }
}

/// The list of an empty set is empty.
pub proof fn lemma_listed_empty(s: Set<int>)
    requires
        forall|i: int| #[trigger] geometry::on_board(i) ==> !s.contains(i),
    ensures
        listed(s) == Seq::<Square>::empty(),
{
    lemma_ascending(s, 64);
    let a = listed(s);
    if a.len() > 0 {
        assert(a.contains(a[0]));
        assert(geometry::on_board(a[0].0 as int));
    }
    assert(a =~= Seq::empty());
}

/// The ascending list has as many entries as the set has elements.
pub proof fn lemma_ascending_len(s: Set<int>, n: int)
    requires
        0 <= n <= 64,
        forall|i: int| #[trigger] s.contains(i) ==> 0 <= i < n,
    ensures
        s.finite(),
        s.len() == ascending(s, n).len(),
    decreases n,
{
    if n == 0 {
        assert(s =~= Set::empty());
    } else if s.contains(n - 1) {
        let t = s.remove(n - 1);
        lemma_ascending_len(t, n - 1);
        lemma_ascending_cong(s, t, n - 1);
        assert(s =~= t.insert(n - 1));
    } else {
        assert forall|i: int| #[trigger] s.contains(i) implies 0 <= i < n - 1 by {}
        lemma_ascending_len(s, n - 1);
    }
}

/// The ascending list below `n` depends only on the elements below `n`.
pub proof fn lemma_ascending_cong(s: Set<int>, t: Set<int>, n: int)
    requires
        forall|i: int| 0 <= i < n ==> s.contains(i) == #[trigger] t.contains(i),
    ensures
        ascending(s, n) == ascending(t, n),
    decreases n,
{
    if n > 0 {
        lemma_ascending_cong(s, t, n - 1);
        assert(s.contains(n - 1) == t.contains(n - 1));
    }
}

// ---------------------------------------------------------------------------
// Single boards.
// ---------------------------------------------------------------------------

impl Bitboard {
    /// The empty set.
    pub fn empty() -> (r: Bitboard)
        ensures
            r.0 == 0,
            r@ == Set::<int>::empty(),
    {
        proof {
            lemma_empty();
        }
        Bitboard(0)
    }

    /// All 64 squares.
    pub fn full() -> (r: Bitboard)
        ensures
            r.0 == u64::MAX,
            r@ == all_squares(),
    {
        proof {
            assert forall|i: int| Bitboard(u64::MAX)@.contains(i) == all_squares().contains(i) by {
                if 0 <= i < 64 {
                    lemma_bit_ops(0, 0, i as u64);
                }
            }
            assert(Bitboard(u64::MAX)@ =~= all_squares());
        }
        Bitboard(u64::MAX)
    }

    /// A bitboard with a single bit set for `sq`.
    pub fn from_square(sq: Square) -> (r: Bitboard)
        requires
            sq.valid(),
        ensures
            r.0 == 1u64 << sq.0,
            r@ == set![sq.0 as int],
    {
        let r = Bitboard(1u64 << sq.0);
        proof {
            assert forall|i: int| r@.contains(i) == set![sq.0 as int].contains(i) by {
                if 0 <= i < 64 {
                    lemma_bit_ops(0, sq.0 as u64, i as u64);
                }
            }
            assert(r@ =~= set![sq.0 as int]);
        }
        r
    }

    /// A mask of the whole file that `sq` sits on.
    pub fn file_bb(sq: Square) -> (r: Bitboard)
        requires
            sq.valid(),
        ensures
            r.0 == FILE_A_BB << sq.file(),
            r@ == Set::new(
                |i: int| geometry::on_board(i) && geometry::file(i) == geometry::file(sq.0 as int),
            ),
    {
        let r = Bitboard(FILE_A_BB << sq.file());
        proof {
            let e = Set::new(
                |i: int| geometry::on_board(i) && geometry::file(i) == geometry::file(sq.0 as int),
            );
            assert forall|i: int| r@.contains(i) == e.contains(i) by {
                if 0 <= i < 64 {
                    let f: u64 = sq.file() as u64;
                    let j: u64 = i as u64;
                    assert(((0x0101_0101_0101_0101u64 << f) >> j) & 1 == 1 <==> j % 8 == f)
                        by (bit_vector)
                        requires
                            f < 8,
                            j < 64,
                    ;
                }
            }
            assert(r@ =~= e);
        }
        r
    }

    /// A mask of the whole rank that `sq` sits on.
    pub fn rank_bb(sq: Square) -> (r: Bitboard)
        requires
            sq.valid(),
        ensures
            r.0 == RANK_1_BB << ((8 * sq.rank()) as u8),
            r@ == Set::new(
                |i: int| geometry::on_board(i) && geometry::rank(i) == geometry::rank(sq.0 as int),
            ),
    {
        let r = Bitboard(RANK_1_BB << (8 * sq.rank()));
        proof {
            let e = Set::new(
                |i: int| geometry::on_board(i) && geometry::rank(i) == geometry::rank(sq.0 as int),
            );
            assert forall|i: int| r@.contains(i) == e.contains(i) by {
                if 0 <= i < 64 {
                    let k: u64 = sq.rank() as u64;
                    let s: u64 = (8 * k) as u64;
                    let j: u64 = i as u64;
                    assert(((0xFFu64 << s) >> j) & 1 == 1 <==> j / 8 == k) by (bit_vector)
                        requires
                            k < 8,
                            s == 8 * k,
                            j < 64,
                    ;
                }
            }
            assert(r@ =~= e);
        }
        r
    }

    /// No square is set.
    pub fn is_empty(self) -> (r: bool)
        ensures
            r == (self.0 == 0),
            r == (self@ == Set::<int>::empty()),
    {
        proof {
            lemma_empty();
            if self.0 != 0 {
                let t = lemma_lowest(self.0);
            }
        }
        self.0 == 0
    }

    /// Some square is set.
    pub fn any(self) -> (r: bool)
        ensures
            r == (self.0 != 0),
            r == (self@ != Set::<int>::empty()),
            r ==> exists|i: int| self@.contains(i),
    {
        proof {
            lemma_empty();
            if self.0 != 0 {
                let t = lemma_lowest(self.0);
            }
        }
        self.0 != 0
    }

    /// Is square `sq` set?
    pub fn contains(self, sq: Square) -> (r: bool)
        requires
            sq.valid(),
        ensures
            r == self@.contains(sq.0 as int),
    {
        proof {
            lemma_bit_ops(self.0, sq.0 as u64, 0);
        }
        self.0 & (1u64 << sq.0) != 0
    }

    /// More than one bit set?
    pub fn more_than_one(self) -> (r: bool)
        ensures
            r == (self@.len() > 1),
            !r ==> forall|i: int, j: int| #[trigger]
                self@.contains(i) && #[trigger] self@.contains(j) ==> i == j,
            r ==> exists|i: int, j: int| i != j && self@.contains(i) && self@.contains(j),
    {
        let x: u64 = self.0;
        proof {
            lemma_empty();
            lemma_ascending_len(self@, 64);
            if x == 0 {
                assert(0u64 & 0xffff_ffff_ffff_ffffu64 == 0) by (bit_vector);
            } else {
                let t = lemma_lowest(x) as int;
                let y: u64 = x & (x - 1) as u64;
                if y != 0 {
                    let u = lemma_lowest(y) as int;
                    assert(self@.contains(u) && u != t);
                    assert(self@.remove(t).remove(u).len() == self@.len() - 2);
                } else {
                    assert(self@.remove(t) =~= Set::empty());
                    assert forall|i: int, j: int| #[trigger]
                        self@.contains(i) && #[trigger] self@.contains(j) implies i == j by {
                        if i != t {
                            assert(self@.remove(t).contains(i));
                        }
                        if j != t {
                            assert(self@.remove(t).contains(j));
                        }
                    }
                }
            }
        }
        self.0 & (self.0.wrapping_sub(1)) != 0
    }

    /// Number of set squares.
    pub fn count(self) -> (r: u32)
        ensures
            r == self@.len(),
            r == listed(self@).len(),
            self@.finite(),
    {
        let mut rest: Bitboard = self;
        let mut n: u32 = 0;
        proof {
            lemma_ascending(self@, 64);
            lemma_ascending_len(self@, 64);
        }
        while rest.0 != 0
            invariant
                n + listed(rest@).len() == listed(self@).len(),
                listed(self@).len() <= 64,
            decreases listed(rest@).len(),
        {
            let _ = rest.pop_lsb();
            n = n + 1;
        }
        proof {
            lemma_empty();
            lemma_listed_empty(rest@);
        }
        n
    }

    /// The least-significant set square (lowest index). The set must not be
    /// empty.
    pub fn lsb(self) -> (r: Square)
        requires
            self.0 != 0,
        ensures
            r.valid(),
            self@.contains(r.0 as int),
            forall|i: int| #[trigger] self@.contains(i) ==> r.0 <= i,
    {
        proof {
            let t = lemma_lowest(self.0);
        }
        Square(self.0.trailing_zeros() as u8)
    }

    /// The most-significant set square (highest index). The set must not be
    /// empty.
    pub fn msb(self) -> (r: Square)
        requires
            self.0 != 0,
        ensures
            r.valid(),
            self@.contains(r.0 as int),
            forall|i: int| #[trigger] self@.contains(i) ==> i <= r.0,
    {
        let x: u64 = self.0;
        proof {
            axiom_u64_leading_zeros(x);
            let z: u64 = vstd::std_specs::bits::u64_leading_zeros(x) as u64;
            let t: u64 = ((63 - z) as u64);
            assert((x >> t) & 1 != 0 ==> (x >> t) & 1 == 1) by (bit_vector);
        }
        Square((63 - self.0.leading_zeros()) as u8)
    }

    /// Remove and return the least-significant set square. The set must not be
    /// empty.
    pub fn pop_lsb(&mut self) -> (r: Square)
        requires
            old(self).0 != 0,
        ensures
            r.valid(),
            old(self)@.contains(r.0 as int),
            forall|i: int| #[trigger] old(self)@.contains(i) ==> r.0 <= i,
            final(self)@ == old(self)@.remove(r.0 as int),
            listed(old(self)@) == seq![r] + listed(final(self)@),
            listed(old(self)@).len() == listed(final(self)@).len() + 1,
    {
        proof {
            let t = lemma_lowest(self.0);
            lemma_ascending_pop(self@, t as int, 64);
        }
        let sq: Square = Square(self.0.trailing_zeros() as u8);
        self.0 = self.0 & (self.0 - 1);
        sq
    }

    /// Remove and return the lowest set square, or `None` once the set is empty.
    pub fn next(&mut self) -> (r: Option<Square>)
        ensures
            r is None <==> old(self)@ == Set::<int>::empty(),
            r is None ==> *final(self) == *old(self) && listed(old(self)@) == Seq::<
                Square,
            >::empty(),
            r matches Some(sq) ==> {
                &&& sq.valid()
                &&& old(self)@.contains(sq.0 as int)
                &&& final(self)@ == old(self)@.remove(sq.0 as int)
                &&& listed(old(self)@) == seq![sq] + listed(final(self)@)
                &&& listed(old(self)@).len() == listed(final(self)@).len() + 1
            },
    {
        proof {
            lemma_empty();
        }
        if self.0 == 0 {
            proof {
                lemma_listed_empty(self@);
            }
            None
        } else {
            Some(self.pop_lsb())
        }
    }

    /// The set squares, lowest index first.
    pub fn squares(self) -> (r: Vec<Square>)
        ensures
            r@ == listed(self@),
    {
        let mut rest: Bitboard = self;
        let mut out: Vec<Square> = Vec::new();
        while rest.0 != 0
            invariant
                out@ + listed(rest@) == listed(self@),
            decreases listed(rest@).len(),
        {
            let ghost before = rest@;
            let sq: Square = rest.pop_lsb();
            out.push(sq);
            assert(out@ + listed(rest@) =~= out@.drop_last() + listed(before));
        }
        proof {
            lemma_empty();
            lemma_listed_empty(rest@);
        }
        out
    }

    /// The cell of square `i` in a diagram of the set.
    pub open spec fn cell(self, i: int) -> char {
        if self@.contains(i) {
            'X'
        } else {
            '.'
        }
    }

    /// Pretty 8x8 grid with rank 8 on top, like a real board.
    pub fn to_string(&self) -> (r: String)
        ensures
            r@ == text::diagram(Seq::new(64, |i: int| self.cell(i))),
    {
        let mut cells: Vec<char> = Vec::new();
        let mut i: u8 = 0;
        while i < 64
            invariant
                i <= 64,
                cells@ == Seq::new(i as nat, |j: int| self.cell(j)),
            decreases 64 - i,
        {
            cells.push(if self.contains(Square(i)) { 'X' } else { '.' });
            i = i + 1;
            assert(cells@ =~= Seq::new(i as nat, |j: int| self.cell(j)));
        }
        text::draw(cells.as_slice())
    }

    /// The text that `{:?}` prints: the word in 16 hexadecimal digits.
    pub fn debug_string(&self) -> (r: String)
        ensures
            r@ == "Bitboard(0x"@ + text::hexadecimal(self.0 as nat, 16) + ")"@,
    {
        let mut r: String = String::new();
        text::push_text(&mut r, "Bitboard(0x");
        text::push_hexadecimal(&mut r, self.0, 16);
        text::push_text(&mut r, ")");
        assert(r@ =~= "Bitboard(0x"@ + text::hexadecimal(self.0 as nat, 16) + ")"@);
        r
    }

    /// Set the bit for `sq`.
    pub fn set(&mut self, sq: Square)
        requires
            sq.valid(),
        ensures
            final(self)@ == old(self)@.insert(sq.0 as int),
    {
        let r = Bitboard::from_square(sq);
        proof {
            broadcast use group_bitboard;

            assert(Bitboard(self.0 | r.0)@ =~= self@.insert(sq.0 as int));
        }
        self.0 = self.0 | (1u64 << sq.0);
    }

    /// Clear the bit for `sq`.
    pub fn clear(&mut self, sq: Square)
        requires
            sq.valid(),
        ensures
            final(self)@ == old(self)@.remove(sq.0 as int),
    {
        let r = Bitboard::from_square(sq);
        proof {
            broadcast use group_bitboard;

            assert(Bitboard(self.0 & !r.0)@ =~= self@.remove(sq.0 as int));
        }
        self.0 = self.0 & !(1u64 << sq.0);
    }

    /// Shift the whole set one step in a direction, dropping bits that would
    /// wrap around the board edge.
    pub fn shift(self, d: Direction) -> (r: Bitboard)
        ensures
            r@ == Set::new(
                |i: int|
                    geometry::on_board(i) && geometry::valid(
                        geometry::file(i) - d.df(),
                        geometry::rank(i) - d.dr(),
                    ) && self@.contains(
                        geometry::at(geometry::file(i) - d.df(), geometry::rank(i) - d.dr()),
                    ),
            ),
    {
        let b: u64 = self.0;
        let not_a: u64 = !FILE_A_BB;
        let not_h: u64 = !FILE_H_BB;
        let r = Bitboard(
            match d {
                Direction::North => b << 8u64,
                Direction::South => b >> 8u64,
                Direction::East => (b & not_h) << 1u64,
                Direction::West => (b & not_a) >> 1u64,
                Direction::NorthEast => (b & not_h) << 9u64,
                Direction::NorthWest => (b & not_a) << 7u64,
                Direction::SouthEast => (b & not_h) >> 7u64,
                Direction::SouthWest => (b & not_a) >> 9u64,
            },
        );
        proof {
            let e = Set::new(
                |i: int|
                    geometry::on_board(i) && geometry::valid(
                        geometry::file(i) - d.df(),
                        geometry::rank(i) - d.dr(),
                    ) && self@.contains(
                        geometry::at(geometry::file(i) - d.df(), geometry::rank(i) - d.dr()),
                    ),
            );
            assert(0x0101_0101_0101_0101u64 << 7u64 == 0x8080_8080_8080_8080u64) by (bit_vector);
            assert forall|i: int| r@.contains(i) == e.contains(i) by {
                if 0 <= i < 64 {
                    lemma_shifted_bits(b, not_a, not_h, i as u64);
                }
            }
            assert(r@ =~= e);
        }
        r
    }
}

proof fn lemma_shifted_bits(b: u64, na: u64, nh: u64, i: u64)
    by (bit_vector)
    requires
        i < 64,
        na == !0x0101_0101_0101_0101u64,
        nh == !0x8080_8080_8080_8080u64,
    ensures
        ((b << 8u64) >> i) & 1 == 1 <==> i / 8 > 0 && (b >> ((i - 8) as u64)) & 1 == 1,
        ((b >> 8u64) >> i) & 1 == 1 <==> i / 8 < 7 && (b >> ((i + 8) as u64)) & 1 == 1,
        (((b & nh) << 1u64) >> i) & 1 == 1 <==> i % 8 > 0 && (b >> ((i - 1) as u64)) & 1 == 1,
        (((b & na) >> 1u64) >> i) & 1 == 1 <==> i % 8 < 7 && (b >> ((i + 1) as u64)) & 1 == 1,
        (((b & nh) << 9u64) >> i) & 1 == 1 <==> i % 8 > 0 && i / 8 > 0 && (b >> ((i - 9) as u64)) & 1
            == 1,
        (((b & na) << 7u64) >> i) & 1 == 1 <==> i % 8 < 7 && i / 8 > 0 && (b >> ((i - 7) as u64)) & 1
            == 1,
        (((b & nh) >> 7u64) >> i) & 1 == 1 <==> i % 8 > 0 && i / 8 < 7 && (b >> ((i + 7) as u64)) & 1
            == 1,
        (((b & na) >> 9u64) >> i) & 1 == 1 <==> i % 8 < 7 && i / 8 < 7 && (b >> ((i + 9) as u64)) & 1
            == 1,
{
}

// ---------------------------------------------------------------------------
// Rays, and the geometry that checks and pins lean on.
// ---------------------------------------------------------------------------

/// How many king steps `t` is away from `s`.
spec fn distance(s: int, t: int) -> int {
    let f = geometry::file(t) - geometry::file(s);
    let r = geometry::rank(t) - geometry::rank(s);
    let af = if f < 0 { -f } else { f };
    let ar = if r < 0 { -r } else { r };
    if af < ar { ar } else { af }
}

/// Walk the ray from `sq` one step at a time, adding squares until it runs off
/// the board or hits a blocker. The blocker's own square is included.
pub fn ray(sq: Square, d: Direction, occupied: Bitboard) -> (r: Bitboard)
    requires
        sq.valid(),
    ensures
        r@ == Set::new(|t: int| geometry::ray_reaches(d, sq.0 as int, t, occupied@)),
{
    let mut attacks: Bitboard = Bitboard::empty();
    let mut current: Square = sq;
    let ghost s = sq.0 as int;
    let ghost goal = Set::new(|t: int| geometry::ray_reaches(d, s, t, occupied@));
    loop
        invariant_except_break
            current.valid(),
            sq.valid(),
            s == sq.0,
            current != sq ==> geometry::on_ray(d, s, current.0 as int) && !occupied@.contains(
                current.0 as int,
            ),
            forall|x: int| #[trigger]
                attacks@.contains(x) <==> geometry::on_ray(d, s, x) && distance(s, x)
                    <= distance(s, current.0 as int),
            forall|x: int| #[trigger] attacks@.contains(x) ==> !occupied@.contains(x),
            goal == Set::new(|t: int| geometry::ray_reaches(d, s, t, occupied@)),
        ensures
            attacks@ == goal,
        decreases 8 - distance(s, current.0 as int),
    {
        let ghost c = current.0 as int;
        match current.offset(d) {
            None => {
                proof {
                    assert forall|x: int| attacks@.contains(x) == goal.contains(x) by {
                        if geometry::on_ray(d, s, x) {
                            assert(distance(s, x) <= distance(s, c));
                            assert forall|y: int| #[trigger]
                                geometry::between(s, x, y) implies !occupied@.contains(y) by {
                                assert(attacks@.contains(y));
                            }
                        }
                    }
                    assert(attacks@ =~= goal);
                }
                break;
            },
            Some(next) => {
                let ghost n = next.0 as int;
                let ghost before = attacks@;
                attacks.set(next);
                if occupied.contains(next) {
                    // Stop after adding the blocker.
                    proof {
                        assert forall|x: int| attacks@.contains(x) == goal.contains(x) by {
                            if geometry::on_ray(d, s, x) {
                                if distance(s, x) <= distance(s, n) {
                                    assert forall|y: int| #[trigger]
                                        geometry::between(s, x, y) implies !occupied@.contains(
                                        y,
                                    ) by {
                                        assert(before.contains(y));
                                    }
                                } else {
                                    assert(geometry::between(s, x, n));
                                }
                            }
                        }
                        assert(attacks@ =~= goal);
                    }
                    break;
                }
                current = next;
            },
        }
    }
    attacks
}

/// The direction pointing the opposite way along the same axis.
fn opposite_dir(d: Direction) -> (r: Direction)
    ensures
        r.df() == -d.df(),
        r.dr() == -d.dr(),
{
    match d {
        Direction::North => Direction::South,
        Direction::South => Direction::North,
        Direction::East => Direction::West,
        Direction::West => Direction::East,
        Direction::NorthEast => Direction::SouthWest,
        Direction::NorthWest => Direction::SouthEast,
        Direction::SouthEast => Direction::NorthWest,
        Direction::SouthWest => Direction::NorthEast,
    }
}

/// The direction of the ray from `a` through `b`, if they are aligned.
fn direction_to(a: Square, b: Square) -> (r: Option<Direction>)
    requires
        a.valid(),
        b.valid(),
    ensures
        r is Some <==> geometry::aligned(a.0 as int, b.0 as int),
        r matches Some(d) ==> geometry::on_ray(d, a.0 as int, b.0 as int),
{
    let f: i8 = b.file() as i8 - a.file() as i8;
    let r: i8 = b.rank() as i8 - a.rank() as i8;
    if f == 0 && r > 0 {
        Some(Direction::North)
    } else if f == 0 && r < 0 {
        Some(Direction::South)
    } else if r == 0 && f > 0 {
        Some(Direction::East)
    } else if r == 0 && f < 0 {
        Some(Direction::West)
    } else if f == r && f > 0 {
        Some(Direction::NorthEast)
    } else if f == r && f < 0 {
        Some(Direction::SouthWest)
    } else if f == -r && f > 0 {
        Some(Direction::SouthEast)
    } else if f == -r && f < 0 {
        Some(Direction::NorthWest)
    } else {
        None
    }
}

/// The squares strictly between `a` and `b` on their shared rank, file or
/// diagonal.
///
/// Empty if `a` and `b` are not aligned, are the same square, or are adjacent.
pub fn between(a: Square, b: Square) -> (r: Bitboard)
    requires
        a.valid(),
        b.valid(),
    ensures
        r@ == Set::new(|x: int| geometry::between(a.0 as int, b.0 as int, x)),
{
    broadcast use group_bitboard;

    let ghost s = a.0 as int;
    let ghost t = b.0 as int;
    let ghost goal = Set::new(|x: int| geometry::between(s, t, x));
    match direction_to(a, b) {
        Some(d) => {
            let stop: Bitboard = Bitboard::from_square(b);
            let mut path: Bitboard = ray(a, d, stop);
            proof {
                assert forall|x: int| path@.remove(t).contains(x) == goal.contains(x) by {
                    if geometry::between(s, t, x) {
                        assert(geometry::on_ray(d, s, x));
                        assert forall|y: int| #[trigger]
                            geometry::between(s, x, y) implies !stop@.contains(y) by {}
                    }
                    if path@.remove(t).contains(x) && !geometry::between(s, t, x) {
                        assert(geometry::between(s, x, t));
                    }
                }
                assert(path@.remove(t) =~= goal);
            }
            path.clear(b);
            path
        },
        None => {
            let path: Bitboard = Bitboard::empty();
            assert(path@ =~= goal);
            path
        },
    }
}

/// The full line through `a` and `b`, extended to both board edges and including
/// both endpoints. Empty if `a` and `b` share no rank, file or diagonal.
pub fn line(a: Square, b: Square) -> (r: Bitboard)
    requires
        a.valid(),
        b.valid(),
    ensures
        r@ == Set::new(|x: int| geometry::on_line(a.0 as int, b.0 as int, x)),
{
    broadcast use group_bitboard;

    let ghost s = a.0 as int;
    let ghost t = b.0 as int;
    let ghost goal = Set::new(|x: int| geometry::on_line(s, t, x));
    match direction_to(a, b) {
        Some(d) => {
            let o: Direction = opposite_dir(d);
            let free: Bitboard = Bitboard::empty();
            let ahead: Bitboard = ray(a, d, free);
            let behind: Bitboard = ray(a, o, free);
            let mut full: Bitboard = ahead | behind;
            full.set(a);
            proof {
                assert forall|x: int| full@.contains(x) == goal.contains(x) by {
                    assert(geometry::clear(s, x, free@));
                    assert(ahead@.contains(x) == geometry::on_ray(d, s, x));
                    assert(behind@.contains(x) == geometry::on_ray(o, s, x));
                }
                assert(full@ =~= goal);
            }
            full
        },
        None => {
            let full: Bitboard = Bitboard::empty();
            assert(full@ =~= goal);
            full
        },
    }
}

/// Lookup tables for [`between`] and [`line`], one entry per ordered pair of
/// squares.
pub struct LineTables {
    between: Vec<[Bitboard; 64]>,
    line: Vec<[Bitboard; 64]>,
}

impl LineTables {
    /// Every entry holds what the table is for.
    pub closed spec fn wf(&self) -> bool {
        &&& self.between@.len() == 64
        &&& self.line@.len() == 64
        &&& forall|a: int, b: int|
            #![trigger self.between@[a][b]]
            geometry::on_board(a) && geometry::on_board(b) ==> self.between@[a][b]@ == Set::new(
                |x: int| geometry::between(a, b, x),
            )
        &&& forall|a: int, b: int|
            #![trigger self.line@[a][b]]
            geometry::on_board(a) && geometry::on_board(b) ==> self.line@[a][b]@ == Set::new(
                |x: int| geometry::on_line(a, b, x),
            )
    }

    /// Look up [`between`].
    pub fn between(&self, a: Square, b: Square) -> (r: Bitboard)
        requires
            self.wf(),
            a.valid(),
            b.valid(),
        ensures
            r@ == Set::new(|x: int| geometry::between(a.0 as int, b.0 as int, x)),
    {
        self.between[a.index()][b.index()]
    }

    /// Look up [`line`].
    pub fn line(&self, a: Square, b: Square) -> (r: Bitboard)
        requires
            self.wf(),
            a.valid(),
            b.valid(),
        ensures
            r@ == Set::new(|x: int| geometry::on_line(a.0 as int, b.0 as int, x)),
    {
        self.line[a.index()][b.index()]
    }
}

/// Build the between and line tables.
pub fn init() -> (r: LineTables)
    ensures
        r.wf(),
{
    let mut all_between: Vec<[Bitboard; 64]> = Vec::new();
    let mut all_line: Vec<[Bitboard; 64]> = Vec::new();
    let mut i: u8 = 0;
    while i < 64
        invariant
            0 <= i <= 64,
            all_between@.len() == i,
            all_line@.len() == i,
            forall|a: int, b: int|
                #![trigger all_between@[a][b]]
                0 <= a < i && geometry::on_board(b) ==> all_between@[a][b]@ == Set::new(
                    |x: int| geometry::between(a, b, x),
                ),
            forall|a: int, b: int|
                #![trigger all_line@[a][b]]
                0 <= a < i && geometry::on_board(b) ==> all_line@[a][b]@ == Set::new(
                    |x: int| geometry::on_line(a, b, x),
                ),
        decreases 64 - i,
    {
        let mut row_between: [Bitboard; 64] = [Bitboard(0);64];
        let mut row_line: [Bitboard; 64] = [Bitboard(0);64];
        let mut j: u8 = 0;
        while j < 64
            invariant
                0 <= i < 64,
                0 <= j <= 64,
                forall|b: int|
                    #![trigger row_between@[b]]
                    0 <= b < j ==> row_between@[b]@ == Set::new(
                        |x: int| geometry::between(i as int, b, x),
                    ),
                forall|b: int|
                    #![trigger row_line@[b]]
                    0 <= b < j ==> row_line@[b]@ == Set::new(
                        |x: int| geometry::on_line(i as int, b, x),
                    ),
            decreases 64 - j,
        {
            row_between[j as usize] = between(Square(i), Square(j));
            row_line[j as usize] = line(Square(i), Square(j));
            j = j + 1;
        }
        all_between.push(row_between);
        all_line.push(row_line);
        i = i + 1;
    }
    LineTables { between: all_between, line: all_line }
}

/// Prints [`Bitboard::debug_string`].
impl core::fmt::Debug for Bitboard {
    fn fmt(&self, f: &mut core::fmt::Formatter<'_>) -> (r: Result<(), core::fmt::Error>) {
        f.write_str(self.debug_string().as_str())
    }
}

// ---------------------------------------------------------------------------
// Bitwise operators, so bitboards read like set algebra.
// ---------------------------------------------------------------------------

impl BitAnd for Bitboard {
    type Output = Bitboard;

    fn bitand(self, rhs: Bitboard) -> (r: Bitboard) {
        Bitboard(self.0 & rhs.0)
    }
}

impl vstd::std_specs::ops::BitAndSpecImpl for Bitboard {
    open spec fn obeys_bitand_spec() -> bool {
        true
    }

    open spec fn bitand_req(self, rhs: Bitboard) -> bool {
        true
    }

    open spec fn bitand_spec(self, rhs: Bitboard) -> Bitboard {
        Bitboard(self.0 & rhs.0)
    }
}

impl BitOr for Bitboard {
    type Output = Bitboard;

    fn bitor(self, rhs: Bitboard) -> (r: Bitboard) {
        Bitboard(self.0 | rhs.0)
    }
}

impl vstd::std_specs::ops::BitOrSpecImpl for Bitboard {
    open spec fn obeys_bitor_spec() -> bool {
        true
    }

    open spec fn bitor_req(self, rhs: Bitboard) -> bool {
        true
    }

    open spec fn bitor_spec(self, rhs: Bitboard) -> Bitboard {
        Bitboard(self.0 | rhs.0)
    }
}

impl BitXor for Bitboard {
    type Output = Bitboard;

    fn bitxor(self, rhs: Bitboard) -> (r: Bitboard) {
        Bitboard(self.0 ^ rhs.0)
    }
}

impl vstd::std_specs::ops::BitXorSpecImpl for Bitboard {
    open spec fn obeys_bitxor_spec() -> bool {
        true
    }

    open spec fn bitxor_req(self, rhs: Bitboard) -> bool {
        true
    }

    open spec fn bitxor_spec(self, rhs: Bitboard) -> Bitboard {
        Bitboard(self.0 ^ rhs.0)
    }
}

impl Not for Bitboard {
    type Output = Bitboard;

    fn not(self) -> (r: Bitboard) {
        Bitboard(!self.0)
    }
}

impl vstd::std_specs::ops::NotSpecImpl for Bitboard {
    open spec fn obeys_not_spec() -> bool {
        true
    }

    open spec fn not_req(self) -> bool {
        true
    }

    open spec fn not_spec(self) -> Bitboard {
        Bitboard(!self.0)
    }
}

impl Shl<u32> for Bitboard {
    type Output = Bitboard;

    fn shl(self, rhs: u32) -> (r: Bitboard) {
        Bitboard(self.0 << rhs)
    }
}

impl vstd::std_specs::ops::ShlSpecImpl<u32> for Bitboard {
    open spec fn obeys_shl_spec() -> bool {
        true
    }

    open spec fn shl_req(self, rhs: u32) -> bool {
        rhs < 64
    }

    open spec fn shl_spec(self, rhs: u32) -> Bitboard {
        Bitboard(self.0 << rhs)
    }
}

impl Shr<u32> for Bitboard {
    type Output = Bitboard;

    fn shr(self, rhs: u32) -> (r: Bitboard) {
        Bitboard(self.0 >> rhs)
    }
}

impl vstd::std_specs::ops::ShrSpecImpl<u32> for Bitboard {
    open spec fn obeys_shr_spec() -> bool {
        true
    }

    open spec fn shr_req(self, rhs: u32) -> bool {
        rhs < 64
    }

    open spec fn shr_spec(self, rhs: u32) -> Bitboard {
        Bitboard(self.0 >> rhs)
    }
}

impl BitAndAssign for Bitboard {
    fn bitand_assign(&mut self, rhs: Bitboard)
        ensures
            final(self).0 == old(self).0 & rhs.0,
    {
        self.0 = self.0 & rhs.0;
    }
}

impl BitOrAssign for Bitboard {
    fn bitor_assign(&mut self, rhs: Bitboard)
        ensures
            final(self).0 == old(self).0 | rhs.0,
    {
        self.0 = self.0 | rhs.0;
    }
}

impl BitXorAssign for Bitboard {
    fn bitxor_assign(&mut self, rhs: Bitboard)
        ensures
            final(self).0 == old(self).0 ^ rhs.0,
    {
        self.0 = self.0 ^ rhs.0;
    }
}

/// Combine a square with a bitboard via `|`.
impl BitOr<Square> for Bitboard {
    type Output = Bitboard;

    fn bitor(self, sq: Square) -> (r: Bitboard) {
        self | Bitboard::from_square(sq)
    }
}

impl vstd::std_specs::ops::BitOrSpecImpl<Square> for Bitboard {
    open spec fn obeys_bitor_spec() -> bool {
        true
    }

    open spec fn bitor_req(self, sq: Square) -> bool {
        sq.valid()
    }

    open spec fn bitor_spec(self, sq: Square) -> Bitboard {
        Bitboard(self.0 | (1u64 << sq.0))
    }
}

} // verus!
