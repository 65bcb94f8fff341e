//! Magic bitboards: slider attacks by table lookup.
//!
//! For each square the relevant occupancy bits are masked off and hashed with a
//! multiplier into a dense index of one flat table. The multipliers are found by
//! trial and error; a square for which the search gives up is answered by the
//! ray walker instead, so a table is right on every square.

use vstd::prelude::*;
use vstd::arithmetic::power2;
use vstd::bits;
use crate::attacks;
use crate::bitboard;
use crate::bitboard::Bitboard;
use crate::geometry;
use crate::types::{Direction, Square};

verus! {

broadcast use bitboard::group_bitboard;

/// The state that the candidate generator starts from.
pub const SEED: u64 = 0x1234_5678_9abc_def0;

/// How many candidates the search tries per square before it gives up.
pub const MAX_TRIES: u32 = 1_000_000_000;

/// The widest occupancy mask a square gets a table for.
pub const MAX_MASK_BITS: u32 = 16;

// ---------------------------------------------------------------------------
// The relevant-occupancy mask.
// ---------------------------------------------------------------------------

/// Squares that no ray from `s` passes through to a further square.
pub open spec fn edge_square(s: int, x: int) -> bool {
    ||| geometry::file(x) == 0 && geometry::file(s) != 0
    ||| geometry::file(x) == 7 && geometry::file(s) != 7
    ||| geometry::rank(x) == 0 && geometry::rank(s) != 0
    ||| geometry::rank(x) == 7 && geometry::rank(s) != 7
}

/// The squares along the given rays from `s`, without the board edges.
pub open spec fn mask_set(dirs: Seq<Direction>, s: int) -> Set<int> {
    Set::new(
        |x: int|
            attacks::slider_set(dirs, s, Set::empty()).contains(x) && !edge_square(s, x),
    )
}

/// What a slider attacks depends only on the occupancy inside its mask.
pub proof fn lemma_mask_suffices(dirs: Seq<Direction>, s: int, occ: Set<int>)
    requires
        geometry::on_board(s),
    ensures
        attacks::slider_set(dirs, s, occ) == attacks::slider_set(
            dirs,
            s,
            occ.intersect(mask_set(dirs, s)),
        ),
{
    let part = occ.intersect(mask_set(dirs, s));
    assert forall|t: int| attacks::slider_set(dirs, s, occ).contains(t) == attacks::slider_set(
        dirs,
        s,
        part,
    ).contains(t) by {
        assert forall|k: int| 0 <= k < dirs.len() implies geometry::ray_reaches(
            dirs[k],
            s,
            t,
            occ,
        ) == #[trigger] geometry::ray_reaches(dirs[k], s, t, part) by {
            let d = dirs[k];
            if geometry::on_ray(d, s, t) {
                assert forall|x: int| #[trigger] geometry::between(s, t, x) implies mask_set(
                    dirs,
                    s,
                ).contains(x) by {
                    assert(geometry::on_ray(d, s, x));
                    assert(geometry::ray_reaches(dirs[k], s, x, Set::empty()));
                }
                if geometry::clear(s, t, part) {
                    assert forall|x: int| #[trigger] geometry::between(s, t, x) implies !occ.contains(
                        x,
                    ) by {
                        assert(mask_set(dirs, s).contains(x));
                        assert(!part.contains(x));
                    }
                }
                if geometry::clear(s, t, occ) {
                    assert forall|x: int| #[trigger]
                        geometry::between(s, t, x) implies !part.contains(x) by {}
                }
            }
        }
        if attacks::slider_set(dirs, s, occ).contains(t) {
            let k = choose|k: int|
                0 <= k < dirs.len() && #[trigger] geometry::ray_reaches(dirs[k], s, t, occ);
            assert(geometry::ray_reaches(dirs[k], s, t, part));
        }
        if attacks::slider_set(dirs, s, part).contains(t) {
            let k = choose|k: int|
                0 <= k < dirs.len() && #[trigger] geometry::ray_reaches(dirs[k], s, t, part);
            assert(geometry::ray_reaches(dirs[k], s, t, occ));
        }
    }
    assert(attacks::slider_set(dirs, s, occ) =~= attacks::slider_set(dirs, s, part));
}

/// The relevant-occupancy mask for a slider on `sq`: every square along its rays
/// excluding the board edges. Edge squares never change what lies beyond them,
/// so leaving them out shrinks the index space.
pub fn slider_mask(sq: Square, directions: &[Direction]) -> (r: Bitboard)
    requires
        sq.valid(),
    ensures
        r@ == mask_set(directions@, sq.0 as int),
{
    let file_a: Bitboard = Bitboard::file_bb(Square(Square::A1));
    let file_h: Bitboard = Bitboard::file_bb(Square(Square::H1));
    let rank_1: Bitboard = Bitboard::rank_bb(Square(Square::A1));
    let rank_8: Bitboard = Bitboard::rank_bb(Square(Square::A8));
    // The piece's own edge lines stay relevant.
    let own_file: Bitboard = Bitboard::file_bb(sq);
    let own_rank: Bitboard = Bitboard::rank_bb(sq);
    let other_files: Bitboard = Bitboard(!own_file.0);
    let other_ranks: Bitboard = Bitboard(!own_rank.0);
    let edges: Bitboard = (file_a & other_files) | (file_h & other_files) | (rank_1 & other_ranks)
        | (rank_8 & other_ranks);
    let reach: Bitboard = attacks::slow_sliding_attacks(sq, Bitboard::empty(), directions);
    let inner: Bitboard = Bitboard(!edges.0);
    let mask: Bitboard = reach & inner;
    assert(mask@ =~= mask_set(directions@, sq.0 as int));
    mask
}

// ---------------------------------------------------------------------------
// Enumerating the subsets of a mask.
// ---------------------------------------------------------------------------

/// The subset of the first `n` listed squares that the low bits of `index` select.
pub open spec fn subset(index: u64, squares: Seq<Square>, n: int) -> Set<int> {
    Set::new(
        |x: int|
            exists|j: int|
                0 <= j < n && (#[trigger] squares[j]).0 == x && bitboard::bit(index, j),
    )
}

/// Enumerate the occupancy subsets of a mask: bit `j` of `index` is the on/off
/// state of the `j`-th square of the mask.
pub fn occupancy_for_index(index: u64, mask: Bitboard) -> (r: Bitboard)
    ensures
        r@ == subset(index, bitboard::listed(mask@), bitboard::listed(mask@).len() as int),
{
    let mut result: Bitboard = Bitboard::empty();
    let squares: Vec<Square> = mask.squares();
    let mut j: usize = 0;
    proof {
        bitboard::lemma_ascending(mask@, 64);
    }
    assert(result@ =~= subset(index, squares@, 0));
    while j < squares.len()
        invariant
            squares@ == bitboard::listed(mask@),
            squares@.len() <= 64,
            j <= squares@.len(),
            forall|k: int| 0 <= k < squares@.len() ==> (#[trigger] squares@[k]).valid(),
            result@ == subset(index, squares@, j as int),
        decreases squares@.len() - j,
    {
        let ghost before = result@;
        let chosen: bool = Bitboard(index).contains(Square(j as u8));
        if chosen {
            result.set(squares[j]);
        }
        proof {
            assert(chosen == bitboard::bit(index, j as int));
            assert forall|x: int| result@.contains(x) == subset(index, squares@, j + 1).contains(
                x,
            ) by {
                if before.contains(x) {
                    let k = choose|k: int|
                        0 <= k < j && (#[trigger] squares@[k]).0 == x && bitboard::bit(index, k);
                    assert(squares@[k].0 == x);
                }
                if subset(index, squares@, j + 1).contains(x) {
                    let k = choose|k: int|
                        0 <= k < j + 1 && (#[trigger] squares@[k]).0 == x && bitboard::bit(
                            index,
                            k,
                        );
                    if k < j {
                        assert(before.contains(x));
                    }
                }
                if chosen && x == squares@[j as int].0 {
                    assert(squares@[j as int].0 == x);
                }
            }
            assert(result@ =~= subset(index, squares@, j + 1));
        }
        j = j + 1;
    }
    result
}

/// The index that selects the squares of `occ`.
spec fn index_of(occ: Set<int>, squares: Seq<Square>, n: int) -> u64
    decreases n,
{
    if n <= 0 {
        0
    } else if occ.contains(squares[n - 1].0 as int) {
        index_of(occ, squares, n - 1) | (1u64 << ((n - 1) as u64))
    } else {
        index_of(occ, squares, n - 1)
    }
}

proof fn lemma_set_bit(x: u64, k: u64, j: u64)
    by (bit_vector)
    requires
        k < 63,
        j < 64,
        x < (1u64 << k),
    ensures
        x | (1u64 << k) < (1u64 << ((k + 1) as u64)),
        x < (1u64 << ((k + 1) as u64)),
        ((x | (1u64 << k)) >> j) & 1 == 1 <==> (x >> j) & 1 == 1 || j == k,
        (x >> k) & 1 != 1,
{
}

proof fn lemma_index_of(occ: Set<int>, squares: Seq<Square>, n: int)
    requires
        0 <= n <= squares.len(),
        n <= 62,
    ensures
        index_of(occ, squares, n) < (1u64 << (n as u64)),
        forall|j: int|
            #![trigger bitboard::bit(index_of(occ, squares, n), j)]
            0 <= j < n ==> (bitboard::bit(index_of(occ, squares, n), j) <==> occ.contains(
                squares[j].0 as int,
            )),
    decreases n,
{
    if n == 0 {
        assert(0u64 < (1u64 << 0u64)) by (bit_vector);
    } else {
        lemma_index_of(occ, squares, n - 1);
        let x: u64 = index_of(occ, squares, n - 1);
        let k: u64 = (n - 1) as u64;
        lemma_set_bit(x, k, 0);
        assert forall|j: int|
            #![trigger bitboard::bit(index_of(occ, squares, n), j)]
            0 <= j < n implies (bitboard::bit(index_of(occ, squares, n), j) <==> occ.contains(
            squares[j].0 as int,
        )) by {
            lemma_set_bit(x, k, j as u64);
            if j < n - 1 {
                assert(bitboard::bit(x, j) <==> occ.contains(squares[j].0 as int));
            }
        }
    }
}

/// Every subset of a mask has an index.
pub proof fn lemma_subset_index(occ: Set<int>, mask: Set<int>) -> (index: u64)
    requires
        bitboard::listed(mask).len() <= 62,
        forall|x: int| #[trigger] mask.contains(x) ==> geometry::on_board(x),
    ensures
        index < (1u64 << (bitboard::listed(mask).len() as u64)),
        subset(index, bitboard::listed(mask), bitboard::listed(mask).len() as int)
            == occ.intersect(mask),
{
    let squares = bitboard::listed(mask);
    let n = squares.len() as int;
    lemma_index_of(occ, squares, n);
    bitboard::lemma_ascending(mask, 64);
    let index = index_of(occ, squares, n);
    assert forall|x: int| subset(index, squares, n).contains(x) == occ.intersect(mask).contains(
        x,
    ) by {
        if occ.intersect(mask).contains(x) {
            assert(geometry::on_board(x));
            assert(squares.contains(Square(x as u8)));
            let j = choose|j: int| 0 <= j < squares.len() && squares[j] == Square(x as u8);
            assert(squares[j].0 == x && bitboard::bit(index, j));
        }
        if subset(index, squares, n).contains(x) {
            let j = choose|j: int|
                0 <= j < n && (#[trigger] squares[j]).0 == x && bitboard::bit(index, j);
            assert(occ.contains(squares[j].0 as int));
        }
    }
    assert(subset(index, squares, n) =~= occ.intersect(mask));
    index
}

// ---------------------------------------------------------------------------
// The pseudo-random candidates.
// ---------------------------------------------------------------------------

/// A tiny deterministic generator (xorshift64). A fixed seed gives reproducible
/// multipliers.
pub struct XorShift64(pub u64);

/// One step of the generator.
pub open spec fn xorshift(x: u64) -> u64 {
    let a = x ^ (x << 13u64);
    let b = a ^ (a >> 7u64);
    b ^ (b << 17u64)
}

impl XorShift64 {
    /// The next number.
    pub fn next(&mut self) -> (r: u64)
        ensures
            r == xorshift(old(self).0),
            final(self).0 == r,
    {
        let mut x: u64 = self.0;
        x = x ^ (x << 13u64);
        x = x ^ (x >> 7u64);
        x = x ^ (x << 17u64);
        self.0 = x;
        x
    }

    /// Candidates work best with few set bits, so AND three draws together.
    pub fn sparse(&mut self) -> (r: u64)
        ensures
            ({
                let a = xorshift(old(self).0);
                let b = xorshift(a);
                let c = xorshift(b);
                r == a & b & c && final(self).0 == c
            }),
    {
        let a: u64 = self.next();
        let b: u64 = self.next();
        let c: u64 = self.next();
        a & b & c
    }
}

// ---------------------------------------------------------------------------
// The table.
// ---------------------------------------------------------------------------

/// Per-square descriptor. The attacks are found at
/// `(((occupied & mask) * magic) >> shift) + offset` of the shared attack table.
#[derive(Clone, Copy)]
struct Magic {
    mask: Bitboard,
    magic: u64,
    shift: u32,
    offset: usize,
}

/// The hashed index of an occupancy inside the mask.
pub open spec fn hashed(occ: u64, magic: u64, shift: u32) -> u64 {
    occ.wrapping_mul(magic) >> shift
}

impl Magic {
    /// The table slot of an occupancy.
    spec fn slot(self, occupied: u64) -> int {
        hashed(occupied & self.mask.0, self.magic, self.shift) + self.offset
    }

    fn index(&self, occupied: Bitboard) -> (r: usize)
        requires
            self.shift < 64,
            self.slot(occupied.0) < usize::MAX,
        ensures
            r == self.slot(occupied.0),
    {
        let relevant: u64 = occupied.0 & self.mask.0;
        (relevant.wrapping_mul(self.magic) >> self.shift) as usize + self.offset
    }
}

/// Everything needed to answer slider queries: the flat attack table plus the
/// per-square descriptors, built once for a given ray set.
pub struct SliderTable {
    magics: [Option<Magic>; 64],
    attacks: Vec<Bitboard>,
    directions: Vec<Direction>,
}

/// The descriptor answers every query on square `s`.
spec fn answers(m: Magic, table: Seq<Bitboard>, dirs: Seq<Direction>, s: int) -> bool {
    &&& m.shift < 64
    &&& forall|occ: u64|
        #![trigger m.slot(occ)]
        0 <= m.slot(occ) < table.len() && table[m.slot(occ)]@ == attacks::slider_set(
            dirs,
            s,
            Bitboard(occ)@,
        )
}

impl SliderTable {
    /// The rays that the table is about.
    pub closed spec fn dirs(&self) -> Seq<Direction> {
        self.directions@
    }

    /// The length of the attack table.
    pub closed spec fn slots(&self) -> nat {
        self.attacks@.len()
    }

    /// The multiplier by which queries on square `s` are looked up, if they are.
    pub closed spec fn multiplier_at(&self, s: int) -> Option<u64> {
        match self.magics@[s] {
            Some(m) => Some(m.magic),
            None => None,
        }
    }

    /// The table is what the search gives: it has a slot for every subset of every
    /// mask, and each square has the multiplier found for it.
    pub open spec fn filled(&self) -> bool {
        &&& self.slots() == slots_before(self.dirs(), 64)
        &&& forall|s: int|
            #![trigger self.multiplier_at(s)]
            0 <= s < 64 ==> self.multiplier_at(s) == multiplier_of(self.dirs(), s)
    }

    /// Every descriptor answers every query on its square.
    pub closed spec fn wf(&self) -> bool {
        forall|s: int|
            #![trigger self.magics@[s]]
            0 <= s < 64 ==> (self.magics@[s] matches Some(m) ==> answers(
                m,
                self.attacks@,
                self.directions@,
                s,
            ))
    }

    /// The multiplier found for `sq`.
    pub fn multiplier(&self, sq: Square) -> (r: Option<u64>)
        requires
            sq.valid(),
        ensures
            r == self.multiplier_at(sq.0 as int),
    {
        match self.magics[sq.index()] {
            Some(m) => Some(m.magic),
            None => None,
        }
    }

    /// Look up the attacks of the slider on `sq`.
    pub fn attacks(&self, sq: Square, occupied: Bitboard) -> (r: Bitboard)
        requires
            self.wf(),
            sq.valid(),
        ensures
            r@ == attacks::slider_set(self.dirs(), sq.0 as int, occupied@),
    {
        match self.magics[sq.index()] {
            Some(m) => {
                proof {
                    assert(answers(m, self.attacks@, self.directions@, sq.0 as int));
                    assert(0 <= m.slot(occupied.0) < self.attacks.len());
                    assert(Bitboard(occupied.0) == occupied);
                }
                self.attacks[m.index(occupied)]
            },
            None => attacks::slow_sliding_attacks(sq, occupied, self.directions.as_slice()),
        }
    }
}

/// A longer table that agrees on the old slots answers the same queries.
proof fn lemma_answers_stable(
    m: Magic,
    table: Seq<Bitboard>,
    longer: Seq<Bitboard>,
    dirs: Seq<Direction>,
    s: int,
)
    requires
        answers(m, table, dirs, s),
        table.len() <= longer.len(),
        forall|i: int| 0 <= i < table.len() ==> table[i] == #[trigger] longer[i],
    ensures
        answers(m, longer, dirs, s),
{
    assert forall|occ: u64|
        #![trigger m.slot(occ)]
        0 <= m.slot(occ) < longer.len() && longer[m.slot(occ)]@ == attacks::slider_set(
            dirs,
            s,
            Bitboard(occ)@,
        ) by {
        assert(table[m.slot(occ)] == longer[m.slot(occ)]);
    }
}

proof fn lemma_hashed_bound(x: u64, n: u32, shift: u32)
    by (bit_vector)
    requires
        1 <= n <= 16,
        shift + n == 64,
    ensures
        x >> shift < 1u64 << n,
        1u64 << n <= 65536,
        1u64 << n >= 1,
{
}

/// The multiplier sends no two occupancies with different attack sets to the
/// same slot.
pub open spec fn separates(
    magic: u64,
    shift: u32,
    occupancies: Seq<Bitboard>,
    references: Seq<Bitboard>,
) -> bool {
    forall|i: int, j: int|
        #![trigger occupancies[i], occupancies[j]]
        0 <= i < occupancies.len() && 0 <= j < occupancies.len() && hashed(
            occupancies[i].0,
            magic,
            shift,
        ) == hashed(occupancies[j].0, magic, shift) ==> references[i] == references[j]
}

/// Slot `h` was claimed by an occupancy with the attack set `entry`.
spec fn claimed(
    h: int,
    entry: Bitboard,
    magic: u64,
    shift: u32,
    occupancies: Seq<Bitboard>,
    references: Seq<Bitboard>,
) -> bool {
    exists|j: int|
        #![trigger occupancies[j]]
        0 <= j < occupancies.len() && hashed(occupancies[j].0, magic, shift) == h && references[j]
            == entry
}

/// Try one multiplier: write the attack set of every occupancy to its slot,
/// allowing two occupancies to share a slot only if they share the attack set.
///
/// `used[i]` marks which epoch last wrote slot `i`, so that destructive
/// collisions are detected without clearing the table for each attempt.
fn try_magic(
    magic: u64,
    shift: u32,
    occupancies: &Vec<Bitboard>,
    references: &Vec<Bitboard>,
    offset: usize,
    used: &mut Vec<u32>,
    epoch: u32,
    table: &mut Vec<Bitboard>,
) -> (r: bool)
    requires
        shift < 64,
        references@.len() == occupancies@.len(),
        old(used)@.len() == occupancies@.len(),
        old(table)@.len() == offset + occupancies@.len(),
        forall|x: u64| #[trigger] (x >> shift) < occupancies@.len(),
        forall|i: int| 0 <= i < old(used)@.len() ==> #[trigger] old(used)@[i] < epoch,
    ensures
        final(used)@.len() == old(used)@.len(),
        forall|i: int| 0 <= i < final(used)@.len() ==> #[trigger] final(used)@[i] <= epoch,
        final(table)@.len() == old(table)@.len(),
        forall|i: int| 0 <= i < offset ==> #[trigger] final(table)@[i] == old(table)@[i],
        r == separates(magic, shift, occupancies@, references@),
        r ==> forall|i: int|
            #![trigger occupancies@[i]]
            0 <= i < occupancies@.len() ==> final(table)@[offset + hashed(
                occupancies@[i].0,
                magic,
                shift,
            )] == references@[i],
{
    let mut i: usize = 0;
    while i < occupancies.len()
        invariant
            shift < 64,
            i <= occupancies@.len(),
            references@.len() == occupancies@.len(),
            used@.len() == occupancies@.len(),
            table@.len() == offset + occupancies@.len(),
            used@.len() == old(used)@.len(),
            table@.len() == old(table)@.len(),
            forall|x: u64| #[trigger] (x >> shift) < occupancies@.len(),
            forall|j: int| 0 <= j < used@.len() ==> #[trigger] used@[j] <= epoch,
            forall|j: int| 0 <= j < offset ==> #[trigger] table@[j] == old(table)@[j],
            forall|j: int|
                #![trigger occupancies@[j]]
                0 <= j < i ==> {
                    let h = hashed(occupancies@[j].0, magic, shift);
                    used@[h as int] == epoch && table@[offset + h] == references@[j]
                },
            forall|h: int|
                #![trigger used@[h]]
                0 <= h < used@.len() && used@[h] == epoch ==> claimed(
                    h,
                    table@[offset + h],
                    magic,
                    shift,
                    occupancies@.take(i as int),
                    references@,
                ),
        decreases occupancies@.len() - i,
    {
        let product: u64 = occupancies[i].0.wrapping_mul(magic);
        let slot: usize = (product >> shift) as usize;
        let ghost h = hashed(occupancies@[i as int].0, magic, shift);
        proof {
            assert(product >> shift < occupancies@.len());
            assert(slot == h);
            assert(table.len() == offset + occupancies@.len());
        }
        if used[slot] != epoch {
            // First use in this attempt: claim the slot.
            let ghost used_before = used@;
            let ghost table_before = table@;
            used[slot] = epoch;
            table[offset + slot] = references[i];
            proof {
                assert forall|j: int|
                    #![trigger occupancies@[j]]
                    0 <= j < i + 1 implies ({
                    let g = hashed(occupancies@[j].0, magic, shift);
                    used@[g as int] == epoch && table@[offset + g] == references@[j]
                }) by {
                    let g = hashed(occupancies@[j].0, magic, shift);
                    assert(occupancies@[j].0.wrapping_mul(magic) >> shift < occupancies@.len());
                    if j < i {
                        assert(used_before[g as int] == epoch);
                        assert(g != slot);
                        assert(table_before[offset + g] == references@[j]);
                    }
                }
            }
        } else if table[offset + slot] != references[i] {
            // Destructive collision: two different attack sets clash.
            proof {
                let seen = occupancies@.take(i as int);
                assert(used@[h as int] == epoch);
                let j = choose|j: int|
                    #![trigger seen[j]]
                    0 <= j < seen.len() && hashed(seen[j].0, magic, shift) == h && references@[j]
                        == table@[offset + h];
                assert(seen[j] == occupancies@[j]);
                assert(references@[j] != references@[i as int]);
            }
            return false;
        }
        proof {
            let seen = occupancies@.take(i as int);
            let more = occupancies@.take(i + 1);
            assert forall|g: int|
                #![trigger used@[g]]
                0 <= g < used@.len() && used@[g] == epoch implies claimed(
                g,
                table@[offset + g],
                magic,
                shift,
                more,
                references@,
            ) by {
                if g == slot {
                    assert(more[i as int] == occupancies@[i as int]);
                    assert(references@[i as int] == table@[offset + g]);
                } else {
                    let j = choose|j: int|
                        #![trigger seen[j]]
                        0 <= j < seen.len() && hashed(seen[j].0, magic, shift) == g
                            && references@[j] == table@[offset + g];
                    assert(more[j] == seen[j]);
                }
            }
        }
        i = i + 1;
    }
    true
}

/// The state of the generator after `k` candidates.
pub open spec fn drawn(seed: u64, k: nat) -> u64
    decreases k,
{
    if k == 0 {
        seed
    } else {
        xorshift(xorshift(xorshift(drawn(seed, (k - 1) as nat))))
    }
}

/// The candidate that follows `k` others.
pub open spec fn candidate(seed: u64, k: nat) -> u64 {
    let x = drawn(seed, k);
    xorshift(x) & xorshift(xorshift(x)) & xorshift(xorshift(xorshift(x)))
}

/// The candidate populates the high bits and separates the attack sets.
pub open spec fn suits(
    magic: u64,
    mask: Bitboard,
    shift: u32,
    occupancies: Seq<Bitboard>,
    references: Seq<Bitboard>,
) -> bool {
    &&& Bitboard(mask.0.wrapping_mul(magic) >> 56u64)@.len() >= 6
    &&& separates(magic, shift, occupancies, references)
}

// ---------------------------------------------------------------------------
// What the search finds.
// ---------------------------------------------------------------------------

/// The bitboard of a set of squares.
pub open spec fn board_of(squares: Set<int>) -> Bitboard {
    choose|b: Bitboard| b@ == squares
}

/// Square `s` gets a table: its mask is neither empty nor too wide.
pub open spec fn tabled(dirs: Seq<Direction>, s: int) -> bool {
    1 <= mask_set(dirs, s).len() <= MAX_MASK_BITS
}

/// How many slots the squares below `s` take: one per subset of their masks.
pub open spec fn slots_before(dirs: Seq<Direction>, s: int) -> nat
    decreases s,
{
    if s <= 0 {
        0
    } else if tabled(dirs, s - 1) {
        slots_before(dirs, s - 1) + power2::pow2(mask_set(dirs, s - 1).len())
    } else {
        slots_before(dirs, s - 1)
    }
}

/// The subsets of the mask of square `s`, in order.
pub open spec fn occupancies_of(dirs: Seq<Direction>, s: int) -> Seq<Bitboard> {
    let squares = bitboard::listed(mask_set(dirs, s));
    Seq::new(
        power2::pow2(mask_set(dirs, s).len()),
        |j: int| board_of(subset(j as u64, squares, squares.len() as int)),
    )
}

/// The attack sets from square `s` under each of these occupancies.
pub open spec fn references_of(dirs: Seq<Direction>, s: int) -> Seq<Bitboard> {
    occupancies_of(dirs, s).map_values(
        |occ: Bitboard| board_of(attacks::slider_set(dirs, s, occ@)),
    )
}

/// The multiplier works for square `s`.
pub open spec fn works(dirs: Seq<Direction>, s: int, magic: u64) -> bool {
    suits(
        magic,
        board_of(mask_set(dirs, s)),
        (64 - mask_set(dirs, s).len()) as u32,
        occupancies_of(dirs, s),
        references_of(dirs, s),
    )
}

/// The number of the first candidate from `k` on that works for square `s`, if one
/// of those tried does.
pub open spec fn first_working(dirs: Seq<Direction>, s: int, seed: u64, k: nat) -> Option<nat>
    decreases MAX_TRIES - k,
{
    if k >= MAX_TRIES {
        None
    } else if works(dirs, s, candidate(seed, k)) {
        Some(k)
    } else {
        first_working(dirs, s, seed, k + 1)
    }
}

/// The state of the generator when the search comes to square `s`.
pub open spec fn generator_at(dirs: Seq<Direction>, s: int) -> u64
    decreases s,
{
    if s <= 0 {
        SEED
    } else {
        let seed = generator_at(dirs, s - 1);
        if tabled(dirs, s - 1) {
            match first_working(dirs, s - 1, seed, 0) {
                Some(k) => drawn(seed, k + 1),
                None => drawn(seed, MAX_TRIES as nat),
            }
        } else {
            seed
        }
    }
}

/// The multiplier of square `s`: the first candidate that works, of those drawn
/// when the search comes to it.
pub open spec fn multiplier_of(dirs: Seq<Direction>, s: int) -> Option<u64> {
    let seed = generator_at(dirs, s);
    if tabled(dirs, s) {
        match first_working(dirs, s, seed, 0) {
            Some(k) => Some(candidate(seed, k)),
            None => None,
        }
    } else {
        None
    }
}

/// A bitboard is the bitboard of its set.
proof fn lemma_board_of(b: Bitboard)
    ensures
        board_of(b@) == b,
{
    bitboard::lemma_ext(board_of(b@), b);
}

/// If no candidate before `k` works, the first that works is found from `k` on.
proof fn lemma_first_working(dirs: Seq<Direction>, s: int, seed: u64, i: nat, k: nat)
    requires
        i <= k <= MAX_TRIES,
        forall|j: nat|
            #![trigger candidate(seed, j)]
            j < k ==> !works(dirs, s, candidate(seed, j)),
    ensures
        first_working(dirs, s, seed, i) == first_working(dirs, s, seed, k),
    decreases k - i,
{
    if i < k {
        lemma_first_working(dirs, s, seed, i + 1, k);
        assert(!works(dirs, s, candidate(seed, i)));
    }
}

/// On every square the masks of a rook and of a bishop are neither empty nor too
/// wide: both get a table there.
pub proof fn law_rooks_and_bishops_tabled(s: int)
    requires
        geometry::on_board(s),
    ensures
        tabled(
            seq![Direction::North, Direction::South, Direction::East, Direction::West],
            s,
        ),
        tabled(
            seq![
                Direction::NorthEast,
                Direction::NorthWest,
                Direction::SouthEast,
                Direction::SouthWest,
            ],
            s,
        ),
{
    let rook = seq![Direction::North, Direction::South, Direction::East, Direction::West];
    let bishop = seq![
        Direction::NorthEast,
        Direction::NorthWest,
        Direction::SouthEast,
        Direction::SouthWest,
    ];
    // The step towards the middle of the board is never to an edge.
    let f = geometry::file(s) + if geometry::file(s) < 4 { 1int } else { -1int };
    let r = geometry::rank(s) + if geometry::rank(s) < 4 { 1int } else { -1int };
    let beside = geometry::at(f, geometry::rank(s));
    let across = geometry::at(f, r);
    let e = Set::<int>::empty();
    geometry::lemma_lines_len(s);
    assert forall|x: int| #[trigger] mask_set(rook, s).contains(x) implies geometry::on_board(x)
        && geometry::straight(s, x) by {
        let k = choose|k: int|
            0 <= k < rook.len() && #[trigger] geometry::ray_reaches(rook[k], s, x, e);
    }
    assert forall|x: int| #[trigger] mask_set(bishop, s).contains(x) implies geometry::on_board(x)
        && geometry::diagonal(s, x) by {
        let k = choose|k: int|
            0 <= k < bishop.len() && #[trigger] geometry::ray_reaches(bishop[k], s, x, e);
    }
    assert(mask_set(rook, s).subset_of(geometry::straights(s)));
    assert(mask_set(bishop, s).subset_of(geometry::diagonals(s)));
    vstd::set_lib::lemma_len_subset(mask_set(rook, s), geometry::straights(s));
    vstd::set_lib::lemma_len_subset(mask_set(bishop, s), geometry::diagonals(s));
    assert(mask_set(rook, s).contains(beside)) by {
        let k = if geometry::file(s) < 4 { 2int } else { 3int };
        assert(geometry::ray_reaches(rook[k], s, beside, e));
    }
    assert(mask_set(bishop, s).contains(across)) by {
        let k = if geometry::file(s) < 4 {
            if geometry::rank(s) < 4 { 0int } else { 2int }
        } else {
            if geometry::rank(s) < 4 { 1int } else { 3int }
        };
        assert(geometry::ray_reaches(bishop[k], s, across, e));
    }
}

/// Search a multiplier for one square, writing the attack sets to the end of
/// `table`.
fn find_magic(
    mask: Bitboard,
    shift: u32,
    occupancies: &Vec<Bitboard>,
    references: &Vec<Bitboard>,
    offset: usize,
    rng: &mut XorShift64,
    table: &mut Vec<Bitboard>,
) -> (r: Option<Magic>)
    requires
        shift < 64,
        references@.len() == occupancies@.len(),
        old(table)@.len() == offset + occupancies@.len(),
        forall|x: u64| #[trigger] (x >> shift) < occupancies@.len(),
    ensures
        final(table)@.len() == old(table)@.len(),
        forall|i: int| 0 <= i < offset ==> #[trigger] final(table)@[i] == old(table)@[i],
        r matches Some(m) ==> m.mask == mask && m.shift == shift && m.offset == offset
            && forall|i: int|
            #![trigger occupancies@[i]]
            0 <= i < occupancies@.len() ==> final(table)@[offset + hashed(
                occupancies@[i].0,
                m.magic,
                shift,
            )] == references@[i],
        // The first candidate that suits, if one of those tried does.
        r matches Some(m) ==> exists|k: nat|
            #![trigger candidate(old(rng).0, k)]
            k < MAX_TRIES && m.magic == candidate(old(rng).0, k) && suits(
                m.magic,
                mask,
                shift,
                occupancies@,
                references@,
            ) && final(rng).0 == drawn(old(rng).0, k + 1) && forall|j: nat|
                #![trigger candidate(old(rng).0, j)]
                j < k ==> !suits(
                    candidate(old(rng).0, j),
                    mask,
                    shift,
                    occupancies@,
                    references@,
                ),
        r is None ==> final(rng).0 == drawn(old(rng).0, MAX_TRIES as nat) && forall|j: nat|
            #![trigger candidate(old(rng).0, j)]
            j < MAX_TRIES ==> !suits(
                candidate(old(rng).0, j),
                mask,
                shift,
                occupancies@,
                references@,
            ),
{
    let mut used: Vec<u32> = Vec::new();
    while used.len() < occupancies.len()
        invariant
            used@.len() <= occupancies@.len(),
            forall|i: int| 0 <= i < used@.len() ==> #[trigger] used@[i] == 0,
        decreases occupancies@.len() - used@.len(),
    {
        used.push(0);
    }
    let mut epoch: u32 = 0;
    let mut tries: u32 = 0;
    while tries < MAX_TRIES
        invariant
            shift < 64,
            epoch <= tries <= MAX_TRIES,
            references@.len() == occupancies@.len(),
            used@.len() == occupancies@.len(),
            table@.len() == offset + occupancies@.len(),
            table@.len() == old(table)@.len(),
            forall|x: u64| #[trigger] (x >> shift) < occupancies@.len(),
            forall|i: int| 0 <= i < used@.len() ==> #[trigger] used@[i] <= epoch,
            forall|i: int| 0 <= i < offset ==> #[trigger] table@[i] == old(table)@[i],
            rng.0 == drawn(old(rng).0, tries as nat),
            forall|j: nat|
                #![trigger candidate(old(rng).0, j)]
                j < tries ==> !suits(
                    candidate(old(rng).0, j),
                    mask,
                    shift,
                    occupancies@,
                    references@,
                ),
        decreases MAX_TRIES - tries,
    {
        let ghost k = tries as nat;
        tries = tries + 1;
        let magic: u64 = rng.sparse();
        assert(magic == candidate(old(rng).0, k));
        // The high bits must actually be populated, or the multiply spreads too
        // thinly.
        let high: u64 = mask.0.wrapping_mul(magic) >> 56u64;
        if Bitboard(high).count() < 6 {
            continue;
        }
        epoch = epoch + 1;
        if try_magic(magic, shift, occupancies, references, offset, &mut used, epoch, table) {
            return Some(Magic { mask, magic, shift, offset });
        }
    }
    None
}

/// Find multipliers and fill the attack table for one slider kind (given its
/// rays). The whole search is deterministic thanks to the fixed seed.
pub fn build_slider_table(directions: &[Direction]) -> (r: SliderTable)
    ensures
        r.wf(),
        r.dirs() == directions@,
        r.filled(),
{
    let mut rng: XorShift64 = XorShift64(SEED);
    let mut magics: [Option<Magic>; 64] = [None;64];
    let mut table: Vec<Bitboard> = Vec::new();
    let mut dirs: Vec<Direction> = Vec::new();
    let mut d: usize = 0;
    while d < directions.len()
        invariant
            d <= directions@.len(),
            dirs@ == directions@.take(d as int),
        decreases directions@.len() - d,
    {
        dirs.push(directions[d]);
        assert(dirs@ =~= directions@.take(d + 1));
        d = d + 1;
    }
    assert(dirs@ =~= directions@);

    let mut s: u8 = 0;
    while s < 64
        invariant
            s <= 64,
            table@.len() <= s * 65536,
            table@.len() == slots_before(directions@, s as int),
            rng.0 == generator_at(directions@, s as int),
            dirs@ == directions@,
            forall|q: int|
                #![trigger magics@[q]]
                0 <= q < s ==> (match magics@[q] {
                    Some(m) => Some(m.magic),
                    None => None,
                }) == multiplier_of(directions@, q),
            forall|q: int|
                #![trigger magics@[q]]
                s <= q < 64 ==> magics@[q] is None,
            forall|q: int|
                #![trigger magics@[q]]
                0 <= q < s ==> (magics@[q] matches Some(m) ==> answers(m, table@, directions@, q)),
        decreases 64 - s,
    {
        let sq: Square = Square(s);
        let mask: Bitboard = slider_mask(sq, directions);
        let n: u32 = mask.count();
        if n >= 1 && n <= MAX_MASK_BITS {
            let shift: u32 = 64 - n;
            proof {
                lemma_hashed_bound(0, n, shift);
                lemma_subset_count(n);
            }
            let count: u64 = 1u64 << n;
            // Every occupancy subset with its correct attack set.
            let mut occupancies: Vec<Bitboard> = Vec::new();
            let mut references: Vec<Bitboard> = Vec::new();
            let offset: usize = table.len();
            let ghost before = table@;
            let mut i: u64 = 0;
            while i < count
                invariant
                    sq.valid(),
                    i <= count <= 65536,
                    s < 64,
                    offset <= s * 65536,
                    offset == before.len(),
                    occupancies@.len() == i,
                    references@.len() == i,
                    table@.len() == offset + i,
                    forall|j: int| 0 <= j < offset ==> #[trigger] table@[j] == before[j],
                    forall|j: int|
                        #![trigger occupancies@[j]]
                        0 <= j < i ==> occupancies@[j]@ == subset(
                            j as u64,
                            bitboard::listed(mask@),
                            bitboard::listed(mask@).len() as int,
                        ) && references@[j]@ == attacks::slider_set(
                            directions@,
                            sq.0 as int,
                            occupancies@[j]@,
                        ),
                decreases count - i,
            {
                let occ: Bitboard = occupancy_for_index(i, mask);
                occupancies.push(occ);
                references.push(attacks::slow_sliding_attacks(sq, occ, directions));
                table.push(Bitboard(0));
                i = i + 1;
            }
            proof {
                assert forall|x: u64| #[trigger] (x >> shift) < occupancies@.len() by {
                    lemma_hashed_bound(x, n, shift);
                }
            }
            let ghost seed = rng.0;
            proof {
                lemma_board_of(mask);
                lemma_listing(directions@, s as int, occupancies@, references@);
            }
            let found: Option<Magic> = find_magic(
                mask,
                shift,
                &occupancies,
                &references,
                offset,
                &mut rng,
                &mut table,
            );
            proof {
                assert forall|q: int|
                    #![trigger magics@[q]]
                    0 <= q < s implies (magics@[q] matches Some(m) ==> answers(
                    m,
                    table@,
                    directions@,
                    q,
                )) by {
                    if let Some(m) = magics@[q] {
                        lemma_answers_stable(m, before, table@, directions@, q);
                    }
                }
                if let Some(m) = found {
                    lemma_found_answers(
                        m,
                        table@,
                        directions@,
                        sq,
                        n,
                        occupancies@,
                        references@,
                    );
                    let k = choose|k: nat|
                        #![trigger candidate(seed, k)]
                        k < MAX_TRIES && m.magic == candidate(seed, k) && works(
                            directions@,
                            s as int,
                            m.magic,
                        ) && rng.0 == drawn(seed, k + 1) && forall|j: nat|
                            #![trigger candidate(seed, j)]
                            j < k ==> !works(directions@, s as int, candidate(seed, j));
                    lemma_first_working(directions@, s as int, seed, 0, k);
                } else {
                    lemma_first_working(directions@, s as int, seed, 0, MAX_TRIES as nat);
                }
            }
            magics[s as usize] = found;
        }
        s = s + 1;
    }
    SliderTable { magics, attacks: table, directions: dirs }
}

/// A mask of `n` squares has this many subsets.
proof fn lemma_subset_count(n: u32)
    requires
        1 <= n <= 16,
    ensures
        1u64 << n == power2::pow2(n as nat),
{
    bits::lemma_u64_pow2_no_overflow(n as nat);
    bits::lemma_u64_shl_is_mul(1, n as u64);
}

/// Boards with the right sets are the listed occupancies and attack sets.
proof fn lemma_listing(
    dirs: Seq<Direction>,
    s: int,
    occupancies: Seq<Bitboard>,
    references: Seq<Bitboard>,
)
    requires
        occupancies.len() == power2::pow2(mask_set(dirs, s).len()),
        references.len() == occupancies.len(),
        forall|j: int|
            #![trigger occupancies[j]]
            0 <= j < occupancies.len() ==> occupancies[j]@ == subset(
                j as u64,
                bitboard::listed(mask_set(dirs, s)),
                bitboard::listed(mask_set(dirs, s)).len() as int,
            ) && references[j]@ == attacks::slider_set(dirs, s, occupancies[j]@),
    ensures
        occupancies == occupancies_of(dirs, s),
        references == references_of(dirs, s),
{
    assert forall|j: int| 0 <= j < occupancies.len() implies occupancies[j] == occupancies_of(
        dirs,
        s,
    )[j] by {
        lemma_board_of(occupancies[j]);
    }
    assert(occupancies =~= occupancies_of(dirs, s));
    assert forall|j: int| 0 <= j < references.len() implies references[j] == references_of(
        dirs,
        s,
    )[j] by {
        assert(references[j]@ == attacks::slider_set(dirs, s, occupancies[j]@));
        lemma_board_of(references[j]);
    }
    assert(references =~= references_of(dirs, s));
}

/// A multiplier that separates the listed occupancies answers every query.
proof fn lemma_found_answers(
    m: Magic,
    table: Seq<Bitboard>,
    dirs: Seq<Direction>,
    sq: Square,
    n: u32,
    occupancies: Seq<Bitboard>,
    references: Seq<Bitboard>,
)
    requires
        sq.valid(),
        1 <= n <= 16,
        m.shift + n == 64,
        m.mask@ == mask_set(dirs, sq.0 as int),
        bitboard::listed(m.mask@).len() == n,
        occupancies.len() == (1u64 << n),
        references.len() == occupancies.len(),
        table.len() == m.offset + occupancies.len(),
        forall|i: int|
            #![trigger occupancies[i]]
            0 <= i < occupancies.len() ==> table[m.offset + hashed(
                occupancies[i].0,
                m.magic,
                m.shift,
            )] == references[i],
        forall|j: int|
            #![trigger occupancies[j]]
            0 <= j < occupancies.len() ==> occupancies[j]@ == subset(
                j as u64,
                bitboard::listed(m.mask@),
                bitboard::listed(m.mask@).len() as int,
            ) && references[j]@ == attacks::slider_set(dirs, sq.0 as int, occupancies[j]@),
    ensures
        answers(m, table, dirs, sq.0 as int),
{
    let s = sq.0 as int;
    assert forall|occ: u64|
        #![trigger m.slot(occ)]
        0 <= m.slot(occ) < table.len() && table[m.slot(occ)]@ == attacks::slider_set(
            dirs,
            s,
            Bitboard(occ)@,
        ) by {
        lemma_hashed_bound((occ & m.mask.0).wrapping_mul(m.magic), n, m.shift);
        let i = lemma_subset_index(Bitboard(occ)@, m.mask@);
        lemma_mask_suffices(dirs, s, Bitboard(occ)@);
        let part = Bitboard(occ & m.mask.0);
        assert(part@ == Bitboard(occ)@.intersect(m.mask@));
        assert(occupancies[i as int]@ == part@);
        bitboard::lemma_ext(occupancies[i as int], part);
    }
}

} // verus!
