//! Transposition table: a large hash table that remembers the results of
//! previously searched positions, keyed by their hash.
//!
//! The table has a power-of-two number of slots, so the slot for a key is a fast
//! bitmask rather than a modulo. Because two different keys can land in the same
//! slot, each entry stores the full key it was written with, and a probe is a hit
//! only if that stored key matches.

use vstd::prelude::*;
use vstd::arithmetic::power2;
use vstd::bits;
use crate::types::Move;

verus! {

/// The kind of bound a stored score represents.
///
/// - `Exact`: the score is the true value.
/// - `Lower`: the true score is *at least* this.
/// - `Upper`: the true score is *at most* this.
#[derive(Clone, Copy, PartialEq, Eq, Debug, Structural)]
pub enum Bound {
    Exact,
    Lower,
    Upper,
}

/// One cached search result.
#[derive(Clone, Copy, PartialEq, Eq, Debug, Structural)]
pub struct TtEntry {
    /// Full hash of the position this entry describes.
    pub key: u64,
    /// Best move found (may be [`Move::none`] if none was recorded).
    pub best_move: Move,
    /// The (possibly bounded) search score.
    pub score: i32,
    /// The search depth this result was computed at, in plies.
    pub depth: i16,
    /// Whether `score` is exact, a lower bound, or an upper bound.
    pub bound: Bound,
}

/// `n` is a power of two.
pub open spec fn power_of_two(n: nat) -> bool {
    exists|e: nat| n == #[trigger] power2::pow2(e)
}

/// The slot of a key.
pub open spec fn slot_of(slots: Seq<Option<TtEntry>>, key: u64) -> int {
    key as int % slots.len() as int
}

/// The entry that a table holds for a key.
pub open spec fn lookup(slots: Seq<Option<TtEntry>>, key: u64) -> Option<TtEntry> {
    match slots[slot_of(slots, key)] {
        Some(entry) => if entry.key == key {
            Some(entry)
        } else {
            None
        },
        None => None,
    }
}

/// Whether a result of the given depth is taken into a slot: an empty slot takes
/// any, and a filled one a result at least as deep as its own.
pub open spec fn yields(slot: Option<TtEntry>, depth: i16) -> bool {
    match slot {
        None => true,
        Some(existing) => depth >= existing.depth,
    }
}

/// The slots after storing an entry.
pub open spec fn stored(slots: Seq<Option<TtEntry>>, entry: TtEntry) -> Seq<Option<TtEntry>> {
    let i = slot_of(slots, entry.key);
    if yields(slots[i], entry.depth) {
        slots.update(i, Some(entry))
    } else {
        slots
    }
}

/// How many of the first `n` slots are filled.
pub open spec fn filled(slots: Seq<Option<TtEntry>>, n: int) -> nat
    decreases n,
{
    if n <= 0 {
        0
    } else {
        filled(slots, n - 1) + if slots[n - 1] is Some {
            1nat
        } else {
            0nat
        }
    }
}

/// How many slots the occupancy is sampled from.
pub open spec fn sample_size(n: nat) -> nat {
    if n < 1000 {
        n
    } else {
        1000
    }
}

/// The bytes of one slot.
pub open spec fn slot_size() -> nat {
    vstd::layout::size_of::<Option<TtEntry>>()
}

/// A fixed-size, direct-mapped transposition table.
pub struct TranspositionTable {
    /// `None` means the slot has never been written. The length is always a power
    /// of two.
    entries: Vec<Option<TtEntry>>,
}

impl View for TranspositionTable {
    type V = Seq<Option<TtEntry>>;

    closed spec fn view(&self) -> Seq<Option<TtEntry>> {
        self.entries@
    }
}

impl TranspositionTable {
    /// The number of slots is a power of two (in particular there is one).
    pub open spec fn wf(self) -> bool {
        power_of_two(self@.len())
    }

    /// A table has a slot for every key.
    pub proof fn lemma_slot(self, key: u64)
        requires
            self.wf(),
        ensures
            self@.len() > 0,
            0 <= slot_of(self@, key) < self@.len(),
    {
        let e = choose|e: nat| self@.len() == #[trigger] power2::pow2(e);
        power2::lemma_pow2_pos(e);
    }

    /// Allocate a table using at most `size_mb` megabytes.
    ///
    /// The number of slots is the largest power of two whose total size fits in
    /// the budget, and at least one.
    pub fn new(size_mb: usize) -> (r: Self)
        requires
            size_mb * 1_048_576 <= isize::MAX,
        ensures
            r.wf(),
            forall|i: int| 0 <= i < r@.len() ==> #[trigger] r@[i] is None,
            r@.len() == 1 || r@.len() * slot_size() <= size_mb * 1_048_576,
            r@.len() * 2 * slot_size() > size_mb * 1_048_576 || slot_size() == 0,
    {
        let entry_size: usize = core::mem::size_of::<Option<TtEntry>>();
        let budget_bytes: usize = size_mb * (1024 * 1024);

        // How many entries fit, then round down to a power of two.
        let fits: usize = if entry_size == 0 {
            1
        } else {
            budget_bytes / entry_size
        };
        let mut count: usize = 1;
        proof {
            power2::lemma2_to64();
            assert(count == power2::pow2(0));
        }
        while count <= fits / 2
            invariant
                power_of_two(count as nat),
                count >= 1,
                count == 1 || count <= fits,
            decreases fits - count,
        {
            proof {
                let e = choose|e: nat| count == #[trigger] power2::pow2(e);
                power2::lemma_pow2_unfold(e + 1);
                assert(count * 2 == power2::pow2(e + 1));
            }
            count = count * 2;
        }
        proof {
            if entry_size > 0 {
                lemma_fits(budget_bytes as int, entry_size as int, fits as int, count as int);
            }
        }
        let mut entries: Vec<Option<TtEntry>> = Vec::new();
        while entries.len() < count
            invariant
                entries@.len() <= count,
                forall|i: int| 0 <= i < entries@.len() ==> #[trigger] entries@[i] is None,
            decreases count - entries@.len(),
        {
            entries.push(None);
        }
        TranspositionTable { entries }
    }

    /// The number of slots in the table (always a power of two).
    pub fn len(&self) -> (r: usize)
        ensures
            r == self@.len(),
    {
        self.entries.len()
    }

    /// Always `false`: the table always has at least one slot.
    pub fn is_empty(&self) -> (r: bool)
        requires
            self.wf(),
        ensures
            r == (self@.len() == 0),
            !r,
    {
        proof {
            self.lemma_slot(0);
        }
        self.entries.len() == 0
    }

    /// Empty every slot, discarding all cached results.
    pub fn clear(&mut self)
        requires
            old(self).wf(),
        ensures
            final(self).wf(),
            final(self)@ == Seq::new(old(self)@.len(), |i: int| None::<TtEntry>),
    {
        let mut i: usize = 0;
        while i < self.entries.len()
            invariant
                i <= self@.len(),
                self@.len() == old(self)@.len(),
                forall|j: int| 0 <= j < i ==> #[trigger] self@[j] is None,
            decreases self@.len() - i,
        {
            self.entries[i] = None;
            i = i + 1;
        }
        assert(self@ =~= Seq::new(old(self)@.len(), |j: int| None::<TtEntry>));
    }

    /// The slot a key maps to: the low bits of the key.
    fn index(&self, key: u64) -> (r: usize)
        requires
            self.wf(),
        ensures
            r == slot_of(self@, key),
            r < self@.len(),
    {
        proof {
            self.lemma_slot(key);
        }
        let len: u64 = self.entries.len() as u64;
        let mask: u64 = len - 1;
        proof {
            let e = choose|e: nat| self@.len() == #[trigger] power2::pow2(e);
            lemma_mask(key, e, len);
        }
        (key & mask) as usize
    }

    /// Look up a position. Returns the entry only if the slot is filled *and* its
    /// stored key matches `key`, guarding against index collisions.
    pub fn probe(&self, key: u64) -> (r: Option<&TtEntry>)
        requires
            self.wf(),
        ensures
            match r {
                Some(entry) => lookup(self@, key) == Some(*entry),
                None => lookup(self@, key) is None,
            },
    {
        match &self.entries[self.index(key)] {
            Some(entry) => {
                if entry.key == key {
                    Some(entry)
                } else {
                    None
                }
            },
            None => None,
        }
    }

    /// Insert or replace the result for a position.
    ///
    /// The slot is overwritten when it is empty or when the incoming `depth` is at
    /// least the stored depth. This keeps deeper (more expensive) results,
    /// including a deep result for a *colliding* position, while still letting a
    /// re-search of the same position at equal or greater depth refresh the entry.
    pub fn store(&mut self, key: u64, best_move: Move, score: i32, depth: i16, bound: Bound)
        requires
            old(self).wf(),
        ensures
            final(self).wf(),
            final(self)@ == stored(
                old(self)@,
                TtEntry { key, best_move, score, depth, bound },
            ),
    {
        let idx: usize = self.index(key);
        let replace: bool = match &self.entries[idx] {
            None => true,
            Some(existing) => depth >= existing.depth,
        };
        if replace {
            self.entries[idx] = Some(TtEntry { key, best_move, score, depth, bound });
        }
    }

    /// Approximate table occupancy in per-mille (0..=1000): the filled share of
    /// the first 1000 slots (or of all of them, if the table is smaller).
    pub fn hashfull_permill(&self) -> (r: usize)
        requires
            self.wf(),
        ensures
            r == filled(self@, sample_size(self@.len()) as int) * 1000 / sample_size(self@.len()),
            r <= 1000,
    {
        proof {
            self.lemma_slot(0);
        }
        let sample: usize = if self.entries.len() < 1000 {
            self.entries.len()
        } else {
            1000
        };
        let mut count: usize = 0;
        let mut i: usize = 0;
        while i < sample
            invariant
                i <= sample <= self@.len(),
                sample <= 1000,
                count <= i,
                count == filled(self@, i as int),
            decreases sample - i,
        {
            if self.entries[i].is_some() {
                count = count + 1;
            }
            i = i + 1;
        }
        proof {
            assert(count * 1000 / sample as int <= 1000) by (nonlinear_arith)
                requires
                    count <= sample,
                    sample > 0,
            ;
        }
        count * 1000 / sample
    }
}

/// Rounding down leaves the largest power of two that fits.
proof fn lemma_fits(budget: int, size: int, fits: int, count: int)
    by (nonlinear_arith)
    requires
        size > 0,
        budget >= 0,
        fits == budget / size,
        count >= 1,
        count == 1 || count <= fits,
        count > fits / 2,
    ensures
        count == 1 || count * size <= budget,
        count * 2 * size > budget,
{
    assert(fits * size <= budget < (fits + 1) * size);
    assert(count * 2 >= fits + 1);
    assert(count * 2 * size >= (fits + 1) * size);
    if count > 1 {
        assert(count * size <= fits * size);
    }
}

/// Masking with a power of two less one is the remainder.
proof fn lemma_mask(key: u64, e: nat, len: u64)
    requires
        len == power2::pow2(e),
        len > 0,
    ensures
        key & ((len - 1) as u64) == key as int % len as int,
{
    if e >= 64 {
        power2::lemma2_to64();
        if e > 64 {
            power2::lemma_pow2_strictly_increases(64, e);
        }
    }
    bits::lemma_u64_low_bits_mask_is_mod(key, e);
    assert(bits::low_bits_mask(e) == len - 1);
}

// ---------------------------------------------------------------------------
// Laws.
// ---------------------------------------------------------------------------

/// Storing keeps the number of slots.
pub proof fn law_store_keeps_size(slots: Seq<Option<TtEntry>>, entry: TtEntry)
    requires
        slots.len() > 0,
    ensures
        stored(slots, entry).len() == slots.len(),
{
}

/// What has been stored is found, if its slot took it.
pub proof fn law_probe_after_store(slots: Seq<Option<TtEntry>>, entry: TtEntry)
    requires
        slots.len() > 0,
        yields(slots[slot_of(slots, entry.key)], entry.depth),
    ensures
        lookup(stored(slots, entry), entry.key) == Some(entry),
{
}

/// A probe never returns another position's entry.
pub proof fn law_probe_matches_key(slots: Seq<Option<TtEntry>>, key: u64)
    ensures
        lookup(slots, key) matches Some(entry) ==> entry.key == key,
{
}

/// A shallower result changes nothing.
pub proof fn law_deeper_survives(slots: Seq<Option<TtEntry>>, entry: TtEntry, key: u64)
    requires
        slots.len() > 0,
        !yields(slots[slot_of(slots, entry.key)], entry.depth),
    ensures
        lookup(stored(slots, entry), key) == lookup(slots, key),
{
}

/// Storing for one position leaves the positions in other slots alone.
pub proof fn law_other_slots_untouched(slots: Seq<Option<TtEntry>>, entry: TtEntry, key: u64)
    requires
        slots.len() > 0,
        slot_of(slots, key) != slot_of(slots, entry.key),
    ensures
        lookup(stored(slots, entry), key) == lookup(slots, key),
{
}

/// A stored result evicts the other position in its slot.
pub proof fn law_store_evicts(slots: Seq<Option<TtEntry>>, entry: TtEntry, key: u64)
    requires
        slots.len() > 0,
        yields(slots[slot_of(slots, entry.key)], entry.depth),
        slot_of(slots, key) == slot_of(slots, entry.key),
        key != entry.key,
    ensures
        lookup(stored(slots, entry), key) is None,
{
}

/// A cleared table holds nothing, and its occupancy is 0.
pub proof fn law_cleared_is_empty(n: nat, key: u64)
    requires
        n > 0,
    ensures
        lookup(Seq::new(n, |i: int| None::<TtEntry>), key) is None,
        filled(Seq::new(n, |i: int| None::<TtEntry>), sample_size(n) as int) == 0,
{
    lemma_none_filled(Seq::new(n, |i: int| None::<TtEntry>), sample_size(n) as int);
}

proof fn lemma_none_filled(slots: Seq<Option<TtEntry>>, n: int)
    requires
        forall|i: int| 0 <= i < n ==> #[trigger] slots[i] is None,
    ensures
        filled(slots, n) == 0,
    decreases n,
{
    if n > 0 {
        lemma_none_filled(slots, n - 1);
    }
}

/// A result goes to the slot that its key leaves over when divided by the number of
/// slots. It is stored if nothing is there, or nothing deeper; and no other slot
/// changes.
pub proof fn law_store_rule(slots: Seq<Option<TtEntry>>, entry: TtEntry, i: int)
    requires
        slots.len() > 0,
        0 <= i < slots.len(),
    ensures
        ({
            let home = entry.key as int % slots.len() as int;
            let after = stored(slots, entry);
            &&& after.len() == slots.len()
            &&& i != home ==> after[i] == slots[i]
            &&& i == home && slots[i] is None ==> after[i] == Some(entry)
            &&& i == home && (slots[i] matches Some(e) && e.depth <= entry.depth) ==> after[i]
                == Some(entry)
            &&& i == home && (slots[i] matches Some(e) && e.depth > entry.depth) ==> after[i]
                == slots[i]
        }),
{
}

/// A probe finds what its key's slot holds, if it was stored with that key.
pub proof fn law_probe_rule(slots: Seq<Option<TtEntry>>, key: u64, entry: TtEntry)
    requires
        slots.len() > 0,
    ensures
        lookup(slots, key) == Some(entry) <==> slots[key as int % slots.len() as int] == Some(
            entry,
        ) && entry.key == key,
{
}

/// The occupancy counts the filled slots among the first thousand.
pub proof fn law_occupancy(slots: Seq<Option<TtEntry>>, n: int)
    requires
        0 <= n <= slots.len(),
    ensures
        Set::new(|i: int| 0 <= i < n && slots[i] is Some).finite(),
        filled(slots, n) == Set::new(|i: int| 0 <= i < n && slots[i] is Some).len(),
        sample_size(slots.len()) <= 1000 && sample_size(slots.len()) <= slots.len(),
        sample_size(slots.len()) == 1000 || sample_size(slots.len()) == slots.len(),
    decreases n,
{
    let now = Set::new(|i: int| 0 <= i < n && slots[i] is Some);
    if n == 0 {
        assert(now =~= Set::empty());
    } else {
        law_occupancy(slots, n - 1);
        let before = Set::new(|i: int| 0 <= i < n - 1 && slots[i] is Some);
        if slots[n - 1] is Some {
            assert(now =~= before.insert(n - 1));
        } else {
            assert(now =~= before);
        }
    }
}

} // verus!
