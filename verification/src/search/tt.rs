use vstd::prelude::*;

use crate::types::{Move, pass_move};

pub mod tt_flag;

verus! {

/// Number of buckets in the transposition table.
pub const TT_SIZE: usize = 16777216;

/// One stored search result: the upper half of the position key, the depth searched, the kind
/// of bound, the search generation, the value and the best move in packed form.
#[derive(Clone, Copy, Debug, Default, PartialEq, Eq, Structural)]
pub struct CompactTTEntry {
    pub key_sig: u32,
    pub depth: i16,
    pub flag: u8,
    pub age: u8,
    pub value: i32,
    pub packed_move: u32,
}

/// Two entries for one bucket: the most recent store, and one kept by depth and age.
#[derive(Clone, Copy, Debug, Default, PartialEq, Eq, Structural)]
pub struct TTBucket {
    pub slot0: CompactTTEntry,
    pub slot1: CompactTTEntry,
}

impl CompactTTEntry {
    /// The all-zero entry.
    pub open spec fn spec_empty() -> CompactTTEntry {
        CompactTTEntry { key_sig: 0, depth: 0, flag: 0, age: 0, value: 0, packed_move: 0 }
    }

    /// The all-zero entry.
    pub fn empty() -> (e: CompactTTEntry)
        ensures
            e == Self::spec_empty(),
    {
        CompactTTEntry { key_sig: 0, depth: 0, flag: 0, age: 0, value: 0, packed_move: 0 }
    }
}

impl TTBucket {
    /// The bucket with two all-zero entries.
    pub open spec fn spec_empty() -> TTBucket {
        TTBucket { slot0: CompactTTEntry::spec_empty(), slot1: CompactTTEntry::spec_empty() }
    }

    /// The bucket with two all-zero entries.
    pub fn empty() -> (b: TTBucket)
        ensures
            b == Self::spec_empty(),
    {
        TTBucket { slot0: CompactTTEntry::empty(), slot1: CompactTTEntry::empty() }
    }
}

/// The transposition table: its buckets (none until it is made ready) and the current search
/// generation.
pub struct TranspositionTable {
    pub buckets: Vec<TTBucket>,
    pub age: u8,
}

impl TranspositionTable {
    /// The table is either not allocated yet or has its full size.
    pub open spec fn wf(&self) -> bool {
        self.buckets@.len() == 0 || self.buckets@.len() == TT_SIZE
    }

    /// The table has all of its buckets.
    pub open spec fn ready(&self) -> bool {
        self.buckets@.len() == TT_SIZE
    }

    /// A table with no buckets yet, at generation 1.
    pub fn new() -> (tt: TranspositionTable)
        ensures
            tt.wf(),
            tt.buckets@.len() == 0,
            tt.age == 1,
    {
        TranspositionTable { buckets: Vec::new(), age: 1 }
    }
}

/// Allocates the buckets, all empty, unless the table already has them.
pub fn ensure_tt_ready(tt: &mut TranspositionTable)
    requires
        old(tt).wf(),
    ensures
        final(tt).ready(),
        final(tt).age == old(tt).age,
        old(tt).ready() ==> final(tt).buckets@ == old(tt).buckets@,
        !old(tt).ready() ==> forall|i: int|
            0 <= i < TT_SIZE ==> #[trigger] final(tt).buckets@[i] == TTBucket::spec_empty(),
{
    if tt.buckets.len() != TT_SIZE {
        let fresh = vec![TTBucket::empty(); TT_SIZE];
        tt.buckets = fresh;
    }
}

/// The packed form of a move: all ones for a pass; otherwise the low four bits of `r1` and `r2`
/// and the low five bits of `c1` and `c2`, at bits 15, 6, 10 and 1.
pub open spec fn spec_pack_move(m: Move) -> u32 {
    if m.spec_is_pass() {
        0xFFFFFFFFu32
    } else {
        ((m.r1 as u32 & 0xFu32) << 15u32) | ((m.c1 as u32 & 0x1Fu32) << 10u32) | ((m.r2 as u32
            & 0xFu32) << 6u32) | ((m.c2 as u32 & 0x1Fu32) << 1u32)
    }
}

/// The move that a packed form stands for, with priority 0: the pass for all ones.
pub open spec fn spec_unpack_move(packed: u32) -> Move {
    if packed == 0xFFFFFFFFu32 {
        pass_move()
    } else {
        Move {
            r1: ((packed >> 15u32) & 0xFu32) as i32,
            c1: ((packed >> 10u32) & 0x1Fu32) as i32,
            r2: ((packed >> 6u32) & 0xFu32) as i32,
            c2: ((packed >> 1u32) & 0x1Fu32) as i32,
            priority: 0,
        }
    }
}

/// Packs a move into 32 bits.
pub fn pack_move(m: &Move) -> (p: u32)
    ensures
        p == spec_pack_move(*m),
{
    if m.is_pass() {
        return 0xFFFFFFFF;
    }
    ((m.r1 as u32 & 0xF) << 15) | ((m.c1 as u32 & 0x1F) << 10) | ((m.r2 as u32 & 0xF) << 6) | ((
    m.c2 as u32 & 0x1F) << 1)
}

/// Unpacks a move packed by `pack_move`.
pub fn unpack_move(packed: u32) -> (m: Move)
    ensures
        m == spec_unpack_move(packed),
{
    if packed == 0xFFFFFFFF {
        return Move::pass();
    }
    Move {
        r1: ((packed >> 15) & 0xF) as i32,
        c1: ((packed >> 10) & 0x1F) as i32,
        r2: ((packed >> 6) & 0xF) as i32,
        c2: ((packed >> 1) & 0x1F) as i32,
        priority: 0,
    }
}

/// A move whose rows lie in 0..16 and whose columns lie in 0..32 (every rectangle of the
/// board), or a pass.
pub open spec fn packable(m: Move) -> bool {
    m.spec_is_pass() || (0 <= m.r1 < 16 && 0 <= m.r2 < 16 && 0 <= m.c1 < 32 && 0 <= m.c2 < 32)
}

/// Unpacking a packed move gives back its rectangle (and a pass stays a pass), for every move
/// whose coordinates fit the packed fields.
pub proof fn lemma_pack_roundtrip(m: Move)
    requires
        packable(m),
    ensures
        spec_unpack_move(spec_pack_move(m)).same_coords(m),
{
    if !m.spec_is_pass() {
        let a = m.r1 as u32;
        let b = m.c1 as u32;
        let c = m.r2 as u32;
        let d = m.c2 as u32;
        assert(a < 16 && b < 32 && c < 16 && d < 32 ==> {
            let p = ((a & 0xFu32) << 15u32) | ((b & 0x1Fu32) << 10u32) | ((c & 0xFu32) << 6u32)
                | ((d & 0x1Fu32) << 1u32);
            &&& p != 0xFFFFFFFFu32
            &&& (p >> 15u32) & 0xFu32 == a
            &&& (p >> 10u32) & 0x1Fu32 == b
            &&& (p >> 6u32) & 0xFu32 == c
            &&& (p >> 1u32) & 0x1Fu32 == d
        }) by (bit_vector);
    }
}

/// The bucket that a position key selects: its low 24 bits.
pub open spec fn bucket_index(key: u64) -> int {
    (key % 16777216) as int
}

/// The signature kept in an entry: the upper 32 bits of the key.
pub open spec fn key_sig(key: u64) -> u32 {
    (key >> 32u64) as u32
}

/// The entry that a store writes.
pub open spec fn stored_entry(key: u64, depth: i32, value: i32, flag: u8, age: u8, m: Move) -> CompactTTEntry {
    CompactTTEntry {
        key_sig: key_sig(key),
        depth: depth as i16,
        flag,
        age,
        value,
        packed_move: spec_pack_move(m),
    }
}

/// A bucket after a store: the new entry always goes to the first slot; it replaces the second
/// slot when that one holds the same signature and is not deeper, or holds another signature and
/// is from an older generation or not deeper.
pub open spec fn stored_bucket(b: TTBucket, e: CompactTTEntry, depth: i32, age: u8) -> TTBucket {
    let same_key = b.slot1.key_sig == e.key_sig;
    let stale = b.slot1.age != age;
    let deeper = depth >= b.slot1.depth as i32;
    let replace = if same_key {
        deeper
    } else {
        stale || deeper
    };
    TTBucket { slot0: e, slot1: if replace { e } else { b.slot1 } }
}

/// The entry a probe uses: among the slots with the key's signature and a depth of at least the
/// asked depth, the second slot when it is strictly deeper than a usable first slot, else the
/// first.
pub open spec fn probe_pick(b: TTBucket, ksig: u32, depth: i32) -> Option<CompactTTEntry> {
    let ok0 = b.slot0.key_sig == ksig && b.slot0.depth >= depth as i16;
    let ok1 = b.slot1.key_sig == ksig && b.slot1.depth >= depth as i16;
    if ok1 && (!ok0 || b.slot1.depth > b.slot0.depth) {
        Some(b.slot1)
    } else if ok0 {
        Some(b.slot0)
    } else {
        None
    }
}

/// Whether a usable entry settles the search: an exact value, a lower bound at or above beta,
/// or an upper bound at or below alpha.
pub open spec fn probe_cutoff(e: CompactTTEntry, alpha: i32, beta: i32) -> bool {
    ||| e.flag == tt_flag::EXACT
    ||| (e.flag == tt_flag::LOWER_BOUND && e.value >= beta)
    ||| (e.flag == tt_flag::UPPER_BOUND && e.value <= alpha)
}

/// Stores a search result for `key` in its bucket (see `stored_bucket`), at the table's
/// generation.
pub fn tt_store(tt: &mut TranspositionTable, key: u64, depth: i32, value: i32, flag: u8, best_move: &Move)
    requires
        old(tt).ready(),
    ensures
        final(tt).age == old(tt).age,
        final(tt).buckets@ == old(tt).buckets@.update(
            bucket_index(key),
            stored_bucket(
                old(tt).buckets@[bucket_index(key)],
                stored_entry(key, depth, value, flag, old(tt).age, *best_move),
                depth,
                old(tt).age,
            ),
        ),
{
    let age = tt.age;
    let ksig = (key >> 32) as u32;
    let idx = (key & 16777215u64) as usize;
    assert(key & 16777215u64 == key % 16777216) by (bit_vector);
    let pm = pack_move(best_move);
    let d16 = depth as i16;
    let mut b = tt.buckets[idx];
    b.slot0 = CompactTTEntry { key_sig: ksig, depth: d16, flag, age, value, packed_move: pm };
    let same_key = b.slot1.key_sig == ksig;
    let stale = b.slot1.age != age;
    let deeper = depth >= b.slot1.depth as i32;
    let replace = if same_key {
        deeper
    } else {
        stale || deeper
    };
    if replace {
        b.slot1 = CompactTTEntry { key_sig: ksig, depth: d16, flag, age, value, packed_move: pm };
    }
    tt.buckets.set(idx, b);
}

/// Looks up `key` for a search of `depth` with window (`alpha`, `beta`). Where a usable entry
/// is found (see `probe_pick`), its move is written to `best_move_out`; where that entry also
/// settles the search (see `probe_cutoff`), its value is written to `value_out` and the result
/// is `true`.
pub fn tt_probe(
    tt: &TranspositionTable,
    key: u64,
    depth: i32,
    alpha: i32,
    beta: i32,
    value_out: &mut i32,
    best_move_out: &mut Move,
) -> (hit: bool)
    requires
        tt.ready(),
    ensures
        ({
            let picked = probe_pick(tt.buckets@[bucket_index(key)], key_sig(key), depth);
            match picked {
                None => {
                    &&& !hit
                    &&& *final(value_out) == *old(value_out)
                    &&& *final(best_move_out) == *old(best_move_out)
                },
                Some(e) => {
                    &&& *final(best_move_out) == spec_unpack_move(e.packed_move)
                    &&& hit == probe_cutoff(e, alpha, beta)
                    &&& *final(value_out) == if hit {
                        e.value
                    } else {
                        *old(value_out)
                    }
                },
            }
        }),
{
    let ksig = (key >> 32) as u32;
    let idx = (key & 16777215u64) as usize;
    assert(key & 16777215u64 == key % 16777216) by (bit_vector);
    let b = tt.buckets[idx];
    let d16 = depth as i16;
    let mut best: Option<CompactTTEntry> = None;
    if b.slot0.key_sig == ksig && b.slot0.depth >= d16 {
        best = Some(b.slot0);
    }
    if b.slot1.key_sig == ksig && b.slot1.depth >= d16 {
        let take = match best {
            None => true,
            Some(e) => b.slot1.depth > e.depth,
        };
        if take {
            best = Some(b.slot1);
        }
    }
    let entry = match best {
        None => {
            return false;
        },
        Some(e) => e,
    };
    *best_move_out = unpack_move(entry.packed_move);
    let stored = entry.value;
    if entry.flag == tt_flag::EXACT {
        *value_out = stored;
        return true;
    }
    if entry.flag == tt_flag::LOWER_BOUND && stored >= beta {
        *value_out = stored;
        return true;
    }
    if entry.flag == tt_flag::UPPER_BOUND && stored <= alpha {
        *value_out = stored;
        return true;
    }
    false
}

/// Starts a new search generation (the counter wraps around).
pub fn advance_tt_age(tt: &mut TranspositionTable)
    ensures
        final(tt).buckets@ == old(tt).buckets@,
        final(tt).age == old(tt).age.wrapping_add(1),
{
    tt.age = tt.age.wrapping_add(1);
}

/// Reading back a store: right after an exact result is stored for `key` at `depth`, a probe
/// of the same key at a depth no greater than the stored one (as kept in 16 bits) hits and gives
/// the stored value and the stored move's rectangle, unless the bucket's second slot already
/// held the same signature at a greater depth (that deeper entry is then preferred).
pub proof fn lemma_store_then_probe(b: TTBucket, key: u64, depth: i32, value: i32, age: u8, m: Move, probe_depth: i32)
    requires
        packable(m),
        probe_depth as i16 <= depth as i16,
        !(b.slot1.key_sig == key_sig(key) && b.slot1.depth as i32 > depth),
    ensures
        ({
            let e = stored_entry(key, depth, value, tt_flag::EXACT, age, m);
            let nb = stored_bucket(b, e, depth, age);
            &&& probe_pick(nb, key_sig(key), probe_depth) == Some(e)
            &&& spec_unpack_move(e.packed_move).same_coords(m)
        }),
{
    lemma_pack_roundtrip(m);
}

} // verus!
