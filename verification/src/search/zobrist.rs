use vstd::prelude::*;

use crate::board::{Board, cells_xor, cells};
use crate::types::{ROWS, COLS, FIRST_PLAYER, SECOND_PLAYER};

verus! {

/// The seed of the key sequence.
pub open spec fn zobrist_seed() -> u64 {
    1234567890123456789u64
}

/// One xorshift step: shift left 13, right 7, left 17, each xored in.
pub open spec fn xorshift_step(x: u64) -> u64 {
    let a = x ^ (x << 13u64);
    let b = a ^ (a >> 7u64);
    b ^ (b << 17u64)
}

/// The generator state after `n` steps from the seed.
pub open spec fn zobrist_state(n: nat) -> u64
    decreases n,
{
    if n == 0 {
        zobrist_seed()
    } else {
        xorshift_step(zobrist_state((n - 1) as nat))
    }
}

/// Position in the key sequence of the key for value `v` at `(r, c)`.
pub open spec fn value_key_pos(r: int, c: int, v: int) -> int {
    r * 170 + c * 10 + v + 1
}

/// Position in the key sequence of the key for owner slot `o` at `(r, c)`.
pub open spec fn owner_key_pos(r: int, c: int, o: int) -> int {
    1700 + r * 51 + c * 3 + o + 1
}

/// Random keys: one per (cell, value), one per (cell, owner slot), one for the first player,
/// one per pass count 0..=2.
#[derive(Clone, Copy)]
pub struct ZobristTables {
    pub value: [[[u64; 10]; COLS]; ROWS],
    pub owner: [[[u64; 3]; COLS]; ROWS],
    pub player: u64,
    pub passes: [u64; 3],
}

impl ZobristTables {
    /// The key for value `v` at `(r, c)`.
    pub open spec fn vkey(self, r: int, c: int, v: int) -> u64 {
        self.value@[r]@[c]@[v]
    }

    /// The key for owner slot `o` at `(r, c)`.
    pub open spec fn okey(self, r: int, c: int, o: int) -> u64 {
        self.owner@[r]@[c]@[o]
    }

    /// The tables hold the generator's outputs in order: values, then owners, then the
    /// player key, then the three pass keys.
    pub open spec fn is_canonical(self) -> bool {
        &&& forall|r: int, c: int, v: int|
            0 <= r < 10 && 0 <= c < 17 && 0 <= v < 10 ==> #[trigger] self.vkey(r, c, v)
                == zobrist_state(value_key_pos(r, c, v) as nat)
        &&& forall|r: int, c: int, o: int|
            0 <= r < 10 && 0 <= c < 17 && 0 <= o < 3 ==> #[trigger] self.okey(r, c, o)
                == zobrist_state(owner_key_pos(r, c, o) as nat)
        &&& self.player == zobrist_state(2211)
        &&& forall|i: int| 0 <= i < 3 ==> #[trigger] self.passes@[i] == zobrist_state(
            (2212 + i) as nat,
        )
    }
}

/// Advances the generator one step and returns the new state.
pub fn xorshift64(state: &mut u64) -> (x: u64)
    ensures
        *final(state) == xorshift_step(*old(state)),
        x == *final(state),
{
    *state = *state ^ (*state << 13u64);
    *state = *state ^ (*state >> 7u64);
    *state = *state ^ (*state << 17u64);
    *state
}

/// Builds the key tables from the seed.
pub fn get_zobrist() -> (z: ZobristTables)
    ensures
        z.is_canonical(),
{
    let mut seed: u64 = 1234567890123456789u64;
    let mut value = [[[0u64; 10]; COLS]; ROWS];
    let mut r: usize = 0;
    while r < ROWS
        invariant
            r <= ROWS,
            seed == zobrist_state((r * 170) as nat),
            forall|rr: int, cc: int, vv: int|
                0 <= rr < r && 0 <= cc < 17 && 0 <= vv < 10 ==> #[trigger] value@[rr]@[cc]@[vv]
                    == zobrist_state(value_key_pos(rr, cc, vv) as nat),
        decreases ROWS - r,
    {
        let mut c: usize = 0;
        while c < COLS
            invariant
                r < ROWS,
                c <= COLS,
                seed == zobrist_state((r * 170 + c * 10) as nat),
                forall|rr: int, cc: int, vv: int|
                    0 <= rr < 10 && 0 <= cc < 17 && 0 <= vv < 10 && (rr < r || (rr == r && cc
                        < c)) ==> #[trigger] value@[rr]@[cc]@[vv] == zobrist_state(
                        value_key_pos(rr, cc, vv) as nat,
                    ),
            decreases COLS - c,
        {
            let mut v: usize = 0;
            while v < 10
                invariant
                    r < ROWS,
                    c < COLS,
                    v <= 10,
                    seed == zobrist_state((r * 170 + c * 10 + v) as nat),
                    forall|rr: int, cc: int, vv: int|
                        0 <= rr < 10 && 0 <= cc < 17 && 0 <= vv < 10 && (rr < r || (rr == r && cc
                            < c) || (rr == r && cc == c && vv < v)) ==> #[trigger] value@[rr]@[cc]@[vv]
                            == zobrist_state(value_key_pos(rr, cc, vv) as nat),
                decreases 10 - v,
            {
                let x = xorshift64(&mut seed);
                value[r][c][v] = x;
                v += 1;
            }
            c += 1;
        }
        r += 1;
    }
    let mut owner = [[[0u64; 3]; COLS]; ROWS];
    let mut r: usize = 0;
    while r < ROWS
        invariant
            r <= ROWS,
            seed == zobrist_state((1700 + r * 51) as nat),
            forall|rr: int, cc: int, vv: int|
                0 <= rr < 10 && 0 <= cc < 17 && 0 <= vv < 10 ==> #[trigger] value@[rr]@[cc]@[vv]
                    == zobrist_state(value_key_pos(rr, cc, vv) as nat),
            forall|rr: int, cc: int, oo: int|
                0 <= rr < r && 0 <= cc < 17 && 0 <= oo < 3 ==> #[trigger] owner@[rr]@[cc]@[oo]
                    == zobrist_state(owner_key_pos(rr, cc, oo) as nat),
        decreases ROWS - r,
    {
        let mut c: usize = 0;
        while c < COLS
            invariant
                r < ROWS,
                c <= COLS,
                seed == zobrist_state((1700 + r * 51 + c * 3) as nat),
                forall|rr: int, cc: int, oo: int|
                    0 <= rr < 10 && 0 <= cc < 17 && 0 <= oo < 3 && (rr < r || (rr == r && cc
                        < c)) ==> #[trigger] owner@[rr]@[cc]@[oo] == zobrist_state(
                        owner_key_pos(rr, cc, oo) as nat,
                    ),
            decreases COLS - c,
        {
            let mut o: usize = 0;
            while o < 3
                invariant
                    r < ROWS,
                    c < COLS,
                    o <= 3,
                    seed == zobrist_state((1700 + r * 51 + c * 3 + o) as nat),
                    forall|rr: int, cc: int, oo: int|
                        0 <= rr < 10 && 0 <= cc < 17 && 0 <= oo < 3 && (rr < r || (rr == r && cc
                            < c) || (rr == r && cc == c && oo < o)) ==> #[trigger] owner@[rr]@[cc]@[oo]
                            == zobrist_state(owner_key_pos(rr, cc, oo) as nat),
                decreases 3 - o,
            {
                let x = xorshift64(&mut seed);
                owner[r][c][o] = x;
                o += 1;
            }
            c += 1;
        }
        r += 1;
    }
    let player = xorshift64(&mut seed);
    let mut passes = [0u64; 3];
    let mut i: usize = 0;
    while i < 3
        invariant
            i <= 3,
            seed == zobrist_state((2211 + i) as nat),
            forall|j: int| 0 <= j < i ==> #[trigger] passes@[j] == zobrist_state((2212 + j) as nat),
        decreases 3 - i,
    {
        let x = xorshift64(&mut seed);
        passes[i] = x;
        i += 1;
    }
    let z = ZobristTables { value, owner, player, passes };
    assert(forall|r: int, c: int, v: int|
        0 <= r < 10 && 0 <= c < 17 && 0 <= v < 10 ==> #[trigger] z.vkey(r, c, v) == value@[r]@[c]@[v]);
    assert(forall|r: int, c: int, o: int|
        0 <= r < 10 && 0 <= c < 17 && 0 <= o < 3 ==> #[trigger] z.okey(r, c, o) == owner@[r]@[c]@[o]);
    z
}

/// Owner slot of an owner mark: 1 for the first player, 2 for the second, 0 otherwise.
pub open spec fn owner_slot(owner: i8) -> int {
    if owner == FIRST_PLAYER {
        1
    } else if owner == SECOND_PLAYER {
        2
    } else {
        0
    }
}

/// Key of a cell holding `value` and `owner`: the value key (values 1..=9 only) xor the owner key.
pub open spec fn spec_cell_hash(z: ZobristTables, r: int, c: int, value: i8, owner: i8) -> u64 {
    (if 1 <= value <= 9 {
        z.vkey(r, c, value as int)
    } else {
        0u64
    }) ^ z.okey(r, c, owner_slot(owner))
}

/// Key of the side to move: the player key for the first player, 0 otherwise.
pub open spec fn spec_player_hash(z: ZobristTables, player: i8) -> u64 {
    if player == FIRST_PLAYER {
        z.player
    } else {
        0u64
    }
}

/// Key of a pass count: the pass key for counts 0..=2, 0 otherwise.
pub open spec fn spec_passes_hash(z: ZobristTables, consecutive_passes: i32) -> u64 {
    if 0 <= consecutive_passes <= 2 {
        z.passes@[consecutive_passes as int]
    } else {
        0u64
    }
}

/// Key of a cell holding `value` and `owner`.
pub fn cell_hash(z: &ZobristTables, r: usize, c: usize, value: i8, owner: i8) -> (h: u64)
    requires
        r < ROWS,
        c < COLS,
    ensures
        h == spec_cell_hash(*z, r as int, c as int, value, owner),
{
    let vk = if value > 0 && value <= 9 {
        z.value[r][c][value as usize]
    } else {
        0u64
    };
    let oi: usize = if owner == FIRST_PLAYER {
        1
    } else if owner == SECOND_PLAYER {
        2
    } else {
        0
    };
    vk ^ z.owner[r][c][oi]
}

/// Key of the side to move.
pub fn player_hash(z: &ZobristTables, player: i8) -> (h: u64)
    ensures
        h == spec_player_hash(*z, player),
{
    if player == FIRST_PLAYER {
        z.player
    } else {
        0
    }
}

/// Key of a pass count.
pub fn passes_hash(z: &ZobristTables, consecutive_passes: i32) -> (h: u64)
    ensures
        h == spec_passes_hash(*z, consecutive_passes),
{
    if 0 <= consecutive_passes && consecutive_passes <= 2 {
        z.passes[consecutive_passes as usize]
    } else {
        0
    }
}

/// The hash of a board: the xor of all cell keys, the side-to-move key and the pass-count key.
pub open spec fn spec_hash_board(b: Board) -> u64 {
    cells_xor(b.zobrist, cells(b), 170) ^ spec_player_hash(b.zobrist, b.player) ^ spec_passes_hash(
        b.zobrist,
        b.consecutive_passes,
    )
}

/// Hashes a board from scratch.
pub fn hash_board(board: &Board) -> (h: u64)
    ensures
        h == spec_hash_board(*board),
{
    let mut h: u64 = 0;
    let mut i: usize = 0;
    while i < ROWS * COLS
        invariant
            i <= 170,
            h == cells_xor(board.zobrist, cells(*board), i as int),
        decreases 170 - i,
    {
        let r = i / COLS;
        let c = i % COLS;
        h = h ^ cell_hash(&board.zobrist, r, c, board.values[r][c], board.owners[r][c]);
        i += 1;
    }
    h ^ player_hash(&board.zobrist, board.player) ^ passes_hash(
        &board.zobrist,
        board.consecutive_passes,
    )
}

/// An xorshift step keeps a state other than 0 other than 0.
pub proof fn lemma_xorshift_nonzero(x: u64)
    requires
        x != 0,
    ensures
        xorshift_step(x) != 0,
{
    assert(x != 0 ==> {
        let a = x ^ (x << 13u64);
        let b = a ^ (a >> 7u64);
        b ^ (b << 17u64) != 0
    }) by (bit_vector);
}

/// Every state of the key sequence is other than 0.
pub proof fn lemma_zobrist_state_nonzero(n: nat)
    ensures
        zobrist_state(n) != 0,
    decreases n,
{
    if n > 0 {
        lemma_zobrist_state_nonzero((n - 1) as nat);
        lemma_xorshift_nonzero(zobrist_state((n - 1) as nat));
    }
}

/// Boards that differ only in the side to move, first against second, get different keys: the
/// generated key of the first player is not 0, and the second player has key 0.
pub proof fn lemma_side_to_move_keys_differ(a: Board, b: Board)
    requires
        a.zobrist.is_canonical(),
        b.zobrist == a.zobrist,
        cells(a) == cells(b),
        a.consecutive_passes == b.consecutive_passes,
        a.player == FIRST_PLAYER,
        b.player == SECOND_PLAYER,
    ensures
        spec_hash_board(a) != spec_hash_board(b),
{
    lemma_zobrist_state_nonzero(2211);
    let z = a.zobrist;
    let c = cells_xor(z, cells(a), 170);
    let q = spec_passes_hash(z, a.consecutive_passes);
    let p = z.player;
    assert(p != 0);
    assert(spec_hash_board(a) == c ^ p ^ q);
    assert(spec_hash_board(b) == c ^ 0u64 ^ q);
    assert(p != 0 ==> (c ^ p ^ q) != (c ^ 0u64 ^ q)) by (bit_vector);
}

} // verus!
