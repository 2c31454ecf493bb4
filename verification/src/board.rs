use vstd::prelude::*;

use crate::search::zobrist::{ZobristTables, spec_cell_hash, spec_hash_board, spec_player_hash, spec_passes_hash, get_zobrist, hash_board, player_hash, passes_hash, cell_hash};
use crate::types::{ValueGrid, OwnerGrid, FIRST_PLAYER, SECOND_PLAYER, NO_OWNER, ROWS, COLS, Move, MovePriorConfig, opponent, spec_opponent, pass_move, extent_fits, extents_fit, sum_fits, div_trunc, classify_shape, spec_classify_shape};
use crate::text::{is_digit, split_tokens, token_spans};
use vstd::string::StringSliceAdditionalSpecFns;
use crate::movegen::{rect_sum, row_sum, legal_move, check_inscribed, lemma_rect_prefix, generate_legal_moves, all_legal_in_order, legal_rects_in_order, lemma_same_rects_in_order};

verus! {

/// Feature counts kept up to date as moves are played.
#[derive(Clone, Copy, Debug, Default, PartialEq, Eq, Structural)]
pub struct EvalCache {
    pub owned_first: i32,
    pub owned_second: i32,
    pub connectivity_first: i32,
    pub connectivity_second: i32,
    pub corners_first: i32,
    pub corners_second: i32,
    pub edges_first: i32,
    pub edges_second: i32,
    pub live_adjacent_first: i32,
    pub live_adjacent_second: i32,
}

/// One cell as it was before a move changed it.
#[derive(Clone, Copy, Debug, Default)]
pub struct CellChange {
    pub r: i8,
    pub c: i8,
    pub old_value: i8,
    pub old_owner: i8,
}

/// Everything a move changed, so that the move can be taken back.
#[derive(Clone, Copy)]
pub struct MoveRecord {
    pub changes: [CellChange; 170],
    pub change_count: usize,
    pub old_player: i8,
    pub old_consecutive_passes: i32,
    pub old_hash: u64,
    pub old_eval_cache: EvalCache,
    pub was_pass: bool,
}

/// Game state: mushroom values, owners, side to move, pass count, hash and feature counts.
#[derive(Clone, Copy)]
pub struct Board {
    pub values: ValueGrid,
    pub owners: OwnerGrid,
    pub player: i8,
    pub consecutive_passes: i32,
    pub hash: u64,
    pub eval_cache: EvalCache,
    pub zobrist: ZobristTables,
}

// ---------------------------------------------------------------------------
// The model of a board.
// ---------------------------------------------------------------------------
/// Row of the cell with flat index `i` (row-major order).
pub open spec fn fr(i: int) -> int {
    i / 17
}

/// Column of the cell with flat index `i` (row-major order).
pub open spec fn fc(i: int) -> int {
    i % 17
}

/// `(r, c)` is a cell of the board.
pub open spec fn in_board(r: int, c: int) -> bool {
    0 <= r < 10 && 0 <= c < 17
}

/// The value at `(r, c)`.
pub open spec fn gval(g: ValueGrid, r: int, c: int) -> i8 {
    g@[r]@[c]
}

impl Board {
    /// The value at `(r, c)`.
    #[verifier::inline]
    pub open spec fn val(self, r: int, c: int) -> i8 {
        self.values@[r]@[c]
    }

    /// The owner at `(r, c)`.
    #[verifier::inline]
    pub open spec fn own(self, r: int, c: int) -> i8 {
        self.owners@[r]@[c]
    }
}

/// The values and owners of a board.
pub type Cells = (ValueGrid, OwnerGrid);

/// The values and owners of a board.
#[verifier::inline]
pub open spec fn cells(b: Board) -> Cells {
    (b.values, b.owners)
}

/// The value at `(r, c)`.
#[verifier::inline]
pub open spec fn gv(g: Cells, r: int, c: int) -> i8 {
    g.0@[r]@[c]
}

/// The owner at `(r, c)`.
#[verifier::inline]
pub open spec fn go(g: Cells, r: int, c: int) -> i8 {
    g.1@[r]@[c]
}

/// Some 4-neighbour of `(r, c)` on the board still holds a mushroom.
pub open spec fn spec_live_neighbor(g: Cells, r: int, c: int) -> bool {
    (r > 0 && gv(g, r - 1, c) > 0) || (r + 1 < 10 && gv(g, r + 1, c) > 0) || (c > 0 && gv(
        g,
        r,
        c - 1,
    ) > 0) || (c + 1 < 17 && gv(g, r, c + 1) > 0)
}

/// `(r, c)` is one of the four corners.
pub open spec fn spec_is_corner(r: int, c: int) -> bool {
    (r == 0 || r == 9) && (c == 0 || c == 16)
}

/// `(r, c)` lies on the border.
pub open spec fn spec_is_edge(r: int, c: int) -> bool {
    r == 0 || r == 9 || c == 0 || c == 16
}

/// The player whose count feature `k` holds: even features the first player, odd the second.
pub open spec fn field_player(k: int) -> i8 {
    if k % 2 == 0 {
        FIRST_PLAYER
    } else {
        SECOND_PLAYER
    }
}

/// Feature number of count kind `kind` (0 owned, 1 connectivity, 2 corners, 3 edges,
/// 4 live-adjacent) for `owner`; -1 when the owner is nobody.
pub open spec fn field_of(kind: int, owner: i8) -> int {
    if owner == FIRST_PLAYER {
        2 * kind
    } else if owner == SECOND_PLAYER {
        2 * kind + 1
    } else {
        -1
    }
}

/// What cell `(r, c)` adds to feature `k`.
pub open spec fn cell_part(g: Cells, r: int, c: int, k: int) -> int {
    let p = field_player(k);
    if go(g, r, c) != p {
        0
    } else if k < 2 {
        1
    } else if k < 4 {
        (if c + 1 < 17 && go(g, r, c + 1) == p {
            1int
        } else {
            0int
        }) + (if r + 1 < 10 && go(g, r + 1, c) == p {
            1int
        } else {
            0int
        })
    } else if k < 6 {
        if spec_is_corner(r, c) {
            1
        } else {
            0
        }
    } else if k < 8 {
        if spec_is_edge(r, c) {
            1
        } else {
            0
        }
    } else {
        if spec_live_neighbor(g, r, c) {
            1
        } else {
            0
        }
    }
}

/// Feature `k` summed over the first `n` cells in row-major order.
pub open spec fn total(g: Cells, k: int, n: int) -> int
    decreases n,
{
    if n <= 0 {
        0
    } else {
        total(g, k, n - 1) + cell_part(g, fr(n - 1), fc(n - 1), k)
    }
}

/// `g2` is `g` with every owner negated (the first player's cells becoming the second's and
/// back) and the values kept.
pub open spec fn owners_swapped(g: Cells, g2: Cells) -> bool {
    forall|r: int, c: int|
        #![trigger g2.1@[r]@[c]]
        in_board(r, c) ==> gv(g2, r, c) == gv(g, r, c) && go(g2, r, c) as int == -(go(g, r, c) as int)
}

/// The same feature for the other player.
pub open spec fn other_field(k: int) -> int {
    if k % 2 == 0 {
        k + 1
    } else {
        k - 1
    }
}

/// With the owners swapped, a cell adds to a feature what it added to the other player's.
proof fn lemma_cell_part_swapped(g: Cells, g2: Cells, r: int, c: int, k: int)
    requires
        owners_swapped(g, g2),
        in_board(r, c),
        0 <= k < 10,
    ensures
        cell_part(g2, r, c, k) == cell_part(g, r, c, other_field(k)),
{
    assert(go(g2, r, c) as int == -(go(g, r, c) as int));
    if c + 1 < 17 {
        assert(go(g2, r, c + 1) as int == -(go(g, r, c + 1) as int));
    }
    if r + 1 < 10 {
        assert(go(g2, r + 1, c) as int == -(go(g, r + 1, c) as int));
    }
    if r > 0 {
        assert(go(g2, r - 1, c) as int == -(go(g, r - 1, c) as int));
    }
    if c > 0 {
        assert(go(g2, r, c - 1) as int == -(go(g, r, c - 1) as int));
    }
    assert(spec_live_neighbor(g2, r, c) == spec_live_neighbor(g, r, c));
}

/// With the owners swapped, each feature counts what the other player's counted.
pub proof fn lemma_total_swapped(g: Cells, g2: Cells, k: int, n: int)
    requires
        owners_swapped(g, g2),
        0 <= k < 10,
        0 <= n <= 170,
    ensures
        total(g2, k, n) == total(g, other_field(k), n),
    decreases n,
{
    if n > 0 {
        lemma_total_swapped(g, g2, k, n - 1);
        lemma_unflat(n - 1);
        lemma_cell_part_swapped(g, g2, fr(n - 1), fc(n - 1), k);
    }
}

/// Feature `k` of a cache: owned, connectivity, corners, edges, live-adjacent; first, second.
pub open spec fn cache_field(e: EvalCache, k: int) -> int {
    if k == 0 {
        e.owned_first as int
    } else if k == 1 {
        e.owned_second as int
    } else if k == 2 {
        e.connectivity_first as int
    } else if k == 3 {
        e.connectivity_second as int
    } else if k == 4 {
        e.corners_first as int
    } else if k == 5 {
        e.corners_second as int
    } else if k == 6 {
        e.edges_first as int
    } else if k == 7 {
        e.edges_second as int
    } else if k == 8 {
        e.live_adjacent_first as int
    } else {
        e.live_adjacent_second as int
    }
}

/// The cache holds, for each feature, its count over the whole board.
pub open spec fn cache_consistent(b: Board) -> bool {
    forall|k: int| 0 <= k < 10 ==> #[trigger] cache_field(b.eval_cache, k) == total(cells(b), k, 170)
}

/// The key of the cell with flat index `i`.
pub open spec fn cell_key(z: ZobristTables, g: Cells, i: int) -> u64 {
    spec_cell_hash(z, fr(i), fc(i), gv(g, fr(i), fc(i)), go(g, fr(i), fc(i)))
}

/// Xor of the keys of the first `n` cells.
pub open spec fn cells_xor(z: ZobristTables, g: Cells, n: int) -> u64
    decreases n,
{
    if n <= 0 {
        0u64
    } else {
        cells_xor(z, g, n - 1) ^ cell_key(z, g, n - 1)
    }
}

/// How far the stored hash is from the hash of the position (0 when it is right).
pub open spec fn hash_drift(b: Board) -> u64 {
    b.hash ^ spec_hash_board(b)
}

impl Board {
    /// The cache and the hash match the position, and the key tables are the generated ones.
    pub open spec fn wf(self) -> bool {
        &&& self.zobrist.is_canonical()
        &&& cache_consistent(self)
        &&& self.hash == spec_hash_board(self)
    }

    /// The cache matches the position (all that moves need).
    pub open spec fn ready(self) -> bool {
        cache_consistent(self)
    }
}

/// Both boards hold the same values and owners everywhere.
pub open spec fn same_grid(a: Board, b: Board) -> bool {
    forall|r: int, c: int| in_board(r, c) ==> a.val(r, c) == b.val(r, c) && a.own(r, c) == b.own(r, c)
}

// ---------------------------------------------------------------------------
// Lemmas on the model.
// ---------------------------------------------------------------------------
/// The flat index of `(r, c)` maps back to `(r, c)`.
pub proof fn lemma_flat(r: int, c: int)
    requires
        in_board(r, c),
    ensures
        fr(r * 17 + c) == r,
        fc(r * 17 + c) == c,
        0 <= r * 17 + c < 170,
{
}

/// Every flat index below 170 names a cell of the board.
pub proof fn lemma_unflat(i: int)
    requires
        0 <= i < 170,
    ensures
        in_board(fr(i), fc(i)),
        fr(i) * 17 + fc(i) == i,
{
}

/// A feature count over `n` cells lies between 0 and `2n`.
pub proof fn lemma_total_bounds(g: Cells, k: int, n: int)
    requires
        0 <= n,
    ensures
        0 <= total(g, k, n) <= 2 * n,
    decreases n,
{
    if n > 0 {
        lemma_total_bounds(g, k, n - 1);
    }
}

/// What cell `(r, c)` adds to live-adjacent feature `k` when it is flagged in `fl`.
pub open spec fn live_part(g: Cells, fl: [[bool; 17]; 10], r: int, c: int, k: int) -> int {
    if (k == 8 || k == 9) && fl@[r]@[c] {
        cell_part(g, r, c, k)
    } else {
        0
    }
}

/// What cell `(r, c)` adds to connectivity feature `k` through pairs that touch a cell flagged
/// in `fl` (the pair to the right and the pair below).
pub open spec fn conn_part(g: Cells, fl: [[bool; 17]; 10], r: int, c: int, k: int) -> int {
    let p = field_player(k);
    if (k == 2 || k == 3) && go(g, r, c) == p {
        (if c + 1 < 17 && (fl@[r]@[c] || fl@[r]@[c + 1]) && go(g, r, c + 1) == p {
            1int
        } else {
            0int
        }) + (if r + 1 < 10 && (fl@[r]@[c] || fl@[r + 1]@[c]) && go(g, r + 1, c) == p {
            1int
        } else {
            0int
        })
    } else {
        0
    }
}

/// `live_part` summed over the first `n` cells.
pub open spec fn live_total(g: Cells, fl: [[bool; 17]; 10], k: int, n: int) -> int
    decreases n,
{
    if n <= 0 {
        0
    } else {
        live_total(g, fl, k, n - 1) + live_part(g, fl, fr(n - 1), fc(n - 1), k)
    }
}

/// `conn_part` summed over the first `n` cells.
pub open spec fn conn_total(g: Cells, fl: [[bool; 17]; 10], k: int, n: int) -> int
    decreases n,
{
    if n <= 0 {
        0
    } else {
        conn_total(g, fl, k, n - 1) + conn_part(g, fl, fr(n - 1), fc(n - 1), k)
    }
}

/// Sums of the flagged parts lie between 0 and `2n`.
pub proof fn lemma_part_bounds(g: Cells, fi: [[bool; 17]; 10], fl: [[bool; 17]; 10], k: int, n: int)
    requires
        0 <= n,
    ensures
        0 <= live_total(g, fi, k, n) <= 2 * n,
        0 <= conn_total(g, fl, k, n) <= 2 * n,
        !(k == 8 || k == 9) ==> live_total(g, fi, k, n) == 0,
        !(k == 2 || k == 3) ==> conn_total(g, fl, k, n) == 0,
    decreases n,
{
    if n > 0 {
        lemma_part_bounds(g, fi, fl, k, n - 1);
    }
}

/// When every cell's contribution outside the flagged parts is the same on two boards, the
/// feature sums differ only by the flagged sums.
pub proof fn lemma_total_masked(
    g1: Cells,
    g2: Cells,
    fi: [[bool; 17]; 10],
    fl: [[bool; 17]; 10],
    k: int,
    n: int,
)
    requires
        0 <= n <= 170,
        forall|i: int|
            0 <= i < n ==> cell_part(g1, fr(i), fc(i), k) - live_part(g1, fi, fr(i), fc(i), k)
                - conn_part(g1, fl, fr(i), fc(i), k) == cell_part(g2, fr(i), fc(i), k) - live_part(
                g2,
                fi,
                fr(i),
                fc(i),
                k,
            ) - conn_part(g2, fl, fr(i), fc(i), k),
    ensures
        total(g1, k, n) - live_total(g1, fi, k, n) - conn_total(g1, fl, k, n) == total(g2, k, n)
            - live_total(g2, fi, k, n) - conn_total(g2, fl, k, n),
    decreases n,
{
    if n > 0 {
        lemma_total_masked(g1, g2, fi, fl, k, n - 1);
    }
}

/// Changing a board at flat cell `j` only (for feature `k`) changes the sum by that cell's change.
pub proof fn lemma_total_one(g1: Cells, g2: Cells, k: int, n: int, j: int)
    requires
        0 <= j < n <= 170,
        forall|i: int|
            0 <= i < n && i != j ==> cell_part(g1, fr(i), fc(i), k) == cell_part(g2, fr(i), fc(i), k),
    ensures
        total(g2, k, n) == total(g1, k, n) - cell_part(g1, fr(j), fc(j), k) + cell_part(
            g2,
            fr(j),
            fc(j),
            k,
        ),
    decreases n,
{
    if n - 1 == j {
        lemma_total_same(g1, g2, k, n - 1);
    } else {
        lemma_total_one(g1, g2, k, n - 1, j);
    }
}

/// Boards that give the first `n` cells the same contribution have the same sum.
pub proof fn lemma_total_same(g1: Cells, g2: Cells, k: int, n: int)
    requires
        0 <= n <= 170,
        forall|i: int| 0 <= i < n ==> cell_part(g1, fr(i), fc(i), k) == cell_part(g2, fr(i), fc(i), k),
    ensures
        total(g2, k, n) == total(g1, k, n),
    decreases n,
{
    if n > 0 {
        lemma_total_same(g1, g2, k, n - 1);
    }
}

/// Xor is associative and commutative, and cancels.
pub proof fn lemma_xor_facts(a: u64, b: u64, c: u64)
    ensures
        (a ^ b) ^ c == a ^ (b ^ c),
        a ^ b == b ^ a,
        a ^ a == 0u64,
        a ^ 0u64 == a,
        0u64 ^ a == a,
{
    assert((a ^ b) ^ c == a ^ (b ^ c)) by (bit_vector);
    assert(a ^ b == b ^ a) by (bit_vector);
    assert(a ^ a == 0u64) by (bit_vector);
    assert(a ^ 0u64 == a) by (bit_vector);
    assert(0u64 ^ a == a) by (bit_vector);
}

/// Changing one cell `j` changes the xor of keys by the old and the new key of that cell.
pub proof fn lemma_cells_xor_one(z: ZobristTables, g1: Cells, g2: Cells, n: int, j: int)
    requires
        0 <= j < n <= 170,
        forall|i: int| 0 <= i < n && i != j ==> cell_key(z, g1, i) == cell_key(z, g2, i),
    ensures
        cells_xor(z, g2, n) == cells_xor(z, g1, n) ^ cell_key(z, g1, j) ^ cell_key(z, g2, j),
    decreases n,
{
    let x1 = cell_key(z, g1, j);
    let x2 = cell_key(z, g2, j);
    if n - 1 == j {
        lemma_cells_xor_same(z, g1, g2, n - 1);
        let p = cells_xor(z, g1, n - 1);
        assert(p ^ x2 == (p ^ x1) ^ x1 ^ x2) by (bit_vector);
    } else {
        lemma_cells_xor_one(z, g1, g2, n - 1, j);
        let p = cells_xor(z, g1, n - 1);
        let y = cell_key(z, g1, n - 1);
        assert((p ^ x1 ^ x2) ^ y == (p ^ y) ^ x1 ^ x2) by (bit_vector);
    }
}

/// Boards with the same keys on the first `n` cells have the same xor.
pub proof fn lemma_cells_xor_same(z: ZobristTables, g1: Cells, g2: Cells, n: int)
    requires
        0 <= n <= 170,
        forall|i: int| 0 <= i < n ==> cell_key(z, g1, i) == cell_key(z, g2, i),
    ensures
        cells_xor(z, g2, n) == cells_xor(z, g1, n),
    decreases n,
{
    if n > 0 {
        lemma_cells_xor_same(z, g1, g2, n - 1);
    }
}

/// The stored hash is right exactly when the drift is 0.
pub proof fn lemma_drift_zero(b: Board)
    ensures
        (hash_drift(b) == 0u64) <==> (b.hash == spec_hash_board(b)),
{
    let h = b.hash;
    let s = spec_hash_board(b);
    assert((h ^ s == 0u64) <==> (h == s)) by (bit_vector);
}

// ---------------------------------------------------------------------------
// Small helpers.
// ---------------------------------------------------------------------------
impl EvalCache {
    /// All counts 0.
    pub fn zero() -> (e: EvalCache)
        ensures
            forall|k: int| 0 <= k < 10 ==> #[trigger] cache_field(e, k) == 0,
    {
        EvalCache {
            owned_first: 0,
            owned_second: 0,
            connectivity_first: 0,
            connectivity_second: 0,
            corners_first: 0,
            corners_second: 0,
            edges_first: 0,
            edges_second: 0,
            live_adjacent_first: 0,
            live_adjacent_second: 0,
        }
    }
}

/// Every count of the cache lies within `m` of 0.
pub open spec fn cache_within(e: EvalCache, m: int) -> bool {
    forall|k: int| 0 <= k < 10 ==> -m <= #[trigger] cache_field(e, k) <= m
}

/// Adds `delta` to count kind `kind` of `owner` (nothing for an unowned cell).
fn adjust_count(cache: &mut EvalCache, kind: u8, owner: i8, delta: i32)
    requires
        kind < 5,
        -1 <= delta <= 1,
        field_of(kind as int, owner) >= 0 ==> -1000000 <= cache_field(
            *old(cache),
            field_of(kind as int, owner),
        ) <= 1000000,
    ensures
        forall|k: int|
            0 <= k < 10 ==> #[trigger] cache_field(*final(cache), k) == cache_field(*old(cache), k) + (
            if k == field_of(kind as int, owner) {
                delta as int
            } else {
                0
            }),
{
    if owner == FIRST_PLAYER {
        if kind == 0 {
            cache.owned_first = cache.owned_first + delta;
        } else if kind == 1 {
            cache.connectivity_first = cache.connectivity_first + delta;
        } else if kind == 2 {
            cache.corners_first = cache.corners_first + delta;
        } else if kind == 3 {
            cache.edges_first = cache.edges_first + delta;
        } else {
            cache.live_adjacent_first = cache.live_adjacent_first + delta;
        }
    } else if owner == SECOND_PLAYER {
        if kind == 0 {
            cache.owned_second = cache.owned_second + delta;
        } else if kind == 1 {
            cache.connectivity_second = cache.connectivity_second + delta;
        } else if kind == 2 {
            cache.corners_second = cache.corners_second + delta;
        } else if kind == 3 {
            cache.edges_second = cache.edges_second + delta;
        } else {
            cache.live_adjacent_second = cache.live_adjacent_second + delta;
        }
    }
}


// ---------------------------------------------------------------------------
// Moves on the model.
// ---------------------------------------------------------------------------
/// `(r, c)` lies inside the rectangle of `mv`.
pub open spec fn in_rect(mv: Move, r: int, c: int) -> bool {
    mv.r1 <= r <= mv.r2 && mv.c1 <= c <= mv.c2
}

/// The rectangle of `mv` is empty or lies on the board.
pub open spec fn rect_ok(mv: Move) -> bool {
    mv.r1 > mv.r2 || mv.c1 > mv.c2 || (0 <= mv.r1 && mv.r2 < 10 && 0 <= mv.c1 && mv.c2 < 17)
}

/// `(r, c)` lies in the rectangle or next to it (4-neighbourhood).
pub open spec fn near_rect(mv: Move, r: int, c: int) -> bool {
    in_rect(mv, r, c) || in_rect(mv, r - 1, c) || in_rect(mv, r + 1, c) || in_rect(mv, r, c - 1)
        || in_rect(mv, r, c + 1)
}

/// `b1` holds the cells of `b0` with the rectangle of `mv` emptied and claimed by `b0`'s
/// side to move.
pub open spec fn played(b0: Board, b1: Board, mv: Move) -> bool {
    forall|r: int, c: int|
        #![trigger b1.val(r, c)]
        #![trigger b1.own(r, c)]
        in_board(r, c) ==> b1.val(r, c) == (if in_rect(mv, r, c) {
            0
        } else {
            b0.val(r, c)
        }) && b1.own(r, c) == (if in_rect(mv, r, c) {
            b0.player
        } else {
            b0.own(r, c)
        })
    }

/// `b1` is `b0` after `mv`: a pass keeps the cells and counts one more pass; a rectangle is
/// emptied and claimed and the pass count drops to 0. The turn passes to the other side, the
/// counts match the cells, and the stored hash is off by exactly what it was off before.
pub open spec fn spec_applied(b0: Board, b1: Board, mv: Move) -> bool {
    &&& if mv.spec_is_pass() {
        &&& same_grid(b0, b1)
        &&& b1.consecutive_passes == b0.consecutive_passes + 1
        &&& b1.eval_cache == b0.eval_cache
    } else {
        &&& played(b0, b1, mv)
        &&& b1.consecutive_passes == 0
    }
    &&& cache_consistent(b1)
    &&& b1.player == spec_opponent(b0.player)
    &&& b1.zobrist == b0.zobrist
    &&& hash_drift(b1) == hash_drift(b0)
}

/// Boards that agree on every cell have equal value and owner arrays.
pub proof fn lemma_same_grid(b0: Board, b1: Board)
    requires
        same_grid(b0, b1),
    ensures
        cells(b0) == cells(b1),
{
    assert forall|r: int| 0 <= r < 10 implies b0.values@[r] =~= b1.values@[r] by {
        assert forall|c: int| 0 <= c < 17 implies b0.values@[r]@[c] == b1.values@[r]@[c] by {
            assert(in_board(r, c));
        }
    }
    assert forall|r: int| 0 <= r < 10 implies b0.owners@[r] =~= b1.owners@[r] by {
        assert forall|c: int| 0 <= c < 17 implies b0.owners@[r]@[c] == b1.owners@[r]@[c] by {
            assert(in_board(r, c));
        }
    }
    assert(b0.values =~= b1.values);
    assert(b0.owners =~= b1.owners);
}

/// Outside the flagged parts, a played board contributes what the board before did.
pub proof fn lemma_unmasked_equal(
    b0: Board,
    b1: Board,
    mv: Move,
    fi: [[bool; 17]; 10],
    fl: [[bool; 17]; 10],
    r: int,
    c: int,
    k: int,
)
    requires
        played(b0, b1, mv),
        in_board(r, c),
        k == 2 || k == 3 || k == 8 || k == 9,
        forall|x: int, y: int| in_board(x, y) ==> #[trigger] fi@[x]@[y] == near_rect(mv, x, y),
        forall|x: int, y: int| in_board(x, y) ==> #[trigger] fl@[x]@[y] == in_rect(mv, x, y),
    ensures
        cell_part(cells(b0), r, c, k) - live_part(cells(b0), fi, r, c, k) - conn_part(cells(b0), fl, r, c, k) == cell_part(
            cells(b1),
            r,
            c,
            k,
        ) - live_part(cells(b1), fi, r, c, k) - conn_part(cells(b1), fl, r, c, k),
{
    assert(b1.val(r, c) == (if in_rect(mv, r, c) { 0 } else { b0.val(r, c) }));
    assert(b1.own(r, c) == (if in_rect(mv, r, c) { b0.player } else { b0.own(r, c) }));
    assert(fi@[r]@[c] == near_rect(mv, r, c));
    assert(fl@[r]@[c] == in_rect(mv, r, c));
    if r + 1 < 10 {
        assert(in_board(r + 1, c));
        assert(b1.own(r + 1, c) == (if in_rect(mv, r + 1, c) { b0.player } else { b0.own(r + 1, c) }));
        assert(fl@[r + 1]@[c] == in_rect(mv, r + 1, c));
    }
    if c + 1 < 17 {
        assert(in_board(r, c + 1));
        assert(b1.own(r, c + 1) == (if in_rect(mv, r, c + 1) { b0.player } else { b0.own(r, c + 1) }));
        assert(fl@[r]@[c + 1] == in_rect(mv, r, c + 1));
    }
    if r > 0 {
        assert(b1.val(r - 1, c) == (if in_rect(mv, r - 1, c) { 0 } else { b0.val(r - 1, c) }));
    }
    if r + 1 < 10 {
        assert(b1.val(r + 1, c) == (if in_rect(mv, r + 1, c) { 0 } else { b0.val(r + 1, c) }));
    }
    if c > 0 {
        assert(b1.val(r, c - 1) == (if in_rect(mv, r, c - 1) { 0 } else { b0.val(r, c - 1) }));
    }
    if c + 1 < 17 {
        assert(b1.val(r, c + 1) == (if in_rect(mv, r, c + 1) { 0 } else { b0.val(r, c + 1) }));
    }
}

impl MoveRecord {
    /// A record with no changes, all other fields zero.
    pub fn new() -> (rec: Self)
        ensures
            rec.change_count == 0,
            !rec.was_pass,
            rec.old_player == 0,
            rec.old_consecutive_passes == 0,
            rec.old_hash == 0,
            forall|k: int| 0 <= k < 10 ==> #[trigger] cache_field(rec.old_eval_cache, k) == 0,
            forall|i: int|
                0 <= i < 170 ==> #[trigger] rec.changes@[i] == (CellChange { r: 0, c: 0, old_value: 0, old_owner: 0 }),
    {
        MoveRecord {
            changes: [CellChange { r: 0, c: 0, old_value: 0, old_owner: 0 }; 170],
            change_count: 0,
            old_player: 0,
            old_consecutive_passes: 0,
            old_hash: 0,
            old_eval_cache: EvalCache::zero(),
            was_pass: false,
        }
    }
}

/// Adds `delta` times the live-adjacent counts of the cells flagged in `fl`.
#[verifier::spinoff_prover]
#[verifier::rlimit(40)]
fn live_pass(b: &Board, fl: &[[bool; 17]; 10], cache: &mut EvalCache, delta: i32)
    requires
        delta == 1 || delta == -1,
        cache_within(*old(cache), 500000),
    ensures
        forall|k: int|
            0 <= k < 10 ==> #[trigger] cache_field(*final(cache), k) == cache_field(*old(cache), k)
                + delta * live_total(cells(*b), *fl, k, 170),
{
    let mut i: usize = 0;
    while i < 170
        invariant
            i <= 170,
            delta == 1 || delta == -1,
            cache_within(*old(cache), 500000),
            forall|k: int|
                0 <= k < 10 ==> #[trigger] cache_field(*cache, k) == cache_field(*old(cache), k)
                    + delta * live_total(cells(*b), *fl, k, i as int),
        decreases 170 - i,
    {
        proof {
            assert forall|k: int| 0 <= k < 10 implies 0 <= #[trigger] live_total(cells(*b), *fl, k, i as int)
                <= 340 by {
                lemma_part_bounds(cells(*b), *fl, *fl, k, i as int);
            }
        }
        let r = i / COLS;
        let c = i % COLS;
        if fl[r][c] {
            let owner = b.owners[r][c];
            if owner != NO_OWNER && b.cell_has_live_neighbor(r, c) {
                adjust_count(cache, 4, owner, delta);
            }
        }
        i += 1;
    }
}

/// Adds `delta` times the connectivity counts of the pairs touching a cell flagged in `fl`.
#[verifier::spinoff_prover]
#[verifier::rlimit(40)]
fn conn_pass(b: &Board, fl: &[[bool; 17]; 10], cache: &mut EvalCache, delta: i32)
    requires
        delta == 1 || delta == -1,
        cache_within(*old(cache), 500000),
    ensures
        forall|k: int|
            0 <= k < 10 ==> #[trigger] cache_field(*final(cache), k) == cache_field(*old(cache), k)
                + delta * conn_total(cells(*b), *fl, k, 170),
{
    let mut i: usize = 0;
    while i < 170
        invariant
            i <= 170,
            delta == 1 || delta == -1,
            cache_within(*old(cache), 500000),
            forall|k: int|
                0 <= k < 10 ==> #[trigger] cache_field(*cache, k) == cache_field(*old(cache), k)
                    + delta * conn_total(cells(*b), *fl, k, i as int),
        decreases 170 - i,
    {
        proof {
            assert forall|k: int| 0 <= k < 10 implies 0 <= #[trigger] conn_total(cells(*b), *fl, k, i as int)
                <= 340 by {
                lemma_part_bounds(cells(*b), *fl, *fl, k, i as int);
            }
        }
        let r = i / COLS;
        let c = i % COLS;
        let owner = b.owners[r][c];
        if owner != NO_OWNER {
            if c + 1 < COLS && (fl[r][c] || fl[r][c + 1]) && b.owners[r][c + 1] == owner {
                adjust_count(cache, 1, owner, delta);
            }
            if r + 1 < ROWS && (fl[r][c] || fl[r + 1][c]) && b.owners[r + 1][c] == owner {
                adjust_count(cache, 1, owner, delta);
            }
        }
        i += 1;
    }
}

impl Board {
    pub(crate) fn cell_has_live_neighbor(&self, r: usize, c: usize) -> (b: bool)
        requires
            r < 10,
            c < 17,
        ensures
            b == spec_live_neighbor(cells(*self), r as int, c as int),
    {
        (r > 0 && self.values[r - 1][c] > 0) || (r + 1 < ROWS && self.values[r + 1][c] > 0) || (c
            > 0 && self.values[r][c - 1] > 0) || (c + 1 < COLS && self.values[r][c + 1] > 0)
    }

    fn cell_is_corner(r: usize, c: usize) -> (b: bool)
        ensures
            b == spec_is_corner(r as int, c as int),
    {
        (r == 0 || r == ROWS - 1) && (c == 0 || c == COLS - 1)
    }

    fn cell_is_edge(r: usize, c: usize) -> (b: bool)
        ensures
            b == spec_is_edge(r as int, c as int),
    {
        r == 0 || r == ROWS - 1 || c == 0 || c == COLS - 1
    }

    /// Recounts every feature from the cells.
    #[verifier::spinoff_prover]
    #[verifier::rlimit(40)]
    fn recompute_eval_cache(&mut self)
        ensures
            cache_consistent(*final(self)),
            final(self).values == old(self).values,
            final(self).owners == old(self).owners,
            final(self).player == old(self).player,
            final(self).consecutive_passes == old(self).consecutive_passes,
            final(self).hash == old(self).hash,
            final(self).zobrist == old(self).zobrist,
    {
        let mut cache = EvalCache::zero();
        let mut i: usize = 0;
        while i < 170
            invariant
                i <= 170,
                forall|k: int| 0 <= k < 10 ==> #[trigger] cache_field(cache, k) == total(cells(*self), k, i as int),
            decreases 170 - i,
        {
            proof {
                assert forall|k: int| 0 <= k < 10 implies 0 <= #[trigger] total(cells(*self), k, i as int)
                    <= 340 by {
                    lemma_total_bounds(cells(*self), k, i as int);
                }
            }
            let r = i / COLS;
            let c = i % COLS;
            let owner = self.owners[r][c];
            adjust_count(&mut cache, 0, owner, 1);
            if Self::cell_is_corner(r, c) {
                adjust_count(&mut cache, 2, owner, 1);
            }
            if Self::cell_is_edge(r, c) {
                adjust_count(&mut cache, 3, owner, 1);
            }
            if owner != NO_OWNER && self.cell_has_live_neighbor(r, c) {
                adjust_count(&mut cache, 4, owner, 1);
            }
            if c + 1 < COLS && owner != NO_OWNER && self.owners[r][c + 1] == owner {
                adjust_count(&mut cache, 1, owner, 1);
            }
            if r + 1 < ROWS && owner != NO_OWNER && self.owners[r + 1][c] == owner {
                adjust_count(&mut cache, 1, owner, 1);
            }
            i += 1;
        }
        self.eval_cache = cache;
    }

    /// Recomputes the hash from scratch.
    fn recompute_hash(&mut self)
        ensures
            final(self).hash == spec_hash_board(*old(self)),
            final(self).values == old(self).values,
            final(self).owners == old(self).owners,
            final(self).player == old(self).player,
            final(self).consecutive_passes == old(self).consecutive_passes,
            final(self).eval_cache == old(self).eval_cache,
            final(self).zobrist == old(self).zobrist,
    {
        self.hash = hash_board(self);
    }

    /// An empty board: no mushrooms, no owners, the first player to move, no passes.
    pub fn new() -> (b: Self)
        ensures
            b.wf(),
            forall|r: int, c: int| in_board(r, c) ==> b.val(r, c) == 0 && b.own(r, c) == NO_OWNER,
            b.player == FIRST_PLAYER,
            b.consecutive_passes == 0,
    {
        let mut board = Board {
            values: [[0i8; COLS]; ROWS],
            owners: [[NO_OWNER; COLS]; ROWS],
            player: FIRST_PLAYER,
            consecutive_passes: 0,
            hash: 0,
            eval_cache: EvalCache::zero(),
            zobrist: get_zobrist(),
        };
        board.recompute_hash();
        board.recompute_eval_cache();
        board
    }

    fn update_hash_before_turn_change(&mut self)
        ensures
            final(self).hash == old(self).hash ^ spec_player_hash(old(self).zobrist, old(self).player)
                ^ spec_passes_hash(old(self).zobrist, old(self).consecutive_passes),
            final(self).values == old(self).values,
            final(self).owners == old(self).owners,
            final(self).player == old(self).player,
            final(self).consecutive_passes == old(self).consecutive_passes,
            final(self).eval_cache == old(self).eval_cache,
            final(self).zobrist == old(self).zobrist,
    {
        self.hash = self.hash ^ player_hash(&self.zobrist, self.player);
        self.hash = self.hash ^ passes_hash(&self.zobrist, self.consecutive_passes);
    }

    fn update_hash_after_turn_change(&mut self)
        ensures
            final(self).hash == old(self).hash ^ spec_player_hash(old(self).zobrist, old(self).player)
                ^ spec_passes_hash(old(self).zobrist, old(self).consecutive_passes),
            final(self).values == old(self).values,
            final(self).owners == old(self).owners,
            final(self).player == old(self).player,
            final(self).consecutive_passes == old(self).consecutive_passes,
            final(self).eval_cache == old(self).eval_cache,
            final(self).zobrist == old(self).zobrist,
    {
        self.hash = self.hash ^ player_hash(&self.zobrist, self.player);
        self.hash = self.hash ^ passes_hash(&self.zobrist, self.consecutive_passes);
    }

    /// Passes: the turn goes to the other side and one more pass is counted.
    pub fn apply_pass(&mut self)
        requires
            old(self).consecutive_passes < i32::MAX,
            old(self).player != i8::MIN,
            old(self).ready(),
        ensures
            spec_applied(*old(self), *final(self), pass_move()),
    {
        let ghost b0 = *self;
        self.update_hash_before_turn_change();
        self.consecutive_passes = self.consecutive_passes + 1;
        self.player = opponent(self.player);
        self.update_hash_after_turn_change();
        proof {
            let b1 = *self;
            let h = b0.hash;
            let x = cells_xor(b0.zobrist, cells(b0), 170);
            let p = spec_player_hash(b0.zobrist, b0.player);
            let q = spec_passes_hash(b0.zobrist, b0.consecutive_passes);
            let p2 = spec_player_hash(b1.zobrist, b1.player);
            let q2 = spec_passes_hash(b1.zobrist, b1.consecutive_passes);
            assert((h ^ p ^ q ^ p2 ^ q2) ^ (x ^ p2 ^ q2) == h ^ (x ^ p ^ q)) by (bit_vector);
        }
    }
}


/// `(x, y)` is a rectangle cell already visited when a row-major walk of the rectangle stands
/// at `(pr, pc)`.
pub open spec fn done_upto(mv: Move, x: int, y: int, pr: int, pc: int) -> bool {
    in_rect(mv, x, y) && (x < pr || (x == pr && y < pc))
}

/// `b1` is `b0` with the visited rectangle cells emptied and claimed by `b0`'s side to move.
pub open spec fn played_upto(b0: Board, b1: Board, mv: Move, pr: int, pc: int) -> bool {
    forall|x: int, y: int|
        #![trigger b1.val(x, y)]
        #![trigger b1.own(x, y)]
        in_board(x, y) ==> b1.val(x, y) == (if done_upto(mv, x, y, pr, pc) {
            0
        } else {
            b0.val(x, y)
        }) && b1.own(x, y) == (if done_upto(mv, x, y, pr, pc) {
            b0.player
        } else {
            b0.own(x, y)
        })
}

/// Position of `(x, y)` in the row-major walk of the rectangle of `mv`.
pub open spec fn rect_idx(mv: Move, x: int, y: int) -> int {
    (x - mv.r1) * (mv.c2 - mv.c1 + 1) + (y - mv.c1)
}

/// Number of cells of the rectangle of `mv` (0 when it is empty).
pub open spec fn rect_cells(mv: Move) -> int {
    if mv.r1 <= mv.r2 && mv.c1 <= mv.c2 {
        (mv.r2 - mv.r1 + 1) * (mv.c2 - mv.c1 + 1)
    } else {
        0
    }
}

/// Walk positions grow in row-major order and stay below the number of cells.
pub proof fn lemma_rect_idx(mv: Move, x: int, y: int, r: int, c: int)
    requires
        0 <= mv.r1 <= mv.r2 < 10,
        0 <= mv.c1 <= mv.c2 < 17,
        in_rect(mv, x, y),
        mv.r1 <= r <= mv.r2 + 1,
        mv.c1 <= c <= mv.c2 + 1,
    ensures
        0 <= rect_idx(mv, x, y) < rect_cells(mv) <= 170,
        (x < r || (x == r && y < c)) ==> rect_idx(mv, x, y) < rect_idx(mv, r, c),
        !(x < r || (x == r && y < c)) ==> rect_idx(mv, x, y) >= rect_idx(mv, r, c),
        rect_idx(mv, r, mv.c2 + 1) == rect_idx(mv, r + 1, mv.c1 as int),
        rect_idx(mv, mv.r2 + 1, mv.c1 as int) == rect_cells(mv),
{
    let w = mv.c2 - mv.c1 + 1;
    let h = mv.r2 - mv.r1 + 1;
    assert(1 <= w <= 17 && 1 <= h <= 10);
    assert(0 <= x - mv.r1 < h);
    assert(0 <= y - mv.c1 < w);
    assert(0 <= (x - mv.r1) * w + (y - mv.c1) < h * w) by (nonlinear_arith)
        requires
            0 <= x - mv.r1 < h,
            0 <= y - mv.c1 < w,
            1 <= w,
    ;
    assert(h * w <= 170) by (nonlinear_arith)
        requires
            1 <= w <= 17,
            1 <= h <= 10,
    ;
    if x < r {
        assert((x - mv.r1) * w + (y - mv.c1) < (r - mv.r1) * w + (c - mv.c1)) by (nonlinear_arith)
            requires
                x < r,
                0 <= y - mv.c1 < w,
                c - mv.c1 >= 0,
                1 <= w,
        ;
    } else if x == r && y < c {
    } else if x == r {
    } else {
        assert((x - mv.r1) * w + (y - mv.c1) >= (r - mv.r1) * w + (c - mv.c1)) by (nonlinear_arith)
            requires
                x > r,
                y - mv.c1 >= 0,
                c - mv.c1 <= w,
                1 <= w,
        ;
    }
    assert((r - mv.r1) * w + w == (r + 1 - mv.r1) * w) by (nonlinear_arith);
    assert((mv.r2 + 1 - mv.r1) * w == h * w);
}

/// `rec` holds what `mv` changes on `b0`: the side to move, the pass count, the hash, the
/// counts, whether it was a pass, and the old value and owner of each rectangle cell, in
/// row-major order.
pub open spec fn recorded(rec: MoveRecord, b0: Board, mv: Move) -> bool {
    &&& rec.old_player == b0.player
    &&& rec.old_consecutive_passes == b0.consecutive_passes
    &&& rec.old_hash == b0.hash
    &&& rec.old_eval_cache == b0.eval_cache
    &&& rec.was_pass == mv.spec_is_pass()
    &&& !mv.spec_is_pass() ==> {
        &&& rec.change_count == rect_cells(mv)
        &&& forall|x: int, y: int|
            #![trigger rect_idx(mv, x, y)]
            in_rect(mv, x, y) && rec.r1_ok(mv) ==> {
                let ch = rec.changes@[rect_idx(mv, x, y)];
                ch.r == x && ch.c == y && ch.old_value == b0.val(x, y) && ch.old_owner == b0.own(x, y)
            }
        &&& forall|k: int|
            0 <= k < rec.change_count ==> {
                let ch = #[trigger] rec.changes@[k];
                in_rect(mv, ch.r as int, ch.c as int) && rect_idx(mv, ch.r as int, ch.c as int) == k
            }
    }
}

impl MoveRecord {
    /// The rectangle of `mv` is a non-empty rectangle of the board.
    pub open spec fn r1_ok(self, mv: Move) -> bool {
        0 <= mv.r1 <= mv.r2 < 10 && 0 <= mv.c1 <= mv.c2 < 17
    }

    /// Every recorded cell lies on the board, and there are at most 170 of them.
    pub open spec fn wf(self) -> bool {
        !self.was_pass ==> {
            &&& self.change_count <= 170
            &&& forall|k: int|
                0 <= k < self.change_count ==> {
                    let ch = #[trigger] self.changes@[k];
                    0 <= ch.r < 10 && 0 <= ch.c < 17
                }
        }
    }
}

/// The cell `(x, y)` of `g` after the first `n` recorded changes are written back in order.
pub open spec fn restored(rec: MoveRecord, n: int, g: Cells, x: int, y: int) -> (i8, i8)
    decreases n,
{
    if n <= 0 {
        (gv(g, x, y), go(g, x, y))
    } else if rec.changes@[n - 1].r == x && rec.changes@[n - 1].c == y {
        (rec.changes@[n - 1].old_value, rec.changes@[n - 1].old_owner)
    } else {
        restored(rec, n - 1, g, x, y)
    }
}

/// `b2` is `b1` with `rec` taken back: side, pass count, hash and counts from the record,
/// and the recorded cells written back.
pub open spec fn spec_unmade(b1: Board, rec: MoveRecord, b2: Board) -> bool {
    &&& b2.player == rec.old_player
    &&& b2.consecutive_passes == rec.old_consecutive_passes
    &&& b2.hash == rec.old_hash
    &&& b2.eval_cache == rec.old_eval_cache
    &&& b2.zobrist == b1.zobrist
    &&& if rec.was_pass {
        cells(b2) == cells(b1)
    } else {
        forall|x: int, y: int|
            #![trigger b2.val(x, y)]
            #![trigger b2.own(x, y)]
            in_board(x, y) ==> (b2.val(x, y), b2.own(x, y)) == restored(
                rec,
                rec.change_count as int,
                cells(b1),
                x,
                y,
            )
    }
}

/// The move is one this board can take without overflow or out-of-range cells.
pub open spec fn move_ok(b: Board, mv: Move) -> bool {
    &&& b.player != i8::MIN
    &&& if mv.spec_is_pass() {
        b.consecutive_passes < i32::MAX
    } else {
        rect_ok(mv)
    }
}

impl Board {
    /// Puts `new_value` and `new_owner` into cell `(r, c)`, keeping the hash in step.
    fn replace_cell(&mut self, r: usize, c: usize, new_value: i8, new_owner: i8)
        requires
            r < 10,
            c < 17,
        ensures
            forall|x: int, y: int|
                #![trigger final(self).val(x, y)]
                #![trigger final(self).own(x, y)]
                in_board(x, y) ==> final(self).val(x, y) == (if x == r && y == c {
                    new_value
                } else {
                    old(self).val(x, y)
                }) && final(self).own(x, y) == (if x == r && y == c {
                    new_owner
                } else {
                    old(self).own(x, y)
                }),
            final(self).hash == old(self).hash ^ spec_cell_hash(
                old(self).zobrist,
                r as int,
                c as int,
                old(self).val(r as int, c as int),
                old(self).own(r as int, c as int),
            ) ^ spec_cell_hash(old(self).zobrist, r as int, c as int, new_value, new_owner),
            final(self).player == old(self).player,
            final(self).consecutive_passes == old(self).consecutive_passes,
            final(self).eval_cache == old(self).eval_cache,
            final(self).zobrist == old(self).zobrist,
    {
        self.hash = self.hash ^ cell_hash(
            &self.zobrist,
            r,
            c,
            self.values[r][c],
            self.owners[r][c],
        );
        self.values[r][c] = new_value;
        self.owners[r][c] = new_owner;
        self.hash = self.hash ^ cell_hash(
            &self.zobrist,
            r,
            c,
            self.values[r][c],
            self.owners[r][c],
        );
    }

    /// Empties and claims the rectangle of `mv` for the side to move, updating the counts
    /// of the cells the move can affect and the hash of the changed cells.
    #[verifier::rlimit(60)]
    fn update_eval_cache_for_move(&mut self, mv: &Move)
        requires
            !mv.spec_is_pass(),
            rect_ok(*mv),
            old(self).ready(),
        ensures
            played(*old(self), *final(self), *mv),
            cache_consistent(*final(self)),
            final(self).player == old(self).player,
            final(self).consecutive_passes == old(self).consecutive_passes,
            final(self).zobrist == old(self).zobrist,
            final(self).hash ^ cells_xor(final(self).zobrist, cells(*final(self)), 170) == old(
                self,
            ).hash ^ cells_xor(old(self).zobrist, cells(*old(self)), 170),
    {
        if mv.is_pass() {
            return;
        }
        let ghost b0 = *self;
        let ghost z = self.zobrist;
        let ghost x0 = cells_xor(z, cells(b0), 170);
        if mv.r1 > mv.r2 || mv.c1 > mv.c2 {
            proof {
                assert(played(b0, *self, *mv));
                lemma_xor_facts(self.hash, x0, x0);
            }
            return;
        }
        let mut impacted = [[false; COLS]; ROWS];
        let mut changed = [[false; COLS]; ROWS];
        let mut r: usize = 0;
        while r < ROWS
            invariant
                r <= 10,
                0 <= mv.r1 <= mv.r2 < 10,
                0 <= mv.c1 <= mv.c2 < 17,
                forall|x: int, y: int|
                    in_board(x, y) && x < r ==> #[trigger] impacted@[x]@[y] == near_rect(*mv, x, y),
                forall|x: int, y: int|
                    in_board(x, y) && x < r ==> #[trigger] changed@[x]@[y] == in_rect(*mv, x, y),
            decreases 10 - r,
        {
            let mut c: usize = 0;
            while c < COLS
                invariant
                    r < 10,
                    c <= 17,
                    0 <= mv.r1 <= mv.r2 < 10,
                    0 <= mv.c1 <= mv.c2 < 17,
                    forall|x: int, y: int|
                        in_board(x, y) && (x < r || (x == r && y < c)) ==> #[trigger] impacted@[x]@[y]
                            == near_rect(*mv, x, y),
                    forall|x: int, y: int|
                        in_board(x, y) && (x < r || (x == r && y < c)) ==> #[trigger] changed@[x]@[y]
                            == in_rect(*mv, x, y),
                decreases 17 - c,
            {
                let ri = r as i32;
                let ci = c as i32;
                let inr = mv.r1 <= ri && ri <= mv.r2 && mv.c1 <= ci && ci <= mv.c2;
                let up = mv.r1 <= ri - 1 && ri - 1 <= mv.r2 && mv.c1 <= ci && ci <= mv.c2;
                let down = mv.r1 <= ri + 1 && ri + 1 <= mv.r2 && mv.c1 <= ci && ci <= mv.c2;
                let left = mv.r1 <= ri && ri <= mv.r2 && mv.c1 <= ci - 1 && ci - 1 <= mv.c2;
                let right = mv.r1 <= ri && ri <= mv.r2 && mv.c1 <= ci + 1 && ci + 1 <= mv.c2;
                impacted[r][c] = inr || up || down || left || right;
                changed[r][c] = inr;
                assert(impacted@[r as int]@[c as int] == near_rect(*mv, r as int, c as int));
                assert(changed@[r as int]@[c as int] == in_rect(*mv, r as int, c as int));
                c += 1;
            }
            r += 1;
        }
        proof {
            assert forall|x: int, y: int| in_board(x, y) implies #[trigger] impacted@[x]@[y]
                == near_rect(*mv, x, y) by {
            }
            assert forall|k: int| 0 <= k < 10 implies -340 <= #[trigger] cache_field(
                self.eval_cache,
                k,
            ) <= 340 by {
                lemma_total_bounds(cells(b0), k, 170);
            }
        }
        let mut cache = self.eval_cache;
        live_pass(self, &impacted, &mut cache, -1);
        proof {
            assert forall|k: int| 0 <= k < 10 implies -1100 <= #[trigger] cache_field(cache, k)
                <= 1100 by {
                lemma_total_bounds(cells(b0), k, 170);
                lemma_part_bounds(cells(b0), impacted, changed, k, 170);
            }
        }
        conn_pass(self, &changed, &mut cache, -1);
        proof {
            assert forall|k: int| 0 <= k < 10 implies #[trigger] cache_field(cache, k) == total(
                cells(b0),
                k,
                170,
            ) - live_total(cells(b0), impacted, k, 170) - conn_total(cells(b0), changed, k, 170) && (
            (0 <= k < 2 || 4 <= k < 8) ==> cache_field(cache, k) == total(cells(b0), k, 170)) by {
                lemma_part_bounds(cells(b0), impacted, changed, k, 170);
            }
        }
        let mut r: i32 = mv.r1;
        while r <= mv.r2
            invariant
                0 <= mv.r1 <= r <= mv.r2 + 1,
                mv.r2 < 10,
                0 <= mv.c1 <= mv.c2 < 17,
                !mv.spec_is_pass(),
                self.player == b0.player,
                self.consecutive_passes == b0.consecutive_passes,
                self.zobrist == z,
                b0.zobrist == z,
                cache_consistent(b0),
                played_upto(b0, *self, *mv, r as int, mv.c1 as int),
                self.hash ^ cells_xor(z, cells(*self), 170) == b0.hash ^ x0,
                forall|k: int|
                    (0 <= k < 2 || 4 <= k < 8) ==> #[trigger] cache_field(cache, k) == total(
                        cells(*self),
                        k,
                        170,
                    ),
                forall|k: int|
                    (k == 2 || k == 3 || k == 8 || k == 9) ==> #[trigger] cache_field(cache, k) == total(
                        cells(b0),
                        k,
                        170,
                    ) - live_total(cells(b0), impacted, k, 170) - conn_total(cells(b0), changed, k, 170),
            decreases mv.r2 + 1 - r,
        {
            let mut c: i32 = mv.c1;
            while c <= mv.c2
                invariant
                    0 <= mv.r1 <= r <= mv.r2,
                    mv.r2 < 10,
                    0 <= mv.c1 <= c <= mv.c2 + 1,
                    mv.c2 < 17,
                    !mv.spec_is_pass(),
                    self.player == b0.player,
                    self.consecutive_passes == b0.consecutive_passes,
                    self.zobrist == z,
                    b0.zobrist == z,
                    cache_consistent(b0),
                    played_upto(b0, *self, *mv, r as int, c as int),
                    self.hash ^ cells_xor(z, cells(*self), 170) == b0.hash ^ x0,
                    forall|k: int|
                        (0 <= k < 2 || 4 <= k < 8) ==> #[trigger] cache_field(cache, k) == total(
                            cells(*self),
                            k,
                            170,
                        ),
                    forall|k: int|
                        (k == 2 || k == 3 || k == 8 || k == 9) ==> #[trigger] cache_field(cache, k)
                            == total(cells(b0), k, 170) - live_total(cells(b0), impacted, k, 170)
                            - conn_total(cells(b0), changed, k, 170),
                decreases mv.c2 + 1 - c,
            {
                let ru = r as usize;
                let cu = c as usize;
                let ghost bp = *self;
                let ghost j = r * 17 + c;
                proof {
                    lemma_flat(r as int, c as int);
                    assert forall|k: int| 0 <= k < 10 implies -1100 <= #[trigger] cache_field(
                        cache,
                        k,
                    ) <= 1100 by {
                        lemma_total_bounds(cells(b0), k, 170);
                        lemma_total_bounds(cells(bp), k, 170);
                        lemma_part_bounds(cells(b0), impacted, changed, k, 170);
                    }
                }
                let old_owner = self.owners[ru][cu];
                adjust_count(&mut cache, 0, old_owner, -1);
                if Self::cell_is_corner(ru, cu) {
                    adjust_count(&mut cache, 2, old_owner, -1);
                }
                if Self::cell_is_edge(ru, cu) {
                    adjust_count(&mut cache, 3, old_owner, -1);
                }
                let p = self.player;
                self.replace_cell(ru, cu, 0, p);
                let new_owner = self.owners[ru][cu];
                adjust_count(&mut cache, 0, new_owner, 1);
                if Self::cell_is_corner(ru, cu) {
                    adjust_count(&mut cache, 2, new_owner, 1);
                }
                if Self::cell_is_edge(ru, cu) {
                    adjust_count(&mut cache, 3, new_owner, 1);
                }
                proof {
                    let bn = *self;
                    assert(bn.val(r as int, c as int) == 0);
                    assert(bn.own(r as int, c as int) == p);
                    assert forall|i: int| 0 <= i < 170 && i != j implies cell_key(z, cells(bp), i)
                        == cell_key(z, cells(bn), i) by {
                        lemma_unflat(i);
                        assert(bn.val(fr(i), fc(i)) == bp.val(fr(i), fc(i)));
                        assert(bn.own(fr(i), fc(i)) == bp.own(fr(i), fc(i)));
                    }
                    lemma_cells_xor_one(z, cells(bp), cells(bn), 170, j);
                    let hp = bp.hash;
                    let xp = cells_xor(z, cells(bp), 170);
                    let ka = cell_key(z, cells(bp), j);
                    let kb = cell_key(z, cells(bn), j);
                    assert((hp ^ ka ^ kb) ^ (xp ^ ka ^ kb) == hp ^ xp) by (bit_vector);
                    assert forall|k: int| (0 <= k < 2 || 4 <= k < 8) implies #[trigger] cache_field(
                        cache,
                        k,
                    ) == total(cells(bn), k, 170) by {
                        assert forall|i: int| 0 <= i < 170 && i != j implies cell_part(
                            cells(bp),
                            fr(i),
                            fc(i),
                            k,
                        ) == cell_part(cells(bn), fr(i), fc(i), k) by {
                            lemma_unflat(i);
                            assert(bn.own(fr(i), fc(i)) == bp.own(fr(i), fc(i)));
                        }
                        lemma_total_one(cells(bp), cells(bn), k, 170, j);
                    }
                    assert(played_upto(b0, bn, *mv, r as int, c + 1));
                }
                c += 1;
            }
            r += 1;
        }
        proof {
            assert(played(b0, *self, *mv));
            assert forall|k: int| 0 <= k < 10 implies -1100 <= #[trigger] cache_field(cache, k)
                <= 1100 by {
                lemma_total_bounds(cells(b0), k, 170);
                lemma_total_bounds(cells(*self), k, 170);
                lemma_part_bounds(cells(b0), impacted, changed, k, 170);
            }
        }
        conn_pass(self, &changed, &mut cache, 1);
        proof {
            assert forall|k: int| 0 <= k < 10 implies -2000 <= #[trigger] cache_field(cache, k)
                <= 2000 by {
                lemma_total_bounds(cells(b0), k, 170);
                lemma_total_bounds(cells(*self), k, 170);
                lemma_part_bounds(cells(b0), impacted, changed, k, 170);
                lemma_part_bounds(cells(*self), impacted, changed, k, 170);
            }
        }
        live_pass(self, &impacted, &mut cache, 1);
        proof {
            let b1 = *self;
            assert forall|k: int| 0 <= k < 10 implies #[trigger] cache_field(cache, k) == total(
                cells(b1),
                k,
                170,
            ) by {
                lemma_part_bounds(cells(b0), impacted, changed, k, 170);
                lemma_part_bounds(cells(b1), impacted, changed, k, 170);
                if k == 2 || k == 3 || k == 8 || k == 9 {
                    assert forall|i: int| 0 <= i < 170 implies cell_part(cells(b0), fr(i), fc(i), k)
                        - live_part(cells(b0), impacted, fr(i), fc(i), k) - conn_part(
                        cells(b0),
                        changed,
                        fr(i),
                        fc(i),
                        k,
                    ) == cell_part(cells(b1), fr(i), fc(i), k) - live_part(
                        cells(b1),
                        impacted,
                        fr(i),
                        fc(i),
                        k,
                    ) - conn_part(cells(b1), changed, fr(i), fc(i), k) by {
                        lemma_unflat(i);
                        lemma_unmasked_equal(b0, b1, *mv, impacted, changed, fr(i), fc(i), k);
                    }
                    lemma_total_masked(cells(b0), cells(b1), impacted, changed, k, 170);
                }
            }
        }
        let ghost bm = *self;
        self.eval_cache = cache;
        proof {
            assert forall|x: int, y: int| in_board(x, y) implies #[trigger] self.val(x, y) == bm.val(
                x,
                y,
            ) && self.own(x, y) == bm.own(x, y) by {}
            assert(played(b0, *self, *mv));
        }
    }
}


/// The hash bookkeeping of a move: taking out the old turn keys, changing the cells and putting
/// in the new turn keys leaves the drift as it was.
proof fn lemma_drift_after_move(h0: u64, x0: u64, p: u64, q: u64, h2: u64, x1: u64, p2: u64, q2: u64)
    requires
        h2 ^ x1 == (h0 ^ p ^ q) ^ x0,
    ensures
        (h2 ^ p2 ^ q2) ^ (x1 ^ p2 ^ q2) == h0 ^ (x0 ^ p ^ q),
{
    assert((h2 ^ p2 ^ q2) ^ (x1 ^ p2 ^ q2) == h0 ^ (x0 ^ p ^ q)) by (bit_vector)
        requires
            h2 ^ x1 == (h0 ^ p ^ q) ^ x0,
    ;
}

/// Writing back the first `n` recorded changes of a move restores exactly the rectangle cells
/// whose walk position is below `n`.
pub proof fn lemma_restore(rec: MoveRecord, b0: Board, b1: Board, mv: Move, n: int)
    requires
        recorded(rec, b0, mv),
        played(b0, b1, mv),
        !mv.spec_is_pass(),
        rect_ok(mv),
        0 <= n <= rec.change_count,
    ensures
        forall|x: int, y: int|
            in_board(x, y) ==> #[trigger] restored(rec, n, cells(b1), x, y) == (if in_rect(mv, x, y)
                && rect_idx(mv, x, y) < n {
                (b0.val(x, y), b0.own(x, y))
            } else {
                (b1.val(x, y), b1.own(x, y))
            }),
    decreases n,
{
    if n > 0 {
        lemma_restore(rec, b0, b1, mv, n - 1);
        assert forall|x: int, y: int| in_board(x, y) implies #[trigger] restored(
            rec,
            n,
            cells(b1),
            x,
            y,
        ) == (if in_rect(mv, x, y) && rect_idx(mv, x, y) < n {
            (b0.val(x, y), b0.own(x, y))
        } else {
            (b1.val(x, y), b1.own(x, y))
        }) by {
            let ch = rec.changes@[n - 1];
            assert(in_rect(mv, ch.r as int, ch.c as int) && rect_idx(mv, ch.r as int, ch.c as int)
                == n - 1);
            assert(rec.r1_ok(mv));
            let chx = rec.changes@[rect_idx(mv, ch.r as int, ch.c as int)];
            if ch.r == x && ch.c == y {
                assert(chx.old_value == b0.val(x, y));
            } else if in_rect(mv, x, y) && rect_idx(mv, x, y) == n - 1 {
                let chy = rec.changes@[rect_idx(mv, x, y)];
                assert(chy.r == x && chy.c == y);
            }
            assert(restored(rec, n - 1, cells(b1), x, y) == (if in_rect(mv, x, y) && rect_idx(
                mv,
                x,
                y,
            ) < n - 1 {
                (b0.val(x, y), b0.own(x, y))
            } else {
                (b1.val(x, y), b1.own(x, y))
            }));
        }
    } else {
        assert forall|x: int, y: int| in_board(x, y) implies #[trigger] restored(
            rec,
            n,
            cells(b1),
            x,
            y,
        ) == (b1.val(x, y), b1.own(x, y)) by {}
    }
}

/// Taking back a move with the record it produced gives back the board before the move,
/// every field of it.
pub proof fn lemma_make_unmake_roundtrip(b0: Board, mv: Move, rec: MoveRecord, b1: Board, b2: Board)
    requires
        move_ok(b0, mv),
        spec_applied(b0, b1, mv),
        recorded(rec, b0, mv),
        spec_unmade(b1, rec, b2),
    ensures
        b2 == b0,
{
    if mv.spec_is_pass() {
        lemma_same_grid(b0, b1);
    } else {
        lemma_restore(rec, b0, b1, mv, rec.change_count as int);
        assert forall|x: int, y: int| in_board(x, y) implies #[trigger] b2.val(x, y) == b0.val(x, y)
            && b2.own(x, y) == b0.own(x, y) by {
            assert(restored(rec, rec.change_count as int, cells(b1), x, y) == (b2.val(x, y), b2.own(
                x,
                y,
            )));
            assert(b1.val(x, y) == (if in_rect(mv, x, y) { 0 } else { b0.val(x, y) }));
            if in_rect(mv, x, y) {
                lemma_rect_idx(mv, x, y, mv.r1 as int, mv.c1 as int);
            }
        }
        lemma_same_grid(b0, b2);
    }
    assert(cells(b2) == cells(b0));
}

impl Board {
    /// Whether `mv` can be played on this board (see `move_ok`).
    pub fn can_apply(&self, mv: &Move) -> (b: bool)
        ensures
            b == move_ok(*self, *mv),
    {
        if self.player == i8::MIN {
            return false;
        }
        if mv.is_pass() {
            self.consecutive_passes < i32::MAX
        } else {
            mv.r1 > mv.r2 || mv.c1 > mv.c2 || (0 <= mv.r1 && mv.r2 < 10 && 0 <= mv.c1 && mv.c2 < 17)
        }
    }

    /// Plays `mv` for the side to move: a pass, or the rectangle emptied and claimed.
    pub fn apply_move(&mut self, mv: &Move)
        requires
            old(self).ready(),
            move_ok(*old(self), *mv),
        ensures
            spec_applied(*old(self), *final(self), *mv),
    {
        if mv.is_pass() {
            self.apply_pass();
            return;
        }
        let ghost b0 = *self;
        self.update_hash_before_turn_change();
        self.update_eval_cache_for_move(mv);
        self.consecutive_passes = 0;
        self.player = opponent(self.player);
        let ghost h2 = self.hash;
        self.update_hash_after_turn_change();
        proof {
            let z = b0.zobrist;
            lemma_drift_after_move(
                b0.hash,
                cells_xor(z, cells(b0), 170),
                spec_player_hash(z, b0.player),
                spec_passes_hash(z, b0.consecutive_passes),
                h2,
                cells_xor(z, cells(*self), 170),
                spec_player_hash(z, self.player),
                spec_passes_hash(z, self.consecutive_passes),
            );
        }
    }

    /// Plays `mv` like `apply_move` and fills `record` with what is needed to take it back.
    pub fn make_move(&mut self, mv: &Move, record: &mut MoveRecord)
        requires
            old(self).ready(),
            move_ok(*old(self), *mv),
        ensures
            spec_applied(*old(self), *final(self), *mv),
            recorded(*final(record), *old(self), *mv),
            final(record).wf(),
    {
        let ghost b0 = *self;
        record.old_player = self.player;
        record.old_consecutive_passes = self.consecutive_passes;
        record.old_hash = self.hash;
        record.old_eval_cache = self.eval_cache;
        record.change_count = 0;

        if mv.is_pass() {
            record.was_pass = true;
            self.update_hash_before_turn_change();
            self.consecutive_passes = self.consecutive_passes + 1;
            self.player = opponent(self.player);
            self.update_hash_after_turn_change();
            proof {
                let b1 = *self;
                let h = b0.hash;
                let x = cells_xor(b0.zobrist, cells(b0), 170);
                let p = spec_player_hash(b0.zobrist, b0.player);
                let q = spec_passes_hash(b0.zobrist, b0.consecutive_passes);
                let p2 = spec_player_hash(b1.zobrist, b1.player);
                let q2 = spec_passes_hash(b1.zobrist, b1.consecutive_passes);
                assert((h ^ p ^ q ^ p2 ^ q2) ^ (x ^ p2 ^ q2) == h ^ (x ^ p ^ q)) by (bit_vector);
            }
            return;
        }

        record.was_pass = false;
        self.update_hash_before_turn_change();
        if mv.r1 <= mv.r2 && mv.c1 <= mv.c2 {
            proof {
                let w = mv.c2 - mv.c1 + 1;
                assert((mv.r1 - mv.r1) * w == 0) by (nonlinear_arith);
                assert(rect_idx(*mv, mv.r1 as int, mv.c1 as int) == 0);
            }
            let mut r: i32 = mv.r1;
            while r <= mv.r2
                invariant
                    0 <= mv.r1 <= r <= mv.r2 + 1,
                    mv.r2 < 10,
                    0 <= mv.c1 <= mv.c2 < 17,
                    cells(*self) == cells(b0),
                    record.old_player == b0.player,
                    record.old_consecutive_passes == b0.consecutive_passes,
                    record.old_hash == b0.hash,
                    record.old_eval_cache == b0.eval_cache,
                    !record.was_pass,
                    record.change_count == rect_idx(*mv, r as int, mv.c1 as int),
                    forall|x: int, y: int|
                        #![trigger rect_idx(*mv, x, y)]
                        done_upto(*mv, x, y, r as int, mv.c1 as int) ==> {
                            let ch = record.changes@[rect_idx(*mv, x, y)];
                            ch.r == x && ch.c == y && ch.old_value == b0.val(x, y) && ch.old_owner
                                == b0.own(x, y)
                        },
                    forall|k: int|
                        0 <= k < record.change_count ==> {
                            let ch = #[trigger] record.changes@[k];
                            in_rect(*mv, ch.r as int, ch.c as int) && rect_idx(
                                *mv,
                                ch.r as int,
                                ch.c as int,
                            ) == k
                        },
                decreases mv.r2 + 1 - r,
            {
                let mut c: i32 = mv.c1;
                while c <= mv.c2
                    invariant
                        0 <= mv.r1 <= r <= mv.r2,
                        mv.r2 < 10,
                        0 <= mv.c1 <= c <= mv.c2 + 1,
                        mv.c2 < 17,
                        cells(*self) == cells(b0),
                        record.old_player == b0.player,
                        record.old_consecutive_passes == b0.consecutive_passes,
                        record.old_hash == b0.hash,
                        record.old_eval_cache == b0.eval_cache,
                        !record.was_pass,
                        record.change_count == rect_idx(*mv, r as int, c as int),
                        forall|x: int, y: int|
                            #![trigger rect_idx(*mv, x, y)]
                            done_upto(*mv, x, y, r as int, c as int) ==> {
                                let ch = record.changes@[rect_idx(*mv, x, y)];
                                ch.r == x && ch.c == y && ch.old_value == b0.val(x, y)
                                    && ch.old_owner == b0.own(x, y)
                            },
                        forall|k: int|
                            0 <= k < record.change_count ==> {
                                let ch = #[trigger] record.changes@[k];
                                in_rect(*mv, ch.r as int, ch.c as int) && rect_idx(
                                    *mv,
                                    ch.r as int,
                                    ch.c as int,
                                ) == k
                            },
                    decreases mv.c2 + 1 - c,
                {
                    proof {
                        lemma_rect_idx(*mv, r as int, c as int, r as int, c as int);
                        assert forall|x: int, y: int| done_upto(*mv, x, y, r as int, c as int) implies
                            rect_idx(*mv, x, y) < rect_idx(*mv, r as int, c as int) by {
                            lemma_rect_idx(*mv, x, y, r as int, c as int);
                        }
                    }
                    let k = record.change_count;
                    let ghost rec_old = *record;
                    record.changes[k] = CellChange {
                        r: r as i8,
                        c: c as i8,
                        old_value: self.values[r as usize][c as usize],
                        old_owner: self.owners[r as usize][c as usize],
                    };
                    record.change_count = k + 1;
                    proof {
                        lemma_rect_idx(*mv, r as int, c as int, r as int, c + 1);
                        assert(rect_idx(*mv, r as int, c + 1) == rect_idx(*mv, r as int, c as int)
                            + 1);
                        assert forall|x: int, y: int|
                            #![trigger rect_idx(*mv, x, y)]
                            done_upto(*mv, x, y, r as int, c + 1) implies {
                                let ch = record.changes@[rect_idx(*mv, x, y)];
                                ch.r == x && ch.c == y && ch.old_value == b0.val(x, y)
                                    && ch.old_owner == b0.own(x, y)
                            } by {
                            if x == r && y == c {
                            } else {
                                assert(done_upto(*mv, x, y, r as int, c as int));
                                lemma_rect_idx(*mv, x, y, r as int, c as int);
                                assert(record.changes@[rect_idx(*mv, x, y)] == rec_old.changes@[rect_idx(
                                    *mv,
                                    x,
                                    y,
                                )]);
                            }
                        }
                    }
                    c += 1;
                }
                proof {
                    lemma_rect_idx(*mv, r as int, mv.c1 as int, r as int, mv.c1 as int);
                }
                r += 1;
            }
            proof {
                lemma_rect_idx(*mv, mv.r1 as int, mv.c1 as int, mv.r1 as int, mv.c1 as int);
            }
        }
        let ghost bh = *self;
        self.update_eval_cache_for_move(mv);
        self.consecutive_passes = 0;
        self.player = opponent(self.player);
        let ghost h2 = self.hash;
        self.update_hash_after_turn_change();
        proof {
            let z = b0.zobrist;
            lemma_drift_after_move(
                b0.hash,
                cells_xor(z, cells(b0), 170),
                spec_player_hash(z, b0.player),
                spec_passes_hash(z, b0.consecutive_passes),
                h2,
                cells_xor(z, cells(*self), 170),
                spec_player_hash(z, self.player),
                spec_passes_hash(z, self.consecutive_passes),
            );
            assert forall|x: int, y: int| in_board(x, y) implies #[trigger] self.val(x, y) == (if in_rect(
                *mv,
                x,
                y,
            ) {
                0
            } else {
                b0.val(x, y)
            }) && self.own(x, y) == (if in_rect(*mv, x, y) {
                b0.player
            } else {
                b0.own(x, y)
            }) by {
                assert(bh.val(x, y) == b0.val(x, y));
            }
        }
    }

    /// Takes back the move that filled `record`.
    pub fn unmake_move(&mut self, record: &MoveRecord)
        requires
            record.wf(),
        ensures
            spec_unmade(*old(self), *record, *final(self)),
    {
        let ghost b1 = *self;
        self.player = record.old_player;
        self.consecutive_passes = record.old_consecutive_passes;
        self.hash = record.old_hash;
        self.eval_cache = record.old_eval_cache;
        if record.was_pass {
            return;
        }
        let mut k: usize = 0;
        while k < record.change_count
            invariant
                record.wf(),
                !record.was_pass,
                k <= record.change_count,
                self.player == record.old_player,
                self.consecutive_passes == record.old_consecutive_passes,
                self.hash == record.old_hash,
                self.eval_cache == record.old_eval_cache,
                self.zobrist == b1.zobrist,
                forall|x: int, y: int|
                    #![trigger self.val(x, y)]
                    #![trigger self.own(x, y)]
                    in_board(x, y) ==> (self.val(x, y), self.own(x, y)) == restored(
                        *record,
                        k as int,
                        cells(b1),
                        x,
                        y,
                    ),
            decreases record.change_count - k,
        {
            let ch = record.changes[k];
            self.values[ch.r as usize][ch.c as usize] = ch.old_value;
            self.owners[ch.r as usize][ch.c as usize] = ch.old_owner;
            k += 1;
        }
    }
}


/// Sum of `f` over row `r` from column `c1` to `c2`.
pub open spec fn row_total(f: spec_fn(int, int) -> int, r: int, c1: int, c2: int) -> int
    decreases c2 - c1 + 1,
{
    if c2 < c1 {
        0
    } else {
        row_total(f, r, c1, c2 - 1) + f(r, c2)
    }
}

/// Sum of `f` over the rectangle `(r1, c1)`-`(r2, c2)`.
pub open spec fn area_total(f: spec_fn(int, int) -> int, r1: int, c1: int, r2: int, c2: int) -> int
    decreases r2 - r1 + 1,
{
    if r2 < r1 {
        0
    } else {
        area_total(f, r1, c1, r2 - 1, c2) + row_total(f, r2, c1, c2)
    }
}

/// If `f` lies between 0 and `m` on the rectangle, so do its row sums, scaled by the width.
pub proof fn lemma_row_total_bounds(f: spec_fn(int, int) -> int, r: int, c1: int, c2: int, m: int)
    requires
        c1 <= c2 + 1,
        0 <= m,
        forall|c: int| c1 <= c <= c2 ==> 0 <= #[trigger] f(r, c) <= m,
    ensures
        0 <= row_total(f, r, c1, c2) <= m * (c2 - c1 + 1),
    decreases c2 - c1 + 1,
{
    if c2 >= c1 {
        lemma_row_total_bounds(f, r, c1, c2 - 1, m);
        assert(m * (c2 - 1 - c1 + 1) + m == m * (c2 - c1 + 1)) by (nonlinear_arith);
    }
}

/// If `f` lies between 0 and `m` on the rectangle, its sum lies between 0 and `m` times 170.
pub proof fn lemma_area_total_bounds(
    f: spec_fn(int, int) -> int,
    r1: int,
    c1: int,
    r2: int,
    c2: int,
    m: int,
)
    requires
        0 <= r1 <= r2 + 1,
        r2 < 10,
        0 <= c1 <= c2 + 1,
        c2 < 17,
        0 <= m,
        forall|r: int, c: int| r1 <= r <= r2 && c1 <= c <= c2 ==> 0 <= #[trigger] f(r, c) <= m,
    ensures
        0 <= area_total(f, r1, c1, r2, c2) <= m * 17 * (r2 - r1 + 1),
    decreases r2 - r1 + 1,
{
    if r2 < r1 {
        assert(m * 17 * (r2 - r1 + 1) == 0) by (nonlinear_arith)
            requires
                r2 - r1 + 1 == 0,
        ;
    } else {
        lemma_area_total_bounds(f, r1, c1, r2 - 1, c2, m);
        lemma_row_total_bounds(f, r2, c1, c2, m);
        assert(m * (c2 - c1 + 1) <= m * 17) by (nonlinear_arith)
            requires
                0 <= m,
                c2 - c1 + 1 <= 17,
        ;
        assert(m * 17 * (r2 - 1 - r1 + 1) + m * 17 == m * 17 * (r2 - r1 + 1)) by (nonlinear_arith);
    }
}

/// Number of 4-neighbours of `(r, c)` owned by `p`.
pub open spec fn protection(b: Board, r: int, c: int, p: i8) -> int {
    (if r > 0 && b.own(r - 1, c) == p {
        1int
    } else {
        0int
    }) + (if r < 9 && b.own(r + 1, c) == p {
        1int
    } else {
        0int
    }) + (if c > 0 && b.own(r, c - 1) == p {
        1int
    } else {
        0int
    }) + (if c < 16 && b.own(r, c + 1) == p {
        1int
    } else {
        0int
    })
}

/// Risk of cell `(r, c)` for the side to move: 0 for its own cells; otherwise 2 when no
/// neighbour is its own and some neighbour holds a mushroom, 1 when one neighbour is its own
/// and some neighbour holds a mushroom, else 0.
pub open spec fn cell_risk(b: Board, r: int, c: int) -> int {
    if b.own(r, c) == b.player {
        0
    } else {
        let prot = protection(b, r, c, b.player);
        let live = spec_live_neighbor(cells(b), r, c);
        if prot == 0 && live {
            2
        } else if prot <= 1 && live {
            1
        } else {
            0
        }
    }
}

/// Connection gain of cell `(r, c)` for the side to move: 0 for its own cells, otherwise
/// the number of neighbours it owns.
pub open spec fn cell_boost(b: Board, r: int, c: int) -> int {
    if b.own(r, c) == b.player {
        0
    } else {
        protection(b, r, c, b.player)
    }
}

/// Cell `(r, c)` belongs to the other side.
pub open spec fn cell_steal(b: Board, r: int, c: int) -> int {
    if b.own(r, c) as int == spec_opponent(b.player) {
        1
    } else {
        0
    }
}

/// The sums that `barrier_potential` computes fit in 32 bits: the height and width always, the
/// column sum for a tall narrow rectangle, the row sum for a wide flat one.
pub open spec fn barrier_fits(r1: i32, c1: i32, r2: i32, c2: i32) -> bool {
    let h = r2 - r1 + 1;
    let w = c2 - c1 + 1;
    &&& extents_fit(r1, c1, r2, c2)
    &&& (h >= 4 && w <= 2) ==> sum_fits(c1, c2)
    &&& (!(h >= 4 && w <= 2) && w >= 6 && h <= 2) ==> sum_fits(r1, r2)
}

/// Barrier potential of a rectangle: tall and narrow (4+ by 1-2) or wide and flat (1-2 by 6+),
/// 2 when its middle is central, 1 otherwise; 0 for other shapes.
pub open spec fn spec_barrier_potential(r1: int, c1: int, r2: int, c2: int) -> int {
    let h = r2 - r1 + 1;
    let w = c2 - c1 + 1;
    if h >= 4 && w <= 2 {
        let cc = div_trunc(c1 + c2, 2);
        if 4 <= cc <= 12 {
            2
        } else {
            1
        }
    } else if w >= 6 && h <= 2 {
        let cr = div_trunc(r1 + r2, 2);
        if 3 <= cr <= 6 {
            2
        } else {
            1
        }
    } else {
        0
    }
}

/// The count of cells owned by `p` that the cache holds (0 for other marks).
pub open spec fn spec_owned_cells(b: Board, p: i8) -> int {
    if p == FIRST_PLAYER {
        b.eval_cache.owned_first as int
    } else if p == SECOND_PLAYER {
        b.eval_cache.owned_second as int
    } else {
        0
    }
}

/// The rectangle is empty, or on the board.
pub open spec fn area_ok(r1: i32, c1: i32, r2: i32, c2: i32) -> bool {
    r1 > r2 || c1 > c2 || (0 <= r1 && r2 < 10 && 0 <= c1 && c2 < 17)
}

impl Board {
    /// Whether `mv` is a pass or a legal rectangle.
    pub fn is_legal_move(&self, mv: &Move) -> (b: bool)
        ensures
            b == (mv.spec_is_pass() || legal_move(self.values, *mv)),
    {
        if mv.is_pass() {
            return true;
        }
        if mv.r1 < 0 || mv.r2 >= 10 || mv.c1 < 0 || mv.c2 >= 17 {
            return false;
        }
        if mv.r1 > mv.r2 || mv.c1 > mv.c2 {
            return false;
        }
        let ghost g = self.values;
        let mut sum: i32 = 0;
        let mut r = mv.r1;
        while r <= mv.r2
            invariant
                0 <= mv.r1 <= r <= mv.r2 + 1,
                mv.r2 < 10,
                0 <= mv.c1 <= mv.c2 < 17,
                g == self.values,
                sum == rect_sum(g, mv.r1 as int, mv.c1 as int, r - 1, mv.c2 as int),
                sum <= 10,
            decreases mv.r2 + 1 - r,
        {
            let mut c = mv.c1;
            while c <= mv.c2
                invariant
                    0 <= mv.r1 <= r <= mv.r2,
                    mv.r2 < 10,
                    0 <= mv.c1 <= c <= mv.c2 + 1,
                    mv.c2 < 17,
                    g == self.values,
                    sum == rect_sum(g, mv.r1 as int, mv.c1 as int, r - 1, mv.c2 as int) + row_sum(
                        g,
                        r as int,
                        mv.c1 as int,
                        c - 1,
                    ),
                    sum <= 10,
                decreases mv.c2 + 1 - c,
            {
                let v = self.values[r as usize][c as usize];
                if v > 0 {
                    sum += v as i32;
                    if sum > 10 {
                        proof {
                            lemma_rect_prefix(
                                g,
                                mv.r1 as int,
                                mv.c1 as int,
                                mv.r2 as int,
                                mv.c2 as int,
                                r as int,
                                c as int,
                            );
                        }
                        return false;
                    }
                }
                c += 1;
            }
            r += 1;
        }
        if sum != 10 {
            return false;
        }
        check_inscribed(&self.values, mv.r1 as usize, mv.c1 as usize, mv.r2 as usize, mv.c2 as usize)
    }

    /// The count of cells owned by `player` that the cache holds.
    pub fn owned_cells(&self, player: i8) -> (n: i32)
        ensures
            n == spec_owned_cells(*self, player),
    {
        if player == FIRST_PLAYER {
            self.eval_cache.owned_first
        } else if player == SECOND_PLAYER {
            self.eval_cache.owned_second
        } else {
            0
        }
    }

    /// Barrier potential of the rectangle `(r1, c1)`-`(r2, c2)`.
    pub fn barrier_potential(&self, r1: i32, c1: i32, r2: i32, c2: i32) -> (p: i32)
        requires
            barrier_fits(r1, c1, r2, c2),
        ensures
            p == spec_barrier_potential(r1 as int, c1 as int, r2 as int, c2 as int),
    {
        let h = r2 - r1 + 1;
        let w = c2 - c1 + 1;
        if h >= 4 && w <= 2 {
            let cc = (c1 + c2) / 2;
            if cc >= 4 && cc <= 12 {
                return 2;
            }
            return 1;
        }
        if w >= 6 && h <= 2 {
            let cr = (r1 + r2) / 2;
            if cr >= 3 && cr <= 6 {
                return 2;
            }
            return 1;
        }
        0
    }

    fn protection_at(&self, r: usize, c: usize) -> (p: i32)
        requires
            r < 10,
            c < 17,
        ensures
            p == protection(*self, r as int, c as int, self.player),
    {
        let mut protection: i32 = 0;
        if r > 0 && self.owners[r - 1][c] == self.player {
            protection += 1;
        }
        if r < ROWS - 1 && self.owners[r + 1][c] == self.player {
            protection += 1;
        }
        if c > 0 && self.owners[r][c - 1] == self.player {
            protection += 1;
        }
        if c < COLS - 1 && self.owners[r][c + 1] == self.player {
            protection += 1;
        }
        protection
    }

    /// Sum of the risks of the rectangle's cells for the side to move.
    pub fn dead_cell_risk_proxy(&self, r1: i32, c1: i32, r2: i32, c2: i32) -> (risk: i32)
        requires
            area_ok(r1, c1, r2, c2),
        ensures
            risk == area_total(|r: int, c: int| cell_risk(*self, r, c), r1 as int, c1 as int, r2 as int, c2 as int),
    {
        let ghost f = |r: int, c: int| cell_risk(*self, r, c);
        if r1 > r2 || c1 > c2 {
            proof {
                lemma_area_empty(f, r1 as int, c1 as int, r2 as int, c2 as int);
            }
            return 0;
        }
        let mut risk: i32 = 0;
        let mut r = r1;
        while r <= r2
            invariant
                0 <= r1 <= r <= r2 + 1,
                r2 < 10,
                0 <= c1 <= c2 < 17,
                f == (|r: int, c: int| cell_risk(*self, r, c)),
                risk == area_total(f, r1 as int, c1 as int, r - 1, c2 as int),
            decreases r2 + 1 - r,
        {
            proof {
                lemma_area_total_bounds(f, r1 as int, c1 as int, r - 1, c2 as int, 2);
            }
            let mut c = c1;
            while c <= c2
                invariant
                    0 <= r1 <= r <= r2,
                    r2 < 10,
                    0 <= c1 <= c <= c2 + 1,
                    c2 < 17,
                    f == (|r: int, c: int| cell_risk(*self, r, c)),
                    0 <= area_total(f, r1 as int, c1 as int, r - 1, c2 as int) <= 2 * 17 * 10,
                    risk == area_total(f, r1 as int, c1 as int, r - 1, c2 as int) + row_total(
                        f,
                        r as int,
                        c1 as int,
                        c - 1,
                    ),
                decreases c2 + 1 - c,
            {
                proof {
                    lemma_row_total_bounds(f, r as int, c1 as int, c - 1, 2);
                }
                let ru = r as usize;
                let cu = c as usize;
                if self.owners[ru][cu] != self.player {
                    let protection = self.protection_at(ru, cu);
                    let adjacent_live = self.cell_has_live_neighbor(ru, cu);
                    if protection == 0 && adjacent_live {
                        risk += 2;
                    } else if protection <= 1 && adjacent_live {
                        risk += 1;
                    }
                }
                c += 1;
            }
            r += 1;
        }
        risk
    }

    /// Sum of the connection gains of the rectangle's cells for the side to move.
    pub fn connectivity_boost(&self, r1: i32, c1: i32, r2: i32, c2: i32) -> (boost: i32)
        requires
            area_ok(r1, c1, r2, c2),
        ensures
            boost == area_total(|r: int, c: int| cell_boost(*self, r, c), r1 as int, c1 as int, r2 as int, c2 as int),
    {
        let ghost f = |r: int, c: int| cell_boost(*self, r, c);
        if r1 > r2 || c1 > c2 {
            proof {
                lemma_area_empty(f, r1 as int, c1 as int, r2 as int, c2 as int);
            }
            return 0;
        }
        let mut boost: i32 = 0;
        let mut r = r1;
        while r <= r2
            invariant
                0 <= r1 <= r <= r2 + 1,
                r2 < 10,
                0 <= c1 <= c2 < 17,
                f == (|r: int, c: int| cell_boost(*self, r, c)),
                boost == area_total(f, r1 as int, c1 as int, r - 1, c2 as int),
            decreases r2 + 1 - r,
        {
            proof {
                lemma_area_total_bounds(f, r1 as int, c1 as int, r - 1, c2 as int, 4);
            }
            let mut c = c1;
            while c <= c2
                invariant
                    0 <= r1 <= r <= r2,
                    r2 < 10,
                    0 <= c1 <= c <= c2 + 1,
                    c2 < 17,
                    f == (|r: int, c: int| cell_boost(*self, r, c)),
                    0 <= area_total(f, r1 as int, c1 as int, r - 1, c2 as int) <= 4 * 17 * 10,
                    boost == area_total(f, r1 as int, c1 as int, r - 1, c2 as int) + row_total(
                        f,
                        r as int,
                        c1 as int,
                        c - 1,
                    ),
                decreases c2 + 1 - c,
            {
                proof {
                    lemma_row_total_bounds(f, r as int, c1 as int, c - 1, 4);
                }
                let ru = r as usize;
                let cu = c as usize;
                if self.owners[ru][cu] != self.player {
                    boost += self.protection_at(ru, cu);
                }
                c += 1;
            }
            r += 1;
        }
        boost
    }

    /// Number of cells of the rectangle owned by the other side.
    pub(crate) fn steal_count(&self, r1: i32, c1: i32, r2: i32, c2: i32) -> (steal: i32)
        requires
            0 <= r1 <= r2 < 10,
            0 <= c1 <= c2 < 17,
            self.player != i8::MIN,
        ensures
            steal == area_total(|r: int, c: int| cell_steal(*self, r, c), r1 as int, c1 as int, r2 as int, c2 as int),
            0 <= steal <= 170,
    {
        let ghost f = |r: int, c: int| cell_steal(*self, r, c);
        let mut steal: i32 = 0;
        let mut r = r1;
        while r <= r2
            invariant
                0 <= r1 <= r <= r2 + 1,
                r2 < 10,
                0 <= c1 <= c2 < 17,
                self.player != i8::MIN,
                f == (|r: int, c: int| cell_steal(*self, r, c)),
                steal == area_total(f, r1 as int, c1 as int, r - 1, c2 as int),
            decreases r2 + 1 - r,
        {
            proof {
                lemma_area_total_bounds(f, r1 as int, c1 as int, r - 1, c2 as int, 1);
            }
            let mut c = c1;
            while c <= c2
                invariant
                    0 <= r1 <= r <= r2,
                    r2 < 10,
                    0 <= c1 <= c <= c2 + 1,
                    c2 < 17,
                    self.player != i8::MIN,
                    f == (|r: int, c: int| cell_steal(*self, r, c)),
                    0 <= area_total(f, r1 as int, c1 as int, r - 1, c2 as int) <= 17 * 10,
                    steal == area_total(f, r1 as int, c1 as int, r - 1, c2 as int) + row_total(
                        f,
                        r as int,
                        c1 as int,
                        c - 1,
                    ),
                decreases c2 + 1 - c,
            {
                proof {
                    lemma_row_total_bounds(f, r as int, c1 as int, c - 1, 1);
                }
                if self.owners[r as usize][c as usize] == opponent(self.player) {
                    steal += 1;
                }
                c += 1;
            }
            r += 1;
        }
        proof {
            lemma_area_total_bounds(f, r1 as int, c1 as int, r2 as int, c2 as int, 1);
        }
        steal
    }
}

/// An empty rectangle sums to 0.
pub proof fn lemma_area_empty(f: spec_fn(int, int) -> int, r1: int, c1: int, r2: int, c2: int)
    requires
        r1 > r2 || c1 > c2,
    ensures
        area_total(f, r1, c1, r2, c2) == 0,
    decreases r2 - r1 + 1,
{
    if r2 >= r1 {
        lemma_area_empty(f, r1, c1, r2 - 1, c2);
    }
}


/// `v` limited to `[-cap, cap]`.
pub open spec fn clamp_to(v: int, cap: int) -> int {
    if v < -cap {
        -cap
    } else if v > cap {
        cap
    } else {
        v
    }
}

/// The adjustment a prior configuration gives rectangle `m` on board `b`: shape boost, side
/// boost, medium-size boost (5 to 10 cells), barrier boost, a quarter of the connection gain
/// times the connection boost, minus a quarter of the risk times the risk penalty, limited to
/// the configuration's cap.
pub open spec fn spec_prior_adjustment(b: Board, m: Move, cfg: MovePriorConfig) -> int {
    let (r1, c1, r2, c2) = (m.r1 as int, m.c1 as int, m.r2 as int, m.c2 as int);
    let area = (r2 - r1 + 1) * (c2 - c1 + 1);
    let adj = cfg.shape_boost@[spec_classify_shape(r1, c1, r2, c2).spec_index()] as int + (
    if b.player == FIRST_PLAYER {
        cfg.side_boost_first as int
    } else if b.player == SECOND_PLAYER {
        cfg.side_boost_second as int
    } else {
        0
    }) + (if 5 <= area <= 10 {
        cfg.medium_rect_boost as int
    } else {
        0
    }) + (if spec_barrier_potential(r1, c1, r2, c2) > 0 {
        cfg.barrier_boost as int
    } else {
        0
    }) + div_trunc(
        area_total(|r: int, c: int| cell_boost(b, r, c), r1, c1, r2, c2) * cfg.connection_boost,
        4,
    ) - div_trunc(
        area_total(|r: int, c: int| cell_risk(b, r, c), r1, c1, r2, c2) * cfg.dead_cell_risk_penalty,
        4,
    );
    clamp_to(adj, cfg.max_total_adjustment as int)
}

/// The configuration a reference points to, if any.
pub open spec fn prior_value(prior: Option<&MovePriorConfig>) -> Option<MovePriorConfig> {
    match prior {
        Some(p) => Some(*p),
        None => None,
    }
}

/// Priority of rectangle `m` on board `b`: 1000 per cell taken from the other side, plus the
/// area, plus 500 when taller than wide, plus 300 for at most 4 cells, plus the prior
/// configuration's adjustment when there is one.
pub open spec fn spec_move_priority(b: Board, m: Move, prior: Option<MovePriorConfig>) -> int {
    let (r1, c1, r2, c2) = (m.r1 as int, m.c1 as int, m.r2 as int, m.c2 as int);
    let steal = area_total(|r: int, c: int| cell_steal(b, r, c), r1, c1, r2, c2);
    let h = r2 - r1 + 1;
    let w = c2 - c1 + 1;
    let area = h * w;
    let base = steal * 1000 + area + (if h > w {
        500int
    } else {
        0int
    }) + (if area <= 4 {
        300int
    } else {
        0int
    });
    match prior {
        Some(cfg) => base + spec_prior_adjustment(b, m, cfg),
        None => base,
    }
}

impl Board {
    /// The adjustment `cfg` gives the legal rectangle `m` (see `spec_prior_adjustment`).
    #[verifier::rlimit(40)]
    fn prior_adjustment(&self, m: &Move, cfg: &MovePriorConfig) -> (adj: i32)
        requires
            legal_move(self.values, *m),
        ensures
            adj == spec_prior_adjustment(*self, *m, *cfg),
            -65535 <= adj <= 65535,
    {
        let m = *m;
        assert(1 <= (m.r2 - m.r1 + 1) * (m.c2 - m.c1 + 1) <= 170) by (nonlinear_arith)
            requires
                1 <= m.r2 - m.r1 + 1 <= 10,
                1 <= m.c2 - m.c1 + 1 <= 17,
        ;
        let area = (m.r2 - m.r1 + 1) * (m.c2 - m.c1 + 1);
        let mut adj: i32 = 0;
        let sc = classify_shape(m.r1, m.c1, m.r2, m.c2).index();
        adj += cfg.shape_boost[sc] as i32;
        if self.player == FIRST_PLAYER {
            adj += cfg.side_boost_first as i32;
        } else if self.player == SECOND_PLAYER {
            adj += cfg.side_boost_second as i32;
        }
        if area >= 5 && area <= 10 {
            adj += cfg.medium_rect_boost as i32;
        }
        if self.barrier_potential(m.r1, m.c1, m.r2, m.c2) > 0 {
            adj += cfg.barrier_boost as i32;
        }
        let boost = self.connectivity_boost(m.r1, m.c1, m.r2, m.c2);
        let risk = self.dead_cell_risk_proxy(m.r1, m.c1, m.r2, m.c2);
        proof {
            lemma_area_total_bounds(
                |r: int, c: int| cell_boost(*self, r, c),
                m.r1 as int,
                m.c1 as int,
                m.r2 as int,
                m.c2 as int,
                4,
            );
            lemma_area_total_bounds(
                |r: int, c: int| cell_risk(*self, r, c),
                m.r1 as int,
                m.c1 as int,
                m.r2 as int,
                m.c2 as int,
                2,
            );
            assert(-680 * 32768 <= boost * cfg.connection_boost <= 680 * 32768) by (
            nonlinear_arith)
                requires
                    0 <= boost <= 680,
                    -32768 <= cfg.connection_boost <= 32767,
            ;
            assert(-340 * 32768 <= risk * cfg.dead_cell_risk_penalty <= 340 * 32768) by (
            nonlinear_arith)
                requires
                    0 <= risk <= 340,
                    -32768 <= cfg.dead_cell_risk_penalty <= 32767,
            ;
        }
        adj += boost * cfg.connection_boost as i32 / 4;
        adj -= risk * cfg.dead_cell_risk_penalty as i32 / 4;
        let cap = cfg.max_total_adjustment as i32;
        adj = if adj < -cap {
            -cap
        } else if adj > cap {
            cap
        } else {
            adj
        };
        adj
    }

    /// Priority of the legal rectangle `m` (see `spec_move_priority`).
    fn move_priority(&self, m: &Move, prior: Option<&MovePriorConfig>) -> (p: i32)
        requires
            self.player != i8::MIN,
            legal_move(self.values, *m),
        ensures
            p == spec_move_priority(*self, *m, prior_value(prior)),
    {
        let mut m = *m;
        if m.is_pass() {
            return 0;
        } else {
            let steal = self.steal_count(m.r1, m.c1, m.r2, m.c2);
            assert(1 <= (m.r2 - m.r1 + 1) * (m.c2 - m.c1 + 1) <= 170) by (nonlinear_arith)
                requires
                    1 <= m.r2 - m.r1 + 1 <= 10,
                    1 <= m.c2 - m.c1 + 1 <= 17,
            ;
            let area = (m.r2 - m.r1 + 1) * (m.c2 - m.c1 + 1);
            let height = m.r2 - m.r1 + 1;
            let width = m.c2 - m.c1 + 1;
            let portrait_bonus = if height > width {
                500
            } else {
                0
            };
            let small_bonus = if area <= 4 {
                300
            } else {
                0
            };
            m.priority = steal * 1000 + area + portrait_bonus + small_bonus;
            let ghost base = m.priority;
            assert(spec_move_priority(*self, m, None) == base);
            if let Some(cfg) = prior {
                let adj = self.prior_adjustment(&m, cfg);
                m.priority += adj;
            }
        }
        m.priority
    }

    /// The legal rectangles (in the order of `generate_legal_moves`) with their priorities, with
    /// no prior configuration.
    pub fn legal_moves(&self) -> (moves: Vec<Move>)
        requires
            self.player != i8::MIN,
        ensures
            legal_rects_in_order(self.values, moves@),
            forall|i: int|
                0 <= i < moves@.len() ==> (#[trigger] moves@[i]).priority == spec_move_priority(
                    *self,
                    moves@[i],
                    None,
                ),
    {
        self.legal_moves_with(None)
    }

    /// The legal rectangles (in the order of `generate_legal_moves`) with their priorities,
    /// adjusted by `prior` when there is one.
    pub fn legal_moves_with(&self, prior: Option<&MovePriorConfig>) -> (moves: Vec<Move>)
        requires
            self.player != i8::MIN,
        ensures
            legal_rects_in_order(self.values, moves@),
            forall|i: int|
                0 <= i < moves@.len() ==> (#[trigger] moves@[i]).priority == spec_move_priority(
                    *self,
                    moves@[i],
                    prior_value(prior),
                ),
    {
        let ghost pr = prior_value(prior);
        let mut moves = generate_legal_moves(&self.values);
        let ghost gen = moves@;
        let mut i: usize = 0;
        while i < moves.len()
            invariant
                self.player != i8::MIN,
                pr == prior_value(prior),
                i <= moves@.len(),
                moves@.len() == gen.len(),
                all_legal_in_order(self.values, gen),
                forall|j: int| 0 <= j < moves@.len() ==> (#[trigger] moves@[j]).same_coords(gen[j]),
                forall|j: int|
                    0 <= j < i ==> (#[trigger] moves@[j]).priority == spec_move_priority(*self, moves@[j], pr),
            decreases moves@.len() - i,
        {
            let mut m = moves[i];
            assert(legal_move(self.values, gen[i as int]));
            assert(m.same_coords(gen[i as int]));
            let ghost m0 = m;
            m.priority = self.move_priority(&m, prior);
            assert(spec_move_priority(*self, m, pr) == spec_move_priority(*self, m0, pr));
            assert(m.priority == spec_move_priority(*self, m, pr));
            let ghost before = moves@;
            moves.set(i, m);
            assert forall|j: int| 0 <= j < i + 1 implies (#[trigger] moves@[j]).priority
                == spec_move_priority(*self, moves@[j], pr) by {
                if j < i {
                    assert(moves@[j] == before[j]);
                } else {
                    assert(moves@[j] == m);
                }
            }
            i += 1;
        }
        proof {
            lemma_same_rects_in_order(self.values, gen, moves@);
        }
        moves
    }
}


/// Taking back several moves in reverse order, each with the record its making produced, gives
/// back the board before the first: `bs` are the boards as the moves `ms` are made (with
/// records `recs`), and `us` the boards as they are taken back, from the last.
pub proof fn lemma_unmake_stack(bs: Seq<Board>, ms: Seq<Move>, recs: Seq<MoveRecord>, us: Seq<Board>)
    requires
        recs.len() == ms.len(),
        bs.len() == ms.len() + 1,
        us.len() == ms.len() + 1,
        forall|i: int|
            0 <= i < ms.len() ==> move_ok(bs[i], #[trigger] ms[i]) && spec_applied(bs[i], bs[i + 1], ms[i])
                && recorded(recs[i], bs[i], ms[i]),
        us[ms.len() as int] == bs[ms.len() as int],
        forall|i: int| 0 <= i < ms.len() ==> spec_unmade(us[i + 1], #[trigger] recs[i], us[i]),
    ensures
        us[0] == bs[0],
{
    lemma_unmake_stack_from(bs, ms, recs, us, 0);
}

/// Taking back the moves from the last down to move `k` gives back the board before move `k`.
proof fn lemma_unmake_stack_from(bs: Seq<Board>, ms: Seq<Move>, recs: Seq<MoveRecord>, us: Seq<Board>, k: int)
    requires
        recs.len() == ms.len(),
        bs.len() == ms.len() + 1,
        us.len() == ms.len() + 1,
        0 <= k <= ms.len(),
        forall|i: int|
            0 <= i < ms.len() ==> move_ok(bs[i], #[trigger] ms[i]) && spec_applied(bs[i], bs[i + 1], ms[i])
                && recorded(recs[i], bs[i], ms[i]),
        us[ms.len() as int] == bs[ms.len() as int],
        forall|i: int| 0 <= i < ms.len() ==> spec_unmade(us[i + 1], #[trigger] recs[i], us[i]),
    ensures
        forall|i: int| k <= i <= ms.len() ==> #[trigger] us[i] == bs[i],
    decreases ms.len() - k,
{
    if k < ms.len() {
        lemma_unmake_stack_from(bs, ms, recs, us, k + 1);
        assert(us[k + 1] == bs[k + 1]);
        assert(move_ok(bs[k], ms[k]));
        assert(spec_unmade(us[k + 1], recs[k], us[k]));
        lemma_make_unmake_roundtrip(bs[k], ms[k], recs[k], bs[k + 1], us[k]);
    }
}

/// The board after a move is determined by the board before and the move.
pub proof fn lemma_applied_unique(b0: Board, b1: Board, b2: Board, mv: Move)
    requires
        spec_applied(b0, b1, mv),
        spec_applied(b0, b2, mv),
    ensures
        b1 == b2,
{
    if mv.spec_is_pass() {
        lemma_same_grid(b0, b1);
        lemma_same_grid(b0, b2);
    } else {
        assert(same_grid(b1, b2)) by {
            assert forall|r: int, c: int| in_board(r, c) implies b1.val(r, c) == b2.val(r, c)
                && b1.own(r, c) == b2.own(r, c) by {}
        }
        lemma_same_grid(b1, b2);
        assert forall|k: int| 0 <= k < 10 implies #[trigger] cache_field(b1.eval_cache, k)
            == cache_field(b2.eval_cache, k) by {}
        assert(cache_field(b1.eval_cache, 0) == cache_field(b2.eval_cache, 0));
        assert(cache_field(b1.eval_cache, 1) == cache_field(b2.eval_cache, 1));
        assert(cache_field(b1.eval_cache, 2) == cache_field(b2.eval_cache, 2));
        assert(cache_field(b1.eval_cache, 3) == cache_field(b2.eval_cache, 3));
        assert(cache_field(b1.eval_cache, 4) == cache_field(b2.eval_cache, 4));
        assert(cache_field(b1.eval_cache, 5) == cache_field(b2.eval_cache, 5));
        assert(cache_field(b1.eval_cache, 6) == cache_field(b2.eval_cache, 6));
        assert(cache_field(b1.eval_cache, 7) == cache_field(b2.eval_cache, 7));
        assert(cache_field(b1.eval_cache, 8) == cache_field(b2.eval_cache, 8));
        assert(cache_field(b1.eval_cache, 9) == cache_field(b2.eval_cache, 9));
    }
    assert(spec_hash_board(b1) == spec_hash_board(b2));
    let h1 = b1.hash;
    let h2 = b2.hash;
    let s = spec_hash_board(b1);
    let d = hash_drift(b0);
    assert(h1 ^ s == d && h2 ^ s == d ==> h1 == h2) by (bit_vector);
}

/// The text holds at least ten whitespace-separated tokens, and each of the first ten is
/// seventeen decimal digits.
pub open spec fn board_text_ok(s: Seq<u8>) -> bool {
    let sp = token_spans(s);
    &&& sp.len() >= 10
    &&& forall|r: int|
        0 <= r < 10 ==> {
            &&& (#[trigger] sp[r]).1 - sp[r].0 == 17
            &&& forall|c: int| 0 <= c < 17 ==> is_digit(#[trigger] s[sp[r].0 + c])
        }
}

/// The value of cell `(r, c)` that the text gives: digit `c` of token `r`.
pub open spec fn text_value(s: Seq<u8>, r: int, c: int) -> int {
    s[token_spans(s)[r].0 + c] - 48
}

impl Board {
    /// Whether `board_str` describes a board (see `board_text_ok`).
    pub fn board_text_ok(board_str: &str) -> (ok: bool)
        ensures
            ok == board_text_ok(board_str.spec_bytes()),
    {
        let bytes = board_str.as_bytes();
        let n = bytes.len();
        let spans = split_tokens(bytes);
        if spans.len() < ROWS {
            return false;
        }
        let mut r: usize = 0;
        while r < ROWS
            invariant
                bytes@ == board_str.spec_bytes(),
                n == bytes@.len(),
                spans@.len() == token_spans(bytes@).len(),
                spans@.len() >= 10,
                forall|k: int|
                    0 <= k < spans@.len() ==> (#[trigger] spans@[k]).0 == token_spans(bytes@)[k].0
                        && spans@[k].1 == token_spans(bytes@)[k].1,
                r <= 10,
                forall|q: int|
                    0 <= q < r ==> {
                        &&& (#[trigger] token_spans(bytes@)[q]).1 - token_spans(bytes@)[q].0 == 17
                        &&& forall|c: int| 0 <= c < 17 ==> is_digit(#[trigger] bytes@[token_spans(bytes@)[q].0 + c])
                    },
            decreases 10 - r,
        {
            let (start, end) = spans[r];
            assert(spans@[r as int].0 == token_spans(bytes@)[r as int].0);
            proof {
                crate::text::lemma_spans_in_range(bytes@, r as int);
            }
            if end - start != COLS {
                return false;
            }
            let mut c: usize = 0;
            while c < COLS
                invariant
                    bytes@ == board_str.spec_bytes(),
                    n == bytes@.len(),
                    start + 17 <= n,
                    r < 10,
                    start == token_spans(bytes@)[r as int].0,
                    c <= 17,
                    forall|k: int| 0 <= k < c ==> is_digit(#[trigger] bytes@[start + k]),
                decreases 17 - c,
            {
                let b = bytes[start + c];
                if b < 48 || b > 57 {
                    assert(!is_digit(bytes@[token_spans(bytes@)[r as int].0 + c]));
                    return false;
                }
                c += 1;
            }
            r += 1;
        }
        true
    }

    /// Sets the cells from `board_str` (see `text_value`), with no owners, no passes, and the
    /// hash and the evaluation counts recomputed; the side to move stays.
    pub fn init_from_string(&mut self, board_str: &str)
        requires
            board_text_ok(board_str.spec_bytes()),
        ensures
            forall|r: int, c: int|
                in_board(r, c) ==> final(self).val(r, c) == text_value(board_str.spec_bytes(), r, c)
                    && final(self).own(r, c) == NO_OWNER,
            final(self).player == old(self).player,
            final(self).consecutive_passes == 0,
            final(self).zobrist == old(self).zobrist,
            final(self).hash == spec_hash_board(*final(self)),
            cache_consistent(*final(self)),
            old(self).zobrist.is_canonical() ==> final(self).wf(),
    {
        let ghost s = board_str.spec_bytes();
        let bytes = board_str.as_bytes();
        let n = bytes.len();
        let spans = split_tokens(bytes);
        let mut r: usize = 0;
        while r < ROWS
            invariant
                bytes@ == s,
                n == s.len(),
                board_text_ok(s),
                spans@.len() == token_spans(s).len(),
                forall|k: int|
                    0 <= k < spans@.len() ==> (#[trigger] spans@[k]).0 == token_spans(s)[k].0
                        && spans@[k].1 == token_spans(s)[k].1,
                r <= 10,
                self.zobrist == old(self).zobrist,
                self.player == old(self).player,
                forall|q: int, c: int| 0 <= q < r && 0 <= c < 17 ==> #[trigger] self.values@[q]@[c] == text_value(s, q, c),
            decreases 10 - r,
        {
            let start = spans[r].0;
            assert(token_spans(s)[r as int].1 - token_spans(s)[r as int].0 == 17);
            proof {
                crate::text::lemma_spans_in_range(s, r as int);
            }
            let mut c: usize = 0;
            while c < COLS
                invariant
                    bytes@ == s,
                    n == s.len(),
                    board_text_ok(s),
                    start == token_spans(s)[r as int].0,
                    start + 17 <= n,
                    r < 10,
                    c <= 17,
                    self.zobrist == old(self).zobrist,
                    self.player == old(self).player,
                    forall|q: int, k: int| 0 <= q < r && 0 <= k < 17 ==> #[trigger] self.values@[q]@[k] == text_value(s, q, k),
                    forall|k: int| 0 <= k < c ==> #[trigger] self.values@[r as int]@[k] == text_value(s, r as int, k),
                decreases 17 - c,
            {
                let b = bytes[start + c];
                assert(is_digit(s[token_spans(s)[r as int].0 + c]));
                self.values[r][c] = (b - 48) as i8;
                c += 1;
            }
            r += 1;
        }
        let mut rr: usize = 0;
        while rr < ROWS
            invariant
                rr <= 10,
                self.zobrist == old(self).zobrist,
                self.player == old(self).player,
                forall|q: int, c: int| 0 <= q < 10 && 0 <= c < 17 ==> #[trigger] self.values@[q]@[c] == text_value(s, q, c),
                forall|q: int, c: int| 0 <= q < rr && 0 <= c < 17 ==> #[trigger] self.owners@[q]@[c] == NO_OWNER,
            decreases 10 - rr,
        {
            let mut cc: usize = 0;
            while cc < COLS
                invariant
                    rr < 10,
                    cc <= 17,
                    self.zobrist == old(self).zobrist,
                    self.player == old(self).player,
                    forall|q: int, c: int| 0 <= q < 10 && 0 <= c < 17 ==> #[trigger] self.values@[q]@[c] == text_value(s, q, c),
                    forall|q: int, c: int| 0 <= q < rr && 0 <= c < 17 ==> #[trigger] self.owners@[q]@[c] == NO_OWNER,
                    forall|c: int| 0 <= c < cc ==> #[trigger] self.owners@[rr as int]@[c] == NO_OWNER,
                decreases 17 - cc,
            {
                self.owners[rr][cc] = NO_OWNER;
                cc += 1;
            }
            rr += 1;
        }
        self.consecutive_passes = 0;
        self.recompute_hash();
        self.recompute_eval_cache();
    }
}

} // verus!
