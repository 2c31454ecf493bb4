use vstd::prelude::*;

use std::time::Instant;

use crate::board::{
    Board, MoveRecord, area_total, cell_boost, cell_risk, cell_steal, cells, cache_field,
    fc, fr, gval, in_board, in_rect, lemma_area_total_bounds, lemma_flat, lemma_make_unmake_roundtrip,
    lemma_row_total_bounds, lemma_total_bounds, lemma_unflat, lemma_applied_unique, move_ok, row_total,
    spec_applied, spec_barrier_potential, spec_live_neighbor, spec_move_priority, spec_owned_cells,
    clamp_to, spec_prior_adjustment, played, same_grid, lemma_same_grid,
};
use crate::clock::{instant_now, millis_since};
use crate::eval::{evaluate_with, lemma_evaluate_fits, spec_evaluate, EvalWeightSet, EvalWeights};
use crate::search::ordering::with_bonus;
use crate::text::{numbers_among, numbers_in_text, token_spans};
use crate::search::tt::{
    CompactTTEntry, TTBucket, TT_SIZE, TranspositionTable, bucket_index, stored_bucket, stored_entry, key_sig, pack_move, probe_cutoff, probe_pick,
    spec_pack_move, spec_unpack_move, tt_probe, tt_store, tt_flag,
};
use crate::movegen::{generate_legal_moves, legal_move, legal_rect, legal_rects_in_order, row_live};
use vstd::string::StringSliceAdditionalSpecFns;
use crate::types::{
    Move, MovePriorConfig, ValueGrid, COLS, FIRST_PLAYER, ROWS, SECOND_PLAYER, div_trunc,
    opponent, pass_move, spec_opponent,
};

verus! {

/// Largest magnitude of any score the search returns or stores.
pub const SCORE_LIMIT: i32 = 1000000;

/// Largest history score kept for a cell (further cutoffs leave it there).
pub const HISTORY_CAP: i32 = 100000000;

/// Deepest iteration of the iterative deepening.
pub const MAX_DEPTH: i32 = 12;

// ---------------------------------------------------------------------------
// Model.
// ---------------------------------------------------------------------------

/// The static evaluation the search uses, with the weights of the side it searches for.
pub open spec fn static_eval(b: Board, w: EvalWeights) -> int {
    spec_evaluate(b, w)
}

/// Score of a finished game for the side to move: 100000 plus the margin of owned cells when
/// ahead, -100000 plus the margin when behind, 0 when level.
pub open spec fn terminal_score(b: Board) -> int {
    let margin = spec_owned_cells(b, b.player) - spec_owned_cells(b, spec_opponent(b.player) as i8);
    if margin > 0 {
        100000 + margin
    } else if margin < 0 {
        -100000 + margin
    } else {
        0
    }
}

/// 1 when the cell with flat index `i` holds a mushroom, else 0.
pub open spec fn cell_live(g: ValueGrid, i: int) -> int {
    if gval(g, fr(i), fc(i)) > 0 {
        1
    } else {
        0
    }
}

/// Number of cells among the first `n` (row-major) that hold a mushroom.
pub open spec fn live_count(g: ValueGrid, n: int) -> int
    decreases n,
{
    if n <= 0 {
        0
    } else {
        live_count(g, n - 1) + cell_live(g, n - 1)
    }
}

/// A measure that every move of the game lowers: three per mushroom left, plus two, minus the
/// passes in a row.
pub open spec fn game_measure(b: Board) -> int {
    3 * live_count(b.values, 170) + 2 - b.consecutive_passes
}

/// The board reached from `b` by `m` (see `spec_applied`; it is unique).
pub open spec fn after_move(b: Board, m: Move) -> Board {
    choose|b1: Board| spec_applied(b, b1, m)
}

// ---------------------------------------------------------------------------
// Lemmas.
// ---------------------------------------------------------------------------

/// A mushroom count over `n` cells lies between 0 and `n`.
pub proof fn lemma_live_count_bounds(g: ValueGrid, n: int)
    requires
        0 <= n,
    ensures
        0 <= live_count(g, n) <= n,
    decreases n,
{
    if n > 0 {
        lemma_live_count_bounds(g, n - 1);
    }
}

/// When no cell of `g2` holds a mushroom that `g1` lacks, `g2` counts no more mushrooms, and
/// strictly fewer when cell `j` holds one in `g1` and none in `g2`.
pub proof fn lemma_live_count_mono(g1: ValueGrid, g2: ValueGrid, n: int, j: int)
    requires
        0 <= n,
        forall|i: int| 0 <= i < n ==> cell_live(g2, i) <= cell_live(g1, i),
    ensures
        live_count(g2, n) <= live_count(g1, n),
        0 <= j < n && cell_live(g2, j) < cell_live(g1, j) ==> live_count(g2, n) < live_count(g1, n),
    decreases n,
{
    if n > 0 {
        lemma_live_count_mono(g1, g2, n - 1, j);
    }
}

/// A legal rectangle takes at least one mushroom, so the game measure drops after it; a pass
/// keeps the mushrooms and adds one pass.
pub proof fn lemma_measure_drops(b0: Board, b1: Board, m: Move)
    requires
        spec_applied(b0, b1, m),
        m.spec_is_pass() || legal_move(b0.values, m),
        b0.consecutive_passes < 2,
    ensures
        0 <= game_measure(b1) < game_measure(b0),
{
    lemma_live_count_bounds(b1.values, 170);
    lemma_live_count_bounds(b0.values, 170);
    if m.spec_is_pass() {
        lemma_same_grid(b0, b1);
    } else {
        let g = b0.values;
        let r1 = m.r1 as int;
        assert(row_live(g, r1, m.c1 as int, m.c2 as int));
        let c = choose|c: int| m.c1 <= c <= m.c2 && #[trigger] g@[r1]@[c] > 0;
        lemma_flat(r1, c);
        let j = r1 * 17 + c;
        assert forall|i: int| 0 <= i < 170 implies cell_live(b1.values, i) <= cell_live(b0.values, i) by {
            lemma_unflat(i);
            assert(in_board(fr(i), fc(i)));
            assert(b1.val(fr(i), fc(i)) == if in_rect(m, fr(i), fc(i)) { 0 } else { b0.val(fr(i), fc(i)) });
        }
        assert(in_rect(m, r1, c));
        assert(b1.val(r1, c) == 0);
        lemma_live_count_mono(b0.values, b1.values, 170, j);
    }
}

/// The board after a move is the one `spec_applied` describes.
pub proof fn lemma_after_move(b0: Board, b1: Board, m: Move)
    requires
        spec_applied(b0, b1, m),
    ensures
        after_move(b0, m) == b1,
{
    let b2 = after_move(b0, m);
    assert(spec_applied(b0, b2, m));
    lemma_applied_unique(b0, b1, b2, m);
}

/// Cache counts lie between 0 and 340.
pub proof fn lemma_cache_bounds(b: Board)
    requires
        b.ready(),
    ensures
        0 <= b.eval_cache.owned_first <= 340,
        0 <= b.eval_cache.owned_second <= 340,
        0 <= b.eval_cache.connectivity_first <= 340,
        0 <= b.eval_cache.connectivity_second <= 340,
        0 <= b.eval_cache.corners_first <= 340,
        0 <= b.eval_cache.corners_second <= 340,
        0 <= b.eval_cache.edges_first <= 340,
        0 <= b.eval_cache.edges_second <= 340,
        0 <= b.eval_cache.live_adjacent_first <= 340,
        0 <= b.eval_cache.live_adjacent_second <= 340,
{
    assert forall|k: int| 0 <= k < 10 implies 0 <= #[trigger] cache_field(b.eval_cache, k) <= 340 by {
        lemma_total_bounds(cells(b), k, 170);
    }
    assert(0 <= cache_field(b.eval_cache, 0) <= 340);
    assert(0 <= cache_field(b.eval_cache, 1) <= 340);
    assert(0 <= cache_field(b.eval_cache, 2) <= 340);
    assert(0 <= cache_field(b.eval_cache, 3) <= 340);
    assert(0 <= cache_field(b.eval_cache, 4) <= 340);
    assert(0 <= cache_field(b.eval_cache, 5) <= 340);
    assert(0 <= cache_field(b.eval_cache, 6) <= 340);
    assert(0 <= cache_field(b.eval_cache, 7) <= 340);
    assert(0 <= cache_field(b.eval_cache, 8) <= 340);
    assert(0 <= cache_field(b.eval_cache, 9) <= 340);
}

/// The static evaluation and the score of a finished game stay within `SCORE_LIMIT`.
pub proof fn lemma_score_bounds(b: Board, w: EvalWeights)
    requires
        b.ready(),
        w.fits_search(),
    ensures
        -SCORE_LIMIT <= static_eval(b, w) <= SCORE_LIMIT,
        -SCORE_LIMIT <= terminal_score(b) <= SCORE_LIMIT,
{
    lemma_cache_bounds(b);
    lemma_evaluate_fits(b, w);
}


// ---------------------------------------------------------------------------
// Move-ordering heuristics of the second side.
// ---------------------------------------------------------------------------

/// Cells of the rectangle of `m` owned by the other side of `b`'s side to move.
pub open spec fn rect_steal(b: Board, m: Move) -> int {
    area_total(|r: int, c: int| cell_steal(b, r, c), m.r1 as int, m.c1 as int, m.r2 as int, m.c2 as int)
}

/// `v` is the largest number of the other side's cells that one legal rectangle of `b` takes
/// (0 when there is none).
pub open spec fn is_recapture_max(b: Board, v: int) -> bool {
    &&& 0 <= v
    &&& forall|m: Move| legal_move(b.values, m) ==> #[trigger] rect_steal(b, m) <= v
    &&& (v == 0 || exists|m: Move| legal_move(b.values, m) && #[trigger] rect_steal(b, m) == v)
}

/// The largest number of the other side's cells that one legal rectangle of `b` takes.
pub open spec fn spec_recapture_pressure(b: Board) -> int {
    choose|v: int| is_recapture_max(b, v)
}

/// There is only one such largest number.
pub proof fn lemma_recapture_unique(b: Board, v1: int, v2: int)
    requires
        is_recapture_max(b, v1),
        is_recapture_max(b, v2),
    ensures
        v1 == v2,
{
    if v1 != 0 {
        let m = choose|m: Move| legal_move(b.values, m) && #[trigger] rect_steal(b, m) == v1;
        assert(rect_steal(b, m) <= v2);
    }
    if v2 != 0 {
        let m = choose|m: Move| legal_move(b.values, m) && #[trigger] rect_steal(b, m) == v2;
        assert(rect_steal(b, m) <= v1);
    }
}

/// The largest number of the other side's cells that one legal rectangle takes (how much the
/// side to move can take back at once).
fn immediate_recapture_pressure(board: &Board) -> (best: i32)
    requires
        board.player != i8::MIN,
    ensures
        best == spec_recapture_pressure(*board),
        0 <= best <= 170,
{
    let opp_moves = generate_legal_moves(&board.values);
    let ghost g = board.values;
    let mut best_steal: i32 = 0;
    let mut i: usize = 0;
    while i < opp_moves.len()
        invariant
            board.player != i8::MIN,
            g == board.values,
            legal_rects_in_order(g, opp_moves@),
            i <= opp_moves@.len(),
            0 <= best_steal <= 170,
            forall|j: int| 0 <= j < i ==> rect_steal(*board, #[trigger] opp_moves@[j]) <= best_steal,
            best_steal == 0 || exists|j: int| 0 <= j < i && rect_steal(*board, #[trigger] opp_moves@[j]) == best_steal,
        decreases opp_moves@.len() - i,
    {
        let mv = opp_moves[i];
        assert(legal_move(g, opp_moves@[i as int]));
        if !mv.is_pass() {
            let steal = board.steal_count(mv.r1, mv.c1, mv.r2, mv.c2);
            if steal > best_steal {
                best_steal = steal;
            }
        }
        i += 1;
    }
    proof {
        assert forall|m: Move| legal_move(board.values, m) implies #[trigger] rect_steal(*board, m) <= best_steal by {
            assert(legal_rect(g, m.r1 as int, m.c1 as int, m.r2 as int, m.c2 as int));
            let j = choose|j: int| 0 <= j < opp_moves@.len() && opp_moves@[j].r1 == m.r1 as int && opp_moves@[j].c1 == m.c1 as int
                && opp_moves@[j].r2 == m.r2 as int && #[trigger] opp_moves@[j].c2 == m.c2 as int;
            assert(rect_steal(*board, m) == rect_steal(*board, opp_moves@[j]));
        }
        if best_steal != 0 {
            let j = choose|j: int| 0 <= j < opp_moves@.len() && rect_steal(*board, #[trigger] opp_moves@[j]) == best_steal;
            assert(legal_move(board.values, opp_moves@[j]));
        }
        assert(is_recapture_max(*board, best_steal as int));
        lemma_recapture_unique(*board, best_steal as int, spec_recapture_pressure(*board));
    }
    best_steal
}

/// 1 when the cell belongs to the other side of `b`'s side to move and touches a mushroom.
pub open spec fn cell_counter(b: Board, r: int, c: int) -> int {
    if b.own(r, c) as int == spec_opponent(b.player) && spec_live_neighbor(cells(b), r, c) {
        1
    } else {
        0
    }
}

/// Cells claimed by either side.
pub open spec fn spec_claimed_cells(b: Board) -> int {
    spec_owned_cells(b, FIRST_PLAYER) + spec_owned_cells(b, SECOND_PLAYER)
}

/// Shape term of the positional bias: 140 for at most 4 cells, -100 for 8 or more, else 40.
#[verifier::opaque]
pub open spec fn compact_term(area: int) -> int {
    if area <= 4 {
        140
    } else if area >= 8 {
        -100
    } else {
        40
    }
}

/// Take-back term: 85 per cell in the opening, 60 later.
#[verifier::opaque]
pub open spec fn counter_term(steal: int, opening: bool) -> int {
    if steal > 0 {
        if opening {
            steal * 85
        } else {
            steal * 60
        }
    } else {
        0
    }
}

/// Connection term: 32 per unit of gain in the opening, 22 later.
#[verifier::opaque]
pub open spec fn connection_term(connection: int, opening: bool) -> int {
    if opening {
        connection * 32
    } else {
        connection * 22
    }
}

/// Risk term (a penalty): 85 per unit in the opening, 52 later.
#[verifier::opaque]
pub open spec fn risk_term(risk: int, opening: bool) -> int {
    if opening {
        risk * 85
    } else {
        risk * 52
    }
}

/// Barrier term: 180 per unit in the opening, 110 later.
#[verifier::opaque]
pub open spec fn barrier_term(barrier: int, opening: bool) -> int {
    if opening {
        barrier * 180
    } else {
        barrier * 110
    }
}

/// Penalties: 140 for a quiet rectangle of 7 or more cells, 120 for a loose shape (no
/// connection but some risk), 8 per cell for a quiet opening move without barrier potential.
#[verifier::opaque]
pub open spec fn penalty_terms(steal: int, area: int, connection: int, risk: int, barrier: int, opening: bool) -> int {
    (if steal == 0 && area >= 7 {
        140int
    } else {
        0int
    }) + (if connection == 0 && risk > 0 {
        120int
    } else {
        0int
    }) + (if opening && steal == 0 && barrier == 0 {
        area * 8
    } else {
        0
    })
}

/// Midgame guard: 90 for a connecting rectangle without risk before 70 claimed cells.
#[verifier::opaque]
pub open spec fn guard_term(connection: int, risk: int, midgame: bool) -> int {
    if midgame && connection > 0 && risk == 0 {
        90
    } else {
        0
    }
}

/// The second side's positional bias from its parts (see the terms above), plus 30 per
/// cell taken back that touches a mushroom when `second_steal` is set.
pub open spec fn bias_terms(
    steal: int,
    area: int,
    connection: int,
    risk: int,
    barrier: int,
    opening: bool,
    midgame: bool,
    second_steal: i32,
) -> int {
    counter_term(steal, opening) + (if second_steal != 0 {
        steal * 30
    } else {
        0
    }) + connection_term(connection, opening) - risk_term(risk, opening) + barrier_term(
        barrier,
        opening,
    ) + compact_term(area) + guard_term(connection, risk, midgame) - penalty_terms(
        steal,
        area,
        connection,
        risk,
        barrier,
        opening,
    )
}

/// The part of the second side's bias that reads only the board before the move (see
/// `bias_terms`): the cells taken back that touch a mushroom, the area, the connection gain,
/// the risk and the barrier potential of the rectangle, with the opening below 24 claimed
/// cells and the midgame below 70.
pub open spec fn positional_bias(b: Board, m: Move, second_steal: i32) -> int {
    let (r1, c1, r2, c2) = (m.r1 as int, m.c1 as int, m.r2 as int, m.c2 as int);
    bias_terms(
        area_total(|r: int, c: int| cell_counter(b, r, c), r1, c1, r2, c2),
        (r2 - r1 + 1) * (c2 - c1 + 1),
        area_total(|r: int, c: int| cell_boost(b, r, c), r1, c1, r2, c2),
        area_total(|r: int, c: int| cell_risk(b, r, c), r1, c1, r2, c2),
        spec_barrier_potential(r1, c1, r2, c2),
        spec_claimed_cells(b) < 24,
        spec_claimed_cells(b) < 70,
        second_steal,
    )
}

/// The part of the bias that looks one move ahead: a twelfth (rounded toward zero) of the
/// negated evaluation after the move, minus eight per cell the reply can take back in the
/// opening.
pub open spec fn lookahead_bias(b: Board, m: Move, w: EvalWeights) -> int {
    let b1 = after_move(b, m);
    let recapture = if spec_claimed_cells(b) < 24 {
        spec_recapture_pressure(b1) * 8
    } else {
        0
    };
    div_trunc(-static_eval(b1, w), 12) - recapture
}

/// The priority change the second side gives `m`: nothing for the first side, -2000 for a
/// pass, else the positional bias plus, when asked, the look-ahead bias.
pub open spec fn defensive_bias(
    b: Board,
    m: Move,
    is_first: bool,
    w: EvalWeights,
    second_steal: i32,
    include_static_eval: bool,
) -> int {
    if is_first {
        0
    } else if m.spec_is_pass() {
        -2000
    } else {
        positional_bias(b, m, second_steal) + if include_static_eval {
            lookahead_bias(b, m, w)
        } else {
            0
        }
    }
}

/// The rectangle of `m` lies on the board (and is not empty).
pub open spec fn on_board_rect(m: Move) -> bool {
    0 <= m.r1 <= m.r2 < 10 && 0 <= m.c1 <= m.c2 < 17
}

/// Every move is a pass or a rectangle on the board, with a priority that any bias (at most
/// 200000 either way) can be added to in 32 bits.
pub open spec fn biasable(b: Board, moves: Seq<Move>) -> bool {
    forall|i: int|
        0 <= i < moves.len() ==> {
            &&& (#[trigger] moves[i]).spec_is_pass() || on_board_rect(moves[i])
            &&& i32::MIN + 200000 <= moves[i].priority <= i32::MAX - 200000
        }
}

/// `after` is `before` with each move's priority raised by its bias.
pub open spec fn biased(
    b: Board,
    before: Seq<Move>,
    after: Seq<Move>,
    is_first: bool,
    w: EvalWeights,
    second_steal: i32,
    include_static_eval: bool,
) -> bool {
    &&& after.len() == before.len()
    &&& forall|i: int|
        0 <= i < before.len() ==> #[trigger] after[i] == bias_applied(b, before[i], is_first, w, second_steal, include_static_eval)
}

/// The move with its priority raised by its bias.
pub open spec fn bias_applied(
    b: Board,
    m: Move,
    is_first: bool,
    w: EvalWeights,
    second_steal: i32,
    include_static_eval: bool,
) -> Move {
    Move { priority: (m.priority + defensive_bias(b, m, is_first, w, second_steal, include_static_eval)) as i32, ..m }
}

/// Number of the other side's cells in the rectangle that touch a mushroom.
fn counter_steal(board: &Board, r1: i32, c1: i32, r2: i32, c2: i32) -> (steal: i32)
    requires
        0 <= r1 <= r2 < 10,
        0 <= c1 <= c2 < 17,
        board.player != i8::MIN,
    ensures
        steal == area_total(|r: int, c: int| cell_counter(*board, r, c), r1 as int, c1 as int, r2 as int, c2 as int),
        0 <= steal <= 170,
{
    let ghost f = |r: int, c: int| cell_counter(*board, r, c);
    let opp_p = opponent(board.player);
    let mut steal: i32 = 0;
    let mut r = r1;
    while r <= r2
        invariant
            0 <= r1 <= r <= r2 + 1,
            r2 < 10,
            0 <= c1 <= c2 < 17,
            board.player != i8::MIN,
            opp_p == spec_opponent(board.player),
            f == (|r: int, c: int| cell_counter(*board, r, c)),
            steal == area_total(f, r1 as int, c1 as int, r - 1, c2 as int),
        decreases r2 + 1 - r,
    {
        proof {
            lemma_area_total_bounds(f, r1 as int, c1 as int, r - 1, c2 as int, 1);
        }
        let mut c = c1;
        while c <= c2
            invariant
                0 <= r1 <= r <= r2,
                r2 < 10,
                0 <= c1 <= c <= c2 + 1,
                c2 < 17,
                board.player != i8::MIN,
                opp_p == spec_opponent(board.player),
                f == (|r: int, c: int| cell_counter(*board, r, c)),
                0 <= area_total(f, r1 as int, c1 as int, r - 1, c2 as int) <= 17 * 10,
                steal == area_total(f, r1 as int, c1 as int, r - 1, c2 as int) + row_total(
                    f,
                    r as int,
                    c1 as int,
                    c - 1,
                ),
            decreases c2 + 1 - c,
        {
            proof {
                lemma_row_total_bounds(f, r as int, c1 as int, c - 1, 1);
            }
            let ru = r as usize;
            let cu = c as usize;
            if board.owners[ru][cu] == opp_p && board.cell_has_live_neighbor(ru, cu) {
                steal += 1;
            }
            c += 1;
        }
        r += 1;
    }
    proof {
        lemma_area_total_bounds(f, r1 as int, c1 as int, r2 as int, c2 as int, 1);
    }
    steal
}

/// The shape term (see `compact_term`).
fn compact_bonus_of(area: i32) -> (t: i32)
    ensures
        t == compact_term(area as int),
        -100 <= t <= 140,
{
    reveal(compact_term);
    if area <= 4 {
        140
    } else if area >= 8 {
        -100
    } else {
        40
    }
}

/// The take-back term (see `counter_term`).
fn counter_bonus_of(steal: i32, opening_phase: bool) -> (t: i32)
    requires
        0 <= steal <= 170,
    ensures
        t == counter_term(steal as int, opening_phase),
        0 <= t <= 14450,
{
    reveal(counter_term);
    if steal > 0 {
        if opening_phase {
            steal * 85
        } else {
            steal * 60
        }
    } else {
        0
    }
}

/// The connection term (see `connection_term`).
fn connection_bonus_of(connection: i32, opening_phase: bool) -> (t: i32)
    requires
        0 <= connection <= 680,
    ensures
        t == connection_term(connection as int, opening_phase),
        0 <= t <= 21760,
{
    reveal(connection_term);
    if opening_phase {
        connection * 32
    } else {
        connection * 22
    }
}

/// The risk term (see `risk_term`).
fn risk_penalty_of(risk: i32, opening_phase: bool) -> (t: i32)
    requires
        0 <= risk <= 340,
    ensures
        t == risk_term(risk as int, opening_phase),
        0 <= t <= 28900,
{
    reveal(risk_term);
    if opening_phase {
        risk * 85
    } else {
        risk * 52
    }
}

/// The barrier term (see `barrier_term`).
fn barrier_bonus_of(barrier: i32, opening_phase: bool) -> (t: i32)
    requires
        0 <= barrier <= 2,
    ensures
        t == barrier_term(barrier as int, opening_phase),
        0 <= t <= 360,
{
    reveal(barrier_term);
    if opening_phase {
        barrier * 180
    } else {
        barrier * 110
    }
}

/// The penalties (see `penalty_terms`).
fn penalties_of(steal: i32, area: i32, connection: i32, risk: i32, barrier: i32, opening_phase: bool) -> (t: i32)
    requires
        0 <= steal <= 170,
        1 <= area <= 170,
        0 <= connection <= 680,
        0 <= risk <= 340,
        0 <= barrier <= 2,
    ensures
        t == penalty_terms(steal as int, area as int, connection as int, risk as int, barrier as int, opening_phase),
        0 <= t <= 1620,
{
    reveal(penalty_terms);
    let extension_penalty: i32 = if steal == 0 && area >= 7 {
        140
    } else {
        0
    };
    let loose_shape_penalty: i32 = if connection == 0 && risk > 0 {
        120
    } else {
        0
    };
    let quiet_opening_penalty: i32 = if opening_phase && steal == 0 && barrier == 0 {
        area * 8
    } else {
        0
    };
    extension_penalty + loose_shape_penalty + quiet_opening_penalty
}

/// The midgame guard (see `guard_term`).
fn guard_bonus_of(connection: i32, risk: i32, midgame_phase: bool) -> (t: i32)
    ensures
        t == guard_term(connection as int, risk as int, midgame_phase),
        0 <= t <= 90,
{
    reveal(guard_term);
    if midgame_phase && connection > 0 && risk == 0 {
        90
    } else {
        0
    }
}

/// Combines the parts of the positional bias (see `bias_terms`).
fn combine_bias_terms(
    steal: i32,
    area: i32,
    connection: i32,
    risk: i32,
    barrier: i32,
    opening_phase: bool,
    midgame_phase: bool,
    second_steal: i32,
) -> (bias: i32)
    requires
        0 <= steal <= 170,
        1 <= area <= 170,
        0 <= connection <= 680,
        0 <= risk <= 340,
        0 <= barrier <= 2,
    ensures
        bias == bias_terms(
            steal as int,
            area as int,
            connection as int,
            risk as int,
            barrier as int,
            opening_phase,
            midgame_phase,
            second_steal,
        ),
        -100000 <= bias <= 100000,
{
    let mut bias: i32 = counter_bonus_of(steal, opening_phase);
    if second_steal != 0 {
        bias += steal * 30;
    }
    bias += connection_bonus_of(connection, opening_phase);
    bias -= risk_penalty_of(risk, opening_phase);
    bias += barrier_bonus_of(barrier, opening_phase);
    bias += compact_bonus_of(area);
    bias += guard_bonus_of(connection, risk, midgame_phase);
    bias -= penalties_of(steal, area, connection, risk, barrier, opening_phase);
    bias
}

/// The positional part of the second side's bias for the legal rectangle `m` (see
/// `positional_bias`), within 100000 of 0.
fn positional_bias_of(board: &Board, m: &Move, opening_phase: bool, midgame_phase: bool, second_steal: i32) -> (bias: i32)
    requires
        board.ready(),
        board.player != i8::MIN,
        on_board_rect(*m),
        opening_phase == (spec_claimed_cells(*board) < 24),
        midgame_phase == (spec_claimed_cells(*board) < 70),
    ensures
        bias == positional_bias(*board, *m, second_steal),
        -100000 <= bias <= 100000,
{
    let r1 = m.r1;
    let c1 = m.c1;
    let r2 = m.r2;
    let c2 = m.c2;
    let steal = counter_steal(board, r1, c1, r2, c2);
    assert(1 <= (r2 - r1 + 1) * (c2 - c1 + 1) <= 170) by (nonlinear_arith)
        requires
            1 <= r2 - r1 + 1 <= 10,
            1 <= c2 - c1 + 1 <= 17,
    ;
    let area = (r2 - r1 + 1) * (c2 - c1 + 1);
    let connection = board.connectivity_boost(r1, c1, r2, c2);
    let risk = board.dead_cell_risk_proxy(r1, c1, r2, c2);
    let barrier = board.barrier_potential(r1, c1, r2, c2);
    proof {
        lemma_area_total_bounds(
            |r: int, c: int| cell_boost(*board, r, c),
            r1 as int,
            c1 as int,
            r2 as int,
            c2 as int,
            4,
        );
        lemma_area_total_bounds(
            |r: int, c: int| cell_risk(*board, r, c),
            r1 as int,
            c1 as int,
            r2 as int,
            c2 as int,
            2,
        );
    }
    combine_bias_terms(steal, area, connection, risk, barrier, opening_phase, midgame_phase, second_steal)
}

/// The look-ahead part of the second side's bias for the rectangle `m` on the board (see
/// `lookahead_bias`): plays it, reads the evaluation and, in the opening, the reply's best
/// take-back, and takes it back. Within 100000 of 0; the board ends as it began.
fn lookahead_bias_of(board: &mut Board, m: &Move, w: &EvalWeights, opening_phase: bool) -> (bias: i32)
    requires
        w.fits_search(),
        old(board).ready(),
        old(board).player != i8::MIN,
        on_board_rect(*m),
        opening_phase == (spec_claimed_cells(*old(board)) < 24),
    ensures
        *final(board) == *old(board),
        bias == lookahead_bias(*old(board), *m, *w),
        -100000 <= bias <= 100000,
{
    let ghost b0 = *board;
    let mut rec = MoveRecord::new();
    board.make_move(m, &mut rec);
    let ghost b1 = *board;
    proof {
        lemma_after_move(b0, b1, *m);
        lemma_score_bounds(b1, *w);
    }
    let mut recapture_tiebreak: i32 = 0;
    if opening_phase {
        let recapture = immediate_recapture_pressure(board);
        recapture_tiebreak = recapture * 8;
    }
    let static_score = -evaluate_with(board, w);
    board.unmake_move(&rec);
    proof {
        lemma_make_unmake_roundtrip(b0, *m, rec, b1, *board);
    }
    static_score / 12 - recapture_tiebreak
}

/// Raises the priority of each move by the second side's bias (see `defensive_bias`); the
/// board ends as it began. Each bias lies within 200000 of 0.
fn apply_second_defensive_biases(
    board: &mut Board,
    moves: &mut Vec<Move>,
    is_first: bool,
    w: &EvalWeights,
    second_steal: i32,
    include_static_eval: bool,
)
    requires
        include_static_eval ==> w.fits_search(),
        old(board).ready(),
        old(board).player != i8::MIN,
        biasable(*old(board), old(moves)@),
    ensures
        *final(board) == *old(board),
        biased(*old(board), old(moves)@, final(moves)@, is_first, *w, second_steal, include_static_eval),
        forall|i: int|
            0 <= i < old(moves)@.len() ==> -200000 <= defensive_bias(
                *old(board),
                #[trigger] old(moves)@[i],
                is_first,
                *w,
                second_steal,
                include_static_eval,
            ) <= 200000,
{
    let ghost b0 = *board;
    let ghost orig = moves@;
    if is_first {
        proof {
            assert(moves@ =~= orig);
        }
        return;
    }
    proof {
        lemma_cache_bounds(b0);
    }
    let claimed_cells = board.owned_cells(FIRST_PLAYER) + board.owned_cells(SECOND_PLAYER);
    let opening_phase = claimed_cells < 24;
    let midgame_phase = claimed_cells < 70;
    let mut i: usize = 0;
    while i < moves.len()
        invariant
            *board == b0,
            include_static_eval ==> w.fits_search(),
            b0.ready(),
            b0.player != i8::MIN,
            !is_first,
            opening_phase == (spec_claimed_cells(b0) < 24),
            midgame_phase == (spec_claimed_cells(b0) < 70),
            biasable(b0, orig),
            i <= moves@.len(),
            moves@.len() == orig.len(),
            forall|j: int|
                0 <= j < i ==> #[trigger] moves@[j] == bias_applied(b0, orig[j], is_first, *w, second_steal, include_static_eval),
            forall|j: int| 0 <= j < i ==> -200000 <= defensive_bias(b0, #[trigger] orig[j], is_first, *w, second_steal, include_static_eval) <= 200000,
            forall|j: int| i <= j < moves@.len() ==> #[trigger] moves@[j] == orig[j],
        decreases moves@.len() - i,
    {
        let mut m = moves[i];
        assert(m == orig[i as int]);
        if m.is_pass() {
            m.priority -= 2000;
        } else {
            let positional = positional_bias_of(board, &m, opening_phase, midgame_phase, second_steal);
            let lookahead = if include_static_eval {
                lookahead_bias_of(board, &m, w, opening_phase)
            } else {
                0
            };
            m.priority = m.priority + positional + lookahead;
        }
        moves.set(i, m);
        i += 1;
    }
}

/// The biases of the second side at the root, looking one move ahead.
fn apply_second_root_biases(board: &mut Board, moves: &mut Vec<Move>, is_first: bool, w: &EvalWeights, second_steal: i32)
    requires
        w.fits_search(),
        old(board).ready(),
        old(board).player != i8::MIN,
        biasable(*old(board), old(moves)@),
    ensures
        *final(board) == *old(board),
        biased(*old(board), old(moves)@, final(moves)@, is_first, *w, second_steal, true),
        forall|i: int|
            0 <= i < old(moves)@.len() ==> -200000 <= defensive_bias(
                *old(board),
                #[trigger] old(moves)@[i],
                is_first,
                *w,
                second_steal,
                true,
            ) <= 200000,
{
    apply_second_defensive_biases(board, moves, is_first, w, second_steal, true);
}

// ---------------------------------------------------------------------------
// Search state.
// ---------------------------------------------------------------------------

/// Every stored value lies within `SCORE_LIMIT`.
pub open spec fn entry_bounded(e: CompactTTEntry) -> bool {
    -SCORE_LIMIT <= e.value <= SCORE_LIMIT
}

/// Every entry of the table holds a value within `SCORE_LIMIT`.
pub open spec fn tt_bounded(tt: &TranspositionTable) -> bool {
    forall|i: int|
        0 <= i < tt.buckets@.len() ==> entry_bounded((#[trigger] tt.buckets@[i]).slot0)
            && entry_bounded(tt.buckets@[i].slot1)
}

/// Every history score lies between 0 and `HISTORY_CAP`.
pub open spec fn history_ok(h: [[i32; COLS]; ROWS]) -> bool {
    forall|r: int, c: int| 0 <= r < 10 && 0 <= c < 17 ==> 0 <= #[trigger] h@[r]@[c] <= HISTORY_CAP
}

/// The state of one search: when it started and its budget, the settings, the killer moves
/// (two per depth, packed) and history scores, whether a null move may be tried, the node
/// count and the transposition table.
struct SearchCtx {
    start: Instant,
    budget_ms: i64,
    is_first: bool,
    weights: EvalWeights,
    killer_history_on: bool,
    nullmove_on: bool,
    pass_mode: i32,
    pass_fix: i32,
    prior: Option<MovePriorConfig>,
    killers: [[u32; 2]; 64],
    history: [[i32; COLS]; ROWS],
    nullmove_ok: bool,
    nodes: u64,
    tt: TranspositionTable,
    root: Ghost<Board>,
    base: Ghost<TranspositionTable>,
}

impl SearchCtx {
    /// The table is ready with bounded values and sound entries (see `tt_sound`), and the
    /// history scores are in range.
    spec fn inv(&self) -> bool {
        &&& self.tt.ready()
        &&& tt_bounded(&self.tt)
        &&& tt_sound(&self.tt, self.root@, self.base@, self.pass_mode, self.pass_fix, self.weights)
        &&& history_ok(self.history)
        &&& self.weights.fits_search()
    }

    /// Two states share the start, the budget, the settings and the table's generation.
    spec fn same_setup(&self, other: &SearchCtx) -> bool {
        &&& self.start == other.start
        &&& self.budget_ms == other.budget_ms
        &&& self.is_first == other.is_first
        &&& self.weights == other.weights
        &&& self.killer_history_on == other.killer_history_on
        &&& self.nullmove_on == other.nullmove_on
        &&& self.pass_mode == other.pass_mode
        &&& self.pass_fix == other.pass_fix
        &&& self.prior == other.prior
        &&& self.tt.age == other.tt.age
        &&& self.root == other.root
        &&& self.base == other.base
    }

    /// Whether the budget is spent.
    fn timed_out(&self) -> (out: bool) {
        let ms = millis_since(&self.start);
        crate::timer::budget_spent(ms, self.budget_ms)
    }

    /// Milliseconds since the search started.
    fn elapsed_ms(&self) -> (ms: i64) {
        millis_since(&self.start)
    }
}

/// The settings of `ctx` that a node's result depends on (see `SearchRules`).
spec fn rules_of(ctx: SearchCtx) -> SearchRules {
    SearchRules {
        w: ctx.weights,
        pass_mode: ctx.pass_mode,
        pass_fix: ctx.pass_fix,
        nullmove_on: ctx.nullmove_on,
        age: ctx.tt.age,
    }
}

/// Whether the search should consider passing: always with pass mode 1, never with pass mode
/// 2; otherwise, with the pass fix, when the side to move owns more cells, and without it, when
/// the static evaluation is positive.
pub open spec fn spec_should_try_pass(b: Board, pass_mode: i32, pass_fix: i32, w: EvalWeights) -> bool {
    if pass_mode == 1 {
        true
    } else if pass_mode == 2 {
        false
    } else if pass_fix != 0 {
        spec_owned_cells(b, b.player) - spec_owned_cells(b, spec_opponent(b.player) as i8) > 0
    } else {
        static_eval(b, w) > 0
    }
}

/// Whether the search should consider passing (see `spec_should_try_pass`).
fn should_try_pass(board: &Board, ctx: &SearchCtx) -> (b: bool)
    requires
        ctx.weights.fits_search(),
        board.ready(),
        board.player != i8::MIN,
    ensures
        b == spec_should_try_pass(*board, ctx.pass_mode, ctx.pass_fix, ctx.weights),
{
    if ctx.pass_mode == 1 {
        return true;
    }
    if ctx.pass_mode == 2 {
        return false;
    }
    if ctx.pass_fix != 0 {
        let p = board.player;
        let opp = opponent(p);
        proof {
            lemma_cache_bounds(*board);
        }
        return board.owned_cells(p) - board.owned_cells(opp) > 0;
    }
    evaluate_with(board, &ctx.weights) > 0
}

/// The score of a finished game (see `terminal_score`).
fn terminal_value(board: &Board) -> (v: i32)
    requires
        board.ready(),
        board.player != i8::MIN,
    ensures
        v == terminal_score(*board),
{
    let p = board.player;
    let opp = opponent(p);
    proof {
        lemma_cache_bounds(*board);
    }
    let margin = board.owned_cells(p) - board.owned_cells(opp);
    if margin > 0 {
        100000 + margin
    } else if margin < 0 {
        -100000 + margin
    } else {
        0
    }
}

/// The killer and history tables after a cutoff by `mv` at `depth`: with killer and history
/// ordering on, `depth` in 0..64 and `mv` not a pass, a new first killer pushes the old one to
/// second place, and the history score of the end cell grows by one (up to `HISTORY_CAP`);
/// nothing else changes.
pub open spec fn cutoff_recorded(
    k0: [[u32; 2]; 64],
    h0: [[i32; COLS]; ROWS],
    k1: [[u32; 2]; 64],
    h1: [[i32; COLS]; ROWS],
    mv: Move,
    depth: i32,
    on: bool,
) -> bool {
    if on && 0 <= depth < 64 && !mv.spec_is_pass() {
        let d = depth as int;
        let pm = spec_pack_move(mv);
        let r = mv.r2 as int;
        let c = mv.c2 as int;
        &&& pm != k0@[d]@[0] ==> k1@[d]@[0] == pm && k1@[d]@[1] == k0@[d]@[0]
        &&& pm == k0@[d]@[0] ==> k1@[d] == k0@[d]
        &&& forall|e: int| 0 <= e < 64 && e != d ==> #[trigger] k1@[e] == k0@[e]
        &&& h1@[r]@[c] == if h0@[r]@[c] < HISTORY_CAP {
            h0@[r]@[c] + 1
        } else {
            h0@[r]@[c] as int
        }
        &&& forall|x: int, y: int|
            0 <= x < 10 && 0 <= y < 17 && (x != r || y != c) ==> #[trigger] h1@[x]@[y] == h0@[x]@[y]
    } else {
        k1 == k0 && h1 == h0
    }
}

/// Records a cutoff by `mv` at `depth` (see `cutoff_recorded`).
fn record_cutoff(ctx: &mut SearchCtx, mv: &Move, depth: i32)
    requires
        old(ctx).inv(),
        mv.spec_is_pass() || (0 <= mv.r2 < 10 && 0 <= mv.c2 < 17),
    ensures
        final(ctx).inv(),
        final(ctx).same_setup(&*old(ctx)),
        final(ctx).tt == old(ctx).tt,
        final(ctx).nodes == old(ctx).nodes,
        final(ctx).nullmove_ok == old(ctx).nullmove_ok,
        cutoff_recorded(
            old(ctx).killers,
            old(ctx).history,
            final(ctx).killers,
            final(ctx).history,
            *mv,
            depth,
            old(ctx).killer_history_on,
        ),
{
    if ctx.killer_history_on && depth >= 0 && depth < 64 && !mv.is_pass() {
        let d = depth as usize;
        let pm = pack_move(mv);
        if pm != ctx.killers[d][0] {
            ctx.killers[d][1] = ctx.killers[d][0];
            ctx.killers[d][0] = pm;
        }
        let r = mv.r2 as usize;
        let c = mv.c2 as usize;
        if ctx.history[r][c] < HISTORY_CAP {
            ctx.history[r][c] = ctx.history[r][c] + 1;
        }
    }
}

// ---------------------------------------------------------------------------
// Alpha-beta.
// ---------------------------------------------------------------------------

/// Every legal rectangle's priority lies between -100000 and 300000.
pub proof fn lemma_priority_bound(b: Board, m: Move, prior: Option<MovePriorConfig>)
    requires
        legal_move(b.values, m),
    ensures
        -100000 <= spec_move_priority(b, m, prior) <= 300000,
{
    lemma_area_total_bounds(
        |r: int, c: int| cell_steal(b, r, c),
        m.r1 as int,
        m.c1 as int,
        m.r2 as int,
        m.c2 as int,
        1,
    );
    assert(1 <= (m.r2 - m.r1 + 1) * (m.c2 - m.c1 + 1) <= 170) by (nonlinear_arith)
        requires
            1 <= m.r2 - m.r1 + 1 <= 10,
            1 <= m.c2 - m.c1 + 1 <= 17,
    ;
}

/// The moves after sorting are the legal moves before it, with their bonuses.
proof fn lemma_ordered_moves_legal(
    g: ValueGrid,
    before: Seq<Move>,
    after: Seq<Move>,
    depth: i32,
    killers: [[u32; 2]; 64],
    history: [[i32; COLS]; ROWS],
    on: bool,
)
    requires
        forall|i: int| 0 <= i < before.len() ==> legal_move(g, #[trigger] before[i]),
        after.to_multiset() == before.map_values(|m: Move| with_bonus(m, depth, killers, history, on)).to_multiset(),
    ensures
        after.len() == before.len(),
        after.len() == before.len(),
        forall|i: int| 0 <= i < after.len() ==> legal_move(g, #[trigger] after[i]),
{
    broadcast use vstd::seq_lib::group_to_multiset_ensures;
    let mapped = before.map_values(|m: Move| with_bonus(m, depth, killers, history, on));
    vstd::seq_lib::to_multiset_len(after);
    vstd::seq_lib::to_multiset_len(mapped);
    assert(after.len() == mapped.len());
    assert forall|i: int| 0 <= i < after.len() implies legal_move(g, #[trigger] after[i]) by {
        assert(after.to_multiset().count(after[i]) > 0);
        assert(mapped.contains(after[i]));
        let j = choose|j: int| 0 <= j < mapped.len() && mapped[j] == after[i];
        assert(legal_move(g, before[j]));
    }
}

/// After sorting, every move handed in is still there, with its bonus added.
proof fn lemma_ordered_moves_cover(
    before: Seq<Move>,
    after: Seq<Move>,
    depth: i32,
    killers: [[u32; 2]; 64],
    history: [[i32; COLS]; ROWS],
    on: bool,
)
    requires
        after.to_multiset() == before.map_values(|m: Move| with_bonus(m, depth, killers, history, on)).to_multiset(),
    ensures
        forall|k: int| 0 <= k < before.len() ==> after.contains(#[trigger] with_bonus(before[k], depth, killers, history, on)),
{
    broadcast use vstd::seq_lib::group_to_multiset_ensures;
    let mapped = before.map_values(|m: Move| with_bonus(m, depth, killers, history, on));
    assert forall|k: int| 0 <= k < before.len() implies after.contains(
        #[trigger] with_bonus(before[k], depth, killers, history, on),
    ) by {
        assert(mapped[k] == with_bonus(before[k], depth, killers, history, on));
        assert(mapped.to_multiset().count(mapped[k]) > 0);
    }
}

/// Some move of `order` has the rectangle of `m`.
pub open spec fn rect_among(order: Seq<Move>, m: Move) -> bool {
    exists|j: int| 0 <= j < order.len() && #[trigger] rect_of(order[j]) == rect_of(m)
}

/// The rectangle of a move (or the pass), with priority 0.
pub open spec fn rect_of(m: Move) -> Move {
    Move { priority: 0, ..m }
}

/// The settings a node's result depends on: the evaluation weights, the pass mode and fix,
/// whether null moves are tried, and the table's generation.
pub ghost struct SearchRules {
    pub w: EvalWeights,
    pub pass_mode: i32,
    pub pass_fix: i32,
    pub nullmove_on: bool,
    pub age: u8,
}

/// The node count after one more node (wrapping around).
pub open spec fn next_count(n: u64) -> u64 {
    if n == u64::MAX {
        0u64
    } else {
        (n + 1) as u64
    }
}

/// What one call of the search did: whether it found the budget spent on entry, the score and
/// best move it gave, the table buckets and node count it left, the null-move call it made (if
/// any), the order of the moves it tried, the calls it made for them, and the call for a pass
/// tried as a move (if any).
pub ghost struct SearchTrace {
    pub timed_out: bool,
    pub score: int,
    pub best: Move,
    pub buckets_out: Seq<TTBucket>,
    pub nodes_out: u64,
    pub null_child: Seq<SearchTrace>,
    pub order: Seq<Move>,
    pub children: Seq<SearchTrace>,
    pub pass_child: Seq<SearchTrace>,
}

/// A trace of a call that made no further call.
pub open spec fn leaf_trace(timed_out: bool, score: int, best: Move, buckets: Seq<TTBucket>, nodes: u64) -> SearchTrace {
    SearchTrace {
        timed_out,
        score,
        best,
        buckets_out: buckets,
        nodes_out: nodes,
        null_child: Seq::empty(),
        order: Seq::empty(),
        children: Seq::empty(),
        pass_child: Seq::empty(),
    }
}

/// The state of the move loop after the calls for the first `n` moves of `order`: best value,
/// best move, raised alpha and flag (fail-soft, from -999999 and the first move).
#[verifier::opaque]
pub open spec fn loop_state(children: Seq<SearchTrace>, order: Seq<Move>, alpha: int, beta: int, n: int) -> (int, Move, int, u8)
    decreases n,
{
    if n <= 0 {
        (-999999, order[0], alpha, tt_flag::UPPER_BOUND)
    } else {
        let prev = loop_state(children, order, alpha, beta, n - 1);
        let s = -children[n - 1].score;
        let bv = if s > prev.0 {
            s
        } else {
            prev.0
        };
        let lb = if s > prev.0 {
            order[n - 1]
        } else {
            prev.1
        };
        let a = if s > prev.2 {
            s
        } else {
            prev.2
        };
        let f = if a >= beta {
            tt_flag::LOWER_BOUND
        } else if s > prev.2 {
            tt_flag::EXACT
        } else {
            prev.3
        };
        (bv, lb, a, f)
    }
}

/// The loop state reads only the first `n` calls.
pub proof fn lemma_loop_state_prefix(c1: Seq<SearchTrace>, c2: Seq<SearchTrace>, order: Seq<Move>, alpha: int, beta: int, n: int)
    requires
        forall|i: int| 0 <= i < n ==> #[trigger] c1[i].score == c2[i].score,
    ensures
        loop_state(c1, order, alpha, beta, n) == loop_state(c2, order, alpha, beta, n),
    decreases n,
{
    reveal_with_fuel(loop_state, 1);
    if n > 0 {
        lemma_loop_state_prefix(c1, c2, order, alpha, beta, n - 1);
        assert(c1[n - 1].score == c2[n - 1].score);
    }
}

/// The table buckets after storing `value` with `flag` and best move `m` for `key` at `depth`.
pub open spec fn stored_buckets(buckets: Seq<TTBucket>, key: u64, depth: i32, value: i32, flag: u8, m: Move, age: u8) -> Seq<TTBucket> {
    buckets.update(
        bucket_index(key),
        stored_bucket(buckets[bucket_index(key)], stored_entry(key, depth, value, flag, age, m), depth, age),
    )
}

/// The buckets a call starts its `i`-th move call with: those it had before the first, else
/// those the previous call left; likewise the node count.
#[verifier::opaque]
pub open spec fn buckets_before(children: Seq<SearchTrace>, first: Seq<TTBucket>, i: int) -> Seq<TTBucket> {
    if i == 0 {
        first
    } else {
        children[i - 1].buckets_out
    }
}

/// See `buckets_before`.
#[verifier::opaque]
pub open spec fn nodes_before(children: Seq<SearchTrace>, first: u64, i: int) -> u64 {
    if i == 0 {
        first
    } else {
        children[i - 1].nodes_out
    }
}

/// Adding a call at the end of the calls made so far leaves what the earlier ones read.
proof fn lemma_kids_push(
    kids: Seq<SearchTrace>,
    ct: SearchTrace,
    order: Seq<Move>,
    alpha: int,
    beta: int,
    buckets: Seq<TTBucket>,
    nodes: u64,
)
    ensures
        forall|j: int| 0 <= j < kids.len() ==> #[trigger] kids.push(ct)[j] == kids[j],
        kids.push(ct)[kids.len() as int] == ct,
        forall|j: int|
            0 <= j <= kids.len() ==> #[trigger] loop_state(kids.push(ct), order, alpha, beta, j) == loop_state(
                kids,
                order,
                alpha,
                beta,
                j,
            ),
        forall|j: int|
            0 <= j <= kids.len() ==> #[trigger] buckets_before(kids.push(ct), buckets, j) == buckets_before(kids, buckets, j)
                && nodes_before(kids.push(ct), nodes, j) == nodes_before(kids, nodes, j),
        buckets_before(kids.push(ct), buckets, kids.len() + 1int) == ct.buckets_out,
        nodes_before(kids.push(ct), nodes, kids.len() + 1int) == ct.nodes_out,
{
    reveal(buckets_before);
    reveal(nodes_before);
    let k2 = kids.push(ct);
    assert forall|j: int| 0 <= j <= kids.len() implies #[trigger] loop_state(k2, order, alpha, beta, j) == loop_state(
        kids,
        order,
        alpha,
        beta,
        j,
    ) by {
        assert forall|i: int| 0 <= i < j implies #[trigger] k2[i].score == kids[i].score by {
            assert(k2[i] == kids[i]);
        }
        lemma_loop_state_prefix(k2, kids, order, alpha, beta, j);
    }
}

/// One more call in the move loop: the state after it, from the state before and its score.
proof fn lemma_loop_step(kids: Seq<SearchTrace>, ct: SearchTrace, order: Seq<Move>, alpha: int, beta: int)
    ensures
        ({
            let prev = loop_state(kids, order, alpha, beta, kids.len() as int);
            let next = loop_state(kids.push(ct), order, alpha, beta, kids.len() + 1int);
            let s = -ct.score;
            &&& next.0 == (if s > prev.0 {
                s
            } else {
                prev.0
            })
            &&& next.1 == (if s > prev.0 {
                order[kids.len() as int]
            } else {
                prev.1
            })
            &&& next.2 == (if s > prev.2 {
                s
            } else {
                prev.2
            })
            &&& next.3 == (if next.2 >= beta {
                tt_flag::LOWER_BOUND
            } else if s > prev.2 {
                tt_flag::EXACT
            } else {
                prev.3
            })
        }),
{
    let k2 = kids.push(ct);
    let n = kids.len() as int;
    reveal_with_fuel(loop_state, 1);
    lemma_kids_push(kids, ct, order, alpha, beta, Seq::empty(), 0);
    assert(loop_state(k2, order, alpha, beta, n) == loop_state(kids, order, alpha, beta, n));
    assert(k2[n] == ct);
    assert(loop_state(k2, order, alpha, beta, n + 1) == {
        let prev = loop_state(k2, order, alpha, beta, n);
        let s = -k2[n].score;
        let bv = if s > prev.0 { s } else { prev.0 };
        let lb = if s > prev.0 { order[n] } else { prev.1 };
        let a = if s > prev.2 { s } else { prev.2 };
        let f = if a >= beta { tt_flag::LOWER_BOUND } else if s > prev.2 { tt_flag::EXACT } else { prev.3 };
        (bv, lb, a, f)
    });
}

/// The moves searched, sorted from the legal rectangles (possibly re-prioritised), hold every
/// legal rectangle.
proof fn lemma_moves_cover_legal(
    b: Board,
    listed: Seq<Move>,
    before: Seq<Move>,
    moves: Seq<Move>,
    depth: i32,
    killers: [[u32; 2]; 64],
    history: [[i32; COLS]; ROWS],
    on: bool,
)
    requires
        legal_rects_in_order(b.values, listed),
        before.len() == listed.len(),
        forall|k: int| 0 <= k < listed.len() ==> rect_of(#[trigger] before[k]) == rect_of(listed[k]),
        forall|k: int| 0 <= k < before.len() ==> moves.contains(#[trigger] with_bonus(before[k], depth, killers, history, on)),
    ensures
        forall|m: Move|
            legal_move(b.values, m) ==> #[trigger] rect_among(moves, m),
{
    assert forall|m: Move| legal_move(b.values, m) implies #[trigger] rect_among(moves, m) by {
        assert(legal_rect(b.values, m.r1 as int, m.c1 as int, m.r2 as int, m.c2 as int));
        let k = choose|k: int|
            0 <= k < listed.len() && listed[k].r1 == m.r1 && listed[k].c1 == m.c1 && listed[k].r2 == m.r2
                && #[trigger] listed[k].c2 == m.c2;
        assert(rect_of(listed[k]) == rect_of(m));
        assert(rect_of(before[k]) == rect_of(m));
        let x = with_bonus(before[k], depth, killers, history, on);
        assert(moves.contains(x));
        let j = choose|j: int| 0 <= j < moves.len() && moves[j] == x;
        assert(rect_of(moves[j]) == rect_of(m));
    }
}

/// Whether a call of the search at `b` to `depth` within (`alpha`, `beta`) tries a null move:
/// null moves on, depth 3 or more, a null window, and a static evaluation reaching `beta`.
pub open spec fn null_tried(b: Board, depth: i32, alpha: i32, beta: i32, r: SearchRules) -> bool {
    r.nullmove_on && depth >= 3 && alpha == beta - 1 && static_eval(b, r.w) >= beta
}

/// `t` made a null-move call exactly where a null move is tried.
pub open spec fn null_part_ok(t: SearchTrace, b: Board, depth: i32, alpha: i32, beta: i32, r: SearchRules) -> bool {
    t.null_child.len() == (if null_tried(b, depth, alpha, beta, r) {
        1int
    } else {
        0int
    })
}

/// With no legal rectangle, `t` made one call, for the pass, scored its negated score and
/// kept `best_in`.
pub open spec fn pass_only_ok(t: SearchTrace, best_in: Move) -> bool {
    let pc = t.pass_child[0];
    &&& t.pass_child.len() == 1
    &&& t.score == -pc.score
    &&& t.best == best_in
    &&& t.buckets_out == pc.buckets_out
    &&& t.nodes_out == pc.nodes_out
}

/// Whether `t` tries a pass after its rectangles: pass mode other than 2, depth 3 or more, at
/// most five rectangles, and the pass rule.
pub open spec fn tries_pass(t: SearchTrace, b: Board, depth: i32, r: SearchRules) -> bool {
    r.pass_mode != 2 && depth >= 3 && t.order.len() <= 5 && spec_should_try_pass(b, r.pass_mode, r.pass_fix, r.w)
}

/// The window's lower end, negated, for the call of `t` for its `i`-th rectangle: alpha
/// raised by the scores before it (see `loop_state`).
pub open spec fn kid_alpha(t: SearchTrace, alpha: i32, beta: i32, i: int) -> i32 {
    (-loop_state(t.children, t.order, alpha as int, beta as int, i).2) as i32
}

/// With legal rectangles, `t` searched every one of them, in some order (each legal, each legal
/// rectangle among them), until a score reached `beta` (fail-soft, see `loop_state`), starting
/// from `buckets` and `nodes`; made a call for a pass exactly where it tries one (see
/// `tries_pass`), which wins when it scores more; and stored its score, flag and best move in the
/// table. The calls themselves are checked by `trace_ok`.
pub open spec fn moves_shape_ok(
    t: SearchTrace,
    b: Board,
    depth: i32,
    alpha: i32,
    beta: i32,
    buckets: Seq<TTBucket>,
    nodes: u64,
    r: SearchRules,
) -> bool {
    let order = t.order;
    let kids = t.children;
    let k = kids.len() as int;
    let ls = loop_state(kids, order, alpha as int, beta as int, k);
    let tp = tries_pass(t, b, depth, r);
    let pc = t.pass_child[0];
    let pass_better = tp && -pc.score > ls.0;
    let bv = if pass_better {
        -pc.score
    } else {
        ls.0
    };
    let lb = if pass_better {
        pass_move()
    } else {
        ls.1
    };
    let fl = if pass_better {
        tt_flag::EXACT
    } else {
        ls.3
    };
    let buckets2 = buckets_before(kids, buckets, k);
    let nodes2 = nodes_before(kids, nodes, k);
    &&& order.len() == legal_count(b.values)
    &&& forall|i: int| 0 <= i < order.len() ==> legal_move(b.values, #[trigger] order[i])
    &&& forall|m: Move|
        legal_move(b.values, m) ==> #[trigger] rect_among(order, m)
    &&& 1 <= k <= order.len()
    &&& forall|j: int| 0 <= j < k - 1 ==> (#[trigger] loop_state(kids, order, alpha as int, beta as int, j + 1)).2 < beta
    &&& (k == order.len() || ls.2 >= beta)
    &&& t.pass_child.len() == (if tp {
        1int
    } else {
        0int
    })
    &&& t.score == bv
    &&& t.best == lb
    &&& t.buckets_out == stored_buckets(
        if tp {
            pc.buckets_out
        } else {
            buckets2
        },
        b.hash,
        depth,
        bv as i32,
        fl,
        lb,
        r.age,
    )
    &&& t.nodes_out == if tp {
        pc.nodes_out
    } else {
        nodes2
    }
}

/// `t` is what a call of the search at `b` to `depth` within (`alpha`, `beta`), finding the table
/// buckets `buckets` and the node count `nodes`, handed `best_in`, may have done, whatever the
/// clock said; `t.score` is its score and `t.best` the best move it wrote. A finished game gives
/// its score. With the node count a multiple of 4096 the budget may be found spent: the static
/// evaluation. Otherwise the node is counted; depth 0 gives the static evaluation; a table
/// entry that settles the window gives its value and move. Otherwise a null move is tried where
/// `null_tried` says so, searching the pass 4 plies less within (`-beta`, `-beta + 1`), and ends
/// the call when its negated score reaches `beta`; then, with no legal rectangle, the pass is
/// searched one ply less within (`-beta`, `-alpha`) (see `pass_only_ok`); otherwise the
/// rectangles (see `moves_shape_ok`), each call for one of them, and for the pass where it is
/// tried, being itself what the search does.
#[verifier::opaque]
pub open spec fn trace_ok(
    t: SearchTrace,
    b: Board,
    depth: i32,
    alpha: i32,
    beta: i32,
    buckets: Seq<TTBucket>,
    nodes: u64,
    best_in: Move,
    r: SearchRules,
) -> bool
    decreases t, 1int,
{
    if b.consecutive_passes >= 2 {
        t == leaf_trace(false, terminal_score(b), best_in, buckets, nodes)
    } else if t.timed_out {
        nodes & 4095 == 0 && t == leaf_trace(true, static_eval(b, r.w), best_in, buckets, nodes)
    } else {
        let n1 = next_count(nodes);
        let picked = probe_pick(buckets[bucket_index(b.hash)], key_sig(b.hash), depth);
        if depth == 0 {
            t == leaf_trace(false, static_eval(b, r.w), best_in, buckets, n1)
        } else if picked is Some && probe_cutoff(picked->0, alpha, beta) {
            t == leaf_trace(false, picked->0.value as int, spec_unpack_move(picked->0.packed_move), buckets, n1)
        } else {
            let tried = null_tried(b, depth, alpha, beta, r);
            let nc = t.null_child[0];
            let buckets1 = if tried {
                nc.buckets_out
            } else {
                buckets
            };
            let n2 = if tried {
                nc.nodes_out
            } else {
                n1
            };
            &&& null_part_ok(t, b, depth, alpha, beta, r)
            &&& tried ==> trace_ok(nc, after_move(b, pass_move()), (depth - 4) as i32, (-beta) as i32, (-beta + 1) as i32, buckets, n1, pass_move(), r)
            &&& if tried && -nc.score >= beta {
                &&& t.score == -nc.score
                &&& t.best == pass_move()
                &&& t.buckets_out == buckets1
                &&& t.nodes_out == n2
            } else if legal_count(b.values) == 0 {
                &&& pass_only_ok(t, best_in)
                &&& trace_ok(t.pass_child[0], after_move(b, pass_move()), (depth - 1) as i32, (-beta) as i32, (-alpha) as i32, buckets1, n2, pass_move(), r)
            } else {
                &&& moves_shape_ok(t, b, depth, alpha, beta, buckets1, n2, r)
                &&& ({
                    let k = t.children.len() as int;
                    &&& forall|i: int|
                        0 <= i < k ==> trace_ok(
                            #[trigger] t.children[i],
                            after_move(b, t.order[i]),
                            (depth - 1) as i32,
                            (-beta) as i32,
                            kid_alpha(t, alpha, beta, i),
                            buckets_before(t.children, buckets1, i),
                            nodes_before(t.children, n2, i),
                            pass_move(),
                            r,
                        )
                    &&& tries_pass(t, b, depth, r) ==> t.pass_child.len() == 1 && trace_ok(
                        t.pass_child[0],
                        after_move(b, pass_move()),
                        (depth - 1) as i32,
                        (-beta) as i32,
                        kid_alpha(t, alpha, beta, k),
                        buckets_before(t.children, buckets1, k),
                        nodes_before(t.children, n2, k),
                        pass_move(),
                        r,
                    )
                })
            }
        }
    }
}

/// A finished game: its score, nothing else done.
pub proof fn lemma_trace_terminal(t: SearchTrace, b: Board, depth: i32, alpha: i32, beta: i32, buckets: Seq<TTBucket>, nodes: u64, best_in: Move, r: SearchRules)
    requires
        b.consecutive_passes >= 2,
        t == leaf_trace(false, terminal_score(b), best_in, buckets, nodes),
    ensures
        trace_ok(t, b, depth, alpha, beta, buckets, nodes, best_in, r),
{
    reveal_with_fuel(trace_ok, 1);
}

/// The budget found spent on entry, at a node count that is a multiple of 4096: the static
/// evaluation.
pub proof fn lemma_trace_spent(t: SearchTrace, b: Board, depth: i32, alpha: i32, beta: i32, buckets: Seq<TTBucket>, nodes: u64, best_in: Move, r: SearchRules)
    requires
        b.consecutive_passes < 2,
        nodes & 4095 == 0,
        t == leaf_trace(true, static_eval(b, r.w), best_in, buckets, nodes),
    ensures
        trace_ok(t, b, depth, alpha, beta, buckets, nodes, best_in, r),
{
    reveal_with_fuel(trace_ok, 1);
}

/// Depth 0, or a table entry that settles the window: the node counted, nothing searched.
pub proof fn lemma_trace_settled(t: SearchTrace, b: Board, depth: i32, alpha: i32, beta: i32, buckets: Seq<TTBucket>, nodes: u64, best_in: Move, r: SearchRules)
    requires
        b.consecutive_passes < 2,
        ({
            let picked = probe_pick(buckets[bucket_index(b.hash)], key_sig(b.hash), depth);
            ||| (depth == 0 && t == leaf_trace(false, static_eval(b, r.w), best_in, buckets, next_count(nodes)))
            ||| (depth != 0 && picked is Some && probe_cutoff(picked->0, alpha, beta) && t == leaf_trace(
                false,
                picked->0.value as int,
                spec_unpack_move(picked->0.packed_move),
                buckets,
                next_count(nodes),
            ))
        }),
    ensures
        trace_ok(t, b, depth, alpha, beta, buckets, nodes, best_in, r),
{
    reveal_with_fuel(trace_ok, 1);
}

/// The node counted at depth other than 0 with no table entry settling the window: the null
/// move where one is tried, then the null move's cut, the pass alone, or the rectangles.
pub proof fn lemma_trace_searched(
    t: SearchTrace,
    b: Board,
    depth: i32,
    alpha: i32,
    beta: i32,
    buckets: Seq<TTBucket>,
    nodes: u64,
    best_in: Move,
    r: SearchRules,
    buckets1: Seq<TTBucket>,
    n2: u64,
)
    requires
        b.consecutive_passes < 2,
        !t.timed_out,
        depth != 0,
        ({
            let picked = probe_pick(buckets[bucket_index(b.hash)], key_sig(b.hash), depth);
            !(picked is Some && probe_cutoff(picked->0, alpha, beta))
        }),
        null_part_ok(t, b, depth, alpha, beta, r),
        null_tried(b, depth, alpha, beta, r) ==> trace_ok(
            t.null_child[0],
            after_move(b, pass_move()),
            (depth - 4) as i32,
            (-beta) as i32,
            (-beta + 1) as i32,
            buckets,
            next_count(nodes),
            pass_move(),
            r,
        ),
        null_tried(b, depth, alpha, beta, r) ==> buckets1 == t.null_child[0].buckets_out && n2 == t.null_child[0].nodes_out,
        !null_tried(b, depth, alpha, beta, r) ==> buckets1 == buckets && n2 == next_count(nodes),
        if null_tried(b, depth, alpha, beta, r) && -t.null_child[0].score >= beta {
            &&& t.score == -t.null_child[0].score
            &&& t.best == pass_move()
            &&& t.buckets_out == buckets1
            &&& t.nodes_out == n2
        } else if legal_count(b.values) == 0 {
            &&& pass_only_ok(t, best_in)
            &&& trace_ok(t.pass_child[0], after_move(b, pass_move()), (depth - 1) as i32, (-beta) as i32, (-alpha) as i32, buckets1, n2, pass_move(), r)
        } else {
            &&& moves_shape_ok(t, b, depth, alpha, beta, buckets1, n2, r)
            &&& ({
                let k = t.children.len() as int;
                &&& forall|i: int|
                    0 <= i < k ==> trace_ok(
                        #[trigger] t.children[i],
                        after_move(b, t.order[i]),
                        (depth - 1) as i32,
                        (-beta) as i32,
                        kid_alpha(t, alpha, beta, i),
                        buckets_before(t.children, buckets1, i),
                        nodes_before(t.children, n2, i),
                        pass_move(),
                        r,
                    )
                &&& tries_pass(t, b, depth, r) ==> t.pass_child.len() == 1 && trace_ok(
                    t.pass_child[0],
                    after_move(b, pass_move()),
                    (depth - 1) as i32,
                    (-beta) as i32,
                    kid_alpha(t, alpha, beta, k),
                    buckets_before(t.children, buckets1, k),
                    nodes_before(t.children, n2, k),
                    pass_move(),
                    r,
                )
            })
        },
    ensures
        trace_ok(t, b, depth, alpha, beta, buckets, nodes, best_in, r),
{
    reveal_with_fuel(trace_ok, 1);
}

/// The entry the table offers for `b` at `depth` (see `probe_pick`).
pub open spec fn table_pick(tt: TranspositionTable, b: Board, depth: i32) -> Option<CompactTTEntry> {
    probe_pick(tt.buckets@[bucket_index(b.hash)], key_sig(b.hash), depth)
}

/// The number of legal rectangles of a grid.
pub open spec fn legal_count(g: ValueGrid) -> nat {
    (choose|s: Seq<Move>| legal_rects_in_order(g, s)).len()
}

/// Every complete ordered list of the legal rectangles has `legal_count` moves.
pub proof fn lemma_legal_count(g: ValueGrid, s: Seq<Move>)
    requires
        legal_rects_in_order(g, s),
    ensures
        s.len() == legal_count(g),
{
    let c = choose|c: Seq<Move>| legal_rects_in_order(g, c);
    crate::movegen::lemma_legal_lists_agree(g, s, c);
}

/// `boards` is a line of play: each board after the first comes from the one before by the move
/// of `moves` at the same place, a pass or a legal rectangle.
pub open spec fn line_of_play(boards: Seq<Board>, moves: Seq<Move>) -> bool {
    &&& boards.len() == moves.len() + 1
    &&& forall|i: int|
        0 <= i < moves.len() ==> ((#[trigger] moves[i]).spec_is_pass() || legal_move(boards[i].values, moves[i]))
            && spec_applied(boards[i], boards[i + 1], moves[i])
}

/// `b` is reached from `a` by passes and legal rectangles.
pub open spec fn reachable(a: Board, b: Board) -> bool {
    exists|boards: Seq<Board>, moves: Seq<Move>|
        #[trigger] line_of_play(boards, moves) && boards[0] == a && boards.last() == b
}

/// Every board is reached from itself.
pub proof fn lemma_reach_self(a: Board)
    ensures
        reachable(a, a),
{
    let boards = seq![a];
    let moves = Seq::<Move>::empty();
    assert(line_of_play(boards, moves));
}

/// A pass or a legal rectangle played on a board reached from `a` gives a board reached from `a`.
pub proof fn lemma_reach_step(a: Board, mid: Board, b: Board, m: Move)
    requires
        reachable(a, mid),
        m.spec_is_pass() || legal_move(mid.values, m),
        spec_applied(mid, b, m),
    ensures
        reachable(a, b),
{
    let (boards, moves) = choose|boards: Seq<Board>, moves: Seq<Move>|
        #[trigger] line_of_play(boards, moves) && boards[0] == a && boards.last() == mid;
    let boards2 = boards.push(b);
    let moves2 = moves.push(m);
    assert forall|i: int| 0 <= i < moves2.len() implies ((#[trigger] moves2[i]).spec_is_pass() || legal_move(
        boards2[i].values,
        moves2[i],
    )) && spec_applied(boards2[i], boards2[i + 1], moves2[i]) by {
        if i < moves.len() {
            assert(moves2[i] == moves[i]);
            assert(boards2[i] == boards[i] && boards2[i + 1] == boards[i + 1]);
        } else {
            assert(boards2[i] == mid && boards2[i + 1] == b && moves2[i] == m);
        }
    }
    assert(line_of_play(boards2, moves2));
    assert(boards2[0] == a && boards2.last() == b);
}

/// The search tries a pass as a move at `b`: pass mode other than 2, at most five legal
/// rectangles, and the pass rule (see `spec_should_try_pass`).
pub open spec fn pass_tried(b: Board, pass_mode: i32, pass_fix: i32, w: EvalWeights) -> bool {
    &&& pass_mode != 2
    &&& legal_count(b.values) <= 5
    &&& spec_should_try_pass(b, pass_mode, pass_fix, w)
}

/// A move the search may record as best for `b`: a legal rectangle, or a pass where it tries
/// one (see `pass_tried`).
pub open spec fn move_fits(b: Board, m: Move, pass_mode: i32, pass_fix: i32, w: EvalWeights) -> bool {
    ||| legal_move(b.values, m)
    ||| (m.spec_is_pass() && pass_tried(b, pass_mode, pass_fix, w))
}

/// Two keys select the same bucket and carry the same signature.
pub open spec fn same_slot(k1: u64, k2: u64) -> bool {
    bucket_index(k1) == bucket_index(k2) && key_sig(k1) == key_sig(k2)
}

/// An entry of bucket `i` searched to depth one or more is either one that the bucket held in
/// `base` (the table as the search found it), or holds a move fit (see `move_fits`) for a board
/// reached from `root` whose key leads to the entry.
pub open spec fn entry_sound(
    e: CompactTTEntry,
    i: int,
    root: Board,
    base: TranspositionTable,
    pass_mode: i32,
    pass_fix: i32,
    w: EvalWeights,
) -> bool {
    e.depth >= 1 ==> {
        ||| e == base.buckets@[i].slot0
        ||| e == base.buckets@[i].slot1
        ||| exists|b: Board|
            #[trigger] reachable(root, b) && bucket_index(b.hash) == i && key_sig(b.hash) == e.key_sig
                && move_fits(b, spec_unpack_move(e.packed_move), pass_mode, pass_fix, w)
    }
}

/// Every entry of the table is sound for a search from `root` that found the table `base` (see
/// `entry_sound`).
pub open spec fn tt_sound(
    tt: &TranspositionTable,
    root: Board,
    base: TranspositionTable,
    pass_mode: i32,
    pass_fix: i32,
    w: EvalWeights,
) -> bool {
    forall|i: int|
        0 <= i < tt.buckets@.len() ==> entry_sound((#[trigger] tt.buckets@[i]).slot0, i, root, base, pass_mode, pass_fix, w)
            && entry_sound(tt.buckets@[i].slot1, i, root, base, pass_mode, pass_fix, w)
}

/// `base` is the table `given` made ready: each bucket as it was, or empty where the table had
/// no buckets.
pub open spec fn base_of(base: TranspositionTable, given: TranspositionTable) -> bool {
    &&& base.ready()
    &&& forall|i: int|
        0 <= i < TT_SIZE ==> (given.ready() && #[trigger] base.buckets@[i] == given.buckets@[i]) || base.buckets@[i]
            == TTBucket::spec_empty()
}

/// The move `m` was in the table `t` for `b`: a slot of `b`'s bucket with `b`'s signature,
/// searched to depth one or more, holds it.
pub open spec fn table_move(t: TranspositionTable, b: Board, m: Move) -> bool {
    &&& t.ready()
    &&& {
        let bk = t.buckets@[bucket_index(b.hash)];
        ||| (bk.slot0.key_sig == key_sig(b.hash) && bk.slot0.depth >= 1 && m == spec_unpack_move(bk.slot0.packed_move))
        ||| (bk.slot1.key_sig == key_sig(b.hash) && bk.slot1.depth >= 1 && m == spec_unpack_move(bk.slot1.packed_move))
    }
}

/// A move the search may answer at `b` leaving aside what the table held before it: a legal
/// rectangle; or a move fit (see `move_fits`) for a board reached from `b` whose key selects
/// the same bucket with the same signature. That board is `b` itself (a pass where the search
/// tries one), unless another position reached from `b` shares those key bits.
pub open spec fn fresh_answer_ok(b: Board, m: Move, pass_mode: i32, pass_fix: i32, w: EvalWeights) -> bool {
    ||| legal_move(b.values, m)
    ||| exists|b2: Board| #[trigger] reachable(b, b2) && same_slot(b2.hash, b.hash) && move_fits(b2, m, pass_mode, pass_fix, w)
}

/// A move the search may answer at `b` when it starts from the table `t`: as in
/// `fresh_answer_ok`, or the move `t` held for `b` (see `table_move`).
pub open spec fn search_answer_ok(
    b: Board,
    m: Move,
    pass_mode: i32,
    pass_fix: i32,
    w: EvalWeights,
    t: TranspositionTable,
) -> bool {
    fresh_answer_ok(b, m, pass_mode, pass_fix, w) || table_move(t, b, m)
}

/// At the root of an iteration (depth one or more, a window wider than a null window), the best
/// move stays among the search's possible answers when the move it was handed is one.
proof fn lemma_answer_kept(
    b: Board,
    tt: TranspositionTable,
    base: TranspositionTable,
    given: TranspositionTable,
    prev: Move,
    depth: i32,
    alpha: i32,
    beta: i32,
    pass_mode: i32,
    pass_fix: i32,
    w: EvalWeights,
    m: Move,
)
    requires
        tt.ready(),
        tt_sound(&tt, b, base, pass_mode, pass_fix, w),
        base_of(base, given),
        1 <= depth <= MAX_DEPTH,
        alpha != beta - 1,
        search_answer_ok(b, prev, pass_mode, pass_fix, w, given),
        node_best_ok(b, prev, table_pick(tt, b, depth), depth, alpha, beta, pass_mode, pass_fix, w, m),
    ensures
        search_answer_ok(b, m, pass_mode, pass_fix, w, given),
{
    let i = bucket_index(b.hash);
    assert(0 <= i < tt.buckets@.len());
    assert(1 <= depth <= 12 ==> depth as i16 == depth) by (bit_vector);
    lemma_reach_self(b);
    if m == pass_move() && pass_tried(b, pass_mode, pass_fix, w) {
        assert(move_fits(b, m, pass_mode, pass_fix, w));
        assert(reachable(b, b) && same_slot(b.hash, b.hash));
    }
    match table_pick(tt, b, depth) {
        Some(e) => {
            if m == spec_unpack_move(e.packed_move) && m != prev && !legal_move(b.values, m) {
                let bk = tt.buckets@[i];
                assert(entry_sound(bk.slot0, i, b, base, pass_mode, pass_fix, w) && entry_sound(
                    bk.slot1,
                    i,
                    b,
                    base,
                    pass_mode,
                    pass_fix,
                    w,
                ));
                assert(e == bk.slot0 || e == bk.slot1);
                assert(e.key_sig == key_sig(b.hash));
                assert(e.depth >= 1);
                let bb = base.buckets@[i];
                if e == bb.slot0 || e == bb.slot1 {
                    assert(bb != TTBucket::spec_empty());
                    assert(given.ready() && bb == given.buckets@[i]);
                    assert(table_move(given, b, m));
                } else {
                    let b2 = choose|b2: Board|
                        #[trigger] reachable(b, b2) && bucket_index(b2.hash) == i && key_sig(b2.hash) == e.key_sig
                            && move_fits(b2, spec_unpack_move(e.packed_move), pass_mode, pass_fix, w);
                    assert(reachable(b, b2) && same_slot(b2.hash, b.hash) && move_fits(b2, m, pass_mode, pass_fix, w));
                }
            }
        },
        None => {},
    }
}

/// The moves a node of the search at `b` may give as its best move `m`, `prev` being the move it
/// was handed and `picked` the table's entry for the position: `prev` itself (nothing found);
/// the table's move; a pass tried by null-move pruning, which only a null window
/// (`alpha == beta - 1`) allows; a pass tried as a move, which needs pass mode other than 2,
/// depth at least 3, at most five legal rectangles and the pass rule (see
/// `spec_should_try_pass`); or a legal rectangle.
pub open spec fn node_best_ok(
    b: Board,
    prev: Move,
    picked: Option<CompactTTEntry>,
    depth: i32,
    alpha: i32,
    beta: i32,
    pass_mode: i32,
    pass_fix: i32,
    w: EvalWeights,
    m: Move,
) -> bool {
    ||| m == prev
    ||| (picked matches Some(e) && m == spec_unpack_move(e.packed_move))
    ||| (m == pass_move() && alpha == beta - 1)
    ||| (m == pass_move() && depth >= 3 && pass_tried(b, pass_mode, pass_fix, w))
    ||| legal_move(b.values, m)
}

/// The move loop of `alpha_beta`: each move of `moves` in turn is played and searched one ply
/// less within (`-beta`, `-a`), `a` being `alpha` raised by the scores so far, until a score
/// reaches `beta` (then the cutoff is recorded for move ordering). Gives the best score (from
/// -999999), the best move (from the first), the raised alpha, the table flag, and the traces
/// of the calls made (see `loop_state`).
#[verifier::rlimit(100)]
fn move_loop(
    board: &mut Board,
    depth: i32,
    alpha: i32,
    beta: i32,
    ctx: &mut SearchCtx,
    moves: &Vec<Move>,
) -> (res: (i32, Move, i32, u8, Ghost<Seq<SearchTrace>>))
    requires
        old(board).ready(),
        old(board).player != i8::MIN,
        old(board).consecutive_passes < 2,
        depth >= i32::MIN + 4 * game_measure(*old(board)),
        depth != 0,
        old(ctx).inv(),
        reachable(old(ctx).root@, *old(board)),
        moves@.len() >= 1,
        forall|j: int| 0 <= j < moves@.len() ==> legal_move(old(board).values, #[trigger] moves@[j]),
        alpha > i32::MIN,
        beta > i32::MIN,
    ensures
        *final(board) == *old(board),
        final(ctx).inv(),
        final(ctx).same_setup(&*old(ctx)),
        -SCORE_LIMIT <= res.0 <= SCORE_LIMIT,
        legal_move(old(board).values, res.1),
        alpha <= res.2,
        ({
            let kids = res.4@;
            let ord = moves@;
            &&& 1 <= kids.len() <= ord.len()
            &&& forall|j: int| 0 <= j < kids.len() - 1 ==> (#[trigger] loop_state(kids, ord, alpha as int, beta as int, j + 1)).2 < beta
            &&& (kids.len() == ord.len() || loop_state(kids, ord, alpha as int, beta as int, kids.len() as int).2 >= beta)
            &&& loop_state(kids, ord, alpha as int, beta as int, kids.len() as int) == (res.0 as int, res.1, res.2 as int, res.3)
            &&& forall|j: int|
                0 <= j < kids.len() ==> trace_ok(
                    #[trigger] kids[j],
                    after_move(*old(board), ord[j]),
                    (depth - 1) as i32,
                    (-beta) as i32,
                    (-loop_state(kids, ord, alpha as int, beta as int, j).2) as i32,
                    buckets_before(kids, old(ctx).tt.buckets@, j),
                    nodes_before(kids, old(ctx).nodes, j),
                    pass_move(),
                    rules_of(*old(ctx)),
                )
            &&& final(ctx).tt.buckets@ == buckets_before(kids, old(ctx).tt.buckets@, kids.len() as int)
            &&& final(ctx).nodes == nodes_before(kids, old(ctx).nodes, kids.len() as int)
        }),
    decreases game_measure(*old(board)), 0int,
{
    proof {
        lemma_live_count_bounds(old(board).values, 170);
    }
    let mut best_value: i32 = -999999;
    let mut local_best = moves[0];
    let mut flag = tt_flag::UPPER_BOUND;
    let mut a = alpha;
    let mut i: usize = 0;
    let ghost b0 = *board;
    let ghost bk1 = ctx.tt.buckets@;
    let ghost nd1 = ctx.nodes;
    let ghost r0 = rules_of(*ctx);
    let ghost c0 = *ctx;
    let ghost w0 = ctx.weights;
    let ghost mut kids: Seq<SearchTrace> = Seq::empty();
    proof {
        reveal(buckets_before);
        reveal(nodes_before);
        reveal_with_fuel(loop_state, 1);
        assert(loop_state(kids, moves@, alpha as int, beta as int, 0) == (-999999int, moves@[0], alpha as int, tt_flag::UPPER_BOUND));
    }
    while i < moves.len()
        invariant_except_break
            i <= moves@.len(),
            i > 0 ==> -SCORE_LIMIT <= best_value <= SCORE_LIMIT,
            i == 0 ==> best_value == -999999,
            a == alpha || (i > 0 && a <= best_value),
            i == 0 ==> local_best == moves@[0],
            kids.len() == i,
            forall|j: int| 0 <= j < i ==> (#[trigger] loop_state(kids, moves@, alpha as int, beta as int, j + 1)).2 < beta,
            loop_state(kids, moves@, alpha as int, beta as int, i as int) == (best_value as int, local_best, a as int, flag),
        invariant
            forall|j: int|
                0 <= j < kids.len() ==> trace_ok(
                    #[trigger] kids[j],
                    after_move(b0, moves@[j]),
                    (depth - 1) as i32,
                    (-beta) as i32,
                    (-loop_state(kids, moves@, alpha as int, beta as int, j).2) as i32,
                    buckets_before(kids, bk1, j),
                    nodes_before(kids, nd1, j),
                    pass_move(),
                    r0,
                ),
            ctx.tt.buckets@ == buckets_before(kids, bk1, kids.len() as int),
            ctx.nodes == nodes_before(kids, nd1, kids.len() as int),
            rules_of(*ctx) == r0,
            ctx.weights == w0,
            *board == b0,
            b0 == *old(board),
            b0.ready(),
            b0.player != i8::MIN,
            b0.consecutive_passes < 2,
            depth >= i32::MIN + 4 * game_measure(b0),
            0 <= game_measure(b0),
            depth != 0,
            ctx.inv(),
            ctx.same_setup(&c0),
            reachable(ctx.root@, b0),
            moves@.len() >= 1,
            forall|j: int| 0 <= j < moves@.len() ==> legal_move(b0.values, #[trigger] moves@[j]),
            legal_move(b0.values, local_best),
            alpha <= a,
            alpha > i32::MIN,
            beta > i32::MIN,
        ensures
            -SCORE_LIMIT <= best_value <= SCORE_LIMIT,
            1 <= kids.len() <= moves@.len(),
            forall|j: int| 0 <= j < kids.len() - 1 ==> (#[trigger] loop_state(kids, moves@, alpha as int, beta as int, j + 1)).2 < beta,
            kids.len() == moves@.len() || loop_state(kids, moves@, alpha as int, beta as int, kids.len() as int).2 >= beta,
            loop_state(kids, moves@, alpha as int, beta as int, kids.len() as int) == (best_value as int, local_best, a as int, flag),
        decreases moves@.len() - i,
    {
        let mv = moves[i];
        assert(legal_move(b0.values, moves@[i as int]));
        let mut rec = MoveRecord::new();
        board.make_move(&mv, &mut rec);
        let ghost b1 = *board;
        proof {
            lemma_measure_drops(b0, b1, mv);
            lemma_reach_step(ctx.root@, b0, b1, mv);
        }
        let mut dummy = Move::pass();
        let ghost kids0 = kids;
        let (child, Ghost(ct)) = alpha_beta(board, depth - 1, -beta, -a, ctx, &mut dummy);
        let score = -child;
        board.unmake_move(&rec);
        proof {
            lemma_make_unmake_roundtrip(b0, mv, rec, b1, *board);
            lemma_after_move(b0, b1, mv);
            kids = kids0.push(ct);
            lemma_kids_push(kids0, ct, moves@, alpha as int, beta as int, bk1, nd1);
            lemma_loop_step(kids0, ct, moves@, alpha as int, beta as int);
        }
        if score > best_value {
            best_value = score;
            local_best = mv;
        }
        if score > a {
            a = score;
            flag = tt_flag::EXACT;
        }
        if a >= beta {
            flag = tt_flag::LOWER_BOUND;
            record_cutoff(ctx, &mv, depth);
            break;
        }
        i += 1;
    }
    (best_value, local_best, a, flag, Ghost(kids))
}

/// The rectangles of `alpha_beta`: the move loop over `moves` (see `move_loop`), then a pass
/// tried where the pass rule allows it, the best move written to `best_move_out`, and the result
/// stored in the table. The trace returned (its null-move part left empty) meets `moves_shape_ok`, and its calls
/// meet `trace_ok`.
#[verifier::rlimit(100)]
fn search_rects(
    board: &mut Board,
    depth: i32,
    alpha: i32,
    beta: i32,
    ctx: &mut SearchCtx,
    best_move_out: &mut Move,
    moves: &Vec<Move>,
) -> (res: (i32, Ghost<SearchTrace>))
    requires
        old(board).ready(),
        old(board).player != i8::MIN,
        old(board).consecutive_passes < 2,
        depth >= i32::MIN + 4 * game_measure(*old(board)),
        depth != 0,
        old(ctx).inv(),
        reachable(old(ctx).root@, *old(board)),
        moves@.len() >= 1,
        moves@.len() == legal_count(old(board).values),
        forall|j: int| 0 <= j < moves@.len() ==> legal_move(old(board).values, #[trigger] moves@[j]),
        forall|m: Move|
            legal_move(old(board).values, m) ==> #[trigger] rect_among(moves@, m),
        alpha > i32::MIN,
        beta > i32::MIN,
    ensures
        *final(board) == *old(board),
        final(ctx).inv(),
        final(ctx).same_setup(&*old(ctx)),
        -SCORE_LIMIT <= res.0 <= SCORE_LIMIT,
        legal_move(old(board).values, *final(best_move_out)) || (*final(best_move_out) == pass_move() && depth >= 3
            && pass_tried(*old(board), old(ctx).pass_mode, old(ctx).pass_fix, old(ctx).weights)),
        res.1@.score == res.0,
        res.1@.best == *final(best_move_out),
        res.1@.buckets_out == final(ctx).tt.buckets@,
        res.1@.nodes_out == final(ctx).nodes,
        !res.1@.timed_out,
        res.1@.order == moves@,
        moves_shape_ok(res.1@, *old(board), depth, alpha, beta, old(ctx).tt.buckets@, old(ctx).nodes, rules_of(*old(ctx))),
        ({
            let k = res.1@.children.len() as int;
            &&& forall|i: int|
                0 <= i < k ==> trace_ok(
                    #[trigger] res.1@.children[i],
                    after_move(*old(board), res.1@.order[i]),
                    (depth - 1) as i32,
                    (-beta) as i32,
                    kid_alpha(res.1@, alpha, beta, i),
                    buckets_before(res.1@.children, old(ctx).tt.buckets@, i),
                    nodes_before(res.1@.children, old(ctx).nodes, i),
                    pass_move(),
                    rules_of(*old(ctx)),
                )
            &&& tries_pass(res.1@, *old(board), depth, rules_of(*old(ctx))) ==> res.1@.pass_child.len() == 1 && trace_ok(
                res.1@.pass_child[0],
                after_move(*old(board), pass_move()),
                (depth - 1) as i32,
                (-beta) as i32,
                kid_alpha(res.1@, alpha, beta, k),
                buckets_before(res.1@.children, old(ctx).tt.buckets@, k),
                nodes_before(res.1@.children, old(ctx).nodes, k),
                pass_move(),
                rules_of(*old(ctx)),
            )
        }),
    decreases game_measure(*old(board)), 1int,
{
    proof {
        lemma_live_count_bounds(old(board).values, 170);
        lemma_score_bounds(*old(board), ctx.weights);
    }
    let ghost b0 = *board;
    let ghost bk1 = ctx.tt.buckets@;
    let ghost nd1 = ctx.nodes;
    let ghost r0 = rules_of(*ctx);
    let key = board.hash;
    let ghost c0 = *ctx;
    let (best_value, local_best, a, flag, Ghost(kids)) = move_loop(board, depth, alpha, beta, ctx, &moves);
    let mut best_value = best_value;
    let mut local_best = local_best;
    let mut flag = flag;
    let ghost mut passes: Seq<SearchTrace> = Seq::empty();
    let ghost bk2 = ctx.tt.buckets@;
    let ghost nd2 = ctx.nodes;
    if ctx.pass_mode != 2 && depth >= 3 && moves.len() <= 5 {
        let try_pass = should_try_pass(board, ctx);
        if try_pass {
            let pass = Move::pass();
            let mut rec = MoveRecord::new();
            board.make_move(&pass, &mut rec);
            let ghost b1 = *board;
            proof {
                lemma_measure_drops(b0, b1, pass);
                lemma_reach_step(ctx.root@, b0, b1, pass);
            }
            let mut dummy = Move::pass();
            let (child, Ghost(pct)) = alpha_beta(board, depth - 1, -beta, -a, ctx, &mut dummy);
            let pass_score = -child;
            board.unmake_move(&rec);
            proof {
                lemma_make_unmake_roundtrip(b0, pass, rec, b1, *board);
                lemma_after_move(b0, b1, pass);
                passes = seq![pct];
            }
            if pass_score > best_value {
                best_value = pass_score;
                local_best = Move::pass();
                flag = tt_flag::EXACT;
            }
        }
    }
    proof {
        assert(ctx.pass_mode == old(ctx).pass_mode && ctx.pass_fix == old(ctx).pass_fix && ctx.weights
            == old(ctx).weights);
        assert(legal_move(b0.values, local_best) || (local_best == pass_move() && old(ctx).pass_mode != 2
            && depth >= 3 && legal_count(b0.values) <= 5 && spec_should_try_pass(
            b0,
            old(ctx).pass_mode,
            old(ctx).pass_fix,
            old(ctx).weights,
        )));
        assert(move_fits(b0, spec_unpack_move(spec_pack_move(local_best)), old(ctx).pass_mode, old(ctx).pass_fix, old(ctx).weights)) by {
            crate::search::tt::lemma_pack_roundtrip(local_best);
            if !local_best.spec_is_pass() {
                assert(legal_move(b0.values, local_best));
            }
        }
    }
    proof {
        assert(legal_move(b0.values, moves@[0]));
    }
    *best_move_out = local_best;
    let ghost t0 = ctx.tt;
    tt_store(&mut ctx.tt, key, depth, best_value, flag, &local_best);
    proof {
        assert forall|j: int| 0 <= j < ctx.tt.buckets@.len() implies entry_bounded(
            (#[trigger] ctx.tt.buckets@[j]).slot0,
        ) && entry_bounded(ctx.tt.buckets@[j].slot1) by {
            assert(entry_bounded(t0.buckets@[j].slot0) && entry_bounded(t0.buckets@[j].slot1));
        }
        let r = ctx.root@;
        let bs = ctx.base@;
        let pm = ctx.pass_mode;
        let pf = ctx.pass_fix;
        let w = ctx.weights;
        assert(reachable(r, b0) && bucket_index(b0.hash) == bucket_index(key) && key_sig(b0.hash) == key_sig(key));
        assert forall|j: int| 0 <= j < ctx.tt.buckets@.len() implies entry_sound(
            (#[trigger] ctx.tt.buckets@[j]).slot0,
            j,
            r,
            bs,
            pm,
            pf,
            w,
        ) && entry_sound(ctx.tt.buckets@[j].slot1, j, r, bs, pm, pf, w) by {
            assert(entry_sound(t0.buckets@[j].slot0, j, r, bs, pm, pf, w) && entry_sound(t0.buckets@[j].slot1, j, r, bs, pm, pf, w));
        }
    }
    let ghost tr = SearchTrace {
        timed_out: false,
        score: best_value as int,
        best: local_best,
        buckets_out: ctx.tt.buckets@,
        nodes_out: ctx.nodes,
        null_child: Seq::empty(),
        order: moves@,
        children: kids,
        pass_child: passes,
    };
    proof {
        assert(moves_shape_ok(tr, b0, depth, alpha, beta, bk1, nd1, r0));
        let k = kids.len() as int;
        assert(tr.children == kids && tr.order == moves@);
        assert(rules_of(*ctx) == r0);
        assert(bk2 == buckets_before(kids, bk1, k) && nd2 == nodes_before(kids, nd1, k));
        assert forall|i: int| 0 <= i < k implies trace_ok(
            #[trigger] tr.children[i],
            after_move(b0, tr.order[i]),
            (depth - 1) as i32,
            (-beta) as i32,
            kid_alpha(tr, alpha, beta, i),
            buckets_before(tr.children, bk1, i),
            nodes_before(tr.children, nd1, i),
            pass_move(),
            r0,
        ) by {
            assert(tr.children[i] == kids[i]);
        }
        if tries_pass(tr, b0, depth, r0) {
            assert(passes.len() == 1);
            assert(kid_alpha(tr, alpha, beta, k) == -a);
            assert(trace_ok(passes[0], after_move(b0, pass_move()), (depth - 1) as i32, (-beta) as i32, kid_alpha(tr, alpha, beta, k), bk2, nd2, pass_move(), r0));
        } else {
            assert(passes.len() == 0);
        }

    }
    (best_value, Ghost(tr))
}

/// Alpha-beta search of `board` to `depth` within the window (`alpha`, `beta`), from the
/// point of view of its side to move, with a transposition table, null-move pruning, killer
/// and history ordering, the second side's ordering biases, and a pass tried near the end.
/// A finished game scores `terminal_score`; at depth 0, or when the budget is found spent,
/// the static evaluation is returned. Where a best move is found it is written to
/// `best_move_out`. The trace returned beside the score records the calls made and meets
/// `trace_ok`: the score is the fail-soft alpha-beta combination of what those calls returned,
/// whatever the clock said. Entries it stores keep the table sound (see `tt_sound`). The board
/// ends as it began.
#[verifier::rlimit(100)]
#[verifier::spinoff_prover]
fn alpha_beta(
    board: &mut Board,
    depth: i32,
    alpha: i32,
    beta: i32,
    ctx: &mut SearchCtx,
    best_move_out: &mut Move,
) -> (res: (i32, Ghost<SearchTrace>))
    requires
        old(board).ready(),
        old(board).player != i8::MIN,
        old(ctx).inv(),
        reachable(old(ctx).root@, *old(board)),
        alpha > i32::MIN,
        beta > i32::MIN,
        old(board).consecutive_passes < 2 ==> depth >= i32::MIN + 4 * game_measure(*old(board)),
    ensures
        trace_ok(
            res.1@,
            *old(board),
            depth,
            alpha,
            beta,
            old(ctx).tt.buckets@,
            old(ctx).nodes,
            *old(best_move_out),
            rules_of(*old(ctx)),
        ),
        res.1@.score == res.0,
        res.1@.best == *final(best_move_out),
        res.1@.buckets_out == final(ctx).tt.buckets@,
        res.1@.nodes_out == final(ctx).nodes,
        *final(board) == *old(board),
        final(ctx).inv(),
        final(ctx).same_setup(&*old(ctx)),
        -SCORE_LIMIT <= res.0 <= SCORE_LIMIT,
        old(board).consecutive_passes >= 2 ==> res.0 == terminal_score(*old(board))
            && *final(best_move_out) == *old(best_move_out),
        old(board).consecutive_passes < 2 && depth == 0 ==> res.0 == static_eval(
            *old(board),
            old(ctx).weights,
        ) && *final(best_move_out) == *old(best_move_out),
        node_best_ok(
            *old(board),
            *old(best_move_out),
            table_pick(old(ctx).tt, *old(board), depth),
            depth,
            alpha,
            beta,
            old(ctx).pass_mode,
            old(ctx).pass_fix,
            old(ctx).weights,
            *final(best_move_out),
        ),
        ({
            let picked = table_pick(old(ctx).tt, *old(board), depth);
            (old(board).consecutive_passes < 2 && depth != 0 && old(ctx).nodes & 4095 != 0 && picked is Some
                && probe_cutoff(picked->0, alpha, beta)) ==> res.0 == picked->0.value && *final(best_move_out)
                == spec_unpack_move(picked->0.packed_move)
        }),
    decreases game_measure(*old(board)), 2int,
{
    let ghost b0 = *board;
    let ghost bk0 = ctx.tt.buckets@;
    let ghost n0 = ctx.nodes;
    let ghost bo0 = *best_move_out;
    let ghost r0 = rules_of(*ctx);
    proof {
        lemma_score_bounds(b0, ctx.weights);
    }
    if board.consecutive_passes >= 2 {
        let v = terminal_value(board);
        let ghost tr = leaf_trace(false, v as int, bo0, bk0, n0);
        proof {
            lemma_trace_terminal(tr, b0, depth, alpha, beta, bk0, n0, bo0, r0);
        }
        return (v, Ghost(tr));
    }
    proof {
        lemma_live_count_bounds(b0.values, 170);
    }
    let nc = ctx.nodes;
    if (nc & 4095) == 0 && ctx.timed_out() {
        let v = evaluate_with(board, &ctx.weights);
        let ghost tr = leaf_trace(true, v as int, bo0, bk0, n0);
        proof {
            lemma_trace_spent(tr, b0, depth, alpha, beta, bk0, n0, bo0, r0);
        }
        return (v, Ghost(tr));
    }
    ctx.nodes = ctx.nodes.wrapping_add(1);
    let ghost n1 = ctx.nodes;
    assert(n1 == next_count(n0));
    if depth == 0 {
        let v = evaluate_with(board, &ctx.weights);
        let ghost tr = leaf_trace(false, v as int, bo0, bk0, n1);
        proof {
            lemma_trace_settled(tr, b0, depth, alpha, beta, bk0, n0, bo0, r0);
        }
        return (v, Ghost(tr));
    }
    let key = board.hash;
    let mut tt_value: i32 = 0;
    let mut tt_move = Move::pass();
    if tt_probe(&ctx.tt, key, depth, alpha, beta, &mut tt_value, &mut tt_move) {
        proof {
            let b = ctx.tt.buckets@[crate::search::tt::bucket_index(key)];
            assert(entry_bounded(b.slot0) && entry_bounded(b.slot1));
        }
        *best_move_out = tt_move;
        let ghost tr = leaf_trace(false, tt_value as int, tt_move, bk0, n1);
        proof {
            lemma_trace_settled(tr, b0, depth, alpha, beta, bk0, n0, bo0, r0);
        }
        return (tt_value, Ghost(tr));
    }
    let ghost mut nulls: Seq<SearchTrace> = Seq::empty();
    if ctx.nullmove_on && depth >= 3 && !ctx.nullmove_ok {
        ctx.nullmove_ok = true;
    }
    if ctx.nullmove_on && depth >= 3 && ctx.nullmove_ok && alpha == beta - 1 {
        let static_score = evaluate_with(board, &ctx.weights);
        if static_score >= beta {
            let pass = Move::pass();
            let mut rec = MoveRecord::new();
            board.make_move(&pass, &mut rec);
            let ghost b1 = *board;
            proof {
                lemma_measure_drops(b0, b1, pass);
                lemma_reach_step(ctx.root@, b0, b1, pass);
            }
            ctx.nullmove_ok = false;
            let mut dummy = Move::pass();
            let (child, Ghost(ct)) = alpha_beta(board, depth - 4, -beta, -beta + 1, ctx, &mut dummy);
            let score = -child;
            ctx.nullmove_ok = true;
            board.unmake_move(&rec);
            proof {
                lemma_make_unmake_roundtrip(b0, pass, rec, b1, *board);
                lemma_after_move(b0, b1, pass);
                nulls = seq![ct];
            }
            if score >= beta {
                *best_move_out = Move::pass();
                let ghost tr = SearchTrace {
                    timed_out: false,
                    score: score as int,
                    best: pass_move(),
                    buckets_out: ctx.tt.buckets@,
                    nodes_out: ctx.nodes,
                    null_child: nulls,
                    order: Seq::empty(),
                    children: Seq::empty(),
                    pass_child: Seq::empty(),
                };
                proof {
                    lemma_trace_searched(tr, b0, depth, alpha, beta, bk0, n0, bo0, r0, ctx.tt.buckets@, ctx.nodes);
                    assert(null_tried(b0, depth, alpha, beta, r0));
                    assert(tr.null_child[0] == ct);
                }
                return (score, Ghost(tr));
            }
        }
    }
    let ghost bk1 = ctx.tt.buckets@;
    let ghost nd1 = ctx.nodes;
    proof {
        if null_tried(b0, depth, alpha, beta, r0) {
            assert(nulls.len() == 1);
            assert(trace_ok(
                nulls[0],
                after_move(b0, pass_move()),
                (depth - 4) as i32,
                (-beta) as i32,
                (-beta + 1) as i32,
                bk0,
                n1,
                pass_move(),
                r0,
            ));
            assert(nulls[0].buckets_out == bk1 && nulls[0].nodes_out == nd1 && -nulls[0].score < beta);
        } else {
            assert(nulls.len() == 0 && bk1 == bk0 && nd1 == n1);
        }
    }
    let prior_ref = ctx.prior.as_ref();
    let mut moves = board.legal_moves_with(prior_ref);
    let ghost pv = crate::board::prior_value(prior_ref);
    if moves.len() == 0 {
        let pass = Move::pass();
        let mut rec = MoveRecord::new();
        board.make_move(&pass, &mut rec);
        let ghost b1 = *board;
        proof {
            lemma_measure_drops(b0, b1, pass);
            lemma_reach_step(ctx.root@, b0, b1, pass);
        }
        let mut dummy = Move::pass();
        let (child, Ghost(pc)) = alpha_beta(board, depth - 1, -beta, -alpha, ctx, &mut dummy);
        let score = -child;
        board.unmake_move(&rec);
        let ghost tr = SearchTrace {
            timed_out: false,
            score: score as int,
            best: bo0,
            buckets_out: ctx.tt.buckets@,
            nodes_out: ctx.nodes,
            null_child: nulls,
            order: Seq::empty(),
            children: Seq::empty(),
            pass_child: seq![pc],
        };
        proof {
            lemma_make_unmake_roundtrip(b0, pass, rec, b1, *board);
            lemma_after_move(b0, b1, pass);
            lemma_legal_count(b0.values, moves@);
            assert(tr.pass_child[0] == pc);
            lemma_trace_searched(tr, b0, depth, alpha, beta, bk0, n0, bo0, r0, bk1, nd1);
            assert(rect_of(pass_move()) == pass_move());
            assert forall|m: Move| !legal_move(b0.values, m) by {
                if legal_move(b0.values, m) {
                    assert(legal_rect(b0.values, m.r1 as int, m.c1 as int, m.r2 as int, m.c2 as int));
                }
            }
        }
        return (score, Ghost(tr));
    }
    proof {
        assert forall|i: int| 0 <= i < moves@.len() implies -100000 <= (#[trigger] moves@[i]).priority <= 300000 && legal_move(b0.values, moves@[i]) by {
            lemma_priority_bound(b0, moves@[i], pv);
        }
    }
    let ghost listed = moves@;
    if !ctx.is_first && depth <= 3 {
        apply_second_defensive_biases(board, &mut moves, false, &ctx.weights, 0, false);
    }
    proof {
        assert forall|i: int| 0 <= i < moves@.len() implies legal_move(b0.values, #[trigger] moves@[i]) && -300000 <= moves@[i].priority <= 500000 by {
            if !ctx.is_first && depth <= 3 {
                assert(moves@[i] == bias_applied(b0, listed[i], false, ctx.weights, 0, false));
            }
        }
    }
    let killers = ctx.killers;
    let history = ctx.history;
    let ghost before_order = moves@;
    proof {
        assert forall|k: int| 0 <= k < listed.len() implies rect_of(#[trigger] before_order[k]) == rect_of(listed[k]) by {
            if !ctx.is_first && depth <= 3 {
                assert(before_order[k] == bias_applied(b0, listed[k], false, ctx.weights, 0, false));
            }
        }
        assert forall|i: int| 0 <= i < before_order.len() implies crate::search::ordering::order_bonus_ok(
            #[trigger] before_order[i],
            depth,
            killers,
            history,
            ctx.killer_history_on,
        ) by {
            let m = before_order[i];
            assert(legal_move(b0.values, m));
            assert(0 <= history@[m.r2 as int]@[m.c2 as int] <= HISTORY_CAP);
        }
    }
    crate::search::ordering::order_moves(&mut moves, &tt_move, depth, &killers, &history, ctx.killer_history_on);
    proof {
        lemma_ordered_moves_legal(b0.values, before_order, moves@, depth, killers, history, ctx.killer_history_on);
        lemma_ordered_moves_cover(before_order, moves@, depth, killers, history, ctx.killer_history_on);
    }
    proof {
        lemma_moves_cover_legal(b0, listed, before_order, moves@, depth, killers, history, ctx.killer_history_on);
        lemma_legal_count(b0.values, listed);
    }
    let (best_value, Ghost(tr0)) = search_rects(board, depth, alpha, beta, ctx, best_move_out, &moves);
    let ghost tr = SearchTrace { null_child: nulls, ..tr0 };
    proof {
        assert(moves_shape_ok(tr, b0, depth, alpha, beta, bk1, nd1, r0));
        assert({
            let k = tr.children.len() as int;
            &&& forall|i: int|
                0 <= i < k ==> trace_ok(
                    #[trigger] tr.children[i],
                    after_move(b0, tr.order[i]),
                    (depth - 1) as i32,
                    (-beta) as i32,
                    kid_alpha(tr, alpha, beta, i),
                    buckets_before(tr.children, bk1, i),
                    nodes_before(tr.children, nd1, i),
                    pass_move(),
                    r0,
                )
            &&& tries_pass(tr, b0, depth, r0) ==> tr.pass_child.len() == 1 && trace_ok(
                tr.pass_child[0],
                after_move(b0, pass_move()),
                (depth - 1) as i32,
                (-beta) as i32,
                kid_alpha(tr, alpha, beta, k),
                buckets_before(tr.children, bk1, k),
                nodes_before(tr.children, nd1, k),
                pass_move(),
                r0,
            )
        }) by {
            assert(tr.children == tr0.children && tr.order == tr0.order && tr.pass_child == tr0.pass_child);
        }
        lemma_trace_searched(tr, b0, depth, alpha, beta, bk0, n0, bo0, r0, bk1, nd1);
    }
    (best_value, Ghost(tr))
}

// ---------------------------------------------------------------------------
// Iterative deepening.
// ---------------------------------------------------------------------------

/// What iterative deepening keeps between iterations: the best move, the score it was found
/// with and the depth of the deepest iteration that finished in time.
#[derive(Clone, Copy, Debug)]
pub struct Deepening {
    pub best_move: Move,
    pub prev_score: i32,
    pub completed_depth: i32,
}

/// The decision after the iteration at `depth` found `depth_best` with `score`, given what the
/// clock said: `spent_after`, whether the budget was found spent right after the iteration;
/// `spent_now`, the same asked again; and the iteration's duration. The iteration's result is
/// kept unless the budget was spent; the deepening stops when it is spent, or when the
/// iteration took more than half of the budget.
pub fn deepening_step(
    kept: Deepening,
    depth: i32,
    depth_best: Move,
    score: i32,
    spent_after: bool,
    spent_now: bool,
    depth_elapsed_ms: i64,
    budget_ms: i64,
) -> (res: (Deepening, bool))
    requires
        budget_ms >= 0,
    ensures
        res.0 == (if spent_after {
            kept
        } else {
            Deepening { best_move: depth_best, prev_score: score, completed_depth: depth }
        }),
        res.1 == (spent_now || depth_elapsed_ms > budget_ms / 2),
{
    let next = if spent_after {
        kept
    } else {
        Deepening { best_move: depth_best, prev_score: score, completed_depth: depth }
    };
    (next, spent_now || depth_elapsed_ms > budget_ms / 2)
}

/// The result of a search: the move chosen, the deepest iteration that finished in time, the
/// nodes visited and the milliseconds spent.
#[derive(Clone, Copy, Debug, Default)]
pub struct SearchReport {
    pub best_move: Move,
    pub completed_depth: i32,
    pub nodes: u64,
    pub elapsed_ms: i64,
}

/// Largest magnitude of an aspiration window (so that the window around any score fits in 32
/// bits).
pub const ASP_WINDOW_LIMIT: i32 = 2146483647;

/// Search settings: killer and history ordering, null-move pruning, the aspiration window (0
/// for a full window, -1 for one adapted to the previous score), the pass mode (1 always tries
/// passes, 2 never tries them), whether trying a pass depends on owned cells rather than on the
/// evaluation, the extra take-back bonus of the second side, the prior configuration for
/// move priorities, and the evaluation weights.
pub struct SearchOptions {
    pub killer_history_on: bool,
    pub nullmove_on: bool,
    pub asp_window: i32,
    pub pass_mode: i32,
    pub pass_fix: i32,
    pub second_steal: i32,
    pub prior: Option<MovePriorConfig>,
    pub weights: EvalWeightSet,
}

impl SearchOptions {
    /// The aspiration window keeps every window around a score within 32 bits, and the
    /// weights keep evaluations within the search's range.
    pub open spec fn wf(&self) -> bool {
        &&& -ASP_WINDOW_LIMIT <= self.asp_window <= ASP_WINDOW_LIMIT
        &&& self.weights.fits_search()
    }

    /// The default settings: killer and history ordering on, no null move, a window of 50,
    /// pass mode 0, no pass fix, no extra take-back bonus, no prior configuration, the
    /// built-in weights.
    pub fn defaults() -> (o: SearchOptions)
        ensures
            o.wf(),
            o.killer_history_on,
            !o.nullmove_on,
            o.asp_window == 50,
            o.pass_mode == 0,
            o.pass_fix == 0,
            o.second_steal == 0,
            o.prior.is_none(),
            o.weights == EvalWeightSet::spec_defaults(),
    {
        SearchOptions {
            killer_history_on: true,
            nullmove_on: false,
            asp_window: 50,
            pass_mode: 0,
            pass_fix: 0,
            second_steal: 0,
            prior: None,
            weights: EvalWeightSet::defaults(),
        }
    }
}

/// A setting read as a 32-bit number: `None` when it is absent or does not read as one.
pub open spec fn setting_i32(v: Option<Seq<u8>>) -> Option<int> {
    match v {
        Some(t) => crate::text::spec_parse_int(t, true, i32::MIN as int, i32::MAX as int),
        None => None,
    }
}

/// The bytes of a setting, if present.
pub open spec fn setting_bytes(v: Option<&str>) -> Option<Seq<u8>> {
    match v {
        Some(s) => Some(s.spec_bytes()),
        None => None,
    }
}

/// Reads a setting as a 32-bit number (see `setting_i32`).
fn read_setting(v: Option<&str>) -> (n: Option<i32>)
    ensures
        match n {
            Some(x) => setting_i32(setting_bytes(v)) == Some(x as int),
            None => setting_i32(setting_bytes(v)) is None,
        },
{
    match v {
        Some(s) => {
            let bytes = s.as_bytes();
            proof {
                assert(bytes@.subrange(0, bytes@.len() as int) =~= bytes@);
            }
            crate::text::parse_i32(bytes, 0, bytes.len())
        },
        None => None,
    }
}

/// Whether the setting is present and spelled `w`.
fn setting_is(v: Option<&str>, w: &[u8]) -> (b: bool)
    ensures
        b == (setting_bytes(v) == Some(w@)),
{
    match v {
        Some(s) => {
            let a = s.as_bytes();
            if a.len() != w.len() {
                proof {
                    assert(a@.len() != w@.len());
                    assert(a@ != w@);
                    assert(setting_bytes(v) == Some(a@));
                }
                return false;
            }
            let mut i: usize = 0;
            while i < a.len()
                invariant
                    a@ == s.spec_bytes(),
                    setting_bytes(v) == Some(a@),
                    a@.len() == w@.len(),
                    i <= a@.len(),
                    forall|k: int| 0 <= k < i ==> a@[k] == w@[k],
                decreases a@.len() - i,
            {
                if a[i] != w[i] {
                    proof {
                        assert(a@[i as int] != w@[i as int]);
                        assert(a@ != w@);
                        assert(setting_bytes(v) == Some(a@));
                    }
                    return false;
                }
                i += 1;
            }
            proof {
                assert(a@ =~= w@);
            }
            true
        },
        None => false,
    }
}

/// "0".
pub open spec fn word_zero() -> Seq<u8> {
    seq![48u8]
}

/// "full".
pub open spec fn word_full() -> Seq<u8> {
    seq![102u8, 117u8, 108u8, 108u8]
}

/// "adaptive".
pub open spec fn word_adaptive() -> Seq<u8> {
    seq![97u8, 100u8, 97u8, 112u8, 116u8, 105u8, 118u8, 101u8]
}

/// "no-gate".
pub open spec fn word_no_gate() -> Seq<u8> {
    seq![110u8, 111u8, 45u8, 103u8, 97u8, 116u8, 101u8]
}

/// "none".
pub open spec fn word_none() -> Seq<u8> {
    seq![110u8, 111u8, 110u8, 101u8]
}

/// The aspiration window a setting asks for: 0 for "0" or "full", -1 for "adaptive", the
/// number it reads as, else 50.
pub open spec fn spec_asp_setting(v: Option<Seq<u8>>) -> int {
    if v == Some(word_zero()) || v == Some(word_full()) {
        0
    } else if v == Some(word_adaptive()) {
        -1
    } else {
        match setting_i32(v) {
            Some(n) => n,
            None => 50,
        }
    }
}

/// The pass mode a setting asks for: 1 for "no-gate", 2 for "none", else 0.
pub open spec fn spec_pass_mode_setting(v: Option<Seq<u8>>) -> int {
    if v == Some(word_no_gate()) {
        1
    } else if v == Some(word_none()) {
        2
    } else {
        0
    }
}

impl SearchOptions {
    /// Settings from their text values (absent ones as `None`): killer and history ordering
    /// on unless the value reads as a number of at most 0; null move on when it reads as a
    /// positive number; the aspiration window and pass mode as `spec_asp_setting` and
    /// `spec_pass_mode_setting` say; pass fix and extra take-back bonus the number read, or 0.
    /// No prior configuration. The weights are read from the text of a weights file, if there
    /// is one (see `EvalWeightSet::spec_from_numbers`), else the built-in ones.
    pub fn from_settings(
        killer_history: Option<&str>,
        nullmove: Option<&str>,
        asp_window: Option<&str>,
        pass_mode: Option<&str>,
        pass_fix: Option<&str>,
        second_steal: Option<&str>,
        weights_text: Option<&str>,
    ) -> (o: SearchOptions)
        ensures
            o.weights == match weights_text {
                Some(t) => EvalWeightSet::spec_from_numbers(
                    numbers_among(t.spec_bytes(), token_spans(t.spec_bytes()).len() as int),
                ),
                None => EvalWeightSet::spec_defaults(),
            },
            o.killer_history_on == match setting_i32(setting_bytes(killer_history)) {
                Some(v) => v > 0,
                None => true,
            },
            o.nullmove_on == match setting_i32(setting_bytes(nullmove)) {
                Some(v) => v > 0,
                None => false,
            },
            o.asp_window == spec_asp_setting(setting_bytes(asp_window)),
            o.pass_mode == spec_pass_mode_setting(setting_bytes(pass_mode)),
            o.pass_fix == match setting_i32(setting_bytes(pass_fix)) {
                Some(v) => v,
                None => 0,
            },
            o.second_steal == match setting_i32(setting_bytes(second_steal)) {
                Some(v) => v,
                None => 0,
            },
            o.prior.is_none(),
    {
        let killer_history_on = match read_setting(killer_history) {
            Some(v) => v > 0,
            None => true,
        };
        let nullmove_on = match read_setting(nullmove) {
            Some(v) => v > 0,
            None => false,
        };
        let zero: [u8; 1] = [48u8];
        let full: [u8; 4] = [102u8, 117, 108, 108];
        let adaptive: [u8; 8] = [97u8, 100, 97, 112, 116, 105, 118, 101];
        let no_gate: [u8; 7] = [110u8, 111, 45, 103, 97, 116, 101];
        let none_word: [u8; 4] = [110u8, 111, 110, 101];
        proof {
            assert(zero@ =~= word_zero());
            assert(full@ =~= word_full());
            assert(adaptive@ =~= word_adaptive());
            assert(no_gate@ =~= word_no_gate());
            assert(none_word@ =~= word_none());
        }
        let asp: i32 = if setting_is(asp_window, &zero) || setting_is(asp_window, &full) {
            0
        } else if setting_is(asp_window, &adaptive) {
            -1
        } else {
            match read_setting(asp_window) {
                Some(v) => v,
                None => 50,
            }
        };
        let mode: i32 = if setting_is(pass_mode, &no_gate) {
            1
        } else if setting_is(pass_mode, &none_word) {
            2
        } else {
            0
        };
        let fix = match read_setting(pass_fix) {
            Some(v) => v,
            None => 0,
        };
        let steal = match read_setting(second_steal) {
            Some(v) => v,
            None => 0,
        };
        let weights = match weights_text {
            Some(t) => {
                let nums = numbers_in_text(t.as_bytes());
                EvalWeightSet::from_numbers(&nums)
            },
            None => EvalWeightSet::defaults(),
        };
        SearchOptions {
            killer_history_on,
            nullmove_on,
            asp_window: asp,
            pass_mode: mode,
            pass_fix: fix,
            second_steal: steal,
            prior: None,
            weights,
        }
    }

    /// Whether the aspiration window keeps every window within 32 bits and the weights fit
    /// the search (see `wf`).
    pub fn is_valid(&self) -> (b: bool)
        ensures
            b == self.wf(),
    {
        -ASP_WINDOW_LIMIT <= self.asp_window && self.asp_window <= ASP_WINDOW_LIMIT
            && self.weights.check_fits_search()
    }
}

/// The time the search allows itself: 80% of the given budget (rounded toward zero), at least
/// one millisecond.
pub open spec fn spec_search_budget(time_budget_ms: i32) -> int {
    let b = div_trunc(time_budget_ms * 80, 100);
    if b < 1 {
        1
    } else {
        b
    }
}

/// The time the search allows itself (see `spec_search_budget`).
pub fn search_budget(time_budget_ms: i32) -> (b: i64)
    ensures
        b == spec_search_budget(time_budget_ms),
{
    let b = time_budget_ms as i64 * 80 / 100;
    if b < 1 {
        1
    } else {
        b
    }
}

/// Half-width of the aspiration window around `prev_score`: the fixed width, or for -1 a
/// quarter of the previous score's magnitude (rounded down), at least 200.
pub open spec fn spec_window_width(asp_window: i32, prev_score: i32) -> int {
    if asp_window == -1 {
        let q = (if prev_score < 0 {
            -prev_score
        } else {
            prev_score as int
        }) / 4;
        if q < 200 {
            200
        } else {
            q
        }
    } else {
        asp_window as int
    }
}

/// Half-width of the aspiration window (see `spec_window_width`).
pub fn window_width(asp_window: i32, prev_score: i32) -> (w: i32)
    requires
        -SCORE_LIMIT <= prev_score <= SCORE_LIMIT,
    ensures
        w == spec_window_width(asp_window, prev_score),
{
    if asp_window == -1 {
        let magnitude = if prev_score < 0 {
            -prev_score
        } else {
            prev_score
        };
        let q = magnitude / 4;
        if q < 200 {
            200
        } else {
            q
        }
    } else {
        asp_window
    }
}

/// The root moves in search order: legal moves ordered, the second side's root biases
/// applied, and ordered again. The board ends as it began.
fn root_moves(board: &mut Board, is_first: bool, options: &SearchOptions) -> (moves: Vec<Move>)
    requires
        options.wf(),
        old(board).ready(),
        old(board).player != i8::MIN,
    ensures
        *final(board) == *old(board),
        forall|i: int| 0 <= i < moves@.len() ==> legal_move(old(board).values, #[trigger] moves@[i]),
        moves@.len() == 0 <==> forall|m: Move| !legal_move(old(board).values, m),
{
    let ghost b0 = *board;
    let prior_ref = options.prior.as_ref();
    let mut moves = board.legal_moves_with(prior_ref);
    let ghost pv = crate::board::prior_value(prior_ref);
    proof {
        if moves@.len() == 0 {
            assert forall|m: Move| !legal_move(b0.values, m) by {
                if legal_move(b0.values, m) {
                    assert(legal_rect(b0.values, m.r1 as int, m.c1 as int, m.r2 as int, m.c2 as int));
                }
            }
        } else {
            assert(legal_move(b0.values, moves@[0]));
        }
    }
    if moves.len() == 0 {
        return moves;
    }
    let empty_killers = [[0u32; 2]; 64];
    let empty_history = [[0i32; COLS]; ROWS];
    let pass = Move::pass();
    let ghost listed = moves@;
    proof {
        assert forall|i: int| 0 <= i < listed.len() implies crate::search::ordering::order_bonus_ok(
            #[trigger] listed[i],
            0,
            empty_killers,
            empty_history,
            options.killer_history_on,
        ) by {
            lemma_priority_bound(b0, listed[i], pv);
        }
    }
    crate::search::ordering::order_moves(&mut moves, &pass, 0, &empty_killers, &empty_history, options.killer_history_on);
    proof {
        lemma_ordered_moves_legal(b0.values, listed, moves@, 0, empty_killers, empty_history, options.killer_history_on);
        assert forall|i: int| 0 <= i < moves@.len() implies -100000 <= (#[trigger] moves@[i]).priority <= 309000 by {
            broadcast use vstd::seq_lib::group_to_multiset_ensures;
            let mapped = listed.map_values(|m: Move| with_bonus(m, 0, empty_killers, empty_history, options.killer_history_on));
            assert(moves@.to_multiset().count(moves@[i]) > 0);
            assert(mapped.contains(moves@[i]));
            let j = choose|j: int| 0 <= j < mapped.len() && mapped[j] == moves@[i];
            lemma_priority_bound(b0, listed[j], pv);
        }
    }
    let ghost ordered = moves@;
    let w = if is_first {
        options.weights.first
    } else {
        options.weights.second
    };
    apply_second_root_biases(board, &mut moves, is_first, &w, options.second_steal);
    let ghost biased_moves = moves@;
    proof {
        assert forall|i: int| 0 <= i < biased_moves.len() implies crate::search::ordering::order_bonus_ok(
            #[trigger] biased_moves[i],
            0,
            empty_killers,
            empty_history,
            options.killer_history_on,
        ) && legal_move(b0.values, biased_moves[i]) by {
            assert(biased_moves[i] == bias_applied(b0, ordered[i], is_first, w, options.second_steal, true));
        }
    }
    crate::search::ordering::order_moves(&mut moves, &pass, 0, &empty_killers, &empty_history, options.killer_history_on);
    proof {
        lemma_ordered_moves_legal(b0.values, biased_moves, moves@, 0, empty_killers, empty_history, options.killer_history_on);
    }
    moves
}

/// Searches `board` for the side to move with iterative deepening, within 80% of
/// `time_budget_ms` (at least 1 ms), using and keeping the transposition table `tt`, with
/// `options`. With no legal rectangle the answer is a pass at depth 0 with no nodes. Otherwise
/// the root moves are ordered (see `root_moves`); with at most five of them an 8-ply search is
/// tried first and answered if it finishes in time; then depths 1 to 12 are searched, each
/// within an aspiration window around the previous score after the first, and the best move of
/// the deepest iteration that finished in time is kept (see `deepening_step`). The table ends
/// at the next generation, its entries still sound for boards keyed like `board` (see
/// `tt_sound`). What the clock says decides which iterations finish; whatever it says, the
/// answer is a legal rectangle, a pass allowed by the pass rule, or a move read back from the
/// table that is fit for a position whose key leads to the same entry (see `search_answer_ok`).
pub fn search_best_move_report_with(
    tt: &mut TranspositionTable,
    board: &Board,
    time_budget_ms: i32,
    is_first: bool,
    options: &SearchOptions,
) -> (report: SearchReport)
    requires
        old(tt).wf(),
        tt_bounded(old(tt)),
        board.ready(),
        board.player != i8::MIN,
        0 <= board.consecutive_passes,
        options.wf(),
    ensures
        final(tt).ready(),
        tt_bounded(final(tt)),
        final(tt).age == old(tt).age.wrapping_add(1),
        0 <= report.completed_depth <= MAX_DEPTH,
        (forall|m: Move| !legal_move(board.values, m)) ==> {
            &&& report.best_move == pass_move()
            &&& report.completed_depth == 0
            &&& report.nodes == 0
            &&& report.elapsed_ms == 0
        },
        (exists|m: Move| legal_move(board.values, m)) ==> search_answer_ok(
            *board,
            report.best_move,
            options.pass_mode,
            options.pass_fix,
            options.weights.side(is_first),
            *old(tt),
        ),
{
    crate::search::tt::ensure_tt_ready(tt);
    crate::search::tt::advance_tt_age(tt);
    let ghost base = *tt;
    proof {
        assert forall|i: int| 0 <= i < tt.buckets@.len() implies entry_bounded((#[trigger] tt.buckets@[i]).slot0)
            && entry_bounded(tt.buckets@[i].slot1) by {
            if old(tt).buckets@.len() == crate::search::tt::TT_SIZE {
                assert(tt.buckets@[i] == old(tt).buckets@[i]);
            } else {
                assert(tt.buckets@[i] == crate::search::tt::TTBucket::spec_empty());
            }
        }
        assert forall|i: int| 0 <= i < TT_SIZE implies (old(tt).ready() && #[trigger] base.buckets@[i]
            == old(tt).buckets@[i]) || base.buckets@[i] == TTBucket::spec_empty() by {
            if old(tt).buckets@.len() == crate::search::tt::TT_SIZE {
                assert(tt.buckets@[i] == old(tt).buckets@[i]);
            } else {
                assert(tt.buckets@[i] == crate::search::tt::TTBucket::spec_empty());
            }
        }
        assert(base_of(base, *old(tt)));
    }
    let budget = search_budget(time_budget_ms);
    let mut work_board = *board;
    let mut moves = root_moves(&mut work_board, is_first, options);
    if moves.len() == 0 {
        return SearchReport { best_move: Move::pass(), completed_depth: 0, nodes: 0, elapsed_ms: 0 };
    }
    proof {
        lemma_live_count_bounds(board.values, 170);
    }
    let mut best_move = moves[0];
    assert(legal_move(board.values, moves@[0]));
    let search_start = instant_now();
    let mut completed_depth: i32 = 0;
    let mut table = TranspositionTable::new();
    std::mem::swap(&mut table, tt);
    let mut ctx = SearchCtx {
        start: search_start,
        budget_ms: budget,
        is_first,
        weights: options.weights.pick(is_first),
        killer_history_on: options.killer_history_on,
        nullmove_on: options.nullmove_on,
        pass_mode: options.pass_mode,
        pass_fix: options.pass_fix,
        prior: options.prior,
        killers: [[0u32; 2]; 64],
        history: [[0i32; COLS]; ROWS],
        nullmove_ok: true,
        nodes: 0,
        tt: table,
        root: Ghost(*board),
        base: Ghost(base),
    };
    proof {
        lemma_reach_self(*board);
        let pm = ctx.pass_mode;
        let pf = ctx.pass_fix;
        let w = ctx.weights;
        assert forall|i: int| 0 <= i < ctx.tt.buckets@.len() implies entry_sound(
            (#[trigger] ctx.tt.buckets@[i]).slot0,
            i,
            *board,
            base,
            pm,
            pf,
            w,
        ) && entry_sound(ctx.tt.buckets@[i].slot1, i, *board, base, pm, pf, w) by {
            assert(ctx.tt.buckets@[i] == base.buckets@[i]);
        }
    }
    if moves.len() <= 5 {
        let mut endgame_best = best_move;
        let ghost t8 = ctx.tt;
        alpha_beta(&mut work_board, 8, -999999, 999999, &mut ctx, &mut endgame_best);
        proof {
            lemma_answer_kept(*board, t8, base, *old(tt), best_move, 8, -999999i32, 999999i32, ctx.pass_mode, ctx.pass_fix, ctx.weights, endgame_best);
        }
        if !ctx.timed_out() {
            let report = SearchReport {
                best_move: endgame_best,
                completed_depth: 8,
                nodes: ctx.nodes,
                elapsed_ms: millis_since(&search_start),
            };
            std::mem::swap(&mut ctx.tt, tt);
            return report;
        }
        best_move = endgame_best;
    }
    ctx.killers = [[0u32; 2]; 64];
    ctx.history = [[0i32; COLS]; ROWS];
    ctx.nullmove_ok = true;
    let mut prev_score: i32 = 0;
    let mut first_iteration = true;
    let mut depth: i32 = 1;
    while depth <= MAX_DEPTH
        invariant
            work_board == *board,
            board.ready(),
            board.player != i8::MIN,
            0 <= board.consecutive_passes,
            0 <= live_count(board.values, 170) <= 170,
            ctx.inv(),
            ctx.root@ == *board,
            reachable(*board, *board),
            ctx.base@ == base,
            base_of(base, *old(tt)),
            ctx.tt.age == old(tt).age.wrapping_add(1),
            options.wf(),
            1 <= depth <= MAX_DEPTH + 1,
            0 <= completed_depth <= depth,
            completed_depth <= MAX_DEPTH,
            -SCORE_LIMIT <= prev_score <= SCORE_LIMIT,
            budget >= 1,
            ctx.pass_mode == options.pass_mode,
            ctx.pass_fix == options.pass_fix,
            ctx.weights == options.weights.side(is_first),
            search_answer_ok(*board, best_move, options.pass_mode, options.pass_fix, options.weights.side(is_first), *old(tt)),
        ensures
            ctx.inv(),
            ctx.tt.age == old(tt).age.wrapping_add(1),
            0 <= completed_depth <= MAX_DEPTH,
            search_answer_ok(*board, best_move, options.pass_mode, options.pass_fix, options.weights.side(is_first), *old(tt)),
        decreases MAX_DEPTH + 1 - depth,
    {
        let depth_start_ms = ctx.elapsed_ms();
        let mut depth_best = best_move;
        let score;
        if first_iteration || options.asp_window == 0 {
            let ghost before = depth_best;
            let ghost t1 = ctx.tt;
            score = alpha_beta(&mut work_board, depth, -999999, 999999, &mut ctx, &mut depth_best).0;
            proof {
                lemma_answer_kept(*board, t1, base, *old(tt), before, depth, -999999i32, 999999i32, ctx.pass_mode, ctx.pass_fix, ctx.weights, depth_best);
            }
            first_iteration = false;
        } else {
            let w = window_width(options.asp_window, prev_score);
            let a = prev_score - w;
            let b_val = prev_score + w;
            let ghost before = depth_best;
            let ghost t1 = ctx.tt;
            let s = alpha_beta(&mut work_board, depth, a, b_val, &mut ctx, &mut depth_best).0;
            proof {
                lemma_answer_kept(*board, t1, base, *old(tt), before, depth, a, b_val, ctx.pass_mode, ctx.pass_fix, ctx.weights, depth_best);
            }
            if s <= a || s >= b_val {
                let ghost again = depth_best;
                let ghost t2 = ctx.tt;
                score = alpha_beta(&mut work_board, depth, -999999, 999999, &mut ctx, &mut depth_best).0;
                proof {
                    lemma_answer_kept(*board, t2, base, *old(tt), again, depth, -999999i32, 999999i32, ctx.pass_mode, ctx.pass_fix, ctx.weights, depth_best);
                }
            } else {
                score = s;
            }
        }
        let spent_after = ctx.timed_out();
        let depth_elapsed = ctx.elapsed_ms().wrapping_sub(depth_start_ms);
        let spent_now = ctx.timed_out();
        let (kept, stop) = deepening_step(
            Deepening { best_move, prev_score, completed_depth },
            depth,
            depth_best,
            score,
            spent_after,
            spent_now,
            depth_elapsed,
            budget,
        );
        best_move = kept.best_move;
        prev_score = kept.prev_score;
        completed_depth = kept.completed_depth;
        if stop {
            break;
        }
        depth += 1;
    }
    let report = SearchReport {
        best_move,
        completed_depth,
        nodes: ctx.nodes,
        elapsed_ms: millis_since(&search_start),
    };
    std::mem::swap(&mut ctx.tt, tt);
    report
}

/// Searches `board` with the default settings and a fresh transposition table (see
/// `search_best_move_report_with`).
pub fn search_best_move_report(board: &Board, time_budget_ms: i32, is_first: bool) -> (report: SearchReport)
    requires
        board.ready(),
        board.player != i8::MIN,
        0 <= board.consecutive_passes,
    ensures
        0 <= report.completed_depth <= MAX_DEPTH,
        (forall|m: Move| !legal_move(board.values, m)) ==> {
            &&& report.best_move == pass_move()
            &&& report.completed_depth == 0
            &&& report.nodes == 0
            &&& report.elapsed_ms == 0
        },
        (exists|m: Move| legal_move(board.values, m)) ==> fresh_answer_ok(
            *board,
            report.best_move,
            0,
            0,
            EvalWeightSet::spec_defaults().side(is_first),
        ),
{
    let mut tt = TranspositionTable::new();
    let options = SearchOptions::defaults();
    search_best_move_report_with(&mut tt, board, time_budget_ms, is_first, &options)
}

/// The move of a search with the default settings and a fresh table (see
/// `search_best_move_report`): what that report's move is said to be holds of it.
pub fn search_best_move(board: &Board, time_budget_ms: i32, is_first: bool) -> (m: Move)
    requires
        board.ready(),
        board.player != i8::MIN,
        0 <= board.consecutive_passes,
    ensures
        (forall|mv: Move| !legal_move(board.values, mv)) ==> m == pass_move(),
        (exists|mv: Move| legal_move(board.values, mv)) ==> fresh_answer_ok(
            *board,
            m,
            0,
            0,
            EvalWeightSet::spec_defaults().side(is_first),
        ),
{
    search_best_move_report(board, time_budget_ms, is_first).best_move
}

} // verus!
