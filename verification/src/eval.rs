use vstd::prelude::*;

use crate::board::{
    Board, move_ok, spec_applied, lemma_total_bounds, cells, lemma_applied_unique, cache_consistent, cache_field,
    owners_swapped, lemma_total_swapped,
};
use crate::types::{Move, FIRST_PLAYER, SECOND_PLAYER, spec_opponent};

verus! {

/// Magnitude of a weight.
pub open spec fn weight_size(x: i32) -> int {
    if x < 0 {
        -(x as int)
    } else {
        x as int
    }
}

/// Magnitude of a weight (see `weight_size`).
fn weight_magnitude(x: i32) -> (m: i64)
    ensures
        m == weight_size(x),
{
    let y = x as i64;
    if y < 0 {
        -y
    } else {
        y
    }
}

/// Weights of the evaluation terms.
#[derive(Clone, Copy, Debug, PartialEq, Eq, Structural)]
pub struct EvalWeights {
    pub territory: i32,
    pub mobility: i32,
    pub connectivity: i32,
    pub corners: i32,
    pub edges: i32,
    pub recapture: i32,
    pub vulnerability: i32,
}

/// Weights for the side that moves first and for the side that moves second.
#[derive(Clone, Copy, Debug, PartialEq, Eq, Structural)]
pub struct EvalWeightSet {
    pub first: EvalWeights,
    pub second: EvalWeights,
}

impl EvalWeights {
    /// Every weight lies within a million of 0 (so that evaluation cannot overflow).
    pub open spec fn bounded(self) -> bool {
        &&& -1000000 <= self.territory <= 1000000
        &&& -1000000 <= self.mobility <= 1000000
        &&& -1000000 <= self.connectivity <= 1000000
        &&& -1000000 <= self.corners <= 1000000
        &&& -1000000 <= self.edges <= 1000000
        &&& -1000000 <= self.recapture <= 1000000
        &&& -1000000 <= self.vulnerability <= 1000000
    }

    /// Sum of the magnitudes of the six weights that the evaluation multiplies by a count.
    pub open spec fn counted_size(self) -> int {
        weight_size(self.territory) + weight_size(self.connectivity) + weight_size(self.corners)
            + weight_size(self.edges) + weight_size(self.recapture) + weight_size(self.vulnerability)
    }

    /// An evaluation stays within a million of 0, the range of scores the search works in, on
    /// every board: each count it multiplies lies within 340 of 0, so 340 times the sum of the
    /// magnitudes of those weights is at most a million. The mobility weight, which multiplies
    /// nothing, stays bounded as `evaluate_with` asks.
    pub open spec fn fits_search(self) -> bool {
        &&& 340 * self.counted_size() <= 1000000
        &&& -1000000 <= self.mobility <= 1000000
    }

    /// The sum of the magnitudes of the counted weights (see `counted_size`).
    pub fn counted_size_of(&self) -> (n: i64)
        ensures
            n == self.counted_size(),
    {
        weight_magnitude(self.territory) + weight_magnitude(self.connectivity) + weight_magnitude(self.corners)
            + weight_magnitude(self.edges) + weight_magnitude(self.recapture) + weight_magnitude(
            self.vulnerability,
        )
    }

    /// Seven weights in the order territory, mobility, connectivity, corners, edges,
    /// recapture, vulnerability, read from `nums` at `start`.
    pub open spec fn spec_from_slice(nums: Seq<i32>, start: int) -> EvalWeights {
        EvalWeights {
            territory: nums[start],
            mobility: nums[start + 1],
            connectivity: nums[start + 2],
            corners: nums[start + 3],
            edges: nums[start + 4],
            recapture: nums[start + 5],
            vulnerability: nums[start + 6],
        }
    }

    /// Seven weights read from `nums` at `start`.
    pub fn from_slice(nums: &Vec<i32>, start: usize) -> (w: EvalWeights)
        requires
            start + 7 <= nums.len(),
        ensures
            w == Self::spec_from_slice(nums@, start as int),
    {
        EvalWeights {
            territory: nums[start],
            mobility: nums[start + 1],
            connectivity: nums[start + 2],
            corners: nums[start + 3],
            edges: nums[start + 4],
            recapture: nums[start + 5],
            vulnerability: nums[start + 6],
        }
    }
}

impl EvalWeightSet {
    /// The weights of the first side, or of the second.
    pub open spec fn side(self, is_first: bool) -> EvalWeights {
        if is_first {
            self.first
        } else {
            self.second
        }
    }

    /// The weights of the first side, or of the second (see `side`).
    pub fn pick(&self, is_first: bool) -> (w: EvalWeights)
        ensures
            w == self.side(is_first),
    {
        if is_first {
            self.first
        } else {
            self.second
        }
    }

    /// The built-in weights.
    pub open spec fn spec_defaults() -> EvalWeightSet {
        EvalWeightSet {
            first: EvalWeights {
                territory: 74i32,
                mobility: -42i32,
                connectivity: 93i32,
                corners: 80i32,
                edges: 40i32,
                recapture: 101i32,
                vulnerability: 83i32,
            },
            second: EvalWeights {
                territory: 140i32,
                mobility: 16i32,
                connectivity: 28i32,
                corners: 20i32,
                edges: 6i32,
                recapture: 28i32,
                vulnerability: 18i32,
            },
        }
    }

    /// The built-in weights.
    pub fn defaults() -> (ws: EvalWeightSet)
        ensures
            ws == Self::spec_defaults(),
            ws.first.bounded(),
            ws.second.bounded(),
    {
        EvalWeightSet {
            first: EvalWeights {
                territory: 74,
                mobility: -42,
                connectivity: 93,
                corners: 80,
                edges: 40,
                recapture: 101,
                vulnerability: 83,
            },
            second: EvalWeights {
                territory: 140,
                mobility: 16,
                connectivity: 28,
                corners: 20,
                edges: 6,
                recapture: 28,
                vulnerability: 18,
            },
        }
    }

    /// Weights from a list of numbers: 14 or more give the first side's seven and then the
    /// second side's seven; 7 to 13 give seven weights shared by both sides; fewer give the
    /// built-in weights.
    pub open spec fn spec_from_numbers(nums: Seq<i32>) -> EvalWeightSet {
        if nums.len() >= 14 {
            EvalWeightSet {
                first: EvalWeights::spec_from_slice(nums, 0),
                second: EvalWeights::spec_from_slice(nums, 7),
            }
        } else if nums.len() >= 7 {
            EvalWeightSet {
                first: EvalWeights::spec_from_slice(nums, 0),
                second: EvalWeights::spec_from_slice(nums, 0),
            }
        } else {
            Self::spec_defaults()
        }
    }

    /// Weights from a list of numbers (see `spec_from_numbers`).
    pub fn from_numbers(nums: &Vec<i32>) -> (ws: EvalWeightSet)
        ensures
            ws == Self::spec_from_numbers(nums@),
    {
        if nums.len() >= 14 {
            return EvalWeightSet {
                first: EvalWeights::from_slice(nums, 0),
                second: EvalWeights::from_slice(nums, 7),
            };
        }
        if nums.len() >= 7 {
            let shared = EvalWeights::from_slice(nums, 0);
            return EvalWeightSet { first: shared, second: shared };
        }
        Self::defaults()
    }

    /// The weights of the first side, or of the second.
    pub open spec fn spec_pick(self, is_first: bool) -> EvalWeights {
        if is_first {
            self.first
        } else {
            self.second
        }
    }

    /// Both sides' weights fit the search's range (see `EvalWeights::fits_search`).
    pub open spec fn fits_search(self) -> bool {
        self.first.fits_search() && self.second.fits_search()
    }

    /// Whether both sides' weights fit the search's range (see `fits_search`).
    pub fn check_fits_search(&self) -> (b: bool)
        ensures
            b == self.fits_search(),
    {
        let f = &self.first;
        let s = &self.second;
        let nf = f.counted_size_of();
        let ns = s.counted_size_of();
        nf <= 1000000 / 340 && -1000000 <= f.mobility && f.mobility <= 1000000 && ns <= 1000000 / 340
            && -1000000 <= s.mobility && s.mobility <= 1000000
    }

    /// Both sides' weights are bounded.
    pub open spec fn bounded(self) -> bool {
        self.first.bounded() && self.second.bounded()
    }

    /// Whether both sides' weights are bounded.
    pub fn is_bounded(&self) -> (b: bool)
        ensures
            b == self.bounded(),
    {
        let f = &self.first;
        let s = &self.second;
        -1000000 <= f.territory && f.territory <= 1000000 && -1000000 <= f.mobility && f.mobility
            <= 1000000 && -1000000 <= f.connectivity && f.connectivity <= 1000000 && -1000000
            <= f.corners && f.corners <= 1000000 && -1000000 <= f.edges && f.edges <= 1000000
            && -1000000 <= f.recapture && f.recapture <= 1000000 && -1000000 <= f.vulnerability
            && f.vulnerability <= 1000000 && -1000000 <= s.territory && s.territory <= 1000000
            && -1000000 <= s.mobility && s.mobility <= 1000000 && -1000000 <= s.connectivity
            && s.connectivity <= 1000000 && -1000000 <= s.corners && s.corners <= 1000000
            && -1000000 <= s.edges && s.edges <= 1000000 && -1000000 <= s.recapture && s.recapture
            <= 1000000 && -1000000 <= s.vulnerability && s.vulnerability <= 1000000
    }
}

/// The evaluation of a board for its side to move, with weights `w`: the differences (own minus
/// other) of owned cells, connected pairs, corners and edge cells, plus the other side's cells
/// next to a mushroom (recapture chances), minus the own cells next to a mushroom
/// (vulnerability), each times its weight; the mobility term is 0.
pub open spec fn spec_evaluate(b: Board, w: EvalWeights) -> int {
    let e = b.eval_cache;
    let mine_first = b.player == FIRST_PLAYER;
    let territory = if mine_first {
        e.owned_first - e.owned_second
    } else {
        e.owned_second - e.owned_first
    };
    let connectivity = if mine_first {
        e.connectivity_first - e.connectivity_second
    } else {
        e.connectivity_second - e.connectivity_first
    };
    let corners = if mine_first {
        e.corners_first - e.corners_second
    } else {
        e.corners_second - e.corners_first
    };
    let edges = if mine_first {
        e.edges_first - e.edges_second
    } else {
        e.edges_second - e.edges_first
    };
    let recapture = if spec_opponent(b.player) == 1 {
        e.live_adjacent_first as int
    } else {
        e.live_adjacent_second as int
    };
    let vulnerability = if mine_first {
        e.live_adjacent_first as int
    } else {
        e.live_adjacent_second as int
    };
    territory * w.territory + 0 * w.mobility + connectivity * w.connectivity + corners * w.corners
        + edges * w.edges + recapture * w.recapture - vulnerability * w.vulnerability
}

/// A count difference within 340 of 0 times a weight is within 340 times the weight's
/// magnitude of 0.
proof fn lemma_term_fits(x: int, w: int)
    by (nonlinear_arith)
    requires
        -340 <= x <= 340,
    ensures
        -340 * (if w < 0 { -w } else { w }) <= x * w <= 340 * (if w < 0 { -w } else { w }),
{
}

/// With weights that fit the search (see `EvalWeights::fits_search`), an evaluation stays
/// within a million of 0.
pub proof fn lemma_evaluate_fits(b: Board, w: EvalWeights)
    requires
        b.ready(),
        w.fits_search(),
    ensures
        -1000000 <= spec_evaluate(b, w) <= 1000000,
{
    assert forall|k: int| 0 <= k < 10 implies 0 <= #[trigger] crate::board::cache_field(b.eval_cache, k) <= 340 by {
        lemma_total_bounds(cells(b), k, 170);
    }
    let e = b.eval_cache;
    assert(0 <= crate::board::cache_field(e, 0) <= 340);
    assert(0 <= crate::board::cache_field(e, 1) <= 340);
    assert(0 <= crate::board::cache_field(e, 2) <= 340);
    assert(0 <= crate::board::cache_field(e, 3) <= 340);
    assert(0 <= crate::board::cache_field(e, 4) <= 340);
    assert(0 <= crate::board::cache_field(e, 5) <= 340);
    assert(0 <= crate::board::cache_field(e, 6) <= 340);
    assert(0 <= crate::board::cache_field(e, 7) <= 340);
    assert(0 <= crate::board::cache_field(e, 8) <= 340);
    assert(0 <= crate::board::cache_field(e, 9) <= 340);
    let mine_first = b.player == FIRST_PLAYER;
    let territory = if mine_first {
        e.owned_first - e.owned_second
    } else {
        e.owned_second - e.owned_first
    };
    let connectivity = if mine_first {
        e.connectivity_first - e.connectivity_second
    } else {
        e.connectivity_second - e.connectivity_first
    };
    let corners = if mine_first {
        e.corners_first - e.corners_second
    } else {
        e.corners_second - e.corners_first
    };
    let edges = if mine_first {
        e.edges_first - e.edges_second
    } else {
        e.edges_second - e.edges_first
    };
    let recapture = if spec_opponent(b.player) == 1 {
        e.live_adjacent_first as int
    } else {
        e.live_adjacent_second as int
    };
    let vulnerability = if mine_first {
        e.live_adjacent_first as int
    } else {
        e.live_adjacent_second as int
    };
    lemma_term_fits(territory, w.territory as int);
    lemma_term_fits(connectivity, w.connectivity as int);
    lemma_term_fits(corners, w.corners as int);
    lemma_term_fits(edges, w.edges as int);
    lemma_term_fits(recapture, w.recapture as int);
    lemma_term_fits(vulnerability, w.vulnerability as int);
}

/// The evaluation depends only on the position as the side to move sees it: with every owner
/// and the side to move swapped (the values kept, the caches each counting their own board),
/// the score is the same.
pub proof fn lemma_evaluate_side_agnostic(b: Board, b2: Board, w: EvalWeights)
    requires
        cache_consistent(b),
        cache_consistent(b2),
        b.player == FIRST_PLAYER || b.player == SECOND_PLAYER,
        b2.player == -b.player,
        owners_swapped(cells(b), cells(b2)),
    ensures
        spec_evaluate(b2, w) == spec_evaluate(b, w),
{
    assert forall|k: int| 0 <= k < 10 implies #[trigger] cache_field(b2.eval_cache, k) == cache_field(
        b.eval_cache,
        if k % 2 == 0 {
            k + 1
        } else {
            k - 1
        },
    ) by {
        lemma_total_swapped(cells(b), cells(b2), k, 170);
    }
    assert(cache_field(b2.eval_cache, 0) == cache_field(b.eval_cache, 1));
    assert(cache_field(b2.eval_cache, 1) == cache_field(b.eval_cache, 0));
    assert(cache_field(b2.eval_cache, 2) == cache_field(b.eval_cache, 3));
    assert(cache_field(b2.eval_cache, 3) == cache_field(b.eval_cache, 2));
    assert(cache_field(b2.eval_cache, 4) == cache_field(b.eval_cache, 5));
    assert(cache_field(b2.eval_cache, 5) == cache_field(b.eval_cache, 4));
    assert(cache_field(b2.eval_cache, 6) == cache_field(b.eval_cache, 7));
    assert(cache_field(b2.eval_cache, 7) == cache_field(b.eval_cache, 6));
    assert(cache_field(b2.eval_cache, 8) == cache_field(b.eval_cache, 9));
    assert(cache_field(b2.eval_cache, 9) == cache_field(b.eval_cache, 8));
}

/// Evaluates `board` for its side to move with weights `w`.
pub fn evaluate_with(board: &Board, w: &EvalWeights) -> (score: i32)
    requires
        board.ready(),
        board.player != i8::MIN,
        w.bounded(),
    ensures
        score == spec_evaluate(*board, *w),
{
    proof {
        assert forall|k: int| 0 <= k < 10 implies 0 <= #[trigger] crate::board::cache_field(
            board.eval_cache,
            k,
        ) <= 340 by {
            lemma_total_bounds(cells(*board), k, 170);
        }
        assert(0 <= crate::board::cache_field(board.eval_cache, 0) <= 340);
        assert(0 <= board.eval_cache.owned_first <= 340);
        assert(0 <= crate::board::cache_field(board.eval_cache, 1) <= 340);
        assert(0 <= board.eval_cache.owned_second <= 340);
        assert(0 <= crate::board::cache_field(board.eval_cache, 2) <= 340);
        assert(0 <= board.eval_cache.connectivity_first <= 340);
        assert(0 <= crate::board::cache_field(board.eval_cache, 3) <= 340);
        assert(0 <= board.eval_cache.connectivity_second <= 340);
        assert(0 <= crate::board::cache_field(board.eval_cache, 4) <= 340);
        assert(0 <= board.eval_cache.corners_first <= 340);
        assert(0 <= crate::board::cache_field(board.eval_cache, 5) <= 340);
        assert(0 <= board.eval_cache.corners_second <= 340);
        assert(0 <= crate::board::cache_field(board.eval_cache, 6) <= 340);
        assert(0 <= board.eval_cache.edges_first <= 340);
        assert(0 <= crate::board::cache_field(board.eval_cache, 7) <= 340);
        assert(0 <= board.eval_cache.edges_second <= 340);
        assert(0 <= crate::board::cache_field(board.eval_cache, 8) <= 340);
        assert(0 <= board.eval_cache.live_adjacent_first <= 340);
        assert(0 <= crate::board::cache_field(board.eval_cache, 9) <= 340);
        assert(0 <= board.eval_cache.live_adjacent_second <= 340);
    }
    let player = board.player;
    let opp = -player;
    let cache = &board.eval_cache;

    let territory = if player == FIRST_PLAYER {
        cache.owned_first - cache.owned_second
    } else {
        cache.owned_second - cache.owned_first
    };
    let mobility_score = 0i32;
    let connectivity = if player == FIRST_PLAYER {
        cache.connectivity_first - cache.connectivity_second
    } else {
        cache.connectivity_second - cache.connectivity_first
    };
    let corners = if player == FIRST_PLAYER {
        cache.corners_first - cache.corners_second
    } else {
        cache.corners_second - cache.corners_first
    };
    let edges = if player == FIRST_PLAYER {
        cache.edges_first - cache.edges_second
    } else {
        cache.edges_second - cache.edges_first
    };
    let recapture_swing = if opp == FIRST_PLAYER {
        cache.live_adjacent_first
    } else {
        cache.live_adjacent_second
    };
    let vulnerability = if player == FIRST_PLAYER {
        cache.live_adjacent_first
    } else {
        cache.live_adjacent_second
    };
    proof {
        assert(-340000000 <= territory * w.territory <= 340000000) by (nonlinear_arith)
            requires
                -340 <= territory <= 340,
                -1000000 <= w.territory <= 1000000,
        ;
        assert(-340000000 <= connectivity * w.connectivity <= 340000000) by (nonlinear_arith)
            requires
                -340 <= connectivity <= 340,
                -1000000 <= w.connectivity <= 1000000,
        ;
        assert(-340000000 <= corners * w.corners <= 340000000) by (nonlinear_arith)
            requires
                -340 <= corners <= 340,
                -1000000 <= w.corners <= 1000000,
        ;
        assert(-340000000 <= edges * w.edges <= 340000000) by (nonlinear_arith)
            requires
                -340 <= edges <= 340,
                -1000000 <= w.edges <= 1000000,
        ;
        assert(-340000000 <= recapture_swing * w.recapture <= 340000000) by (nonlinear_arith)
            requires
                -340 <= recapture_swing <= 340,
                -1000000 <= w.recapture <= 1000000,
        ;
        assert(-340000000 <= vulnerability * w.vulnerability <= 340000000) by (nonlinear_arith)
            requires
                -340 <= vulnerability <= 340,
                -1000000 <= w.vulnerability <= 1000000,
        ;
    }
    territory * w.territory + mobility_score * w.mobility + connectivity * w.connectivity + corners
        * w.corners + edges * w.edges + recapture_swing * w.recapture - vulnerability * w.vulnerability
}

/// Evaluates `board` for its side to move with the built-in weights of the first side
/// (`is_first`) or of the second.
pub fn evaluate(board: &Board, is_first: bool) -> (score: i32)
    requires
        board.ready(),
        board.player != i8::MIN,
    ensures
        score == spec_evaluate(*board, EvalWeightSet::spec_defaults().spec_pick(is_first)),
{
    let weights = EvalWeightSet::defaults();
    let w = if is_first {
        weights.first
    } else {
        weights.second
    };
    evaluate_with(board, &w)
}

/// The evaluation of the position after `mv`, for the side to move then.
pub fn score_move(board: &Board, mv: &Move, is_first: bool) -> (score: i32)
    requires
        board.ready(),
        move_ok(*board, *mv),
        board.player != i8::MIN,
    ensures
        forall|b1: Board|
            spec_applied(*board, b1, *mv) ==> score == spec_evaluate(
                b1,
                EvalWeightSet::spec_defaults().spec_pick(is_first),
            ),
{
    let mut copy = *board;
    if mv.is_pass() {
        copy.apply_pass();
    } else {
        copy.apply_move(mv);
    }
    let score = evaluate(&copy, is_first);
    proof {
        assert forall|b1: Board| spec_applied(*board, b1, *mv) implies score == spec_evaluate(
            b1,
            EvalWeightSet::spec_defaults().spec_pick(is_first),
        ) by {
            lemma_applied_unique(*board, copy, b1, *mv);
        }
    }
    score
}

} // verus!
