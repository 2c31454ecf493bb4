use vstd::prelude::*;

use crate::types::{Move, ValueGrid, COLS, ROWS};

verus! {

/// Prefix sums: entry `(r, c)` holds the sum of the top-left `r` by `c` block.
pub type PrefixSum = [[i32; 18]; 11];

/// The value of a cell as it counts toward a sum: negative values count as 0.
pub open spec fn pos(v: i8) -> int {
    if v > 0 {
        v as int
    } else {
        0
    }
}

/// Sum of row `r` from column `c1` to column `c2` (0 when `c2 < c1`).
pub open spec fn row_sum(g: ValueGrid, r: int, c1: int, c2: int) -> int
    decreases c2 - c1 + 1,
{
    if c2 < c1 {
        0
    } else {
        row_sum(g, r, c1, c2 - 1) + pos(g@[r]@[c2])
    }
}

/// Sum of the rectangle `(r1, c1)`-`(r2, c2)` (0 when it is empty).
pub open spec fn rect_sum(g: ValueGrid, r1: int, c1: int, r2: int, c2: int) -> int
    decreases r2 - r1 + 1,
{
    if r2 < r1 {
        0
    } else {
        rect_sum(g, r1, c1, r2 - 1, c2) + row_sum(g, r2, c1, c2)
    }
}

/// Sum of the top-left `r` by `c` block.
pub open spec fn block(g: ValueGrid, r: int, c: int) -> int {
    rect_sum(g, 0, 0, r - 1, c - 1)
}

/// Some cell of row `r` between columns `c1` and `c2` holds a mushroom.
pub open spec fn row_live(g: ValueGrid, r: int, c1: int, c2: int) -> bool {
    exists|c: int| c1 <= c <= c2 && #[trigger] g@[r]@[c] > 0
}

/// Some cell of column `c` between rows `r1` and `r2` holds a mushroom.
pub open spec fn col_live(g: ValueGrid, c: int, r1: int, r2: int) -> bool {
    exists|r: int| r1 <= r <= r2 && #[trigger] g@[r]@[c] > 0
}

/// Each of the four sides of the rectangle touches a mushroom.
pub open spec fn inscribed(g: ValueGrid, r1: int, c1: int, r2: int, c2: int) -> bool {
    row_live(g, r1, c1, c2) && row_live(g, r2, c1, c2) && col_live(g, c1, r1, r2) && col_live(
        g,
        c2,
        r1,
        r2,
    )
}

/// A legal rectangle: on the board, its mushrooms sum to exactly 10, and every side touches
/// a mushroom.
pub open spec fn legal_rect(g: ValueGrid, r1: int, c1: int, r2: int, c2: int) -> bool {
    &&& 0 <= r1 <= r2 < 10
    &&& 0 <= c1 <= c2 < 17
    &&& rect_sum(g, r1, c1, r2, c2) == 10
    &&& inscribed(g, r1, c1, r2, c2)
}

/// The rectangle of a move is legal on `g`.
pub open spec fn legal_move(g: ValueGrid, m: Move) -> bool {
    legal_rect(g, m.r1 as int, m.c1 as int, m.r2 as int, m.c2 as int)
}

/// `(a1, a2, a3, a4)` comes before `(b1, b2, b3, b4)` in lexicographic order.
pub open spec fn lex_lt(a1: int, a2: int, a3: int, a4: int, b1: int, b2: int, b3: int, b4: int) -> bool {
    a1 < b1 || (a1 == b1 && (a2 < b2 || (a2 == b2 && (a3 < b3 || (a3 == b3 && a4 < b4)))))
}

/// Move `a` comes before move `b` in the order (r1, r2, c1, c2).
pub open spec fn move_before(a: Move, b: Move) -> bool {
    lex_lt(
        a.r1 as int,
        a.r2 as int,
        a.c1 as int,
        a.c2 as int,
        b.r1 as int,
        b.r2 as int,
        b.c1 as int,
        b.c2 as int,
    )
}

/// `moves` lists, in the order (r1, r2, c1, c2) and each once, exactly the legal rectangles of
/// `g`, all with priority 0.
pub open spec fn all_legal_in_order(g: ValueGrid, moves: Seq<Move>) -> bool {
    &&& legal_rects_in_order(g, moves)
    &&& forall|i: int| 0 <= i < moves.len() ==> (#[trigger] moves[i]).priority == 0
}

/// `moves` lists, in the order (r1, r2, c1, c2) and each once, exactly the legal rectangles of
/// `g` (whatever their priorities).
pub open spec fn legal_rects_in_order(g: ValueGrid, moves: Seq<Move>) -> bool {
    &&& forall|i: int| 0 <= i < moves.len() ==> legal_move(g, #[trigger] moves[i])
    &&& forall|i: int, j: int| 0 <= i < j < moves.len() ==> move_before(#[trigger] moves[i], #[trigger] moves[j])
    &&& forall|r1: int, c1: int, r2: int, c2: int|
        #![trigger legal_rect(g, r1, c1, r2, c2)]
        legal_rect(g, r1, c1, r2, c2) ==> exists|i: int|
            0 <= i < moves.len() && moves[i].r1 == r1 && moves[i].c1 == c1 && moves[i].r2 == r2
                && #[trigger] moves[i].c2 == c2
}

// ---------------------------------------------------------------------------
// Lemmas on sums.
// ---------------------------------------------------------------------------
/// Sums are never negative.
pub proof fn lemma_row_sum_bounds(g: ValueGrid, r: int, c1: int, c2: int)
    ensures
        0 <= row_sum(g, r, c1, c2),
        c1 <= c2 + 1 ==> row_sum(g, r, c1, c2) <= 127 * (c2 - c1 + 1),
    decreases c2 - c1 + 1,
{
    if c2 >= c1 {
        lemma_row_sum_bounds(g, r, c1, c2 - 1);
    }
}

/// Sums are never negative, and at most 127 per cell.
pub proof fn lemma_rect_sum_bounds(g: ValueGrid, r1: int, c1: int, r2: int, c2: int)
    requires
        c1 <= c2 + 1,
        0 <= c2 - c1 + 1 <= 17,
    ensures
        0 <= rect_sum(g, r1, c1, r2, c2),
        r1 <= r2 + 1 ==> rect_sum(g, r1, c1, r2, c2) <= 127 * 17 * (r2 - r1 + 1),
    decreases r2 - r1 + 1,
{
    lemma_row_sum_bounds(g, r2, c1, c2);
    assert(127 * (c2 - c1 + 1) <= 127 * 17);
    if r2 >= r1 {
        lemma_rect_sum_bounds(g, r1, c1, r2 - 1, c2);
        assert(127 * 17 * (r2 - 1 - r1 + 1) + 127 * 17 == 127 * 17 * (r2 - r1 + 1));
    }
}

/// A block sum lies between 0 and 21590.
pub proof fn lemma_block_bounds(g: ValueGrid, r: int, c: int)
    requires
        0 <= r <= 10,
        0 <= c <= 17,
    ensures
        0 <= block(g, r, c) <= 21590,
{
    lemma_rect_sum_bounds(g, 0, 0, r - 1, c - 1);
    assert(127 * 17 * (r - 1 - 0 + 1) <= 21590) by (nonlinear_arith)
        requires
            0 <= r <= 10,
    ;
}

/// A rectangle with no columns sums to 0.
pub proof fn lemma_rect_sum_no_cols(g: ValueGrid, r1: int, c1: int, r2: int, c2: int)
    requires
        c2 < c1,
    ensures
        rect_sum(g, r1, c1, r2, c2) == 0,
    decreases r2 - r1 + 1,
{
    if r2 >= r1 {
        lemma_rect_sum_no_cols(g, r1, c1, r2 - 1, c2);
    }
}

/// A row sum splits at column `b`.
pub proof fn lemma_row_split(g: ValueGrid, r: int, a: int, b: int, c: int)
    requires
        a <= b <= c + 1,
    ensures
        row_sum(g, r, a, c) == row_sum(g, r, a, b - 1) + row_sum(g, r, b, c),
    decreases c - a + 1,
{
    if c >= b {
        lemma_row_split(g, r, a, b, c - 1);
    }
}

/// A rectangle sum splits at column `b`.
pub proof fn lemma_rect_col_split(g: ValueGrid, ra: int, rb: int, a: int, b: int, c: int)
    requires
        a <= b <= c + 1,
    ensures
        rect_sum(g, ra, a, rb, c) == rect_sum(g, ra, a, rb, b - 1) + rect_sum(g, ra, b, rb, c),
    decreases rb - ra + 1,
{
    if rb >= ra {
        lemma_rect_col_split(g, ra, rb - 1, a, b, c);
        lemma_row_split(g, rb, a, b, c);
    }
}

/// A rectangle sum splits at row `b`.
pub proof fn lemma_rect_row_split(g: ValueGrid, a: int, b: int, rc: int, c1: int, c2: int)
    requires
        a <= b <= rc + 1,
    ensures
        rect_sum(g, a, c1, rc, c2) == rect_sum(g, a, c1, b - 1, c2) + rect_sum(g, b, c1, rc, c2),
    decreases rc - a + 1,
{
    if rc >= b {
        lemma_rect_row_split(g, a, b, rc - 1, c1, c2);
    }
}

/// A rectangle sum from four block sums (inclusion and exclusion).
pub proof fn lemma_inclusion_exclusion(g: ValueGrid, r1: int, c1: int, r2: int, c2: int)
    requires
        0 <= r1 <= r2 + 1,
        0 <= c1 <= c2 + 1,
    ensures
        rect_sum(g, r1, c1, r2, c2) == block(g, r2 + 1, c2 + 1) - block(g, r1, c2 + 1) - block(
            g,
            r2 + 1,
            c1,
        ) + block(g, r1, c1),
{
    lemma_rect_row_split(g, 0, r1, r2, 0, c2);
    lemma_rect_row_split(g, 0, r1, r2, 0, c1 - 1);
    lemma_rect_col_split(g, r1, r2, 0, c1, c2);
}

/// The cells walked before `(r, c)` (rows `r1..r`, then row `r` up to column `c`) sum to
/// no more than the whole rectangle.
pub proof fn lemma_rect_prefix(g: ValueGrid, r1: int, c1: int, r2: int, c2: int, r: int, c: int)
    requires
        r1 <= r <= r2,
        c1 <= c <= c2,
        c2 - c1 + 1 <= 17,
    ensures
        rect_sum(g, r1, c1, r - 1, c2) + row_sum(g, r, c1, c) <= rect_sum(g, r1, c1, r2, c2),
{
    lemma_rect_row_split(g, r1, r + 1, r2, c1, c2);
    lemma_rect_sum_bounds(g, r + 1, c1, r2, c2);
    lemma_row_split(g, r, c1, c + 1, c2);
    lemma_row_sum_bounds(g, r, c + 1, c2);
}

/// Widening a rectangle to the right never lowers its sum.
pub proof fn lemma_rect_sum_mono(g: ValueGrid, r1: int, c1: int, r2: int, c2: int, c3: int)
    requires
        c1 <= c2 + 1,
        c2 <= c3,
        c3 - c1 + 1 <= 17,
    ensures
        rect_sum(g, r1, c1, r2, c2) <= rect_sum(g, r1, c1, r2, c3),
{
    lemma_rect_col_split(g, r1, r2, c1, c2 + 1, c3);
    lemma_rect_sum_bounds(g, r1, c2 + 1, r2, c3);
}

/// `s` holds a move with the rectangle of `m`.
pub open spec fn holds_rect(s: Seq<Move>, m: Move) -> bool {
    exists|j: int| 0 <= j < s.len() && #[trigger] m.same_coords(s[j])
}

/// Two lists in strictly increasing rectangle order that hold the same rectangles agree
/// position by position.
#[verifier::rlimit(40)]
proof fn lemma_sorted_same_rects(a: Seq<Move>, b: Seq<Move>)
    requires
        forall|i: int, j: int| 0 <= i < j < a.len() ==> move_before(#[trigger] a[i], #[trigger] a[j]),
        forall|i: int, j: int| 0 <= i < j < b.len() ==> move_before(#[trigger] b[i], #[trigger] b[j]),
        forall|i: int| 0 <= i < a.len() ==> holds_rect(b, #[trigger] a[i]),
        forall|j: int| 0 <= j < b.len() ==> holds_rect(a, #[trigger] b[j]),
    ensures
        a.len() == b.len(),
        forall|i: int| 0 <= i < a.len() ==> #[trigger] a[i].same_coords(b[i]),
    decreases a.len(),
{
    if a.len() == 0 {
        if b.len() > 0 {
            assert(holds_rect(a, b[0]));
        }
    } else {
        assert(holds_rect(b, a[0]));
        assert(holds_rect(a, b[0]));
        let j = choose|j: int| 0 <= j < b.len() && a[0].same_coords(b[j]);
        let i = choose|i: int| 0 <= i < a.len() && b[0].same_coords(a[i]);
        if j > 0 {
            assert(move_before(b[0], b[j]));
            if i > 0 {
                assert(move_before(a[0], a[i]));
            }
        }
        assert(j == 0);
        let a2 = a.drop_first();
        let b2 = b.drop_first();
        assert forall|x: int| 0 <= x < a2.len() implies holds_rect(b2, #[trigger] a2[x]) by {
            assert(a2[x] == a[x + 1]);
            assert(holds_rect(b, a[x + 1]));
            let y = choose|y: int| 0 <= y < b.len() && a[x + 1].same_coords(b[y]);
            assert(move_before(a[0], a[x + 1]));
            assert(y != 0);
            assert(a2[x].same_coords(b2[y - 1]));
        }
        assert forall|y: int| 0 <= y < b2.len() implies holds_rect(a2, #[trigger] b2[y]) by {
            assert(b2[y] == b[y + 1]);
            assert(holds_rect(a, b[y + 1]));
            let x = choose|x: int| 0 <= x < a.len() && b[y + 1].same_coords(a[x]);
            assert(move_before(b[0], b[y + 1]));
            assert(x != 0);
            assert(b2[y].same_coords(a2[x - 1]));
        }
        assert forall|x: int, y: int| 0 <= x < y < a2.len() implies move_before(#[trigger] a2[x], #[trigger] a2[y]) by {
            assert(move_before(a[x + 1], a[y + 1]));
        }
        assert forall|x: int, y: int| 0 <= x < y < b2.len() implies move_before(#[trigger] b2[x], #[trigger] b2[y]) by {
            assert(move_before(b[x + 1], b[y + 1]));
        }
        lemma_sorted_same_rects(a2, b2);
        assert forall|x: int| 0 <= x < a.len() implies #[trigger] a[x].same_coords(b[x]) by {
            if x > 0 {
                assert(a2[x - 1].same_coords(b2[x - 1]));
            }
        }
    }
}

/// Two lists of all the legal rectangles of a grid, in order, agree rectangle by rectangle (only
/// priorities may differ): so `Board::legal_moves` and `generate_legal_moves` list the same
/// rectangles.
pub proof fn lemma_legal_lists_agree(g: ValueGrid, a: Seq<Move>, b: Seq<Move>)
    requires
        legal_rects_in_order(g, a),
        legal_rects_in_order(g, b),
    ensures
        a.len() == b.len(),
        forall|i: int| 0 <= i < a.len() ==> #[trigger] a[i].same_coords(b[i]),
{
    assert forall|i: int| 0 <= i < a.len() implies holds_rect(b, #[trigger] a[i]) by {
        let m = a[i];
        assert(legal_move(g, m));
        assert(legal_rect(g, m.r1 as int, m.c1 as int, m.r2 as int, m.c2 as int));
        let j = choose|j: int|
            0 <= j < b.len() && b[j].r1 == m.r1 && b[j].c1 == m.c1 && b[j].r2 == m.r2 && #[trigger] b[j].c2 == m.c2;
        assert(a[i].same_coords(b[j]));
    }
    assert forall|j: int| 0 <= j < b.len() implies holds_rect(a, #[trigger] b[j]) by {
        let m = b[j];
        assert(legal_move(g, m));
        assert(legal_rect(g, m.r1 as int, m.c1 as int, m.r2 as int, m.c2 as int));
        let i = choose|i: int|
            0 <= i < a.len() && a[i].r1 == m.r1 && a[i].c1 == m.c1 && a[i].r2 == m.r2 && #[trigger] a[i].c2 == m.c2;
        assert(b[j].same_coords(a[i]));
    }
    lemma_sorted_same_rects(a, b);
}

/// A list with the same rectangles as a list of all legal rectangles in order is itself one.
pub proof fn lemma_same_rects_in_order(g: ValueGrid, a: Seq<Move>, b: Seq<Move>)
    requires
        legal_rects_in_order(g, a),
        a.len() == b.len(),
        forall|i: int| 0 <= i < a.len() ==> (#[trigger] b[i]).same_coords(a[i]),
    ensures
        legal_rects_in_order(g, b),
{
    assert forall|i: int| 0 <= i < b.len() implies legal_move(g, #[trigger] b[i]) by {
        assert(b[i].same_coords(a[i]));
        assert(legal_move(g, a[i]));
    }
    assert forall|i: int, j: int| 0 <= i < j < b.len() implies move_before(
        #[trigger] b[i],
        #[trigger] b[j],
    ) by {
        assert(b[i].same_coords(a[i]));
        assert(b[j].same_coords(a[j]));
        assert(move_before(a[i], a[j]));
    }
    assert forall|r1: int, c1: int, r2: int, c2: int|
        #![trigger legal_rect(g, r1, c1, r2, c2)]
        legal_rect(g, r1, c1, r2, c2) implies exists|i: int|
            0 <= i < b.len() && b[i].r1 == r1 && b[i].c1 == c1 && b[i].r2 == r2 && #[trigger] b[i].c2
                == c2 by {
        let i = choose|i: int|
            0 <= i < a.len() && a[i].r1 == r1 && a[i].c1 == c1 && a[i].r2 == r2 && #[trigger] a[i].c2
                == c2;
        assert(b[i].same_coords(a[i]));
    }
}

// ---------------------------------------------------------------------------
// Executable code.
// ---------------------------------------------------------------------------
/// Builds the prefix sums of the positive values.
fn build_prefix_sum(values: &ValueGrid) -> (pref: PrefixSum)
    ensures
        forall|x: int, y: int|
            0 <= x <= 10 && 0 <= y <= 17 ==> #[trigger] pref@[x]@[y] == block(*values, x, y),
{
    let mut pref = [[0i32; 18]; 11];
    proof {
        assert forall|x: int| 0 <= x <= 10 implies block(*values, x, 0) == 0 by {
            lemma_rect_sum_no_cols(*values, 0, 0, x - 1, -1);
        }
    }
    let mut r: usize = 0;
    while r < ROWS
        invariant
            r <= 10,
            forall|x: int, y: int|
                0 <= x <= 10 && 0 <= y <= 17 && (x == 0 || y == 0 || x <= r) ==> #[trigger] pref@[x]@[y]
                    == block(*values, x, y),
        decreases 10 - r,
    {
        let mut c: usize = 0;
        while c < COLS
            invariant
                r < 10,
                c <= 17,
                forall|x: int, y: int|
                    0 <= x <= 10 && 0 <= y <= 17 && (x == 0 || y == 0 || x <= r || (x == r + 1 && y
                        <= c)) ==> #[trigger] pref@[x]@[y] == block(*values, x, y),
            decreases 17 - c,
        {
            proof {
                lemma_rect_sum_bounds(*values, 0, 0, r as int, c as int);
                lemma_rect_sum_bounds(*values, 0, 0, r - 1, c as int);
                lemma_rect_sum_bounds(*values, 0, 0, r as int, c - 1);
                lemma_rect_sum_bounds(*values, 0, 0, r - 1, c - 1);
                assert(pref@[r as int]@[c + 1] == block(*values, r as int, c + 1));
                assert(pref@[r + 1]@[c as int] == block(*values, r + 1, c as int));
                assert(pref@[r as int]@[c as int] == block(*values, r as int, c as int));
                lemma_row_sum_bounds(*values, r as int, 0, c as int);
                lemma_block_bounds(*values, r as int, c + 1);
                lemma_block_bounds(*values, r + 1, c as int);
                lemma_block_bounds(*values, r as int, c as int);
            }
            let val: i32 = if values[r][c] > 0 {
                values[r][c] as i32
            } else {
                0
            };
            pref[r + 1][c + 1] = val + pref[r][c + 1] + pref[r + 1][c] - pref[r][c];
            proof {
                assert(pref@[r + 1]@[c + 1] == block(*values, r + 1, c + 1));
            }
            c += 1;
        }
        r += 1;
    }
    pref
}

/// Sum of the rectangle `(r1, c1)`-`(r2, c2)` from the prefix sums.
fn rect_sum_from(pref: &PrefixSum, r1: usize, c1: usize, r2: usize, c2: usize, Ghost(g): Ghost<
    ValueGrid,
>) -> (s: i32)
    requires
        r1 <= r2 < 10,
        c1 <= c2 < 17,
        forall|x: int, y: int|
            0 <= x <= 10 && 0 <= y <= 17 ==> #[trigger] pref@[x]@[y] == block(g, x, y),
    ensures
        s == rect_sum(g, r1 as int, c1 as int, r2 as int, c2 as int),
{
    proof {
        lemma_inclusion_exclusion(g, r1 as int, c1 as int, r2 as int, c2 as int);
        lemma_rect_sum_bounds(g, 0, 0, r2 as int, c2 as int);
        lemma_rect_sum_bounds(g, 0, 0, r1 - 1, c2 as int);
        lemma_rect_sum_bounds(g, 0, 0, r2 as int, c1 - 1);
        lemma_rect_sum_bounds(g, 0, 0, r1 - 1, c1 - 1);
        assert(pref@[r2 + 1]@[c2 + 1] == block(g, r2 + 1, c2 + 1));
        assert(pref@[r1 as int]@[c2 + 1] == block(g, r1 as int, c2 + 1));
        assert(pref@[r2 + 1]@[c1 as int] == block(g, r2 + 1, c1 as int));
        assert(pref@[r1 as int]@[c1 as int] == block(g, r1 as int, c1 as int));
        lemma_block_bounds(g, r2 + 1, c2 + 1);
        lemma_block_bounds(g, r1 as int, c2 + 1);
        lemma_block_bounds(g, r2 + 1, c1 as int);
        lemma_block_bounds(g, r1 as int, c1 as int);
    }
    pref[r2 + 1][c2 + 1] - pref[r1][c2 + 1] - pref[r2 + 1][c1] + pref[r1][c1]
}

/// Whether every side of the rectangle touches a mushroom.
pub fn check_inscribed(values: &ValueGrid, r1: usize, c1: usize, r2: usize, c2: usize) -> (b: bool)
    requires
        r1 <= r2 < 10,
        c1 <= c2 < 17,
    ensures
        b == inscribed(*values, r1 as int, c1 as int, r2 as int, c2 as int),
{
    let mut top = false;
    let mut bottom = false;
    let mut left = false;
    let mut right = false;

    let mut c = c1;
    while c <= c2
        invariant
            c1 <= c <= c2 + 1,
            c2 < 17,
            r1 <= r2 < 10,
            top == exists|cc: int| c1 <= cc < c && #[trigger] values@[r1 as int]@[cc] > 0,
            bottom == exists|cc: int| c1 <= cc < c && #[trigger] values@[r2 as int]@[cc] > 0,
        decreases c2 + 1 - c,
    {
        if values[r1][c] > 0 {
            top = true;
        }
        if values[r2][c] > 0 {
            bottom = true;
        }
        c += 1;
    }
    let mut r = r1;
    while r <= r2
        invariant
            r1 <= r <= r2 + 1,
            r2 < 10,
            c1 <= c2 < 17,
            left == exists|rr: int| r1 <= rr < r && #[trigger] values@[rr]@[c1 as int] > 0,
            right == exists|rr: int| r1 <= rr < r && #[trigger] values@[rr]@[c2 as int] > 0,
        decreases r2 + 1 - r,
    {
        if values[r][c1] > 0 {
            left = true;
        }
        if values[r][c2] > 0 {
            right = true;
        }
        r += 1;
    }
    top && bottom && left && right
}

/// All legal rectangles, in the order (r1, r2, c1, c2), each with priority 0.
pub fn generate_legal_moves(values: &ValueGrid) -> (moves: Vec<Move>)
    ensures
        all_legal_in_order(*values, moves@),
{
    let mut moves: Vec<Move> = Vec::new();
    let pref = build_prefix_sum(values);
    let ghost g = *values;

    let mut r1: usize = 0;
    while r1 < ROWS
        invariant
            r1 <= 10,
            forall|x: int, y: int|
                0 <= x <= 10 && 0 <= y <= 17 ==> #[trigger] pref@[x]@[y] == block(g, x, y),
            g == *values,
            forall|i: int|
                0 <= i < moves@.len() ==> legal_move(g, #[trigger] moves@[i]) && moves@[i].priority
                    == 0 && moves@[i].r1 < r1,
            forall|i: int, j: int|
                0 <= i < j < moves@.len() ==> move_before(#[trigger] moves@[i], #[trigger] moves@[j]),
            forall|a: int, b: int, c: int, d: int|
                #![trigger legal_rect(g, a, c, b, d)]
                legal_rect(g, a, c, b, d) && a < r1 ==> exists|i: int|
                    0 <= i < moves@.len() && moves@[i].r1 == a && moves@[i].c1 == c && moves@[i].r2
                        == b && #[trigger] moves@[i].c2 == d,
        decreases 10 - r1,
    {
        let mut r2: usize = r1;
        while r2 < ROWS
            invariant
                r1 < 10,
                r1 <= r2 <= 10,
                forall|x: int, y: int|
                    0 <= x <= 10 && 0 <= y <= 17 ==> #[trigger] pref@[x]@[y] == block(g, x, y),
                g == *values,
                forall|i: int|
                    0 <= i < moves@.len() ==> legal_move(g, #[trigger] moves@[i])
                        && moves@[i].priority == 0 && lex_lt(
                        moves@[i].r1 as int,
                        moves@[i].r2 as int,
                        0,
                        0,
                        r1 as int,
                        r2 as int,
                        0,
                        0,
                    ),
                forall|i: int, j: int|
                    0 <= i < j < moves@.len() ==> move_before(#[trigger] moves@[i], #[trigger] moves@[j]),
                forall|a: int, b: int, c: int, d: int|
                    #![trigger legal_rect(g, a, c, b, d)]
                    legal_rect(g, a, c, b, d) && lex_lt(a, b, 0, 0, r1 as int, r2 as int, 0, 0)
                        ==> exists|i: int|
                        0 <= i < moves@.len() && moves@[i].r1 == a && moves@[i].c1 == c
                            && moves@[i].r2 == b && #[trigger] moves@[i].c2 == d,
            decreases 10 - r2,
        {
            let mut c1: usize = 0;
            while c1 < COLS
                invariant
                    r1 <= r2 < 10,
                    c1 <= 17,
                    forall|x: int, y: int|
                        0 <= x <= 10 && 0 <= y <= 17 ==> #[trigger] pref@[x]@[y] == block(g, x, y),
                    g == *values,
                    forall|i: int|
                        0 <= i < moves@.len() ==> legal_move(g, #[trigger] moves@[i])
                            && moves@[i].priority == 0 && lex_lt(
                            moves@[i].r1 as int,
                            moves@[i].r2 as int,
                            moves@[i].c1 as int,
                            0,
                            r1 as int,
                            r2 as int,
                            c1 as int,
                            0,
                        ),
                    forall|i: int, j: int|
                        0 <= i < j < moves@.len() ==> move_before(#[trigger] moves@[i], #[trigger] moves@[j]),
                    forall|a: int, b: int, c: int, d: int|
                        #![trigger legal_rect(g, a, c, b, d)]
                        legal_rect(g, a, c, b, d) && lex_lt(
                            a,
                            b,
                            c,
                            0,
                            r1 as int,
                            r2 as int,
                            c1 as int,
                            0,
                        ) ==> exists|i: int|
                            0 <= i < moves@.len() && moves@[i].r1 == a && moves@[i].c1 == c
                                && moves@[i].r2 == b && #[trigger] moves@[i].c2 == d,
                decreases 17 - c1,
            {
                let mut c2: usize = c1;
                while c2 < COLS
                    invariant
                        r1 <= r2 < 10,
                        c1 < 17,
                        c1 <= c2 <= 17,
                        forall|x: int, y: int|
                            0 <= x <= 10 && 0 <= y <= 17 ==> #[trigger] pref@[x]@[y] == block(g, x, y),
                        g == *values,
                        forall|i: int|
                            0 <= i < moves@.len() ==> legal_move(g, #[trigger] moves@[i])
                                && moves@[i].priority == 0 && lex_lt(
                                moves@[i].r1 as int,
                                moves@[i].r2 as int,
                                moves@[i].c1 as int,
                                moves@[i].c2 as int,
                                r1 as int,
                                r2 as int,
                                c1 as int,
                                c2 as int,
                            ),
                        forall|i: int, j: int|
                            0 <= i < j < moves@.len() ==> move_before(#[trigger] moves@[i], #[trigger] moves@[j]),
                        forall|a: int, b: int, c: int, d: int|
                            #![trigger legal_rect(g, a, c, b, d)]
                            legal_rect(g, a, c, b, d) && lex_lt(
                                a,
                                b,
                                c,
                                d,
                                r1 as int,
                                r2 as int,
                                c1 as int,
                                c2 as int,
                            ) ==> exists|i: int|
                                0 <= i < moves@.len() && moves@[i].r1 == a && moves@[i].c1 == c
                                    && moves@[i].r2 == b && #[trigger] moves@[i].c2 == d,
                    ensures
                        forall|d: int| c2 <= d < 17 ==> !legal_rect(g, r1 as int, c1 as int, r2 as int, d),
                        c2 <= 17,
                        forall|i: int|
                            0 <= i < moves@.len() ==> legal_move(g, #[trigger] moves@[i])
                                && moves@[i].priority == 0 && lex_lt(
                                moves@[i].r1 as int,
                                moves@[i].r2 as int,
                                moves@[i].c1 as int,
                                moves@[i].c2 as int,
                                r1 as int,
                                r2 as int,
                                c1 as int,
                                c2 as int,
                            ),
                        forall|i: int, j: int|
                            0 <= i < j < moves@.len() ==> move_before(#[trigger] moves@[i], #[trigger] moves@[j]),
                        forall|a: int, b: int, c: int, d: int|
                            #![trigger legal_rect(g, a, c, b, d)]
                            legal_rect(g, a, c, b, d) && lex_lt(
                                a,
                                b,
                                c,
                                d,
                                r1 as int,
                                r2 as int,
                                c1 as int,
                                c2 as int,
                            ) ==> exists|i: int|
                                0 <= i < moves@.len() && moves@[i].r1 == a && moves@[i].c1 == c
                                    && moves@[i].r2 == b && #[trigger] moves@[i].c2 == d,
                    decreases 17 - c2,
                {
                    let sum = rect_sum_from(&pref, r1, c1, r2, c2, Ghost(g));
                    if sum > 10 {
                        proof {
                            assert forall|d: int| c2 <= d < 17 implies !legal_rect(
                                g,
                                r1 as int,
                                c1 as int,
                                r2 as int,
                                d,
                            ) by {
                                lemma_rect_sum_mono(g, r1 as int, c1 as int, r2 as int, c2 as int, d);
                            }
                        }
                        break;
                    }
                    if sum == 10 && check_inscribed(values, r1, c1, r2, c2) {
                        let m = Move {
                            r1: r1 as i32,
                            c1: c1 as i32,
                            r2: r2 as i32,
                            c2: c2 as i32,
                            priority: 0,
                        };
                        let ghost old_moves = moves@;
                        moves.push(m);
                        proof {
                            assert(moves@[moves@.len() - 1] == m);
                            assert forall|a: int, b: int, c: int, d: int|
                                #![trigger legal_rect(g, a, c, b, d)]
                                legal_rect(g, a, c, b, d) && lex_lt(
                                    a,
                                    b,
                                    c,
                                    d,
                                    r1 as int,
                                    r2 as int,
                                    c1 as int,
                                    c2 + 1,
                                ) implies exists|i: int|
                                    0 <= i < moves@.len() && moves@[i].r1 == a && moves@[i].c1 == c
                                        && moves@[i].r2 == b && #[trigger] moves@[i].c2 == d by {
                                if a == r1 && b == r2 && c == c1 && d == c2 {
                                    assert(moves@[moves@.len() - 1].c2 == d);
                                } else {
                                    let i = choose|i: int|
                                        0 <= i < old_moves.len() && old_moves[i].r1 == a
                                            && old_moves[i].c1 == c && old_moves[i].r2 == b
                                            && #[trigger] old_moves[i].c2 == d;
                                    assert(moves@[i] == old_moves[i]);
                                }
                            }
                        }
                    } else {
                        assert(!legal_rect(g, r1 as int, c1 as int, r2 as int, c2 as int));
                    }
                    c2 += 1;
                }
                c1 += 1;
            }
            r2 += 1;
        }
        r1 += 1;
    }
    moves
}

} // verus!
