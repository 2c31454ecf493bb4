use vstd::prelude::*;

use crate::board::{gval, in_rect, Board};
use crate::text::{lemma_lines_from_in_range, line_spans, split_lines, trim_end, trim_span, trim_start};
use crate::types::Move;
use vstd::string::StringSliceAdditionalSpecFns;

verus! {

/// The byte `'0' + v` (taken as a byte) stays within a byte.
pub open spec fn key_digit_ok(v: i8) -> bool {
    48 + (v as u8) < 256
}

/// The character for the value `v` in a board key: `'0' + v`, the value taken as a byte.
pub open spec fn key_char(v: i8) -> char {
    ((48 + (v as u8)) as u8) as char
}

/// The key of a board: its ten rows of seventeen value characters (see `key_char`), the rows
/// separated by single spaces.
pub open spec fn spec_board_key(b: Board) -> Seq<char> {
    Seq::new(
        179,
        |i: int|
            if i % 18 == 17 {
                ' '
            } else {
                key_char(gval(b.values, i / 18, i % 18))
            },
    )
}

/// The key of a board (see `spec_board_key`); every value must give a character that fits in
/// a byte.
pub fn board_key(board: &Board) -> (key: Vec<char>)
    requires
        forall|r: int, c: int| 0 <= r < 10 && 0 <= c < 17 ==> key_digit_ok(#[trigger] gval(board.values, r, c)),
    ensures
        key@ == spec_board_key(*board),
{
    let mut key: Vec<char> = Vec::new();
    let mut r: usize = 0;
    while r < 10
        invariant
            r <= 10,
            forall|x: int, y: int| 0 <= x < 10 && 0 <= y < 17 ==> key_digit_ok(#[trigger] gval(board.values, x, y)),
            key@.len() == if r == 0 {
                0
            } else {
                r * 18 - 1
            },
            forall|i: int| 0 <= i < key@.len() ==> key@[i] == spec_board_key(*board)[i],
        decreases 10 - r,
    {
        if r > 0 {
            key.push(' ');
        }
        let mut c: usize = 0;
        while c < 17
            invariant
                r < 10,
                c <= 17,
                forall|x: int, y: int| 0 <= x < 10 && 0 <= y < 17 ==> key_digit_ok(#[trigger] gval(board.values, x, y)),
                key@.len() == r * 18 + c,
                forall|i: int| 0 <= i < key@.len() ==> key@[i] == spec_board_key(*board)[i],
            decreases 17 - c,
        {
            let v = board.values[r][c];
            proof {
                assert(key_digit_ok(gval(board.values, r as int, c as int)));
                assert((r * 18 + c) / 18 == r && (r * 18 + c) % 18 == c) by (nonlinear_arith)
                    requires
                        c < 17,
                ;
            }
            key.push((48u8 + (v as u8)) as char);
            c += 1;
        }
        proof {
            assert((r * 18 + 17) % 18 == 17) by (nonlinear_arith);
        }
        r += 1;
    }
    proof {
        assert(key@ =~= spec_board_key(*board));
    }
    key
}

/// `rows` has room for the rectangle of `mv` wherever it is not empty: its rows exist and
/// reach its last column.
pub open spec fn rows_hold(rows: Seq<Vec<char>>, mv: Move) -> bool {
    (mv.r1 <= mv.r2 && mv.c1 <= mv.c2) ==> {
        &&& 0 <= mv.r1
        &&& mv.r2 < rows.len()
        &&& 0 <= mv.c1
        &&& forall|r: int| mv.r1 <= r <= mv.r2 ==> mv.c2 < (#[trigger] rows[r])@.len()
    }
}

/// Clears (writes `'0'` in) the rectangle of `mv` in the text rows of a board; a pass changes
/// nothing.
pub fn apply_move_to_rows(rows: &mut Vec<Vec<char>>, mv: &Move)
    requires
        !mv.spec_is_pass() ==> rows_hold(old(rows)@, *mv),
    ensures
        final(rows)@.len() == old(rows)@.len(),
        forall|r: int|
            0 <= r < old(rows)@.len() ==> (#[trigger] final(rows)@[r])@.len() == old(rows)@[r]@.len(),
        forall|r: int, c: int|
            0 <= r < old(rows)@.len() && 0 <= c < old(rows)@[r]@.len() ==> (#[trigger] final(rows)@[r]@[c]) == if !mv.spec_is_pass()
                && in_rect(*mv, r, c) {
                '0'
            } else {
                old(rows)@[r]@[c]
            },
{
    if mv.r1 == -1 && mv.c1 == -1 && mv.r2 == -1 && mv.c2 == -1 {
        return;
    }
    if mv.r1 > mv.r2 || mv.c1 > mv.c2 {
        return;
    }
    let ghost orig = rows@;
    let mut r: i64 = mv.r1 as i64;
    while r <= mv.r2 as i64
        invariant
            !mv.spec_is_pass(),
            mv.r1 <= mv.r2 && mv.c1 <= mv.c2,
            rows_hold(orig, *mv),
            mv.r1 <= r <= mv.r2 + 1,
            rows@.len() == orig.len(),
            forall|x: int| 0 <= x < orig.len() ==> (#[trigger] rows@[x])@.len() == orig[x]@.len(),
            forall|x: int, y: int|
                0 <= x < orig.len() && 0 <= y < orig[x]@.len() ==> (#[trigger] rows@[x]@[y]) == if mv.r1 <= x < r
                    && mv.c1 <= y <= mv.c2 {
                    '0'
                } else {
                    orig[x]@[y]
                },
        decreases mv.r2 + 1 - r,
    {
        let ru = r as usize;
        let mut c: i64 = mv.c1 as i64;
        assert(mv.c2 < orig[r as int]@.len());
        while c <= mv.c2 as i64
            invariant
                !mv.spec_is_pass(),
                mv.r1 <= r <= mv.r2,
                mv.c1 <= mv.c2,
                rows_hold(orig, *mv),
                0 <= r < orig.len(),
                ru == r,
                mv.c1 <= c <= mv.c2 + 1,
                mv.c2 < orig[r as int]@.len(),
                rows@.len() == orig.len(),
                forall|x: int| 0 <= x < orig.len() ==> (#[trigger] rows@[x])@.len() == orig[x]@.len(),
                forall|x: int, y: int|
                    0 <= x < orig.len() && 0 <= y < orig[x]@.len() ==> (#[trigger] rows@[x]@[y]) == if (mv.r1 <= x < r
                        && mv.c1 <= y <= mv.c2) || (x == r && mv.c1 <= y < c) {
                        '0'
                    } else {
                        orig[x]@[y]
                    },
            decreases mv.c2 + 1 - c,
        {
            let cu = c as usize;
            let mut row = rows[ru].clone();
            proof {
                assert(row@ == rows@[r as int]@);
            }
            row.set(cu, '0');
            rows.set(ru, row);
            c += 1;
        }
        r += 1;
    }
}

/// What the line `s[a..b]` does to the boards read so far and the board being read: a blank
/// line (after trimming) finishes the board if it has a row; any other line adds its trimmed
/// span as a row.
pub open spec fn board_line(s: Seq<u8>, a: int, b: int, st: (Seq<Seq<(usize, usize)>>, Seq<(usize, usize)>)) -> (
    Seq<Seq<(usize, usize)>>,
    Seq<(usize, usize)>,
) {
    let ta = trim_start(s, a, b);
    let tb = trim_end(s, ta, b);
    if tb <= ta {
        if st.1.len() > 0 {
            (st.0.push(st.1), Seq::empty())
        } else {
            st
        }
    } else {
        (st.0, st.1.push((ta as usize, tb as usize)))
    }
}

/// The boards read and the board being read after the first `k` lines.
pub open spec fn boards_scan(s: Seq<u8>, k: int) -> (Seq<Seq<(usize, usize)>>, Seq<(usize, usize)>)
    decreases k,
{
    if k <= 0 {
        (Seq::empty(), Seq::empty())
    } else {
        board_line(s, line_spans(s)[k - 1].0, line_spans(s)[k - 1].1, boards_scan(s, k - 1))
    }
}

/// The boards that a text lists: groups of non-blank lines separated by blank lines, each
/// line given by the positions of its trimmed text.
pub open spec fn board_groups(s: Seq<u8>) -> Seq<Seq<(usize, usize)>> {
    let st = boards_scan(s, line_spans(s).len() as int);
    if st.1.len() > 0 {
        st.0.push(st.1)
    } else {
        st.0
    }
}

/// The boards that `content` lists (see `board_groups`), each as the positions of its rows.
pub fn read_boards(content: &str) -> (boards: Vec<Vec<(usize, usize)>>)
    ensures
        boards@.len() == board_groups(content.spec_bytes()).len(),
        forall|i: int| 0 <= i < boards@.len() ==> (#[trigger] boards@[i])@ == board_groups(content.spec_bytes())[i],
{
    let s = content.as_bytes();
    let lines = split_lines(s);
    let ghost sp = line_spans(s@);
    proof {
        lemma_lines_from_in_range(s@, 0);
    }
    let mut boards: Vec<Vec<(usize, usize)>> = Vec::new();
    let mut board: Vec<(usize, usize)> = Vec::new();
    let mut k: usize = 0;
    while k < lines.len()
        invariant
            s@ == content.spec_bytes(),
            sp == line_spans(s@),
            lines@.len() == sp.len(),
            forall|j: int| 0 <= j < lines@.len() ==> (#[trigger] lines@[j]).0 == sp[j].0 && lines@[j].1 == sp[j].1,
            forall|j: int| 0 <= j < sp.len() ==> 0 <= (#[trigger] sp[j]).0 <= sp[j].1 <= s@.len(),
            k <= lines@.len(),
            boards@.len() == boards_scan(s@, k as int).0.len(),
            forall|i: int| 0 <= i < boards@.len() ==> (#[trigger] boards@[i])@ == boards_scan(s@, k as int).0[i],
            board@ == boards_scan(s@, k as int).1,
        decreases lines@.len() - k,
    {
        let (a, b) = lines[k];
        proof {
            assert(sp[k as int].0 == a && sp[k as int].1 == b);
        }
        let (ta, tb) = trim_span(s, a, b);
        if tb <= ta {
            if board.len() > 0 {
                boards.push(board);
                board = Vec::new();
            }
        } else {
            board.push((ta, tb));
        }
        k += 1;
    }
    if board.len() > 0 {
        boards.push(board);
    }
    boards
}

/// One step of the linear congruential generator of the benchmark boards.
pub open spec fn lcg_step(x: u64) -> u64 {
    let m = (x as nat * 6364136223846793005nat) % 0x1_0000_0000_0000_0000nat;
    ((m + 1) % 0x1_0000_0000_0000_0000nat) as u64
}

/// The generator's state `n` steps after `x`.
pub open spec fn lcg_state(x: u64, n: nat) -> u64
    decreases n,
{
    if n == 0 {
        x
    } else {
        lcg_step(lcg_state(x, (n - 1) as nat))
    }
}

/// The mushroom value (1 to 9) that the state `x` gives.
pub open spec fn lcg_value(x: u64) -> int {
    (x >> 33u64) % 9 + 1
}

/// The character of the digit `d`.
pub open spec fn digit_char(d: int) -> char {
    ((48 + d) as u8) as char
}

/// One step of the generator (see `lcg_step`).
fn lcg_next(x: u64) -> (y: u64)
    ensures
        y == lcg_step(x),
{
    let m = x.wrapping_mul(6364136223846793005);
    m.wrapping_add(1)
}

/// A board whose 170 values are drawn in row-major order, one generator step each, from
/// `rng` (see `lcg_value`), as ten rows of seventeen digits; `rng` ends 170 steps on.
pub fn random_board_string(rng: &mut u64) -> (rows: Vec<Vec<char>>)
    ensures
        *final(rng) == lcg_state(*old(rng), 170),
        rows@.len() == 10,
        forall|r: int| 0 <= r < 10 ==> (#[trigger] rows@[r])@.len() == 17,
        forall|r: int, c: int|
            0 <= r < 10 && 0 <= c < 17 ==> (#[trigger] rows@[r]@[c]) == digit_char(
                lcg_value(lcg_state(*old(rng), (r * 17 + c + 1) as nat)),
            ),
{
    let ghost x0 = *rng;
    let mut rows: Vec<Vec<char>> = Vec::new();
    let mut r: usize = 0;
    while r < 10
        invariant
            r <= 10,
            *rng == lcg_state(x0, (r * 17) as nat),
            rows@.len() == r,
            forall|x: int| 0 <= x < r ==> (#[trigger] rows@[x])@.len() == 17,
            forall|x: int, y: int|
                0 <= x < r && 0 <= y < 17 ==> (#[trigger] rows@[x]@[y]) == digit_char(
                    lcg_value(lcg_state(x0, (x * 17 + y + 1) as nat)),
                ),
        decreases 10 - r,
    {
        let mut row: Vec<char> = Vec::new();
        let mut c: usize = 0;
        while c < 17
            invariant
                r < 10,
                c <= 17,
                *rng == lcg_state(x0, (r * 17 + c) as nat),
                row@.len() == c,
                forall|y: int| 0 <= y < c ==> (#[trigger] row@[y]) == digit_char(
                    lcg_value(lcg_state(x0, (r * 17 + y + 1) as nat)),
                ),
            decreases 17 - c,
        {
            *rng = lcg_next(*rng);
            let digit = ((*rng >> 33) % 9 + 1) as u8;
            row.push((48u8 + digit) as char);
            c += 1;
        }
        rows.push(row);
        r += 1;
    }
    rows
}

/// The most rounds that `random_sparse_board` runs: over its rounds the generator's states
/// repeat with this period, so a board that has not thinned out by then never would.
pub const SPARSE_ROUND_LIMIT: u64 = 0x8000_0000_0000_0000;

/// The values of the board, the number of mushrooms and the generator's state after at most
/// `rounds` thinning rounds, stopping once no more than `target` mushrooms are left: each
/// round draws a row and then a column (one step each) and clears that cell if it holds a
/// mushroom.
pub open spec fn thin_out(g: Seq<u8>, live: int, x: u64, target: int, rounds: nat) -> (Seq<u8>, int, u64)
    decreases rounds,
{
    if rounds == 0 || live <= target {
        (g, live, x)
    } else {
        let x1 = lcg_step(x);
        let x2 = lcg_step(x1);
        let i = ((x1 >> 33u64) % 10) * 17 + (x2 >> 33u64) % 17;
        if g[i as int] > 0 {
            thin_out(g.update(i as int, 0u8), live - 1, x2, target, (rounds - 1) as nat)
        } else {
            thin_out(g, live, x2, target, (rounds - 1) as nat)
        }
    }
}

/// The values of a random board drawn from `x` (see `random_board_string`), row-major.
pub open spec fn drawn_values(x: u64) -> Seq<u8> {
    Seq::new(170, |i: int| lcg_value(lcg_state(x, (i + 1) as nat)) as u8)
}

/// A random board thinned out to `target_live` mushrooms: the values are drawn as in
/// `random_board_string`, then random cells are cleared (see `thin_out`) until no more than
/// `target_live` mushrooms are left; the board comes back as ten rows of seventeen digits.
pub fn random_sparse_board(rng: &mut u64, target_live: usize) -> (rows: Vec<Vec<char>>)
    ensures
        ({
            let end = thin_out(
                drawn_values(*old(rng)),
                170,
                lcg_state(*old(rng), 170),
                target_live as int,
                SPARSE_ROUND_LIMIT as nat,
            );
            &&& *final(rng) == end.2
            &&& rows@.len() == 10
            &&& forall|r: int| 0 <= r < 10 ==> (#[trigger] rows@[r])@.len() == 17
            &&& forall|r: int, c: int|
                0 <= r < 10 && 0 <= c < 17 ==> (#[trigger] rows@[r]@[c]) == digit_char(end.0[r * 17 + c] as int)
        }),
{
    let ghost x0 = *rng;
    let mut grid: Vec<u8> = Vec::new();
    let mut i: usize = 0;
    while i < 170
        invariant
            i <= 170,
            *rng == lcg_state(x0, i as nat),
            grid@.len() == i,
            forall|j: int| 0 <= j < i ==> (#[trigger] grid@[j]) == drawn_values(x0)[j],
        decreases 170 - i,
    {
        *rng = lcg_next(*rng);
        grid.push(((*rng >> 33) % 9 + 1) as u8);
        i += 1;
    }
    proof {
        assert(grid@ =~= drawn_values(x0));
    }
    let ghost end = thin_out(grid@, 170, *rng, target_live as int, SPARSE_ROUND_LIMIT as nat);
    let mut live: usize = 170;
    let mut rounds: u64 = 0;
    while live > target_live && rounds < SPARSE_ROUND_LIMIT
        invariant
            grid@.len() == 170,
            live <= 170,
            rounds <= SPARSE_ROUND_LIMIT,
            forall|j: int| 0 <= j < 170 ==> (#[trigger] grid@[j]) <= 9,
            thin_out(grid@, live as int, *rng, target_live as int, (SPARSE_ROUND_LIMIT - rounds) as nat) == end,
        decreases SPARSE_ROUND_LIMIT - rounds,
    {
        let x1 = lcg_next(*rng);
        let r = ((x1 >> 33) % 10) as usize;
        let x2 = lcg_next(x1);
        let c = ((x2 >> 33) % 17) as usize;
        *rng = x2;
        if grid[r * 17 + c] > 0 {
            grid.set(r * 17 + c, 0);
            live -= 1;
        }
        rounds += 1;
    }
    let mut rows: Vec<Vec<char>> = Vec::new();
    let mut r: usize = 0;
    while r < 10
        invariant
            r <= 10,
            grid@.len() == 170,
            forall|j: int| 0 <= j < 170 ==> (#[trigger] grid@[j]) <= 9,
            grid@ == end.0,
            rows@.len() == r,
            forall|x: int| 0 <= x < r ==> (#[trigger] rows@[x])@.len() == 17,
            forall|x: int, y: int|
                0 <= x < r && 0 <= y < 17 ==> (#[trigger] rows@[x]@[y]) == digit_char(end.0[x * 17 + y] as int),
        decreases 10 - r,
    {
        let mut row: Vec<char> = Vec::new();
        let mut c: usize = 0;
        while c < 17
            invariant
                r < 10,
                c <= 17,
                grid@.len() == 170,
                forall|j: int| 0 <= j < 170 ==> (#[trigger] grid@[j]) <= 9,
                grid@ == end.0,
                row@.len() == c,
                forall|y: int| 0 <= y < c ==> (#[trigger] row@[y]) == digit_char(end.0[r * 17 + y] as int),
            decreases 17 - c,
        {
            let v = grid[r * 17 + c];
            row.push((48u8 + v) as char);
            c += 1;
        }
        rows.push(row);
        r += 1;
    }
    rows
}

} // verus!
