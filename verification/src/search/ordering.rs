use vstd::prelude::*;

use std::cmp::Ordering;

use crate::search::tt::{pack_move, spec_pack_move};
use crate::types::{Move, COLS, ROWS};

verus! {

/// Move `a` goes before move `b` when `a` is the principal-variation move and `b` is not, or
/// when both or neither are and `a` has the higher priority.
pub open spec fn ranks_before(a: Move, b: Move, pv: Move) -> bool {
    let a_pv = a.same_coords(pv);
    let b_pv = b.same_coords(pv);
    (a_pv && !b_pv) || (a_pv == b_pv && a.priority > b.priority)
}

/// No move of `s` ranks before one that precedes it.
pub open spec fn sorted_for_search(s: Seq<Move>, pv: Move) -> bool {
    forall|i: int, j: int| 0 <= i < j < s.len() ==> !ranks_before(#[trigger] s[j], #[trigger] s[i], pv)
}

/// Compares two moves for the search order (see `ranks_before`).
pub fn compare_for_search(a: &Move, b: &Move, pv: &Move) -> (o: Ordering)
    ensures
        (o == Ordering::Less) == ranks_before(*a, *b, *pv),
        (o == Ordering::Greater) == ranks_before(*b, *a, *pv),
{
    let a_pv = a.coords_eq(pv);
    let b_pv = b.coords_eq(pv);
    if a_pv && !b_pv {
        return Ordering::Less;
    }
    if b_pv && !a_pv {
        return Ordering::Greater;
    }
    if b.priority < a.priority {
        Ordering::Less
    } else if a.priority < b.priority {
        Ordering::Greater
    } else {
        Ordering::Equal
    }
}

/// Calls `slice::sort_unstable_by` with `compare_for_search`: the moves are rearranged so that
/// the comparison never puts a later move before an earlier one. Which of two moves that
/// compare equal comes first is not stated.
#[verifier::external_body]
fn sort_for_search(moves: &mut Vec<Move>, pv: Move)
    ensures
        final(moves)@.to_multiset() == old(moves)@.to_multiset(),
        sorted_for_search(final(moves)@, pv),
{
    moves.sort_unstable_by(|a, b| compare_for_search(a, b, &pv));
}

/// The bonus a move gets before sorting: with killer and history ordering on and `depth` in
/// 0..64, 9000 for the first killer of that depth, 8000 for the second, else ten times the
/// positive history score of its end cell.
pub open spec fn order_bonus(
    m: Move,
    depth: i32,
    killers: [[u32; 2]; 64],
    history: [[i32; COLS]; ROWS],
    on: bool,
) -> int {
    if on && 0 <= depth < 64 {
        let pm = spec_pack_move(m);
        if pm == killers@[depth as int]@[0] {
            9000
        } else if pm == killers@[depth as int]@[1] {
            8000
        } else {
            let h = history@[m.r2 as int]@[m.c2 as int];
            if h > 0 {
                h * 10
            } else {
                0
            }
        }
    } else {
        0
    }
}

/// Where the bonus reads the history table, the move's end cell is on the board, and the
/// bonus and the raised priority fit in 32 bits.
pub open spec fn order_bonus_ok(
    m: Move,
    depth: i32,
    killers: [[u32; 2]; 64],
    history: [[i32; COLS]; ROWS],
    on: bool,
) -> bool {
    let reads_history = on && 0 <= depth < 64 && spec_pack_move(m) != killers@[depth as int]@[0]
        && spec_pack_move(m) != killers@[depth as int]@[1];
    &&& reads_history ==> (0 <= m.r2 < 10 && 0 <= m.c2 < 17 && history@[m.r2 as int]@[m.c2 as int]
        * 10 <= i32::MAX)
    &&& i32::MIN <= m.priority + order_bonus(m, depth, killers, history, on) <= i32::MAX
}

/// The move with its bonus added to its priority.
pub open spec fn with_bonus(
    m: Move,
    depth: i32,
    killers: [[u32; 2]; 64],
    history: [[i32; COLS]; ROWS],
    on: bool,
) -> Move {
    Move { priority: (m.priority + order_bonus(m, depth, killers, history, on)) as i32, ..m }
}

/// Raises each move's priority by its bonus (see `order_bonus`), then sorts the moves: the
/// principal-variation move first, then by priority, highest first.
pub fn order_moves(
    moves: &mut Vec<Move>,
    pv_move: &Move,
    depth: i32,
    killers: &[[u32; 2]; 64],
    history: &[[i32; COLS]; ROWS],
    killer_history_on: bool,
)
    requires
        forall|i: int|
            0 <= i < old(moves)@.len() ==> order_bonus_ok(
                #[trigger] old(moves)@[i],
                depth,
                *killers,
                *history,
                killer_history_on,
            ),
    ensures
        final(moves)@.to_multiset() == old(moves)@.map_values(
            |m: Move| with_bonus(m, depth, *killers, *history, killer_history_on),
        ).to_multiset(),
        sorted_for_search(final(moves)@, *pv_move),
{
    let ghost orig = moves@;
    if killer_history_on && depth >= 0 && depth < 64 {
        let d = depth as usize;
        let mut i: usize = 0;
        while i < moves.len()
            invariant
                killer_history_on,
                0 <= depth < 64,
                d == depth,
                i <= moves@.len(),
                moves@.len() == orig.len(),
                forall|j: int|
                    0 <= j < orig.len() ==> order_bonus_ok(
                        #[trigger] orig[j],
                        depth,
                        *killers,
                        *history,
                        killer_history_on,
                    ),
                forall|j: int|
                    0 <= j < i ==> #[trigger] moves@[j] == with_bonus(
                        orig[j],
                        depth,
                        *killers,
                        *history,
                        killer_history_on,
                    ),
                forall|j: int| i <= j < moves@.len() ==> #[trigger] moves@[j] == orig[j],
            decreases moves@.len() - i,
        {
            let mut m = moves[i];
            assert(order_bonus_ok(orig[i as int], depth, *killers, *history, killer_history_on));
            let pm = pack_move(&m);
            if pm == killers[d][0] {
                m.priority = m.priority + 9000;
            } else if pm == killers[d][1] {
                m.priority = m.priority + 8000;
            } else {
                let h = history[m.r2 as usize][m.c2 as usize];
                if h > 0 {
                    m.priority = m.priority + h * 10;
                }
            }
            moves.set(i, m);
            i += 1;
        }
    }
    proof {
        let target = orig.map_values(
            |m: Move| with_bonus(m, depth, *killers, *history, killer_history_on),
        );
        assert(moves@ =~= target);
    }
    sort_for_search(moves, *pv_move);
}

} // verus!
