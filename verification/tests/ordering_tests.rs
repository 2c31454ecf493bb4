use mushroom_bot::search::ordering::{compare_for_search, order_moves};
use mushroom_bot::search::tt::pack_move;
use mushroom_bot::types::Move;
use std::cmp::Ordering;

fn mv(r1: i32, c1: i32, r2: i32, c2: i32, priority: i32) -> Move {
    Move { r1, c1, r2, c2, priority }
}

#[test]
fn principal_move_first_then_highest_priority() {
    let mut moves = vec![mv(0, 0, 0, 1, 5), mv(1, 1, 1, 2, 50), mv(2, 2, 2, 3, 20), mv(3, 3, 3, 4, 1)];
    let pv = mv(3, 3, 3, 4, 0);
    let killers = [[0u32; 2]; 64];
    let history = [[0i32; 17]; 10];
    order_moves(&mut moves, &pv, 0, &killers, &history, false);
    let order: Vec<(i32, i32)> = moves.iter().map(|m| (m.r1, m.priority)).collect();
    assert_eq!(order, vec![(3, 1), (1, 50), (2, 20), (0, 5)]);
}

#[test]
fn killer_and_history_bonuses_reorder_moves() {
    let a = mv(0, 0, 0, 1, 100);
    let b = mv(1, 1, 1, 2, 100);
    let c = mv(2, 2, 2, 3, 100);
    let mut killers = [[0u32; 2]; 64];
    killers[4][0] = pack_move(&c);
    killers[4][1] = pack_move(&b);
    let mut history = [[0i32; 17]; 10];
    history[0][1] = 3;
    let mut moves = vec![a, b, c];
    order_moves(&mut moves, &Move::pass(), 4, &killers, &history, true);
    let got: Vec<(i32, i32)> = moves.iter().map(|m| (m.r1, m.priority)).collect();
    assert_eq!(got, vec![(2, 9100), (1, 8100), (0, 130)]);
}

#[test]
fn comparison_follows_the_search_order() {
    let pv = mv(5, 5, 5, 6, 0);
    assert_eq!(compare_for_search(&mv(5, 5, 5, 6, -9), &mv(0, 0, 0, 0, 9), &pv), Ordering::Less);
    assert_eq!(compare_for_search(&mv(0, 0, 0, 0, 1), &mv(1, 1, 1, 1, 2), &pv), Ordering::Greater);
    assert_eq!(compare_for_search(&mv(0, 0, 0, 0, 2), &mv(1, 1, 1, 1, 2), &pv), Ordering::Equal);
}
