use mushroom_bot::board::Board;
use mushroom_bot::movegen::{check_inscribed, generate_legal_moves};
use mushroom_bot::types::Move;

fn sparse_board() -> Board {
    let mut rows = ["00000000000000000"; 10];
    rows[0] = "11111111110000000";
    let mut board = Board::new();
    board.init_from_string(&rows.join(" "));
    board
}

#[test]
fn movegen_finds_expected_ten_sum_rectangle() {
    let board = sparse_board();
    let moves = generate_legal_moves(&board.values);
    let expected = Move { r1: 0, c1: 0, r2: 0, c2: 9, priority: 0 };
    assert!(moves.iter().any(|mv| mv.coords_eq(&expected)));
}

#[test]
fn movegen_returns_no_moves_for_empty_board() {
    let values = [[0i8; 17]; 10];
    let moves = generate_legal_moves(&values);
    assert!(moves.is_empty());
}

#[test]
fn movegen_lists_rectangles_in_order() {
    let mut values = [[0i8; 17]; 10];
    values[4][4] = 5;
    values[4][5] = 5;
    values[5][4] = 5;
    let moves = generate_legal_moves(&values);
    let coords: Vec<(i32, i32, i32, i32)> = moves.iter().map(|m| (m.r1, m.c1, m.r2, m.c2)).collect();
    assert_eq!(coords, vec![(4, 4, 4, 5), (4, 4, 5, 4)]);
    assert!(moves.iter().all(|m| m.priority == 0));
}

#[test]
fn inscribed_needs_a_mushroom_on_every_side() {
    let mut values = [[0i8; 17]; 10];
    values[1][1] = 3;
    values[2][2] = 7;
    assert!(check_inscribed(&values, 1, 1, 2, 2));
    assert!(!check_inscribed(&values, 1, 1, 2, 3));
}
