use mushroom_bot::board::{Board, MoveRecord};
use mushroom_bot::search::hash_board;
use mushroom_bot::types::{Move, FIRST_PLAYER, NO_OWNER, SECOND_PLAYER};

fn board_from_rows(rows: &[&str; 10]) -> Board {
    let mut board = Board::new();
    let text = rows.join(" ");
    assert!(Board::board_text_ok(&text));
    board.init_from_string(&text);
    board
}

fn sparse_board() -> Board {
    let mut rows = ["00000000000000000"; 10];
    rows[0] = "11111111110000000";
    board_from_rows(&rows)
}

#[test]
fn init_from_string_populates_values_and_clears_owners() {
    let board = sparse_board();
    assert_eq!(board.values[0][0], 1);
    assert_eq!(board.values[0][9], 1);
    assert_eq!(board.values[0][10], 0);
    assert_eq!(board.owners[0][0], NO_OWNER);
    assert_eq!(board.hash, hash_board(&board));
}

#[test]
fn make_and_unmake_restore_board_state() {
    let mut board = sparse_board();
    board.player = FIRST_PLAYER;
    let original = board.clone();
    let mv = Move { r1: 0, c1: 0, r2: 0, c2: 9, priority: 0 };
    let mut rec = MoveRecord::new();

    board.make_move(&mv, &mut rec);
    assert_eq!(board.player, SECOND_PLAYER);
    assert_eq!(board.consecutive_passes, 0);
    assert_eq!(board.values[0][0], 0);
    assert_eq!(board.owners[0][0], FIRST_PLAYER);
    assert_eq!(board.hash, hash_board(&board));

    board.unmake_move(&rec);
    assert_eq!(board.values, original.values);
    assert_eq!(board.owners, original.owners);
    assert_eq!(board.player, original.player);
    assert_eq!(board.consecutive_passes, original.consecutive_passes);
    assert_eq!(board.hash, original.hash);
    assert_eq!(board.hash, hash_board(&board));
}

#[test]
fn board_legal_moves_matches_known_rectangle() {
    let board = sparse_board();
    let mv = Move { r1: 0, c1: 0, r2: 0, c2: 9, priority: 0 };
    assert!(board.is_legal_move(&mv));
    assert!(board.legal_moves().iter().any(|cand| cand.coords_eq(&mv)));
}

#[test]
fn init_from_string_reads_digits_row_by_row() {
    let mut rows = ["00000000000000000"; 10];
    rows[3] = "12345678900000000";
    rows[9] = "00000000000000009";
    let board = board_from_rows(&rows);
    assert_eq!(board.values[3][0], 1);
    assert_eq!(board.values[3][8], 9);
    assert_eq!(board.values[9][16], 9);
    assert_eq!(board.consecutive_passes, 0);
    assert_eq!(board.player, FIRST_PLAYER);
}

#[test]
fn board_text_check_refuses_bad_rows() {
    let short = "0000 ".repeat(10);
    assert!(!Board::board_text_ok(&short));
    let mut rows = vec!["00000000000000000"; 10];
    rows[4] = "0000000000000000x";
    assert!(!Board::board_text_ok(&rows.join(" ")));
    let nine_rows = vec!["00000000000000000"; 9].join(" ");
    assert!(!Board::board_text_ok(&nine_rows));
    let extra = format!("{} trailing words", vec!["11111111111111111"; 10].join("\n"));
    assert!(Board::board_text_ok(&extra));
}

#[test]
fn pass_and_move_change_turn_and_pass_count() {
    let mut board = sparse_board();
    board.apply_pass();
    assert_eq!(board.player, SECOND_PLAYER);
    assert_eq!(board.consecutive_passes, 1);
    assert_eq!(board.hash, hash_board(&board));
    board.apply_move(&Move { r1: 0, c1: 0, r2: 0, c2: 9, priority: 0 });
    assert_eq!(board.player, FIRST_PLAYER);
    assert_eq!(board.consecutive_passes, 0);
    assert_eq!(board.owners[0][5], SECOND_PLAYER);
    assert_eq!(board.owned_cells(SECOND_PLAYER), 10);
    assert_eq!(board.owned_cells(FIRST_PLAYER), 0);
    assert_eq!(board.hash, hash_board(&board));
}

#[test]
fn legality_requires_sum_ten_and_touching_sides() {
    let mut rows = ["00000000000000000"; 10];
    rows[2] = "00550000000000000";
    rows[3] = "00000000000000000";
    let board = board_from_rows(&rows);
    assert!(board.is_legal_move(&Move { r1: 2, c1: 2, r2: 2, c2: 3, priority: 0 }));
    // The bottom row of this rectangle holds no mushroom.
    assert!(!board.is_legal_move(&Move { r1: 2, c1: 2, r2: 3, c2: 3, priority: 0 }));
    assert!(!board.is_legal_move(&Move { r1: 2, c1: 2, r2: 2, c2: 2, priority: 0 }));
    assert!(board.is_legal_move(&Move::pass()));
    assert_eq!(board.legal_moves().len(), 1);
}

#[test]
fn region_helpers_on_the_board() {
    let board = sparse_board();
    assert_eq!(board.barrier_potential(0, 0, 0, 9), 1);
    assert_eq!(board.barrier_potential(4, 5, 4, 10), 2);
    assert_eq!(board.barrier_potential(0, 0, 3, 0), 1);
    assert_eq!(board.barrier_potential(0, 0, 1, 1), 0);
    assert_eq!(board.connectivity_boost(0, 0, 0, 1), 0);
    assert_eq!(board.dead_cell_risk_proxy(1, 0, 1, 1), 4);
}
