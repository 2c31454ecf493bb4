use mushroom_bot::board::Board;
use mushroom_bot::search::engine::{search_best_move, search_best_move_report};
use mushroom_bot::types::Move;

fn board_from_rows(rows: &[&str; 10]) -> Board {
    let mut board = Board::new();
    board.init_from_string(&rows.join(" "));
    board
}

fn sparse_board() -> Board {
    let mut rows = ["00000000000000000"; 10];
    rows[0] = "11111111110000000";
    board_from_rows(&rows)
}

fn dense_board() -> Board {
    let mut rows = ["99999999999999999"; 10];
    rows[5] = "99999199999999999";
    board_from_rows(&rows)
}

#[test]
fn search_report_respects_ten_second_budget_and_tracks_depth() {
    let board = dense_board();
    let report = search_best_move_report(&board, 10_000, true);

    assert!(report.elapsed_ms <= 10_000, "search exceeded budget: {}ms", report.elapsed_ms);
    assert!(report.completed_depth >= 1, "completed_depth={}", report.completed_depth);
    assert!(report.nodes > 0, "nodes={}", report.nodes);
    assert!(report.best_move.is_pass() || board.is_legal_move(&report.best_move));
}

#[test]
fn search_best_move_matches_report_best_move() {
    let board = sparse_board();
    let best = search_best_move(&board, 10_000, true);
    let report = search_best_move_report(&board, 10_000, true);

    assert_ne!(best, Move::pass());
    assert!(best.coords_eq(&report.best_move));
}
