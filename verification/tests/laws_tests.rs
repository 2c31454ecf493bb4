use mushroom_bot::board::{Board, MoveRecord};
use mushroom_bot::eval::{evaluate, EvalWeightSet, EvalWeights};
use mushroom_bot::movegen::generate_legal_moves;
use mushroom_bot::protocol::observation_fits;
use mushroom_bot::search::engine::{search_best_move_report_with, SearchOptions};
use mushroom_bot::search::zobrist::hash_board;
use mushroom_bot::search::tt::TranspositionTable;
use mushroom_bot::types::{Move, FIRST_PLAYER, SECOND_PLAYER};

fn medium_text() -> String {
    let mut rows = ["00000000000000000"; 10];
    rows[0] = "11111111110000000";
    rows[2] = "00123000000000000";
    rows[3] = "00400000000000000";
    rows[6] = "00000000000055000";
    rows.join(" ")
}

fn board_with_player(player: i8) -> Board {
    let mut b = Board::new();
    b.player = player;
    let text = medium_text();
    assert!(Board::board_text_ok(&text));
    b.init_from_string(&text);
    b
}

#[test]
fn fallback_keeps_legal_answers_and_replaces_others() {
    let b = board_with_player(FIRST_PLAYER);
    let legal = Move { r1: 0, c1: 0, r2: 0, c2: 9, priority: 7 };
    assert_eq!(b.answer_or_fallback(&legal, None), legal);
    assert!(b.answer_or_fallback(&Move::pass(), None).is_pass());
    let bogus = Move { r1: 5, c1: 5, r2: 5, c2: 5, priority: 0 };
    let first = b.answer_or_fallback(&bogus, None);
    let all = generate_legal_moves(&b.values);
    assert!(first.coords_eq(&all[0]));
    let empty = Board::new();
    assert!(empty.answer_or_fallback(&bogus, None).is_pass());
}

#[test]
fn legal_move_lists_agree_rectangle_by_rectangle() {
    let b = board_with_player(FIRST_PLAYER);
    let a = b.legal_moves();
    let g = generate_legal_moves(&b.values);
    assert_eq!(a.len(), g.len());
    for (x, y) in a.iter().zip(g.iter()) {
        assert!(x.coords_eq(y));
    }
}

#[test]
fn moves_taken_back_in_reverse_order_restore_the_board() {
    let mut b = board_with_player(FIRST_PLAYER);
    let before = b;
    let m1 = Move { r1: 0, c1: 0, r2: 0, c2: 9, priority: 0 };
    let m2 = Move { r1: 2, c1: 2, r2: 3, c2: 4, priority: 0 };
    let mut r1 = MoveRecord::new();
    let mut r2 = MoveRecord::new();
    let mut r3 = MoveRecord::new();
    b.make_move(&m1, &mut r1);
    b.make_move(&m2, &mut r2);
    b.make_move(&Move::pass(), &mut r3);
    b.unmake_move(&r3);
    b.unmake_move(&r2);
    b.unmake_move(&r1);
    assert_eq!(b.values, before.values);
    assert_eq!(b.owners, before.owners);
    assert_eq!(b.player, before.player);
    assert_eq!(b.consecutive_passes, before.consecutive_passes);
    assert_eq!(b.hash, before.hash);
}

#[test]
fn evaluation_does_not_depend_on_which_side_moves() {
    let mut b = board_with_player(FIRST_PLAYER);
    let mut b2 = board_with_player(SECOND_PLAYER);
    let m = Move { r1: 0, c1: 0, r2: 0, c2: 9, priority: 0 };
    b.apply_move(&m);
    b2.apply_move(&m);
    assert_eq!(b.owners[0][3], FIRST_PLAYER);
    assert_eq!(b2.owners[0][3], SECOND_PLAYER);
    for f in [true, false] {
        assert_eq!(evaluate(&b, f), evaluate(&b2, f));
    }
}

#[test]
fn observation_fits_only_what_overflows_refuses() {
    assert!(observation_fits(0, 0, 0, 9));
    assert!(observation_fits(5, 20000, 3, -20000));
    assert!(!observation_fits(i32::MIN, 0, i32::MAX, 0));
    assert!(!observation_fits(0, 0, 50000, 50000));
}

#[test]
fn search_with_passes_off_answers_a_legal_rectangle() {
    let board = board_with_player(FIRST_PLAYER);
    let mut options = SearchOptions::defaults();
    options.pass_mode = 2;
    let mut tt = TranspositionTable::new();
    for _ in 0..2 {
        let report = search_best_move_report_with(&mut tt, &board, 300, true, &options);
        assert!(!report.best_move.is_pass());
        assert!(board.is_legal_move(&report.best_move));
    }
}

#[test]
fn search_with_many_legal_rectangles_does_not_pass() {
    let board = board_with_player(SECOND_PLAYER);
    assert!(board.legal_moves().len() > 5);
    let options = SearchOptions::defaults();
    let mut tt = TranspositionTable::new();
    let report = search_best_move_report_with(&mut tt, &board, 300, false, &options);
    assert!(board.is_legal_move(&report.best_move));
}

#[test]
fn weights_fit_the_search_by_the_sum_of_their_magnitudes() {
    let w = EvalWeights {
        territory: 2900,
        mobility: 123456,
        connectivity: 0,
        corners: 0,
        edges: 0,
        recapture: 0,
        vulnerability: -41,
    };
    assert!(EvalWeightSet { first: w, second: w }.check_fits_search());
    let heavier = EvalWeights { vulnerability: -42, ..w };
    assert!(!EvalWeightSet { first: w, second: heavier }.check_fits_search());
    assert!(!EvalWeightSet { first: heavier, second: w }.check_fits_search());
}

#[test]
fn boards_differing_only_in_side_to_move_get_different_keys() {
    let first = board_with_player(FIRST_PLAYER);
    let second = board_with_player(SECOND_PLAYER);
    assert_eq!(first.values, second.values);
    assert_eq!(first.owners, second.owners);
    assert_ne!(hash_board(&first), hash_board(&second));
}
