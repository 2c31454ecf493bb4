use mushroom_bot::board::Board;
use mushroom_bot::opponent_db::OpponentDB;
use mushroom_bot::protocol::{line_kind, time_budget, LineKind, Protocol};
use mushroom_bot::types::{KnownStyle, FIRST_PLAYER, SECOND_PLAYER};

fn sparse_text() -> String {
    let mut rows = ["00000000000000000"; 10];
    rows[0] = "11111111110000000";
    rows.join(" ")
}

#[test]
fn ready_line_picks_the_side() {
    let db = OpponentDB::new();
    let mut p = Protocol::new();
    p.handle_ready("READY FIRST", &db);
    assert!(p.i_am_first);
    assert_eq!(p.board.player, FIRST_PLAYER);
    p.handle_ready("READY SECOND", &db);
    assert!(!p.i_am_first);
    assert_eq!(p.board.player, SECOND_PLAYER);
    assert!(p.active_prior.is_none());
}

#[test]
fn time_line_answers_a_legal_move_and_plays_it() {
    let db = OpponentDB::new();
    let mut p = Protocol::new();
    p.handle_ready("READY FIRST", &db);
    let text = sparse_text();
    assert!(Board::board_text_ok(&text));
    p.handle_init(&text, &db);
    assert_eq!(p.board.values[0][0], 1);
    assert!(p.has_time_room());
    let before = p.board.clone();
    let mv = p.handle_time("TIME 1000 1000");
    assert!(!mv.is_pass());
    assert!(before.is_legal_move(&mv));
    assert_eq!(p.move_counter, 1);
    for r in mv.r1..=mv.r2 {
        for c in mv.c1..=mv.c2 {
            assert_eq!(p.board.values[r as usize][c as usize], 0);
            assert_eq!(p.board.owners[r as usize][c as usize], FIRST_PLAYER);
        }
    }
}

#[test]
fn short_time_line_passes() {
    let db = OpponentDB::new();
    let mut p = Protocol::new();
    p.handle_ready("READY SECOND", &db);
    p.handle_init(&sparse_text(), &db);
    let mv = p.handle_time("TIME");
    assert!(mv.is_pass());
    assert_eq!(p.board.consecutive_passes, 1);
}

#[test]
fn opponent_move_is_played_and_observed() {
    let db = OpponentDB::new();
    let mut p = Protocol::new();
    p.handle_ready("READY SECOND", &db);
    p.handle_init(&sparse_text(), &db);
    let line = "OPP 0 0 0 9 500";
    let mover = p.board.player;
    assert!(p.check_opp_line(line));
    let check = p.handle_opp(line);
    assert!(!check);
    assert_eq!(p.opp_move_counter, 1);
    assert_eq!(p.opp_fp.move_count, 1);
    assert_eq!(p.opp_fp.total_area, 10);
    assert_eq!(p.board.values[0][5], 0);
    assert_eq!(p.board.owners[0][5], mover);
    let pass = "OPP -1 -1 -1 -1 10";
    assert!(p.check_opp_line(pass));
    p.handle_opp(pass);
    assert_eq!(p.opp_consecutive_passes, 1);
    assert_eq!(p.opp_fp.pass_seen, 1);
}

#[test]
fn confident_match_sets_style_and_check_point() {
    let db = OpponentDB::new();
    let mut p = Protocol::new();
    p.apply_match(KnownStyle::RustOld, true, false, &db);
    assert_eq!(p.matched_style, KnownStyle::RustOld);
    assert!(p.fingerprint_checked);
    assert!(!p.confident_match);
    p.apply_match(KnownStyle::CordycepsAttack, false, false, &db);
    assert_eq!(p.matched_style, KnownStyle::RustOld);
}

#[test]
fn move_time_is_the_remaining_time_over_the_moves_left() {
    assert_eq!(time_budget(10000, 170), 238);
    assert_eq!(time_budget(10000, 10), 2500);
    assert_eq!(time_budget(100, 40), 20);
    assert_eq!(time_budget(-500, 40), 20);
    assert_eq!(time_budget(4000, 8), 1000);
}

#[test]
fn protocol_lines_go_by_their_first_word() {
    assert_eq!(line_kind(""), LineKind::Empty);
    assert_eq!(line_kind("READY FIRST"), LineKind::Ready);
    assert_eq!(line_kind("INIT 000"), LineKind::Init);
    assert_eq!(line_kind("TIME 1000 1000"), LineKind::Time);
    assert_eq!(line_kind("OPP 0 0 0 9 100"), LineKind::Opp);
    assert_eq!(line_kind("FINISH"), LineKind::Finish);
    assert_eq!(line_kind("OP"), LineKind::Other);
    assert_eq!(line_kind(" TIME 5"), LineKind::Other);
}
