use mushroom_bot::bytes::crc32_simple;
use mushroom_bot::eval::EvalWeightSet;
use mushroom_bot::mquality::{cell_quality, get_geometry, move_quality_sum};
use mushroom_bot::opponent_db::OpponentFingerprint;
use mushroom_bot::search::engine::{deepening_step, search_budget, Deepening, SearchOptions};
use mushroom_bot::text::{numbers_in_text, parse_i32};
use mushroom_bot::types::{GeometryConfig, Move, ValueGrid};

#[test]
fn crc_of_check_string_is_the_standard_value() {
    assert_eq!(crc32_simple(b"123456789"), 0xCBF4_3926);
    assert_eq!(crc32_simple(b""), 0);
}

#[test]
fn crc_table_entry_thirteen_gives_the_format_its_own_crc() {
    assert_eq!(crc32_simple(&[0x02]), 0x3C0C_8AA1);
    assert_eq!(crc32_simple(&[0x00]), 0xD202_EF8D);
}

#[test]
fn search_settings_read_like_the_environment() {
    let d = SearchOptions::from_settings(None, None, None, None, None, None, None);
    assert!(d.killer_history_on);
    assert!(!d.nullmove_on);
    assert_eq!(d.asp_window, 50);
    assert_eq!(d.pass_mode, 0);
    assert_eq!(d.pass_fix, 0);
    assert_eq!(d.second_steal, 0);
    let o = SearchOptions::from_settings(Some("0"), Some("2"), Some("full"), Some("no-gate"), Some("x"), Some("-3"), None);
    assert!(!o.killer_history_on);
    assert!(o.nullmove_on);
    assert_eq!(o.asp_window, 0);
    assert_eq!(o.pass_mode, 1);
    assert_eq!(o.pass_fix, 0);
    assert_eq!(o.second_steal, -3);
    let a = SearchOptions::from_settings(Some("junk"), None, Some("adaptive"), Some("none"), None, None, None);
    assert!(a.killer_history_on);
    assert_eq!(a.asp_window, -1);
    assert_eq!(a.pass_mode, 2);
    let w = SearchOptions::from_settings(None, None, Some("75"), Some("other"), None, None, None);
    assert_eq!(w.asp_window, 75);
    assert_eq!(w.pass_mode, 0);
    assert!(w.is_valid());
    let bad = SearchOptions::from_settings(None, None, Some("2147483647"), None, None, None, None);
    assert!(!bad.is_valid());
}

#[test]
fn weights_file_text_gives_the_search_weights() {
    let both = SearchOptions::from_settings(None, None, None, None, None, None, Some("1 2 3 4 5 6 7\n8 9 10 11 12 13 14 99"));
    assert_eq!(both.weights.first.territory, 1);
    assert_eq!(both.weights.first.vulnerability, 7);
    assert_eq!(both.weights.second.territory, 8);
    assert_eq!(both.weights.second.vulnerability, 14);
    assert!(both.is_valid());
    let shared = SearchOptions::from_settings(None, None, None, None, None, None, Some("10 x 20 30 40 50 60 70"));
    assert_eq!(shared.weights.first, shared.weights.second);
    assert_eq!(shared.weights.first.mobility, 20);
    assert_eq!(shared.weights.first.vulnerability, 70);
    let few = SearchOptions::from_settings(None, None, None, None, None, None, Some("1 2 3"));
    assert_eq!(few.weights, EvalWeightSet::defaults());
    let edge = SearchOptions::from_settings(None, None, None, None, None, None, Some("2941 0 0 0 0 0 0"));
    assert!(edge.is_valid());
    let big = SearchOptions::from_settings(None, None, None, None, None, None, Some("2942 0 0 0 0 0 0"));
    assert_eq!(big.weights.first.territory, 2942);
    assert!(!big.is_valid());
}

#[test]
fn search_keeps_a_fifth_of_the_budget_in_reserve() {
    assert_eq!(search_budget(1000), 800);
    assert_eq!(search_budget(1), 1);
    assert_eq!(search_budget(-50), 1);
    assert_eq!(search_budget(10000), 8000);
}

#[test]
fn integers_parse_like_rust() {
    let s = b"  +12 -7 2147483648 x9 -2147483648";
    assert_eq!(parse_i32(s, 2, 5), Some(12));
    assert_eq!(parse_i32(s, 6, 8), Some(-7));
    assert_eq!(parse_i32(s, 9, 19), None);
    assert_eq!(parse_i32(s, 20, 22), None);
    assert_eq!(numbers_in_text(s), vec![12, -7, -2147483648]);
}

#[test]
fn quality_falls_back_to_values_and_geometry_to_defaults() {
    let mut values: ValueGrid = [[0; 17]; 10];
    values[2][3] = 4;
    values[2][4] = 5;
    assert_eq!(cell_quality(None, &values, 2, 3), 4);
    let mut q = [[1i8; 17]; 10];
    q[2][3] = 9;
    assert_eq!(cell_quality(Some(&q), &values, 2, 3), 9);
    assert_eq!(move_quality_sum(None, &values, 2, 3, 2, 4), 9);
    assert_eq!(move_quality_sum(Some(&q), &values, 2, 3, 2, 4), 10);
    let g = get_geometry(None);
    assert_eq!(
        (g.corner_weight, g.edge_weight, g.center_weight, g.connectivity_weight, g.steal_weight, g.barrier_weight, g.compact_bonus, g.risk_penalty),
        (10, 5, 3, 8, 12, 15, 6, 10)
    );
    let custom = GeometryConfig { corner_weight: 1, ..g };
    assert_eq!(get_geometry(Some(&custom)).corner_weight, 1);
}

#[test]
fn feature_vector_scales_counts_by_move_count() {
    let mut fp = OpponentFingerprint::new();
    assert!(fp.has_feature_room());
    assert_eq!(fp.to_feature_vector().dim, [0; 8]);
    fp.move_count = 4;
    fp.total_area = 10;
    fp.medium_count = 1;
    fp.steal_seen = 3;
    fp.pass_seen = 1;
    fp.barrier_freq = 2;
    assert!(fp.has_feature_room());
    let fv = fp.to_feature_vector();
    assert_eq!(fv.dim, [320, 32, 0, 0, 0, 96, 32, 64]);
    fp.total_area = i32::MAX;
    assert!(!fp.has_feature_room());
}

#[test]
fn deepening_keeps_an_iteration_only_when_the_budget_was_not_spent() {
    let kept = Deepening { best_move: Move { r1: 0, c1: 0, r2: 0, c2: 9, priority: 0 }, prev_score: 12, completed_depth: 3 };
    let found = Move { r1: 1, c1: 2, r2: 1, c2: 5, priority: 7 };
    let (next, stop) = deepening_step(kept, 4, found, -30, false, false, 100, 800);
    assert_eq!(next.best_move, found);
    assert_eq!(next.prev_score, -30);
    assert_eq!(next.completed_depth, 4);
    assert!(!stop);
    let (next, stop) = deepening_step(kept, 4, found, -30, true, true, 100, 800);
    assert_eq!(next.best_move, kept.best_move);
    assert_eq!(next.prev_score, 12);
    assert_eq!(next.completed_depth, 3);
    assert!(stop);
    let (_, stop) = deepening_step(kept, 4, found, -30, false, false, 401, 800);
    assert!(stop);
    let (_, stop) = deepening_step(kept, 4, found, -30, false, false, 400, 800);
    assert!(!stop);
}
