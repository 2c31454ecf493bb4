use mushroom_bot::eval::{EvalWeightSet, EvalWeights};
use mushroom_bot::search::engine::SearchOptions;
use mushroom_bot::tuning::{clamp_weight, default_weights, parse_log, vec_to_second, weights_file_text, SmallRng};

#[test]
fn match_log_tallies_wins_losses_and_draws() {
    let log = "SIDE BOT1=FIRST\nRESULT FIRST\nRESULT SECOND\nRESULT DRAW\nSIDE BOT1= SECOND \r\nRESULT SECOND\r\nRESULT DRAW\nRESULT FIRST\nnoise RESULT FIRST\n";
    let score = parse_log(log);
    assert_eq!(score.overall.wins, 2);
    assert_eq!(score.overall.losses, 2);
    assert_eq!(score.overall.draws, 2);
    assert_eq!(score.second.wins, 1);
    assert_eq!(score.second.losses, 1);
    assert_eq!(score.second.draws, 1);
    assert_eq!(score.objective_quarters(), 22);
    assert_eq!(score.objective_quarters() as f64 / 4.0, 5.5);
}

#[test]
fn match_log_without_side_counts_losses_overall() {
    let score = parse_log("RESULT FIRST\nRESULT DRAW\n");
    assert_eq!(score.overall.wins, 0);
    assert_eq!(score.overall.losses, 1);
    assert_eq!(score.overall.draws, 1);
    assert_eq!(score.second.draws, 0);
    assert_eq!(score.objective_quarters(), -3);
}

#[test]
fn weights_are_held_to_their_ranges() {
    assert_eq!(clamp_weight(4, 50), 40);
    assert_eq!(clamp_weight(4, -3), 0);
    assert_eq!(clamp_weight(0, 400), 300);
    assert_eq!(clamp_weight(2, -301), -300);
    assert_eq!(clamp_weight(1, 17), 17);
    let w = vec_to_second(&[500, -500, 12, 0, 41, 299, -7]);
    assert_eq!(w.territory, 300);
    assert_eq!(w.mobility, -300);
    assert_eq!(w.connectivity, 12);
    assert_eq!(w.corners, 0);
    assert_eq!(w.edges, 40);
    assert_eq!(w.recapture, 299);
    assert_eq!(w.vulnerability, -7);
}

#[test]
fn xorshift_generator_steps_and_signs() {
    let mut rng = SmallRng::new(1);
    let mut x: u64 = 1;
    x ^= x << 13;
    x ^= x >> 7;
    x ^= x << 17;
    assert_eq!(rng.next_u64(), x);
    let mut y = x;
    y ^= y << 13;
    y ^= y >> 7;
    y ^= y << 17;
    let sign = rng.plus_minus_one();
    assert_eq!(sign, if y & 1 == 0 { -1 } else { 1 });
    assert_eq!(rng.0, y);
}

#[test]
fn tuner_starts_from_its_default_weights() {
    let w = default_weights();
    assert_eq!(w.first.territory, 148);
    assert_eq!(w.first.vulnerability, 9);
    assert_eq!(w.second.territory, 140);
    assert_eq!(w.second.connectivity, 28);
    assert_eq!(w.second.vulnerability, 18);
}

#[test]
fn weights_file_lists_fourteen_numbers_on_one_line() {
    let text = weights_file_text(&default_weights());
    assert_eq!(String::from_utf8(text).unwrap(), "148 20 19 18 3 39 9 140 16 28 20 6 28 18\n");
}

#[test]
fn written_weights_read_back_as_the_same_weights() {
    let w = EvalWeightSet {
        first: EvalWeights { territory: -300, mobility: 0, connectivity: 7, corners: -1, edges: 40, recapture: 123, vulnerability: -45 },
        second: EvalWeights { territory: i32::MIN, mobility: i32::MAX, connectivity: 10, corners: -10, edges: 0, recapture: 9, vulnerability: -9 },
    };
    let text = String::from_utf8(weights_file_text(&w)).unwrap();
    assert_eq!(text, format!("-300 0 7 -1 40 123 -45 {} {} 10 -10 0 9 -9\n", i32::MIN, i32::MAX));
    let o = SearchOptions::from_settings(None, None, None, None, None, None, Some(&text));
    assert_eq!(o.weights, w);
}
