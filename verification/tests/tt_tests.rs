use mushroom_bot::search::tt::tt_flag::{EXACT, LOWER_BOUND};
use mushroom_bot::search::tt::{advance_tt_age, ensure_tt_ready, pack_move, tt_probe, tt_store, unpack_move, TranspositionTable};
use mushroom_bot::types::Move;

#[test]
fn packed_moves_unpack_to_the_same_rectangle() {
    let m = Move { r1: 9, c1: 16, r2: 9, c2: 16, priority: 77 };
    let p = pack_move(&m);
    assert_eq!(p, (9 << 15) | (16 << 10) | (9 << 6) | (16 << 1));
    let back = unpack_move(p);
    assert_eq!((back.r1, back.c1, back.r2, back.c2, back.priority), (9, 16, 9, 16, 0));
    assert_eq!(pack_move(&Move::pass()), 0xFFFF_FFFF);
    assert!(unpack_move(0xFFFF_FFFF).is_pass());
}

#[test]
fn stored_result_is_found_again() {
    let mut tt = TranspositionTable::new();
    ensure_tt_ready(&mut tt);
    let key: u64 = 0x1234_5678_0000_0042;
    let m = Move { r1: 1, c1: 2, r2: 3, c2: 4, priority: 0 };
    tt_store(&mut tt, key, 5, 120, EXACT, &m);
    let mut value = 0;
    let mut best = Move::pass();
    assert!(tt_probe(&tt, key, 5, -1000, 1000, &mut value, &mut best));
    assert_eq!(value, 120);
    assert_eq!((best.r1, best.c1, best.r2, best.c2), (1, 2, 3, 4));

    let mut shallow_value = 7;
    let mut hint = Move::pass();
    assert!(!tt_probe(&tt, key, 6, -1000, 1000, &mut shallow_value, &mut hint));
    assert_eq!(shallow_value, 7);
    assert!(hint.is_pass());

    let other: u64 = 0x9999_0000_0000_0042;
    let mut v = 3;
    let mut b = Move::pass();
    assert!(!tt_probe(&tt, other, 1, -1000, 1000, &mut v, &mut b));
    assert_eq!(v, 3);
    assert!(b.is_pass());
}

#[test]
fn lower_bound_cuts_only_at_or_above_beta() {
    let mut tt = TranspositionTable::new();
    ensure_tt_ready(&mut tt);
    advance_tt_age(&mut tt);
    let key: u64 = 7;
    tt_store(&mut tt, key, 3, 500, LOWER_BOUND, &Move::pass());
    let mut value = 0;
    let mut best = Move { r1: 0, c1: 0, r2: 0, c2: 0, priority: 0 };
    assert!(tt_probe(&tt, key, 3, 0, 400, &mut value, &mut best));
    assert_eq!(value, 500);
    let mut value2 = 0;
    assert!(!tt_probe(&tt, key, 3, 0, 600, &mut value2, &mut best));
    assert_eq!(value2, 0);
}
