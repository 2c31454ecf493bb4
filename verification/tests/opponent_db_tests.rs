use mushroom_bot::opponent_db::OpponentDB;

#[test]
fn opponent_db_rejects_tiny_payloads() {
    let mut db = OpponentDB::new();
    assert!(!db.load(&[1, 2, 3, 4]));
    assert!(!db.is_loaded());
}
