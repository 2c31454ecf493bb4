use mushroom_bot::board::Board;
use mushroom_bot::board_text::{apply_move_to_rows, board_key, random_board_string, random_sparse_board, read_boards};
use mushroom_bot::types::Move;

fn sparse_rows() -> [&'static str; 10] {
    let mut rows = ["00000000000000000"; 10];
    rows[0] = "11111111110000000";
    rows
}

fn lcg(x: u64) -> u64 {
    x.wrapping_mul(6364136223846793005).wrapping_add(1)
}

#[test]
fn board_key_joins_rows_with_spaces() {
    let rows = sparse_rows();
    let mut board = Board::new();
    let text = rows.join(" ");
    assert!(Board::board_text_ok(&text));
    board.init_from_string(&text);
    let key: String = board_key(&board).into_iter().collect();
    assert_eq!(key.len(), 179);
    assert_eq!(key, text);
}

#[test]
fn move_clears_its_rectangle_in_the_text_rows() {
    let mut rows: Vec<Vec<char>> = ["123", "456", "789"].iter().map(|r| r.chars().collect()).collect();
    apply_move_to_rows(&mut rows, &Move { r1: 0, c1: 1, r2: 1, c2: 2, priority: 0 });
    let text: Vec<String> = rows.iter().map(|r| r.iter().collect()).collect();
    assert_eq!(text, vec!["100", "400", "789"]);
    apply_move_to_rows(&mut rows, &Move::pass());
    let again: Vec<String> = rows.iter().map(|r| r.iter().collect()).collect();
    assert_eq!(again, text);
}

#[test]
fn boards_are_read_between_blank_lines() {
    let content = "  111  \n222\n\n\n 333\t\r\n   \n444";
    let boards = read_boards(content);
    let texts: Vec<Vec<&str>> = boards.iter().map(|b| b.iter().map(|&(x, y)| &content[x..y]).collect()).collect();
    assert_eq!(texts, vec![vec!["111", "222"], vec!["333"], vec!["444"]]);
    assert!(read_boards("\n \n").is_empty());
}

#[test]
fn random_board_draws_one_step_per_cell() {
    let mut rng: u64 = 0xDEAD_BEEF_CAFE_1234;
    let mut x = rng;
    let rows = random_board_string(&mut rng);
    assert_eq!(rows.len(), 10);
    for row in &rows {
        assert_eq!(row.len(), 17);
        for &ch in row {
            x = lcg(x);
            let digit = ((x >> 33) % 9 + 1) as u8;
            assert_eq!(ch, (b'0' + digit) as char);
        }
    }
    assert_eq!(rng, x);
}

#[test]
fn sparse_board_keeps_the_target_number_of_mushrooms() {
    let mut rng: u64 = 12345;
    let rows = random_sparse_board(&mut rng, 40);
    assert_eq!(rows.len(), 10);
    let live = rows.iter().flatten().filter(|&&ch| ch != '0').count();
    assert_eq!(live, 40);
    assert!(rows.iter().all(|r| r.len() == 17 && r.iter().all(|ch| ch.is_ascii_digit())));
    let mut rng2: u64 = 12345;
    let full = random_sparse_board(&mut rng2, 170);
    let mut rng3: u64 = 12345;
    assert_eq!(full, random_board_string(&mut rng3));
    assert_eq!(rng2, rng3);
}
