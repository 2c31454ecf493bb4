pub mod board;
pub mod board_text;
pub mod bytes;
pub mod clock;
pub mod db_builder;
pub mod db_text;
pub mod eval;
pub mod movegen;
pub mod mquality;
pub mod opponent_db;
pub mod protocol;
pub mod search;
pub mod text;
pub mod timer;
pub mod tuning;
pub mod types;
