pub mod engine;
pub mod ordering;
pub mod tt;
pub mod zobrist;

pub use tt::ensure_tt_ready;
pub use zobrist::hash_board;
