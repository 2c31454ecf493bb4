use vstd::prelude::*;

use crate::board::{Board, area_total, barrier_fits, board_text_ok, spec_applied, spec_barrier_potential, spec_owned_cells, rect_ok};
use crate::movegen::{legal_move, move_before};
use crate::opponent_db::{OpponentDB, OpponentFingerprint, KnownFingerprint};
use crate::search::engine::{SearchOptions, search_answer_ok, search_best_move_report_with, tt_bounded, live_count};
use crate::search::tt::{TranspositionTable, ensure_tt_ready};
use crate::text::{has_prefix, starts_with, split_tokens, token_spans, token, parse_i32, spec_parse_int, lemma_spans_in_range};
use crate::types::{
    KnownStyle, Move, MovePriorConfig, Orientation, RegionTag, FIRST_PLAYER, SECOND_PLAYER, ROWS, COLS,
    classify_orientation, classify_region, classify_shape, move_area, opponent, extents_fit, region_fits, area_fits,
    spec_near_corner, spec_near_edge,
    spec_classify_orientation, spec_classify_region, spec_classify_shape, spec_move_area, spec_opponent,
    pass_move, div_trunc,
};
use vstd::string::StringSliceAdditionalSpecFns;

verus! {

/// Token `k` of `s` read as a 32-bit number, or `default` where it is not one.
pub open spec fn token_i32_or(s: Seq<u8>, k: int, default: i32) -> i32 {
    match spec_parse_int(token(s, k), true, i32::MIN as int, i32::MAX as int) {
        Some(v) => v as i32,
        None => default,
    }
}

/// Reads token `k` as a 32-bit number, or `default` (see `token_i32_or`).
fn token_or(bytes: &[u8], spans: &Vec<(usize, usize)>, k: usize, default: i32) -> (v: i32)
    requires
        spans@.len() == token_spans(bytes@).len(),
        forall|j: int|
            0 <= j < spans@.len() ==> (#[trigger] spans@[j]).0 == token_spans(bytes@)[j].0 && spans@[j].1
                == token_spans(bytes@)[j].1,
        k < spans@.len(),
    ensures
        v == token_i32_or(bytes@, k as int, default),
{
    let (a, b) = spans[k];
    proof {
        lemma_spans_in_range(bytes@, k as int);
    }
    match parse_i32(bytes, a, b) {
        Some(x) => x,
        None => default,
    }
}

/// The opponent's move on an `OPP r1 c1 r2 c2 time` line: the four numbers after the
/// keyword, each -1 where it does not read as a number.
pub open spec fn opp_move_of(s: Seq<u8>) -> Move {
    Move {
        r1: token_i32_or(s, 1, -1i32),
        c1: token_i32_or(s, 2, -1i32),
        r2: token_i32_or(s, 3, -1i32),
        c2: token_i32_or(s, 4, -1i32),
        priority: 0,
    }
}

/// The time allowed for a move: the remaining time over the expected number of moves left (a
/// quarter of the mushrooms left, at least 4), rounded toward zero and kept within 20..=2500 ms.
pub open spec fn spec_time_budget(our_time: i32, live: int) -> int {
    let est = if live / 4 > 4 {
        live / 4
    } else {
        4
    };
    let t = div_trunc(our_time as int, est);
    if t < 20 {
        20
    } else if t > 2500 {
        2500
    } else {
        t
    }
}

/// The time allowed for a move (see `spec_time_budget`).
pub fn time_budget(our_time: i32, live: i32) -> (t: i32)
    requires
        0 <= live <= 170,
    ensures
        t == spec_time_budget(our_time, live as int),
{
    let est = if live / 4 > 4 {
        live / 4
    } else {
        4
    };
    let magnitude: i64 = if our_time < 0 {
        -(our_time as i64)
    } else {
        our_time as i64
    };
    let q = magnitude / est as i64;
    let mut t: i64 = if our_time < 0 {
        -q
    } else {
        q
    };
    if t < 20 {
        t = 20;
    }
    if t > 2500 {
        t = 2500;
    }
    t as i32
}

/// Number of cells that hold a mushroom.
fn count_live(board: &Board) -> (n: i32)
    ensures
        n == live_count(board.values, 170),
        0 <= n <= 170,
{
    let mut n: i32 = 0;
    let mut i: usize = 0;
    while i < 170
        invariant
            i <= 170,
            n == live_count(board.values, i as int),
            0 <= n <= i,
        decreases 170 - i,
    {
        if board.values[i / 17][i % 17] > 0 {
            n += 1;
        }
        i += 1;
    }
    n
}

/// The state of the bot between protocol lines: the board, our side, whether to go on, the
/// opponent's passes in a row and since our last move, what is seen of the opponent, move
/// and ply counters, the matched style and whether the match is confident (80% or more),
/// when the fingerprint was last checked and how often it is re-checked, the prior
/// configuration in use, the transposition table and the search settings.
pub struct Protocol {
    pub board: Board,
    pub i_am_first: bool,
    pub running: bool,
    pub opp_consecutive_passes: i32,
    pub opp_passes_since_our_move: i32,
    pub opp_fp: OpponentFingerprint,
    pub move_counter: i32,
    pub opp_move_counter: i32,
    pub ply_counter: i32,
    pub matched_style: KnownStyle,
    pub confident_match: bool,
    pub fingerprint_checked: bool,
    pub fingerprint_check_interval: i32,
    pub last_check_move: i32,
    pub active_prior: Option<MovePriorConfig>,
    pub tt: TranspositionTable,
    pub options: SearchOptions,
}

impl Protocol {
    /// The board is consistent with a side to move, the table is usable, the settings are
    /// valid.
    pub open spec fn inv(&self) -> bool {
        &&& self.board.ready()
        &&& (self.board.player == FIRST_PLAYER || self.board.player == SECOND_PLAYER)
        &&& self.board.consecutive_passes >= 0
        &&& self.tt.wf()
        &&& tt_bounded(&self.tt)
        &&& self.options.wf()
    }

    /// Two states differ at most in the prior configuration in use.
    pub open spec fn same_but_prior(&self, other: &Protocol) -> bool {
        &&& self.board == other.board
        &&& self.i_am_first == other.i_am_first
        &&& self.running == other.running
        &&& self.opp_consecutive_passes == other.opp_consecutive_passes
        &&& self.opp_passes_since_our_move == other.opp_passes_since_our_move
        &&& self.opp_fp == other.opp_fp
        &&& self.move_counter == other.move_counter
        &&& self.opp_move_counter == other.opp_move_counter
        &&& self.ply_counter == other.ply_counter
        &&& self.matched_style == other.matched_style
        &&& self.confident_match == other.confident_match
        &&& self.fingerprint_checked == other.fingerprint_checked
        &&& self.fingerprint_check_interval == other.fingerprint_check_interval
        &&& self.last_check_move == other.last_check_move
        &&& self.tt == other.tt
        &&& self.options == other.options
    }

    /// A fresh state: an empty board with the first side to move, nothing seen, the match
    /// re-check every 3 moves, no prior configuration, an empty table, and `options`.
    pub fn with_options(options: SearchOptions) -> (p: Self)
        requires
            options.wf(),
        ensures
            p.inv(),
            p.board.wf(),
            !p.i_am_first,
            p.running,
            p.opp_consecutive_passes == 0 && p.opp_passes_since_our_move == 0,
            p.move_counter == 0 && p.opp_move_counter == 0 && p.ply_counter == 0,
            p.matched_style == KnownStyle::Unknown,
            !p.confident_match && !p.fingerprint_checked,
            p.fingerprint_check_interval == 3 && p.last_check_move == 0,
            p.active_prior.is_none(),
    {
        Protocol {
            board: Board::new(),
            i_am_first: false,
            running: true,
            opp_consecutive_passes: 0,
            opp_passes_since_our_move: 0,
            opp_fp: OpponentFingerprint::new(),
            move_counter: 0,
            opp_move_counter: 0,
            ply_counter: 0,
            matched_style: KnownStyle::Unknown,
            confident_match: false,
            fingerprint_checked: false,
            fingerprint_check_interval: 3,
            last_check_move: 0,
            active_prior: None,
            tt: TranspositionTable::new(),
            options,
        }
    }

    /// A fresh state with the default search settings (see `with_options`).
    pub fn new() -> (p: Self)
        ensures
            p.inv(),
            p.board.wf(),
            !p.i_am_first,
            p.running,
            p.move_counter == 0 && p.opp_move_counter == 0 && p.ply_counter == 0,
            p.matched_style == KnownStyle::Unknown,
            p.active_prior.is_none(),
    {
        Self::with_options(SearchOptions::defaults())
    }

    /// Uses the prior configuration for our side (id 1 moving first, 2 moving second), or the
    /// database's first one, or none.
    pub fn activate_side_prior(&mut self, db: &OpponentDB)
        ensures
            ({
                let pcs = db.spec_prior_configs();
                let preferred: u32 = if old(self).i_am_first {
                    1
                } else {
                    2
                };
                let found = exists|i: int| 0 <= i < pcs.len() && #[trigger] pcs[i].id == preferred;
                &&& found ==> exists|i: int|
                    0 <= i < pcs.len() && pcs[i].id == preferred && final(self).active_prior == Some(
                        pcs[i].config,
                    ) && forall|j: int| 0 <= j < i ==> #[trigger] pcs[j].id != preferred
                &&& !found && pcs.len() > 0 ==> final(self).active_prior == Some(pcs[0].config)
                &&& !found && pcs.len() == 0 ==> final(self).active_prior.is_none()
            }),
            final(self).same_but_prior(&*old(self)),
    {
        let preferred_id: u32 = if self.i_am_first {
            1
        } else {
            2
        };
        let selected = match db.get_prior_config(preferred_id) {
            Some(cfg) => Some(*cfg),
            None => match db.default_prior_config() {
                Some(cfg) => Some(*cfg),
                None => None,
            },
        };
        self.active_prior = selected;
    }
}

/// The bytes of "FIRST".
pub open spec fn first_word() -> Seq<u8> {
    seq![70u8, 73u8, 82u8, 83u8, 84u8]
}

/// The kind of a protocol line, by the word it starts with.
#[derive(Clone, Copy, Debug, PartialEq, Eq, Structural)]
pub enum LineKind {
    Empty,
    Ready,
    Init,
    Time,
    Opp,
    Finish,
    Other,
}

/// "READY".
pub open spec fn ready_word() -> Seq<u8> {
    seq![82u8, 69u8, 65u8, 68u8, 89u8]
}

/// "INIT".
pub open spec fn init_word() -> Seq<u8> {
    seq![73u8, 78u8, 73u8, 84u8]
}

/// "TIME".
pub open spec fn time_word() -> Seq<u8> {
    seq![84u8, 73u8, 77u8, 69u8]
}

/// "OPP".
pub open spec fn opp_word() -> Seq<u8> {
    seq![79u8, 80u8, 80u8]
}

/// "FINISH".
pub open spec fn finish_word() -> Seq<u8> {
    seq![70u8, 73u8, 78u8, 73u8, 83u8, 72u8]
}

/// The kind of line `s`: empty; else the first of `READY`, `INIT`, `TIME`, `OPP`, `FINISH` that it
/// starts with; else another line (which the protocol ignores).
pub open spec fn spec_line_kind(s: Seq<u8>) -> LineKind {
    let n = s.len() as int;
    if n == 0 {
        LineKind::Empty
    } else if starts_with(s, 0, n, ready_word()) {
        LineKind::Ready
    } else if starts_with(s, 0, n, init_word()) {
        LineKind::Init
    } else if starts_with(s, 0, n, time_word()) {
        LineKind::Time
    } else if starts_with(s, 0, n, opp_word()) {
        LineKind::Opp
    } else if starts_with(s, 0, n, finish_word()) {
        LineKind::Finish
    } else {
        LineKind::Other
    }
}

/// The kind of a protocol line (see `spec_line_kind`): which handler it goes to.
pub fn line_kind(line: &str) -> (k: LineKind)
    ensures
        k == spec_line_kind(line.spec_bytes()),
{
    let b = line.as_bytes();
    let n = b.len();
    if n == 0 {
        return LineKind::Empty;
    }
    let ready: [u8; 5] = [82u8, 69u8, 65u8, 68u8, 89u8];
    let init: [u8; 4] = [73u8, 78u8, 73u8, 84u8];
    let time: [u8; 4] = [84u8, 73u8, 77u8, 69u8];
    let opp: [u8; 3] = [79u8, 80u8, 80u8];
    let finish: [u8; 6] = [70u8, 73u8, 78u8, 73u8, 83u8, 72u8];
    assert(ready@ =~= ready_word());
    assert(init@ =~= init_word());
    assert(time@ =~= time_word());
    assert(opp@ =~= opp_word());
    assert(finish@ =~= finish_word());
    if has_prefix(b, 0, n, &ready) {
        LineKind::Ready
    } else if has_prefix(b, 0, n, &init) {
        LineKind::Init
    } else if has_prefix(b, 0, n, &time) {
        LineKind::Time
    } else if has_prefix(b, 0, n, &opp) {
        LineKind::Opp
    } else if has_prefix(b, 0, n, &finish) {
        LineKind::Finish
    } else {
        LineKind::Other
    }
}

/// `s` contains "FIRST".
pub open spec fn says_first(s: Seq<u8>) -> bool {
    exists|i: int| 0 <= i && i + 5 <= s.len() && #[trigger] s.subrange(i, i + 5) == first_word()
}

/// Whether the line contains "FIRST" (see `says_first`).
fn line_says_first(bytes: &[u8]) -> (b: bool)
    ensures
        b == says_first(bytes@),
{
    let n = bytes.len();
    if n < 5 {
        proof {
            assert forall|i: int| 0 <= i && i + 5 <= bytes@.len() implies #[trigger] bytes@.subrange(i, i + 5)
                != first_word() by {}
        }
        return false;
    }
    let mut i: usize = 0;
    while i <= n - 5
        invariant
            n == bytes@.len(),
            n >= 5,
            i <= n - 4,
            forall|j: int| 0 <= j < i ==> #[trigger] bytes@.subrange(j, j + 5) != first_word(),
        decreases n - i,
    {
        if bytes[i] == 70 && bytes[i + 1] == 73 && bytes[i + 2] == 82 && bytes[i + 3] == 83 && bytes[i + 4] == 84 {
            proof {
                assert(bytes@.subrange(i as int, i + 5) =~= first_word());
            }
            return true;
        }
        proof {
            let w = bytes@.subrange(i as int, i + 5);
            if w == first_word() {
                assert(w[0] == 70u8 && w[1] == 73u8 && w[2] == 82u8 && w[3] == 83u8 && w[4] == 84u8);
            }
        }
        i += 1;
    }
    proof {
        assert forall|j: int| 0 <= j && j + 5 <= bytes@.len() implies #[trigger] bytes@.subrange(j, j + 5)
            != first_word() by {
            assert(j < i);
        }
    }
    false
}

/// 1 for a cell owned by the side to move, else 0.
pub open spec fn cell_own(b: Board, r: int, c: int) -> int {
    if b.own(r, c) == b.player {
        1
    } else {
        0
    }
}

/// Cells of the rectangle owned by the side to move (0 for an empty rectangle).
fn own_cells_in(board: &Board, r1: i32, c1: i32, r2: i32, c2: i32) -> (n: i32)
    requires
        r1 > r2 || c1 > c2 || (0 <= r1 && r2 < 10 && 0 <= c1 && c2 < 17),
    ensures
        n == area_total(|r: int, c: int| cell_own(*board, r, c), r1 as int, c1 as int, r2 as int, c2 as int),
        0 <= n <= 170,
{
    let ghost f = |r: int, c: int| cell_own(*board, r, c);
    if r1 > r2 || c1 > c2 {
        proof {
            crate::board::lemma_area_empty(f, r1 as int, c1 as int, r2 as int, c2 as int);
        }
        return 0;
    }
    let mut n: i32 = 0;
    let mut r = r1;
    while r <= r2
        invariant
            0 <= r1 <= r <= r2 + 1,
            r2 < 10,
            0 <= c1 <= c2 < 17,
            f == (|r: int, c: int| cell_own(*board, r, c)),
            n == area_total(f, r1 as int, c1 as int, r - 1, c2 as int),
        decreases r2 + 1 - r,
    {
        proof {
            crate::board::lemma_area_total_bounds(f, r1 as int, c1 as int, r - 1, c2 as int, 1);
        }
        let mut c = c1;
        while c <= c2
            invariant
                0 <= r1 <= r <= r2,
                r2 < 10,
                0 <= c1 <= c <= c2 + 1,
                c2 < 17,
                f == (|r: int, c: int| cell_own(*board, r, c)),
                0 <= area_total(f, r1 as int, c1 as int, r - 1, c2 as int) <= 17 * 10,
                n == area_total(f, r1 as int, c1 as int, r - 1, c2 as int) + crate::board::row_total(
                    f,
                    r as int,
                    c1 as int,
                    c - 1,
                ),
            decreases c2 + 1 - c,
        {
            proof {
                crate::board::lemma_row_total_bounds(f, r as int, c1 as int, c - 1, 1);
            }
            if board.owners[r as usize][c as usize] == board.player {
                n += 1;
            }
            c += 1;
        }
        r += 1;
    }
    proof {
        crate::board::lemma_area_total_bounds(f, r1 as int, c1 as int, r2 as int, c2 as int, 1);
    }
    n
}

impl Protocol {
    /// A `READY` line: we move first when it contains "FIRST", else second; the board's side to
    /// move follows, and the prior configuration for our side is activated.
    pub fn handle_ready(&mut self, line: &str, db: &OpponentDB)
        requires
            old(self).inv(),
        ensures
            final(self).inv(),
            final(self).i_am_first == says_first(line.spec_bytes()),
            final(self).board.player == if says_first(line.spec_bytes()) {
                FIRST_PLAYER
            } else {
                SECOND_PLAYER
            },
            final(self).board.values == old(self).board.values,
            final(self).board.owners == old(self).board.owners,
            final(self).board.consecutive_passes == old(self).board.consecutive_passes,
            final(self).opp_fp == old(self).opp_fp,
            final(self).move_counter == old(self).move_counter,
            final(self).opp_move_counter == old(self).opp_move_counter,
    {
        let bytes = line.as_bytes();
        if line_says_first(bytes) {
            self.i_am_first = true;
            self.board.player = FIRST_PLAYER;
        } else {
            self.i_am_first = false;
            self.board.player = SECOND_PLAYER;
        }
        self.activate_side_prior(db);
    }

    /// An `INIT` line's board text: the board is set from it (see `init_from_string`), the
    /// opponent's passes and everything seen of the opponent are reset, the table is made
    /// ready, and the prior configuration for our side is activated.
    pub fn handle_init(&mut self, board_str: &str, db: &OpponentDB)
        requires
            old(self).inv(),
            board_text_ok(board_str.spec_bytes()),
        ensures
            final(self).inv(),
            final(self).tt.ready(),
            forall|r: int, c: int|
                crate::board::in_board(r, c) ==> final(self).board.val(r, c) == crate::board::text_value(
                    board_str.spec_bytes(),
                    r,
                    c,
                ) && final(self).board.own(r, c) == crate::types::NO_OWNER,
            final(self).board.player == old(self).board.player,
            final(self).board.consecutive_passes == 0,
            final(self).opp_consecutive_passes == 0,
            final(self).move_counter == 0 && final(self).opp_move_counter == 0 && final(self).ply_counter == 0,
            final(self).opp_fp.move_count == 0,
            final(self).matched_style == KnownStyle::Unknown,
            !final(self).confident_match && !final(self).fingerprint_checked,
            final(self).fingerprint_check_interval == 3 && final(self).last_check_move == 0,
            final(self).i_am_first == old(self).i_am_first,
    {
        self.board.init_from_string(board_str);
        self.opp_consecutive_passes = 0;
        ensure_tt_ready(&mut self.tt);
        proof {
            assert forall|i: int| 0 <= i < self.tt.buckets@.len() implies crate::search::engine::entry_bounded(
                (#[trigger] self.tt.buckets@[i]).slot0,
            ) && crate::search::engine::entry_bounded(self.tt.buckets@[i].slot1) by {
                if old(self).tt.buckets@.len() == crate::search::tt::TT_SIZE {
                    assert(self.tt.buckets@[i] == old(self).tt.buckets@[i]);
                } else {
                    assert(self.tt.buckets@[i] == crate::search::tt::TTBucket::spec_empty());
                }
            }
        }
        self.opp_fp = OpponentFingerprint::new();
        self.move_counter = 0;
        self.opp_move_counter = 0;
        self.ply_counter = 0;
        self.matched_style = KnownStyle::Unknown;
        self.confident_match = false;
        self.fingerprint_checked = false;
        self.fingerprint_check_interval = 3;
        self.last_check_move = 0;
        self.activate_side_prior(db);
    }

    /// Marks the game as finished.
    pub fn finish(&mut self)
        ensures
            !final(self).running,
            final(self).board == old(self).board,
    {
        self.running = false;
    }

    /// Room for one more turn of ours: the move and ply counters and the pass count can grow.
    pub open spec fn time_room(&self) -> bool {
        &&& self.move_counter < i32::MAX
        &&& self.ply_counter < i32::MAX
        &&& self.board.consecutive_passes < i32::MAX
    }

    /// Whether there is room for one more turn of ours (see `time_room`).
    pub fn has_time_room(&self) -> (b: bool)
        ensures
            b == self.time_room(),
    {
        self.move_counter < i32::MAX && self.ply_counter < i32::MAX && self.board.consecutive_passes < i32::MAX
    }
}

/// `mv` is what is played for the search's answer `s` on `b`: `s` itself when it is a pass or
/// legal; otherwise the first legal rectangle (in the order row, last row, column, last
/// column), or a pass when there is none.
pub open spec fn answer_played(b: Board, s: Move, mv: Move) -> bool {
    if s.spec_is_pass() || legal_move(b.values, s) {
        mv == s
    } else if exists|m: Move| legal_move(b.values, m) {
        legal_move(b.values, mv) && forall|m: Move| legal_move(b.values, m) ==> !move_before(m, mv)
    } else {
        mv == pass_move()
    }
}

impl Board {
    /// The move to play for the search's answer `searched` (see `answer_played`); the
    /// replacement rectangle carries the priority that `prior` gives it.
    pub fn answer_or_fallback(&self, searched: &Move, prior: Option<&MovePriorConfig>) -> (mv: Move)
        requires
            self.player != i8::MIN,
        ensures
            answer_played(*self, *searched, mv),
    {
        if searched.is_pass() || self.is_legal_move(searched) {
            return *searched;
        }
        let fallback = self.legal_moves_with(prior);
        if fallback.len() == 0 {
            proof {
                assert forall|m: Move| !legal_move(self.values, m) by {
                    if legal_move(self.values, m) {
                        assert(crate::movegen::legal_rect(self.values, m.r1 as int, m.c1 as int, m.r2 as int, m.c2 as int));
                    }
                }
            }
            Move::pass()
        } else {
            let first = fallback[0];
            proof {
                assert(legal_move(self.values, fallback@[0]));
                assert forall|m: Move| legal_move(self.values, m) implies !move_before(m, first) by {
                    assert(crate::movegen::legal_rect(self.values, m.r1 as int, m.c1 as int, m.r2 as int, m.c2 as int));
                    let i = choose|i: int|
                        0 <= i < fallback@.len() && fallback@[i].r1 == m.r1 && fallback@[i].c1 == m.c1
                            && fallback@[i].r2 == m.r2 && #[trigger] fallback@[i].c2 == m.c2;
                    if i > 0 {
                        assert(move_before(fallback@[0], fallback@[i]));
                    }
                }
            }
            first
        }
    }
}

/// What observing the opponent's rectangle computes fits in 32 bits: its height, width and
/// area, the sums its region needs, and those its barrier potential needs.
pub open spec fn spec_observation_fits(r1: i32, c1: i32, r2: i32, c2: i32) -> bool {
    &&& extents_fit(r1, c1, r2, c2)
    &&& region_fits(r1, c1, r2, c2)
    &&& area_fits(r1, c1, r2, c2)
    &&& barrier_fits(r1, c1, r2, c2)
}

/// Whether observing the rectangle fits in 32 bits (see `spec_observation_fits`).
pub fn observation_fits(r1: i32, c1: i32, r2: i32, c2: i32) -> (b: bool)
    ensures
        b == spec_observation_fits(r1, c1, r2, c2),
{
    let (a1, b1, a2, b2) = (r1 as i64, c1 as i64, r2 as i64, c2 as i64);
    let lo = i32::MIN as i64;
    let hi = i32::MAX as i64;
    let h = a2 - a1 + 1;
    let w = b2 - b1 + 1;
    let extents = lo <= a2 - a1 && h <= hi && lo <= b2 - b1 && w <= hi;
    if !extents {
        return false;
    }
    let row_sum = lo <= a1 + a2 && a1 + a2 <= hi;
    let col_sum = lo <= b1 + b2 && b1 + b2 <= hi;
    let near_corner = (r1 <= 1 && c1 <= 1) || (r1 <= 1 && c2 >= 15) || (r2 >= 8 && c1 <= 1) || (r2 >= 8 && c2 >= 15);
    let near_edge = r1 == 0 || r2 == 9 || c1 == 0 || c2 == 16;
    let region = near_corner || near_edge || (row_sum && col_sum);
    assert(-4294967296 * 4294967296 <= h * w <= 4294967296 * 4294967296) by (nonlinear_arith)
        requires
            -4294967296 <= h <= 4294967296,
            -4294967296 <= w <= 4294967296,
    ;
    let area = (h as i128) * (w as i128);
    let area_ok = lo as i128 <= area && area <= hi as i128;
    let tall = h >= 4 && w <= 2;
    let flat = !tall && w >= 6 && h <= 2;
    let barrier = (!tall || col_sum) && (!flat || row_sum);
    region && area_ok && barrier
}

/// How many more cells the side to move owns than the other side.
pub open spec fn margin_of(b: Board) -> int {
    spec_owned_cells(b, b.player) - spec_owned_cells(b, spec_opponent(b.player) as i8)
}

impl Protocol {
    /// The search settings with the prior configuration in use.
    fn search_options(&self) -> (o: SearchOptions)
        requires
            self.options.wf(),
        ensures
            o.wf(),
            o.prior == self.active_prior,
            o.pass_mode == self.options.pass_mode,
            o.pass_fix == self.options.pass_fix,
            o.weights == self.options.weights,
    {
        SearchOptions {
            killer_history_on: self.options.killer_history_on,
            nullmove_on: self.options.nullmove_on,
            asp_window: self.options.asp_window,
            pass_mode: self.options.pass_mode,
            pass_fix: self.options.pass_fix,
            second_steal: self.options.second_steal,
            prior: self.active_prior,
            weights: self.options.weights,
        }
    }

    /// A `TIME our_ms opp_ms` line: our turn. The answer (a pass, or a rectangle) is played on
    /// the board and returned. With fewer than three tokens we pass. After a finished game
    /// that the opponent did not end by passing twice we answer a pass without playing it;
    /// when the opponent has passed twice and we are ahead we pass. Otherwise the move and ply
    /// counters grow and we search within the time budget (see `time_budget`); a searched move
    /// that is not legal is replaced by the first legal rectangle, or a pass when there is
    /// none, so the move played is always a pass or legal.
    pub fn handle_time(&mut self, line: &str) -> (mv: Move)
        requires
            old(self).inv(),
            old(self).time_room(),
        ensures
            final(self).inv(),
            final(self).opp_consecutive_passes == old(self).opp_consecutive_passes,
            final(self).opp_fp == old(self).opp_fp,
            final(self).i_am_first == old(self).i_am_first,
            ({
                let s = line.spec_bytes();
                let b0 = old(self).board;
                if token_spans(s).len() < 3 {
                    &&& mv == pass_move()
                    &&& spec_applied(b0, final(self).board, mv)
                    &&& final(self).move_counter == old(self).move_counter
                } else if b0.consecutive_passes >= 2 && old(self).opp_consecutive_passes < 2 {
                    &&& final(self).opp_passes_since_our_move == 0
                    &&& mv == pass_move()
                    &&& final(self).board == b0
                    &&& final(self).move_counter == old(self).move_counter
                } else if old(self).opp_consecutive_passes >= 2 && margin_of(b0) > 0 {
                    &&& final(self).opp_passes_since_our_move == 0
                    &&& mv == pass_move()
                    &&& spec_applied(b0, final(self).board, mv)
                    &&& final(self).move_counter == old(self).move_counter
                } else {
                    &&& final(self).opp_passes_since_our_move == 0
                    &&& final(self).move_counter == old(self).move_counter + 1
                    &&& final(self).ply_counter == old(self).ply_counter + 1
                    &&& mv.spec_is_pass() || legal_move(b0.values, mv)
                    &&& (forall|m: Move| !legal_move(b0.values, m)) ==> mv == pass_move()
                    &&& (exists|m: Move| legal_move(b0.values, m)) ==> exists|s: Move| search_answer_ok(
                        b0,
                        s,
                        old(self).options.pass_mode,
                        old(self).options.pass_fix,
                        old(self).options.weights.side(old(self).i_am_first),
                        old(self).tt,
                    ) && answer_played(b0, s, mv)
                    &&& spec_applied(b0, final(self).board, mv)
                }
            }),
    {
        let ghost b0 = self.board;
        let bytes = line.as_bytes();
        let spans = split_tokens(bytes);
        if spans.len() < 3 {
            self.board.apply_pass();
            return Move::pass();
        }
        let our_time = token_or(bytes, &spans, 1, 0);
        let _opp_time = token_or(bytes, &spans, 2, 0);
        self.opp_passes_since_our_move = 0;
        let live = count_live(&self.board);
        let budget = time_budget(our_time, live);
        if self.board.consecutive_passes >= 2 && self.opp_consecutive_passes < 2 {
            return Move::pass();
        }
        if self.opp_consecutive_passes >= 2 {
            let opp = opponent(self.board.player);
            proof {
                crate::search::engine::lemma_cache_bounds(self.board);
            }
            let margin = self.board.owned_cells(self.board.player) - self.board.owned_cells(opp);
            if margin > 0 {
                self.board.apply_pass();
                return Move::pass();
            }
        }
        self.move_counter += 1;
        self.ply_counter += 1;
        let options = self.search_options();
        let report = search_best_move_report_with(&mut self.tt, &self.board, budget, self.i_am_first, &options);
        let best = self.board.answer_or_fallback(&report.best_move, self.active_prior.as_ref());
        proof {
            if exists|m: Move| legal_move(b0.values, m) {
                assert(search_answer_ok(
                    b0,
                    report.best_move,
                    old(self).options.pass_mode,
                    old(self).options.pass_fix,
                    old(self).options.weights.side(old(self).i_am_first),
                    old(self).tt,
                ) && answer_played(b0, report.best_move, best));
            }
        }
        self.board.apply_move(&best);
        best
    }
}

/// `f1` is `f0` after the opponent's pass seen at ply `ply`: one more pass, and the ply of the
/// first pass set if it was not yet.
pub open spec fn pass_observed(f0: OpponentFingerprint, f1: OpponentFingerprint, ply: i32) -> bool {
    &&& f1.pass_seen == f0.pass_seen + 1
    &&& f1.first_pass_ply == if f0.first_pass_ply == 0 {
        ply
    } else {
        f0.first_pass_ply
    }
    &&& f1.move_count == f0.move_count
    &&& f1.shape_counts == f0.shape_counts
    &&& f1.total_area == f0.total_area
    &&& f1.medium_count == f0.medium_count
    &&& f1.large_count == f0.large_count
    &&& f1.tall_count == f0.tall_count
    &&& f1.wide_count == f0.wide_count
    &&& f1.region_counts == f0.region_counts
    &&& f1.steal_seen == f0.steal_seen
    &&& f1.barrier_freq == f0.barrier_freq
    &&& f1.side_ply == f0.side_ply
    &&& f1.we_are_first == f0.we_are_first
}

/// `f1` is `f0` after the opponent's rectangle `m` on board `b0`, as its move `count` at ply
/// `ply`: the move count, last ply and our side recorded; area added; shape, size class,
/// orientation and region counted; a take-back counted when the rectangle held cells of the
/// side to move; barrier potential counted.
pub open spec fn move_observed(
    f0: OpponentFingerprint,
    f1: OpponentFingerprint,
    m: Move,
    b0: Board,
    count: i32,
    ply: i32,
    we_are_first: bool,
) -> bool {
    let (r1, c1, r2, c2) = (m.r1 as int, m.c1 as int, m.r2 as int, m.c2 as int);
    let area = spec_move_area(r1, c1, r2, c2);
    let sc = spec_classify_shape(r1, c1, r2, c2).spec_index();
    let orient = spec_classify_orientation(r1, c1, r2, c2);
    let rt = spec_classify_region(r1, c1, r2, c2).spec_index();
    let took = area_total(|r: int, c: int| cell_own(b0, r, c), r1, c1, r2, c2) > 0;
    &&& f1.move_count == count
    &&& f1.side_ply == ply
    &&& f1.we_are_first == we_are_first
    &&& f1.total_area == f0.total_area + area
    &&& f1.shape_counts@ == f0.shape_counts@.update(sc, (f0.shape_counts@[sc] + 1) as i32)
    &&& f1.medium_count == f0.medium_count + if 5 <= area <= 10 {
        1int
    } else {
        0int
    }
    &&& f1.large_count == f0.large_count + if area >= 11 {
        1int
    } else {
        0int
    }
    &&& f1.tall_count == f0.tall_count + if orient == Orientation::Portrait {
        1int
    } else {
        0int
    }
    &&& f1.wide_count == f0.wide_count + if orient == Orientation::Landscape {
        1int
    } else {
        0int
    }
    &&& f1.region_counts@ == f0.region_counts@.update(rt, (f0.region_counts@[rt] + 1) as i32)
    &&& f1.steal_seen == f0.steal_seen + if took {
        1int
    } else {
        0int
    }
    &&& f1.barrier_freq == f0.barrier_freq + if spec_barrier_potential(r1, c1, r2, c2) > 0 {
        1int
    } else {
        0int
    }
    &&& f1.pass_seen == f0.pass_seen
    &&& f1.first_pass_ply == f0.first_pass_ply
}

/// Whether the fingerprint should be matched now: first after five opponent moves, then again
/// every `interval` moves while the match is not confident.
pub open spec fn spec_should_check(checked: bool, count: i32, last: i32, interval: i32, confident: bool) -> bool {
    if !checked && count >= 5 {
        true
    } else {
        checked && count >= last + interval && !confident
    }
}

impl Protocol {
    /// The line's numbers fit what the update does with them: fewer than six tokens, or a pass
    /// with room in the pass counters, or a rectangle on the board (or empty) with coordinates
    /// within 10000 and room in every counter it raises; and the re-check threshold fits.
    pub open spec fn opp_line_ok(&self, s: Seq<u8>) -> bool {
        token_spans(s).len() < 6 || {
            let m = opp_move_of(s);
            let f = self.opp_fp;
            &&& self.ply_counter < i32::MAX
            &&& self.fingerprint_checked ==> i32::MIN <= self.last_check_move + self.fingerprint_check_interval <= i32::MAX
            &&& if m.spec_is_pass() {
                &&& self.opp_consecutive_passes < i32::MAX
                &&& self.opp_passes_since_our_move < i32::MAX
                &&& f.pass_seen < i32::MAX
                &&& self.board.consecutive_passes < i32::MAX
            } else {
                let (r1, c1, r2, c2) = (m.r1 as int, m.c1 as int, m.r2 as int, m.c2 as int);
                let sc = spec_classify_shape(r1, c1, r2, c2).spec_index();
                let rt = spec_classify_region(r1, c1, r2, c2).spec_index();
                &&& rect_ok(m)
                &&& spec_observation_fits(m.r1, m.c1, m.r2, m.c2)
                &&& self.opp_move_counter < i32::MAX
                &&& f.steal_seen < i32::MAX
                &&& f.medium_count < i32::MAX
                &&& f.large_count < i32::MAX
                &&& f.tall_count < i32::MAX
                &&& f.wide_count < i32::MAX
                &&& f.barrier_freq < i32::MAX
                &&& f.shape_counts@[sc] < i32::MAX
                &&& f.region_counts@[rt] < i32::MAX
                &&& i32::MIN <= f.total_area + spec_move_area(r1, c1, r2, c2) <= i32::MAX
            }
        }
    }

    /// An `OPP r1 c1 r2 c2 time` line: the opponent's move. Fewer than six tokens change
    /// nothing. A pass counts toward the opponent's passes and is played only when it is the
    /// first since our last move; a rectangle resets them and is played. What is seen of the
    /// opponent is updated (see `pass_observed` and `move_observed`) and the ply counted. The
    /// answer says whether the fingerprint should be matched now (see `spec_should_check`).
    pub fn handle_opp(&mut self, line: &str) -> (check: bool)
        requires
            old(self).inv(),
            old(self).opp_line_ok(line.spec_bytes()),
        ensures
            final(self).inv(),
            final(self).tt == old(self).tt,
            final(self).options == old(self).options,
            final(self).i_am_first == old(self).i_am_first,
            final(self).move_counter == old(self).move_counter,
            final(self).matched_style == old(self).matched_style,
            final(self).confident_match == old(self).confident_match,
            final(self).fingerprint_checked == old(self).fingerprint_checked,
            final(self).fingerprint_check_interval == old(self).fingerprint_check_interval,
            final(self).last_check_move == old(self).last_check_move,
            final(self).active_prior == old(self).active_prior,
            ({
                let s = line.spec_bytes();
                let m = opp_move_of(s);
                let b0 = old(self).board;
                if token_spans(s).len() < 6 {
                    &&& !check
                    &&& final(self).board == b0
                    &&& final(self).opp_fp == old(self).opp_fp
                    &&& final(self).ply_counter == old(self).ply_counter
                    &&& final(self).opp_move_counter == old(self).opp_move_counter
                    &&& final(self).opp_consecutive_passes == old(self).opp_consecutive_passes
                    &&& final(self).opp_passes_since_our_move == old(self).opp_passes_since_our_move
                } else {
                    &&& final(self).ply_counter == old(self).ply_counter + 1
                    &&& check == spec_should_check(
                        old(self).fingerprint_checked,
                        final(self).opp_move_counter,
                        old(self).last_check_move,
                        old(self).fingerprint_check_interval,
                        old(self).confident_match,
                    )
                    &&& if m.spec_is_pass() {
                        &&& final(self).opp_consecutive_passes == old(self).opp_consecutive_passes + 1
                        &&& final(self).opp_passes_since_our_move == old(self).opp_passes_since_our_move + 1
                        &&& final(self).opp_passes_since_our_move <= 1 ==> spec_applied(b0, final(self).board, m)
                        &&& final(self).opp_passes_since_our_move > 1 ==> final(self).board == b0
                        &&& final(self).opp_move_counter == old(self).opp_move_counter
                        &&& pass_observed(old(self).opp_fp, final(self).opp_fp, final(self).ply_counter)
                    } else {
                        &&& final(self).opp_consecutive_passes == 0
                        &&& final(self).opp_passes_since_our_move == 0
                        &&& spec_applied(b0, final(self).board, m)
                        &&& final(self).opp_move_counter == old(self).opp_move_counter + 1
                        &&& move_observed(
                            old(self).opp_fp,
                            final(self).opp_fp,
                            m,
                            b0,
                            final(self).opp_move_counter,
                            final(self).ply_counter,
                            old(self).i_am_first,
                        )
                    }
                }
            }),
    {
        let ghost b0 = self.board;
        let bytes = line.as_bytes();
        let spans = split_tokens(bytes);
        if spans.len() < 6 {
            return false;
        }
        let r1 = token_or(bytes, &spans, 1, -1);
        let c1 = token_or(bytes, &spans, 2, -1);
        let r2 = token_or(bytes, &spans, 3, -1);
        let c2 = token_or(bytes, &spans, 4, -1);
        let opp_move = Move { r1, c1, r2, c2, priority: 0 };
        assert(opp_move == opp_move_of(bytes@));
        if opp_move.is_pass() {
            self.opp_consecutive_passes += 1;
            self.opp_passes_since_our_move += 1;
            if self.opp_passes_since_our_move <= 1 {
                self.board.apply_move(&opp_move);
            }
        } else {
            let steal_before = own_cells_in(&self.board, r1, c1, r2, c2);
            self.opp_consecutive_passes = 0;
            self.opp_passes_since_our_move = 0;
            self.board.apply_move(&opp_move);
            if steal_before > 0 {
                self.opp_fp.steal_seen += 1;
            }
        }
        self.ply_counter += 1;
        if !opp_move.is_pass() {
            self.opp_move_counter += 1;
            self.opp_fp.move_count = self.opp_move_counter;
            self.opp_fp.side_ply = self.ply_counter;
            self.opp_fp.we_are_first = self.i_am_first;
            let area = move_area(r1, c1, r2, c2);
            self.opp_fp.total_area += area;
            let sc = classify_shape(r1, c1, r2, c2).index();
            self.opp_fp.shape_counts[sc] += 1;
            if area >= 5 && area <= 10 {
                self.opp_fp.medium_count += 1;
            }
            if area >= 11 {
                self.opp_fp.large_count += 1;
            }
            let orient = classify_orientation(r1, c1, r2, c2);
            if orient == Orientation::Portrait {
                self.opp_fp.tall_count += 1;
            }
            if orient == Orientation::Landscape {
                self.opp_fp.wide_count += 1;
            }
            let rt = classify_region(r1, c1, r2, c2);
            if rt != RegionTag::NoRegion {
                let ri = rt.index();
                self.opp_fp.region_counts[ri] += 1;
            }
            if self.board.barrier_potential(r1, c1, r2, c2) > 0 {
                self.opp_fp.barrier_freq += 1;
            }
        } else {
            self.opp_fp.pass_seen += 1;
            if self.opp_fp.first_pass_ply == 0 {
                self.opp_fp.first_pass_ply = self.ply_counter;
            }
        }
        if !self.fingerprint_checked && self.opp_move_counter >= 5 {
            true
        } else if self.fingerprint_checked && self.opp_move_counter >= self.last_check_move
            + self.fingerprint_check_interval && !self.confident_match {
            true
        } else {
            false
        }
    }

    /// Whether an `OPP` line fits the update (see `opp_line_ok`).
    pub fn check_opp_line(&self, line: &str) -> (ok: bool)
        ensures
            ok == self.opp_line_ok(line.spec_bytes()),
    {
        let bytes = line.as_bytes();
        let spans = split_tokens(bytes);
        if spans.len() < 6 {
            return true;
        }
        let r1 = token_or(bytes, &spans, 1, -1);
        let c1 = token_or(bytes, &spans, 2, -1);
        let r2 = token_or(bytes, &spans, 3, -1);
        let c2 = token_or(bytes, &spans, 4, -1);
        let m = Move { r1, c1, r2, c2, priority: 0 };
        assert(m == opp_move_of(bytes@));
        let f = &self.opp_fp;
        if self.ply_counter == i32::MAX {
            return false;
        }
        if self.fingerprint_checked {
            let sum = self.last_check_move as i64 + self.fingerprint_check_interval as i64;
            if sum < i32::MIN as i64 || sum > i32::MAX as i64 {
                return false;
            }
        }
        if m.is_pass() {
            return self.opp_consecutive_passes < i32::MAX && self.opp_passes_since_our_move < i32::MAX
                && f.pass_seen < i32::MAX && self.board.consecutive_passes < i32::MAX;
        }
        let in_range = r1 > r2 || c1 > c2 || (0 <= r1 && r2 < 10 && 0 <= c1 && c2 < 17);
        if !in_range || !observation_fits(r1, c1, r2, c2) {
            return false;
        }
        let sc = classify_shape(r1, c1, r2, c2).index();
        let rt = classify_region(r1, c1, r2, c2).index();
        let area = move_area(r1, c1, r2, c2);
        let total = f.total_area as i64 + area as i64;
        self.opp_move_counter < i32::MAX && f.steal_seen < i32::MAX && f.medium_count < i32::MAX
            && f.large_count < i32::MAX && f.tall_count < i32::MAX && f.wide_count < i32::MAX
            && f.barrier_freq < i32::MAX && f.shape_counts[sc] < i32::MAX && rt < 4 && f.region_counts[rt]
            < i32::MAX && i32::MIN as i64 <= total && total <= i32::MAX as i64
    }
}

/// The first prior configuration in `pcs` with id `id`, if any.
pub open spec fn first_config_with_id(pcs: Seq<crate::opponent_db::LoadedPriorConfig>, id: u32) -> Option<MovePriorConfig> {
    if exists|i: int| 0 <= i < pcs.len() && #[trigger] pcs[i].id == id {
        let i = choose|i: int|
            0 <= i < pcs.len() && pcs[i].id == id && forall|j: int| 0 <= j < i ==> #[trigger] pcs[j].id != id;
        Some(pcs[i].config)
    } else {
        None
    }
}

impl Protocol {
    /// The outcome of matching the fingerprint: the style found and whether the confidence
    /// reached 40% and 80%. A known style with at least 40% becomes the matched style (marked
    /// checked at the current opponent move count, confident from 80%); when the style changed,
    /// the prior configuration of the first known fingerprint of that style is used, if the
    /// database has it. Otherwise, after an earlier match, the check point moves to the current
    /// opponent move count.
    pub fn apply_match(&mut self, style: KnownStyle, reaches_40: bool, reaches_80: bool, db: &OpponentDB)
        ensures
            final(self).board == old(self).board,
            final(self).opp_fp == old(self).opp_fp,
            final(self).tt == old(self).tt,
            final(self).options == old(self).options,
            final(self).opp_move_counter == old(self).opp_move_counter,
            final(self).move_counter == old(self).move_counter,
            final(self).ply_counter == old(self).ply_counter,
            if style != KnownStyle::Unknown && reaches_40 {
                let fps = db.spec_fingerprints();
                &&& final(self).matched_style == style
                &&& final(self).confident_match == reaches_80
                &&& final(self).fingerprint_checked
                &&& final(self).last_check_move == old(self).opp_move_counter
                &&& old(self).matched_style == style ==> final(self).active_prior == old(self).active_prior
                &&& old(self).matched_style != style ==> {
                    let found = exists|i: int|
                        0 <= i < fps.len() && KnownStyle::spec_from_id(#[trigger] fps[i].style) == style;
                    &&& !found ==> final(self).active_prior == old(self).active_prior
                    &&& found ==> exists|i: int|
                        0 <= i < fps.len() && KnownStyle::spec_from_id(fps[i].style) == style && (forall|j: int|
                            0 <= j < i ==> KnownStyle::spec_from_id(#[trigger] fps[j].style) != style) && (match first_config_with_id(
                            db.spec_prior_configs(),
                            fps[i].prior_config_id,
                        ) {
                            Some(cfg) => final(self).active_prior == Some(cfg),
                            None => final(self).active_prior == old(self).active_prior,
                        })
                }
            } else {
                &&& final(self).matched_style == old(self).matched_style
                &&& final(self).confident_match == old(self).confident_match
                &&& final(self).fingerprint_checked == old(self).fingerprint_checked
                &&& final(self).active_prior == old(self).active_prior
                &&& final(self).last_check_move == if old(self).fingerprint_checked {
                    old(self).opp_move_counter
                } else {
                    old(self).last_check_move
                }
            },
    {
        if style != KnownStyle::Unknown && reaches_40 {
            let old_style = self.matched_style;
            self.matched_style = style;
            self.confident_match = reaches_80;
            self.fingerprint_checked = true;
            self.last_check_move = self.opp_move_counter;
            if old_style != style || !self.fingerprint_checked {
                let fps = db.fingerprints();
                let mut i: usize = 0;
                while i < fps.len()
                    invariant_except_break
                        self.active_prior == old(self).active_prior,
                    invariant
                        fps@ == db.spec_fingerprints(),
                        i <= fps@.len(),
                        forall|j: int| 0 <= j < i ==> KnownStyle::spec_from_id(#[trigger] fps@[j].style) != style,
                        self.board == old(self).board,
                        self.opp_fp == old(self).opp_fp,
                        self.tt == old(self).tt,
                        self.options == old(self).options,
                        self.opp_move_counter == old(self).opp_move_counter,
                        self.move_counter == old(self).move_counter,
                        self.ply_counter == old(self).ply_counter,
                        self.matched_style == style,
                        self.confident_match == reaches_80,
                        self.fingerprint_checked,
                        self.last_check_move == old(self).opp_move_counter,
                    ensures
                        (forall|j: int| 0 <= j < fps@.len() ==> KnownStyle::spec_from_id(#[trigger] fps@[j].style) != style)
                            ==> self.active_prior == old(self).active_prior,
                        (exists|j: int| 0 <= j < fps@.len() && KnownStyle::spec_from_id(#[trigger] fps@[j].style) == style)
                            ==> exists|k: int|
                            0 <= k < fps@.len() && KnownStyle::spec_from_id(fps@[k].style) == style && (forall|j: int|
                                0 <= j < k ==> KnownStyle::spec_from_id(#[trigger] fps@[j].style) != style) && (match first_config_with_id(
                                db.spec_prior_configs(),
                                fps@[k].prior_config_id,
                            ) {
                                Some(cfg) => self.active_prior == Some(cfg),
                                None => self.active_prior == old(self).active_prior,
                            }),
                    decreases fps@.len() - i,
                {
                    let fp = fps[i];
                    if fp.known_style() == style {
                        let ghost pcs = db.spec_prior_configs();
                        let ghost id = fp.prior_config_id;
                        match db.get_prior_config(fp.prior_config_id) {
                            Some(cfg) => {
                                proof {
                                    let w = choose|w: int|
                                        0 <= w < pcs.len() && pcs[w].id == id && *cfg == pcs[w].config && forall|j: int|
                                            0 <= j < w ==> #[trigger] pcs[j].id != id;
                                    assert(exists|k: int| 0 <= k < pcs.len() && #[trigger] pcs[k].id == id);
                                    let k = choose|k: int|
                                        0 <= k < pcs.len() && pcs[k].id == id && forall|j: int| 0 <= j < k ==> #[trigger] pcs[j].id != id;
                                    assert(!(k < w));
                                    assert(!(w < k));
                                    assert(first_config_with_id(pcs, id) == Some(pcs[w].config));
                                }
                                self.active_prior = Some(*cfg);
                            },
                            None => {
                                proof {
                                    assert(first_config_with_id(pcs, id) is None);
                                }
                            },
                        }
                        proof {
                            assert(KnownStyle::spec_from_id(fps@[i as int].style) == style);
                        }
                        break;
                    }
                    i += 1;
                }
            }
        } else if self.fingerprint_checked {
            self.last_check_move = self.opp_move_counter;
        }
    }
}

} // verus!
