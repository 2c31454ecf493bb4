use vstd::prelude::*;

use crate::eval::{EvalWeightSet, EvalWeights};
use crate::search::zobrist::xorshift_step;
use crate::text::{
    dec_int, has_prefix, lemma_lines_count, lemma_lines_from_in_range, lemma_spaced_line_numbers, lemma_trim, line_spans,
    numbers_among, push_decimal, spaced_line, span_is, split_lines, starts_with, token_spans, trim_span, trimmed,
};
use vstd::string::StringSliceAdditionalSpecFns;

verus! {

/// A small xorshift generator (shifts 13, 7, 17).
pub struct SmallRng(pub u64);

impl SmallRng {
    /// A generator with state `seed`.
    pub fn new(seed: u64) -> (rng: Self)
        ensures
            rng.0 == seed,
    {
        SmallRng(seed)
    }

    /// Advances the state one xorshift step and returns it.
    pub fn next_u64(&mut self) -> (x: u64)
        ensures
            final(self).0 == xorshift_step(old(self).0),
            x == final(self).0,
    {
        self.0 = self.0 ^ (self.0 << 13u64);
        self.0 = self.0 ^ (self.0 >> 7u64);
        self.0 = self.0 ^ (self.0 << 17u64);
        self.0
    }

    /// Advances the state one step and returns -1 where the new state is even, 1 where it is
    /// odd.
    pub fn plus_minus_one(&mut self) -> (sign: i32)
        ensures
            final(self).0 == xorshift_step(old(self).0),
            sign == if final(self).0 & 1u64 == 0 {
                -1i32
            } else {
                1i32
            },
    {
        if (self.next_u64() & 1) == 0 {
            -1
        } else {
            1
        }
    }
}

/// The wins, losses and draws of one side.
#[derive(Clone, Copy, Debug, Default)]
pub struct SideRecord {
    pub wins: i32,
    pub losses: i32,
    pub draws: i32,
}

/// The record over all games and over the games played second.
#[derive(Clone, Copy, Debug, Default)]
pub struct MatchScore {
    pub overall: SideRecord,
    pub second: SideRecord,
}

/// A record with no game.
pub open spec fn no_games() -> SideRecord {
    SideRecord { wins: 0, losses: 0, draws: 0 }
}

/// Every count of the record lies in `0..=n`.
pub open spec fn record_within(r: SideRecord, n: int) -> bool {
    0 <= r.wins <= n && 0 <= r.losses <= n && 0 <= r.draws <= n
}

impl MatchScore {
    /// Four times what the tuner maximises: ten times the score as second player (a win 1, a
    /// loss -1, a draw 1/2) plus the overall score (a win 1, a loss -1, a draw 1/4).
    pub open spec fn spec_objective_quarters(self) -> int {
        40 * self.second.wins - 40 * self.second.losses + 20 * self.second.draws + 4 * self.overall.wins - 4
            * self.overall.losses + self.overall.draws
    }

    /// Four times the tuner's objective (see `spec_objective_quarters`); the objective itself
    /// is this divided by four.
    pub fn objective_quarters(&self) -> (q: i64)
        ensures
            q == self.spec_objective_quarters(),
    {
        40 * (self.second.wins as i64) - 40 * (self.second.losses as i64) + 20 * (self.second.draws as i64) + 4
            * (self.overall.wins as i64) - 4 * (self.overall.losses as i64) + (self.overall.draws as i64)
    }
}

/// The score after one more game whose result is `result`, the tuned engine having played
/// `side`: a draw counts as a draw, a result naming the engine's side as a win, anything else
/// as a loss; games played as `SECOND` count in the second record too.
pub open spec fn tally(side: Seq<u8>, result: Seq<u8>, sc: MatchScore) -> MatchScore {
    let second = side == "SECOND".spec_bytes();
    let o = sc.overall;
    let t = sc.second;
    if result == "DRAW".spec_bytes() {
        MatchScore {
            overall: SideRecord { draws: (o.draws + 1) as i32, ..o },
            second: if second {
                SideRecord { draws: (t.draws + 1) as i32, ..t }
            } else {
                t
            },
        }
    } else if (side == "FIRST".spec_bytes() && result == "FIRST".spec_bytes()) || (second && result
        == "SECOND".spec_bytes()) {
        MatchScore {
            overall: SideRecord { wins: (o.wins + 1) as i32, ..o },
            second: if second {
                SideRecord { wins: (t.wins + 1) as i32, ..t }
            } else {
                t
            },
        }
    } else {
        MatchScore {
            overall: SideRecord { losses: (o.losses + 1) as i32, ..o },
            second: if second {
                SideRecord { losses: (t.losses + 1) as i32, ..t }
            } else {
                t
            },
        }
    }
}

/// What one more game does to four times the tuner's objective: as second player a win adds
/// 44, a loss takes 44 away and a draw adds 21 (ten times 1, -1, 1/2 as second plus 1, -1, 1/4
/// overall, all times four); as first player a win adds 4, a loss takes 4 away and a draw adds 1.
/// With no game the objective is 0.
pub proof fn lemma_objective_per_game(sc: MatchScore)
    requires
        record_within(sc.overall, 1000000),
        record_within(sc.second, 1000000),
    ensures
        (MatchScore { overall: no_games(), second: no_games() }).spec_objective_quarters() == 0,
        tally("SECOND".spec_bytes(), "SECOND".spec_bytes(), sc).spec_objective_quarters() == sc.spec_objective_quarters() + 44,
        tally("SECOND".spec_bytes(), "FIRST".spec_bytes(), sc).spec_objective_quarters() == sc.spec_objective_quarters() - 44,
        tally("SECOND".spec_bytes(), "DRAW".spec_bytes(), sc).spec_objective_quarters() == sc.spec_objective_quarters() + 21,
        tally("FIRST".spec_bytes(), "FIRST".spec_bytes(), sc).spec_objective_quarters() == sc.spec_objective_quarters() + 4,
        tally("FIRST".spec_bytes(), "SECOND".spec_bytes(), sc).spec_objective_quarters() == sc.spec_objective_quarters() - 4,
        tally("FIRST".spec_bytes(), "DRAW".spec_bytes(), sc).spec_objective_quarters() == sc.spec_objective_quarters() + 1,
{
    reveal_strlit("SECOND");
    reveal_strlit("FIRST");
    reveal_strlit("DRAW");
    assert(vstd::string::is_ascii("SECOND") && vstd::string::is_ascii("FIRST") && vstd::string::is_ascii("DRAW"));
    vstd::string::is_ascii_spec_bytes("SECOND");
    vstd::string::is_ascii_spec_bytes("FIRST");
    vstd::string::is_ascii_spec_bytes("DRAW");
    let sec = "SECOND".spec_bytes();
    let fst = "FIRST".spec_bytes();
    let drw = "DRAW".spec_bytes();
    assert(sec != drw && fst != drw && sec != fst) by {
        assert(sec.len() != drw.len());
        assert(fst.len() != drw.len());
        assert(sec.len() != fst.len());
    }
    let w = tally(sec, sec, sc);
    assert(w.second.wins == sc.second.wins + 1 && w.overall.wins == sc.overall.wins + 1);
    assert(w.second.losses == sc.second.losses && w.second.draws == sc.second.draws);
    assert(w.overall.losses == sc.overall.losses && w.overall.draws == sc.overall.draws);
    let l = tally(sec, fst, sc);
    assert(l.second.losses == sc.second.losses + 1 && l.overall.losses == sc.overall.losses + 1);
    assert(l.second.wins == sc.second.wins && l.second.draws == sc.second.draws);
    assert(l.overall.wins == sc.overall.wins && l.overall.draws == sc.overall.draws);
}

/// What the log line `s[a..b]` makes of the side being played and the score: `SIDE BOT1=`
/// names the side (trimmed), `RESULT ` reports a game (see `tally`), other lines change
/// nothing.
pub open spec fn log_line(s: Seq<u8>, a: int, b: int, st: (Seq<u8>, MatchScore)) -> (Seq<u8>, MatchScore) {
    let side_tag = "SIDE BOT1=".spec_bytes();
    let result_tag = "RESULT ".spec_bytes();
    if starts_with(s, a, b, side_tag) {
        (trimmed(s, a + side_tag.len(), b), st.1)
    } else if starts_with(s, a, b, result_tag) {
        (st.0, tally(st.0, trimmed(s, a + result_tag.len(), b), st.1))
    } else {
        st
    }
}

/// The side and score after the first `k` lines of a match log.
pub open spec fn log_scan(s: Seq<u8>, k: int) -> (Seq<u8>, MatchScore)
    decreases k,
{
    if k <= 0 {
        (Seq::empty(), MatchScore { overall: no_games(), second: no_games() })
    } else {
        let st = log_scan(s, k - 1);
        log_line(s, line_spans(s)[k - 1].0, line_spans(s)[k - 1].1, st)
    }
}

/// The score that a match log reports.
pub open spec fn log_score(s: Seq<u8>) -> MatchScore {
    log_scan(s, line_spans(s).len() as int).1
}

/// Adds one game to a record's wins, losses or draws.
fn count_game(r: &mut SideRecord, what: u8, n: Ghost<int>)
    requires
        record_within(*old(r), n@),
        n@ < i32::MAX,
    ensures
        *final(r) == if what == 0 {
            SideRecord { wins: (old(r).wins + 1) as i32, ..*old(r) }
        } else if what == 1 {
            SideRecord { losses: (old(r).losses + 1) as i32, ..*old(r) }
        } else {
            SideRecord { draws: (old(r).draws + 1) as i32, ..*old(r) }
        },
        record_within(*final(r), n@ + 1),
{
    if what == 0 {
        r.wins = r.wins + 1;
    } else if what == 1 {
        r.losses = r.losses + 1;
    } else {
        r.draws = r.draws + 1;
    }
}

/// The score that the match log `content` reports (see `log_score`).
pub fn parse_log(content: &str) -> (score: MatchScore)
    requires
        content.spec_bytes().len() < i32::MAX,
    ensures
        score == log_score(content.spec_bytes()),
{
    let s = content.as_bytes();
    let lines = split_lines(s);
    let ghost sp = line_spans(s@);
    proof {
        lemma_lines_from_in_range(s@, 0);
        lemma_lines_count(s@, 0);
    }
    let side_tag = "SIDE BOT1=".as_bytes();
    let result_tag = "RESULT ".as_bytes();
    let mut side: (usize, usize) = (0, 0);
    let mut score = MatchScore { overall: SideRecord { wins: 0, losses: 0, draws: 0 }, second: SideRecord { wins: 0, losses: 0, draws: 0 } };
    let mut k: usize = 0;
    proof {
        assert(s@.subrange(0, 0) =~= Seq::<u8>::empty());
    }
    while k < lines.len()
        invariant
            s@ == content.spec_bytes(),
            s@.len() < i32::MAX,
            side_tag@ == "SIDE BOT1=".spec_bytes(),
            result_tag@ == "RESULT ".spec_bytes(),
            sp == line_spans(s@),
            lines@.len() == sp.len(),
            sp.len() <= s@.len(),
            forall|j: int| 0 <= j < lines@.len() ==> (#[trigger] lines@[j]).0 == sp[j].0 && lines@[j].1 == sp[j].1,
            forall|j: int| 0 <= j < sp.len() ==> 0 <= (#[trigger] sp[j]).0 <= sp[j].1 <= s@.len(),
            k <= lines@.len(),
            side.0 <= side.1 <= s@.len(),
            log_scan(s@, k as int) == (s@.subrange(side.0 as int, side.1 as int), score),
            record_within(score.overall, k as int),
            record_within(score.second, k as int),
        decreases lines@.len() - k,
    {
        let (a, b) = lines[k];
        proof {
            assert(sp[k as int].0 == a && sp[k as int].1 == b);
        }
        if has_prefix(s, a, b, side_tag) {
            proof {
                lemma_trim(s@, (a + side_tag@.len()) as int, b as int);
            }
            side = trim_span(s, a + side_tag.len(), b);
        } else if has_prefix(s, a, b, result_tag) {
            proof {
                lemma_trim(s@, (a + result_tag@.len()) as int, b as int);
            }
            let (ra, rb) = trim_span(s, a + result_tag.len(), b);
            let second = span_is(s, side.0, side.1, "SECOND".as_bytes());
            let what: u8 = if span_is(s, ra, rb, "DRAW".as_bytes()) {
                2
            } else if (span_is(s, side.0, side.1, "FIRST".as_bytes()) && span_is(s, ra, rb, "FIRST".as_bytes())) || (
            second && span_is(s, ra, rb, "SECOND".as_bytes())) {
                0
            } else {
                1
            };
            count_game(&mut score.overall, what, Ghost(k as int));
            if second {
                count_game(&mut score.second, what, Ghost(k as int));
            }
        }
        k += 1;
    }
    score
}

/// The weights the tuner starts from.
pub open spec fn spec_default_weights() -> EvalWeightSet {
    EvalWeightSet {
        first: EvalWeights {
            territory: 148,
            mobility: 20,
            connectivity: 19,
            corners: 18,
            edges: 3,
            recapture: 39,
            vulnerability: 9,
        },
        second: EvalWeights {
            territory: 140,
            mobility: 16,
            connectivity: 28,
            corners: 20,
            edges: 6,
            recapture: 28,
            vulnerability: 18,
        },
    }
}

/// The weights the tuner starts from (see `spec_default_weights`).
pub fn default_weights() -> (w: EvalWeightSet)
    ensures
        w == spec_default_weights(),
{
    EvalWeightSet {
        first: EvalWeights {
            territory: 148,
            mobility: 20,
            connectivity: 19,
            corners: 18,
            edges: 3,
            recapture: 39,
            vulnerability: 9,
        },
        second: EvalWeights {
            territory: 140,
            mobility: 16,
            connectivity: 28,
            corners: 20,
            edges: 6,
            recapture: 28,
            vulnerability: 18,
        },
    }
}

/// The rounded weight at position `index` (0 territory, 1 mobility, 2 connectivity, 3
/// corners, 4 edges, 5 recapture, 6 vulnerability) held to its range: the edge weight to
/// `0..=40`, the others to `-300..=300`.
pub open spec fn spec_clamp_weight(index: int, rounded: int) -> int {
    let lo = if index == 4 {
        0
    } else {
        -300
    };
    let hi = if index == 4 {
        40
    } else {
        300
    };
    if rounded < lo {
        lo
    } else if rounded > hi {
        hi
    } else {
        rounded
    }
}

/// Holds a rounded weight to the range of its position (see `spec_clamp_weight`).
pub fn clamp_weight(index: usize, rounded: i32) -> (w: i32)
    ensures
        w == spec_clamp_weight(index as int, rounded as int),
{
    let (lo, hi) = if index == 4 {
        (0, 40)
    } else {
        (-300, 300)
    };
    if rounded < lo {
        lo
    } else if rounded > hi {
        hi
    } else {
        rounded
    }
}

/// The second-player weights from seven rounded values, in the order territory, mobility,
/// connectivity, corners, edges, recapture, vulnerability, each held to its range.
pub fn vec_to_second(rounded: &[i32; 7]) -> (w: EvalWeights)
    ensures
        w.territory == spec_clamp_weight(0, rounded[0] as int),
        w.mobility == spec_clamp_weight(1, rounded[1] as int),
        w.connectivity == spec_clamp_weight(2, rounded[2] as int),
        w.corners == spec_clamp_weight(3, rounded[3] as int),
        w.edges == spec_clamp_weight(4, rounded[4] as int),
        w.recapture == spec_clamp_weight(5, rounded[5] as int),
        w.vulnerability == spec_clamp_weight(6, rounded[6] as int),
{
    EvalWeights {
        territory: clamp_weight(0, rounded[0]),
        mobility: clamp_weight(1, rounded[1]),
        connectivity: clamp_weight(2, rounded[2]),
        corners: clamp_weight(3, rounded[3]),
        edges: clamp_weight(4, rounded[4]),
        recapture: clamp_weight(5, rounded[5]),
        vulnerability: clamp_weight(6, rounded[6]),
    }
}

/// The fourteen weights in the order a weights file lists them: the first side's territory,
/// mobility, connectivity, corners, edges, recapture and vulnerability, then the second
/// side's.
pub open spec fn weight_list(ws: EvalWeightSet) -> Seq<int> {
    seq![
        ws.first.territory as int,
        ws.first.mobility as int,
        ws.first.connectivity as int,
        ws.first.corners as int,
        ws.first.edges as int,
        ws.first.recapture as int,
        ws.first.vulnerability as int,
        ws.second.territory as int,
        ws.second.mobility as int,
        ws.second.connectivity as int,
        ws.second.corners as int,
        ws.second.edges as int,
        ws.second.recapture as int,
        ws.second.vulnerability as int,
    ]
}

/// The text of a weights file: the fourteen weights (see `weight_list`) in decimal on one
/// line, separated by single spaces.
pub open spec fn weights_text(ws: EvalWeightSet) -> Seq<u8> {
    spaced_line(weight_list(ws))
}

/// The text of the weights file for `ws` (see `weights_text`).
pub fn weights_file_text(ws: &EvalWeightSet) -> (text: Vec<u8>)
    ensures
        text@ == weights_text(*ws),
{
    let vals: [i32; 14] = [
        ws.first.territory,
        ws.first.mobility,
        ws.first.connectivity,
        ws.first.corners,
        ws.first.edges,
        ws.first.recapture,
        ws.first.vulnerability,
        ws.second.territory,
        ws.second.mobility,
        ws.second.connectivity,
        ws.second.corners,
        ws.second.edges,
        ws.second.recapture,
        ws.second.vulnerability,
    ];
    let ghost list = weight_list(*ws);
    proof {
        assert forall|k: int| 0 <= k < 14 implies #[trigger] vals@[k] as int == list[k] by {}
    }
    let mut text: Vec<u8> = Vec::new();
    let mut k: usize = 0;
    proof {
        assert(list.subrange(0, 14) =~= list);
        assert(text@ + spaced_line(list) =~= spaced_line(list));
    }
    while k < 14
        invariant
            k <= 14,
            list.len() == 14,
            list == weight_list(*ws),
            forall|j: int| 0 <= j < 14 ==> #[trigger] vals@[j] as int == list[j],
            k < 14 ==> text@ + spaced_line(list.subrange(k as int, 14)) == spaced_line(list),
            k == 14 ==> text@ == spaced_line(list),
        decreases 14 - k,
    {
        let ghost rest = list.subrange(k as int, 14);
        let ghost before = text@;
        proof {
            assert(rest.drop_first() =~= list.subrange(k + 1, 14));
            assert(rest[0] == list[k as int]);
        }
        push_decimal(&mut text, vals[k]);
        if k + 1 < 14 {
            text.push(32);
            proof {
                assert(spaced_line(rest) == dec_int(rest[0]) + seq![32u8] + spaced_line(rest.drop_first()));
                assert(text@ =~= before + dec_int(rest[0]) + seq![32u8]);
                assert(text@ + spaced_line(list.subrange(k + 1, 14)) =~= before + spaced_line(rest));
            }
        } else {
            text.push(10);
            proof {
                assert(spaced_line(rest) == dec_int(rest[0]) + seq![10u8]);
                assert(text@ =~= before + spaced_line(rest));
            }
        }
        k += 1;
    }
    text
}

/// What the tuner writes as a weights file, the engine reads back as the same weights: its
/// tokens are the fourteen numbers (see `SearchOptions::from_settings`).
pub proof fn lemma_weights_file_reads_back(ws: EvalWeightSet)
    ensures
        EvalWeightSet::spec_from_numbers(
            numbers_among(weights_text(ws), token_spans(weights_text(ws)).len() as int),
        ) == ws,
{
    let list = weight_list(ws);
    assert forall|k: int| 0 <= k < list.len() implies i32::MIN <= #[trigger] list[k] <= i32::MAX by {}
    lemma_spaced_line_numbers(list);
}

} // verus!
