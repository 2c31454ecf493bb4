use vstd::prelude::*;

verus! {

/// An ASCII whitespace byte: tab, line feed, vertical tab, form feed, carriage return or space.
pub open spec fn is_ws(b: u8) -> bool {
    b == 9 || b == 10 || b == 11 || b == 12 || b == 13 || b == 32
}

/// The first position at or after `i` that is not whitespace (or the end).
pub open spec fn skip_ws(s: Seq<u8>, i: int) -> int
    decreases s.len() - i,
{
    if 0 <= i < s.len() && is_ws(s[i]) {
        skip_ws(s, i + 1)
    } else {
        i
    }
}

/// The first position at or after `i` that is whitespace (or the end).
pub open spec fn token_end(s: Seq<u8>, i: int) -> int
    decreases s.len() - i,
{
    if 0 <= i < s.len() && !is_ws(s[i]) {
        token_end(s, i + 1)
    } else {
        i
    }
}

/// Skipping whitespace moves forward, stays within the text, and stops at a non-whitespace
/// byte or at the end.
pub proof fn lemma_skip_ws(s: Seq<u8>, i: int)
    requires
        0 <= i <= s.len(),
    ensures
        i <= skip_ws(s, i) <= s.len(),
        skip_ws(s, i) < s.len() ==> !is_ws(s[skip_ws(s, i)]),
        forall|k: int| i <= k < skip_ws(s, i) ==> is_ws(#[trigger] s[k]),
    decreases s.len() - i,
{
    if i < s.len() && is_ws(s[i]) {
        lemma_skip_ws(s, i + 1);
    }
}

/// A token ends after its start, within the text, at whitespace or at the end.
pub proof fn lemma_token_end(s: Seq<u8>, i: int)
    requires
        0 <= i <= s.len(),
    ensures
        i <= token_end(s, i) <= s.len(),
        token_end(s, i) < s.len() ==> is_ws(s[token_end(s, i)]),
        forall|k: int| i <= k < token_end(s, i) ==> !is_ws(#[trigger] s[k]),
    decreases s.len() - i,
{
    if i < s.len() && !is_ws(s[i]) {
        lemma_token_end(s, i + 1);
    }
}

/// The (start, end) positions of the whitespace-separated tokens of `s` from position `i`.
pub open spec fn spans_from(s: Seq<u8>, i: int) -> Seq<(int, int)>
    decreases s.len() - i,
{
    if i < 0 || i > s.len() {
        Seq::empty()
    } else {
        let j = skip_ws(s, i);
        if j >= s.len() {
            Seq::empty()
        } else {
            let e = token_end(s, j);
            proof {
                lemma_skip_ws(s, i);
                lemma_token_end(s, j);
            }
            if e <= i {
                Seq::empty()
            } else {
                seq![(j, e)] + spans_from(s, e)
            }
        }
    }
}

/// The (start, end) positions of the whitespace-separated tokens of `s`.
pub open spec fn token_spans(s: Seq<u8>) -> Seq<(int, int)> {
    spans_from(s, 0)
}

/// The `k`-th token of `s`.
pub open spec fn token(s: Seq<u8>, k: int) -> Seq<u8> {
    s.subrange(token_spans(s)[k].0, token_spans(s)[k].1)
}

/// Every token found from `i` starts at or after `i` and ends, after its start, within the
/// text.
pub proof fn lemma_spans_from_in_range(s: Seq<u8>, i: int)
    ensures
        forall|k: int|
            0 <= k < spans_from(s, i).len() ==> i <= (#[trigger] spans_from(s, i)[k]).0 < spans_from(s, i)[k].1
                <= s.len(),
    decreases s.len() - i,
{
    if 0 <= i <= s.len() {
        let j = skip_ws(s, i);
        lemma_skip_ws(s, i);
        if j < s.len() {
            let e = token_end(s, j);
            lemma_token_end(s, j);
            if e > i {
                lemma_spans_from_in_range(s, e);
                let rest = spans_from(s, e);
                assert forall|k: int| 0 <= k < spans_from(s, i).len() implies i <= (#[trigger] spans_from(s, i)[k]).0
                    < spans_from(s, i)[k].1 <= s.len() by {
                    if k > 0 {
                        assert(spans_from(s, i)[k] == rest[k - 1]);
                    }
                }
            }
        }
    }
}

/// Token `k` lies within the text and is not empty.
pub proof fn lemma_spans_in_range(s: Seq<u8>, k: int)
    requires
        0 <= k < token_spans(s).len(),
    ensures
        0 <= token_spans(s)[k].0 < token_spans(s)[k].1 <= s.len(),
{
    lemma_spans_from_in_range(s, 0);
}

/// The positions of the whitespace-separated tokens of `s` (see `token_spans`).
pub fn split_tokens(s: &[u8]) -> (spans: Vec<(usize, usize)>)
    ensures
        spans@.len() == token_spans(s@).len(),
        forall|k: int|
            0 <= k < spans@.len() ==> (#[trigger] spans@[k]).0 == token_spans(s@)[k].0 && spans@[k].1
                == token_spans(s@)[k].1,
{
    let n = s.len();
    let mut spans: Vec<(usize, usize)> = Vec::new();
    let mut pos: usize = 0;
    let ghost mut got: Seq<(int, int)> = Seq::empty();
    while pos < n
        invariant
            n == s@.len(),
            pos <= n,
            got + spans_from(s@, pos as int) == token_spans(s@),
            spans@.len() == got.len(),
            forall|k: int| 0 <= k < spans@.len() ==> (#[trigger] spans@[k]).0 == got[k].0 && spans@[k].1 == got[k].1,
        decreases n - pos,
    {
        proof {
            lemma_skip_ws(s@, pos as int);
        }
        let mut j = pos;
        while j < n && (s[j] == 9 || s[j] == 10 || s[j] == 11 || s[j] == 12 || s[j] == 13 || s[j] == 32)
            invariant
                n == s@.len(),
                pos <= j <= n,
                skip_ws(s@, j as int) == skip_ws(s@, pos as int),
            decreases n - j,
        {
            j += 1;
        }
        if j >= n {
            proof {
                assert(spans_from(s@, pos as int) =~= Seq::<(int, int)>::empty());
                assert(got + spans_from(s@, n as int) =~= got);
            }
            pos = n;
        } else {
            proof {
                lemma_token_end(s@, j as int);
            }
            let mut e = j;
            while e < n && !(s[e] == 9 || s[e] == 10 || s[e] == 11 || s[e] == 12 || s[e] == 13 || s[e] == 32)
                invariant
                    n == s@.len(),
                    j <= e <= n,
                    token_end(s@, e as int) == token_end(s@, j as int),
                decreases n - e,
            {
                e += 1;
            }
            proof {
                assert(spans_from(s@, pos as int) == seq![(j as int, e as int)] + spans_from(s@, e as int));
                assert(got + spans_from(s@, pos as int) =~= got.push((j as int, e as int)) + spans_from(s@, e as int));
                got = got.push((j as int, e as int));
            }
            spans.push((j, e));
            pos = e;
        }
    }
    proof {
        assert(spans_from(s@, n as int) =~= Seq::<(int, int)>::empty());
        assert(got + spans_from(s@, n as int) =~= got);
    }
    spans
}

/// An ASCII decimal digit.
pub open spec fn is_digit(b: u8) -> bool {
    48 <= b <= 57
}

/// Every byte of `t` is a decimal digit.
pub open spec fn all_digits(t: Seq<u8>) -> bool {
    forall|i: int| 0 <= i < t.len() ==> is_digit(#[trigger] t[i])
}

/// The number that the decimal digits `t` write.
pub open spec fn digits_value(t: Seq<u8>) -> int
    decreases t.len(),
{
    if t.len() == 0 {
        0
    } else {
        digits_value(t.drop_last()) * 10 + (t.last() - 48)
    }
}

/// The number a token writes in Rust's integer syntax: an optional sign (`-` only where
/// negatives are allowed), then one or more decimal digits; `None` for anything else or for
/// a value outside `lo..=hi`.
pub open spec fn spec_parse_int(t: Seq<u8>, signed: bool, lo: int, hi: int) -> Option<int> {
    let neg = signed && t.len() > 0 && t[0] == 45u8;
    let plus = t.len() > 0 && t[0] == 43u8;
    let body = if neg || plus {
        t.subrange(1, t.len() as int)
    } else {
        t
    };
    if body.len() == 0 || !all_digits(body) {
        None
    } else {
        let v = if neg {
            -digits_value(body)
        } else {
            digits_value(body)
        };
        if lo <= v <= hi {
            Some(v)
        } else {
            None
        }
    }
}

/// Decimal digits never write a negative number.
pub proof fn lemma_digits_nonneg(t: Seq<u8>)
    requires
        all_digits(t),
    ensures
        digits_value(t) >= 0,
    decreases t.len(),
{
    if t.len() > 0 {
        lemma_digits_nonneg(t.drop_last());
    }
}

/// Parses the bytes `s[start..end]` as an integer in `lo..=hi` (see `spec_parse_int`); the
/// bounds must lie within a trillion of 0.
pub fn parse_int(s: &[u8], start: usize, end: usize, signed: bool, lo: i64, hi: i64) -> (v: Option<i64>)
    requires
        start <= end <= s@.len(),
        -1_000_000_000_000 <= lo,
        hi <= 1_000_000_000_000,
    ensures
        match v {
            Some(x) => spec_parse_int(s@.subrange(start as int, end as int), signed, lo as int, hi as int)
                == Some(x as int),
            None => spec_parse_int(s@.subrange(start as int, end as int), signed, lo as int, hi as int)
                is None,
        },
{
    let ghost t = s@.subrange(start as int, end as int);
    let neg = signed && start < end && s[start] == 45;
    let plus = start < end && s[start] == 43;
    let body_start = if neg || plus {
        start + 1
    } else {
        start
    };
    let ghost body = s@.subrange(body_start as int, end as int);
    proof {
        assert(t.len() == end - start);
        assert(t.len() > 0 ==> t[0] == s@[start as int]);
        if neg || plus {
            assert(body =~= t.subrange(1, t.len() as int));
        } else {
            assert(body =~= t);
        }
    }
    if body_start >= end {
        return None;
    }
    let cap: u64 = 1_000_000_000_000;
    let mut acc: u64 = 0;
    let mut i = body_start;
    while i < end
        invariant
            start <= body_start < end <= s@.len(),
            body_start <= i <= end,
            body == s@.subrange(body_start as int, end as int),
            t == s@.subrange(start as int, end as int),
            !all_digits(body) ==> spec_parse_int(t, signed, lo as int, hi as int) is None,
            all_digits(body) ==> spec_parse_int(t, signed, lo as int, hi as int) == {
                let v = if neg {
                    -digits_value(body)
                } else {
                    digits_value(body)
                };
                if lo <= v <= hi {
                    Some(v)
                } else {
                    None
                }
            },
            cap == 1_000_000_000_000,
            all_digits(s@.subrange(body_start as int, i as int)),
            acc <= cap * 10 + 9,
            digits_value(s@.subrange(body_start as int, i as int)) <= cap ==> acc == digits_value(
                s@.subrange(body_start as int, i as int),
            ),
            digits_value(s@.subrange(body_start as int, i as int)) > cap ==> acc > cap,
        decreases end - i,
    {
        let b = s[i];
        let ghost prefix = s@.subrange(body_start as int, i as int);
        let ghost next = s@.subrange(body_start as int, i as int + 1);
        proof {
            assert(next.drop_last() =~= prefix);
            assert(next.last() == b);
        }
        if b < 48 || b > 57 {
            proof {
                assert(body[i - body_start] == b);
                assert(!is_digit(body[i - body_start]));
                assert(!all_digits(body));
            }
            return None;
        }
        proof {
            lemma_digits_nonneg(prefix);
            assert(all_digits(next)) by {
                assert forall|k: int| 0 <= k < next.len() implies is_digit(#[trigger] next[k]) by {
                    if k < prefix.len() {
                        assert(next[k] == prefix[k]);
                    }
                }
            }
        }
        if acc <= cap {
            acc = acc * 10 + (b - 48) as u64;
        }
        i += 1;
    }
    proof {
        assert(s@.subrange(body_start as int, end as int) == body);
        lemma_digits_nonneg(body);
    }
    if acc > cap {
        return None;
    }
    let magnitude = acc as i64;
    let value = if neg {
        -magnitude
    } else {
        magnitude
    };
    if value < lo || value > hi {
        return None;
    }
    Some(value)
}

/// Parses a token as a 32-bit signed number (`None` where Rust's `i32` parsing fails).
pub fn parse_i32(s: &[u8], start: usize, end: usize) -> (v: Option<i32>)
    requires
        start <= end <= s@.len(),
    ensures
        match v {
            Some(x) => spec_parse_int(s@.subrange(start as int, end as int), true, i32::MIN as int, i32::MAX as int)
                == Some(x as int),
            None => spec_parse_int(s@.subrange(start as int, end as int), true, i32::MIN as int, i32::MAX as int)
                is None,
        },
{
    match parse_int(s, start, end, true, -2147483648, 2147483647) {
        Some(x) => Some(x as i32),
        None => None,
    }
}

/// The numbers among the first `k` tokens of `s`, in order (tokens that are not 32-bit
/// numbers are skipped).
pub open spec fn numbers_among(s: Seq<u8>, k: int) -> Seq<i32>
    decreases k,
{
    if k <= 0 {
        Seq::empty()
    } else {
        let before = numbers_among(s, k - 1);
        match spec_parse_int(token(s, k - 1), true, i32::MIN as int, i32::MAX as int) {
            Some(v) => before.push(v as i32),
            None => before,
        }
    }
}

/// The whitespace-separated tokens of `text` that read as 32-bit numbers, in order.
pub fn numbers_in_text(text: &[u8]) -> (nums: Vec<i32>)
    ensures
        nums@ == numbers_among(text@, token_spans(text@).len() as int),
{
    let spans = split_tokens(text);
    let mut nums: Vec<i32> = Vec::new();
    let mut k: usize = 0;
    while k < spans.len()
        invariant
            spans@.len() == token_spans(text@).len(),
            forall|j: int|
                0 <= j < spans@.len() ==> (#[trigger] spans@[j]).0 == token_spans(text@)[j].0 && spans@[j].1
                    == token_spans(text@)[j].1,
            k <= spans@.len(),
            nums@ == numbers_among(text@, k as int),
        decreases spans@.len() - k,
    {
        let (a, b) = spans[k];
        proof {
            lemma_spans_in_range(text@, k as int);
        }
        match parse_i32(text, a, b) {
            Some(v) => nums.push(v),
            None => {},
        }
        k += 1;
    }
    nums
}

/// The position of the first line feed at or after `i` (or the end).
pub open spec fn line_end(s: Seq<u8>, i: int) -> int
    decreases s.len() - i,
{
    if 0 <= i < s.len() && s[i] != 10 {
        line_end(s, i + 1)
    } else {
        i
    }
}

/// A line ends at a line feed or at the end, after its start.
pub proof fn lemma_line_end(s: Seq<u8>, i: int)
    requires
        0 <= i <= s.len(),
    ensures
        i <= line_end(s, i) <= s.len(),
        line_end(s, i) < s.len() ==> s[line_end(s, i)] == 10,
    decreases s.len() - i,
{
    if i < s.len() && s[i] != 10 {
        lemma_line_end(s, i + 1);
    }
}

/// The (start, end) positions of the lines of `s` from position `i`: the pieces between line
/// feeds, without a last empty piece after a final line feed.
pub open spec fn lines_from(s: Seq<u8>, i: int) -> Seq<(int, int)>
    decreases s.len() + 1 - i,
{
    if i < 0 || i >= s.len() {
        Seq::empty()
    } else {
        let e = line_end(s, i);
        proof {
            lemma_line_end(s, i);
        }
        seq![(i, e)] + lines_from(s, e + 1)
    }
}

/// The (start, end) positions of the lines of `s`.
pub open spec fn line_spans(s: Seq<u8>) -> Seq<(int, int)> {
    lines_from(s, 0)
}

/// Every line found from `i` lies within the text.
pub proof fn lemma_lines_from_in_range(s: Seq<u8>, i: int)
    ensures
        forall|k: int|
            0 <= k < lines_from(s, i).len() ==> 0 <= i <= (#[trigger] lines_from(s, i)[k]).0 <= lines_from(s, i)[k].1
                <= s.len(),
    decreases s.len() + 1 - i,
{
    if 0 <= i < s.len() {
        let e = line_end(s, i);
        lemma_line_end(s, i);
        lemma_lines_from_in_range(s, e + 1);
        let rest = lines_from(s, e + 1);
        assert forall|k: int| 0 <= k < lines_from(s, i).len() implies 0 <= i <= (#[trigger] lines_from(s, i)[k]).0
            <= lines_from(s, i)[k].1 <= s.len() by {
            if k > 0 {
                assert(lines_from(s, i)[k] == rest[k - 1]);
            }
        }
    }
}

/// There are no more lines from `i` than bytes from `i`.
pub proof fn lemma_lines_count(s: Seq<u8>, i: int)
    requires
        0 <= i,
    ensures
        lines_from(s, i).len() <= if i <= s.len() {
            s.len() - i
        } else {
            0
        },
    decreases s.len() + 1 - i,
{
    if i < s.len() {
        let e = line_end(s, i);
        lemma_line_end(s, i);
        lemma_lines_count(s, e + 1);
    }
}

/// The positions of the lines of `s` (see `line_spans`).
pub fn split_lines(s: &[u8]) -> (spans: Vec<(usize, usize)>)
    ensures
        spans@.len() == line_spans(s@).len(),
        forall|k: int|
            0 <= k < spans@.len() ==> (#[trigger] spans@[k]).0 == line_spans(s@)[k].0 && spans@[k].1
                == line_spans(s@)[k].1,
{
    let n = s.len();
    let mut spans: Vec<(usize, usize)> = Vec::new();
    let mut pos: usize = 0;
    let ghost mut got: Seq<(int, int)> = Seq::empty();
    while pos < n
        invariant
            n == s@.len(),
            pos <= n,
            got + lines_from(s@, pos as int) == line_spans(s@),
            spans@.len() == got.len(),
            forall|k: int| 0 <= k < spans@.len() ==> (#[trigger] spans@[k]).0 == got[k].0 && spans@[k].1 == got[k].1,
        decreases n - pos,
    {
        proof {
            lemma_line_end(s@, pos as int);
        }
        let mut e = pos;
        while e < n && s[e] != 10
            invariant
                n == s@.len(),
                pos <= e <= n,
                line_end(s@, e as int) == line_end(s@, pos as int),
            decreases n - e,
        {
            e += 1;
        }
        proof {
            assert(lines_from(s@, pos as int) == seq![(pos as int, e as int)] + lines_from(s@, e + 1));
            assert(got + lines_from(s@, pos as int) =~= got.push((pos as int, e as int)) + lines_from(s@, e + 1));
            got = got.push((pos as int, e as int));
        }
        spans.push((pos, e));
        if e >= n {
            proof {
                assert(lines_from(s@, e + 1) =~= Seq::<(int, int)>::empty());
                assert(got + lines_from(s@, n as int) =~= got);
            }
            pos = n;
        } else {
            pos = e + 1;
        }
    }
    proof {
        assert(lines_from(s@, n as int) =~= Seq::<(int, int)>::empty());
        assert(got + lines_from(s@, n as int) =~= got);
    }
    spans
}

/// The start of `s[a..b]` without its leading whitespace.
pub open spec fn trim_start(s: Seq<u8>, a: int, b: int) -> int
    decreases b - a,
{
    if a < b && is_ws(s[a]) {
        trim_start(s, a + 1, b)
    } else {
        a
    }
}

/// The end of `s[a..b]` without its trailing whitespace.
pub open spec fn trim_end(s: Seq<u8>, a: int, b: int) -> int
    decreases b - a,
{
    if a < b && is_ws(s[b - 1]) {
        trim_end(s, a, b - 1)
    } else {
        b
    }
}

/// `s[a..b]` without leading and trailing whitespace.
pub open spec fn trimmed(s: Seq<u8>, a: int, b: int) -> Seq<u8> {
    let a2 = trim_start(s, a, b);
    s.subrange(a2, trim_end(s, a2, b))
}

/// Trimming stays within the piece.
pub proof fn lemma_trim(s: Seq<u8>, a: int, b: int)
    requires
        0 <= a <= b <= s.len(),
    ensures
        a <= trim_start(s, a, b) <= b,
        trim_start(s, a, b) <= trim_end(s, trim_start(s, a, b), b) <= b,
    decreases b - a,
{
    if a < b && is_ws(s[a]) {
        lemma_trim(s, a + 1, b);
    } else {
        lemma_trim_end(s, a, b);
    }
}

/// Trimming the end stays within the piece.
pub proof fn lemma_trim_end(s: Seq<u8>, a: int, b: int)
    requires
        a <= b,
    ensures
        a <= trim_end(s, a, b) <= b,
    decreases b - a,
{
    if a < b && is_ws(s[b - 1]) {
        lemma_trim_end(s, a, b - 1);
    }
}

/// The piece `s[a..b]` without leading and trailing whitespace (see `trimmed`).
pub fn trim_span(s: &[u8], a: usize, b: usize) -> (r: (usize, usize))
    requires
        a <= b <= s@.len(),
    ensures
        r.0 == trim_start(s@, a as int, b as int),
        r.1 == trim_end(s@, r.0 as int, b as int),
        a <= r.0 <= r.1 <= b,
{
    let mut x = a;
    while x < b && (s[x] == 9 || s[x] == 10 || s[x] == 11 || s[x] == 12 || s[x] == 13 || s[x] == 32)
        invariant
            a <= x <= b <= s@.len(),
            trim_start(s@, x as int, b as int) == trim_start(s@, a as int, b as int),
        decreases b - x,
    {
        x += 1;
    }
    let mut y = b;
    while y > x && (s[y - 1] == 9 || s[y - 1] == 10 || s[y - 1] == 11 || s[y - 1] == 12 || s[y - 1] == 13 || s[y
        - 1] == 32)
        invariant
            a <= x <= y <= b <= s@.len(),
            trim_start(s@, a as int, b as int) == x,
            trim_end(s@, x as int, y as int) == trim_end(s@, x as int, b as int),
        decreases y - x,
    {
        y -= 1;
    }
    (x, y)
}

/// `s[a..b]` starts with `p`.
pub open spec fn starts_with(s: Seq<u8>, a: int, b: int, p: Seq<u8>) -> bool {
    b - a >= p.len() && s.subrange(a, a + p.len()) == p
}

/// Whether `s[a..b]` starts with `p` (see `starts_with`).
pub fn has_prefix(s: &[u8], a: usize, b: usize, p: &[u8]) -> (r: bool)
    requires
        a <= b <= s@.len(),
    ensures
        r == starts_with(s@, a as int, b as int, p@),
{
    if b - a < p.len() {
        return false;
    }
    let mut i: usize = 0;
    while i < p.len()
        invariant
            a <= b <= s@.len(),
            b - a >= p@.len(),
            i <= p@.len(),
            forall|k: int| 0 <= k < i ==> s@[a + k] == p@[k],
        decreases p@.len() - i,
    {
        if s[a + i] != p[i] {
            proof {
                assert(s@.subrange(a as int, a + p@.len())[i as int] != p@[i as int]);
            }
            return false;
        }
        i += 1;
    }
    proof {
        assert(s@.subrange(a as int, a + p@.len()) =~= p@);
    }
    true
}

/// Whether `s[a..b]` is exactly `w`.
pub fn span_is(s: &[u8], a: usize, b: usize, w: &[u8]) -> (r: bool)
    requires
        a <= b <= s@.len(),
    ensures
        r == (s@.subrange(a as int, b as int) == w@),
{
    if b - a != w.len() {
        proof {
            assert(s@.subrange(a as int, b as int).len() != w@.len());
        }
        return false;
    }
    let r = has_prefix(s, a, b, w);
    proof {
        assert(b == a + w@.len());
    }
    r
}

/// The decimal digits of `n`, without leading zeros (`0` for zero).
pub open spec fn dec_digits(n: nat) -> Seq<u8>
    decreases n,
{
    if n < 10 {
        seq![(48 + n) as u8]
    } else {
        dec_digits(n / 10).push((48 + n % 10) as u8)
    }
}

/// `v` written in decimal: a `-` before the digits of a negative number.
pub open spec fn dec_int(v: int) -> Seq<u8> {
    if v < 0 {
        seq![45u8] + dec_digits((-v) as nat)
    } else {
        dec_digits(v as nat)
    }
}

/// The digits of `n` are digits, at least one, and read back as `n`.
pub proof fn lemma_dec_digits(n: nat)
    ensures
        dec_digits(n).len() >= 1,
        all_digits(dec_digits(n)),
        digits_value(dec_digits(n)) == n,
    decreases n,
{
    if n >= 10 {
        lemma_dec_digits(n / 10);
        let d = dec_digits(n);
        assert(d.drop_last() =~= dec_digits(n / 10));
        assert(d.last() == 48 + n % 10);
        assert(n == (n / 10) * 10 + n % 10);
        assert(digits_value(d.drop_last()) == n / 10);
        assert(digits_value(d) == digits_value(d.drop_last()) * 10 + (d.last() - 48));
        assert forall|i: int| 0 <= i < d.len() implies is_digit(#[trigger] d[i]) by {
            if i < d.len() - 1 {
                assert(d[i] == dec_digits(n / 10)[i]);
            }
        }
    } else {
        assert(dec_digits(n).drop_last() =~= Seq::<u8>::empty());
        assert(dec_digits(n).last() == 48 + n);
        assert(digits_value(dec_digits(n)) == digits_value(dec_digits(n).drop_last()) * 10 + (dec_digits(n).last()
            - 48));
    }
}

/// A 32-bit number written in decimal reads back as itself, holds no whitespace and is not
/// empty.
pub proof fn lemma_dec_int_reads_back(v: int)
    requires
        i32::MIN <= v <= i32::MAX,
    ensures
        spec_parse_int(dec_int(v), true, i32::MIN as int, i32::MAX as int) == Some(v),
        dec_int(v).len() >= 1,
        forall|i: int| 0 <= i < dec_int(v).len() ==> !is_ws(#[trigger] dec_int(v)[i]),
{
    let t = dec_int(v);
    if v < 0 {
        lemma_dec_digits((-v) as nat);
        assert(t.subrange(1, t.len() as int) =~= dec_digits((-v) as nat));
        assert forall|i: int| 0 <= i < t.len() implies !is_ws(#[trigger] t[i]) by {
            if i > 0 {
                assert(t[i] == dec_digits((-v) as nat)[i - 1]);
                assert(is_digit(dec_digits((-v) as nat)[i - 1]));
            }
        }
    } else {
        lemma_dec_digits(v as nat);
        assert(is_digit(t[0]));
        assert forall|i: int| 0 <= i < t.len() implies !is_ws(#[trigger] t[i]) by {
            assert(is_digit(t[i]));
        }
    }
}

/// Appends the decimal digits of `n` (see `dec_digits`).
fn push_digits(buf: &mut Vec<u8>, n: u64)
    ensures
        final(buf)@ == old(buf)@ + dec_digits(n as nat),
    decreases n,
{
    if n >= 10 {
        push_digits(buf, n / 10);
    }
    buf.push(48 + (n % 10) as u8);
    proof {
        if n < 10 {
            assert(dec_digits(n as nat) =~= seq![(48 + n) as u8]);
        }
    }
}

/// Appends `v` written in decimal (see `dec_int`).
pub fn push_decimal(buf: &mut Vec<u8>, v: i32)
    ensures
        final(buf)@ == old(buf)@ + dec_int(v as int),
{
    if v < 0 {
        buf.push(45);
        let magnitude: u64 = (-(v as i64)) as u64;
        push_digits(buf, magnitude);
        proof {
            assert(final(buf)@ =~= old(buf)@ + dec_int(v as int));
        }
    } else {
        push_digits(buf, v as u64);
    }
}

/// Skipping whitespace from `i + j` in `s` is skipping it from `j` in `s` after `i`.
pub proof fn lemma_skip_ws_shift(s: Seq<u8>, i: int, j: int)
    requires
        0 <= i <= s.len(),
        0 <= j <= s.len() - i,
    ensures
        skip_ws(s, i + j) == i + skip_ws(s.subrange(i, s.len() as int), j),
    decreases s.len() - i - j,
{
    let t = s.subrange(i, s.len() as int);
    if j < t.len() {
        assert(t[j] == s[i + j]);
        if is_ws(s[i + j]) {
            lemma_skip_ws_shift(s, i, j + 1);
        }
    }
}

/// A token ending from `i + j` in `s` is one ending from `j` in `s` after `i`.
pub proof fn lemma_token_end_shift(s: Seq<u8>, i: int, j: int)
    requires
        0 <= i <= s.len(),
        0 <= j <= s.len() - i,
    ensures
        token_end(s, i + j) == i + token_end(s.subrange(i, s.len() as int), j),
    decreases s.len() - i - j,
{
    let t = s.subrange(i, s.len() as int);
    if j < t.len() {
        assert(t[j] == s[i + j]);
        if !is_ws(s[i + j]) {
            lemma_token_end_shift(s, i, j + 1);
        }
    }
}

/// Token positions moved on by `d`.
pub open spec fn shift_spans(sp: Seq<(int, int)>, d: int) -> Seq<(int, int)> {
    Seq::new(sp.len(), |k: int| (sp[k].0 + d, sp[k].1 + d))
}

/// The tokens of `s` from `i + j` are those of `s` after `i`, from `j`, moved on by `i`.
pub proof fn lemma_spans_shift(s: Seq<u8>, i: int, j: int)
    requires
        0 <= i <= s.len(),
        0 <= j <= s.len() - i,
    ensures
        spans_from(s, i + j) == shift_spans(spans_from(s.subrange(i, s.len() as int), j), i),
    decreases s.len() - i - j,
{
    let t = s.subrange(i, s.len() as int);
    let x = i + j;
    lemma_skip_ws_shift(s, i, j);
    lemma_skip_ws(t, j);
    let jt = skip_ws(t, j);
    if jt >= t.len() {
        assert(spans_from(s, x) =~= Seq::<(int, int)>::empty());
        assert(spans_from(t, j) =~= Seq::<(int, int)>::empty());
        assert(shift_spans(spans_from(t, j), i) =~= Seq::<(int, int)>::empty());
    } else {
        lemma_token_end_shift(s, i, jt);
        lemma_token_end(t, jt);
        let et = token_end(t, jt);
        if et <= j {
            assert(spans_from(s, x) =~= Seq::<(int, int)>::empty());
            assert(spans_from(t, j) =~= Seq::<(int, int)>::empty());
            assert(shift_spans(spans_from(t, j), i) =~= Seq::<(int, int)>::empty());
        } else {
            lemma_spans_shift(s, i, et);
            assert(spans_from(s, x) == seq![(i + jt, i + et)] + spans_from(s, i + et));
            assert(spans_from(t, j) == seq![(jt, et)] + spans_from(t, et));
            assert(shift_spans(spans_from(t, j), i) =~= seq![(i + jt, i + et)] + shift_spans(spans_from(t, et), i));
        }
    }
}

/// Whitespace at `x` starts no token: the tokens from `x` are those from `x + 1`.
proof fn lemma_spans_skip_one(s: Seq<u8>, x: int)
    requires
        0 <= x < s.len(),
        is_ws(s[x]),
    ensures
        spans_from(s, x) == spans_from(s, x + 1),
{
    lemma_skip_ws(s, x + 1);
    let jj = skip_ws(s, x + 1);
    assert(skip_ws(s, x) == jj);
    if jj < s.len() {
        lemma_token_end(s, jj);
        assert(token_end(s, jj) > jj);
    }
}

/// Numbers written in decimal (see `dec_int`), separated by single spaces, with a line feed
/// after the last (a line feed alone for no number).
pub open spec fn spaced_line(nums: Seq<int>) -> Seq<u8>
    decreases nums.len(),
{
    if nums.len() == 0 {
        seq![10u8]
    } else if nums.len() == 1 {
        dec_int(nums[0]) + seq![10u8]
    } else {
        dec_int(nums[0]) + seq![32u8] + spaced_line(nums.drop_first())
    }
}

/// A token of `s` that starts at `0`: `s` starts with `d`, which holds no whitespace and is
/// not empty, followed by whitespace.
proof fn lemma_first_token(s: Seq<u8>, d: Seq<u8>)
    requires
        d.len() >= 1,
        d.len() < s.len(),
        s.subrange(0, d.len() as int) == d,
        forall|k: int| 0 <= k < d.len() ==> !is_ws(#[trigger] d[k]),
        is_ws(s[d.len() as int]),
    ensures
        spans_from(s, 0) == seq![(0, d.len() as int)] + spans_from(s, d.len() as int),
{
    assert(s[0] == d[0]);
    assert(skip_ws(s, 0) == 0);
    assert forall|k: int| 0 <= k <= d.len() implies token_end(s, k) == d.len() by {
        lemma_token_end_from(s, d, k);
    }
}

/// Every position of the first token ends it at the same place.
proof fn lemma_token_end_from(s: Seq<u8>, d: Seq<u8>, k: int)
    requires
        d.len() < s.len(),
        s.subrange(0, d.len() as int) == d,
        forall|x: int| 0 <= x < d.len() ==> !is_ws(#[trigger] d[x]),
        is_ws(s[d.len() as int]),
        0 <= k <= d.len(),
    ensures
        token_end(s, k) == d.len(),
    decreases d.len() - k,
{
    if k < d.len() {
        assert(s[k] == d[k]);
        lemma_token_end_from(s, d, k + 1);
    }
}

/// The tokens of a spaced line of 32-bit numbers are the numbers written in decimal, one per
/// number.
pub proof fn lemma_spaced_line_tokens(nums: Seq<int>)
    requires
        forall|k: int| 0 <= k < nums.len() ==> i32::MIN <= #[trigger] nums[k] <= i32::MAX,
    ensures
        token_spans(spaced_line(nums)).len() == nums.len(),
        forall|k: int| 0 <= k < nums.len() ==> #[trigger] token(spaced_line(nums), k) == dec_int(nums[k]),
    decreases nums.len(),
{
    let s = spaced_line(nums);
    if nums.len() == 0 {
        assert(is_ws(s[0]));
        assert(skip_ws(s, 1) == 1);
        assert(skip_ws(s, 0) == 1);
        assert(spans_from(s, 0) =~= Seq::<(int, int)>::empty());
    } else {
        let d = dec_int(nums[0]);
        lemma_dec_int_reads_back(nums[0]);
        let n = d.len() as int;
        if nums.len() == 1 {
            assert(s.subrange(0, n) =~= d);
            assert(s[n] == 10u8);
            lemma_first_token(s, d);
            assert(skip_ws(s, n + 1) == n + 1);
            assert(skip_ws(s, n) == n + 1);
            assert(spans_from(s, n) =~= Seq::<(int, int)>::empty());
            assert(spans_from(s, 0) =~= seq![(0, n)]);
            assert(token(s, 0) =~= d);
        } else {
            let rest = nums.drop_first();
            assert forall|k: int| 0 <= k < rest.len() implies i32::MIN <= #[trigger] rest[k] <= i32::MAX by {
                assert(rest[k] == nums[k + 1]);
            }
            lemma_spaced_line_tokens(rest);
            let r = spaced_line(rest);
            assert(s =~= d + seq![32u8] + r);
            assert(s.subrange(0, n) =~= d);
            assert(s[n] == 32u8);
            lemma_first_token(s, d);
            assert(s.subrange(n + 1, s.len() as int) =~= r);
            lemma_spans_shift(s, n + 1, 0);
            lemma_spans_skip_one(s, n);
            lemma_spans_from_in_range(r, 0);
            let rs = token_spans(r);
            assert(token_spans(s) == seq![(0, n)] + shift_spans(rs, n + 1));
            assert forall|k: int| 0 <= k < nums.len() implies #[trigger] token(s, k) == dec_int(nums[k]) by {
                if k == 0 {
                    assert(token(s, 0) =~= d);
                } else {
                    let (a, b) = rs[k - 1];
                    assert(token_spans(s)[k] == (a + n + 1, b + n + 1));
                    assert(0 <= a <= b <= r.len());
                    assert(token(s, k) =~= r.subrange(a, b));
                    assert(token(r, k - 1) == dec_int(rest[k - 1]));
                    assert(rest[k - 1] == nums[k]);
                }
            }
        }
    }
}

/// Where each of the first `k` tokens reads as a 32-bit number, the numbers among them are
/// those numbers, in order.
pub proof fn lemma_numbers_among_all(s: Seq<u8>, k: int)
    requires
        0 <= k,
        forall|j: int|
            0 <= j < k ==> (#[trigger] spec_parse_int(token(s, j), true, i32::MIN as int, i32::MAX as int)) is Some,
    ensures
        numbers_among(s, k) == Seq::new(
            k as nat,
            |j: int| spec_parse_int(token(s, j), true, i32::MIN as int, i32::MAX as int)->0 as i32,
        ),
    decreases k,
{
    if k > 0 {
        lemma_numbers_among_all(s, k - 1);
        assert(spec_parse_int(token(s, k - 1), true, i32::MIN as int, i32::MAX as int) is Some);
        assert(numbers_among(s, k) =~= Seq::new(
            k as nat,
            |j: int| spec_parse_int(token(s, j), true, i32::MIN as int, i32::MAX as int)->0 as i32,
        ));
    } else {
        assert(numbers_among(s, k) =~= Seq::new(
            k as nat,
            |j: int| spec_parse_int(token(s, j), true, i32::MIN as int, i32::MAX as int)->0 as i32,
        ));
    }
}

/// The numbers of a spaced line of 32-bit numbers are those numbers.
pub proof fn lemma_spaced_line_numbers(nums: Seq<int>)
    requires
        forall|k: int| 0 <= k < nums.len() ==> i32::MIN <= #[trigger] nums[k] <= i32::MAX,
    ensures
        token_spans(spaced_line(nums)).len() == nums.len(),
        numbers_among(spaced_line(nums), nums.len() as int) == Seq::new(nums.len(), |k: int| nums[k] as i32),
{
    let s = spaced_line(nums);
    lemma_spaced_line_tokens(nums);
    assert forall|j: int| 0 <= j < nums.len() implies (#[trigger] spec_parse_int(
        token(s, j),
        true,
        i32::MIN as int,
        i32::MAX as int,
    )) == Some(nums[j]) by {
        lemma_dec_int_reads_back(nums[j]);
    }
    lemma_numbers_among_all(s, nums.len() as int);
    assert(numbers_among(s, nums.len() as int) =~= Seq::new(nums.len(), |k: int| nums[k] as i32));
}

} // verus!
