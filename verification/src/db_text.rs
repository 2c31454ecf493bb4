use vstd::prelude::*;

use crate::db_builder::{KnownFingerprintRaw, PriorConfigEntry};
use crate::text::{
    is_ws, lemma_lines_from_in_range, line_spans, parse_int, spec_parse_int, span_is, split_lines, trim_end,
    trim_span, trim_start,
};
use crate::types::{FeatureVector8, MovePriorConfig};
use vstd::string::StringSliceAdditionalSpecFns;

verus! {

/// A separator between the numbers of an array: whitespace, a comma or a semicolon.
pub open spec fn is_item_sep(b: u8) -> bool {
    is_ws(b) || b == 44 || b == 59
}

/// The first position in `i..b` that is not a separator (or `b`).
pub open spec fn skip_seps(s: Seq<u8>, i: int, b: int) -> int
    decreases b - i,
{
    if i < b && is_item_sep(s[i]) {
        skip_seps(s, i + 1, b)
    } else {
        i
    }
}

/// The first position in `i..b` that is a separator (or `b`).
pub open spec fn item_end(s: Seq<u8>, i: int, b: int) -> int
    decreases b - i,
{
    if i < b && !is_item_sep(s[i]) {
        item_end(s, i + 1, b)
    } else {
        i
    }
}

/// Skipping separators stays within `i..=b`.
pub proof fn lemma_skip_seps(s: Seq<u8>, i: int, b: int)
    requires
        i <= b,
    ensures
        i <= skip_seps(s, i, b) <= b,
        skip_seps(s, i, b) < b ==> !is_item_sep(s[skip_seps(s, i, b)]),
    decreases b - i,
{
    if i < b && is_item_sep(s[i]) {
        lemma_skip_seps(s, i + 1, b);
    }
}

/// An item ends within `i..=b`.
pub proof fn lemma_item_end(s: Seq<u8>, i: int, b: int)
    requires
        i <= b,
    ensures
        i <= item_end(s, i, b) <= b,
    decreases b - i,
{
    if i < b && !is_item_sep(s[i]) {
        lemma_item_end(s, i + 1, b);
    }
}

/// The (start, end) positions of the non-empty pieces of `s[i..b]` between separators.
pub open spec fn items_from(s: Seq<u8>, i: int, b: int) -> Seq<(int, int)>
    decreases b - i,
{
    if i >= b {
        Seq::empty()
    } else {
        let j = skip_seps(s, i, b);
        proof {
            lemma_skip_seps(s, i, b);
        }
        if j >= b {
            Seq::empty()
        } else {
            let e = item_end(s, j, b);
            proof {
                lemma_item_end(s, j, b);
            }
            if e <= i {
                Seq::empty()
            } else {
                seq![(j, e)] + items_from(s, e, b)
            }
        }
    }
}

/// Every piece found from `i` lies within `i..b`.
pub proof fn lemma_items_in_range(s: Seq<u8>, i: int, b: int)
    requires
        i <= b,
    ensures
        forall|k: int|
            0 <= k < items_from(s, i, b).len() ==> i <= (#[trigger] items_from(s, i, b)[k]).0 <= items_from(
                s,
                i,
                b,
            )[k].1 <= b,
    decreases b - i,
{
    if i < b {
        let j = skip_seps(s, i, b);
        lemma_skip_seps(s, i, b);
        if j < b {
            let e = item_end(s, j, b);
            lemma_item_end(s, j, b);
            if e > i {
                lemma_items_in_range(s, e, b);
                let rest = items_from(s, e, b);
                assert forall|k: int| 0 <= k < items_from(s, i, b).len() implies i <= (#[trigger] items_from(
                    s,
                    i,
                    b,
                )[k]).0 <= items_from(s, i, b)[k].1 <= b by {
                    if k > 0 {
                        assert(items_from(s, i, b)[k] == rest[k - 1]);
                    }
                }
            }
        }
    }
}

/// Whether a byte separates array items (see `is_item_sep`).
fn item_sep(c: u8) -> (r: bool)
    ensures
        r == is_item_sep(c),
{
    c == 9 || c == 10 || c == 11 || c == 12 || c == 13 || c == 32 || c == 44 || c == 59
}

/// The positions of the pieces of `s[a..b]` between separators (see `items_from`).
pub fn split_items(s: &[u8], a: usize, b: usize) -> (items: Vec<(usize, usize)>)
    requires
        a <= b <= s@.len(),
    ensures
        items@.len() == items_from(s@, a as int, b as int).len(),
        forall|k: int|
            0 <= k < items@.len() ==> (#[trigger] items@[k]).0 == items_from(s@, a as int, b as int)[k].0
                && items@[k].1 == items_from(s@, a as int, b as int)[k].1,
{
    let mut items: Vec<(usize, usize)> = Vec::new();
    let mut pos: usize = a;
    let ghost mut got: Seq<(int, int)> = Seq::empty();
    while pos < b
        invariant
            a <= pos <= b <= s@.len(),
            got + items_from(s@, pos as int, b as int) == items_from(s@, a as int, b as int),
            items@.len() == got.len(),
            forall|k: int| 0 <= k < items@.len() ==> (#[trigger] items@[k]).0 == got[k].0 && items@[k].1 == got[k].1,
        decreases b - pos,
    {
        proof {
            lemma_skip_seps(s@, pos as int, b as int);
        }
        let mut j = pos;
        while j < b && item_sep(s[j])
            invariant
                pos <= j <= b <= s@.len(),
                skip_seps(s@, j as int, b as int) == skip_seps(s@, pos as int, b as int),
            decreases b - j,
        {
            j += 1;
        }
        if j >= b {
            proof {
                assert(items_from(s@, pos as int, b as int) =~= Seq::<(int, int)>::empty());
                assert(got + items_from(s@, b as int, b as int) =~= got);
            }
            pos = b;
        } else {
            proof {
                lemma_item_end(s@, j as int, b as int);
            }
            let mut e = j;
            while e < b && !item_sep(s[e])
                invariant
                    j <= e <= b <= s@.len(),
                    item_end(s@, e as int, b as int) == item_end(s@, j as int, b as int),
                decreases b - e,
            {
                e += 1;
            }
            proof {
                assert(items_from(s@, pos as int, b as int) == seq![(j as int, e as int)] + items_from(
                    s@,
                    e as int,
                    b as int,
                ));
                assert(got + items_from(s@, pos as int, b as int) =~= got.push((j as int, e as int)) + items_from(
                    s@,
                    e as int,
                    b as int,
                ));
                got = got.push((j as int, e as int));
            }
            items.push((j, e));
            pos = e;
        }
    }
    proof {
        assert(items_from(s@, b as int, b as int) =~= Seq::<(int, int)>::empty());
        assert(got + items_from(s@, b as int, b as int) =~= got);
    }
    items
}

/// The 16-bit number that the piece `s[p.0..p.1]` writes, if it writes one.
pub open spec fn item_i16(s: Seq<u8>, p: (int, int)) -> Option<int> {
    spec_parse_int(s.subrange(p.0, p.1), true, -32768, 32767)
}

/// The array of eight 16-bit numbers that `s[a..b]` writes, the numbers separated by
/// whitespace, commas or semicolons; `None` unless there are exactly eight pieces and each is
/// a 16-bit number.
pub open spec fn i16_array(s: Seq<u8>, a: int, b: int) -> Option<Seq<i16>> {
    let items = items_from(s, a, b);
    if items.len() == 8 && forall|k: int| 0 <= k < 8 ==> (#[trigger] item_i16(s, items[k])) is Some {
        Some(Seq::new(8, |k: int| item_i16(s, items[k])->0 as i16))
    } else {
        None
    }
}

/// The array of eight numbers written in `s[a..b]` (see `i16_array`).
pub fn parse_i16_array(s: &[u8], a: usize, b: usize) -> (r: Option<[i16; 8]>)
    requires
        a <= b <= s@.len(),
    ensures
        match r {
            Some(arr) => i16_array(s@, a as int, b as int) == Some(arr@),
            None => i16_array(s@, a as int, b as int) is None,
        },
{
    let items = split_items(s, a, b);
    let ghost sp = items_from(s@, a as int, b as int);
    proof {
        lemma_items_in_range(s@, a as int, b as int);
    }
    let mut vals: Vec<i16> = Vec::new();
    let mut k: usize = 0;
    while k < items.len()
        invariant
            a <= b <= s@.len(),
            sp == items_from(s@, a as int, b as int),
            items@.len() == sp.len(),
            forall|j: int| 0 <= j < items@.len() ==> (#[trigger] items@[j]).0 == sp[j].0 && items@[j].1 == sp[j].1,
            forall|j: int| 0 <= j < sp.len() ==> a <= (#[trigger] sp[j]).0 <= sp[j].1 <= b,
            k <= items@.len(),
            vals@.len() == k,
            forall|j: int| 0 <= j < k ==> (#[trigger] item_i16(s@, sp[j])) == Some(vals@[j] as int),
        decreases items@.len() - k,
    {
        let (x, y) = items[k];
        proof {
            assert(sp[k as int].0 == x && sp[k as int].1 == y);
        }
        match parse_int(s, x, y, true, -32768, 32767) {
            Some(v) => {
                vals.push(v as i16);
            },
            None => {
                proof {
                    assert(item_i16(s@, sp[k as int]) is None);
                    if sp.len() == 8 {
                        assert(!(item_i16(s@, sp[k as int]) is Some));
                    }
                }
                return None;
            },
        }
        k += 1;
    }
    if items.len() != 8 {
        return None;
    }
    let arr: [i16; 8] = [vals[0], vals[1], vals[2], vals[3], vals[4], vals[5], vals[6], vals[7]];
    proof {
        assert(forall|k: int| 0 <= k < 8 ==> (#[trigger] item_i16(s@, sp[k])) is Some);
        assert(arr@ =~= Seq::new(8, |k: int| item_i16(s@, sp[k])->0 as i16));
    }
    Some(arr)
}

/// The array whose elements are `v` (eight of them).
pub open spec fn array8(v: Seq<i16>) -> [i16; 8] {
    choose|a: [i16; 8]| a@ == v
}

/// An array is the array of its own elements.
pub proof fn lemma_array8(a: [i16; 8])
    ensures
        array8(a@) == a,
{
    let c = array8(a@);
    assert(c@ == a@);
    assert(c =~= a);
}

/// The first position in `i..b` that holds the byte `x` (or `b`).
pub open spec fn find_byte(s: Seq<u8>, x: u8, i: int, b: int) -> int
    decreases b - i,
{
    if i < b && s[i] != x {
        find_byte(s, x, i + 1, b)
    } else {
        i
    }
}

/// The position found lies in `i..=b`.
pub proof fn lemma_find_byte(s: Seq<u8>, x: u8, i: int, b: int)
    requires
        i <= b,
    ensures
        i <= find_byte(s, x, i, b) <= b,
    decreases b - i,
{
    if i < b && s[i] != x {
        lemma_find_byte(s, x, i + 1, b);
    }
}

/// The key and the value of the line `s[ta..tb]` written `key = value`, as positions, each
/// without surrounding whitespace; `None` where the line holds no `=`.
pub open spec fn key_value(s: Seq<u8>, ta: int, tb: int) -> Option<((int, int), (int, int))> {
    let eq = find_byte(s, 61, ta, tb);
    if eq >= tb {
        None
    } else {
        let ka = trim_start(s, ta, eq);
        let va = trim_start(s, eq + 1, tb);
        Some(((ka, trim_end(s, ka, eq)), (va, trim_end(s, va, tb))))
    }
}

/// Splits the line `s[ta..tb]` at its first `=` into a trimmed key and value (see
/// `key_value`).
pub fn split_key_value(s: &[u8], ta: usize, tb: usize) -> (r: Option<((usize, usize), (usize, usize))>)
    requires
        ta <= tb <= s@.len(),
    ensures
        match r {
            Some(kv) => key_value(s@, ta as int, tb as int) == Some(
                ((kv.0.0 as int, kv.0.1 as int), (kv.1.0 as int, kv.1.1 as int)),
            ),
            None => key_value(s@, ta as int, tb as int) is None,
        },
        r matches Some(kv) ==> ta <= kv.0.0 <= kv.0.1 <= tb && ta <= kv.1.0 <= kv.1.1 <= tb,
{
    proof {
        lemma_find_byte(s@, 61, ta as int, tb as int);
    }
    let mut eq = ta;
    while eq < tb && s[eq] != 61
        invariant
            ta <= eq <= tb <= s@.len(),
            find_byte(s@, 61, eq as int, tb as int) == find_byte(s@, 61, ta as int, tb as int),
        decreases tb - eq,
    {
        eq += 1;
    }
    if eq >= tb {
        return None;
    }
    let k = trim_span(s, ta, eq);
    let v = trim_span(s, eq + 1, tb);
    Some((k, v))
}

/// The number that `s[va..vb]` writes, in `lo..=hi` (see `spec_parse_int`).
pub open spec fn value_int(s: Seq<u8>, va: int, vb: int, signed: bool, lo: int, hi: int) -> Option<int> {
    spec_parse_int(s.subrange(va, vb), signed, lo, hi)
}

/// The id and settings of a prior configuration after the line `key = value`, the key at
/// `s[ka..kb]` and the value at `s[va..vb]`; `None` for an unknown key or a value that does not
/// read as the setting's type.
pub open spec fn prior_assign(
    s: Seq<u8>,
    ka: int,
    kb: int,
    va: int,
    vb: int,
    id: Option<u32>,
    c: MovePriorConfig,
) -> Option<(Option<u32>, MovePriorConfig)> {
    let key = s.subrange(ka, kb);
    let v16 = value_int(s, va, vb, true, -32768, 32767);
    if key == "id".spec_bytes() {
        match value_int(s, va, vb, false, 0, 4294967295) {
            Some(v) => Some((Some(v as u32), c)),
            None => None,
        }
    } else if key == "shape_boost".spec_bytes() {
        match i16_array(s, va, vb) {
            Some(arr) => Some((id, MovePriorConfig { shape_boost: array8(arr), ..c })),
            None => None,
        }
    } else if key == "medium_rect_boost".spec_bytes() {
        match v16 {
            Some(v) => Some((id, MovePriorConfig { medium_rect_boost: v as i16, ..c })),
            None => None,
        }
    } else if key == "barrier_boost".spec_bytes() {
        match v16 {
            Some(v) => Some((id, MovePriorConfig { barrier_boost: v as i16, ..c })),
            None => None,
        }
    } else if key == "connection_boost".spec_bytes() {
        match v16 {
            Some(v) => Some((id, MovePriorConfig { connection_boost: v as i16, ..c })),
            None => None,
        }
    } else if key == "dead_cell_risk_penalty".spec_bytes() {
        match v16 {
            Some(v) => Some((id, MovePriorConfig { dead_cell_risk_penalty: v as i16, ..c })),
            None => None,
        }
    } else if key == "side_boost_first".spec_bytes() {
        match v16 {
            Some(v) => Some((id, MovePriorConfig { side_boost_first: v as i16, ..c })),
            None => None,
        }
    } else if key == "side_boost_second".spec_bytes() {
        match v16 {
            Some(v) => Some((id, MovePriorConfig { side_boost_second: v as i16, ..c })),
            None => None,
        }
    } else if key == "max_total_adjustment".spec_bytes() {
        match value_int(s, va, vb, false, 0, 65535) {
            Some(v) => Some((id, MovePriorConfig { max_total_adjustment: v as u16, ..c })),
            None => None,
        }
    } else if key == "confidence_min".spec_bytes() {
        match value_int(s, va, vb, false, 0, 255) {
            Some(v) => Some((id, MovePriorConfig { confidence_min: v as u8, ..c })),
            None => None,
        }
    } else {
        None
    }
}

/// The value in `c` of the single-number setting named `k` (0 for other names).
pub open spec fn named_setting(c: MovePriorConfig, k: Seq<u8>) -> int {
    if k == "medium_rect_boost".spec_bytes() {
        c.medium_rect_boost as int
    } else if k == "barrier_boost".spec_bytes() {
        c.barrier_boost as int
    } else if k == "connection_boost".spec_bytes() {
        c.connection_boost as int
    } else if k == "dead_cell_risk_penalty".spec_bytes() {
        c.dead_cell_risk_penalty as int
    } else if k == "side_boost_first".spec_bytes() {
        c.side_boost_first as int
    } else if k == "side_boost_second".spec_bytes() {
        c.side_boost_second as int
    } else if k == "max_total_adjustment".spec_bytes() {
        c.max_total_adjustment as int
    } else if k == "confidence_min".spec_bytes() {
        c.confidence_min as int
    } else {
        0
    }
}

/// `k` names one of the eight single-number settings of a prior configuration.
pub open spec fn is_setting_name(k: Seq<u8>) -> bool {
    k == "medium_rect_boost".spec_bytes() || k == "barrier_boost".spec_bytes() || k == "connection_boost".spec_bytes() || k == "dead_cell_risk_penalty".spec_bytes() || k == "side_boost_first".spec_bytes() || k == "side_boost_second".spec_bytes() || k == "max_total_adjustment".spec_bytes() || k == "confidence_min".spec_bytes()
}

/// The value `s[va..vb]` reads as for the setting named `k`: 0 to 65535 for
/// `max_total_adjustment`, 0 to 255 for `confidence_min`, a signed 16-bit number otherwise.
pub open spec fn setting_value(s: Seq<u8>, va: int, vb: int, k: Seq<u8>) -> Option<int> {
    if k == "max_total_adjustment".spec_bytes() {
        value_int(s, va, vb, false, 0, 65535)
    } else if k == "confidence_min".spec_bytes() {
        value_int(s, va, vb, false, 0, 255)
    } else {
        value_int(s, va, vb, true, -32768, 32767)
    }
}

/// A prior-configuration line `K = v` with `K` one of the single-number settings sets exactly
/// the setting named `K` to `v`: every other setting, the shape boosts and the id stay as they
/// were.
pub proof fn lemma_prior_line_sets_named_setting(
    s: Seq<u8>,
    ka: int,
    kb: int,
    va: int,
    vb: int,
    id: Option<u32>,
    c: MovePriorConfig,
)
    requires
        is_setting_name(s.subrange(ka, kb)),
        setting_value(s, va, vb, s.subrange(ka, kb)) is Some,
    ensures
        ({
            let key = s.subrange(ka, kb);
            let v = setting_value(s, va, vb, key)->0;
            let r = prior_assign(s, ka, kb, va, vb, id, c);
            let (id2, c2) = r->0;
            &&& r is Some
            &&& id2 == id
            &&& named_setting(c2, key) == v
            &&& c2.shape_boost == c.shape_boost
            &&& forall|k2: Seq<u8>| is_setting_name(k2) && k2 != key ==> #[trigger] named_setting(c2, k2) == named_setting(c, k2)
        }),
{
    reveal_strlit("id");
    reveal_strlit("shape_boost");
    reveal_strlit("medium_rect_boost");
    reveal_strlit("barrier_boost");
    reveal_strlit("connection_boost");
    reveal_strlit("dead_cell_risk_penalty");
    reveal_strlit("side_boost_first");
    reveal_strlit("side_boost_second");
    reveal_strlit("max_total_adjustment");
    reveal_strlit("confidence_min");
    assert(vstd::string::is_ascii("id"));
    vstd::string::is_ascii_spec_bytes("id");
    assert(vstd::string::is_ascii("shape_boost"));
    vstd::string::is_ascii_spec_bytes("shape_boost");
    assert(vstd::string::is_ascii("medium_rect_boost"));
    vstd::string::is_ascii_spec_bytes("medium_rect_boost");
    assert(vstd::string::is_ascii("barrier_boost"));
    vstd::string::is_ascii_spec_bytes("barrier_boost");
    assert(vstd::string::is_ascii("connection_boost"));
    vstd::string::is_ascii_spec_bytes("connection_boost");
    assert(vstd::string::is_ascii("dead_cell_risk_penalty"));
    vstd::string::is_ascii_spec_bytes("dead_cell_risk_penalty");
    assert(vstd::string::is_ascii("side_boost_first"));
    vstd::string::is_ascii_spec_bytes("side_boost_first");
    assert(vstd::string::is_ascii("side_boost_second"));
    vstd::string::is_ascii_spec_bytes("side_boost_second");
    assert(vstd::string::is_ascii("max_total_adjustment"));
    vstd::string::is_ascii_spec_bytes("max_total_adjustment");
    assert(vstd::string::is_ascii("confidence_min"));
    vstd::string::is_ascii_spec_bytes("confidence_min");
}

/// The other lines of a prior configuration: `id = n` sets the id and leaves the settings;
/// `shape_boost = ...` sets the shape boosts and leaves the id and every single-number setting;
/// a line with any other key is refused.
pub proof fn lemma_prior_line_other_keys(
    s: Seq<u8>,
    ka: int,
    kb: int,
    va: int,
    vb: int,
    id: Option<u32>,
    c: MovePriorConfig,
)
    ensures
        ({
            let key = s.subrange(ka, kb);
            let r = prior_assign(s, ka, kb, va, vb, id, c);
            let (id2, c2) = r->0;
            &&& (key == "id".spec_bytes() && value_int(s, va, vb, false, 0, 4294967295) is Some) ==> r is Some
                && id2 == Some(value_int(s, va, vb, false, 0, 4294967295)->0 as u32) && c2 == c
            &&& (key == "shape_boost".spec_bytes() && i16_array(s, va, vb) is Some) ==> r is Some && id2 == id
                && c2.shape_boost == array8(i16_array(s, va, vb)->0) && forall|k2: Seq<u8>|
                is_setting_name(k2) ==> #[trigger] named_setting(c2, k2) == named_setting(c, k2)
            &&& (key != "id".spec_bytes() && key != "shape_boost".spec_bytes() && !is_setting_name(key)) ==> r is None
        }),
{
    reveal_strlit("id");
    assert(vstd::string::is_ascii("id"));
    vstd::string::is_ascii_spec_bytes("id");
    reveal_strlit("shape_boost");
    assert(vstd::string::is_ascii("shape_boost"));
    vstd::string::is_ascii_spec_bytes("shape_boost");
    reveal_strlit("medium_rect_boost");
    assert(vstd::string::is_ascii("medium_rect_boost"));
    vstd::string::is_ascii_spec_bytes("medium_rect_boost");
    reveal_strlit("barrier_boost");
    assert(vstd::string::is_ascii("barrier_boost"));
    vstd::string::is_ascii_spec_bytes("barrier_boost");
    reveal_strlit("connection_boost");
    assert(vstd::string::is_ascii("connection_boost"));
    vstd::string::is_ascii_spec_bytes("connection_boost");
    reveal_strlit("dead_cell_risk_penalty");
    assert(vstd::string::is_ascii("dead_cell_risk_penalty"));
    vstd::string::is_ascii_spec_bytes("dead_cell_risk_penalty");
    reveal_strlit("side_boost_first");
    assert(vstd::string::is_ascii("side_boost_first"));
    vstd::string::is_ascii_spec_bytes("side_boost_first");
    reveal_strlit("side_boost_second");
    assert(vstd::string::is_ascii("side_boost_second"));
    vstd::string::is_ascii_spec_bytes("side_boost_second");
    reveal_strlit("max_total_adjustment");
    assert(vstd::string::is_ascii("max_total_adjustment"));
    vstd::string::is_ascii_spec_bytes("max_total_adjustment");
    reveal_strlit("confidence_min");
    assert(vstd::string::is_ascii("confidence_min"));
    vstd::string::is_ascii_spec_bytes("confidence_min");
}

/// Applies the line `key = value` to the prior configuration being read (see
/// `prior_assign`); `false`, with nothing promised of the two, where it does not apply.
fn assign_prior(
    s: &[u8],
    ka: usize,
    kb: usize,
    va: usize,
    vb: usize,
    id: &mut Option<u32>,
    c: &mut MovePriorConfig,
) -> (ok: bool)
    requires
        ka <= kb <= s@.len(),
        va <= vb <= s@.len(),
    ensures
        ok == prior_assign(s@, ka as int, kb as int, va as int, vb as int, *old(id), *old(c)) is Some,
        ok ==> prior_assign(s@, ka as int, kb as int, va as int, vb as int, *old(id), *old(c)) == Some(
            (*final(id), *final(c)),
        ),
{
    if span_is(s, ka, kb, "id".as_bytes()) {
        match parse_int(s, va, vb, false, 0, 4294967295) {
            Some(v) => {
                *id = Some(v as u32);
                true
            },
            None => false,
        }
    } else if span_is(s, ka, kb, "shape_boost".as_bytes()) {
        match parse_i16_array(s, va, vb) {
            Some(arr) => {
                proof {
                    lemma_array8(arr);
                }
                c.shape_boost = arr;
                true
            },
            None => false,
        }
    } else if span_is(s, ka, kb, "medium_rect_boost".as_bytes()) {
        match parse_int(s, va, vb, true, -32768, 32767) {
            Some(v) => {
                c.medium_rect_boost = v as i16;
                true
            },
            None => false,
        }
    } else if span_is(s, ka, kb, "barrier_boost".as_bytes()) {
        match parse_int(s, va, vb, true, -32768, 32767) {
            Some(v) => {
                c.barrier_boost = v as i16;
                true
            },
            None => false,
        }
    } else if span_is(s, ka, kb, "connection_boost".as_bytes()) {
        match parse_int(s, va, vb, true, -32768, 32767) {
            Some(v) => {
                c.connection_boost = v as i16;
                true
            },
            None => false,
        }
    } else if span_is(s, ka, kb, "dead_cell_risk_penalty".as_bytes()) {
        match parse_int(s, va, vb, true, -32768, 32767) {
            Some(v) => {
                c.dead_cell_risk_penalty = v as i16;
                true
            },
            None => false,
        }
    } else if span_is(s, ka, kb, "side_boost_first".as_bytes()) {
        match parse_int(s, va, vb, true, -32768, 32767) {
            Some(v) => {
                c.side_boost_first = v as i16;
                true
            },
            None => false,
        }
    } else if span_is(s, ka, kb, "side_boost_second".as_bytes()) {
        match parse_int(s, va, vb, true, -32768, 32767) {
            Some(v) => {
                c.side_boost_second = v as i16;
                true
            },
            None => false,
        }
    } else if span_is(s, ka, kb, "max_total_adjustment".as_bytes()) {
        match parse_int(s, va, vb, false, 0, 65535) {
            Some(v) => {
                c.max_total_adjustment = v as u16;
                true
            },
            None => false,
        }
    } else if span_is(s, ka, kb, "confidence_min".as_bytes()) {
        match parse_int(s, va, vb, false, 0, 255) {
            Some(v) => {
                c.confidence_min = v as u8;
                true
            },
            None => false,
        }
    } else {
        false
    }
}

/// Whether the trimmed line `s[ta..tb]` says nothing: it is empty or a `#` comment.
pub open spec fn is_blank_or_comment(s: Seq<u8>, ta: int, tb: int) -> bool {
    tb <= ta || s[ta] == 35
}

/// What reading the line `s[a..b]` of a prior-configuration file makes of `st`: the entries
/// finished so far, the id of the entry being read (if it has been given) and its settings.
/// Blank and comment lines change nothing; `---` finishes the entry if it has an id and starts
/// a fresh one; any other line must be a `key = value` setting. `None` where the file is
/// refused.
pub open spec fn prior_line(s: Seq<u8>, a: int, b: int, st: (Seq<PriorConfigEntry>, Option<u32>, MovePriorConfig)) -> Option<
    (Seq<PriorConfigEntry>, Option<u32>, MovePriorConfig),
> {
    let ta = trim_start(s, a, b);
    let tb = trim_end(s, ta, b);
    if is_blank_or_comment(s, ta, tb) {
        Some(st)
    } else if s.subrange(ta, tb) == "---".spec_bytes() {
        match st.1 {
            Some(id) => Some(
                (st.0.push(PriorConfigEntry { id, config: st.2 }), None, MovePriorConfig::spec_new_default()),
            ),
            None => Some(st),
        }
    } else {
        match key_value(s, ta, tb) {
            None => None,
            Some(kv) => match prior_assign(s, kv.0.0, kv.0.1, kv.1.0, kv.1.1, st.1, st.2) {
                Some(p) => Some((st.0, p.0, p.1)),
                None => None,
            },
        }
    }
}

/// The state after reading the first `k` lines of a prior-configuration file (see
/// `prior_line`).
pub open spec fn prior_scan(s: Seq<u8>, k: int) -> Option<(Seq<PriorConfigEntry>, Option<u32>, MovePriorConfig)>
    decreases k,
{
    if k <= 0 {
        Some((Seq::empty(), None, MovePriorConfig::spec_new_default()))
    } else {
        match prior_scan(s, k - 1) {
            Some(st) => prior_line(s, line_spans(s)[k - 1].0, line_spans(s)[k - 1].1, st),
            None => None,
        }
    }
}

/// Once a prior-configuration file is refused, reading more lines does not take it back.
pub proof fn lemma_prior_scan_refused(s: Seq<u8>, k: int, n: int)
    requires
        k <= n,
        prior_scan(s, k) is None,
    ensures
        prior_scan(s, n) is None,
    decreases n - k,
{
    if k < n {
        lemma_prior_scan_refused(s, k + 1, n);
    }
}

/// The prior configurations that the text `s` lists: entries separated by `---` lines, each
/// made of `key = value` settings over the default configuration, kept where they have an
/// id; `None` where the text is refused (a line that is not a setting, an unknown key, a
/// value that does not read).
pub open spec fn prior_entries(s: Seq<u8>) -> Option<Seq<PriorConfigEntry>> {
    match prior_scan(s, line_spans(s).len() as int) {
        Some(st) => Some(
            match st.1 {
                Some(id) => st.0.push(PriorConfigEntry { id, config: st.2 }),
                None => st.0,
            },
        ),
        None => None,
    }
}

/// Reads the prior configurations that `text` lists (see `prior_entries`).
pub fn load_prior_configs(text: &str) -> (r: Option<Vec<PriorConfigEntry>>)
    ensures
        match r {
            Some(v) => prior_entries(text.spec_bytes()) == Some(v@),
            None => prior_entries(text.spec_bytes()) is None,
        },
{
    let s = text.as_bytes();
    let lines = split_lines(s);
    let ghost sp = line_spans(s@);
    proof {
        lemma_lines_from_in_range(s@, 0);
    }
    let mut entries: Vec<PriorConfigEntry> = Vec::new();
    let mut id: Option<u32> = None;
    let mut cur = MovePriorConfig::new_default();
    let mut k: usize = 0;
    while k < lines.len()
        invariant
            s@ == text.spec_bytes(),
            sp == line_spans(s@),
            lines@.len() == sp.len(),
            forall|j: int| 0 <= j < lines@.len() ==> (#[trigger] lines@[j]).0 == sp[j].0 && lines@[j].1 == sp[j].1,
            forall|j: int| 0 <= j < sp.len() ==> 0 <= (#[trigger] sp[j]).0 <= sp[j].1 <= s@.len(),
            k <= lines@.len(),
            prior_scan(s@, k as int) == Some((entries@, id, cur)),
        decreases lines@.len() - k,
    {
        let (a, b) = lines[k];
        proof {
            assert(sp[k as int].0 == a && sp[k as int].1 == b);
        }
        let (ta, tb) = trim_span(s, a, b);
        if tb <= ta || s[ta] == 35 {
        } else if span_is(s, ta, tb, "---".as_bytes()) {
            match id {
                Some(x) => {
                    entries.push(PriorConfigEntry { id: x, config: cur });
                    id = None;
                    cur = MovePriorConfig::new_default();
                },
                None => {},
            }
        } else {
            match split_key_value(s, ta, tb) {
                None => {
                    proof {
                        lemma_prior_scan_refused(s@, k + 1, sp.len() as int);
                    }
                    return None;
                },
                Some(kv) => {
                    let ((ka, kb), (va, vb)) = kv;
                    if !assign_prior(s, ka, kb, va, vb, &mut id, &mut cur) {
                        proof {
                            lemma_prior_scan_refused(s@, k + 1, sp.len() as int);
                        }
                        return None;
                    }
                },
            }
        }
        k += 1;
    }
    match id {
        Some(x) => {
            entries.push(PriorConfigEntry { id: x, config: cur });
        },
        None => {},
    }
    Some(entries)
}

/// The fingerprint after the line `key = value`, the key at `s[ka..kb]` and the value at
/// `s[va..vb]`; `None` for an unknown key or a value that does not read as the field's type.
pub open spec fn fp_assign(s: Seq<u8>, ka: int, kb: int, va: int, vb: int, f: KnownFingerprintRaw) -> Option<
    KnownFingerprintRaw,
> {
    let key = s.subrange(ka, kb);
    let v32 = value_int(s, va, vb, false, 0, 4294967295);
    let v8 = value_int(s, va, vb, false, 0, 255);
    if key == "id".spec_bytes() {
        match v32 {
            Some(v) => Some(KnownFingerprintRaw { id: v as u32, ..f }),
            None => None,
        }
    } else if key == "style".spec_bytes() {
        match v32 {
            Some(v) => Some(KnownFingerprintRaw { style: v as u32, ..f }),
            None => None,
        }
    } else if key == "side_mask".spec_bytes() {
        match v8 {
            Some(v) => Some(KnownFingerprintRaw { side_mask: v as u8, ..f }),
            None => None,
        }
    } else if key == "min_moves".spec_bytes() {
        match v8 {
            Some(v) => Some(KnownFingerprintRaw { min_moves: v as u8, ..f }),
            None => None,
        }
    } else if key == "confidence_threshold".spec_bytes() {
        match v8 {
            Some(v) => Some(KnownFingerprintRaw { confidence_threshold: v as u8, ..f }),
            None => None,
        }
    } else if key == "margin_to_second".spec_bytes() {
        match v8 {
            Some(v) => Some(KnownFingerprintRaw { margin_to_second: v as u8, ..f }),
            None => None,
        }
    } else if key == "mean".spec_bytes() {
        match i16_array(s, va, vb) {
            Some(arr) => Some(KnownFingerprintRaw { mean: FeatureVector8 { dim: array8(arr) }, ..f }),
            None => None,
        }
    } else if key == "var".spec_bytes() {
        match i16_array(s, va, vb) {
            Some(arr) => Some(KnownFingerprintRaw { var: FeatureVector8 { dim: array8(arr) }, ..f }),
            None => None,
        }
    } else if key == "prior_config_id".spec_bytes() {
        match v32 {
            Some(v) => Some(KnownFingerprintRaw { prior_config_id: v as u32, ..f }),
            None => None,
        }
    } else {
        None
    }
}

/// Applies the line `key = value` to the fingerprint being read (see `fp_assign`); `false`,
/// with nothing promised of it, where it does not apply.
fn assign_fingerprint(s: &[u8], ka: usize, kb: usize, va: usize, vb: usize, f: &mut KnownFingerprintRaw) -> (ok:
    bool)
    requires
        ka <= kb <= s@.len(),
        va <= vb <= s@.len(),
    ensures
        ok == fp_assign(s@, ka as int, kb as int, va as int, vb as int, *old(f)) is Some,
        ok ==> fp_assign(s@, ka as int, kb as int, va as int, vb as int, *old(f)) == Some(*final(f)),
{
    if span_is(s, ka, kb, "id".as_bytes()) {
        match parse_int(s, va, vb, false, 0, 4294967295) {
            Some(v) => {
                f.id = v as u32;
                true
            },
            None => false,
        }
    } else if span_is(s, ka, kb, "style".as_bytes()) {
        match parse_int(s, va, vb, false, 0, 4294967295) {
            Some(v) => {
                f.style = v as u32;
                true
            },
            None => false,
        }
    } else if span_is(s, ka, kb, "side_mask".as_bytes()) {
        match parse_int(s, va, vb, false, 0, 255) {
            Some(v) => {
                f.side_mask = v as u8;
                true
            },
            None => false,
        }
    } else if span_is(s, ka, kb, "min_moves".as_bytes()) {
        match parse_int(s, va, vb, false, 0, 255) {
            Some(v) => {
                f.min_moves = v as u8;
                true
            },
            None => false,
        }
    } else if span_is(s, ka, kb, "confidence_threshold".as_bytes()) {
        match parse_int(s, va, vb, false, 0, 255) {
            Some(v) => {
                f.confidence_threshold = v as u8;
                true
            },
            None => false,
        }
    } else if span_is(s, ka, kb, "margin_to_second".as_bytes()) {
        match parse_int(s, va, vb, false, 0, 255) {
            Some(v) => {
                f.margin_to_second = v as u8;
                true
            },
            None => false,
        }
    } else if span_is(s, ka, kb, "mean".as_bytes()) {
        match parse_i16_array(s, va, vb) {
            Some(arr) => {
                proof {
                    lemma_array8(arr);
                }
                f.mean = FeatureVector8 { dim: arr };
                true
            },
            None => false,
        }
    } else if span_is(s, ka, kb, "var".as_bytes()) {
        match parse_i16_array(s, va, vb) {
            Some(arr) => {
                proof {
                    lemma_array8(arr);
                }
                f.var = FeatureVector8 { dim: arr };
                true
            },
            None => false,
        }
    } else if span_is(s, ka, kb, "prior_config_id".as_bytes()) {
        match parse_int(s, va, vb, false, 0, 4294967295) {
            Some(v) => {
                f.prior_config_id = v as u32;
                true
            },
            None => false,
        }
    } else {
        false
    }
}

/// What reading the line `s[a..b]` of a fingerprint file makes of `st`: the fingerprints
/// finished so far, the one being read, and whether any setting has been given for it. Blank
/// and comment lines change nothing; `---` finishes the fingerprint if it has a setting and
/// starts a zeroed one; any other line must be a `key = value` setting. `None` where the file
/// is refused.
pub open spec fn fp_line(s: Seq<u8>, a: int, b: int, st: (Seq<KnownFingerprintRaw>, KnownFingerprintRaw, bool)) -> Option<
    (Seq<KnownFingerprintRaw>, KnownFingerprintRaw, bool),
> {
    let ta = trim_start(s, a, b);
    let tb = trim_end(s, ta, b);
    if is_blank_or_comment(s, ta, tb) {
        Some(st)
    } else if s.subrange(ta, tb) == "---".spec_bytes() {
        if st.2 {
            Some((st.0.push(st.1), KnownFingerprintRaw::spec_zeroed(), false))
        } else {
            Some(st)
        }
    } else {
        match key_value(s, ta, tb) {
            None => None,
            Some(kv) => match fp_assign(s, kv.0.0, kv.0.1, kv.1.0, kv.1.1, st.1) {
                Some(f) => Some((st.0, f, true)),
                None => None,
            },
        }
    }
}

/// The state after reading the first `k` lines of a fingerprint file (see `fp_line`).
pub open spec fn fp_scan(s: Seq<u8>, k: int) -> Option<(Seq<KnownFingerprintRaw>, KnownFingerprintRaw, bool)>
    decreases k,
{
    if k <= 0 {
        Some((Seq::empty(), KnownFingerprintRaw::spec_zeroed(), false))
    } else {
        match fp_scan(s, k - 1) {
            Some(st) => fp_line(s, line_spans(s)[k - 1].0, line_spans(s)[k - 1].1, st),
            None => None,
        }
    }
}

/// Once a fingerprint file is refused, reading more lines does not take it back.
pub proof fn lemma_fp_scan_refused(s: Seq<u8>, k: int, n: int)
    requires
        k <= n,
        fp_scan(s, k) is None,
    ensures
        fp_scan(s, n) is None,
    decreases n - k,
{
    if k < n {
        lemma_fp_scan_refused(s, k + 1, n);
    }
}

/// The fingerprints that the text `s` lists: entries separated by `---` lines, each made of
/// `key = value` settings over a zeroed fingerprint, kept where they have a setting; `None`
/// where the text is refused (a line that is not a setting, an unknown key, a value that does
/// not read).
pub open spec fn fingerprint_entries(s: Seq<u8>) -> Option<Seq<KnownFingerprintRaw>> {
    match fp_scan(s, line_spans(s).len() as int) {
        Some(st) => Some(
            if st.2 {
                st.0.push(st.1)
            } else {
                st.0
            },
        ),
        None => None,
    }
}

/// Reads the fingerprints that `text` lists (see `fingerprint_entries`).
pub fn load_fingerprints(text: &str) -> (r: Option<Vec<KnownFingerprintRaw>>)
    ensures
        match r {
            Some(v) => fingerprint_entries(text.spec_bytes()) == Some(v@),
            None => fingerprint_entries(text.spec_bytes()) is None,
        },
{
    let s = text.as_bytes();
    let lines = split_lines(s);
    let ghost sp = line_spans(s@);
    proof {
        lemma_lines_from_in_range(s@, 0);
    }
    let mut out: Vec<KnownFingerprintRaw> = Vec::new();
    let mut cur = KnownFingerprintRaw::zeroed();
    let mut has_entry = false;
    let mut k: usize = 0;
    while k < lines.len()
        invariant
            s@ == text.spec_bytes(),
            sp == line_spans(s@),
            lines@.len() == sp.len(),
            forall|j: int| 0 <= j < lines@.len() ==> (#[trigger] lines@[j]).0 == sp[j].0 && lines@[j].1 == sp[j].1,
            forall|j: int| 0 <= j < sp.len() ==> 0 <= (#[trigger] sp[j]).0 <= sp[j].1 <= s@.len(),
            k <= lines@.len(),
            fp_scan(s@, k as int) == Some((out@, cur, has_entry)),
        decreases lines@.len() - k,
    {
        let (a, b) = lines[k];
        proof {
            assert(sp[k as int].0 == a && sp[k as int].1 == b);
        }
        let (ta, tb) = trim_span(s, a, b);
        if tb <= ta || s[ta] == 35 {
        } else if span_is(s, ta, tb, "---".as_bytes()) {
            if has_entry {
                out.push(cur);
                cur = KnownFingerprintRaw::zeroed();
                has_entry = false;
            }
        } else {
            has_entry = true;
            match split_key_value(s, ta, tb) {
                None => {
                    proof {
                        lemma_fp_scan_refused(s@, k + 1, sp.len() as int);
                    }
                    return None;
                },
                Some(kv) => {
                    let ((ka, kb), (va, vb)) = kv;
                    if !assign_fingerprint(s, ka, kb, va, vb, &mut cur) {
                        proof {
                            lemma_fp_scan_refused(s@, k + 1, sp.len() as int);
                        }
                        return None;
                    }
                },
            }
        }
        k += 1;
    }
    if has_entry {
        out.push(cur);
    }
    Some(out)
}

} // verus!
