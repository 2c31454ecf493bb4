use vstd::prelude::*;

use crate::board::{area_ok, area_total, lemma_area_empty, row_total};
use crate::types::{GeometryConfig, MQualityGrid, ValueGrid};

verus! {

/// The geometry weights used when none were configured: corner 10, edge 5, centre 3,
/// connectivity 8, steal 12, barrier 15, compact bonus 6, risk penalty 10.
pub open spec fn spec_default_geometry() -> GeometryConfig {
    GeometryConfig {
        corner_weight: 10,
        edge_weight: 5,
        center_weight: 3,
        connectivity_weight: 8,
        steal_weight: 12,
        barrier_weight: 15,
        compact_bonus: 6,
        risk_penalty: 10,
    }
}

/// The configured geometry weights, or the defaults when none were configured.
pub fn get_geometry(configured: Option<&GeometryConfig>) -> (g: GeometryConfig)
    ensures
        g == match configured {
            Some(cfg) => *cfg,
            None => spec_default_geometry(),
        },
{
    match configured {
        Some(cfg) => *cfg,
        None => GeometryConfig {
            corner_weight: 10,
            edge_weight: 5,
            center_weight: 3,
            connectivity_weight: 8,
            steal_weight: 12,
            barrier_weight: 15,
            compact_bonus: 6,
            risk_penalty: 10,
        },
    }
}

/// Quality of cell `(r, c)`: from the quality grid when there is one, else the cell's value.
pub open spec fn spec_cell_quality(quality: Option<MQualityGrid>, values: ValueGrid, r: int, c: int) -> int {
    match quality {
        Some(q) => q@[r]@[c] as int,
        None => values@[r]@[c] as int,
    }
}

/// The grid a reference points to, if any.
pub open spec fn quality_value(quality: Option<&MQualityGrid>) -> Option<MQualityGrid> {
    match quality {
        Some(q) => Some(*q),
        None => None,
    }
}

/// Quality of cell `(r, c)` (see `spec_cell_quality`).
pub fn cell_quality(quality: Option<&MQualityGrid>, values: &ValueGrid, r: usize, c: usize) -> (v: i32)
    requires
        r < 10,
        c < 17,
    ensures
        v == spec_cell_quality(quality_value(quality), *values, r as int, c as int),
        -128 <= v <= 127,
{
    match quality {
        Some(q) => q[r][c] as i32,
        None => values[r][c] as i32,
    }
}

/// Sum of the cell qualities over the rectangle `(r1, c1)`-`(r2, c2)` (0 when it is empty).
pub fn move_quality_sum(
    quality: Option<&MQualityGrid>,
    values: &ValueGrid,
    r1: i32,
    c1: i32,
    r2: i32,
    c2: i32,
) -> (sum: i32)
    requires
        area_ok(r1, c1, r2, c2),
    ensures
        sum == area_total(
            |r: int, c: int| spec_cell_quality(quality_value(quality), *values, r, c),
            r1 as int,
            c1 as int,
            r2 as int,
            c2 as int,
        ),
{
    let ghost f = |r: int, c: int| spec_cell_quality(quality_value(quality), *values, r, c);
    if r1 > r2 || c1 > c2 {
        proof {
            lemma_area_empty(f, r1 as int, c1 as int, r2 as int, c2 as int);
        }
        return 0;
    }
    let mut sum: i32 = 0;
    let mut r = r1;
    while r <= r2
        invariant
            0 <= r1 <= r <= r2 + 1,
            r2 < 10,
            0 <= c1 <= c2 < 17,
            f == (|r: int, c: int| spec_cell_quality(quality_value(quality), *values, r, c)),
            sum == area_total(f, r1 as int, c1 as int, r - 1, c2 as int),
            -2176 * (r - r1) <= sum <= 2176 * (r - r1),
        decreases r2 + 1 - r,
    {
        let mut c = c1;
        let ghost row_start = sum;
        while c <= c2
            invariant
                0 <= r1 <= r <= r2,
                r2 < 10,
                0 <= c1 <= c <= c2 + 1,
                c2 < 17,
                f == (|r: int, c: int| spec_cell_quality(quality_value(quality), *values, r, c)),
                row_start == area_total(f, r1 as int, c1 as int, r - 1, c2 as int),
                -2176 * (r - r1) <= row_start <= 2176 * (r - r1),
                r - r1 <= 9,
                sum == row_start + row_total(f, r as int, c1 as int, c - 1),
                -128 * (c - c1) <= sum - row_start <= 128 * (c - c1),
                c - c1 <= 17,
            decreases c2 + 1 - c,
        {
            sum += cell_quality(quality, values, r as usize, c as usize);
            c += 1;
        }
        r += 1;
    }
    sum
}

} // verus!
