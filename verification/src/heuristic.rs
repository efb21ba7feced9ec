use vstd::prelude::*;
use crate::single::{round_single, round_to_single};

verus! {

/// `|a - b|` over the integers.
pub open spec fn abs_diff_spec(a: int, b: int) -> int {
    if a < b { b - a } else { a - b }
}

/// Absolute difference of two coordinates, computed as `|a - b|` in `i32`
/// arithmetic (the difference itself must be representable and not `i32::MIN`).
fn absdiff(a: i32, b: i32) -> (r: u32)
    requires
        i32::MIN < a - b <= i32::MAX,
    ensures
        r == abs_diff_spec(a as int, b as int),
{
    let d: i32 = a - b;
    if d < 0 {
        (0 - d) as u32
    } else {
        d as u32
    }
}

/// `v` converted from single precision to `u32`: values past `u32::MAX`
/// saturate.
pub open spec fn saturate_u32(v: int) -> int {
    if v > u32::MAX { u32::MAX as int } else { v }
}

/// The Manhattan distance between `o` and `e`.
pub open spec fn manhattan(o: (i32, i32), e: (i32, i32)) -> int {
    abs_diff_spec(o.0 as int, e.0 as int) + abs_diff_spec(o.1 as int, e.1 as int)
}

/// The estimate between two grid points: the Manhattan distance, passed
/// through single precision and back to `u32`.
pub open spec fn estimate(o: (i32, i32), e: (i32, i32)) -> int {
    saturate_u32(round_single(manhattan(o, e) as nat) as int)
}

/// The inputs on which each coordinate difference fits an `i32` other than
/// `i32::MIN`.
pub open spec fn coordinates_comparable(o: (i32, i32), e: (i32, i32)) -> bool {
    &&& i32::MIN < o.0 - e.0 <= i32::MAX
    &&& i32::MIN < o.1 - e.1 <= i32::MAX
}

/// The Manhattan distance from `o` to `e`, taken through single precision
/// (`1.0 * (dx + dy) as f32`) and converted back to `u32`.
pub fn distance(o: &(i32, i32), e: &(i32, i32)) -> (d: u32)
    requires
        coordinates_comparable(*o, *e),
    ensures
        d == estimate(*o, *e),
{
    let dx = absdiff(o.0, e.0);
    let dy = absdiff(o.1, e.1);
    let sum: u64 = dx as u64 + dy as u64;
    let single = round_to_single(sum);
    if single > 0xffff_ffff {
        0xffff_ffff
    } else {
        single as u32
    }
}

/// The Manhattan distance is the horizontal distance plus the vertical one,
/// each the absolute difference of the coordinates: it is zero exactly
/// between equal points, symmetric, and obeys the triangle inequality.
pub proof fn lemma_manhattan_laws(o: (i32, i32), e: (i32, i32), m: (i32, i32))
    ensures
        manhattan(o, (e.0, o.1)) >= 0,
        manhattan(o, (e.0, o.1)) == e.0 - o.0 || manhattan(o, (e.0, o.1)) == o.0 - e.0,
        manhattan(o, e) == manhattan(o, (e.0, o.1)) + manhattan((e.0, o.1), e),
        manhattan((e.0, o.1), e) == e.1 - o.1 || manhattan((e.0, o.1), e) == o.1 - e.1,
        manhattan((e.0, o.1), e) >= 0,
        manhattan(o, e) == 0 <==> o == e,
        manhattan(o, e) == manhattan(e, o),
        manhattan(o, e) <= manhattan(o, m) + manhattan(m, e),
{
}

/// The estimate does not depend on the direction of travel, and it is zero
/// from a point to itself.
pub proof fn lemma_estimate_symmetric(o: (i32, i32), e: (i32, i32))
    ensures
        estimate(o, e) == estimate(e, o),
        estimate(o, o) == 0,
{
}

/// Below 2^24 the estimate is exactly the Manhattan distance.
pub proof fn lemma_estimate_exact_when_small(o: (i32, i32), e: (i32, i32))
    requires
        manhattan(o, e) < 0x1000000,
    ensures
        estimate(o, e) == manhattan(o, e),
{
}

} // verus!
