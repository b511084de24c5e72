//! Heuristic cost estimates. All variants are integer-valued: the Euclidean
//! estimate is the floor of the square root of the squared distance, and the
//! randomized (non-admissible) variants inflate it by a random percentage.
//!
//! The "expensive" variants are the same estimates made artificially slow;
//! the delay is timing only and belongs to the driver that runs the workers,
//! so here they compute the same values as their cheap counterparts.

use vstd::prelude::*;
use crate::structs::{HeurType, Node};
use rand::Rng;

verus! {

/// Absolute value of a mathematical integer.
pub open spec fn iabs(a: int) -> int {
    if a < 0 {
        -a
    } else {
        a
    }
}

/// Square of a mathematical integer.
pub open spec fn sq(a: int) -> int {
    a * a
}

/// Squared Euclidean distance between two nodes' positions.
pub open spec fn dist2(a: Node, b: Node) -> int {
    sq(b.position.x - a.position.x) + sq(b.position.y - a.position.y)
}

/// `d` is the floor of the Euclidean distance between the two positions.
pub open spec fn is_floor_dist(a: Node, b: Node, d: int) -> bool {
    0 <= d && sq(d) <= dist2(a, b) && dist2(a, b) < sq(d + 1)
}

/// Both coordinates lie on a grid of side at most 46340 cells.
pub open spec fn coord_ok(n: Node) -> bool {
    0 <= n.position.x <= 46340 && 0 <= n.position.y <= 46340
}

/// Floor of the square root: the unique `r` with `r * r <= v < (r+1) * (r+1)`.
pub fn isqrt(v: u64) -> (r: u64)
    requires
        v < 0x1_0000_0000u64,
    ensures
        sq(r as int) <= v as int && (v as int) < sq(r as int + 1),
        r < 0x1_0000,
{
    let mut r: u64 = 0;
    loop
        invariant
            v < 0x1_0000_0000u64,
            sq(r as int) <= v as int,
            r < 0x1_0000,
        ensures
            sq(r as int) <= v as int && (v as int) < sq(r as int + 1),
            r < 0x1_0000,
        decreases v as int - sq(r as int),
    {
        proof {
            assert((r as int + 1) * (r as int + 1) <= 0x1_0000_0000) by (nonlinear_arith)
                requires
                    r < 0x1_0000,
            ;
        }
        let next: u64 = (r + 1) * (r + 1);
        if next > v {
            break;
        }
        proof {
            assert((r as int + 1) * (r as int + 1) < 0x1_0000_0000 ==> r as int + 1
                < 0x1_0000) by (nonlinear_arith);
            assert(sq(r as int) < sq(r as int + 1)) by (nonlinear_arith)
                requires
                    r >= 0,
            ;
        }
        r = r + 1;
    }
    r
}

/// The Euclidean distance estimate, rounded down to an integer.
pub fn euclidean(node: Node, end: Node) -> (r: i128)
    requires
        coord_ok(node),
        coord_ok(end),
    ensures
        0 <= r < 0x1_0000,
        sq(r as int) <= dist2(node, end) && dist2(node, end) < sq(r as int + 1),
{
    let dx: i64 = (end.position.x - node.position.x) as i64;
    let dy: i64 = (end.position.y - node.position.y) as i64;
    proof {
        assert(dx * dx == sq(dx as int) && 0 <= dx * dx <= 46340 * 46340) by (nonlinear_arith)
            requires -46340 <= dx <= 46340;
        assert(dy * dy == sq(dy as int) && 0 <= dy * dy <= 46340 * 46340) by (nonlinear_arith)
            requires -46340 <= dy <= 46340;
    }
    let dd: u64 = (dx * dx + dy * dy) as u64;
    let r = isqrt(dd);
    r as i128
}

/// Alias kept from the distributed variants: the Euclidean estimate.
pub fn distance(node: Node, end: Node) -> (r: i128)
    requires
        coord_ok(node),
        coord_ok(end),
    ensures
        0 <= r < 0x1_0000,
        sq(r as int) <= dist2(node, end) && dist2(node, end) < sq(r as int + 1),
{
    euclidean(node, end)
}

/// The Manhattan distance estimate.
pub fn manhattan(node: Node, end: Node) -> (r: i128)
    requires
        coord_ok(node),
        coord_ok(end),
    ensures
        r == iabs(node.position.x - end.position.x) + iabs(node.position.y - end.position.y),
        0 <= r <= 2 * 46340,
{
    let dx: i64 = (node.position.x - end.position.x) as i64;
    let dy: i64 = (node.position.y - end.position.y) as i64;
    let ax: i64 = if dx < 0 { -dx } else { dx };
    let ay: i64 = if dy < 0 { -dy } else { dy };
    (ax + ay) as i128
}

/// The Euclidean estimate computed the slow way; the artificial delay is the
/// driver's concern, the value is the same.
pub fn expensive(node: Node, end: Node) -> (r: i128)
    requires
        coord_ok(node),
        coord_ok(end),
    ensures
        0 <= r < 0x1_0000,
        sq(r as int) <= dist2(node, end) && dist2(node, end) < sq(r as int + 1),
{
    euclidean(node, end)
}

/// Relies on rand's `thread_rng` and `Rng::gen_range` for a uniformly random
/// integer in `1..100`; `gen_range` panics only on an empty range, and
/// `1..100` is not empty.
#[verifier::external_body]
fn random_percent() -> (p: u64)
    ensures
        1 <= p < 100,
{
    let mut rng = rand::thread_rng();
    rng.gen_range(1..100u64)
}

/// Inflate a distance estimate by `percent` percent, rounding down. This is
/// the deterministic part of the randomized heuristic: whatever percentage
/// the generator produced, the result is pinned by this formula.
pub fn inflated_estimate(dist: i128, percent: u64) -> (r: i128)
    requires
        0 <= dist < 0x1_0000,
        1 <= percent < 100,
    ensures
        r == dist + dist * (percent as int) / 100,
        dist <= r < 2 * dist || (dist == 0 && r == 0),
{
    proof {
        assert(0 <= dist * (percent as int) <= dist * 99) by (nonlinear_arith)
            requires 0 <= dist, percent < 100;
        assert(dist * 99 / 100 < dist || dist == 0) by (nonlinear_arith)
            requires 0 <= dist < 0x1_0000;
        assert(dist * (percent as int) / 100 <= dist * 99 / 100) by (nonlinear_arith)
            requires 0 <= dist, 0 < percent as int <= 99;
        assert(dist * (percent as int) / 100 >= 0) by (nonlinear_arith)
            requires 0 <= dist, 0 < percent as int;
    }
    dist + (dist * (percent as i128)) / 100
}

/// The non-admissible estimate: the Euclidean distance inflated by a random
/// percentage in `1..100`. Whatever the generator produces, the result lies
/// between the Euclidean estimate and its double.
pub fn non_admissible(node: Node, end: Node, slow: bool) -> (r: i128)
    requires
        coord_ok(node),
        coord_ok(end),
    ensures
        exists|d: int|
            #[trigger] is_floor_dist(node, end, d) && d <= r && (r < 2 * d || (d == 0 && r
                == 0)),
        0 <= r < 0x2_0000,
{
    let _ = slow;
    let dist = euclidean(node, end);
    let percent = random_percent();
    let r = inflated_estimate(dist, percent);
    proof {
        let d = dist as int;
        assert(is_floor_dist(node, end, d) && d <= r && (r < 2 * d || (d == 0 && r == 0)));
    }
    r
}

/// Dispatch to the selected heuristic strategy. Every variant returns a
/// non-negative estimate below `0x2_0000`.
pub fn heuristic(node: Node, end: Node, heur: &HeurType) -> (r: i128)
    requires
        coord_ok(node),
        coord_ok(end),
    ensures
        0 <= r < 0x2_0000,
        *heur == HeurType::EuclideanDist || *heur == HeurType::Expensive ==> sq(r as int) <= dist2(node, end) && dist2(node, end) < sq(r as int + 1),
        *heur == HeurType::ManhattanDist ==> r == iabs(node.position.x - end.position.x)
            + iabs(node.position.y - end.position.y),
{
    match heur {
        HeurType::EuclideanDist => euclidean(node, end),
        HeurType::ManhattanDist => manhattan(node, end),
        HeurType::Expensive => expensive(node, end),
        HeurType::NonAdmissible => non_admissible(node, end, false),
        HeurType::ExpensiveNonAdmissible => non_admissible(node, end, true),
    }
}

/// The Manhattan estimate under its name from the sequential reference
/// search.
pub fn heur(current: Node, target: Node) -> (r: i128)
    requires
        coord_ok(current),
        coord_ok(target),
    ensures
        r == iabs(current.position.x - target.position.x) + iabs(
            current.position.y - target.position.y,
        ),
{
    manhattan(current, target)
}

} // verus!
