//! Frontier partitioning: a deterministic hash of a node's position assigns
//! the node to an owning worker, and a bounded probe over alternate owners
//! skips workers whose channels are gone. The same position and worker count
//! always probe the same sequence, so repeated sends of one logical node
//! converge on one owner.

use vstd::prelude::*;
use std::collections::HashSet;
use crate::structs::Node;
use crate::heuristics::coord_ok;

verus! {

broadcast use vstd::std_specs::hash::group_hash_axioms;

/// The stable hash of a grid position.
pub open spec fn position_hash(x: int, y: int) -> int {
    x * 0x1_0001 + y * 0x9E37_79B9
}

/// Computes the deterministic position hash of a node: identical positions
/// always hash alike, in every process and on every machine.
pub fn calculate_hash(node: &Node) -> (h: u64)
    requires
        coord_ok(*node),
    ensures
        h == position_hash(node.position.x as int, node.position.y as int),
        h < 0x1_0000_0000_0000u64,
{
    let x = node.position.x as u64;
    let y = node.position.y as u64;
    x * 0x1_0001 + y * 0x9E37_79B9
}

/// The first probe offset at or after `i` whose candidate index is not
/// excluded, as an index in `[0, t)`; `-1` when every offset up to `t` is
/// excluded.
pub open spec fn probe_from(h: int, tried: Set<i32>, t: int, i: int) -> int
    decreases t - i,
{
    if i < 0 || t <= 0 || i >= t {
        -1
    } else if tried.contains((((h + i) % t) as i32)) {
        probe_from(h, tried, t, i + 1)
    } else {
        (h + i) % t
    }
}

/// The owner that the router assigns for hash `h` among `t` workers, given
/// the excluded set; `-1` when every worker is excluded.
pub open spec fn route_of(h: int, tried: Set<i32>, t: int) -> int {
    probe_from(h, tried, t, 0)
}

/// The probe result is either the no-route marker or a worker index.
pub proof fn lemma_probe_bounds(h: int, tried: Set<i32>, t: int, i: int)
    ensures
        probe_from(h, tried, t, i) == -1 || 0 <= probe_from(h, tried, t, i) < t,
    decreases t - i,
{
    if !(i < 0 || t <= 0 || i >= t) {
        lemma_probe_bounds(h, tried, t, i + 1);
    }
}

/// With nothing excluded, the owner of a hash is simply the hash modulo
/// the worker count: identical positions and worker counts always name the
/// same primary owner. With a single worker every candidate therefore
/// routes back to it, and the run degenerates to a sequential best-first
/// search over one private frontier.
pub proof fn lemma_primary_owner(h: int, t: int)
    requires
        t >= 1,
        0 <= h,
    ensures
        route_of(h, Set::empty(), t) == h % t,
        t == 1 ==> route_of(h, Set::empty(), t) == 0,
{
    assert(!Set::<i32>::empty().contains(((h % t) as i32)));
}

/// Calculate which worker's inbound queue a node belongs to. Probes
/// `hash + i mod num_threads` for increasing `i`, skipping indices in
/// `setty` (channels found dead this attempt); when every index is
/// excluded, falls back to the calling worker's own index.
pub fn compute_recipient(node: &Node, setty: &HashSet<i32>, num_threads: u64, thread_num: usize) -> (r: i32)
    requires
        coord_ok(*node),
        1 <= num_threads <= 0x1_0000,
        thread_num < num_threads,
    ensures
        route_of(
            position_hash(node.position.x as int, node.position.y as int),
            setty@,
            num_threads as int,
        ) == -1 ==> r == thread_num as i32,
        route_of(
            position_hash(node.position.x as int, node.position.y as int),
            setty@,
            num_threads as int,
        ) != -1 ==> r as int == route_of(
            position_hash(node.position.x as int, node.position.y as int),
            setty@,
            num_threads as int,
        ),
        0 <= r < num_threads,
{
    let hash = calculate_hash(node);
    let ghost h = position_hash(node.position.x as int, node.position.y as int);
    let ghost t = num_threads as int;
    let mut i: u64 = 0;
    while i < num_threads
        invariant
            coord_ok(*node),
            1 <= num_threads <= 0x1_0000,
            hash == h,
            h == position_hash(node.position.x as int, node.position.y as int),
            0 <= h < 0x1_0000_0000_0000,
            t == num_threads as int,
            0 <= i <= num_threads,
            route_of(h, setty@, t) == probe_from(h, setty@, t, i as int),
        decreases num_threads - i,
    {
        let index = (hash + i) % num_threads;
        if setty.contains(&(index as i32)) {
            proof {
                assert(probe_from(h, setty@, t, i as int) == probe_from(
                    h,
                    setty@,
                    t,
                    i as int + 1,
                ));
            }
            i = i + 1;
        } else {
            proof {
                assert(probe_from(h, setty@, t, i as int) == (h + i as int) % t);
            }
            return index as i32;
        }
    }
    proof {
        assert(probe_from(h, setty@, t, t) == -1);
    }
    thread_num as i32
}

} // verus!
