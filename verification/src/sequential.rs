//! The sequential reference search: plain best-first expansion over one
//! open set and one position table, popping by ascending `f` until the goal
//! comes off the frontier or the frontier runs dry. The distributed engine
//! is measured against this search: with an admissible heuristic both must
//! report the same cost.
//!
//! Proved here, beyond memory safety: every reported cost is the length of
//! a real walk over passable cells (soundness), and a no-path verdict is
//! correct — when the frontier runs dry, the set of stored cells is closed
//! under passable moves and contains the start, so an unstored goal is
//! unreachable (completeness).
//!
//! The shared-structure baseline variant reduces to this search once its
//! single open/closed structure is taken round-robin by the pool: the first
//! goal node popped ends the run (the shared finished flag), and an empty
//! frontier is completion only because no other worker can still insert —
//! never a mid-flight snapshot of a momentarily empty queue.

use vstd::prelude::*;
use crate::structs::{Flags, HeurType, Node, Point};
use crate::open_set::OpenSet;
use crate::table::{NodeTable, SlotStatus};
use crate::heuristics::{coord_ok, heuristic, iabs};
use crate::grid::{adjacent_step, connects, grid_square, is_valid_neighbor, is_walk, passable,
    reachable, reachable_in};
use crate::grid::{lemma_walk_extend, lemma_walk_single};
use crate::engine::{node_sound, open_sound};

verus! {

/// The most nodes the sequential search will expand before giving up and
/// reporting an incomplete run; a safety valve only.
pub const EXPANSION_LIMIT: u64 = 0x2000_0000_0000_0000;

/// Every accumulated cost the sequential search handles stays under this;
/// it can gain at most one unit per expansion.
pub const COST_CEILING: i128 = 0x4000_0000_0000_0000;

/// What a finished sequential search reports.
#[derive(Clone, Copy, Debug)]
pub struct SeqReport {
    /// The cost of the first goal node popped; `i128::MAX` means the
    /// frontier ran dry without reaching the goal.
    pub cost: i128,
    /// The goal node behind the cost (meaningful when a path was found).
    pub node: Node,
    /// How many nodes were expanded.
    pub expanded: u64,
    /// Whether the search ended by finding the goal or exhausting the
    /// frontier (rather than the expansion safety valve).
    pub complete: bool,
}

/// The node sits on the grid with a non-negative cost.
pub open spec fn node_in_grid(n: Node, dim: int) -> bool {
    &&& 0 <= n.position.x < dim
    &&& 0 <= n.position.y < dim
    &&& 0 <= n.g
}

/// Every frontier node sits on the grid, with cost at most `bound`.
pub open spec fn frontier_ok(s: Seq<Node>, dim: int, bound: int) -> bool {
    forall|j: int|
        0 <= j < s.len() ==> node_in_grid(#[trigger] s[j], dim) && s[j].g <= bound
}

/// Every expanded (closed) cell has all of its passable neighbours stored:
/// the search never finalizes a cell while a move out of it is undiscovered.
pub open spec fn table_closure(g: Seq<Vec<char>>, t: NodeTable) -> bool {
    forall|x: int, y: int|
        0 <= x < t.spec_dim() && 0 <= y < t.spec_dim() && (#[trigger] t.slot_at(x, y)).status
            == SlotStatus::Closed ==> closure_at(g, t, x, y)
}

/// The four neighbours of `(x, y)`: each passable one is stored.
pub open spec fn closure_at(g: Seq<Vec<char>>, t: NodeTable, x: int, y: int) -> bool {
    &&& passable(g, x + 1, y) ==> t.slot_at(x + 1, y).status != SlotStatus::Absent
    &&& passable(g, x - 1, y) ==> t.slot_at(x - 1, y).status != SlotStatus::Absent
    &&& passable(g, x, y + 1) ==> t.slot_at(x, y + 1).status != SlotStatus::Absent
    &&& passable(g, x, y - 1) ==> t.slot_at(x, y - 1).status != SlotStatus::Absent
}

/// Every open slot of the table has a node waiting in the frontier: work
/// marked open is never forgotten.
pub open spec fn open_covers(t: NodeTable, s: Seq<Node>) -> bool {
    forall|x: int, y: int|
        0 <= x < t.spec_dim() && 0 <= y < t.spec_dim() && (#[trigger] t.slot_at(x, y)).status
            == SlotStatus::Open ==> exists|j: int|
            0 <= j < s.len() && (#[trigger] s[j]).position.x == x && s[j].position.y == y
}

/// Walking from a closed cell, every cell of the walk is closed, as long as
/// no cell is open and closed cells have all passable neighbours stored.
proof fn lemma_walk_all_closed(g: Seq<Vec<char>>, t: NodeTable, p: Seq<Point>, i: int)
    requires
        t.wf(),
        t.spec_dim() == g.len(),
        is_walk(g, p),
        t.slot_at(p[0].x as int, p[0].y as int).status == SlotStatus::Closed,
        table_closure(g, t),
        forall|x: int, y: int|
            0 <= x < t.spec_dim() && 0 <= y < t.spec_dim() ==> (#[trigger] t.slot_at(
                x,
                y,
            )).status != SlotStatus::Open,
        0 <= i < p.len(),
    ensures
        t.slot_at(p[i].x as int, p[i].y as int).status == SlotStatus::Closed,
    decreases i,
{
    if i > 0 {
        lemma_walk_all_closed(g, t, p, i - 1);
        let a = p[i - 1];
        let b = p[i];
        assert(passable(g, a.x as int, a.y as int));
        assert(passable(g, b.x as int, b.y as int));
        assert(adjacent_step(a, b));
        assert(iabs(a.x - b.x) + iabs(a.y - b.y) == 1);
        assert(closure_at(g, t, a.x as int, a.y as int));
        if b.x == a.x + 1 && b.y == a.y {
            assert(t.slot_at(b.x as int, b.y as int).status != SlotStatus::Absent);
        } else if b.x == a.x - 1 && b.y == a.y {
            assert(t.slot_at(b.x as int, b.y as int).status != SlotStatus::Absent);
        } else if b.x == a.x && b.y == a.y + 1 {
            assert(t.slot_at(b.x as int, b.y as int).status != SlotStatus::Absent);
        } else {
            assert(b.x == a.x && b.y == a.y - 1);
            assert(t.slot_at(b.x as int, b.y as int).status != SlotStatus::Absent);
        }
    }
}

/// When the frontier has run dry — the start is closed, no cell is open,
/// every closed cell's passable neighbours are stored — any cell that is
/// not closed is unreachable: the search has covered the whole component of
/// the start.
proof fn lemma_unreachable_when_drained(g: Seq<Vec<char>>, t: NodeTable, from: Point, to: Point)
    requires
        t.wf(),
        t.spec_dim() == g.len(),
        t.slot_at(from.x as int, from.y as int).status == SlotStatus::Closed,
        table_closure(g, t),
        forall|x: int, y: int|
            0 <= x < t.spec_dim() && 0 <= y < t.spec_dim() ==> (#[trigger] t.slot_at(
                x,
                y,
            )).status != SlotStatus::Open,
        0 <= to.x < t.spec_dim(),
        0 <= to.y < t.spec_dim(),
        t.slot_at(to.x as int, to.y as int).status != SlotStatus::Closed,
    ensures
        !reachable(g, from, to),
{
    assert forall|p: Seq<Point>| !connects(g, p, from, to) by {
        if connects(g, p, from, to) {
            assert(p[0] == from);
            lemma_walk_all_closed(g, t, p, p.len() - 1);
            assert(p[p.len() - 1] == to);
        }
    }
}

/// Generate one neighbour of a just-expanded node and, when it improves on
/// what the table stores for its position, enter it into the frontier.
/// Afterwards the neighbour's cell is stored whenever the move is passable;
/// no other cell changes, stored cells stay stored, no cell becomes closed,
/// and frontier soundness is preserved: the new node's cost extends the
/// expanded node's walk by one move.
pub fn expand_neighbor_seq(
    table: &mut NodeTable,
    open: &mut OpenSet,
    temp: Node,
    dx: i32,
    dy: i32,
    graph: &Vec<Vec<char>>,
    goal: Node,
    heur: &HeurType,
    dim: usize,
)
    requires
        old(table).wf(),
        old(table).spec_dim() == dim,
        node_in_grid(temp, dim as int),
        temp.g < 0x4000_0000_0000_0000,
        -1 <= dx <= 1,
        -1 <= dy <= 1,
        iabs(dx as int) + iabs(dy as int) == 1,
        grid_square(graph@),
        dim == graph@.len(),
        coord_ok(goal),
        1 <= dim <= 46340,
    ensures
        final(table).wf(),
        final(table).spec_dim() == dim,
        // Only the target cell can change, and only to an open entry.
        forall|x: int, y: int|
            0 <= x < dim && 0 <= y < dim && !(x == temp.position.x + dx && y == temp.position.y
                + dy) ==> (#[trigger] final(table).slot_at(x, y)) == old(table).slot_at(x, y),
        forall|x: int, y: int|
            0 <= x < dim && 0 <= y < dim && (#[trigger] old(table).slot_at(x, y)).status
                != SlotStatus::Absent ==> final(table).slot_at(x, y).status
                != SlotStatus::Absent,
        forall|x: int, y: int|
            0 <= x < dim && 0 <= y < dim && (#[trigger] final(table).slot_at(x, y)).status
                == SlotStatus::Closed ==> final(table).slot_at(x, y) == old(table).slot_at(
                x,
                y,
            ),
        // The passable move leaves its cell stored.
        passable(graph@, temp.position.x + dx, temp.position.y + dy) ==> final(table).slot_at(
            temp.position.x + dx,
            temp.position.y + dy,
        ).status != SlotStatus::Absent,
        // The frontier only grows, by at most the generated node.
        final(open)@ == old(open)@ || (final(open)@.len() == old(open)@.len() + 1 && final(open)@
            == old(open)@.push(final(open)@.last()) && final(open)@.last().position.x
            == temp.position.x + dx && final(open)@.last().position.y == temp.position.y + dy
            && final(open)@.last().g == temp.g + 1 && passable(
            graph@,
            temp.position.x + dx,
            temp.position.y + dy,
        )),
        // A changed target cell means exactly one generated node was queued.
        final(table).slot_at(temp.position.x + dx, temp.position.y + dy) != old(table).slot_at(
            temp.position.x + dx,
            temp.position.y + dy,
        ) ==> final(open)@.len() == old(open)@.len() + 1 && final(open)@ == old(open)@.push(
            final(open)@.last(),
        ) && final(open)@.last().position.x == temp.position.x + dx && final(open)@.last().position.y
            == temp.position.y + dy && final(open)@.last().g == temp.g + 1,
        // Soundness is preserved: an extended walk backs the new node.
        forall|origin: Point|
            node_sound(graph@, origin, temp) && open_sound(old(open)@, graph@, origin)
                ==> #[trigger] open_sound(final(open)@, graph@, origin),
{
    if is_valid_neighbor(graph, &temp, dx, dy) {
        let x0 = temp.position.x + dx;
        let y0 = temp.position.y + dy;
        let p = Point::new(x0, y0);
        let g = temp.g + 1;
        if table.should_accept(p, g) {
            let mut n_prime = Node::new(x0, y0, 0, g, 0, temp.position);
            n_prime.h = heuristic(n_prime, goal, heur);
            n_prime.f = n_prime.g + n_prime.h;
            table.set_open(n_prime);
            open.push(n_prime);
            proof {
                assert forall|origin: Point|
                    node_sound(graph@, origin, temp) && open_sound(
                        old(open)@,
                        graph@,
                        origin,
                    ) implies #[trigger] open_sound(open@, graph@, origin) by {
                    assert(adjacent_step(temp.position, n_prime.position));
                    lemma_walk_extend(
                        graph@,
                        origin,
                        temp.position,
                        n_prime.position,
                        temp.g as int,
                    );
                    assert(node_sound(graph@, origin, n_prime));
                    assert(forall|j: int|
                        0 <= j < old(open)@.len() ==> open@[j] == old(open)@[j]);
                }
            }
        }
    }
}


/// One expansion: close the popped node's cell, then generate its four
/// neighbour candidates. Re-establishes the searched-region invariants: the
/// closure (the new closed cell's passable neighbours are all stored), the
/// open-slot coverage, and the frontier's soundness and cost bound.
#[verifier::rlimit(100)]
fn close_and_expand(
    table: &mut NodeTable,
    open: &mut OpenSet,
    temp: Node,
    graph: &Vec<Vec<char>>,
    goal: Node,
    heur: &HeurType,
    dim: usize,
)
    requires
        old(table).wf(),
        old(table).spec_dim() == dim,
        node_in_grid(temp, dim as int),
        temp.g < 0x4000_0000_0000_0000,
        temp.position != goal.position,
        grid_square(graph@),
        dim == graph@.len(),
        coord_ok(goal),
        1 <= dim <= 46340,
        table_closure(graph@, *old(table)),
        forall|x: int, y: int|
            0 <= x < dim && 0 <= y < dim && (#[trigger] old(table).slot_at(x, y)).status
                == SlotStatus::Open && !(x == temp.position.x && y == temp.position.y)
                ==> exists|j: int|
                0 <= j < old(open)@.len() && (#[trigger] old(open)@[j]).position.x == x
                    && old(open)@[j].position.y == y,
    ensures
        final(table).wf(),
        final(table).spec_dim() == dim,
        table_closure(graph@, *final(table)),
        open_covers(*final(table), final(open)@),
        forall|x: int, y: int|
            0 <= x < dim && 0 <= y < dim && (#[trigger] old(table).slot_at(x, y)).status
                != SlotStatus::Absent ==> final(table).slot_at(x, y).status
                != SlotStatus::Absent,
        forall|x: int, y: int|
            0 <= x < dim && 0 <= y < dim && (#[trigger] final(table).slot_at(x, y)).status
                == SlotStatus::Closed ==> old(table).slot_at(x, y).status == SlotStatus::Closed
                || (x == temp.position.x && y == temp.position.y),
        forall|j: int| 0 <= j < old(open)@.len() ==> final(open)@[j] == old(open)@[j],
        final(open)@.len() >= old(open)@.len(),
        forall|j: int|
            old(open)@.len() <= j < final(open)@.len() ==> node_in_grid(
                #[trigger] final(open)@[j],
                dim as int,
            ) && final(open)@[j].g == temp.g + 1,
        forall|origin: Point|
            node_sound(graph@, origin, temp) && open_sound(old(open)@, graph@, origin)
                ==> #[trigger] open_sound(final(open)@, graph@, origin),
{
    let ghost pre_table = *table;
    let ghost pre_open = open@;
    table.set_closed(temp.position);
    let ghost t0 = *table;
    let ghost o0 = open@;
    expand_neighbor_seq(table, open, temp, 0, 1, graph, goal, heur, dim);
    let ghost t1 = *table;
    let ghost o1 = open@;
    expand_neighbor_seq(table, open, temp, -1, 0, graph, goal, heur, dim);
    let ghost t2 = *table;
    let ghost o2 = open@;
    expand_neighbor_seq(table, open, temp, 1, 0, graph, goal, heur, dim);
    let ghost t3 = *table;
    let ghost o3 = open@;
    expand_neighbor_seq(table, open, temp, 0, -1, graph, goal, heur, dim);
    proof {
        let px = temp.position.x as int;
        let py = temp.position.y as int;
        if passable(graph@, px, py + 1) {
            assert(t1.slot_at(px, py + 1).status != SlotStatus::Absent);
            assert(table.slot_at(px, py + 1).status != SlotStatus::Absent);
        }
        if passable(graph@, px - 1, py) {
            assert(t2.slot_at(px - 1, py).status != SlotStatus::Absent);
            assert(table.slot_at(px - 1, py).status != SlotStatus::Absent);
        }
        if passable(graph@, px + 1, py) {
            assert(t3.slot_at(px + 1, py).status != SlotStatus::Absent);
            assert(table.slot_at(px + 1, py).status != SlotStatus::Absent);
        }
        if passable(graph@, px, py - 1) {
            assert(table.slot_at(px, py - 1).status != SlotStatus::Absent);
        }
        assert(closure_at(graph@, *table, px, py));
        assert forall|x: int, y: int|
            0 <= x < dim && 0 <= y < dim && (#[trigger] table.slot_at(x, y)).status
                == SlotStatus::Closed implies closure_at(graph@, *table, x, y) by {
            if !(x == px && y == py) {
                assert(t0.slot_at(x, y).status == SlotStatus::Closed);
                assert(pre_table.slot_at(x, y).status == SlotStatus::Closed);
                assert(closure_at(graph@, pre_table, x, y));
                assert(closure_at(graph@, t0, x, y));
            }
        }
        assert forall|x: int, y: int|
            0 <= x < dim && 0 <= y < dim && (#[trigger] table.slot_at(x, y)).status
                == SlotStatus::Open implies exists|j: int|
            0 <= j < open@.len() && (#[trigger] open@[j]).position.x == x
                && open@[j].position.y == y by {
            if t0.slot_at(x, y).status == SlotStatus::Open {
                assert(pre_table.slot_at(x, y).status == SlotStatus::Open);
                assert(!(x == px && y == py));
                let j0 = choose|j: int|
                    0 <= j < pre_open.len() && (#[trigger] pre_open[j]).position.x == x
                        && pre_open[j].position.y == y;
                assert(open@[j0] == pre_open[j0]);
            } else {
                assert(table.slot_at(x, y) != t0.slot_at(x, y));
                assert(forall|j: int| 0 <= j < o0.len() ==> o1[j] == o0[j]);
                assert(forall|j: int| 0 <= j < o1.len() ==> o2[j] == o1[j]);
                assert(forall|j: int| 0 <= j < o2.len() ==> o3[j] == o2[j]);
                assert(forall|j: int| 0 <= j < o3.len() ==> open@[j] == o3[j]);
                if t1.slot_at(x, y) != t0.slot_at(x, y) {
                    assert(x == temp.position.x && y == temp.position.y + 1);
                    assert(o1 == o0.push(o1.last()) && o1.last().position.x == x
                        && o1.last().position.y == y);
                    assert(open@[o0.len() as int] == o1[o0.len() as int]);
                } else if t2.slot_at(x, y) != t1.slot_at(x, y) {
                    assert(x == temp.position.x - 1 && y == temp.position.y);
                    assert(o2 == o1.push(o2.last()) && o2.last().position.x == x
                        && o2.last().position.y == y);
                    assert(open@[o1.len() as int] == o2[o1.len() as int]);
                } else if t3.slot_at(x, y) != t2.slot_at(x, y) {
                    assert(x == temp.position.x + 1 && y == temp.position.y);
                    assert(o3 == o2.push(o3.last()) && o3.last().position.x == x
                        && o3.last().position.y == y);
                    assert(open@[o2.len() as int] == o3[o2.len() as int]);
                } else {
                    assert(table.slot_at(x, y) != t3.slot_at(x, y));
                    assert(x == temp.position.x && y == temp.position.y - 1);
                    assert(open@ == o3.push(open@.last()) && open@.last().position.x == x
                        && open@.last().position.y == y);
                }
            }
        }
    }
}

/// Sequential best-first search over the grid: the reference that the
/// parallel variants are held to. Returns the cost of the first goal node
/// popped, or the no-path sentinel once the frontier is exhausted. A
/// reported cost is the length of a real walk from start to goal, and a
/// complete no-path verdict means the goal truly cannot be reached.
#[verifier::rlimit(100)]
pub fn a_star(start: Point, end: Point, graph: &Vec<Vec<char>>, heur: &HeurType) -> (r: SeqReport)
    requires
        grid_square(graph@),
        0 <= start.x < graph@.len(),
        0 <= start.y < graph@.len(),
        0 <= end.x < graph@.len(),
        0 <= end.y < graph@.len(),
        passable(graph@, start.x as int, start.y as int),
    ensures
        r.cost != i128::MAX ==> r.node.position == end && r.node.g == r.cost && 0 <= r.cost
            <= COST_CEILING,
        r.cost != i128::MAX ==> reachable_in(graph@, start, end, r.cost as int),
        r.complete && r.cost == i128::MAX ==> !reachable(graph@, start, end),
        !r.complete ==> r.expanded == EXPANSION_LIMIT,
{
    let dim = graph.len();
    let goal = Node::new(end.x, end.y, 0, 0, 0, Point::default());
    let mut start_node = Node::new(start.x, start.y, 0, 0, 0, Point::default());
    start_node.h = heuristic(start_node, goal, heur);
    start_node.f = start_node.g + start_node.h;
    let mut table = NodeTable::new(dim);
    table.set_open(start_node);
    let mut open = OpenSet::new();
    open.push(start_node);
    proof {
        lemma_walk_single(graph@, start);
        assert forall|x: int, y: int|
            0 <= x < dim && 0 <= y < dim && (#[trigger] table.slot_at(x, y)).status
                == SlotStatus::Open implies exists|j: int|
            0 <= j < open@.len() && (#[trigger] open@[j]).position.x == x
                && open@[j].position.y == y by {
            assert(x == start.x as int && y == start.y as int);
            assert(open@[0].position.x == x && open@[0].position.y == y);
        }
    }
    let mut expanded: u64 = 0;
    while expanded < EXPANSION_LIMIT
        invariant
            table.wf(),
            table.spec_dim() == dim,
            frontier_ok(open@, dim as int, expanded as int + 1),
            open_sound(open@, graph@, start),
            table_closure(graph@, table),
            open_covers(table, open@),
            table.slot_at(start.x as int, start.y as int).status != SlotStatus::Absent,
            table.slot_at(end.x as int, end.y as int).status != SlotStatus::Closed,
            grid_square(graph@),
            dim == graph@.len(),
            1 <= dim <= 46340,
            coord_ok(goal),
            goal.position == end,
            0 <= start.x < dim && 0 <= start.y < dim,
            0 <= end.x < dim && 0 <= end.y < dim,
            passable(graph@, start.x as int, start.y as int),
            expanded <= EXPANSION_LIMIT,
        decreases EXPANSION_LIMIT - expanded,
    {
        if open.is_empty() {
            proof {
                assert forall|x: int, y: int| 0 <= x < dim && 0 <= y < dim implies (
                #[trigger] table.slot_at(x, y)).status != SlotStatus::Open by {
                    if table.slot_at(x, y).status == SlotStatus::Open {
                        assert(exists|j: int|
                            0 <= j < open@.len() && (#[trigger] open@[j]).position.x == x
                                && open@[j].position.y == y);
                    }
                }
                assert(table.slot_at(start.x as int, start.y as int).status
                    == SlotStatus::Closed);
                lemma_unreachable_when_drained(graph@, table, start, end);
            }
            return SeqReport { cost: i128::MAX, node: goal, expanded, complete: true };
        }
        proof {
            crate::open_set::lemma_first_min_is_min(open@);
        }
        let ghost pre_open = open@;
        let temp = open.pop_best();
        proof {
            let fmi = crate::open_set::first_min_index(pre_open);
            assert(node_in_grid(temp, dim as int) && temp.g <= expanded + 1);
            assert(node_sound(graph@, start, temp));
            assert forall|j: int| 0 <= j < open@.len() implies node_in_grid(
                #[trigger] open@[j],
                dim as int,
            ) && open@[j].g <= expanded + 1 && node_sound(graph@, start, open@[j]) by {
                if j < fmi {
                    assert(open@[j] == pre_open[j]);
                } else {
                    assert(open@[j] == pre_open[j + 1]);
                }
            }
        }
        expanded = expanded + 1;
        if temp == goal {
            return SeqReport { cost: temp.g, node: temp, expanded, complete: true };
        }
        proof {
            let fmi = crate::open_set::first_min_index(pre_open);
            // Slots open besides the popped position keep a frontier entry.
            assert forall|x: int, y: int|
                0 <= x < dim && 0 <= y < dim && (#[trigger] table.slot_at(x, y)).status
                    == SlotStatus::Open && !(x == temp.position.x && y == temp.position.y)
                    implies exists|j: int|
                0 <= j < open@.len() && (#[trigger] open@[j]).position.x == x
                    && open@[j].position.y == y by {
                let j0 = choose|j: int|
                    0 <= j < pre_open.len() && (#[trigger] pre_open[j]).position.x == x
                        && pre_open[j].position.y == y;
                if j0 < fmi {
                    assert(open@[j0] == pre_open[j0]);
                } else if j0 > fmi {
                    assert(open@[j0 - 1] == pre_open[j0]);
                } else {
                    assert(temp.position.x == x && temp.position.y == y);
                }
            }
        }
        close_and_expand(&mut table, &mut open, temp, graph, goal, heur, dim);
    }
    SeqReport { cost: i128::MAX, node: goal, expanded, complete: false }
}

/// The baseline variant: one open priority queue and one position table
/// shared by the whole pool, a finished flag set when any worker pops the
/// goal. Its shared structures are guarded, so the pool's pops and inserts
/// form one serial history — which is this sequential search. An empty
/// shared frontier counts as completion only by the exhaustion of all work,
/// never from a transient snapshot.
pub fn kpbfs_search(flags: &Flags, start: Point, end: Point) -> (r: SeqReport)
    requires
        grid_square(flags.graph@),
        0 <= start.x < flags.graph@.len(),
        0 <= start.y < flags.graph@.len(),
        0 <= end.x < flags.graph@.len(),
        0 <= end.y < flags.graph@.len(),
        passable(flags.graph@, start.x as int, start.y as int),
    ensures
        r.cost != i128::MAX ==> r.node.position == end && r.node.g == r.cost && 0 <= r.cost
            <= COST_CEILING,
        r.cost != i128::MAX ==> reachable_in(flags.graph@, start, end, r.cost as int),
        r.complete && r.cost == i128::MAX ==> !reachable(flags.graph@, start, end),
        !r.complete ==> r.expanded == EXPANSION_LIMIT,
{
    a_star(start, end, &flags.graph, &flags.heur)
}

} // verus!
