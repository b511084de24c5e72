//! A worker's position-keyed bookkeeping: for every grid cell, whether a
//! node for it is waiting in the open set, already expanded (closed), or
//! not seen yet, together with the best cost found for it so far. The open
//! priority queue alone cannot answer "is there a cheaper entry for this
//! position already?", so this table carries the monotonic-best rule: a
//! routed update is accepted exactly when it is strictly cheaper than
//! whatever is stored.

use vstd::prelude::*;
use crate::structs::{Node, Point};

verus! {

/// Where a position currently stands with its owning worker.
#[derive(Clone, Copy, Debug, PartialEq, Eq, Structural)]
pub enum SlotStatus {
    /// No node for this position has been stored yet.
    Absent,
    /// A node for this position is waiting in the open set.
    Open,
    /// The node for this position has been expanded.
    Closed,
}

/// One cell's bookkeeping entry.
#[derive(Clone, Copy, Debug)]
pub struct Slot {
    pub status: SlotStatus,
    pub node: Node,
}

/// The per-worker position lookup, one slot per grid cell.
pub struct NodeTable {
    dim: usize,
    slots: Vec<Slot>,
}

/// The stored cost model of one slot: `None` when nothing is stored.
pub open spec fn slot_g(s: Slot) -> Option<int> {
    match s.status {
        SlotStatus::Absent => None,
        _ => Some(s.node.g as int),
    }
}

/// What the monotonic-best rule leaves stored after an update with cost `w`
/// arrives: the lower of the stored cost and `w`.
pub open spec fn merged_g(g0: Option<int>, w: int) -> Option<int> {
    match g0 {
        None => Some(w),
        Some(g) => if g > w {
            Some(w)
        } else {
            Some(g)
        },
    }
}

/// Whether the monotonic-best rule accepts an update with cost `w` against
/// the stored cost `g0`: only strict improvements (or first arrivals) pass.
pub open spec fn accepts(g0: Option<int>, w: int) -> bool {
    match g0 {
        None => true,
        Some(g) => g > w,
    }
}

/// The monotonic-best rule converges regardless of arrival order: two
/// routed updates with costs `g1 < g2` leave `g1` stored whichever arrives
/// first, and for any prior entry the two orders agree on what remains.
pub proof fn lemma_monotonic_best(g0: Option<int>, g1: int, g2: int)
    ensures
        merged_g(merged_g(g0, g1), g2) == merged_g(merged_g(g0, g2), g1),
        g1 < g2 ==> merged_g(merged_g(None, g1), g2) == Some(g1) && merged_g(
            merged_g(None, g2),
            g1,
        ) == Some(g1),
{
}

impl NodeTable {
    /// The table covers a `dim` by `dim` grid, one slot per cell.
    pub closed spec fn wf(self) -> bool {
        1 <= self.dim <= 46340 && self.slots@.len() == self.dim * self.dim
    }

    pub closed spec fn spec_dim(self) -> int {
        self.dim as int
    }

    /// The slot stored for position `(x, y)`.
    pub closed spec fn slot_at(self, x: int, y: int) -> Slot {
        self.slots@[x * self.dim + y]
    }

    /// The position lies on this table's grid.
    pub open spec fn in_grid(self, p: Point) -> bool {
        0 <= p.x < self.spec_dim() && 0 <= p.y < self.spec_dim()
    }

    /// The stored cost for position `(x, y)`.
    pub open spec fn g_at(self, x: int, y: int) -> Option<int> {
        slot_g(self.slot_at(x, y))
    }

    proof fn lemma_index_bounds(self, x: int, y: int)
        requires
            self.wf(),
            0 <= x < self.spec_dim(),
            0 <= y < self.spec_dim(),
        ensures
            0 <= x * self.spec_dim() + y < self.spec_dim() * self.spec_dim(),
            0 <= x * self.spec_dim() + y < 46340 * 46340,
            0 <= x * self.spec_dim() <= 46340 * 46340,
    {
        assert(0 <= x * self.spec_dim() + y < self.spec_dim() * self.spec_dim()
            && 0 <= x * self.spec_dim() + y < 46340 * 46340 && 0 <= x * self.spec_dim()
            <= 46340 * 46340) by (nonlinear_arith)
            requires
                0 <= x < self.spec_dim(),
                0 <= y < self.spec_dim(),
                self.spec_dim() <= 46340,
        ;
    }

    proof fn lemma_index_injective(self, x1: int, y1: int, x2: int, y2: int)
        requires
            self.wf(),
            0 <= x1 < self.spec_dim(),
            0 <= y1 < self.spec_dim(),
            0 <= x2 < self.spec_dim(),
            0 <= y2 < self.spec_dim(),
            x1 * self.spec_dim() + y1 == x2 * self.spec_dim() + y2,
        ensures
            x1 == x2 && y1 == y2,
    {
        assert(x1 == x2 && y1 == y2) by (nonlinear_arith)
            requires
                0 <= x1 < self.spec_dim(),
                0 <= y1 < self.spec_dim(),
                0 <= x2 < self.spec_dim(),
                0 <= y2 < self.spec_dim(),
                x1 * self.spec_dim() + y1 == x2 * self.spec_dim() + y2,
        ;
    }

    /// An empty table: every slot absent.
    pub fn new(dim: usize) -> (r: NodeTable)
        requires
            1 <= dim <= 46340,
        ensures
            r.wf(),
            r.spec_dim() == dim,
            forall|x: int, y: int|
                0 <= x < dim && 0 <= y < dim ==> (#[trigger] r.slot_at(x, y)).status
                    == SlotStatus::Absent,
    {
        proof {
            assert(dim * dim <= 46340 * 46340) by (nonlinear_arith)
                requires
                    1 <= dim <= 46340,
            ;
            assert(dim * dim >= 0) by (nonlinear_arith);
        }
        let vacant = Slot {
            status: SlotStatus::Absent,
            node: Node {
                position: Point { x: -1, y: -1 },
                f: 0,
                g: 0,
                h: 0,
                parent: Point { x: -1, y: -1 },
            },
        };
        let count = dim * dim;
        let slots = vec![vacant; count];
        let r = NodeTable { dim, slots };
        proof {
            assert forall|x: int, y: int| 0 <= x < dim && 0 <= y < dim implies (
            #[trigger] r.slot_at(x, y)).status == SlotStatus::Absent by {
                r.lemma_index_bounds(x, y);
            }
        }
        r
    }

    pub fn dim(&self) -> (r: usize)
        ensures
            r == self.spec_dim(),
    {
        self.dim
    }

    /// The status stored for a position.
    pub fn status_of(&self, p: Point) -> (r: SlotStatus)
        requires
            self.wf(),
            self.in_grid(p),
        ensures
            r == self.slot_at(p.x as int, p.y as int).status,
    {
        proof {
            self.lemma_index_bounds(p.x as int, p.y as int);
        }
        let i = (p.x as usize) * self.dim + (p.y as usize);
        self.slots[i].status
    }

    /// The node stored for a position; meaningful only when the status is
    /// not `Absent`.
    pub fn stored(&self, p: Point) -> (r: Node)
        requires
            self.wf(),
            self.in_grid(p),
        ensures
            r == self.slot_at(p.x as int, p.y as int).node,
    {
        proof {
            self.lemma_index_bounds(p.x as int, p.y as int);
        }
        let i = (p.x as usize) * self.dim + (p.y as usize);
        self.slots[i].node
    }

    /// Whether the monotonic-best rule accepts an update of cost `weight`
    /// for position `p`: yes exactly when nothing is stored yet or the
    /// stored cost is strictly worse.
    pub fn should_accept(&self, p: Point, weight: i128) -> (b: bool)
        requires
            self.wf(),
            self.in_grid(p),
        ensures
            b == accepts(self.g_at(p.x as int, p.y as int), weight as int),
    {
        match self.status_of(p) {
            SlotStatus::Absent => true,
            _ => self.stored(p).g > weight,
        }
    }

    /// Store `node` for its position and mark it open, replacing whatever
    /// was there. Every other position is untouched.
    pub fn set_open(&mut self, node: Node)
        requires
            old(self).wf(),
            old(self).in_grid(node.position),
        ensures
            final(self).wf(),
            final(self).spec_dim() == old(self).spec_dim(),
            final(self).slot_at(node.position.x as int, node.position.y as int) == (Slot {
                status: SlotStatus::Open,
                node,
            }),
            forall|x: int, y: int|
                0 <= x < old(self).spec_dim() && 0 <= y < old(self).spec_dim() && !(x
                    == node.position.x as int && y == node.position.y as int) ==> (
                #[trigger] final(self).slot_at(x, y)) == old(self).slot_at(x, y),
    {
        proof {
            self.lemma_index_bounds(node.position.x as int, node.position.y as int);
        }
        let i = (node.position.x as usize) * self.dim + (node.position.y as usize);
        self.slots[i] = Slot { status: SlotStatus::Open, node };
        proof {
            let s = *self;
            assert forall|x: int, y: int|
                0 <= x < s.spec_dim() && 0 <= y < s.spec_dim() && !(x == node.position.x as int
                    && y == node.position.y as int) implies (#[trigger] s.slot_at(x, y)) == old(
                self,
            ).slot_at(x, y) by {
                s.lemma_index_bounds(x, y);
                if x * s.spec_dim() + y == i as int {
                    s.lemma_index_injective(
                        x,
                        y,
                        node.position.x as int,
                        node.position.y as int,
                    );
                }
            }
        }
    }

    /// Mark the stored node for `p` closed (just expanded); the node itself
    /// is unchanged. Every other position is untouched.
    pub fn set_closed(&mut self, p: Point)
        requires
            old(self).wf(),
            old(self).in_grid(p),
        ensures
            final(self).wf(),
            final(self).spec_dim() == old(self).spec_dim(),
            final(self).slot_at(p.x as int, p.y as int) == (Slot {
                status: SlotStatus::Closed,
                node: old(self).slot_at(p.x as int, p.y as int).node,
            }),
            forall|x: int, y: int|
                0 <= x < old(self).spec_dim() && 0 <= y < old(self).spec_dim() && !(x
                    == p.x as int && y == p.y as int) ==> (#[trigger] final(self).slot_at(x, y))
                    == old(self).slot_at(x, y),
    {
        proof {
            self.lemma_index_bounds(p.x as int, p.y as int);
        }
        let i = (p.x as usize) * self.dim + (p.y as usize);
        let node = self.slots[i].node;
        self.slots[i] = Slot { status: SlotStatus::Closed, node };
        proof {
            let s = *self;
            assert forall|x: int, y: int|
                0 <= x < s.spec_dim() && 0 <= y < s.spec_dim() && !(x == p.x as int && y
                    == p.y as int) implies (#[trigger] s.slot_at(x, y)) == old(self).slot_at(
                x,
                y,
            ) by {
                s.lemma_index_bounds(x, y);
                if x * s.spec_dim() + y == i as int {
                    s.lemma_index_injective(x, y, p.x as int, p.y as int);
                }
            }
        }
    }
}

} // verus!
