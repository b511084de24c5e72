//! Core data model: grid coordinates, cost-annotated search nodes, routed
//! messages and the shared incumbent register.

use vstd::prelude::*;

verus! {

/// A grid coordinate. A node's identity is its coordinate.
#[derive(Clone, Copy, Debug, PartialEq, Eq, Structural, Hash)]
pub struct Point {
    pub x: i32,
    pub y: i32,
}

impl Point {
    pub fn new(x: i32, y: i32) -> (p: Point)
        ensures
            p.x == x,
            p.y == y,
    {
        Point { x, y }
    }
}

impl Default for Point {
    /// The off-grid sentinel coordinate used for "no parent yet".
    fn default() -> (p: Point)
        ensures
            p.x == -1,
            p.y == -1,
    {
        Point { x: -1, y: -1 }
    }
}

/// A search node: a coordinate plus its cost bookkeeping. `g` is the
/// accumulated path cost, `h` the heuristic estimate to the goal, and
/// `f == g + h` the priority key; `parent` records the predecessor on the
/// best path seen so far. Two nodes are equal exactly when their positions
/// are equal: the costs are mutable metadata, not identity.
#[derive(Clone, Copy, Debug)]
pub struct Node {
    pub position: Point,
    pub f: i128,
    pub g: i128,
    pub h: i128,
    pub parent: Point,
}

impl Node {
    pub fn new(x: i32, y: i32, f: i128, g: i128, h: i128, parent: Point) -> (n: Node)
        ensures
            n.position.x == x,
            n.position.y == y,
            n.f == f,
            n.g == g,
            n.h == h,
            n.parent == parent,
    {
        Node { position: Point { x, y }, f, g, h, parent }
    }
}

impl PartialEq for Node {
    fn eq(&self, other: &Self) -> (r: bool)
        ensures
            r == (self.position == other.position),
    {
        self.position == other.position
    }
}

impl vstd::std_specs::cmp::PartialEqSpecImpl for Node {
    open spec fn obeys_eq_spec() -> bool {
        true
    }

    open spec fn eq_spec(&self, other: &Self) -> bool {
        self.position == other.position
    }
}

/// One routed unit of work: the generated node, the path cost to apply to
/// it, and the node it was expanded from.
#[derive(Clone, Copy, Debug)]
pub struct Buffer(pub Node, pub i128, pub Node);

/// The minimum of a sequence of submitted goal costs, with the "no path yet"
/// sentinel `i128::MAX` as the value of an empty sequence.
pub open spec fn min_submitted(s: Seq<int>) -> int
    decreases s.len(),
{
    if s.len() == 0 {
        i128::MAX as int
    } else {
        let rest = min_submitted(s.drop_last());
        if s.last() < rest {
            s.last()
        } else {
            rest
        }
    }
}

/// The best goal-reaching solution found so far. `cost` is `i128::MAX`
/// until some worker reaches the goal. The ghost `offers` field records
/// every cost ever submitted, so that the register provably never loses a
/// concurrent update: `cost` is always the minimum of all submissions.
pub struct Incumbent {
    pub node: Node,
    pub cost: i128,
    pub offers: Ghost<Seq<int>>,
}

impl Incumbent {
    /// The register never forgets a submission: its cost is exactly the
    /// minimum cost ever offered to it.
    pub open spec fn inv(self) -> bool {
        self.cost == min_submitted(self.offers@)
    }

    pub fn new(node: Node, cost: i128) -> (r: Incumbent)
        ensures
            r.node == node,
            r.cost == cost,
            r.offers@ == if cost == i128::MAX {
                Seq::<int>::empty()
            } else {
                seq![cost as int]
            },
            r.inv(),
    {
        proof {
            assert(min_submitted(Seq::<int>::empty()) == i128::MAX as int);
        }
        if cost == i128::MAX {
            Incumbent { node, cost, offers: Ghost(Seq::empty()) }
        } else {
            let r = Incumbent {
                node,
                cost,
                offers: Ghost(Seq::empty().push(cost as int)),
            };
            proof {
                let o = Seq::<int>::empty().push(cost as int);
                assert(o.drop_last() =~= Seq::<int>::empty());
                assert(o =~= seq![cost as int]);
                assert(min_submitted(o) == cost as int);
            }
            r
        }
    }

    /// Submit a goal-reaching candidate. The recorded cost becomes the
    /// minimum of the old cost and the candidate's `g`; on a tie the node
    /// is replaced but the cost is unchanged.
    pub fn offer(&mut self, node: Node, g: i128) -> (updated: bool)
        requires
            old(self).inv(),
        ensures
            final(self).inv(),
            final(self).offers@ == old(self).offers@.push(g as int),
            final(self).cost == if g < old(self).cost {
                g
            } else {
                old(self).cost
            },
            updated == (g <= old(self).cost),
            final(self).node == if g <= old(self).cost {
                node
            } else {
                old(self).node
            },
    {
        proof {
            assert(self.offers@.push(g as int).drop_last() =~= self.offers@);
        }
        self.offers = Ghost(self.offers@.push(g as int));
        if g <= self.cost {
            if g < self.cost {
                self.cost = g;
            }
            self.node = node;
            true
        } else {
            false
        }
    }
}

/// No matter in which order two candidate submissions race into the
/// register, the recorded cost ends up the same: the minimum of everything
/// submitted. In particular, two goal-reaching paths discovered in the same
/// round leave the cheaper one recorded, whichever update lands first.
pub proof fn lemma_incumbent_order_independent(s: Seq<int>, g1: int, g2: int)
    ensures
        min_submitted(s.push(g1).push(g2)) == min_submitted(s.push(g2).push(g1)),
        min_submitted(s.push(g1).push(g2)) == if g1 < min_submitted(s) && g1 < g2 {
            g1
        } else if g2 < min_submitted(s) {
            g2
        } else {
            min_submitted(s)
        },
{
    let a1 = s.push(g1);
    let a2 = s.push(g2);
    assert(a1.push(g2).drop_last() =~= a1);
    assert(a2.push(g1).drop_last() =~= a2);
    assert(a1.drop_last() =~= s);
    assert(a2.drop_last() =~= s);
    assert(min_submitted(a1) == if g1 < min_submitted(s) {
        g1
    } else {
        min_submitted(s)
    });
    assert(min_submitted(a2) == if g2 < min_submitted(s) {
        g2
    } else {
        min_submitted(s)
    });
    assert(min_submitted(a1.push(g2)) == if g2 < min_submitted(a1) {
        g2
    } else {
        min_submitted(a1)
    });
    assert(min_submitted(a2.push(g1)) == if g1 < min_submitted(a2) {
        g1
    } else {
        min_submitted(a2)
    });
}

/// With every submission in `[0, hi]`, the recorded minimum is the sentinel
/// exactly as long as nothing was submitted.
pub proof fn lemma_min_submitted_range(s: Seq<int>, hi: int)
    requires
        forall|k: int| 0 <= k < s.len() ==> 0 <= #[trigger] s[k] <= hi,
        hi < i128::MAX as int,
    ensures
        s.len() == 0 ==> min_submitted(s) == i128::MAX as int,
        s.len() > 0 ==> 0 <= min_submitted(s) <= hi,
    decreases s.len(),
{
    if s.len() > 0 {
        assert(forall|k: int|
            0 <= k < s.drop_last().len() ==> 0 <= #[trigger] s.drop_last()[k] <= hi);
        lemma_min_submitted_range(s.drop_last(), hi);
    }
}

/// A nonempty record of submissions contains its own minimum: the recorded
/// cost is always one of the submitted costs.
pub proof fn lemma_min_submitted_in(s: Seq<int>)
    requires
        s.len() > 0,
        forall|k: int| 0 <= k < s.len() ==> #[trigger] s[k] <= i128::MAX as int,
    ensures
        s.contains(min_submitted(s)),
    decreases s.len(),
{
    let rest = min_submitted(s.drop_last());
    if s.last() < rest {
        assert(s[s.len() - 1] == s.last());
    } else {
        if s.len() == 1 {
            assert(s.last() == i128::MAX as int);
            assert(s[0] == min_submitted(s));
        } else {
            assert(forall|k: int|
                0 <= k < s.drop_last().len() ==> #[trigger] s.drop_last()[k] <= i128::MAX as int);
            lemma_min_submitted_in(s.drop_last());
            let j = choose|j: int|
                0 <= j < s.drop_last().len() && s.drop_last()[j] == rest;
            assert(s[j] == rest);
        }
    }
}

/// The available heuristic strategies.
#[derive(Clone, Copy, Debug, PartialEq, Eq, Structural)]
pub enum HeurType {
    ManhattanDist,
    EuclideanDist,
    Expensive,
    NonAdmissible,
    ExpensiveNonAdmissible,
}

/// Engine configuration: the grid, the heuristic to use and the size of the
/// worker pool.
pub struct Flags {
    pub graph: Vec<Vec<char>>,
    pub heur: HeurType,
    pub threads: usize,
}

} // verus!
