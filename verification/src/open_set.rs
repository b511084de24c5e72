//! A worker's open set: the frontier of candidate nodes, popped in order of
//! ascending `f`. Ties are broken deterministically in favour of the node
//! that entered the scan first, so a run with a fixed worker count pops the
//! same nodes in the same order every time.

use vstd::prelude::*;
use crate::structs::Node;

verus! {

/// The index of the first node with minimal `f` in the sequence.
pub open spec fn first_min_index(s: Seq<Node>) -> int
    decreases s.len(),
{
    if s.len() <= 1 {
        0
    } else {
        let m = first_min_index(s.drop_last());
        if s.last().f < s[m].f {
            s.len() - 1
        } else {
            m
        }
    }
}

pub proof fn lemma_first_min_is_min(s: Seq<Node>)
    requires
        s.len() > 0,
    ensures
        0 <= first_min_index(s) < s.len(),
        forall|j: int| 0 <= j < s.len() ==> s[first_min_index(s)].f <= (#[trigger] s[j]).f,
    decreases s.len(),
{
    if s.len() > 1 {
        lemma_first_min_is_min(s.drop_last());
        assert(forall|j: int|
            0 <= j < s.len() - 1 ==> (#[trigger] s[j]) == s.drop_last()[j]);
    }
}

proof fn lemma_first_min_step(s: Seq<Node>, i: int)
    requires
        1 <= i < s.len(),
    ensures
        first_min_index(s.take(i + 1)) == if s[i].f < s[first_min_index(s.take(i))].f {
            i
        } else {
            first_min_index(s.take(i))
        },
{
    assert(s.take(i + 1).drop_last() =~= s.take(i));
    assert(s.take(i + 1).last() == s[i]);
    lemma_first_min_is_min(s.take(i));
    assert(s.take(i + 1)[first_min_index(s.take(i))] == s.take(i)[first_min_index(s.take(i))]);
}

/// The frontier of undecided candidates, ordered for expansion by ascending
/// `f`.
pub struct OpenSet {
    items: Vec<Node>,
}

impl View for OpenSet {
    type V = Seq<Node>;

    closed spec fn view(&self) -> Seq<Node> {
        self.items@
    }
}

impl OpenSet {
    pub fn new() -> (r: OpenSet)
        ensures
            r@ == Seq::<Node>::empty(),
    {
        OpenSet { items: Vec::new() }
    }

    pub fn len(&self) -> (r: usize)
        ensures
            r == self@.len(),
    {
        self.items.len()
    }

    pub fn is_empty(&self) -> (r: bool)
        ensures
            r == (self@.len() == 0),
    {
        self.items.len() == 0
    }

    pub fn push(&mut self, node: Node)
        ensures
            final(self)@ == old(self)@.push(node),
    {
        self.items.push(node);
    }

    /// The `f` of the node that `pop_best` would return: the minimum `f`
    /// over the whole frontier.
    pub fn best_f(&self) -> (r: i128)
        requires
            self@.len() > 0,
        ensures
            r == self@[first_min_index(self@)].f,
            forall|j: int| 0 <= j < self@.len() ==> r <= (#[trigger] self@[j]).f,
    {
        proof {
            lemma_first_min_is_min(self@);
        }
        let i = self.scan_best();
        self.items[i].f
    }

    /// Remove and return the first node with minimal `f`.
    pub fn pop_best(&mut self) -> (r: Node)
        requires
            old(self)@.len() > 0,
        ensures
            r == old(self)@[first_min_index(old(self)@)],
            final(self)@ == old(self)@.remove(first_min_index(old(self)@)),
            forall|j: int|
                0 <= j < old(self)@.len() ==> r.f <= (#[trigger] old(self)@[j]).f,
    {
        proof {
            lemma_first_min_is_min(self@);
        }
        let i = self.scan_best();
        let r = self.items[i];
        self.items.remove(i);
        r
    }

    /// The index of the first minimal-`f` node.
    fn scan_best(&self) -> (r: usize)
        requires
            self@.len() > 0,
        ensures
            r == first_min_index(self@),
    {
        let mut best: usize = 0;
        let mut i: usize = 1;
        proof {
            assert(self@.take(1) =~= seq![self@[0]]);
        }
        while i < self.items.len()
            invariant
                self@.len() > 0,
                1 <= i <= self@.len(),
                0 <= best < i,
                best == first_min_index(self@.take(i as int)),
            decreases self@.len() - i,
        {
            proof {
                lemma_first_min_step(self@, i as int);
                lemma_first_min_is_min(self@.take(i as int));
            }
            if self.items[i].f < self.items[best].f {
                best = i;
            }
            i = i + 1;
        }
        proof {
            assert(self@.take(self@.len() as int) =~= self@);
        }
        best
    }
}

} // verus!
