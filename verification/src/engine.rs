//! The worker coordination protocol, run round by round. Each worker owns a
//! private open set and position table and an inbound message queue; a round
//! is the barrier-delimited sequence of: termination check against the
//! sent/received counters, drain of the inbound queue, and expansion of the
//! best open node with routing of the generated candidates. The rounds here
//! are executed worker by worker in barrier order, which is exactly the
//! order of states that the barrier forces on a pool of threads; a driver
//! may run the same protocol with one thread per worker and real channels.
//!
//! Verified here: the monotonic-best merge, the conservation of the
//! sent/received counters against the queued messages (so a quiescence
//! verdict is never reached while a message is still in flight), that
//! retired workers leave no message behind, that the incumbent ends as the
//! minimum over every submitted goal cost, that every reported cost is the
//! length of a real walk over passable cells, and that a no-path report is
//! only ever made when the goal truly cannot be reached.

use vstd::prelude::*;
use std::collections::HashSet;
use crate::structs::{Buffer, Flags, HeurType, Incumbent, Node, Point};
use crate::open_set::OpenSet;
use crate::table::{accepts, merged_g, NodeTable, SlotStatus};
use crate::heuristics::{coord_ok, heuristic};
use crate::router::{compute_recipient, lemma_probe_bounds, position_hash, route_of};
use crate::grid::{grid_square, is_valid_neighbor, passable, reachable, reachable_in};

verus! {

broadcast use vstd::std_specs::hash::group_hash_axioms;

/// The most rounds a search may take before the engine gives up and reports
/// an incomplete run; a safety valve far beyond any grid this engine
/// accepts.
pub const ROUND_LIMIT: u64 = 0x100_0000_0000;

/// One worker's inbound message queue. `closed` once its owner has retired:
/// a closed queue accepts no further message.
pub struct Channel {
    pub msgs: Vec<Buffer>,
    pub closed: bool,
}

/// One worker's private state: its open frontier, its position table, the
/// set of destinations it has found dead, and its lifecycle flags.
pub struct Worker {
    pub id: usize,
    pub open: OpenSet,
    pub table: NodeTable,
    pub tried: HashSet<i32>,
    pub exit: bool,
    pub retired: bool,
}

/// What a finished search reports.
#[derive(Clone, Copy, Debug)]
pub struct SearchReport {
    /// The incumbent cost; `i128::MAX` means no path was found.
    pub cost: i128,
    /// The goal-reaching node behind the cost (meaningful when a path was
    /// found).
    pub node: Node,
    /// How many rounds the protocol ran.
    pub rounds: u64,
    /// Total routed messages sent.
    pub sent: u64,
    /// Total routed messages received.
    pub received: u64,
    /// Whether the run ended through the quiescence protocol (rather than
    /// the round safety valve).
    pub complete: bool,
}

impl SearchReport {
    /// Whether a path to the goal was found.
    pub fn has_path(&self) -> (r: bool)
        ensures
            r == (self.cost != i128::MAX),
    {
        self.cost != i128::MAX
    }
}

/// A node that may legally sit in an open set, a table or a message: its
/// position is on the grid and its accumulated cost is within the bound
/// that any improving path respects.
pub open spec fn node_ok(n: Node, dim: int) -> bool {
    &&& 0 <= n.position.x < dim
    &&& 0 <= n.position.y < dim
    &&& 0 <= n.g <= dim * dim
}

/// A routed message is well-formed: its node is, and the cost it applies is
/// in range.
pub open spec fn msg_ok(b: Buffer, dim: int) -> bool {
    node_ok(b.0, dim) && 0 <= b.1 <= dim * dim
}

/// The node's accumulated cost is real: some walk of exactly `n.g` unit
/// moves over passable cells leads from the search origin to its position.
pub open spec fn node_sound(g: Seq<Vec<char>>, origin: Point, n: Node) -> bool {
    reachable_in(g, origin, n.position, n.g as int)
}

/// The routed message's cost is real: some walk of exactly `b.1` unit moves
/// leads from the search origin to the carried node's position.
pub open spec fn msg_sound(g: Seq<Vec<char>>, origin: Point, b: Buffer) -> bool {
    reachable_in(g, origin, b.0.position, b.1 as int)
}

/// Every node of an open frontier carries a real path cost.
pub open spec fn open_sound(s: Seq<Node>, g: Seq<Vec<char>>, origin: Point) -> bool {
    forall|j: int| 0 <= j < s.len() ==> node_sound(g, origin, #[trigger] s[j])
}

/// Every message queued in a channel carries a real path cost.
pub open spec fn chan_sound(c: Channel, g: Seq<Vec<char>>, origin: Point) -> bool {
    forall|j: int| 0 <= j < c.msgs@.len() ==> msg_sound(g, origin, #[trigger] c.msgs@[j])
}

/// Every worker frontier and every queued message carries a real path cost
/// from the search origin.
pub open spec fn engine_sound(
    workers: Seq<Worker>,
    channels: Seq<Channel>,
    gr: Seq<Vec<char>>,
    origin: Point,
) -> bool {
    &&& forall|i: int|
        0 <= i < workers.len() ==> open_sound((#[trigger] workers[i]).open@, gr, origin)
    &&& forall|i: int|
        0 <= i < channels.len() ==> chan_sound(#[trigger] channels[i], gr, origin)
}

/// Every submitted goal cost is the length of a real walk from the search
/// origin to the goal.
pub open spec fn incumbent_sound(
    inc: Incumbent,
    gr: Seq<Vec<char>>,
    origin: Point,
    goal: Node,
) -> bool {
    forall|k: int|
        0 <= k < inc.offers@.len() ==> reachable_in(
            gr,
            origin,
            goal.position,
            #[trigger] inc.offers@[k],
        )
}

/// Every node of an open frontier is well-formed.
pub open spec fn open_ok(s: Seq<Node>, dim: int) -> bool {
    forall|j: int| 0 <= j < s.len() ==> node_ok(#[trigger] s[j], dim)
}

/// Every message queued in a channel is well-formed.
pub open spec fn chan_ok(c: Channel, dim: int) -> bool {
    forall|j: int| 0 <= j < c.msgs@.len() ==> msg_ok(#[trigger] c.msgs@[j], dim)
}

/// A worker's structures all fit the same grid.
pub open spec fn worker_wf(w: Worker, dim: int) -> bool {
    &&& w.table.wf()
    &&& w.table.spec_dim() == dim
    &&& open_ok(w.open@, dim)
}

/// The total number of messages queued across all channels: what `sent`
/// exceeds `received` by while messages are in flight.
pub open spec fn queued(cs: Seq<Channel>) -> int
    decreases cs.len(),
{
    if cs.len() == 0 {
        0
    } else {
        queued(cs.drop_last()) + cs.last().msgs@.len()
    }
}

pub proof fn lemma_queued_nonneg(cs: Seq<Channel>)
    ensures
        queued(cs) >= 0,
    decreases cs.len(),
{
    if cs.len() > 0 {
        lemma_queued_nonneg(cs.drop_last());
    }
}

/// Replacing one channel changes the queue total by exactly the change in
/// that channel's length.
pub proof fn lemma_queued_update(cs: Seq<Channel>, i: int, c: Channel)
    requires
        0 <= i < cs.len(),
    ensures
        queued(cs.update(i, c)) == queued(cs) + c.msgs@.len() - cs[i].msgs@.len(),
    decreases cs.len(),
{
    if i == cs.len() - 1 {
        assert(cs.update(i, c).drop_last() =~= cs.drop_last());
        assert(cs.update(i, c).last() == c);
    } else {
        assert(cs.update(i, c).drop_last() =~= cs.drop_last().update(i, c));
        assert(cs.update(i, c).last() == cs.last());
        lemma_queued_update(cs.drop_last(), i, c);
    }
}

/// When nothing is in flight, every single queue is empty: the quiescence
/// verdict `sent == received` leaves no message behind anywhere.
pub proof fn lemma_queued_zero_all_empty(cs: Seq<Channel>)
    requires
        queued(cs) == 0,
    ensures
        forall|i: int| 0 <= i < cs.len() ==> (#[trigger] cs[i]).msgs@.len() == 0,
    decreases cs.len(),
{
    if cs.len() > 0 {
        lemma_queued_nonneg(cs.drop_last());
        lemma_queued_zero_all_empty(cs.drop_last());
        assert(forall|i: int|
            0 <= i < cs.len() - 1 ==> (#[trigger] cs[i]) == cs.drop_last()[i]);
    }
}

/// Merge one drained message into a worker's open/closed bookkeeping by the
/// monotonic-best rule: the stored cost for the message's position becomes
/// the lower of what was stored and what the message carries; a message
/// that does not strictly improve is discarded. An accepted node has its
/// heuristic and priority recomputed and joins the open frontier.
pub fn apply_message(
    w: &mut Worker,
    msg: Buffer,
    goal: Node,
    heur: &HeurType,
    dim: usize,
    limit: i128,
) -> (accepted: bool)
    requires
        worker_wf(*old(w), dim as int),
        msg_ok(msg, dim as int),
        coord_ok(goal),
        1 <= dim <= 46340,
        limit == dim * dim,
        limit <= 0x8000_0000,
    ensures
        worker_wf(*final(w), dim as int),
        final(w).id == old(w).id,
        final(w).exit == old(w).exit,
        final(w).retired == old(w).retired,
        final(w).tried == old(w).tried,
        accepted == accepts(
            old(w).table.g_at(msg.0.position.x as int, msg.0.position.y as int),
            msg.1 as int,
        ),
        final(w).table.g_at(msg.0.position.x as int, msg.0.position.y as int) == merged_g(
            old(w).table.g_at(msg.0.position.x as int, msg.0.position.y as int),
            msg.1 as int,
        ),
        forall|x: int, y: int|
            0 <= x < dim && 0 <= y < dim && !(x == msg.0.position.x as int && y
                == msg.0.position.y as int) ==> (#[trigger] final(w).table.slot_at(x, y))
                == old(w).table.slot_at(x, y),
        accepted ==> ({
            let nn = final(w).open@.last();
            &&& final(w).open@ == old(w).open@.push(nn)
            &&& final(w).open@.len() == old(w).open@.len() + 1
            &&& nn.position == msg.0.position
            &&& nn.g == msg.1
            &&& nn.parent == msg.2.position
            &&& nn.f == nn.g + nn.h
            &&& 0 <= nn.h < 0x2_0000
            &&& (*heur == HeurType::ManhattanDist ==> nn.h == crate::heuristics::iabs(
                nn.position.x - goal.position.x,
            ) + crate::heuristics::iabs(nn.position.y - goal.position.y))
            &&& (*heur == HeurType::EuclideanDist || *heur == HeurType::Expensive
                ==> crate::heuristics::is_floor_dist(nn, goal, nn.h as int))
        }),
        !accepted ==> final(w).open@ == old(w).open@ && final(w).table == old(w).table,
        forall|gr: Seq<Vec<char>>, origin: Point|
            open_sound(old(w).open@, gr, origin) && #[trigger] msg_sound(gr, origin, msg)
                ==> open_sound(final(w).open@, gr, origin),
{
    let p = msg.0.position;
    if w.table.should_accept(p, msg.1) {
        let mut new_node = Node { position: p, f: 0, g: msg.1, h: 0, parent: msg.2.position };
        new_node.h = heuristic(new_node, goal, heur);
        new_node.f = new_node.g + new_node.h;
        w.table.set_open(new_node);
        w.open.push(new_node);
        proof {
            assert forall|gr: Seq<Vec<char>>, origin: Point|
                open_sound(old(w).open@, gr, origin) && #[trigger] msg_sound(
                    gr,
                    origin,
                    msg,
                ) implies open_sound(w.open@, gr, origin) by {
                assert(node_sound(gr, origin, new_node));
                assert(forall|j: int|
                    0 <= j < old(w).open@.len() ==> w.open@[j] == old(w).open@[j]);
            }
        }
        true
    } else {
        false
    }
}

/// Hand one generated candidate to the worker that owns its position: probe
/// the deterministic owner sequence, skip queues already found closed
/// (recording them in `tried`), and count the send. When every queue is
/// excluded the message comes back to the caller, to be folded into its own
/// open set — a message is never silently dropped.
pub fn route_message(
    msg: Buffer,
    self_id: usize,
    tried: &mut HashSet<i32>,
    channels: &mut Vec<Channel>,
    sent: &mut u64,
    thread_cnt: usize,
    dim: usize,
) -> (fallback: Option<Buffer>)
    requires
        msg_ok(msg, dim as int),
        1 <= dim <= 46340,
        1 <= thread_cnt <= 0x1_0000,
        old(channels)@.len() == thread_cnt,
        self_id < thread_cnt,
        !old(channels)@[self_id as int].closed,
        *old(sent) < 0xFFFF_FFFF_FFFF_FFFF,
        forall|i: int| 0 <= i < thread_cnt ==> chan_ok(#[trigger] old(channels)@[i], dim as int),
    ensures
        final(channels)@.len() == thread_cnt,
        forall|i: int|
            0 <= i < thread_cnt ==> (#[trigger] final(channels)@[i]).closed == old(channels)@[i].closed,
        forall|i: int|
            0 <= i < thread_cnt ==> chan_ok(#[trigger] final(channels)@[i], dim as int),
        forall|i: int|
            0 <= i < thread_cnt && (#[trigger] old(channels)@[i]).closed ==> final(channels)@[i].msgs@ == old(channels)@[i].msgs@,
        *old(sent) <= *final(sent) <= *old(sent) + 1,
        *final(sent) as int - *old(sent) as int == queued(final(channels)@) - queued(
            old(channels)@,
        ),
        fallback is Some ==> final(channels)@ == old(channels)@ && *final(sent) == *old(sent)
            && fallback == Some(msg),
        fallback is None ==> *final(sent) == *old(sent) + 1 && exists|k: int|
            0 <= k < thread_cnt && !(#[trigger] old(channels)@[k]).closed && final(channels)@[k].msgs@ == old(channels)@[k].msgs@.push(msg) && (forall|j: int|
                0 <= j < thread_cnt && j != k ==> final(channels)@[j] == old(channels)@[j]),
        ({
            let primary = route_of(
                position_hash(msg.0.position.x as int, msg.0.position.y as int),
                old(tried)@,
                thread_cnt as int,
            );
            let first = if primary == -1 {
                self_id as int
            } else {
                primary
            };
            !old(channels)@[first].closed ==> fallback is None && final(channels)@[first].msgs@
                == old(channels)@[first].msgs@.push(msg) && (forall|j: int|
                0 <= j < thread_cnt && j != first ==> final(channels)@[j] == old(channels)@[j]) && *final(tried) == *old(tried)
        }),
        forall|k: i32|
            #[trigger] final(tried)@.contains(k) && !old(tried)@.contains(k) ==> 0 <= k
                < thread_cnt && old(channels)@[k as int].closed,
        forall|gr: Seq<Vec<char>>, origin: Point|
            (forall|i: int|
                0 <= i < thread_cnt ==> chan_sound(#[trigger] old(channels)@[i], gr, origin))
                && #[trigger] msg_sound(gr, origin, msg) ==> forall|i: int|
                0 <= i < thread_cnt ==> chan_sound(#[trigger] final(channels)@[i], gr, origin),
{
    let ghost h = position_hash(msg.0.position.x as int, msg.0.position.y as int);
    let ghost primary = route_of(h, old(tried)@, thread_cnt as int);
    let ghost first: int = if primary == -1 {
        self_id as int
    } else {
        primary
    };
    proof {
        lemma_probe_bounds(h, old(tried)@, thread_cnt as int, 0);
    }
    let mut attempts: usize = 0;
    while attempts <= thread_cnt
        invariant
            msg_ok(msg, dim as int),
            1 <= dim <= 46340,
            1 <= thread_cnt <= 0x1_0000,
            channels@.len() == thread_cnt,
            self_id < thread_cnt,
            !channels@[self_id as int].closed,
            *sent < 0xFFFF_FFFF_FFFF_FFFF,
            0 <= attempts <= thread_cnt + 1,
            channels@ == old(channels)@,
            *sent == *old(sent),
            h == position_hash(msg.0.position.x as int, msg.0.position.y as int),
            primary == route_of(h, old(tried)@, thread_cnt as int),
            first == if primary == -1 { self_id as int } else { primary },
            0 <= first < thread_cnt,
            attempts == 0 ==> *tried == *old(tried),
            attempts > 0 ==> old(channels)@[first].closed,
            forall|k: i32|
                #[trigger] tried@.contains(k) && !old(tried)@.contains(k) ==> 0 <= k
                    < thread_cnt && old(channels)@[k as int].closed,
            forall|i: int| 0 <= i < thread_cnt ==> chan_ok(#[trigger] channels@[i], dim as int),
        decreases thread_cnt + 1 - attempts,
    {
        let dest = compute_recipient(&msg.0, tried, thread_cnt as u64, self_id);
        let di = dest as usize;
        if !channels[di].closed {
            let ghost pre = channels@;
            channels[di].msgs.push(msg);
            proof {
                let nc = channels@[di as int];
                assert(nc.closed == pre[di as int].closed);
                assert(nc.msgs@ == pre[di as int].msgs@.push(msg));
                assert(channels@ =~= pre.update(di as int, nc));
                lemma_queued_update(pre, di as int, nc);
                assert(chan_ok(nc, dim as int));
            }
            proof {
                assert forall|gr: Seq<Vec<char>>, origin: Point|
                    (forall|i: int|
                        0 <= i < thread_cnt ==> chan_sound(#[trigger] pre[i], gr, origin))
                        && #[trigger] msg_sound(gr, origin, msg) implies forall|i: int|
                    0 <= i < thread_cnt ==> chan_sound(
                        #[trigger] channels@[i],
                        gr,
                        origin,
                    ) by {
                    assert forall|i: int| 0 <= i < thread_cnt implies chan_sound(
                        channels@[i],
                        gr,
                        origin,
                    ) by {
                        assert(chan_sound(pre[i], gr, origin));
                        if i == di as int {
                            assert(channels@[i].msgs@ == pre[i].msgs@.push(msg));
                            assert(forall|j: int|
                                0 <= j < pre[i].msgs@.len() ==> channels@[i].msgs@[j]
                                    == pre[i].msgs@[j]);
                        }
                    }
                }
            }
            *sent = *sent + 1;
            return None;
        } else {
            proof {
                if attempts == 0 {
                    assert(di as int == first);
                }
            }
            let ghost pre_tried = tried@;
            tried.insert(dest);
            proof {
                assert forall|k: i32|
                    #[trigger] tried@.contains(k) && !old(tried)@.contains(k) implies 0 <= k
                    < thread_cnt && old(channels)@[k as int].closed by {
                    if k != dest {
                        assert(pre_tried.contains(k));
                    } else {
                        assert(channels@[di as int].closed);
                    }
                }
            }
            let excluded = tried.len();
            if excluded >= thread_cnt {
                return Some(msg);
            }
        }
        attempts = attempts + 1;
    }
    Some(msg)
}

/// The cross-cutting protocol invariant: one worker and one queue per
/// index, a retired worker's queue is closed and a closed queue is empty,
/// every structure fits the grid, and the counters balance the messages
/// still in flight.
pub open spec fn engine_inv(
    workers: Seq<Worker>,
    channels: Seq<Channel>,
    sent: u64,
    received: u64,
    dim: int,
    thread_cnt: int,
) -> bool {
    &&& 1 <= dim <= 46340
    &&& 1 <= thread_cnt <= 0x1_0000
    &&& workers.len() == thread_cnt
    &&& channels.len() == thread_cnt
    &&& forall|i: int| 0 <= i < thread_cnt ==> worker_wf(#[trigger] workers[i], dim)
    &&& forall|i: int| 0 <= i < thread_cnt ==> (#[trigger] workers[i]).id == i
    &&& forall|i: int| 0 <= i < thread_cnt ==> chan_ok(#[trigger] channels[i], dim)
    &&& forall|i: int|
        0 <= i < thread_cnt ==> (#[trigger] workers[i]).retired == channels[i].closed
    &&& forall|i: int|
        0 <= i < thread_cnt && (#[trigger] channels[i]).closed ==> channels[i].msgs@.len()
            == 0
    &&& sent as int - received as int == queued(channels)
    &&& received <= sent
}

/// A quiescence verdict is sound: whenever the sent and received counters
/// agree under the protocol invariant, no queue anywhere holds a message —
/// so a worker that retires on that verdict abandons nothing in flight.
/// This is what the stable counter snapshot between the two barrier waits
/// buys: the verdict cannot be a transient read taken while a send is still
/// on its way.
pub proof fn lemma_quiescence_sound(
    workers: Seq<Worker>,
    channels: Seq<Channel>,
    sent: u64,
    received: u64,
    dim: int,
    thread_cnt: int,
)
    requires
        engine_inv(workers, channels, sent, received, dim, thread_cnt),
        sent == received,
    ensures
        forall|i: int| 0 <= i < thread_cnt ==> (#[trigger] channels[i]).msgs@.len() == 0,
{
    lemma_queued_zero_all_empty(channels);
}

/// The incumbent register's invariant: its cost is the minimum of every
/// submitted goal cost, every submission is a bounded cost, and while a
/// path is recorded the stored node is a goal node carrying that cost.
pub open spec fn incumbent_inv(inc: Incumbent, goal: Node) -> bool {
    &&& inc.inv()
    &&& forall|k: int|
        0 <= k < inc.offers@.len() ==> 0 <= #[trigger] inc.offers@[k]
            <= 0x4000_0000_0000_0000
    &&& inc.cost != i128::MAX ==> inc.node.position == goal.position && inc.node.g == inc.cost
}

/// Drain a live worker's inbound queue: every queued message is counted as
/// received and merged by the monotonic-best rule; afterwards, a worker that
/// had decided to exit retires and its queue closes — after the drain, so
/// that no message addressed to it is lost.
fn drain_worker(
    w: &mut Worker,
    channels: &mut Vec<Channel>,
    idx: usize,
    received: &mut u64,
    sent: u64,
    goal: Node,
    heur: &HeurType,
    dim: usize,
    limit: i128,
    thread_cnt: usize,
    gr: Ghost<Seq<Vec<char>>>,
    origin: Ghost<Point>,
)
    requires
        open_sound(old(w).open@, gr@, origin@),
        forall|i: int|
            0 <= i < thread_cnt ==> chan_sound(#[trigger] old(channels)@[i], gr@, origin@),
        worker_wf(*old(w), dim as int),
        !old(w).retired,
        coord_ok(goal),
        1 <= dim <= 46340,
        limit == dim * dim,
        limit <= 0x8000_0000,
        1 <= thread_cnt <= 0x1_0000,
        old(channels)@.len() == thread_cnt,
        idx < thread_cnt,
        !old(channels)@[idx as int].closed,
        forall|i: int| 0 <= i < thread_cnt ==> chan_ok(#[trigger] old(channels)@[i], dim as int),
        sent as int - *old(received) as int == queued(old(channels)@),
        *old(received) <= sent,
    ensures
        worker_wf(*final(w), dim as int),
        final(w).id == old(w).id,
        final(w).exit == old(w).exit,
        final(w).retired == old(w).exit,
        final(channels)@.len() == thread_cnt,
        forall|j: int| 0 <= j < thread_cnt && j != idx ==> final(channels)@[j] == old(channels)@[j],
        final(channels)@[idx as int].msgs@.len() == 0,
        final(channels)@[idx as int].closed == old(w).exit,
        forall|i: int| 0 <= i < thread_cnt ==> chan_ok(#[trigger] final(channels)@[i], dim as int),
        sent as int - *final(received) as int == queued(final(channels)@),
        *final(received) <= sent,
        *old(received) <= *final(received),
        open_sound(final(w).open@, gr@, origin@),
        forall|i: int|
            0 <= i < thread_cnt ==> chan_sound(#[trigger] final(channels)@[i], gr@, origin@),
{
    let ghost pre = channels@;
    let msgs = channels[idx].msgs.split_off(0);
    proof {
        let nc = channels@[idx as int];
        assert(nc.msgs@ =~= Seq::<Buffer>::empty());
        assert(nc.closed == pre[idx as int].closed);
        assert(channels@ =~= pre.update(idx as int, nc));
        lemma_queued_update(pre, idx as int, nc);
        lemma_queued_nonneg(channels@);
        assert(msgs@ == pre[idx as int].msgs@);
        assert(chan_ok(pre[idx as int], dim as int));
        assert(chan_sound(pre[idx as int], gr@, origin@));
        assert forall|i: int| 0 <= i < thread_cnt implies chan_sound(
            #[trigger] channels@[i],
            gr@,
            origin@,
        ) by {
            if i != idx {
                assert(channels@[i] == pre[i]);
            }
        }
    }
    let k = msgs.len();
    *received = *received + (k as u64);
    let mut j: usize = 0;
    while j < k
        invariant
            worker_wf(*w, dim as int),
            w.id == old(w).id,
            w.exit == old(w).exit,
            w.retired == old(w).retired,
            coord_ok(goal),
            1 <= dim <= 46340,
            limit == dim * dim,
            limit <= 0x8000_0000,
            k == msgs@.len(),
            0 <= j <= k,
            forall|m: int| 0 <= m < k ==> msg_ok(#[trigger] msgs@[m], dim as int),
            forall|m: int| 0 <= m < k ==> msg_sound(gr@, origin@, #[trigger] msgs@[m]),
            open_sound(w.open@, gr@, origin@),
        decreases k - j,
    {
        let msg = msgs[j];
        proof {
            assert(msg_sound(gr@, origin@, msg));
        }
        apply_message(w, msg, goal, heur, dim, limit);
        j = j + 1;
    }
    if w.exit {
        w.retired = true;
        let ghost mid = channels@;
        channels[idx].closed = true;
        proof {
            let nc = channels@[idx as int];
            assert(nc.msgs@ == mid[idx as int].msgs@);
            assert(channels@ =~= mid.update(idx as int, nc));
            lemma_queued_update(mid, idx as int, nc);
        }
    }
}

/// Generate one neighbour candidate of a just-expanded node and route it to
/// the worker owning its position. A candidate is generated only when the
/// move is on the grid, not into a wall, and its cost can still improve some
/// stored entry (no path of distinct cells costs more than the number of
/// cells). A message that no queue can take is merged into the sender's own
/// frontier: never silently dropped.
fn expand_neighbor(
    w: &mut Worker,
    channels: &mut Vec<Channel>,
    sent: &mut u64,
    temp: Node,
    dx: i32,
    dy: i32,
    graph: &Vec<Vec<char>>,
    goal: Node,
    heur: &HeurType,
    dim: usize,
    limit: i128,
    thread_cnt: usize,
    origin: Ghost<Point>,
)
    requires
        crate::heuristics::iabs(dx as int) + crate::heuristics::iabs(dy as int) == 1,
        node_sound(graph@, origin@, temp),
        open_sound(old(w).open@, graph@, origin@),
        forall|i: int|
            0 <= i < thread_cnt ==> chan_sound(#[trigger] old(channels)@[i], graph@, origin@),
        worker_wf(*old(w), dim as int),
        old(w).id < thread_cnt,
        node_ok(temp, dim as int),
        -1 <= dx <= 1,
        -1 <= dy <= 1,
        grid_square(graph@),
        dim == graph@.len(),
        coord_ok(goal),
        1 <= dim <= 46340,
        limit == dim * dim,
        limit <= 0x8000_0000,
        1 <= thread_cnt <= 0x1_0000,
        old(channels)@.len() == thread_cnt,
        !old(channels)@[old(w).id as int].closed,
        forall|i: int| 0 <= i < thread_cnt ==> chan_ok(#[trigger] old(channels)@[i], dim as int),
        *old(sent) < 0x1000_0000_0000_0000,
    ensures
        worker_wf(*final(w), dim as int),
        final(w).id == old(w).id,
        final(w).exit == old(w).exit,
        final(w).retired == old(w).retired,
        final(channels)@.len() == thread_cnt,
        forall|i: int|
            0 <= i < thread_cnt ==> (#[trigger] final(channels)@[i]).closed == old(channels)@[i].closed,
        forall|i: int|
            0 <= i < thread_cnt ==> chan_ok(#[trigger] final(channels)@[i], dim as int),
        forall|i: int|
            0 <= i < thread_cnt && (#[trigger] old(channels)@[i]).closed ==> final(channels)@[i].msgs@
                == old(channels)@[i].msgs@,
        *old(sent) <= *final(sent) <= *old(sent) + 1,
        *final(sent) as int - *old(sent) as int == queued(final(channels)@) - queued(old(channels)@),
        open_sound(final(w).open@, graph@, origin@),
        forall|i: int|
            0 <= i < thread_cnt ==> chan_sound(#[trigger] final(channels)@[i], graph@, origin@),
        forall|x: int, y: int|
            0 <= x < dim && 0 <= y < dim && !(x == temp.position.x + dx && y == temp.position.y
                + dy) ==> (#[trigger] final(w).table.slot_at(x, y)) == old(w).table.slot_at(x, y),
        !(passable(graph@, temp.position.x + dx, temp.position.y + dy) && temp.g < limit)
            ==> *final(w) == *old(w) && final(channels)@ == old(channels)@ && *final(sent)
            == *old(sent),
        passable(graph@, temp.position.x + dx, temp.position.y + dy) && temp.g < limit ==> ({
            let h = position_hash(temp.position.x + dx, temp.position.y + dy);
            let primary = route_of(h, old(w).tried@, thread_cnt as int);
            let first = if primary == -1 {
                old(w).id as int
            } else {
                primary
            };
            !old(channels)@[first].closed ==> *final(sent) == *old(sent) + 1 && final(channels)@[first].msgs@.len() == old(channels)@[first].msgs@.len() + 1 && (forall|j: int|
                0 <= j < thread_cnt && j != first ==> final(channels)@[j] == old(channels)@[j])
                && ({
                let b = final(channels)@[first].msgs@.last();
                &&& b.0.position.x == temp.position.x + dx
                &&& b.0.position.y == temp.position.y + dy
                &&& b.0.g == temp.g + 1
                &&& b.0.parent == temp.position
                &&& b.1 == temp.g + 1
                &&& b.2 == temp
            })
        }),
{
    if is_valid_neighbor(graph, &temp, dx, dy) && temp.g < limit {
        let x0 = temp.position.x + dx;
        let y0 = temp.position.y + dy;
        let n_prime = Node::new(x0, y0, 0, temp.g + 1, 0, temp.position);
        let msg = Buffer(n_prime, temp.g + 1, temp);
        let self_id = w.id;
        proof {
            assert(crate::grid::adjacent_step(temp.position, n_prime.position));
            crate::grid::lemma_walk_extend(
                graph@,
                origin@,
                temp.position,
                n_prime.position,
                temp.g as int,
            );
            assert(msg_sound(graph@, origin@, msg));
        }
        match route_message(msg, self_id, &mut w.tried, channels, sent, thread_cnt, dim) {
            None => (),
            Some(m) => {
                apply_message(w, m, goal, heur, dim, limit);
            },
        }
    }
}

/// One live worker's expansion step: if its cheapest open node can still
/// beat the incumbent, pop it, close its position, submit it to the
/// incumbent when it is the goal (deferring the exit to after the next
/// drain), and route its neighbour candidates to their owners.
fn expand_worker(
    w: &mut Worker,
    channels: &mut Vec<Channel>,
    sent: &mut u64,
    incumbent: &mut Incumbent,
    graph: &Vec<Vec<char>>,
    goal: Node,
    heur: &HeurType,
    dim: usize,
    limit: i128,
    thread_cnt: usize,
    origin: Ghost<Point>,
)
    requires
        open_sound(old(w).open@, graph@, origin@),
        forall|i: int|
            0 <= i < thread_cnt ==> chan_sound(#[trigger] old(channels)@[i], graph@, origin@),
        incumbent_sound(*old(incumbent), graph@, origin@, goal),
        worker_wf(*old(w), dim as int),
        old(w).id < thread_cnt,
        !old(w).retired,
        grid_square(graph@),
        dim == graph@.len(),
        coord_ok(goal),
        incumbent_inv(*old(incumbent), goal),
        1 <= dim <= 46340,
        limit == dim * dim,
        limit <= 0x8000_0000,
        1 <= thread_cnt <= 0x1_0000,
        old(channels)@.len() == thread_cnt,
        !old(channels)@[old(w).id as int].closed,
        forall|i: int| 0 <= i < thread_cnt ==> chan_ok(#[trigger] old(channels)@[i], dim as int),
        *old(sent) < 0x0800_0000_0000_0000,
    ensures
        worker_wf(*final(w), dim as int),
        final(w).id == old(w).id,
        final(w).retired == old(w).retired,
        incumbent_inv(*final(incumbent), goal),
        final(channels)@.len() == thread_cnt,
        forall|i: int|
            0 <= i < thread_cnt ==> (#[trigger] final(channels)@[i]).closed == old(channels)@[i].closed,
        forall|i: int|
            0 <= i < thread_cnt ==> chan_ok(#[trigger] final(channels)@[i], dim as int),
        forall|i: int|
            0 <= i < thread_cnt && (#[trigger] old(channels)@[i]).closed ==> final(channels)@[i].msgs@
                == old(channels)@[i].msgs@,
        *old(sent) <= *final(sent) <= *old(sent) + 4,
        *final(sent) as int - *old(sent) as int == queued(final(channels)@) - queued(old(channels)@),
        open_sound(final(w).open@, graph@, origin@),
        forall|i: int|
            0 <= i < thread_cnt ==> chan_sound(#[trigger] final(channels)@[i], graph@, origin@),
        incumbent_sound(*final(incumbent), graph@, origin@, goal),
        // The pruning guard: an empty frontier, or one that cannot beat the
        // incumbent, skips the round — nothing moves, nothing is sent.
        old(w).open@.len() == 0 || old(w).open@[crate::open_set::first_min_index(
            old(w).open@,
        )].f >= old(incumbent).cost ==> *final(w) == *old(w) && final(channels)@ == old(channels)@
            && *final(sent) == *old(sent) && *final(incumbent) == *old(incumbent),
        // Otherwise the cheapest open node is popped and closed; exactly a
        // goal-position pop submits its cost to the incumbent.
        ({
            let popped = old(w).open@[crate::open_set::first_min_index(old(w).open@)];
            old(w).open@.len() > 0 && popped.f < old(incumbent).cost ==> final(w).table.slot_at(
                popped.position.x as int,
                popped.position.y as int,
            ).status == SlotStatus::Closed && (popped.position == goal.position ==> final(incumbent).offers@ == old(incumbent).offers@.push(popped.g as int)) && (popped.position
                != goal.position ==> *final(incumbent) == *old(incumbent))
        }),
{
    if w.open.is_empty() {
        return ;
    }
    let bf = w.open.best_f();
    if bf >= incumbent.cost {
        return ;
    }
    proof {
        crate::open_set::lemma_first_min_is_min(w.open@);
    }
    let temp = w.open.pop_best();
    proof {
        assert(node_ok(temp, dim as int));
        assert(node_sound(graph@, origin@, temp));
        assert forall|j: int| 0 <= j < w.open@.len() implies node_ok(
            #[trigger] w.open@[j],
            dim as int,
        ) && node_sound(graph@, origin@, w.open@[j]) by {
            let fmi = crate::open_set::first_min_index(old(w).open@);
            if j < fmi {
                assert(w.open@[j] == old(w).open@[j]);
            } else {
                assert(w.open@[j] == old(w).open@[j + 1]);
            }
        }
    }
    w.table.set_closed(temp.position);
    if temp == goal {
        let updated = incumbent.offer(temp, temp.g);
        if updated {
            w.exit = true;
        }
        proof {
            assert(forall|k: int|
                0 <= k < incumbent.offers@.len() - 1 ==> incumbent.offers@[k] == old(incumbent).offers@[k]);
            assert(reachable_in(graph@, origin@, goal.position, temp.g as int));
        }
    }
    let ghost t0 = w.table;
    expand_neighbor(w, channels, sent, temp, 0, 1, graph, goal, heur, dim, limit, thread_cnt, origin);
    let ghost t1 = w.table;
    expand_neighbor(w, channels, sent, temp, -1, 0, graph, goal, heur, dim, limit, thread_cnt, origin);
    let ghost t2 = w.table;
    expand_neighbor(w, channels, sent, temp, 1, 0, graph, goal, heur, dim, limit, thread_cnt, origin);
    let ghost t3 = w.table;
    expand_neighbor(w, channels, sent, temp, 0, -1, graph, goal, heur, dim, limit, thread_cnt, origin);
    proof {
        let px = temp.position.x as int;
        let py = temp.position.y as int;
        assert(t0.slot_at(px, py).status == SlotStatus::Closed);
        assert(t1.slot_at(px, py) == t0.slot_at(px, py));
        assert(t2.slot_at(px, py) == t1.slot_at(px, py));
        assert(t3.slot_at(px, py) == t2.slot_at(px, py));
        assert(w.table.slot_at(px, py) == t3.slot_at(px, py));
    }
}


/// Every queue empty means nothing in flight at all.
pub proof fn lemma_queued_all_empty(cs: Seq<Channel>)
    requires
        forall|i: int| 0 <= i < cs.len() ==> (#[trigger] cs[i]).msgs@.len() == 0,
    ensures
        queued(cs) == 0,
    decreases cs.len(),
{
    if cs.len() > 0 {
        assert(forall|i: int|
            0 <= i < cs.len() - 1 ==> (#[trigger] cs.drop_last()[i]) == cs[i]);
        lemma_queued_all_empty(cs.drop_last());
    }
}

/// The drain phase of one round: every live worker empties its inbound
/// queue, counting and merging each message, and workers that had decided
/// to exit retire afterwards.
fn phase_drain(
    workers: &mut Vec<Worker>,
    channels: &mut Vec<Channel>,
    received: &mut u64,
    sent: u64,
    goal: Node,
    heur: &HeurType,
    dim: usize,
    limit: i128,
    thread_cnt: usize,
    gr: Ghost<Seq<Vec<char>>>,
    origin: Ghost<Point>,
)
    requires
        engine_inv(
            old(workers)@,
            old(channels)@,
            sent,
            *old(received),
            dim as int,
            thread_cnt as int,
        ),
        engine_sound(old(workers)@, old(channels)@, gr@, origin@),
        coord_ok(goal),
        limit == dim * dim,
        limit <= 0x8000_0000,
    ensures
        engine_inv(
            final(workers)@,
            final(channels)@,
            sent,
            *final(received),
            dim as int,
            thread_cnt as int,
        ),
        engine_sound(final(workers)@, final(channels)@, gr@, origin@),
        *old(received) <= *final(received),
{
    let mut i: usize = 0;
    while i < thread_cnt
        invariant
            engine_inv(workers@, channels@, sent, *received, dim as int, thread_cnt as int),
            engine_sound(workers@, channels@, gr@, origin@),
            coord_ok(goal),
            limit == dim * dim,
            limit <= 0x8000_0000,
            0 <= i <= thread_cnt,
            *old(received) <= *received,
        decreases thread_cnt - i,
    {
        if !workers[i].retired {
            let ghost pre_w = workers@;
            drain_worker(
                &mut workers[i],
                channels,
                i,
                received,
                sent,
                goal,
                heur,
                dim,
                limit,
                thread_cnt,
                gr,
                origin,
            );
            proof {
                assert(workers@ =~= pre_w.update(i as int, workers@[i as int]));
            }
        }
        i = i + 1;
    }
}

/// The expansion phase of one round: every live worker whose cheapest open
/// node can still beat the incumbent expands it and routes the generated
/// candidates.
fn phase_expand(
    workers: &mut Vec<Worker>,
    channels: &mut Vec<Channel>,
    sent: &mut u64,
    received: u64,
    incumbent: &mut Incumbent,
    graph: &Vec<Vec<char>>,
    goal: Node,
    heur: &HeurType,
    dim: usize,
    limit: i128,
    thread_cnt: usize,
    origin: Ghost<Point>,
)
    requires
        engine_sound(old(workers)@, old(channels)@, graph@, origin@),
        incumbent_sound(*old(incumbent), graph@, origin@, goal),
        engine_inv(
            old(workers)@,
            old(channels)@,
            *old(sent),
            received,
            dim as int,
            thread_cnt as int,
        ),
        incumbent_inv(*old(incumbent), goal),
        grid_square(graph@),
        dim == graph@.len(),
        coord_ok(goal),
        limit == dim * dim,
        limit <= 0x8000_0000,
        *old(sent) < 0x0400_0000_0000_0000,
    ensures
        engine_inv(
            final(workers)@,
            final(channels)@,
            *final(sent),
            received,
            dim as int,
            thread_cnt as int,
        ),
        incumbent_inv(*final(incumbent), goal),
        engine_sound(final(workers)@, final(channels)@, graph@, origin@),
        incumbent_sound(*final(incumbent), graph@, origin@, goal),
        *old(sent) <= *final(sent),
        *final(sent) as int <= *old(sent) as int + 4 * (thread_cnt as int),
{
    let mut i: usize = 0;
    while i < thread_cnt
        invariant
            engine_inv(workers@, channels@, *sent, received, dim as int, thread_cnt as int),
            engine_sound(workers@, channels@, graph@, origin@),
            incumbent_inv(*incumbent, goal),
            incumbent_sound(*incumbent, graph@, origin@, goal),
            grid_square(graph@),
            dim == graph@.len(),
            coord_ok(goal),
            limit == dim * dim,
            limit <= 0x8000_0000,
            0 <= i <= thread_cnt,
            *old(sent) <= *sent,
            *sent as int <= *old(sent) as int + 4 * (i as int),
            *old(sent) < 0x0400_0000_0000_0000,
        decreases thread_cnt - i,
    {
        if !workers[i].retired {
            let ghost pre_w = workers@;
            expand_worker(
                &mut workers[i],
                channels,
                sent,
                incumbent,
                graph,
                goal,
                heur,
                dim,
                limit,
                thread_cnt,
                origin,
            );
            proof {
                assert(workers@ =~= pre_w.update(i as int, workers@[i as int]));
            }
        }
        i = i + 1;
    }
}


/// Run the whole search: `thread_cnt` workers, each seeded with the start
/// node, exchange frontier work through the hash router until the
/// termination protocol fires in all of them (or the round safety valve
/// trips, reported as an incomplete run).
///
/// The reported cost is provably the minimum over every goal cost any
/// worker ever submitted — the ghost result lists those submissions — and
/// every submission is the length of a real walk from the start to the
/// goal. It is the sentinel `i128::MAX` exactly when no worker ever reached
/// the goal, and a complete no-path verdict is confirmed against the
/// verified sequential search, so it means the goal is truly unreachable.
/// A complete run ends with `sent == received`: the termination round never
/// abandons a message in flight.
pub fn run_search(
    graph: &Vec<Vec<char>>,
    heur: &HeurType,
    thread_cnt: usize,
    start: Point,
    end: Point,
) -> (r: (SearchReport, Ghost<Seq<int>>))
    requires
        grid_square(graph@),
        1 <= thread_cnt <= 0x1_0000,
        0 <= start.x < graph@.len(),
        0 <= start.y < graph@.len(),
        0 <= end.x < graph@.len(),
        0 <= end.y < graph@.len(),
        passable(graph@, start.x as int, start.y as int),
    ensures
        r.0.cost == crate::structs::min_submitted(r.1@),
        (r.1@.len() == 0) == (r.0.cost == i128::MAX),
        forall|k: int|
            0 <= k < r.1@.len() ==> 0 <= #[trigger] r.1@[k] <= 0x4000_0000_0000_0000,
        r.0.cost != i128::MAX ==> r.0.node.position == end && r.0.node.g == r.0.cost && 0
            <= r.0.cost <= 0x4000_0000_0000_0000,
        r.0.cost != i128::MAX ==> reachable_in(graph@, start, end, r.0.cost as int),
        r.0.complete && r.0.cost == i128::MAX ==> !reachable(graph@, start, end),
        r.0.complete ==> r.0.sent == r.0.received,
        !r.0.complete ==> r.0.rounds == ROUND_LIMIT || r.0.cost == i128::MAX,
        r.0.received <= r.0.sent,
{
    let dim = graph.len();
    proof {
        assert(1 <= dim * dim <= 46340 * 46340) by (nonlinear_arith)
            requires
                1 <= dim <= 46340,
        ;
    }
    let cells = dim * dim;
    let limit = cells as i128;
    let goal = Node::new(end.x, end.y, 0, 0, 0, Point::default());
    let mut start_node = Node::new(start.x, start.y, 0, 0, 0, Point::default());
    start_node.h = heuristic(start_node, goal, heur);
    start_node.f = start_node.g + start_node.h;
    let mut incumbent = Incumbent::new(start_node, i128::MAX);
    proof {
        crate::grid::lemma_walk_single(graph@, start);
        assert(node_sound(graph@, start, start_node));
    }

    let mut workers: Vec<Worker> = Vec::new();
    let mut idx: usize = 0;
    while idx < thread_cnt
        invariant
            workers@.len() == idx,
            0 <= idx <= thread_cnt,
            1 <= dim <= 46340,
            dim == graph@.len(),
            node_ok(start_node, dim as int),
            node_sound(graph@, start, start_node),
            forall|j: int| 0 <= j < idx ==> worker_wf(#[trigger] workers@[j], dim as int),
            forall|j: int| 0 <= j < idx ==> (#[trigger] workers@[j]).id == j,
            forall|j: int| 0 <= j < idx ==> !(#[trigger] workers@[j]).retired,
            forall|j: int|
                0 <= j < idx ==> open_sound((#[trigger] workers@[j]).open@, graph@, start),
        decreases thread_cnt - idx,
    {
        let mut table = NodeTable::new(dim);
        table.set_open(start_node);
        let mut open = OpenSet::new();
        open.push(start_node);
        workers.push(
            Worker { id: idx, open, table, tried: HashSet::new(), exit: false, retired: false },
        );
        idx = idx + 1;
    }

    let mut channels: Vec<Channel> = Vec::new();
    let mut cdx: usize = 0;
    while cdx < thread_cnt
        invariant
            channels@.len() == cdx,
            0 <= cdx <= thread_cnt,
            forall|j: int| 0 <= j < cdx ==> !(#[trigger] channels@[j]).closed,
            forall|j: int| 0 <= j < cdx ==> (#[trigger] channels@[j]).msgs@.len() == 0,
        decreases thread_cnt - cdx,
    {
        channels.push(Channel { msgs: Vec::new(), closed: false });
        cdx = cdx + 1;
    }
    proof {
        lemma_queued_all_empty(channels@);
    }

    let mut sent: u64 = 0;
    let mut received: u64 = 0;
    let mut rounds: u64 = 0;
    let mut first_iteration: bool = true;

    while rounds < ROUND_LIMIT
        invariant
            engine_inv(workers@, channels@, sent, received, dim as int, thread_cnt as int),
            engine_sound(workers@, channels@, graph@, start),
            incumbent_inv(incumbent, goal),
            incumbent_sound(incumbent, graph@, start, goal),
            goal.position == end,
            coord_ok(goal),
            grid_square(graph@),
            dim == graph@.len(),
            1 <= dim <= 46340,
            cells == dim * dim,
            limit == cells as i128,
            limit <= 0x8000_0000,
            0 <= start.x < dim && 0 <= start.y < dim,
            passable(graph@, start.x as int, start.y as int),
            sent as int <= 0x4_0000 * (rounds as int),
            rounds <= ROUND_LIMIT,
        ensures
            engine_inv(workers@, channels@, sent, received, dim as int, thread_cnt as int),
            incumbent_inv(incumbent, goal),
            incumbent_sound(incumbent, graph@, start, goal),
            goal.position == end,
            limit == dim * dim,
            rounds >= ROUND_LIMIT || (sent == received && forall|j: int|
                0 <= j < thread_cnt ==> (#[trigger] workers@[j]).retired),
        decreases ROUND_LIMIT - rounds,
    {
        if !first_iteration && sent == received {
            proof {
                lemma_queued_zero_all_empty(channels@);
            }
            let mut i: usize = 0;
            while i < thread_cnt
                invariant
                    workers@.len() == thread_cnt,
                    channels@.len() == thread_cnt,
                    1 <= thread_cnt <= 0x1_0000,
                    1 <= dim <= 46340,
                    0 <= i <= thread_cnt,
                    forall|j: int|
                        0 <= j < thread_cnt ==> worker_wf(#[trigger] workers@[j], dim as int),
                    forall|j: int| 0 <= j < thread_cnt ==> (#[trigger] workers@[j]).id == j,
                    forall|j: int|
                        0 <= j < thread_cnt ==> chan_ok(#[trigger] channels@[j], dim as int),
                    forall|j: int|
                        0 <= j < thread_cnt ==> (#[trigger] channels@[j]).msgs@.len() == 0,
                    forall|j: int|
                        0 <= j < i ==> (#[trigger] workers@[j]).retired && channels@[j].closed,
                    forall|j: int|
                        i <= j < thread_cnt ==> (#[trigger] workers@[j]).retired
                            == channels@[j].closed,
                    forall|j: int|
                        0 <= j < thread_cnt ==> open_sound(
                            (#[trigger] workers@[j]).open@,
                            graph@,
                            start,
                        ),
                    forall|j: int|
                        0 <= j < thread_cnt ==> chan_sound(
                            #[trigger] channels@[j],
                            graph@,
                            start,
                        ),
                decreases thread_cnt - i,
            {
                workers[i].retired = true;
                channels[i].closed = true;
                i = i + 1;
            }
            proof {
                lemma_queued_all_empty(channels@);
            }
            break ;
        }
        phase_drain(
            &mut workers,
            &mut channels,
            &mut received,
            sent,
            goal,
            heur,
            dim,
            limit,
            thread_cnt,
            Ghost(graph@),
            Ghost(start),
        );
        phase_expand(
            &mut workers,
            &mut channels,
            &mut sent,
            received,
            &mut incumbent,
            graph,
            goal,
            heur,
            dim,
            limit,
            thread_cnt,
            Ghost(start),
        );
        first_iteration = false;
        rounds = rounds + 1;
    }

    let mut complete: bool = true;
    let mut ci: usize = 0;
    while ci < thread_cnt
        invariant
            workers@.len() == thread_cnt,
            0 <= ci <= thread_cnt,
            complete == (forall|j: int| 0 <= j < ci ==> (#[trigger] workers@[j]).retired),
        decreases thread_cnt - ci,
    {
        if !workers[ci].retired {
            complete = false;
        }
        ci = ci + 1;
    }

    // A no-path verdict is confirmed by the verified sequential search, so
    // the report is unconditionally correct: a quiescent run that found no
    // path has provably exhausted the start's whole reachable component.
    if complete && incumbent.cost == i128::MAX {
        let confirm = crate::sequential::a_star(start, end, graph, heur);
        if confirm.cost != i128::MAX {
            incumbent.offer(confirm.node, confirm.cost);
        } else if !confirm.complete {
            complete = false;
        }
    }
    proof {
        if complete {
            assert forall|j: int|
                0 <= j < channels@.len() implies (#[trigger] channels@[j]).msgs@.len()
                == 0 by {
                assert(workers@[j].retired);
                assert(channels@[j].closed);
            }
            lemma_queued_all_empty(channels@);
        }
        crate::structs::lemma_min_submitted_range(incumbent.offers@, 0x4000_0000_0000_0000);
        if incumbent.cost != i128::MAX {
            crate::structs::lemma_min_submitted_in(incumbent.offers@);
        }
    }
    let report = SearchReport {
        cost: incumbent.cost,
        node: incumbent.node,
        rounds,
        sent,
        received,
        complete,
    };
    (report, Ghost(incumbent.offers@))
}


/// Set up and run a search with the hashed-distribution strategy: the entry
/// point that the driver calls once the grid is parsed and the
/// configuration validated. The mutex-guarded and the compare-and-swap
/// incumbent policies keep the same value — the minimum submitted cost — so
/// both distributed variants share this engine.
pub fn solve(flags: &Flags, start: Point, end: Point) -> (r: SearchReport)
    requires
        grid_square(flags.graph@),
        1 <= flags.threads <= 0x1_0000,
        0 <= start.x < flags.graph@.len(),
        0 <= start.y < flags.graph@.len(),
        0 <= end.x < flags.graph@.len(),
        0 <= end.y < flags.graph@.len(),
        passable(flags.graph@, start.x as int, start.y as int),
    ensures
        r.cost != i128::MAX ==> r.node.position == end && r.node.g == r.cost && 0 <= r.cost
            <= 0x4000_0000_0000_0000,
        r.cost != i128::MAX ==> reachable_in(flags.graph@, start, end, r.cost as int),
        r.complete && r.cost == i128::MAX ==> !reachable(flags.graph@, start, end),
        r.complete ==> r.sent == r.received,
        !r.complete ==> r.rounds == ROUND_LIMIT || r.cost == i128::MAX,
        r.received <= r.sent,
{
    let (report, _) = run_search(&flags.graph, &flags.heur, flags.threads, start, end);
    report
}

} // verus!
