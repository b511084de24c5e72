//! The dynamic hurdle: a reusable barrier whose participant count can
//! shrink. Arrivals and retirements travel as signals on the same
//! coordination channel, so a retiring worker can never starve a concurrent
//! waiter of its wakeup: retirement simply lowers the number of arrivals
//! the survivors must see.
//!
//! The channels themselves are the driver's: this type is the verified
//! bookkeeping that each handle runs over the signals it receives. A round
//! is `begin_wait` (reset, then the driver broadcasts an arrival signal to
//! every handle) followed by one `wait` call per received signal until it
//! reports release.

use vstd::prelude::*;

verus! {

/// What a barrier handle can receive: an ordinary arrival, or a permanent
/// retirement of one participant.
#[derive(Clone, Copy, Debug, PartialEq, Eq, Structural)]
pub enum BarrierSignal {
    AtCheckPoint,
    Exit,
}

/// One participant's handle on the barrier: how many arrivals this round
/// still counts toward release, and how many participants must arrive.
pub struct DynamicHurdle {
    /// How many participants must arrive for the current round to release.
    pub threads: usize,
    /// How many arrivals have been counted this round.
    pub count: usize,
    /// The number of handles created so far, minus one; each `create` call
    /// stamps the next handle.
    pub cur: isize,
}

/// The effect of one signal on a handle's `(threads, count)` state.
pub open spec fn apply_signal(t: int, c: int, s: BarrierSignal) -> (int, int) {
    match s {
        BarrierSignal::AtCheckPoint => (t, c + 1),
        BarrierSignal::Exit => (t - 1, c),
    }
}

/// The state after processing a whole sequence of signals.
pub open spec fn run_signals(t: int, c: int, ss: Seq<BarrierSignal>) -> (int, int)
    decreases ss.len(),
{
    if ss.len() == 0 {
        (t, c)
    } else {
        let prev = run_signals(t, c, ss.drop_last());
        apply_signal(prev.0, prev.1, ss.last())
    }
}

/// A handle is released once the counted arrivals reach the required count.
pub open spec fn released(t: int, c: int) -> bool {
    c >= t
}

/// How many arrival signals a sequence holds.
pub open spec fn count_checkpoints(ss: Seq<BarrierSignal>) -> int
    decreases ss.len(),
{
    if ss.len() == 0 {
        0
    } else {
        count_checkpoints(ss.drop_last()) + if ss.last() == BarrierSignal::AtCheckPoint {
            1int
        } else {
            0int
        }
    }
}

/// How many retirement signals a sequence holds.
pub open spec fn count_exits(ss: Seq<BarrierSignal>) -> int
    decreases ss.len(),
{
    if ss.len() == 0 {
        0
    } else {
        count_exits(ss.drop_last()) + if ss.last() == BarrierSignal::Exit {
            1int
        } else {
            0int
        }
    }
}

/// Processing signals only ever adds the arrivals and subtracts the
/// retirements: the final state is determined by the two counts alone,
/// whatever the interleaving.
pub proof fn lemma_run_signals_counts(t: int, c: int, ss: Seq<BarrierSignal>)
    ensures
        run_signals(t, c, ss) == (t - count_exits(ss), c + count_checkpoints(ss)),
    decreases ss.len(),
{
    if ss.len() > 0 {
        lemma_run_signals_counts(t, c, ss.drop_last());
    }
}

/// No waiter deadlocks on a retired participant: a round releases as soon
/// as the arrivals cover the participants that have not retired, in any
/// arrival order. In particular a fresh round with `t` participants
/// releases after `a` arrivals and `e` retirements whenever `a >= t - e`.
pub proof fn lemma_retirement_unblocks(t: int, ss: Seq<BarrierSignal>)
    requires
        count_checkpoints(ss) >= t - count_exits(ss),
    ensures
        released(run_signals(t, 0, ss).0, run_signals(t, 0, ss).1),
{
    lemma_run_signals_counts(t, 0, ss);
}

impl DynamicHurdle {
    /// A fresh barrier for a fixed number of participants.
    pub fn new(threads: usize) -> (r: DynamicHurdle)
        requires
            threads >= 1,
        ensures
            r.threads == threads,
            r.count == 0,
            r.cur == -1,
    {
        DynamicHurdle { threads, count: 0, cur: -1 }
    }

    /// Stamp out the next participant's handle; the driver gives one to
    /// each worker before it starts. At most one handle per participant can
    /// be stamped: the handle numbers stay below the participant count.
    pub fn create(&mut self) -> (h: DynamicHurdle)
        requires
            -1 <= old(self).cur,
            old(self).cur + 1 < old(self).threads,
            old(self).threads <= 0x1_0000,
        ensures
            final(self).threads == old(self).threads,
            final(self).count == old(self).count,
            final(self).cur == old(self).cur + 1,
            h.threads == old(self).threads,
            h.count == old(self).count,
            h.cur == old(self).cur + 1,
            0 <= h.cur < h.threads,
    {
        self.cur = self.cur + 1;
        DynamicHurdle { threads: self.threads, count: self.count, cur: self.cur }
    }

    /// Open a round: forget the previous round's arrivals. The driver then
    /// broadcasts one arrival signal to every handle, this one included.
    pub fn begin_wait(&mut self)
        ensures
            final(self).threads == old(self).threads,
            final(self).count == 0,
            final(self).cur == old(self).cur,
    {
        self.count = 0;
    }

    /// Count one received signal toward this round: an arrival raises the
    /// arrival count, a retirement permanently lowers the required count.
    /// Reports whether the round has released this handle.
    pub fn wait(&mut self, signal: BarrierSignal) -> (released_now: bool)
        requires
            old(self).count < 0xFFFF_FFFF,
        ensures
            (final(self).threads as int, final(self).count as int) == apply_signal(
                old(self).threads as int,
                old(self).count as int,
                signal,
            ) || (signal == BarrierSignal::Exit && old(self).threads == 0 && *final(self)
                == *old(self)),
            final(self).cur == old(self).cur,
            released_now == released(final(self).threads as int, final(self).count as int),
    {
        match signal {
            BarrierSignal::AtCheckPoint => {
                self.count = self.count + 1;
            },
            BarrierSignal::Exit => {
                if self.threads > 0 {
                    self.threads = self.threads - 1;
                }
            },
        }
        self.count >= self.threads
    }

    /// Retire this handle: the signal that the driver must deliver to every
    /// participant, so that survivors stop counting on this one. Retirement
    /// rides the same channel as ordinary arrivals.
    pub fn exit(&self) -> (s: BarrierSignal)
        ensures
            s == BarrierSignal::Exit,
    {
        BarrierSignal::Exit
    }
}

} // verus!
