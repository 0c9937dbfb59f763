//! The race combinator: drives exactly two producers and settles on
//! the first to produce a value or become exhausted, leaving the other
//! producer available for continued polling.  When both are ready on
//! the same dispatch step, a configurable bias decides — the tie-break
//! is deterministic and documented, never silent nondeterminism.

use vstd::prelude::*;
use crate::mux::PollOutcome;

verus! {

/// One of the two producers.
#[derive(Clone, Copy, Debug, PartialEq, Eq)]
pub enum Side {
    Left,
    Right,
}

/// The tie-break policy: which producer is polled first when both are
/// ready on the same dispatch step.
#[derive(Clone, Copy, Debug, PartialEq, Eq)]
pub enum Bias {
    LeftFirst,
    RightFirst,
}

/// What the driver must do after one race dispatch step.
#[derive(Clone, Copy, Debug, PartialEq, Eq)]
pub enum RaceStep {
    /// Poll this producer, then call `finish_poll`.
    Poll(Side),
    /// Neither producer is ready: suspend until a wake fires.
    Pending,
}

/// The abstract state of a race: the bias, each producer's readiness
/// flag, the producer being polled, and the winner once settled.
#[verifier::ext_equal]
pub ghost struct RaceView {
    pub bias: Bias,
    pub left_ready: bool,
    pub right_ready: bool,
    pub polling: Option<Side>,
    pub settled: Option<Side>,
}

/// Which producer a dispatch step polls: with both ready, the bias
/// side — the deterministic tie-break; with one ready, that one; with
/// none, nobody.
pub open spec fn spec_pick(bias: Bias, left_ready: bool, right_ready: bool) -> Option<Side> {
    match bias {
        Bias::LeftFirst => if left_ready {
            Some(Side::Left)
        } else if right_ready {
            Some(Side::Right)
        } else {
            None
        },
        Bias::RightFirst => if right_ready {
            Some(Side::Right)
        } else if left_ready {
            Some(Side::Left)
        } else {
            None
        },
    }
}

/// Under the left-first bias, two producers that are both ready on the
/// same dispatch step are resolved in favour of the left one; the
/// right-first bias mirrors this.
pub proof fn lemma_tiebreak_deterministic()
    ensures
        spec_pick(Bias::LeftFirst, true, true) == Some(Side::Left),
        spec_pick(Bias::RightFirst, true, true) == Some(Side::Right),
{
}

/// The race combinator: no persistent state beyond the two producers'
/// bookkeeping — a degenerate two-slot instance of the engine's
/// polling discipline.
pub struct RaceCombinator {
    bias: Bias,
    left_ready: bool,
    right_ready: bool,
    polling: Option<Side>,
    settled: Option<Side>,
}

impl View for RaceCombinator {
    type V = RaceView;

    closed spec fn view(&self) -> RaceView {
        RaceView {
            bias: self.bias,
            left_ready: self.left_ready,
            right_ready: self.right_ready,
            polling: self.polling,
            settled: self.settled,
        }
    }
}

/// The readiness flag of the given side.
pub open spec fn ready_of(v: RaceView, side: Side) -> bool {
    match side {
        Side::Left => v.left_ready,
        Side::Right => v.right_ready,
    }
}

impl RaceCombinator {
    /// A settled race polls nobody.
    pub closed spec fn wf(self) -> bool {
        self@.settled is Some ==> self@.polling is None
    }

    /// A fresh race: both producers owe their mandatory first poll, so
    /// both start ready.
    pub fn new(bias: Bias) -> (r: Self)
        ensures
            r.wf(),
            r@.bias == bias,
            r@.left_ready,
            r@.right_ready,
            r@.polling is None,
            r@.settled is None,
    {
        RaceCombinator { bias, left_ready: true, right_ready: true, polling: None, settled: None }
    }

    /// The winner, once the race has settled.
    pub fn winner(&self) -> (w: Option<Side>)
        ensures
            w == self@.settled,
    {
        self.settled
    }

    /// Whether the given producer is ready for a poll.  After the race
    /// settles, the loser's readiness is still tracked here so the
    /// caller can continue polling it.
    pub fn side_ready(&self, side: Side) -> (r: bool)
        ensures
            r == ready_of(self@, side),
    {
        match side {
            Side::Left => self.left_ready,
            Side::Right => self.right_ready,
        }
    }

    /// Delivers a wake for one producer.  Total: any side, at any
    /// time, settled or not; fires coalesce into one readiness flag.
    pub fn fire_wake(&mut self, side: Side)
        requires
            old(self).wf(),
        ensures
            final(self).wf(),
            ready_of(final(self)@, side),
            ready_of(final(self)@, match side {
                Side::Left => Side::Right,
                Side::Right => Side::Left,
            }) == ready_of(old(self)@, match side {
                Side::Left => Side::Right,
                Side::Right => Side::Left,
            }),
            final(self)@.bias == old(self)@.bias,
            final(self)@.polling == old(self)@.polling,
            final(self)@.settled == old(self)@.settled,
    {
        match side {
            Side::Left => {
                self.left_ready = true;
            },
            Side::Right => {
                self.right_ready = true;
            },
        }
    }

    /// One race dispatch step: picks the producer to poll under the
    /// bias (both ready: the bias side first — the deterministic
    /// tie-break), consumes its readiness, or reports `Pending` when
    /// neither is ready.
    pub fn produce_next_step(&mut self) -> (s: RaceStep)
        requires
            old(self).wf(),
            old(self)@.polling is None,
            old(self)@.settled is None,
        ensures
            final(self).wf(),
            final(self)@.bias == old(self)@.bias,
            final(self)@.settled is None,
            spec_pick(old(self)@.bias, old(self)@.left_ready, old(self)@.right_ready) matches Some(
                side,
            ) ==> {
                &&& s == RaceStep::Poll(side)
                &&& final(self)@.polling == Some(side)
                &&& !ready_of(final(self)@, side)
                &&& ready_of(final(self)@, match side {
                    Side::Left => Side::Right,
                    Side::Right => Side::Left,
                }) == ready_of(old(self)@, match side {
                    Side::Left => Side::Right,
                    Side::Right => Side::Left,
                })
            },
            spec_pick(old(self)@.bias, old(self)@.left_ready, old(self)@.right_ready) is None ==> {
                &&& s == RaceStep::Pending
                &&& final(self)@ == old(self)@
            },
    {
        let poll_left = match self.bias {
            Bias::LeftFirst => self.left_ready,
            Bias::RightFirst => self.left_ready && !self.right_ready,
        };
        if poll_left {
            self.left_ready = false;
            self.polling = Some(Side::Left);
            RaceStep::Poll(Side::Left)
        } else if self.right_ready {
            self.right_ready = false;
            self.polling = Some(Side::Right);
            RaceStep::Poll(Side::Right)
        } else {
            proof {
                assert(self@ =~= old(self)@);
            }
            RaceStep::Pending
        }
    }

    /// Records the outcome of the poll the driver just performed on
    /// the producer handed out by the last dispatch step.  A produced
    /// value or exhaustion settles the race in that producer's favour;
    /// the other producer's readiness is untouched, so it remains
    /// available for continued polling.
    pub fn finish_poll(&mut self, outcome: PollOutcome) -> (w: Option<Side>)
        requires
            old(self).wf(),
            old(self)@.polling is Some,
        ensures
            final(self).wf(),
            final(self)@.bias == old(self)@.bias,
            final(self)@.polling is None,
            final(self)@.left_ready == old(self)@.left_ready,
            final(self)@.right_ready == old(self)@.right_ready,
            outcome is StillPending ==> w is None && final(self)@.settled == old(self)@.settled,
            !(outcome is StillPending) ==> w == old(self)@.polling && final(self)@.settled == old(
                self,
            )@.polling,
    {
        let polled = self.polling;
        self.polling = None;
        match outcome {
            PollOutcome::StillPending => None,
            _ => {
                self.settled = polled;
                polled
            },
        }
    }
}

} // verus!
