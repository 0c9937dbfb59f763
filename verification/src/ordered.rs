//! The ordered multiplexer: computations run concurrently through the
//! unordered engine, but their final values are released strictly in
//! submission order.
//!
//! Each inserted computation is tagged with the next submission
//! sequence number (which coincides with its engine handle).  A value
//! completed out of order waits in a holding area keyed by that
//! number, and is released only when every lower number has been
//! released before it.

use vstd::prelude::*;
use crate::mux::Multiplexer;
use crate::mux::MuxView;
use crate::mux::PollOutcome;
use crate::mux::SlotPhase;
use crate::mux::Step;
use crate::mux::lemma_live_count_zero;
use crate::mux::live_of;
use crate::mux::quiescent;
use crate::mux::spec_finish;
use crate::mux::spec_fire;
use crate::mux::spec_insert;
use crate::mux::step_post;

verus! {

/// What one poll of an ordered computation reported: still pending, or
/// completed with its one final value.
#[derive(Debug, PartialEq, Eq)]
pub enum OrderedOutcome<T> {
    StillPending,
    Completed(T),
}

/// What the driver must do after one ordered dispatch step.
#[derive(Debug, PartialEq, Eq)]
pub enum OrderedStep<T> {
    /// The next value in submission order is ready: here it is.
    Value(T),
    /// Poll the computation with this sequence number, then call
    /// `finish_poll`.
    Poll(usize),
    /// Nothing can be released yet: suspend until a wake fires.
    Pending,
    /// Every inserted computation completed and every value was
    /// released, in submission order.
    Exhausted,
}

/// The abstract state: the engine's state, the holding area (one cell
/// per submission number), and the lowest not-yet-released number.
#[verifier::ext_equal]
pub ghost struct OrderedView<T> {
    pub inner: MuxView,
    pub held: Seq<Option<T>>,
    pub next_out: nat,
}

/// Well-formedness: one holding cell per issued sequence number;
/// everything below `next_out` was completed and released; a held
/// value belongs to a completed computation; and every completed,
/// not-yet-released computation has its value in the holding area.
pub open spec fn wf_ordered<T>(v: OrderedView<T>) -> bool {
    &&& v.held.len() == v.inner.phases.len()
    &&& v.next_out <= v.held.len()
    &&& forall|s: int| 0 <= s < v.next_out ==> (#[trigger] v.held[s]) is None
    &&& forall|s: int| 0 <= s < v.next_out ==> (#[trigger] v.inner.phases[s]) is Removed
    &&& forall|s: int|
        0 <= s < v.held.len() && (#[trigger] v.held[s]) is Some ==> v.inner.phases[s] is Removed
    &&& forall|s: int|
        v.next_out <= s < v.held.len() && (#[trigger] v.inner.phases[s]) is Removed
            ==> v.held[s] is Some
}

/// In a well-formed state, every value still held belongs to a
/// sequence number at or above the release cursor: the next value
/// released is always the minimum outstanding one.
pub proof fn lemma_release_is_minimum<T>(v: OrderedView<T>)
    requires
        wf_ordered(v),
    ensures
        forall|s: int| 0 <= s < v.held.len() && (#[trigger] v.held[s]) is Some ==> v.next_out <= s,
{
}

/// The ordered multiplexer: the unordered engine plus the holding area
/// and the release cursor.
pub struct OrderedMultiplexer<T> {
    inner: Multiplexer,
    held: Vec<Option<T>>,
    next_out: usize,
}

impl<T> View for OrderedMultiplexer<T> {
    type V = OrderedView<T>;

    closed spec fn view(&self) -> OrderedView<T> {
        OrderedView { inner: self.inner@, held: self.held@, next_out: self.next_out as nat }
    }
}

impl<T> OrderedMultiplexer<T> {
    /// The concrete state matches its abstraction.
    pub closed spec fn wf(self) -> bool {
        &&& self.inner.wf()
        &&& wf_ordered(self@)
    }

    /// An empty ordered multiplexer.
    pub fn new() -> (m: Self)
        ensures
            m.wf(),
            m@.inner.phases =~= Seq::<SlotPhase>::empty(),
            m@.held =~= Seq::<Option<T>>::empty(),
            m@.next_out == 0,
            live_of(m@.inner) == 0,
            quiescent(m@.inner),
    {
        OrderedMultiplexer { inner: Multiplexer::new(), held: Vec::new(), next_out: 0 }
    }

    /// How many computations are still in flight.
    pub fn len(&self) -> (n: usize)
        requires
            self.wf(),
        ensures
            n as nat == live_of(self@.inner),
    {
        self.inner.len()
    }

    /// Whether no computation is in flight.  Values may still wait in
    /// the holding area.
    pub fn is_empty(&self) -> (e: bool)
        requires
            self.wf(),
        ensures
            e <==> live_of(self@.inner) == 0,
    {
        self.inner.is_empty()
    }

    /// Inserts a computation and tags it with the next submission
    /// sequence number.
    pub fn insert(&mut self) -> (sq: usize)
        requires
            old(self).wf(),
            old(self)@.held.len() < usize::MAX,
        ensures
            final(self).wf(),
            sq as int == old(self)@.held.len(),
            final(self)@.inner == spec_insert(old(self)@.inner),
            final(self)@.held =~= old(self)@.held.push(None),
            final(self)@.next_out == old(self)@.next_out,
            live_of(final(self)@.inner) == live_of(old(self)@.inner) + 1,
            quiescent(old(self)@.inner) ==> quiescent(final(self)@.inner),
    {
        let sq = self.inner.insert();
        self.held.push(None);
        proof {
            let v2 = self@;
            let v1 = old(self)@;
            assert forall|s: int| 0 <= s < v2.next_out implies (#[trigger] v2.held[s]) is None by {
                assert(v2.held[s] == v1.held[s]);
            }
            assert forall|s: int| 0 <= s < v2.next_out implies (#[trigger] v2.inner.phases[s])
                is Removed by {
                assert(v2.inner.phases[s] == v1.inner.phases[s]);
            }
            assert forall|s: int|
                0 <= s < v2.held.len() && (#[trigger] v2.held[s]) is Some implies v2.inner.phases[s]
                is Removed by {
                assert(s < v1.held.len());
            }
            assert forall|s: int|
                v2.next_out <= s < v2.held.len() && (#[trigger] v2.inner.phases[s])
                    is Removed implies v2.held[s] is Some by {
                assert(s < v1.held.len());
            }
        }
        sq
    }

    /// Delivers a wake for the computation with sequence number `h`.
    /// Total and harmless, exactly as on the unordered engine.
    pub fn fire_wake(&mut self, h: usize)
        requires
            old(self).wf(),
        ensures
            final(self).wf(),
            final(self)@.inner == spec_fire(old(self)@.inner, h),
            final(self)@.held == old(self)@.held,
            final(self)@.next_out == old(self)@.next_out,
            live_of(final(self)@.inner) == live_of(old(self)@.inner),
            quiescent(old(self)@.inner) ==> quiescent(final(self)@.inner),
    {
        proof {
            crate::mux::lemma_fire_preserves_removed(self@.inner, h);
        }
        self.inner.fire_wake(h);
    }

    /// One ordered dispatch step: if the value with the lowest
    /// unreleased sequence number waits in the holding area, release
    /// it; otherwise drive the engine.  Exhaustion is reported only
    /// once every computation completed and every value was released —
    /// and then the release cursor has passed the whole submission
    /// sequence: output order equals submission order.
    pub fn produce_next_step(&mut self) -> (s: OrderedStep<T>)
        requires
            old(self).wf(),
            quiescent(old(self)@.inner),
        ensures
            final(self).wf(),
            s matches OrderedStep::Value(x) ==> {
                &&& old(self)@.next_out < old(self)@.held.len()
                &&& old(self)@.held[old(self)@.next_out as int] == Some(x)
                &&& final(self)@.next_out == old(self)@.next_out + 1
                &&& final(self)@.held =~= old(self)@.held.update(
                    old(self)@.next_out as int,
                    None,
                )
                &&& final(self)@.inner == old(self)@.inner
            },
            s matches OrderedStep::Poll(h) ==> {
                &&& step_post(old(self)@.inner, final(self)@.inner, Step::Poll(h))
                &&& (h as int) < final(self)@.inner.phases.len()
                &&& final(self)@.inner.phases[h as int] == SlotPhase::Polling(false)
                &&& final(self)@.held == old(self)@.held
                &&& final(self)@.next_out == old(self)@.next_out
            },
            s is Pending ==> {
                &&& step_post(old(self)@.inner, final(self)@.inner, Step::Pending)
                &&& final(self)@.held == old(self)@.held
                &&& final(self)@.next_out == old(self)@.next_out
                &&& quiescent(final(self)@.inner)
            },
            s is Exhausted ==> {
                &&& final(self)@.next_out == final(self)@.held.len()
                &&& live_of(old(self)@.inner) == 0
                &&& final(self)@.held == old(self)@.held
                &&& final(self)@.next_out == old(self)@.next_out
                &&& quiescent(final(self)@.inner)
            },
            live_of(final(self)@.inner) == live_of(old(self)@.inner),
    {
        let ghost v1 = self@;
        if self.next_out < self.held.len() {
            self.held.push(None);
            let got = self.held.swap_remove(self.next_out);
            proof {
                assert(self@.held =~= v1.held.update(self.next_out as int, None));
            }
            match got {
                Some(x) => {
                    self.next_out = self.next_out + 1;
                    proof {
                        let v2 = self@;
                        assert(v1.held[v1.next_out as int] is Some);
                        assert forall|s: int| 0 <= s < v2.next_out implies (#[trigger] v2.held[s])
                            is None by {
                            if s < v1.next_out {
                                assert(v1.held[s] is None);
                            }
                        }
                        assert forall|s: int|
                            0 <= s < v2.next_out implies (#[trigger] v2.inner.phases[s])
                            is Removed by {
                            if s == v1.next_out {
                                assert(v1.held[s] is Some);
                            }
                        }
                        assert forall|s: int|
                            0 <= s < v2.held.len() && (#[trigger] v2.held[s])
                                is Some implies v2.inner.phases[s] is Removed by {
                            assert(v1.held[s] is Some);
                        }
                    }
                    return OrderedStep::Value(x);
                },
                None => {
                    proof {
                        assert(self@.held =~= v1.held);
                        assert(self@ =~= v1);
                    }
                },
            }
        }
        match self.inner.produce_next_step() {
            Step::Poll(h) => {
                proof {
                    let v2 = self@;
                    assert(v2.inner.phases =~= v1.inner.phases.update(
                        h as int,
                        SlotPhase::Polling(false),
                    ));
                    assert(v1.inner.phases[h as int] is Queued);
                    assert forall|s: int|
                        0 <= s < v2.next_out implies (#[trigger] v2.inner.phases[s]) is Removed by {
                        assert(v1.inner.phases[s] is Removed);
                        assert(s != h as int);
                    }
                    assert forall|s: int|
                        0 <= s < v2.held.len() && (#[trigger] v2.held[s])
                            is Some implies v2.inner.phases[s] is Removed by {
                        assert(v1.inner.phases[s] is Removed);
                        assert(s != h as int);
                    }
                    assert forall|s: int|
                        v2.next_out <= s < v2.held.len() && (#[trigger] v2.inner.phases[s])
                            is Removed implies v2.held[s] is Some by {
                        assert(v1.inner.phases[s] is Removed);
                    }
                }
                OrderedStep::Poll(h)
            },
            Step::Pending => OrderedStep::Pending,
            Step::Exhausted => {
                proof {
                    lemma_live_count_zero(self@.inner.phases);
                    if self@.next_out < self@.held.len() {
                        assert(self@.inner.phases[self@.next_out as int] is Removed);
                        assert(self@.held[self@.next_out as int] is Some);
                    }
                }
                OrderedStep::Exhausted
            },
        }
    }

    /// Records the outcome of the poll the driver just performed on
    /// the computation with sequence number `h`.  A completed value is
    /// stashed under that number; it leaves the holding area only in
    /// submission order.
    pub fn finish_poll(&mut self, h: usize, outcome: OrderedOutcome<T>)
        requires
            old(self).wf(),
            (h as int) < old(self)@.inner.phases.len(),
            old(self)@.inner.phases[h as int] is Polling,
        ensures
            final(self).wf(),
            quiescent(final(self)@.inner),
            final(self)@.next_out == old(self)@.next_out,
            final(self)@.held.len() == old(self)@.held.len(),
            outcome matches OrderedOutcome::Completed(x) ==> {
                &&& final(self)@.held =~= old(self)@.held.update(h as int, Some(x))
                &&& final(self)@.inner == spec_finish(
                    old(self)@.inner,
                    h,
                    PollOutcome::Exhausted,
                )
                &&& live_of(final(self)@.inner) + 1 == live_of(old(self)@.inner)
            },
            outcome is StillPending ==> {
                &&& final(self)@.held == old(self)@.held
                &&& final(self)@.inner == spec_finish(
                    old(self)@.inner,
                    h,
                    PollOutcome::StillPending,
                )
                &&& live_of(final(self)@.inner) == live_of(old(self)@.inner)
            },
    {
        let ghost v1 = self@;
        match outcome {
            OrderedOutcome::StillPending => {
                self.inner.finish_poll(h, PollOutcome::StillPending);
                proof {
                    let v2 = self@;
                    assert forall|s: int|
                        0 <= s < v2.next_out implies (#[trigger] v2.inner.phases[s]) is Removed by {
                        assert(v1.inner.phases[s] is Removed);
                        assert(s != h as int);
                    }
                    assert forall|s: int|
                        0 <= s < v2.held.len() && (#[trigger] v2.held[s])
                            is Some implies v2.inner.phases[s] is Removed by {
                        assert(v1.inner.phases[s] is Removed);
                        assert(s != h as int);
                    }
                    assert forall|s: int|
                        v2.next_out <= s < v2.held.len() && (#[trigger] v2.inner.phases[s])
                            is Removed implies v2.held[s] is Some by {
                        assert(v1.inner.phases[s] is Removed);
                    }
                }
            },
            OrderedOutcome::Completed(x) => {
                self.inner.finish_poll(h, PollOutcome::Exhausted);
                self.held.push(Some(x));
                let discarded = self.held.swap_remove(h);
                proof {
                    let v2 = self@;
                    assert(v2.held =~= v1.held.update(h as int, Some(x)));
                    assert(!(v1.inner.phases[h as int] is Removed));
                    assert(v1.next_out <= h as int);
                    assert forall|s: int| 0 <= s < v2.next_out implies (#[trigger] v2.held[s])
                        is None by {
                        assert(v1.held[s] is None);
                        assert(s != h as int);
                    }
                    assert forall|s: int|
                        0 <= s < v2.next_out implies (#[trigger] v2.inner.phases[s]) is Removed by {
                        assert(v1.inner.phases[s] is Removed);
                    }
                    assert forall|s: int|
                        0 <= s < v2.held.len() && (#[trigger] v2.held[s])
                            is Some implies v2.inner.phases[s] is Removed by {
                        if s != h as int {
                            assert(v1.held[s] is Some);
                        }
                    }
                    assert forall|s: int|
                        v2.next_out <= s < v2.held.len() && (#[trigger] v2.inner.phases[s])
                            is Removed implies v2.held[s] is Some by {
                        if s != h as int {
                            assert(v1.inner.phases[s] is Removed);
                        }
                    }
                }
            },
        }
    }
}

} // verus!
