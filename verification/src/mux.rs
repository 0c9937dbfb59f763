//! The unordered task multiplexing engine.
//!
//! A `Multiplexer` owns a set of task slots, each standing for one
//! asynchronous computation, and a readiness queue of slots whose wake
//! bridges have fired since their last poll.  The engine itself never
//! polls a computation: a single driver asks it which slot to poll next
//! (`produce_next_step`), performs the poll, and reports the outcome
//! back (`finish_poll`).  Wake bridges deliver their notifications
//! through `fire_wake`, which coalesces repeated fires and ignores
//! fires for removed slots.

use vstd::prelude::*;

verus! {

/// The lifecycle phase of one task slot.
#[derive(Clone, Copy, Debug, PartialEq, Eq)]
pub enum SlotPhase {
    /// Parked: the slot waits for its wake bridge to fire.
    Idle,
    /// The slot sits in the readiness queue, due for a poll.
    Queued,
    /// The driver is polling this slot right now; the payload records
    /// whether a wake fired since this poll began.
    Polling(bool),
    /// The computation completed or was removed; the handle stays dead.
    Removed,
}

/// What a single poll of a computation reported back to the engine.
#[derive(Clone, Copy, Debug, PartialEq, Eq)]
pub enum PollOutcome {
    /// The computation made no progress; it parked a wake bridge.
    StillPending,
    /// The computation produced a value; it stays installed for
    /// further polls.
    ProducedValue,
    /// The computation is finished and must leave the collection.
    Exhausted,
}

/// What the driver must do after one dispatch step.
#[derive(Clone, Copy, Debug, PartialEq, Eq)]
pub enum Step {
    /// Poll the computation in this slot, then call `finish_poll`.
    Poll(usize),
    /// No slot is ready but live slots remain: suspend until a wake fires.
    Pending,
    /// No live slot remains: the collection is exhausted.
    Exhausted,
}

/// The abstract state of a multiplexer: one phase per handle ever
/// issued, and the readiness queue as a sequence of handles in wake
/// order.
#[verifier::ext_equal]
pub ghost struct MuxView {
    pub phases: Seq<SlotPhase>,
    pub ready: Seq<usize>,
}

/// 1 for a slot that still counts as live, 0 for a removed one.
pub open spec fn live_one(p: SlotPhase) -> nat {
    if p is Removed {
        0
    } else {
        1
    }
}

/// How many slots are live (inserted and neither completed nor removed).
pub open spec fn live_count(phases: Seq<SlotPhase>) -> nat
    decreases phases.len(),
{
    if phases.len() == 0 {
        0
    } else {
        live_count(phases.drop_last()) + live_one(phases.last())
    }
}

/// The live count of a whole view.
pub open spec fn live_of(v: MuxView) -> nat {
    live_count(v.phases)
}

/// Every readiness-queue entry names an issued slot that is either
/// still due for a poll or already removed (a stale entry).
pub open spec fn ready_ok(v: MuxView) -> bool {
    forall|i: int|
        0 <= i < v.ready.len() ==> {
            let h = #[trigger] v.ready[i];
            (h as int) < v.phases.len() && (v.phases[h as int] is Queued || v.phases[
                h as int
            ] is Removed)
        }
}

/// No handle appears twice in the readiness queue.
pub open spec fn no_dup(s: Seq<usize>) -> bool {
    forall|i: int, j: int|
        0 <= i < s.len() && 0 <= j < s.len() && i != j ==> #[trigger] s[i] != #[trigger] s[j]
}

/// Every slot marked `Queued` really sits in the readiness queue.
pub open spec fn queued_in_ready(v: MuxView) -> bool {
    forall|h: int|
        0 <= h < v.phases.len() && (#[trigger] v.phases[h]) is Queued ==> v.ready.contains(
            h as usize,
        )
}

/// At most one slot is being polled at any instant: the engine has a
/// single driver.
pub open spec fn at_most_one_polling(v: MuxView) -> bool {
    forall|h1: int, h2: int|
        0 <= h1 < v.phases.len() && 0 <= h2 < v.phases.len() && (#[trigger] v.phases[h1])
            is Polling && (#[trigger] v.phases[h2]) is Polling ==> h1 == h2
}

/// No slot is being polled: the driver is between dispatch steps.
pub open spec fn quiescent(v: MuxView) -> bool {
    forall|h: int| 0 <= h < v.phases.len() ==> !((#[trigger] v.phases[h]) is Polling)
}

/// Well-formedness of the abstract state.  The handle space fits the
/// machine: handles are vector indices.
pub open spec fn wf_view(v: MuxView) -> bool {
    &&& v.phases.len() <= usize::MAX
    &&& ready_ok(v)
    &&& no_dup(v.ready)
    &&& queued_in_ready(v)
    &&& at_most_one_polling(v)
}

/// Inserting a computation issues the next handle, marks its slot
/// queued for its mandatory first poll, and enqueues it.
pub open spec fn spec_insert(v: MuxView) -> MuxView {
    MuxView {
        phases: v.phases.push(SlotPhase::Queued),
        ready: v.ready.push(v.phases.len() as usize),
    }
}

/// Firing the wake bridge of slot `h`: an idle slot is enqueued once; a
/// queued slot is left alone (fires coalesce); a slot being polled is
/// marked so that it is re-enqueued after that poll; a removed or
/// never-issued handle is ignored.
pub open spec fn spec_fire(v: MuxView, h: usize) -> MuxView {
    if (h as int) < v.phases.len() {
        match v.phases[h as int] {
            SlotPhase::Idle => MuxView {
                phases: v.phases.update(h as int, SlotPhase::Queued),
                ready: v.ready.push(h),
            },
            SlotPhase::Queued => v,
            SlotPhase::Polling(_) => MuxView {
                phases: v.phases.update(h as int, SlotPhase::Polling(true)),
                ready: v.ready,
            },
            SlotPhase::Removed => v,
        }
    } else {
        v
    }
}

/// Removing slot `h` marks it dead; a stale readiness-queue entry for
/// it is left behind and skipped by the next dispatch.  Removing an
/// unknown or already-removed handle changes nothing.
pub open spec fn spec_remove(v: MuxView, h: usize) -> MuxView {
    if (h as int) < v.phases.len() && !(v.phases[h as int] is Removed) {
        MuxView { phases: v.phases.update(h as int, SlotPhase::Removed), ready: v.ready }
    } else {
        v
    }
}

/// Recording the outcome of the poll of slot `h` (which must be the
/// slot being polled): an exhausted computation leaves the collection;
/// otherwise the slot parks, unless a wake fired during the poll, in
/// which case it is queued again at once.
pub open spec fn spec_finish(v: MuxView, h: usize, o: PollOutcome) -> MuxView {
    if o is Exhausted {
        MuxView { phases: v.phases.update(h as int, SlotPhase::Removed), ready: v.ready }
    } else if v.phases[h as int] == SlotPhase::Polling(true) {
        MuxView { phases: v.phases.update(h as int, SlotPhase::Queued), ready: v.ready.push(h) }
    } else {
        MuxView { phases: v.phases.update(h as int, SlotPhase::Idle), ready: v.ready }
    }
}

pub proof fn lemma_live_count_push(phases: Seq<SlotPhase>, p: SlotPhase)
    ensures
        live_count(phases.push(p)) == live_count(phases) + live_one(p),
{
    assert(phases.push(p).drop_last() =~= phases);
    assert(phases.push(p).last() == p);
}

pub proof fn lemma_live_count_update(phases: Seq<SlotPhase>, i: int, p: SlotPhase)
    requires
        0 <= i < phases.len(),
    ensures
        live_count(phases.update(i, p)) + live_one(phases[i]) == live_count(phases) + live_one(p),
    decreases phases.len(),
{
    if i == phases.len() - 1 {
        assert(phases.update(i, p).drop_last() =~= phases.drop_last());
        assert(phases.update(i, p).last() == p);
    } else {
        assert(phases.update(i, p).drop_last() =~= phases.drop_last().update(i, p));
        assert(phases.update(i, p).last() == phases.last());
        lemma_live_count_update(phases.drop_last(), i, p);
        assert(phases.drop_last()[i] == phases[i]);
    }
}

pub proof fn lemma_live_count_le_len(phases: Seq<SlotPhase>)
    ensures
        live_count(phases) <= phases.len(),
    decreases phases.len(),
{
    if phases.len() > 0 {
        lemma_live_count_le_len(phases.drop_last());
    }
}

pub proof fn lemma_live_count_pos(phases: Seq<SlotPhase>, i: int)
    requires
        0 <= i < phases.len(),
        !(phases[i] is Removed),
    ensures
        live_count(phases) >= 1,
    decreases phases.len(),
{
    if i < phases.len() - 1 {
        lemma_live_count_pos(phases.drop_last(), i);
        assert(phases.drop_last()[i] == phases[i]);
    }
}

/// A collection with live count zero holds only removed slots: every
/// inserted computation was driven to completion or removed.
pub proof fn lemma_live_count_zero(phases: Seq<SlotPhase>)
    requires
        live_count(phases) == 0,
    ensures
        forall|i: int| 0 <= i < phases.len() ==> (#[trigger] phases[i]) is Removed,
{
    assert forall|i: int| 0 <= i < phases.len() implies (#[trigger] phases[i]) is Removed by {
        if !(phases[i] is Removed) {
            lemma_live_count_pos(phases, i);
        }
    }
}

/// The user-facing unordered collection: owns the slot phases, the
/// readiness queue, and the live count.
pub struct Multiplexer {
    slots: Vec<SlotPhase>,
    queue: Vec<usize>,
    live: usize,
}

impl View for Multiplexer {
    type V = MuxView;

    closed spec fn view(&self) -> MuxView {
        MuxView { phases: self.slots@, ready: self.queue@ }
    }
}

impl Multiplexer {
    /// The concrete state matches its abstraction: views are
    /// well-formed and the cached live count is the real one.
    pub closed spec fn wf(self) -> bool {
        &&& wf_view(self@)
        &&& self.live as nat == live_of(self@)
    }

    /// An empty multiplexer: no slot ever issued, nothing queued.
    pub fn new() -> (m: Multiplexer)
        ensures
            m.wf(),
            m@.phases =~= Seq::<SlotPhase>::empty(),
            m@.ready =~= Seq::<usize>::empty(),
            live_of(m@) == 0,
    {
        Multiplexer { slots: Vec::new(), queue: Vec::new(), live: 0 }
    }

    /// How many computations are live (inserted, neither completed nor
    /// removed).
    pub fn len(&self) -> (n: usize)
        requires
            self.wf(),
        ensures
            n as nat == live_of(self@),
    {
        self.live
    }

    /// Whether no computation is live.
    pub fn is_empty(&self) -> (e: bool)
        requires
            self.wf(),
        ensures
            e <==> live_of(self@) == 0,
    {
        self.live == 0
    }

    /// How many handles have ever been issued.
    pub fn slot_count(&self) -> (n: usize)
        ensures
            n as nat == self@.phases.len(),
    {
        self.slots.len()
    }

    /// Whether `h` names a live slot.
    pub fn contains(&self, h: usize) -> (r: bool)
        ensures
            r <==> (h as int) < self@.phases.len() && !(self@.phases[h as int] is Removed),
    {
        h < self.slots.len() && !matches!(self.slots[h], SlotPhase::Removed)
    }

    /// Inserts a computation: issues the next handle and queues the new
    /// slot for its mandatory first poll.
    pub fn insert(&mut self) -> (h: usize)
        requires
            old(self).wf(),
            old(self)@.phases.len() < usize::MAX,
        ensures
            final(self).wf(),
            h as int == old(self)@.phases.len(),
            final(self)@ == spec_insert(old(self)@),
            live_of(final(self)@) == live_of(old(self)@) + 1,
            quiescent(old(self)@) ==> quiescent(final(self)@),
    {
        proof {
            lemma_live_count_le_len(self@.phases);
        }
        let h = self.slots.len();
        self.slots.push(SlotPhase::Queued);
        self.queue.push(h);
        self.live = self.live + 1;
        proof {
            lemma_insert_wf(old(self)@);
            assert(self@ =~= spec_insert(old(self)@));
        }
        h
    }

    /// Delivers a wake for slot `h`.  Total: any handle, in any phase,
    /// at any time.  Repeated fires before the next poll coalesce into
    /// one queue entry; a fire for a removed or never-issued handle is
    /// a no-op.
    pub fn fire_wake(&mut self, h: usize)
        requires
            old(self).wf(),
        ensures
            final(self).wf(),
            final(self)@ == spec_fire(old(self)@, h),
            live_of(final(self)@) == live_of(old(self)@),
            quiescent(old(self)@) ==> quiescent(final(self)@),
    {
        if h < self.slots.len() {
            match self.slots[h] {
                SlotPhase::Idle => {
                    self.slots[h] = SlotPhase::Queued;
                    self.queue.push(h);
                },
                SlotPhase::Queued => {},
                SlotPhase::Polling(_) => {
                    self.slots[h] = SlotPhase::Polling(true);
                },
                SlotPhase::Removed => {},
            }
        }
        proof {
            lemma_fire_wf(old(self)@, h);
            assert(self@ =~= spec_fire(old(self)@, h));
        }
    }
}

/// The first `i` readiness-queue entries of `pre` were stale (their
/// slots removed), entry `i` named slot `h`, still due for its poll,
/// and the step consumed entries up to and including `i` and marked
/// `h` as being polled.
pub open spec fn step_poll_post(pre: MuxView, post: MuxView, h: usize, i: int) -> bool {
    &&& 0 <= i < pre.ready.len()
    &&& pre.ready[i] == h
    &&& pre.phases[h as int] is Queued
    &&& forall|j: int| 0 <= j < i ==> pre.phases[#[trigger] pre.ready[j] as int] is Removed
    &&& post.phases =~= pre.phases.update(h as int, SlotPhase::Polling(false))
    &&& post.ready =~= pre.ready.skip(i + 1)
}

/// Every readiness-queue entry is stale: its slot was removed.
pub open spec fn all_ready_removed(v: MuxView) -> bool {
    forall|j: int| 0 <= j < v.ready.len() ==> v.phases[#[trigger] v.ready[j] as int] is Removed
}

/// What one dispatch step did: either it selected the first
/// still-queued slot of the readiness queue for polling, or the queue
/// held only stale entries and it reported `Pending` (live slots
/// remain) or `Exhausted` (none does).
pub open spec fn step_post(pre: MuxView, post: MuxView, s: Step) -> bool {
    match s {
        Step::Poll(h) => exists|i: int| step_poll_post(pre, post, h, i),
        Step::Pending => {
            &&& live_count(pre.phases) > 0
            &&& post.phases == pre.phases
            &&& post.ready =~= Seq::<usize>::empty()
            &&& all_ready_removed(pre)
        },
        Step::Exhausted => {
            &&& live_count(pre.phases) == 0
            &&& post.phases == pre.phases
            &&& post.ready =~= Seq::<usize>::empty()
            &&& all_ready_removed(pre)
        },
    }
}

impl Multiplexer {
    /// Detaches slot `h`: its computation is cancelled, later wake
    /// fires for it become no-ops, and any stale readiness-queue entry
    /// is skipped by the next dispatch.  Returns whether a live slot
    /// was removed; removing an unknown or already-removed handle is a
    /// reported no-op.
    pub fn remove(&mut self, h: usize) -> (r: bool)
        requires
            old(self).wf(),
            (h as int) < old(self)@.phases.len() ==> !(old(self)@.phases[h as int] is Polling),
        ensures
            final(self).wf(),
            final(self)@ == spec_remove(old(self)@, h),
            r <==> ((h as int) < old(self)@.phases.len() && !(old(self)@.phases[
                h as int
            ] is Removed)),
            r ==> live_of(final(self)@) + 1 == live_of(old(self)@),
            !r ==> final(self)@ == old(self)@,
            quiescent(old(self)@) ==> quiescent(final(self)@),
    {
        if h < self.slots.len() && !matches!(self.slots[h], SlotPhase::Removed) {
            proof {
                lemma_live_count_pos(self@.phases, h as int);
            }
            self.slots[h] = SlotPhase::Removed;
            self.live = self.live - 1;
            proof {
                lemma_remove_wf(old(self)@, h);
                assert(self@ =~= spec_remove(old(self)@, h));
            }
            true
        } else {
            proof {
                assert(self@ =~= spec_remove(old(self)@, h));
            }
            false
        }
    }

    /// Records the outcome of the poll the driver just performed on
    /// slot `h`.  An exhausted computation leaves the collection and
    /// the live count drops; otherwise the slot parks again, unless a
    /// wake fired during the poll, in which case it is re-enqueued at
    /// once so that the wake is never lost.
    pub fn finish_poll(&mut self, h: usize, outcome: PollOutcome)
        requires
            old(self).wf(),
            (h as int) < old(self)@.phases.len(),
            old(self)@.phases[h as int] is Polling,
        ensures
            final(self).wf(),
            final(self)@ == spec_finish(old(self)@, h, outcome),
            quiescent(final(self)@),
            final(self)@.phases.len() == old(self)@.phases.len(),
            outcome is Exhausted ==> live_of(final(self)@) + 1 == live_of(old(self)@),
            !(outcome is Exhausted) ==> live_of(final(self)@) == live_of(old(self)@),
    {
        let woke = matches!(self.slots[h], SlotPhase::Polling(true));
        match outcome {
            PollOutcome::Exhausted => {
                proof {
                    lemma_live_count_pos(self@.phases, h as int);
                }
                self.slots[h] = SlotPhase::Removed;
                self.live = self.live - 1;
            },
            _ => {
                if woke {
                    self.slots[h] = SlotPhase::Queued;
                    self.queue.push(h);
                } else {
                    self.slots[h] = SlotPhase::Idle;
                }
            },
        }
        proof {
            lemma_finish_wf(old(self)@, h, outcome);
            assert(self@ =~= spec_finish(old(self)@, h, outcome));
        }
    }

    /// One dispatch step of `produce_next`: pops stale entries off the
    /// readiness queue until a slot still due for a poll appears, and
    /// hands that slot to the driver; with only stale entries left it
    /// reports `Pending` while live slots remain and `Exhausted` once
    /// none does.  A slot is handed out only if its own wake bridge
    /// fired (or it awaits its mandatory first poll): idle slots are
    /// never re-scanned.
    #[verifier::loop_isolation(false)]
    pub fn produce_next_step(&mut self) -> (s: Step)
        requires
            old(self).wf(),
            quiescent(old(self)@),
        ensures
            final(self).wf(),
            step_post(old(self)@, final(self)@, s),
            final(self)@.phases.len() == old(self)@.phases.len(),
            live_of(final(self)@) == live_of(old(self)@),
            s matches Step::Poll(h) ==> (h as int) < final(self)@.phases.len()
                && final(self)@.phases[h as int] == SlotPhase::Polling(false),
            s matches Step::Poll(h) ==> old(self)@.phases[h as int] is Queued
                && final(self)@.phases =~= old(self)@.phases.update(
                h as int,
                SlotPhase::Polling(false),
            ),
            (s is Pending || s is Exhausted) ==> quiescent(final(self)@),
            s is Exhausted <==> live_of(old(self)@) == 0,
    {
        let ghost mut k: int = 0;
        loop
            invariant
                self.wf(),
                self@.phases == old(self)@.phases,
                self.live == old(self).live,
                0 <= k <= old(self)@.ready.len(),
                self@.ready =~= old(self)@.ready.skip(k),
                forall|j: int|
                    0 <= j < k ==> old(self)@.phases[#[trigger] old(self)@.ready[j] as int]
                        is Removed,
            decreases self.queue.len(),
        {
            if self.queue.len() == 0 {
                if self.live == 0 {
                    proof {
                        assert(self@.ready =~= Seq::<usize>::empty());
                    }
                    return Step::Exhausted;
                } else {
                    proof {
                        assert(self@.ready =~= Seq::<usize>::empty());
                    }
                    return Step::Pending;
                }
            }
            let ghost v_before = self@;
            let h = self.queue.remove(0);
            proof {
                assert(v_before.ready[0] == h);
                assert((h as int) < v_before.phases.len());
                assert(self@.ready =~= v_before.ready.skip(1));
                assert(self@.ready =~= old(self)@.ready.skip(k + 1));
            }
            match self.slots[h] {
                SlotPhase::Queued => {
                    self.slots[h] = SlotPhase::Polling(false);
                    proof {
                        lemma_select_wf(v_before);
                        lemma_live_count_update(
                            v_before.phases,
                            h as int,
                            SlotPhase::Polling(false),
                        );
                        lemma_live_count_pos(old(self)@.phases, h as int);
                        assert(old(self)@.ready[k] == h);
                        assert(step_poll_post(old(self)@, self@, h, k));
                    }
                    return Step::Poll(h);
                },
                _ => {
                    proof {
                        lemma_pop_stale_wf(v_before);
                        k = k + 1;
                    }
                },
            }
        }
    }
}

/// Firing a wake never resurrects or kills a slot: the removed-ness of
/// every slot is exactly what it was.
pub proof fn lemma_fire_preserves_removed(v: MuxView, h: usize)
    ensures
        spec_fire(v, h).phases.len() == v.phases.len(),
        forall|s: int|
            0 <= s < v.phases.len() ==> ((#[trigger] spec_fire(v, h).phases[s]) is Removed
                <==> v.phases[s] is Removed),
{
}

/// Popping one stale readiness-queue entry preserves well-formedness.
pub proof fn lemma_pop_stale_wf(v: MuxView)
    requires
        wf_view(v),
        v.ready.len() > 0,
        v.phases[v.ready[0] as int] is Removed,
    ensures
        wf_view(MuxView { phases: v.phases, ready: v.ready.skip(1) }),
{
    let v2 = MuxView { phases: v.phases, ready: v.ready.skip(1) };
    assert forall|g: int|
        0 <= g < v2.phases.len() && (#[trigger] v2.phases[g]) is Queued implies v2.ready.contains(
        g as usize,
    ) by {
        assert(v.phases[g] is Queued);
        assert(v.ready.contains(g as usize));
        let i = choose|i: int| 0 <= i < v.ready.len() && v.ready[i] == g as usize;
        assert(i != 0);
        assert(v2.ready[i - 1] == g as usize);
    }
}

/// Selecting the head of the readiness queue for polling preserves
/// well-formedness.
pub proof fn lemma_select_wf(v: MuxView)
    requires
        wf_view(v),
        quiescent(v),
        v.ready.len() > 0,
        v.phases[v.ready[0] as int] is Queued,
    ensures
        wf_view(
            MuxView {
                phases: v.phases.update(v.ready[0] as int, SlotPhase::Polling(false)),
                ready: v.ready.skip(1),
            },
        ),
{
    let h = v.ready[0];
    let v2 = MuxView {
        phases: v.phases.update(h as int, SlotPhase::Polling(false)),
        ready: v.ready.skip(1),
    };
    assert forall|i: int| 0 <= i < v2.ready.len() implies {
        let g = #[trigger] v2.ready[i];
        (g as int) < v2.phases.len() && (v2.phases[g as int] is Queued || v2.phases[
            g as int
        ] is Removed)
    } by {
        assert(v2.ready[i] == v.ready[i + 1]);
        assert(v.ready[i + 1] != h);
    }
    assert forall|g: int|
        0 <= g < v2.phases.len() && (#[trigger] v2.phases[g]) is Queued implies v2.ready.contains(
        g as usize,
    ) by {
        assert(g != h as int);
        assert(v.phases[g] is Queued);
        assert(v.ready.contains(g as usize));
        let i = choose|i: int| 0 <= i < v.ready.len() && v.ready[i] == g as usize;
        assert(i != 0);
        assert(v2.ready[i - 1] == g as usize);
    }
}

/// Removing a live slot preserves well-formedness and lowers the live
/// count by one.
pub proof fn lemma_remove_wf(v: MuxView, h: usize)
    requires
        wf_view(v),
        (h as int) < v.phases.len(),
        !(v.phases[h as int] is Removed),
    ensures
        wf_view(spec_remove(v, h)),
        live_of(spec_remove(v, h)) + 1 == live_of(v),
        quiescent(v) ==> quiescent(spec_remove(v, h)),
{
    let v2 = spec_remove(v, h);
    lemma_live_count_update(v.phases, h as int, SlotPhase::Removed);
    assert forall|g: int|
        0 <= g < v2.phases.len() && (#[trigger] v2.phases[g]) is Queued implies v2.ready.contains(
        g as usize,
    ) by {
        assert(v.phases[g] is Queued);
        assert(v.ready.contains(g as usize));
    }
}

/// Recording a poll outcome preserves well-formedness, returns the
/// engine to quiescence, and lowers the live count exactly when the
/// computation was exhausted.
pub proof fn lemma_finish_wf(v: MuxView, h: usize, o: PollOutcome)
    requires
        wf_view(v),
        (h as int) < v.phases.len(),
        v.phases[h as int] is Polling,
    ensures
        wf_view(spec_finish(v, h, o)),
        quiescent(spec_finish(v, h, o)),
        o is Exhausted ==> live_of(spec_finish(v, h, o)) + 1 == live_of(v),
        !(o is Exhausted) ==> live_of(spec_finish(v, h, o)) == live_of(v),
{
    let v2 = spec_finish(v, h, o);
    assert forall|i: int| 0 <= i < v.ready.len() implies (#[trigger] v.ready[i]) != h by {
        if v.ready[i] == h {
            assert(v.phases[h as int] is Queued || v.phases[h as int] is Removed);
        }
    }
    if o is Exhausted {
        lemma_live_count_update(v.phases, h as int, SlotPhase::Removed);
        assert forall|g: int|
            0 <= g < v2.phases.len() && (#[trigger] v2.phases[g])
                is Queued implies v2.ready.contains(g as usize) by {
            assert(v.phases[g] is Queued);
            assert(v.ready.contains(g as usize));
        }
    } else if v.phases[h as int] == SlotPhase::Polling(true) {
        lemma_live_count_update(v.phases, h as int, SlotPhase::Queued);
        assert forall|i: int| 0 <= i < v2.ready.len() implies {
            let g = #[trigger] v2.ready[i];
            (g as int) < v2.phases.len() && (v2.phases[g as int] is Queued || v2.phases[
                g as int
            ] is Removed)
        } by {
            if i < v.ready.len() {
                assert(v2.ready[i] == v.ready[i]);
                assert(v.ready[i] != h);
            } else {
                assert(v2.ready[i] == h);
            }
        }
        assert forall|g: int|
            0 <= g < v2.phases.len() && (#[trigger] v2.phases[g])
                is Queued implies v2.ready.contains(g as usize) by {
            if g == h as int {
                assert(v2.ready[v.ready.len() as int] == h);
            } else {
                assert(v.phases[g] is Queued);
                assert(v.ready.contains(g as usize));
                let i = choose|i: int| 0 <= i < v.ready.len() && v.ready[i] == g as usize;
                assert(v2.ready[i] == g as usize);
            }
        }
    } else {
        lemma_live_count_update(v.phases, h as int, SlotPhase::Idle);
        assert forall|g: int|
            0 <= g < v2.phases.len() && (#[trigger] v2.phases[g])
                is Queued implies v2.ready.contains(g as usize) by {
            assert(v.phases[g] is Queued);
            assert(v.ready.contains(g as usize));
        }
    }
}

/// Insertion preserves well-formedness and raises the live count by
/// one.
pub proof fn lemma_insert_wf(v: MuxView)
    requires
        wf_view(v),
        v.phases.len() < usize::MAX,
    ensures
        wf_view(spec_insert(v)),
        live_of(spec_insert(v)) == live_of(v) + 1,
        quiescent(v) ==> quiescent(spec_insert(v)),
{
    let v2 = spec_insert(v);
    let n = v.phases.len() as int;
    lemma_live_count_push(v.phases, SlotPhase::Queued);
    assert forall|i: int| 0 <= i < v2.ready.len() implies {
        let h = #[trigger] v2.ready[i];
        (h as int) < v2.phases.len() && (v2.phases[h as int] is Queued || v2.phases[
            h as int
        ] is Removed)
    } by {
        if i < v.ready.len() {
            assert(v2.ready[i] == v.ready[i]);
        } else {
            assert(v2.ready[i] == n as usize);
        }
    }
    assert forall|g: int|
        0 <= g < v2.phases.len() && (#[trigger] v2.phases[g]) is Queued implies v2.ready.contains(
        g as usize,
    ) by {
        if g == n {
            assert(v2.ready[v.ready.len() as int] == n as usize);
        } else {
            assert(v.phases[g] is Queued);
            assert(v.ready.contains(g as usize));
            let i = choose|i: int| 0 <= i < v.ready.len() && v.ready[i] == g as usize;
            assert(v2.ready[i] == g as usize);
        }
    }
}

/// Firing a wake preserves well-formedness and never changes the live
/// count.
pub proof fn lemma_fire_wf(v: MuxView, h: usize)
    requires
        wf_view(v),
    ensures
        wf_view(spec_fire(v, h)),
        live_of(spec_fire(v, h)) == live_of(v),
        quiescent(v) ==> quiescent(spec_fire(v, h)),
{
    let v2 = spec_fire(v, h);
    if (h as int) < v.phases.len() {
        match v.phases[h as int] {
            SlotPhase::Idle => {
                lemma_live_count_update(v.phases, h as int, SlotPhase::Queued);
                assert forall|i: int| 0 <= i < v.ready.len() implies (#[trigger] v.ready[i])
                    != h by {
                    if v.ready[i] == h {
                        assert(v.phases[h as int] is Queued || v.phases[h as int] is Removed);
                    }
                }
                assert forall|i: int| 0 <= i < v2.ready.len() implies {
                    let g = #[trigger] v2.ready[i];
                    (g as int) < v2.phases.len() && (v2.phases[g as int] is Queued || v2.phases[
                        g as int
                    ] is Removed)
                } by {
                    if i < v.ready.len() {
                        assert(v2.ready[i] == v.ready[i]);
                        assert(v.ready[i] != h);
                    } else {
                        assert(v2.ready[i] == h);
                    }
                }
                assert forall|g: int|
                    0 <= g < v2.phases.len() && (#[trigger] v2.phases[g])
                        is Queued implies v2.ready.contains(g as usize) by {
                    if g == h as int {
                        assert(v2.ready[v.ready.len() as int] == h);
                    } else {
                        assert(v.phases[g] is Queued);
                        assert(v.ready.contains(g as usize));
                        let i = choose|i: int| 0 <= i < v.ready.len() && v.ready[i] == g as usize;
                        assert(v2.ready[i] == g as usize);
                    }
                }
            },
            SlotPhase::Queued => {},
            SlotPhase::Polling(_) => {
                lemma_live_count_update(v.phases, h as int, SlotPhase::Polling(true));
                assert forall|i: int| 0 <= i < v2.ready.len() implies {
                    let g = #[trigger] v2.ready[i];
                    (g as int) < v2.phases.len() && (v2.phases[g as int] is Queued || v2.phases[
                        g as int
                    ] is Removed)
                } by {
                    assert(v2.ready[i] == v.ready[i]);
                    if v.ready[i] == h {
                        assert(v.phases[h as int] is Queued || v.phases[h as int] is Removed);
                    }
                }
                assert forall|g: int|
                    0 <= g < v2.phases.len() && (#[trigger] v2.phases[g])
                        is Queued implies v2.ready.contains(g as usize) by {
                    assert(v.phases[g] is Queued);
                    assert(v.ready.contains(g as usize));
                }
            },
            SlotPhase::Removed => {},
        }
    }
}

} // verus!
