//! The engine's global guarantees, stated and proved over the abstract
//! state: wake coalescing, safety of late wakes, and the accounting
//! that makes `Exhausted` mean "every computation was driven to its
//! end or removed, each polled to completion at most once".

use vstd::prelude::*;
use crate::mux::MuxView;
use crate::mux::PollOutcome;
use crate::mux::SlotPhase;
use crate::mux::Step;
use crate::mux::all_ready_removed;
use crate::mux::lemma_fire_wf;
use crate::mux::lemma_finish_wf;
use crate::mux::lemma_insert_wf;
use crate::mux::lemma_live_count_pos;
use crate::mux::lemma_live_count_update;
use crate::mux::lemma_live_count_zero;
use crate::mux::lemma_remove_wf;
use crate::mux::live_count;
use crate::mux::live_of;
use crate::mux::no_dup;
use crate::mux::quiescent;
use crate::mux::spec_finish;
use crate::mux::spec_fire;
use crate::mux::spec_insert;
use crate::mux::spec_remove;
use crate::mux::step_poll_post;
use crate::mux::step_post;
use crate::mux::wf_view;

verus! {

/// The state after the wake bridge of slot `h` fired `n` times in a
/// row, with no poll in between.
pub open spec fn spec_fire_times(v: MuxView, h: usize, n: nat) -> MuxView
    decreases n,
{
    if n == 0 {
        v
    } else {
        spec_fire(spec_fire_times(v, h, (n - 1) as nat), h)
    }
}

/// Firing a wake bridge twice in a row is the same as firing it once.
pub proof fn lemma_fire_idempotent(v: MuxView, h: usize)
    ensures
        spec_fire(spec_fire(v, h), h) == spec_fire(v, h),
{
    let v1 = spec_fire(v, h);
    if (h as int) < v.phases.len() {
        match v.phases[h as int] {
            SlotPhase::Idle => {
                assert(v1.phases[h as int] is Queued);
            },
            SlotPhase::Polling(_) => {
                assert(v1.phases[h as int] == SlotPhase::Polling(true));
                assert(spec_fire(v1, h).phases =~= v1.phases);
                assert(spec_fire(v1, h) =~= v1);
            },
            _ => {},
        }
    }
}

/// A slot's wake bridge fired `n` times before its next poll leaves
/// the same state as a single fire — and in a well-formed state the
/// readiness queue never holds duplicates, so all those fires amount
/// to at most one queue entry for the slot.
pub proof fn lemma_wakes_coalesce(v: MuxView, h: usize, n: nat)
    requires
        wf_view(v),
        n >= 1,
    ensures
        spec_fire_times(v, h, n) == spec_fire(v, h),
        wf_view(spec_fire_times(v, h, n)),
        no_dup(spec_fire_times(v, h, n).ready),
    decreases n,
{
    if n == 1 {
        assert(spec_fire_times(v, h, 0) == v);
        assert(spec_fire_times(v, h, 1) == spec_fire(v, h));
    } else {
        lemma_wakes_coalesce(v, h, (n - 1) as nat);
        lemma_fire_idempotent(v, h);
    }
    lemma_fire_wf(v, h);
}

/// How often a handle occurs in the readiness queue.
pub open spec fn occurrences(s: Seq<usize>, x: usize) -> nat
    decreases s.len(),
{
    if s.len() == 0 {
        0
    } else {
        occurrences(s.drop_last(), x) + (if s.last() == x {
            1nat
        } else {
            0nat
        })
    }
}

/// A handle that occurs in the queue occurs at some index.
pub proof fn lemma_occurrence_has_index(s: Seq<usize>, x: usize)
    requires
        occurrences(s, x) >= 1,
    ensures
        exists|i: int| 0 <= i < s.len() && s[i] == x,
    decreases s.len(),
{
    if s.last() == x {
        assert(s[s.len() - 1] == x);
    } else {
        lemma_occurrence_has_index(s.drop_last(), x);
        let i = choose|i: int| 0 <= i < s.drop_last().len() && s.drop_last()[i] == x;
        assert(s[i] == x);
    }
}

/// A queue without duplicates holds any handle at most once.
pub proof fn lemma_no_dup_bounds_occurrences(s: Seq<usize>, x: usize)
    requires
        no_dup(s),
    ensures
        occurrences(s, x) <= 1,
    decreases s.len(),
{
    if s.len() > 0 {
        let butlast = s.drop_last();
        assert forall|i: int, j: int|
            0 <= i < butlast.len() && 0 <= j < butlast.len() && i != j implies #[trigger] butlast[i]
            != #[trigger] butlast[j] by {
            assert(butlast[i] == s[i]);
            assert(butlast[j] == s[j]);
        }
        lemma_no_dup_bounds_occurrences(butlast, x);
        if s.last() == x && occurrences(butlast, x) >= 1 {
            lemma_occurrence_has_index(butlast, x);
            let i = choose|i: int| 0 <= i < butlast.len() && butlast[i] == x;
            assert(s[i] == x);
            assert(s[s.len() - 1] == x);
        }
    }
}

/// However often a slot's wake bridge fires before its next poll, the
/// readiness queue of a well-formed state ends up with at most one
/// entry for it: coalesced wakes cause no duplicate polls.
pub proof fn lemma_wakes_cause_at_most_one_entry(v: MuxView, h: usize, n: nat)
    requires
        wf_view(v),
        n >= 1,
    ensures
        occurrences(spec_fire_times(v, h, n).ready, h) <= 1,
{
    lemma_wakes_coalesce(v, h, n);
    lemma_no_dup_bounds_occurrences(spec_fire_times(v, h, n).ready, h);
}

/// Firing a wake bridge after its slot's removal changes nothing: the
/// fire is a harmless no-op, whatever state the collection is in.
pub proof fn lemma_fire_after_remove(v: MuxView, h: usize)
    ensures
        spec_fire(spec_remove(v, h), h) == spec_remove(v, h),
{
    let v1 = spec_remove(v, h);
    if (h as int) < v.phases.len() {
        assert(v1.phases[h as int] is Removed);
    }
}

/// A slot that is already removed is never touched by a fire of its
/// bridge, no matter how often it is fired.
pub proof fn lemma_late_fires_are_noops(v: MuxView, h: usize, n: nat)
    requires
        (h as int) < v.phases.len() ==> v.phases[h as int] is Removed,
    ensures
        spec_fire_times(v, h, n) == v,
    decreases n,
{
    if n > 0 {
        lemma_late_fires_are_noops(v, h, (n - 1) as nat);
    }
}

/// A dispatch step never hands out a slot whose computation already
/// completed or was removed: no computation is polled to completion
/// twice.
pub proof fn lemma_removed_never_polled(pre: MuxView, post: MuxView, s: Step)
    requires
        wf_view(pre),
        step_post(pre, post, s),
    ensures
        s matches Step::Poll(h) ==> pre.phases[h as int] is Queued && !(pre.phases[
            h as int
        ] is Removed),
{
    match s {
        Step::Poll(h) => {
            let i = choose|i: int| step_poll_post(pre, post, h, i);
            assert(pre.phases[h as int] is Queued);
        },
        _ => {},
    }
}

/// When a dispatch step reports exhaustion, every computation ever
/// inserted has completed or been removed: none was skipped, and the
/// values produced before this point account for every computation
/// that ever produced one.
pub proof fn lemma_exhausted_all_accounted(pre: MuxView, post: MuxView)
    requires
        wf_view(pre),
        step_post(pre, post, Step::Exhausted),
    ensures
        forall|h: int| 0 <= h < pre.phases.len() ==> (#[trigger] pre.phases[h]) is Removed,
        all_ready_removed(pre),
{
    lemma_live_count_zero(pre.phases);
}

/// A dispatch step reports exhaustion exactly when no live computation
/// remains: while one computation is still in flight the step reports
/// `Pending` (or polls), and only removal or completion of the last
/// live slot makes the collection exhausted.
pub proof fn lemma_exhausted_iff_no_live(pre: MuxView, post: MuxView, s: Step)
    requires
        wf_view(pre),
        step_post(pre, post, s),
    ensures
        s is Exhausted <==> live_of(pre) == 0,
{
    match s {
        Step::Poll(h) => {
            let i = choose|i: int| step_poll_post(pre, post, h, i);
            lemma_live_count_pos(pre.phases, h as int);
        },
        _ => {},
    }
}

/// One observable action of the driver protocol, seen atomically: a
/// poll action covers one dispatch step together with the outcome the
/// driver reported back.
pub enum Action {
    /// A computation was inserted.
    Insert,
    /// The caller removed the slot with this handle.
    Remove(usize),
    /// The wake bridge of this handle fired.
    Fire(usize),
    /// The dispatch step selected this slot, the driver polled it, and
    /// the poll reported this outcome.
    Poll(usize, PollOutcome),
}

/// The engine before anything was inserted.
pub open spec fn empty_view() -> MuxView {
    MuxView { phases: Seq::<SlotPhase>::empty(), ready: Seq::<usize>::empty() }
}

/// The dispatch step from `v` selects slot `h`: it is the first entry
/// of the readiness queue that is not stale.
pub open spec fn selects(v: MuxView, h: usize, i: int) -> bool {
    &&& 0 <= i < v.ready.len()
    &&& v.ready[i] == h
    &&& v.phases[h as int] is Queued
    &&& forall|j: int| 0 <= j < i ==> v.phases[#[trigger] v.ready[j] as int] is Removed
}

/// The state in the middle of a poll action: stale entries and the
/// selected slot left the queue, and the slot is being polled.
pub open spec fn dispatch_mid(v: MuxView, h: usize, i: int) -> MuxView {
    MuxView {
        phases: v.phases.update(h as int, SlotPhase::Polling(false)),
        ready: v.ready.skip(i + 1),
    }
}

/// Whether the action can occur in state `v`.
pub open spec fn action_enabled(v: MuxView, a: Action) -> bool {
    match a {
        Action::Insert => v.phases.len() < usize::MAX,
        Action::Remove(h) => (h as int) < v.phases.len() ==> !(v.phases[h as int] is Polling),
        Action::Fire(_) => true,
        Action::Poll(h, _) => exists|i: int| selects(v, h, i),
    }
}

/// The state after the action.
pub open spec fn apply_action(v: MuxView, a: Action) -> MuxView {
    match a {
        Action::Insert => spec_insert(v),
        Action::Remove(h) => spec_remove(v, h),
        Action::Fire(h) => spec_fire(v, h),
        Action::Poll(h, o) => {
            let i = choose|i: int| selects(v, h, i);
            spec_finish(dispatch_mid(v, h, i), h, o)
        },
    }
}

/// The state after a whole run of actions.
pub open spec fn run(v: MuxView, trace: Seq<Action>) -> MuxView
    decreases trace.len(),
{
    if trace.len() == 0 {
        v
    } else {
        apply_action(run(v, trace.drop_last()), trace.last())
    }
}

/// Whether every action of the trace was enabled when it occurred.
pub open spec fn trace_ok(v: MuxView, trace: Seq<Action>) -> bool
    decreases trace.len(),
{
    if trace.len() == 0 {
        true
    } else {
        trace_ok(v, trace.drop_last()) && action_enabled(run(v, trace.drop_last()), trace.last())
    }
}

/// How many computations the trace inserted.
pub open spec fn count_inserts(trace: Seq<Action>) -> nat
    decreases trace.len(),
{
    if trace.len() == 0 {
        0
    } else {
        count_inserts(trace.drop_last()) + (if trace.last() is Insert {
            1nat
        } else {
            0nat
        })
    }
}

/// How many polls of the trace produced a value: the values the caller
/// received.
pub open spec fn count_values(trace: Seq<Action>) -> nat
    decreases trace.len(),
{
    if trace.len() == 0 {
        0
    } else {
        count_values(trace.drop_last()) + (match trace.last() {
            Action::Poll(_, o) => if o is ProducedValue {
                1nat
            } else {
                0nat
            },
            _ => 0nat,
        })
    }
}

/// How many polls of the trace drove a computation to completion.
pub open spec fn count_completions(trace: Seq<Action>) -> nat
    decreases trace.len(),
{
    if trace.len() == 0 {
        0
    } else {
        count_completions(trace.drop_last()) + (match trace.last() {
            Action::Poll(_, o) => if o is Exhausted {
                1nat
            } else {
                0nat
            },
            _ => 0nat,
        })
    }
}

/// How many removals of the trace cancelled a computation that was
/// still live (the others were reported no-ops).
pub open spec fn count_cancellations(v: MuxView, trace: Seq<Action>) -> nat
    decreases trace.len(),
{
    if trace.len() == 0 {
        0
    } else {
        count_cancellations(v, trace.drop_last()) + (match trace.last() {
            Action::Remove(h) => {
                let w = run(v, trace.drop_last());
                if (h as int) < w.phases.len() && !(w.phases[h as int] is Removed) {
                    1nat
                } else {
                    0nat
                }
            },
            _ => 0nat,
        })
    }
}

/// Entering a poll preserves well-formedness and the live count.
pub proof fn lemma_dispatch_wf(v: MuxView, h: usize, i: int)
    requires
        wf_view(v),
        quiescent(v),
        selects(v, h, i),
    ensures
        wf_view(dispatch_mid(v, h, i)),
        (h as int) < dispatch_mid(v, h, i).phases.len(),
        dispatch_mid(v, h, i).phases[h as int] is Polling,
        live_of(dispatch_mid(v, h, i)) == live_of(v),
{
    let v2 = dispatch_mid(v, h, i);
    lemma_live_count_update(v.phases, h as int, SlotPhase::Polling(false));
    assert forall|a: int| 0 <= a < v2.ready.len() implies {
        let g = #[trigger] v2.ready[a];
        (g as int) < v2.phases.len() && (v2.phases[g as int] is Queued || v2.phases[
            g as int
        ] is Removed)
    } by {
        assert(v2.ready[a] == v.ready[a + i + 1]);
        assert(v.ready[a + i + 1] != h);
    }
    assert forall|g: int|
        0 <= g < v2.phases.len() && (#[trigger] v2.phases[g]) is Queued implies v2.ready.contains(
        g as usize,
    ) by {
        assert(g != h as int);
        assert(v.phases[g] is Queued);
        assert(v.ready.contains(g as usize));
        let j = choose|j: int| 0 <= j < v.ready.len() && v.ready[j] == g as usize;
        assert(j != i);
        if j < i {
            assert(v.phases[v.ready[j] as int] is Removed);
        }
        assert(j > i);
        assert(v2.ready[j - i - 1] == g as usize);
    }
}

/// A prefix of an admissible trace is admissible.
pub proof fn lemma_trace_ok_prefix(v: MuxView, trace: Seq<Action>, t: int)
    requires
        trace_ok(v, trace),
        0 <= t <= trace.len(),
    ensures
        trace_ok(v, trace.take(t)),
    decreases trace.len(),
{
    if t == trace.len() {
        assert(trace.take(t) =~= trace);
    } else {
        lemma_trace_ok_prefix(v, trace.drop_last(), t);
        assert(trace.drop_last().take(t) =~= trace.take(t));
    }
}

/// Every value the caller ever received came from a poll of a slot
/// that was still live and due for a poll at that moment: a completed
/// or cancelled computation never contributes a value, and each
/// value-producing poll raises the trace's value count by exactly one
/// — no value is counted twice.
pub proof fn lemma_values_come_from_live_slots(trace: Seq<Action>, t: int)
    requires
        trace_ok(empty_view(), trace),
        0 <= t < trace.len(),
        trace[t] matches Action::Poll(..),
    ensures
        trace[t] matches Action::Poll(h, o) ==> {
            let w = run(empty_view(), trace.take(t));
            &&& (h as int) < w.phases.len()
            &&& w.phases[h as int] is Queued
            &&& !(w.phases[h as int] is Removed)
            &&& (o is ProducedValue ==> count_values(trace.take(t + 1)) == count_values(
                trace.take(t),
            ) + 1)
        },
{
    lemma_trace_ok_prefix(empty_view(), trace, t + 1);
    lemma_trace_ok_prefix(empty_view(), trace, t);
    lemma_value_conservation(trace.take(t));
    assert(trace.take(t + 1).drop_last() =~= trace.take(t));
    assert(trace.take(t + 1).last() == trace[t]);
    match trace[t] {
        Action::Poll(h, o) => {
            let w = run(empty_view(), trace.take(t));
            assert(wf_view(w));
            assert(action_enabled(w, trace[t]));
            let i = choose|i: int| selects(w, h, i);
            assert(selects(w, h, i));
            assert(trace.take(t + 1).drop_last() == trace.take(t));
            if o is ProducedValue {
                assert(count_values(trace.take(t + 1)) == count_values(trace.take(t + 1).drop_last())
                    + 1);
            }
        },
        _ => {},
    }
}

/// Once no live computation remains, no poll action is enabled until
/// something is inserted again: after `Exhausted` is reported, no
/// further value can appear.
pub proof fn lemma_no_values_after_exhaustion(v: MuxView, a: Action)
    requires
        wf_view(v),
        live_of(v) == 0,
    ensures
        a matches Action::Poll(h, o) ==> !action_enabled(v, a),
{
    match a {
        Action::Poll(h, o) => {
            if action_enabled(v, a) {
                let i = choose|i: int| selects(v, h, i);
                assert(selects(v, h, i));
                lemma_live_count_pos(v.phases, h as int);
            }
        },
        _ => {},
    }
}

/// Conservation over every admissible run of the driver protocol,
/// starting from the empty engine: the number of live computations,
/// plus those polled to completion, plus those cancelled by the
/// caller, equals exactly the number inserted.  Each completion is a
/// distinct poll of a slot that was still live (a removed slot is
/// never selected), so no computation is polled to completion twice
/// and none is skipped; with `lemma_exhausted_iff_no_live`,
/// `Exhausted` is reported exactly when completions and cancellations
/// together account for every insertion — and the values produced
/// before that point are exactly the value-producing polls of the
/// trace.
pub proof fn lemma_value_conservation(trace: Seq<Action>)
    requires
        trace_ok(empty_view(), trace),
    ensures
        wf_view(run(empty_view(), trace)),
        quiescent(run(empty_view(), trace)),
        live_of(run(empty_view(), trace)) + count_completions(trace) + count_cancellations(
            empty_view(),
            trace,
        ) == count_inserts(trace),
    decreases trace.len(),
{
    let v0 = empty_view();
    if trace.len() == 0 {
        assert(live_count(Seq::<SlotPhase>::empty()) == 0);
    } else {
        let prefix = trace.drop_last();
        lemma_value_conservation(prefix);
        let v = run(v0, prefix);
        match trace.last() {
            Action::Insert => {
                lemma_insert_wf(v);
            },
            Action::Remove(h) => {
                if (h as int) < v.phases.len() && !(v.phases[h as int] is Removed) {
                    lemma_remove_wf(v, h);
                }
            },
            Action::Fire(h) => {
                lemma_fire_wf(v, h);
            },
            Action::Poll(h, o) => {
                let i = choose|i: int| selects(v, h, i);
                assert(selects(v, h, i));
                lemma_dispatch_wf(v, h, i);
                lemma_finish_wf(dispatch_mid(v, h, i), h, o);
            },
        }
    }
}

} // verus!
