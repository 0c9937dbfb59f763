use task_mux::Multiplexer;
use task_mux::PollOutcome;
use task_mux::Step;

#[test]
fn empty_multiplexer_is_exhausted() {
    let mut m = Multiplexer::new();
    assert!(m.is_empty());
    assert_eq!(m.len(), 0);
    assert!(matches!(m.produce_next_step(), Step::Exhausted));
    assert!(matches!(m.produce_next_step(), Step::Exhausted));
}

#[test]
fn freshly_inserted_slot_gets_its_first_poll() {
    let mut m = Multiplexer::new();
    let h = m.insert();
    assert_eq!(h, 0);
    assert_eq!(m.len(), 1);
    assert!(matches!(m.produce_next_step(), Step::Poll(0)));
}

#[test]
fn pending_until_removed_then_exhausted() {
    // One computation that never completes: every dispatch after its
    // first poll reports Pending, never Exhausted, until it is
    // removed.
    let mut m = Multiplexer::new();
    let h = m.insert();
    match m.produce_next_step() {
        Step::Poll(g) => {
            assert_eq!(g, h);
            m.finish_poll(g, PollOutcome::StillPending);
        }
        _ => panic!("expected a poll of the new slot"),
    }
    for _ in 0..5 {
        assert!(matches!(m.produce_next_step(), Step::Pending));
    }
    assert!(m.remove(h));
    assert_eq!(m.len(), 0);
    assert!(matches!(m.produce_next_step(), Step::Exhausted));
}

#[test]
fn repeated_wakes_coalesce_into_one_poll() {
    let mut m = Multiplexer::new();
    let h = m.insert();
    match m.produce_next_step() {
        Step::Poll(g) => m.finish_poll(g, PollOutcome::StillPending),
        _ => panic!("expected a poll"),
    }
    for _ in 0..7 {
        m.fire_wake(h);
    }
    // Seven fires, one queue entry, one poll.
    assert!(matches!(m.produce_next_step(), Step::Poll(g) if g == h));
    m.finish_poll(h, PollOutcome::StillPending);
    assert!(matches!(m.produce_next_step(), Step::Pending));
}

#[test]
fn wake_after_removal_is_a_noop() {
    let mut m = Multiplexer::new();
    let a = m.insert();
    let b = m.insert();
    for _ in 0..2 {
        match m.produce_next_step() {
            Step::Poll(g) => m.finish_poll(g, PollOutcome::StillPending),
            _ => panic!("expected a poll"),
        }
    }
    assert!(m.remove(a));
    for _ in 0..4 {
        m.fire_wake(a);
    }
    // The removed slot's wake left no trace: nothing is ready.
    assert!(matches!(m.produce_next_step(), Step::Pending));
    // The live slot still works as before.
    m.fire_wake(b);
    assert!(matches!(m.produce_next_step(), Step::Poll(g) if g == b));
    m.finish_poll(b, PollOutcome::StillPending);
    // A wake for a handle that was never issued is harmless too.
    m.fire_wake(99);
    assert!(matches!(m.produce_next_step(), Step::Pending));
}

#[test]
fn stale_queue_entry_is_skipped() {
    let mut m = Multiplexer::new();
    let a = m.insert();
    let b = m.insert();
    // `a` is still queued for its first poll when it is removed; the
    // stale entry must be skipped, not polled.
    assert!(m.remove(a));
    assert!(matches!(m.produce_next_step(), Step::Poll(g) if g == b));
    m.finish_poll(b, PollOutcome::StillPending);
    assert!(matches!(m.produce_next_step(), Step::Pending));
}

#[test]
fn wake_during_poll_is_not_lost() {
    let mut m = Multiplexer::new();
    let h = m.insert();
    match m.produce_next_step() {
        Step::Poll(g) => {
            // The wake bridge fires while the slot is being polled.
            m.fire_wake(g);
            m.finish_poll(g, PollOutcome::StillPending);
        }
        _ => panic!("expected a poll"),
    }
    // The slot must be queued again at once.
    assert!(matches!(m.produce_next_step(), Step::Poll(g) if g == h));
    m.finish_poll(h, PollOutcome::StillPending);
    assert!(matches!(m.produce_next_step(), Step::Pending));
}

#[test]
fn produced_value_keeps_slot_installed() {
    let mut m = Multiplexer::new();
    let h = m.insert();
    match m.produce_next_step() {
        Step::Poll(g) => m.finish_poll(g, PollOutcome::ProducedValue),
        _ => panic!("expected a poll"),
    }
    // Producing a value does not remove the slot.
    assert_eq!(m.len(), 1);
    assert!(m.contains(h));
    // It is polled again after its next wake, and only then.
    assert!(matches!(m.produce_next_step(), Step::Pending));
    m.fire_wake(h);
    assert!(matches!(m.produce_next_step(), Step::Poll(g) if g == h));
    m.finish_poll(h, PollOutcome::Exhausted);
    assert_eq!(m.len(), 0);
    assert!(matches!(m.produce_next_step(), Step::Exhausted));
}

#[test]
fn removing_twice_is_reported() {
    let mut m = Multiplexer::new();
    let h = m.insert();
    assert!(m.remove(h));
    assert!(!m.remove(h));
    assert!(!m.remove(7));
}

#[test]
fn insertion_keeps_working_after_exhaustion() {
    let mut m = Multiplexer::new();
    assert!(matches!(m.produce_next_step(), Step::Exhausted));
    let h = m.insert();
    assert!(matches!(m.produce_next_step(), Step::Poll(g) if g == h));
    m.finish_poll(h, PollOutcome::Exhausted);
    assert!(matches!(m.produce_next_step(), Step::Exhausted));
}

// Drives `m` until it reports Exhausted, answering each poll of slot
// `h` from `scripts[h]` (one outcome per poll, the last one repeated
// if the slot is woken again), and firing the wake of every slot that
// parked.  Returns how many polls produced a value.
fn drive_to_exhaustion(m: &mut Multiplexer, scripts: &mut Vec<Vec<PollOutcome>>) -> usize {
    let mut produced = 0;
    loop {
        match m.produce_next_step() {
            Step::Exhausted => return produced,
            Step::Pending => {
                // Fire every parked slot that still has script left.
                let mut fired = false;
                for h in 0..scripts.len() {
                    if m.contains(h) && !scripts[h].is_empty() {
                        m.fire_wake(h);
                        fired = true;
                    }
                }
                if !fired {
                    // Nothing will ever wake again: remove the rest.
                    for h in 0..scripts.len() {
                        if m.contains(h) {
                            m.remove(h);
                        }
                    }
                }
            }
            Step::Poll(h) => {
                let outcome = if scripts[h].is_empty() {
                    PollOutcome::StillPending
                } else {
                    scripts[h].remove(0)
                };
                if matches!(outcome, PollOutcome::ProducedValue) {
                    produced += 1;
                }
                m.finish_poll(h, outcome);
            }
        }
    }
}

#[test]
fn values_before_exhaustion_match_producing_computations() {
    // Three computations: one produces two values then finishes, one
    // produces one value then finishes, one never produces and is
    // removed.  The values seen before Exhausted are exactly the three
    // produced ones: nothing is counted twice, nothing is skipped.
    let mut m = Multiplexer::new();
    let _a = m.insert();
    let _b = m.insert();
    let _c = m.insert();
    let mut scripts = vec![
        vec![
            PollOutcome::ProducedValue,
            PollOutcome::StillPending,
            PollOutcome::ProducedValue,
            PollOutcome::Exhausted,
        ],
        vec![PollOutcome::StillPending, PollOutcome::ProducedValue, PollOutcome::Exhausted],
        vec![PollOutcome::StillPending, PollOutcome::StillPending],
    ];
    let produced = drive_to_exhaustion(&mut m, &mut scripts);
    assert_eq!(produced, 3);
    assert_eq!(m.len(), 0);
}

#[test]
fn interleaved_insert_remove_and_wakes_account_for_every_value() {
    // Insertions and removals interleaved with wake fires: the count
    // of produced values still equals the number of computations that
    // were driven to produce.
    let mut m = Multiplexer::new();
    let a = m.insert();
    // First poll of `a` produces a value.
    assert!(matches!(m.produce_next_step(), Step::Poll(g) if g == a));
    m.finish_poll(a, PollOutcome::ProducedValue);
    let b = m.insert();
    // Remove `a` before its next poll; fire its bridge afterwards.
    assert!(m.remove(a));
    m.fire_wake(a);
    // `b` completes without ever producing.
    assert!(matches!(m.produce_next_step(), Step::Poll(g) if g == b));
    m.finish_poll(b, PollOutcome::Exhausted);
    let c = m.insert();
    assert!(matches!(m.produce_next_step(), Step::Poll(g) if g == c));
    m.finish_poll(c, PollOutcome::ProducedValue);
    m.fire_wake(c);
    assert!(matches!(m.produce_next_step(), Step::Poll(g) if g == c));
    m.finish_poll(c, PollOutcome::Exhausted);
    // Two producing computations, two values, then exhaustion.
    assert!(matches!(m.produce_next_step(), Step::Exhausted));
}
