use task_mux::Bias;
use task_mux::PollOutcome;
use task_mux::RaceCombinator;
use task_mux::RaceStep;
use task_mux::Side;

#[test]
fn left_first_tiebreak_yields_left() {
    // Both producers are ready on the same poll: under the left-first
    // bias the left one is polled first and wins; the right producer
    // stays ready for continued polling.
    let mut r = RaceCombinator::new(Bias::LeftFirst);
    assert!(r.side_ready(Side::Left));
    assert!(r.side_ready(Side::Right));
    assert!(matches!(r.produce_next_step(), RaceStep::Poll(Side::Left)));
    let w = r.finish_poll(PollOutcome::ProducedValue);
    assert_eq!(w, Some(Side::Left));
    assert_eq!(r.winner(), Some(Side::Left));
    assert!(r.side_ready(Side::Right));
}

#[test]
fn right_first_tiebreak_yields_right() {
    let mut r = RaceCombinator::new(Bias::RightFirst);
    assert!(matches!(r.produce_next_step(), RaceStep::Poll(Side::Right)));
    let w = r.finish_poll(PollOutcome::ProducedValue);
    assert_eq!(w, Some(Side::Right));
    assert!(r.side_ready(Side::Left));
}

#[test]
fn race_waits_until_a_wake_fires() {
    let mut r = RaceCombinator::new(Bias::LeftFirst);
    assert!(matches!(r.produce_next_step(), RaceStep::Poll(Side::Left)));
    assert_eq!(r.finish_poll(PollOutcome::StillPending), None);
    assert!(matches!(r.produce_next_step(), RaceStep::Poll(Side::Right)));
    assert_eq!(r.finish_poll(PollOutcome::StillPending), None);
    assert!(matches!(r.produce_next_step(), RaceStep::Pending));
    assert_eq!(r.winner(), None);

    r.fire_wake(Side::Right);
    assert!(matches!(r.produce_next_step(), RaceStep::Poll(Side::Right)));
    assert_eq!(r.finish_poll(PollOutcome::ProducedValue), Some(Side::Right));
    assert_eq!(r.winner(), Some(Side::Right));
    assert!(!r.side_ready(Side::Left));
}

#[test]
fn exhaustion_settles_the_race_too() {
    let mut r = RaceCombinator::new(Bias::LeftFirst);
    assert!(matches!(r.produce_next_step(), RaceStep::Poll(Side::Left)));
    assert_eq!(r.finish_poll(PollOutcome::Exhausted), Some(Side::Left));
    assert_eq!(r.winner(), Some(Side::Left));
    assert!(r.side_ready(Side::Right));
}

#[test]
fn wake_after_settling_is_harmless() {
    let mut r = RaceCombinator::new(Bias::LeftFirst);
    assert!(matches!(r.produce_next_step(), RaceStep::Poll(Side::Left)));
    assert_eq!(r.finish_poll(PollOutcome::ProducedValue), Some(Side::Left));
    // The race is settled; wakes only mark readiness for the caller.
    r.fire_wake(Side::Left);
    r.fire_wake(Side::Right);
    assert_eq!(r.winner(), Some(Side::Left));
    assert!(r.side_ready(Side::Right));
}

#[test]
fn repeated_wakes_set_one_readiness_flag() {
    let mut r = RaceCombinator::new(Bias::LeftFirst);
    assert!(matches!(r.produce_next_step(), RaceStep::Poll(Side::Left)));
    assert_eq!(r.finish_poll(PollOutcome::StillPending), None);
    assert!(matches!(r.produce_next_step(), RaceStep::Poll(Side::Right)));
    assert_eq!(r.finish_poll(PollOutcome::StillPending), None);
    for _ in 0..3 {
        r.fire_wake(Side::Left);
    }
    assert!(matches!(r.produce_next_step(), RaceStep::Poll(Side::Left)));
    assert_eq!(r.finish_poll(PollOutcome::StillPending), None);
    assert!(matches!(r.produce_next_step(), RaceStep::Pending));
}
