use task_mux::OrderedMultiplexer;
use task_mux::OrderedOutcome;
use task_mux::OrderedStep;

#[test]
fn ordered_empty_is_exhausted() {
    let mut m: OrderedMultiplexer<u64> = OrderedMultiplexer::new();
    assert!(matches!(m.produce_next_step(), OrderedStep::Exhausted));
}

#[test]
fn ordered_single_value_released() {
    let mut m: OrderedMultiplexer<&str> = OrderedMultiplexer::new();
    let s0 = m.insert();
    assert_eq!(s0, 0);
    match m.produce_next_step() {
        OrderedStep::Poll(h) => {
            assert_eq!(h, 0);
            m.finish_poll(h, OrderedOutcome::Completed("only"));
        }
        _ => panic!("expected a poll"),
    }
    assert!(matches!(m.produce_next_step(), OrderedStep::Value("only")));
    assert!(matches!(m.produce_next_step(), OrderedStep::Exhausted));
}

#[test]
fn output_order_equals_submission_order() {
    // Insert A, B, C in that order; B completes first, then A, then C.
    // The observed output order is A, B, C all the same.
    let mut m: OrderedMultiplexer<&str> = OrderedMultiplexer::new();
    let a = m.insert();
    let b = m.insert();
    let c = m.insert();
    assert_eq!((a, b, c), (0, 1, 2));

    // Mandatory first polls, in queue order: A parks, B completes, C parks.
    match m.produce_next_step() {
        OrderedStep::Poll(h) => {
            assert_eq!(h, a);
            m.finish_poll(h, OrderedOutcome::StillPending);
        }
        _ => panic!("expected to poll A"),
    }
    match m.produce_next_step() {
        OrderedStep::Poll(h) => {
            assert_eq!(h, b);
            m.finish_poll(h, OrderedOutcome::Completed("B"));
        }
        _ => panic!("expected to poll B"),
    }
    match m.produce_next_step() {
        OrderedStep::Poll(h) => {
            assert_eq!(h, c);
            m.finish_poll(h, OrderedOutcome::StillPending);
        }
        _ => panic!("expected to poll C"),
    }
    // B's value waits: A has not completed yet.
    assert!(matches!(m.produce_next_step(), OrderedStep::Pending));

    // A completes second.
    m.fire_wake(a);
    match m.produce_next_step() {
        OrderedStep::Poll(h) => {
            assert_eq!(h, a);
            m.finish_poll(h, OrderedOutcome::Completed("A"));
        }
        _ => panic!("expected to poll A again"),
    }
    // Now A is released first, then the held B.
    assert!(matches!(m.produce_next_step(), OrderedStep::Value("A")));
    assert!(matches!(m.produce_next_step(), OrderedStep::Value("B")));
    assert!(matches!(m.produce_next_step(), OrderedStep::Pending));

    // C completes last and is released last.
    m.fire_wake(c);
    match m.produce_next_step() {
        OrderedStep::Poll(h) => {
            assert_eq!(h, c);
            m.finish_poll(h, OrderedOutcome::Completed("C"));
        }
        _ => panic!("expected to poll C again"),
    }
    assert!(matches!(m.produce_next_step(), OrderedStep::Value("C")));
    assert!(matches!(m.produce_next_step(), OrderedStep::Exhausted));
}

#[test]
fn ordered_wake_after_completion_is_harmless() {
    let mut m: OrderedMultiplexer<u64> = OrderedMultiplexer::new();
    let s0 = m.insert();
    match m.produce_next_step() {
        OrderedStep::Poll(h) => m.finish_poll(h, OrderedOutcome::Completed(5)),
        _ => panic!("expected a poll"),
    }
    // The computation is done; late wakes must change nothing.
    m.fire_wake(s0);
    m.fire_wake(s0);
    assert!(matches!(m.produce_next_step(), OrderedStep::Value(5)));
    assert!(matches!(m.produce_next_step(), OrderedStep::Exhausted));
}

#[test]
fn ordered_len_tracks_in_flight_computations() {
    let mut m: OrderedMultiplexer<u64> = OrderedMultiplexer::new();
    assert!(m.is_empty());
    m.insert();
    m.insert();
    assert_eq!(m.len(), 2);
    match m.produce_next_step() {
        OrderedStep::Poll(h) => m.finish_poll(h, OrderedOutcome::Completed(11)),
        _ => panic!("expected a poll"),
    }
    assert_eq!(m.len(), 1);
    assert!(!m.is_empty());
}
