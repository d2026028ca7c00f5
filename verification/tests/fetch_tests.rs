use bo_cc::fetch::{FetchDecision, Pacer, INITIAL_WAIT_S, MAX_WAIT_S};

#[test]
fn backoff_doubles_and_resets() {
    let mut p = Pacer::new();
    assert_eq!(p.current_wait_s, INITIAL_WAIT_S);
    // three server errors, then success: the stub-origin scenario
    assert_eq!(p.on_status(503), FetchDecision::Retry);
    assert_eq!(p.current_wait_s, 2 * INITIAL_WAIT_S);
    assert_eq!(p.on_status(503), FetchDecision::Retry);
    assert_eq!(p.current_wait_s, 4 * INITIAL_WAIT_S);
    assert_eq!(p.on_status(503), FetchDecision::Retry);
    assert_eq!(p.current_wait_s, 8 * INITIAL_WAIT_S);
    // the three imposed waits alone already cover the required delay
    assert!(2 * INITIAL_WAIT_S + 4 * INITIAL_WAIT_S + 8 * INITIAL_WAIT_S
        >= INITIAL_WAIT_S * (1 + 2 + 4));
    assert_eq!(p.on_status(200), FetchDecision::Deliver);
    assert_eq!(p.current_wait_s, INITIAL_WAIT_S);
}

#[test]
fn backoff_is_capped() {
    let mut p = Pacer::new();
    for _ in 0..20 {
        assert_eq!(p.on_status(500), FetchDecision::Retry);
        assert!(p.current_wait_s <= MAX_WAIT_S);
    }
    assert_eq!(p.current_wait_s, MAX_WAIT_S);
}

#[test]
fn client_errors_are_delivered_unchanged() {
    let mut p = Pacer::new();
    assert_eq!(p.on_status(503), FetchDecision::Retry);
    let w = p.current_wait_s;
    assert_eq!(p.on_status(404), FetchDecision::Deliver);
    assert_eq!(p.current_wait_s, w);
    assert_eq!(p.on_status(301), FetchDecision::Deliver);
    assert_eq!(p.current_wait_s, w);
}

#[test]
fn spacing_is_enforced() {
    let mut p = Pacer::new();
    p.note_request(100);
    assert!(!p.ready(100));
    assert!(!p.ready(100 + INITIAL_WAIT_S));
    assert!(p.ready(100 + INITIAL_WAIT_S + 1));
    // a clock that moved backwards never reports ready
    assert!(!p.ready(99));
}
