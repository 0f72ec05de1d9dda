use git_cuda_agent::feedback::FeedbackLoop;

#[test]
fn record_appends_until_window_is_full() {
    let mut fl = FeedbackLoop::new(3, 0.01f64.to_bits());
    for i in 0..3u64 {
        fl.record("q", "r", (0.5f64 + i as f64).to_bits(), 0.9f64.to_bits());
    }
    assert_eq!(fl.experiences.len(), 3);
    assert_eq!(fl.experiences[0].query, "q");
    assert_eq!(fl.experiences[0].response, "r");
    assert_eq!(f64::from_bits(fl.experiences[2].score_bits), 2.5);
    assert_eq!(fl.experiences[2].timestamp_us, 0);
    assert_eq!(f64::from_bits(fl.learning_rate_bits), 0.01);
}

#[test]
fn record_keeps_the_latest_window() {
    let mut fl = FeedbackLoop::new(2, 0);
    for i in 0..5u64 {
        fl.record(&format!("q{}", i), "r", i, 0);
    }
    assert_eq!(fl.experiences.len(), 2);
    assert_eq!(fl.experiences[0].query, "q3");
    assert_eq!(fl.experiences[1].query, "q4");
    assert_eq!(fl.window_size, 2);
}

#[test]
fn zero_window_keeps_nothing() {
    let mut fl = FeedbackLoop::new(0, 0);
    fl.record("q", "r", 1, 1);
    assert!(fl.experiences.is_empty());
}
