use bionic_graph::neuron::learning::FiringHistory;

#[test]
fn test_firing_history() {
    let mut hist = FiringHistory::new(3);
    hist.record_tick(&[1, 2]);
    hist.record_tick(&[2, 3]);
    assert!(hist.fired_recently(1));
    assert!(hist.fired_recently(2));
    assert!(hist.fired_recently(3));

    hist.record_tick(&[4]);
    // Now tick 0's firing [1,2] falls out of window
    assert!(!hist.fired_recently(1));
    assert!(hist.fired_recently(4));
}

#[test]
fn history_remembers_only_the_last_window_minus_one_ticks() {
    let mut hist = FiringHistory::new(4);
    for t in 0..10u64 {
        hist.record_tick(&[t]);
    }
    // Ticks 7, 8 and 9 are kept; 0..=6 are forgotten.
    for t in 0..7u64 {
        assert!(!hist.fired_recently(t));
    }
    for t in 7..10u64 {
        assert!(hist.fired_recently(t));
    }
    let recent = hist.recent_firings();
    assert_eq!(recent.len(), 3);
}

#[test]
fn window_of_one_keeps_the_current_tick() {
    let mut hist = FiringHistory::new(1);
    hist.record_tick(&[5]);
    assert!(hist.fired_recently(5));
    hist.record_tick(&[6]);
    assert!(!hist.fired_recently(5));
    assert!(hist.fired_recently(6));

    let mut none = FiringHistory::new(0);
    none.record_tick(&[5]);
    assert!(!none.fired_recently(5));
}
