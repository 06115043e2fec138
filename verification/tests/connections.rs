use spiking_network::connections::{InputConnection, Synapse, MAX_DELAY, MIN_DELAY};

fn trainable(delay: u32, pre_window: i64, post_window: i64) -> Synapse {
    Synapse::new(0, 0, 1, 50, delay, pre_window, post_window, true, false, false, false)
}

#[test]
fn input_connection_delivers_once() {
    let mut c = InputConnection::new(3, 1, 2, 300);
    assert_eq!(c.get_spike(0), 0);
    c.add_spike();
    assert!(c.spike);
    assert_eq!(c.get_spike(1), 300);
    assert!(!c.spike);
    assert_eq!(c.get_spike(2), 0);
}

#[test]
fn input_connection_holds_one_spike() {
    let mut c = InputConnection::new(0, 0, 0, 7);
    c.add_spike();
    c.add_spike();
    assert_eq!(c.get_spike(0), 7);
    assert_eq!(c.get_spike(0), 0);
}

#[test]
fn synapse_spike_arrives_after_delay() {
    let mut s = trainable(15, -100, 70);
    s.add_spike(100);
    assert_eq!(s.get_spikes(114), 0);
    assert_eq!(s.spikes, vec![100]);
    assert_eq!(s.get_spikes(115), 50);
    assert!(s.spikes.is_empty());
    assert_eq!(s.get_spikes(115), 0);
    assert_eq!(s.spike_history, vec![100]);
}

#[test]
fn synapse_collects_first_matching_spike_only() {
    let mut s = trainable(5, -100, 70);
    s.add_spike(10);
    s.add_spike(20);
    s.add_spike(20);
    assert_eq!(s.get_spikes(25), 50);
    assert_eq!(s.spikes, vec![10, 20]);
    assert_eq!(s.get_spikes(25), 50);
    assert_eq!(s.spikes, vec![10]);
    assert_eq!(s.get_spikes(25), 0);
    assert_eq!(s.get_spikes(15), 50);
    assert!(s.spikes.is_empty());
}

#[test]
fn synapse_history_most_recent_first() {
    let mut s = trainable(5, -100, 70);
    s.add_spike(1);
    s.add_spike(2);
    s.add_spike(3);
    assert_eq!(s.spike_history, vec![3, 2, 1]);
    assert_eq!(s.spikes, vec![1, 2, 3]);
}

#[test]
fn arrival_windows_split_pre_and_post() {
    let mut s = trainable(10, 50, -40);
    s.add_spike(60);
    s.add_spike(95);
    s.add_spike(100);
    let w = s.get_avg_arrival_t(105);
    assert_eq!(w.pre, vec![5]);
    assert_eq!(w.post, vec![-35]);
    assert!(!w.needs_growth);
    assert_eq!(s.arrival_sum, 5);
    assert_eq!(s.arrival_count, 1);
    assert_eq!(s.delay, 10);
}

#[test]
fn arrival_scan_stops_beyond_pre_window() {
    // The feed-forward windows: an arrival later than 10 ms before the
    // post-synaptic spike ends the scan, most recent spike first.
    let mut s = trainable(10, -100, 70);
    s.add_spike(0);
    let w = s.get_avg_arrival_t(200);
    assert_eq!(w.pre, vec![-190]);
    assert!(w.post.is_empty());
    assert_eq!(s.arrival_sum, -190);
    assert_eq!(s.arrival_count, 1);
    s.add_spike(195);
    let w = s.get_avg_arrival_t(200);
    assert!(w.pre.is_empty());
    assert!(w.post.is_empty());
    assert!(w.needs_growth);
    assert_eq!(s.arrival_sum, 0);
    assert_eq!(s.arrival_count, 0);
}

#[test]
fn untrainable_synapse_records_nothing() {
    let mut s = Synapse::new(0, 0, 1, 50, 10, 50, -40, false, false, false, false);
    s.add_spike(100);
    let w = s.get_avg_arrival_t(105);
    assert!(w.pre.is_empty());
    assert!(w.post.is_empty());
    assert!(!w.needs_growth);
    assert_eq!(s.arrival_count, 0);
}

#[test]
fn delay_shift_is_bounded() {
    let mut s = trainable(5, -100, 70);
    s.f_func(-30);
    assert_eq!(s.delay, MIN_DELAY);
    let mut s = trainable(5, -100, 70);
    s.f_func(500);
    assert_eq!(s.delay, 5 + MAX_DELAY);
    let mut s = trainable(50, -100, 70);
    s.f_func(-20);
    assert_eq!(s.delay, 30);
    s.f_func(0);
    assert_eq!(s.delay, 30);
}

#[test]
fn delay_growth_is_capped() {
    let mut s = trainable(190, -100, 70);
    s.g_func(30);
    assert_eq!(s.delay, MAX_DELAY);
    let mut s = trainable(10, -100, 70);
    s.g_func(15);
    assert_eq!(s.delay, 25);
    s.g_func(u32::MAX);
    assert_eq!(s.delay, MAX_DELAY);
}

#[test]
fn delay_history_is_reachable() {
    let mut s = trainable(10, -100, 70);
    assert!(s.get_spike_history().is_empty());
    s.get_spike_history().push((3, 12));
    assert_eq!(s.delay_history, vec![(3, 12)]);
}

#[test]
fn larger_shift_leaves_longer_delay() {
    let mut delays = Vec::new();
    for shift in [-300i64, -20, -1, 0, 5, 150, 400] {
        let mut s = trainable(50, -100, 70);
        s.f_func(shift);
        delays.push(s.delay);
    }
    assert_eq!(delays, vec![MIN_DELAY, 30, 49, 50, 55, 200, 250]);
    for w in delays.windows(2) {
        assert!(w[0] <= w[1]);
    }
}

#[test]
fn larger_growth_leaves_longer_delay() {
    let mut delays = Vec::new();
    for growth in [0u32, 1, 100, 149, 150, 500] {
        let mut s = trainable(50, -100, 70);
        s.g_func(growth);
        delays.push(s.delay);
    }
    assert_eq!(delays, vec![50, 51, 150, 199, MAX_DELAY, MAX_DELAY]);
    for w in delays.windows(2) {
        assert!(w[0] <= w[1]);
    }
}
