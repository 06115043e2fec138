use spiking_network::population::{Population, FF_POST_WINDOW, FF_PRE_WINDOW};

fn two_neurons() -> Population {
    let mut pop = Population::new(String::from("pair"));
    pop.create_neuron();
    pop.create_neuron();
    pop
}

#[test]
fn new_population_is_empty() {
    let mut pop = Population::new(String::from("x"));
    assert_eq!(pop.get_size(), 0);
    assert_eq!(pop.time(), 0);
    assert_eq!(pop.dir(), "output_data/");
    assert!(pop.parameters().is_none());
    assert_eq!(pop.score, 0);
}

#[test]
fn neurons_are_numbered_in_order() {
    let mut pop = Population::new(String::from("x"));
    pop.create_neuron();
    pop.create_neuron();
    pop.create_neuron();
    assert_eq!(pop.get_size(), 3);
    let ids: Vec<usize> = pop.neurons().iter().map(|n| n.id).collect();
    assert_eq!(ids, vec![0, 1, 2]);
}

#[test]
fn synapse_is_listed_by_both_neurons() {
    let mut pop = two_neurons();
    pop.create_synapse(0, 1, 50, 3, -100, 70, true, false, false, 100);
    pop.create_synapse(1, 1, 20, 4, -100, 70, true, false, true, 0);
    let s = &pop.synapses()[0];
    assert_eq!((s.id, s.pre_neuron, s.post_neuron, s.weight, s.delay), (0, 0, 1, 50, 3));
    assert!(s.declining_learning_rate);
    assert!(!pop.synapses()[1].declining_learning_rate);
    assert!(pop.synapses()[1].partial_delay_learning);
    assert_eq!(pop.neurons()[0].post_synapses, vec![0]);
    assert!(pop.neurons()[0].pre_synapses.is_empty());
    assert_eq!(pop.neurons()[1].pre_synapses, vec![0, 1]);
    assert_eq!(pop.neurons()[1].post_synapses, vec![1]);
}

#[test]
fn input_gets_one_connection_per_target() {
    let mut pop = two_neurons();
    pop.create_input(vec![0, 1], 200, vec![3], 300);
    pop.create_input(vec![1], 900, vec![], 10);
    let inputs = pop.inputs();
    assert_eq!(inputs.len(), 2);
    assert_eq!(inputs[0].id, 0);
    assert_eq!(inputs[0].p, 200);
    assert_eq!(inputs[0].spike_times, vec![3]);
    let c: Vec<(usize, usize, usize, i32)> =
        inputs[0].input_connections.iter().map(|c| (c.id, c.input_i, c.neuron_j, c.weight)).collect();
    assert_eq!(c, vec![(0, 0, 0, 300), (1, 0, 1, 300)]);
    assert_eq!(inputs[1].input_connections[0].id, 2);
    assert_eq!(inputs[1].input_connections[0].input_i, 1);
}

#[test]
fn feed_forward_connects_consecutive_layers() {
    let mut pop = Population::new(String::from("ff"));
    pop.create_feed_forward(3, 2, 1000, 100, 1000, (10, 10), false, 1000, (20, 20), 1);
    assert_eq!(pop.get_size(), 6);
    let pairs: Vec<(usize, usize)> = pop.synapses().iter().map(|s| (s.pre_neuron, s.post_neuron)).collect();
    assert_eq!(pairs, vec![(0, 2), (0, 3), (1, 2), (1, 3), (2, 4), (2, 5), (3, 4), (3, 5)]);
    for s in pop.synapses() {
        assert_eq!(s.weight, 10);
        assert_eq!(s.delay, 20);
        assert_eq!(s.pre_window, FF_PRE_WINDOW);
        assert_eq!(s.post_window, FF_POST_WINDOW);
        assert!(s.delay_trainable);
        assert!(!s.weight_trainable);
    }
    let params = pop.parameters().as_ref().unwrap();
    assert_eq!(params.name, "ff");
    assert_eq!(params.topology, "ff");
    assert_eq!(params.n, 6);
    assert_eq!(params.l, Some(3));
    assert_eq!(params.p, Some(1000));
}

#[test]
fn feed_forward_without_probability_has_no_synapses() {
    let mut pop = Population::new(String::from("ff"));
    pop.create_feed_forward(4, 3, 0, 100, 1000, (30, 10), false, 1000, (20, 5), 1);
    assert_eq!(pop.get_size(), 12);
    assert!(pop.synapses().is_empty());
}

#[test]
fn feed_forward_draws_within_spans() {
    let mut pop = Population::new(String::from("ff"));
    pop.create_feed_forward(2, 10, 1000, 100, 1000, (10, 100), false, 1000, (10, 200), 1);
    assert_eq!(pop.synapses().len(), 100);
    let mut delays = std::collections::HashSet::new();
    for s in pop.synapses() {
        assert!(10 <= s.weight && s.weight <= 100);
        assert!(10 <= s.delay && s.delay <= 200);
        delays.insert(s.delay);
    }
    assert!(delays.len() > 1);
}

#[test]
fn single_layer_has_no_synapses() {
    let mut pop = Population::new(String::from("one"));
    pop.create_feed_forward(1, 5, 1000, 100, 1000, (10, 10), false, 1000, (20, 20), 1);
    assert_eq!(pop.get_size(), 5);
    assert!(pop.synapses().is_empty());
}

#[test]
fn fired_spike_reaches_target_after_delay() {
    let mut pop = two_neurons();
    pop.create_synapse(0, 1, 50, 3, -100, 70, true, false, false, 0);
    let windows = pop.fire(0);
    assert!(windows.is_empty());
    assert_eq!(pop.neurons()[0].spikes, vec![0]);
    assert_eq!(pop.neuron_input(1), 0);
    pop.advance();
    pop.advance();
    assert_eq!(pop.neuron_input(1), 0);
    pop.advance();
    assert_eq!(pop.time(), 3);
    assert_eq!(pop.neuron_input(1), 50);
    assert_eq!(pop.neuron_input(1), 0);
}

#[test]
fn fire_records_arrivals_of_incoming_synapses() {
    let mut pop = two_neurons();
    pop.create_synapse(0, 1, 50, 10, -100, 70, true, false, false, 0);
    pop.fire(0);
    for _ in 0..200 {
        pop.advance();
    }
    let windows = pop.fire(1);
    assert_eq!(windows.len(), 1);
    assert_eq!(windows[0].pre, vec![-190]);
    assert!(!windows[0].needs_growth);
    let (early, late) = pop.split_by_arrival(1);
    assert_eq!(early, vec![0]);
    assert!(late.is_empty());
    pop.train_synapses(1, &vec![-4]);
    assert_eq!(pop.synapses()[0].delay, 6);
}

#[test]
fn idle_trainable_synapse_grows() {
    let mut pop = two_neurons();
    pop.create_synapse(0, 1, 50, 10, -100, 70, true, false, false, 0);
    let windows = pop.fire(1);
    assert!(windows[0].needs_growth);
    let (early, late) = pop.split_by_arrival(1);
    assert!(early.is_empty() && late.is_empty());
    pop.grow_delays(1, &vec![25]);
    assert_eq!(pop.synapses()[0].delay, 35);
    pop.train_synapses(1, &vec![100]);
    assert_eq!(pop.synapses()[0].delay, 35);
}

#[test]
fn inputs_step_together() {
    let mut pop = two_neurons();
    pop.create_input(vec![0], 0, vec![0], 300);
    pop.create_input(vec![1], 0, vec![1], 300);
    pop.update_inputs();
    assert_eq!(pop.inputs()[0].spikes, vec![0]);
    assert!(pop.inputs()[1].spikes.is_empty());
    assert!(pop.inputs()[0].input_connections[0].spike);
}

#[test]
fn score_counts_all_spikes() {
    let mut pop = two_neurons();
    pop.fire(0);
    pop.advance();
    pop.fire(0);
    pop.fire(1);
    assert_eq!(pop.count_spikes(), 3);
    assert_eq!(pop.score, 3);
}

#[test]
fn output_dir_uses_name_or_stamp() {
    let mut pop = Population::new(String::from("ind3"));
    pop.set_output_dir("2024-01-01 10.00.00");
    assert_eq!(pop.dir(), "output_data/ind3");
    let mut anon = Population::new(String::new());
    anon.set_output_dir("2024-01-01 10.00.00");
    assert_eq!(anon.dir(), "output_data/2024-01-01 10.00.00");
}

#[test]
fn generation_tag_is_appended() {
    let mut pop = Population::new(String::from("ind7"));
    pop.tag_generation(12);
    assert_eq!(pop.name, "ind7_gen_12");
}

#[test]
fn unbuilt_topologies_do_nothing() {
    Population::create_scale_free();
    Population::create_small_world();
    Population::create_reservoir();
}

#[test]
fn input_connection_spike_reaches_attached_neuron_once() {
    let mut pop = two_neurons();
    pop.create_input(vec![1], 0, vec![0], 30);
    pop.attach_input_connection(1, 0, 0);
    pop.attach_input_connection(1, 0, 0);
    assert_eq!(pop.neurons()[1].input_connections, vec![(0, 0)]);
    assert!(pop.neurons()[0].input_connections.is_empty());
    pop.update_inputs();
    assert!(pop.inputs()[0].input_connections[0].spike);
    assert_eq!(pop.neuron_input(0), 0);
    assert!(pop.inputs()[0].input_connections[0].spike);
    assert_eq!(pop.neuron_input(1), 30);
    assert!(!pop.inputs()[0].input_connections[0].spike);
    assert_eq!(pop.neuron_input(1), 0);
}

#[test]
fn neuron_input_adds_connections_and_synapses() {
    let mut pop = two_neurons();
    pop.create_synapse(0, 1, 50, 1, -100, 70, true, false, false, 0);
    pop.create_input(vec![1, 1], 0, vec![1], 30);
    pop.attach_input_connection(1, 0, 1);
    pop.attach_input_connection(1, 0, 0);
    pop.fire(0);
    pop.advance();
    pop.update_inputs();
    assert_eq!(pop.neuron_input(1), 110);
    assert_eq!(pop.neuron_input(1), 0);
}

#[test]
fn feed_forward_follows_its_draws() {
    let mut pop = Population::new(String::from("drawn"));
    let draws = vec![(0, 15, 20), (999, 10, 10), (5, 30, 40), (500, 10, 10)];
    pop.create_feed_forward_with_draws(2, 2, 500, 0, 1000, (10, 50), false, 1000, (10, 30), 1, &draws);
    assert_eq!(pop.get_size(), 4);
    let syns: Vec<(usize, usize, u32, i32)> =
        pop.synapses().iter().map(|s| (s.pre_neuron, s.post_neuron, s.delay, s.weight)).collect();
    assert_eq!(syns, vec![(0, 2, 15, 20), (1, 2, 30, 40)]);
    for s in pop.synapses() {
        assert_eq!((s.pre_window, s.post_window), (FF_PRE_WINDOW, FF_POST_WINDOW));
        assert!(s.delay_trainable && !s.weight_trainable);
    }
}

#[test]
fn feed_forward_draws_fix_every_pair() {
    let mut pop = Population::new(String::from("all"));
    let draws: Vec<(u64, u32, i32)> = (0..8).map(|k| (k as u64, 10 + k as u32, 100 - k as i32)).collect();
    pop.create_feed_forward_with_draws(3, 2, 1000, 0, 1000, (0, 100), false, 1000, (10, 20), 1, &draws);
    let syns: Vec<(usize, usize, u32, i32)> =
        pop.synapses().iter().map(|s| (s.pre_neuron, s.post_neuron, s.delay, s.weight)).collect();
    assert_eq!(
        syns,
        vec![
            (0, 2, 10, 100),
            (0, 3, 11, 99),
            (1, 2, 12, 98),
            (1, 3, 13, 97),
            (2, 4, 14, 96),
            (2, 5, 15, 95),
            (3, 4, 16, 94),
            (3, 5, 17, 93),
        ]
    );
}

#[test]
fn learning_grows_then_shifts() {
    let mut idle = two_neurons();
    idle.create_synapse(0, 1, 50, 10, -100, 70, true, false, false, 0);
    let windows = idle.fire(1);
    assert!(windows[0].needs_growth);
    idle.learn(1, &vec![25], &vec![100]);
    assert_eq!(idle.synapses()[0].delay, 35);

    let mut early = two_neurons();
    early.create_synapse(0, 1, 50, 10, -100, 70, true, false, false, 0);
    early.fire(0);
    for _ in 0..200 {
        early.advance();
    }
    let windows = early.fire(1);
    assert!(!windows[0].needs_growth);
    assert_eq!(early.synapses()[0].arrival_sum, -190);
    early.learn(1, &vec![0], &vec![-4]);
    assert_eq!(early.synapses()[0].delay, 6);
}

#[test]
fn feed_forward_neurons_start_clean() {
    let mut pop = two_neurons();
    pop.fire(0);
    pop.create_feed_forward(2, 2, 1000, 0, 1000, (10, 10), false, 1000, (10, 10), 1);
    assert_eq!(pop.get_size(), 6);
    assert_eq!(pop.neurons()[0].spikes, vec![0]);
    for n in &pop.neurons()[2..] {
        assert!(n.spikes.is_empty());
        assert!(n.input_connections.is_empty());
    }
}
