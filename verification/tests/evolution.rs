use spiking_network::evolution::{
    create_network, crossover, get_individuals, individual_parameters, name_individual, next_generation,
    select_best, sort_entries, stores_data,
};
use spiking_network::parameters::Parameters;

fn ff(name: &str, n: i32, p: u32, l: i32) -> Parameters {
    Parameters::new_FeedForward(String::from(name), n, p, l, 1000, 1000, (10, 100), false, 1000, (10, 200), 1)
}

#[test]
fn individual_names_are_decimal() {
    assert_eq!(name_individual(0), "ind0");
    assert_eq!(name_individual(21), "ind21");
    assert_eq!(name_individual(12345), "ind12345");
}

#[test]
fn initial_parameters_match_the_table() {
    let params = individual_parameters();
    assert_eq!(params.len(), 32);
    let p6 = &params[5];
    assert_eq!(p6.name, "ind6");
    assert_eq!(p6.topology, "ff");
    assert_eq!((p6.n, p6.p, p6.l), (256, Some(600), Some(1)));
    assert_eq!(p6.w_span, (10, 200));
    assert_eq!(p6.d_span, (10, 200));
    let p10 = &params[9];
    assert_eq!((p10.p, p10.l, p10.declining_learning_rate), (Some(1000), Some(5), 300));
    assert_eq!(p10.w_span, (150, 300));
    assert_eq!(p10.d_learning_p, 100);
    let p31 = &params[30];
    assert_eq!(p31.name, "ind31");
    assert!(p31.partial_d);
    assert_eq!((p31.p, p31.l), (Some(100), Some(1)));
    assert!(!params[29].partial_d);
    assert_eq!(params[21].w_span, (200, 200));
    assert_eq!(params[21].d_learning_p, 800);
}

#[test]
fn network_has_inputs_for_the_first_neurons() {
    let pop = create_network(ff("ind6", 256, 100, 1));
    assert_eq!(pop.neurons().len(), 256);
    assert!(pop.synapses().is_empty());
    assert_eq!(pop.inputs().len(), 256);
    for (k, inp) in pop.inputs().iter().enumerate() {
        assert_eq!(inp.id, k);
        assert_eq!(inp.p, 900);
        assert!(inp.spike_times.is_empty());
        assert_eq!(inp.input_connections.len(), 1);
        assert_eq!(inp.input_connections[0].neuron_j, k);
        assert_eq!(inp.input_connections[0].weight, 300);
    }
    for n in pop.neurons() {
        assert!(n.spikes.is_empty());
        assert!(n.input_connections.is_empty());
    }
    let other = create_network(ff("ind7", 256, 0, 2));
    assert_eq!(other.inputs()[0].p, 200);
    assert_eq!(other.neurons().len(), 256);
}

#[test]
fn layer_width_rounds_down() {
    let pop = create_network(ff("ind5", 256, 1000, 5));
    assert_eq!(pop.neurons().len(), 255);
    assert_eq!(pop.synapses().len(), 4 * 51 * 51);
    assert_eq!(pop.parameters().as_ref().unwrap().n, 255);
}

#[test]
fn negative_layer_count_builds_neurons_without_synapses() {
    let pop = create_network(ff("neg", 256, 1000, -2));
    assert_eq!(pop.neurons().len(), 256);
    assert!(pop.synapses().is_empty());
    assert_eq!(pop.inputs().len(), 256);
    assert_eq!(pop.parameters().as_ref().unwrap().n, 256);
    assert_eq!(pop.parameters().as_ref().unwrap().l, Some(-2));
}

#[test]
fn layer_width_rounds_toward_zero() {
    let pop = create_network(ff("odd", 7, 1000, -2));
    assert_eq!(pop.neurons().len(), 6);
    assert!(pop.synapses().is_empty());
    assert_eq!(pop.parameters().as_ref().unwrap().n, 6);
    let neg = create_network(ff("negn", -7, 1000, -2));
    assert!(neg.neurons().is_empty());
    assert_eq!(neg.parameters().as_ref().unwrap().n, -6);
    let none = create_network(ff("negl", -7, 1000, 2));
    assert!(none.neurons().is_empty());
    assert!(none.synapses().is_empty());
    assert_eq!(none.parameters().as_ref().unwrap().n, -6);
}

#[test]
fn initial_individuals_are_built() {
    let pops = get_individuals();
    assert_eq!(pops.len(), 32);
    for (k, pop) in pops.iter().enumerate() {
        assert_eq!(pop.name, format!("ind{}", k + 1));
        assert_eq!(pop.inputs().len(), 256);
    }
    assert_eq!(pops[0].neurons().len(), 256);
    assert_eq!(pops[4].neurons().len(), 255);
}

#[test]
fn child_takes_each_gene_from_a_parent() {
    let a = Parameters::new_FeedForward(String::from("a"), 100, 100, 1, 100, 100, (10, 20), false, 100, (10, 20), 1);
    let b = Parameters::new_FeedForward(String::from("b"), 200, 900, 4, 900, 900, (30, 40), true, 900, (30, 40), 2);
    let mut from_b = false;
    for id in 0..64 {
        let c = crossover(&a, &b, id);
        assert_eq!(c.name, format!("ind{}", id));
        assert_eq!(c.topology, "ff");
        assert!(c.n == a.n || c.n == b.n);
        assert!(c.p == a.p || c.p == b.p);
        assert!(c.l == a.l || c.l == b.l);
        assert!(c.w_span == a.w_span || c.w_span == b.w_span);
        assert!(c.d_span == a.d_span || c.d_span == b.d_span);
        assert!(c.seed == a.seed || c.seed == b.seed);
        assert!(c.partial_d == a.partial_d || c.partial_d == b.partial_d);
        from_b = from_b || c.n == b.n;
    }
    assert!(from_b);
}

#[test]
fn selection_keeps_the_highest_sorted() {
    let results: Vec<(u64, Option<u32>)> = vec![(5, Some(0)), (3, Some(1)), (9, Some(2)), (1, Some(3)), (7, Some(4))];
    let best = select_best(results, 3);
    assert_eq!(best, vec![(5, Some(0)), (7, Some(4)), (9, Some(2))]);
}

#[test]
fn selection_with_room_keeps_all() {
    let results: Vec<(u64, u8)> = vec![(4, 0), (2, 1), (4, 2)];
    assert_eq!(select_best(results, 8), vec![(2, 1), (4, 0), (4, 2)]);
}

#[test]
fn selection_breaks_ties_by_arrival() {
    // An equal score does not displace; a higher one drops the first of the
    // lowest.
    let results: Vec<(u64, u8)> = vec![(2, 0), (2, 1), (2, 2), (3, 3)];
    assert_eq!(select_best(results, 2), vec![(2, 1), (3, 3)]);
}

#[test]
fn selection_without_room_is_empty() {
    let results: Vec<(u64, u8)> = vec![(2, 0), (5, 1)];
    assert!(select_best(results, 0).is_empty());
}

#[test]
fn sorting_is_stable() {
    let v: Vec<(u64, char)> = vec![(3, 'a'), (1, 'b'), (3, 'c'), (2, 'd'), (1, 'e')];
    assert_eq!(sort_entries(v), vec![(1, 'b'), (1, 'e'), (2, 'd'), (3, 'a'), (3, 'c')]);
}

#[test]
fn next_generation_rebuilds_top_and_breeds_pairs() {
    let best: Vec<(u64, Option<Parameters>)> = vec![
        (1, Some(ff("ind1", 20, 100, 2))),
        (2, Some(ff("ind2", 20, 200, 2))),
        (3, Some(ff("ind3", 20, 300, 2))),
    ];
    let (pops, next_id) = next_generation(&best, 2, 21);
    assert_eq!(pops.len(), 2 + 3);
    assert_eq!(next_id, 24);
    let names: Vec<String> = pops.iter().map(|p| p.name.clone()).collect();
    assert_eq!(names, vec!["ind2", "ind3", "ind21", "ind22", "ind23"]);
    for pop in &pops {
        assert_eq!(pop.inputs().len(), 256);
        assert_eq!(pop.neurons().len(), 20);
    }
}

#[test]
fn only_feed_forward_pairs_breed() {
    let sw = Parameters::new_SmallWorld(String::from("sw"), 10, 100, 2, 0, 0, (1, 1), false, 0, (1, 1), 1);
    let mut as_ff = sw.duplicate();
    as_ff.l = Some(2);
    let best: Vec<(u64, Option<Parameters>)> = vec![(1, Some(as_ff)), (2, Some(ff("ind2", 10, 100, 2)))];
    let (pops, next_id) = next_generation(&best, 0, 5);
    assert!(pops.is_empty());
    assert_eq!(next_id, 5);
}

#[test]
fn only_the_last_generation_stores_data() {
    assert!(stores_data(4, 5));
    assert!(!stores_data(3, 5));
    assert!(stores_data(0, 1));
    assert!(!stores_data(0, 0));
}

#[test]
fn unbred_individuals_need_no_parameters() {
    let sw = Parameters::new_SmallWorld(String::from("sw"), 10, 100, 2, 0, 0, (1, 1), false, 0, (1, 1), 1);
    let best: Vec<(u64, Option<Parameters>)> = vec![(1, Some(sw)), (2, None)];
    let (pops, next_id) = next_generation(&best, 0, 5);
    assert!(pops.is_empty());
    assert_eq!(next_id, 5);
    let alone: Vec<(u64, Option<Parameters>)> = vec![(1, None)];
    let (pops, next_id) = next_generation(&alone, 0, 9);
    assert!(pops.is_empty());
    assert_eq!(next_id, 9);
}
