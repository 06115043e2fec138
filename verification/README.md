# spiking_network

A library for evolving networks of spiking neurons whose synaptic delays
learn, with the network logic verified by Verus.

## Layout

- `src/` — the verified library:
  - `connections.rs`: synapses (spike delivery after a delay, arrival
    windows, delay shift and growth) and input connections;
  - `input.rs`: input generators firing at scheduled times or at random;
  - `nodes.rs`: neurons as the network sees them (synapse lists, spikes);
  - `population.rs`: a population, its well-formedness, the feed-forward
    builder, and the per-step operations (collecting input, firing,
    recording arrivals, training delays, the clock and the score);
  - `parameters.rs`: the parameters of a network;
  - `evolution.rs`: the initial individuals, building a network from its
    parameters, keeping the best of a generation and breeding the next;
  - `plotting.rs`: delay traces sampled at every step;
  - `chance.rs`: random draws (the `rand` crate).
- `app/` — the program: membrane dynamics and the floating-point learning
  rules, the simulation loop, output files, plots, and the generation loop.
- `tests/` — tests of the library.

## Units

The library counts in integers. Time and delays are counted in ticks of
0.1 ms, the simulation step; weights in tenths; probabilities and learning
rates in thousandths. The program converts to and from milliseconds.
