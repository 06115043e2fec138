//! A population: neurons, the synapses between them, and the input
//! generators that feed them.
use vstd::prelude::*;
use crate::connections::{Synapse, SynapseView, InputConnection, ArrivalWindows, sum_of, as_ints};
use crate::input::{Input, InputView};
use crate::nodes::{Neuron, NeuronView};
use crate::parameters::{Parameters, ParametersView};
use crate::chance::{draw_delay, draw_weight, draw_below, happens_with_draw, uniform_below, PROBABILITY_SCALE};
use vstd::arithmetic::div_mod::lemma_fundamental_div_mod_converse;
use crate::evolution::{decimal, push_decimal};

verus! {

/// What a population holds, as mathematical values.
#[verifier::ext_equal]
pub struct PopulationView {
    pub t: u32,
    pub dir: Seq<char>,
    pub name: Seq<char>,
    pub neurons: Seq<NeuronView>,
    pub synapses: Seq<SynapseView>,
    pub inputs: Seq<InputView>,
    pub neuron_id: usize,
    pub synapse_id: usize,
    pub input_id: usize,
    pub input_connection_id: usize,
    pub parameters: Option<ParametersView>,
    pub score: u64,
}

/// A new population named `name`: empty, at time 0, writing under
/// "output_data/".
pub open spec fn fresh_population(name: Seq<char>) -> PopulationView {
    PopulationView {
        t: 0,
        dir: seq!['o', 'u', 't', 'p', 'u', 't', '_', 'd', 'a', 't', 'a', '/'],
        name,
        neurons: Seq::empty(),
        synapses: Seq::empty(),
        inputs: Seq::empty(),
        neuron_id: 0,
        synapse_id: 0,
        input_id: 0,
        input_connection_id: 0,
        parameters: None,
        score: 0,
    }
}

/// Every synapse that `list` names lies below `bound`, the list is in
/// increasing order, and so names each synapse once.
pub open spec fn increasing_below(list: Seq<usize>, bound: int) -> bool {
    &&& forall|k: int| 0 <= k < list.len() ==> #[trigger] list[k] < bound
    &&& forall|a: int, b: int| 0 <= a < b < list.len() ==> #[trigger] list[a] < #[trigger] list[b]
}

impl PopulationView {
    /// The outgoing list of neuron `i` names exactly the synapses that start
    /// at `i`, in increasing order.
    pub open spec fn outgoing_ok(self, i: int) -> bool {
        let post = self.neurons[i].post_synapses;
        &&& increasing_below(post, self.synapses.len() as int)
        &&& forall|k: int|
            0 <= k < post.len() ==> self.synapses[#[trigger] post[k] as int].pre_neuron == i
        &&& forall|s: int|
            0 <= s < self.synapses.len() && #[trigger] self.synapses[s].pre_neuron == i
                ==> post.contains(s as usize)
    }

    /// The incoming list of neuron `j` names exactly the synapses that end
    /// at `j`, in increasing order.
    pub open spec fn incoming_ok(self, j: int) -> bool {
        let pre = self.neurons[j].pre_synapses;
        &&& increasing_below(pre, self.synapses.len() as int)
        &&& forall|k: int|
            0 <= k < pre.len() ==> self.synapses[#[trigger] pre[k] as int].post_neuron == j
        &&& forall|s: int|
            0 <= s < self.synapses.len() && #[trigger] self.synapses[s].post_neuron == j
                ==> pre.contains(s as usize)
    }

    /// The population is well formed: ids are indices and the counters
    /// count what was created, synapses join existing neurons, and each
    /// neuron's lists name exactly its synapses.
    pub open spec fn wf(self) -> bool {
        &&& self.neuron_id == self.neurons.len()
        &&& self.synapse_id == self.synapses.len()
        &&& self.input_id == self.inputs.len()
        &&& forall|i: int| #![trigger self.neurons[i]] 0 <= i < self.neurons.len() ==> self.neurons[i].id == i
        &&& forall|s: int|
            #![trigger self.synapses[s]]
            0 <= s < self.synapses.len() ==> {
                &&& self.synapses[s].id == s
                &&& self.synapses[s].pre_neuron < self.neurons.len()
                &&& self.synapses[s].post_neuron < self.neurons.len()
            }
        &&& forall|k: int| #![trigger self.inputs[k]] 0 <= k < self.inputs.len() ==> self.inputs[k].id == k
        &&& forall|i: int| 0 <= i < self.neurons.len() ==> #[trigger] self.outgoing_ok(i)
        &&& forall|i: int| 0 <= i < self.neurons.len() ==> #[trigger] self.incoming_ok(i)
        &&& forall|i: int| 0 <= i < self.neurons.len() ==> #[trigger] self.input_refs_ok(i)
    }

    /// The input connections that neuron `i` collects are named once each,
    /// and each names a connection of an existing input generator.
    pub open spec fn input_refs_ok(self, i: int) -> bool {
        let refs = self.neurons[i].input_connections;
        &&& refs.no_duplicates()
        &&& forall|r: int|
            0 <= r < refs.len() ==> #[trigger] refs[r].0 < self.inputs.len() && refs[r].1
                < self.inputs[refs[r].0 as int].input_connections.len()
    }

    /// The population with one more neuron, with the next id.
    pub open spec fn add_neuron(self) -> PopulationView {
        PopulationView {
            neurons: self.neurons.push(
                NeuronView {
                    id: self.neuron_id,
                    pre_synapses: Seq::empty(),
                    post_synapses: Seq::empty(),
                    input_connections: Seq::empty(),
                    spikes: Seq::empty(),
                },
            ),
            neuron_id: (self.neuron_id + 1) as usize,
            ..self
        }
    }

    /// The population with one more input generator, with the next id, and
    /// a connection to each neuron of `targets`, numbered on from
    /// `input_connection_id`.
    pub open spec fn add_input(self, targets: Seq<usize>, p: u32, spike_times: Seq<u32>, w: i32) -> PopulationView {
        PopulationView {
            inputs: self.inputs.push(
                InputView {
                    id: self.input_id,
                    spikes: Seq::empty(),
                    spike_times,
                    p,
                    input_connections: Seq::new(
                        targets.len(),
                        |k: int|
                            InputConnection {
                                id: (self.input_connection_id + k) as usize,
                                input_i: self.input_id,
                                neuron_j: targets[k],
                                spike: false,
                                weight: w,
                            },
                    ),
                },
            ),
            input_id: (self.input_id + 1) as usize,
            input_connection_id: (self.input_connection_id + targets.len()) as usize,
            ..self
        }
    }

    /// The population with the synapse `syn` added: it gets the next id, and
    /// its neurons list it as outgoing and incoming.
    pub open spec fn add_synapse(self, syn: SynapseView) -> PopulationView {
        let s = self.synapses.len() as usize;
        let i = syn.pre_neuron as int;
        let j = syn.post_neuron as int;
        let ns1 = self.neurons.update(
            i,
            NeuronView { post_synapses: self.neurons[i].post_synapses.push(s), ..self.neurons[i] },
        );
        let ns2 = ns1.update(
            j,
            NeuronView { pre_synapses: ns1[j].pre_synapses.push(s), ..ns1[j] },
        );
        PopulationView {
            neurons: ns2,
            synapses: self.synapses.push(syn),
            synapse_id: (self.synapse_id + 1) as usize,
            ..self
        }
    }
}

/// Adding a synapse between existing neurons, with the next id, keeps a
/// population well formed.
proof fn lemma_add_synapse_wf(p: PopulationView, syn: SynapseView)
    requires
        p.wf(),
        syn.id == p.synapses.len(),
        syn.pre_neuron < p.neurons.len(),
        syn.post_neuron < p.neurons.len(),
        p.synapses.len() < usize::MAX,
    ensures
        p.add_synapse(syn).wf(),
{
    let q = p.add_synapse(syn);
    let s = p.synapses.len() as usize;
    assert forall|i: int| #![trigger q.neurons[i]] 0 <= i < q.neurons.len() implies q.neurons[i].id == i by {
        assert(p.neurons[i].id == i);
    }
    assert forall|s2: int|
        #![trigger q.synapses[s2]]
        0 <= s2 < q.synapses.len() implies {
            &&& q.synapses[s2].id == s2
            &&& q.synapses[s2].pre_neuron < q.neurons.len()
            &&& q.synapses[s2].post_neuron < q.neurons.len()
        } by {
        if s2 < p.synapses.len() {
            assert(p.synapses[s2].id == s2);
        }
    }
    assert forall|i: int| 0 <= i < q.neurons.len() implies #[trigger] q.outgoing_ok(i) by {
        assert(p.outgoing_ok(i));
        let post = q.neurons[i].post_synapses;
        if i == syn.pre_neuron {
            assert(post == p.neurons[i].post_synapses.push(s));
            assert forall|s2: int|
                0 <= s2 < q.synapses.len() && #[trigger] q.synapses[s2].pre_neuron == i
                implies post.contains(s2 as usize) by {
                if s2 < p.synapses.len() {
                    assert(p.synapses[s2].pre_neuron == i);
                    let k = choose|k: int| 0 <= k < p.neurons[i].post_synapses.len() && p.neurons[i].post_synapses[k] == s2 as usize;
                    assert(post[k] == s2 as usize);
                } else {
                    assert(post[post.len() - 1] == s);
                }
            }
        } else {
            assert(post == p.neurons[i].post_synapses);
            assert forall|s2: int|
                0 <= s2 < q.synapses.len() && #[trigger] q.synapses[s2].pre_neuron == i
                implies post.contains(s2 as usize) by {
                if s2 < p.synapses.len() {
                    assert(p.synapses[s2].pre_neuron == i);
                }
            }
        }
    }
    assert forall|j: int| 0 <= j < q.neurons.len() implies #[trigger] q.incoming_ok(j) by {
        assert(p.incoming_ok(j));
        let pre = q.neurons[j].pre_synapses;
        if j == syn.post_neuron {
            assert(pre == p.neurons[j].pre_synapses.push(s));
            assert forall|s2: int|
                0 <= s2 < q.synapses.len() && #[trigger] q.synapses[s2].post_neuron == j
                implies pre.contains(s2 as usize) by {
                if s2 < p.synapses.len() {
                    assert(p.synapses[s2].post_neuron == j);
                    let k = choose|k: int| 0 <= k < p.neurons[j].pre_synapses.len() && p.neurons[j].pre_synapses[k] == s2 as usize;
                    assert(pre[k] == s2 as usize);
                } else {
                    assert(pre[pre.len() - 1] == s);
                }
            }
        } else {
            assert(pre == p.neurons[j].pre_synapses);
            assert forall|s2: int|
                0 <= s2 < q.synapses.len() && #[trigger] q.synapses[s2].post_neuron == j
                implies pre.contains(s2 as usize) by {
                if s2 < p.synapses.len() {
                    assert(p.synapses[s2].post_neuron == j);
                }
            }
        }
    }
    assert forall|i: int| 0 <= i < q.neurons.len() implies #[trigger] q.input_refs_ok(i) by {
        assert(p.input_refs_ok(i));
        assert(q.neurons[i].input_connections == p.neurons[i].input_connections);
    }
}

/// The scan window of the feed-forward synapses, in ticks: -10 ms.
pub const FF_PRE_WINDOW: i64 = -100;

/// The late-arrival window of the feed-forward synapses, in ticks: 7 ms.
pub const FF_POST_WINDOW: i64 = 70;

/// Neuron `a` lies in layer `layer` of layers of `npl` neurons.
pub open spec fn in_layer(npl: int, layer: int, a: int) -> bool {
    npl * layer <= a < npl * (layer + 1)
}

/// `a` and `b` lie in consecutive layers of a feed-forward network of
/// `layers` layers of `npl` neurons, `b` in the later one.
pub open spec fn ff_pair(layers: int, npl: int, a: int, b: int) -> bool {
    exists|layer: int|
        0 <= layer < layers - 1 && #[trigger] in_layer(npl, layer, a) && in_layer(npl, layer + 1, b)
}

/// `(a1, b1)` comes before `(a2, b2)` in lexicographic order.
pub open spec fn pair_before(a1: int, b1: int, a2: int, b2: int) -> bool {
    a1 < a2 || (a1 == a2 && b1 < b2)
}

/// A synapse that the feed-forward builder made, from the given settings.
pub open spec fn ff_synapse(
    syn: SynapseView,
    id: int,
    layers: int,
    npl: int,
    w_span: (i32, i32),
    d_span: (u32, u32),
    partial_d: bool,
    declining_learning_rate: u32,
) -> bool {
    &&& syn.id == id
    &&& ff_pair(layers, npl, syn.pre_neuron as int, syn.post_neuron as int)
    &&& w_span.0 <= syn.weight <= w_span.1
    &&& d_span.0 <= syn.delay <= d_span.1
    &&& syn.pre_window == FF_PRE_WINDOW
    &&& syn.post_window == FF_POST_WINDOW
    &&& syn.delay_trainable
    &&& !syn.weight_trainable
    &&& syn.partial_delay_learning == partial_d
    &&& syn.declining_learning_rate == (declining_learning_rate != 0)
    &&& syn.delay_history == Seq::<(u32, u32)>::empty()
    &&& syn.spikes == Seq::<u32>::empty()
    &&& syn.spike_history == Seq::<u32>::empty()
    &&& syn.arrival_sum == 0
    &&& syn.arrival_count == 0
}

/// The number of neurons a feed-forward build adds: `layers * npl`, or none
/// when that is not positive.
pub open spec fn ff_neuron_count(layers: int, npl: int) -> int {
    if layers * npl > 0 {
        layers * npl
    } else {
        0
    }
}

/// The number of consecutive-layer pairs: `(layers - 1) * npl * npl`, or
/// none with fewer than two layers or no neurons per layer.
pub open spec fn ff_pair_count(layers: int, npl: int) -> int {
    if layers >= 2 && npl > 0 {
        (layers - 1) * npl * npl
    } else {
        0
    }
}

/// The index of the pair from `a` to `b` among the consecutive-layer pairs
/// of layers of `npl` neurons, in lexicographic order: the pairs of `a`
/// come after the `npl` pairs of each earlier neuron, and `b` is the
/// `b % npl`-th neuron of its layer.
pub open spec fn pair_index(npl: int, a: int, b: int) -> int {
    a * npl + b % npl
}

/// The index of the pair that `syn` joins.
pub open spec fn synapse_pair_index(syn: SynapseView, npl: int) -> int {
    pair_index(npl, syn.pre_neuron as int, syn.post_neuron as int)
}

/// The draws of a feed-forward build, one for each pair in lexicographic
/// order: a value from `0..PROBABILITY_SCALE` that decides whether the pair
/// is joined (when it lies below `p`), and for a joined pair the delay and
/// weight of its synapse, within their spans.
pub open spec fn draws_fit(draws: Seq<(u64, u32, i32)>, p: u32, d_span: (u32, u32), w_span: (i32, i32)) -> bool {
    forall|k: int|
        0 <= k < draws.len() ==> {
            &&& (#[trigger] draws[k]).0 < PROBABILITY_SCALE
            &&& draw_below(draws[k].0, p) ==> d_span.0 <= draws[k].1 <= d_span.1 && w_span.0 <= draws[k].2
                <= w_span.1
        }
}

impl PopulationView {
    /// The synapses that a build added to `old` follow the draws of the
    /// pairs before index `upto`: each joins a pair whose draw lies below
    /// `p`, with that pair's delay and weight, and each such pair is joined.
    pub open spec fn follows_draws(
        self,
        old: PopulationView,
        npl: int,
        p: u32,
        draws: Seq<(u64, u32, i32)>,
        upto: int,
    ) -> bool {
        let old_s = old.synapses.len() as int;
        &&& forall|s: int|
            old_s <= s < self.synapses.len() ==> {
                let k = synapse_pair_index(#[trigger] self.synapses[s], npl);
                &&& 0 <= k < upto
                &&& draw_below(draws[k].0, p)
                &&& self.synapses[s].delay == draws[k].1
                &&& self.synapses[s].weight == draws[k].2
            }
        &&& forall|k: int|
            0 <= k < upto && #[trigger] draw_below(draws[k].0, p) ==> exists|s: int|
                old_s <= s < self.synapses.len() && synapse_pair_index(#[trigger] self.synapses[s], npl) == k
    }
}

/// Joining the pair of index `idx`, as its draw says, extends what the
/// synapses follow to the next pair.
proof fn lemma_follows_draws_push(
    before: PopulationView,
    after: PopulationView,
    old: PopulationView,
    npl: int,
    p: u32,
    draws: Seq<(u64, u32, i32)>,
    idx: int,
)
    requires
        before.follows_draws(old, npl, p, draws, idx),
        0 <= idx,
        old.synapses.len() <= before.synapses.len(),
        after.synapses.len() == before.synapses.len() + 1,
        forall|s: int| 0 <= s < before.synapses.len() ==> after.synapses[s] == before.synapses[s],
        synapse_pair_index(after.synapses[before.synapses.len() as int], npl) == idx,
        draw_below(draws[idx].0, p),
        after.synapses[before.synapses.len() as int].delay == draws[idx].1,
        after.synapses[before.synapses.len() as int].weight == draws[idx].2,
    ensures
        after.follows_draws(old, npl, p, draws, idx + 1),
{
    let old_s = old.synapses.len() as int;
    let ns = before.synapses.len() as int;
    assert forall|s: int| old_s <= s < after.synapses.len() implies {
        let k = synapse_pair_index(#[trigger] after.synapses[s], npl);
        &&& 0 <= k < idx + 1
        &&& draw_below(draws[k].0, p)
        &&& after.synapses[s].delay == draws[k].1
        &&& after.synapses[s].weight == draws[k].2
    } by {
        if s < ns {
            assert(after.synapses[s] == before.synapses[s]);
        }
    }
    assert forall|k: int| 0 <= k < idx + 1 && #[trigger] draw_below(draws[k].0, p) implies exists|s: int|
        old_s <= s < after.synapses.len() && synapse_pair_index(#[trigger] after.synapses[s], npl) == k by {
        if k < idx {
            let s = choose|s: int| old_s <= s < before.synapses.len() && synapse_pair_index(#[trigger] before.synapses[s], npl) == k;
            assert(after.synapses[s] == before.synapses[s]);
        } else {
            assert(synapse_pair_index(after.synapses[ns], npl) == k);
        }
    }
}

/// Leaving the pair of index `idx` unjoined, as its draw says, extends what
/// the synapses follow to the next pair.
proof fn lemma_follows_draws_skip(
    pop: PopulationView,
    old: PopulationView,
    npl: int,
    p: u32,
    draws: Seq<(u64, u32, i32)>,
    idx: int,
)
    requires
        pop.follows_draws(old, npl, p, draws, idx),
        !draw_below(draws[idx].0, p),
    ensures
        pop.follows_draws(old, npl, p, draws, idx + 1),
{
    assert forall|k: int| 0 <= k < idx + 1 && #[trigger] draw_below(draws[k].0, p) implies exists|s: int|
        old.synapses.len() <= s < pop.synapses.len() && synapse_pair_index(#[trigger] pop.synapses[s], npl) == k by {
        assert(k != idx);
    }
}

impl PopulationView {
    /// `self` differs from `old` at most in its neurons, synapses and
    /// parameters.
    pub open spec fn same_but_network(self, old: PopulationView) -> bool {
        &&& self.t == old.t
        &&& self.dir == old.dir
        &&& self.name == old.name
        &&& self.inputs == old.inputs
        &&& self.input_id == old.input_id
        &&& self.input_connection_id == old.input_connection_id
        &&& self.score == old.score
    }

    /// The neurons of `old` keep their spikes and the input connections
    /// they collect, and every neuron added since has neither: a new
    /// neuron starts from a clean state.
    pub open spec fn fresh_neurons_since(self, old: PopulationView) -> bool {
        &&& self.neurons.len() >= old.neurons.len()
        &&& forall|i: int|
            0 <= i < old.neurons.len() ==> {
                &&& (#[trigger] self.neurons[i]).spikes == old.neurons[i].spikes
                &&& self.neurons[i].input_connections == old.neurons[i].input_connections
            }
        &&& forall|i: int|
            old.neurons.len() <= i < self.neurons.len() ==> {
                &&& (#[trigger] self.neurons[i]).spikes.len() == 0
                &&& self.neurons[i].input_connections.len() == 0
            }
    }

    /// The result of a feed-forward build on `old`: the neurons and synapses
    /// it adds, and the parameters it records.
    pub open spec fn feed_forward_from(
        self,
        old: PopulationView,
        layers: i32,
        npl: i32,
        p: u32,
        declining_learning_rate: u32,
        w_learning_p: u32,
        w_span: (i32, i32),
        partial_d: bool,
        d_learning_p: u32,
        d_span: (u32, u32),
        seed: u64,
    ) -> bool {
        let old_s = old.synapses.len() as int;
        let new_s = self.synapses.len() - old_s;
        &&& self.same_but_network(old)
        &&& self.fresh_neurons_since(old)
        &&& self.parameters == Some(
            crate::parameters::feed_forward_view(
                old.name,
                (layers * npl) as i32,
                p,
                layers,
                declining_learning_rate,
                w_learning_p,
                w_span,
                partial_d,
                d_learning_p,
                d_span,
                seed,
            ),
        )
        &&& self.neurons.len() == old.neurons.len() + ff_neuron_count(layers as int, npl as int)
        &&& self.synapses.len() >= old_s
        &&& self.synapses.take(old_s) == old.synapses
        &&& forall|s: int|
            old_s <= s < self.synapses.len() ==> ff_synapse(
                #[trigger] self.synapses[s],
                s,
                layers as int,
                npl as int,
                w_span,
                d_span,
                partial_d,
                declining_learning_rate,
            )
        &&& forall|s1: int, s2: int|
            old_s <= s1 < s2 < self.synapses.len() ==> pair_before(
                #[trigger] self.synapses[s1].pre_neuron as int,
                self.synapses[s1].post_neuron as int,
                #[trigger] self.synapses[s2].pre_neuron as int,
                self.synapses[s2].post_neuron as int,
            )
        &&& p == 0 ==> new_s == 0
        &&& p >= PROBABILITY_SCALE ==> new_s == ff_pair_count(layers as int, npl as int)
    }
}


impl PopulationView {
    /// The part of a feed-forward build's result that holds throughout it.
    spec fn ff_partial(
        self,
        old: PopulationView,
        layers: int,
        npl: int,
        w_span: (i32, i32),
        d_span: (u32, u32),
        partial_d: bool,
        declining_learning_rate: u32,
        params: Option<ParametersView>,
    ) -> bool {
        let old_s = old.synapses.len() as int;
        &&& self.wf()
        &&& self.same_but_network(old)
        &&& self.fresh_neurons_since(old)
        &&& self.parameters == params
        &&& self.synapses.len() >= old_s
        &&& self.synapses.take(old_s) == old.synapses
        &&& forall|s: int|
            old_s <= s < self.synapses.len() ==> ff_synapse(
                #[trigger] self.synapses[s],
                s,
                layers,
                npl,
                w_span,
                d_span,
                partial_d,
                declining_learning_rate,
            )
        &&& forall|s1: int, s2: int|
            old_s <= s1 < s2 < self.synapses.len() ==> pair_before(
                #[trigger] self.synapses[s1].pre_neuron as int,
                self.synapses[s1].post_neuron as int,
                #[trigger] self.synapses[s2].pre_neuron as int,
                self.synapses[s2].post_neuron as int,
            )
    }
}


impl PopulationView {
    /// `self` and `other` have the same neurons, synapses and inputs as far
    /// as well-formedness reads them: ids, counters and synapse lists.
    pub open spec fn same_structure(self, other: PopulationView) -> bool {
        &&& self.neuron_id == other.neuron_id
        &&& self.synapse_id == other.synapse_id
        &&& self.input_id == other.input_id
        &&& self.neurons.len() == other.neurons.len()
        &&& self.synapses.len() == other.synapses.len()
        &&& self.inputs.len() == other.inputs.len()
        &&& forall|i: int|
            #![trigger self.neurons[i]]
            0 <= i < self.neurons.len() ==> {
                &&& self.neurons[i].id == other.neurons[i].id
                &&& self.neurons[i].pre_synapses == other.neurons[i].pre_synapses
                &&& self.neurons[i].post_synapses == other.neurons[i].post_synapses
            }
        &&& forall|s: int|
            #![trigger self.synapses[s]]
            0 <= s < self.synapses.len() ==> {
                &&& self.synapses[s].id == other.synapses[s].id
                &&& self.synapses[s].pre_neuron == other.synapses[s].pre_neuron
                &&& self.synapses[s].post_neuron == other.synapses[s].post_neuron
            }
        &&& forall|k: int|
            #![trigger self.inputs[k]]
            0 <= k < self.inputs.len() ==> {
                &&& self.inputs[k].id == other.inputs[k].id
                &&& self.inputs[k].input_connections.len() == other.inputs[k].input_connections.len()
            }
        &&& forall|i: int|
            #![trigger self.neurons[i]]
            0 <= i < self.neurons.len() ==> self.neurons[i].input_connections == other.neurons[i].input_connections
    }

    /// What the incoming synapses of neuron `j` deliver at the current time.
    pub open spec fn synapse_input(self, j: int) -> int {
        let pre = self.neurons[j].pre_synapses;
        sum_of(Seq::new(pre.len(), |k: int| self.synapses[pre[k] as int].collected_input(self.t)))
    }

    /// What the input connections that neuron `j` collects deliver.
    pub open spec fn connection_input(self, j: int) -> int {
        let refs = self.neurons[j].input_connections;
        sum_of(
            Seq::new(
                refs.len(),
                |r: int| self.inputs[refs[r].0 as int].input_connections[refs[r].1 as int].delivered(),
            ),
        )
    }

    /// The input that neuron `j` receives at the current time: what its
    /// input connections and its incoming synapses deliver.
    pub open spec fn neuron_input(self, j: int) -> int {
        self.connection_input(j) + self.synapse_input(j)
    }

    /// The input generators after the connections that `refs` names were
    /// drained.
    pub open spec fn drained_inputs(self, refs: Seq<(usize, usize)>) -> Seq<InputView> {
        Seq::new(
            self.inputs.len(),
            |k: int|
                InputView {
                    input_connections: Seq::new(
                        self.inputs[k].input_connections.len(),
                        |c: int|
                            if names_connection(refs, k, c) {
                                self.inputs[k].input_connections[c].drained()
                            } else {
                                self.inputs[k].input_connections[c]
                            },
                    ),
                    ..self.inputs[k]
                },
        )
    }

    /// The population after neuron `j` was set to collect connection `c` of
    /// input generator `k`; unchanged when it already does.
    pub open spec fn attach_input(self, j: int, k: usize, c: usize) -> PopulationView {
        if self.neurons[j].input_connections.contains((k, c)) {
            self
        } else {
            PopulationView {
                neurons: self.neurons.update(
                    j,
                    NeuronView {
                        input_connections: self.neurons[j].input_connections.push((k, c)),
                        ..self.neurons[j]
                    },
                ),
                ..self
            }
        }
    }

    /// The input generators after neuron `j` collected its input
    /// connections.
    pub open spec fn collected_inputs(self, j: int) -> Seq<InputView> {
        self.drained_inputs(self.neurons[j].input_connections)
    }

    /// The synapses after neuron `j` collected its input at the current
    /// time.
    pub open spec fn collected_synapses(self, j: int) -> Seq<SynapseView> {
        Seq::new(
            self.synapses.len(),
            |s: int|
                if self.neurons[j].pre_synapses.contains(s as usize) {
                    self.synapses[s].collect(self.t)
                } else {
                    self.synapses[s]
                },
        )
    }

    /// The synapses after neuron `j` fired at the current time and sent its
    /// spike down its outgoing synapses.
    pub open spec fn sent_synapses(self, j: int) -> Seq<SynapseView> {
        Seq::new(
            self.synapses.len(),
            |s: int|
                if self.neurons[j].post_synapses.contains(s as usize) {
                    self.synapses[s].add_spike(self.t)
                } else {
                    self.synapses[s]
                },
        )
    }

    /// The synapses after neuron `j` fired: spikes sent, then the arrivals
    /// on its incoming synapses recorded.
    pub open spec fn fired_synapses(self, j: int) -> Seq<SynapseView> {
        let sent = self.sent_synapses(j);
        Seq::new(
            self.synapses.len(),
            |s: int|
                if self.neurons[j].pre_synapses.contains(s as usize) {
                    sent[s].record_arrivals(self.t)
                } else {
                    sent[s]
                },
        )
    }

    /// The neurons after neuron `j` fired at the current time.
    pub open spec fn fired_neurons(self, j: int) -> Seq<NeuronView> {
        self.neurons.update(
            j,
            NeuronView { spikes: self.neurons[j].spikes.push(self.t), ..self.neurons[j] },
        )
    }
}

/// `after` is the generator `before` after its step at `t`, for some
/// outcome of the random draw that its probability allows.
pub open spec fn input_stepped(before: InputView, after: InputView, t: u32) -> bool {
    exists|drawn: bool|
        {
            &&& after == before.step(t, drawn)
            &&& before.p >= PROBABILITY_SCALE ==> drawn
            &&& before.p == 0 ==> !drawn
        }
}

/// The incoming synapses whose recorded arrivals average below zero: the
/// pre-synaptic spikes arrived before the post-synaptic one.
pub open spec fn early_arrival(syn: SynapseView) -> bool {
    syn.arrival_count > 0 && syn.arrival_sum < 0
}

/// The incoming synapses whose recorded arrivals average above zero.
pub open spec fn late_arrival(syn: SynapseView) -> bool {
    syn.arrival_count > 0 && syn.arrival_sum > 0
}

/// The total number of spikes of a sequence of neurons.
pub open spec fn total_spikes(neurons: Seq<NeuronView>) -> int
    decreases neurons.len(),
{
    if neurons.len() == 0 {
        0
    } else {
        total_spikes(neurons.drop_last()) + neurons.last().spikes.len()
    }
}

/// The spikes of a prefix, plus those of the next neuron, are the spikes of
/// the longer prefix; no prefix has more spikes than the whole.
proof fn lemma_total_spikes_prefix(neurons: Seq<NeuronView>, i: int)
    requires
        0 <= i <= neurons.len(),
    ensures
        total_spikes(neurons.take(i)) <= total_spikes(neurons),
    decreases neurons.len(),
{
    if i < neurons.len() {
        assert(neurons.drop_last().take(i) =~= neurons.take(i));
        lemma_total_spikes_prefix(neurons.drop_last(), i);
    } else {
        assert(neurons.take(i) =~= neurons);
    }
}

/// A synapse after delay growth, where its delay is trainable and it found
/// no pre-synaptic arrival in the last recording.
pub open spec fn grown_if_idle(syn: SynapseView, growth: u32) -> SynapseView {
    if syn.delay_trainable && syn.arrival_count == 0 {
        syn.grow_delay(growth)
    } else {
        syn
    }
}

/// Growth changes only a synapse's delay: the arrivals it recorded, and so
/// whether it arrived early or late, stay as they were.
pub proof fn law_growth_keeps_arrivals(syn: SynapseView, growth: u32)
    ensures
        grown_if_idle(syn, growth) == (SynapseView { delay: grown_if_idle(syn, growth).delay, ..syn }),
        early_arrival(grown_if_idle(syn, growth)) == early_arrival(syn),
        late_arrival(grown_if_idle(syn, growth)) == late_arrival(syn),
{
}

/// A synapse after training: an early one is shifted by `shift`, a late
/// one by nothing (its delay is kept at least `MIN_DELAY`), others stay.
pub open spec fn trained(syn: SynapseView, shift: i64) -> SynapseView {
    if early_arrival(syn) {
        syn.shift_delay(shift as int)
    } else if late_arrival(syn) {
        syn.shift_delay(0)
    } else {
        syn
    }
}

/// `w` holds the arrivals that `syn` records against a spike at `t`.
pub open spec fn arrivals_of(w: ArrivalWindows, syn: SynapseView, t: u32) -> bool {
    &&& as_ints(w.pre@) == syn.pre_arrivals(t)
    &&& as_ints(w.post@) == syn.post_arrivals(t)
    &&& w.needs_growth == (syn.delay_trainable && w.pre@.len() == 0)
}

/// A population whose structure matches that of a well-formed one is well
/// formed.
proof fn lemma_same_structure_wf(p: PopulationView, q: PopulationView)
    requires
        p.wf(),
        q.same_structure(p),
    ensures
        q.wf(),
{
    assert forall|i: int| #![trigger q.neurons[i]] 0 <= i < q.neurons.len() implies q.neurons[i].id == i by {
        assert(p.neurons[i].id == i);
    }
    assert forall|s: int|
        #![trigger q.synapses[s]]
        0 <= s < q.synapses.len() implies {
            &&& q.synapses[s].id == s
            &&& q.synapses[s].pre_neuron < q.neurons.len()
            &&& q.synapses[s].post_neuron < q.neurons.len()
        } by {
        assert(p.synapses[s].id == s);
    }
    assert forall|k: int| #![trigger q.inputs[k]] 0 <= k < q.inputs.len() implies q.inputs[k].id == k by {
        assert(p.inputs[k].id == k);
    }
    assert forall|i: int| 0 <= i < q.neurons.len() implies #[trigger] q.outgoing_ok(i) by {
        assert(p.outgoing_ok(i));
        assert(q.neurons[i].post_synapses == p.neurons[i].post_synapses);
        let post = q.neurons[i].post_synapses;
        assert forall|k: int| 0 <= k < post.len() implies q.synapses[#[trigger] post[k] as int].pre_neuron == i by {
            assert(p.synapses[post[k] as int].pre_neuron == i);
            assert(q.synapses[post[k] as int].pre_neuron == p.synapses[post[k] as int].pre_neuron);
        }
        assert forall|s: int| 0 <= s < q.synapses.len() && #[trigger] q.synapses[s].pre_neuron == i implies post.contains(s as usize) by {
            assert(q.synapses[s].pre_neuron == p.synapses[s].pre_neuron);
        }
    }
    assert forall|i: int| 0 <= i < q.neurons.len() implies #[trigger] q.incoming_ok(i) by {
        assert(p.incoming_ok(i));
        assert(q.neurons[i].pre_synapses == p.neurons[i].pre_synapses);
        let pre = q.neurons[i].pre_synapses;
        assert forall|k: int| 0 <= k < pre.len() implies q.synapses[#[trigger] pre[k] as int].post_neuron == i by {
            assert(p.synapses[pre[k] as int].post_neuron == i);
            assert(q.synapses[pre[k] as int].post_neuron == p.synapses[pre[k] as int].post_neuron);
        }
        assert forall|s: int| 0 <= s < q.synapses.len() && #[trigger] q.synapses[s].post_neuron == i implies pre.contains(s as usize) by {
            assert(q.synapses[s].post_neuron == p.synapses[s].post_neuron);
        }
    }
    assert forall|i: int| 0 <= i < q.neurons.len() implies #[trigger] q.input_refs_ok(i) by {
        assert(p.input_refs_ok(i));
        let refs = q.neurons[i].input_connections;
        assert(refs == p.neurons[i].input_connections);
        assert forall|r: int| 0 <= r < refs.len() implies #[trigger] refs[r].0 < q.inputs.len() && refs[r].1
            < q.inputs[refs[r].0 as int].input_connections.len() by {
            assert(q.inputs[refs[r].0 as int].input_connections.len() == p.inputs[refs[r].0 as int].input_connections.len());
        }
    }
}

/// In an increasing list, the first `k` entries do not hold entry `k`, and
/// the first `k + 1` hold exactly those and entry `k`.
proof fn lemma_increasing_take(list: Seq<usize>, bound: int, k: int)
    requires
        increasing_below(list, bound),
        0 <= k < list.len(),
    ensures
        !list.take(k).contains(list[k]),
        forall|x: usize| list.take(k + 1).contains(x) <==> (list.take(k).contains(x) || x == list[k]),
{
    if list.take(k).contains(list[k]) {
        let a = choose|a: int| 0 <= a < k && #[trigger] list.take(k)[a] == list[k];
        assert(list[a] < list[k]);
    }
    assert forall|x: usize| list.take(k + 1).contains(x) implies (list.take(k).contains(x) || x == list[k]) by {
        let a = choose|a: int| 0 <= a < k + 1 && #[trigger] list.take(k + 1)[a] == x;
        if a < k {
            assert(list.take(k)[a] == x);
        }
    }
    assert forall|x: usize| (list.take(k).contains(x) || x == list[k]) implies list.take(k + 1).contains(x) by {
        if list.take(k).contains(x) {
            let a = choose|a: int| 0 <= a < k && #[trigger] list.take(k)[a] == x;
            assert(list.take(k + 1)[a] == x);
        } else {
            assert(list.take(k + 1)[k] == x);
        }
    }
}

/// Changing entry `i` of a vector in place changes only entry `i` of it
/// and of its view: every other entry stays as it was.
proof fn lemma_one_entry_changed<T: View>(before: Seq<T>, after: Seq<T>, i: int)
    requires
        0 <= i < before.len(),
        after == before.update(i, after[i]),
    ensures
        after.len() == before.len(),
        forall|j: int| 0 <= j < before.len() && j != i ==> #[trigger] after[j] == before[j],
        after.map_values(|x: T| x@) == before.map_values(|x: T| x@).update(i, after[i]@),
{
    assert(after.map_values(|x: T| x@) =~= before.map_values(|x: T| x@).update(i, after[i]@));
}

/// `refs` names connection `c` of input generator `k`.
pub open spec fn names_connection(refs: Seq<(usize, usize)>, k: int, c: int) -> bool {
    exists|r: int| 0 <= r < refs.len() && (#[trigger] refs[r]).0 == k && refs[r].1 == c
}

/// In a list of connections without duplicates, the first `r` entries do
/// not name entry `r`, and the first `r + 1` name exactly those and entry
/// `r`.
proof fn lemma_names_take(refs: Seq<(usize, usize)>, r: int)
    requires
        refs.no_duplicates(),
        0 <= r < refs.len(),
    ensures
        !names_connection(refs.take(r), refs[r].0 as int, refs[r].1 as int),
        forall|k: int, c: int|
            #[trigger] names_connection(refs.take(r + 1), k, c) == (names_connection(refs.take(r), k, c) || (
            refs[r].0 == k && refs[r].1 == c)),
{
    if names_connection(refs.take(r), refs[r].0 as int, refs[r].1 as int) {
        let a = choose|a: int| 0 <= a < r && (#[trigger] refs.take(r)[a]).0 == refs[r].0 && refs.take(r)[a].1 == refs[r].1;
        assert(refs[a] == refs[r]);
    }
    assert forall|k: int, c: int| #[trigger] names_connection(refs.take(r + 1), k, c) == (names_connection(refs.take(r), k, c) || (
        refs[r].0 == k && refs[r].1 == c)) by {
        if names_connection(refs.take(r + 1), k, c) {
            let a = choose|a: int| 0 <= a < r + 1 && (#[trigger] refs.take(r + 1)[a]).0 == k && refs.take(r + 1)[a].1 == c;
            if a < r {
                assert(refs.take(r)[a] == refs.take(r + 1)[a]);
            }
        }
        if names_connection(refs.take(r), k, c) {
            let a = choose|a: int| 0 <= a < r && (#[trigger] refs.take(r)[a]).0 == k && refs.take(r)[a].1 == c;
            assert(refs.take(r + 1)[a] == refs.take(r)[a]);
        }
        if refs[r].0 == k && refs[r].1 == c {
            assert(refs.take(r + 1)[r] == refs[r]);
        }
    }
}

/// A spike that neuron `i` fires at the current time reaches, over each of
/// its outgoing synapses that had nothing pending, the synapse's target one
/// delay later, carrying the synapse's weight.
pub proof fn law_fired_spike_reaches_target(p: PopulationView, i: int, s: int)
    requires
        p.wf(),
        0 <= i < p.neurons.len(),
        0 <= s < p.synapses.len(),
        p.synapses[s].pre_neuron == i,
        p.synapses[s].spikes.len() == 0,
        p.t + p.synapses[s].delay <= u32::MAX,
    ensures
        p.sent_synapses(i)[s] == p.synapses[s].add_spike(p.t),
        p.sent_synapses(i)[s].collected_input((p.t + p.synapses[s].delay) as u32) == p.synapses[s].weight,
        p.sent_synapses(i)[s].collect((p.t + p.synapses[s].delay) as u32).spikes.len() == 0,
{
    assert(p.outgoing_ok(i));
    assert(p.neurons[i].post_synapses.contains(s as usize));
    crate::connections::law_spike_arrives_after_delay(
        p.synapses[s],
        p.t,
        (p.t + p.synapses[s].delay) as u32,
    );
}

/// Firing neuron `i` sends its spike down each of its outgoing synapses,
/// whatever the synapse already carries: its pending spikes gain the
/// current time (one more pending spike) and its history starts with it,
/// its delay and weight stay. A synapse that does not start at `i` keeps
/// its pending spikes and history.
pub proof fn law_fire_sends_on_every_outgoing(p: PopulationView, i: int, s: int)
    requires
        p.wf(),
        0 <= i < p.neurons.len(),
        0 <= s < p.synapses.len(),
    ensures
        p.synapses[s].pre_neuron == i ==> {
            &&& p.fired_synapses(i)[s].spikes == p.synapses[s].spikes.push(p.t)
            &&& p.fired_synapses(i)[s].spikes.len() == p.synapses[s].spikes.len() + 1
            &&& p.fired_synapses(i)[s].spike_history == seq![p.t] + p.synapses[s].spike_history
            &&& p.fired_synapses(i)[s].delay == p.synapses[s].delay
            &&& p.fired_synapses(i)[s].weight == p.synapses[s].weight
        },
        p.synapses[s].pre_neuron != i ==> {
            &&& p.fired_synapses(i)[s].spikes == p.synapses[s].spikes
            &&& p.fired_synapses(i)[s].spike_history == p.synapses[s].spike_history
        },
{
    assert(p.outgoing_ok(i));
    if p.synapses[s].pre_neuron == i {
        assert(p.neurons[i].post_synapses.contains(s as usize));
    } else {
        let post = p.neurons[i].post_synapses;
        if post.contains(s as usize) {
            let k = choose|k: int| 0 <= k < post.len() && post[k] == s as usize;
            assert(p.synapses[post[k] as int].pre_neuron == i);
        }
    }
}

/// A feed-forward synapse points forward: from a neuron of one layer to one
/// of a later layer, both among the network's `layers * npl` neurons.
pub proof fn law_feed_forward_points_forward(layers: int, npl: int, a: int, b: int)
    requires
        ff_pair(layers, npl, a, b),
    ensures
        a < b,
        0 <= a,
        b < layers * npl,
{
    let layer = choose|layer: int|
        0 <= layer < layers - 1 && #[trigger] in_layer(npl, layer, a) && in_layer(npl, layer + 1, b);
    assert(npl > 0) by (nonlinear_arith)
        requires npl * layer <= a < npl * (layer + 1);
    assert(0 <= npl * layer) by (nonlinear_arith)
        requires npl > 0, layer >= 0;
    assert(npl * (layer + 2) <= npl * layers) by (nonlinear_arith)
        requires npl > 0, layer + 2 <= layers;
    assert(npl * (layer + 1) + npl == npl * (layer + 2)) by (nonlinear_arith);
}

/// `p` after `k` neurons were added to it, one after another.
pub open spec fn add_neurons(p: PopulationView, k: nat) -> PopulationView
    decreases k,
{
    if k == 0 {
        p
    } else {
        add_neurons(p, (k - 1) as nat).add_neuron()
    }
}

/// Creating `k` neurons in a new population gives `k` neurons, numbered
/// from 0 in the order of creation, each as `Neuron::new` makes it; the
/// next id is `k`, and the first `j` creations made the first `j` neurons.
pub proof fn law_neurons_numbered_in_order(name: Seq<char>, k: nat)
    requires
        k <= usize::MAX,
    ensures
        add_neurons(fresh_population(name), k).neurons.len() == k,
        add_neurons(fresh_population(name), k).neuron_id == k,
        forall|i: int|
            0 <= i < k ==> #[trigger] add_neurons(fresh_population(name), k).neurons[i] == (NeuronView {
                id: i as usize,
                pre_synapses: Seq::empty(),
                post_synapses: Seq::empty(),
                input_connections: Seq::empty(),
                spikes: Seq::empty(),
            }),
        forall|j: nat|
            j <= k ==> #[trigger] add_neurons(fresh_population(name), k).neurons.take(j as int)
                == add_neurons(fresh_population(name), j).neurons,
    decreases k,
{
    let f = fresh_population(name);
    if k == 0 {
        assert(add_neurons(f, 0).neurons.take(0) =~= add_neurons(f, 0).neurons);
    } else {
        law_neurons_numbered_in_order(name, (k - 1) as nat);
        let prev = add_neurons(f, (k - 1) as nat);
        let cur = add_neurons(f, k);
        assert(cur == prev.add_neuron());
        assert forall|i: int| 0 <= i < k implies #[trigger] cur.neurons[i] == (NeuronView {
            id: i as usize,
            pre_synapses: Seq::empty(),
            post_synapses: Seq::empty(),
            input_connections: Seq::empty(),
            spikes: Seq::empty(),
        }) by {
            if i < k - 1 {
                assert(cur.neurons[i] == prev.neurons[i]);
            }
        }
        assert forall|j: nat| j <= k implies #[trigger] cur.neurons.take(j as int) == add_neurons(f, j).neurons by {
            if j == k {
                assert(cur.neurons.take(j as int) =~= cur.neurons);
            } else {
                assert(prev.neurons.take(j as int) == add_neurons(f, j).neurons);
                assert(cur.neurons.take(j as int) =~= prev.neurons.take(j as int));
            }
        }
    }
}

/// Whether `list` holds the connection `x`.
fn contains_connection(list: &Vec<(usize, usize)>, x: (usize, usize)) -> (r: bool)
    ensures
        r == list@.contains(x),
{
    let n = list.len();
    let mut i: usize = 0;
    while i < n
        invariant
            n == list@.len(),
            i <= n,
            forall|j: int| 0 <= j < i ==> list@[j] != x,
        decreases n - i,
    {
        if list[i].0 == x.0 && list[i].1 == x.1 {
            assert(list@[i as int] == x);
            return true;
        }
        i += 1;
    }
    false
}

/// Draws, for each consecutive-layer pair of a feed-forward build in
/// lexicographic order, a value from `0..PROBABILITY_SCALE`, and for a pair
/// that it joins (the value lies below `p`) a delay from `d_span` and a
/// weight from `w_span`. An unjoined pair gets the low ends of the spans,
/// which the build does not read.
fn draw_pairs(layers: i32, npl: i32, p: u32, d_span: (u32, u32), w_span: (i32, i32)) -> (r: Vec<(u64, u32, i32)>)
    requires
        layers * npl <= i32::MAX,
        layers >= 2 && npl > 0 && p > 0 ==> d_span.0 <= d_span.1 && w_span.0 <= w_span.1,
    ensures
        r@.len() == ff_pair_count(layers as int, npl as int),
        draws_fit(r@, p, d_span, w_span),
{
    let count: u64 = if layers >= 2 && npl > 0 {
        proof {
            assert(0 <= (layers - 1) * npl <= 0x8000_0000) by (nonlinear_arith)
                requires layers >= 2, npl > 0, layers * npl <= i32::MAX;
            assert((layers - 1) * npl * npl <= 0x8000_0000 * 0x8000_0000) by (nonlinear_arith)
                requires 0 <= (layers - 1) * npl <= 0x8000_0000, 0 < npl <= 0x8000_0000;
        }
        (layers - 1) as u64 * npl as u64 * npl as u64
    } else {
        0
    };
    let mut r: Vec<(u64, u32, i32)> = Vec::new();
    let mut i: u64 = 0;
    while i < count
        invariant
            count == ff_pair_count(layers as int, npl as int),
            count > 0 && p > 0 ==> d_span.0 <= d_span.1 && w_span.0 <= w_span.1,
            i <= count,
            r@.len() == i,
            draws_fit(r@, p, d_span, w_span),
        decreases count - i,
    {
        let z = uniform_below(PROBABILITY_SCALE as u64);
        let draw = if happens_with_draw(p, z) {
            (z, draw_delay(d_span.0, d_span.1), draw_weight(w_span.0, w_span.1))
        } else {
            (z, d_span.0, w_span.0)
        };
        let ghost before = r@;
        r.push(draw);
        proof {
            assert forall|k: int| 0 <= k < r@.len() implies {
                &&& (#[trigger] r@[k]).0 < PROBABILITY_SCALE
                &&& draw_below(r@[k].0, p) ==> d_span.0 <= r@[k].1 <= d_span.1 && w_span.0 <= r@[k].2 <= w_span.1
            } by {
                if k < before.len() {
                    assert(r@[k] == before[k]);
                }
            }
        }
        i += 1;
    }
    r
}

/// A network of neurons, synapses and input generators, with its clock.
pub struct Population {
    /// Simulated time, in ticks.
    t: u32,
    dir: String,
    pub name: String,
    neurons: Vec<Neuron>,
    synapses: Vec<Synapse>,
    inputs: Vec<Input>,
    neuron_id: usize,
    synapse_id: usize,
    input_id: usize,
    input_connection_id: usize,
    parameters: Option<Parameters>,
    /// Number of spikes of the last run.
    pub score: u64,
}

impl View for Population {
    type V = PopulationView;

    closed spec fn view(&self) -> PopulationView {
        PopulationView {
            t: self.t,
            dir: self.dir@,
            name: self.name@,
            neurons: self.neurons@.map_values(|n: Neuron| n@),
            synapses: self.synapses@.map_values(|s: Synapse| s@),
            inputs: self.inputs@.map_values(|i: Input| i@),
            neuron_id: self.neuron_id,
            synapse_id: self.synapse_id,
            input_id: self.input_id,
            input_connection_id: self.input_connection_id,
            parameters: match self.parameters {
                Some(p) => Some(p@),
                None => None,
            },
            score: self.score,
        }
    }
}

impl Population {
    pub fn new(name: String) -> (r: Self)
        ensures
            r@.wf(),
            r@ == fresh_population(name@),
    {
        let dir = String::from_str("output_data/");
        proof {
            reveal_strlit("output_data/");
        }
        let r = Population {
            t: 0,
            dir,
            name,
            neurons: Vec::new(),
            synapses: Vec::new(),
            inputs: Vec::new(),
            neuron_id: 0,
            synapse_id: 0,
            input_id: 0,
            input_connection_id: 0,
            parameters: None,
            score: 0,
        };
        assert(r@.neurons =~= Seq::empty());
        assert(r@.synapses =~= Seq::empty());
        assert(r@.inputs =~= Seq::empty());
        assert(r@ =~= fresh_population(name@));
        r
    }

    /// The number of neurons.
    pub fn get_size(&mut self) -> (r: usize)
        ensures
            r == old(self)@.neurons.len(),
            final(self)@ == old(self)@,
    {
        self.neurons.len()
    }

    pub fn create_synapse(
        &mut self,
        neuron_i: usize,
        neuron_j: usize,
        weight: i32,
        delay: u32,
        pre_window: i64,
        post_window: i64,
        delay_trainable: bool,
        weight_trainable: bool,
        partial_delay_learning: bool,
        declining_learning_rate: u32,
    )
        requires
            old(self)@.wf(),
            neuron_i < old(self)@.neurons.len(),
            neuron_j < old(self)@.neurons.len(),
        ensures
            final(self)@.wf(),
            final(self)@ == old(self)@.add_synapse(
                SynapseView {
                    id: old(self)@.synapse_id,
                    pre_neuron: neuron_i,
                    post_neuron: neuron_j,
                    weight,
                    delay,
                    pre_window,
                    post_window,
                    delay_trainable,
                    weight_trainable,
                    partial_delay_learning,
                    declining_learning_rate: declining_learning_rate != 0,
                    delay_history: Seq::empty(),
                    spikes: Seq::empty(),
                    spike_history: Seq::empty(),
                    arrival_sum: 0,
                    arrival_count: 0,
                },
            ),
    {
        let ghost old_view = self@;
        let s = self.synapse_id;
        let syn = Synapse::new(
            s,
            neuron_i,
            neuron_j,
            weight,
            delay,
            pre_window,
            post_window,
            delay_trainable,
            weight_trainable,
            partial_delay_learning,
            declining_learning_rate != 0,
        );
        let ghost sv = syn@;
        self.neurons[neuron_i].post_synapses.push(s);
        self.neurons[neuron_j].pre_synapses.push(s);
        self.synapses.push(syn);
        assert(self.synapses.len() == old_view.synapses.len() + 1);
        self.synapse_id = self.synapse_id + 1;
        let ghost target = old_view.add_synapse(sv);
        assert(self@.neurons =~= target.neurons);
        assert(self@.synapses =~= target.synapses);
        assert(self@ =~= target);
        proof {
            lemma_add_synapse_wf(old_view, sv);
        }
    }

    /// A connection from input generator `input_neuron` to `neuron`, with
    /// the next connection id.
    fn create_input_connection(&mut self, input_neuron: usize, neuron: usize, weight: i32) -> (r: InputConnection)
        requires
            old(self)@.input_connection_id < usize::MAX,
        ensures
            r == (InputConnection {
                id: old(self)@.input_connection_id,
                input_i: input_neuron,
                neuron_j: neuron,
                spike: false,
                weight,
            }),
            final(self)@ == (PopulationView {
                input_connection_id: (old(self)@.input_connection_id + 1) as usize,
                ..old(self)@
            }),
    {
        let input_connection = InputConnection::new(self.input_connection_id, input_neuron, neuron, weight);
        self.input_connection_id = self.input_connection_id + 1;
        input_connection
    }

    /// Adds an input generator that fires at `spike_times` and otherwise
    /// with probability `p` (in thousandths), connected with weight `w` to
    /// each neuron of `neurons`.
    pub fn create_input(&mut self, neurons: Vec<usize>, p: u32, spike_times: Vec<u32>, w: i32)
        requires
            old(self)@.wf(),
            old(self)@.input_connection_id + neurons@.len() <= usize::MAX,
        ensures
            final(self)@.wf(),
            final(self)@ == old(self)@.add_input(neurons@, p, spike_times@, w),
    {
        let ghost old_view = self@;
        let mut input = Input::new(self.input_id, p, spike_times);
        let n = neurons.len();
        let mut k: usize = 0;
        while k < n
            invariant
                n == neurons@.len(),
                k <= n,
                old_view.input_connection_id + n <= usize::MAX,
                self@ == (PopulationView {
                    input_connection_id: (old_view.input_connection_id + k) as usize,
                    ..old_view
                }),
                input.id == old_view.input_id,
                input@.spikes == Seq::<u32>::empty(),
                input@.spike_times == old_view.add_input(neurons@, p, spike_times@, w).inputs.last().spike_times,
                input.p == p,
                input@.input_connections =~= old_view.add_input(neurons@, p, spike_times@, w).inputs.last().input_connections.take(k as int),
            decreases n - k,
        {
            let input_connection = self.create_input_connection(self.input_id, neurons[k], w);
            input.add_connection(input_connection);
            k += 1;
        }
        self.inputs.push(input);
        assert(self.inputs.len() == old_view.inputs.len() + 1);
        self.input_id = self.input_id + 1;
        let ghost target = old_view.add_input(neurons@, p, spike_times@, w);
        assert(target.inputs.last().input_connections.take(n as int) =~= target.inputs.last().input_connections);
        assert(self@.inputs =~= target.inputs);
        assert(self@ =~= target);
        assert forall|i: int| 0 <= i < self@.neurons.len() implies #[trigger] self@.outgoing_ok(i) by {
            assert(old_view.outgoing_ok(i));
        }
        assert forall|i: int| 0 <= i < self@.neurons.len() implies #[trigger] self@.incoming_ok(i) by {
            assert(old_view.incoming_ok(i));
        }
        assert forall|i: int| #![trigger self@.inputs[i]] 0 <= i < self@.inputs.len() implies self@.inputs[i].id == i by {
            if i < old_view.inputs.len() {
                assert(old_view.inputs[i].id == i);
            }
        }
        assert forall|i: int| 0 <= i < self@.neurons.len() implies #[trigger] self@.input_refs_ok(i) by {
            assert(old_view.input_refs_ok(i));
            let refs = self@.neurons[i].input_connections;
            assert forall|r: int| 0 <= r < refs.len() implies #[trigger] refs[r].0 < self@.inputs.len() && refs[r].1
                < self@.inputs[refs[r].0 as int].input_connections.len() by {
                assert(self@.inputs[refs[r].0 as int] == old_view.inputs[refs[r].0 as int]);
            }
        }
    }

    /// Builds a feed-forward network: `layers * nodes_per_layer` new
    /// neurons, numbered from 0 in layers of `nodes_per_layer`, and between
    /// each neuron and each neuron of the next layer a synapse with
    /// probability `p` (in thousandths), visiting the pairs in lexicographic
    /// order. Each synapse gets a weight drawn from `w_span` and a delay
    /// drawn from `d_span`, both rounded to their grid, trainable delays and
    /// the feed-forward windows. The parameters of the build are recorded.
    /// The draws are made first (see `draw_pairs`), then the network is
    /// built from them by `create_feed_forward_with_draws`.
    pub fn create_feed_forward(
        &mut self,
        layers: i32,
        nodes_per_layer: i32,
        p: u32,
        declining_learning_rate: u32,
        w_learning_p: u32,
        w_span: (i32, i32),
        partial_d: bool,
        d_learning_p: u32,
        d_span: (u32, u32),
        seed: u64,
    )
        requires
            old(self)@.wf(),
            i32::MIN <= layers * nodes_per_layer <= i32::MAX,
            layers >= 2 && nodes_per_layer > 0 && p > 0 ==> d_span.0 <= d_span.1 && w_span.0
                <= w_span.1,
        ensures
            final(self)@.wf(),
            final(self)@.feed_forward_from(
                old(self)@,
                layers,
                nodes_per_layer,
                p,
                declining_learning_rate,
                w_learning_p,
                w_span,
                partial_d,
                d_learning_p,
                d_span,
                seed,
            ),
            exists|draws: Seq<(u64, u32, i32)>|
                {
                    &&& draws.len() == ff_pair_count(layers as int, nodes_per_layer as int)
                    &&& draws_fit(draws, p, d_span, w_span)
                    &&& #[trigger] final(self)@.follows_draws(old(self)@, nodes_per_layer as int, p, draws, draws.len() as int)
                },
    {
        let draws = draw_pairs(layers, nodes_per_layer, p, d_span, w_span);
        self.create_feed_forward_with_draws(
            layers,
            nodes_per_layer,
            p,
            declining_learning_rate,
            w_learning_p,
            w_span,
            partial_d,
            d_learning_p,
            d_span,
            seed,
            &draws,
        );
    }

    /// Builds a feed-forward network: `layers * nodes_per_layer` new
    /// neurons, numbered from 0 in layers of `nodes_per_layer`, and between
    /// each neuron and each neuron of the next layer, visiting the pairs in
    /// lexicographic order, a synapse when the pair's draw in `draws` lies
    /// below `p` (in thousandths). The synapse gets the delay and weight of
    /// the pair's draw, trainable delays and the feed-forward windows. The
    /// parameters of the build are recorded.
    pub fn create_feed_forward_with_draws(
        &mut self,
        layers: i32,
        nodes_per_layer: i32,
        p: u32,
        declining_learning_rate: u32,
        w_learning_p: u32,
        w_span: (i32, i32),
        partial_d: bool,
        d_learning_p: u32,
        d_span: (u32, u32),
        seed: u64,
        draws: &Vec<(u64, u32, i32)>,
    )
        requires
            old(self)@.wf(),
            i32::MIN <= layers * nodes_per_layer <= i32::MAX,
            draws@.len() == ff_pair_count(layers as int, nodes_per_layer as int),
            draws_fit(draws@, p, d_span, w_span),
        ensures
            final(self)@.wf(),
            final(self)@.feed_forward_from(
                old(self)@,
                layers,
                nodes_per_layer,
                p,
                declining_learning_rate,
                w_learning_p,
                w_span,
                partial_d,
                d_learning_p,
                d_span,
                seed,
            ),
            final(self)@.follows_draws(old(self)@, nodes_per_layer as int, p, draws@, draws@.len() as int),
    {
        let ghost old_view = self@;
        let ghost old_s = old_view.synapses.len() as int;
        let n = layers * nodes_per_layer;
        let params = Parameters::new_FeedForward(
            self.name.clone(),
            n,
            p,
            layers,
            declining_learning_rate,
            w_learning_p,
            w_span,
            partial_d,
            d_learning_p,
            d_span,
            seed,
        );
        self.parameters = Some(params);
        let ghost params_view = self@.parameters;
        assert(self@ =~= PopulationView { parameters: params_view, ..old_view });
        assert(self@.ff_partial(old_view, layers as int, nodes_per_layer as int, w_span, d_span, partial_d, declining_learning_rate, params_view)) by {
            assert(self@.synapses.take(old_s) =~= old_view.synapses);
            assert forall|i: int| 0 <= i < self@.neurons.len() implies #[trigger] self@.outgoing_ok(i) by {
                assert(old_view.outgoing_ok(i));
            }
            assert forall|i: int| 0 <= i < self@.neurons.len() implies #[trigger] self@.incoming_ok(i) by {
                assert(old_view.incoming_ok(i));
            }
            assert forall|i: int| 0 <= i < self@.neurons.len() implies #[trigger] self@.input_refs_ok(i) by {
                assert(old_view.input_refs_ok(i));
            }
        }
        let mut c: i32 = 0;
        while c < n
            invariant
                n == layers * nodes_per_layer,
                0 <= c,
                n > 0 ==> c <= n,
                n <= 0 ==> c == 0,
                old_s == old_view.synapses.len(),
                self@.ff_partial(old_view, layers as int, nodes_per_layer as int, w_span, d_span, partial_d, declining_learning_rate, params_view),
                self@.synapses.len() == old_s,
                self@.neurons.len() == old_view.neurons.len() + c,
            decreases n - c,
        {
            let ghost before = self@;
            self.create_neuron();
            proof {
                assert(self@.synapses.take(old_s) == before.synapses.take(old_s));
            }
            c += 1;
        }
        assert(self@.neurons.len() == old_view.neurons.len() + ff_neuron_count(layers as int, nodes_per_layer as int));
        if layers >= 2 && nodes_per_layer > 0 {
            let m = nodes_per_layer as usize;
            let nl = layers as usize;
            assert(m * nl == n) by (nonlinear_arith)
                requires m == nodes_per_layer, nl == layers, n == layers * nodes_per_layer;
            let mut layer: usize = 0;
            let mut idx: usize = 0;
            let n_draws = draws.len();
            while layer < nl - 1
                invariant
                    m == nodes_per_layer as int,
                    nl == layers as int,
                    m > 0,
                    nl >= 2,
                    m * nl == n,
                    n <= i32::MAX,
                    layer <= nl - 1,
                    self@.neurons.len() == old_view.neurons.len() + n,
                    old_s == old_view.synapses.len(),
                self@.ff_partial(old_view, layers as int, nodes_per_layer as int, w_span, d_span, partial_d, declining_learning_rate, params_view),
                    forall|s: int| old_s <= s < self@.synapses.len() ==> #[trigger] self@.synapses[s].pre_neuron < m * layer,
                    p == 0 ==> self@.synapses.len() == old_s,
                    p >= PROBABILITY_SCALE ==> self@.synapses.len() - old_s == layer * m * m,
                    draws@.len() == (nl - 1) * m * m,
                    n_draws == draws@.len(),
                    draws_fit(draws@, p, d_span, w_span),
                    idx == m * layer * m,
                    self@.follows_draws(old_view, m as int, p, draws@, idx as int),
                decreases nl - 1 - layer,
            {
                assert(m * (layer + 2) <= m * nl) by (nonlinear_arith)
                    requires layer + 2 <= nl, m > 0;
                assert(m * (layer + 1) == m * layer + m) by (nonlinear_arith);
                assert(m * (layer + 2) == m * (layer + 1) + m) by (nonlinear_arith);
                let mut a = m * layer;
                assert(layer * m * m + (a - m * layer) * m == layer * m * m) by (nonlinear_arith)
                    requires a == m * layer;
                while a < m * (layer + 1)
                    invariant
                        m == nodes_per_layer as int,
                        nl == layers as int,
                        m > 0,
                        m * nl == n,
                        n <= i32::MAX,
                        layer < nl - 1,
                        m * (layer + 2) <= m * nl,
                        m * (layer + 1) == m * layer + m,
                        m * (layer + 2) == m * (layer + 1) + m,
                        m * layer <= a <= m * (layer + 1),
                        self@.neurons.len() == old_view.neurons.len() + n,
                        old_s == old_view.synapses.len(),
                self@.ff_partial(old_view, layers as int, nodes_per_layer as int, w_span, d_span, partial_d, declining_learning_rate, params_view),
                            forall|s: int| old_s <= s < self@.synapses.len() ==> #[trigger] self@.synapses[s].pre_neuron < a,
                        p == 0 ==> self@.synapses.len() == old_s,
                        p >= PROBABILITY_SCALE ==> self@.synapses.len() - old_s == layer * m * m + (a - m * layer) * m,
                        draws@.len() == (nl - 1) * m * m,
                        n_draws == draws@.len(),
                    n_draws == draws@.len(),
                        draws_fit(draws@, p, d_span, w_span),
                        idx == a * m,
                        self@.follows_draws(old_view, m as int, p, draws@, idx as int),
                    decreases m * (layer + 1) - a,
                {
                    let mut b = m * (layer + 1);
                    while b < m * (layer + 2)
                        invariant
                            m == nodes_per_layer as int,
                            nl == layers as int,
                            m > 0,
                            m * nl == n,
                            n <= i32::MAX,
                            layer < nl - 1,
                            m * (layer + 2) <= m * nl,
                            m * (layer + 1) == m * layer + m,
                            m * (layer + 2) == m * (layer + 1) + m,
                            m * layer <= a < m * (layer + 1),
                            m * (layer + 1) <= b <= m * (layer + 2),
                            self@.neurons.len() == old_view.neurons.len() + n,
                            old_s == old_view.synapses.len(),
                self@.ff_partial(old_view, layers as int, nodes_per_layer as int, w_span, d_span, partial_d, declining_learning_rate, params_view),
                                    forall|s: int| old_s <= s < self@.synapses.len() ==> pair_before(
                                #[trigger] self@.synapses[s].pre_neuron as int,
                                self@.synapses[s].post_neuron as int,
                                a as int,
                                b as int,
                            ),
                            p == 0 ==> self@.synapses.len() == old_s,
                            p >= PROBABILITY_SCALE ==> self@.synapses.len() - old_s == layer * m * m + (a - m * layer) * m + (b - m * (layer + 1)),
                            draws@.len() == (nl - 1) * m * m,
                            n_draws == draws@.len(),
                        n_draws == draws@.len(),
                    n_draws == draws@.len(),
                            draws_fit(draws@, p, d_span, w_span),
                            idx == a * m + (b - m * (layer + 1)),
                            self@.follows_draws(old_view, m as int, p, draws@, idx as int),
                        decreases m * (layer + 2) - b,
                    {
                        proof {
                            assert(idx < draws@.len()) by (nonlinear_arith)
                                requires
                                    idx == a * m + (b - m * (layer + 1)),
                                    b < m * (layer + 2),
                                    m * (layer + 2) == m * (layer + 1) + m,
                                    a < m * (layer + 1),
                                    layer + 2 <= nl,
                                    m > 0,
                                    draws@.len() == (nl - 1) * m * m;
                            lemma_fundamental_div_mod_converse(b as int, m as int, (layer + 1) as int, b - m * (layer + 1));
                            assert(pair_index(m as int, a as int, b as int) == idx);
                        }
                        let (z, d, w) = draws[idx];
                        proof {
                            assert(z == draws@[idx as int].0 && d == draws@[idx as int].1 && w == draws@[idx as int].2);
                        }
                        if happens_with_draw(p, z) {
                            let ghost before = self@;
                            self.create_synapse(
                                a,
                                b,
                                w,
                                d,
                                FF_PRE_WINDOW,
                                FF_POST_WINDOW,
                                true,
                                false,
                                partial_d,
                                declining_learning_rate,
                            );
                            proof {
                                let after = self@;
                                let ns = after.synapses.len() - 1;
                                assert(after.synapses == before.synapses.push(after.synapses[ns]));
                                assert(after.synapses.len() == before.synapses.len() + 1);
                                assert(after.synapses.take(old_s) =~= before.synapses.take(old_s));
                                assert(in_layer(m as int, layer as int, a as int));
                                assert(in_layer(m as int, layer + 1, b as int));
                                assert(ff_pair(layers as int, nodes_per_layer as int, a as int, b as int));
                                assert(ff_synapse(after.synapses[ns], ns, layers as int, nodes_per_layer as int, w_span, d_span, partial_d, declining_learning_rate));
                                assert forall|s: int| old_s <= s < after.synapses.len() implies ff_synapse(
                                    #[trigger] after.synapses[s], s, layers as int, nodes_per_layer as int, w_span, d_span, partial_d, declining_learning_rate) by {
                                    if s < ns {
                                        assert(after.synapses[s] == before.synapses[s]);
                                    }
                                }
                                assert forall|s1: int, s2: int| old_s <= s1 < s2 < after.synapses.len() implies pair_before(
                                    #[trigger] after.synapses[s1].pre_neuron as int,
                                    after.synapses[s1].post_neuron as int,
                                    #[trigger] after.synapses[s2].pre_neuron as int,
                                    after.synapses[s2].post_neuron as int,
                                ) by {
                                    assert(after.synapses[s1] == before.synapses[s1]);
                                    if s2 < ns {
                                        assert(after.synapses[s2] == before.synapses[s2]);
                                    }
                                }
                                assert forall|s: int| old_s <= s < after.synapses.len() implies pair_before(
                                    #[trigger] after.synapses[s].pre_neuron as int,
                                    after.synapses[s].post_neuron as int,
                                    a as int,
                                    b + 1,
                                ) by {
                                    if s < ns {
                                        assert(after.synapses[s] == before.synapses[s]);
                                    }
                                }
                                lemma_follows_draws_push(before, after, old_view, m as int, p, draws@, idx as int);
                            }
                        } else {
                            proof {
                                lemma_follows_draws_skip(self@, old_view, m as int, p, draws@, idx as int);
                            }
                        }
                        idx += 1;
                        b += 1;
                    }
                    assert(layer * m * m + (a - m * layer) * m + m == layer * m * m + (a + 1 - m * layer) * m) by (nonlinear_arith);
                    assert(a * m + m == (a + 1) * m) by (nonlinear_arith);
                    a += 1;
                }
                assert(layer * m * m + (m * (layer + 1) - m * layer) * m == (layer + 1) * m * m) by (nonlinear_arith)
                    requires m * (layer + 1) == m * layer + m;
                layer += 1;
            }
            assert((nl - 1) * m * m == (layers - 1) * nodes_per_layer * nodes_per_layer);
            assert(m * (nl - 1) * m == (nl - 1) * m * m) by (nonlinear_arith);
        }
    }

    /// Collects the input of neuron `j` at the current time: each of its
    /// input connections, in order, delivers its waiting spike once and is
    /// drained, and then each of its incoming synapses, in order, delivers
    /// the first of its spikes that arrives now. Returns the sum of the
    /// weights delivered.
    pub fn neuron_input(&mut self, j: usize) -> (r: i128)
        requires
            old(self)@.wf(),
            j < old(self)@.neurons.len(),
        ensures
            final(self)@.wf(),
            final(self)@ == (PopulationView {
                synapses: old(self)@.collected_synapses(j as int),
                inputs: old(self)@.collected_inputs(j as int),
                ..old(self)@
            }),
            r == old(self)@.neuron_input(j as int),
    {
        let ghost old_view = self@;
        let ghost refs = old_view.neurons[j as int].input_connections;
        let ghost conn_deliveries = Seq::new(
            refs.len(),
            |r: int| old_view.inputs[refs[r].0 as int].input_connections[refs[r].1 as int].delivered(),
        );
        let t = self.t;
        let nr = self.neurons[j].input_connections.len();
        proof {
            assert(old_view.input_refs_ok(j as int));
            assert(self.neurons@[j as int]@ == old_view.neurons[j as int]);
        }
        proof {
            let d0 = old_view.drained_inputs(refs.take(0));
            assert forall|k2: int| 0 <= k2 < old_view.inputs.len() implies d0[k2] == old_view.inputs[k2] by {
                assert(d0[k2].input_connections =~= old_view.inputs[k2].input_connections);
                assert(d0[k2] =~= old_view.inputs[k2]);
            }
            assert(d0 =~= old_view.inputs);
            assert(self@ =~= PopulationView { inputs: d0, ..old_view });
        }
        let mut sum: i128 = 0;
        let mut r: usize = 0;
        while r < nr
            invariant
                t == old_view.t,
                nr == refs.len(),
                j < old_view.neurons.len(),
                r <= nr,
                old_view.input_refs_ok(j as int),
                refs == old_view.neurons[j as int].input_connections,
                conn_deliveries == Seq::new(
                    refs.len(),
                    |r: int| old_view.inputs[refs[r].0 as int].input_connections[refs[r].1 as int].delivered(),
                ),
                self@ == (PopulationView { inputs: old_view.drained_inputs(refs.take(r as int)), ..old_view }),
                self.neurons@[j as int]@.input_connections == refs,
                self.neurons@.len() == old_view.neurons.len(),
                sum == sum_of(conn_deliveries.take(r as int)),
                -(r as int) * 0x8000_0000 <= sum <= (r as int) * 0x8000_0000,
            decreases nr - r,
        {
            let (k, c) = self.neurons[j].input_connections[r];
            proof {
                lemma_names_take(refs, r as int);
                assert((k, c) == refs[r as int]);
                assert(self@.inputs.len() == self.inputs@.len());
                assert(self.inputs@[k as int]@ == self@.inputs[k as int]);
                assert(self@.inputs[k as int].input_connections[c as int] == old_view.inputs[k as int].input_connections[c as int]);
            }
            let ghost before = self@;
            let ghost before_vec = self.inputs@;
            let got = self.inputs[k].collect_connection(c, t);
            proof {
                lemma_one_entry_changed(before_vec, self.inputs@, k as int);
                assert(conn_deliveries.take(r + 1).drop_last() =~= conn_deliveries.take(r as int));
                assert(conn_deliveries[r as int] == got);
                let target = old_view.drained_inputs(refs.take(r + 1));
                assert(self.inputs@.len() == self.inputs.len());
                assert forall|k2: int| 0 <= k2 < old_view.inputs.len() implies self@.inputs[k2] == target[k2] by {
                    assert(self@.inputs[k2] == self.inputs@[k2]@);
                    assert(before.inputs[k2] == before_vec[k2]@);
                    let conns = old_view.inputs[k2].input_connections;
                    if k2 != k as int {
                        assert(self.inputs@[k2] == before_vec[k2]);
                    }
                    assert(self@.inputs[k2].input_connections.len() == conns.len());
                    assert forall|c2: int| 0 <= c2 < conns.len() implies #[trigger] self@.inputs[k2].input_connections[c2]
                        == target[k2].input_connections[c2] by {
                        assert(names_connection(refs.take(r + 1), k2, c2) == (names_connection(refs.take(r as int), k2, c2) || (
                            refs[r as int].0 == k2 && refs[r as int].1 == c2)));
                    }
                    assert(self@.inputs[k2].input_connections =~= target[k2].input_connections);
                    assert(self@.inputs[k2] =~= target[k2]);
                }
                assert(self@.inputs =~= target);
                assert(self@ =~= PopulationView { inputs: target, ..old_view });
            }
            sum = sum + got as i128;
            r += 1;
        }
        proof {
            assert(refs.take(nr as int) =~= refs);
            assert(conn_deliveries.take(nr as int) =~= conn_deliveries);
        }
        let ghost mid_view = self@;
        let ghost conn_total = sum;
        let ghost pre = old_view.neurons[j as int].pre_synapses;
        let ghost deliveries = Seq::new(pre.len(), |k: int| old_view.synapses[pre[k] as int].collected_input(old_view.t));
        let n = self.neurons[j].pre_synapses.len();
        proof {
            assert(old_view.incoming_ok(j as int));
            assert(self@.neurons == old_view.neurons);
            assert(self.neurons@[j as int]@ == self@.neurons[j as int]);
        }
        let mut k: usize = 0;
        while k < n
            invariant
                t == old_view.t,
                n == pre.len(),
                j < old_view.neurons.len(),
                k <= n,
                increasing_below(pre, old_view.synapses.len() as int),
                deliveries == Seq::new(pre.len(), |k: int| old_view.synapses[pre[k] as int].collected_input(old_view.t)),
                mid_view == (PopulationView { inputs: old_view.collected_inputs(j as int), ..old_view }),
                self@ == (PopulationView {
                    synapses: Seq::new(
                        old_view.synapses.len(),
                        |s: int|
                            if pre.take(k as int).contains(s as usize) {
                                old_view.synapses[s].collect(t)
                            } else {
                                old_view.synapses[s]
                            },
                    ),
                    ..mid_view
                }),
                self.neurons@[j as int]@.pre_synapses == pre,
                self.neurons@.len() == old_view.neurons.len(),
                conn_total == sum_of(conn_deliveries),
                conn_deliveries == Seq::new(
                    refs.len(),
                    |r: int| old_view.inputs[refs[r].0 as int].input_connections[refs[r].1 as int].delivered(),
                ),
                refs == old_view.neurons[j as int].input_connections,
                sum == conn_total + sum_of(deliveries.take(k as int)),
                nr == refs.len(),
                -((nr + k) as int) * 0x8000_0000 <= sum <= ((nr + k) as int) * 0x8000_0000,
            decreases n - k,
        {
            let s = self.neurons[j].pre_synapses[k];
            proof {
                lemma_increasing_take(pre, old_view.synapses.len() as int, k as int);
                assert(s == pre[k as int]);
                assert(self@.synapses[s as int] == old_view.synapses[s as int]);
                assert(self@.synapses.len() == self.synapses@.len());
                assert(s < self.synapses@.len());
                assert(self.synapses@[s as int]@ == self@.synapses[s as int]);
            }
            let ghost before = self@;
            let ghost before_vec = self.synapses@;
            let got = self.synapses[s].get_spikes(t);
            proof {
                lemma_one_entry_changed(before_vec, self.synapses@, s as int);

                assert(deliveries.take(k + 1).drop_last() =~= deliveries.take(k as int));
                assert(deliveries[k as int] == got);
                let target = Seq::new(
                    old_view.synapses.len(),
                    |s2: int|
                        if pre.take(k + 1).contains(s2 as usize) {
                            old_view.synapses[s2].collect(t)
                        } else {
                            old_view.synapses[s2]
                        },
                );
                assert(self.synapses@.len() == self.synapses.len());
                assert forall|s2: int| 0 <= s2 < old_view.synapses.len() implies self@.synapses[s2] == target[s2] by {
                    assert(pre.take(k + 1).contains(s2 as usize) <==> (pre.take(k as int).contains(s2 as usize) || s2 as usize == pre[k as int]));
                    assert(self@.synapses[s2] == self.synapses@[s2]@);
                    assert(before.synapses[s2] == before_vec[s2]@);
                    if s2 != s as int {
                        assert(self.synapses@[s2] == before_vec[s2]);
                    } else {
                        assert(!pre.take(k as int).contains(s));
                        assert(before.synapses[s2] == old_view.synapses[s2]);
                        assert(self@.synapses[s2] == old_view.synapses[s2].collect(t));
                    }
                }
                assert(self@.synapses =~= target);
                assert(self@ =~= PopulationView { synapses: target, ..mid_view });
            }
            sum = sum + got as i128;
            k += 1;
        }
        proof {
            assert(pre.take(n as int) =~= pre);
            assert(deliveries.take(n as int) =~= deliveries);
            assert(self@.synapses =~= old_view.collected_synapses(j as int));
            assert(self@.inputs == old_view.collected_inputs(j as int));
            assert forall|k2: int| #![trigger self@.inputs[k2]] 0 <= k2 < self@.inputs.len() implies {
                &&& self@.inputs[k2].id == old_view.inputs[k2].id
                &&& self@.inputs[k2].input_connections.len() == old_view.inputs[k2].input_connections.len()
            } by {}
            lemma_same_structure_wf(old_view, self@);
        }
        sum
    }

    /// Neuron `j` fires at the current time: the time is recorded, a spike
    /// is sent down each outgoing synapse, and then each incoming synapse,
    /// in order, records its arrivals against this spike (see
    /// `Synapse::get_avg_arrival_t`). Returns the arrivals of each incoming
    /// synapse, in the order of the neuron's incoming list.
    pub fn fire(&mut self, j: usize) -> (windows: Vec<ArrivalWindows>)
        requires
            old(self)@.wf(),
            j < old(self)@.neurons.len(),
        ensures
            final(self)@.wf(),
            final(self)@ == (PopulationView {
                neurons: old(self)@.fired_neurons(j as int),
                synapses: old(self)@.fired_synapses(j as int),
                ..old(self)@
            }),
            windows@.len() == old(self)@.neurons[j as int].pre_synapses.len(),
            forall|k: int|
                0 <= k < windows@.len() ==> arrivals_of(
                    #[trigger] windows@[k],
                    old(self)@.sent_synapses(j as int)[old(self)@.neurons[j as int].pre_synapses[k] as int],
                    old(self)@.t,
                ),
            forall|k: int|
                0 <= k < old(self)@.neurons[j as int].pre_synapses.len()
                    ==> #[trigger] final(self)@.synapses[old(self)@.neurons[j as int].pre_synapses[k] as int].arrival_sum
                    == sum_of(
                    old(self)@.sent_synapses(j as int)[old(self)@.neurons[j as int].pre_synapses[k] as int].pre_arrivals(
                        old(self)@.t,
                    ),
                ),
            forall|k: int|
                0 <= k < windows@.len()
                    ==> #[trigger] final(self)@.synapses[old(self)@.neurons[j as int].pre_synapses[k] as int].arrival_count
                    == windows@[k].pre@.len(),
    {
        let ghost old_view = self@;
        let ghost pre = old_view.neurons[j as int].pre_synapses;
        let ghost post = old_view.neurons[j as int].post_synapses;
        let t = self.t;
        proof {
            assert(old_view.incoming_ok(j as int));
            assert(old_view.outgoing_ok(j as int));
            assert(self.neurons@[j as int]@ == old_view.neurons[j as int]);
        }
        self.neurons[j].spikes.push(t);
        proof {
            assert(self@.neurons =~= old_view.fired_neurons(j as int));
        }
        let ghost fired_view = self@;
        let n_post = self.neurons[j].post_synapses.len();
        let mut k: usize = 0;
        while k < n_post
            invariant
                t == old_view.t,
                n_post == post.len(),
                j < old_view.neurons.len(),
                k <= n_post,
                increasing_below(post, old_view.synapses.len() as int),
                fired_view == (PopulationView { neurons: old_view.fired_neurons(j as int), ..old_view }),
                self@ == (PopulationView {
                    synapses: Seq::new(
                        old_view.synapses.len(),
                        |s: int|
                            if post.take(k as int).contains(s as usize) {
                                old_view.synapses[s].add_spike(t)
                            } else {
                                old_view.synapses[s]
                            },
                    ),
                    ..fired_view
                }),
                self.neurons@[j as int]@.post_synapses == post,
                self.neurons@.len() == old_view.neurons.len(),
            decreases n_post - k,
        {
            let s = self.neurons[j].post_synapses[k];
            proof {
                lemma_increasing_take(post, old_view.synapses.len() as int, k as int);
                assert(s == post[k as int]);
                assert(self@.synapses.len() == self.synapses@.len());
                assert(s < self.synapses@.len());
                assert(self.synapses@[s as int]@ == self@.synapses[s as int]);
            }
            let ghost before = self@;
            let ghost before_vec = self.synapses@;
            self.synapses[s].add_spike(t);
            proof {
                lemma_one_entry_changed(before_vec, self.synapses@, s as int);

                let target = Seq::new(
                    old_view.synapses.len(),
                    |s2: int|
                        if post.take(k + 1).contains(s2 as usize) {
                            old_view.synapses[s2].add_spike(t)
                        } else {
                            old_view.synapses[s2]
                        },
                );
                assert(self.synapses@.len() == self.synapses.len());
                assert forall|s2: int| 0 <= s2 < old_view.synapses.len() implies self@.synapses[s2] == target[s2] by {
                    assert(post.take(k + 1).contains(s2 as usize) <==> (post.take(k as int).contains(s2 as usize) || s2 as usize == post[k as int]));
                    assert(self@.synapses[s2] == self.synapses@[s2]@);
                    assert(before.synapses[s2] == before_vec[s2]@);
                    if s2 != s as int {
                        assert(self.synapses@[s2] == before_vec[s2]);
                    } else {
                        assert(!post.take(k as int).contains(s));
                        assert(before.synapses[s2] == old_view.synapses[s2]);
                        assert(self@.synapses[s2] == old_view.synapses[s2].add_spike(t));
                    }
                }
                assert(self@.synapses =~= target);
                assert(self@ =~= PopulationView { synapses: target, ..fired_view });
            }
            k += 1;
        }
        proof {
            assert(post.take(n_post as int) =~= post);
            assert(self@.synapses =~= old_view.sent_synapses(j as int));
        }
        let ghost sent = old_view.sent_synapses(j as int);
        let ghost sent_view = self@;
        proof {
            assert(self@.neurons[j as int] == self.neurons@[j as int]@);
            assert(self@.neurons[j as int].pre_synapses == pre);
        }
        let n_pre = self.neurons[j].pre_synapses.len();
        let mut windows: Vec<ArrivalWindows> = Vec::new();
        let mut k: usize = 0;
        while k < n_pre
            invariant
                t == old_view.t,
                n_pre == pre.len(),
                j < old_view.neurons.len(),
                k <= n_pre,
                increasing_below(pre, old_view.synapses.len() as int),
                sent == old_view.sent_synapses(j as int),
                sent.len() == old_view.synapses.len(),
                sent_view == (PopulationView { neurons: old_view.fired_neurons(j as int), synapses: sent, ..old_view }),
                self@ == (PopulationView {
                    synapses: Seq::new(
                        old_view.synapses.len(),
                        |s: int|
                            if pre.take(k as int).contains(s as usize) {
                                sent[s].record_arrivals(t)
                            } else {
                                sent[s]
                            },
                    ),
                    ..sent_view
                }),
                self.neurons@[j as int]@.pre_synapses == pre,
                self.neurons@.len() == old_view.neurons.len(),
                windows@.len() == k,
                forall|k2: int| 0 <= k2 < k ==> arrivals_of(#[trigger] windows@[k2], sent[pre[k2] as int], t),
                forall|k2: int|
                    0 <= k2 < k ==> #[trigger] self@.synapses[pre[k2] as int].arrival_sum == sum_of(
                        sent[pre[k2] as int].pre_arrivals(t),
                    ),
                forall|k2: int|
                    0 <= k2 < k ==> #[trigger] self@.synapses[pre[k2] as int].arrival_count == windows@[k2].pre@.len(),
            decreases n_pre - k,
        {
            let s = self.neurons[j].pre_synapses[k];
            proof {
                lemma_increasing_take(pre, old_view.synapses.len() as int, k as int);
                assert(s == pre[k as int]);
                assert(self@.synapses[s as int] == sent[s as int]);
                assert(self@.synapses.len() == self.synapses@.len());
                assert(s < self.synapses@.len());
                assert(self.synapses@[s as int]@ == self@.synapses[s as int]);
            }
            let ghost before = self@;
            let ghost before_vec = self.synapses@;
            let ghost old_windows = windows@;
            let w = self.synapses[s].get_avg_arrival_t(t);
            proof {
                assert(before_vec[s as int]@ == sent[s as int]);
                assert(as_ints(w.pre@) == sent[pre[k as int] as int].pre_arrivals(t));
            }
            windows.push(w);
            proof {
                assert forall|k2: int| 0 <= k2 < k + 1 implies arrivals_of(#[trigger] windows@[k2], sent[pre[k2] as int], t) by {
                    if k2 < k {
                        assert(windows@[k2] == old_windows[k2]);
                    }
                }
                lemma_one_entry_changed(before_vec, self.synapses@, s as int);

                let target = Seq::new(
                    old_view.synapses.len(),
                    |s2: int|
                        if pre.take(k + 1).contains(s2 as usize) {
                            sent[s2].record_arrivals(t)
                        } else {
                            sent[s2]
                        },
                );
                assert(self.synapses@.len() == self.synapses.len());
                assert forall|s2: int| 0 <= s2 < old_view.synapses.len() implies self@.synapses[s2] == target[s2] by {
                    assert(pre.take(k + 1).contains(s2 as usize) <==> (pre.take(k as int).contains(s2 as usize) || s2 as usize == pre[k as int]));
                    assert(self@.synapses[s2] == self.synapses@[s2]@);
                    assert(before.synapses[s2] == before_vec[s2]@);
                    if s2 != s as int {
                        assert(self.synapses@[s2] == before_vec[s2]);
                    } else {
                        assert(!pre.take(k as int).contains(s));
                        assert(before.synapses[s2] == sent[s2]);
                        assert(self@.synapses[s2] == sent[s2].record_arrivals(t));
                    }
                }
                assert(self@.synapses =~= target);
                assert forall|k2: int| 0 <= k2 < k + 1 implies #[trigger] self@.synapses[pre[k2] as int].arrival_sum
                    == sum_of(sent[pre[k2] as int].pre_arrivals(t)) by {
                    assert(self@.synapses[pre[k2] as int] == self.synapses@[pre[k2] as int]@);
                    if k2 < k {
                        assert(pre[k2] < pre[k as int]);
                        assert(before.synapses[pre[k2] as int] == before_vec[pre[k2] as int]@);
                    }
                }
                assert forall|k2: int| 0 <= k2 < k + 1 implies #[trigger] self@.synapses[pre[k2] as int].arrival_count
                    == windows@[k2].pre@.len() by {
                    assert(self@.synapses[pre[k2] as int] == self.synapses@[pre[k2] as int]@);
                    if k2 < k {
                        assert(pre[k2] < pre[k as int]);
                        assert(before.synapses[pre[k2] as int] == before_vec[pre[k2] as int]@);
                        assert(windows@[k2] == old_windows[k2]);
                    }
                }
                assert(self@ =~= PopulationView { synapses: target, ..sent_view });
            }
            k += 1;
        }
        proof {
            assert(pre.take(n_pre as int) =~= pre);
            assert(self@.synapses =~= old_view.fired_synapses(j as int));
            lemma_same_structure_wf(old_view, self@);
        }
        windows
    }

    /// Each input generator, in order, takes its step at the current time.
    pub fn update_inputs(&mut self)
        requires
            old(self)@.wf(),
        ensures
            final(self)@.wf(),
            final(self)@.inputs.len() == old(self)@.inputs.len(),
            forall|k: int|
                0 <= k < old(self)@.inputs.len() ==> input_stepped(
                    old(self)@.inputs[k],
                    #[trigger] final(self)@.inputs[k],
                    old(self)@.t,
                ),
            final(self)@ == (PopulationView { inputs: final(self)@.inputs, ..old(self)@ }),
    {
        let ghost old_view = self@;
        let t = self.t;
        let n = self.inputs.len();
        let mut k: usize = 0;
        while k < n
            invariant
                t == old_view.t,
                n == old_view.inputs.len(),
                k <= n,
                self@ == (PopulationView { inputs: self@.inputs, ..old_view }),
                self@.inputs.len() == n,
                forall|k2: int| 0 <= k2 < k ==> input_stepped(old_view.inputs[k2], #[trigger] self@.inputs[k2], t),
                forall|k2: int| k <= k2 < n ==> #[trigger] self@.inputs[k2] == old_view.inputs[k2],
            decreases n - k,
        {
            let ghost before_vec = self.inputs@;
            let ghost before = self@;
            proof {
                assert(self.inputs@.len() == self.inputs.len());
                assert(self@.inputs[k as int] == self.inputs@[k as int]@);
                assert(before_vec[k as int]@ == old_view.inputs[k as int]);
            }
            self.inputs[k].update(t);
            proof {
                assert(self.inputs@.len() == self.inputs.len());
                lemma_one_entry_changed(before_vec, self.inputs@, k as int);
                assert forall|k2: int| 0 <= k2 < k + 1 implies input_stepped(old_view.inputs[k2], #[trigger] self@.inputs[k2], t) by {
                    assert(self@.inputs[k2] == self.inputs@[k2]@);
                    if k2 < k {
                        assert(before_vec[k2]@ == self@.inputs[k2]);
                        assert(before.inputs[k2] == before_vec[k2]@);
                        assert(input_stepped(old_view.inputs[k2], before.inputs[k2], t));
                    } else {
                        let drawn = choose|drawn: bool| {
                            &&& self.inputs@[k2]@ == before_vec[k2]@.step(t, drawn)
                            &&& before_vec[k2]@.p >= PROBABILITY_SCALE ==> drawn
                            &&& before_vec[k2]@.p == 0 ==> !drawn
                        };
                        assert(self@.inputs[k2] == old_view.inputs[k2].step(t, drawn));
                    }
                }
                assert forall|k2: int| k + 1 <= k2 < n implies #[trigger] self@.inputs[k2] == old_view.inputs[k2] by {
                    assert(self@.inputs[k2] == self.inputs@[k2]@);
                    assert(before.inputs[k2] == before_vec[k2]@);
                    assert(before.inputs[k2] == old_view.inputs[k2]);
                }
                assert(self@ =~= PopulationView { inputs: self@.inputs, ..old_view });
            }
            k += 1;
        }
        proof {
            assert forall|k2: int| #![trigger self@.inputs[k2]] 0 <= k2 < n implies self@.inputs[k2].id == old_view.inputs[k2].id by {
                let drawn = choose|drawn: bool| {
                    &&& self@.inputs[k2] == old_view.inputs[k2].step(t, drawn)
                    &&& old_view.inputs[k2].p >= PROBABILITY_SCALE ==> drawn
                    &&& old_view.inputs[k2].p == 0 ==> !drawn
                };
            }
            lemma_same_structure_wf(old_view, self@);
        }
    }

    /// Shifts the delay of synapse `s` (see `Synapse::f_func`).
    pub fn shift_delay(&mut self, s: usize, shift: i64)
        requires
            old(self)@.wf(),
            s < old(self)@.synapses.len(),
            old(self)@.synapses[s as int].delay + crate::connections::MAX_DELAY <= u32::MAX,
        ensures
            final(self)@.wf(),
            final(self)@ == (PopulationView {
                synapses: old(self)@.synapses.update(s as int, old(self)@.synapses[s as int].shift_delay(shift as int)),
                ..old(self)@
            }),
    {
        let ghost old_view = self@;
        let ghost before_vec = self.synapses@;
        proof {
            assert(self.synapses@.len() == self.synapses.len());
            assert(before_vec[s as int]@ == old_view.synapses[s as int]);
        }
        self.synapses[s].f_func(shift);
        proof {
            assert(self.synapses@.len() == self.synapses.len());
            lemma_one_entry_changed(before_vec, self.synapses@, s as int);
            assert(self@.synapses =~= old_view.synapses.update(s as int, old_view.synapses[s as int].shift_delay(shift as int)));
            lemma_same_structure_wf(old_view, self@);
        }
    }

    /// Grows the delay of synapse `s` (see `Synapse::g_func`).
    pub fn grow_delay(&mut self, s: usize, growth: u32)
        requires
            old(self)@.wf(),
            s < old(self)@.synapses.len(),
        ensures
            final(self)@.wf(),
            final(self)@ == (PopulationView {
                synapses: old(self)@.synapses.update(s as int, old(self)@.synapses[s as int].grow_delay(growth)),
                ..old(self)@
            }),
    {
        let ghost old_view = self@;
        let ghost before_vec = self.synapses@;
        proof {
            assert(self.synapses@.len() == self.synapses.len());
            assert(before_vec[s as int]@ == old_view.synapses[s as int]);
        }
        self.synapses[s].g_func(growth);
        proof {
            assert(self.synapses@.len() == self.synapses.len());
            lemma_one_entry_changed(before_vec, self.synapses@, s as int);
            assert(self@.synapses =~= old_view.synapses.update(s as int, old_view.synapses[s as int].grow_delay(growth)));
            lemma_same_structure_wf(old_view, self@);
        }
    }

    /// Splits the incoming synapses of neuron `j`, in order, by the sign of
    /// their recorded average arrival: those below zero, and those above.
    /// Synapses with no recorded arrival, or an average of zero, are in
    /// neither.
    pub fn split_by_arrival(&self, j: usize) -> (r: (Vec<usize>, Vec<usize>))
        requires
            self@.wf(),
            j < self@.neurons.len(),
        ensures
            r.0@ == self@.neurons[j as int].pre_synapses.filter(|s: usize| early_arrival(self@.synapses[s as int])),
            r.1@ == self@.neurons[j as int].pre_synapses.filter(|s: usize| late_arrival(self@.synapses[s as int])),
    {
        let ghost pre = self@.neurons[j as int].pre_synapses;
        let ghost early_pred = |s: usize| early_arrival(self@.synapses[s as int]);
        let ghost late_pred = |s: usize| late_arrival(self@.synapses[s as int]);
        proof {
            assert(self@.incoming_ok(j as int));
            assert(self.neurons@[j as int]@ == self@.neurons[j as int]);
            assert(self.synapses@.len() == self.synapses.len());
        }
        let n = self.neurons[j].pre_synapses.len();
        let mut early: Vec<usize> = Vec::new();
        let mut late: Vec<usize> = Vec::new();
        let mut k: usize = 0;
        while k < n
            invariant
                n == pre.len(),
                j < self@.neurons.len(),
                k <= n,
                pre == self.neurons@[j as int]@.pre_synapses,
                increasing_below(pre, self@.synapses.len() as int),
                self.synapses@.len() == self@.synapses.len(),
                early_pred == (|s: usize| early_arrival(self@.synapses[s as int])),
                late_pred == (|s: usize| late_arrival(self@.synapses[s as int])),
                early@ == pre.take(k as int).filter(early_pred),
                late@ == pre.take(k as int).filter(late_pred),
            decreases n - k,
        {
            let s = self.neurons[j].pre_synapses[k];
            proof {
                assert(s == pre[k as int]);
                assert(self.synapses@[s as int]@ == self@.synapses[s as int]);
                assert(pre.take(k + 1) =~= pre.take(k as int).push(s));
                pre.take(k as int).lemma_filter_push(s, early_pred);
                pre.take(k as int).lemma_filter_push(s, late_pred);
            }
            let count = self.synapses[s].arrival_count;
            let sum = self.synapses[s].arrival_sum;
            if count > 0 && sum < 0 {
                early.push(s);
            } else if count > 0 && sum > 0 {
                late.push(s);
            }
            k += 1;
        }
        proof {
            assert(pre.take(n as int) =~= pre);
        }
        (early, late)
    }

    /// Grows the delays of the incoming synapses of neuron `j` that are
    /// trainable and found no pre-synaptic arrival in the last recording:
    /// the synapse at position `k` of the neuron's incoming list by
    /// `growth[k]` ticks (see `Synapse::g_func`).
    pub fn grow_delays(&mut self, j: usize, growth: &Vec<u32>)
        requires
            old(self)@.wf(),
            j < old(self)@.neurons.len(),
            growth@.len() == old(self)@.neurons[j as int].pre_synapses.len(),
        ensures
            final(self)@.wf(),
            final(self)@ == (PopulationView { synapses: final(self)@.synapses, ..old(self)@ }),
            final(self)@.synapses.len() == old(self)@.synapses.len(),
            forall|k: int|
                0 <= k < growth@.len() ==> #[trigger] final(self)@.synapses[old(self)@.neurons[j as int].pre_synapses[k] as int]
                    == grown_if_idle(old(self)@.synapses[old(self)@.neurons[j as int].pre_synapses[k] as int], growth@[k]),
            forall|s: int|
                0 <= s < old(self)@.synapses.len() && !old(self)@.neurons[j as int].pre_synapses.contains(s as usize)
                    ==> #[trigger] final(self)@.synapses[s] == old(self)@.synapses[s],
    {
        let ghost old_view = self@;
        let ghost pre = old_view.neurons[j as int].pre_synapses;
        proof {
            assert(old_view.incoming_ok(j as int));
            assert(self.neurons@[j as int]@ == old_view.neurons[j as int]);
        }
        let n = self.neurons[j].pre_synapses.len();
        let mut k: usize = 0;
        while k < n
            invariant
                n == pre.len(),
                n == growth@.len(),
                j < old_view.neurons.len(),
                k <= n,
                increasing_below(pre, old_view.synapses.len() as int),
                old_view.wf(),
                self@.same_structure(old_view),
                self@ == (PopulationView { synapses: self@.synapses, ..old_view }),
                self.neurons@[j as int]@.pre_synapses == pre,
                self.synapses@.len() == old_view.synapses.len(),
                forall|k2: int| 0 <= k2 < k ==> #[trigger] self@.synapses[pre[k2] as int]
                    == grown_if_idle(old_view.synapses[pre[k2] as int], growth@[k2]),
                forall|s: int| 0 <= s < old_view.synapses.len() && !pre.take(k as int).contains(s as usize)
                    ==> #[trigger] self@.synapses[s] == old_view.synapses[s],
            decreases n - k,
        {
            let s = self.neurons[j].pre_synapses[k];
            let ghost before = self@;
            let ghost before_vec = self.synapses@;
            proof {
                lemma_increasing_take(pre, old_view.synapses.len() as int, k as int);
                assert(s == pre[k as int]);
                assert(self.synapses@.len() == self.synapses.len());
                assert(self@.synapses[s as int] == old_view.synapses[s as int]);
                assert(self.synapses@[s as int]@ == self@.synapses[s as int]);
            }
            if self.synapses[s].delay_trainable && self.synapses[s].arrival_count == 0 {
                self.synapses[s].g_func(growth[k]);
            }
            proof {
                assert(self.synapses@.len() == self.synapses.len());
                assert(self.synapses@ =~= before_vec.update(s as int, self.synapses@[s as int]));
                lemma_one_entry_changed(before_vec, self.synapses@, s as int);
                assert forall|s2: int| #![trigger self@.synapses[s2]] 0 <= s2 < self@.synapses.len() implies
                    self@.synapses[s2] == self.synapses@[s2]@ && before.synapses[s2] == before_vec[s2]@ by {}
                assert(self@.synapses[s as int] == grown_if_idle(old_view.synapses[s as int], growth@[k as int]));
                assert forall|k2: int| 0 <= k2 < k + 1 implies #[trigger] self@.synapses[pre[k2] as int]
                    == grown_if_idle(old_view.synapses[pre[k2] as int], growth@[k2]) by {
                    if k2 < k {
                        assert(pre[k2] < pre[k as int]);
                        assert(self@.synapses[pre[k2] as int] == before.synapses[pre[k2] as int]);
                    }
                }
                assert forall|s2: int| 0 <= s2 < old_view.synapses.len() && !pre.take(k + 1).contains(s2 as usize)
                    implies #[trigger] self@.synapses[s2] == old_view.synapses[s2] by {
                    assert(pre.take(k + 1).contains(s2 as usize) <==> (pre.take(k as int).contains(s2 as usize) || s2 as usize == pre[k as int]));
                    assert(self@.synapses[s2] == before.synapses[s2]);
                }
                assert(self@ =~= PopulationView { synapses: self@.synapses, ..old_view });
                assert forall|s2: int| #![trigger self@.synapses[s2]] 0 <= s2 < self@.synapses.len() implies {
                    &&& self@.synapses[s2].id == old_view.synapses[s2].id
                    &&& self@.synapses[s2].pre_neuron == old_view.synapses[s2].pre_neuron
                    &&& self@.synapses[s2].post_neuron == old_view.synapses[s2].post_neuron
                } by {
                    assert(before.synapses[s2].id == old_view.synapses[s2].id);
                }
            }
            k += 1;
        }
        proof {
            assert(pre.take(n as int) =~= pre);
            lemma_same_structure_wf(old_view, self@);
        }
    }

    /// Trains the incoming synapses of neuron `j` by their recorded
    /// arrivals: the synapse at position `k` of the neuron's incoming list,
    /// when its arrivals average below zero, is shifted by `shifts[k]`; when
    /// above zero, by nothing, which keeps its delay at least `MIN_DELAY`
    /// (see `Synapse::f_func`).
    pub fn train_synapses(&mut self, j: usize, shifts: &Vec<i64>)
        requires
            old(self)@.wf(),
            j < old(self)@.neurons.len(),
            shifts@.len() == old(self)@.neurons[j as int].pre_synapses.len(),
            forall|k: int|
                0 <= k < shifts@.len() ==> old(self)@.synapses[#[trigger] old(self)@.neurons[j as int].pre_synapses[k] as int].delay
                    + crate::connections::MAX_DELAY <= u32::MAX,
        ensures
            final(self)@.wf(),
            final(self)@ == (PopulationView { synapses: final(self)@.synapses, ..old(self)@ }),
            final(self)@.synapses.len() == old(self)@.synapses.len(),
            forall|k: int|
                0 <= k < shifts@.len() ==> #[trigger] final(self)@.synapses[old(self)@.neurons[j as int].pre_synapses[k] as int]
                    == trained(old(self)@.synapses[old(self)@.neurons[j as int].pre_synapses[k] as int], shifts@[k]),
            forall|s: int|
                0 <= s < old(self)@.synapses.len() && !old(self)@.neurons[j as int].pre_synapses.contains(s as usize)
                    ==> #[trigger] final(self)@.synapses[s] == old(self)@.synapses[s],
    {
        let ghost old_view = self@;
        let ghost pre = old_view.neurons[j as int].pre_synapses;
        proof {
            assert(old_view.incoming_ok(j as int));
            assert(self.neurons@[j as int]@ == old_view.neurons[j as int]);
        }
        let n = self.neurons[j].pre_synapses.len();
        let mut k: usize = 0;
        while k < n
            invariant
                n == pre.len(),
                n == shifts@.len(),
                j < old_view.neurons.len(),
                k <= n,
                increasing_below(pre, old_view.synapses.len() as int),
                old_view.wf(),
                forall|k2: int| 0 <= k2 < n ==> old_view.synapses[#[trigger] pre[k2] as int].delay + crate::connections::MAX_DELAY <= u32::MAX,
                self@.same_structure(old_view),
                self@ == (PopulationView { synapses: self@.synapses, ..old_view }),
                self.neurons@[j as int]@.pre_synapses == pre,
                self.synapses@.len() == old_view.synapses.len(),
                forall|k2: int| 0 <= k2 < k ==> #[trigger] self@.synapses[pre[k2] as int]
                    == trained(old_view.synapses[pre[k2] as int], shifts@[k2]),
                forall|s: int| 0 <= s < old_view.synapses.len() && !pre.take(k as int).contains(s as usize)
                    ==> #[trigger] self@.synapses[s] == old_view.synapses[s],
            decreases n - k,
        {
            let s = self.neurons[j].pre_synapses[k];
            let ghost before = self@;
            let ghost before_vec = self.synapses@;
            proof {
                lemma_increasing_take(pre, old_view.synapses.len() as int, k as int);
                assert(s == pre[k as int]);
                assert(self.synapses@.len() == self.synapses.len());
                assert(self@.synapses[s as int] == old_view.synapses[s as int]);
                assert(self.synapses@[s as int]@ == self@.synapses[s as int]);
                assert(old_view.synapses[pre[k as int] as int].delay + crate::connections::MAX_DELAY <= u32::MAX);
            }
            let count = self.synapses[s].arrival_count;
            let sum = self.synapses[s].arrival_sum;
            if count > 0 && sum < 0 {
                self.synapses[s].f_func(shifts[k]);
            } else if count > 0 && sum > 0 {
                self.synapses[s].f_func(0);
            }
            proof {
                assert(self.synapses@.len() == self.synapses.len());
                assert(self.synapses@ =~= before_vec.update(s as int, self.synapses@[s as int]));
                lemma_one_entry_changed(before_vec, self.synapses@, s as int);
                assert forall|s2: int| #![trigger self@.synapses[s2]] 0 <= s2 < self@.synapses.len() implies
                    self@.synapses[s2] == self.synapses@[s2]@ && before.synapses[s2] == before_vec[s2]@ by {}
                assert(self@.synapses[s as int] == trained(old_view.synapses[s as int], shifts@[k as int]));
                assert forall|k2: int| 0 <= k2 < k + 1 implies #[trigger] self@.synapses[pre[k2] as int]
                    == trained(old_view.synapses[pre[k2] as int], shifts@[k2]) by {
                    if k2 < k {
                        assert(pre[k2] < pre[k as int]);
                        assert(self@.synapses[pre[k2] as int] == before.synapses[pre[k2] as int]);
                    }
                }
                assert forall|s2: int| 0 <= s2 < old_view.synapses.len() && !pre.take(k + 1).contains(s2 as usize)
                    implies #[trigger] self@.synapses[s2] == old_view.synapses[s2] by {
                    assert(pre.take(k + 1).contains(s2 as usize) <==> (pre.take(k as int).contains(s2 as usize) || s2 as usize == pre[k as int]));
                    assert(self@.synapses[s2] == before.synapses[s2]);
                }
                assert(self@ =~= PopulationView { synapses: self@.synapses, ..old_view });
                assert forall|s2: int| #![trigger self@.synapses[s2]] 0 <= s2 < self@.synapses.len() implies {
                    &&& self@.synapses[s2].id == old_view.synapses[s2].id
                    &&& self@.synapses[s2].pre_neuron == old_view.synapses[s2].pre_neuron
                    &&& self@.synapses[s2].post_neuron == old_view.synapses[s2].post_neuron
                } by {
                    assert(before.synapses[s2].id == old_view.synapses[s2].id);
                }
            }
            k += 1;
        }
        proof {
            assert(pre.take(n as int) =~= pre);
            lemma_same_structure_wf(old_view, self@);
        }
    }

    /// The learning of neuron `j` after it fired (see `fire`): first each
    /// incoming synapse that found no pre-synaptic arrival grows its delay
    /// by its entry of `growth`, then each early synapse shifts its delay by
    /// its entry of `shifts`, and each late one is kept at least
    /// `MIN_DELAY` (see `grow_delays` and `train_synapses`). The amounts
    /// are computed by the learning rules from what `fire` returned and
    /// from `split_by_arrival`, which growth leaves unchanged
    /// (`law_growth_keeps_arrivals`).
    pub fn learn(&mut self, j: usize, growth: &Vec<u32>, shifts: &Vec<i64>)
        requires
            old(self)@.wf(),
            j < old(self)@.neurons.len(),
            growth@.len() == old(self)@.neurons[j as int].pre_synapses.len(),
            shifts@.len() == old(self)@.neurons[j as int].pre_synapses.len(),
            forall|k: int|
                0 <= k < shifts@.len() ==> old(self)@.synapses[#[trigger] old(self)@.neurons[j as int].pre_synapses[k] as int].delay
                    + crate::connections::MAX_DELAY <= u32::MAX,
        ensures
            final(self)@.wf(),
            final(self)@ == (PopulationView { synapses: final(self)@.synapses, ..old(self)@ }),
            final(self)@.synapses.len() == old(self)@.synapses.len(),
            forall|k: int|
                0 <= k < shifts@.len() ==> #[trigger] final(self)@.synapses[old(self)@.neurons[j as int].pre_synapses[k] as int]
                    == trained(
                    grown_if_idle(old(self)@.synapses[old(self)@.neurons[j as int].pre_synapses[k] as int], growth@[k]),
                    shifts@[k],
                ),
            forall|s: int|
                0 <= s < old(self)@.synapses.len() && !old(self)@.neurons[j as int].pre_synapses.contains(s as usize)
                    ==> #[trigger] final(self)@.synapses[s] == old(self)@.synapses[s],
    {
        let ghost old_view = self@;
        let ghost pre = old_view.neurons[j as int].pre_synapses;
        self.grow_delays(j, growth);
        let ghost grown = self@;
        proof {
            assert forall|k: int| 0 <= k < shifts@.len() implies grown.synapses[#[trigger] grown.neurons[j as int].pre_synapses[k] as int].delay
                + crate::connections::MAX_DELAY <= u32::MAX by {
                assert(grown.neurons[j as int].pre_synapses[k] == pre[k]);
                assert(old_view.synapses[pre[k] as int].delay + crate::connections::MAX_DELAY <= u32::MAX);
                assert(grown.synapses[pre[k] as int] == grown_if_idle(old_view.synapses[pre[k] as int], growth@[k]));
            }
        }
        self.train_synapses(j, shifts);
        proof {
            assert forall|k: int| 0 <= k < shifts@.len() implies #[trigger] self@.synapses[pre[k] as int] == trained(
                grown_if_idle(old_view.synapses[pre[k] as int], growth@[k]),
                shifts@[k],
            ) by {
                assert(grown.neurons[j as int].pre_synapses[k] == pre[k]);
                assert(grown.synapses[pre[k] as int] == grown_if_idle(old_view.synapses[pre[k] as int], growth@[k]));
            }
            assert forall|s: int| 0 <= s < old_view.synapses.len() && !pre.contains(s as usize) implies #[trigger] self@.synapses[s]
                == old_view.synapses[s] by {
                assert(grown.synapses[s] == old_view.synapses[s]);
            }
        }
    }

    /// Advances the clock by one tick.
    pub fn advance(&mut self)
        requires
            old(self)@.t < u32::MAX,
        ensures
            final(self)@ == (PopulationView { t: (old(self)@.t + 1) as u32, ..old(self)@ }),
    {
        self.t = self.t + 1;
    }

    /// Counts the spikes of all neurons and records the count as the score.
    pub fn count_spikes(&mut self) -> (r: u64)
        requires
            total_spikes(old(self)@.neurons) <= u64::MAX,
        ensures
            r == total_spikes(old(self)@.neurons),
            final(self)@ == (PopulationView { score: r, ..old(self)@ }),
    {
        let ghost neurons = self@.neurons;
        let n = self.neurons.len();
        let mut total: u64 = 0;
        let mut i: usize = 0;
        while i < n
            invariant
                n == neurons.len(),
                neurons == self@.neurons,
                i <= n,
                total == total_spikes(neurons.take(i as int)),
                total_spikes(neurons) <= u64::MAX,
            decreases n - i,
        {
            proof {
                assert(neurons.take(i + 1).drop_last() =~= neurons.take(i as int));
                lemma_total_spikes_prefix(neurons, i + 1);
                assert(self.neurons@[i as int]@ == neurons[i as int]);
            }
            total = total + self.neurons[i].spikes.len() as u64;
            i += 1;
        }
        proof {
            assert(neurons.take(n as int) =~= neurons);
        }
        self.score = total;
        total
    }

    /// The current time, in ticks.
    pub fn time(&self) -> (r: u32)
        ensures
            r == self@.t,
    {
        self.t
    }

    /// The directory that the run's data is written to.
    pub fn dir(&self) -> (r: &String)
        ensures
            r@ == self@.dir,
    {
        &self.dir
    }

    pub fn neurons(&self) -> (r: &Vec<Neuron>)
        ensures
            r@.map_values(|n: Neuron| n@) == self@.neurons,
    {
        &self.neurons
    }

    pub fn synapses(&self) -> (r: &Vec<Synapse>)
        ensures
            r@.map_values(|s: Synapse| s@) == self@.synapses,
    {
        &self.synapses
    }

    pub fn inputs(&self) -> (r: &Vec<Input>)
        ensures
            r@.map_values(|i: Input| i@) == self@.inputs,
    {
        &self.inputs
    }

    /// The parameters of the network's build, if it was built from them.
    pub fn parameters(&self) -> (r: &Option<Parameters>)
        ensures
            match *r {
                Some(p) => self@.parameters == Some(p@),
                None => self@.parameters is None,
            },
    {
        &self.parameters
    }

    /// Names the output directory of a run: the population's name is
    /// appended to it, or `stamp` (the start time) when the name is empty.
    pub fn set_output_dir(&mut self, stamp: &str)
        ensures
            final(self)@ == (PopulationView {
                dir: old(self)@.dir + if old(self)@.name.len() == 0 { stamp@ } else { old(self)@.name },
                ..old(self)@
            }),
    {
        if self.name.as_str().is_empty() {
            self.dir.append(stamp);
        } else {
            let name = self.name.clone();
            self.dir.append(name.as_str());
        }
    }

    /// Marks the population with its generation: "_gen_" and the
    /// generation's number are appended to its name.
    pub fn tag_generation(&mut self, generation: u32)
        ensures
            final(self)@ == (PopulationView {
                name: old(self)@.name + seq!['_', 'g', 'e', 'n', '_'] + decimal(generation as nat),
                ..old(self)@
            }),
    {
        proof {
            reveal_strlit("_gen_");
        }
        self.name.append("_gen_");
        push_decimal(&mut self.name, generation as u64);
        assert(self@ =~= PopulationView {
            name: old(self)@.name + seq!['_', 'g', 'e', 'n', '_'] + decimal(generation as nat),
            ..old(self)@
        });
    }

    pub fn create_scale_free() {
    }

    pub fn create_small_world() {
    }

    pub fn create_reservoir() {
    }

    /// Sets neuron `j` to collect, at each of its steps, the spikes of
    /// connection `c` of input generator `k`; a connection that the neuron
    /// already collects stays listed once.
    pub fn attach_input_connection(&mut self, j: usize, k: usize, c: usize)
        requires
            old(self)@.wf(),
            j < old(self)@.neurons.len(),
            k < old(self)@.inputs.len(),
            c < old(self)@.inputs[k as int].input_connections.len(),
        ensures
            final(self)@.wf(),
            final(self)@ == old(self)@.attach_input(j as int, k, c),
    {
        let ghost old_view = self@;
        proof {
            assert(self.neurons@[j as int]@ == old_view.neurons[j as int]);
        }
        let present = contains_connection(&self.neurons[j].input_connections, (k, c));
        if !present {
            self.neurons[j].input_connections.push((k, c));
            let ghost target = old_view.attach_input(j as int, k, c);
            assert(self@.neurons =~= target.neurons);
            assert(self@ =~= target);
            assert forall|i: int| 0 <= i < self@.neurons.len() implies #[trigger] self@.outgoing_ok(i) by {
                assert(old_view.outgoing_ok(i));
            }
            assert forall|i: int| 0 <= i < self@.neurons.len() implies #[trigger] self@.incoming_ok(i) by {
                assert(old_view.incoming_ok(i));
            }
            assert forall|i: int| 0 <= i < self@.neurons.len() implies #[trigger] self@.input_refs_ok(i) by {
                assert(old_view.input_refs_ok(i));
                if i == j as int {
                    let refs = old_view.neurons[i].input_connections;
                    let new_refs = self@.neurons[i].input_connections;
                    assert(new_refs == refs.push((k, c)));
                    assert forall|a: int, b: int| 0 <= a < new_refs.len() && 0 <= b < new_refs.len() && a != b implies new_refs[a]
                        != new_refs[b] by {
                        if a == refs.len() {
                            assert(new_refs[b] == refs[b]);
                        } else if b == refs.len() {
                            assert(new_refs[a] == refs[a]);
                        }
                    }
                    assert forall|r: int| 0 <= r < new_refs.len() implies #[trigger] new_refs[r].0 < self@.inputs.len() && new_refs[r].1
                        < self@.inputs[new_refs[r].0 as int].input_connections.len() by {
                        if r < refs.len() {
                            assert(new_refs[r] == refs[r]);
                        }
                    }
                }
            }
        }
    }

    pub fn create_neuron(&mut self)
        requires
            old(self)@.wf(),
        ensures
            final(self)@.wf(),
            final(self)@ == old(self)@.add_neuron(),
    {
        let ghost old_view = self@;
        let neuron = Neuron::new(self.neuron_id);
        self.neurons.push(neuron);
        assert(self.neurons.len() == old_view.neurons.len() + 1);
        self.neuron_id = self.neuron_id + 1;
        assert(self@.neurons =~= old_view.add_neuron().neurons);
        assert(self@ =~= old_view.add_neuron());
        assert forall|i: int| 0 <= i < self@.neurons.len() implies #[trigger] self@.outgoing_ok(i) by {
            if i < old_view.neurons.len() {
                assert(old_view.outgoing_ok(i));
                assert(self@.neurons[i] == old_view.neurons[i]);
            }
        }
        assert forall|i: int| 0 <= i < self@.neurons.len() implies #[trigger] self@.incoming_ok(i) by {
            if i < old_view.neurons.len() {
                assert(old_view.incoming_ok(i));
                assert(self@.neurons[i] == old_view.neurons[i]);
            }
        }
        assert forall|i: int| 0 <= i < self@.neurons.len() implies #[trigger] self@.input_refs_ok(i) by {
            if i < old_view.neurons.len() {
                assert(old_view.input_refs_ok(i));
                assert(self@.neurons[i] == old_view.neurons[i]);
            }
        }
    }
}

} // verus!
