//! Neurons: their place in the network and the times at which they fired.
//! The membrane dynamics are computed in floating point by the simulation
//! driver; the library holds what the network's structure and its spike
//! routing read.
use vstd::prelude::*;

verus! {

/// What a neuron holds, as mathematical values.
#[verifier::ext_equal]
pub struct NeuronView {
    pub id: usize,
    pub pre_synapses: Seq<usize>,
    pub post_synapses: Seq<usize>,
    pub input_connections: Seq<(usize, usize)>,
    pub spikes: Seq<u32>,
}

/// A neuron of a population. Synapses are named by their index in the
/// population, which is also their id.
pub struct Neuron {
    pub id: usize,
    /// Synapses that end at this neuron, in order of creation.
    pub pre_synapses: Vec<usize>,
    /// Synapses that start at this neuron, in order of creation.
    pub post_synapses: Vec<usize>,
    /// Input connections whose spikes this neuron collects, each named by
    /// the index of its input generator in the population and its index
    /// among that generator's connections.
    pub input_connections: Vec<(usize, usize)>,
    /// Times at which the neuron fired, in ticks.
    pub spikes: Vec<u32>,
}

impl View for Neuron {
    type V = NeuronView;

    open spec fn view(&self) -> NeuronView {
        NeuronView {
            id: self.id,
            pre_synapses: self.pre_synapses@,
            post_synapses: self.post_synapses@,
            input_connections: self.input_connections@,
            spikes: self.spikes@,
        }
    }
}

impl Neuron {
    pub fn new(id: usize) -> (r: Self)
        ensures
            r@ == (NeuronView {
                id,
                pre_synapses: Seq::empty(),
                post_synapses: Seq::empty(),
                input_connections: Seq::empty(),
                spikes: Seq::empty(),
            }),
    {
        Neuron {
            id,
            pre_synapses: Vec::new(),
            post_synapses: Vec::new(),
            input_connections: Vec::new(),
            spikes: Vec::new(),
        }
    }

    /// The times at which the neuron fired.
    pub fn get_spikes(&mut self) -> (r: &mut Vec<u32>)
        ensures
            *r == old(self).spikes,
            final(self)@ == (NeuronView { spikes: final(r)@, ..old(self)@ }),
    {
        &mut self.spikes
    }
}

} // verus!
