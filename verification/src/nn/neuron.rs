//! Neuron model for neural network.

use vstd::prelude::*;
use crate::nn::connection::Connection;
use crate::nn::math::Numeric;
use crate::nn::model::NeuronView;
use crate::nn::network::Network;

verus! {

/// Single neuron with connections, a bias and a value.
pub struct Neuron<T> {
    /// Indices of the input connections to this neuron.
    pub inputs: Vec<usize>,
    /// Indices of the output connections for this neuron.
    pub outputs: Vec<usize>,
    /// The neuron's current value.
    pub value: T,
    /// This neuron's bias value.
    pub bias: T,
    /// Whether or not this neuron's value is stale and should be refreshed.
    pub stale: bool,
}

impl<T> View for Neuron<T> {
    type V = NeuronView<T>;

    open spec fn view(&self) -> NeuronView<T> {
        NeuronView {
            inputs: self.inputs@,
            outputs: self.outputs@,
            value: self.value,
            bias: self.bias,
            stale: self.stale,
        }
    }
}

impl<T: Numeric> Default for Neuron<T> {
    /// A fresh, unconnected neuron whose value and bias are zero.
    fn default() -> (neuron: Self)
        ensures
            neuron@ == NeuronView::<T>::unconnected(T::zero_spec(), T::zero_spec(), false),
    {
        Neuron {
            inputs: Vec::new(),
            outputs: Vec::new(),
            value: T::zero(),
            bias: T::zero(),
            stale: false,
        }
    }
}

impl<T: Numeric> Neuron<T> {
    /// Calculate the value of neuron `id` based on its input connections.
    ///
    /// A fresh neuron yields its cached value and nothing changes.  A stale
    /// neuron reads its inputs in order, sums what they carry, subtracts its
    /// bias, stores the sigmoid of the result and becomes fresh; so does, before
    /// it, every stale neuron that it depends on through stale neurons.
    pub fn calculate(network: &mut Network<T>, id: usize) -> (value: T)
        requires
            old(network)@.well_formed(),
            old(network)@.acyclic(),
            id < old(network)@.neurons.len(),
        ensures
            value == old(network)@.activation(id as int),
            final(network)@ == old(network)@.after_calculate(id as int),
            final(network)@.well_formed(),
            final(network)@.acyclic(),
            !final(network)@.neurons[id as int].stale,
            final(network)@.neurons[id as int].value == value,
            !old(network)@.neurons[id as int].stale ==> value == old(network)@.neurons[id as int].value
                && final(network)@ == old(network)@,
            old(network)@.neurons[id as int].stale && old(network)@.neurons[id as int].inputs.len()
                == 0 ==> value == T::zero_spec().minus_spec(
                old(network)@.neurons[id as int].bias,
            ).sigmoid_spec(),
    {
        let ghost rank = network@.ranking();
        proof {
            crate::nn::theorems::lemma_read_leaves_fresh(network@, id as int);
            if !network@.neurons[id as int].stale {
                crate::nn::theorems::lemma_fresh_read_is_pure(network@, id as int);
            }
        }
        Self::read(network, id, Ghost(rank))
    }

    /// Mark neuron `id` as stale, and with it every neuron downstream of it.
    pub fn stale(network: &mut Network<T>, id: usize)
        requires
            old(network)@.well_formed(),
            old(network)@.acyclic(),
            id < old(network)@.neurons.len(),
        ensures
            final(network)@ == old(network)@.after_stale(id as int),
            final(network)@.well_formed(),
            final(network)@.acyclic(),
            final(network)@.neurons[id as int].stale,
    {
        let ghost rank = network@.ranking();
        proof {
            crate::nn::theorems::lemma_stale_sweeps_downstream(network@, id as int);
        }
        Self::invalidate(network, id, Ghost(rank))
    }

    /// Reads neuron `id` in a network that `rank` ranks.
    pub(crate) fn read(network: &mut Network<T>, id: usize, Ghost(rank): Ghost<Seq<nat>>) -> (value:
        T)
        requires
            old(network)@.well_formed(),
            old(network)@.ranked_by(rank),
            id < old(network)@.neurons.len(),
        ensures
            value == old(network)@.activation(id as int),
            final(network)@ == old(network)@.after_calculate(id as int),
        decreases rank[id as int], 1int,
    {
        let ghost s = network@;
        proof {
            assert(s.neurons[id as int] == network.neurons[id as int]@);
        }
        if !network.neurons[id].stale {
            proof {
                crate::nn::lemmas::lemma_read_fresh(s, rank, id as int);
            }
            return network.neurons[id].value;
        }
        let count = network.neurons[id].inputs.len();
        let mut total = T::zero();
        let mut k: usize = 0;
        proof {
            crate::nn::lemmas::lemma_read_start(s, rank, id as int);
        }
        while k < count
            invariant
                s.well_formed(),
                s.ranked_by(rank),
                id < s.neurons.len(),
                s.neurons[id as int].stale,
                count == s.neurons[id as int].inputs.len(),
                k <= count,
                network@ == s.after_inputs(id as int, k as int),
                total == s.weighted_input(id as int, k as int),
            decreases count - k,
        {
            proof {
                crate::nn::lemmas::lemma_read_input(s, rank, id as int, k as int);
                assert(network@.neurons[id as int] == network.neurons[id as int]@);
                assert(network@.neurons[id as int].inputs == s.neurons[id as int].inputs);
            }
            let c = network.neurons[id].inputs[k];
            let carried = Connection::read(network, c, Ghost(rank));
            total = total.plus(carried);
            k = k + 1;
        }
        let ghost t = network@;
        proof {
            assert(t.neurons.len() == s.neurons.len());
            assert(t.neurons[id as int] == network.neurons[id as int]@);
            assert(t.neurons[id as int].bias == s.neurons[id as int].bias);
        }
        let value = total.minus(network.neurons[id].bias).sigmoid();
        network.neurons[id].value = value;
        network.neurons[id].stale = false;
        proof {
            assert(network@.neurons =~= t.neurons.update(
                id as int,
                NeuronView { value: s.activation(id as int), stale: false, ..t.neurons[id as int] },
            ));
            crate::nn::lemmas::lemma_read_finish(s, rank, id as int, network@);
        }
        value
    }

    /// Invalidates neuron `id` in a network that `rank` ranks.
    pub(crate) fn invalidate(network: &mut Network<T>, id: usize, Ghost(rank): Ghost<Seq<nat>>)
        requires
            old(network)@.well_formed(),
            old(network)@.ranked_by(rank),
            id < old(network)@.neurons.len(),
        ensures
            final(network)@ == old(network)@.after_stale(id as int),
        decreases crate::nn::model::crest(rank) - rank[id as int], 1int,
    {
        let ghost s = network@;
        proof {
            assert(s.neurons[id as int] == network.neurons[id as int]@);
        }
        network.neurons[id].stale = true;
        proof {
            assert(network@.neurons =~= s.neurons.update(
                id as int,
                NeuronView { stale: true, ..s.neurons[id as int] },
            ));
            crate::nn::lemmas::lemma_mark_start(s, rank, id as int, network@);
            assert(network@.neurons[id as int] == network.neurons[id as int]@);
        }
        let count = network.neurons[id].outputs.len();
        let mut k: usize = 0;
        while k < count
            invariant
                s.well_formed(),
                s.ranked_by(rank),
                id < s.neurons.len(),
                count == s.neurons[id as int].outputs.len(),
                k <= count,
                network@ == s.after_outputs(id as int, k as int),
            decreases count - k,
        {
            proof {
                crate::nn::lemmas::lemma_mark_output(s, rank, id as int, k as int);
                crate::nn::model::lemma_crest_bounds(rank, id as int);
                crate::nn::model::lemma_crest_bounds(rank, s.target(id as int, k as int));
                assert(network@.neurons[id as int] == network.neurons[id as int]@);
                assert(network@.neurons[id as int].outputs == s.neurons[id as int].outputs);
            }
            let c = network.neurons[id].outputs[k];
            Connection::invalidate(network, c, Ghost(rank));
            k = k + 1;
        }
        proof {
            crate::nn::lemmas::lemma_mark_finish(s, rank, id as int);
        }
    }
}

} // verus!
