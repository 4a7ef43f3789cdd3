//! Connection model for neural network.

use vstd::prelude::*;
use crate::nn::math::Numeric;
use crate::nn::network::Network;
use crate::nn::neuron::Neuron;

verus! {

/// Connection between two neurons of a network.
pub struct Connection<T> {
    /// Index of the input neuron.
    pub input: usize,
    /// Index of the output neuron.
    pub output: usize,
    /// The weight value for this connection.
    pub weight: T,
}

impl<T: Numeric> Default for Connection<T> {
    /// A connection of weight one whose two ends are neuron 0.
    fn default() -> (connection: Self)
        ensures
            connection.input == 0,
            connection.output == 0,
            connection.weight == T::one_spec(),
    {
        Connection { input: 0, output: 0, weight: T::one() }
    }
}

impl<T: Numeric> Connection<T> {
    /// Calculate the effective value for connection `id`: the value of its
    /// input neuron, which is read for it, times its weight.
    pub fn calculate(network: &mut Network<T>, id: usize) -> (value: T)
        requires
            old(network)@.well_formed(),
            old(network)@.acyclic(),
            id < old(network)@.connections.len(),
        ensures
            value == old(network)@.contribution(id as int),
            value == old(network)@.activation(
                old(network)@.connections[id as int].input as int,
            ).times_spec(old(network)@.connections[id as int].weight),
            final(network)@ == old(network)@.after_calculate(
                old(network)@.connections[id as int].input as int,
            ),
            final(network)@.well_formed(),
            final(network)@.acyclic(),
    {
        let ghost rank = network@.ranking();
        proof {
            crate::nn::theorems::lemma_read_leaves_fresh(
                network@,
                network@.connections[id as int].input as int,
            );
        }
        Self::read(network, id, Ghost(rank))
    }

    /// Make the output neuron for connection `id` stale, and with it every
    /// neuron downstream of it.
    pub fn stale(network: &mut Network<T>, id: usize)
        requires
            old(network)@.well_formed(),
            old(network)@.acyclic(),
            id < old(network)@.connections.len(),
        ensures
            final(network)@ == old(network)@.after_stale(
                old(network)@.connections[id as int].output as int,
            ),
            final(network)@.well_formed(),
            final(network)@.acyclic(),
            final(network)@.neurons[old(network)@.connections[id as int].output as int].stale,
    {
        let ghost rank = network@.ranking();
        proof {
            crate::nn::theorems::lemma_stale_sweeps_downstream(
                network@,
                network@.connections[id as int].output as int,
            );
        }
        Self::invalidate(network, id, Ghost(rank))
    }

    /// Reads connection `id` in a network that `rank` ranks.
    pub(crate) fn read(network: &mut Network<T>, id: usize, Ghost(rank): Ghost<Seq<nat>>) -> (value:
        T)
        requires
            old(network)@.well_formed(),
            old(network)@.ranked_by(rank),
            id < old(network)@.connections.len(),
        ensures
            value == old(network)@.contribution(id as int),
            final(network)@ == old(network)@.after_calculate(
                old(network)@.connections[id as int].input as int,
            ),
        decreases rank[old(network)@.connections[id as int].output as int], 0int,
    {
        let from = network.connections[id].input;
        let weight = network.connections[id].weight;
        Neuron::read(network, from, Ghost(rank)).times(weight)
    }

    /// Invalidates the output neuron of connection `id` in a network that
    /// `rank` ranks.
    pub(crate) fn invalidate(network: &mut Network<T>, id: usize, Ghost(rank): Ghost<Seq<nat>>)
        requires
            old(network)@.well_formed(),
            old(network)@.ranked_by(rank),
            id < old(network)@.connections.len(),
        ensures
            final(network)@ == old(network)@.after_stale(
                old(network)@.connections[id as int].output as int,
            ),
        decreases
                crate::nn::model::crest(rank) - rank[old(
                    network,
                )@.connections[id as int].input as int],
                0int,
    {
        proof {
            crate::nn::model::lemma_crest_bounds(
                rank,
                network@.connections[id as int].input as int,
            );
            crate::nn::model::lemma_crest_bounds(
                rank,
                network@.connections[id as int].output as int,
            );
        }
        let to = network.connections[id].output;
        Neuron::invalidate(network, to, Ghost(rank))
    }
}

} // verus!
