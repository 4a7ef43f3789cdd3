//! The network: the arena that owns the neurons and their connections.

use vstd::prelude::*;
use crate::nn::connection::Connection;
use crate::nn::math::Numeric;
use crate::nn::model::NetworkView;
use crate::nn::neuron::Neuron;

verus! {

/// A directed graph of neurons joined by weighted connections.
///
/// Neurons and connections are addressed by their index in the two vectors.
/// A neuron lists its incoming and outgoing connections by index, and a
/// connection names its two neurons by index.
pub struct Network<T> {
    /// The neurons.
    pub neurons: Vec<Neuron<T>>,
    /// The connections.
    pub connections: Vec<Connection<T>>,
}

impl<T> View for Network<T> {
    type V = NetworkView<T>;

    open spec fn view(&self) -> NetworkView<T> {
        NetworkView {
            neurons: self.neurons@.map_values(|neuron: Neuron<T>| neuron@),
            connections: self.connections@,
        }
    }
}

impl<T: Numeric> Network<T> {
    /// Creates a network without neurons.
    pub fn new() -> (network: Self)
        ensures
            network@ == NetworkView::<T>::empty(),
            network@.well_formed(),
            network@.acyclic(),
    {
        let network = Network { neurons: Vec::new(), connections: Vec::new() };
        proof {
            assert(network@.neurons =~= Seq::empty());
            assert(network@.ranked_by(Seq::empty()));
        }
        network
    }

    /// Adds a neuron with the value, bias and staleness of `neuron` and
    /// returns its index.  The new neuron has no connections: those that
    /// `neuron` lists are not taken over.
    pub fn add_neuron(&mut self, neuron: Neuron<T>) -> (id: usize)
        ensures
            id == old(self).neurons.len(),
            final(self)@ == old(self)@.with_neuron(neuron.value, neuron.bias, neuron.stale),
            old(self)@.well_formed() ==> final(self)@.well_formed(),
            old(self)@.well_formed() && old(self)@.acyclic() ==> final(self)@.acyclic(),
    {
        let id = self.neurons.len();
        self.neurons.push(
            Neuron {
                inputs: Vec::new(),
                outputs: Vec::new(),
                value: neuron.value,
                bias: neuron.bias,
                stale: neuron.stale,
            },
        );
        proof {
            assert(self@.neurons =~= old(self)@.with_neuron(
                neuron.value,
                neuron.bias,
                neuron.stale,
            ).neurons);
            if old(self)@.well_formed() && old(self)@.acyclic() {
                assert(self@.ranked_by(old(self)@.ranking().push(0)));
            }
        }
        id
    }

    /// Adds `connection` and returns its index.  Returns `None` and leaves
    /// the network as it is where one of its two neurons is not in the network,
    /// or where the connection would close a cycle: where its input neuron is
    /// its output neuron or lies downstream of it.
    pub fn add_connection(&mut self, connection: Connection<T>) -> (id: Option<usize>)
        requires
            old(self)@.well_formed(),
            old(self)@.acyclic(),
        ensures
            id is Some <==> connection.input < old(self)@.neurons.len() && connection.output < old(
                self,
            )@.neurons.len() && !old(self)@.reaches(
                connection.output as int,
                connection.input as int,
            ),
            id is Some ==> id == Some(old(self).connections.len()) && final(self)@ == old(
                self,
            )@.with_connection(connection),
            id is None ==> *final(self) == *old(self),
            final(self)@.well_formed(),
            final(self)@.acyclic(),
    {
        if connection.input >= self.neurons.len() || connection.output >= self.neurons.len() {
            return None;
        }
        if self.reaches(connection.output, connection.input) {
            return None;
        }
        let id = self.connections.len();
        self.neurons[connection.input].outputs.push(id);
        self.neurons[connection.output].inputs.push(id);
        self.connections.push(connection);
        proof {
            assert(self@.neurons =~~= old(self)@.with_connection(connection).neurons);
            assert(self.connections.len() <= usize::MAX);
            crate::nn::lemmas::lemma_with_connection_well_formed(old(self)@, connection);
            crate::nn::lemmas::lemma_with_connection_ranked(
                old(self)@,
                old(self)@.ranking(),
                connection,
            );
        }
        Some(id)
    }

    /// Tells whether neuron `to` is neuron `from` or lies downstream of it.
    pub fn reaches(&self, from: usize, to: usize) -> (found: bool)
        requires
            self@.well_formed(),
            self@.acyclic(),
            from < self@.neurons.len(),
            to < self@.neurons.len(),
        ensures
            found == self@.reaches(from as int, to as int),
    {
        let ghost rank = self@.ranking();
        let mut visited: Vec<bool> = Vec::new();
        let mut n: usize = 0;
        while n < self.neurons.len()
            invariant
                n <= self.neurons.len(),
                visited@.len() == n,
                forall|i: int| 0 <= i < n ==> !visited@[i],
            decreases self.neurons.len() - n,
        {
            visited.push(false);
            n = n + 1;
        }
        let found = self.search(from, to, &mut visited, Ghost(rank));
        proof {
            if !found {
                crate::nn::lemmas::lemma_sealed_never_reaches(
                    self@,
                    rank,
                    visited@,
                    to as int,
                    from as int,
                );
            }
        }
        found
    }

    /// Looks for `to` downstream of `from`, passing over the neurons that
    /// `visited` marks, and marks those from which it is not found.
    fn search(&self, from: usize, to: usize, visited: &mut Vec<bool>, Ghost(rank): Ghost<Seq<nat>>) -> (found:
        bool)
        requires
            self@.well_formed(),
            self@.ranked_by(rank),
            from < self@.neurons.len(),
            to < self@.neurons.len(),
            self@.sealed(old(visited)@, to as int),
        ensures
            found ==> self@.reaches(from as int, to as int),
            !found ==> self@.sealed(final(visited)@, to as int) && final(visited)@[from as int],
            final(visited)@.len() == old(visited)@.len(),
            forall|n: int| 0 <= n < old(visited)@.len() && old(visited)@[n] ==> final(visited)@[n],
        decreases crate::nn::model::crest(rank) - rank[from as int],
    {
        let ghost s = self@;
        proof {
            assert(s.neurons[from as int] == self.neurons[from as int]@);
        }
        if from == to {
            return true;
        }
        if visited[from] {
            return false;
        }
        let count = self.neurons[from].outputs.len();
        let mut k: usize = 0;
        while k < count
            invariant
                s == self@,
                s.well_formed(),
                s.ranked_by(rank),
                from < s.neurons.len(),
                to < s.neurons.len(),
                from != to,
                count == s.neurons[from as int].outputs.len(),
                k <= count,
                s.sealed(visited@, to as int),
                visited@.len() == old(visited)@.len(),
                forall|n: int| 0 <= n < old(visited)@.len() && old(visited)@[n] ==> visited@[n],
                forall|j: int| 0 <= j < k ==> visited@[#[trigger] s.target(from as int, j)],
            decreases count - k,
        {
            proof {
                assert(s.neurons[from as int] == self.neurons[from as int]@);
                crate::nn::model::lemma_crest_bounds(rank, from as int);
                crate::nn::model::lemma_crest_bounds(rank, s.target(from as int, k as int));
            }
            let c = self.neurons[from].outputs[k];
            let next = self.connections[c].output;
            if self.search(next, to, visited, Ghost(rank)) {
                proof {
                    crate::nn::lemmas::lemma_reaches_through(
                        s,
                        rank,
                        from as int,
                        k as int,
                        count as int,
                        to as int,
                    );
                }
                return true;
            }
            k = k + 1;
        }
        visited[from] = true;
        false
    }
}

} // verus!
