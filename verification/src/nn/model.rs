//! Mathematical model of a network, over which the contracts are stated.

use vstd::prelude::*;
use crate::nn::connection::Connection;
use crate::nn::math::Numeric;

verus! {

/// What a neuron holds, with its connection lists as sequences.
pub struct NeuronView<T> {
    /// Indices of the incoming connections, in the order in which they are summed.
    pub inputs: Seq<usize>,
    /// Indices of the outgoing connections.
    pub outputs: Seq<usize>,
    /// The cached value.
    pub value: T,
    /// The bias.
    pub bias: T,
    /// Whether the cached value has to be recomputed before it is used.
    pub stale: bool,
}

impl<T> NeuronView<T> {
    /// A neuron that no connection touches.
    pub open spec fn unconnected(value: T, bias: T, stale: bool) -> Self {
        NeuronView { inputs: Seq::empty(), outputs: Seq::empty(), value, bias, stale }
    }
}

/// A network: neurons and connections, each addressed by its index.
pub struct NetworkView<T> {
    /// The neurons.
    pub neurons: Seq<NeuronView<T>>,
    /// The connections.
    pub connections: Seq<Connection<T>>,
}

/// The largest entry of `rank`, or 0 for the empty sequence.
pub open spec fn crest(rank: Seq<nat>) -> nat
    decreases rank.len(),
{
    if rank.len() == 0 {
        0
    } else if rank.last() > crest(rank.drop_last()) {
        rank.last()
    } else {
        crest(rank.drop_last())
    }
}

/// No entry of `rank` exceeds its crest.
pub proof fn lemma_crest_bounds(rank: Seq<nat>, i: int)
    requires
        0 <= i < rank.len(),
    ensures
        rank[i] <= crest(rank),
    decreases rank.len(),
{
    if i < rank.len() - 1 {
        lemma_crest_bounds(rank.drop_last(), i);
    }
}

impl<T> NetworkView<T> {
    /// The network without neurons.
    pub open spec fn empty() -> Self {
        NetworkView { neurons: Seq::empty(), connections: Seq::empty() }
    }

    /// The network with one more neuron, which no connection touches.
    pub open spec fn with_neuron(self, value: T, bias: T, stale: bool) -> Self {
        NetworkView {
            neurons: self.neurons.push(NeuronView::unconnected(value, bias, stale)),
            connections: self.connections,
        }
    }

    /// The network with one more connection, listed last among the outgoing
    /// connections of its input neuron and among the incoming connections of
    /// its output neuron.
    pub open spec fn with_connection(self, connection: Connection<T>) -> Self {
        let id = self.connections.len() as usize;
        let from = connection.input as int;
        let to = connection.output as int;
        let fed = self.neurons.update(
            from,
            NeuronView { outputs: self.neurons[from].outputs.push(id), ..self.neurons[from] },
        );
        NetworkView {
            neurons: fed.update(to, NeuronView { inputs: fed[to].inputs.push(id), ..fed[to] }),
            connections: self.connections.push(connection),
        }
    }
}

impl<T: Numeric> NetworkView<T> {
    /// Every index that the network stores is in range, and neurons and
    /// connections agree on the wiring: a connection that a neuron lists has
    /// that neuron at the matching end, and each connection is listed among the
    /// outgoing connections of its input neuron and among the incoming
    /// connections of its output neuron.
    pub open spec fn well_formed(self) -> bool {
        &&& forall|c: int|
            0 <= c < self.connections.len() ==> (#[trigger] self.connections[c]).input
                < self.neurons.len() && self.connections[c].output < self.neurons.len()
        &&& forall|c: int|
            0 <= c < self.connections.len() ==> self.neurons[(
            #[trigger] self.connections[c]).input as int].outputs.contains(c as usize)
                && self.neurons[self.connections[c].output as int].inputs.contains(c as usize)
        &&& forall|n: int, k: int|
            0 <= n < self.neurons.len() && 0 <= k < self.neurons[n].inputs.len() ==> (
            #[trigger] self.neurons[n].inputs[k]) < self.connections.len()
                && self.connections[self.neurons[n].inputs[k] as int].output == n
        &&& forall|n: int, k: int|
            0 <= n < self.neurons.len() && 0 <= k < self.neurons[n].outputs.len() ==> (
            #[trigger] self.neurons[n].outputs[k]) < self.connections.len()
                && self.connections[self.neurons[n].outputs[k] as int].input == n
    }

    /// `rank` gives every neuron a number that grows along every connection.
    pub open spec fn ranked_by(self, rank: Seq<nat>) -> bool {
        &&& rank.len() == self.neurons.len()
        &&& forall|c: int|
            0 <= c < self.connections.len() ==> rank[(#[trigger] self.connections[c]).input as int]
                < rank[self.connections[c].output as int]
    }

    /// The connections form no cycle.
    pub open spec fn acyclic(self) -> bool {
        exists|rank: Seq<nat>| self.ranked_by(rank)
    }

    /// Some ranking of an acyclic network.
    pub open spec fn ranking(self) -> Seq<nat> {
        choose|rank: Seq<nat>| self.ranked_by(rank)
    }

    /// The neuron that feeds neuron `n` through the `k`-th of its incoming connections.
    pub open spec fn source(self, n: int, k: int) -> int {
        self.connections[self.neurons[n].inputs[k] as int].input as int
    }

    /// The neuron that neuron `n` feeds through the `k`-th of its outgoing connections.
    pub open spec fn target(self, n: int, k: int) -> int {
        self.connections[self.neurons[n].outputs[k] as int].output as int
    }

    /// The value that reading neuron `id` yields: the cached value of a fresh
    /// neuron, and for a stale one the sigmoid of its weighted input less its bias.
    pub open spec fn activation(self, id: int) -> T
        decreases self.ranking()[id], self.neurons[id].inputs.len() + 1,
        when self.well_formed() && self.acyclic() && 0 <= id < self.neurons.len()
    {
        if self.neurons[id].stale {
            self.weighted_input(id, self.neurons[id].inputs.len() as int).minus_spec(
                self.neurons[id].bias,
            ).sigmoid_spec()
        } else {
            self.neurons[id].value
        }
    }

    /// The sum of what the first `k` incoming connections of neuron `id`
    /// carry, added from left to right starting at zero.
    pub open spec fn weighted_input(self, id: int, k: int) -> T
        decreases self.ranking()[id], k,
        when self.well_formed() && self.acyclic() && 0 <= id < self.neurons.len() && 0 <= k
            <= self.neurons[id].inputs.len()
    {
        if k == 0 {
            T::zero_spec()
        } else {
            self.weighted_input(id, k - 1).plus_spec(
                self.contribution(self.neurons[id].inputs[k - 1] as int),
            )
        }
    }

    /// What connection `c` carries: the activation of its input neuron times
    /// its weight.
    pub open spec fn contribution(self, c: int) -> T
        decreases self.ranking()[self.connections[c].output as int], 0int,
        when self.well_formed() && self.acyclic() && 0 <= c < self.connections.len()
    {
        self.activation(self.connections[c].input as int).times_spec(self.connections[c].weight)
    }

    /// The sum of what the first `k` incoming connections of neuron `id`
    /// carry when every input neuron is taken at its cached value.
    pub open spec fn cached_input(self, id: int, k: int) -> T
        decreases k,
    {
        if k <= 0 {
            T::zero_spec()
        } else {
            self.cached_input(id, k - 1).plus_spec(
                self.neurons[self.source(id, k - 1)].value.times_spec(
                    self.connections[self.neurons[id].inputs[k - 1] as int].weight,
                ),
            )
        }
    }

    /// Reading neuron `id` recomputes neuron `n`: `id` is stale, and `n` is
    /// `id` itself or is recomputed when one of the inputs of `id` is read.
    pub open spec fn refreshes(self, id: int, n: int) -> bool
        decreases self.ranking()[id], self.neurons[id].inputs.len() + 1,
        when self.well_formed() && self.acyclic() && 0 <= id < self.neurons.len()
    {
        self.neurons[id].stale && (n == id || self.refreshes_among(
            id,
            self.neurons[id].inputs.len() as int,
            n,
        ))
    }

    /// Reading one of the first `k` inputs of neuron `id` recomputes neuron `n`.
    pub open spec fn refreshes_among(self, id: int, k: int, n: int) -> bool
        decreases self.ranking()[id], k,
        when self.well_formed() && self.acyclic() && 0 <= id < self.neurons.len() && 0 <= k
            <= self.neurons[id].inputs.len()
    {
        k > 0 && (self.refreshes_among(id, k - 1, n) || self.refreshes(self.source(id, k - 1), n))
    }

    /// Neuron `n` is `id` itself or lies downstream of it: a chain of outgoing
    /// connections leads from `id` to `n`.
    pub open spec fn reaches(self, id: int, n: int) -> bool
        decreases crest(self.ranking()) - self.ranking()[id], self.neurons[id].outputs.len() + 1,
        when self.well_formed() && self.acyclic() && 0 <= id < self.neurons.len()
    {
        n == id || self.reaches_among(id, self.neurons[id].outputs.len() as int, n)
    }

    /// Neuron `n` is, or lies downstream of, a neuron that one of the first
    /// `k` outgoing connections of neuron `id` leads to.
    pub open spec fn reaches_among(self, id: int, k: int, n: int) -> bool
        decreases crest(self.ranking()) - self.ranking()[id], k,
        when self.well_formed() && self.acyclic() && 0 <= id < self.neurons.len() && 0 <= k
            <= self.neurons[id].outputs.len()
    {
        k > 0 && (self.reaches_among(id, k - 1, n) || {
            proof {
                lemma_crest_bounds(self.ranking(), id);
                lemma_crest_bounds(self.ranking(), self.target(id, k - 1));
            }
            self.reaches(self.target(id, k - 1), n)
        })
    }

    /// `marks` selects neurons none of which is `to`, and with each neuron
    /// those that its outgoing connections lead to.
    pub open spec fn sealed(self, marks: Seq<bool>, to: int) -> bool {
        &&& marks.len() == self.neurons.len()
        &&& !marks[to]
        &&& forall|n: int, k: int|
            0 <= n < self.neurons.len() && 0 <= k < self.neurons[n].outputs.len() && marks[n]
                ==> marks[#[trigger] self.target(n, k)]
    }

    /// `rank`, with every neuron downstream of `id` lifted above its crest.
    pub open spec fn lifted(self, rank: Seq<nat>, id: int) -> Seq<nat> {
        Seq::new(
            rank.len(),
            |n: int|
                if self.reaches(id, n) {
                    rank[n] + crest(rank) + 1
                } else {
                    rank[n]
                },
        )
    }

    /// The network in which every stale neuron that `hit` selects has been
    /// recomputed: it is fresh and holds its activation.  Nothing else differs.
    pub open spec fn refreshed(self, hit: spec_fn(int) -> bool) -> Self {
        NetworkView {
            neurons: Seq::new(
                self.neurons.len(),
                |n: int|
                    if hit(n) && self.neurons[n].stale {
                        NeuronView { value: self.activation(n), stale: false, ..self.neurons[n] }
                    } else {
                        self.neurons[n]
                    },
            ),
            connections: self.connections,
        }
    }

    /// The network in which every neuron that `hit` selects is stale.
    /// Nothing else differs.
    pub open spec fn marked(self, hit: spec_fn(int) -> bool) -> Self {
        NetworkView {
            neurons: Seq::new(
                self.neurons.len(),
                |n: int|
                    NeuronView { stale: self.neurons[n].stale || hit(n), ..self.neurons[n] },
            ),
            connections: self.connections,
        }
    }

    /// The network after the first `k` inputs of neuron `id` have been read.
    pub open spec fn after_inputs(self, id: int, k: int) -> Self {
        self.refreshed(|n: int| self.refreshes_among(id, k, n))
    }

    /// The network after neuron `id` has been read.
    pub open spec fn after_calculate(self, id: int) -> Self {
        self.refreshed(|n: int| self.refreshes(id, n))
    }

    /// The network after neuron `id` and the neurons behind the first `k` of
    /// its outgoing connections have been invalidated.
    pub open spec fn after_outputs(self, id: int, k: int) -> Self {
        self.marked(|n: int| n == id || self.reaches_among(id, k, n))
    }

    /// The network after neuron `id` has been invalidated.
    pub open spec fn after_stale(self, id: int) -> Self {
        self.marked(|n: int| self.reaches(id, n))
    }
}

} // verus!
