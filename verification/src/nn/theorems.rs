//! What holds of reading and invalidating neurons, in any well-formed
//! acyclic network.

use vstd::prelude::*;
use crate::nn::math::Numeric;
use crate::nn::model::NetworkView;

verus! {

/// Reading a fresh neuron yields its cached value and changes nothing.
pub proof fn lemma_fresh_read_is_pure<T: Numeric>(s: NetworkView<T>, id: int)
    requires
        s.well_formed(),
        s.acyclic(),
        0 <= id < s.neurons.len(),
        !s.neurons[id].stale,
    ensures
        s.activation(id) == s.neurons[id].value,
        s.after_calculate(id) == s,
{
    crate::nn::lemmas::lemma_read_fresh(s, s.ranking(), id);
}

/// Reading a stale neuron without incoming connections yields the sigmoid of
/// zero less its bias, and leaves the neuron fresh with that value.
pub proof fn lemma_stale_read_without_inputs<T: Numeric>(s: NetworkView<T>, id: int)
    requires
        s.well_formed(),
        s.acyclic(),
        0 <= id < s.neurons.len(),
        s.neurons[id].stale,
        s.neurons[id].inputs.len() == 0,
    ensures
        s.activation(id) == T::zero_spec().minus_spec(s.neurons[id].bias).sigmoid_spec(),
        !s.after_calculate(id).neurons[id].stale,
        s.after_calculate(id).neurons[id].value == s.activation(id),
{
}

/// A read leaves the network well formed and acyclic, and the neuron that
/// was read fresh, holding the value that the read returned.
pub proof fn lemma_read_leaves_fresh<T: Numeric>(s: NetworkView<T>, id: int)
    requires
        s.well_formed(),
        s.acyclic(),
        0 <= id < s.neurons.len(),
    ensures
        s.after_calculate(id).well_formed(),
        s.after_calculate(id).acyclic(),
        !s.after_calculate(id).neurons[id].stale,
        s.after_calculate(id).neurons[id].value == s.activation(id),
{
    crate::nn::lemmas::lemma_refreshed_wiring(s, |n: int| s.refreshes(id, n), s.ranking());
}

/// Reading a neuron a second time yields the value of the first read and
/// recomputes nothing: the network stays as the first read left it.
pub proof fn lemma_read_twice<T: Numeric>(s: NetworkView<T>, id: int)
    requires
        s.well_formed(),
        s.acyclic(),
        0 <= id < s.neurons.len(),
    ensures
        s.after_calculate(id).activation(id) == s.activation(id),
        s.after_calculate(id).after_calculate(id) == s.after_calculate(id),
{
    let rank = s.ranking();
    let hit = |n: int| s.refreshes(id, n);
    crate::nn::lemmas::lemma_refreshed_wiring(s, hit, rank);
    crate::nn::lemmas::lemma_refreshed_activation(s, hit, rank, id);
    crate::nn::lemmas::lemma_read_fresh(s.after_calculate(id), rank, id);
}

/// A read recomputes stale neurons only, and a neuron that it does not
/// recompute stays as it was.
pub proof fn lemma_read_touches_stale_only<T: Numeric>(s: NetworkView<T>, id: int, n: int)
    requires
        s.well_formed(),
        s.acyclic(),
        0 <= id < s.neurons.len(),
        0 <= n < s.neurons.len(),
    ensures
        s.refreshes(id, n) ==> s.neurons[n].stale,
        !s.refreshes(id, n) ==> s.after_calculate(id).neurons[n] == s.neurons[n],
{
    if s.refreshes(id, n) {
        crate::nn::lemmas::lemma_refreshes_stale(s, s.ranking(), id, n);
    }
}

/// Every neuron that a read recomputes is computed from the values that its
/// inputs hold after the read, and all of them are fresh: a neuron is
/// recomputed only after the neurons that it depends on.
pub proof fn lemma_read_in_dependency_order<T: Numeric>(s: NetworkView<T>, id: int, n: int)
    requires
        s.well_formed(),
        s.acyclic(),
        0 <= id < s.neurons.len(),
        s.refreshes(id, n),
    ensures
        0 <= n < s.neurons.len(),
        forall|k: int|
            0 <= k < s.neurons[n].inputs.len() ==> !(#[trigger] s.after_calculate(
                id,
            ).neurons[s.source(n, k)]).stale,
        s.after_calculate(id).neurons[n].value == s.after_calculate(id).cached_input(
            n,
            s.neurons[n].inputs.len() as int,
        ).minus_spec(s.neurons[n].bias).sigmoid_spec(),
{
    let rank = s.ranking();
    let t = s.after_calculate(id);
    crate::nn::lemmas::lemma_refreshes_stale(s, rank, id, n);
    assert forall|k: int| 0 <= k < s.neurons[n].inputs.len() implies !(#[trigger] t.neurons[s.source(
        n,
        k,
    )]).stale by {
        crate::nn::lemmas::lemma_read_settles_input(s, rank, id, n, k);
    }
    crate::nn::lemmas::lemma_read_sums_cached(s, rank, id, n, s.neurons[n].inputs.len() as int);
}

/// Invalidating a neuron makes it stale whatever it was, makes stale every
/// neuron that an outgoing connection of an invalidated neuron leads to, and
/// changes nothing else: no value, and no flag of any other neuron.
pub proof fn lemma_stale_sweeps_downstream<T: Numeric>(s: NetworkView<T>, id: int)
    requires
        s.well_formed(),
        s.acyclic(),
        0 <= id < s.neurons.len(),
    ensures
        s.reaches(id, id),
        forall|n: int, k: int|
            0 <= n < s.neurons.len() && 0 <= k < s.neurons[n].outputs.len() && s.reaches(id, n)
                ==> s.reaches(id, #[trigger] s.target(n, k)),
        forall|n: int|
            0 <= n < s.neurons.len() && s.reaches(id, n) ==> (#[trigger] s.after_stale(
                id,
            ).neurons[n]).stale,
        forall|n: int|
            0 <= n < s.neurons.len() && !s.reaches(id, n) ==> #[trigger] s.after_stale(
                id,
            ).neurons[n] == s.neurons[n],
        forall|n: int|
            0 <= n < s.neurons.len() ==> (#[trigger] s.after_stale(id).neurons[n]).value
                == s.neurons[n].value,
        s.after_stale(id).well_formed(),
        s.after_stale(id).acyclic(),
{
    let rank = s.ranking();
    assert forall|n: int, k: int|
        0 <= n < s.neurons.len() && 0 <= k < s.neurons[n].outputs.len() && s.reaches(
            id,
            n,
        ) implies s.reaches(id, #[trigger] s.target(n, k)) by {
        crate::nn::lemmas::lemma_reaches_step(s, rank, id, n, k);
    }
    crate::nn::lemmas::lemma_marked_wiring(s, |n: int| s.reaches(id, n), rank);
}

/// Invalidating a neuron twice is invalidating it once.
pub proof fn lemma_stale_twice<T: Numeric>(s: NetworkView<T>, id: int)
    requires
        s.well_formed(),
        s.acyclic(),
        0 <= id < s.neurons.len(),
    ensures
        s.after_stale(id).after_stale(id) == s.after_stale(id),
{
    let rank = s.ranking();
    let hit = |n: int| s.reaches(id, n);
    let t = s.after_stale(id);
    crate::nn::lemmas::lemma_marked_wiring(s, hit, rank);
    assert forall|n: int| 0 <= n < s.neurons.len() implies t.after_stale(id).neurons[n]
        == t.neurons[n] by {
        crate::nn::lemmas::lemma_marked_reaches(s, hit, rank, id, n);
    }
    assert(t.after_stale(id).neurons =~= t.neurons);
}

} // verus!
