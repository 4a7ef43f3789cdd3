//! Lemmas on the network model that the executable functions are proved with.

use vstd::prelude::*;
use crate::nn::connection::Connection;
use crate::nn::math::Numeric;
use crate::nn::model::{NetworkView, NeuronView};

verus! {

/// Recomputing neurons changes no wiring: the result is well formed and has
/// every ranking that the network had before.
pub proof fn lemma_refreshed_wiring<T: Numeric>(
    s: NetworkView<T>,
    hit: spec_fn(int) -> bool,
    rank: Seq<nat>,
)
    requires
        s.well_formed(),
        s.ranked_by(rank),
    ensures
        s.refreshed(hit).well_formed(),
        s.refreshed(hit).ranked_by(rank),
        s.refreshed(hit).acyclic(),
{
    assert(s.refreshed(hit).ranked_by(rank));
}

/// Recomputing neurons changes no activation.
pub proof fn lemma_refreshed_activation<T: Numeric>(
    s: NetworkView<T>,
    hit: spec_fn(int) -> bool,
    rank: Seq<nat>,
    id: int,
)
    requires
        s.well_formed(),
        s.ranked_by(rank),
        0 <= id < s.neurons.len(),
    ensures
        s.refreshed(hit).activation(id) == s.activation(id),
    decreases rank[id], s.neurons[id].inputs.len() + 1,
{
    lemma_refreshed_wiring(s, hit, rank);
    if s.refreshed(hit).neurons[id].stale {
        lemma_refreshed_weighted_input(s, hit, rank, id, s.neurons[id].inputs.len() as int);
    }
}

/// Recomputing neurons changes no weighted input.
pub proof fn lemma_refreshed_weighted_input<T: Numeric>(
    s: NetworkView<T>,
    hit: spec_fn(int) -> bool,
    rank: Seq<nat>,
    id: int,
    k: int,
)
    requires
        s.well_formed(),
        s.ranked_by(rank),
        0 <= id < s.neurons.len(),
        0 <= k <= s.neurons[id].inputs.len(),
    ensures
        s.refreshed(hit).weighted_input(id, k) == s.weighted_input(id, k),
    decreases rank[id], k,
{
    lemma_refreshed_wiring(s, hit, rank);
    if k > 0 {
        lemma_refreshed_weighted_input(s, hit, rank, id, k - 1);
        lemma_refreshed_contribution(s, hit, rank, s.neurons[id].inputs[k - 1] as int);
    }
}

/// Recomputing neurons changes what no connection carries.
pub proof fn lemma_refreshed_contribution<T: Numeric>(
    s: NetworkView<T>,
    hit: spec_fn(int) -> bool,
    rank: Seq<nat>,
    c: int,
)
    requires
        s.well_formed(),
        s.ranked_by(rank),
        0 <= c < s.connections.len(),
    ensures
        s.refreshed(hit).contribution(c) == s.contribution(c),
    decreases rank[s.connections[c].output as int], 0int,
{
    lemma_refreshed_wiring(s, hit, rank);
    lemma_refreshed_activation(s, hit, rank, s.connections[c].input as int);
}

/// Only stale neurons of the network are recomputed.
pub proof fn lemma_refreshes_stale<T: Numeric>(s: NetworkView<T>, rank: Seq<nat>, id: int, n: int)
    requires
        s.well_formed(),
        s.ranked_by(rank),
        0 <= id < s.neurons.len(),
        s.refreshes(id, n),
    ensures
        0 <= n < s.neurons.len(),
        s.neurons[n].stale,
    decreases rank[id], s.neurons[id].inputs.len() + 1,
{
    if n != id {
        lemma_refreshes_among_stale(s, rank, id, s.neurons[id].inputs.len() as int, n);
    }
}

/// Only stale neurons of the network are recomputed through an input.
pub proof fn lemma_refreshes_among_stale<T: Numeric>(
    s: NetworkView<T>,
    rank: Seq<nat>,
    id: int,
    k: int,
    n: int,
)
    requires
        s.well_formed(),
        s.ranked_by(rank),
        0 <= id < s.neurons.len(),
        0 <= k <= s.neurons[id].inputs.len(),
        s.refreshes_among(id, k, n),
    ensures
        0 <= n < s.neurons.len(),
        s.neurons[n].stale,
    decreases rank[id], k,
{
    if s.refreshes_among(id, k - 1, n) {
        lemma_refreshes_among_stale(s, rank, id, k - 1, n);
    } else {
        lemma_refreshes_stale(s, rank, s.source(id, k - 1), n);
    }
}

/// What reading `m` recomputes, reading `a` recomputes too, if it recomputes `m`.
pub proof fn lemma_refreshes_chain<T: Numeric>(
    s: NetworkView<T>,
    rank: Seq<nat>,
    a: int,
    m: int,
    n: int,
)
    requires
        s.well_formed(),
        s.ranked_by(rank),
        0 <= a < s.neurons.len(),
        0 <= m < s.neurons.len(),
        s.refreshes(a, m),
        s.refreshes(m, n),
    ensures
        s.refreshes(a, n),
    decreases rank[a], s.neurons[a].inputs.len() + 1,
{
    if m != a {
        lemma_refreshes_among_chain(s, rank, a, s.neurons[a].inputs.len() as int, m, n);
    }
}

/// What reading `m` recomputes, reading the inputs of `a` recomputes too, if
/// it recomputes `m`.
pub proof fn lemma_refreshes_among_chain<T: Numeric>(
    s: NetworkView<T>,
    rank: Seq<nat>,
    a: int,
    k: int,
    m: int,
    n: int,
)
    requires
        s.well_formed(),
        s.ranked_by(rank),
        0 <= a < s.neurons.len(),
        0 <= k <= s.neurons[a].inputs.len(),
        0 <= m < s.neurons.len(),
        s.refreshes_among(a, k, m),
        s.refreshes(m, n),
    ensures
        s.refreshes_among(a, k, n),
    decreases rank[a], k,
{
    if s.refreshes_among(a, k - 1, m) {
        lemma_refreshes_among_chain(s, rank, a, k - 1, m, n);
    } else {
        lemma_refreshes_chain(s, rank, s.source(a, k - 1), m, n);
    }
}

/// A read after some neurons were recomputed recomputes no neuron that the
/// same read would not have recomputed before.
pub proof fn lemma_refreshed_refreshes_less<T: Numeric>(
    s: NetworkView<T>,
    hit: spec_fn(int) -> bool,
    rank: Seq<nat>,
    a: int,
    n: int,
)
    requires
        s.well_formed(),
        s.ranked_by(rank),
        0 <= a < s.neurons.len(),
        s.refreshed(hit).refreshes(a, n),
    ensures
        s.refreshes(a, n),
    decreases rank[a], s.neurons[a].inputs.len() + 1,
{
    lemma_refreshed_wiring(s, hit, rank);
    if n != a {
        lemma_refreshed_refreshes_among_less(s, hit, rank, a, s.neurons[a].inputs.len() as int, n);
    }
}

/// The same, for the reads of the first `k` inputs of `a`.
pub proof fn lemma_refreshed_refreshes_among_less<T: Numeric>(
    s: NetworkView<T>,
    hit: spec_fn(int) -> bool,
    rank: Seq<nat>,
    a: int,
    k: int,
    n: int,
)
    requires
        s.well_formed(),
        s.ranked_by(rank),
        0 <= a < s.neurons.len(),
        0 <= k <= s.neurons[a].inputs.len(),
        s.refreshed(hit).refreshes_among(a, k, n),
    ensures
        s.refreshes_among(a, k, n),
    decreases rank[a], k,
{
    lemma_refreshed_wiring(s, hit, rank);
    if s.refreshed(hit).refreshes_among(a, k - 1, n) {
        lemma_refreshed_refreshes_among_less(s, hit, rank, a, k - 1, n);
    } else {
        lemma_refreshed_refreshes_less(s, hit, rank, s.source(a, k - 1), n);
    }
}

/// A read after some neurons were recomputed still recomputes every neuron
/// that it would have recomputed before, but for those recomputed already.
pub proof fn lemma_refreshed_refreshes_rest<T: Numeric>(
    s: NetworkView<T>,
    hit: spec_fn(int) -> bool,
    rank: Seq<nat>,
    a: int,
    n: int,
)
    requires
        s.well_formed(),
        s.ranked_by(rank),
        0 <= a < s.neurons.len(),
        s.refreshes(a, n),
        forall|m: int| 0 <= m < s.neurons.len() && #[trigger] hit(m) ==> !s.refreshes(m, n),
    ensures
        s.refreshed(hit).refreshes(a, n),
    decreases rank[a], s.neurons[a].inputs.len() + 1,
{
    lemma_refreshed_wiring(s, hit, rank);
    assert(!hit(a));
    if n != a {
        lemma_refreshed_refreshes_among_rest(s, hit, rank, a, s.neurons[a].inputs.len() as int, n);
    }
}

/// The same, for the reads of the first `k` inputs of `a`.
pub proof fn lemma_refreshed_refreshes_among_rest<T: Numeric>(
    s: NetworkView<T>,
    hit: spec_fn(int) -> bool,
    rank: Seq<nat>,
    a: int,
    k: int,
    n: int,
)
    requires
        s.well_formed(),
        s.ranked_by(rank),
        0 <= a < s.neurons.len(),
        0 <= k <= s.neurons[a].inputs.len(),
        s.refreshes_among(a, k, n),
        forall|m: int| 0 <= m < s.neurons.len() && #[trigger] hit(m) ==> !s.refreshes(m, n),
    ensures
        s.refreshed(hit).refreshes_among(a, k, n),
    decreases rank[a], k,
{
    lemma_refreshed_wiring(s, hit, rank);
    if s.refreshes_among(a, k - 1, n) {
        lemma_refreshed_refreshes_among_rest(s, hit, rank, a, k - 1, n);
    } else {
        lemma_refreshed_refreshes_rest(s, hit, rank, s.source(a, k - 1), n);
    }
}

/// Reading a fresh neuron changes nothing.
pub proof fn lemma_read_fresh<T: Numeric>(s: NetworkView<T>, rank: Seq<nat>, id: int)
    requires
        s.well_formed(),
        s.ranked_by(rank),
        0 <= id < s.neurons.len(),
        !s.neurons[id].stale,
    ensures
        s.activation(id) == s.neurons[id].value,
        s.after_calculate(id) == s,
{
    assert(s.after_calculate(id).neurons =~= s.neurons);
}

/// Before any input of a neuron is read the network is as it was.
pub proof fn lemma_read_start<T: Numeric>(s: NetworkView<T>, rank: Seq<nat>, id: int)
    requires
        s.well_formed(),
        s.ranked_by(rank),
        0 <= id < s.neurons.len(),
    ensures
        s.after_inputs(id, 0) == s,
        s.weighted_input(id, 0) == T::zero_spec(),
{
    assert(s.after_inputs(id, 0).neurons =~= s.neurons);
}

/// Reading the `k`-th input of neuron `id`, once the inputs before it have
/// been read, leaves the network as the first `k + 1` reads leave it, and
/// yields the value that the input had at the start.
pub proof fn lemma_read_input<T: Numeric>(s: NetworkView<T>, rank: Seq<nat>, id: int, k: int)
    requires
        s.well_formed(),
        s.ranked_by(rank),
        0 <= id < s.neurons.len(),
        0 <= k < s.neurons[id].inputs.len(),
    ensures
        s.after_inputs(id, k).well_formed(),
        s.after_inputs(id, k).ranked_by(rank),
        s.after_inputs(id, k).contribution(s.neurons[id].inputs[k] as int) == s.contribution(
            s.neurons[id].inputs[k] as int,
        ),
        s.after_inputs(id, k).after_calculate(s.source(id, k)) == s.after_inputs(id, k + 1),
{
    let hit = |n: int| s.refreshes_among(id, k, n);
    let t = s.after_inputs(id, k);
    let from = s.source(id, k);
    let u = t.after_calculate(from);
    let w = s.after_inputs(id, k + 1);
    assert(t == s.refreshed(hit)) by {
        assert(t.neurons =~= s.refreshed(hit).neurons);
    }
    lemma_refreshed_wiring(s, hit, rank);
    lemma_refreshed_contribution(s, hit, rank, s.neurons[id].inputs[k] as int);
    assert forall|n: int| 0 <= n < s.neurons.len() implies u.neurons[n] == w.neurons[n] by {
        lemma_refreshed_activation(s, hit, rank, n);
        if s.neurons[n].stale && !s.refreshes_among(id, k, n) {
            if t.refreshes(from, n) {
                lemma_refreshed_refreshes_less(s, hit, rank, from, n);
            }
            if s.refreshes(from, n) {
                assert forall|m: int| 0 <= m < s.neurons.len() && #[trigger] hit(m) implies !s.refreshes(
                    m,
                    n,
                ) by {
                    if s.refreshes(m, n) {
                        lemma_refreshes_among_chain(s, rank, id, k, m, n);
                    }
                }
                lemma_refreshed_refreshes_rest(s, hit, rank, from, n);
            }
        }
    }
    assert(u.neurons =~= w.neurons);
}

/// Once every input of a stale neuron has been read, storing its activation
/// and clearing its flag completes the read.
pub proof fn lemma_read_finish<T: Numeric>(
    s: NetworkView<T>,
    rank: Seq<nat>,
    id: int,
    end: NetworkView<T>,
)
    requires
        s.well_formed(),
        s.ranked_by(rank),
        0 <= id < s.neurons.len(),
        s.neurons[id].stale,
        end.connections == s.connections,
        end.neurons == s.after_inputs(id, s.neurons[id].inputs.len() as int).neurons.update(
            id,
            NeuronView {
                value: s.activation(id),
                stale: false,
                ..s.after_inputs(id, s.neurons[id].inputs.len() as int).neurons[id]
            },
        ),
    ensures
        end == s.after_calculate(id),
{
    assert(end.neurons =~= s.after_calculate(id).neurons);
}

/// Marking neurons stale changes no wiring: the result is well formed and
/// has every ranking that the network had before.
pub proof fn lemma_marked_wiring<T: Numeric>(
    s: NetworkView<T>,
    hit: spec_fn(int) -> bool,
    rank: Seq<nat>,
)
    requires
        s.well_formed(),
        s.ranked_by(rank),
    ensures
        s.marked(hit).well_formed(),
        s.marked(hit).ranked_by(rank),
        s.marked(hit).acyclic(),
{
    assert(s.marked(hit).ranked_by(rank));
}

/// Marking neurons stale changes nothing downstream of any neuron.
pub proof fn lemma_marked_reaches<T: Numeric>(
    s: NetworkView<T>,
    hit: spec_fn(int) -> bool,
    rank: Seq<nat>,
    a: int,
    n: int,
)
    requires
        s.well_formed(),
        s.ranked_by(rank),
        0 <= a < s.neurons.len(),
    ensures
        s.marked(hit).reaches(a, n) == s.reaches(a, n),
    decreases crate::nn::model::crest(rank) - rank[a], s.neurons[a].outputs.len() + 1,
{
    lemma_marked_wiring(s, hit, rank);
    lemma_marked_reaches_among(s, hit, rank, a, s.neurons[a].outputs.len() as int, n);
}

/// The same, for the first `k` outgoing connections of `a`.
pub proof fn lemma_marked_reaches_among<T: Numeric>(
    s: NetworkView<T>,
    hit: spec_fn(int) -> bool,
    rank: Seq<nat>,
    a: int,
    k: int,
    n: int,
)
    requires
        s.well_formed(),
        s.ranked_by(rank),
        0 <= a < s.neurons.len(),
        0 <= k <= s.neurons[a].outputs.len(),
    ensures
        s.marked(hit).reaches_among(a, k, n) == s.reaches_among(a, k, n),
    decreases crate::nn::model::crest(rank) - rank[a], k,
{
    lemma_marked_wiring(s, hit, rank);
    if k > 0 {
        lemma_marked_reaches_among(s, hit, rank, a, k - 1, n);
        crate::nn::model::lemma_crest_bounds(rank, a);
        crate::nn::model::lemma_crest_bounds(rank, s.target(a, k - 1));
        lemma_marked_reaches(s, hit, rank, s.target(a, k - 1), n);
    }
}

/// Setting the flag of a neuron is the whole of its invalidation before any
/// of its outgoing connections is followed.
pub proof fn lemma_mark_start<T: Numeric>(
    s: NetworkView<T>,
    rank: Seq<nat>,
    id: int,
    start: NetworkView<T>,
)
    requires
        s.well_formed(),
        s.ranked_by(rank),
        0 <= id < s.neurons.len(),
        start.connections == s.connections,
        start.neurons == s.neurons.update(id, NeuronView { stale: true, ..s.neurons[id] }),
    ensures
        start == s.after_outputs(id, 0),
{
    assert(start.neurons =~= s.after_outputs(id, 0).neurons);
}

/// Invalidating the neuron behind the `k`-th outgoing connection of neuron
/// `id`, once those behind the connections before it have been invalidated,
/// leaves the network as the first `k + 1` invalidations leave it.
pub proof fn lemma_mark_output<T: Numeric>(s: NetworkView<T>, rank: Seq<nat>, id: int, k: int)
    requires
        s.well_formed(),
        s.ranked_by(rank),
        0 <= id < s.neurons.len(),
        0 <= k < s.neurons[id].outputs.len(),
    ensures
        s.after_outputs(id, k).well_formed(),
        s.after_outputs(id, k).ranked_by(rank),
        s.after_outputs(id, k).after_stale(s.target(id, k)) == s.after_outputs(id, k + 1),
{
    let hit = |n: int| n == id || s.reaches_among(id, k, n);
    let t = s.after_outputs(id, k);
    let to = s.target(id, k);
    let u = t.after_stale(to);
    let w = s.after_outputs(id, k + 1);
    assert(t == s.marked(hit)) by {
        assert(t.neurons =~= s.marked(hit).neurons);
    }
    lemma_marked_wiring(s, hit, rank);
    assert forall|n: int| 0 <= n < s.neurons.len() implies u.neurons[n] == w.neurons[n] by {
        lemma_marked_reaches(s, hit, rank, to, n);
    }
    assert(u.neurons =~= w.neurons);
}

/// Once every outgoing connection of a neuron has been followed, its
/// invalidation is complete.
pub proof fn lemma_mark_finish<T: Numeric>(s: NetworkView<T>, rank: Seq<nat>, id: int)
    requires
        s.well_formed(),
        s.ranked_by(rank),
        0 <= id < s.neurons.len(),
    ensures
        s.after_outputs(id, s.neurons[id].outputs.len() as int) == s.after_stale(id),
{
    assert(s.after_outputs(id, s.neurons[id].outputs.len() as int).neurons =~= s.after_stale(
        id,
    ).neurons);
}

/// What reading the `k`-th input of `a` recomputes, reading the first `top`
/// inputs of `a` recomputes, for `top` beyond `k`.
pub proof fn lemma_refreshes_through<T: Numeric>(
    s: NetworkView<T>,
    rank: Seq<nat>,
    a: int,
    k: int,
    top: int,
    n: int,
)
    requires
        s.well_formed(),
        s.ranked_by(rank),
        0 <= a < s.neurons.len(),
        0 <= k < top <= s.neurons[a].inputs.len(),
        s.refreshes(s.source(a, k), n),
    ensures
        s.refreshes_among(a, top, n),
    decreases top,
{
    if k < top - 1 {
        lemma_refreshes_through(s, rank, a, k, top - 1, n);
    }
}

/// After a read, every input of a neuron that the read recomputed is fresh.
pub proof fn lemma_read_settles_input<T: Numeric>(
    s: NetworkView<T>,
    rank: Seq<nat>,
    id: int,
    n: int,
    k: int,
)
    requires
        s.well_formed(),
        s.ranked_by(rank),
        0 <= id < s.neurons.len(),
        s.refreshes(id, n),
        0 <= n < s.neurons.len(),
        0 <= k < s.neurons[n].inputs.len(),
    ensures
        !s.after_calculate(id).neurons[s.source(n, k)].stale,
        s.after_calculate(id).neurons[s.source(n, k)].value == s.activation(s.source(n, k)),
{
    let m = s.source(n, k);
    lemma_refreshes_stale(s, rank, id, n);
    if s.neurons[m].stale {
        assert(s.refreshes(m, m));
        lemma_refreshes_through(s, rank, n, k, s.neurons[n].inputs.len() as int, m);
        assert(s.refreshes(n, m));
        lemma_refreshes_chain(s, rank, id, n, m);
    }
}

/// After a read, the cached values of the inputs of a neuron that the read
/// recomputed sum to the weighted input that the neuron had before the read.
pub proof fn lemma_read_sums_cached<T: Numeric>(
    s: NetworkView<T>,
    rank: Seq<nat>,
    id: int,
    n: int,
    k: int,
)
    requires
        s.well_formed(),
        s.ranked_by(rank),
        0 <= id < s.neurons.len(),
        s.refreshes(id, n),
        0 <= n < s.neurons.len(),
        0 <= k <= s.neurons[n].inputs.len(),
    ensures
        s.after_calculate(id).cached_input(n, k) == s.weighted_input(n, k),
    decreases k,
{
    if k > 0 {
        lemma_read_sums_cached(s, rank, id, n, k - 1);
        lemma_read_settles_input(s, rank, id, n, k - 1);
        let c = s.neurons[n].inputs[k - 1] as int;
        assert(s.contribution(c) == s.activation(s.connections[c].input as int).times_spec(
            s.connections[c].weight,
        ));
    }
}

/// What lies downstream of the neuron behind the `k`-th outgoing connection
/// of `a` lies behind the first `top` of them, for `top` beyond `k`.
pub proof fn lemma_reaches_through<T: Numeric>(
    s: NetworkView<T>,
    rank: Seq<nat>,
    a: int,
    k: int,
    top: int,
    n: int,
)
    requires
        s.well_formed(),
        s.ranked_by(rank),
        0 <= a < s.neurons.len(),
        0 <= k < top <= s.neurons[a].outputs.len(),
        s.reaches(s.target(a, k), n),
    ensures
        s.reaches_among(a, top, n),
    decreases top,
{
    if k < top - 1 {
        lemma_reaches_through(s, rank, a, k, top - 1, n);
    }
}

/// What an outgoing connection of a neuron downstream of `a` leads to lies
/// downstream of `a`.
pub proof fn lemma_reaches_step<T: Numeric>(
    s: NetworkView<T>,
    rank: Seq<nat>,
    a: int,
    n: int,
    k: int,
)
    requires
        s.well_formed(),
        s.ranked_by(rank),
        0 <= a < s.neurons.len(),
        0 <= n < s.neurons.len(),
        0 <= k < s.neurons[n].outputs.len(),
        s.reaches(a, n),
    ensures
        s.reaches(a, s.target(n, k)),
    decreases crate::nn::model::crest(rank) - rank[a], s.neurons[a].outputs.len() + 1,
{
    if n == a {
        assert(s.reaches(s.target(a, k), s.target(a, k)));
        lemma_reaches_through(s, rank, a, k, s.neurons[a].outputs.len() as int, s.target(a, k));
    } else {
        lemma_reaches_among_step(s, rank, a, s.neurons[a].outputs.len() as int, n, k);
    }
}

/// The same, for the first `j` outgoing connections of `a`.
pub proof fn lemma_reaches_among_step<T: Numeric>(
    s: NetworkView<T>,
    rank: Seq<nat>,
    a: int,
    j: int,
    n: int,
    k: int,
)
    requires
        s.well_formed(),
        s.ranked_by(rank),
        0 <= a < s.neurons.len(),
        0 <= j <= s.neurons[a].outputs.len(),
        0 <= n < s.neurons.len(),
        0 <= k < s.neurons[n].outputs.len(),
        s.reaches_among(a, j, n),
    ensures
        s.reaches_among(a, j, s.target(n, k)),
    decreases crate::nn::model::crest(rank) - rank[a], j,
{
    if s.reaches_among(a, j - 1, n) {
        lemma_reaches_among_step(s, rank, a, j - 1, n, k);
    } else {
        crate::nn::model::lemma_crest_bounds(rank, a);
        crate::nn::model::lemma_crest_bounds(rank, s.target(a, j - 1));
        lemma_reaches_step(s, rank, s.target(a, j - 1), n, k);
    }
}

/// From a neuron of a sealed set no chain of connections leads to the
/// neuron that the set excludes.
pub proof fn lemma_sealed_never_reaches<T: Numeric>(
    s: NetworkView<T>,
    rank: Seq<nat>,
    marks: Seq<bool>,
    to: int,
    n: int,
)
    requires
        s.well_formed(),
        s.ranked_by(rank),
        s.sealed(marks, to),
        0 <= n < s.neurons.len(),
        marks[n],
    ensures
        !s.reaches(n, to),
    decreases crate::nn::model::crest(rank) - rank[n], s.neurons[n].outputs.len() + 1,
{
    lemma_sealed_never_reaches_among(s, rank, marks, to, n, s.neurons[n].outputs.len() as int);
}

/// The same, for the first `k` outgoing connections of `n`.
pub proof fn lemma_sealed_never_reaches_among<T: Numeric>(
    s: NetworkView<T>,
    rank: Seq<nat>,
    marks: Seq<bool>,
    to: int,
    n: int,
    k: int,
)
    requires
        s.well_formed(),
        s.ranked_by(rank),
        s.sealed(marks, to),
        0 <= n < s.neurons.len(),
        0 <= k <= s.neurons[n].outputs.len(),
        marks[n],
    ensures
        !s.reaches_among(n, k, to),
    decreases crate::nn::model::crest(rank) - rank[n], k,
{
    if k > 0 {
        lemma_sealed_never_reaches_among(s, rank, marks, to, n, k - 1);
        crate::nn::model::lemma_crest_bounds(rank, n);
        crate::nn::model::lemma_crest_bounds(rank, s.target(n, k - 1));
        assert(marks[s.target(n, k - 1)]);
        lemma_sealed_never_reaches(s, rank, marks, to, s.target(n, k - 1));
    }
}

/// A connection between two neurons of a well-formed network leaves it well formed.
pub proof fn lemma_with_connection_well_formed<T: Numeric>(
    s: NetworkView<T>,
    connection: Connection<T>,
)
    requires
        s.well_formed(),
        s.connections.len() < usize::MAX,
        connection.input < s.neurons.len(),
        connection.output < s.neurons.len(),
    ensures
        s.with_connection(connection).well_formed(),
{
    let t = s.with_connection(connection);
    let id = s.connections.len() as usize;
    let from = connection.input as int;
    let to = connection.output as int;
    assert forall|n: int| 0 <= n < s.neurons.len() implies {
        &&& #[trigger] t.neurons[n].outputs == if n == from {
            s.neurons[n].outputs.push(id)
        } else {
            s.neurons[n].outputs
        }
        &&& t.neurons[n].inputs == if n == to {
            s.neurons[n].inputs.push(id)
        } else {
            s.neurons[n].inputs
        }
    } by {}
    assert forall|c: int| 0 <= c < t.connections.len() implies t.neurons[(
    #[trigger] t.connections[c]).input as int].outputs.contains(c as usize)
        && t.neurons[t.connections[c].output as int].inputs.contains(c as usize) by {
        let a = t.connections[c].input as int;
        let b = t.connections[c].output as int;
        if c < s.connections.len() {
            assert(t.connections[c] == s.connections[c]);
            let i = choose|i: int|
                0 <= i < s.neurons[a].outputs.len() && s.neurons[a].outputs[i] == c as usize;
            assert(t.neurons[a].outputs[i] == c as usize);
            let j = choose|j: int|
                0 <= j < s.neurons[b].inputs.len() && s.neurons[b].inputs[j] == c as usize;
            assert(t.neurons[b].inputs[j] == c as usize);
        } else {
            assert(t.neurons[a].outputs[t.neurons[a].outputs.len() - 1] == c as usize);
            assert(t.neurons[b].inputs[t.neurons[b].inputs.len() - 1] == c as usize);
        }
    }
}

/// A connection that closes no cycle leaves an acyclic network acyclic: the
/// ranking in which everything downstream of its output neuron is lifted
/// ranks the network with the connection.
pub proof fn lemma_with_connection_ranked<T: Numeric>(
    s: NetworkView<T>,
    rank: Seq<nat>,
    connection: Connection<T>,
)
    requires
        s.well_formed(),
        s.ranked_by(rank),
        connection.input < s.neurons.len(),
        connection.output < s.neurons.len(),
        !s.reaches(connection.output as int, connection.input as int),
    ensures
        s.with_connection(connection).ranked_by(s.lifted(rank, connection.output as int)),
        s.with_connection(connection).acyclic(),
{
    let t = s.with_connection(connection);
    let from = connection.input as int;
    let to = connection.output as int;
    let high = s.lifted(rank, to);
    assert forall|c: int| 0 <= c < t.connections.len() implies high[(
    #[trigger] t.connections[c]).input as int] < high[t.connections[c].output as int] by {
        let a = t.connections[c].input as int;
        let b = t.connections[c].output as int;
        if c < s.connections.len() {
            assert(t.connections[c] == s.connections[c]);
            if s.reaches(to, a) {
                let i = choose|i: int|
                    0 <= i < s.neurons[a].outputs.len() && s.neurons[a].outputs[i] == c as usize;
                assert(s.target(a, i) == b);
                lemma_reaches_step(s, rank, to, a, i);
            }
        } else {
            crate::nn::model::lemma_crest_bounds(rank, from);
            assert(s.reaches(to, to));
        }
    }
    assert(t.ranked_by(high));
}

} // verus!
