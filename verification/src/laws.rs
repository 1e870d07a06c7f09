//! What holds of every network: laws that relate the model of a run to its inputs.

use vstd::prelude::*;
use crate::codec::{column, decode, encode, is_binary_matrix, is_rectangular, spike_at};
use crate::layer::{all_of_width, dot, silence, LayerView};
use crate::network::{
    is_chain, lemma_layers_after_chain, lemma_stream_through_shape, stream_through, NetworkView,
};
use crate::neuron::{Neuron, WEIGHT_ONE};
use crate::pipeline::{Move, PipelineView};
use crate::spike::{
    audible, heard, is_binary, is_silent, lemma_audible_carry_spikes, lemma_audible_none,
    lemma_audible_push, lemma_heard_keeps, SpikeEventView,
};

verus! {

// What a run gives

/// The output of a network is a function of the network and the input: networks that hold
/// the same, neurons included, give the same output for the same input and are left
/// holding the same.
pub proof fn lemma_process_is_deterministic<N: Neuron>(
    first: NetworkView<N>,
    second: NetworkView<N>,
    matrix: Seq<Seq<u8>>,
    duration: nat,
)
    requires
        first == second,
    ensures
        first.output(matrix, duration) == second.output(matrix, duration),
        first.after(matrix, duration) == second.after(matrix, duration),
{
}

/// The output matrix has one row per neuron of the last layer and one column per instant
/// of the input.
pub proof fn lemma_output_shape<N: Neuron>(
    net: NetworkView<N>,
    matrix: Seq<Seq<u8>>,
    duration: nat,
)
    ensures
        net.output(matrix, duration).len() == net.output_dim(),
        is_rectangular(net.output(matrix, duration), duration),
{
}

/// A run changes neither the number of layers nor the shape or the weights of any layer.
pub proof fn lemma_topology_is_kept<N: Neuron>(
    net: NetworkView<N>,
    matrix: Seq<Seq<u8>>,
    duration: nat,
)
    requires
        net.wf(),
    ensures
        net.after(matrix, duration).wf(),
        net.after(matrix, duration).skip_silent == net.skip_silent,
        net.after(matrix, duration).layers.len() == net.layers.len(),
        forall|l: int|
            #![trigger net.after(matrix, duration).layers[l]]
            0 <= l < net.layers.len() ==> {
                &&& net.after(matrix, duration).layers[l].input_dim == net.layers[l].input_dim
                &&& net.after(matrix, duration).layers[l].neurons.len()
                    == net.layers[l].neurons.len()
                &&& net.after(matrix, duration).layers[l].extra_weights
                    == net.layers[l].extra_weights
                &&& net.after(matrix, duration).layers[l].intra_weights
                    == net.layers[l].intra_weights
            },
{
    lemma_layers_after_chain(
        net.layers,
        heard(encode(matrix, duration), net.skip_silent),
    );
}

/// With one worker per layer the output is the same: however the feeder and the workers
/// take their turns, when all the moves of a run are made the run is over, what is in the
/// last channel decodes to the output of the network, and the workers hold the layers as
/// the run leaves them.
pub proof fn lemma_pipeline_gives_the_output<N: Neuron>(
    net: NetworkView<N>,
    matrix: Seq<Seq<u8>>,
    duration: nat,
    schedule: Seq<Move>,
)
    requires
        PipelineView::start(
            net.layers,
            heard(encode(matrix, duration), net.skip_silent),
        ).allows(schedule),
        schedule.len() == PipelineView::moves_of_a_run(
            net.layers,
            heard(encode(matrix, duration), net.skip_silent),
        ),
    ensures
        PipelineView::start(
            net.layers,
            heard(encode(matrix, duration), net.skip_silent),
        ).after_all(schedule).done(),
        decode(
            PipelineView::start(
                net.layers,
                heard(encode(matrix, duration), net.skip_silent),
            ).after_all(schedule).exit(),
            net.output_dim(),
            duration,
        ) == net.output(matrix, duration),
        PipelineView::start(
            net.layers,
            heard(encode(matrix, duration), net.skip_silent),
        ).after_all(schedule).workers == net.after(matrix, duration).layers,
{
    PipelineView::lemma_every_run_ends(
        net.layers,
        heard(encode(matrix, duration), net.skip_silent),
        schedule,
    );
}

// Time moves forward

/// The instants of `events` increase strictly.
pub open spec fn instants_increase(events: Seq<SpikeEventView>) -> bool {
    forall|j: int, k: int|
        0 <= j < k < events.len() ==> (#[trigger] events[j]).ts < (#[trigger] events[k]).ts
}

/// Time moves forward through every layer: the events that a run feeds to the first layer,
/// and those that any layer hands to the next, are of strictly increasing instants.
pub proof fn lemma_instants_increase<N: Neuron>(
    net: NetworkView<N>,
    matrix: Seq<Seq<u8>>,
    duration: nat,
    l: int,
)
    requires
        net.wf(),
        duration <= u64::MAX,
        0 <= l <= net.layers.len(),
    ensures
        instants_increase(
            stream_through(net.layers, heard(encode(matrix, duration), net.skip_silent), l),
        ),
{
    let events = encode(matrix, duration);
    let fed = heard(events, net.skip_silent);
    assert(instants_increase(events));
    lemma_heard_keeps_order(events, net.skip_silent);
    lemma_stream_through_shape(net.layers, fed, l);
    let leaving = stream_through(net.layers, fed, l);
    assert forall|j: int, k: int| 0 <= j < k < leaving.len() implies (#[trigger] leaving[j]).ts < (
    #[trigger] leaving[k]).ts by {
        assert(fed[j].ts < fed[k].ts);
    }
}

/// Dropping the silent events keeps the instants increasing.
pub proof fn lemma_heard_keeps_order(events: Seq<SpikeEventView>, skip_silent: bool)
    requires
        instants_increase(events),
    ensures
        instants_increase(heard(events, skip_silent)),
    decreases events.len(),
{
    if skip_silent && events.len() > 0 {
        let rest = events.drop_last();
        let last = events.last();
        assert(events =~= rest.push(last));
        assert(instants_increase(rest)) by {
            assert forall|j: int, k: int| 0 <= j < k < rest.len() implies (#[trigger] rest[j]).ts
                < (#[trigger] rest[k]).ts by {
                assert(events[j].ts < events[k].ts);
            }
        }
        lemma_heard_keeps_order(rest, skip_silent);
        lemma_audible_push(rest, last);
        assert forall|k: int| 0 <= k < rest.len() implies (#[trigger] rest[k]).ts < last.ts by {
            assert(events[k].ts < events[events.len() - 1].ts);
        }
        lemma_heard_keeps(rest, skip_silent, |e: SpikeEventView| e.ts < last.ts);
        assert(heard(rest, skip_silent) == audible(rest));
    } else if skip_silent {
        lemma_audible_none();
        assert(events =~= Seq::empty());
    }
}

// Silence

/// No value of `matrix` is a spike.
pub open spec fn is_silent_matrix(matrix: Seq<Seq<u8>>) -> bool {
    forall|i: int| 0 <= i < matrix.len() ==> is_silent(#[trigger] matrix[i])
}

/// The matrix of `width` rows and `duration` columns without a spike.
pub open spec fn silent_matrix(width: nat, duration: nat) -> Seq<Seq<u8>> {
    Seq::new(width, |i: int| silence(duration))
}

/// No event of `events` carries a spike.
pub open spec fn all_silent(events: Seq<SpikeEventView>) -> bool {
    forall|k: int| 0 <= k < events.len() ==> is_silent((#[trigger] events[k]).spikes)
}

/// No event of `events` is of instant `t`.
pub open spec fn none_at(events: Seq<SpikeEventView>, t: int) -> bool {
    forall|k: int| 0 <= k < events.len() ==> (#[trigger] events[k]).ts != t
}

/// A neuron of which `rest` holds does not fire on a weighted sum of zero, and `rest` holds
/// of it afterwards.
pub open spec fn quiet_at_rest<N: Neuron>(rest: spec_fn(N) -> bool) -> bool {
    forall|n: N, t: u64|
        #![trigger n.fires(t, 0)]
        #![trigger n.next(t, 0)]
        rest(n) ==> !n.fires(t, 0) && rest(n.next(t, 0))
}

/// `rest` holds of every neuron of the layer, and the layer emitted no spike last.
pub open spec fn layer_at_rest<N: Neuron>(layer: LayerView<N>, rest: spec_fn(N) -> bool) -> bool {
    &&& is_silent(layer.prev_output_spikes)
    &&& forall|i: int| 0 <= i < layer.neurons.len() ==> rest(#[trigger] layer.neurons[i])
}

/// A network that withholds silent instants gives no spike for an input without a spike,
/// whatever its neurons are, and is left as it was.
pub proof fn lemma_silent_input_is_skipped<N: Neuron>(
    net: NetworkView<N>,
    matrix: Seq<Seq<u8>>,
    duration: nat,
)
    requires
        net.wf(),
        net.skip_silent,
        is_silent_matrix(matrix),
        is_rectangular(matrix, duration),
    ensures
        net.output(matrix, duration) == silent_matrix(net.output_dim(), duration),
        net.after(matrix, duration) == net,
{
    let events = encode(matrix, duration);
    lemma_encode_of_silence(matrix, duration);
    lemma_none_heard(events);
    let none = Seq::<SpikeEventView>::empty();
    assert(heard(events, true) == none);
    assert forall|l: int| 0 <= l <= net.layers.len() implies #[trigger] stream_through(
        net.layers,
        none,
        l,
    ) == none by {
        lemma_nothing_through(net.layers, l);
    }
    assert(net.after(matrix, duration).layers =~= net.layers);
    assert(net.output(matrix, duration) =~~= silent_matrix(net.output_dim(), duration));
}

/// A network that withholds silent instants gives a column of zeros for every instant
/// without an input spike, whatever its neurons are and whatever they did before.
pub proof fn lemma_withheld_instant_is_silent<N: Neuron>(
    net: NetworkView<N>,
    matrix: Seq<Seq<u8>>,
    duration: nat,
    t: int,
)
    requires
        net.wf(),
        net.skip_silent,
        duration <= u64::MAX,
        0 <= t < duration,
        is_silent(column(matrix, t)),
    ensures
        forall|i: int|
            0 <= i < net.output_dim() ==> #[trigger] net.output(matrix, duration)[i][t] == 0,
{
    let events = encode(matrix, duration);
    let fed = heard(events, true);
    let emitted = net.emitted(events);
    let is_column = |e: SpikeEventView| e.spikes == column(matrix, e.ts as int);
    assert forall|k: int| 0 <= k < events.len() implies is_column(#[trigger] events[k]) by {
        assert(events[k].ts == k);
    }
    lemma_heard_keeps(events, true, is_column);
    lemma_audible_carry_spikes(events);
    assert forall|k: int| 0 <= k < fed.len() implies (#[trigger] fed[k]).ts != t by {
        assert(is_column(fed[k]));
        assert(!is_silent(fed[k].spikes));
    }
    lemma_stream_through_shape(net.layers, fed, net.layers.len() as int);
    assert forall|k: int| 0 <= k < emitted.len() implies (#[trigger] emitted[k]).ts != t by {
        assert(fed[k].ts != t);
    }
    assert forall|i: int| 0 <= i < net.output_dim() implies #[trigger] net.output(
        matrix,
        duration,
    )[i][t] == 0 by {
        lemma_decode_of_no_event(emitted, i, t);
    }
}

/// No spontaneous firing: a network whose layers are at rest, with neurons that do not
/// fire on a weighted sum of zero, gives no spike for an input without a spike, whether
/// or not it withholds silent instants.
pub proof fn lemma_silent_input_silent_output<N: Neuron>(
    net: NetworkView<N>,
    matrix: Seq<Seq<u8>>,
    duration: nat,
    rest: spec_fn(N) -> bool,
)
    requires
        net.wf(),
        matrix.len() == net.input_dim(),
        is_rectangular(matrix, duration),
        is_silent_matrix(matrix),
        quiet_at_rest(rest),
        forall|l: int| 0 <= l < net.layers.len() ==> layer_at_rest(#[trigger] net.layers[l], rest),
    ensures
        net.output(matrix, duration) == silent_matrix(net.output_dim(), duration),
{
    let events = encode(matrix, duration);
    let fed = heard(events, net.skip_silent);
    lemma_encode_of_silence(matrix, duration);
    lemma_heard_keeps(events, net.skip_silent, |e: SpikeEventView| is_silent(e.spikes));
    lemma_heard_keeps(
        events,
        net.skip_silent,
        |e: SpikeEventView| e.spikes.len() == net.input_dim(),
    );
    lemma_chain_stays_silent(net.layers, fed, rest, net.layers.len() as int);
    let emitted = net.emitted(events);
    assert forall|i: int, t: int| 0 <= i < net.output_dim() && 0 <= t < duration implies spike_at(
        emitted,
        i,
        t,
    ) == 0 by {
        lemma_decode_of_silence(emitted, i, t);
    }
    assert(net.output(matrix, duration) =~~= silent_matrix(net.output_dim(), duration));
}

/// A matrix without a spike encodes to events without a spike, each as wide as the matrix.
pub proof fn lemma_encode_of_silence(matrix: Seq<Seq<u8>>, duration: nat)
    requires
        is_silent_matrix(matrix),
        is_rectangular(matrix, duration),
    ensures
        all_silent(encode(matrix, duration)),
        all_of_width(encode(matrix, duration), matrix.len()),
{
    assert forall|t: int| 0 <= t < duration implies is_silent(
        (#[trigger] encode(matrix, duration)[t]).spikes,
    ) by {
        assert forall|i: int| 0 <= i < matrix.len() implies column(matrix, t)[i] == 0 by {
            assert(is_silent(matrix[i]));
        }
    }
}

/// Of events without a spike none is heard where silent events are dropped.
pub proof fn lemma_none_heard(events: Seq<SpikeEventView>)
    requires
        all_silent(events),
    ensures
        heard(events, true) == Seq::<SpikeEventView>::empty(),
    decreases events.len(),
{
    if events.len() > 0 {
        let rest = events.drop_last();
        lemma_none_heard(rest);
        assert(events =~= rest.push(events.last()));
        lemma_audible_push(rest, events.last());
    } else {
        lemma_audible_none();
        assert(events =~= Seq::empty());
    }
}

/// Nothing leaves a layer that nothing enters.
pub proof fn lemma_nothing_through<N: Neuron>(layers: Seq<LayerView<N>>, k: int)
    ensures
        stream_through(layers, Seq::<SpikeEventView>::empty(), k) == Seq::<
            SpikeEventView,
        >::empty(),
    decreases k,
{
    if k > 0 {
        lemma_nothing_through(layers, k - 1);
        assert(layers[k - 1].stream(Seq::<SpikeEventView>::empty()) =~= Seq::<
            SpikeEventView,
        >::empty());
    }
}

/// An instant of which no event came decodes to zero.
pub proof fn lemma_decode_of_no_event(events: Seq<SpikeEventView>, i: int, t: int)
    requires
        none_at(events, t),
    ensures
        spike_at(events, i, t) == 0,
    decreases events.len(),
{
    if events.len() > 0 {
        let rest = events.drop_last();
        assert forall|k: int| 0 <= k < rest.len() implies (#[trigger] rest[k]).ts != t by {
            assert(events[k].ts != t);
        }
        lemma_decode_of_no_event(rest, i, t);
        assert(events[events.len() - 1].ts != t);
    }
}

/// Events without a spike decode to a matrix without a spike.
pub proof fn lemma_decode_of_silence(events: Seq<SpikeEventView>, i: int, t: int)
    requires
        all_silent(events),
        0 <= i,
    ensures
        spike_at(events, i, t) == 0,
    decreases events.len(),
{
    if events.len() > 0 {
        lemma_decode_of_silence(events.drop_last(), i, t);
        if i < events.last().spikes.len() {
            assert(events.last().spikes[i] == 0);
        }
    }
}

/// Spikes that are all zero weigh nothing.
pub proof fn lemma_dot_of_silence(weights: Seq<i32>, spikes: Seq<u8>, n: int)
    requires
        0 <= n <= spikes.len(),
        is_silent(spikes),
    ensures
        dot(weights, spikes, n) == 0,
    decreases n,
{
    if n > 0 {
        lemma_dot_of_silence(weights, spikes, n - 1);
        assert(spikes[n - 1] == 0);
        assert(weights[n - 1] * 0 == 0);
    }
}

/// In a layer that emitted no spike last, a neuron that receives no spike is handed a
/// weighted sum of zero.
pub proof fn lemma_weighs_nothing_at_rest<N: Neuron>(layer: LayerView<N>, input: Seq<u8>, i: int)
    requires
        layer.wf(),
        is_silent(layer.prev_output_spikes),
        is_silent(input),
        input.len() == layer.input_dim,
        0 <= i < layer.neurons.len(),
    ensures
        layer.weighted_sum(i, input) == 0,
{
    lemma_dot_of_silence(layer.extra_weights[i], input, layer.extra_weights[i].len() as int);
    lemma_dot_of_silence(
        layer.intra_weights[i],
        layer.prev_output_spikes,
        layer.intra_weights[i].len() as int,
    );
    assert(layer.prev_output_spikes[i] == 0);
    assert(layer.intra_weights[i][i] * 0 == 0);
}

/// A layer at rest that receives events without a spike stays at rest and emits events
/// without a spike.
pub proof fn lemma_layer_stays_at_rest<N: Neuron>(
    layer: LayerView<N>,
    events: Seq<SpikeEventView>,
    rest: spec_fn(N) -> bool,
    k: int,
)
    requires
        layer.wf(),
        layer_at_rest(layer, rest),
        quiet_at_rest(rest),
        all_silent(events),
        all_of_width(events, layer.input_dim),
        0 <= k <= events.len(),
    ensures
        layer.after(events, k).wf(),
        layer_at_rest(layer.after(events, k), rest),
        layer.after(events, k).input_dim == layer.input_dim,
        layer.after(events, k).neurons.len() == layer.neurons.len(),
        k < events.len() ==> layer.after(events, k).output(events[k].ts, events[k].spikes)
            == silence(layer.neurons.len()),
    decreases k,
{
    layer.lemma_after_keeps_shape(events, k);
    if k > 0 {
        lemma_layer_stays_at_rest(layer, events, rest, k - 1);
        let before = layer.after(events, k - 1);
        let event = events[k - 1];
        assert(layer.after(events, k) == before.step(event.ts, event.spikes));
        assert(before.output(event.ts, event.spikes) == silence(layer.neurons.len()));
        assert forall|i: int| 0 <= i < before.neurons.len() implies rest(
            #[trigger] layer.after(events, k).neurons[i],
        ) by {
            lemma_weighs_nothing_at_rest(before, event.spikes, i);
            assert(rest(before.neurons[i]));
        }
    }
    if k < events.len() {
        let now = layer.after(events, k);
        let event = events[k];
        assert forall|i: int| 0 <= i < now.neurons.len() implies #[trigger] now.output(
            event.ts,
            event.spikes,
        )[i] == 0 by {
            lemma_weighs_nothing_at_rest(now, event.spikes, i);
            assert(rest(now.neurons[i]));
        }
        assert(now.output(event.ts, event.spikes) =~= silence(layer.neurons.len()));
    }
}

/// Events without a spike that enter a chain of layers at rest leave every layer as events
/// without a spike.
pub proof fn lemma_chain_stays_silent<N: Neuron>(
    layers: Seq<LayerView<N>>,
    events: Seq<SpikeEventView>,
    rest: spec_fn(N) -> bool,
    k: int,
)
    requires
        is_chain(layers),
        forall|l: int| 0 <= l < layers.len() ==> layer_at_rest(#[trigger] layers[l], rest),
        quiet_at_rest(rest),
        all_silent(events),
        layers.len() > 0 ==> all_of_width(events, layers[0].input_dim),
        0 <= k <= layers.len(),
    ensures
        all_silent(stream_through(layers, events, k)),
        stream_through(layers, events, k).len() == events.len(),
        k > 0 ==> all_of_width(stream_through(layers, events, k), layers[k - 1].neurons.len()),
    decreases k,
{
    if k > 0 {
        lemma_chain_stays_silent(layers, events, rest, k - 1);
        let entering = stream_through(layers, events, k - 1);
        let layer = layers[k - 1];
        assert(all_of_width(entering, layer.input_dim));
        layer.lemma_stream_shape(entering);
        assert forall|j: int| 0 <= j < entering.len() implies is_silent(
            (#[trigger] layer.stream(entering)[j]).spikes,
        ) by {
            lemma_layer_stays_at_rest(layer, entering, rest, j);
        }
    }
}

// A layer that selects its inputs

/// Every event of `events` carries only 0 and 1.
pub open spec fn all_binary(events: Seq<SpikeEventView>) -> bool {
    forall|k: int| 0 <= k < events.len() ==> is_binary((#[trigger] events[k]).spikes)
}

/// A neuron of which `model` holds fires exactly on the weighted sums that reach
/// `threshold`, and `model` holds of it afterwards.
pub open spec fn fires_from<N: Neuron>(model: spec_fn(N) -> bool, threshold: i128) -> bool {
    forall|n: N, t: u64, weighted_sum: i128|
        #![trigger n.fires(t, weighted_sum)]
        #![trigger n.next(t, weighted_sum)]
        model(n) ==> (n.fires(t, weighted_sum) <==> weighted_sum >= threshold) && model(
            n.next(t, weighted_sum),
        )
}

/// Row `i` of the extra weights is one unit at position `i` and zero elsewhere, and every
/// intra weight is zero; `model` holds of every neuron.
pub open spec fn selects_inputs<N: Neuron>(layer: LayerView<N>, model: spec_fn(N) -> bool) -> bool {
    &&& layer.input_dim == layer.neurons.len()
    &&& forall|i: int, j: int|
        0 <= i < layer.neurons.len() && 0 <= j < layer.neurons.len()
            ==> #[trigger] layer.extra_weights[i][j] == if i == j {
            WEIGHT_ONE
        } else {
            0
        }
    &&& forall|i: int, j: int|
        0 <= i < layer.neurons.len() && 0 <= j < layer.neurons.len()
            ==> #[trigger] layer.intra_weights[i][j] == 0
    &&& forall|i: int| 0 <= i < layer.neurons.len() ==> model(#[trigger] layer.neurons[i])
}

/// A network of one layer that selects its inputs, with neurons that fire exactly on the
/// weighted sums that reach a threshold above zero and of at most one unit, gives back the
/// input matrix.
pub proof fn lemma_selecting_layer_copies_input<N: Neuron>(
    net: NetworkView<N>,
    matrix: Seq<Seq<u8>>,
    duration: nat,
    model: spec_fn(N) -> bool,
    threshold: i128,
)
    requires
        net.wf(),
        net.layers.len() == 1,
        selects_inputs(net.layers[0], model),
        fires_from(model, threshold),
        0 < threshold <= WEIGHT_ONE,
        matrix.len() == net.input_dim(),
        is_rectangular(matrix, duration),
        is_binary_matrix(matrix),
        duration <= u64::MAX,
    ensures
        net.output(matrix, duration) == matrix,
{
    let layer = net.layers[0];
    let events = encode(matrix, duration);
    let fed = heard(events, net.skip_silent);
    assert forall|t: int| 0 <= t < events.len() implies is_binary((#[trigger] events[t]).spikes) by {
        assert forall|i: int| 0 <= i < matrix.len() implies column(matrix, t)[i] == 0 || column(
            matrix,
            t,
        )[i] == 1 by {
            assert(is_binary(matrix[i]));
        }
    }
    lemma_heard_keeps(events, net.skip_silent, |e: SpikeEventView| is_binary(e.spikes));
    lemma_heard_keeps(
        events,
        net.skip_silent,
        |e: SpikeEventView| e.spikes.len() == net.input_dim(),
    );
    assert(stream_through(net.layers, fed, 1) == layer.stream(stream_through(net.layers, fed, 0)));
    assert forall|k: int| 0 <= k < fed.len() implies #[trigger] layer.stream(fed)[k] == fed[k] by {
        lemma_selecting_layer_copies_events(layer, fed, model, threshold, k);
    }
    assert(layer.stream(fed) =~= fed);
    lemma_decode_of_encode(matrix, duration, net.skip_silent);
}

/// Decoding what was encoded gives the matrix back, whether or not the silent instants
/// were dropped in between.
pub proof fn lemma_decode_of_encode(matrix: Seq<Seq<u8>>, duration: nat, skip_silent: bool)
    requires
        is_rectangular(matrix, duration),
        duration <= u64::MAX,
    ensures
        decode(heard(encode(matrix, duration), skip_silent), matrix.len(), duration) == matrix,
{
    let events = encode(matrix, duration);
    assert(events.take(duration as int) =~= events);
    assert forall|i: int, t: int| 0 <= i < matrix.len() && 0 <= t < duration implies spike_at(
        heard(events, skip_silent),
        i,
        t,
    ) == matrix[i][t] by {
        lemma_spike_at_prefix(matrix, duration, skip_silent, duration as int, i, t);
    }
    assert(decode(heard(events, skip_silent), matrix.len(), duration) =~~= matrix) by {
        assert forall|i: int| 0 <= i < matrix.len() implies #[trigger] decode(
            heard(events, skip_silent),
            matrix.len(),
            duration,
        )[i] =~= matrix[i] by {
            assert(matrix[i].len() == duration);
        }
    }
}

/// After the first `k` instants have been encoded, the decoded matrix holds the first `k`
/// columns of the matrix and zero elsewhere.
pub proof fn lemma_spike_at_prefix(
    matrix: Seq<Seq<u8>>,
    duration: nat,
    skip_silent: bool,
    k: int,
    i: int,
    t: int,
)
    requires
        is_rectangular(matrix, duration),
        duration <= u64::MAX,
        0 <= k <= duration,
        0 <= i < matrix.len(),
        0 <= t < duration,
    ensures
        spike_at(heard(encode(matrix, duration).take(k), skip_silent), i, t) == if t < k {
            matrix[i][t]
        } else {
            0
        },
    decreases k,
{
    let events = encode(matrix, duration);
    if k == 0 {
        assert(events.take(0) =~= Seq::empty());
        lemma_audible_none();
    } else {
        lemma_spike_at_prefix(matrix, duration, skip_silent, k - 1, i, t);
        let earlier = events.take(k - 1);
        let event = events[k - 1];
        assert(events.take(k) =~= earlier.push(event));
        assert(event.ts == k - 1);
        assert(event.spikes[i] == matrix[i][k - 1]);
        lemma_audible_push(earlier, event);
        if skip_silent && is_silent(event.spikes) {
            assert(heard(events.take(k), skip_silent) == heard(earlier, skip_silent));
        } else {
            let before = heard(earlier, skip_silent);
            assert(heard(events.take(k), skip_silent) == before.push(event));
            assert(before.push(event).drop_last() =~= before);
            assert(before.push(event).last() == event);
        }
    }
}

/// Weights that are all zero weigh nothing.
pub proof fn lemma_dot_of_zero_weights(weights: Seq<i32>, spikes: Seq<u8>, n: int)
    requires
        0 <= n <= weights.len(),
        forall|j: int| 0 <= j < weights.len() ==> weights[j] == 0,
    ensures
        dot(weights, spikes, n) == 0,
    decreases n,
{
    if n > 0 {
        lemma_dot_of_zero_weights(weights, spikes, n - 1);
        assert(weights[n - 1] == 0);
        assert(0 * (spikes[n - 1] as int) == 0);
    }
}

/// Weights that are one unit at position `i` and zero elsewhere weigh the spike at `i`.
pub proof fn lemma_dot_of_unit(weights: Seq<i32>, spikes: Seq<u8>, i: int, n: int)
    requires
        0 <= n <= weights.len(),
        0 <= i < weights.len(),
        forall|j: int|
            0 <= j < weights.len() ==> weights[j] == if j == i {
                WEIGHT_ONE
            } else {
                0
            },
    ensures
        dot(weights, spikes, n) == if i < n {
            WEIGHT_ONE * spikes[i]
        } else {
            0
        },
    decreases n,
{
    if n > 0 {
        lemma_dot_of_unit(weights, spikes, i, n - 1);
        if n - 1 != i {
            assert(weights[n - 1] == 0);
            assert(0 * (spikes[n - 1] as int) == 0);
        }
    }
}

/// In a layer that selects its inputs, neuron `i` is handed one unit if input `i` spikes
/// and zero if not.
pub proof fn lemma_selected_sum<N: Neuron>(
    layer: LayerView<N>,
    model: spec_fn(N) -> bool,
    input: Seq<u8>,
    i: int,
)
    requires
        layer.wf(),
        selects_inputs(layer, model),
        input.len() == layer.input_dim,
        0 <= i < layer.neurons.len(),
    ensures
        layer.weighted_sum(i, input) == WEIGHT_ONE * input[i],
{
    let n = layer.neurons.len() as int;
    assert(layer.extra_weights[i].len() == n);
    assert(layer.intra_weights[i].len() == n);
    assert forall|j: int| 0 <= j < n implies layer.extra_weights[i][j] == if j == i {
        WEIGHT_ONE
    } else {
        0
    } by {
        assert(layer.extra_weights[i][j] == if i == j {
            WEIGHT_ONE
        } else {
            0
        });
    }
    lemma_dot_of_unit(layer.extra_weights[i], input, i, n);
    assert forall|j: int| 0 <= j < n implies layer.intra_weights[i][j] == 0 by {
        assert(layer.intra_weights[i][j] == 0);
    }
    lemma_dot_of_zero_weights(layer.intra_weights[i], layer.prev_output_spikes, n);
    assert(layer.intra_weights[i][i] == 0);
    assert(0 * (layer.prev_output_spikes[i] as int) == 0);
    assert(0 <= WEIGHT_ONE * input[i] <= 255 * WEIGHT_ONE) by (nonlinear_arith)
        requires
            0 <= input[i] <= 255,
            WEIGHT_ONE == 1_000_000,
    ;
}

/// A layer that selects its inputs emits the events that it receives.
pub proof fn lemma_selecting_layer_copies_events<N: Neuron>(
    layer: LayerView<N>,
    events: Seq<SpikeEventView>,
    model: spec_fn(N) -> bool,
    threshold: i128,
    k: int,
)
    requires
        layer.wf(),
        selects_inputs(layer, model),
        fires_from(model, threshold),
        0 < threshold <= WEIGHT_ONE,
        all_binary(events),
        all_of_width(events, layer.input_dim),
        0 <= k <= events.len(),
    ensures
        layer.after(events, k).wf(),
        selects_inputs(layer.after(events, k), model),
        k < events.len() ==> layer.after(events, k).output(events[k].ts, events[k].spikes)
            == events[k].spikes,
    decreases k,
{
    layer.lemma_after_keeps_shape(events, k);
    if k > 0 {
        lemma_selecting_layer_copies_events(layer, events, model, threshold, k - 1);
        let before = layer.after(events, k - 1);
        let event = events[k - 1];
        assert(layer.after(events, k) == before.step(event.ts, event.spikes));
        assert forall|i: int| 0 <= i < before.neurons.len() implies model(
            #[trigger] layer.after(events, k).neurons[i],
        ) by {
            assert(model(before.neurons[i]));
        }
    }
    if k < events.len() {
        let now = layer.after(events, k);
        let event = events[k];
        assert forall|i: int| 0 <= i < now.neurons.len() implies #[trigger] now.output(
            event.ts,
            event.spikes,
        )[i] == event.spikes[i] by {
            lemma_selected_sum(now, model, event.spikes, i);
            assert(model(now.neurons[i]));
            assert(event.spikes[i] == 0 || event.spikes[i] == 1);
        }
        assert(now.output(event.ts, event.spikes) =~= event.spikes);
    }
}

} // verus!
