//! A stack of layers as a pipeline: the events that leave one layer enter the next.

use vstd::prelude::*;
use crate::codec::{
    decode, decode_spikes, encode, encode_spikes, fits, is_binary_matrix, is_rectangular,
    lemma_decode_is_binary,
};
use crate::error::{ConstructionError, InputContractError};
use crate::layer::{all_of_width, is_layer_clone, Layer, LayerView};
use crate::neuron::Neuron;
use crate::spike::{heard, lemma_heard_keeps, retain_heard, SpikeEvent, SpikeEventView};

verus! {

/// Every layer is well formed and takes as many inputs as the layer before it has neurons.
pub open spec fn is_chain<N: Neuron>(layers: Seq<LayerView<N>>) -> bool {
    &&& forall|l: int| 0 <= l < layers.len() ==> (#[trigger] layers[l]).wf()
    &&& forall|l: int|
        0 < l < layers.len() ==> (#[trigger] layers[l]).input_dim == layers[l - 1].neurons.len()
}

/// The events that leave layer `k - 1` when `events` enter layer 0; for `k` = 0, `events`.
pub open spec fn stream_through<N: Neuron>(
    layers: Seq<LayerView<N>>,
    events: Seq<SpikeEventView>,
    k: int,
) -> Seq<SpikeEventView>
    decreases k,
{
    if k <= 0 {
        events
    } else {
        layers[k - 1].stream(stream_through(layers, events, k - 1))
    }
}

/// The layers after `events` have entered layer 0 and every layer has processed what the
/// layer before it emitted.
pub open spec fn layers_after<N: Neuron>(
    layers: Seq<LayerView<N>>,
    events: Seq<SpikeEventView>,
) -> Seq<LayerView<N>> {
    Seq::new(
        layers.len(),
        |l: int| layers[l].after(stream_through(layers, events, l), events.len() as int),
    )
}

/// Every layer emits one event, of its own width, for each event that entered the first.
pub proof fn lemma_stream_through_shape<N: Neuron>(
    layers: Seq<LayerView<N>>,
    events: Seq<SpikeEventView>,
    k: int,
)
    requires
        is_chain(layers),
        0 <= k <= layers.len(),
    ensures
        stream_through(layers, events, k).len() == events.len(),
        k > 0 ==> all_of_width(stream_through(layers, events, k), layers[k - 1].neurons.len()),
        forall|j: int|
            0 <= j < events.len() ==> (#[trigger] stream_through(layers, events, k)[j]).ts
                == events[j].ts,
    decreases k,
{
    if k > 0 {
        lemma_stream_through_shape(layers, events, k - 1);
        layers[k - 1].lemma_stream_shape(stream_through(layers, events, k - 1));
    }
}

/// The layers keep their shapes, and so stay a chain, whatever enters the first.
pub proof fn lemma_layers_after_chain<N: Neuron>(
    layers: Seq<LayerView<N>>,
    events: Seq<SpikeEventView>,
)
    requires
        is_chain(layers),
    ensures
        is_chain(layers_after(layers, events)),
        layers_after(layers, events).len() == layers.len(),
        forall|l: int|
            0 <= l < layers.len() ==> (#[trigger] layers_after(layers, events)[l]).input_dim
                == layers[l].input_dim && layers_after(layers, events)[l].neurons.len()
                == layers[l].neurons.len() && layers_after(layers, events)[l].extra_weights
                == layers[l].extra_weights && layers_after(layers, events)[l].intra_weights
                == layers[l].intra_weights,
{
    assert forall|l: int| 0 <= l < layers.len() implies (#[trigger] layers_after(
        layers,
        events,
    )[l]).wf() && layers_after(layers, events)[l].input_dim == layers[l].input_dim
        && layers_after(layers, events)[l].neurons.len() == layers[l].neurons.len()
        && layers_after(layers, events)[l].extra_weights == layers[l].extra_weights
        && layers_after(layers, events)[l].intra_weights == layers[l].intra_weights by {
        layers[l].lemma_after_keeps_shape(
            stream_through(layers, events, l),
            events.len() as int,
        );
    }
}

/// `copies` holds a clone of each layer of `layers` in its place.
pub open spec fn are_layer_clones<N: Neuron + Clone>(
    layers: Seq<LayerView<N>>,
    copies: Seq<LayerView<N>>,
) -> bool {
    &&& copies.len() == layers.len()
    &&& forall|l: int| 0 <= l < layers.len() ==> is_layer_clone(#[trigger] layers[l], copies[l])
}

/// The defect for which a list of layers is rejected as a network, if it has one.
pub open spec fn chain_defect<N: Neuron>(layers: Seq<LayerView<N>>) -> Option<
    ConstructionError,
> {
    if layers.len() == 0 {
        Some(ConstructionError::NoLayers)
    } else if exists|l: int|
        0 < l < layers.len() && (#[trigger] layers[l]).input_dim != layers[l - 1].neurons.len() {
        Some(ConstructionError::LayerWidthMismatch)
    } else {
        None
    }
}

/// Tells which defect keeps `layers` from being a network, if any.
pub fn check_chain<N: Neuron>(layers: &Vec<Layer<N>>) -> (defect: Option<ConstructionError>)
    ensures
        defect == chain_defect(layers.deep_view()),
        defect is None <==> layers@.len() > 0 && is_chain(layers.deep_view()),
{
    let ghost views = layers.deep_view();
    if layers.len() == 0 {
        return Some(ConstructionError::NoLayers);
    }
    let mut l: usize = 1;
    let mut width = layers[0].get_neurons_number();
    assert(views[0] == layers@[0]@);
    while l < layers.len()
        invariant
            1 <= l <= layers@.len(),
            views == layers.deep_view(),
            width == views[l - 1].neurons.len(),
            forall|j: int| 0 <= j < l ==> (#[trigger] views[j]).wf(),
            forall|j: int| 0 < j < l ==> (#[trigger] views[j]).input_dim == views[j - 1].neurons.len(),
        decreases layers@.len() - l,
    {
        assert(views[l as int] == layers@[l as int]@);
        if layers[l].get_input_dim() != width {
            return Some(ConstructionError::LayerWidthMismatch);
        }
        width = layers[l].get_neurons_number();
        l += 1;
    }
    None
}

/// Sends `events` through `layers`: the first layer processes the events that are heard,
/// every other layer what the layer before it emitted, and what the last layer emits is
/// handed back. With `skip_silent` an event without a spike is not heard.
pub fn process_events<N: Neuron>(
    layers: &mut Vec<Layer<N>>,
    events: Vec<SpikeEvent>,
    skip_silent: bool,
) -> (emitted: Vec<SpikeEvent>)
    requires
        is_chain(old(layers).deep_view()),
        old(layers)@.len() > 0 ==> all_of_width(
            events.deep_view(),
            old(layers).deep_view()[0].input_dim,
        ),
    ensures
        emitted.deep_view() == stream_through(
            old(layers).deep_view(),
            heard(events.deep_view(), skip_silent),
            old(layers)@.len() as int,
        ),
        final(layers).deep_view() == layers_after(
            old(layers).deep_view(),
            heard(events.deep_view(), skip_silent),
        ),
        is_chain(final(layers).deep_view()),
        final(layers)@.len() == old(layers)@.len(),
{
    let ghost before = layers.deep_view();
    let ghost all = events.deep_view();
    let mut stream = retain_heard(events, skip_silent);
    let ghost fed = stream.deep_view();
    proof {
        if before.len() > 0 {
            lemma_heard_keeps(
                all,
                skip_silent,
                |e: SpikeEventView| e.spikes.len() == before[0].input_dim,
            );
        }
    }
    let mut l: usize = 0;
    while l < layers.len()
        invariant
            l <= layers@.len(),
            layers@.len() == before.len(),
            is_chain(before),
            stream.deep_view() == stream_through(before, fed, l as int),
            l == 0 && before.len() > 0 ==> all_of_width(fed, before[0].input_dim),
            forall|j: int|
                0 <= j < l ==> (#[trigger] layers@[j])@ == before[j].after(
                    stream_through(before, fed, j),
                    fed.len() as int,
                ),
            forall|j: int| l <= j < layers@.len() ==> (#[trigger] layers@[j])@ == before[j],
        decreases layers@.len() - l,
    {
        proof {
            lemma_stream_through_shape(before, fed, l as int);
        }
        stream = layers[l].process(&stream);
        l += 1;
    }
    assert(layers.deep_view() =~= layers_after(before, fed));
    proof {
        lemma_layers_after_chain(before, fed);
    }
    stream
}

/// What a network holds.
pub struct NetworkView<N> {
    /// The layers, from the one that takes the input to the one that gives the output.
    pub layers: Seq<LayerView<N>>,
    /// Whether an instant without any input spike is withheld from the first layer.
    pub skip_silent: bool,
}

impl<N: Neuron> NetworkView<N> {
    /// There is a layer, and the layers form a chain.
    pub open spec fn wf(self) -> bool {
        &&& self.layers.len() > 0
        &&& is_chain(self.layers)
    }

    /// The number of inputs of the network: that of its first layer.
    pub open spec fn input_dim(self) -> nat {
        self.layers[0].input_dim
    }

    /// The number of outputs of the network: the neurons of its last layer.
    pub open spec fn output_dim(self) -> nat {
        self.layers.last().neurons.len()
    }

    /// The events that leave the last layer when `events` are fed to the network.
    pub open spec fn emitted(self, events: Seq<SpikeEventView>) -> Seq<SpikeEventView> {
        stream_through(self.layers, heard(events, self.skip_silent), self.layers.len() as int)
    }

    /// The network after `events` have been fed to it.
    pub open spec fn after_events(self, events: Seq<SpikeEventView>) -> Self {
        NetworkView { layers: layers_after(self.layers, heard(events, self.skip_silent)), ..self }
    }

    /// The output matrix for an input matrix of `duration` instants: the input is encoded,
    /// fed to the network, and what leaves the last layer is decoded.
    pub open spec fn output(self, matrix: Seq<Seq<u8>>, duration: nat) -> Seq<Seq<u8>> {
        decode(self.emitted(encode(matrix, duration)), self.output_dim(), duration)
    }

    /// The network after it has processed an input matrix of `duration` instants.
    pub open spec fn after(self, matrix: Seq<Seq<u8>>, duration: nat) -> Self {
        self.after_events(encode(matrix, duration))
    }

    /// The output matrix holds only 0 and 1.
    pub proof fn lemma_output_is_binary(self, matrix: Seq<Seq<u8>>, duration: nat)
        requires
            self.wf(),
        ensures
            is_binary_matrix(self.output(matrix, duration)),
    {
        let fed = heard(encode(matrix, duration), self.skip_silent);
        let last = self.layers.len() - 1;
        let entering = stream_through(self.layers, fed, last);
        assert(self.emitted(encode(matrix, duration)) == self.layers[last].stream(entering));
        self.layers[last].lemma_stream_shape(entering);
        lemma_decode_is_binary(
            self.emitted(encode(matrix, duration)),
            self.output_dim(),
            duration,
        );
    }

    /// What leaves the last layer fits the output matrix: every event has one value per
    /// output and an instant of the input.
    pub proof fn lemma_emitted_fits(self, matrix: Seq<Seq<u8>>, duration: nat)
        requires
            self.wf(),
            duration <= u64::MAX,
        ensures
            fits(self.emitted(encode(matrix, duration)), self.output_dim(), duration),
    {
        let events = encode(matrix, duration);
        let fed = heard(events, self.skip_silent);
        lemma_heard_keeps(events, self.skip_silent, |e: SpikeEventView| e.ts < duration);
        lemma_stream_through_shape(self.layers, fed, self.layers.len() as int);
    }
}

/// Runs a matrix of `duration` instants through `layers`: encodes it, feeds the events to
/// the first layer and decodes what the last layer emits. A value other than 0 and 1 is
/// rejected before any layer has seen an event.
pub fn process_matrix<N: Neuron>(
    layers: &mut Vec<Layer<N>>,
    skip_silent: bool,
    spikes: &Vec<Vec<u8>>,
    duration: usize,
) -> (res: Result<Vec<Vec<u8>>, InputContractError>)
    requires
        (NetworkView { layers: old(layers).deep_view(), skip_silent }).wf(),
        spikes@.len() == old(layers).deep_view()[0].input_dim,
        is_rectangular(spikes.deep_view(), duration as nat),
    ensures
        res is Ok <==> is_binary_matrix(spikes.deep_view()),
        res matches Ok(output) ==> {
            &&& output@.len() == old(layers).deep_view().last().neurons.len()
            &&& is_rectangular(output.deep_view(), duration as nat)
            &&& is_binary_matrix(output.deep_view())
            &&& output.deep_view() == (NetworkView {
                layers: old(layers).deep_view(),
                skip_silent,
            }).output(spikes.deep_view(), duration as nat)
            &&& final(layers).deep_view() == (NetworkView {
                layers: old(layers).deep_view(),
                skip_silent,
            }).after(spikes.deep_view(), duration as nat).layers
        },
        res matches Err(e) ==> e == InputContractError::NonBinarySpike && final(layers).deep_view()
            == old(layers).deep_view(),
        (NetworkView { layers: final(layers).deep_view(), skip_silent }).wf(),
{
    let ghost net = NetworkView { layers: layers.deep_view(), skip_silent };
    let ghost matrix = spikes.deep_view();
    let events = match encode_spikes(spikes, duration) {
        Ok(events) => events,
        Err(e) => {
            return Err(e);
        },
    };
    let width = layers[layers.len() - 1].get_neurons_number();
    let emitted = process_events(layers, events, skip_silent);
    proof {
        net.lemma_emitted_fits(matrix, duration as nat);
        net.lemma_output_is_binary(matrix, duration as nat);
    }
    let output = decode_spikes(&emitted, width, duration);
    Ok(output)
}

} // verus!
